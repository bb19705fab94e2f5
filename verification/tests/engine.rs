//! The engine, driven as a host drives it: blocks opened, chunks opened and closed, sessions served.

use lf_engine::api::{
    Action, Command, Event, InputSend, Instrument, LaneState, NoteTarget, ProcessContext, Refusal, SlotEventKind, SlotKind,
    TimedCommand, Unit,
};
use lf_engine::engine::apply::Sound;
use lf_engine::engine::{Engine, EngineConfig, EngineHandle};
use lf_engine::float::{Double, Single};
use lf_engine::grid::Frame;
use lf_engine::session::{Load, LoadTrack, SessionError, SessionJob, Snapshot};
use lf_engine::slots::SlotChange;

const RATE: u32 = 1000;
/// A bar at 120 bpm.
const BAR: Frame = 2000;
const CAPACITY: Frame = 60_000;

fn double(x: f64) -> Double {
    Double { bits: x.to_bits() }
}

fn single(x: f32) -> Single {
    Single { bits: x.to_bits() }
}

fn sum(a: Single, b: Single) -> Single {
    single(f32::from_bits(a.bits) + f32::from_bits(b.bits))
}

fn floats(v: &[Single]) -> Vec<f32> {
    v.iter().map(|x| f32::from_bits(x.bits)).collect()
}

struct Rig {
    engine: Engine,
    host: EngineHandle,
    block: usize,
    align: Frame,
    said: Vec<Event>,
    /// What the lanes played, frame by frame, lane by lane.
    heard: Vec<Vec<f32>>,
    /// The input at a frame.
    input: fn(Frame) -> f32,
}

fn quiet(_: Frame) -> f32 {
    0.0
}

fn ramp(f: Frame) -> f32 {
    f as f32
}

fn rig(block: usize, input: fn(Frame) -> f32) -> Rig {
    let config = EngineConfig {
        sample_rate: RATE,
        capacity: CAPACITY,
        max_block: 512,
        command_capacity: 64,
        event_capacity: 4096,
        limiter_latency: 0,
    };
    let (engine, host) = Engine::new(config);
    Rig { engine, host, block, align: 0, said: Vec::new(), heard: vec![Vec::new(); 5], input }
}

impl Rig {
    fn send(&mut self, command: Command) {
        assert!(self.host.commands.push(TimedCommand { frame: None, command }).is_ok());
    }

    fn send_at(&mut self, frame: Frame, command: Command) {
        assert!(self.host.commands.push(TimedCommand { frame: Some(frame), command }).is_ok());
    }

    fn block(&mut self, n: usize, xrun: bool, skip: Frame) {
        let frame = self.engine.next_frame + skip;
        let ctx = ProcessContext { frame, xrun, align_frames: self.align, input_frames: 0 };
        self.engine.open_block(&ctx, n);
        self.engine.serve_session(false);
        while self.engine.cx.now < self.engine.next_frame {
            let from = self.engine.cx.now;
            let next = self.engine.open_chunk();
            let until = self.engine.slots_until(next);
            if until > self.engine.rack.cursor {
                self.engine.slots_rendered(until);
            }
            let mut record_from = from;
            let mut to = next;
            if self.engine.looper.listening(&self.engine.cx) {
                // A level of one over the window triggers.
                let required = double(4.0);
                for f in from..next {
                    let x = (self.input)(f);
                    let d = &self.engine.looper.control.detector;
                    let mut level = f64::from_bits(d.energy().bits) + (x * x) as f64;
                    if let Some(old) = d.leaving() {
                        level -= f64::from_bits(old.bits);
                    }
                    if self.engine.looper.hear(&self.engine.cx, single(x), double((x * x) as f64), double(level), required) {
                        let active = (0..self.engine.looper.control.detector.heard())
                            .find(|&i| f32::from_bits(self.engine.looper.control.detector.history_at(i).bits) != 0.0);
                        self.engine.begin_take(f + 1, active);
                        record_from = f + 1;
                        to = f + 1;
                        break;
                    }
                }
            }
            for lane in 0..5 {
                let mut out = vec![single(0.0); (to - from) as usize];
                self.engine.looper.render(&self.engine.cx, lane, from, &mut out);
                self.heard[lane].extend(floats(&out));
            }
            let tap: Vec<Single> = (record_from..to).map(|f| single((self.input)(f))).collect();
            self.engine.close_chunk(record_from, to, &tap, &sum);
        }
        self.engine.advance_session(n as Frame);
        while let Ok(e) = self.host.events.pop() {
            self.said.push(e);
        }
    }

    fn run(&mut self, frames: Frame) {
        let mut left = frames as usize;
        while left > 0 {
            let n = self.block.min(left);
            self.block(n, false, 0);
            left -= n;
        }
    }

    fn state(&self, lane: usize) -> LaneState {
        self.engine.looper.info(lane).state
    }

    /// A first take of `bars` bars on lane 0, from a fresh engine.
    fn first_take(&mut self, bars: Frame) {
        self.send(Command::RecDub(0));
        let mut waited = 0;
        while self.engine.looper.recorder().and_then(|r| r.1).is_none() || self.engine.looper.info(0).armed {
            self.run(1);
            waited += 1;
            assert!(waited < 3 * BAR, "the take never starts");
        }
        let start = self.engine.looper.recorder().and_then(|r| r.1).unwrap();
        let left = start + bars * BAR - self.engine.next_frame;
        self.run(left);
        self.send(Command::RecDub(0));
        self.run(10);
    }
}

#[test]
fn a_first_take_becomes_the_master_loop() {
    let mut r = rig(100, ramp);
    r.first_take(2);
    r.run(200);
    assert_eq!(r.engine.looper.master(), 2 * BAR);
    assert_eq!(r.state(0), LaneState::Playing);
    let pcm = floats(&r.engine.looper.loop_pcm(&r.engine.cx, 0));
    assert_eq!(pcm.len() as Frame, 2 * BAR);
    assert!(pcm.windows(2).all(|w| w[1] == w[0] + 1.0), "the input, frame after frame");
    // The grid starts where the take did: it plays position (f - anchor) mod master at frame f.
    let anchor = r.engine.looper.anchor();
    let before = r.heard[0].len();
    let at = r.engine.next_frame;
    r.run(3 * BAR);
    for (k, &x) in r.heard[0][before..].iter().enumerate() {
        let pos = (at + k as Frame - anchor).rem_euclid(2 * BAR);
        assert_eq!(x, pcm[pos as usize], "frame {k}");
    }
    assert!(r.said.iter().any(|e| matches!(e, Event::Transport { master, locked: true, .. } if *master == 2 * BAR)));
}

#[test]
fn any_block_size_plays_the_same() {
    let script = |block: usize| {
        let mut r = rig(block, ramp);
        r.align = 37;
        r.send_at(50, Command::RecDub(0));
        r.send_at(7000, Command::RecDub(0));
        r.send_at(9100, Command::RecDub(1));
        r.send_at(15_333, Command::RecDub(1));
        r.send_at(17_003, Command::RecDub(1));
        r.send_at(20_001, Command::RecDub(0));
        r.send_at(26_017, Command::RecDub(0));
        r.send_at(29_990, Command::Undo(0));
        r.send_at(31_111, Command::Reverse(1));
        r.send_at(33_333, Command::Copy(1));
        r.send_at(36_001, Command::PlayStop(0));
        r.send_at(37_000, Command::SetFixedLength(true));
        r.send_at(37_000, Command::SetFixedBars(double(32.0)));
        r.send_at(37_001, Command::PlayStop(0));
        r.send_at(37_777, Command::RecDub(3));
        r.send_at(55_000, Command::RecDub(3));
        r.run(60_000);
        assert!(r.engine.looper.master() > 6 * BAR, "the last take multiplied the loop");
        let said: Vec<Event> = r.said.clone();
        (r.heard, said)
    };
    let (heard, said) = script(512);
    let lanes: Vec<Event> = said.iter().filter(|e| !matches!(e, Event::Beat { .. })).copied().collect();
    for lane in 0..3 {
        assert!(heard[lane].iter().any(|&x| x != 0.0), "lane {lane}: {lanes:?}");
    }
    for block in [1usize, 64, 128, 333] {
        let (h, s) = script(block);
        assert!(h == heard, "block {block}");
        assert_eq!(s, said, "block {block}");
    }
}

#[test]
fn a_take_past_the_loop_multiplies_it() {
    for (block, reversed) in [(64usize, false), (512, true)] {
        let mut r = rig(block, ramp);
        r.first_take(1);
        r.run(100);
        let plain = floats(&r.engine.looper.loop_pcm(&r.engine.cx, 0));
        if reversed {
            r.send(Command::Reverse(0));
        }
        r.run(2 * BAR);
        let anchor = r.engine.looper.anchor();
        assert_eq!(r.engine.looper.next_take_max_bars(&r.engine.cx, 120), 30);
        r.send(Command::SetFixedLength(true));
        r.send(Command::SetFixedBars(double(3.0)));
        r.send(Command::RecDub(1));
        r.run(1);
        let from = r.heard[0].len();
        r.run(8 * BAR);
        assert_eq!(r.state(1), LaneState::Playing);
        // The take is the new master, and the first loop as long, with its phase and its sound unchanged.
        assert_eq!(r.engine.looper.master(), 3 * BAR);
        assert_eq!((r.engine.looper.anchor() - anchor) % BAR, 0);
        assert_eq!(r.engine.looper.info(0).length, 3 * BAR);
        assert_eq!(r.engine.looper.info(1).length, 3 * BAR);
        let heard = &r.heard[0][from..];
        for k in BAR as usize..heard.len() {
            assert_eq!(heard[k], heard[k - BAR as usize], "frame {k}");
        }
        let mut long = floats(&r.engine.looper.loop_pcm(&r.engine.cx, 0));
        if reversed {
            long.reverse();
        }
        assert_eq!(long.len() as Frame, 3 * BAR);
        for (k, &x) in long.iter().enumerate() {
            assert_eq!(x, plain[k % BAR as usize]);
        }
        let take = floats(&r.engine.looper.loop_pcm(&r.engine.cx, 1));
        assert!(take.windows(2).all(|w| w[1] == w[0] + 1.0), "three bars of input");
        assert_eq!(take[0], r.engine.looper.anchor() as f32);
    }
}

#[test]
fn a_take_past_the_loop_is_whole_loops() {
    // Three bars over a loop of two: one loop.
    let mut r = rig(100, ramp);
    r.first_take(2);
    r.send(Command::SetFixedLength(true));
    r.send(Command::SetFixedBars(double(3.0)));
    r.send(Command::RecDub(1));
    r.run(8 * BAR);
    assert_eq!(r.engine.looper.master(), 2 * BAR);
    // Eight bars, stopped inside the fifth: two loops.
    r.send(Command::SetFixedBars(double(8.0)));
    r.send(Command::RecDub(2));
    while r.engine.looper.recorder().is_none() || r.engine.looper.info(2).armed {
        r.run(1);
    }
    r.run(4 * BAR + BAR / 2);
    r.send(Command::RecDub(2));
    r.run(BAR);
    assert_eq!(r.state(2), LaneState::Playing);
    assert_eq!(r.engine.looper.master(), 4 * BAR);
    for lane in 0..3 {
        assert_eq!(r.engine.looper.info(lane).length, 4 * BAR, "lane {lane}");
    }
}

#[test]
fn an_undo_target_grows_with_its_loop() {
    let mut r = rig(64, ramp);
    r.first_take(1);
    r.run(100);
    let plain = floats(&r.engine.looper.loop_pcm(&r.engine.cx, 0));
    r.send(Command::RecDub(0));
    r.run(500);
    r.send(Command::RecDub(0));
    r.run(BAR);
    r.send(Command::SetFixedLength(true));
    r.send(Command::SetFixedBars(double(2.0)));
    r.send(Command::RecDub(1));
    r.run(5 * BAR);
    assert_eq!(r.engine.looper.master(), 2 * BAR);
    r.send(Command::Undo(0));
    r.run(3 * BAR);
    let undone = floats(&r.engine.looper.loop_pcm(&r.engine.cx, 0));
    assert_eq!(undone.len() as Frame, 2 * BAR);
    for (k, &x) in undone.iter().enumerate() {
        assert_eq!(x, plain[k % BAR as usize]);
    }
    // Every buffer holds its whole loop by now, and that is what plays.
    let live = floats(r.engine.looper.live_buffer(&r.engine.cx, 0));
    assert_eq!(live[..2 * BAR as usize], undone[..]);
}

#[test]
fn an_overdub_sums_and_undo_takes_it_back_and_forth() {
    let mut r = rig(64, ramp);
    r.first_take(1);
    r.run(100);
    let plain = floats(&r.engine.looper.loop_pcm(&r.engine.cx, 0));
    r.send(Command::RecDub(0));
    r.run(500);
    assert_eq!(r.state(0), LaneState::Overdubbing);
    r.send(Command::RecDub(0));
    r.run(BAR);
    assert_eq!(r.state(0), LaneState::Playing);
    let layered = floats(&r.engine.looper.loop_pcm(&r.engine.cx, 0));
    assert!(layered != plain);
    assert!(layered.iter().zip(&plain).all(|(a, b)| a >= b));
    assert!(r.engine.looper.info(0).can_undo);
    r.send(Command::Undo(0));
    r.run(BAR);
    assert_eq!(floats(&r.engine.looper.loop_pcm(&r.engine.cx, 0)), plain);
    r.send(Command::Undo(0));
    r.run(BAR);
    assert_eq!(floats(&r.engine.looper.loop_pcm(&r.engine.cx, 0)), layered);
}

#[test]
fn reverse_plays_the_loop_backwards_and_back_again() {
    let mut r = rig(64, ramp);
    r.first_take(1);
    r.run(100);
    let plain = floats(&r.engine.looper.loop_pcm(&r.engine.cx, 0));
    r.send(Command::Reverse(0));
    r.run(BAR + 10);
    assert!(r.engine.looper.info(0).reversed);
    let mut back = floats(&r.engine.looper.loop_pcm(&r.engine.cx, 0));
    back.reverse();
    assert_eq!(back, plain);
    r.send(Command::Reverse(0));
    r.run(BAR + 10);
    assert_eq!(floats(&r.engine.looper.loop_pcm(&r.engine.cx, 0)), plain);
}

#[test]
fn copy_takes_the_first_empty_lane_and_clear_empties_one() {
    let mut r = rig(64, ramp);
    r.first_take(1);
    r.run(100);
    r.send(Command::Copy(0));
    r.run(100);
    assert!(r.said.iter().any(|e| matches!(e, Event::Copied { from: 0, to: 1, .. })));
    let (a, b) = (r.engine.looper.loop_pcm(&r.engine.cx, 0), r.engine.looper.loop_pcm(&r.engine.cx, 1));
    assert_eq!(floats(&a), floats(&b));
    r.send(Command::Clear(0));
    r.run(10);
    assert_eq!((r.state(0), r.state(1)), (LaneState::Empty, LaneState::Playing));
    assert_eq!(r.engine.looper.master(), BAR, "another lane holds the grid");
    r.send(Command::ClearAll);
    r.run(10);
    assert_eq!((r.state(1), r.engine.looper.master()), (LaneState::Empty, 0));
}

#[test]
fn a_hands_free_press_that_does_nothing_says_why() {
    let mut r = rig(64, quiet);
    r.run(64);
    r.said.clear();
    r.send(Command::Action(Action::PlayStop));
    r.send(Command::Action(Action::Undo));
    r.send(Command::Action(Action::Clear));
    r.run(64);
    let reasons: Vec<Refusal> =
        r.said.iter().filter_map(|e| if let Event::Refused { reason, .. } = e { Some(*reason) } else { None }).collect();
    assert_eq!(reasons, [Refusal::Empty, Refusal::NoUndo, Refusal::NoClear]);
    assert!(reasons.iter().all(|r| !r.text().is_empty()));
    r.send(Command::Action(Action::NextTrack));
    r.run(64);
    assert_eq!(r.engine.looper.selected(), 1);
}

#[test]
fn a_clear_press_asks_again_first() {
    let mut r = rig(64, ramp);
    r.first_take(1);
    r.run(100);
    r.said.clear();
    r.send(Command::Action(Action::Clear));
    r.run(64);
    assert!(r.said.iter().any(|e| matches!(e, Event::Refused { reason: Refusal::ConfirmClear, .. })));
    assert_eq!(r.state(0), LaneState::Playing);
    r.send(Command::Action(Action::Clear));
    r.run(64);
    assert_eq!(r.state(0), LaneState::Empty);
}

fn burst(f: Frame) -> f32 {
    if f >= 5000 {
        2.0
    } else {
        0.0
    }
}

#[test]
fn auto_starts_on_the_sound_and_keeps_its_onset() {
    let mut r = rig(64, burst);
    r.send(Command::SetAutoRecord(true));
    r.send(Command::RecDub(0));
    r.run(4990);
    assert!(r.engine.looper.info(0).auto_armed, "it listens");
    r.run(100);
    assert!(!r.engine.looper.info(0).auto_armed, "it records");
    assert_eq!(r.state(0), LaneState::Recording);
    let take = floats(&r.engine.looper.take_pcm(&r.engine.cx, 0));
    assert!(take.iter().any(|&x| x == 2.0));
    let first = take.iter().position(|&x| x == 2.0).unwrap();
    assert!(first <= 40 && take[first..].iter().all(|&x| x == 2.0));
}

#[test]
fn a_stopped_device_punches_out() {
    let mut r = rig(100, ramp);
    r.send(Command::RecDub(0));
    r.run(2 * BAR);
    r.engine.punch_out();
    assert_ne!(r.state(0), LaneState::Recording);
    // What records a whole bar commits it.
    let mut r = rig(100, ramp);
    r.first_take(1);
    r.run(100);
    r.send(Command::RecDub(0));
    r.run(300);
    assert_eq!(r.state(0), LaneState::Overdubbing);
    r.engine.punch_out();
    assert_eq!(r.state(0), LaneState::Playing);
}

#[test]
fn notes_and_sends_reach_the_renderer_on_their_frames() {
    let mut r = rig(64, quiet);
    r.send(Command::SelectInstrument(NoteTarget::Builtin(Instrument::Lead)));
    r.send_at(100, Command::NoteOn(60, single(0.5)));
    r.send_at(130, Command::NoteOff(60));
    r.send_at(140, Command::SetInputSend(InputSend::Echo, true));
    r.run(256);
    let sounds: Vec<(Frame, Sound)> = r.engine.sounds.iter().map(|s| (s.frame, s.sound)).collect();
    assert_eq!(
        sounds,
        [
            (0, Sound::Select(Some(Instrument::Lead))),
            (100, Sound::NoteOn(60, single(0.5))),
            (130, Sound::NoteOff(60)),
            (140, Sound::Send(InputSend::Echo, true)),
        ]
    );
}

#[test]
fn a_full_command_table_leaves_the_rest_in_the_ring() {
    let mut r = rig(64, quiet);
    for k in 0..64 {
        r.send_at(10_000 + k, Command::SetMetronome(k % 2 == 0));
    }
    r.run(64);
    let waiting = r.engine.table.slots.iter().filter(|s| s.is_some()).count();
    assert!(waiting > 0);
    r.run(11_000);
    assert_eq!(r.engine.table.slots.iter().filter(|s| s.is_some()).count(), 0);
    assert_eq!(r.engine.diag().commands_dropped, 0);
}

#[test]
fn a_full_event_ring_drops_and_counts() {
    let config = EngineConfig {
        sample_rate: RATE,
        capacity: CAPACITY,
        max_block: 512,
        command_capacity: 64,
        event_capacity: 3,
        limiter_latency: 0,
    };
    let (engine, host) = Engine::new(config);
    let mut r = Rig { engine, host, block: 512, align: 0, said: Vec::new(), heard: vec![Vec::new(); 5], input: quiet };
    r.block(512, false, 0);
    assert_eq!(r.said.len(), 3);
    assert!(r.engine.diag().events_dropped > 0);
    assert_eq!(r.engine.diag().xruns, 0);
    r.block(10, true, 0);
    assert_eq!(r.engine.diag().xruns, 1);
}

#[test]
fn a_plugin_unit_goes_in_and_comes_back() {
    let mut r = rig(64, quiet);
    let unit = Unit { id: 7, kind: SlotKind::Effect, latency: 32 };
    assert!(r.host.slots[0].install(unit).is_ok());
    assert_eq!(r.host.slots[0].returned(), None);
    r.run(64);
    assert_eq!(r.engine.slot(0), Some((SlotKind::Effect, 32)));
    assert_eq!(r.engine.slot(1), None);
    r.send(Command::SetSlotLive(0, true));
    r.run(64);
    assert_eq!(r.engine.live_latency(), 32);
    // A second unit for an occupied slot is handed back.
    let other = Unit { id: 8, kind: SlotKind::Effect, latency: 0 };
    assert!(r.host.slots[0].install(other).is_ok());
    r.run(64);
    assert_eq!(r.host.slots[0].returned(), Some(other));
    assert_eq!(r.engine.diag().slot_protocol_errors, 1);
    // A removal fades out first; the host says when it has.
    assert!(r.host.slots[0].remove());
    r.run(64);
    if r.engine.slot(0).is_some() {
        let Engine { rack, changes, .. } = &mut r.engine;
        rack.faded_out(0, changes);
    }
    assert_eq!(r.engine.slot(0), None);
    assert_eq!(r.host.slots[0].returned(), Some(unit));
    assert!(!r.engine.changes.is_empty());
}

#[test]
fn an_eviction_hands_back_every_unit() {
    let mut r = rig(64, quiet);
    let unit = Unit { id: 1, kind: SlotKind::Instrument, latency: 0 };
    let waiting = Unit { id: 2, kind: SlotKind::Effect, latency: 5 };
    assert!(r.host.slots[0].install(unit).is_ok());
    r.run(64);
    assert!(r.host.slots[1].install(waiting).is_ok());
    r.engine.evict_slots();
    assert_eq!((r.host.slots[0].returned(), r.host.slots[1].returned()), (Some(unit), Some(waiting)));
    assert_eq!((r.engine.slot(0), r.engine.slot(1)), (None, None));
}

#[test]
fn a_slot_instrument_gets_its_notes() {
    let mut r = rig(64, quiet);
    let unit = Unit { id: 3, kind: SlotKind::Instrument, latency: 0 };
    assert!(r.host.slots[1].install(unit).is_ok());
    r.engine.service_slots_idle();
    r.send(Command::SelectInstrument(NoteTarget::Slot(1)));
    r.send_at(10, Command::NoteOn(64, single(1.0)));
    let ctx = ProcessContext { frame: 0, xrun: false, align_frames: 0, input_frames: 0 };
    r.engine.open_block(&ctx, 64);
    let next = r.engine.open_chunk();
    assert_eq!(next, 10, "the chunk ends where the note falls");
    assert_eq!(r.engine.slots_until(next), 10);
    r.engine.slots_rendered(10);
    r.engine.close_chunk(0, 10, &vec![single(0.0); 10], &sum);
    r.engine.open_chunk();
    let events: Vec<SlotEventKind> = r.engine.rack.slots[1].events.iter().map(|e| e.kind).collect();
    assert_eq!(events, [SlotEventKind::NoteOn { key: 64, velocity: single(1.0) }]);
    assert!(r.engine.changes.iter().any(|c| matches!(c, SlotChange::Installed { .. })));
}

#[test]
fn a_session_is_saved_and_loaded_again() {
    let mut r = rig(64, ramp);
    r.first_take(1);
    r.run(100);
    let plain = floats(&r.engine.looper.loop_pcm(&r.engine.cx, 0));
    // Too small a destination says how much it needs.
    assert!(r.host.session.send(SessionJob::Snapshot(Snapshot::new(vec![single(0.0); 10]))).is_ok());
    r.run(64);
    match r.host.session.returned() {
        Some(SessionJob::Snapshot(s)) => {
            assert!(matches!(s.result, Some(Err(SessionError::TooSmall(n))) if n == BAR as usize));
        }
        _ => panic!("the snapshot comes back"),
    }
    assert!(r.host.session.send(SessionJob::Snapshot(Snapshot::new(vec![single(0.0); BAR as usize]))).is_ok());
    r.run(3000);
    let saved = match r.host.session.returned() {
        Some(SessionJob::Snapshot(s)) => s,
        _ => panic!("the snapshot comes back"),
    };
    assert!(matches!(saved.result, Some(Ok(()))));
    assert_eq!((saved.count, saved.master, saved.bpm), (1, BAR, 120));
    assert_eq!(floats(&saved.pcm), plain);
    // A load into a looper that is not empty is refused.
    let load = |playing: bool| {
        let mut buf = saved.pcm.clone();
        buf.resize(CAPACITY as usize, single(0.0));
        Load {
            bpm: saved.bpm,
            bars: 1,
            master: saved.master,
            tracks: vec![LoadTrack { index: 2, buf, reversed: false, playing }],
            result: None,
        }
    };
    assert!(r.host.session.send(SessionJob::Load(load(true))).is_ok());
    r.run(64);
    match r.host.session.returned() {
        Some(SessionJob::Load(l)) => assert!(matches!(l.result, Some(Err(SessionError::NotEmpty)))),
        _ => panic!("the load comes back"),
    }
    let mut r2 = rig(64, quiet);
    assert!(r2.host.session.send(SessionJob::Load(load(true))).is_ok());
    r2.run(200);
    match r2.host.session.returned() {
        Some(SessionJob::Load(l)) => assert!(matches!(l.result, Some(Ok(())))),
        _ => panic!("the load comes back"),
    }
    assert_eq!((r2.state(2), r2.engine.looper.master()), (LaneState::Playing, BAR));
    assert_eq!(floats(&r2.engine.looper.loop_pcm(&r2.engine.cx, 2)), plain);
    assert!(r2.heard[2].iter().any(|&x| x != 0.0));
    // One that does not fit says why.
    let mut r3 = rig(64, quiet);
    let mut bad = load(true);
    bad.tracks[0].buf.truncate(100);
    assert!(r3.host.session.send(SessionJob::Load(bad)).is_ok());
    r3.run(64);
    match r3.host.session.returned() {
        Some(SessionJob::Load(l)) => assert!(matches!(l.result, Some(Err(SessionError::Invalid(_))))),
        _ => panic!("the load comes back"),
    }
}

#[test]
fn the_session_errors_have_their_texts() {
    assert!(SessionError::TooSmall(1234).text().contains("1234"));
    for e in [SessionError::NotEmpty, SessionError::Changed, SessionError::Invalid("no")] {
        assert!(!e.text().is_empty());
    }
}

#[test]
fn a_gap_in_the_input_rejects_the_take() {
    let mut r = rig(100, ramp);
    r.send(Command::RecDub(0));
    let mut waited = 0;
    while r.engine.looper.info(0).armed || r.engine.looper.recorder().is_none() {
        r.run(50);
        waited += 1;
        assert!(waited < 200);
    }
    r.run(500);
    r.block(100, true, 0);
    r.send(Command::RecDub(0));
    r.run(3 * BAR);
    assert!(r.said.iter().any(|e| matches!(e, Event::TakeRejected { lane: 0, overdub: false, .. })));
    assert_eq!(r.state(0), LaneState::Empty);
}

#[test]
fn a_finished_snapshot_sent_again_comes_back_as_it_was() {
    let mut r = rig(64, ramp);
    r.first_take(1);
    r.run(100);
    assert!(r.host.session.send(SessionJob::Snapshot(Snapshot::new(vec![single(0.0); BAR as usize]))).is_ok());
    r.run(3000);
    let first = match r.host.session.returned() {
        Some(SessionJob::Snapshot(s)) => s,
        _ => panic!("the snapshot comes back"),
    };
    let pcm = first.pcm.clone();
    r.send(Command::Action(Action::Undo));
    assert!(r.host.session.send(SessionJob::Snapshot(first)).is_ok());
    r.run(64);
    match r.host.session.returned() {
        Some(SessionJob::Snapshot(s)) => {
            assert!(matches!(s.result, Some(Ok(()))));
            assert_eq!((s.pcm, s.count, s.master), (pcm, 1, BAR));
        }
        _ => panic!("the snapshot comes back at once"),
    }
}

#[test]
fn units_wait_for_room_on_the_way_back_in_order() {
    let mut r = rig(64, quiet);
    for id in 1..=7 {
        assert!(r.host.slots[0].install(Unit { id, kind: SlotKind::Effect, latency: 0 }).is_ok());
        r.run(64);
        assert!(r.host.slots[0].remove());
        r.engine.service_slots_idle();
        assert!(r.engine.slot(0).is_none());
    }
    // Four on the ring, two parked, and no room for the seventh.
    assert_eq!(r.engine.diag().slot_protocol_errors, 1);
    let back = |r: &mut Rig| std::iter::from_fn(|| r.host.slots[0].returned()).map(|u| u.id).collect::<Vec<u64>>();
    assert_eq!(back(&mut r), [1, 2, 3, 4]);
    assert_eq!(back(&mut r), []);
    r.run(64);
    assert_eq!(back(&mut r), [5, 6]);
}

#[test]
fn what_a_publish_tells_is_drawn() {
    let mut r = rig(64, ramp);
    r.first_take(1);
    r.run(64);
    let overview = *r.engine.looper.overview();
    assert_eq!((overview.lane(0).frames, overview.lane(0).reversed), (BAR, false));
    assert_eq!((overview.lane(1).frames, overview.grid()), (0, r.engine.looper.anchor()));
    // The most a job moved in one step is within the loop it copies.
    r.send(Command::RecDub(0));
    r.run(500);
    assert_eq!(r.state(0), LaneState::Overdubbing);
    let most = r.engine.looper.job_step_max();
    assert!(0 < most && most <= BAR);
    r.send(Command::RecDub(0));
    r.run(2 * BAR);
    r.send(Command::Reverse(0));
    r.run(64);
    assert!(r.engine.looper.overview().lane(0).reversed);
}

#[test]
fn a_copy_leaves_the_lane_a_take_is_handed_to() {
    let mut r = rig(64, ramp);
    r.first_take(1);
    r.run(100);
    r.send(Command::SetRetake(true));
    r.send(Command::RecDub(1));
    r.run(10);
    let start = r.engine.looper.recorder().and_then(|x| x.1).unwrap();
    let left = start + BAR - 60 - r.engine.next_frame;
    r.run(left);
    assert_eq!(r.state(1), LaneState::Recording);
    // Just before the pass ends: it is finished, then lane 2 records.
    r.send(Command::RecDub(2));
    r.run(5);
    assert_eq!((r.state(1), r.state(2)), (LaneState::Recording, LaneState::Empty));
    r.send(Command::Copy(0));
    r.run(5);
    assert_eq!(r.state(2), LaneState::Empty, "the lane is claimed");
    r.run(100);
    assert!(r.said.iter().any(|e| matches!(e, Event::Copied { from: 0, to: 3, .. })));
    assert_eq!((r.state(1), r.state(2), r.state(3)), (LaneState::Playing, LaneState::Recording, LaneState::Playing));
}

#[test]
fn a_command_that_would_do_nothing_is_dropped_while_a_job_runs() {
    let mut r = rig(64, ramp);
    r.first_take(1);
    r.run(100);
    for _ in 0..3 {
        r.send(Command::Copy(0));
        r.run(100);
    }
    assert_eq!(r.state(4), LaneState::Empty);
    // The first takes the last empty lane; the second has none to go to.
    r.send(Command::Copy(0));
    r.send(Command::Copy(0));
    r.run(1);
    assert_eq!(r.state(4), LaneState::Stopped);
    assert!(!r.engine.holding());
    r.run(100);
    assert_eq!(r.state(4), LaneState::Playing);
    // An overdub's loop is being copied, and no lane is stopped.
    r.send(Command::RecDub(0));
    r.send(Command::PlayAll);
    r.run(1);
    assert_eq!(r.state(0), LaneState::Overdubbing);
    assert!(!r.engine.holding());
    // No second capture starts, so REC on another lane waits for nothing either.
    r.send(Command::RecDub(1));
    r.run(1);
    assert!(!r.engine.holding());
    assert_eq!(r.state(1), LaneState::Playing);
    // CLEAR waits: it would empty the lane.
    r.send(Command::RecDub(0));
    r.run(10);
    r.send(Command::Copy(1));
    r.send(Command::Clear(0));
    r.run(1);
    assert!(!r.engine.holding(), "nothing works on lane 0");
    r.run(10);
    r.send(Command::Copy(1));
    r.send(Command::Clear(1));
    r.run(1);
    assert!(r.engine.holding(), "lane 1 is being copied");
    r.run(10);
    assert_eq!((r.state(0), r.state(1)), (LaneState::Playing, LaneState::Empty));
}

/// What the lanes play while a short take is filled, layered, undone, copied and multiplied.
fn busy_session(block: usize) -> (Vec<Vec<f32>>, Vec<Event>) {
    let mut r = rig(block, ramp);
    r.first_take(2);
    r.run(3 * BAR);
    let t0 = r.engine.next_frame;
    r.send_at(t0 + 17, Command::RecDub(0));
    r.send_at(t0 + 17 + BAR, Command::RecDub(0));
    r.send_at(t0 + 20 + BAR, Command::Undo(0));
    r.send_at(t0 + 33 + 2 * BAR, Command::Copy(0));
    r.send_at(t0 + 35 + 2 * BAR, Command::Reverse(1));
    r.send_at(t0 + 40 + 2 * BAR, Command::RecDub(2));
    r.send_at(t0 + 9 * BAR, Command::RecDub(2));
    r.send_at(t0 + 9 * BAR + 400, Command::RecDub(1));
    r.send_at(t0 + 9 * BAR + 700, Command::Stop(1));
    r.run(14 * BAR);
    (r.heard, r.said)
}

#[test]
fn jobs_captures_and_heads_sound_the_same_at_any_block_size() {
    let (heard, said) = busy_session(512);
    for block in [1, 7, 64, 129] {
        let (h, s) = busy_session(block);
        assert_eq!(s, said, "at {block} frames a block");
        assert_eq!(h, heard, "at {block} frames a block");
    }
}

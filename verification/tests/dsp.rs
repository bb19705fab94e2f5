//! Voices, sources, effects, automation, the convolver's stages.

use lf_engine::api::{InputSend, InputSendParam, Instrument};
use lf_engine::deck::FxAction;
use lf_engine::dsp::automation::{AudioParam, Begin, Kind, Moment, Now, EVENT_CAPACITY};
use lf_engine::dsp::buffer_source::{Region, Stretch};
use lf_engine::dsp::convolver::{layout, Accumulation};
use lf_engine::dsp::filter::Rolloff;
use lf_engine::dsp::fx::{FxKind, FxParam, FxState, FxTiming, InvalidTiming};
use lf_engine::dsp::line::Line;
use lf_engine::dsp::param::{context_frame, piece, Rate, Units, QUANTUM};
use lf_engine::dsp::rng::Mulberry32;
use lf_engine::dsp::schedule::{PlaybackState, Schedule};
use lf_engine::dsp::synth::bass::{HeldNotes, Release};
use lf_engine::dsp::synth::drum::{Drum, DrumKit};
use lf_engine::dsp::synth::poly::{PolyKind, VoicePool};
use lf_engine::effects::LaneFx;
use lf_engine::float::{Double, Single};
use lf_engine::input_fx::InputFx;
use lf_engine::instruments::{velocity, Instruments, LetGo, Play, LEAD};

fn double(x: f64) -> Double {
    Double { bits: x.to_bits() }
}

fn single(x: f32) -> Single {
    Single { bits: x.to_bits() }
}

fn value(x: Double) -> f64 {
    f64::from_bits(x.bits)
}

fn sum(a: Single, b: Single) -> Single {
    single(f32::from_bits(a.bits) + f32::from_bits(b.bits))
}

#[test]
fn stages_cover_the_response_with_zero_latency() {
    let response = 125_760;
    let stages = layout(response, 0);
    assert_eq!(stages.len(), 37, "a direct stage, FFT 128 ... 4096, then 30 stages of 8192");
    let mut sizes: Vec<usize> = Vec::new();
    for s in stages.iter().filter(|s| s.offset != 0) {
        if !sizes.contains(&s.fft_size) {
            sizes.push(s.fft_size);
        }
    }
    assert_eq!(sizes, [128, 256, 512, 1024, 2048, 4096, 8192]);
    let mut offset = 0;
    for (i, s) in stages.iter().enumerate() {
        let latency = if s.offset == 0 { 0 } else { s.fft_size / 2 };
        assert_eq!(latency + s.pre_delay + s.post_delay, offset, "stage {i}");
        assert_eq!(s.offset, offset, "stage {i}");
        offset += s.length;
    }
    assert_eq!(offset, response);
    // Distinct post-delays never meet within one quantum.
    for phase in [0, QUANTUM] {
        let mut posts: Vec<usize> = layout(response, phase).iter().map(|s| s.post_delay).collect();
        posts.sort_unstable();
        posts.dedup();
        assert!(posts.windows(2).all(|w| w[1] - w[0] >= 2944), "phase {phase}: {posts:?}");
    }
}

#[test]
fn short_responses_are_cut_too() {
    assert!(layout(0, 0).is_empty());
    let one = layout(1, 0);
    assert_eq!((one.len(), one[0].offset, one[0].length, one[0].fft_size), (1, 0, 1, 128));
    let some = layout(200, 0);
    assert_eq!(some.iter().map(|s| (s.offset, s.length)).collect::<Vec<_>>(), [(0, 64), (64, 64), (128, 72)]);
}

#[test]
fn the_accumulation_sums_at_its_delays() {
    let mut a = Accumulation::new(4);
    a.accumulate(&vec![single(1.0), single(2.0)], 0, &sum);
    a.accumulate(&vec![single(10.0), single(20.0)], 1, &sum);
    let out: Vec<f32> = a.read_and_clear(3).iter().map(|x| f32::from_bits(x.bits)).collect();
    assert_eq!(out, [1.0, 12.0, 20.0]);
    let rest: Vec<f32> = a.read_and_clear(4 + QUANTUM).iter().map(|x| f32::from_bits(x.bits)).collect();
    assert!(rest.iter().all(|&x| x == 0.0));
}

#[test]
fn a_line_delays_by_its_length() {
    let mut line = Line::new(3);
    let out: Vec<f32> = (1..=6).map(|k| f32::from_bits(line.shift(single(k as f32)).bits)).collect();
    assert_eq!(out, [0.0, 0.0, 0.0, 1.0, 2.0, 3.0]);
    assert_eq!(line.before(0), single(6.0));
    assert_eq!(line.before(2), single(4.0));
}

#[test]
fn the_generator_draws_mulberry32() {
    let mut r = Mulberry32::new(1);
    // The same steps in plain wrapping arithmetic.
    let mut s: u32 = 1;
    for _ in 0..1000 {
        s = s.wrapping_add(0x6d2b_79f5);
        let mut t = (s ^ (s >> 15)).wrapping_mul(1 | s);
        t = t.wrapping_add((t ^ (t >> 7)).wrapping_mul(61 | t)) ^ t;
        let want = (t ^ (t >> 14)) as f64 / 4_294_967_296.0;
        assert_eq!(value(r.next_f64()), want);
    }
    assert_eq!(Double::dyadic(0, 32), double(0.0));
    assert_eq!(Double::dyadic(3, 1), double(1.5));
    assert_eq!(Double::dyadic((1 << 53) - 1, 0), double(9007199254740991.0));
}

#[test]
fn a_control_call_sees_the_next_quantum() {
    assert_eq!(context_frame(0), 0);
    assert_eq!(context_frame(1), 128);
    assert_eq!(context_frame(128), 128);
    assert_eq!(context_frame(129), 256);
    let p = piece(130, 300);
    assert_eq!((p.quantum, p.at, p.frames), (128, 2, 126));
    let p = piece(256, 5);
    assert_eq!((p.quantum, p.at, p.frames), (256, 0, 5));
    assert!(Units::Frequency.exponential() && Units::Decibels.exponential() && !Units::Gain.exponential());
    assert_eq!(Rolloff::Db48.stages(), 3);
}

#[test]
fn a_source_starts_and_stops_on_its_frames() {
    let mut s = Schedule::new();
    s.stop_at(5);
    assert_eq!(s.end, None, "a source that was never started cannot stop");
    s.start_at(130);
    s.start_at(7);
    assert_eq!(s.start, 130, "once");
    s.stop_at(300);
    let mut sounded: Vec<u64> = Vec::new();
    for q in 0..4u64 {
        let span = s.update(q * 128);
        assert_eq!(span.first, q == 1);
        for k in span.offset..span.offset + span.frames {
            sounded.push(q * 128 + k as u64);
        }
    }
    assert_eq!(sounded, (130..300).collect::<Vec<u64>>());
    assert_eq!(s.state, PlaybackState::Finished);
}

#[test]
fn a_source_that_stops_before_it_starts_is_silent() {
    let mut s = Schedule::new();
    s.start_at(100);
    s.stop_at(50);
    let span = s.update(0);
    assert_eq!((span.frames, s.state), (0, PlaybackState::Finished));
}

#[test]
fn voices_are_taken_in_turn() {
    assert_eq!(PolyKind::from_id("piano"), Some(PolyKind::Piano));
    assert_eq!(PolyKind::from_id("kazoo"), None);
    assert_eq!(PolyKind::Pad.max_polyphony(), 12);
    let mut pool = VoicePool::new(3);
    assert_eq!((pool.note_on(60), pool.note_on(62), pool.note_on(64)), (0, 1, 2));
    // The voice that holds the note plays it again.
    assert_eq!(pool.note_on(62), 1);
    // All held: the one that attacked longest ago is stolen.
    assert_eq!(pool.note_on(65), 0);
    assert_eq!(pool.note_off(60), None, "a stale note off");
    assert_eq!(pool.note_off(64), Some(2));
    // A released voice comes before a held one.
    assert_eq!(pool.note_on(67), 2);
    pool.all_notes_off();
    assert_eq!(pool.note_off(67), None);
    assert_eq!(pool.note_on(70), 1);
}

#[test]
fn the_bass_keeps_a_stack_of_held_notes() {
    let mut held = HeldNotes::new();
    held.note_on(40, double(0.5));
    held.note_on(43, double(0.6));
    held.note_on(45, double(0.7));
    assert_eq!(held.note_off(43), Release::Nothing, "held, not sounding");
    assert_eq!(held.note_off(45), Release::Attack(40, double(0.5)));
    assert_eq!(held.note_off(45), Release::Nothing, "not held");
    assert_eq!(held.note_off(40), Release::Silence);
}

#[test]
fn notes_go_to_the_selected_instrument() {
    let mut s = Instruments::new(1000);
    assert_eq!(s.note_on(60, double(1.0)), Play::Nothing);
    s.select(Some(Instrument::Piano));
    assert_eq!(s.note_on(60, double(1.0)), Play::Poly(PolyKind::Piano, 0));
    assert_eq!(s.note_on(128, double(1.0)), Play::Nothing, "no such note");
    assert_eq!(s.note_off(60), LetGo::Poly(PolyKind::Piano, 0));
    s.note_on(61, double(1.0));
    s.select(Some(Instrument::Bass));
    assert_eq!(s.note_on(40, double(0.25)), Play::Bass);
    assert_eq!(s.note_off(40), LetGo::Bass(Release::Silence));
    s.select(Some(Instrument::Drums));
    assert_eq!((s.note_on(36, double(1.0)), s.note_off(36)), (Play::Drums, LetGo::Nothing));
    s.select(Some(Instrument::Piano));
    assert_eq!(s.note_off(61), LetGo::Nothing, "the switch let it go");
    assert_eq!(s.ahead(1000), 1000 + LEAD as u64);
    assert!(s.set_pitch_bend(double(2.0)) && !s.set_pitch_bend(double(f64::NAN)));
    assert!(s.set_modulation(double(7.0)));
    assert_eq!((s.bend, s.modulation), (double(2.0), double(1.0)));
    assert_eq!(velocity(single(1.5)), single(1.0));
    assert_eq!(velocity(single(f32::NAN)), single(0.0));
}

#[test]
fn the_record_path_takes_the_lead_off_its_delay() {
    let mut s = Instruments::new(1000);
    let out: Vec<f32> = (1..=8).map(|k| f32::from_bits(s.record(LEAD + 3, single(k as f32)).bits)).collect();
    assert_eq!(out, [0.0, 0.0, 0.0, 1.0, 2.0, 3.0, 4.0, 5.0]);
    let mut s = Instruments::new(1000);
    let out: Vec<f32> = (1..=3).map(|k| f32::from_bits(s.record(5, single(k as f32)).bits)).collect();
    assert_eq!(out, [1.0, 2.0, 3.0], "shorter than the lead: no delay");
}

#[test]
fn effects_are_named_by_kind_and_key() {
    assert_eq!(FxParam::from_key(FxKind::Delay, "feedback"), Some(FxParam::Feedback));
    assert_eq!(FxParam::from_key(FxKind::Filter, "feedback"), None);
    assert_eq!(FxKind::Stutter.label(), "Stutter");
    for kind in [FxKind::Filter, FxKind::Pitch, FxKind::Stutter, FxKind::Delay, FxKind::Reverb] {
        let s = FxState::default_for(kind);
        assert!(s.bypassed);
    }
    let s = FxState::default_for(FxKind::Delay);
    assert_eq!([value(s.params[0]), value(s.params[1]), value(s.params[2])], [1.0, 0.4, 0.3]);
}

#[test]
fn a_lane_takes_its_effects_from_another_and_loses_them() {
    let mut fx = LaneFx::new();
    fx.set_param(1, FxParam::Cutoff, double(99999.0));
    assert_eq!(value(fx.chains[1].param(FxParam::Cutoff)), 14000.0);
    fx.set_param(1, FxParam::Cutoff, double(f64::INFINITY));
    assert_eq!(value(fx.chains[1].param(FxParam::Cutoff)), 14000.0, "no number does nothing");
    fx.set_param(1, FxParam::Rate, double(2.4));
    assert_eq!(value(fx.chains[1].param(FxParam::Rate)), 2.0);
    fx.set_param(1, FxParam::Rate, double(0.49999999999999994));
    assert_eq!(value(fx.chains[1].param(FxParam::Rate)), (0.49999999999999994f64 + 0.5).floor());
    fx.set_bypass(1, FxKind::Delay, false);
    fx.act(FxAction::Copy { from: 1, to: 3 });
    assert_eq!(value(fx.chains[3].param(FxParam::Cutoff)), 14000.0);
    assert!(!fx.chains[3].is_bypassed(FxKind::Delay));
    fx.act(FxAction::Reset { lane: 1 });
    assert_eq!(value(fx.chains[1].param(FxParam::Cutoff)), 1200.0);
    assert!(fx.chains[1].is_bypassed(FxKind::Delay));
    assert_eq!(fx.follow_grid(500, 0, 120), None, "no grid");
    assert_eq!(fx.follow_grid(500, 2000, 120), Some(500));
    assert_eq!(fx.follow_grid(500, 2000, 120), None, "it has not moved");
    assert_eq!(fx.follow_grid(500, 2000, 121), Some(500));
    let good = FxTiming { anchor: double(-0.1), beat_period: double(0.5) };
    assert_eq!(good.check(), Ok(()));
    assert_eq!(FxTiming { beat_period: double(0.0), ..good }.check(), Err(InvalidTiming));
    assert_eq!(FxTiming { anchor: double(f64::NAN), ..good }.check(), Err(InvalidTiming));
}

#[test]
fn a_send_rests_once_its_line_is_empty() {
    let mut s = InputFx::new(4, 1, double(0.4), double(0.3), double(0.3));
    assert!(s.idle() && !s.is_on(InputSend::Echo));
    s.set_on(InputSend::Echo, true);
    assert!(s.is_on(InputSend::Echo));
    assert!(s.echo.begin_quantum(true));
    s.echo.wrote(false);
    for _ in 0..3 {
        s.echo.wrote(true);
        assert!(s.echo.begin_quantum(false), "something is left");
    }
    s.echo.wrote(true);
    assert!(!s.echo.begin_quantum(false), "nothing is left");
    assert!(!s.reverb.begin_quantum(false), "never opened");
    assert!(!s.reverb.rendered(false));
    assert!(s.reverb.begin_quantum(true));
    assert!(s.reverb.rendered(false) && !s.idle());
    s.set_param(InputSendParam::EchoTime, double(9.0));
    s.set_param(InputSendParam::EchoFeedback, double(2.0));
    assert_eq!(value(s.param(InputSendParam::EchoTime)), 3.0);
    assert_eq!(value(s.param(InputSendParam::EchoFeedback)), 0.95);
    s.set_param(InputSendParam::ReverbLevel, double(f64::NAN));
    assert_eq!(value(s.param(InputSendParam::ReverbLevel)), 0.3);
    assert!(s.follow_tempo(120) && !s.follow_tempo(120) && !s.follow_tempo(0));
    assert!(s.enter(128) && !s.enter(128));
}

const RATE: f64 = 48000.0;

fn moment(t: f64) -> Moment {
    let f = t * RATE;
    Moment {
        time: double(t),
        frame: double(f),
        after: double(f + 1.0),
        gone: double(t + 1.5 * 128.0 / RATE),
        up: f.ceil() as u64,
    }
}

fn at_frame(frame: u64) -> Now {
    Now { frame: double(frame as f64), at: moment(frame as f64 / RATE) }
}

fn times(p: &AudioParam) -> Vec<(f64, f32)> {
    p.events.iter().map(|e| (value(e.at.time), f32::from_bits(e.value.bits))).collect()
}

fn param() -> AudioParam {
    AudioParam::new(single(1.0), single(f32::MIN), single(f32::MAX), Rate::A)
}

#[test]
fn events_stand_in_the_order_of_their_times() {
    let mut p = param();
    let now = at_frame(0);
    p.set_value_at_time(single(1.0), moment(0.5), &now);
    p.set_value_at_time(single(2.0), moment(0.25), &now);
    p.set_value_at_time(single(3.0), moment(0.5), &now);
    assert_eq!(times(&p), [(0.25, 2.0), (0.5, 1.0), (0.5, 3.0)]);
    p.cancel_scheduled_values(moment(0.5), &now);
    assert_eq!(times(&p), [(0.25, 2.0)]);
    p.set_target_at_time(single(5.0), moment(0.3), double(0.0), &now);
    assert_eq!(p.events[1].kind, Kind::SetValue, "no time constant: at once");
    p.exponential_ramp_to_value_at_time(single(0.0), moment(1.0), &now);
    assert_eq!(p.events.len(), 2, "no exponential leads to zero");
}

#[test]
fn a_first_ramp_starts_from_the_value_there_was() {
    let mut p = param();
    let now = at_frame(100);
    p.linear_ramp_to_value_at_time(single(3.0), moment(1.0), &now);
    assert_eq!(times(&p), [(100.0 / RATE, 1.0), (1.0, 3.0)]);
    assert_eq!((p.events[0].kind, p.events[1].kind), (Kind::SetValue, Kind::LinearRamp));
}

#[test]
fn a_cancel_that_cuts_a_ramp_holds_it() {
    let mut p = param();
    let now = at_frame(0);
    p.set_value_at_time(single(0.0), moment(0.0), &now);
    p.linear_ramp_to_value_at_time(single(1.0), moment(1.0), &now);
    p.set_value_at_time(single(9.0), moment(2.0), &now);
    p.cancel_and_hold_at_time(moment(0.5), &now);
    assert_eq!(p.events.len(), 2);
    assert_eq!((p.events[1].kind, value(p.events[1].at.time)), (Kind::CancelValues, 0.5));
    assert_eq!(p.events[1].saved.map(|s| value(s.at.time)), Some(1.0));
    let aim = p.aim(0);
    assert_eq!((aim.to, aim.way), (None, Some(Kind::LinearRamp)));
    p.settle(1, single(0.5));
    assert_eq!(p.aim(0).to, Some(single(0.5)));
}

#[test]
fn the_past_is_pruned_and_the_table_is_bounded() {
    let mut p = param();
    for k in 0..10 {
        p.set_value_at_time(single(k as f32), moment(k as f64), &at_frame(0));
    }
    p.set_value_at_time(single(99.0), moment(20.0), &at_frame(5 * 48000 + 128));
    assert_eq!(times(&p)[0], (5.0, 5.0));
    let mut p = param();
    for k in 0..EVENT_CAPACITY + 5 {
        p.set_value_at_time(single(k as f32), moment(1.0 + k as f64), &at_frame(0));
    }
    assert_eq!(p.events.len(), EVENT_CAPACITY);
}

#[test]
fn a_quantum_is_filled_event_by_event() {
    let mut p = param();
    let now = at_frame(0);
    p.set_value_at_time(single(2.0), moment(32.0 / RATE), &now);
    p.set_value_at_time(single(3.0), moment(64.0 / RATE), &now);
    assert!(p.has_sample_accurate_values(double(0.0), double(128.0 / RATE)));
    let mut values = [0.0f32; 128];
    match p.begin(0, 128, 128, moment(0.0), double(128.0 / RATE), single(1.0), false) {
        Begin::Flat(_) => panic!("there are events"),
        Begin::Events(mut walk) => {
            values[..walk.filled].fill(1.0);
            while p.find(&mut walk, 128) {
                let i = walk.event;
                assert!(!p.must_rewrite(i));
                let aim = p.aim(i);
                let to = AudioParam::stretch(&walk, &aim, 0, 128, 128);
                values[walk.filled..to].fill(f32::from_bits(aim.from.bits));
                walk.filled = to;
                walk.frame = to as u64;
                walk.event += 1;
            }
            p.finish(&walk);
        }
    }
    for (n, &v) in values.iter().enumerate() {
        assert_eq!(v, if n < 32 { 1.0 } else if n < 64 { 2.0 } else { 3.0 }, "frame {n}");
    }
    // Long after the last event the values are flat, and only that event stays.
    match p.begin(48000, 48128, 128, moment(1.0), double(48128.0 / RATE), single(3.0), false) {
        Begin::Flat(v) => assert_eq!(v, single(3.0)),
        Begin::Events(_) => panic!("all of it is past"),
    }
    assert_eq!(p.events.len(), 1);
}

#[test]
fn a_new_event_in_the_past_moves_to_the_quantum_that_renders_next() {
    let mut p = param();
    p.set_value_at_time(single(2.0), moment(0.0), &at_frame(0));
    p.set_value_at_time(single(3.0), moment(0.001), &at_frame(0));
    match p.begin(128, 256, 128, moment(128.0 / RATE), double(256.0 / RATE), single(1.0), false) {
        Begin::Flat(_) => panic!("there are events"),
        Begin::Events(walk) => assert_eq!(walk.filled, 0),
    }
    assert_eq!(times(&p), [(128.0 / RATE, 2.0), (128.0 / RATE, 3.0)]);
    assert!(p.events.iter().all(|e| !e.is_new));
}

#[test]
fn a_region_loops_back_or_ends_in_silence() {
    let source: Vec<u32> = (10..20).collect();
    let mut out = [99u32; 8];
    // Two frames to the end, then round the last four frames of the buffer.
    let looped = Region { delta: 4, end: 10, looping: true };
    let r = looped.play(&source, 8, &mut out, 1, 7, 0);
    assert_eq!(out, [99, 18, 19, 16, 17, 18, 19, 16]);
    assert_eq!(r, Stretch { written: 8, read: 7, finished: false });
    // A stretch that stops on the end goes back at once; one of no frames does nothing.
    assert_eq!(looped.play(&source, 8, &mut out, 0, 2, 0).read, 6);
    assert_eq!(looped.play(&source, 10, &mut out, 0, 0, 0), Stretch { written: 0, read: 10, finished: false });

    let once = Region { delta: 10, end: 10, looping: false };
    let mut out = [99u32; 6];
    let r = once.play(&source, 7, &mut out, 0, 5, 0);
    assert_eq!(out, [17, 18, 19, 0, 0, 99]);
    assert_eq!(r, Stretch { written: 3, read: 10, finished: true });
    // The last frame ends it even where nothing is left to silence.
    assert!(once.play(&source, 8, &mut out, 0, 2, 0).finished);
    assert!(!once.play(&source, 7, &mut out, 0, 2, 0).finished);
    assert_eq!(once.play(&source, 12, &mut out, 0, 1, 0), Stretch { written: 0, read: 10, finished: true });

    // No frames in the region: what is left before its end, and that was all.
    let none = Region { delta: 0, end: 3, looping: true };
    let mut out = [99u32; 4];
    assert_eq!(none.play(&source, 2, &mut out, 0, 4, 0), Stretch { written: 1, read: 3, finished: true });
    assert_eq!(out, [12, 99, 99, 99]);
}

#[test]
fn a_drum_hit_is_its_pad() {
    let mut kit = DrumKit::new(Mulberry32::new(1));
    assert_eq!(kit.notes(), vec![36, 35, 38, 40, 39, 37, 42, 44, 46, 49, 51, 56, 54, 45, 47, 50]);
    let kick = kit.note_on(36, double(0.5), double(1.0), false).unwrap();
    assert_eq!((kick.place, kick.pad.drum, kick.pad.value), (0, Drum::Membrane { midi: 24 }, 8));
    assert_eq!((kick.velocity, kick.draw), (double(0.5), None));
    assert_eq!(kit.last_hit(36), Some(double(1.0)));
    assert_eq!(kit.last_hit(35), None);
    // A second hit at the same time is dropped; the first one on a pad never is.
    assert!(kit.note_on(36, double(0.5), double(1.0), true).is_none());
    assert!(kit.note_on(35, double(0.5), double(1.0), true).is_some());
    // A note outside the kit does nothing.
    assert!(kit.note_on(60, double(0.5), double(1.0), false).is_none());
    assert_eq!(kit.last_hit(60), None);
}

#[test]
fn a_noise_hit_draws_once_and_no_hit_is_too_soft() {
    let mut kit = DrumKit::new(Mulberry32::new(1));
    let mut draws = Mulberry32::new(1);
    assert_eq!(kit.note_on(38, double(0.0), double(0.0), false).unwrap().draw, Some(draws.next_f64()));
    let hat = kit.note_on(42, double(0.004), double(0.0), false).unwrap();
    assert_eq!((hat.velocity, hat.draw), (double(0.01), None));
    let clap = kit.note_on(39, double(f64::NAN), double(0.0), false).unwrap();
    assert_eq!((clap.pad.drum, clap.velocity), (Drum::Noise { pink: true }, double(0.01)));
    assert_eq!(clap.draw, Some(draws.next_f64()));
}

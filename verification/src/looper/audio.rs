//! The looper's audio: the take and layer a block of the record tap gives, what each lane plays, AUTO's
//! onset, and the feed.

use vstd::prelude::*;

use crate::api::{Event, LaneInfo, LaneState, TRACK_COUNT};
use crate::autorec::Ear;
use crate::control::Cx;
use crate::deck;
use crate::deck::{Kind, Lane, Recorder, World, BUFFER_COUNT};
use crate::float::{Double, Single};
use crate::grid;
use crate::grid::{loop_pos, Frame, LOOP_LIMIT};
use crate::looper::{Looper, Transport};
use crate::overview::LaneView;
use crate::pool;

verus! {

/// The news of the lanes before lane `k`.
pub open spec fn lane_news(w: World, published: Seq<Option<LaneInfo>>, now: Frame, k: int) -> Seq<Event>
    decreases k,
{
    if k <= 0 {
        Seq::empty()
    } else {
        let before = lane_news(w, published, now, k - 1);
        if published[k - 1] == Some(w.info(k - 1)) {
            before
        } else {
            before.push(Event::Lane { frame: now, lane: (k - 1) as u8, info: w.info(k - 1) })
        }
    }
}

/// The transport as a publish says it.
pub open spec fn transport_of(w: World) -> Transport {
    Transport { master: w.deck.master, bpm: w.clock.bpm, locked: w.clock.locked }
}

pub open spec fn transport_news(w: World, published: Option<Transport>, now: Frame) -> Seq<Event> {
    let t = transport_of(w);
    if published == Some(t) {
        Seq::empty()
    } else {
        seq![Event::Transport { frame: now, master: t.master, bpm: t.bpm, locked: t.locked }]
    }
}

/// One lane as the UI draws it.
pub open spec fn view_of(t: Lane) -> LaneView {
    LaneView {
        buf: t.live,
        frames: match t.state {
            LaneState::Empty => 0,
            LaneState::Recording => if t.armed || t.auto_armed {
                0
            } else {
                t.written
            },
            _ => t.length,
        },
        reversed: t.reversed,
    }
}

/// What the record tap from frame `f0` on leaves in the buffers: a take copies its part of it into the
/// recorder's buffer, an overdub sums it onto the loop with `mix`, and no other buffer is touched.
pub open spec fn taped<F: Fn(Single, Single) -> Single>(
    mix: F,
    w: World,
    f0: Frame,
    input: Seq<Single>,
    before: Seq<Seq<Single>>,
    after: Seq<Seq<Single>>,
) -> bool {
    let rec = w.deck.rec->0;
    let (lo, hi) = w.window(f0, input.len() as int);
    let part = input.subrange(lo - f0, hi - f0);
    let live = w.rec_lane().live as int;
    if !w.captures(f0, input.len() as int) {
        after == before
    } else {
        &&& after == before.update(live, after[live])
        &&& rec.kind == Kind::Take ==> after[live] == before[live].subrange(0, lo - rec.start->0) + part
            + before[live].subrange(hi - rec.start->0, w.deck.capacity as int)
        &&& rec.kind == Kind::Overdub ==> pool::layered(
            mix,
            before[live],
            after[live],
            part,
            grid::pos_in_loop(lo - rec.align, w.deck.anchor as int, w.deck.master as int),
            w.deck.master as int,
        )
    }
}

impl Looper {
    // ── Capture ────────────────────────────────────────────────────────────────────────────────────

    /// Write the record tap for frames `[f0, f0 + input.len())` into the recorder's window: a take copies
    /// its part of it, an overdub sums it onto the loop with `mix`.
    pub fn capture<F: Fn(Single, Single) -> Single>(&mut self, cx: &Cx, f0: Frame, input: &Vec<Single>, mix: &F)
        requires
            old(self).ready(*cx),
            grid::near(f0 as int),
            input@.len() <= LOOP_LIMIT,
            forall|x: Single, y: Single| call_requires(*mix, (x, y)),
        ensures
            final(self).ready(*cx),
            final(self).world(*cx) == old(self).world(*cx).captured(f0, input@.len() as int),
            final(self).pool.grew(&old(self).pool),
            final(self).job_step_max == old(self).job_step_max,
            final(self).published == old(self).published,
            final(self).published_transport == old(self).published_transport,
            final(self).overview == old(self).overview,
            taped(*mix, old(self).world(*cx), f0, input@, old(self).pcm(), final(self).pcm()),
            !old(self).world(*cx).captures(f0, input@.len() as int) ==> final(self).pool == old(self).pool,
    {
        let ghost w = self.world(*cx);
        proof {
            w.lemma_captured(cx.now, f0, input@.len() as int);
        }
        let rec = match self.control.deck.rec {
            Some(r) => r,
            None => {
                return;
            },
        };
        let start: Frame = match rec.start {
            Some(s) => s,
            None => {
                return;
            },
        };
        let i: usize = rec.lane;
        proof {
            w.lemma_rec(cx.now);
            w.lemma_lane(cx.now, i as int);
        }
        let t = self.control.deck.lanes[i];
        if t.auto_armed {
            return;
        }
        let lo: Frame = if f0 < start {
            start
        } else {
            f0
        };
        let past: Frame = f0 + input.len() as Frame;
        let hi: Frame = match rec.end {
            Some(e) => if e < past {
                e
            } else {
                past
            },
            None => past,
        };
        if lo >= hi {
            return;
        }
        match rec.kind {
            Kind::Take => self.capture_take(cx, &rec, f0, lo, hi, input),
            Kind::Overdub => self.capture_layer(cx, &rec, f0, lo, hi, input, mix),
        }
    }

    fn capture_take(&mut self, cx: &Cx, rec: &Recorder, f0: Frame, lo: Frame, hi: Frame, input: &Vec<Single>)
        requires
            old(self).ready(*cx),
            grid::near(f0 as int),
            input@.len() <= LOOP_LIMIT,
            old(self).control.deck.rec == Some(*rec),
            rec.kind == Kind::Take,
            old(self).world(*cx).captures(f0, input@.len() as int),
            lo == old(self).world(*cx).window(f0, input@.len() as int).0,
            hi == old(self).world(*cx).window(f0, input@.len() as int).1,
        ensures
            final(self).ready(*cx),
            final(self).world(*cx) == old(self).world(*cx).captured(f0, input@.len() as int),
            final(self).pool.grew(&old(self).pool),
            final(self).job_step_max == old(self).job_step_max,
            final(self).published == old(self).published,
            final(self).published_transport == old(self).published_transport,
            final(self).overview == old(self).overview,
            ({
                let w = old(self).world(*cx);
                let live = w.rec_lane().live as int;
                let (before, after) = (old(self).pcm(), final(self).pcm());
                &&& after == before.update(live, after[live])
                &&& after[live] == before[live].subrange(0, lo - rec.start->0) + input@.subrange(lo - f0, hi - f0)
                    + before[live].subrange(hi - rec.start->0, w.deck.capacity as int)
            }),
    {
        let ghost w = self.world(*cx);
        let i: usize = rec.lane;
        let frames: usize = input.len();
        proof {
            w.lemma_captured(cx.now, f0, frames as int);
            w.lemma_rec(cx.now);
            w.lemma_lane(cx.now, i as int);
        }
        let start: Frame = rec.start.unwrap();
        let mut t = self.control.deck.lanes[i];
        // A take's window never outgrows the buffer (configure_end), so neither does this write.
        self.pool.record(
            t.live,
            (lo - start) as usize,
            input,
            (lo - f0) as usize,
            (hi - f0) as usize,
            self.control.deck.capacity,
        );
        if t.written < hi - start {
            t.written = hi - start;
        }
        self.control.deck.lanes[i] = t;
    }

    fn capture_layer<F: Fn(Single, Single) -> Single>(
        &mut self,
        cx: &Cx,
        rec: &Recorder,
        f0: Frame,
        lo: Frame,
        hi: Frame,
        input: &Vec<Single>,
        mix: &F,
    )
        requires
            old(self).ready(*cx),
            grid::near(f0 as int),
            input@.len() <= LOOP_LIMIT,
            forall|x: Single, y: Single| call_requires(*mix, (x, y)),
            old(self).control.deck.rec == Some(*rec),
            rec.kind == Kind::Overdub,
            old(self).world(*cx).captures(f0, input@.len() as int),
            lo == old(self).world(*cx).window(f0, input@.len() as int).0,
            hi == old(self).world(*cx).window(f0, input@.len() as int).1,
        ensures
            final(self).ready(*cx),
            final(self).world(*cx) == old(self).world(*cx).captured(f0, input@.len() as int),
            final(self).pool.grew(&old(self).pool),
            final(self).job_step_max == old(self).job_step_max,
            final(self).published == old(self).published,
            final(self).published_transport == old(self).published_transport,
            final(self).overview == old(self).overview,
            ({
                let w = old(self).world(*cx);
                let live = w.rec_lane().live as int;
                let (before, after) = (old(self).pcm(), final(self).pcm());
                &&& after == before.update(live, after[live])
                &&& pool::layered(
                    *mix,
                    before[live],
                    after[live],
                    input@.subrange(lo - f0, hi - f0),
                    grid::pos_in_loop(lo - rec.align, w.deck.anchor as int, w.deck.master as int),
                    w.deck.master as int,
                )
            }),
    {
        let ghost w = self.world(*cx);
        let i: usize = rec.lane;
        let frames: usize = input.len();
        proof {
            w.lemma_captured(cx.now, f0, frames as int);
            w.lemma_rec(cx.now);
            w.lemma_lane(cx.now, i as int);
        }
        let master: Frame = self.control.deck.master;
        let live: usize = self.control.deck.lanes[i].live;
        let pos: Frame = loop_pos(lo - rec.align, self.control.deck.anchor, master);
        self.pool.layer(
            live,
            pos,
            master,
            input,
            (lo - f0) as usize,
            (hi - f0) as usize,
            mix,
            self.control.deck.capacity,
        );
        let mut r = *rec;
        r.summed = if master - rec.summed < hi - lo {
            master
        } else {
            rec.summed + (hi - lo)
        };
        self.control.deck.rec = Some(r);
    }

    // ── Playback ───────────────────────────────────────────────────────────────────────────────────

    /// The samples lane `i` plays for frames `[f0, f0 + out.len())`, before its volume. False, and `out`
    /// as it was, when it is silent.
    pub fn render(&self, cx: &Cx, i: usize, f0: Frame, out: &mut Vec<Single>) -> (sounds: bool)
        requires
            i < TRACK_COUNT,
            self.ready(*cx),
            grid::near(f0 as int),
        ensures
            sounds == self.world(*cx).sounding(i as int),
            !sounds ==> final(out)@ == old(out)@,
            sounds ==> final(out)@.len() == old(out)@.len() && forall|k: int|
                0 <= k < old(out)@.len() ==> #[trigger] final(out)@[k] == self.played(i as int, f0 + k),
    {
        let ghost w = self.world(*cx);
        proof {
            w.lemma_lane(cx.now, i as int);
        }
        let t = self.control.deck.lanes[i];
        let silent: bool = match self.control.deck.rec {
            Some(r) => r.stop_playback && r.lane == i,
            None => false,
        };
        // Only a committed lane plays, and a lane commits only onto a master.
        if !(t.state == LaneState::Playing || (t.state == LaneState::Overdubbing && !silent)) {
            return false;
        }
        let master: Frame = self.control.deck.master;
        let anchor: Frame = self.control.deck.anchor;
        let mut pos: Frame = loop_pos(f0, anchor, master);
        let mut k: usize = 0;
        while k < out.len()
            invariant
                k <= out@.len(),
                out@.len() == old(out)@.len(),
                i < TRACK_COUNT,
                w == self.world(*cx),
                self.ready(*cx),
                t == self.control.deck.lanes@[i as int],
                t.audible.buf < BUFFER_COUNT,
                master == self.control.deck.master,
                anchor == self.control.deck.anchor,
                0 < master <= self.control.deck.capacity,
                0 < t.period <= master,
                0 <= pos < master,
                pos == grid::pos_in_loop(f0 + k, anchor as int, master as int),
                forall|j: int| 0 <= j < k ==> #[trigger] out@[j] == self.played(i as int, f0 + j),
            decreases out@.len() - k,
        {
            let at: Frame = if t.audible.reversed {
                master - 1 - pos
            } else {
                pos
            };
            let x: Single = self.pool.bufs[t.audible.buf][(at % t.period) as usize];
            assert(x == self.played(i as int, f0 + k));
            out[k] = x;
            proof {
                grid::law_loop_position_advances_and_repeats(f0 + k, anchor as int, master as int);
            }
            pos = pos + 1;
            if pos == master {
                pos = 0;
            }
            k = k + 1;
        }
        true
    }

    /// The sample lane `i` plays at a frame.
    pub open spec fn played(&self, i: int, f: int) -> Single {
        let d = self.control.deck;
        self.pcm()[d.lanes@[i].audible.buf as int][d.heard(i, f)]
    }

    // ── AUTO ───────────────────────────────────────────────────────────────────────────────────────

    /// AUTO listens for an onset.
    pub fn listening(&self, cx: &Cx) -> (r: bool)
        requires
            self.ready(*cx),
        ensures
            r == (self.control.deck.rec is Some && self.world(*cx).rec_lane().auto_armed),
    {
        match self.control.deck.rec {
            Some(r) => {
                proof {
                    self.world(*cx).lemma_rec(cx.now);
                }
                self.control.deck.lanes[r.lane].auto_armed
            },
            None => false,
        }
    }

    /// AUTO hears a sample: `square` is its square, `sum` the window's sum of squares with it, and
    /// `required` what the sum must reach. True when it triggers.
    pub fn hear(&mut self, cx: &Cx, sample: Single, square: Double, sum: Double, required: Double) -> (loud: bool)
        requires
            old(self).ready(*cx),
        ensures
            final(self).ready(*cx),
            final(self).same_tape(old(self)),
            final(self).world(*cx) == (World {
                ear: old(self).world(*cx).ear.after(sample, square, sum),
                ..old(self).world(*cx)
            }),
            ({
                let ear = final(self).world(*cx).ear;
                loud == (ear.squares.len() == ear.analysis && sum.is_number() && required.is_number() && sum.rank()
                    >= required.rank())
            }),
    {
        self.control.detector.hear(sample, square, sum, required)
    }

    /// AUTO triggered on the sample before frame `at`: the onset retained from block `active` of its
    /// history becomes the take's beginning, and the grid anchors where it was performed.
    pub fn begin_take(&mut self, cx: &mut Cx, at: Frame, active: Option<usize>)
        requires
            old(self).ready(*old(cx)),
            old(self).control.deck.rec is Some,
            old(self).world(*old(cx)).rec_lane().auto_armed,
            old(cx).now <= at,
            grid::near(at as int),
            active matches Some(a) ==> a <= old(self).world(*old(cx)).ear.heard.len(),
        ensures
            ({
                let w = old(self).world(*old(cx));
                let i = w.deck.rec->0.lane as int;
                let live = w.rec_lane().live as int;
                let from = w.ear.onset(active);
                let frames = grid::min_int(w.ear.heard.len() - from, w.deck.capacity as int);
                let (before, after) = (old(self).pcm(), final(self).pcm());
                let kept = (World { ear: Ear { copied: frames as nat, ..w.ear }, ..w }).with_lane(
                    i,
                    Lane { written: frames as Frame, ..w.lane(i) },
                );
                &&& final(self).world(*final(cx)) == kept.auto_begun(
                    old(cx).now,
                    old(cx).align,
                    (at - frames) as Frame,
                )
                &&& after == before.update(live, after[live])
                &&& after[live] == w.ear.heard.subrange(from, from + frames) + before[live].subrange(
                    frames,
                    w.deck.capacity as int,
                )
            }),
            final(cx).when(*old(cx)),
            final(self).control.deck.capacity == old(self).control.deck.capacity,
            final(self).control.steady(*final(cx), *old(cx)),
            final(self).world(*final(cx)).inv(at),
            final(self).pool.grew(&old(self).pool),
            final(self).pool.wf(final(self).control.deck.capacity as int),
            final(self).job_step_max == old(self).job_step_max,
            final(self).published == old(self).published,
            final(self).published_transport == old(self).published_transport,
            final(self).overview == old(self).overview,
    {
        let ghost w = self.world(*cx);
        proof {
            w.lemma_rec(cx.now);
        }
        let i: usize = self.control.deck.rec.unwrap().lane;
        proof {
            w.lemma_lane(cx.now, i as int);
        }
        let mut t = self.control.deck.lanes[i];
        self.pool.retain(t.live, &mut self.control.detector, active, self.control.deck.capacity);
        let frames: Frame = self.control.detector.copied() as Frame;
        t.written = frames;
        self.control.deck.lanes[i] = t;
        let ghost kept = self.world(*cx);
        proof {
            w.lemma_retained(kept, cx.now);
        }
        let onset: Frame = at - frames;
        self.control.begin_auto(cx, onset);
        proof {
            kept.lemma_auto_begun(cx.now, cx.align, onset, at);
        }
    }

    // ── Feed ───────────────────────────────────────────────────────────────────────────────────────

    /// Say what changed since the last publish: lane infos and the transport; and set the overview.
    pub fn publish(&mut self, cx: &mut Cx)
        requires
            old(self).ready(*old(cx)),
        ensures
            final(self).ready(*final(cx)),
            final(cx).when(*old(cx)),
            final(self).control == old(self).control,
            final(self).pool == old(self).pool,
            final(self).job_step_max == old(self).job_step_max,
            ({
                let w = old(self).world(*old(cx));
                &&& final(self).world(*final(cx)) == (World {
                    said: w.said + lane_news(w, old(self).published@, old(cx).now, TRACK_COUNT as int)
                        + transport_news(w, old(self).published_transport, old(cx).now),
                    ..w
                })
                &&& final(self).told(w)
            }),
    {
        let ghost w = self.world(*cx);
        let ghost cx0 = *cx;
        let ghost published = self.published@;
        let ghost said = cx.feed.said();
        let mut k: usize = 0;
        assert(said + lane_news(w, published, cx.now, 0) =~= said);
        while k < TRACK_COUNT
            invariant
                k <= TRACK_COUNT,
                self.control == old(self).control,
                self.pool == old(self).pool,
                self.job_step_max == old(self).job_step_max,
                self.published_transport == old(self).published_transport,
                self.overview == old(self).overview,
                w == old(self).world(cx0),
                said == cx0.feed.said(),
                published == old(self).published@,
                cx.feed.wf(),
                cx.when(cx0),
                cx.clock == cx0.clock,
                cx.fx == cx0.fx,
                cx.feed.said() == said + lane_news(w, published, cx0.now, k as int),
                self.published@.len() == TRACK_COUNT,
                forall|j: int| 0 <= j < k ==> #[trigger] self.published@[j] == Some(w.info(j)),
                forall|j: int| k <= j < TRACK_COUNT ==> #[trigger] self.published@[j] == published[j],
            decreases TRACK_COUNT - k,
        {
            let info: LaneInfo = self.control.info(k);
            assert(info == self.control.world(cx0).info(k as int));
            let known: bool = match self.published[k] {
                Some(p) => p == info,
                None => false,
            };
            if !known {
                self.published[k] = Some(info);
                cx.feed.push(Event::Lane { frame: cx.now, lane: k as u8, info });
                proof {
                    let news = lane_news(w, published, cx0.now, k as int);
                    assert(said + lane_news(w, published, cx0.now, k + 1) =~= (said + news).push(
                        Event::Lane { frame: cx0.now, lane: k as u8, info },
                    ));
                }
            }
            k = k + 1;
        }
        let ghost news = lane_news(w, published, cx.now, TRACK_COUNT as int);
        let transport = Transport {
            master: self.control.deck.master,
            bpm: cx.clock.bpm(),
            locked: cx.clock.locked(),
        };
        let known: bool = match self.published_transport {
            Some(p) => p == transport,
            None => false,
        };
        if !known {
            self.published_transport = Some(transport);
            cx.feed.push(
                Event::Transport {
                    frame: cx.now,
                    master: transport.master,
                    bpm: transport.bpm,
                    locked: transport.locked,
                },
            );
        }
        assert(cx.feed.said() =~= said + news + transport_news(w, old(self).published_transport, cx.now));
        assert(self.published@ =~= Seq::new(TRACK_COUNT as nat, |j: int| Some(w.info(j))));
        self.show(cx);
        assert(self.overview.views() =~= Seq::new(TRACK_COUNT as nat, |j: int| view_of(w.lane(j))));
        assert(self.told(w));
    }

    /// Set the overview.
    fn show(&mut self, cx: &Cx)
        ensures
            final(self).control == old(self).control,
            final(self).pool == old(self).pool,
            final(self).job_step_max == old(self).job_step_max,
            final(self).published == old(self).published,
            final(self).published_transport == old(self).published_transport,
            final(self).overview.anchor() == old(self).control.deck.anchor,
            final(self).overview.views() == Seq::new(
                TRACK_COUNT as nat,
                |k: int| view_of(old(self).control.deck.lanes@[k]),
            ),
    {
        self.overview.set_grid(self.control.deck.anchor);
        proof {
            self.overview.lemma_one_view_a_lane();
        }
        let mut k: usize = 0;
        while k < TRACK_COUNT
            invariant
                k <= TRACK_COUNT,
                self.control == old(self).control,
                self.pool == old(self).pool,
                self.job_step_max == old(self).job_step_max,
                self.published == old(self).published,
                self.published_transport == old(self).published_transport,
                self.overview.anchor() == self.control.deck.anchor,
                self.overview.views().len() == TRACK_COUNT,
                forall|j: int|
                    0 <= j < k ==> #[trigger] self.overview.views()[j] == view_of(self.control.deck.lanes@[j]),
            decreases TRACK_COUNT - k,
        {
            let t = self.control.deck.lanes[k];
            let frames: Frame = match t.state {
                LaneState::Empty => 0,
                LaneState::Recording => if t.armed || t.auto_armed {
                    0
                } else {
                    t.written
                },
                _ => t.length,
            };
            self.overview.set_lane(k, LaneView { buf: t.live, frames, reversed: t.reversed });
            k = k + 1;
        }
        assert(self.overview.views() =~= Seq::new(
            TRACK_COUNT as nat,
            |j: int| view_of(self.control.deck.lanes@[j]),
        ));
    }
}

} // verus!

//! What a capture leaves when it ends: the take on its loop, the layer kept or taken back, the passes of a roll,
//! and what the device's stop makes of it.

use vstd::prelude::*;

use crate::api::{Command, Event, LaneState, TRACK_COUNT};
use crate::deck;
use crate::deck::{Applied, Deck, Job, JobKind, Kind, Lane, Recorder, World, BUFFER_COUNT};
use crate::float;
use crate::float::Single;
use crate::grid;
use crate::grid::{Frame, TakeFill};
use crate::looper::changes::{beats_with, lemma_bars_of};
use crate::looper::gestures;
use crate::looper::gestures::others_same;
use crate::looper::taking::{captures_on, window_over};

verus! {

/// How a lane lands when its capture ends.
pub open spec fn landing(r: Recorder) -> LaneState {
    if r.stop_playback {
        LaneState::Stopped
    } else {
        LaneState::Playing
    }
}

// ── Layers ─────────────────────────────────────────────────────────────────────────────────────────

/// An overdub ends at the press, the input's delay later; an end it has already is never put off.
#[verifier::rlimit(40)]
pub proof fn law_an_overdub_ends_at_the_press(w: World, now: Frame, align: Frame, i: int)
    requires
        w.inv(now),
        captures_on(w, i),
        w.lane(i).state == LaneState::Overdubbing,
        w.lane(i).stop_at is None,
        w.deck.rec->0.align > 0,
        w.deck.rec->0.end matches Some(e) ==> now < e,
    ensures
        ({
            let after = w.commanded(now, align, Command::RecDub(i as u8));
            let (r, s) = (w.deck.rec->0, after.deck.rec->0);
            &&& w.command_answer(now, Command::RecDub(i as u8)) == Applied::Done
            &&& after.deck.rec is Some
            &&& s.end is Some
            &&& s == (Recorder { end: s.end, ..r })
            &&& s.end->0 <= now + r.align
            &&& r.end is None ==> s.end->0 == now + r.align
            &&& r.end is Some ==> s.end->0 <= r.end->0 && (s.end->0 == r.end->0 || s.end->0 == now + r.align)
            &&& after == (World { deck: Deck { rec: after.deck.rec, ..w.deck }, ..w })
        }),
{
    reveal(World::lane_commanded);
    reveal(World::capture_stopped);
    w.lemma_lane(now, i);
    w.lemma_rec(now);
    assert(w.deck.rec->0.lane == i) by {
        reveal(Deck::rec_ok);
        assert(w.deck.lanes@[i].is_capturing());
    }
    assert(deck::kept(now + w.deck.rec->0.align));
    w.lemma_stop_target(now, i);
}

/// A clean layer stays: the loop, its undo target and every other lane are as they are, and the recorder is free.
#[verifier::rlimit(40)]
pub proof fn law_a_clean_layer_stays(w: World, now: Frame, align: Frame, i: int)
    requires
        window_over(w, now, i),
        w.deck.rec->0.kind == Kind::Overdub,
    ensures
        ({
            let after = w.edge_due(now, align);
            &&& after.lane(i) == (Lane { state: landing(w.deck.rec->0), ..w.lane(i) })
            &&& after.deck.rec is None
            &&& others_same(w, after, i)
            &&& after == (World { deck: Deck { lanes: after.deck.lanes, rec: None, ..w.deck }, ..w })
        }),
{
    reveal(World::edge_due);
    reveal(World::finished);
    reveal(Deck::is_blank);
    w.lemma_lane(now, i);
    w.lemma_rec(now);
    let rec = w.deck.rec->0;
    let v = w.closed(now, i, rec).released(i);
    assert(v.deck.lanes@[i].state != LaneState::Empty);
    assert(!v.blank());
    let after = w.edge_due(now, align);
    assert(after == v);
    assert(after.deck.lanes@ =~= w.deck.lanes@.update(i, after.lane(i)));
}

/// What a layer taken back leaves of its lane and the free buffer: the undo target from before it and, where the
/// input has reached the loop, a job that puts back every position that was layered, from the copy made when it
/// began.
pub open spec fn layer_back(w: World, after: World, now: Frame, i: int, r: Recorder, pcm: Seq<Seq<Single>>, d: int, k: int) -> bool {
    let (a, b) = (w.lane(i), after.lane(i));
    &&& b.live == a.live
    &&& b.undo_valid == r.prev_undo_valid
    &&& b.length == a.length
    &&& b.period == a.period
    &&& b.volume == a.volume
    &&& b.muted == a.muted
    &&& r.summed == 0 ==> {
        &&& b.spare == w.deck.free
        &&& b.spare_reversed == r.prev_spare_reversed
        &&& after.deck.free == a.spare
    }
    &&& r.summed > 0 ==> {
        let job = after.jobs[k]->0;
        let back = job.moved(pcm, 0, job.visit.span as int);
        let p = (r.first_pos + d) % (w.deck.master as int);
        &&& 0 <= k < after.jobs.len()
        &&& after.jobs[k] is Some
        &&& job.lane == i
        &&& job.start == now
        &&& job.kind == (JobKind::Restore {
            src: a.spare,
            dst: a.live,
            prev_undo_valid: r.prev_undo_valid,
            prev_spare_reversed: r.prev_spare_reversed,
        })
        &&& 0 <= d < r.summed ==> back[a.live as int][p] == pcm[a.spare as int][p]
        &&& forall|x: int| 0 <= x < BUFFER_COUNT && x != a.live ==> #[trigger] back[x] == pcm[x]
    }
}

proof fn lemma_layer_back(w: World, now: Frame, i: int, pcm: Seq<Seq<Single>>, d: int) -> (k: int)
    requires
        w.inv(now),
        0 <= i < TRACK_COUNT,
        w.deck.rec is Some,
        w.deck.rec->0.lane == i,
        w.deck.rec->0.kind == Kind::Overdub,
        pcm.len() == BUFFER_COUNT,
        forall|b: int| 0 <= b < BUFFER_COUNT ==> (#[trigger] pcm[b]).len() == w.deck.capacity,
    ensures
        ({
            let after = w.layer_discarded(now, i, w.deck.rec->0);
            &&& layer_back(w, after, now, i, w.deck.rec->0, pcm, d, k)
            &&& others_same(w, after, i)
            &&& after.lane(i).state == w.lane(i).state
            &&& after.lane(i).stop_at == w.lane(i).stop_at
            &&& after.lane(i).reversed == w.lane(i).reversed
            &&& after.lane(i).audible == w.lane(i).audible
            &&& after.deck == (Deck { lanes: after.deck.lanes, free: after.deck.free, ..w.deck })
            &&& after.clock == w.clock
            &&& after.said == w.said
            &&& after.fx == w.fx
        }),
{
    reveal(World::layer_discarded);
    w.lemma_lane(now, i);
    w.lemma_rec(now);
    let r = w.deck.rec->0;
    let t = w.lane(i);
    let master = w.deck.master as int;
    if r.summed == 0 {
        0
    } else {
        let jobs = deck::without_lane(w.jobs, i);
        let reader = grid::pos_in_loop(now as int, w.deck.anchor as int, master);
        let into = (reader - r.first_pos) % master;
        let off = if into < r.summed {
            into
        } else {
            0
        };
        vstd::arithmetic::div_mod::lemma_mod_bound(reader - r.first_pos, master);
        let job = Job {
            kind: JobKind::Restore {
                src: t.spare,
                dst: t.live,
                prev_undo_valid: r.prev_undo_valid,
                prev_spare_reversed: r.prev_spare_reversed,
            },
            lane: i as usize,
            visit: deck::Visit { lo: r.first_pos, span: r.summed, off: off as Frame, modulus: w.deck.master },
            start: now,
            progress: 0,
        };
        let k = gestures::lemma_job_slot(jobs, job);
        let after = w.layer_discarded(now, i, r);
        assert(after.jobs == deck::with_job(jobs, job));
        assert(job.wf(w.deck.capacity as int)) by {
            reveal(Deck::pool_ok);
            assert(w.deck.owner(i) != w.deck.owner(i + 5));
        }
        if 0 <= d < r.summed {
            job.law_a_whole_job_moves_its_span(pcm, d, w.deck.capacity as int);
        }
        k
    }
}

/// STOP takes a layer back and silences its lane: the loop is put back position by position, the undo target from
/// before the layer is the undo target again, and the recorder is free.
pub proof fn law_stop_takes_a_layer_back(w: World, now: Frame, align: Frame, i: int, pcm: Seq<Seq<Single>>, d: int) -> (k: int)
    requires
        w.inv(now),
        0 <= i < TRACK_COUNT,
        w.lane(i).state == LaneState::Overdubbing,
        w.deck.rec is Some,
        w.deck.rec->0.lane == i,
        pcm.len() == BUFFER_COUNT,
        forall|b: int| 0 <= b < BUFFER_COUNT ==> (#[trigger] pcm[b]).len() == w.deck.capacity,
    ensures
        ({
            let after = w.commanded(now, align, Command::Stop(i as u8));
            &&& w.command_answer(now, Command::Stop(i as u8)) == Applied::Done
            &&& layer_back(w, after, now, i, w.deck.rec->0, pcm, d, k)
            &&& after.lane(i).state == LaneState::Stopped
            &&& after.lane(i).stop_at is None
            &&& after.deck.rec is None
            &&& others_same(w, after, i)
            &&& after.deck.master == w.deck.master
            &&& after.deck.anchor == w.deck.anchor
            &&& after.clock == w.clock
            &&& after.said == w.said
            &&& after.fx == w.fx
        }),
{
    reveal(World::lane_commanded);
    reveal(World::stopped);
    w.lemma_lane(now, i);
    w.lemma_rec(now);
    let t = w.lane(i);
    let v = w.with_lane(i, Lane { stop_at: None, ..t });
    let u = v.with_lane(i, Lane { armed: false, ..v.lane(i) });
    let k = lemma_layer_back(w, now, i, pcm, d);
    reveal(World::layer_discarded);
    let a = w.layer_discarded(now, i, w.deck.rec->0);
    let b = u.layer_discarded(now, i, w.deck.rec->0);
    assert(b.jobs == a.jobs);
    assert(b.deck.free == a.deck.free);
    assert(b.lane(i) == Lane { stop_at: None, armed: false, ..a.lane(i) });
    k
}

/// A damaged layer is taken back the same way and said to be; its lane lands as it would have.
#[verifier::rlimit(40)]
pub proof fn law_a_damaged_layer_is_taken_back(
    w: World,
    now: Frame,
    align: Frame,
    i: int,
    pcm: Seq<Seq<Single>>,
    d: int,
) -> (k: int)
    requires
        w.inv(now),
        0 <= i < TRACK_COUNT,
        w.deck.rec is Some,
        w.deck.rec->0.lane == i,
        w.deck.rec->0.kind == Kind::Overdub,
        w.deck.rec->0.damaged,
        w.deck.rec->0.end matches Some(e) && e <= now,
        pcm.len() == BUFFER_COUNT,
        forall|b: int| 0 <= b < BUFFER_COUNT ==> (#[trigger] pcm[b]).len() == w.deck.capacity,
    ensures
        ({
            let after = w.edge_due(now, align);
            &&& layer_back(w, after, now, i, w.deck.rec->0, pcm, d, k)
            &&& after.lane(i).state == landing(w.deck.rec->0)
            &&& after.deck.rec is None
            &&& after.said == w.said.push(Event::TakeRejected { frame: now, lane: i as u8, overdub: true })
            &&& others_same(w, after, i)
            &&& after.deck.master == w.deck.master
            &&& after.deck.anchor == w.deck.anchor
            &&& after.clock == w.clock
        }),
{
    reveal(World::edge_due);
    reveal(World::finished);
    reveal(Deck::is_blank);
    w.lemma_lane(now, i);
    w.lemma_rec(now);
    let rec = w.deck.rec->0;
    let k = lemma_layer_back(w, now, i, pcm, d);
    let u = w.say(Event::TakeRejected { frame: now, lane: i as u8, overdub: true });
    reveal(World::layer_discarded);
    let a = w.layer_discarded(now, i, rec);
    let b = u.layer_discarded(now, i, rec);
    assert(b.jobs == a.jobs);
    assert(b.deck == a.deck);
    let v = w.closed(now, i, rec).released(i);
    assert(v.deck.lanes@[i].state != LaneState::Empty);
    assert(!v.blank());
    k
}

/// A layer put back is over: the free buffer is the lane's undo target again, as it was before.
pub proof fn law_a_layer_put_back_returns_the_undo_target(w: World, now: Frame, k: int)
    requires
        w.inv(now),
        0 <= k < w.jobs.len(),
        w.jobs[k] is Some,
        w.jobs[k]->0.kind is Restore,
        w.lane(w.jobs[k]->0.lane as int).period == w.lane(w.jobs[k]->0.lane as int).length,
    ensures
        ({
            let after = w.job_due(now, k);
            let job = w.jobs[k]->0;
            let i = job.lane as int;
            let (a, b) = (w.lane(i), after.lane(i));
            &&& b.spare == w.deck.free
            &&& after.deck.free == a.spare
            &&& b.undo_valid == job.kind->prev_undo_valid
            &&& b.spare_reversed == job.kind->prev_spare_reversed
            &&& b == (Lane { spare: b.spare, undo_valid: b.undo_valid, spare_reversed: b.spare_reversed, ..a })
            &&& others_same(w, after, i)
            &&& after.jobs == w.jobs.update(k, None)
            &&& after.said == w.said
        }),
{
    reveal(World::job_due);
    reveal(World::job_brought);
    reveal(World::caught_up);
    w.lemma_job_known(now, k);
}

/// A lane whose buffer has been filled to its length plays all of it; until then it plays the loop it held.
pub proof fn law_a_filled_lane_plays_its_length(w: World, now: Frame, k: int)
    requires
        w.inv(now),
        0 <= k < w.jobs.len(),
        w.jobs[k] is Some,
        w.jobs[k]->0.kind is Fill,
    ensures
        ({
            let job = w.jobs[k]->0;
            let i = job.lane as int;
            let after = w.job_due(now, k);
            let (a, b) = (w.lane(i), after.lane(i));
            let own = a.is_committed() && job.kind->buf == a.live && job.kind->fill.master == a.length;
            &&& own ==> b.period == a.length
            &&& b == (Lane { period: b.period, ..a })
            &&& !(a.is_committed() && job.kind->buf == a.live) ==> b.period == a.period
            &&& others_same(w, after, i)
            &&& after.deck == (Deck { lanes: after.deck.lanes, ..w.deck })
        }),
{
    reveal(World::job_due);
    reveal(World::job_brought);
    reveal(World::caught_up);
    w.lemma_job_known(now, k);
    let i = w.jobs[k]->0.lane as int;
    w.lemma_lane(now, i);
    if w.lane(i).length > 0 {
        vstd::arithmetic::div_mod::lemma_mod_self_0(w.lane(i).length as int);
    }
}

/// A committed lane that holds a shorter loop than its length, with no job on it, has it repeated to its length: its own
/// buffer, and the undo target's where there is one, each by a job of its own that starts now.
pub proof fn law_a_short_loop_is_repeated_to_its_length(w: World, now: Frame, i: int) -> (ks: (int, int))
    requires
        w.inv(now),
        0 <= i < TRACK_COUNT,
        w.lane(i).is_committed(),
        w.lane(i).period < w.lane(i).length,
        !deck::busy(w.jobs, i),
    ensures
        ({
            let after = w.caught_up(now, i);
            let t = w.lane(i);
            let repeats = |job: Option<Job>, buf: usize|
                {
                    &&& job is Some
                    &&& job->0.lane == i
                    &&& job->0.start == now
                    &&& job->0.kind == (JobKind::Fill {
                        buf,
                        fill: TakeFill { raw: t.period, period: t.period, master: t.length },
                    })
                    &&& job->0.visit.lo == t.period
                    &&& job->0.visit.span == t.length - t.period
                };
            &&& 0 <= ks.0 < after.jobs.len()
            &&& repeats(after.jobs[ks.0], t.live)
            &&& t.undo_valid ==> 0 <= ks.1 < after.jobs.len() && repeats(after.jobs[ks.1], t.spare)
            &&& after.deck == w.deck
            &&& after.clock == w.clock
        }),
{
    reveal(World::caught_up);
    w.lemma_lane(now, i);
    let t = w.lane(i);
    let fill = TakeFill { raw: t.period, period: t.period, master: t.length };
    let visit = deck::Visit { lo: t.period, span: (t.length - t.period) as Frame, off: 0, modulus: t.length };
    let spare = Job { kind: JobKind::Fill { buf: t.spare, fill }, lane: i as usize, visit, start: now, progress: 0 };
    let live = Job { kind: JobKind::Fill { buf: t.live, fill }, lane: i as usize, visit, start: now, progress: 0 };
    let first = gestures::lemma_job_slot(w.jobs, spare);
    let mid = if t.undo_valid {
        deck::with_job(w.jobs, spare)
    } else {
        w.jobs
    };
    let second = gestures::lemma_job_slot(mid, live);
    let after = w.caught_up(now, i);
    assert(after.jobs == deck::with_job(mid, live));
    if t.undo_valid {
        assert(mid[first] == Some(spare));
        assert(first != second) by {
            if first == second {
                assert(mid[second] is None);
            }
        }
        assert(after.jobs[first] == mid[first]) by {
            assert(first < mid.len());
            gestures::lemma_job_keeps(mid, live, first);
        }
    }
    (second, first)
}

// ── Takes ──────────────────────────────────────────────────────────────────────────────────────────

/// Frame `p` of the loop that a take of `raw` frames fills, tiled every `period` frames.
pub open spec fn tiled(take: Seq<Single>, raw: int, period: int, p: int) -> Single {
    if p % period < raw {
        take[p % period]
    } else {
        float::silence()
    }
}

/// What laying a take leaves: what was kept stays, the rest is filled by one job, or nothing is left to fill.
#[verifier::rlimit(40)]
proof fn lemma_laid(w: World, now: Frame, i: int, stop: bool, fill: TakeFill, pcm: Seq<Seq<Single>>, p: int) -> (k: int)
    requires
        0 <= i < TRACK_COUNT,
        fill.wf(),
        0 <= fill.raw,
        fill.master == w.deck.master,
        w.deck.master <= w.deck.capacity <= grid::LOOP_LIMIT,
        w.lane(i).live < BUFFER_COUNT,
        deck::kept(now as int),
        pcm.len() == BUFFER_COUNT,
        forall|b: int| 0 <= b < BUFFER_COUNT ==> (#[trigger] pcm[b]).len() == w.deck.capacity,
        0 <= p < w.deck.master,
    ensures
        ({
            let after = w.take_laid(now, i, stop, fill);
            let live = w.lane(i).live as int;
            let filled = after.jobs[k]->0.moved(pcm, 0, after.jobs[k]->0.visit.span as int);
            let want = tiled(pcm[live], fill.raw as int, fill.period as int, p);
            ||| after.jobs == w.jobs && pcm[live][p] == want
            ||| 0 <= k < after.jobs.len() && after.jobs[k] is Some && after.jobs[k]->0.lane == i && after.jobs[k]->0.start
                == now && filled[live][p] == want && (forall|b: int|
                0 <= b < BUFFER_COUNT && b != live ==> #[trigger] filled[b] == pcm[b])
        }),
{
    reveal(World::take_laid);
    let master = w.deck.master as int;
    let lo = fill.kept();
    let live = w.lane(i).live;
    if p < lo {
        vstd::arithmetic::div_mod::lemma_small_mod(p as nat, fill.period as nat);
    }
    if lo < master {
        let reader = grid::pos_in_loop(now as int, w.deck.anchor as int, master);
        vstd::arithmetic::div_mod::lemma_mod_bound(now - w.deck.anchor, master);
        let off = if reader >= lo {
            reader - lo
        } else {
            0
        };
        let job = Job {
            kind: JobKind::Fill { buf: live, fill },
            lane: i as usize,
            visit: deck::Visit { lo: lo as Frame, span: (master - lo) as Frame, off: off as Frame, modulus: w.deck.master },
            start: now,
            progress: 0,
        };
        let k = gestures::lemma_job_slot(w.jobs, job);
        let after = w.take_laid(now, i, stop, fill);
        assert(after.jobs == deck::with_job(w.jobs, job));
        assert(job.wf(w.deck.capacity as int));
        if p >= lo {
            job.law_a_whole_job_moves_its_span(pcm, p - lo, w.deck.capacity as int);
            vstd::arithmetic::div_mod::lemma_small_mod(p as nat, master as nat);
        } else {
            assert(!job.visits(0, master - lo, p)) by {
                if job.visits(0, master - lo, p) {
                    let s = choose|s: int| 0 <= s < master - lo && #[trigger] job.visit.pos(s) == p;
                    let at = (off + s) % (master - lo);
                    vstd::arithmetic::div_mod::lemma_mod_bound(off + s, master - lo);
                    vstd::arithmetic::div_mod::lemma_small_mod((lo + at) as nat, master as nat);
                }
            }
        }
        k
    } else {
        0
    }
}

/// A first take is laid as it was played: frame `p` of the loop is frame `p` of the take, silence where it has none.
pub proof fn law_a_first_take_is_laid_as_played(
    w: World,
    now: Frame,
    align: Frame,
    i: int,
    b: int,
    pcm: Seq<Seq<Single>>,
    p: int,
) -> (k: int)
    requires
        window_over(w, now, i),
        w.deck.rec->0.kind == Kind::Take,
        w.deck.rec->0.handoff is None,
        !w.lane(i).armed,
        w.deck.master == 0,
        b >= 1,
        b * w.fpb() <= w.deck.capacity,
        ({
            let raw = grid::min_int(w.lane(i).written as int, w.deck.rec->0.end->0 - w.deck.rec->0.start->0);
            ||| b * w.fpb() <= raw < b * w.fpb() + w.fpb()
            ||| b == 1 && raw < w.fpb()
        }),
        pcm.len() == BUFFER_COUNT,
        forall|x: int| 0 <= x < BUFFER_COUNT ==> (#[trigger] pcm[x]).len() == w.deck.capacity,
        0 <= p < b * w.fpb(),
    ensures
        ({
            let after = w.edge_due(now, align);
            let live = w.lane(i).live as int;
            let raw = grid::min_int(w.lane(i).written as int, w.deck.rec->0.end->0 - w.deck.rec->0.start->0);
            let filled = after.jobs[k]->0.moved(pcm, 0, after.jobs[k]->0.visit.span as int);
            let want = if p < raw {
                pcm[live][p]
            } else {
                float::silence()
            };
            &&& after.lane(i).live == live
            &&& after.lane(i).audible.buf == live
            &&& after.lane(i).period == b * w.fpb()
            &&& after.jobs == w.jobs && pcm[live][p] == want || (0 <= k < after.jobs.len() && after.jobs[k] is Some
                && after.jobs[k]->0.lane == i && after.jobs[k]->0.start == now && filled[live][p] == want)
        }),
{
    reveal(World::edge_due);
    reveal(World::finished);
    w.lemma_lane(now, i);
    w.lemma_rec(now);
    let rec = w.deck.rec->0;
    let fpb = w.fpb();
    let raw = grid::min_int(w.lane(i).written as int, rec.end->0 - rec.start->0);
    grid::lemma_bar_bounds(w.clock.bpm as int, w.deck.sample_rate as int);
    crate::looper::taking::lemma_first_master(w, now, align, i, b);
    let made = w.master_made(now, rec.downbeat, raw as Frame);
    assert(made.deck.master == b * fpb && made.jobs == w.jobs && made.lane(i) == w.lane(i) && made.deck.capacity
        == w.deck.capacity) by {
        reveal(World::master_made);
        crate::looper::taking::lemma_commit_bars(raw, fpb, w.deck.capacity as int, b);
    }
    assert(w.lane(i).live < BUFFER_COUNT) by {
        reveal(Deck::pool_ok);
        assert(0 <= w.deck.owner(i) < BUFFER_COUNT);
    }
    let fill = TakeFill::first_fill(raw as Frame, made.deck.master);
    let k = lemma_laid(made, now, i, rec.stop_playback, fill, pcm, p);
    vstd::arithmetic::div_mod::lemma_small_mod(p as nat, (b * fpb) as nat);
    let c = w.closed(now, i, rec).released(i);
    assert(c.jobs == made.take_laid(now, i, rec.stop_playback, fill).jobs);
    assert(c.lane(i).state != LaneState::Empty && c.lane(i).audible.buf == w.lane(i).live) by {
        reveal(World::take_laid);
    }
    assert(!c.blank()) by {
        reveal(Deck::is_blank);
        assert(c.deck.lanes@[i].state != LaneState::Empty);
    }
    k
}

/// A later take no longer than the loops (or over a master that is no whole bars) is laid on its lane, tiled every
/// completed bar of it, silence where it has none; the loops, their grid and the other lanes are left alone.
#[verifier::rlimit(40)]
pub proof fn law_a_later_take_is_laid_on_the_loop(
    w: World,
    now: Frame,
    align: Frame,
    i: int,
    b: int,
    pcm: Seq<Seq<Single>>,
    p: int,
) -> (k: int)
    requires
        window_over(w, now, i),
        w.deck.rec->0.kind == Kind::Take,
        w.deck.rec->0.handoff is None,
        !w.lane(i).armed,
        w.deck.master > 0,
        w.deck.master as int % w.fpb() == 0,
        b >= 1,
        b * w.fpb() <= w.deck.master,
        ({
            let raw = grid::min_int(w.lane(i).written as int, w.deck.rec->0.end->0 - w.deck.rec->0.start->0);
            ||| b * w.fpb() <= raw < b * w.fpb() + w.fpb()
            ||| b == 1 && raw < w.fpb()
            ||| b * w.fpb() == w.deck.master && w.deck.master <= raw < 2 * w.deck.master
        }),
        pcm.len() == BUFFER_COUNT,
        forall|x: int| 0 <= x < BUFFER_COUNT ==> (#[trigger] pcm[x]).len() == w.deck.capacity,
        0 <= p < w.deck.master,
    ensures
        ({
            let after = w.edge_due(now, align);
            let t = after.lane(i);
            let live = w.lane(i).live as int;
            let raw = grid::min_int(w.lane(i).written as int, w.deck.rec->0.end->0 - w.deck.rec->0.start->0);
            let filled = after.jobs[k]->0.moved(pcm, 0, after.jobs[k]->0.visit.span as int);
            let want = tiled(pcm[live], raw, b * w.fpb(), p);
            &&& after.deck.master == w.deck.master
            &&& after.deck.anchor == w.deck.anchor
            &&& after.deck.rec is None
            &&& after.clock == w.clock
            &&& others_same(w, after, i)
            &&& t.state == landing(w.deck.rec->0)
            &&& t.live == live
            &&& t.length == w.deck.master
            &&& t.period == w.deck.master
            &&& t.written == w.deck.master
            &&& !t.armed
            &&& t.audible.buf == live
            &&& t.volume == w.lane(i).volume
            &&& t.muted == w.lane(i).muted
            &&& after.jobs == w.jobs && pcm[live][p] == want || (0 <= k < after.jobs.len() && after.jobs[k] is Some
                && after.jobs[k]->0.lane == i && after.jobs[k]->0.start == now && filled[live][p] == want)
        }),
{
    reveal(World::edge_due);
    reveal(World::finished);
    reveal(World::take_laid);
    reveal(Deck::is_blank);
    w.lemma_lane(now, i);
    w.lemma_rec(now);
    let rec = w.deck.rec->0;
    let fpb = w.fpb();
    let master = w.deck.master as int;
    let raw = grid::min_int(w.lane(i).written as int, rec.end->0 - rec.start->0);
    grid::lemma_bar_bounds(w.clock.bpm as int, w.deck.sample_rate as int);
    let fill = TakeFill::later_fill(raw as Frame, fpb as Frame, w.deck.master);
    lemma_tile(raw, fpb, master, b);
    assert(!w.multiplies(raw as Frame)) by {
        assert(raw < 2 * master);
        assert(raw / master < 2) by (nonlinear_arith)
            requires
                0 <= raw < 2 * master,
                master > 0,
        ;
    }
    assert(w.lane(i).live < BUFFER_COUNT) by {
        reveal(Deck::pool_ok);
        assert(0 <= w.deck.owner(i) < BUFFER_COUNT);
    }
    let k = lemma_laid(w, now, i, rec.stop_playback, fill, pcm, p);
    let v = w.closed(now, i, rec).released(i);
    assert(v.deck.lanes@[i].state != LaneState::Empty);
    assert(!v.blank());
    vstd::arithmetic::div_mod::lemma_mod_bound(p, b * fpb);
    k
}

/// The tile of a take: its completed bars, one at least, the loop at most.
proof fn lemma_tile(raw: int, fpb: int, master: int, b: int)
    requires
        1 <= fpb <= grid::LOOP_LIMIT,
        0 <= raw <= grid::LOOP_LIMIT,
        0 < master <= grid::LOOP_LIMIT,
        master % fpb == 0,
        b >= 1,
        b * fpb <= master,
        ({
            ||| b * fpb <= raw < b * fpb + fpb
            ||| b == 1 && raw < fpb
            ||| b * fpb == master && master <= raw < 2 * master
        }),
    ensures
        ({
            let fill = TakeFill::later_fill(raw as Frame, fpb as Frame, master as Frame);
            &&& fill.period == b * fpb
            &&& fill.raw == grid::min_int(raw, master)
            &&& fill.wf()
            &&& raw < 2 * master
        }),
{
    let m = master / fpb;
    let q = raw / fpb;
    vstd::arithmetic::div_mod::lemma_fundamental_div_mod(master, fpb);
    vstd::arithmetic::div_mod::lemma_fundamental_div_mod(raw, fpb);
    vstd::arithmetic::div_mod::lemma_mod_bound(raw, fpb);
    assert(m >= 1 && b <= m && (b * fpb == master ==> b == m) && (b * fpb <= raw < b * fpb + fpb ==> q == b) && (raw
        < fpb ==> q == 0) && (master <= raw ==> q >= m)) by (nonlinear_arith)
        requires
            master == fpb * m,
            raw == fpb * q + raw % fpb,
            0 <= raw % fpb < fpb,
            0 <= raw,
            master > 0,
            b >= 1,
            b * fpb <= master,
            fpb >= 1,
    ;
    assert(b * fpb + fpb <= 2 * master) by (nonlinear_arith)
        requires
            b * fpb <= master,
            b >= 1,
            fpb >= 1,
    ;
}

/// A take that spans `n` loops, two at least, makes the loop that long: the new master starts where a loop of the
/// old one did, at most one old loop before the take, the take is its first loop, and every lane that has a loop is
/// as long.
#[verifier::rlimit(40)]
pub proof fn law_a_long_take_multiplies_the_loop(w: World, now: Frame, align: Frame, i: int, n: int, j: int)
    requires
        window_over(w, now, i),
        w.deck.rec->0.kind == Kind::Take,
        w.deck.rec->0.handoff is None,
        !w.lane(i).armed,
        w.deck.master > 0,
        w.deck.master as int % w.fpb() == 0,
        n >= 2,
        ({
            let raw = grid::min_int(w.lane(i).written as int, w.deck.rec->0.end->0 - w.deck.rec->0.start->0);
            n * w.deck.master <= raw < n * w.deck.master + w.deck.master
        }),
        0 <= j < TRACK_COUNT,
        w.lane(j).is_committed(),
    ensures
        ({
            let after = w.edge_due(now, align);
            let played = w.deck.rec->0.start->0 - w.deck.rec->0.align;
            let old = w.deck.master as int;
            &&& after.deck.master == n * old
            &&& (after.deck.anchor - w.deck.anchor) % old == 0
            &&& after.deck.anchor <= played < after.deck.anchor + old
            &&& forall|bars: int|
                bars >= 1 && n * old == #[trigger] (bars * w.fpb()) ==> beats_with(
                    after.clock,
                    after.deck.anchor as int,
                    n * old,
                    bars,
                    now,
                )
            &&& after.deck.rec is None
            &&& after.lane(i).live == w.lane(i).live
            &&& after.lane(i).is_committed()
            &&& after.lane(i).length == n * old
            &&& after.lane(i).period == n * old
            &&& after.lane(j).length == n * old
            &&& after.lane(j) == (Lane { length: after.lane(j).length, ..w.lane(j) })
        }),
{
    reveal(World::edge_due);
    reveal(World::finished);
    reveal(Deck::is_blank);
    w.lemma_lane(now, i);
    w.lemma_lane(now, j);
    w.lemma_rec(now);
    let rec = w.deck.rec->0;
    let old = w.deck.master as int;
    let raw = grid::min_int(w.lane(i).written as int, rec.end->0 - rec.start->0);
    vstd::arithmetic::div_mod::lemma_fundamental_div_mod_converse(raw, old, n, raw - n * old);
    w.lemma_multiply(now, i, raw as Frame);
    let d = rec.start->0 - rec.align - w.deck.anchor;
    vstd::arithmetic::div_mod::lemma_fundamental_div_mod(d, old);
    vstd::arithmetic::div_mod::lemma_mod_bound(d, old);
    vstd::arithmetic::div_mod::lemma_mod_multiples_basic(d / old, old);
    assert(old * (d / old) == d / old * old) by (nonlinear_arith);
    grid::lemma_bar_bounds(w.clock.bpm as int, w.deck.sample_rate as int);
    assert forall|bars: int| bars >= 1 && n * old == #[trigger] (bars * w.fpb()) implies beats_with(
        w.closed(now, i, rec).clock,
        w.closed(now, i, rec).deck.anchor as int,
        n * old,
        bars,
        now,
    ) by {
        lemma_bars_of(n * old, w.fpb(), bars);
        lemma_multiplied_beats(w, now, i, n, bars);
    }
    let v = w.closed(now, i, rec).released(i);
    assert(v.deck.lanes@[i].state != LaneState::Empty);
    assert(!v.blank());
}

/// A loop that grew beats on its new grid.
#[verifier::rlimit(40)]
proof fn lemma_multiplied_beats(w: World, now: Frame, i: int, n: int, bars: int)
    requires
        w.inv(now),
        0 <= i < TRACK_COUNT,
        w.deck.rec is Some,
        w.deck.rec->0.lane == i,
        w.deck.rec->0.kind == Kind::Take,
        !w.deck.rec->0.damaged,
        !w.lane(i).auto_armed,
        w.deck.master > 0,
        w.deck.master as int % w.fpb() == 0,
        n >= 2,
        ({
            let raw = grid::min_int(w.lane(i).written as int, w.deck.rec->0.end->0 - w.deck.rec->0.start->0);
            n * w.deck.master <= raw < n * w.deck.master + w.deck.master
        }),
        bars >= 1,
        n * w.deck.master / w.fpb() == bars,
    ensures
        ({
            let after = w.closed(now, i, w.deck.rec->0);
            beats_with(after.clock, after.deck.anchor as int, n * w.deck.master, bars, now)
        }),
{
    reveal(World::multiplied);
    reveal(World::take_laid);
    w.lemma_lane(now, i);
    w.lemma_rec(now);
    let rec = w.deck.rec->0;
    let old = w.deck.master as int;
    let raw = grid::min_int(w.lane(i).written as int, rec.end->0 - rec.start->0) as Frame;
    vstd::arithmetic::div_mod::lemma_fundamental_div_mod_converse(raw as int, old, n, raw - n * old);
    w.lemma_multiply(now, i, raw);
    let v = w.multiplied(now, rec.start->0 - rec.align, n);
    let laid = v.take_laid(now, i, rec.stop_playback, TakeFill::later_fill(raw, w.fpb() as Frame, v.deck.master));
    assert forall|j: int|
        0 <= j < TRACK_COUNT && j != i && (#[trigger] laid.deck.lanes@[j]).is_committed() implies 0
        < laid.deck.lanes@[j].period by {
        w.lemma_lane(now, j);
    }
    laid.lemma_lengthened_calm(now, 0, i);
    lemma_lengthened_clock(laid, now, 0, i);
    let fpb = w.fpb();
    grid::lemma_bar_bounds(w.clock.bpm as int, w.deck.sample_rate as int);
    vstd::arithmetic::div_mod::lemma_fundamental_div_mod(n * old, fpb);
    vstd::arithmetic::div_mod::lemma_mod_bound(n * old, fpb);
    assert(bars <= n * old) by (nonlinear_arith)
        requires
            n * old == fpb * bars + (n * old) % fpb,
            0 <= (n * old) % fpb,
            fpb >= 1,
            bars >= 1,
    ;
    assert(v.deck.master == n * old);
    assert(w.closed(now, i, rec) == laid.lengthened(now, 0, i));
    assert(laid.clock == v.clock);
    assert(beats_with(v.clock, v.deck.anchor as int, n * old, bars, now));
}

proof fn lemma_lengthened_clock(w: World, now: Frame, k: int, i: int)
    requires
        0 <= k <= TRACK_COUNT,
    ensures
        w.lengthened(now, k, i).clock == w.clock,
    decreases TRACK_COUNT - k,
{
    reveal(World::caught_up);
    if k < TRACK_COUNT {
        let t = w.lane(k);
        let v = if k != i && t.is_committed() {
            w.with_lane(k, Lane { length: w.deck.master, ..t }).caught_up(now, k)
        } else {
            w
        };
        lemma_lengthened_clock(v, now, k + 1, i);
    }
}

/// A take that PLAY/STOP has ended, or that is damaged, is handed on to nobody: the lane that waited for it stays
/// EMPTY and the recorder is free.
#[verifier::rlimit(40)]
pub proof fn law_what_does_not_play_is_not_handed_on(w: World, now: Frame, align: Frame, i: int, j: int)
    requires
        w.inv(now),
        0 <= i < TRACK_COUNT,
        0 <= j < TRACK_COUNT,
        w.deck.rec is Some,
        w.deck.rec->0.lane == i,
        w.deck.rec->0.kind == Kind::Take,
        w.deck.rec->0.roll is None,
        w.deck.rec->0.handoff == Some(j as usize),
        w.deck.rec->0.stop_playback || w.deck.rec->0.damaged,
        w.deck.rec->0.end matches Some(e) && e <= now,
        !w.lane(i).auto_armed,
        !w.lane(i).armed,
        w.deck.master > 0,
        w.deck.rec->0.end->0 - w.deck.rec->0.start->0 < 2 * w.deck.master,
    ensures
        ({
            let after = w.edge_due(now, align);
            &&& after.deck.rec is None
            &&& after.lane(j).state == LaneState::Empty
        }),
{
    reveal(World::edge_due);
    reveal(World::finished);
    reveal(World::take_laid);
    reveal(Deck::is_blank);
    w.lemma_lane(now, i);
    w.lemma_rec(now);
    assert(w.lane(j).state == LaneState::Empty);
    let rec = w.deck.rec->0;
    let master = w.deck.master as int;
    let raw = grid::min_int(w.lane(i).written as int, rec.end->0 - rec.start->0);
    assert(raw / master < 2) by (nonlinear_arith)
        requires
            0 <= raw < 2 * master,
            master > 0,
    ;
}

/// A damaged take is dropped and said to be: its lane is EMPTY, the recorder free, the loops as they were.
#[verifier::rlimit(40)]
pub proof fn law_a_damaged_take_is_dropped(w: World, now: Frame, align: Frame, i: int)
    requires
        w.inv(now),
        0 <= i < TRACK_COUNT,
        w.deck.rec is Some,
        w.deck.rec->0.lane == i,
        w.deck.rec->0.kind == Kind::Take,
        w.deck.rec->0.damaged,
        w.deck.rec->0.roll is None,
        w.deck.rec->0.end matches Some(e) && e <= now,
        !w.lane(i).auto_armed,
    ensures
        ({
            let after = w.edge_due(now, align);
            let t = after.lane(i);
            &&& t.state == LaneState::Empty
            &&& t.length == 0
            &&& t.written == 0
            &&& !t.armed
            &&& t.live == w.lane(i).live
            &&& t.spare == w.lane(i).spare
            &&& t.volume == w.lane(i).volume
            &&& after.deck.rec is None
            &&& after.said == w.said.push(Event::TakeRejected { frame: now, lane: i as u8, overdub: false })
            &&& others_same(w, after, i)
            &&& after.jobs == w.jobs
            &&& after.clock.bpm == w.clock.bpm
            &&& w.deck.master == 0 ==> !after.clock.locked
            &&& (exists|x: int| 0 <= x < TRACK_COUNT && x != i && (#[trigger] w.deck.lanes@[x]).state != LaneState::Empty)
                ==> after.deck.master == w.deck.master && after.deck.anchor == w.deck.anchor
            &&& (forall|x: int| 0 <= x < TRACK_COUNT && x != i ==> (#[trigger] w.deck.lanes@[x]).state == LaneState::Empty)
                ==> after.deck.master == 0 && !after.clock.locked && after.clock.pulse is Some
                && after.clock.pulse->0.free_run
        }),
{
    reveal(World::edge_due);
    reveal(World::finished);
    reveal(Deck::is_blank);
    w.lemma_lane(now, i);
    w.lemma_rec(now);
    w.lemma_opened(now);
    let rec = w.deck.rec->0;
    let o = w.opened(now);
    let v = o.closed(now, i, rec).released(i);
    if exists|x: int| 0 <= x < TRACK_COUNT && x != i && (#[trigger] w.deck.lanes@[x]).state != LaneState::Empty {
        let x = choose|x: int| 0 <= x < TRACK_COUNT && x != i && (#[trigger] w.deck.lanes@[x]).state != LaneState::Empty;
        assert(v.deck.lanes@[x] == w.deck.lanes@[x]);
    } else {
        assert forall|x: int| 0 <= x < TRACK_COUNT implies (#[trigger] v.deck.lanes@[x]).state == LaneState::Empty by {
            if x != i {
                assert(v.deck.lanes@[x] == w.deck.lanes@[x]);
            }
        }
    }
}

/// A gap in the input damages the capture whose window it falls inside, and no other.
pub proof fn law_a_gap_damages_what_it_falls_inside(w: World, f: Frame)
    requires
        w.deck.rec is Some,
        !w.lane(w.deck.rec->0.lane as int).auto_armed,
        w.deck.rec->0.start is Some,
    ensures
        ({
            let after = w.gapped(f);
            let r = w.deck.rec->0;
            let inside = r.start->0 < f && (r.end matches Some(e) ==> f < e);
            &&& after.deck.rec is Some
            &&& after == (World { deck: Deck { rec: after.deck.rec, ..w.deck }, ..w })
            &&& after.deck.rec->0 == (Recorder { damaged: r.damaged || inside, ..r })
        }),
{
}

// ── Passes ─────────────────────────────────────────────────────────────────────────────────────────

/// A roll that reaches its pass end goes on with the next pass, as long, from that very frame: a clean pass is set
/// aside, a damaged one is dropped and said to be, and with it what was kept before.
pub proof fn law_a_roll_goes_on_with_the_next_pass(w: World, now: Frame, align: Frame)
    requires
        w.inv(now),
        w.deck.rec is Some,
        w.deck.rec->0.roll is Some,
        w.deck.rec->0.end matches Some(e) && e <= now,
        !w.lane(w.deck.rec->0.lane as int).armed,
        !w.lane(w.deck.rec->0.lane as int).auto_armed,
        w.deck.rec->0.end->0 + (w.deck.rec->0.end->0 - w.deck.rec->0.start->0) <= i64::MAX,
    ensures
        ({
            let after = w.edge_due(now, align);
            let (r, s) = (w.deck.rec->0, after.deck.rec->0);
            let i = r.lane as int;
            let (a, b) = (w.lane(i), after.lane(i));
            &&& after.deck.rec is Some
            &&& s.lane == i
            &&& s.start == r.end
            &&& s.end is Some
            &&& s.end->0 - s.start->0 == r.end->0 - r.start->0
            &&& !s.damaged
            &&& s.roll is Some
            &&& s.roll->0.kept == !r.damaged
            &&& r.roll->0.pass < u32::MAX ==> s.roll->0.pass == r.roll->0.pass + 1
            &&& s.stop_playback == r.stop_playback
            &&& s.handoff == r.handoff
            &&& r.downbeat is Some ==> s.downbeat == Some((r.downbeat->0 + (r.end->0 - r.start->0)) as Frame)
            &&& r.downbeat is None ==> s.downbeat is None
            &&& b.state == LaneState::Recording
            &&& b.written == 0
            &&& b.audible.buf == b.live
            &&& b.spare == a.spare
            &&& !r.damaged ==> b.live == w.deck.free && after.deck.free == a.live && after.said == w.said
            &&& r.damaged ==> b.live == a.live && after.deck.free == w.deck.free && after.said == w.said.push(
                Event::PassDropped { frame: now, lane: i as u8, pass: r.roll->0.pass },
            )
            &&& others_same(w, after, i)
            &&& after.deck.master == w.deck.master
            &&& after.deck.anchor == w.deck.anchor
            &&& after.clock == w.clock
            &&& after.jobs == w.jobs
        }),
{
    reveal(World::edge_due);
    reveal(World::pass_completed);
    w.lemma_rec(now);
    w.lemma_lane(now, w.deck.rec->0.lane as int);
}

/// The stop gesture on a roll over the loops. Up to a quarter beat before the pass end the pass in flight is
/// finished and kept; before that the last pass kept is what the lane plays, at once, and the one in flight is
/// dropped.
#[verifier::rlimit(40)]
pub proof fn law_a_stop_on_a_roll_keeps_a_whole_pass(w: World, now: Frame, align: Frame, i: int)
    requires
        w.inv(now),
        captures_on(w, i),
        w.deck.master > 0,
        w.deck.rec->0.roll is Some,
        w.deck.rec->0.handoff is None,
    ensures
        ({
            let after = w.commanded(now, align, Command::RecDub(i as u8));
            let r = w.deck.rec->0;
            let left = r.end->0 - (now + r.align);
            &&& 16 * left <= w.fpb() && now < r.end->0 ==> after == (World {
                deck: Deck { rec: Some(Recorder { roll: None, ..r }), ..w.deck },
                ..w
            })
            &&& 16 * left > w.fpb() && r.roll->0.kept ==> {
                &&& after.deck.rec is None
                &&& after.lane(i).state == landing(r)
                &&& after.lane(i).live == w.deck.free
                &&& after.deck.free == w.lane(i).live
                &&& after.lane(i).audible.buf == w.deck.free
                &&& after.lane(i).length == w.deck.master
                &&& after.lane(i).period == w.deck.master
                &&& after.deck.master == w.deck.master
                &&& after.deck.anchor == w.deck.anchor
                &&& after.clock == w.clock
                &&& after.said == w.said
                &&& after.jobs == w.jobs
                &&& others_same(w, after, i)
            }
        }),
{
    reveal(World::lane_commanded);
    reveal(World::capture_stopped);
    w.lemma_lane(now, i);
    w.lemma_rec(now);
    let r = w.deck.rec->0;
    let rec = Recorder { roll: None, ..r };
    if 16 * (r.end->0 - (now + r.align)) > w.fpb() && r.roll->0.kept {
        lemma_pass_kept(w, now, align, i);
    }
}

/// The kept pass laid on its lane.
#[verifier::rlimit(40)]
pub proof fn lemma_pass_kept(w: World, now: Frame, align: Frame, i: int)
    requires
        w.inv(now),
        captures_on(w, i),
        w.deck.master > 0,
        w.deck.rec->0.roll is Some,
        w.deck.rec->0.handoff is None,
    ensures
        ({
            let r = w.deck.rec->0;
            let after = w.pass_approved(i, Recorder { roll: None, ..r }).finished(now, align, i);
            &&& after.deck.rec is None
            &&& after.lane(i).state == landing(r)
            &&& after.lane(i).live == w.deck.free
            &&& after.deck.free == w.lane(i).live
            &&& after.lane(i).audible.buf == w.deck.free
            &&& after.lane(i).length == w.deck.master
            &&& after.lane(i).period == w.deck.master
            &&& after.deck.master == w.deck.master
            &&& after.deck.anchor == w.deck.anchor
            &&& after.clock == w.clock
            &&& after.said == w.said
            &&& after.jobs == w.jobs
            &&& others_same(w, after, i)
        }),
{
    reveal(World::finished);
    w.lemma_lane(now, i);
    w.lemma_rec(now);
    let v = w.pass_approved(i, Recorder { roll: None, ..w.deck.rec->0 });
    let rec = v.deck.rec->0;
    let master = w.deck.master;
    assert(!v.multiplies(master)) by {
        vstd::arithmetic::div_mod::lemma_div_by_self(master as int);
    }
    let c = v.closed(now, i, rec).released(i);
    lemma_pass_laid(w, now, i);
    assert(!c.blank()) by {
        reveal(Deck::is_blank);
        assert(c.deck.lanes@[i].state != LaneState::Empty);
    }
}

#[verifier::rlimit(40)]
proof fn lemma_pass_laid(w: World, now: Frame, i: int)
    requires
        w.inv(now),
        captures_on(w, i),
        w.deck.master > 0,
        w.deck.rec->0.roll is Some,
        w.deck.rec->0.handoff is None,
        !w.pass_approved(i, Recorder { roll: None, ..w.deck.rec->0 }).multiplies(w.deck.master),
    ensures
        ({
            let r = w.deck.rec->0;
            let v = w.pass_approved(i, Recorder { roll: None, ..r });
            let c = v.closed(now, i, v.deck.rec->0).released(i);
            &&& c.deck.rec is None
            &&& c.lane(i).state == landing(r)
            &&& c.lane(i).live == w.deck.free
            &&& c.deck.free == w.lane(i).live
            &&& c.lane(i).audible.buf == w.deck.free
            &&& c.lane(i).length == w.deck.master
            &&& c.lane(i).period == w.deck.master
            &&& c.deck.master == w.deck.master
            &&& c.deck.anchor == w.deck.anchor
            &&& c.clock == w.clock
            &&& c.said == w.said
            &&& c.jobs == w.jobs
            &&& others_same(w, c, i)
        }),
{
    reveal(World::take_laid);
    w.lemma_lane(now, i);
    w.lemma_rec(now);
    grid::lemma_bar_bounds(w.clock.bpm as int, w.deck.sample_rate as int);
    lemma_whole_take(w.fpb(), w.deck.master as int);
}

/// A take as long as its loop leaves nothing to fill.
proof fn lemma_whole_take(fpb: int, master: int)
    requires
        1 <= fpb <= grid::LOOP_LIMIT,
        0 < master <= grid::LOOP_LIMIT,
    ensures
        TakeFill::later_fill(master as Frame, fpb as Frame, master as Frame).kept() == master,
{
    if master % fpb == 0 {
        let m = master / fpb;
        vstd::arithmetic::div_mod::lemma_fundamental_div_mod(master, fpb);
        assert(m >= 1 && m * fpb == master) by (nonlinear_arith)
            requires
                master == fpb * m,
                master > 0,
                fpb >= 1,
        ;
        lemma_tile(master, fpb, master, m);
    }
}

/// A roll that has no pass to keep, its pass end not near, ends like a take that does not roll.
pub proof fn law_a_roll_with_nothing_kept_ends_like_a_take(w: World, now: Frame, align: Frame, i: int)
    requires
        w.inv(now),
        captures_on(w, i),
        w.deck.rec->0.roll is Some,
        !w.deck.rec->0.roll->0.kept,
        16 * (w.deck.rec->0.end->0 - (now + w.deck.rec->0.align)) > w.fpb(),
    ensures
        ({
            let plain = w.with_rec(Some(Recorder { roll: None, ..w.deck.rec->0 }));
            &&& w.commanded(now, align, Command::RecDub(i as u8)) == plain.commanded(now, align, Command::RecDub(i as u8))
            &&& w.commanded(now, align, Command::PlayStop(i as u8)) == plain.commanded(
                now,
                align,
                Command::PlayStop(i as u8),
            )
        }),
{
    reveal(World::lane_commanded);
    reveal(World::capture_stopped);
    w.lemma_lane(now, i);
    w.lemma_rec(now);
    assert(w.deck.rec->0.lane == i) by {
        reveal(Deck::rec_ok);
        assert(w.deck.lanes@[i].is_capturing());
    }
    let r = w.deck.rec->0;
    let plain = w.with_rec(Some(Recorder { roll: None, ..r }));
    let told = w.with_rec(Some(Recorder { stop_playback: true, ..r }));
    let both = plain.with_rec(Some(Recorder { stop_playback: true, ..plain.deck.rec->0 }));
    assert(w.window_cut(Recorder { roll: None, ..r }, 0) == plain.window_cut(Recorder { roll: None, ..r }, 0));
    assert(w.capture_stopped(now, align, i) == plain.capture_stopped(now, align, i));
    assert(told.capture_stopped(now, align, i) == both.capture_stopped(now, align, i));
}

/// REC on an EMPTY lane while another rolls: near the pass end, or with a pass kept, it approves the roll, and this
/// lane records next; with nothing to keep it does nothing.
#[verifier::rlimit(40)]
pub proof fn law_rec_elsewhere_approves_a_roll(w: World, now: Frame, align: Frame, i: int, j: int)
    requires
        w.inv(now),
        captures_on(w, i),
        w.deck.rec->0.roll is Some,
        0 <= j < TRACK_COUNT,
        w.lane(j).state == LaneState::Empty,
        gestures::at_rest(w.jobs, j),
        forall|k: int| 0 <= k < w.jobs.len() && (#[trigger] w.jobs[k]) is Some ==> !(w.jobs[k]->0.kind is Restore),
    ensures
        ({
            let after = w.commanded(now, align, Command::RecDub(j as u8));
            let r = w.deck.rec->0;
            let left = r.end->0 - (now + r.align);
            &&& 16 * left <= w.fpb() && now < r.end->0 ==> after == (World {
                deck: Deck { rec: Some(Recorder { roll: None, handoff: Some(j as usize), ..r }), ..w.deck },
                ..w
            })
            &&& 16 * left > w.fpb() && !r.roll->0.kept ==> after == w
        }),
{
    reveal(World::lane_commanded);
    reveal(World::capture_stopped);
    w.lemma_lane(now, i);
    w.lemma_lane(now, j);
    w.lemma_rec(now);
    gestures::lemma_at_rest(w.jobs, j, true);
}

/// A take that is handed on ends, clean and playing, and the next lane's take begins on the very frame its window
/// ended: nothing that is played is lost.
pub proof fn law_a_handoff_records_on_from_the_pass_end(w: World, now: Frame, align: Frame, i: int, j: int)
    requires
        window_over(w, now, i),
        w.deck.rec->0.kind == Kind::Take,
        w.deck.rec->0.handoff == Some(j as usize),
        0 <= j < TRACK_COUNT,
        !w.deck.rec->0.stop_playback,
        !w.lane(i).armed,
        w.deck.master > 0,
        w.deck.rec->0.end->0 - w.deck.rec->0.start->0 < 2 * w.deck.master,
    ensures
        ({
            let after = w.edge_due(now, align);
            let (r, s) = (w.deck.rec->0, after.deck.rec->0);
            &&& after.lane(i).state == LaneState::Playing
            &&& after.lane(i).length == w.deck.master
            &&& after.lane(j).state == LaneState::Recording
            &&& after.lane(j).armed
            &&& after.deck.rec is Some
            &&& s.lane == j
            &&& s.kind == Kind::Take
            &&& s.start == r.end
            &&& s.align == align
            &&& s.handoff is None
            &&& !s.damaged
            &&& !s.stop_playback
            &&& after.deck.master == w.deck.master
            &&& after.deck.anchor == w.deck.anchor
        }),
{
    reveal(World::edge_due);
    w.lemma_lane(now, i);
    w.lemma_rec(now);
    lemma_handed_on(w, now, align, i, j);
}

/// A clean take laid on the loops, handed on to nobody.
#[verifier::rlimit(40)]
pub proof fn lemma_take_kept(w: World, now: Frame, align: Frame, i: int)
    requires
        w.inv(now),
        0 <= i < TRACK_COUNT,
        w.deck.rec is Some,
        w.deck.rec->0.lane == i,
        w.deck.rec->0.kind == Kind::Take,
        !w.deck.rec->0.damaged,
        w.deck.rec->0.handoff is None,
        !w.lane(i).auto_armed,
        w.deck.master > 0,
        w.deck.rec->0.end->0 - w.deck.rec->0.start->0 < 2 * w.deck.master,
    ensures
        ({
            let after = w.finished(now, align, i);
            &&& after.lane(i).state == landing(w.deck.rec->0)
            &&& after.lane(i).live == w.lane(i).live
            &&& after.lane(i).length == w.deck.master
            &&& after.deck.master == w.deck.master
            &&& after.deck.anchor == w.deck.anchor
            &&& after.deck.rec is None
            &&& after.clock == w.clock
            &&& others_same(w, after, i)
        }),
{
    reveal(World::finished);
    w.lemma_lane(now, i);
    w.lemma_rec(now);
    let rec = w.deck.rec->0;
    let master = w.deck.master as int;
    let raw = grid::min_int(w.lane(i).written as int, rec.end->0 - rec.start->0);
    assert(raw / master < 2) by (nonlinear_arith)
        requires
            0 <= raw < 2 * master,
            master > 0,
    ;
    let c = w.closed(now, i, rec).released(i);
    assert(c.lane(i).state == landing(rec) && c.lane(i).live == w.lane(i).live && c.lane(i).length == master
        && c.deck.master == master && c.deck.anchor == w.deck.anchor && c.deck.rec is None && c.clock == w.clock
        && others_same(w, c, i)) by {
        reveal(World::take_laid);
    }
    assert(!c.blank()) by {
        reveal(Deck::is_blank);
        assert(c.deck.lanes@[i].state != LaneState::Empty);
    }
}

/// A clean take laid and handed on.
#[verifier::rlimit(40)]
proof fn lemma_handed_on(w: World, now: Frame, align: Frame, i: int, j: int)
    requires
        w.inv(now),
        0 <= i < TRACK_COUNT,
        0 <= j < TRACK_COUNT,
        w.deck.rec is Some,
        w.deck.rec->0.lane == i,
        w.deck.rec->0.kind == Kind::Take,
        !w.deck.rec->0.damaged,
        !w.deck.rec->0.stop_playback,
        w.deck.rec->0.handoff == Some(j as usize),
        !w.lane(i).auto_armed,
        w.deck.master > 0,
        w.deck.rec->0.end->0 - w.deck.rec->0.start->0 < 2 * w.deck.master,
    ensures
        ({
            let after = w.finished(now, align, i);
            let (r, s) = (w.deck.rec->0, after.deck.rec->0);
            &&& after.lane(i).state == LaneState::Playing
            &&& after.lane(i).live == w.lane(i).live
            &&& after.lane(i).length == w.deck.master
            &&& after.lane(j).state == LaneState::Recording
            &&& after.lane(j).armed
            &&& after.deck.rec is Some
            &&& s.lane == j
            &&& s.kind == Kind::Take
            &&& s.start == r.end
            &&& s.align == align
            &&& s.handoff is None
            &&& !s.damaged
            &&& !s.stop_playback
            &&& after.deck.master == w.deck.master
            &&& after.deck.anchor == w.deck.anchor
        }),
{
    reveal(World::finished);
    w.lemma_lane(now, i);
    w.lemma_rec(now);
    let rec = w.deck.rec->0;
    let master = w.deck.master as int;
    let raw = grid::min_int(w.lane(i).written as int, rec.end->0 - rec.start->0);
    assert(raw / master < 2) by (nonlinear_arith)
        requires
            0 <= raw < 2 * master,
            master > 0,
    ;
    let c = w.closed(now, i, rec).released(i);
    assert(c.lane(i).state == LaneState::Playing && c.lane(i).live == w.lane(i).live && c.lane(i).length == master
        && c.deck.rec is None && c.deck.master == master && c.deck.anchor == w.deck.anchor) by {
        reveal(World::take_laid);
    }
    assert(!c.blank()) by {
        reveal(Deck::is_blank);
        assert(c.deck.lanes@[i].state != LaneState::Empty);
    }
    assert(j != i);
    reveal(World::recording);
}

/// A kept pass of a first take makes the master: as many bars as the pass has, at once.
#[verifier::rlimit(40)]
pub proof fn law_a_kept_first_pass_makes_the_master(w: World, now: Frame, align: Frame, i: int, b: int)
    requires
        w.inv(now),
        captures_on(w, i),
        w.deck.master == 0,
        w.deck.rec->0.roll is Some,
        w.deck.rec->0.roll->0.kept,
        w.deck.rec->0.handoff is None,
        16 * (w.deck.rec->0.end->0 - (now + w.deck.rec->0.align)) > w.fpb(),
        b >= 1,
        w.deck.rec->0.end->0 - w.deck.rec->0.start->0 == b * w.fpb(),
    ensures
        ({
            let after = w.commanded(now, align, Command::RecDub(i as u8));
            &&& after.deck.master == b * w.fpb()
            &&& after.lane(i).length == b * w.fpb()
            &&& after.lane(i).live == w.deck.free
            &&& after.lane(i).state == landing(w.deck.rec->0)
            &&& after.deck.rec is None
            &&& after.clock.locked
        }),
{
    reveal(World::lane_commanded);
    reveal(World::capture_stopped);
    w.lemma_lane(now, i);
    w.lemma_rec(now);
    let r = w.deck.rec->0;
    let v = w.pass_approved(i, Recorder { roll: None, ..r });
    w.lemma_pass_approved(now, i);
    crate::looper::taking::lemma_first_master(v, now, align, i, b);
    crate::looper::taking::lemma_finished_state(v, now, align, i);
}

/// REC on an EMPTY lane while another rolls over the loops, with a pass kept and the pass end not near: the kept pass
/// plays at once, and this lane records from the end of the pass in flight.
#[verifier::rlimit(40)]
pub proof fn law_rec_elsewhere_takes_the_kept_pass(w: World, now: Frame, align: Frame, i: int, j: int)
    requires
        w.inv(now),
        captures_on(w, i),
        w.deck.master > 0,
        w.deck.rec->0.roll is Some,
        w.deck.rec->0.roll->0.kept,
        !w.deck.rec->0.stop_playback,
        16 * (w.deck.rec->0.end->0 - (now + w.deck.rec->0.align)) > w.fpb(),
        0 <= j < TRACK_COUNT,
        w.lane(j).state == LaneState::Empty,
        gestures::at_rest(w.jobs, j),
        forall|k: int| 0 <= k < w.jobs.len() && (#[trigger] w.jobs[k]) is Some ==> !(w.jobs[k]->0.kind is Restore),
    ensures
        ({
            let after = w.commanded(now, align, Command::RecDub(j as u8));
            let (r, s) = (w.deck.rec->0, after.deck.rec->0);
            &&& after.lane(i).state == LaneState::Playing
            &&& after.lane(i).live == w.deck.free
            &&& after.lane(i).length == w.deck.master
            &&& after.lane(j).state == LaneState::Recording
            &&& after.lane(j).armed
            &&& after.deck.rec is Some
            &&& s.lane == j
            &&& s.start == r.end
            &&& s.handoff is None
            &&& after.deck.master == w.deck.master
            &&& after.deck.anchor == w.deck.anchor
        }),
{
    reveal(World::lane_commanded);
    reveal(World::capture_stopped);
    w.lemma_lane(now, i);
    w.lemma_lane(now, j);
    w.lemma_rec(now);
    gestures::lemma_at_rest(w.jobs, j, true);
    let r = Recorder { handoff: Some(j as usize), ..w.deck.rec->0 };
    w.lemma_rec_changed(r, now);
    let u = w.with_rec(Some(r));
    u.lemma_pass_approved(now, i);
    let v = u.pass_approved(i, Recorder { roll: None, ..r });
    lemma_handed_on(v, now, align, i, j);
}

} // verus!

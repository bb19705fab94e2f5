//! What the outside is told of the looper, and what a session saved and loaded keeps.

use vstd::prelude::*;

use crate::api::{Event, LaneInfo, LaneState, TRACK_COUNT};
use crate::control::Cx;
use crate::deck::{Deck, Lane, World, BUFFER_COUNT};
use crate::float::Single;
use crate::grid::Frame;
use crate::looper::audio;
use crate::looper::changes::beats_with;
use crate::looper::session::{
    bufs_loaded, has_loop, lanes_loaded, load_applied, loops_before, muddled, plans, snapshot_begun, Plan,
};
use crate::looper::Looper;
use crate::session::{Load, LoadTrack, SessionError, Snapshot};

verus! {

// ── News ───────────────────────────────────────────────────────────────────────────────────────────

/// What a lane is said to be: its state and length, whether it is armed or listens, what could be done to it, and the
/// pass a roll on it is at (0 where none rolls).
pub proof fn law_a_lane_is_told_as_it_is(w: World, i: int)
    ensures
        ({
            let (t, said) = (w.lane(i), w.info(i));
            let has = t.state == LaneState::Playing || t.state == LaneState::Stopped;
            let rolls = w.deck.rec matches Some(r) && r.lane == i && r.roll is Some && !t.armed;
            &&& said.state == t.state
            &&& said.length == t.length
            &&& said.armed == t.armed
            &&& said.auto_armed == t.auto_armed
            &&& said.reversed == t.reversed
            &&& said.stop_at == t.stop_at
            &&& said.can_undo == (t.undo_valid && has)
            &&& said.can_reverse == has
            &&& rolls ==> said.retake_pass == w.deck.rec->0.roll->0.pass
            &&& !rolls ==> said.retake_pass == 0
        }),
{
}

/// The news holds a lane's info exactly where it is not what was said last, and nothing else.
pub proof fn law_news_is_what_changed(w: World, published: Seq<Option<LaneInfo>>, now: Frame, k: int, i: int)
    requires
        0 <= k <= TRACK_COUNT,
        0 <= i < k,
    ensures
        ({
            let news = audio::lane_news(w, published, now, k);
            let mine = Event::Lane { frame: now, lane: i as u8, info: w.info(i) };
            &&& news.contains(mine) <==> published[i] != Some(w.info(i))
            &&& forall|n: int|
                0 <= n < news.len() ==> #[trigger] news[n] is Lane && news[n]->Lane_lane < k && news[n]->Lane_frame == now
            &&& news.len() <= k
        }),
    decreases k,
{
    lemma_news(w, published, now, k - 1);
    let before = audio::lane_news(w, published, now, k - 1);
    let news = audio::lane_news(w, published, now, k);
    let mine = Event::Lane { frame: now, lane: i as u8, info: w.info(i) };
    if i < k - 1 {
        law_news_is_what_changed(w, published, now, k - 1, i);
        if before.contains(mine) {
            let n = choose|n: int| 0 <= n < before.len() && before[n] == mine;
            assert(news[n] == mine);
        }
        if news.contains(mine) {
            let n = choose|n: int| 0 <= n < news.len() && news[n] == mine;
            assert(n < before.len());
            assert(before[n] == mine);
        }
    } else {
        if published[i] != Some(w.info(i)) {
            assert(news[before.len() as int] == mine);
        } else if news.contains(mine) {
            let n = choose|n: int| 0 <= n < news.len() && news[n] == mine;
            assert(before[n]->Lane_lane < k - 1);
        }
    }
}

proof fn lemma_news(w: World, published: Seq<Option<LaneInfo>>, now: Frame, k: int)
    requires
        0 <= k <= TRACK_COUNT,
    ensures
        ({
            let news = audio::lane_news(w, published, now, k);
            &&& forall|n: int|
                0 <= n < news.len() ==> #[trigger] news[n] is Lane && news[n]->Lane_lane < k && news[n]->Lane_frame == now
            &&& news.len() <= k
        }),
    decreases k,
{
    if k > 0 {
        lemma_news(w, published, now, k - 1);
    }
}

/// The transport is said where its master, its tempo or its lock is not what was said last.
pub proof fn law_the_transport_is_told_as_it_is(w: World, published: Option<crate::looper::Transport>, now: Frame)
    ensures
        ({
            let news = audio::transport_news(w, published, now);
            let same = published matches Some(t) && t.master == w.deck.master && t.bpm == w.clock.bpm && t.locked
                == w.clock.locked;
            &&& same ==> news.len() == 0
            &&& !same ==> news =~= seq![
                Event::Transport { frame: now, master: w.deck.master, bpm: w.clock.bpm, locked: w.clock.locked },
            ]
        }),
{
}

/// A lane is drawn from its own buffer: nothing of an EMPTY or armed one, what is captured of a take, the loop of any
/// other.
pub proof fn law_a_lane_is_drawn_as_it_is(t: Lane)
    ensures
        ({
            let v = audio::view_of(t);
            &&& v.buf == t.live
            &&& v.reversed == t.reversed
            &&& t.state == LaneState::Empty ==> v.frames == 0
            &&& t.state == LaneState::Recording && (t.armed || t.auto_armed) ==> v.frames == 0
            &&& t.state == LaneState::Recording && !t.armed && !t.auto_armed ==> v.frames == t.written
            &&& t.state == LaneState::Playing || t.state == LaneState::Stopped || t.state == LaneState::Overdubbing
                ==> v.frames == t.length
        }),
{
}

// ── Sessions ───────────────────────────────────────────────────────────────────────────────────────

/// A snapshot notes every lane that has a loop, in order: which lane it is, its state and the way round the loop it
/// copies has; that is the lane's own loop, or, while a layer is in flight, the one under the layer.
pub proof fn law_a_snapshot_notes_every_loop(
    l: &Looper,
    cx: Cx,
    a: &Snapshot,
    b: &Snapshot,
    bpm: u32,
    rate: u32,
    i: int,
    j: int,
)
    requires
        snapshot_begun(l, cx, a, b, bpm, rate),
        0 <= i < j < TRACK_COUNT,
        has_loop(l.world(cx).lane(i)),
        has_loop(l.world(cx).lane(j)),
    ensures
        ({
            let w = l.world(cx);
            let t = w.lane(i);
            let k = loops_before(w, i) as int;
            &&& 0 <= k < loops_before(w, j) < b.count
            &&& b.tracks@[k] is Some
            &&& b.tracks@[k]->0.index == i
            &&& b.tracks@[k]->0.state == t.state
            &&& b.pins@[k] is Some
            &&& t.state == LaneState::Overdubbing ==> b.pins@[k]->0.buf == t.spare && b.pins@[k]->0.backwards
                == t.spare_reversed && b.tracks@[k]->0.reversed == t.spare_reversed
            &&& t.state != LaneState::Overdubbing ==> b.pins@[k]->0.buf == t.live && b.pins@[k]->0.backwards
                == t.reversed && b.tracks@[k]->0.reversed == t.reversed
            &&& b.bpm == bpm
            &&& b.rate == rate
            &&& b.master == w.deck.master
        }),
{
    let w = l.world(cx);
    assert(crate::looper::session::noted(b, w, l.pool.writes@, i));
    crate::looper::session::lemma_loops_before(w, i, j);
    crate::looper::session::lemma_loops_before(w, j, TRACK_COUNT as int);
}

/// A lane has a loop to save while it plays, stands still or is layered.
pub proof fn law_what_has_a_loop_is_saved(t: Lane)
    ensures
        has_loop(t) <==> t.state == LaneState::Playing || t.state == LaneState::Stopped || t.state
            == LaneState::Overdubbing,
{
}

/// A lane as a track of a load leaves it.
pub open spec fn is_loaded(a: Lane, b: Lane, master: Frame, reversed: bool, playing: bool) -> bool {
    &&& b.state == (if playing {
        LaneState::Playing
    } else {
        LaneState::Stopped
    })
    &&& b.length == master
    &&& b.period == master
    &&& b.reversed == reversed
    &&& b.audible.buf == a.live
    &&& b.audible.reversed == reversed
    &&& b.live == a.live
    &&& b.spare == a.spare
    &&& !b.undo_valid
    &&& b.switch_at is None
    &&& b.stop_at is None
    &&& !b.armed
    &&& !b.auto_armed
    &&& b.volume == a.volume
    &&& b.muted == a.muted
}

proof fn lemma_lanes_loaded(w: World, plan: Seq<Plan>, n: int)
    requires
        0 <= n <= plan.len(),
        !muddled(plan),
    ensures
        ({
            let after = lanes_loaded(w, plan, n);
            &&& forall|k: int|
                0 <= k < n ==> is_loaded(
                    w.deck.lanes@[(#[trigger] plan[k]).index as int],
                    after.deck.lanes@[plan[k].index as int],
                    w.deck.master,
                    plan[k].reversed,
                    plan[k].playing,
                )
            &&& forall|i: int|
                0 <= i < TRACK_COUNT && (forall|k: int| 0 <= k < n ==> (#[trigger] plan[k]).index != i)
                    ==> #[trigger] after.deck.lanes@[i] == w.deck.lanes@[i]
            &&& after.deck == (Deck { lanes: after.deck.lanes, ..w.deck })
            &&& after.clock == w.clock
            &&& after.jobs == w.jobs
            &&& after.said == w.said
        }),
    decreases n,
{
    if n > 0 {
        lemma_lanes_loaded(w, plan, n - 1);
        let before = lanes_loaded(w, plan, n - 1);
        let after = lanes_loaded(w, plan, n);
        let p = plan[n - 1];
        assert(p.index < TRACK_COUNT);
        assert forall|k: int| 0 <= k < n - 1 implies (#[trigger] plan[k]).index != p.index by {}
        assert(before.deck.lanes@[p.index as int] == w.deck.lanes@[p.index as int]);
        assert forall|k: int| 0 <= k < n implies is_loaded(
            w.deck.lanes@[(#[trigger] plan[k]).index as int],
            after.deck.lanes@[plan[k].index as int],
            w.deck.master,
            plan[k].reversed,
            plan[k].playing,
        ) by {
            assert(plan[k].index < TRACK_COUNT);
            if k < n - 1 {
                assert(after.deck.lanes@[plan[k].index as int] == before.deck.lanes@[plan[k].index as int]);
            }
        }
        assert forall|i: int|
            0 <= i < TRACK_COUNT && (forall|k: int| 0 <= k < n ==> (#[trigger] plan[k]).index != i) implies #[trigger] after.deck.lanes@[i]
            == w.deck.lanes@[i] by {
            assert(plan[n - 1].index != i);
            assert(before.deck.lanes@[i] == w.deck.lanes@[i]);
        }
    }
}

proof fn lemma_bufs_loaded(pcm: Seq<Seq<Single>>, d: Deck, tracks: Seq<LoadTrack>, n: int)
    requires
        0 <= n <= tracks.len(),
        !muddled(plans(tracks)),
        d.pool_ok(),
        pcm.len() == BUFFER_COUNT,
    ensures
        ({
            let after = bufs_loaded(pcm, d.lanes@, tracks, n);
            &&& after.len() == pcm.len()
            &&& forall|k: int|
                0 <= k < n ==> after[d.lanes@[(#[trigger] tracks[k]).index as int].live as int] == tracks[k].buf@
        }),
    decreases n,
{
    if n > 0 {
        lemma_bufs_loaded(pcm, d, tracks, n - 1);
        let plan = plans(tracks);
        let before = bufs_loaded(pcm, d.lanes@, tracks, n - 1);
        let last = tracks[n - 1].index as int;
        assert(plan[n - 1].index < TRACK_COUNT);
        assert(0 <= d.lanes@[last].live < BUFFER_COUNT) by {
            reveal(Deck::pool_ok);
            assert(0 <= d.owner(last) < BUFFER_COUNT);
        }
        let after = bufs_loaded(pcm, d.lanes@, tracks, n);
        assert forall|k: int| 0 <= k < n implies after[d.lanes@[(#[trigger] tracks[k]).index as int].live as int]
            == tracks[k].buf@ by {
            if k < n - 1 {
                assert(plan[k].index < TRACK_COUNT && plan[k].index != plan[n - 1].index);
                let i = tracks[k].index as int;
                assert(i == plan[k].index && last == plan[n - 1].index);
                crate::keeps::lemma_pool_apart(d, i, last);
                assert(0 <= d.lanes@[i].live < BUFFER_COUNT) by {
                    reveal(Deck::pool_ok);
                    assert(0 <= d.owner(i) < BUFFER_COUNT);
                }
                assert(before[d.lanes@[i].live as int] == tracks[k].buf@);
            }
        }
    }
}

/// A session loaded plays as it was saved: each track's buffer is its lane's loop, the way round it was, PLAYING or
/// STOPPED; all of them start from the top on the frame of the load, at the session's tempo, locked. A lane the session
/// does not name stays EMPTY.
pub proof fn law_a_loaded_session_is_on_its_lanes(
    la: &Looper,
    ca: Cx,
    a: &Load,
    lb: &Looper,
    cb: Cx,
    b: &Load,
    k: int,
    n: int,
)
    requires
        la.ready(ca),
        load_applied(la, ca, a, Ok::<(), SessionError>(()), lb, cb, b),
        0 <= k < a.tracks@.len(),
        0 <= n < a.master,
    ensures
        ({
            let (w, after) = (la.world(ca), lb.world(cb));
            let track = a.tracks@[k];
            let i = track.index as int;
            &&& 0 <= i < TRACK_COUNT
            &&& is_loaded(w.lane(i), after.lane(i), a.master, track.reversed, track.playing)
            &&& lb.pcm()[after.lane(i).live as int] == track.buf@
            &&& after.deck.heard(i, ca.now + n) == (if track.reversed {
                a.master - 1 - n
            } else {
                n
            })
            &&& after.deck.master == a.master
            &&& after.deck.anchor == ca.now
            &&& after.clock.bpm == a.bpm
            &&& after.clock.locked
            &&& beats_with(after.clock, ca.now as int, a.master as int, a.bars as int, ca.now)
            &&& forall|j: int|
                0 <= j < TRACK_COUNT && (forall|x: int| 0 <= x < a.tracks@.len() ==> (#[trigger] a.tracks@[x]).index != j)
                    ==> (#[trigger] after.deck.lanes@[j]).state == LaneState::Empty
            &&& b.tracks@[k].buf@ == la.pcm()[w.lane(i).live as int]
        }),
{
    let w = la.world(ca);
    let after = lb.world(cb);
    let plan = plans(a.tracks@);
    let begun = w.load_begun(ca.now, a.bpm, a.bars, a.master);
    assert(!muddled(plan));
    assert(plan[k].index < TRACK_COUNT);
    lemma_lanes_loaded(begun, plan, plan.len() as int);
    lemma_bufs_loaded(la.pcm(), w.deck, a.tracks@, a.tracks@.len() as int);
    vstd::arithmetic::div_mod::lemma_small_mod(n as nat, a.master as nat);
    vstd::arithmetic::div_mod::lemma_small_mod((a.master - 1 - n) as nat, a.master as nat);
    assert forall|j: int|
        0 <= j < TRACK_COUNT && (forall|x: int| 0 <= x < a.tracks@.len() ==> (#[trigger] a.tracks@[x]).index != j) implies (
    #[trigger] after.deck.lanes@[j]).state == LaneState::Empty by {
        assert forall|x: int| 0 <= x < plan.len() implies (#[trigger] plan[x]).index != j by {
            assert(a.tracks@[x].index != j);
        }
        reveal(Deck::is_blank);
        assert(begun.deck.lanes@[j] == w.deck.lanes@[j]);
    }
}

/// When a load is taken: everything is EMPTY and nothing records, it has a track, its tempo is in range, its loop has
/// four frames a bar at least and fits, its tracks are different lanes, and their buffers are as long as the looper's.
/// Otherwise nothing changes.
pub proof fn law_a_load_is_taken_only_where_it_fits(
    la: &Looper,
    ca: Cx,
    a: &Load,
    r: Result<(), SessionError>,
    lb: &Looper,
    cb: Cx,
    b: &Load,
)
    requires
        la.ready(ca),
        load_applied(la, ca, a, r, lb, cb, b),
    ensures
        ({
            let w = la.world(ca);
            let empty = w.deck.rec is None && forall|k: int|
                0 <= k < TRACK_COUNT ==> (#[trigger] w.deck.lanes@[k]).state == LaneState::Empty;
            let apart = forall|x: int|
                0 <= x < a.tracks@.len() ==> (#[trigger] a.tracks@[x]).index < 5 && forall|y: int|
                    0 <= y < x ==> (#[trigger] a.tracks@[y]).index != a.tracks@[x].index;
            let sized = forall|x: int|
                0 <= x < a.tracks@.len() ==> (#[trigger] a.tracks@[x]).buf@.len() == w.deck.capacity;
            &&& !empty <==> (r matches Err(SessionError::NotEmpty))
            &&& r is Ok <==> {
                &&& empty
                &&& a.tracks@.len() > 0
                &&& 40 <= a.bpm <= 300
                &&& a.bars >= 1
                &&& 4 * a.bars <= a.master
                &&& a.master <= w.deck.capacity
                &&& apart
                &&& sized
            }
            &&& r is Err ==> lb.world(cb) == w && lb.pcm() == la.pcm()
        }),
{
    reveal(Deck::is_blank);
    let plan = plans(a.tracks@);
    let w = la.world(ca);
    if forall|x: int|
        0 <= x < a.tracks@.len() ==> (#[trigger] a.tracks@[x]).index < 5 && forall|y: int|
            0 <= y < x ==> (#[trigger] a.tracks@[y]).index != a.tracks@[x].index {
        assert(!muddled(plan)) by {
            if muddled(plan) {
                let k = choose|k: int|
                    0 <= k < plan.len() && ((#[trigger] plan[k]).index >= TRACK_COUNT || exists|j: int|
                        0 <= j < k && (#[trigger] plan[j]).index == plan[k].index);
                assert(a.tracks@[k].index < 5);
                let j = choose|j: int| 0 <= j < k && (#[trigger] plan[j]).index == plan[k].index;
                assert(a.tracks@[j].index != a.tracks@[k].index);
            }
        }
    }
    if !muddled(plan) {
        assert forall|x: int| 0 <= x < a.tracks@.len() implies (#[trigger] a.tracks@[x]).index < 5 && forall|y: int|
            0 <= y < x ==> (#[trigger] a.tracks@[y]).index != a.tracks@[x].index by {
            assert(plan[x].index < TRACK_COUNT);
            assert forall|y: int| 0 <= y < x implies (#[trigger] a.tracks@[y]).index != a.tracks@[x].index by {
                assert(plan[y].index == a.tracks@[y].index);
            }
        }
    }
}

} // verus!

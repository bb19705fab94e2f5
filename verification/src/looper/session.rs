//! The looper's side of a session: a snapshot begun and copied, and a load applied.

use vstd::prelude::*;

use crate::api::{LaneState, TRACK_COUNT};
use crate::control::Cx;
use crate::deck;
use crate::deck::{Audible, Deck, Lane, World, BUFFER_COUNT};
use crate::float::Single;
use crate::grid;
use crate::grid::{Frame, LOOP_LIMIT, MAX_BPM, MIN_BPM};
use crate::looper::Looper;
use crate::session;
use crate::session::{Load, LoadTrack, Pin, SessionError, Snapshot, SnapshotTrack};
use crate::tasks;
use crate::timely;

verus! {

/// A lane with a loop to save: its committed loop, or the one under the layer in flight.
pub open spec fn has_loop(t: Lane) -> bool {
    t.is_committed() || t.state == LaneState::Overdubbing
}

/// The buffer a snapshot reads a lane's loop from, and which way.
pub open spec fn source_of(t: Lane) -> Audible {
    if t.state == LaneState::Overdubbing {
        Audible { buf: t.spare, reversed: t.spare_reversed }
    } else {
        t.own()
    }
}

/// How many of the lanes before `k` have a loop.
pub open spec fn loops_before(w: World, k: int) -> nat
    decreases k,
{
    if k <= 0 {
        0
    } else {
        loops_before(w, k - 1) + (if has_loop(w.lane(k - 1)) {
            1nat
        } else {
            0nat
        })
    }
}

/// The snapshot's entry for lane `i` is where its turn comes, and says what it reads.
pub open spec fn noted(s: &Snapshot, w: World, writes: Seq<u64>, i: int) -> bool {
    let t = w.lane(i);
    has_loop(t) ==> {
        let k = loops_before(w, i) as int;
        &&& s.tracks@[k] == Some(SnapshotTrack { index: i as u8, state: t.state, reversed: source_of(t).reversed })
        &&& s.pins@[k] == Some(
            Pin {
                buf: source_of(t).buf,
                backwards: source_of(t).reversed,
                writes: writes[source_of(t).buf as int],
            },
        )
    }
}

pub proof fn lemma_loops_before(w: World, i: int, k: int)
    requires
        0 <= i <= k,
    ensures
        loops_before(w, i) <= loops_before(w, k) <= loops_before(w, i) + (k - i),
        loops_before(w, k) <= k,
        i < k && has_loop(w.lane(i)) ==> loops_before(w, i) < loops_before(w, k),
    decreases k,
{
    if k > 0 {
        if i < k {
            lemma_loops_before(w, i, k - 1);
        } else {
            lemma_loops_before(w, k - 1, k - 1);
        }
    }
}

/// A snapshot begun: the committed lanes noted in order, their buffers pinned as they stand.
pub open spec fn snapshot_begun(l: &Looper, cx: Cx, a: &Snapshot, b: &Snapshot, bpm: u32, rate: u32) -> bool {
    let w = l.world(cx);
    &&& b.started
    &&& b.pcm@ == a.pcm@
    &&& b.rate == rate
    &&& b.bpm == bpm
    &&& b.master == w.deck.master
    &&& b.done == 0
    &&& b.count == loops_before(w, TRACK_COUNT as int)
    &&& forall|i: int| 0 <= i < TRACK_COUNT ==> #[trigger] noted(b, w, l.pool.writes@, i)
    &&& a.pcm@.len() < b.total() ==> b.result == Some(
        Err::<(), SessionError>(SessionError::TooSmall(grid::min_int(b.total(), usize::MAX as int) as usize)),
    )
    &&& a.pcm@.len() >= b.total() ==> b.result == a.result && b.faithful(l.pool.past@)
}

impl Looper {
    /// Begin a snapshot: the committed lanes noted, their buffers pinned as they stand. A destination too
    /// small ends it there.
    pub fn snapshot_begin(&self, cx: &Cx, s: &mut Snapshot, bpm: u32, rate: u32)
        requires
            self.ready(*cx),
        ensures
            snapshot_begun(self, *cx, old(s), final(s), bpm, rate),
    {
        let ghost w = self.world(*cx);
        let master: Frame = self.control.deck.master;
        s.tracks = [None, None, None, None, None];
        s.pins = [None, None, None, None, None];
        let mut count: usize = 0;
        let mut i: usize = 0;
        while i < TRACK_COUNT
            invariant
                i <= TRACK_COUNT,
                w == self.world(*cx),
                self.ready(*cx),
                count == loops_before(w, i as int),
                count <= i,
                s.pcm@ == old(s).pcm@,
                s.result == old(s).result,
                forall|j: int| 0 <= j < i ==> #[trigger] noted(s, w, self.pool.writes@, j),
                forall|k: int| 0 <= k < count ==> pinned_now(#[trigger] s.pins@[k], self.pool.writes@),
                count > 0 ==> w.deck.master > 0,
            decreases TRACK_COUNT - i,
        {
            proof {
                w.lemma_lane(cx.now, i as int);
            }
            let t = self.control.deck.lanes[i];
            if t.committed() || t.state == LaneState::Overdubbing {
                let from = if t.state == LaneState::Overdubbing {
                    Audible { buf: t.spare, reversed: t.spare_reversed }
                } else {
                    t.logical()
                };
                let ghost before = *s;
                s.tracks[count] = Some(SnapshotTrack { index: i as u8, state: t.state, reversed: from.reversed });
                s.pins[count] = Some(
                    Pin { buf: from.buf, backwards: from.reversed, writes: self.pool.writes[from.buf] },
                );
                proof {
                    assert forall|j: int| 0 <= j < i implies #[trigger] noted(s, w, self.pool.writes@, j) by {
                        assert(noted(&before, w, self.pool.writes@, j));
                        lemma_loops_before(w, j, i as int);
                    }
                }
                count = count + 1;
            }
            i = i + 1;
        }
        let ghost listed = *s;
        s.rate = rate;
        s.master = master;
        s.bpm = bpm;
        s.count = count;
        s.done = 0;
        s.started = true;
        proof {
            assert(count * master <= 5 * LOOP_LIMIT) by (nonlinear_arith)
                requires
                    0 <= count <= 5,
                    0 <= master <= LOOP_LIMIT,
            ;
            assert(count * master >= 0) by (nonlinear_arith)
                requires
                    0 <= count,
                    0 <= master,
            ;
            vstd::arithmetic::mul::lemma_mul_is_commutative(count as int, master as int);
        }
        let total: u64 = count as u64 * master as u64;
        if (s.pcm.len() as u64) < total {
            let need: usize = if total <= usize::MAX as u64 {
                total as usize
            } else {
                usize::MAX
            };
            s.result = Some(Err(SessionError::TooSmall(need)));
        } else {
            proof {
                assert forall|k: int| 0 <= k < s.count implies #[trigger] s.held(self.pool.past@, k) by {
                    assert(pinned_now(s.pins@[k], self.pool.writes@));
                    let b = s.pins@[k]->0.buf as int;
                    assert(self.pool.past@[b].last() == self.pool.bufs@[b]@);
                }
            }
        }
        assert forall|j: int| 0 <= j < TRACK_COUNT implies #[trigger] noted(s, w, self.pool.writes@, j) by {
            assert(noted(&listed, w, self.pool.writes@, j));
        }
    }
}

/// A pin on a buffer as it stands.
pub open spec fn pinned_now(pin: Option<Pin>, writes: Seq<u64>) -> bool {
    pin is Some && pin->0.buf < BUFFER_COUNT && pin->0.writes == writes[pin->0.buf as int]
}

/// Every buffer the snapshot copies from is as it was.
pub open spec fn untouched(s: &Snapshot, writes: Seq<u64>) -> bool {
    forall|k: int|
        0 <= k < s.count ==> (#[trigger] s.pins@[k])->0.writes == writes[s.pins@[k]->0.buf as int]
            && s.pins@[k]->0.writes < u64::MAX
}

/// `budget` more samples of a snapshot copied, or a change found.
pub open spec fn snapshot_copied(l: &Looper, a: &Snapshot, b: &Snapshot, budget: int) -> bool {
    &&& b.tracks == a.tracks
    &&& b.pins == a.pins
    &&& b.count == a.count
    &&& b.master == a.master
    &&& b.bpm == a.bpm
    &&& b.rate == a.rate
    &&& b.started == a.started
    &&& b.pcm@.len() == a.pcm@.len()
    &&& forall|n: int| b.done <= n < a.pcm@.len() ==> #[trigger] b.pcm@[n] == a.pcm@[n]
    &&& !untouched(a, l.pool.writes@) ==> b.result == Some(Err::<(), SessionError>(SessionError::Changed)) && b.done
        == a.done && b.pcm@ == a.pcm@
    &&& untouched(a, l.pool.writes@) ==> {
        &&& b.done == grid::min_int(a.done + budget, a.total())
        &&& b.result == (if a.done + budget >= a.total() {
            Some(Ok::<(), SessionError>(()))
        } else {
            a.result
        })
        &&& b.sure()
    }
}

impl Looper {
    fn unwritten(&self, s: &Snapshot, capacity: Frame) -> (r: bool)
        requires
            self.pool.wf(capacity as int),
            s.faithful(self.pool.past@),
        ensures
            r == untouched(s, self.pool.writes@),
    {
        let mut k: usize = 0;
        while k < s.count
            invariant
                k <= s.count <= TRACK_COUNT,
                self.pool.wf(capacity as int),
                s.faithful(self.pool.past@),
                forall|j: int|
                    0 <= j < k ==> (#[trigger] s.pins@[j])->0.writes == self.pool.writes@[s.pins@[j]->0.buf as int]
                        && s.pins@[j]->0.writes < u64::MAX,
            decreases s.count - k,
        {
            assert(s.held(self.pool.past@, k as int));
            let same: bool = match s.pins[k] {
                Some(pin) => pin.writes == self.pool.writes[pin.buf] && pin.writes < u64::MAX,
                None => false,
            };
            if !same {
                assert(!(s.pins@[k as int]->0.writes == self.pool.writes@[s.pins@[k as int]->0.buf as int]
                    && s.pins@[k as int]->0.writes < u64::MAX));
                return false;
            }
            k = k + 1;
        }
        true
    }

    /// Copy up to `budget` more samples of a snapshot in flight. A buffer written meanwhile ends it.
    pub fn snapshot_copy(&self, cx: &Cx, s: &mut Snapshot, budget: usize)
        requires
            self.ready(*cx),
            old(s).faithful(self.pool.past@),
            old(s).master <= self.control.deck.capacity,
        ensures
            final(s).faithful(self.pool.past@),
            snapshot_copied(self, old(s), final(s), budget as int),
    {
        let capacity: Frame = self.control.deck.capacity;
        if !self.unwritten(s, capacity) {
            s.result = Some(Err(SessionError::Changed));
            proof {
                s.lemma_faithful_same(old(s), self.pool.past@);
            }
            return;
        }
        proof {
            assert(s.sure()) by {
                assert forall|k: int| 0 <= k < s.count implies (#[trigger] s.pins@[k])->0.writes < u64::MAX by {
                }
            }
            assert(s.count * s.master <= s.pcm@.len());
        }
        let total: usize = if s.count == 0 {
            assert(s.total() == 0) by (nonlinear_arith)
                requires
                    s.count == 0,
                    s.total() == s.count * s.master,
            ;
            0
        } else {
            proof {
                assert(s.master <= s.count * s.master) by (nonlinear_arith)
                    requires
                        s.count >= 1,
                        s.master >= 0,
                ;
            }
            let len: usize = s.pcm.len();
            s.count * s.master as usize
        };
        assert(total == s.total());
        let end: usize = if total - s.done <= budget {
            total
        } else {
            s.done + budget
        };
        let ghost s0 = *s;
        while s.done < end
            invariant
                self.ready(*cx),
                capacity == self.control.deck.capacity,
                s.master <= capacity,
                end <= total,
                total == s.total(),
                s.done <= end,
                s.faithful(self.pool.past@),
                s.sure(),
                untouched(s, self.pool.writes@),
                s.tracks == s0.tracks,
                s.pins == s0.pins,
                s.count == s0.count,
                s.master == s0.master,
                s.bpm == s0.bpm,
                s.rate == s0.rate,
                s.started == s0.started,
                s.result == s0.result,
                s.pcm@.len() == s0.pcm@.len(),
                forall|m: int| s.done <= m < s0.pcm@.len() ==> #[trigger] s.pcm@[m] == s0.pcm@[m],
            decreases end - s.done,
        {
            let n: usize = s.done;
            proof {
                lemma_track_of(n as int, s.master as int, s.count as int);
            }
            let master: usize = s.master as usize;
            let k: usize = n / master;
            let p: usize = n % master;
            proof {
                assert(s.held(self.pool.past@, k as int));
                let b = s.pins@[k as int]->0.buf as int;
                assert(s.pins@[k as int]->0.writes == self.pool.writes@[b]);
                assert(self.pool.past@[b].last() == self.pool.bufs@[b]@);
            }
            let pin = s.pins[k].unwrap();
            let at: usize = if pin.backwards {
                master - 1 - p
            } else {
                p
            };
            let x: Single = self.pool.bufs[pin.buf][at];
            let ghost before = *s;
            s.pcm[n] = x;
            s.done = n + 1;
            proof {
                let past = self.pool.past@;
                assert(x == before.wanted(past, n as int));
                assert forall|j: int| 0 <= j < s.count implies #[trigger] s.held(past, j) by {
                    assert(before.held(past, j));
                }
                assert forall|m: int| 0 <= m < s.done implies #[trigger] s.pcm@[m] == s.wanted(past, m) by {
                    if m < n {
                        assert(before.pcm@[m] == before.wanted(past, m));
                    }
                }
            }
        }
        if s.done == total {
            let ghost copied = *s;
            s.result = Some(Ok(()));
            proof {
                s.lemma_faithful_same(&copied, self.pool.past@);
            }
        }
    }

    /// A snapshot that completes holds the loops as they stood when it began: sample `n` is position
    /// `n mod master` of its track, in play order.
    pub proof fn law_a_snapshot_is_the_loops_as_they_stood(&self, a: &Snapshot, b: &Snapshot, budget: int, n: int)
        requires
            a.result is None,
            snapshot_copied(self, a, b, budget),
            b.faithful(self.pool.past@),
            b.result == Some(Ok::<(), SessionError>(())),
            0 <= n < b.total(),
        ensures
            b.pcm@[n] == b.wanted(self.pool.past@, n),
    {
    }

    /// What a snapshot wants of a lane, from the frame it begins on, is the lane's committed loop in play
    /// order; of an OVERDUBBING lane, its loop under the layer in flight.
    pub proof fn law_a_snapshot_wants_the_committed_loops(
        &self,
        cx: Cx,
        a: &Snapshot,
        b: &Snapshot,
        bpm: u32,
        rate: u32,
        i: int,
        p: int,
    )
        requires
            self.ready(cx),
            !self.is_busy(),
            snapshot_begun(self, cx, a, b, bpm, rate),
            b.sure(),
            0 <= i < TRACK_COUNT,
            has_loop(self.world(cx).lane(i)),
            0 <= p < b.master,
        ensures
            b.wanted(self.pool.past@, loops_before(self.world(cx), i) * b.master + p) == (if self.world(cx).lane(
                i,
            ).state == LaneState::Overdubbing {
                self.undo_of(i)[p]
            } else {
                self.loop_of(i)[p]
            }),
    {
        let w = self.world(cx);
        let t = w.lane(i);
        let k = loops_before(w, i) as int;
        let m = b.master as int;
        w.lemma_lane(cx.now, i);
        reveal(deck::whole_ok);
        lemma_loops_before(w, i, TRACK_COUNT as int);
        assert(noted(b, w, self.pool.writes@, i));
        assert(t.period == t.length) by {
            if t.is_committed() {
                assert(!deck::busy(w.jobs, i));
            }
        }
        vstd::arithmetic::div_mod::lemma_fundamental_div_mod_converse(k * m + p, m, k, p);
        let buf = source_of(t).buf as int;
        assert(b.pins@[k]->0.writes < u64::MAX);
        assert(self.pool.past@[buf].last() == self.pool.bufs@[buf]@);
        let at = if source_of(t).reversed {
            m - 1 - p
        } else {
            p
        };
        vstd::arithmetic::div_mod::lemma_small_mod(at as nat, m as nat);
        assert(b.pinned(self.pool.past@, k) == self.pcm()[buf]);
    }
}

proof fn lemma_track_of(n: int, master: int, count: int)
    requires
        0 <= n < count * master,
        0 <= master,
        0 <= count,
    ensures
        master > 0,
        0 <= n / master < count,
        0 <= n % master < master,
{
    session::lemma_track(n, master, count);
}

// ── Load ───────────────────────────────────────────────────────────────────────────────────────────

/// A track of a load, but for its buffer.
pub struct Plan {
    pub index: u8,
    pub reversed: bool,
    pub playing: bool,
}

pub open spec fn plans(tracks: Seq<LoadTrack>) -> Seq<Plan> {
    Seq::new(
        tracks.len(),
        |k: int| Plan { index: tracks[k].index, reversed: tracks[k].reversed, playing: tracks[k].playing },
    )
}

/// Two tracks of a load are the same lane's, or one is no lane's.
pub open spec fn muddled(plan: Seq<Plan>) -> bool {
    exists|k: int|
        0 <= k < plan.len() && ((#[trigger] plan[k]).index >= TRACK_COUNT || exists|j: int|
            0 <= j < k && (#[trigger] plan[j]).index == plan[k].index)
}

/// Why a load does not fit a looper whose buffers hold `capacity` frames, if so.
pub open spec fn misfit(load: &Load, capacity: int) -> Option<Seq<char>> {
    if load.tracks@.len() == 0 {
        Some("the session has no track"@)
    } else if !(MIN_BPM <= load.bpm <= MAX_BPM) {
        Some("the tempo is out of range"@)
    } else if !(1 <= load.bars && 4 * load.bars <= load.master <= capacity) {
        Some("the loop does not fit"@)
    } else if muddled(plans(load.tracks@)) {
        Some("a track is listed twice or does not exist"@)
    } else if exists|k: int| 0 <= k < load.tracks@.len() && (#[trigger] load.tracks@[k]).buf@.len() != capacity {
        Some("a lane buffer has another length"@)
    } else {
        None
    }
}

/// The first `n` tracks of a load on their lanes.
pub open spec fn lanes_loaded(w: World, plan: Seq<Plan>, n: int) -> World
    decreases n,
{
    if n <= 0 {
        w
    } else {
        lanes_loaded(w, plan, n - 1).lane_loaded(
            plan[n - 1].index as int,
            plan[n - 1].reversed,
            plan[n - 1].playing,
        )
    }
}

/// The pool with the first `n` tracks' buffers in their lanes' places.
pub open spec fn bufs_loaded(pcm: Seq<Seq<Single>>, lanes: Seq<Lane>, tracks: Seq<LoadTrack>, n: int) -> Seq<Seq<Single>>
    decreases n,
{
    if n <= 0 {
        pcm
    } else {
        bufs_loaded(pcm, lanes, tracks, n - 1).update(
            lanes[tracks[n - 1].index as int].live as int,
            tracks[n - 1].buf@,
        )
    }
}

fn is_muddled(tracks: &Vec<LoadTrack>) -> (r: bool)
    ensures
        r == muddled(plans(tracks@)),
{
    let ghost plan = plans(tracks@);
    let mut k: usize = 0;
    while k < tracks.len()
        invariant
            k <= tracks@.len(),
            plan == plans(tracks@),
            forall|i: int|
                0 <= i < k ==> (#[trigger] plan[i]).index < TRACK_COUNT && forall|j: int|
                    0 <= j < i ==> (#[trigger] plan[j]).index != plan[i].index,
        decreases tracks@.len() - k,
    {
        let index: u8 = tracks[k].index;
        assert(plan[k as int].index == index);
        if index as usize >= TRACK_COUNT {
            return true;
        }
        let mut j: usize = 0;
        while j < k
            invariant
                j <= k < tracks@.len(),
                plan == plans(tracks@),
                plan[k as int].index == index,
                forall|i: int| 0 <= i < j ==> (#[trigger] plan[i]).index != index,
            decreases k - j,
        {
            assert(plan[j as int].index == tracks@[j as int].index);
            if tracks[j].index == index {
                return true;
            }
            j = j + 1;
        }
        k = k + 1;
    }
    false
}

fn other_length(tracks: &Vec<LoadTrack>, capacity: usize) -> (r: bool)
    ensures
        r == exists|k: int| 0 <= k < tracks@.len() && (#[trigger] tracks@[k]).buf@.len() != capacity,
{
    let mut k: usize = 0;
    while k < tracks.len()
        invariant
            k <= tracks@.len(),
            forall|j: int| 0 <= j < k ==> (#[trigger] tracks@[j]).buf@.len() == capacity,
        decreases tracks@.len() - k,
    {
        if tracks[k].buf.len() != capacity {
            assert(tracks@[k as int].buf@.len() != capacity);
            return true;
        }
        k = k + 1;
    }
    false
}

/// Why a load does not fit, if so.
fn refuse_load(load: &Load, capacity: Frame) -> (why: Option<&'static str>)
    requires
        0 <= capacity <= LOOP_LIMIT,
        capacity <= usize::MAX,
    ensures
        why is Some <==> misfit(load, capacity as int) is Some,
        why matches Some(text) ==> Some(text@) == misfit(load, capacity as int),
{
    if load.tracks.len() == 0 {
        Some("the session has no track")
    } else if !(MIN_BPM <= load.bpm && load.bpm <= MAX_BPM) {
        Some("the tempo is out of range")
    } else if !(1 <= load.bars && load.master <= capacity && load.bars <= load.master / 4) {
        Some("the loop does not fit")
    } else if is_muddled(&load.tracks) {
        Some("a track is listed twice or does not exist")
    } else if other_length(&load.tracks, capacity as usize) {
        Some("a lane buffer has another length")
    } else {
        None
    }
}

/// Loaded lanes wait for nothing.
proof fn lemma_loaded_schedule(w: World, plan: Seq<Plan>, n: int)
    requires
        0 <= n <= plan.len(),
        forall|k: int| 0 <= k < plan.len() ==> (#[trigger] plan[k]).index < TRACK_COUNT,
    ensures
        lanes_loaded(w, plan, n).deck.rec == w.deck.rec,
        lanes_loaded(w, plan, n).jobs == w.jobs,
        timely::quieter(w, lanes_loaded(w, plan, n)),
    decreases n,
{
    if n > 0 {
        lemma_loaded_schedule(w, plan, n - 1);
        assert(plan[n - 1].index < TRACK_COUNT);
    }
}

/// A load schedules nothing.
pub proof fn law_a_load_schedules_nothing(
    la: &Looper,
    ca: Cx,
    a: &Load,
    r: Result<(), SessionError>,
    lb: &Looper,
    cb: Cx,
    b: &Load,
)
    requires
        load_applied(la, ca, a, r, lb, cb, b),
    ensures
        forall|g: Frame| #[trigger] lb.world(cb).scheduled(g) ==> la.world(ca).scheduled(g),
{
    if r is Ok {
        let plan = plans(a.tracks@);
        let w = la.world(ca);
        let begun = w.load_begun(ca.now, a.bpm, a.bars, a.master);
        assert(w.deck.rec is None) by {
            reveal(Deck::is_blank);
        }
        assert(!muddled(plan));
        lemma_loaded_schedule(begun, plan, plan.len() as int);
        w.lemma_same_schedule(lb.world(cb));
    }
}

/// A load applied, or refused with nothing changed.
pub open spec fn load_applied(
    la: &Looper,
    ca: Cx,
    a: &Load,
    r: Result<(), SessionError>,
    lb: &Looper,
    cb: Cx,
    b: &Load,
) -> bool {
    let w = la.world(ca);
    let why = misfit(a, w.deck.capacity as int);
    &&& b.result == a.result
    &&& plans(b.tracks@) == plans(a.tracks@)
    &&& !w.blank() <==> (r matches Err(SessionError::NotEmpty))
    &&& w.blank() && why is Some <==> (r matches Err(SessionError::Invalid(_)))
    &&& (r matches Err(SessionError::Invalid(text)) ==> Some(text@) == why)
    &&& w.blank() && why is None <==> r is Ok
    &&& r is Err ==> lb.world(cb) == w && lb.pool == la.pool && b.tracks == a.tracks
    &&& r is Ok ==> {
        let plan = plans(a.tracks@);
        &&& lb.world(cb) == lanes_loaded(
            w.load_begun(ca.now, a.bpm, a.bars, a.master),
            plan,
            plan.len() as int,
        )
        &&& lb.pcm() == bufs_loaded(la.pcm(), w.deck.lanes@, a.tracks@, plan.len() as int)
        &&& forall|k: int|
            0 <= k < plan.len() ==> (#[trigger] b.tracks@[k]).buf@ == la.pcm()[w.lane(
                plan[k].index as int,
            ).live as int]
    }
}

impl Looper {
    /// Apply a load to an all-EMPTY looper: each lane's buffer is swapped for the host's, the tempo set and
    /// locked, the master grid anchored on this frame, and the PLAYING lanes play loop position 0 here
    /// together.
    pub fn load(&mut self, cx: &mut Cx, load: &mut Load) -> (r: Result<(), SessionError>)
        requires
            old(self).ready(*old(cx)),
        ensures
            final(self).ready(*final(cx)),
            final(cx).when(*old(cx)),
            final(self).control.deck.capacity == old(self).control.deck.capacity,
            final(self).pool.grew(&old(self).pool),
            final(self).job_step_max == old(self).job_step_max,
            final(self).published == old(self).published,
            final(self).published_transport == old(self).published_transport,
            final(self).overview == old(self).overview,
            load_applied(old(self), *old(cx), old(load), r, final(self), *final(cx), final(load)),
    {
        if !self.control.is_blank(cx) {
            return Err(SessionError::NotEmpty);
        }
        let capacity: Frame = self.control.deck.capacity;
        match refuse_load(load, capacity) {
            Some(why) => {
                return Err(SessionError::Invalid(why));
            },
            None => {},
        }
        let ghost w0 = self.world(*cx);
        assert(w0.deck.rec is None) by {
            reveal(Deck::is_blank);
        }
        self.control.deck.master = load.master;
        self.control.deck.anchor = cx.now;
        cx.clock.bpm = load.bpm;
        cx.clock.set_locked(true);
        cx.clock.start_master(cx.now, load.master, load.bars, cx.now);
        proof {
            w0.lemma_load_begun(self.world(*cx), cx.now);
            reveal(Deck::is_blank);
            tasks::lemma_none_when_blank(w0.deck, w0.jobs, cx.now);
            tasks::lemma_tasks_none(w0.deck, w0.jobs, cx.now);
        }
        self.load_lanes(cx, load);
        Ok(())
    }

    /// The load's tracks on their lanes.
    fn load_lanes(&mut self, cx: &Cx, load: &mut Load)
        requires
            old(self).ready(*cx),
            old(self).control.deck.master > 0,
            old(self).control.deck.rec is None,
            forall|i: int| #[trigger] tasks::free_of(old(self).control.jobs@, i),
            misfit(old(load), old(self).control.deck.capacity as int) is None,
        ensures
            final(self).ready(*cx),
            final(self).control.deck.capacity == old(self).control.deck.capacity,
            final(self).pool.grew(&old(self).pool),
            final(self).job_step_max == old(self).job_step_max,
            final(self).published == old(self).published,
            final(self).published_transport == old(self).published_transport,
            final(self).overview == old(self).overview,
            final(load).result == old(load).result,
            plans(final(load).tracks@) == plans(old(load).tracks@),
            ({
                let plan = plans(old(load).tracks@);
                let lanes = old(self).control.deck.lanes@;
                &&& final(self).world(*cx) == lanes_loaded(old(self).world(*cx), plan, plan.len() as int)
                &&& final(self).pcm() == bufs_loaded(old(self).pcm(), lanes, old(load).tracks@, plan.len() as int)
                &&& forall|k: int|
                    0 <= k < plan.len() ==> (#[trigger] final(load).tracks@[k]).buf@
                        == old(self).pcm()[lanes[plan[k].index as int].live as int]
            }),
    {
        let ghost w0 = self.world(*cx);
        let ghost plan = plans(load.tracks@);
        let ghost tracks = load.tracks@;
        let ghost pcm = self.pcm();
        let capacity: Frame = self.control.deck.capacity;
        let mut k: usize = 0;
        while k < load.tracks.len()
            invariant
                k <= load.tracks@.len(),
                load.tracks@.len() == tracks.len(),
                tracks == old(load).tracks@,
                plan == plans(tracks),
                plans(load.tracks@) == plan,
                !muddled(plan),
                forall|j: int| 0 <= j < tracks.len() ==> (#[trigger] tracks[j]).buf@.len() == capacity,
                load.result == old(load).result,
                w0 == old(self).world(*cx),
                w0.inv(cx.now),
                pcm == old(self).pcm(),
                self.ready(*cx),
                self.control.deck.capacity == capacity,
                capacity == old(self).control.deck.capacity,
                self.control.deck.master > 0,
                self.control.deck.rec is None,
                self.control.jobs == old(self).control.jobs,
                forall|i: int| #[trigger] tasks::free_of(old(self).control.jobs@, i),
                self.pool.grew(&old(self).pool),
                self.job_step_max == old(self).job_step_max,
                self.published == old(self).published,
                self.published_transport == old(self).published_transport,
                self.overview == old(self).overview,
                self.world(*cx) == lanes_loaded(w0, plan, k as int),
                forall|i: int|
                    0 <= i < TRACK_COUNT ==> (#[trigger] self.control.deck.lanes@[i]).live
                        == w0.deck.lanes@[i].live,
                self.pcm() == bufs_loaded(pcm, w0.deck.lanes@, tracks, k as int),
                forall|i: int|
                    0 <= i < TRACK_COUNT && (forall|j: int| 0 <= j < k ==> (#[trigger] plan[j]).index != i)
                        ==> #[trigger] self.pcm()[w0.deck.lanes@[i].live as int]
                        == pcm[w0.deck.lanes@[i].live as int],
                forall|j: int|
                    0 <= j < k ==> (#[trigger] load.tracks@[j]).buf@
                        == pcm[w0.deck.lanes@[plan[j].index as int].live as int],
                forall|j: int| k <= j < tracks.len() ==> #[trigger] load.tracks@[j] == tracks[j],
            decreases load.tracks@.len() - k,
        {
            let index: u8 = load.tracks[k].index;
            let i: usize = index as usize;
            let (reversed, playing): (bool, bool) = (load.tracks[k].reversed, load.tracks[k].playing);
            proof {
                assert(load.tracks@[k as int] == tracks[k as int]);
                assert(plan[k as int].index == index);
                assert(plan[k as int].index < TRACK_COUNT);
                self.world(*cx).lemma_lane(cx.now, i as int);
                assert(tasks::free_of(old(self).control.jobs@, i as int));
                self.world(*cx).lemma_lane_loaded(cx.now, i as int, reversed, playing);
            }
            let mut t = self.control.deck.lanes[i];
            let ghost before = self.pcm();
            let ghost held = load.tracks@;
            self.pool.swap(t.live, &mut load.tracks[k].buf, capacity);
            t.length = self.control.deck.master;
            t.period = self.control.deck.master;
            t.written = self.control.deck.master;
            t.armed = false;
            t.auto_armed = false;
            t.reversed = reversed;
            t.undo_valid = false;
            t.audible = t.logical();
            t.switch_at = None;
            t.stop_at = None;
            t.state = if playing {
                LaneState::Playing
            } else {
                LaneState::Stopped
            };
            self.control.deck.lanes[i] = t;
            proof {
                assert(plans(load.tracks@) =~= plan);
                let live = w0.deck.lanes@[i as int].live as int;
                assert(self.pcm() =~= before.update(live, tracks[k as int].buf@));
                assert forall|l: int|
                    0 <= l < TRACK_COUNT && (forall|j: int| 0 <= j < k + 1 ==> (#[trigger] plan[j]).index
                        != l) implies #[trigger] self.pcm()[w0.deck.lanes@[l].live as int]
                    == pcm[w0.deck.lanes@[l].live as int] by {
                    assert(plan[k as int].index != l);
                    w0.lemma_lane(cx.now, l);
                    assert forall|j: int| 0 <= j < k implies (#[trigger] plan[j]).index != l by {
                    }
                    crate::keeps::lemma_pool_apart(w0.deck, i as int, l);
                    assert(before[w0.deck.lanes@[l].live as int] == pcm[w0.deck.lanes@[l].live as int]);
                }
                assert forall|j: int| 0 <= j < k implies (#[trigger] plan[j]).index != i by {
                    assert(!muddled(plan));
                }
                assert(before[live] == pcm[live]);
            }
            k = k + 1;
        }
    }
}

} // verus!

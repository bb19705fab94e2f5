//! A chunk may be closed early: where nothing happens before its end, closing it on the way and opening the
//! next one there leaves what closing it at its end leaves.

use vstd::prelude::*;

use crate::api::{Event, LaneInfo, TRACK_COUNT};
use crate::apart;
use crate::deck;
use crate::deck::{Kind, World, BUFFER_COUNT};
use crate::engine::block;
use crate::engine::laws;
use crate::engine::{Engine, QUANTUM};
use crate::float::Single;
use crate::grid;
use crate::grid::Frame;
use crate::looper;
use crate::looper::audio;
use crate::pending;
use crate::pending::Pending;
use crate::pool;
use crate::tasks;

verus! {

impl Engine {
    /// Nothing happens from this frame on before `next`: nothing is scheduled, no command runs, no beat falls.
    pub open spec fn quiet_until(&self, next: Frame) -> bool {
        &&& forall|g: Frame| #[trigger] self.world().scheduled(g) ==> next <= g
        &&& forall|k: int| !(#[trigger] pending::may_run(self.table.slots@, self.cx.now, k))
        &&& forall|k: int, g: Frame|
            0 <= k < self.table.slots@.len() && #[trigger] pending::waits_at(
                self.table.slots@[k],
                self.cx.now,
                false,
                g,
            ) ==> next <= g
        &&& (self.cx.clock.pulse matches Some(p) ==> next <= p.next_at())
    }
}

impl Engine {
    /// Everything that happens lands on its exact frame: where nothing was overdue when a chunk was opened,
    /// what happens on its first frame was done when it is open, and nothing happens before its end.
    pub proof fn law_nothing_happens_inside_a_chunk(&self, before: &Engine, next: Frame)
        requires
            self.chunk_opened(before, next),
            self.table.wf(),
            before.world().none_before(before.cx.now as int),
        ensures
            self.quiet_until(next),
            self.cx.now == before.cx.now,
    {
        let (a, b, c, d) = choose|a: Engine, b: Engine, c: Engine, d: Engine|
            {
                &&& #[trigger] a.evented(before)
                &&& #[trigger] b.ran(&a)
                &&& #[trigger] c.beaten(&b)
                &&& #[trigger] d.published(&c)
                &&& d.chunk_end(next as int)
                &&& self.advanced(&d, next)
            };
        before.world().lemma_timely(before.cx.now);
        a.world().lemma_all_past(a.cx.now);
        assert(a.nothing_due());
        let trace = choose|trace: Seq<Engine>| #[trigger]
            block::runs_on(trace) && trace.len() > 0 && trace[0] == a && trace.last() == b;
        lemma_trace_stays(trace, trace.len() - 1);
        b.world().lemma_same_schedule(d.world());
        d.world().lemma_same_schedule(self.world());
    }
}

/// Commands take no time.
proof fn lemma_trace_stays(trace: Seq<Engine>, n: int)
    requires
        block::runs_on(trace),
        0 <= n < trace.len(),
    ensures
        trace[n].cx.now == trace[0].cx.now,
    decreases n,
{
    if n > 0 {
        lemma_trace_stays(trace, n - 1);
        assert(block::ran_one(&trace[n - 1], &trace[n - 1 + 1]));
        let k = choose|k: int| #[trigger] trace[n].stepped(&trace[n - 1], k);
    }
}

impl World {
    /// The jobs come along, nothing else.
    pub open spec fn with_jobs_by(self, until: Frame) -> World {
        World { jobs: looper::jobs_advanced(self.jobs, until), ..self }
    }

    /// A capture and the jobs on their way move no scheduled frame and no news.
    pub proof fn lemma_on_the_way(self, now: Frame, from: Frame, frames: int, until: Frame)
        requires
            self.inv(now),
        ensures
            ({
                let w = self.with_jobs_by(until).captured(from, frames);
                &&& forall|g: Frame| #[trigger] w.scheduled(g) ==> self.scheduled(g)
                &&& forall|k: int| 0 <= k < TRACK_COUNT ==> #[trigger] w.info(k) == self.info(k)
                &&& audio::transport_of(w) == audio::transport_of(self)
                &&& w.clock == self.clock
                &&& w.said == self.said
                &&& w.jobs == looper::jobs_advanced(self.jobs, until)
            }),
    {
        let v = self.with_jobs_by(until);
        let w = v.captured(from, frames);
        if self.deck.rec is Some {
            self.lemma_rec(now);
        }
        assert forall|k: int| 0 <= k < TRACK_COUNT implies (#[trigger] w.deck.lanes@[k]).stop_at
            == self.deck.lanes@[k].stop_at && w.deck.lanes@[k].switch_at == self.deck.lanes@[k].switch_at
            && w.deck.lanes@[k].armed == self.deck.lanes@[k].armed && w.info(k) == self.info(k) by {
        }
        assert forall|g: Frame| #[trigger] w.scheduled(g) implies self.scheduled(g) by {
            if w.edge_at(g) {
                assert(self.edge_at(g));
            } else if exists|k: int| 0 <= k < TRACK_COUNT && (#[trigger] w.deck.lanes@[k]).expects(g) {
                let k = choose|k: int| 0 <= k < TRACK_COUNT && (#[trigger] w.deck.lanes@[k]).expects(g);
                assert(self.deck.lanes@[k].expects(g));
            } else {
                let k = choose|k: int| 0 <= k < w.jobs.len() && deck::done_on(#[trigger] w.jobs[k], g);
                assert(deck::done_on(self.jobs[k], g));
            }
        }
    }

    /// A capture neither looks at the jobs nor moves them.
    proof fn lemma_capture_leaves_the_jobs(self, from: Frame, frames: int, until: Frame)
        ensures
            self.captured(from, frames).with_jobs_by(until) == self.with_jobs_by(until).captured(from, frames),
    {
    }
}

/// No command that did not run at `f` runs before the next one that waits.
pub proof fn lemma_no_command_between(table: Seq<Option<Pending>>, f: Frame, mid: Frame, next: Frame)
    requires
        f <= mid < next,
        forall|k: int| !(#[trigger] pending::may_run(table, f, k)),
        forall|k: int, g: Frame|
            0 <= k < table.len() && #[trigger] pending::waits_at(table[k], f, false, g) ==> next <= g,
    ensures
        forall|k: int| !(#[trigger] pending::may_run(table, mid, k)),
{
    assert forall|k: int| !(#[trigger] pending::may_run(table, mid, k)) by {
        if pending::may_run(table, mid, k) {
            let p = table[k]->0;
            if p.frame > f {
                assert(pending::waits_at(table[k], f, false, p.frame));
            }
            assert(!pending::may_run(table, f, k));
            let j = choose|j: int| 0 <= j < table.len() && pending::holds_back(#[trigger] table[j], f, p.seq);
            assert(pending::waits_at(table[j], f, false, table[j]->0.frame));
            assert(pending::holds_back(table[j], mid, p.seq));
        }
    }
}

impl World {
    proof fn lemma_unbeaten(self, mid: Frame, rounds: nat)
        requires
            self.clock.wf(),
            self.clock.pulse matches Some(p) ==> mid < p.next_at(),
        ensures
            self.beaten(mid, rounds) == self,
    {
        self.clock.lemma_no_beat_before_the_next(mid, self.transport_end());
    }
}

/// Where nothing changed, a publish says nothing.
proof fn lemma_no_news(w: World, published: Seq<Option<LaneInfo>>, now: Frame, k: int)
    requires
        0 <= k <= TRACK_COUNT,
        forall|i: int| 0 <= i < TRACK_COUNT ==> #[trigger] published[i] == Some(w.info(i)),
    ensures
        audio::lane_news(w, published, now, k) == Seq::<Event>::empty(),
    decreases k,
{
    if k > 0 {
        lemma_no_news(w, published, now, k - 1);
        assert(published[k - 1] == Some(w.info(k - 1)));
    }
}

/// What opening a chunk does where nothing is due: the jobs come along.
pub proof fn lemma_opened_quietly(told: World, before: &Engine, after: &Engine, next: Frame)
    requires
        before.wf(),
        after.chunk_opened(before, next),
        before.cx.now < next < i64::MAX,
        forall|g: Frame| #[trigger] before.world().scheduled(g) ==> before.cx.now < g,
        forall|k: int| !(#[trigger] pending::may_run(before.table.slots@, before.cx.now, k)),
        before.cx.clock.pulse matches Some(p) ==> before.cx.now < p.next_at(),
        before.looper.told(told),
        forall|k: int| 0 <= k < TRACK_COUNT ==> #[trigger] before.world().info(k) == told.info(k),
        audio::transport_of(before.world()) == audio::transport_of(told),
    ensures
        after.world() == before.world().with_jobs_by(next),
        after.looper.pcm() == looper::pcm_advanced(
            before.looper.pcm(),
            before.world().jobs,
            next,
            before.world().jobs.len() as int,
        ),
        *after == (Engine { looper: after.looper, cx: after.cx, ..*before }),
        after.cx.when(before.cx),
        after.looper.published@ == before.looper.published@,
        after.looper.published_transport == before.looper.published_transport,
{
    let now = before.cx.now;
    let w = before.world();
    let (a, b, c, d) = choose|a: Engine, b: Engine, c: Engine, d: Engine|
        {
            &&& #[trigger] a.evented(before)
            &&& #[trigger] b.ran(&a)
            &&& #[trigger] c.beaten(&b)
            &&& #[trigger] d.published(&c)
            &&& d.chunk_end(next as int)
            &&& after.advanced(&d, next)
        };
    assert forall|k: int| 0 <= k < w.jobs.len() && (#[trigger] w.jobs[k]) is Some implies i64::MIN
        <= w.jobs[k]->0.done_at() <= i64::MAX by {
        w.lemma_job_known(now, k);
    }
    w.law_nothing_happens_between_events(now, before.cx.align);
    assert(a.world() == w);
    assert(a.looper.pcm() == before.looper.pcm());
    let trace = choose|trace: Seq<Engine>| #[trigger]
        block::runs_on(trace) && trace.len() > 0 && trace[0] == a && trace.last() == b;
    if trace.len() > 1 {
        assert(block::ran_one(&trace[0], &trace[1]));
        let k = choose|k: int| #[trigger] trace[1].stepped(&a, k);
        assert(pending::may_run(a.table.slots@, a.cx.now, k));
    }
    assert(b == a);
    w.lemma_unbeaten(now, b.cx.clock.beats_left(now) + 1);
    assert(c.world() == w);
    assert(c.looper == a.looper);
    assert forall|i: int| 0 <= i < TRACK_COUNT implies #[trigger] c.looper.published@[i] == Some(w.info(i)) by {
        assert(w.info(i) == told.info(i));
    }
    lemma_no_news(w, c.looper.published@, now, TRACK_COUNT as int);
    assert(d.world().said =~= w.said);
    assert(d.world() == w);
    assert(d.looper.published@ =~= before.looper.published@);
}

/// A chunk opened where another was closed on the way: the jobs come along.
#[verifier::rlimit(40)]
proof fn lemma_resumed_on_the_way(
    c: &Engine,
    d: &Engine,
    mid: Frame,
    next: Frame,
    half: &Engine,
    there: &Engine,
    again: &Engine,
)
    requires
        d.wf(),
        d.published(c),
        d.quiet_until(next),
        d.cx.now < mid < next <= d.next_frame,
        half.advanced(d, mid),
        there.wf(),
        there.chunk_closed(half, d.cx.now, mid, mid - d.cx.now),
        again.chunk_opened(there, next),
    ensures
        there.world() == d.world().with_jobs_by(mid).captured(d.cx.now, mid - d.cx.now),
        again.world() == there.world().with_jobs_by(next),
        again.looper.pcm() == looper::pcm_advanced(
            there.looper.pcm(),
            looper::jobs_advanced(d.world().jobs, mid),
            next,
            d.world().jobs.len() as int,
        ),
        *again == (Engine { looper: again.looper, cx: again.cx, ..*there }),
        again.cx.when(there.cx),
        again.looper.published@ == there.looper.published@,
        again.looper.published_transport == there.looper.published_transport,
{
    let f = d.cx.now;
    let w = d.world();
    let v = w.with_jobs_by(mid);
    assert(there.world() == v.captured(f, mid - f));
    w.lemma_on_the_way(f, f, mid - f, mid);
    assert forall|g: Frame| #[trigger] there.world().scheduled(g) implies mid < g by {
        assert(w.scheduled(g));
    }
    lemma_no_command_between(d.table.slots@, f, mid, next);
    assert(there.looper.told(c.world()));
    assert forall|k: int| 0 <= k < TRACK_COUNT implies #[trigger] there.world().info(k) == c.world().info(k) by {
        assert(there.world().info(k) == w.info(k));
        assert(w.info(k) == c.world().info(k));
    }
    lemma_opened_quietly(c.world(), there, again, next);
}

/// A chunk in which nothing happens may be closed on the way and the next one opened there: the state is that
/// of the chunk closed at its end, and no command, no event and nothing told is another.
#[verifier::rlimit(40)]
pub proof fn law_a_chunk_may_be_closed_early(
    c: &Engine,
    d: &Engine,
    mid: Frame,
    next: Frame,
    whole: &Engine,
    half: &Engine,
    there: &Engine,
    again: &Engine,
    end: &Engine,
)
    requires
        d.wf(),
        d.published(c),
        d.quiet_until(next),
        d.cx.now < mid < next <= d.next_frame,
        whole.wf(),
        whole.advanced(d, next),
        half.advanced(d, mid),
        there.wf(),
        there.chunk_closed(half, d.cx.now, mid, mid - d.cx.now),
        again.chunk_opened(there, next),
        end.chunk_closed(again, mid, next, next - mid),
    ensures
        laws::same_state(end.world(), whole.world().captured(d.cx.now, next - d.cx.now)),
        *end == (Engine { looper: end.looper, cx: end.cx, ..*whole }),
        end.cx.now == next,
        end.cx.align == whole.cx.align,
        end.looper.published@ == whole.looper.published@,
        end.looper.published_transport == whole.looper.published_transport,
        again.world() == there.world().with_jobs_by(next),
        again.looper.pcm() == looper::pcm_advanced(
            there.looper.pcm(),
            looper::jobs_advanced(d.world().jobs, mid),
            next,
            d.world().jobs.len() as int,
        ),
{
    let f = d.cx.now;
    let w = d.world();
    lemma_resumed_on_the_way(c, d, mid, next, half, there, again);
    lemma_states_meet(w, f, mid, next);
    assert(whole.world() == w.with_jobs_by(next));
    assert(again.world() == there.world().with_jobs_by(next));
    assert(end.world() == again.world().captured(mid, next - mid));
}

/// The jobs further on their way keep the invariant.
pub proof fn lemma_inv_with_jobs(w: World, now: Frame, until: Frame)
    requires
        w.inv(now),
        until < i64::MAX,
    ensures
        w.with_jobs_by(until).inv(now),
{
    let later = looper::jobs_advanced(w.jobs, until);
    let v = w.with_jobs_by(until);
    tasks::lemma_tasks_advanced(w.deck, w.jobs, later, now);
    reveal(deck::jobs_ok);
    reveal(deck::whole_ok);
    assert forall|k: int| 0 <= k < later.len() && (#[trigger] later[k]) is Some implies {
        let job = later[k]->0;
        &&& job.wf(w.deck.capacity as int)
        &&& job.kind is Restore ==> w.deck.rec is None && w.deck.lanes@[job.lane as int].audible.buf
            == w.deck.lanes@[job.lane as int].live
    } by {
        assert(w.jobs[k] is Some);
        assert(w.jobs[k]->0.owed(until) <= w.jobs[k]->0.visit.span);
    }
    assert forall|j: int| 0 <= j < TRACK_COUNT && (#[trigger] v.deck.lanes@[j]).is_committed() implies v.deck.lanes@[j].period
        == v.deck.lanes@[j].length || deck::busy(later, j) by {
        assert(w.deck.lanes@[j].is_committed());
        if deck::busy(w.jobs, j) {
            let n = choose|n: int| 0 <= n < w.jobs.len() && (#[trigger] w.jobs[n]) is Some && w.jobs[n]->0.lane == j;
            assert(later[n] is Some && later[n]->0.lane == j);
        }
    }
}

/// The state of both ways, over one state.
#[verifier::spinoff_prover]
#[verifier::rlimit(40)]
pub proof fn lemma_states_meet(w: World, f: Frame, mid: Frame, next: Frame)
    requires
        f < mid < next,
        grid::near(f as int),
        grid::near(next as int),
        w.with_jobs_by(next).inv(f),
    ensures
        laws::same_state(
            w.with_jobs_by(mid).captured(f, mid - f).with_jobs_by(next).captured(mid, next - mid),
            w.with_jobs_by(next).captured(f, next - f),
        ),
{
    let (v, u) = (w.with_jobs_by(mid), w.with_jobs_by(next));
    let (a, b) = (v.captured(f, mid - f).with_jobs_by(next), u.captured(f, mid - f));
    assert(a == b) by {
        laws::law_jobs_may_stop_on_the_way(w.jobs, mid, next);
        assert(v.with_jobs_by(next) == u);
        v.lemma_capture_leaves_the_jobs(f, mid - f, next);
    }
    assert(laws::same_state(b.captured(mid, next - mid), u.captured(f, next - f))) by {
        u.law_a_capture_may_be_split(f, f, mid - f, next - mid);
    }
}

// ── The samples ────────────────────────────────────────────────────────────────────────────────────

/// The position of the loop that frame `lo + i` of the input is summed onto.
pub open spec fn layer_at(w: World, lo: int, i: int) -> int {
    (grid::pos_in_loop(lo - w.deck.rec->0.align, w.deck.anchor as int, w.deck.master as int) + i)
        % (w.deck.master as int)
}

/// The capture of so many frames from `f0` on writes position `p` of the recorder's buffer.
pub open spec fn captures_at(w: World, f0: Frame, frames: int, p: int) -> bool {
    let rec = w.deck.rec->0;
    let (lo, hi) = w.window(f0, frames);
    &&& w.captures(f0, frames)
    &&& match rec.kind {
        Kind::Take => lo - rec.start->0 <= p < hi - rec.start->0,
        Kind::Overdub => exists|i: int| 0 <= i < hi - lo && p == #[trigger] layer_at(w, lo, i),
    }
}

/// What the jobs have to do between two frames keeps apart from what is captured before the first of them.
pub open spec fn capture_apart(w: World, from: Frame, mid: Frame, until: Frame) -> bool {
    forall|k: int, p: int|
        #![trigger w.jobs[k], captures_at(w, from, mid - from, p)]
        0 <= k < w.jobs.len() && w.jobs[k] is Some && captures_at(w, from, mid - from, p)
            ==> !w.jobs[k]->0.touches(
            apart::reached(w.jobs[k]->0, mid),
            apart::reached(w.jobs[k]->0, until),
            w.rec_lane().live as int,
            p,
        )
}

/// An overdub's layer stays behind the copy of its loop that makes the undo target: what was captured before
/// a frame was copied before it.
pub proof fn law_a_layer_stays_behind_its_copy(w: World, job: deck::Job, from: Frame, mid: Frame, until: Frame, p: int)
    requires
        w.deck.rec is Some,
        w.deck.rec->0.kind == Kind::Overdub,
        0 <= w.deck.rec->0.align,
        1 <= w.deck.master <= grid::LOOP_LIMIT,
        w.deck.rec->0.start is Some,
        w.deck.rec->0.start->0 == job.start + w.deck.rec->0.align,
        job.kind matches deck::JobKind::Copy { src, dst } && src != dst && src == w.rec_lane().live,
        job.visit == (deck::Visit {
            lo: 0,
            span: w.deck.master,
            off: grid::pos_in_loop(job.start as int, w.deck.anchor as int, w.deck.master as int) as Frame,
            modulus: w.deck.master,
        }),
        0 <= job.progress <= job.visit.span,
        captures_at(w, from, mid - from, p),
        mid <= until < i64::MAX,
    ensures
        !job.touches(apart::reached(job, mid), apart::reached(job, until), w.rec_lane().live as int, p),
{
    let rec = w.deck.rec->0;
    let m = w.deck.master as int;
    let (lo, hi) = w.window(from, mid - from);
    let i = choose|i: int| 0 <= i < hi - lo && p == #[trigger] layer_at(w, lo, i);
    let n = lo + i - rec.align - job.start;
    let x = job.start - w.deck.anchor;
    assert(0 <= n < mid - job.start);
    vstd::arithmetic::div_mod::lemma_mod_bound(x, m);
    assert(p == (job.visit.off + n) % m) by {
        let y = lo - rec.align - w.deck.anchor;
        vstd::arithmetic::div_mod::lemma_add_mod_noop_right(i, y, m);
        vstd::arithmetic::div_mod::lemma_add_mod_noop_right(n, x, m);
        assert(y + i == x + n);
    }
    let (a, b) = (apart::reached(job, mid), apart::reached(job, until));
    if job.touches(a, b, w.rec_lane().live as int, p) {
        let s = choose|s: int| a <= s < b && #[trigger] job.reads_at(s, w.rec_lane().live as int, p);
        assert(job.visit.pos(s) == p);
        assert(b <= m);
        assert(n < m);
        assert(job.visit.pos(n) == p) by {
            vstd::arithmetic::div_mod::lemma_mod_bound(job.visit.off + n, m);
            vstd::arithmetic::div_mod::lemma_small_mod(((job.visit.off + n) % m) as nat, m as nat);
        }
        job.visit.law_no_position_is_visited_twice(s, n);
    }
}

/// The buffer is one of the lane's two.
pub open spec fn of_lane(w: World, i: int, b: int) -> bool {
    b == w.lane(i).live || b == w.lane(i).spare
}

/// Two lanes share no buffer, and a lane's two are different ones.
proof fn lemma_lanes_apart(w: World, now: Frame, i: int, j: int, b: int)
    requires
        w.inv(now),
        0 <= i < TRACK_COUNT,
        0 <= j < TRACK_COUNT,
        of_lane(w, i, b),
        i != j,
    ensures
        !of_lane(w, j, b),
        w.lane(i).live != w.lane(i).spare,
{
    reveal(deck::Deck::pool_ok);
    let d = w.deck;
    w.lemma_lane(now, i);
    assert(d.lanes@[i].live == d.owner(i) && d.lanes@[i].spare == d.owner(i + 5));
    assert(d.lanes@[j].live == d.owner(j) && d.lanes@[j].spare == d.owner(j + 5));
    if i < j {
        assert(d.owner(i) != d.owner(j));
        assert(d.owner(i + 5) != d.owner(j + 5));
    } else {
        assert(d.owner(j) != d.owner(i));
        assert(d.owner(j + 5) != d.owner(i + 5));
    }
    assert(d.owner(i) != d.owner(j + 5));
    assert(d.owner(j) != d.owner(i + 5));
}

/// A job that is not done works on its lane's buffers; only a copy reads another lane's.
proof fn lemma_job_at_work(w: World, now: Frame, until: Frame, k: int)
    requires
        w.inv(now),
        now < until,
        forall|g: Frame| #[trigger] w.scheduled(g) ==> until <= g,
        0 <= k < w.jobs.len(),
        w.jobs[k] is Some,
    ensures
        ({
            let job = w.jobs[k]->0;
            &&& job.wf(w.deck.capacity as int)
            &&& tasks::stands(w.deck, job, now)
            &&& tasks::holds_buffers(w.deck, job)
            &&& tasks::spares_head(w.deck, job, now)
            &&& of_lane(w, job.lane as int, job.writes())
            &&& !(job.kind is LaneCopy) ==> of_lane(w, job.lane as int, job.source())
        }),
{
    reveal(tasks::tasks_ok);
    let job = w.jobs[k]->0;
    w.lemma_job_known(now, k);
    assert(tasks::task_ok(w.deck, job, now));
    assert(i64::MIN <= job.done_at() <= i64::MAX);
    assert(deck::done_on(w.jobs[k], job.done_at() as Frame));
    assert(w.scheduled(job.done_at() as Frame));
}

/// What the jobs of a looper have to do before the next of them is done keeps apart, whatever the order.
pub proof fn law_jobs_keep_apart(w: World, now: Frame, mid: Frame, until: Frame)
    requires
        w.inv(now),
        now < until,
        forall|g: Frame| #[trigger] w.scheduled(g) ==> until <= g,
    ensures
        apart::jobs_apart(w.jobs, mid, until),
{
    assert forall|k: int, l: int|
        #![trigger w.jobs[k], w.jobs[l]]
        0 <= k < l < w.jobs.len() && w.jobs[k] is Some && w.jobs[l] is Some implies apart::apart(
        w.jobs[k]->0,
        apart::reached(w.jobs[k]->0, mid),
        apart::reached(w.jobs[k]->0, until),
        w.jobs[l]->0,
        w.jobs[l]->0.progress as int,
        apart::reached(w.jobs[l]->0, mid),
    ) by {
        let (j, m) = (w.jobs[k]->0, w.jobs[l]->0);
        let (j0, j1) = (apart::reached(j, mid), apart::reached(j, until));
        let (m0, m1) = (m.progress as int, apart::reached(m, mid));
        lemma_job_at_work(w, now, until, k);
        lemma_job_at_work(w, now, until, l);
        assert(tasks::pair_ok(j, m) && tasks::pair_ok(m, j)) by {
            reveal(tasks::tasks_ok);
        }
        lemma_two_apart(w, now, j, j0, j1, m, m0, m1);
    }
}

/// Two jobs at work keep apart.
proof fn lemma_two_apart(w: World, now: Frame, j: deck::Job, j0: int, j1: int, m: deck::Job, m0: int, m1: int)
    requires
        w.inv(now),
        j.wf(w.deck.capacity as int),
        m.wf(w.deck.capacity as int),
        tasks::stands(w.deck, j, now),
        tasks::stands(w.deck, m, now),
        tasks::holds_buffers(w.deck, j),
        tasks::holds_buffers(w.deck, m),
        tasks::pair_ok(j, m),
        tasks::pair_ok(m, j),
    ensures
        apart::apart(j, j0, j1, m, m0, m1),
{
    let capacity = w.deck.capacity as int;
    if j.lane == m.lane {
        apart::law_jobs_on_other_buffers_keep_apart(j, j0, j1, m, m0, m1);
    } else {
        let (a, b) = (j.lane as int, m.lane as int);
        lemma_lanes_apart(w, now, a, b, j.writes());
        lemma_lanes_apart(w, now, b, a, m.writes());
        if m.kind is LaneCopy && m.kind->from == a {
            if j.writes() == m.source() {
                apart::law_a_repeat_keeps_apart_from_a_copy_of_its_loop(j, j0, j1, m, m0, m1, capacity);
            } else {
                apart::law_jobs_on_other_buffers_keep_apart(j, j0, j1, m, m0, m1);
            }
        } else if j.kind is LaneCopy && j.kind->from == b {
            if m.writes() == j.source() {
                apart::law_a_repeat_keeps_apart_from_a_copy_of_its_loop(m, m0, m1, j, j0, j1, capacity);
            } else {
                apart::law_jobs_on_other_buffers_keep_apart(j, j0, j1, m, m0, m1);
            }
        } else {
            if m.kind is LaneCopy {
                lemma_lanes_apart(w, now, a, m.kind->from as int, j.writes());
            }
            if j.kind is LaneCopy {
                lemma_lanes_apart(w, now, b, j.kind->from as int, m.writes());
            }
            apart::law_jobs_on_other_buffers_keep_apart(j, j0, j1, m, m0, m1);
        }
    }
}

/// ... and from what is captured meanwhile: nothing works on the recorder's buffer but the copy of an
/// overdub's loop, and the layer stays behind that.
pub proof fn law_jobs_keep_apart_from_a_capture(w: World, now: Frame, mid: Frame, until: Frame)
    requires
        w.inv(now),
        now < until < i64::MAX,
        mid <= until,
        forall|g: Frame| #[trigger] w.scheduled(g) ==> until <= g,
    ensures
        capture_apart(w, now, mid, until),
{
    assert forall|k: int, p: int|
        #![trigger w.jobs[k], captures_at(w, now, mid - now, p)]
        0 <= k < w.jobs.len() && w.jobs[k] is Some && captures_at(w, now, mid - now, p)
            implies !w.jobs[k]->0.touches(
        apart::reached(w.jobs[k]->0, mid),
        apart::reached(w.jobs[k]->0, until),
        w.rec_lane().live as int,
        p,
    ) by {
        let job = w.jobs[k]->0;
        w.lemma_rec(now);
        let i = w.deck.rec->0.lane as int;
        w.lemma_lane(now, i);
        lemma_job_at_work(w, now, until, k);
        if job.lane == i {
            law_a_layer_stays_behind_its_copy(w, job, now, mid, until, p);
        } else {
            lemma_lanes_apart(w, now, i, job.lane as int, w.rec_lane().live as int);
            if job.kind is LaneCopy {
                lemma_lanes_apart(w, now, i, job.kind->from as int, w.rec_lane().live as int);
            }
        }
    }
}

/// An overdub that starts has such a copy: it begins on the frame of the press, where the head is, and what
/// is captured begins the alignment later.
pub proof fn law_an_overdub_starts_with_its_copy(w: World, now: Frame, align: Frame, i: int)
    requires
        w.inv(now),
        0 <= i < TRACK_COUNT,
        0 <= align <= grid::LOOP_LIMIT,
        w.deck.rec is None,
        !w.lane(i).reversed,
        w.deck.master != 0,
    ensures
        ({
            let after = w.overdubbing(now, align, i);
            let k = deck::first_free(w.jobs);
            &&& 0 <= k < after.jobs.len()
            &&& after.jobs[k] is Some
            &&& after.deck.rec is Some
            &&& ({
                let (job, rec) = (after.jobs[k]->0, after.deck.rec->0);
                &&& rec.kind == Kind::Overdub
                &&& rec.lane == i
                &&& rec.start is Some
                &&& rec.start->0 == job.start + rec.align
                &&& (job.kind matches deck::JobKind::Copy { src, dst } && src != dst && src == after.rec_lane().live)
                &&& job.visit == (deck::Visit {
                    lo: 0,
                    span: after.deck.master,
                    off: grid::pos_in_loop(
                        job.start as int,
                        after.deck.anchor as int,
                        after.deck.master as int,
                    ) as Frame,
                    modulus: after.deck.master,
                })
                &&& job.progress == 0
            })
        }),
{
    reveal(World::overdubbing);
    reveal(deck::Deck::pool_ok);
    w.lemma_lane(now, i);
    assert(w.deck.owner(i) != w.deck.owner(10));
    crate::keeps::lemma_first_free(w.jobs);
}

/// Buffers that only some positions of one of them tell apart, and those as they were.
pub open spec fn carried(
    p: Seq<Seq<Single>>,
    q: Seq<Seq<Single>>,
    p2: Seq<Seq<Single>>,
    q2: Seq<Seq<Single>>,
    live: int,
    cells: spec_fn(int) -> bool,
) -> bool {
    &&& forall|b: int, x: int|
        0 <= b < BUFFER_COUNT && 0 <= x < p[b].len() && !(b == live && cells(x)) ==> #[trigger] q2[b][x] == p2[b][x]
    &&& forall|x: int|
        0 <= x < p[live].len() && #[trigger] cells(x) ==> p2[live][x] == p[live][x] && q2[live][x] == q[live][x]
}

/// A job's steps carry such buffers over, where they keep apart from those positions.
proof fn lemma_carried_by_a_job(
    p: Seq<Seq<Single>>,
    q: Seq<Seq<Single>>,
    p2: Seq<Seq<Single>>,
    q2: Seq<Seq<Single>>,
    live: int,
    cells: spec_fn(int) -> bool,
    job: deck::Job,
    from: int,
    to: int,
    capacity: int,
)
    requires
        apart::pooled(p, capacity),
        apart::pooled(p2, capacity),
        apart::pooled(q2, capacity),
        job.wf(capacity),
        0 <= live < BUFFER_COUNT,
        carried(p, q, p2, q2, live, cells),
        forall|x: int| #[trigger] cells(x) ==> !job.touches(from, to, live, x),
    ensures
        carried(p, q, job.moved(p2, from, to), job.moved(q2, from, to), live, cells),
{
    let (p3, q3) = (job.moved(p2, from, to), job.moved(q2, from, to));
    job.lemma_moved(p2, from, to, capacity);
    job.lemma_moved(q2, from, to, capacity);
    assert forall|b: int, x: int|
        0 <= b < BUFFER_COUNT && 0 <= x < p[b].len() && !(b == live && cells(x)) implies #[trigger] q3[b][x]
        == p3[b][x] by {
        if b == job.writes() && job.visits(from, to, x) {
            let s = choose|s: int| from <= s < to && #[trigger] job.visit.pos(s) == x;
            assert forall|buf: int, y: int|
                0 <= buf < BUFFER_COUNT && 0 <= y < capacity && #[trigger] job.reads_at(s, buf, y) implies q2[buf][y]
                == p2[buf][y] by {
                if buf == live && cells(y) {
                    assert(job.touches(from, to, live, y));
                }
                assert(p[buf].len() == capacity);
            }
            job.lemma_wanted_of_read(q2, p2, s, capacity);
        } else {
            assert(q3[b][x] == q2[b][x]);
            assert(p3[b][x] == p2[b][x]);
        }
    }
    assert forall|x: int| 0 <= x < p[live].len() && #[trigger] cells(x) implies p3[live][x] == p[live][x]
        && q3[live][x] == q[live][x] by {
        assert(!job.touches(from, to, live, x));
        assert(q3[live][x] == q2[live][x]);
        assert(p3[live][x] == p2[live][x]);
    }
}

/// ... and so does a table of jobs.
proof fn lemma_carried_by_jobs(
    p: Seq<Seq<Single>>,
    q: Seq<Seq<Single>>,
    live: int,
    cells: spec_fn(int) -> bool,
    jobs: Seq<Option<deck::Job>>,
    until: Frame,
    n: int,
    capacity: int,
)
    requires
        apart::pooled(p, capacity),
        apart::pooled(q, capacity),
        apart::sound_jobs(jobs, capacity),
        until < i64::MAX,
        0 <= n <= jobs.len(),
        0 <= live < BUFFER_COUNT,
        carried(p, q, p, q, live, cells),
        forall|k: int, x: int|
            #![trigger jobs[k], cells(x)]
            0 <= k < n && jobs[k] is Some && cells(x) ==> !jobs[k]->0.touches(
                jobs[k]->0.progress as int,
                apart::reached(jobs[k]->0, until),
                live,
                x,
            ),
    ensures
        carried(
            p,
            q,
            looper::pcm_advanced(p, jobs, until, n),
            looper::pcm_advanced(q, jobs, until, n),
            live,
            cells,
        ),
    decreases n,
{
    if n > 0 {
        lemma_carried_by_jobs(p, q, live, cells, jobs, until, n - 1, capacity);
        apart::lemma_one_job_more(p, jobs, until, n, capacity);
        apart::lemma_one_job_more(q, jobs, until, n, capacity);
        if jobs[n - 1] is Some {
            let job = jobs[n - 1]->0;
            assert(job.wf(capacity));
            assert forall|x: int| #[trigger] cells(x) implies !job.touches(
                job.progress as int,
                apart::reached(job, until),
                live,
                x,
            ) by {
                assert(jobs[n - 1] is Some && cells(x));
            }
            lemma_carried_by_a_job(
                p,
                q,
                looper::pcm_advanced(p, jobs, until, n - 1),
                looper::pcm_advanced(q, jobs, until, n - 1),
                live,
                cells,
                job,
                job.progress as int,
                apart::reached(job, until),
                capacity,
            );
        }
    }
}

/// A layer is no longer than its loop's buffer, and touches only the positions it is summed onto.
proof fn lemma_layer_elsewhere<F: Fn(Single, Single) -> Single>(
    mix: F,
    before: Seq<Single>,
    after: Seq<Single>,
    input: Seq<Single>,
    pos: int,
    master: int,
    cells: spec_fn(int) -> bool,
)
    requires
        0 < master <= before.len(),
        pool::layered(mix, before, after, input, pos, master),
        forall|i: int| 0 <= i < input.len() ==> cells(#[trigger] ((pos + i) % master)),
    ensures
        after.len() == before.len(),
        forall|x: int| 0 <= x < before.len() && !(#[trigger] cells(x)) ==> after[x] == before[x],
    decreases input.len(),
{
    if input.len() > 0 {
        let p = (pos + input.len() - 1) % master;
        let (m, y) = choose|m: Seq<Single>, y: Single|
            #![trigger m.update(p, y)]
            {
                &&& pool::layered(mix, before, m, input.drop_last(), pos, master)
                &&& call_ensures(mix, (m[p], input.last()), y)
                &&& after == m.update(p, y)
            };
        assert(cells((pos + (input.len() - 1)) % master));
        lemma_layer_elsewhere(mix, before, m, input.drop_last(), pos, master, cells);
        vstd::arithmetic::div_mod::lemma_mod_bound(pos + input.len() - 1, master);
    }
}

/// A layer summed onto one loop is summed the same way onto another that holds the same at the positions it
/// is summed onto.
proof fn lemma_layer_carried<F: Fn(Single, Single) -> Single>(
    mix: F,
    before: Seq<Single>,
    after: Seq<Single>,
    before2: Seq<Single>,
    after2: Seq<Single>,
    input: Seq<Single>,
    pos: int,
    master: int,
    cells: spec_fn(int) -> bool,
)
    requires
        0 < master <= before.len(),
        before2.len() == before.len(),
        after2.len() == before.len(),
        pool::layered(mix, before, after, input, pos, master),
        forall|i: int| 0 <= i < input.len() ==> cells(#[trigger] ((pos + i) % master)),
        forall|x: int| 0 <= x < before.len() && #[trigger] cells(x) ==> before2[x] == before[x] && after2[x] == after[x],
        forall|x: int| 0 <= x < before.len() && !(#[trigger] cells(x)) ==> after2[x] == before2[x],
    ensures
        pool::layered(mix, before2, after2, input, pos, master),
    decreases input.len(),
{
    if input.len() == 0 {
        assert forall|x: int| 0 <= x < before.len() implies after2[x] == before2[x] by {
            if cells(x) {
            }
        }
        assert(after2 =~= before2);
    } else {
        let p = (pos + input.len() - 1) % master;
        let (m, y) = choose|m: Seq<Single>, y: Single|
            #![trigger m.update(p, y)]
            {
                &&& pool::layered(mix, before, m, input.drop_last(), pos, master)
                &&& call_ensures(mix, (m[p], input.last()), y)
                &&& after == m.update(p, y)
            };
        vstd::arithmetic::div_mod::lemma_mod_bound(pos + input.len() - 1, master);
        assert(cells((pos + (input.len() - 1)) % master));
        lemma_layer_elsewhere(mix, before, m, input.drop_last(), pos, master, cells);
        let m2 = Seq::new(
            before.len(),
            |x: int|
                if cells(x) {
                    m[x]
                } else {
                    before2[x]
                },
        );
        lemma_layer_carried(mix, before, m, before2, m2, input.drop_last(), pos, master, cells);
        assert(after2 =~= m2.update(p, y));
    }
}

/// What was captured before the jobs came along is captured the same way after.
#[verifier::spinoff_prover]
#[verifier::rlimit(40)]
proof fn lemma_taped_then_moved<F: Fn(Single, Single) -> Single>(
    mix: F,
    w: World,
    now: Frame,
    from: Frame,
    input: Seq<Single>,
    p: Seq<Seq<Single>>,
    q: Seq<Seq<Single>>,
    mid: Frame,
    until: Frame,
)
    requires
        w.inv(now),
        grid::near(from as int),
        input.len() == mid - from,
        input.len() <= grid::LOOP_LIMIT,
        mid <= until < i64::MAX,
        apart::pooled(p, w.deck.capacity as int),
        apart::pooled(q, w.deck.capacity as int),
        audio::taped(mix, w, from, input, p, q),
        apart::sound_jobs(w.jobs, w.deck.capacity as int),
        capture_apart(w, from, mid, until),
    ensures
        ({
            let later = looper::jobs_advanced(w.jobs, mid);
            let n = w.jobs.len() as int;
            audio::taped(
                mix,
                w,
                from,
                input,
                looper::pcm_advanced(p, later, until, n),
                looper::pcm_advanced(q, later, until, n),
            )
        }),
{
    let capacity = w.deck.capacity as int;
    let later = looper::jobs_advanced(w.jobs, mid);
    let n = w.jobs.len() as int;
    let (p2, q2) = (looper::pcm_advanced(p, later, until, n), looper::pcm_advanced(q, later, until, n));
    if w.captures(from, input.len() as int) {
        w.lemma_captured(now, from, input.len() as int);
        w.lemma_lane(now, w.deck.rec->0.lane as int);
        let cells = |x: int| captures_at(w, from, mid - from, x);
        lemma_capture_carried(mix, w, from, input, p, q, mid, until, cells);
        apart::lemma_sound_on_the_way(w.jobs, mid, capacity);
        apart::lemma_advanced_pool(p, later, until, capacity);
        apart::lemma_advanced_pool(q, later, until, capacity);
        lemma_taped_of_carried(mix, w, from, input, p, q, p2, q2, cells);
    }
}

/// A capture tells apart what it writes alone, before and after the jobs come along.
#[verifier::spinoff_prover]
#[verifier::rlimit(40)]
proof fn lemma_capture_carried<F: Fn(Single, Single) -> Single>(
    mix: F,
    w: World,
    from: Frame,
    input: Seq<Single>,
    p: Seq<Seq<Single>>,
    q: Seq<Seq<Single>>,
    mid: Frame,
    until: Frame,
    cells: spec_fn(int) -> bool,
)
    requires
        w.captures(from, input.len() as int),
        w.rec_lane().live < BUFFER_COUNT,
        input.len() == mid - from,
        from <= w.window(from, input.len() as int).0,
        w.window(from, input.len() as int).1 <= from + input.len(),
        w.deck.rec->0.start->0 <= w.window(from, input.len() as int).0,
        w.deck.rec->0.kind == Kind::Take ==> w.window(from, input.len() as int).1 - w.deck.rec->0.start->0
            <= w.deck.capacity,
        w.deck.rec->0.kind == Kind::Overdub ==> 0 < w.deck.master <= w.deck.capacity,
        mid <= until < i64::MAX,
        apart::pooled(p, w.deck.capacity as int),
        apart::pooled(q, w.deck.capacity as int),
        audio::taped(mix, w, from, input, p, q),
        apart::sound_jobs(w.jobs, w.deck.capacity as int),
        capture_apart(w, from, mid, until),
        forall|x: int| #[trigger] cells(x) <==> captures_at(w, from, mid - from, x),
    ensures
        ({
            let later = looper::jobs_advanced(w.jobs, mid);
            let n = w.jobs.len() as int;
            carried(
                p,
                q,
                looper::pcm_advanced(p, later, until, n),
                looper::pcm_advanced(q, later, until, n),
                w.rec_lane().live as int,
                cells,
            )
        }),
{
    let capacity = w.deck.capacity as int;
    let later = looper::jobs_advanced(w.jobs, mid);
    let n = w.jobs.len() as int;
    let rec = w.deck.rec->0;
    let (lo, hi) = w.window(from, input.len() as int);
    let live = w.rec_lane().live as int;
    let part = input.subrange(lo - from, hi - from);
    let master = w.deck.master as int;
    let pos = grid::pos_in_loop(lo - rec.align, w.deck.anchor as int, master);
    if rec.kind == Kind::Overdub {
        assert forall|i: int| 0 <= i < part.len() implies cells(#[trigger] ((pos + i) % master)) by {
            assert((pos + i) % master == layer_at(w, lo, i));
            assert(captures_at(w, from, mid - from, (pos + i) % master));
        }
        lemma_layer_elsewhere(mix, p[live], q[live], part, pos, master, cells);
    }
    assert(carried(p, q, p, q, live, cells)) by {
        assert forall|b: int, x: int|
            0 <= b < BUFFER_COUNT && 0 <= x < p[b].len() && !(b == live && cells(x)) implies #[trigger] q[b][x]
            == p[b][x] by {
            if b == live {
                assert(!cells(x));
            }
        }
    }
    apart::lemma_sound_on_the_way(w.jobs, mid, capacity);
    assert forall|k: int, x: int|
        #![trigger later[k], cells(x)]
        0 <= k < n && later[k] is Some && cells(x) implies !later[k]->0.touches(
        later[k]->0.progress as int,
        apart::reached(later[k]->0, until),
        live,
        x,
    ) by {
        let job = w.jobs[k]->0;
        assert(w.jobs[k] is Some && captures_at(w, from, mid - from, x));
        assert(job.wf(capacity));
        assert(job.owed(mid) <= job.owed(until) <= job.visit.span);
        apart::lemma_same_touch(job, mid, apart::reached(job, mid), apart::reached(job, until), live, x);
    }
    lemma_carried_by_jobs(p, q, live, cells, later, until, n, capacity);
}

/// Carried buffers are captured into as the first ones were.
proof fn lemma_taped_of_carried<F: Fn(Single, Single) -> Single>(
    mix: F,
    w: World,
    from: Frame,
    input: Seq<Single>,
    p: Seq<Seq<Single>>,
    q: Seq<Seq<Single>>,
    p2: Seq<Seq<Single>>,
    q2: Seq<Seq<Single>>,
    cells: spec_fn(int) -> bool,
)
    requires
        apart::pooled(p, w.deck.capacity as int),
        apart::pooled(q, w.deck.capacity as int),
        apart::pooled(p2, w.deck.capacity as int),
        apart::pooled(q2, w.deck.capacity as int),
        w.captures(from, input.len() as int),
        audio::taped(mix, w, from, input, p, q),
        w.rec_lane().live < BUFFER_COUNT,
        carried(p, q, p2, q2, w.rec_lane().live as int, cells),
        forall|x: int| #[trigger] cells(x) <==> captures_at(w, from, input.len() as int, x),
        from <= w.window(from, input.len() as int).0,
        w.window(from, input.len() as int).1 <= from + input.len(),
        w.deck.rec->0.start->0 <= w.window(from, input.len() as int).0,
        w.deck.rec->0.kind == Kind::Take ==> w.window(from, input.len() as int).1 - w.deck.rec->0.start->0
            <= w.deck.capacity,
        w.deck.rec->0.kind == Kind::Overdub ==> 0 < w.deck.master <= w.deck.capacity,
    ensures
        audio::taped(mix, w, from, input, p2, q2),
{
    let capacity = w.deck.capacity as int;
    let rec = w.deck.rec->0;
    let (lo, hi) = w.window(from, input.len() as int);
    let live = w.rec_lane().live as int;
    let part = input.subrange(lo - from, hi - from);
    assert forall|b: int| 0 <= b < BUFFER_COUNT && b != live implies #[trigger] q2[b] == p2[b] by {
        assert forall|x: int| 0 <= x < capacity implies q2[b][x] == p2[b][x] by {
            assert(p[b].len() == capacity);
        }
        assert(q2[b] =~= p2[b]);
    }
    assert(q2 =~= p2.update(live, q2[live]));
    if rec.kind == Kind::Take {
        let (at, end) = (lo - rec.start->0, hi - rec.start->0);
        let wanted = p2[live].subrange(0, at) + part + p2[live].subrange(end, capacity);
        assert forall|x: int| 0 <= x < capacity implies q2[live][x] == wanted[x] by {
            if at <= x < end {
                assert(cells(x));
                assert(q[live][x] == part[x - at]);
            } else {
                assert(!cells(x));
                assert(q2[live][x] == p2[live][x]);
            }
        }
        assert(q2[live] =~= wanted);
    } else {
        let master = w.deck.master as int;
        let pos = grid::pos_in_loop(lo - rec.align, w.deck.anchor as int, master);
        assert forall|i: int| 0 <= i < part.len() implies cells(#[trigger] ((pos + i) % master)) by {
            assert((pos + i) % master == layer_at(w, lo, i));
            assert(captures_at(w, from, input.len() as int, (pos + i) % master));
        }
        assert forall|x: int| 0 <= x < capacity && !(#[trigger] cells(x)) implies q2[live][x] == p2[live][x] by {
            assert(p[live].len() == capacity);
        }
        lemma_layer_carried(mix, p[live], q[live], p2[live], q2[live], part, pos, master, cells);
    }
}

/// Two captures that follow each other are one.
#[verifier::spinoff_prover]
#[verifier::rlimit(40)]
proof fn lemma_taped_twice<F: Fn(Single, Single) -> Single>(
    mix: F,
    w: World,
    v: World,
    now: Frame,
    from: Frame,
    mid: Frame,
    first: Seq<Single>,
    second: Seq<Single>,
    p: Seq<Seq<Single>>,
    q: Seq<Seq<Single>>,
    r: Seq<Seq<Single>>,
)
    requires
        w.inv(now),
        grid::near(from as int),
        first.len() == mid - from,
        first.len() + second.len() <= grid::LOOP_LIMIT,
        apart::pooled(p, w.deck.capacity as int),
        audio::taped(mix, w, from, first, p, q),
        audio::taped(mix, v, mid, second, q, r),
        v.deck == w.captured(from, first.len() as int).deck,
    ensures
        audio::taped(mix, w, from, first + second, p, r),
{
    let both = first + second;
    let capacity = w.deck.capacity as int;
    if w.deck.rec is Some {
        w.lemma_rec(now);
        w.lemma_lane(now, w.deck.rec->0.lane as int);
    }
    w.lemma_captured(now, from, first.len() as int);
    w.lemma_captured(now, from, both.len() as int);
    let rec = w.deck.rec->0;
    let live = w.rec_lane().live as int;
    let (lo, hi) = w.window(from, both.len() as int);
    let (lo1, hi1) = w.window(from, first.len() as int);
    let (lo2, hi2) = v.window(mid, second.len() as int);
    let master = w.deck.master as int;
    if w.deck.rec is Some {
        assert(v.rec_lane().live == w.rec_lane().live);
        assert(v.rec_lane().auto_armed == w.rec_lane().auto_armed);
        assert(v.window(mid, second.len() as int) == w.window(mid, second.len() as int));
    }
    if w.captures(from, first.len() as int) {
        if v.captures(mid, second.len() as int) {
            assert(lo1 == lo && hi1 == mid && lo2 == mid && hi2 == hi);
            let (a, b) = (first.subrange(lo - from, mid - from), second.subrange(0, hi - mid));
            assert(first.subrange(lo1 - from, hi1 - from) =~= a);
            assert(second.subrange(lo2 - mid, hi2 - mid) =~= b);
            assert(both.subrange(lo - from, hi - from) =~= a + b);
            assert(r =~= p.update(live, r[live]));
            if rec.kind == Kind::Take {
                laws::law_a_take_may_be_split(p[live], lo - rec.start->0, a, b);
            } else {
                let pos = grid::pos_in_loop(lo - rec.align, w.deck.anchor as int, master);
                vstd::arithmetic::div_mod::lemma_mod_bound(lo - rec.align - w.deck.anchor, master);
                vstd::arithmetic::div_mod::lemma_add_mod_noop_right(
                    mid - lo,
                    lo - rec.align - w.deck.anchor,
                    master,
                );
                assert((pos + a.len()) % master == grid::pos_in_loop(
                    mid - rec.align,
                    w.deck.anchor as int,
                    master,
                ));
                laws::law_a_layer_may_be_split(mix, p[live], q[live], r[live], a, b, pos, master);
            }
        } else {
            assert(lo1 == lo && hi1 == hi);
            assert(both.subrange(lo - from, hi - from) =~= first.subrange(lo - from, hi - from));
        }
    } else if v.captures(mid, second.len() as int) {
        assert(lo2 == lo && hi2 == hi);
        assert(both.subrange(lo - from, hi - from) =~= second.subrange(lo - mid, hi - mid));
    }
}

/// ... and its samples are those of the chunk closed at its end: what the record tap of both parts leaves is
/// what the tap of the whole may leave (a take's are one and the same, a layer's as far as `mix` is).
#[verifier::rlimit(40)]
pub proof fn law_an_early_close_leaves_the_same_samples<F: Fn(Single, Single) -> Single>(
    c: &Engine,
    d: &Engine,
    mid: Frame,
    next: Frame,
    whole: &Engine,
    half: &Engine,
    there: &Engine,
    again: &Engine,
    end: &Engine,
    mix: F,
    first: Seq<Single>,
    second: Seq<Single>,
)
    requires
        d.wf(),
        d.published(c),
        d.quiet_until(next),
        d.cx.now < mid < next <= d.next_frame,
        whole.wf(),
        whole.advanced(d, next),
        half.wf(),
        half.advanced(d, mid),
        there.wf(),
        there.chunk_closed(half, d.cx.now, mid, mid - d.cx.now),
        again.chunk_opened(there, next),
        end.chunk_closed(again, mid, next, next - mid),
        first.len() == mid - d.cx.now,
        second.len() == next - mid,
        audio::taped(mix, half.world(), d.cx.now, first, half.looper.pcm(), there.looper.pcm()),
        audio::taped(mix, again.world(), mid, second, again.looper.pcm(), end.looper.pcm()),
    ensures
        audio::taped(mix, whole.world(), d.cx.now, first + second, whole.looper.pcm(), end.looper.pcm()),
{
    law_a_chunk_may_be_closed_early(c, d, mid, next, whole, half, there, again, end);
    let f = d.cx.now;
    let w = d.world();
    lemma_pool_pooled(d);
    lemma_pool_pooled(there);
    lemma_taped_same_deck(mix, half.world(), w, f, first, half.looper.pcm(), there.looper.pcm());
    assert(again.world().deck == w.captured(f, first.len() as int).deck);
    lemma_samples_meet(
        mix,
        w,
        f,
        mid,
        next,
        d.looper.pcm(),
        there.looper.pcm(),
        again.world(),
        end.looper.pcm(),
        first,
        second,
    );
    lemma_taped_same_deck(mix, w, whole.world(), f, first + second, whole.looper.pcm(), end.looper.pcm());
}

/// What two parts of a chunk leave in the buffers is what the whole of it may leave.
#[verifier::rlimit(40)]
pub proof fn lemma_samples_meet<F: Fn(Single, Single) -> Single>(
    mix: F,
    w: World,
    f: Frame,
    mid: Frame,
    next: Frame,
    pcm: Seq<Seq<Single>>,
    taken: Seq<Seq<Single>>,
    again: World,
    end: Seq<Seq<Single>>,
    first: Seq<Single>,
    second: Seq<Single>,
)
    requires
        w.inv(f),
        grid::near(f as int),
        f < mid < next < i64::MAX,
        next - f <= grid::LOOP_LIMIT,
        forall|g: Frame| #[trigger] w.scheduled(g) ==> next <= g,
        apart::pooled(pcm, w.deck.capacity as int),
        apart::pooled(taken, w.deck.capacity as int),
        first.len() == mid - f,
        second.len() == next - mid,
        audio::taped(mix, w, f, first, looper::pcm_advanced(pcm, w.jobs, mid, w.jobs.len() as int), taken),
        again.deck == w.captured(f, first.len() as int).deck,
        audio::taped(
            mix,
            again,
            mid,
            second,
            looper::pcm_advanced(taken, looper::jobs_advanced(w.jobs, mid), next, w.jobs.len() as int),
            end,
        ),
    ensures
        audio::taped(mix, w, f, first + second, looper::pcm_advanced(pcm, w.jobs, next, w.jobs.len() as int), end),
{
    let n = w.jobs.len() as int;
    let capacity = w.deck.capacity as int;
    let later = looper::jobs_advanced(w.jobs, mid);
    let p1 = looper::pcm_advanced(pcm, w.jobs, mid, n);
    lemma_sound(w, f);
    apart::lemma_advanced_pool(pcm, w.jobs, mid, capacity);
    law_jobs_keep_apart(w, f, mid, next);
    law_jobs_keep_apart_from_a_capture(w, f, mid, next);
    apart::law_samples_may_stop_on_the_way(pcm, w.jobs, mid, next, n, capacity);
    lemma_taped_then_moved(mix, w, f, f, first, p1, taken, mid, next);
    apart::lemma_sound_on_the_way(w.jobs, mid, capacity);
    apart::lemma_advanced_pool(p1, later, next, capacity);
    lemma_taped_twice(
        mix,
        w,
        again,
        f,
        f,
        mid,
        first,
        second,
        looper::pcm_advanced(pcm, w.jobs, next, n),
        looper::pcm_advanced(taken, later, next, n),
        end,
    );
}

proof fn lemma_sound(w: World, now: Frame)
    requires
        w.inv(now),
    ensures
        apart::sound_jobs(w.jobs, w.deck.capacity as int),
{
    assert forall|k: int| 0 <= k < w.jobs.len() && (#[trigger] w.jobs[k]) is Some implies w.jobs[k]->0.wf(
        w.deck.capacity as int,
    ) by {
        w.lemma_job_known(now, k);
    }
}

/// A capture turns on the deck alone.
pub proof fn lemma_taped_same_deck<F: Fn(Single, Single) -> Single>(
    mix: F,
    w: World,
    v: World,
    from: Frame,
    input: Seq<Single>,
    p: Seq<Seq<Single>>,
    q: Seq<Seq<Single>>,
)
    requires
        v.deck == w.deck,
        audio::taped(mix, w, from, input, p, q),
    ensures
        audio::taped(mix, v, from, input, p, q),
{
}

/// A cell that no job of the table writes stays as it was.
proof fn lemma_cell_kept(
    pcm: Seq<Seq<Single>>,
    jobs: Seq<Option<deck::Job>>,
    until: Frame,
    n: int,
    b: int,
    x: int,
    capacity: int,
)
    requires
        apart::pooled(pcm, capacity),
        apart::sound_jobs(jobs, capacity),
        until < i64::MAX,
        0 <= n <= jobs.len(),
        0 <= b < BUFFER_COUNT,
        0 <= x < capacity,
        forall|k: int|
            0 <= k < n && (#[trigger] jobs[k]) is Some ==> !(jobs[k]->0.writes() == b && jobs[k]->0.visits(
                jobs[k]->0.progress as int,
                apart::reached(jobs[k]->0, until),
                x,
            )),
    ensures
        looper::pcm_advanced(pcm, jobs, until, n)[b][x] == pcm[b][x],
    decreases n,
{
    if n > 0 {
        lemma_cell_kept(pcm, jobs, until, n - 1, b, x, capacity);
        apart::lemma_one_job_more(pcm, jobs, until, n, capacity);
        if jobs[n - 1] is Some {
            let job = jobs[n - 1]->0;
            assert(job.wf(capacity));
            job.lemma_moved(
                looper::pcm_advanced(pcm, jobs, until, n - 1),
                job.progress as int,
                apart::reached(job, until),
                capacity,
            );
        }
    }
}

/// After a frame no job writes what a lane that sounds played at it.
proof fn lemma_head_spared(w: World, now: Frame, mid: Frame, until: Frame, k: int, i: int, f: int)
    requires
        w.inv(now),
        now <= f < mid <= until < i64::MAX,
        forall|g: Frame| #[trigger] w.scheduled(g) ==> until <= g,
        0 <= k < w.jobs.len(),
        w.jobs[k] is Some,
        0 <= i < TRACK_COUNT,
        w.sounding(i),
    ensures
        ({
            let job = w.jobs[k]->0;
            !(job.writes() == w.lane(i).audible.buf && job.visits(
                apart::reached(job, mid),
                apart::reached(job, until),
                w.deck.heard(i, f),
            ))
        }),
{
    let job = w.jobs[k]->0;
    let t = w.lane(i);
    let p = w.deck.heard(i, f);
    w.lemma_lane(now, i);
    lemma_job_at_work(w, now, until, k);
    let (a, b) = (apart::reached(job, mid), apart::reached(job, until));
    if job.lane != i {
        lemma_lanes_apart(w, now, i, job.lane as int, t.audible.buf as int);
    } else if job.writes() == t.audible.buf && job.visits(a, b, p) {
        let s = choose|s: int| a <= s < b && #[trigger] job.visit.pos(s) == p;
        if job.kind is Fill && t.period <= job.visit.lo {
            job.visit.lemma_stays_past(s);
            let at = if t.audible.reversed {
                w.deck.master - 1 - grid::pos_in_loop(f, w.deck.anchor as int, w.deck.master as int)
            } else {
                grid::pos_in_loop(f, w.deck.anchor as int, w.deck.master as int)
            };
            vstd::arithmetic::div_mod::lemma_mod_bound(at, t.period as int);
        } else {
            assert(!tasks::visits_late(w.deck, i, job.visit, job.start, f));
            assert(tasks::owed_by(job.visit, job.start, f + 1) <= a);
            assert(b <= job.visit.span);
        }
    }
}

/// The overdub's layer of a chunk is summed behind the head: at no later frame of the chunk the head is where
/// something was summed before.
proof fn lemma_layer_behind_the_head(w: World, now: Frame, mid: Frame, f: int, p: int)
    requires
        w.inv(now),
        now < mid <= f,
        w.deck.rec is Some,
        w.deck.rec->0.kind == Kind::Overdub,
        f - now + w.deck.rec->0.align < w.deck.master,
        captures_at(w, now, mid - now, p),
    ensures
        p != w.deck.heard(w.deck.rec->0.lane as int, f),
{
    let rec = w.deck.rec->0;
    let i = rec.lane as int;
    w.lemma_rec(now);
    w.lemma_lane(now, i);
    let m = w.deck.master as int;
    let (lo, hi) = w.window(now, mid - now);
    let n = choose|n: int| 0 <= n < hi - lo && p == #[trigger] layer_at(w, lo, n);
    let x = lo - rec.align - w.deck.anchor;
    let y = f - w.deck.anchor;
    vstd::arithmetic::div_mod::lemma_add_mod_noop_right(n, x, m);
    assert(p == (x + n) % m);
    vstd::arithmetic::div_mod::lemma_mod_bound(y, m);
    vstd::arithmetic::div_mod::lemma_small_mod((y % m) as nat, m as nat);
    assert(w.deck.heard(i, f) == y % m);
    if p == y % m {
        crate::jobs::lemma_same_residue(x + n, y, m);
    }
}

/// ... and it sounds the same: every lane that sounds plays on every frame of both parts what it plays on
/// that frame of the whole chunk. (A loop so short that a chunk and the alignment go all the way round it is
/// heard back while it is being layered, chunk by chunk.)
#[verifier::rlimit(40)]
pub proof fn law_an_early_close_sounds_the_same<F: Fn(Single, Single) -> Single>(
    c: &Engine,
    d: &Engine,
    mid: Frame,
    next: Frame,
    whole: &Engine,
    half: &Engine,
    there: &Engine,
    again: &Engine,
    mix: F,
    first: Seq<Single>,
    i: int,
    f: int,
)
    requires
        d.wf(),
        d.published(c),
        d.quiet_until(next),
        d.cx.now < mid < next <= d.next_frame,
        next - d.cx.now <= QUANTUM,
        whole.wf(),
        whole.advanced(d, next),
        half.wf(),
        half.advanced(d, mid),
        there.wf(),
        there.chunk_closed(half, d.cx.now, mid, mid - d.cx.now),
        again.chunk_opened(there, next),
        first.len() == mid - d.cx.now,
        audio::taped(mix, half.world(), d.cx.now, first, half.looper.pcm(), there.looper.pcm()),
        d.world().deck.rec matches Some(r) ==> r.kind == Kind::Overdub ==> r.align + QUANTUM <= d.world().deck.master,
        0 <= i < TRACK_COUNT,
        d.world().sounding(i),
    ensures
        d.cx.now <= f < mid ==> half.looper.played(i, f) == whole.looper.played(i, f),
        mid <= f < next ==> again.looper.played(i, f) == whole.looper.played(i, f),
{
    let now = d.cx.now;
    let w = d.world();
    lemma_resumed_on_the_way(c, d, mid, next, half, there, again);
    lemma_pool_pooled(d);
    lemma_pool_pooled(there);
    lemma_taped_same_deck(mix, half.world(), w, now, first, half.looper.pcm(), there.looper.pcm());
    lemma_sounds_meet(mix, w, now, mid, next, d.looper.pcm(), there.looper.pcm(), first, i, f);
    if w.deck.rec is Some {
        w.lemma_rec(now);
    }
    lemma_capture_moves_no_head(w.with_jobs_by(mid), now, mid - now, i, f);
    assert(again.world().deck == there.world().deck);
}

/// What a lane that sounds plays on a frame is there to be played when that frame's part is open, as it is when
/// the whole chunk is.
#[verifier::rlimit(40)]
pub proof fn lemma_sounds_meet<F: Fn(Single, Single) -> Single>(
    mix: F,
    w: World,
    now: Frame,
    mid: Frame,
    next: Frame,
    pcm: Seq<Seq<Single>>,
    taken: Seq<Seq<Single>>,
    first: Seq<Single>,
    i: int,
    f: int,
)
    requires
        w.inv(now),
        now < mid < next < i64::MAX,
        next - now <= QUANTUM,
        forall|g: Frame| #[trigger] w.scheduled(g) ==> next <= g,
        apart::pooled(pcm, w.deck.capacity as int),
        apart::pooled(taken, w.deck.capacity as int),
        first.len() == mid - now,
        audio::taped(mix, w, now, first, looper::pcm_advanced(pcm, w.jobs, mid, w.jobs.len() as int), taken),
        w.deck.rec matches Some(r) ==> r.kind == Kind::Overdub ==> r.align + QUANTUM <= w.deck.master,
        0 <= i < TRACK_COUNT,
        w.sounding(i),
    ensures
        ({
            let n = w.jobs.len() as int;
            let whole = looper::pcm_advanced(pcm, w.jobs, next, n);
            let half = looper::pcm_advanced(pcm, w.jobs, mid, n);
            let again = looper::pcm_advanced(taken, looper::jobs_advanced(w.jobs, mid), next, n);
            let (b, x) = (w.lane(i).audible.buf as int, w.deck.heard(i, f));
            &&& now <= f < mid ==> half[b][x] == whole[b][x]
            &&& mid <= f < next ==> again[b][x] == whole[b][x]
        }),
{
    let n = w.jobs.len() as int;
    let capacity = w.deck.capacity as int;
    let later = looper::jobs_advanced(w.jobs, mid);
    let p1 = looper::pcm_advanced(pcm, w.jobs, mid, n);
    lemma_sound(w, now);
    apart::lemma_advanced_pool(pcm, w.jobs, mid, capacity);
    law_jobs_keep_apart(w, now, mid, next);
    apart::law_samples_may_stop_on_the_way(pcm, w.jobs, mid, next, n, capacity);
    apart::lemma_sound_on_the_way(w.jobs, mid, capacity);
    w.lemma_lane(now, i);
    let b = w.lane(i).audible.buf as int;
    let x = w.deck.heard(i, f);
    assert(0 <= x < capacity) by {
        let at = if w.lane(i).audible.reversed {
            w.deck.master - 1 - grid::pos_in_loop(f, w.deck.anchor as int, w.deck.master as int)
        } else {
            grid::pos_in_loop(f, w.deck.anchor as int, w.deck.master as int)
        };
        vstd::arithmetic::div_mod::lemma_mod_bound(at, w.lane(i).period as int);
    }
    if now <= f < mid {
        assert forall|k: int| 0 <= k < n && (#[trigger] later[k]) is Some implies !(later[k]->0.writes() == b
            && later[k]->0.visits(later[k]->0.progress as int, apart::reached(later[k]->0, next), x)) by {
            let job = w.jobs[k]->0;
            lemma_head_spared(w, now, mid, next, k, i, f);
            assert(job.wf(capacity));
            assert(job.owed(mid) <= job.owed(next) <= job.visit.span);
            if later[k]->0.visits(apart::reached(job, mid), apart::reached(job, next), x) {
                let s = choose|s: int|
                    apart::reached(job, mid) <= s < apart::reached(job, next) && #[trigger] later[k]->0.visit.pos(s) == x;
                assert(job.visit.pos(s) == x);
            }
        }
        lemma_cell_kept(p1, later, next, n, b, x, capacity);
    }
    if mid <= f < next {
        law_jobs_keep_apart_from_a_capture(w, now, mid, next);
        lemma_captured_elsewhere(mix, w, now, first, p1, taken, mid, next, b, x, i, f);
    }
}

/// A capture moves no head.
pub proof fn lemma_capture_moves_no_head(w: World, from: Frame, frames: int, i: int, f: int)
    requires
        0 <= i < TRACK_COUNT,
        w.deck.rec matches Some(r) ==> r.lane < TRACK_COUNT,
    ensures
        w.captured(from, frames).deck.lanes@[i].audible == w.deck.lanes@[i].audible,
        w.captured(from, frames).deck.heard(i, f) == w.deck.heard(i, f),
{
}

/// What a lane that sounds plays after a part of a chunk was captured is not told apart by the capture.
#[verifier::spinoff_prover]
#[verifier::rlimit(40)]
proof fn lemma_captured_elsewhere<F: Fn(Single, Single) -> Single>(
    mix: F,
    w: World,
    now: Frame,
    input: Seq<Single>,
    p: Seq<Seq<Single>>,
    q: Seq<Seq<Single>>,
    mid: Frame,
    until: Frame,
    b: int,
    x: int,
    i: int,
    f: int,
)
    requires
        w.inv(now),
        now < mid <= f < until < i64::MAX,
        input.len() == mid - now,
        until - now <= QUANTUM,
        apart::pooled(p, w.deck.capacity as int),
        apart::pooled(q, w.deck.capacity as int),
        audio::taped(mix, w, now, input, p, q),
        apart::sound_jobs(w.jobs, w.deck.capacity as int),
        capture_apart(w, now, mid, until),
        w.deck.rec matches Some(r) ==> r.kind == Kind::Overdub ==> r.align + QUANTUM <= w.deck.master,
        0 <= i < TRACK_COUNT,
        w.sounding(i),
        b == w.lane(i).audible.buf,
        x == w.deck.heard(i, f),
        0 <= x < w.deck.capacity,
    ensures
        ({
            let later = looper::jobs_advanced(w.jobs, mid);
            let n = w.jobs.len() as int;
            looper::pcm_advanced(q, later, until, n)[b][x] == looper::pcm_advanced(p, later, until, n)[b][x]
        }),
{
    let later = looper::jobs_advanced(w.jobs, mid);
    let n = w.jobs.len() as int;
    w.lemma_lane(now, i);
    if w.captures(now, input.len() as int) {
        let cells = |y: int| captures_at(w, now, mid - now, y);
        let live = w.rec_lane().live as int;
        w.lemma_captured(now, now, input.len() as int);
        let r = w.deck.rec->0.lane as int;
        w.lemma_rec(now);
        w.lemma_lane(now, r);
        lemma_capture_carried(mix, w, now, input, p, q, mid, until, cells);
        if i != r {
            lemma_lanes_apart(w, now, i, r, b);
        } else if cells(x) {
            lemma_layer_behind_the_head(w, now, mid, f, x);
        }
        let (p2, q2) = (looper::pcm_advanced(p, later, until, n), looper::pcm_advanced(q, later, until, n));
        assert(!(b == live && cells(x)));
        assert(q2[b][x] == p2[b][x]);
    } else {
        assert(q == p);
    }
}

pub proof fn lemma_pool_pooled(e: &Engine)
    requires
        e.wf(),
    ensures
        apart::pooled(e.looper.pcm(), e.world().deck.capacity as int),
{
    assert forall|b: int| 0 <= b < BUFFER_COUNT implies (#[trigger] e.looper.pcm()[b]).len()
        == e.world().deck.capacity by {
        assert(e.looper.pool.bufs@[b]@.len() == e.looper.control.deck.capacity);
    }
}

} // verus!

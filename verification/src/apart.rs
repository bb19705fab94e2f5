//! Block jobs that keep apart: which positions a job reads and writes, and that what keeps apart may be done
//! in either order.

use vstd::prelude::*;

use crate::deck::{Job, JobKind, BUFFER_COUNT};
use crate::float::Single;
use crate::grid::Frame;
use crate::looper;

verus! {

/// A pool's buffers, of so many samples each.
pub open spec fn pooled(pcm: Seq<Seq<Single>>, capacity: int) -> bool {
    &&& pcm.len() == BUFFER_COUNT
    &&& forall|b: int| 0 <= b < BUFFER_COUNT ==> (#[trigger] pcm[b]).len() == capacity
}

impl Job {
    /// Step `s` reads position `q` of buffer `b`.
    pub open spec fn reads_at(self, s: int, b: int, q: int) -> bool {
        let p = self.visit.pos(s);
        match self.kind {
            JobKind::Fill { buf, fill } => b == buf && fill.source_of(p) == Some(q),
            JobKind::Copy { src, .. } => b == src && q == p,
            JobKind::Restore { src, .. } => b == src && q == p,
            JobKind::LaneCopy { src, .. } => b == src && q == p,
        }
    }

    /// Steps `from..to` read or write position `q` of buffer `b`.
    pub open spec fn touches(self, from: int, to: int, b: int, q: int) -> bool {
        ||| b == self.writes() && self.visits(from, to, q)
        ||| exists|s: int| from <= s < to && #[trigger] self.reads_at(s, b, q)
    }

    /// What it puts down depends on what it reads alone.
    pub proof fn lemma_wanted_of_read(self, a: Seq<Seq<Single>>, b: Seq<Seq<Single>>, s: int, capacity: int)
        requires
            self.wf(capacity),
            forall|buf: int, q: int|
                0 <= buf < BUFFER_COUNT && 0 <= q < capacity && #[trigger] self.reads_at(s, buf, q) ==> a[buf][q]
                    == b[buf][q],
        ensures
            0 <= self.visit.pos(s) < capacity,
            self.wanted(a, self.visit.pos(s)) == self.wanted(b, self.visit.pos(s)),
    {
        let p = self.visit.pos(s);
        vstd::arithmetic::div_mod::lemma_mod_bound(
            self.visit.lo + (self.visit.off + s) % (self.visit.span as int),
            self.visit.modulus as int,
        );
        match self.kind {
            JobKind::Fill { buf, fill } => {
                fill.law_fill_reads_only_what_it_keeps(p);
                if fill.source_of(p) is Some {
                    assert(self.reads_at(s, buf as int, fill.source_of(p)->0));
                }
            },
            JobKind::Copy { src, .. } => {
                assert(self.reads_at(s, src as int, p));
            },
            JobKind::Restore { src, .. } => {
                assert(self.reads_at(s, src as int, p));
            },
            JobKind::LaneCopy { src, .. } => {
                assert(self.reads_at(s, src as int, p));
            },
        }
    }

    /// No step, no change; and a step changes no buffer's length.
    pub proof fn lemma_moved(self, pcm: Seq<Seq<Single>>, from: int, to: int, capacity: int)
        requires
            self.wf(capacity),
            pooled(pcm, capacity),
        ensures
            pooled(self.moved(pcm, from, to), capacity),
            to <= from ==> self.moved(pcm, from, to) == pcm,
            forall|b: int, q: int|
                0 <= b < BUFFER_COUNT && 0 <= q < capacity && !(b == self.writes() && self.visits(from, to, q))
                    ==> #[trigger] self.moved(pcm, from, to)[b][q] == pcm[b][q],
    {
        let b = self.writes();
        let after = self.moved(pcm, from, to);
        if to <= from {
            assert(after[b] =~= pcm[b]);
            assert(after =~= pcm);
        }
    }
}

/// Neither job's steps write what the other's read or write.
pub open spec fn apart(j: Job, j0: int, j1: int, k: Job, k0: int, k1: int) -> bool {
    &&& forall|p: int| #[trigger] j.visits(j0, j1, p) ==> !k.touches(k0, k1, j.writes(), p)
    &&& forall|p: int| #[trigger] k.visits(k0, k1, p) ==> !j.touches(j0, j1, k.writes(), p)
}

/// Steps that keep apart may be done in either order.
pub proof fn law_steps_apart_in_either_order(
    j: Job,
    j0: int,
    j1: int,
    k: Job,
    k0: int,
    k1: int,
    pcm: Seq<Seq<Single>>,
    capacity: int,
)
    requires
        j.wf(capacity),
        k.wf(capacity),
        pooled(pcm, capacity),
        apart(j, j0, j1, k, k0, k1),
    ensures
        k.moved(j.moved(pcm, j0, j1), k0, k1) == j.moved(k.moved(pcm, k0, k1), j0, j1),
{
    let (x, y) = (j.moved(pcm, j0, j1), k.moved(pcm, k0, k1));
    let (l, r) = (k.moved(x, k0, k1), j.moved(y, j0, j1));
    j.lemma_moved(pcm, j0, j1, capacity);
    k.lemma_moved(pcm, k0, k1, capacity);
    k.lemma_moved(x, k0, k1, capacity);
    j.lemma_moved(y, j0, j1, capacity);
    assert forall|b: int| 0 <= b < BUFFER_COUNT implies #[trigger] l[b] == r[b] by {
        assert forall|p: int| 0 <= p < capacity implies l[b][p] == r[b][p] by {
            if b == k.writes() && k.visits(k0, k1, p) {
                assert(!j.touches(j0, j1, k.writes(), p));
                lemma_puts_the_same(k, k0, k1, j, j0, j1, pcm, p, capacity);
                assert(r[b][p] == y[b][p]);
            } else if b == j.writes() && j.visits(j0, j1, p) {
                assert(!k.touches(k0, k1, j.writes(), p));
                lemma_puts_the_same(j, j0, j1, k, k0, k1, pcm, p, capacity);
                assert(l[b][p] == x[b][p]);
            } else {
                assert(l[b][p] == x[b][p]);
                assert(r[b][p] == y[b][p]);
            }
        }
        assert(l[b] =~= r[b]);
    }
    assert(l =~= r);
}

/// Another job's steps that keep apart do not change what one puts down.
proof fn lemma_puts_the_same(
    k: Job,
    k0: int,
    k1: int,
    j: Job,
    j0: int,
    j1: int,
    pcm: Seq<Seq<Single>>,
    p: int,
    capacity: int,
)
    requires
        j.wf(capacity),
        k.wf(capacity),
        pooled(pcm, capacity),
        forall|q: int| #[trigger] j.visits(j0, j1, q) ==> !k.touches(k0, k1, j.writes(), q),
        k.visits(k0, k1, p),
    ensures
        k.wanted(j.moved(pcm, j0, j1), p) == k.wanted(pcm, p),
{
    let s = choose|s: int| k0 <= s < k1 && #[trigger] k.visit.pos(s) == p;
    let x = j.moved(pcm, j0, j1);
    j.lemma_moved(pcm, j0, j1, capacity);
    assert forall|b: int, q: int|
        0 <= b < BUFFER_COUNT && 0 <= q < capacity && #[trigger] k.reads_at(s, b, q) implies x[b][q] == pcm[b][q] by {
        if b == j.writes() && j.visits(j0, j1, q) {
            assert(k.touches(k0, k1, j.writes(), q));
        }
    }
    k.lemma_wanted_of_read(x, pcm, s, capacity);
}

impl Job {
    /// The buffer it reads.
    pub open spec fn source(self) -> int {
        match self.kind {
            JobKind::Fill { buf, .. } => buf as int,
            JobKind::Copy { src, .. } => src as int,
            JobKind::Restore { src, .. } => src as int,
            JobKind::LaneCopy { src, .. } => src as int,
        }
    }
}

/// Jobs on different buffers keep apart, whatever their steps.
pub proof fn law_jobs_on_other_buffers_keep_apart(j: Job, j0: int, j1: int, k: Job, k0: int, k1: int)
    requires
        j.writes() != k.writes(),
        j.writes() != k.source(),
        k.writes() != j.source(),
    ensures
        apart(j, j0, j1, k, k0, k1),
{
}

/// A loop that is being repeated keeps apart from a copy of what it repeats: the copy reads what the repeat
/// keeps.
pub proof fn law_a_repeat_keeps_apart_from_a_copy_of_its_loop(
    j: Job,
    j0: int,
    j1: int,
    k: Job,
    k0: int,
    k1: int,
    capacity: int,
)
    requires
        j.wf(capacity),
        k.wf(capacity),
        j.kind is Fill,
        k.kind is LaneCopy,
        k.source() == j.writes(),
        k.writes() != j.writes(),
        j.kind matches JobKind::Fill { fill, .. } && k.visit.modulus <= fill.kept(),
    ensures
        apart(j, j0, j1, k, k0, k1),
{
    assert forall|p: int| #[trigger] j.visits(j0, j1, p) implies !k.touches(k0, k1, j.writes(), p) by {
        let s = choose|s: int| j0 <= s < j1 && #[trigger] j.visit.pos(s) == p;
        j.visit.lemma_stays_past(s);
        if k.touches(k0, k1, j.writes(), p) {
            let t = choose|t: int| k0 <= t < k1 && #[trigger] k.reads_at(t, j.writes(), p);
            vstd::arithmetic::div_mod::lemma_mod_bound(
                k.visit.lo + (k.visit.off + t) % (k.visit.span as int),
                k.visit.modulus as int,
            );
        }
    }
}

/// Every job of a table is sound.
pub open spec fn sound_jobs(jobs: Seq<Option<Job>>, capacity: int) -> bool {
    forall|k: int| 0 <= k < jobs.len() && (#[trigger] jobs[k]) is Some ==> jobs[k]->0.wf(capacity)
}

/// How far a job is by a frame.
pub open spec fn reached(job: Job, until: Frame) -> int {
    job.advanced(until).progress as int
}

/// What a job has to do between two frames keeps apart from what a later one of the table has to do by the
/// first of them.
pub open spec fn jobs_apart(jobs: Seq<Option<Job>>, mid: Frame, until: Frame) -> bool {
    forall|k: int, l: int|
        #![trigger jobs[k], jobs[l]]
        0 <= k < l < jobs.len() && jobs[k] is Some && jobs[l] is Some ==> apart(
            jobs[k]->0,
            reached(jobs[k]->0, mid),
            reached(jobs[k]->0, until),
            jobs[l]->0,
            jobs[l]->0.progress as int,
            reached(jobs[l]->0, mid),
        )
}

/// A table advanced: one job's steps more.
pub proof fn lemma_one_job_more(pcm: Seq<Seq<Single>>, jobs: Seq<Option<Job>>, until: Frame, k: int, capacity: int)
    requires
        pooled(pcm, capacity),
        sound_jobs(jobs, capacity),
        0 < k <= jobs.len(),
        until < i64::MAX,
    ensures
        pooled(looper::pcm_advanced(pcm, jobs, until, k - 1), capacity),
        jobs[k - 1] is None ==> looper::pcm_advanced(pcm, jobs, until, k) == looper::pcm_advanced(
            pcm,
            jobs,
            until,
            k - 1,
        ),
        jobs[k - 1] matches Some(job) ==> looper::pcm_advanced(pcm, jobs, until, k) == job.moved(
            looper::pcm_advanced(pcm, jobs, until, k - 1),
            job.progress as int,
            reached(job, until),
        ),
        pooled(looper::pcm_advanced(pcm, jobs, until, k), capacity),
    decreases k,
{
    if k > 1 {
        lemma_one_job_more(pcm, jobs, until, k - 1, capacity);
    }
    let before = looper::pcm_advanced(pcm, jobs, until, k - 1);
    assert(pooled(before, capacity));
    if jobs[k - 1] is Some {
        let job = jobs[k - 1]->0;
        assert(job.wf(capacity));
        job.lemma_moved(before, job.progress as int, reached(job, until), capacity);
        assert(job.owed(until) <= job.visit.span);
    }
}

pub proof fn lemma_advanced_pool(pcm: Seq<Seq<Single>>, jobs: Seq<Option<Job>>, until: Frame, capacity: int)
    requires
        pooled(pcm, capacity),
        sound_jobs(jobs, capacity),
        until < i64::MAX,
    ensures
        pooled(looper::pcm_advanced(pcm, jobs, until, jobs.len() as int), capacity),
{
    if jobs.len() > 0 {
        lemma_one_job_more(pcm, jobs, until, jobs.len() as int, capacity);
    }
}

/// A table looked after on the way stays sound.
pub proof fn lemma_sound_on_the_way(jobs: Seq<Option<Job>>, mid: Frame, capacity: int)
    requires
        sound_jobs(jobs, capacity),
        mid < i64::MAX,
    ensures
        sound_jobs(looper::jobs_advanced(jobs, mid), capacity),
{
    let later = looper::jobs_advanced(jobs, mid);
    assert forall|k: int| 0 <= k < later.len() && (#[trigger] later[k]) is Some implies later[k]->0.wf(capacity) by {
        assert(jobs[k]->0.wf(capacity));
        assert(jobs[k]->0.owed(mid) <= jobs[k]->0.visit.span);
    }
}

/// A job's steps that keep apart from those of a table may come after them or before.
proof fn lemma_past_a_table(
    pcm: Seq<Seq<Single>>,
    jobs: Seq<Option<Job>>,
    until: Frame,
    n: int,
    j: Job,
    j0: int,
    j1: int,
    capacity: int,
)
    requires
        pooled(pcm, capacity),
        sound_jobs(jobs, capacity),
        j.wf(capacity),
        0 <= n <= jobs.len(),
        until < i64::MAX,
        forall|k: int|
            0 <= k < n && (#[trigger] jobs[k]) is Some ==> apart(
                jobs[k]->0,
                jobs[k]->0.progress as int,
                reached(jobs[k]->0, until),
                j,
                j0,
                j1,
            ),
    ensures
        j.moved(looper::pcm_advanced(pcm, jobs, until, n), j0, j1) == looper::pcm_advanced(
            j.moved(pcm, j0, j1),
            jobs,
            until,
            n,
        ),
    decreases n,
{
    if n > 0 {
        j.lemma_moved(pcm, j0, j1, capacity);
        lemma_past_a_table(pcm, jobs, until, n - 1, j, j0, j1, capacity);
        lemma_one_job_more(pcm, jobs, until, n, capacity);
        lemma_one_job_more(j.moved(pcm, j0, j1), jobs, until, n, capacity);
        if jobs[n - 1] is Some {
            let job = jobs[n - 1]->0;
            assert(job.wf(capacity));
            law_steps_apart_in_either_order(
                job,
                job.progress as int,
                reached(job, until),
                j,
                j0,
                j1,
                looper::pcm_advanced(pcm, jobs, until, n - 1),
                capacity,
            );
        }
    }
}

/// The samples stand as they stand by their frame, however often the jobs were looked after on the way, as
/// long as the jobs keep apart.
pub proof fn law_samples_may_stop_on_the_way(
    pcm: Seq<Seq<Single>>,
    jobs: Seq<Option<Job>>,
    mid: Frame,
    until: Frame,
    n: int,
    capacity: int,
)
    requires
        pooled(pcm, capacity),
        sound_jobs(jobs, capacity),
        mid <= until < i64::MAX,
        0 <= n <= jobs.len(),
        jobs_apart(jobs, mid, until),
    ensures
        looper::pcm_advanced(pcm, jobs, until, n) == looper::pcm_advanced(
            looper::pcm_advanced(pcm, jobs, mid, n),
            looper::jobs_advanced(jobs, mid),
            until,
            n,
        ),
    decreases n,
{
    if n > 0 {
        let later = looper::jobs_advanced(jobs, mid);
        law_samples_may_stop_on_the_way(pcm, jobs, mid, until, n - 1, capacity);
        lemma_one_job_more(pcm, jobs, until, n, capacity);
        lemma_one_job_more(pcm, jobs, mid, n, capacity);
        let half = looper::pcm_advanced(pcm, jobs, mid, n);
        let less = looper::pcm_advanced(pcm, jobs, mid, n - 1);
        lemma_sound_on_the_way(jobs, mid, capacity);
        lemma_one_job_more(half, later, until, n, capacity);
        if jobs[n - 1] is Some {
            let job = jobs[n - 1]->0;
            let (from, at, to) = (job.progress as int, reached(job, mid), reached(job, until));
            assert(job.wf(capacity));
            assert(job.owed(mid) <= job.owed(until) <= job.visit.span);
            assert(later[n - 1] == Some(job.advanced(mid)));
            let whole = looper::pcm_advanced(pcm, jobs, until, n - 1);
            job.law_progress_is_the_same_whatever_the_blocks(whole, from, at, to, capacity);
            assert forall|k: int| 0 <= k < n - 1 && (#[trigger] later[k]) is Some implies apart(
                later[k]->0,
                later[k]->0.progress as int,
                reached(later[k]->0, until),
                job,
                from,
                at,
            ) by {
                let other = jobs[k]->0;
                assert(jobs[n - 1] is Some);
                assert(apart(other, reached(other, mid), reached(other, until), job, from, at));
                lemma_same_steps(other, mid, until, job, from, at);
            }
            lemma_past_a_table(less, later, until, n - 1, job, from, at, capacity);
            let rest = looper::pcm_advanced(half, later, until, n - 1);
            lemma_same_moves(job, mid, rest, at, to, capacity);
        }
    }
}

/// A job looked after on the way has the same steps ahead.
proof fn lemma_same_steps(job: Job, mid: Frame, until: Frame, k: Job, k0: int, k1: int)
    requires
        mid <= until < i64::MAX,
        job.visit.wf(),
        0 <= job.progress <= job.visit.span,
        apart(job, reached(job, mid), reached(job, until), k, k0, k1),
    ensures
        apart(
            job.advanced(mid),
            job.advanced(mid).progress as int,
            reached(job.advanced(mid), until),
            k,
            k0,
            k1,
        ),
{
    let later = job.advanced(mid);
    let (a, b) = (reached(job, mid), reached(job, until));
    assert(job.owed(mid) <= job.owed(until) <= job.visit.span);
    assert(reached(later, until) == b);
    assert forall|p: int| #[trigger] later.visits(a, b, p) implies !k.touches(k0, k1, later.writes(), p) by {
        assert(job.visits(a, b, p)) by {
            let s = choose|s: int| a <= s < b && #[trigger] later.visit.pos(s) == p;
            assert(job.visit.pos(s) == p);
        }
    }
    assert forall|p: int| #[trigger] k.visits(k0, k1, p) implies !later.touches(a, b, k.writes(), p) by {
        assert(!job.touches(a, b, k.writes(), p));
        lemma_same_touch(job, mid, a, b, k.writes(), p);
    }
}

pub proof fn lemma_same_touch(job: Job, mid: Frame, a: int, b: int, buf: int, p: int)
    ensures
        job.advanced(mid).touches(a, b, buf, p) == job.touches(a, b, buf, p),
{
    let later = job.advanced(mid);
    assert(later.visits(a, b, p) == job.visits(a, b, p)) by {
        if later.visits(a, b, p) {
            let s = choose|s: int| a <= s < b && #[trigger] later.visit.pos(s) == p;
            assert(job.visit.pos(s) == p);
        }
        if job.visits(a, b, p) {
            let s = choose|s: int| a <= s < b && #[trigger] job.visit.pos(s) == p;
            assert(later.visit.pos(s) == p);
        }
    }
    if later.touches(a, b, buf, p) && !(buf == later.writes() && later.visits(a, b, p)) {
        let s = choose|s: int| a <= s < b && #[trigger] later.reads_at(s, buf, p);
        assert(job.reads_at(s, buf, p));
    }
    if job.touches(a, b, buf, p) && !(buf == job.writes() && job.visits(a, b, p)) {
        let s = choose|s: int| a <= s < b && #[trigger] job.reads_at(s, buf, p);
        assert(later.reads_at(s, buf, p));
    }
}

/// A job looked after on the way moves what it would have moved.
proof fn lemma_same_moves(job: Job, mid: Frame, pcm: Seq<Seq<Single>>, from: int, to: int, capacity: int)
    requires
        job.wf(capacity),
        pooled(pcm, capacity),
    ensures
        job.advanced(mid).moved(pcm, from, to) == job.moved(pcm, from, to),
{
    let later = job.advanced(mid);
    let b = job.writes();
    let (x, y) = (later.moved(pcm, from, to), job.moved(pcm, from, to));
    assert forall|p: int| 0 <= p < capacity implies x[b][p] == y[b][p] by {
        assert(later.visits(from, to, p) == job.visits(from, to, p)) by {
            if later.visits(from, to, p) {
                let s = choose|s: int| from <= s < to && #[trigger] later.visit.pos(s) == p;
                assert(job.visit.pos(s) == p);
            }
            if job.visits(from, to, p) {
                let s = choose|s: int| from <= s < to && #[trigger] job.visit.pos(s) == p;
                assert(later.visit.pos(s) == p);
            }
        }
        assert(later.wanted(pcm, p) == job.wanted(pcm, p));
    }
    assert(x[b] =~= y[b]);
    assert(x =~= y);
}

} // verus!

//! What a block job does to the buffers: which positions it has moved after so many steps, what it puts
//! there, and how far it owes to be by a frame.

use vstd::prelude::*;

use crate::deck;
use crate::deck::{Job, JobKind, Visit, BUFFER_COUNT, JOB_RATE};
use crate::float;
use crate::float::Single;
use crate::grid;
use crate::grid::Frame;

verus! {

/// The samples of a pool of buffers.
pub open spec fn samples(bufs: Seq<Vec<Single>>) -> Seq<Seq<Single>> {
    Seq::new(bufs.len(), |b: int| bufs[b]@)
}

impl Visit {
    /// The first `span` steps visit every position of the span, each once.
    pub proof fn law_every_position_is_visited(self, d: int)
        requires
            self.wf(),
            0 <= d < self.span,
        ensures
            exists|s: int| 0 <= s < self.span && #[trigger] self.pos(s) == (self.lo + d) % (self.modulus as int),
    {
        let span = self.span as int;
        let s = (d - self.off) % span;
        vstd::arithmetic::div_mod::lemma_mod_bound(d - self.off, span);
        vstd::arithmetic::div_mod::lemma_add_mod_noop_right(self.off as int, d - self.off, span);
        vstd::arithmetic::div_mod::lemma_small_mod(d as nat, span as nat);
        assert((self.off + s) % span == d);
        assert(self.pos(s) == (self.lo + d) % (self.modulus as int));
    }

    /// No two of the first `span` steps visit the same position, where the span is at most the modulus.
    pub proof fn law_no_position_is_visited_twice(self, s: int, t: int)
        requires
            self.wf(),
            self.span <= self.modulus,
            0 <= s < self.span,
            0 <= t < self.span,
            self.pos(s) == self.pos(t),
        ensures
            s == t,
    {
        let (span, m) = (self.span as int, self.modulus as int);
        let (a, b) = ((self.off + s) % span, (self.off + t) % span);
        lemma_same_residue(self.lo + a, self.lo + b, m);
        lemma_same_residue(self.off + s, self.off + t, span);
    }

    /// A visit of the end of a loop stays there.
    pub proof fn lemma_stays_past(self, s: int)
        requires
            self.wf(),
            self.lo + self.span <= self.modulus,
        ensures
            self.lo <= self.pos(s) < self.lo + self.span,
    {
        let span = self.span as int;
        vstd::arithmetic::div_mod::lemma_mod_bound(self.off + s, span);
        vstd::arithmetic::div_mod::lemma_small_mod(
            (self.lo + (self.off + s) % span) as nat,
            self.modulus as nat,
        );
    }
}

/// Two integers less than `m` apart with the same residue are one.
pub proof fn lemma_same_residue(x: int, y: int, m: int)
    requires
        m > 0,
        x % m == y % m,
        -m < x - y < m,
    ensures
        x == y,
{
    vstd::arithmetic::div_mod::lemma_fundamental_div_mod(x, m);
    vstd::arithmetic::div_mod::lemma_fundamental_div_mod(y, m);
    let (p, q) = (x / m, y / m);
    assert(p == q) by (nonlinear_arith)
        requires
            x == m * p + x % m,
            y == m * q + y % m,
            x % m == y % m,
            -m < x - y < m,
            m > 0,
    ;
}

impl Job {
    /// The buffer it writes.
    pub open spec fn writes(self) -> int {
        match self.kind {
            JobKind::Fill { buf, .. } => buf as int,
            JobKind::Copy { dst, .. } => dst as int,
            JobKind::Restore { dst, .. } => dst as int,
            JobKind::LaneCopy { dst, .. } => dst as int,
        }
    }

    /// The buffer it writes.
    pub fn target(&self) -> (b: usize)
        ensures
            b == self.writes(),
    {
        match self.kind {
            JobKind::Fill { buf, .. } => buf,
            JobKind::Copy { dst, .. } => dst,
            JobKind::Restore { dst, .. } => dst,
            JobKind::LaneCopy { dst, .. } => dst,
        }
    }

    /// What it puts at a position.
    pub open spec fn wanted(self, pcm: Seq<Seq<Single>>, p: int) -> Single {
        match self.kind {
            JobKind::Fill { buf, fill } => match fill.source_of(p) {
                Some(q) => pcm[buf as int][q],
                None => float::silence(),
            },
            JobKind::Copy { src, .. } => pcm[src as int][p],
            JobKind::Restore { src, .. } => pcm[src as int][p],
            JobKind::LaneCopy { src, .. } => pcm[src as int][p],
        }
    }

    /// Steps `from..to` visit a position.
    pub open spec fn visits(self, from: int, to: int, p: int) -> bool {
        exists|s: int| from <= s < to && #[trigger] self.visit.pos(s) == p
    }

    /// The buffers once steps `from..to` are done.
    pub open spec fn moved(self, pcm: Seq<Seq<Single>>, from: int, to: int) -> Seq<Seq<Single>> {
        let b = self.writes();
        pcm.update(
            b,
            Seq::new(
                pcm[b].len(),
                |p: int|
                    if self.visits(from, to, p) {
                        self.wanted(pcm, p)
                    } else {
                        pcm[b][p]
                    },
            ),
        )
    }

    /// Its progress by a frame: `JOB_RATE` positions a frame, all of them by the end of time.
    pub open spec fn owed(self, until: Frame) -> int {
        if until == i64::MAX {
            self.visit.span as int
        } else {
            grid::min_int(self.visit.span as int, JOB_RATE * (until - self.start))
        }
    }

    /// It, as far as it owes to be by a frame.
    pub open spec fn advanced(self, until: Frame) -> Job {
        Job { progress: grid::max_int(self.progress as int, self.owed(until)) as Frame, ..self }
    }

    /// How far a job has come depends on the frame alone, not on the blocks it came there by: stopping
    /// on the way changes nothing in the buffers.
    pub proof fn law_progress_is_the_same_whatever_the_blocks(
        self,
        pcm: Seq<Seq<Single>>,
        from: int,
        mid: int,
        to: int,
        capacity: int,
    )
        requires
            self.wf(capacity),
            pcm.len() == BUFFER_COUNT,
            forall|b: int| 0 <= b < BUFFER_COUNT ==> (#[trigger] pcm[b]).len() == capacity,
            from <= mid <= to,
        ensures
            self.moved(self.moved(pcm, from, mid), mid, to) == self.moved(pcm, from, to),
    {
        let b = self.writes();
        let half = self.moved(pcm, from, mid);
        let whole = self.moved(pcm, from, to);
        let both = self.moved(half, mid, to);
        assert forall|p: int| 0 <= p < capacity implies #[trigger] both[b][p] == whole[b][p] by {
            if self.visits(mid, to, p) {
                let s = choose|s: int| mid <= s < to && #[trigger] self.visit.pos(s) == p;
                assert(self.visits(from, to, p));
                self.lemma_wanted_stays(pcm, from, mid, p, s, capacity);
            } else if self.visits(from, mid, p) {
                let s = choose|s: int| from <= s < mid && #[trigger] self.visit.pos(s) == p;
                assert(from <= s < to && self.visit.pos(s) == p);
            } else {
                if self.visits(from, to, p) {
                    let s = choose|s: int| from <= s < to && #[trigger] self.visit.pos(s) == p;
                    if s < mid {
                        assert(self.visits(from, mid, p));
                    } else {
                        assert(self.visits(mid, to, p));
                    }
                }
            }
        }
        assert(both[b] =~= whole[b]);
        assert(both =~= whole);
    }

    /// What it reads it does not write.
    pub proof fn lemma_wanted_stays(self, pcm: Seq<Seq<Single>>, from: int, mid: int, p: int, s: int, capacity: int)
        requires
            self.wf(capacity),
            pcm.len() == BUFFER_COUNT,
            forall|b: int| 0 <= b < BUFFER_COUNT ==> (#[trigger] pcm[b]).len() == capacity,
            self.visit.pos(s) == p,
        ensures
            0 <= p < self.visit.modulus,
            self.wanted(self.moved(pcm, from, mid), p) == self.wanted(pcm, p),
    {
        vstd::arithmetic::div_mod::lemma_mod_bound(
            self.visit.lo + (self.visit.off + s) % (self.visit.span as int),
            self.visit.modulus as int,
        );
        if let JobKind::Fill { buf, fill } = self.kind {
            fill.law_fill_reads_only_what_it_keeps(p);
            if fill.source_of(p) is Some {
                let q = fill.source_of(p)->0;
                if self.visits(from, mid, q) {
                    let t = choose|t: int| from <= t < mid && #[trigger] self.visit.pos(t) == q;
                    self.visit.lemma_stays_past(t);
                }
            }
        }
    }

    /// Between two frames a job moves at most `JOB_RATE` positions a frame, once it is as far as it owed
    /// to be: no loop-sized work in one callback.
    pub proof fn law_a_step_is_bounded(self, now: Frame, until: Frame)
        requires
            now <= until < i64::MAX,
            0 <= self.progress,
            self.owed(now) <= self.progress,
        ensures
            self.owed(until) - self.progress <= JOB_RATE * (until - now),
    {
    }

    /// A job is done on its frame, and not before.
    pub proof fn law_a_job_is_done_on_its_frame(self, f: Frame)
        requires
            f < i64::MAX,
            self.visit.wf(),
        ensures
            self.owed(f) == self.visit.span <==> self.done_at() <= f,
    {
        let span = self.visit.span as int;
        let n = deck::frames_of_job(span);
        assert((n - 1) * JOB_RATE < span <= n * JOB_RATE);
        if self.done_at() <= f {
            assert(JOB_RATE * (f - self.start) >= span);
        } else {
            assert(f - self.start <= n - 1);
        }
    }

    /// A whole job leaves what it wants on every position of its span.
    pub proof fn law_a_whole_job_moves_its_span(self, pcm: Seq<Seq<Single>>, d: int, capacity: int)
        requires
            self.wf(capacity),
            pcm.len() == BUFFER_COUNT,
            forall|b: int| 0 <= b < BUFFER_COUNT ==> (#[trigger] pcm[b]).len() == capacity,
            0 <= d < self.visit.span,
        ensures
            ({
                let p = (self.visit.lo + d) % (self.visit.modulus as int);
                self.moved(pcm, 0, self.visit.span as int)[self.writes()][p] == self.wanted(pcm, p)
            }),
    {
        let p = (self.visit.lo + d) % (self.visit.modulus as int);
        self.visit.law_every_position_is_visited(d);
        vstd::arithmetic::div_mod::lemma_mod_bound(self.visit.lo + d, self.visit.modulus as int);
        assert(self.visits(0, self.visit.span as int, p));
    }
}

/// Run the steps from a job's progress up to `to`.
pub fn run_steps(bufs: &mut Vec<Vec<Single>>, job: &Job, to: Frame, capacity: Frame)
    requires
        job.wf(capacity as int),
        capacity <= usize::MAX,
        old(bufs)@.len() == BUFFER_COUNT,
        forall|b: int| 0 <= b < BUFFER_COUNT ==> (#[trigger] old(bufs)@[b])@.len() == capacity,
        job.progress <= to <= job.visit.span,
    ensures
        samples(final(bufs)@) == job.moved(samples(old(bufs)@), job.progress as int, to as int),
        forall|b: int| 0 <= b < BUFFER_COUNT ==> (#[trigger] final(bufs)@[b])@.len() == capacity,
{
    let ghost pcm = samples(bufs@);
    let ghost from = job.progress as int;
    let mut s: Frame = job.progress;
    proof {
        assert(job.moved(pcm, from, from)[job.writes()] =~= pcm[job.writes()]);
        assert(job.moved(pcm, from, from) =~= pcm);
    }
    while s < to
        invariant
            from <= s <= to,
            from == job.progress,
            to <= job.visit.span,
            job.wf(capacity as int),
            capacity <= usize::MAX,
            pcm.len() == BUFFER_COUNT,
            forall|b: int| 0 <= b < BUFFER_COUNT ==> (#[trigger] pcm[b]).len() == capacity,
            bufs@.len() == BUFFER_COUNT,
            samples(bufs@) == job.moved(pcm, from, s as int),
        decreases to - s,
    {
        let p: usize = job.visit.at(s);
        let ghost b = job.writes();
        let ghost before = samples(bufs@);
        proof {
            job.lemma_wanted_stays(pcm, from, s as int, p as int, s as int, capacity as int);
            assert(forall|c: int| 0 <= c < BUFFER_COUNT ==> before[c] == (#[trigger] bufs@[c])@);
            assert(forall|c: int| 0 <= c < BUFFER_COUNT ==> (#[trigger] before[c]).len() == capacity);
        }
        match job.kind {
            JobKind::Fill { buf, fill } => {
                proof {
                    fill.law_fill_reads_only_what_it_keeps(p as int);
                }
                let x: Single = match fill.source(p as Frame) {
                    Some(q) => bufs[buf][q as usize],
                    None => Single { bits: 0 },
                };
                assert(x == job.wanted(before, p as int));
                bufs[buf][p] = x;
            },
            JobKind::Copy { src, dst } => {
                let x: Single = bufs[src][p];
                bufs[dst][p] = x;
            },
            JobKind::Restore { src, dst, .. } => {
                let x: Single = bufs[src][p];
                bufs[dst][p] = x;
            },
            JobKind::LaneCopy { src, dst, .. } => {
                let x: Single = bufs[src][p];
                bufs[dst][p] = x;
            },
        }
        proof {
            let after = samples(bufs@);
            assert(after =~= before.update(b, before[b].update(p as int, job.wanted(before, p as int))));
            let next = job.moved(pcm, from, s + 1);
            assert forall|q: int| 0 <= q < capacity implies #[trigger] after[b][q] == next[b][q] by {
                if job.visits(from, s + 1, q) {
                    let t = choose|t: int| from <= t < s + 1 && #[trigger] job.visit.pos(t) == q;
                    if q != p {
                        assert(t < s);
                        assert(job.visits(from, s as int, q));
                    }
                } else {
                    assert(job.visit.pos(s as int) == p);
                    assert(q != p);
                    if job.visits(from, s as int, q) {
                        let t = choose|t: int| from <= t < s && #[trigger] job.visit.pos(t) == q;
                        assert(from <= t < s + 1 && job.visit.pos(t) == q);
                    }
                }
                if q == p {
                    assert(job.visits(from, s + 1, q)) by {
                        assert(job.visit.pos(s as int) == q);
                    }
                }
            }
            assert(after[b] =~= next[b]);
            assert(after =~= next);
        }
        s = s + 1;
    }
    assert forall|b: int| 0 <= b < BUFFER_COUNT implies (#[trigger] bufs@[b])@.len() == capacity by {
        assert(samples(bufs@)[b] == bufs@[b]@);
    }
}

} // verus!

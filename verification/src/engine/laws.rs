//! What holds of the engine as a whole, however its blocks fall.

use vstd::prelude::*;

use crate::api::TRACK_COUNT;
use crate::deck;
use crate::deck::{Deck, Kind, World};
use crate::float::Single;
use crate::grid;
use crate::grid::Frame;
use crate::looper;
use crate::pool;

verus! {

/// Two states that only their array of lanes could tell apart, lane by lane the same.
pub open spec fn same_state(a: World, b: World) -> bool {
    &&& a.deck.lanes@ == b.deck.lanes@
    &&& a == (World { deck: Deck { lanes: a.deck.lanes, ..b.deck }, ..b })
}

impl World {
    /// What a block of the record tap does to the looper's state does not depend on where the block is
    /// split: captured in two parts or as one, the state is the same.
    pub proof fn law_a_capture_may_be_split(self, now: Frame, from: Frame, a: int, b: int)
        requires
            self.inv(now),
            0 <= a,
            0 <= b,
            grid::near(from as int),
            grid::near(from + a + b),
        ensures
            same_state(self.captured(from, a).captured((from + a) as Frame, b), self.captured(from, a + b)),
    {
        if self.deck.rec is Some {
            self.lemma_rec(now);
            self.lemma_lane(now, self.deck.rec->0.lane as int);
            self.lemma_capture_split(from, a, b);
        }
    }

    proof fn lemma_capture_split(self, from: Frame, a: int, b: int)
        requires
            self.deck.rec is Some,
            self.deck.rec->0.lane < TRACK_COUNT,
            self.deck.rec->0.start matches Some(s) ==> deck::kept(s as int),
            self.deck.rec->0.kind == Kind::Overdub ==> 0 <= self.deck.rec->0.summed <= self.deck.master,
            0 <= a,
            0 <= b,
            grid::near(from as int),
            grid::near(from + a + b),
        ensures
            same_state(self.captured(from, a).captured((from + a) as Frame, b), self.captured(from, a + b)),
    {
        let m = (from + a) as Frame;
        let one = self.captured(from, a);
        let two = one.captured(m, b);
        let whole = self.captured(from, a + b);
        let rec = self.deck.rec->0;
        let i = rec.lane as int;
        if !self.captures(from, a) {
            assert(one == self);
            assert(two.deck.lanes@ =~= whole.deck.lanes@);
        } else if rec.kind == Kind::Take {
            assert(one.deck.rec == self.deck.rec);
            assert(one.lane(i).auto_armed == self.lane(i).auto_armed);
            assert(self.captures(from, a + b));
            assert(two.deck.lanes@ =~= whole.deck.lanes@);
        } else {
            assert(one.deck.lanes == self.deck.lanes);
            assert(self.captures(from, a + b));
            assert(two.deck.lanes@ =~= whole.deck.lanes@);
        }
    }

    /// Between two scheduled frames nothing happens: where everything scheduled lies ahead, running
    /// what is due changes nothing, so a block may end there.
    pub proof fn law_nothing_happens_between_events(self, now: Frame, align: Frame)
        requires
            forall|g: Frame| #[trigger] self.scheduled(g) ==> now < g,
            forall|k: int| 0 <= k < self.jobs.len() && (#[trigger] self.jobs[k]) is Some ==> i64::MIN
                <= self.jobs[k]->0.done_at() <= i64::MAX,
        ensures
            self.due(now, align) == self,
            forall|pcm: Seq<Seq<Single>>| #[trigger]
                looper::pcm_completed(pcm, self.lanes_due(now, 0).jobs, now, 0) == pcm,
    {
        self.lemma_no_lane_due(now, 0);
        assert forall|k: int| 0 <= k < self.jobs.len() implies !self.job_done(now, k) by {
            if self.jobs[k] is Some {
                assert(deck::done_on(self.jobs[k], self.jobs[k]->0.done_at() as Frame));
                assert(self.scheduled(self.jobs[k]->0.done_at() as Frame));
            }
        }
        self.lemma_no_job_due(now, 0);
        if self.deck.rec is Some {
            let rec = self.deck.rec->0;
            if rec.end is Some {
                assert(self.scheduled(rec.end->0));
            }
            if rec.start is Some && self.lane(rec.lane as int).armed {
                assert(self.scheduled(rec.start->0));
            }
            reveal(World::edge_due);
        }
        assert(self.edges_due(now, align, 4) == self);
        assert forall|pcm: Seq<Seq<Single>>| #[trigger]
            looper::pcm_completed(pcm, self.lanes_due(now, 0).jobs, now, 0) == pcm by {
            self.lemma_no_samples_due(pcm, now, 0);
        }
    }

    proof fn lemma_no_lane_due(self, now: Frame, k: int)
        requires
            0 <= k <= TRACK_COUNT,
            forall|g: Frame| #[trigger] self.scheduled(g) ==> now < g,
        ensures
            self.lanes_due(now, k) == self,
        decreases TRACK_COUNT - k,
    {
        if k < TRACK_COUNT {
            let t = self.lane(k);
            if t.stop_at is Some {
                assert(self.deck.lanes@[k].expects(t.stop_at->0));
                assert(self.scheduled(t.stop_at->0));
            }
            if t.switch_at is Some {
                assert(self.deck.lanes@[k].expects(t.switch_at->0));
                assert(self.scheduled(t.switch_at->0));
            }
            reveal(World::lane_due);
            self.lemma_no_lane_due(now, k + 1);
        }
    }

    proof fn lemma_no_job_due(self, now: Frame, k: int)
        requires
            0 <= k <= self.jobs.len(),
            forall|j: int| 0 <= j < self.jobs.len() ==> !(#[trigger] self.job_done(now, j)),
        ensures
            self.jobs_due(now, k, self.jobs.len() as int) == self,
        decreases self.jobs.len() - k,
    {
        if k < self.jobs.len() {
            assert(!self.job_done(now, k));
            self.lemma_no_job_due(now, k + 1);
        }
    }

    proof fn lemma_no_samples_due(self, pcm: Seq<Seq<Single>>, now: Frame, k: int)
        requires
            0 <= k <= self.jobs.len(),
            forall|j: int| 0 <= j < self.jobs.len() ==> !(#[trigger] self.job_done(now, j)),
        ensures
            looper::pcm_completed(pcm, self.jobs, now, k) == pcm,
        decreases self.jobs.len() - k,
    {
        if k < self.jobs.len() {
            assert(!self.job_done(now, k));
            self.lemma_no_samples_due(pcm, now, k + 1);
        }
    }
}

/// The jobs stand where they stand by their frame, however often they were looked after on the way.
pub proof fn law_jobs_may_stop_on_the_way(jobs: Seq<Option<deck::Job>>, mid: Frame, until: Frame)
    requires
        mid <= until < i64::MAX,
    ensures
        looper::jobs_advanced(looper::jobs_advanced(jobs, mid), until) == looper::jobs_advanced(jobs, until),
{
    let there = looper::jobs_advanced(looper::jobs_advanced(jobs, mid), until);
    assert forall|k: int| 0 <= k < jobs.len() implies there[k] == looper::jobs_advanced(jobs, until)[k] by {
        if jobs[k] is Some {
            let job = jobs[k]->0;
            assert(job.owed(mid) <= job.owed(until));
            assert(job.owed(mid) <= job.visit.span);
            assert(job.owed(until) <= job.visit.span);
        }
    }
    assert(there =~= looper::jobs_advanced(jobs, until));
}

/// A take's samples land where they land however its blocks fall: two parts that follow each other
/// write what the whole writes.
pub proof fn law_a_take_may_be_split(buf: Seq<Single>, at: int, first: Seq<Single>, second: Seq<Single>)
    requires
        0 <= at,
        at + first.len() + second.len() <= buf.len(),
    ensures
        ({
            let n = buf.len() as int;
            let mid = at + first.len();
            let end = mid + second.len();
            let half = buf.subrange(0, at) + first + buf.subrange(mid, n);
            half.subrange(0, mid) + second + half.subrange(end, n) == buf.subrange(0, at) + (first + second)
                + buf.subrange(end, n)
        }),
{
    let n = buf.len() as int;
    let mid = at + first.len();
    let end = mid + second.len();
    let half = buf.subrange(0, at) + first + buf.subrange(mid, n);
    assert(half.subrange(0, mid) =~= buf.subrange(0, at) + first);
    assert(half.subrange(end, n) =~= buf.subrange(end, n));
    assert(half.subrange(0, mid) + second + half.subrange(end, n) =~= buf.subrange(0, at) + (first + second)
        + buf.subrange(end, n));
}

/// An overdub's sums are the same however its blocks fall: two parts summed one after the other are the
/// whole summed at once.
pub proof fn law_a_layer_may_be_split<F: Fn(Single, Single) -> Single>(
    mix: F,
    before: Seq<Single>,
    mid: Seq<Single>,
    after: Seq<Single>,
    first: Seq<Single>,
    second: Seq<Single>,
    pos: int,
    master: int,
)
    requires
        master > 0,
        0 <= pos < master,
        pool::layered(mix, before, mid, first, pos, master),
        pool::layered(mix, mid, after, second, (pos + first.len()) % master, master),
    ensures
        pool::layered(mix, before, after, first + second, pos, master),
    decreases second.len(),
{
    if second.len() == 0 {
        assert(first + second =~= first);
    } else {
        let q = (pos + first.len()) % master;
        let p = (q + second.len() - 1) % master;
        let whole = first + second;
        let p2 = (pos + whole.len() - 1) % master;
        assert(p == p2) by {
            vstd::arithmetic::div_mod::lemma_add_mod_noop(pos + first.len(), second.len() - 1, master);
            vstd::arithmetic::div_mod::lemma_mod_twice(pos + first.len(), master);
            vstd::arithmetic::div_mod::lemma_add_mod_noop(q, second.len() - 1, master);
        }
        let (m, y) = choose|m: Seq<Single>, y: Single|
            #![trigger m.update(p, y)]
            {
                &&& pool::layered(mix, mid, m, second.drop_last(), q, master)
                &&& call_ensures(mix, (m[p], second.last()), y)
                &&& after == m.update(p, y)
            };
        law_a_layer_may_be_split(mix, before, mid, m, first, second.drop_last(), pos, master);
        assert(whole.drop_last() =~= first + second.drop_last());
        assert(whole.last() == second.last());
        assert(after == m.update(p2, y));
    }
}

} // verus!

//! The buffer pool: every lane's live and spare buffer and the free one, allocated once, and how often
//! each has been written. A reader that finds a buffer's count where it was has the buffer as it was.

use vstd::prelude::*;

use crate::autorec::{Detector, Ear};
use crate::deck::{Job, BUFFER_COUNT};
use crate::float::Single;
use crate::grid;
use crate::grid::{Frame, LOOP_LIMIT};
use crate::jobs;

verus! {

pub struct Pool {
    pub bufs: Vec<Vec<Single>>,
    /// Writes to each buffer, as far as they can be counted.
    pub writes: Vec<u64>,
    /// What each buffer has held: one entry a write, after the zeros it began with.
    pub past: Ghost<Seq<Seq<Seq<Single>>>>,
}

/// A count of so many, as far as it goes.
pub open spec fn counted(n: int) -> int {
    grid::min_int(n, u64::MAX as int)
}

/// A layer summed onto a loop: input frame after input frame from a position on, around the loop.
pub open spec fn layered<F: Fn(Single, Single) -> Single>(
    mix: F,
    before: Seq<Single>,
    after: Seq<Single>,
    input: Seq<Single>,
    pos: int,
    master: int,
) -> bool
    decreases input.len(),
{
    if input.len() == 0 {
        after == before
    } else {
        let p = (pos + input.len() - 1) % master;
        exists|mid: Seq<Single>, y: Single|
            #![trigger mid.update(p, y)]
            {
                &&& layered(mix, before, mid, input.drop_last(), pos, master)
                &&& call_ensures(mix, (mid[p], input.last()), y)
                &&& after == mid.update(p, y)
            }
    }
}

impl Pool {
    pub open spec fn pcm(&self) -> Seq<Seq<Single>> {
        jobs::samples(self.bufs@)
    }

    /// Eleven buffers of the capacity each, and their counts are those of their past.
    pub open spec fn wf(&self, capacity: int) -> bool {
        &&& self.bufs@.len() == BUFFER_COUNT
        &&& self.writes@.len() == BUFFER_COUNT
        &&& self.past@.len() == BUFFER_COUNT
        &&& forall|b: int| 0 <= b < BUFFER_COUNT ==> (#[trigger] self.bufs@[b])@.len() == capacity
        &&& forall|b: int|
            0 <= b < BUFFER_COUNT ==> (#[trigger] self.past@[b]).len() > 0 && self.past@[b].last()
                == self.bufs@[b]@ && self.writes@[b] == counted(self.past@[b].len() - 1)
    }

    /// Buffer `b` written once, no other touched.
    pub open spec fn wrote(&self, before: &Pool, b: int) -> bool {
        &&& self.past@ == before.past@.update(b, before.past@[b].push(self.pcm()[b]))
        &&& self.pcm() == before.pcm().update(b, self.pcm()[b])
    }

    /// What every buffer had held it still has held.
    pub open spec fn grew(&self, before: &Pool) -> bool {
        forall|b: int| 0 <= b < BUFFER_COUNT ==> (#[trigger] before.past@[b]).is_prefix_of(self.past@[b])
    }

    pub fn new(capacity: usize) -> (pool: Pool)
        ensures
            pool.wf(capacity as int),
            forall|b: int, p: int|
                0 <= b < BUFFER_COUNT && 0 <= p < capacity ==> (#[trigger] pool.pcm()[b][p]) == (Single { bits: 0 }),
    {
        let mut bufs: Vec<Vec<Single>> = Vec::new();
        let mut writes: Vec<u64> = Vec::new();
        let ghost zeros = Seq::new(capacity as nat, |p: int| Single { bits: 0 });
        let mut k: usize = 0;
        while k < BUFFER_COUNT
            invariant
                k <= BUFFER_COUNT,
                bufs@.len() == k,
                writes@.len() == k,
                zeros == Seq::new(capacity as nat, |p: int| Single { bits: 0 }),
                forall|b: int| 0 <= b < k ==> (#[trigger] bufs@[b])@ == zeros,
                forall|b: int| 0 <= b < k ==> (#[trigger] writes@[b]) == 0,
            decreases BUFFER_COUNT - k,
        {
            let buf = silent(capacity);
            assert(buf@ =~= zeros);
            bufs.push(buf);
            writes.push(0);
            k = k + 1;
        }
        let past: Ghost<Seq<Seq<Seq<Single>>>> = Ghost(Seq::new(BUFFER_COUNT as nat, |b: int| seq![zeros]));
        Pool { bufs, writes, past }
    }

    /// Count a write to buffer `b`, done.
    fn touch(&mut self, b: usize)
        requires
            b < BUFFER_COUNT,
            old(self).bufs@.len() == BUFFER_COUNT,
            old(self).writes@.len() == BUFFER_COUNT,
            old(self).past@.len() == BUFFER_COUNT,
            old(self).past@[b as int].len() > 0,
            old(self).writes@[b as int] == counted(old(self).past@[b as int].len() - 1),
        ensures
            final(self).bufs == old(self).bufs,
            final(self).past@ == old(self).past@.update(
                b as int,
                old(self).past@[b as int].push(old(self).bufs@[b as int]@),
            ),
            final(self).writes@ == old(self).writes@.update(
                b as int,
                counted(old(self).past@[b as int].len() as int) as u64,
            ),
    {
        let n: u64 = self.writes[b];
        self.writes[b] = if n < u64::MAX {
            n + 1
        } else {
            n
        };
        self.past = Ghost(self.past@.update(b as int, self.past@[b as int].push(self.bufs@[b as int]@)));
    }

    /// Run a job's steps from its progress up to `to`.
    pub fn run(&mut self, job: &Job, to: Frame, capacity: Frame)
        requires
            old(self).wf(capacity as int),
            capacity <= usize::MAX,
            job.wf(capacity as int),
            job.progress <= to <= job.visit.span,
        ensures
            final(self).wf(capacity as int),
            final(self).pcm() == job.moved(old(self).pcm(), job.progress as int, to as int),
            final(self).wrote(old(self), job.writes()),
    {
        let b: usize = job.target();
        jobs::run_steps(&mut self.bufs, job, to, capacity);
        proof {
            let (before, after) = (old(self).pcm(), self.pcm());
            assert(after =~= before.update(b as int, after[b as int]));
            self.lemma_others(old(self), b as int);
        }
        self.touch(b);
    }

    /// The buffers but one are those of before.
    proof fn lemma_others(&self, before: &Pool, b: int)
        requires
            0 <= b < BUFFER_COUNT,
            self.bufs@.len() == BUFFER_COUNT,
            before.bufs@.len() == BUFFER_COUNT,
            self.pcm() == before.pcm().update(b, self.pcm()[b]),
        ensures
            forall|c: int| 0 <= c < BUFFER_COUNT && c != b ==> (#[trigger] self.bufs@[c])@ == before.bufs@[c]@,
    {
        assert forall|c: int| 0 <= c < BUFFER_COUNT && c != b implies (#[trigger] self.bufs@[c])@
            == before.bufs@[c]@ by {
            assert(self.pcm()[c] == before.pcm()[c]);
        }
    }

    /// Write `input[from..to]` into buffer `b` from `at` on.
    pub fn record(&mut self, b: usize, at: usize, input: &Vec<Single>, from: usize, to: usize, capacity: Frame)
        requires
            b < BUFFER_COUNT,
            old(self).wf(capacity as int),
            from <= to <= input@.len(),
            at + (to - from) <= capacity <= usize::MAX,
        ensures
            final(self).wf(capacity as int),
            final(self).wrote(old(self), b as int),
            final(self).pcm()[b as int] == old(self).pcm()[b as int].subrange(0, at as int) + input@.subrange(
                from as int,
                to as int,
            ) + old(self).pcm()[b as int].subrange(at + (to - from), capacity as int),
    {
        let ghost before = self.pcm()[b as int];
        let mut k: usize = 0;
        while k < to - from
            invariant
                b < BUFFER_COUNT,
                from <= to <= input@.len(),
                k <= to - from,
                at + (to - from) <= capacity <= usize::MAX,
                before == old(self).pcm()[b as int],
                before.len() == capacity,
                self.writes == old(self).writes,
                self.past == old(self).past,
                self.bufs@.len() == BUFFER_COUNT,
                old(self).bufs@.len() == BUFFER_COUNT,
                forall|c: int| 0 <= c < BUFFER_COUNT && c != b ==> (#[trigger] self.bufs@[c])@ == old(self).bufs@[c]@,
                self.bufs@[b as int]@.len() == capacity,
                forall|p: int|
                    0 <= p < capacity ==> #[trigger] self.bufs@[b as int]@[p] == (if at <= p < at + k {
                        input@[from + (p - at)]
                    } else {
                        before[p]
                    }),
            decreases to - from - k,
        {
            let x: Single = input[from + k];
            self.bufs[b][at + k] = x;
            k = k + 1;
        }
        proof {
            let now = self.pcm()[b as int];
            assert(now =~= before.subrange(0, at as int) + input@.subrange(from as int, to as int) + before.subrange(
                at + (to - from),
                capacity as int,
            ));
        }
        self.touch(b);
        assert(self.pcm() =~= old(self).pcm().update(b as int, self.pcm()[b as int]));
    }

    /// Sum `input[from..to]` onto buffer `b` with `mix`, from position `pos` on, around a loop of
    /// `master` frames.
    pub fn layer<F: Fn(Single, Single) -> Single>(
        &mut self,
        b: usize,
        pos: Frame,
        master: Frame,
        input: &Vec<Single>,
        from: usize,
        to: usize,
        mix: &F,
        capacity: Frame,
    )
        requires
            b < BUFFER_COUNT,
            old(self).wf(capacity as int),
            capacity <= usize::MAX,
            0 < master <= capacity,
            master <= LOOP_LIMIT,
            0 <= pos < master,
            from <= to <= input@.len(),
            forall|x: Single, y: Single| call_requires(*mix, (x, y)),
        ensures
            final(self).wf(capacity as int),
            final(self).wrote(old(self), b as int),
            layered(
                *mix,
                old(self).pcm()[b as int],
                final(self).pcm()[b as int],
                input@.subrange(from as int, to as int),
                pos as int,
                master as int,
            ),
    {
        let ghost before = self.pcm()[b as int];
        let mut at: Frame = pos;
        let mut k: usize = from;
        assert(input@.subrange(from as int, from as int) =~= Seq::empty());
        proof {
            vstd::arithmetic::div_mod::lemma_small_mod(pos as nat, master as nat);
        }
        while k < to
            invariant
                b < BUFFER_COUNT,
                from <= k <= to <= input@.len(),
                capacity <= usize::MAX,
                0 < master <= capacity,
                master <= LOOP_LIMIT,
                0 <= pos < master,
                0 <= at < master,
                at == (pos + (k - from)) % (master as int),
                forall|x: Single, y: Single| call_requires(*mix, (x, y)),
                before == old(self).pcm()[b as int],
                self.writes == old(self).writes,
                self.past == old(self).past,
                self.bufs@.len() == BUFFER_COUNT,
                old(self).bufs@.len() == BUFFER_COUNT,
                forall|c: int| 0 <= c < BUFFER_COUNT && c != b ==> (#[trigger] self.bufs@[c])@ == old(self).bufs@[c]@,
                self.bufs@[b as int]@.len() == capacity,
                layered(
                    *mix,
                    before,
                    self.bufs@[b as int]@,
                    input@.subrange(from as int, k as int),
                    pos as int,
                    master as int,
                ),
            decreases to - k,
        {
            let ghost mid = self.bufs@[b as int]@;
            let x: Single = self.bufs[b][at as usize];
            let y: Single = mix(x, input[k]);
            self.bufs[b][at as usize] = y;
            proof {
                let more = input@.subrange(from as int, k + 1);
                assert(more.drop_last() =~= input@.subrange(from as int, k as int));
                assert(more.last() == input@[k as int]);
                assert(self.bufs@[b as int]@ == mid.update(at as int, y));
                grid::law_loop_position_advances_and_repeats(pos + (k - from), 0, master as int);
                lemma_next_mod(pos + (k - from), master as int);
            }
            at = at + 1;
            if at == master {
                at = 0;
            }
            k = k + 1;
        }
        self.touch(b);
        assert(self.pcm() =~= old(self).pcm().update(b as int, self.pcm()[b as int]));
    }

    /// AUTO's retained onset into buffer `b`, from its start.
    pub fn retain(&mut self, b: usize, detector: &mut Detector, active: Option<usize>, capacity: Frame)
        requires
            b < BUFFER_COUNT,
            old(self).wf(capacity as int),
            old(detector).wf(),
            active matches Some(a) ==> a <= old(detector).ear().heard.len(),
        ensures
            final(self).wf(capacity as int),
            final(self).wrote(old(self), b as int),
            final(detector).wf(),
            ({
                let ear = old(detector).ear();
                let start = ear.onset(active);
                let frames = grid::min_int(ear.heard.len() - start, capacity as int);
                &&& final(detector).ear() == (Ear { copied: frames as nat, ..ear })
                &&& final(self).pcm()[b as int] == ear.heard.subrange(start, start + frames)
                    + old(self).pcm()[b as int].subrange(frames, capacity as int)
            }),
    {
        detector.retain(active, &mut self.bufs[b]);
        self.touch(b);
        assert(self.pcm() =~= old(self).pcm().update(b as int, self.pcm()[b as int]));
    }

    /// Swap buffer `b` for another of the same length.
    pub fn swap(&mut self, b: usize, buf: &mut Vec<Single>, capacity: Frame)
        requires
            b < BUFFER_COUNT,
            old(self).wf(capacity as int),
            old(buf)@.len() == capacity,
        ensures
            final(self).wf(capacity as int),
            final(self).wrote(old(self), b as int),
            final(self).pcm()[b as int] == old(buf)@,
            final(buf)@ == old(self).pcm()[b as int],
    {
        std::mem::swap(&mut self.bufs[b], buf);
        self.touch(b);
        assert(self.pcm() =~= old(self).pcm().update(b as int, self.pcm()[b as int]));
    }

    /// A buffer whose count is where it was is as it was.
    pub proof fn law_an_unwritten_buffer_is_unchanged(before: &Pool, after: &Pool, b: int, capacity: int)
        requires
            before.wf(capacity),
            after.wf(capacity),
            0 <= b < BUFFER_COUNT,
            before.past@[b].is_prefix_of(after.past@[b]),
            before.writes@[b] == after.writes@[b],
            after.writes@[b] < u64::MAX,
        ensures
            after.pcm()[b] == before.pcm()[b],
    {
        assert(before.past@[b].last() == before.bufs@[b]@);
        assert(after.past@[b].last() == after.bufs@[b]@);
    }
}

/// So many samples of silence.
pub fn silent(frames: usize) -> (buf: Vec<Single>)
    ensures
        buf@ == Seq::new(frames as nat, |p: int| Single { bits: 0 }),
{
    let mut buf: Vec<Single> = Vec::new();
    let mut k: usize = 0;
    while k < frames
        invariant
            k <= frames,
            buf@.len() == k,
            forall|p: int| 0 <= p < k ==> (#[trigger] buf@[p]) == (Single { bits: 0 }),
        decreases frames - k,
    {
        buf.push(Single { bits: 0 });
        k = k + 1;
    }
    assert(buf@ =~= Seq::new(frames as nat, |p: int| Single { bits: 0 }));
    buf
}

/// A residue counts on, around.
proof fn lemma_next_mod(x: int, m: int)
    requires
        m > 0,
    ensures
        (x + 1) % m == (if x % m + 1 == m {
            0
        } else {
            x % m + 1
        }),
{
    vstd::arithmetic::div_mod::lemma_add_mod_noop(x, 1, m);
    vstd::arithmetic::div_mod::lemma_mod_bound(x, m);
    if m == 1 {
        vstd::arithmetic::div_mod::lemma_mod_bound(x + 1, m);
    } else {
        vstd::arithmetic::div_mod::lemma_small_mod(1, m as nat);
        if x % m + 1 == m {
            vstd::arithmetic::div_mod::lemma_mod_self_0(m);
        } else {
            vstd::arithmetic::div_mod::lemma_small_mod((x % m + 1) as nat, m as nat);
        }
    }
}

} // verus!

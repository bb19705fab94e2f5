//! How a long response is cut into stages that together have no latency.
//!
//! The first stage convolves directly; each one after it transforms blocks of half its FFT size, so it
//! runs half an FFT late. A delay before the stage and one behind it make up the rest of its place in the
//! response. The delays before the stages are whole quanta, one more from stage to stage, so the long
//! transforms fall on different quanta.

use vstd::prelude::*;

use crate::dsp::line::Line;
use crate::dsp::schedule::QUANTUM;
use crate::float;
use crate::float::Single;
use crate::grid;

verus! {

pub const MIN_FFT_SIZE: usize = 128;

pub const MAX_FFT_SIZE: usize = 8192;

/// A slice of the response: where it lies, the FFT it is convolved with, and the delays before and behind.
#[derive(Clone, Copy, Debug, PartialEq, Eq, Structural)]
pub struct Stage {
    pub offset: usize,
    pub length: usize,
    pub fft_size: usize,
    pub pre_delay: usize,
    pub post_delay: usize,
}

/// The FFT size of stage `k`: 128 twice (the first stage convolves directly), then doubling up to 8192.
pub open spec fn fft_of(k: int) -> int {
    if k <= 1 {
        128
    } else if k < 7 {
        seq![128int, 128, 256, 512, 1024, 2048, 4096][k]
    } else {
        8192
    }
}

/// Where stage `k` starts: half its FFT, until the FFT stops growing.
pub open spec fn offset_of(k: int) -> int {
    if k <= 0 {
        0
    } else if k < 7 {
        fft_of(k) / 2
    } else {
        4096 * (k - 6)
    }
}

/// The stages follow each other without a gap.
proof fn lemma_next_offset(k: int)
    requires
        k >= 0,
    ensures
        offset_of(k + 1) == offset_of(k) + fft_of(k) / 2,
        64 * k <= offset_of(k),
        k > 0 ==> offset_of(k) >= fft_of(k) / 2,
        fft_of(k) >= 128,
        fft_of(k + 1) == (if k == 0 {
            fft_of(k)
        } else {
            grid::min_int(2 * fft_of(k), 8192)
        }),
{
    if k < 7 {
        assert(k == 0 || k == 1 || k == 2 || k == 3 || k == 4 || k == 5 || k == 6);
    }
}

impl Stage {
    /// It convolves directly, without an FFT.
    pub open spec fn direct(self) -> bool {
        self.offset == 0
    }

    /// How late its output comes by itself.
    pub open spec fn latency(self) -> int {
        if self.direct() {
            0
        } else {
            self.fft_size as int / 2
        }
    }

    /// Stage `k` of a response of `total` frames, in a convolver that starts `phase` frames along its
    /// render phase.
    pub open spec fn is_stage(self, total: int, phase: int, k: int) -> bool {
        let rest = offset_of(k) - self.latency();
        let most = grid::min_int(self.fft_size as int / 2, rest);
        let before = if rest > 0 {
            (phase + k * QUANTUM) % most
        } else {
            0
        };
        &&& self.offset == offset_of(k)
        &&& self.fft_size == fft_of(k)
        &&& self.length == grid::min_int(fft_of(k) / 2, total - offset_of(k))
        &&& self.pre_delay == before / (QUANTUM as int) * QUANTUM
        &&& self.post_delay == rest - self.pre_delay
    }

    /// The stage at a place of the response.
    fn plan(total: usize, phase: usize, offset: usize, fft_size: usize, k: usize) -> (s: Stage)
        requires
            offset < total,
            offset == offset_of(k as int),
            fft_size == fft_of(k as int),
            phase + k * QUANTUM <= usize::MAX,
        ensures
            s.is_stage(total as int, phase as int, k as int),
            s.pre_delay + s.post_delay + s.latency() == offset,
            s.length > 0,
    {
        proof {
            lemma_next_offset(k as int);
        }
        let half: usize = fft_size / 2;
        let length: usize = if half < total - offset {
            half
        } else {
            total - offset
        };
        let rest: usize = if offset == 0 {
            0
        } else {
            offset - half
        };
        let most: usize = if half < rest {
            half
        } else {
            rest
        };
        let before: usize = if rest > 0 {
            (phase + k * QUANTUM) % most
        } else {
            0
        };
        let pre_delay: usize = before / QUANTUM * QUANTUM;
        proof {
            if k > 0 {
                assert(offset >= 64);
            }
            assert(before / QUANTUM * QUANTUM <= before) by (nonlinear_arith)
                requires
                    QUANTUM > 0,
                    before >= 0,
            ;
        }
        Stage { offset, length, fft_size, pre_delay, post_delay: rest - pre_delay }
    }
}

/// The stages of a response.
pub open spec fn is_layout(stages: Seq<Stage>, total: int, phase: int) -> bool {
    &&& forall|k: int| 0 <= k < stages.len() ==> (#[trigger] stages[k]).is_stage(total, phase, k)
    &&& offset_of(stages.len() as int) >= total
    &&& stages.len() > 0 ==> offset_of(stages.len() - 1) < total
}

/// Cut a response of `total` frames into stages.
pub fn layout(total: usize, phase: usize) -> (stages: Vec<Stage>)
    requires
        phase + 4 * total + 2 * MAX_FFT_SIZE <= usize::MAX,
    ensures
        is_layout(stages@, total as int, phase as int),
{
    let mut stages: Vec<Stage> = Vec::new();
    let mut offset: usize = 0;
    let mut k: usize = 0;
    let mut fft_size: usize = MIN_FFT_SIZE;
    while offset < total
        invariant
            phase + 4 * total + 2 * MAX_FFT_SIZE <= usize::MAX,
            k == stages@.len(),
            fft_size == fft_of(k as int),
            offset == grid::min_int(offset_of(k as int), total as int),
            64 * k <= offset_of(k as int),
            k > 0 ==> offset_of(k - 1) < total,
            forall|j: int| 0 <= j < k ==> (#[trigger] stages@[j]).is_stage(total as int, phase as int, j),
        decreases total - offset,
    {
        proof {
            lemma_next_offset(k as int);
            lemma_next_offset(k + 1);
        }
        let stage = Stage::plan(total, phase, offset, fft_size, k);
        stages.push(stage);
        // The direct stage leaves the first FFT stage at the smallest size.
        if offset != 0 {
            fft_size = if 2 * fft_size < MAX_FFT_SIZE {
                2 * fft_size
            } else {
                MAX_FFT_SIZE
            };
        }
        offset = offset + stage.length;
        k = k + 1;
    }
    stages
}

/// No stage is late: its own latency and its two delays are its place in the response.
pub proof fn law_no_stage_is_late(stages: Seq<Stage>, total: int, phase: int, k: int)
    requires
        is_layout(stages, total, phase),
        phase >= 0,
        0 <= k < stages.len(),
    ensures
        stages[k].latency() + stages[k].pre_delay + stages[k].post_delay == stages[k].offset,
        stages[k].pre_delay % QUANTUM == 0,
{
    assert(stages[k].is_stage(total, phase, k));
}

/// The stages cover the response: every frame of it lies in one of them, and in no other.
pub proof fn law_the_stages_cover_the_response(stages: Seq<Stage>, total: int, phase: int, p: int)
    requires
        is_layout(stages, total, phase),
        0 <= p < total,
    ensures
        exists|k: int|
            0 <= k < stages.len() && (#[trigger] stages[k]).offset <= p < stages[k].offset + stages[k].length,
        forall|j: int, k: int|
            0 <= j < stages.len() && 0 <= k < stages.len() && (#[trigger] stages[j]).offset <= p < stages[j].offset
                + stages[j].length && (#[trigger] stages[k]).offset <= p < stages[k].offset + stages[k].length ==> j
                == k,
{
    lemma_found(p, stages.len() as int);
    let k = choose|k: int| 0 <= k < stages.len() && offset_of(k) <= p < #[trigger] offset_of(k + 1);
    lemma_next_offset(k);
    assert(stages[k].is_stage(total, phase, k));
    assert forall|i: int, j: int|
        0 <= i < stages.len() && 0 <= j < stages.len() && (#[trigger] stages[i]).offset <= p < stages[i].offset
            + stages[i].length && (#[trigger] stages[j]).offset <= p < stages[j].offset + stages[j].length implies i
        == j by {
        assert(stages[i].is_stage(total, phase, i));
        assert(stages[j].is_stage(total, phase, j));
        lemma_next_offset(i);
        lemma_next_offset(j);
        if i < j {
            lemma_offsets_grow(i + 1, j);
        }
        if j < i {
            lemma_offsets_grow(j + 1, i);
        }
    }
}

/// A frame before the end of `n` stages lies in one of them.
proof fn lemma_found(p: int, n: int)
    requires
        0 <= p < offset_of(n),
        n >= 0,
    ensures
        exists|k: int| 0 <= k < n && offset_of(k) <= p < #[trigger] offset_of(k + 1),
    decreases n,
{
    if n > 0 {
        if p < offset_of(n - 1) {
            lemma_found(p, n - 1);
            let k = choose|k: int| 0 <= k < n - 1 && offset_of(k) <= p < #[trigger] offset_of(k + 1);
            assert(0 <= k < n && offset_of(k) <= p < offset_of(k + 1));
        } else {
            assert(offset_of(n - 1) <= p < offset_of((n - 1) + 1));
        }
    }
}

proof fn lemma_offsets_grow(i: int, j: int)
    requires
        0 <= i <= j,
    ensures
        offset_of(i) <= offset_of(j),
    decreases j - i,
{
    if i < j {
        lemma_next_offset(j - 1);
        lemma_offsets_grow(i, j - 1);
    }
}

// ── The sum of the stages ──────────────────────────────────────────────────────────────────────────

/// The stages sum into it, each at its delay; the convolver reads its front and moves on.
pub struct Accumulation {
    line: Line,
}

impl Accumulation {
    pub closed spec fn wf(&self) -> bool {
        self.line.wf()
    }

    /// What is still to come out, the next frame first.
    pub closed spec fn view(&self) -> Seq<Single> {
        self.line@
    }

    /// Room for a response of `total` frames and the quantum that is summed.
    pub fn new(total: usize) -> (a: Self)
        requires
            total + QUANTUM <= usize::MAX,
        ensures
            a.wf(),
            a@ == Seq::new((total + QUANTUM) as nat, |k: int| float::silence()),
    {
        Accumulation { line: Line::new(total + QUANTUM) }
    }

    /// Sum a stage's output onto what comes out from `delay` frames on.
    pub fn accumulate<F: Fn(Single, Single) -> Single>(&mut self, source: &Vec<Single>, delay: usize, mix: &F)
        requires
            old(self).wf(),
            delay + source@.len() <= old(self)@.len(),
            forall|x: Single, y: Single| call_requires(*mix, (x, y)),
        ensures
            final(self).wf(),
            final(self)@.len() == old(self)@.len(),
            forall|k: int|
                0 <= k < source@.len() ==> call_ensures(
                    *mix,
                    (old(self)@[delay + k], source@[k]),
                    #[trigger] final(self)@[delay + k],
                ),
            forall|k: int|
                0 <= k < old(self)@.len() && !(delay <= k < delay + source@.len()) ==> #[trigger] final(self)@[k]
                    == old(self)@[k],
    {
        let n: usize = self.line.len();
        let mut i: usize = 0;
        while i < source.len()
            invariant
                self.wf(),
                n == self@.len() == old(self)@.len(),
                delay + source@.len() <= n,
                i <= source@.len(),
                forall|x: Single, y: Single| call_requires(*mix, (x, y)),
                forall|k: int|
                    0 <= k < i ==> call_ensures(
                        *mix,
                        (old(self)@[delay + k], source@[k]),
                        #[trigger] self@[delay + k],
                    ),
                forall|k: int| 0 <= k < n && !(delay <= k < delay + i) ==> #[trigger] self@[k] == old(self)@[k],
            decreases source@.len() - i,
        {
            let ghost before = self@;
            assert(before[delay + i] == old(self)@[delay + i]);
            self.line.sum(delay + i, source[i], mix);
            assert forall|k: int| 0 <= k < i implies call_ensures(
                *mix,
                (old(self)@[delay + k], source@[k]),
                #[trigger] self@[delay + k],
            ) by {
                assert(self@[delay + k] == before[delay + k]);
            }
            i = i + 1;
        }
    }

    /// The next `count` frames, out of the way.
    pub fn read_and_clear(&mut self, count: usize) -> (out: Vec<Single>)
        requires
            old(self).wf(),
            count <= old(self)@.len(),
        ensures
            final(self).wf(),
            out@ == old(self)@.subrange(0, count as int),
            final(self)@ == old(self)@.skip(count as int) + Seq::new(count as nat, |k: int| float::silence()),
    {
        let mut out: Vec<Single> = Vec::new();
        let mut i: usize = 0;
        assert(self@ =~= old(self)@.skip(0) + Seq::new(0nat, |k: int| float::silence()));
        while i < count
            invariant
                self.wf(),
                i <= count <= old(self)@.len(),
                out@ == old(self)@.subrange(0, i as int),
                self@ == old(self)@.skip(i as int) + Seq::new(i as nat, |k: int| float::silence()),
            decreases count - i,
        {
            let x: Single = self.line.shift(Single { bits: 0 });
            out.push(x);
            i = i + 1;
            assert(out@ =~= old(self)@.subrange(0, i as int));
            assert(self@ =~= old(self)@.skip(i as int) + Seq::new(i as nat, |k: int| float::silence()));
        }
        out
    }
}

} // verus!

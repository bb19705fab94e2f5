//! Playing a buffer: the states of a source, the shape of its fades, and where it reads at its own rate.

use vstd::arithmetic::div_mod::{lemma_fundamental_div_mod, lemma_fundamental_div_mod_converse};
use vstd::prelude::*;

pub use crate::dsp::schedule::PlaybackState;

verus! {

/// The fade of a one-shot source.
#[derive(Clone, Copy, Debug, PartialEq, Eq, Structural)]
pub enum FadeCurve {
    Linear,
    Exponential,
}

/// The part of a buffer a source plays, in frames: it ends before `end`, and a looping source goes back
/// `delta` frames there.
#[derive(Clone, Copy, Debug, PartialEq, Eq, Structural)]
pub struct Region {
    pub delta: usize,
    pub end: usize,
    pub looping: bool,
}

/// How a stretch ended: the output index behind what was copied, the frame read next, and whether the
/// source has nothing more to play.
#[derive(Clone, Copy, Debug, PartialEq, Eq, Structural)]
pub struct Stretch {
    pub written: usize,
    pub read: usize,
    pub finished: bool,
}

/// The remainder of a number one larger.
proof fn lemma_next_remainder(x: int, d: int)
    requires
        0 <= x,
        0 < d,
    ensures
        x % d + 1 < d ==> (x + 1) % d == x % d + 1,
        x % d + 1 == d ==> (x + 1) % d == 0,
        0 <= x % d < d,
{
    lemma_fundamental_div_mod(x, d);
    if x % d + 1 < d {
        assert(x + 1 == (x / d) * d + (x % d + 1)) by (nonlinear_arith)
            requires
                x == d * (x / d) + x % d,
        ;
        lemma_fundamental_div_mod_converse(x + 1, d, x / d, x % d + 1);
    } else {
        assert(x + 1 == (x / d + 1) * d + 0) by (nonlinear_arith)
            requires
                x == d * (x / d) + x % d,
                x % d + 1 == d,
        ;
        lemma_fundamental_div_mod_converse(x + 1, d, x / d + 1, 0);
    }
}

impl Region {
    /// Frames left before the end.
    pub open spec fn left(self, read: int) -> int {
        if read < self.end {
            self.end - read
        } else {
            0
        }
    }

    /// The frame a looping source reads `k` frames after `read`.
    pub open spec fn around(self, read: int, k: int) -> int {
        if read + k < self.end {
            read + k
        } else {
            self.end - self.delta + (read + k - self.end) % (self.delta as int)
        }
    }

    /// The frame heard `k` frames after `read`, or `None` for silence.
    pub open spec fn heard(self, read: int, k: int) -> Option<int> {
        if read + k < self.end {
            Some(read + k)
        } else if self.looping {
            Some(self.around(read, k))
        } else {
            None
        }
    }

    /// How a stretch of `todo` frames from `read` ends, in a buffer of `len` frames, written from `at` on.
    pub open spec fn stretch(self, len: int, read: int, at: int, todo: int) -> (int, int, bool) {
        let n = if todo < self.left(read) {
            todo
        } else {
            self.left(read)
        };
        if todo == 0 {
            (at, read, false)
        } else if self.delta == 0 {
            (at + n, read + n, true)
        } else if self.looping {
            (at + todo, self.around(read, todo), false)
        } else if read + n >= self.end {
            (at + n, if read + n < len {
                read + n
            } else {
                len
            }, true)
        } else {
            (at + n, read + n, false)
        }
    }

    /// Copy `todo` frames of `source` from `read` on to `out`, from index `at` on, at the buffer's own
    /// rate: round the loop, or into silence behind the end. A region of no frames plays only what is
    /// left before its end.
    pub fn play<T: Copy>(&self, source: &[T], read: usize, out: &mut [T], at: usize, todo: usize, silence: T) -> (r: Stretch)
        requires
            self.delta <= self.end <= source@.len(),
            read + todo <= usize::MAX,
            at + todo <= old(out)@.len(),
        ensures
            (r.written as int, r.read as int, r.finished) == self.stretch(
                source@.len() as int,
                read as int,
                at as int,
                todo as int,
            ),
            final(out)@.len() == old(out)@.len(),
            forall|j: int|
                0 <= j < old(out)@.len() && !(at <= j < at + todo) ==> #[trigger] final(out)@[j] == old(out)@[j],
            forall|k: int|
                0 <= k < todo ==> #[trigger] final(out)@[at + k] == (if read + k < self.end {
                    source@[read + k]
                } else if self.delta == 0 {
                    old(out)@[at + k]
                } else if self.looping {
                    source@[self.around(read as int, k)]
                } else {
                    silence
                }),
    {
        let room: usize = out.len();
        let mut cur: usize = read;
        let mut k: usize = 0;
        let before: usize = if read >= self.end {
            0
        } else if todo < self.end - read {
            todo
        } else {
            self.end - read
        };
        while k < before
            invariant
                before <= todo,
                before <= self.left(read as int),
                k <= before,
                cur == read + k,
                self.end <= source@.len(),
                at + todo <= room == out@.len(),
                out@.len() == old(out)@.len(),
                forall|j: int|
                    0 <= j < out@.len() && !(at <= j < at + k) ==> #[trigger] out@[j] == old(out)@[j],
                forall|i: int| 0 <= i < k ==> #[trigger] out@[at + i] == source@[read + i],
            decreases before - k,
        {
            let ghost was = out@;
            out[at + k] = source[cur];
            assert(out@ == was.update(at + k as int, source@[cur as int]));
            cur = cur + 1;
            k = k + 1;
        }
        if todo == 0 {
            return Stretch { written: at, read, finished: false };
        }
        if self.delta == 0 {
            return Stretch { written: at + before, read: cur, finished: true };
        }
        if !self.looping {
            if cur < self.end {
                return Stretch { written: at + before, read: cur, finished: false };
            }
            while k < todo
                invariant
                    before <= k <= todo,
                    before == self.left(read as int),
                    at + todo <= room == out@.len(),
                    out@.len() == old(out)@.len(),
                    forall|j: int|
                        0 <= j < out@.len() && !(at <= j < at + k) ==> #[trigger] out@[j] == old(out)@[j],
                    forall|i: int| 0 <= i < before ==> #[trigger] out@[at + i] == source@[read + i],
                    forall|i: int| before <= i < k ==> #[trigger] out@[at + i] == silence,
                decreases todo - k,
            {
                let ghost was = out@;
                out[at + k] = silence;
                assert(out@ == was.update(at + k as int, silence));
                k = k + 1;
            }
            let len: usize = source.len();
            return Stretch {
                written: at + before,
                read: if cur < len {
                    cur
                } else {
                    len
                },
                finished: true,
            };
        }
        if cur >= self.end {
            cur = self.end - self.delta + (cur - self.end) % self.delta;
        }
        assert(cur == self.around(read as int, k as int));
        while k < todo
            invariant
                before <= k <= todo,
                k < todo ==> before == self.left(read as int),
                0 < self.delta <= self.end <= source@.len(),
                self.looping,
                read + todo <= usize::MAX,
                cur == self.around(read as int, k as int),
                cur < self.end,
                at + todo <= room == out@.len(),
                out@.len() == old(out)@.len(),
                forall|j: int|
                    0 <= j < out@.len() && !(at <= j < at + k) ==> #[trigger] out@[j] == old(out)@[j],
                forall|i: int|
                    0 <= i < k ==> #[trigger] out@[at + i] == source@[self.around(read as int, i)],
            decreases todo - k,
        {
            let ghost was = out@;
            out[at + k] = source[cur];
            assert(out@ == was.update(at + k as int, source@[cur as int]));
            proof {
                if read + k >= self.end {
                    lemma_next_remainder(read + k - self.end, self.delta as int);
                } else {
                    assert(0int % (self.delta as int) == 0) by (nonlinear_arith)
                        requires
                            self.delta > 0,
                    ;
                }
            }
            cur = if cur + 1 == self.end {
                self.end - self.delta
            } else {
                cur + 1
            };
            k = k + 1;
        }
        Stretch { written: at + todo, read: cur, finished: false }
    }

    /// A looping source plays the same frames again every `delta` frames, from the loop's end on.
    pub proof fn law_a_loop_repeats(self, read: int, k: int)
        requires
            self.looping,
            0 < self.delta <= self.end,
            0 <= read,
            self.end <= read + k,
        ensures
            self.heard(read, k + self.delta) == self.heard(read, k),
            self.heard(read, k) is Some,
            self.end - self.delta <= self.heard(read, k)->0 < self.end,
    {
        let x = read + k - self.end;
        let d = self.delta as int;
        lemma_fundamental_div_mod(x, d);
        assert(x + d == (x / d + 1) * d + x % d) by (nonlinear_arith)
            requires
                x == d * (x / d) + x % d,
        ;
        lemma_fundamental_div_mod_converse(x + d, d, x / d + 1, x % d);
    }
}

} // verus!

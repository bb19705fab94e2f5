//! The AUTO REC onset detector, where a first take starts on a level trigger instead of a count-in. Every
//! buffer is allocated in `new`; listening allocates nothing.
//!
//! The levels are sums of squares the caller computes; which samples and squares are still in reach,
//! when the level has risen far enough, and where the retained onset begins, is decided here.

use vstd::prelude::*;

use crate::float::{Double, Single};

verus! {

pub const DEFAULT_SENSITIVITY: u32 = 50;

pub const MIN_SENSITIVITY: u32 = 1;

pub const MAX_SENSITIVITY: u32 = 100;

/// The look-back, and the window the level is taken over, in milliseconds.
pub const LOOKBACK_MS: u64 = 40;

pub const ANALYSIS_MS: u64 = 4;

/// `ms` milliseconds at a rate, rounded half up to frames.
pub open spec fn frames_in(ms: int, rate: int) -> int {
    (rate * ms * 2 + 1000) / 2000
}

/// What the detector has in its ears: the samples it could still give a take, oldest first, and the
/// squares its level sums.
#[verifier::ext_equal]
pub struct Ear {
    pub lookback: nat,
    pub analysis: nat,
    pub heard: Seq<Single>,
    pub squares: Seq<Double>,
    pub sum: Double,
    pub copied: nat,
}

/// `s` with `x` behind it, at most `most` long: the oldest leaves first.
pub open spec fn slide<T>(s: Seq<T>, x: T, most: nat) -> Seq<T> {
    if s.len() < most {
        s.push(x)
    } else {
        s.push(x).subrange(1, s.len() as int + 1)
    }
}

impl Ear {
    pub open spec fn deaf(self) -> Ear {
        Ear {
            heard: Seq::empty(),
            squares: Seq::empty(),
            sum: Double { bits: 0 },
            copied: 0,
            ..self
        }
    }

    pub open spec fn after(self, sample: Single, square: Double, sum: Double) -> Ear {
        Ear {
            heard: slide(self.heard, sample, self.lookback),
            squares: slide(self.squares, square, self.analysis),
            sum,
            copied: 0,
            ..self
        }
    }

    /// Where the retained onset begins: one analysis block before the first soft activity, never at the
    /// full history blindly.
    pub open spec fn onset(self, active: Option<usize>) -> int {
        let block = match active {
            Some(b) => b as int,
            None => self.heard.len() as int,
        };
        if block >= self.analysis {
            block - self.analysis
        } else {
            0
        }
    }
}

pub struct Detector {
    history: Vec<Single>,
    energy_window: Vec<Double>,
    history_write: usize,
    history_fill: usize,
    energy_write: usize,
    energy_fill: usize,
    energy_sum: Double,
    copied: usize,
}

/// The contents of a ring of which the last `fill` writes before `write` count, oldest first.
pub open spec fn ring<T>(data: Seq<T>, write: int, fill: int) -> Seq<T> {
    Seq::new(fill as nat, |k: int| data[(write + data.len() - fill + k) % (data.len() as int)])
}

/// Writing the next slot of a ring slides its contents on.
proof fn lemma_ring_slides<T>(data: Seq<T>, write: int, fill: int, x: T)
    requires
        0 <= write < data.len(),
        0 <= fill <= data.len(),
    ensures
        ring(
            data.update(write, x),
            (write + 1) % (data.len() as int),
            if fill < data.len() {
                fill + 1
            } else {
                fill
            },
        ) =~= slide(ring(data, write, fill), x, data.len()),
{
    let len = data.len() as int;
    let next = (write + 1) % len;
    let (after, fill2) = (
        data.update(write, x),
        if fill < len {
            fill + 1
        } else {
            fill
        },
    );
    let new = ring(after, next, fill2);
    let old = ring(data, write, fill);
    assert forall|k: int| 0 <= k < fill2 implies new[k] == slide(old, x, data.len())[k] by {
        let j = if fill < len {
            k
        } else {
            k + 1
        };
        // The slot of entry k after the write is that of entry j before it (or the one just written).
        let (a, b) = (next + len - fill2 + k, write + len - fill + j);
        if write + 1 == len {
            assert(next == 0) by {
                vstd::arithmetic::div_mod::lemma_mod_self_0(len);
            }
            assert(a + len == b);
            vstd::arithmetic::div_mod::lemma_mod_add_multiples_vanish(a, len);
        } else {
            vstd::arithmetic::div_mod::lemma_small_mod((write + 1) as nat, len as nat);
            assert(a == b);
        }
        assert(a % len == b % len);
        if j == fill {
            vstd::arithmetic::div_mod::lemma_mod_add_multiples_vanish(write, len);
            vstd::arithmetic::div_mod::lemma_small_mod(write as nat, len as nat);
            assert(b % len == write);
        } else {
            assert(b % len != write) by {
                let d = fill - j;
                assert(0 < d <= len);
                // b == write + len - d
                if d <= write {
                    vstd::arithmetic::div_mod::lemma_mod_add_multiples_vanish(write - d, len);
                    vstd::arithmetic::div_mod::lemma_small_mod((write - d) as nat, len as nat);
                } else if d < len {
                    vstd::arithmetic::div_mod::lemma_small_mod((write + len - d) as nat, len as nat);
                } else {
                    vstd::arithmetic::div_mod::lemma_small_mod(write as nat, len as nat);
                }
            }
        }
    }
}

impl Detector {
    pub closed spec fn wf(&self) -> bool {
        &&& self.history@.len() >= 1
        &&& self.energy_window@.len() >= 1
        &&& self.history_write < self.history@.len()
        &&& self.history_fill <= self.history@.len()
        &&& self.energy_write < self.energy_window@.len()
        &&& self.energy_fill <= self.energy_window@.len()
        &&& 2 * self.history@.len() <= usize::MAX
        &&& 2 * self.energy_window@.len() <= usize::MAX
    }

    pub closed spec fn ear(&self) -> Ear {
        Ear {
            lookback: self.history@.len(),
            analysis: self.energy_window@.len(),
            heard: ring(self.history@, self.history_write as int, self.history_fill as int),
            squares: ring(self.energy_window@, self.energy_write as int, self.energy_fill as int),
            sum: self.energy_sum,
            copied: self.copied as nat,
        }
    }

    /// It keeps no more than its look-back, which is that of a rate.
    pub open spec fn keeps_look_back(&self, sample_rate: u32) -> bool {
        &&& self.ear().heard.len() <= self.ear().lookback
        &&& self.ear().lookback <= crate::grid::max_int(frames_in(LOOKBACK_MS as int, sample_rate as int), 1)
    }

    /// An ear that has heard nothing: a look-back of 40 ms and a level over 4 ms, at least one frame each;
    /// a rate of 0 stands for 48 kHz.
    pub open spec fn fresh(sample_rate: u32) -> Ear {
        let rate = if sample_rate > 0 {
            sample_rate as int
        } else {
            48000
        };
        let analysis = crate::grid::max_int(frames_in(ANALYSIS_MS as int, rate), 1) as nat;
        let lookback = crate::grid::max_int(frames_in(LOOKBACK_MS as int, rate), analysis as int) as nat;
        Ear {
            lookback,
            analysis,
            heard: Seq::empty(),
            squares: Seq::empty(),
            sum: Double { bits: 0 },
            copied: 0,
        }
    }

    pub fn new(sample_rate: u32) -> (d: Self)
        ensures
            d.wf(),
            d.ear() == Detector::fresh(sample_rate),
    {
        let rate: u64 = if sample_rate > 0 {
            sample_rate as u64
        } else {
            48000
        };
        let mut analysis: usize = ((rate * ANALYSIS_MS * 2 + 1000) / 2000) as usize;
        if analysis < 1 {
            analysis = 1;
        }
        let mut lookback: usize = ((rate * LOOKBACK_MS * 2 + 1000) / 2000) as usize;
        if lookback < analysis {
            lookback = analysis;
        }
        let mut history: Vec<Single> = Vec::new();
        while history.len() < lookback
            invariant
                history@.len() <= lookback,
            decreases lookback - history@.len(),
        {
            history.push(Single { bits: 0 });
        }
        let mut energy_window: Vec<Double> = Vec::new();
        while energy_window.len() < analysis
            invariant
                energy_window@.len() <= analysis,
            decreases analysis - energy_window@.len(),
        {
            energy_window.push(Double { bits: 0 });
        }
        let d = Detector {
            history,
            energy_window,
            history_write: 0,
            history_fill: 0,
            energy_write: 0,
            energy_fill: 0,
            energy_sum: Double { bits: 0 },
            copied: 0,
        };
        assert(d.ear().heard =~= Seq::empty());
        assert(d.ear().squares =~= Seq::empty());
        d
    }

    /// A fresh arm: older audio and partial RMS state cannot cross this point. Also called at a gap in
    /// the input (an xrun), so a retained onset is always one contiguous run of input.
    pub fn reset(&mut self)
        requires
            old(self).wf(),
        ensures
            final(self).wf(),
            final(self).ear() == old(self).ear().deaf(),
    {
        self.history_write = 0;
        self.history_fill = 0;
        self.energy_write = 0;
        self.energy_fill = 0;
        self.energy_sum = Double { bits: 0 };
        self.copied = 0;
        assert(self.ear() =~= old(self).ear().deaf());
    }

    /// Look-back frames the last trigger copied.
    pub fn copied(&self) -> (n: usize)
        ensures
            n == self.ear().copied,
    {
        self.copied
    }

    /// Frames the level is taken over.
    pub fn analysis(&self) -> (n: usize)
        ensures
            n == self.ear().analysis,
    {
        self.energy_window.len()
    }

    /// The sum of the squares in the window.
    pub fn energy(&self) -> (sum: Double)
        ensures
            sum == self.ear().sum,
    {
        self.energy_sum
    }

    /// The square that leaves the window with the next sample, once the window is full.
    pub fn leaving(&self) -> (square: Option<Double>)
        requires
            self.wf(),
        ensures
            square is Some <==> self.ear().squares.len() == self.ear().analysis,
            square matches Some(s) ==> s == self.ear().squares[0],
    {
        if self.energy_fill == self.energy_window.len() {
            proof {
                vstd::arithmetic::div_mod::lemma_small_mod(
                    self.energy_write as nat,
                    self.energy_window@.len(),
                );
            }
            Some(self.energy_window[self.energy_write])
        } else {
            None
        }
    }

    /// Hear one sample: `square` is its square, `sum` the sum of the squares in the window with it (the
    /// leaving one taken off). True once a full window's sum reaches `required`.
    pub fn hear(&mut self, sample: Single, square: Double, sum: Double, required: Double) -> (loud: bool)
        requires
            old(self).wf(),
        ensures
            final(self).wf(),
            final(self).ear() == old(self).ear().after(sample, square, sum),
            loud == (final(self).ear().squares.len() == final(self).ear().analysis && sum.is_number()
                && required.is_number() && sum.rank() >= required.rank()),
    {
        proof {
            lemma_ring_slides(self.history@, self.history_write as int, self.history_fill as int, sample);
            lemma_ring_slides(self.energy_window@, self.energy_write as int, self.energy_fill as int, square);
        }
        self.copied = 0;
        let write: usize = self.history_write;
        self.history[write] = sample;
        self.history_write = (write + 1) % self.history.len();
        if self.history_fill < self.history.len() {
            self.history_fill = self.history_fill + 1;
        }
        let at: usize = self.energy_write;
        self.energy_window[at] = square;
        self.energy_write = (at + 1) % self.energy_window.len();
        if self.energy_fill < self.energy_window.len() {
            self.energy_fill = self.energy_fill + 1;
        }
        self.energy_sum = sum;
        assert(self.ear() =~= old(self).ear().after(sample, square, sum));
        self.energy_fill == self.energy_window.len() && sum.at_least(required)
    }

    /// How many samples the history holds.
    pub fn heard(&self) -> (n: usize)
        ensures
            n == self.ear().heard.len(),
    {
        self.history_fill
    }

    /// Sample `index` of the history, oldest first.
    pub fn history_at(&self, index: usize) -> (sample: Single)
        requires
            self.wf(),
            index < self.ear().heard.len(),
        ensures
            sample == self.ear().heard[index as int],
    {
        let len: usize = self.history.len();
        proof {
            let x = self.history_write + len - self.history_fill;
            assert(x + index < 2 * len);
        }
        let from: usize = self.history_write + (len - self.history_fill);
        let at: usize = if from >= len {
            from - len + index
        } else {
            from + index
        };
        proof {
            if from >= len {
                vstd::arithmetic::div_mod::lemma_mod_add_multiples_vanish(at as int, len as int);
            }
        }
        self.history[at % len]
    }

    /// Start one analysis block before the first soft activity (`active`, the first block that has any),
    /// never at the full history blindly.
    pub fn onset_start(&self, active: Option<usize>) -> (start: usize)
        requires
            self.wf(),
        ensures
            start == self.ear().onset(active),
    {
        let block: usize = match active {
            Some(b) => b,
            None => self.history_fill,
        };
        if block >= self.energy_window.len() {
            block - self.energy_window.len()
        } else {
            0
        }
    }

    /// On a trigger: copy the retained onset into `output`, as far as it fits.
    pub fn retain(&mut self, active: Option<usize>, output: &mut Vec<Single>)
        requires
            old(self).wf(),
            active matches Some(b) ==> b <= old(self).ear().heard.len(),
        ensures
            final(self).wf(),
            ({
                let ear = old(self).ear();
                let start = ear.onset(active);
                let frames = crate::grid::min_int(ear.heard.len() - start, old(output)@.len() as int);
                &&& final(self).ear() == (Ear { copied: frames as nat, ..ear })
                &&& final(output)@ =~= ear.heard.subrange(start, start + frames) + old(output)@.subrange(
                    frames,
                    old(output)@.len() as int,
                )
            }),
    {
        let start: usize = self.onset_start(active);
        let mut frames: usize = self.history_fill - start;
        if frames > output.len() {
            frames = output.len();
        }
        let mut k: usize = 0;
        while k < frames
            invariant
                k <= frames <= output@.len(),
                output@.len() == old(output)@.len(),
                self.wf(),
                self.ear() == old(self).ear(),
                start + frames <= self.ear().heard.len(),
                forall|j: int| 0 <= j < k ==> output@[j] == self.ear().heard[start + j],
                forall|j: int| k <= j < output@.len() ==> output@[j] == old(output)@[j],
            decreases frames - k,
        {
            output[k] = self.history_at(start + k);
            k = k + 1;
        }
        self.copied = frames;
        assert(self.ear() =~= (Ear { copied: frames as nat, ..old(self).ear() }));
    }
}

// ── What the detector promises ─────────────────────────────────────────────────────────────────────

/// So many milliseconds are the nearest number of frames.
pub proof fn law_frames_are_the_nearest(ms: int, rate: int)
    ensures
        -1000 <= 2 * (rate * ms - 1000 * frames_in(ms, rate)) < 1000,
{
}

/// The ear after a run of samples, each with its square and the level with it.
pub open spec fn after_all(ear: Ear, run: Seq<(Single, Double, Double)>) -> Ear
    decreases run.len(),
{
    if run.len() == 0 {
        ear
    } else {
        let last = run.last();
        after_all(ear, run.drop_last()).after(last.0, last.1, last.2)
    }
}

/// Whatever was heard before, the ear holds the last samples of a run in the order they came, as many as the
/// look-back reaches, and their squares as far as the level is taken; a fresh arm holds nothing older.
pub proof fn law_the_ear_holds_the_last_samples(ear: Ear, run: Seq<(Single, Double, Double)>, k: int)
    requires
        ear.lookback >= 1,
        ear.analysis >= 1,
        run.len() > 0,
    ensures
        ({
            let after = after_all(ear.deaf(), run);
            let n = run.len() as int;
            let held = crate::grid::min_int(n, ear.lookback as int);
            let summed = crate::grid::min_int(n, ear.analysis as int);
            &&& after.lookback == ear.lookback
            &&& after.analysis == ear.analysis
            &&& after.heard.len() == held
            &&& after.squares.len() == summed
            &&& 0 <= k < held ==> after.heard[k] == run[n - held + k].0
            &&& 0 <= k < summed ==> after.squares[k] == run[n - summed + k].1
            &&& after.sum == run.last().2
            &&& after.copied == 0
        }),
    decreases run.len(),
{
    let head = run.drop_last();
    let n = run.len() as int;
    if n > 1 {
        law_the_ear_holds_the_last_samples(ear, head, k);
        law_the_ear_holds_the_last_samples(ear, head, k + 1);
    } else {
        assert(after_all(ear.deaf(), head) == ear.deaf());
    }
}

/// The onset that is kept begins one block of the level before the first activity, or as far back as was heard; with
/// none found, one block before the trigger. What was active is never cut.
pub proof fn law_the_onset_begins_a_block_before_the_activity(ear: Ear, active: Option<usize>)
    requires
        active matches Some(b) ==> b <= ear.heard.len(),
    ensures
        ({
            let start = ear.onset(active);
            let from = match active {
                Some(b) => b as int,
                None => ear.heard.len() as int,
            };
            &&& 0 <= start <= from
            &&& from - start <= ear.analysis
            &&& start > 0 ==> from - start == ear.analysis
        }),
{
}

} // verus!

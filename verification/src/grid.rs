//! The pure grid arithmetic, in device frames: bar length, the whole-bar clamps, the commit and stop
//! plans that turn a raw take into a master loop, a later take's bar count (a multiply past the master),
//! the beat grid the click and the beat LED read, and the later-take tiling map.
//!
//! Every time here is an integer device frame; the only fractional quantity is a beat period, which a
//! [`Grid`] carries as an exact ratio so a beat never drifts off the loop it belongs to.

use vstd::prelude::*;

use crate::float::Double;

verus! {

/// An absolute device frame (or a frame count). Signed so differences need no casts.
pub type Frame = i64;

/// First-track count-in: one bar of forced-audible click before the take begins.
pub const COUNT_IN_BEATS: u64 = 4;

pub const BEATS_PER_BAR: u64 = 4;

pub const MIN_BPM: u32 = 40;

pub const MAX_BPM: u32 = 300;

/// The device frames the engine runs at: `-HORIZON ..= HORIZON`, 2^50 either way (185 years at
/// 192 kHz), so that no sum of a few of them leaves 64 bits.
pub const HORIZON: Frame = 0x4_0000_0000_0000;

/// Four horizons: every frame the engine stores lies within.
pub const FAR: Frame = 0x10_0000_0000_0000;

/// 2^40: more frames than any loop buffer, and than a beat lasts.
pub const LOOP_LIMIT: Frame = 0x100_0000_0000;

/// A frame the engine can be at.
pub open spec fn near(f: int) -> bool {
    -HORIZON <= f <= HORIZON
}

/// A frame the engine can have stored.
pub open spec fn storable(f: int) -> bool {
    -FAR <= f <= FAR
}

/// The integer tempo the transport runs at for a requested one.
pub open spec fn transport_bpm(bpm: Double) -> u32 {
    if !bpm.finite() || bpm.rounded() < MIN_BPM {
        MIN_BPM
    } else if bpm.rounded() > MAX_BPM {
        MAX_BPM
    } else {
        bpm.rounded() as u32
    }
}

/// Clamp and round a requested tempo to the integer range the transport runs at.
pub fn clamp_bpm(bpm: Double) -> (r: u32)
    ensures
        r == transport_bpm(bpm),
        MIN_BPM <= r <= MAX_BPM,
{
    if !bpm.is_finite() {
        return MIN_BPM;
    }
    bpm.round_within(MIN_BPM, MAX_BPM)
}

// ── Division with the remainder in [0, divisor) ────────────────────────────────────────────────────

/// An integer that a [`Frame`] can hold.
pub open spec fn fits(x: int) -> bool {
    i64::MIN <= x <= i64::MAX
}

pub open spec fn min_int(a: int, b: int) -> int {
    if a < b {
        a
    } else {
        b
    }
}

pub open spec fn max_int(a: int, b: int) -> int {
    if a < b {
        b
    } else {
        a
    }
}

proof fn lemma_div_mod_unique(a: int, b: int, q: int, r: int)
    requires
        b > 0,
        a == q * b + r,
        0 <= r < b,
    ensures
        a / b == q,
        a % b == r,
{
    vstd::arithmetic::div_mod::lemma_fundamental_div_mod_converse(a, b, q, r);
}

proof fn lemma_fits_positive(a: int, b: int)
    requires
        a >= 1,
        b >= 1,
    ensures
        a * b >= 1,
{
    assert(a * b >= 1) by (nonlinear_arith)
        requires
            a >= 1,
            b >= 1,
    ;
}

/// `a / b` rounded toward -infinity.
pub(crate) fn div_floor(a: Frame, b: Frame) -> (q: Frame)
    requires
        b > 0,
    ensures
        q == a as int / b as int,
{
    if a >= 0 {
        a / b
    } else {
        let c: Frame = -1 - a;
        let q: Frame = -1 - c / b;
        proof {
            let (ai, bi, ci) = (a as int, b as int, c as int);
            vstd::arithmetic::div_mod::lemma_fundamental_div_mod(ci, bi);
            let (cq, cr) = (ci / bi, ci % bi);
            assert(ai == (-1 - cq) * bi + (bi - 1 - cr)) by (nonlinear_arith)
                requires
                    ai == -1 - ci,
                    ci == bi * cq + cr,
            ;
            lemma_div_mod_unique(ai, bi, -1 - cq, bi - 1 - cr);
        }
        q
    }
}

/// The remainder of [`div_floor`], in `[0, b)`.
fn rem_floor(a: Frame, b: Frame) -> (r: Frame)
    requires
        b > 0,
    ensures
        r == a as int % b as int,
        0 <= r < b,
{
    if a >= 0 {
        a % b
    } else {
        let c: Frame = -1 - a;
        let r: Frame = b - 1 - c % b;
        proof {
            let (ai, bi, ci) = (a as int, b as int, c as int);
            vstd::arithmetic::div_mod::lemma_fundamental_div_mod(ci, bi);
            let (cq, cr) = (ci / bi, ci % bi);
            assert(ai == (-1 - cq) * bi + (bi - 1 - cr)) by (nonlinear_arith)
                requires
                    ai == -1 - ci,
                    ci == bi * cq + cr,
            ;
            lemma_div_mod_unique(ai, bi, -1 - cq, bi - 1 - cr);
        }
        r
    }
}

// ── Bars ───────────────────────────────────────────────────────────────────────────────────────────

/// Frames in a bar of four beats at `bpm`, rounded half up: `60 / bpm * 4 * sample_rate`.
pub open spec fn bar_frames(bpm: int, sample_rate: int) -> int {
    (480 * sample_rate + bpm) / (2 * bpm)
}

/// A bar is four beats, each the `bpm`-th part of a minute (240 seconds over `bpm` in all), to the nearest frame.
pub proof fn law_a_bar_is_four_beats(bpm: int, sample_rate: int)
    requires
        bpm > 0,
        sample_rate >= 0,
    ensures
        -bpm <= 2 * (240 * sample_rate - bpm * bar_frames(bpm, sample_rate)) < bpm,
{
    let (x, d) = (480 * sample_rate + bpm, 2 * bpm);
    let q = x / d;
    vstd::arithmetic::div_mod::lemma_fundamental_div_mod(x, d);
    vstd::arithmetic::div_mod::lemma_mod_bound(x, d);
    assert(d * q == 2 * (bpm * q)) by (nonlinear_arith)
        requires
            d == 2 * bpm,
    ;
    assert(bar_frames(bpm, sample_rate) == q);
}

/// Frames per 4/4 bar at `bpm`, rounded to an integer. The transport runs at whole tempos.
pub fn frames_per_bar(bpm: u32, sample_rate: u32) -> (fpb: Frame)
    requires
        bpm > 0,
    ensures
        fpb == bar_frames(bpm as int, sample_rate as int),
        fpb >= 0,
{
    let top: u64 = 480 * (sample_rate as u64) + bpm as u64;
    let fpb: u64 = top / (2 * (bpm as u64));
    proof {
        assert(fpb <= top) by (nonlinear_arith)
            requires
                fpb == top as int / (2 * bpm as int),
                bpm > 0,
        ;
    }
    fpb as Frame
}

/// A bar at a tempo of the transport is at least one frame and at most the slowest one's six seconds.
pub proof fn lemma_bar_bounds(bpm: int, sample_rate: int)
    requires
        MIN_BPM <= bpm <= MAX_BPM,
        sample_rate >= 1,
    ensures
        1 <= bar_frames(bpm, sample_rate) <= 6 * sample_rate,
        sample_rate >= 5 ==> bar_frames(bpm, sample_rate) >= 4,
{
    let top = 480 * sample_rate + bpm;
    let q = bar_frames(bpm, sample_rate);
    vstd::arithmetic::div_mod::lemma_fundamental_div_mod(top, 2 * bpm);
    assert(q >= 1) by (nonlinear_arith)
        requires
            top == (2 * bpm) * q + top % (2 * bpm),
            0 <= top % (2 * bpm) < 2 * bpm,
            top >= 480 + bpm,
            bpm <= 300,
            bpm > 0,
    ;
    if sample_rate >= 5 {
        assert(q >= 4) by (nonlinear_arith)
            requires
                top == (2 * bpm) * q + top % (2 * bpm),
                0 <= top % (2 * bpm) < 2 * bpm,
                top >= 2400 + bpm,
                bpm <= 300,
                bpm > 0,
        ;
    }
    assert(q <= 6 * sample_rate) by (nonlinear_arith)
        requires
            top == (2 * bpm) * q + top % (2 * bpm),
            0 <= top % (2 * bpm),
            top == 480 * sample_rate + bpm,
            bpm >= 40,
            sample_rate >= 1,
    ;
}

/// Largest number of whole bars that fit `buffer` frames, never below 1; the two may both be counted down.
pub open spec fn whole_bars(buffer: int, fpb: int) -> int {
    max_int(
        if fpb > 0 {
            buffer / fpb
        } else {
            (-buffer) / (-fpb)
        },
        1,
    )
}

/// Largest number of whole bars that fit `buffer` frames, never below 1.
pub fn max_whole_bars(buffer: Frame, fpb: Frame) -> (bars: Frame)
    requires
        fpb != 0,
        !(buffer == i64::MIN && fpb == -1),
    ensures
        bars == whole_bars(buffer as int, fpb as int),
{
    let bars: Frame = if fpb > 0 {
        div_floor(buffer, fpb)
    } else if buffer >= 0 {
        proof {
            assert((-buffer) / (-fpb) <= 0) by (nonlinear_arith)
                requires
                    buffer >= 0,
                    fpb < 0,
            ;
        }
        0
    } else {
        let n: i128 = -(buffer as i128);
        let d: i128 = -(fpb as i128);
        proof {
            assert(0 <= n / d < 0x8000_0000_0000_0000) by (nonlinear_arith)
                requires
                    0 < n <= 0x8000_0000_0000_0000,
                    d >= 1,
                    n < 0x8000_0000_0000_0000 || d >= 2,
            ;
        }
        (n / d) as Frame
    };
    if bars < 1 {
        1
    } else {
        bars
    }
}

/// A bar count clamped to `[1, max_bars]`; `max_bars` wins where the two ends cross.
pub open spec fn clamped_bars(bars: int, max_bars: int) -> int {
    min_int(max_int(bars, 1), max_bars)
}

/// Clamp a bar count to `[1, max_bars]`.
pub fn clamp_bars(bars: Frame, max_bars: Frame) -> (clamped: Frame)
    ensures
        clamped == clamped_bars(bars as int, max_bars as int),
{
    let low: Frame = if bars < 1 {
        1
    } else {
        bars
    };
    if low > max_bars {
        max_bars
    } else {
        low
    }
}

/// `a / b` rounded toward +infinity, for any sign of `a` and `b > 0`.
pub open spec fn div_up(a: int, b: int) -> int {
    -((-a) / b)
}

/// `a / b` rounded toward +infinity, for any sign of `a` and `b > 0`.
pub fn ceil_div(a: Frame, b: Frame) -> (q: Frame)
    requires
        b > 0,
        a > i64::MIN,
    ensures
        q == div_up(a as int, b as int),
        (q - 1) * b < a <= q * b,
{
    let q: Frame = div_floor(-a, b);
    proof {
        let (ai, bi, qi) = (a as int, b as int, q as int);
        vstd::arithmetic::div_mod::lemma_fundamental_div_mod(-ai, bi);
        let r = (-ai) % bi;
        assert((-qi - 1) * bi < ai <= (-qi) * bi) by (nonlinear_arith)
            requires
                -ai == bi * qi + r,
                0 <= r < bi,
        ;
        assert(qi > i64::MIN) by (nonlinear_arith)
            requires
                -ai == bi * qi + r,
                0 <= r < bi,
                bi >= 1,
                ai <= i64::MAX,
        ;
    }
    -q
}

// ── The beat grid ──────────────────────────────────────────────────────────────────────────────────

/// A beat grid. Beat `n` (for `n >= base_index`) sounds at
/// `base_frame + round((n - base_index) * num / den)`, rounded half up, so the beat period `num / den`
/// is exact and beat `base_index + k * den` lands on `base_frame + k * num` with no accumulated error.
/// `base_index` carries the bar position across a re-anchor: an accent is `n % 4 == 0`.
#[derive(Clone, Copy, Debug, PartialEq, Eq, Structural)]
pub struct Grid {
    pub base_frame: Frame,
    pub base_index: u64,
    pub num: u64,
    pub den: u64,
}

/// `k * num / den` rounded half up.
pub open spec fn beat_offset(k: int, num: int, den: int) -> int {
    (2 * k * num + den) / (2 * den)
}

/// The least `k` whose beat lies `d` frames or more past the base, for `d > 0`.
pub open spec fn beats_before(d: int, num: int, den: int) -> int {
    ((2 * d - 1) * den + 2 * num - 1) / (2 * num)
}

/// A beat lies `d` frames or more past the base exactly from index [`beats_before`] on.
proof fn lemma_beats_before(k: int, d: int, num: int, den: int)
    requires
        k >= 0,
        d > 0,
        num > 0,
        den > 0,
    ensures
        beat_offset(k, num, den) >= d <==> k >= beats_before(d, num, den),
        beats_before(d, num, den) > 0,
{
    let top = 2 * k * num + den;
    let off = beat_offset(k, num, den);
    vstd::arithmetic::div_mod::lemma_fundamental_div_mod(top, 2 * den);
    assert(off >= d <==> top >= 2 * den * d) by (nonlinear_arith)
        requires
            top == (2 * den) * off + top % (2 * den),
            0 <= top % (2 * den) < 2 * den,
            den > 0,
    ;
    let lim = (2 * d - 1) * den;
    assert(top >= 2 * den * d <==> 2 * k * num >= lim) by (nonlinear_arith)
        requires
            top == 2 * k * num + den,
            lim == (2 * d - 1) * den,
    ;
    let up = lim + 2 * num - 1;
    let q = beats_before(d, num, den);
    vstd::arithmetic::div_mod::lemma_fundamental_div_mod(up, 2 * num);
    assert(2 * k * num >= lim <==> k >= q) by (nonlinear_arith)
        requires
            up == (2 * num) * q + up % (2 * num),
            0 <= up % (2 * num) < 2 * num,
            up == lim + 2 * num - 1,
            num > 0,
    ;
    assert(q > 0) by (nonlinear_arith)
        requires
            up == (2 * num) * q + up % (2 * num),
            0 <= up % (2 * num) < 2 * num,
            up == lim + 2 * num - 1,
            lim == (2 * d - 1) * den,
            d > 0,
            den > 0,
            num > 0,
    ;
}

impl Grid {
    /// A positive beat period.
    pub open spec fn wf(self) -> bool {
        self.num > 0 && self.den > 0
    }

    /// The frame beat `n` sounds on; below `base_index`, the base itself.
    pub open spec fn beat_at(self, n: int) -> int {
        self.base_frame + beat_offset(
            max_int(n - self.base_index, 0),
            self.num as int,
            self.den as int,
        )
    }

    /// Beat `n` has a frame that a [`Frame`] holds, reached without leaving 128 bits.
    pub open spec fn reaches(self, n: int) -> bool {
        &&& 2 * max_int(n - self.base_index, 0) * self.num + self.den <= u128::MAX
        &&& fits(self.beat_at(n))
        &&& fits(self.beat_at(n) - self.base_frame)
    }

    /// The first beat index whose frame is at or after `frame`.
    pub open spec fn first_beat(self, frame: int) -> int {
        let d = frame - self.base_frame;
        if d <= 0 {
            self.base_index as int
        } else {
            self.base_index + beats_before(d, self.num as int, self.den as int)
        }
    }

    /// The tempo grid at `bpm`: one beat every `60 * sr / bpm` frames.
    pub fn tempo(base_frame: Frame, base_index: u64, bpm: u32, sample_rate: u32) -> (grid: Self)
        ensures
            grid == Grid::tempo_grid(base_frame, base_index, bpm, sample_rate),
    {
        Grid { base_frame, base_index, num: 60 * sample_rate as u64, den: bpm as u64 }
    }

    pub open spec fn tempo_grid(base_frame: Frame, base_index: u64, bpm: u32, sample_rate: u32) -> Grid {
        Grid { base_frame, base_index, num: (60 * sample_rate) as u64, den: bpm as u64 }
    }

    /// The loop grid of a committed master: `4 * bars` beats span exactly `master` frames.
    pub fn master(anchor: Frame, master: Frame, bars: Frame) -> (grid: Self)
        requires
            master >= 0,
            0 <= BEATS_PER_BAR * bars <= u64::MAX,
        ensures
            grid == Grid::master_grid(anchor, master, bars),
    {
        Grid { base_frame: anchor, base_index: 0, num: master as u64, den: BEATS_PER_BAR * bars as u64 }
    }

    pub open spec fn master_grid(anchor: Frame, master: Frame, bars: Frame) -> Grid {
        Grid {
            base_frame: anchor,
            base_index: 0,
            num: master as u64,
            den: (BEATS_PER_BAR * bars) as u64,
        }
    }

    /// A master `loops` times as long, anchored `away` whole masters later, has the beats it had: its beat
    /// `n` is the old one `away` masters of beats further on.
    pub proof fn law_a_longer_master_keeps_the_beats(
        anchor: Frame,
        master: Frame,
        bars: Frame,
        loops: int,
        away: int,
        n: int,
    )
        requires
            master > 0,
            1 <= bars <= master,
            loops >= 1,
            away >= 0,
            n >= 0,
            fits(anchor + away * master),
            fits(4 * (loops * bars)),
            fits(loops * master),
        ensures
            Grid::master_grid(
                (anchor + away * master) as Frame,
                (loops * master) as Frame,
                (loops * bars) as Frame,
            ).beat_at(n) == Grid::master_grid(anchor, master, bars).beat_at(n + 4 * bars * away),
    {
        let (m, b) = (master as int, bars as int);
        let (x, y) = (2 * n * m + 4 * b, 8 * b);
        lemma_fits_positive(loops, b);
        lemma_fits_positive(loops, m);
        vstd::arithmetic::div_mod::lemma_fundamental_div_mod(x, y);
        let (q, r) = (x / y, x % y);
        assert(2 * n * (loops * m) + 4 * (loops * b) == q * (2 * (4 * (loops * b))) + loops * r && 0 <= loops * r < 2 * (4
            * (loops * b))) by (nonlinear_arith)
            requires
                x == 2 * n * m + 4 * b,
                y == 8 * b,
                x == y * q + r,
                0 <= r < y,
                loops >= 1,
        ;
        lemma_div_mod_unique(2 * n * (loops * m) + 4 * (loops * b), 2 * (4 * (loops * b)), q, loops * r);
        let k = n + 4 * b * away;
        assert(2 * k * m + 4 * b == (q + away * m) * (2 * (4 * b)) + r) by (nonlinear_arith)
            requires
                x == 2 * n * m + 4 * b,
                y == 8 * b,
                x == y * q + r,
                k == n + 4 * b * away,
        ;
        lemma_div_mod_unique(2 * k * m + 4 * b, 2 * (4 * b), q + away * m, r);
        assert(k >= 0) by (nonlinear_arith)
            requires
                k == n + 4 * b * away,
                n >= 0,
                b >= 1,
                away >= 0,
        ;
        assert(b <= loops * b) by (nonlinear_arith)
            requires
                loops >= 1,
                b >= 1,
        ;
        let short = Grid::master_grid(anchor, master, bars);
        let long = Grid::master_grid((anchor + away * m) as Frame, (loops * m) as Frame, (loops * b) as Frame);
        assert(long.num == loops * m && long.den == 4 * (loops * b) && long.base_index == 0);
        assert(short.num == m && short.den == 4 * b && short.base_index == 0);
        assert(beat_offset(n, loops * m, 4 * (loops * b)) == q);
        assert(beat_offset(k, m, 4 * b) == q + away * m);
        assert(short.beat_at(k) == anchor + beat_offset(k, m, 4 * b));
        assert(long.beat_at(n) == anchor + away * m + beat_offset(n, loops * m, 4 * (loops * b)));
    }

    /// The frame beat `n` sounds on. `n` below `base_index` is clamped to it.
    pub fn beat_frame(&self, n: u64) -> (frame: Frame)
        requires
            self.den > 0,
            self.reaches(n as int),
        ensures
            frame == self.beat_at(n as int),
    {
        let k: u128 = n.saturating_sub(self.base_index) as u128;
        let offset: u128 = (2 * k * self.num as u128 + self.den as u128) / (2 * self.den as u128);
        self.base_frame + offset as Frame
    }

    /// The first beat index whose frame is at or after `frame`.
    pub fn first_beat_at_or_after(&self, frame: Frame) -> (n: u64)
        requires
            self.wf(),
            fits(frame - self.base_frame),
            self.first_beat(frame as int) <= u64::MAX,
        ensures
            n == self.first_beat(frame as int),
            n >= self.base_index,
            self.beat_at(n as int) >= frame,
            forall|m: int| self.base_index <= m < n ==> #[trigger] self.beat_at(m) < frame,
    {
        proof {
            self.lemma_first_beat(frame as int);
        }
        let d: Frame = frame - self.base_frame;
        if d <= 0 {
            return self.base_index;
        }
        // round(k*num/den) >= d  <=>  2k*num + den >= 2d*den  <=>  k >= (2d - 1)*den / (2*num)
        proof {
            assert((2 * d - 1) * self.den <= u128::MAX) by (nonlinear_arith)
                requires
                    0 < d <= i64::MAX,
                    0 < self.den <= u64::MAX,
            ;
        }
        let top: u128 = (2 * d as u128 - 1) * self.den as u128;
        let bottom: u128 = 2 * self.num as u128;
        let mut q: u128 = top / bottom;
        proof {
            let (t, b) = (top as int, bottom as int);
            vstd::arithmetic::div_mod::lemma_fundamental_div_mod(t, b);
            if t % b == 0 {
                assert(t + b - 1 == (t / b) * b + (b - 1)) by (nonlinear_arith)
                    requires
                        t == b * (t / b),
                ;
                lemma_div_mod_unique(t + b - 1, b, t / b, b - 1);
            } else {
                assert(t + b - 1 == (t / b + 1) * b + (t % b - 1)) by (nonlinear_arith)
                    requires
                        t == b * (t / b) + t % b,
                ;
                lemma_div_mod_unique(t + b - 1, b, t / b + 1, t % b - 1);
            }
        }
        if top % bottom != 0 {
            q = q + 1;
        }
        self.base_index + q as u64
    }

    /// What [`Grid::first_beat`] finds: no beat before it reaches `frame`, and it does.
    pub proof fn lemma_first_beat(self, frame: int)
        requires
            self.wf(),
        ensures
            self.first_beat(frame) >= self.base_index,
            self.beat_at(self.first_beat(frame)) >= frame,
            forall|m: int|
                self.base_index <= m < self.first_beat(frame) ==> #[trigger] self.beat_at(m) < frame,
    {
        let d = frame - self.base_frame;
        let (num, den) = (self.num as int, self.den as int);
        if d > 0 {
            lemma_beats_before(beats_before(d, num, den), d, num, den);
            assert forall|m: int| self.base_index <= m < self.first_beat(frame) implies #[trigger] self.beat_at(m)
                < frame by {
                lemma_beats_before(m - self.base_index, d, num, den);
            }
        } else {
            lemma_beat_offset_bounds(0, num, den);
        }
    }

    /// The grid of a running pulse: a beat lasts at least a frame and less than a loop buffer.
    pub open spec fn runs(self) -> bool {
        &&& self.wf()
        &&& self.den <= self.num <= LOOP_LIMIT
        &&& storable(self.base_frame as int)
    }

    /// Beats of a running grid are at least a frame apart on average and at most `num` more than one.
    pub proof fn lemma_beat_steps(self, n: int)
        requires
            self.runs(),
            n >= self.base_index,
        ensures
            self.beat_at(n) - self.base_frame >= n - self.base_index,
            self.beat_at(n) <= self.beat_at(n + 1) <= self.beat_at(n) + self.num + 1,
    {
        let (num, den) = (self.num as int, self.den as int);
        let k = n - self.base_index;
        let (a, b) = (2 * k * num + den, 2 * (k + 1) * num + den);
        let (x, y) = (beat_offset(k, num, den), beat_offset(k + 1, num, den));
        vstd::arithmetic::div_mod::lemma_fundamental_div_mod(a, 2 * den);
        vstd::arithmetic::div_mod::lemma_fundamental_div_mod(b, 2 * den);
        assert(x >= k) by (nonlinear_arith)
            requires
                a == (2 * den) * x + a % (2 * den),
                0 <= a % (2 * den) < 2 * den,
                a == 2 * k * num + den,
                k >= 0,
                num >= den,
                den > 0,
        ;
        assert(b == a + 2 * num) by (nonlinear_arith)
            requires
                a == 2 * k * num + den,
                b == 2 * (k + 1) * num + den,
        ;
        assert(x <= y <= x + num + 1) by (nonlinear_arith)
            requires
                a == (2 * den) * x + a % (2 * den),
                0 <= a % (2 * den) < 2 * den,
                b == (2 * den) * y + b % (2 * den),
                0 <= b % (2 * den) < 2 * den,
                b == a + 2 * num,
                den >= 1,
                num >= 1,
        ;
    }

    /// A beat of a running grid with a storable frame can be computed.
    pub proof fn lemma_reaches(self, n: int)
        requires
            self.runs(),
            self.base_index <= n,
            self.beat_at(n) <= FAR,
        ensures
            self.reaches(n),
            n - self.base_index <= self.beat_at(n) - self.base_frame,
    {
        let k = n - self.base_index;
        self.lemma_beat_steps(n);
        self.law_beats_in_order(self.base_index as int, n);
        assert(2 * k * self.num + self.den <= u128::MAX) by (nonlinear_arith)
            requires
                0 <= k <= 2 * FAR,
                0 < self.den <= self.num <= LOOP_LIMIT,
        ;
    }

    /// The first beat of a running grid at or after a frame is soon.
    pub proof fn lemma_first_beat_soon(self, frame: int)
        requires
            self.runs(),
        ensures
            self.base_index <= self.first_beat(frame) <= self.base_index + max_int(frame - self.base_frame, 0) + 1,
            frame <= self.beat_at(self.first_beat(frame)) <= max_int(
                self.base_frame as int,
                frame + self.num,
            ),
            self.beat_at(self.first_beat(frame)) == frame || self.first_beat(frame) == self.base_index || self.beat_at(
                self.first_beat(frame) - 1,
            ) < frame,
    {
        let n = self.first_beat(frame);
        self.lemma_first_beat(frame);
        lemma_beat_offset_bounds(0, self.num as int, self.den as int);
        if n > self.base_index {
            self.lemma_beat_steps(n - 1);
            assert(self.beat_at(n - 1) < frame);
        }
    }

    /// Beats never drift: `den` beats past the base span exactly `num` frames, however many times over.
    pub proof fn law_beats_never_drift(self, k: int)
        requires
            self.wf(),
            k >= 0,
        ensures
            self.beat_at(self.base_index + k * self.den) == self.base_frame + k * self.num,
    {
        let (num, den) = (self.num as int, self.den as int);
        assert(k * den >= 0) by (nonlinear_arith)
            requires
                k >= 0,
                den > 0,
        ;
        assert(2 * (k * den) * num + den == (k * num) * (2 * den) + den) by (nonlinear_arith);
        lemma_div_mod_unique(2 * (k * den) * num + den, 2 * den, k * num, den);
    }

    /// Every beat sounds within half a frame of its exact time.
    pub proof fn law_beat_within_half_a_frame(self, n: int)
        requires
            self.wf(),
            n >= self.base_index,
        ensures
            -(self.den as int) <= 2 * self.den * (self.beat_at(n) - self.base_frame) - 2 * (n - self.base_index)
                * self.num <= self.den,
    {
        let (num, den) = (self.num as int, self.den as int);
        let k = n - self.base_index;
        let top = 2 * k * num + den;
        let off = beat_offset(k, num, den);
        vstd::arithmetic::div_mod::lemma_fundamental_div_mod(top, 2 * den);
        assert(-den <= 2 * den * off - 2 * k * num <= den) by (nonlinear_arith)
            requires
                top == (2 * den) * off + top % (2 * den),
                0 <= top % (2 * den) < 2 * den,
                top == 2 * k * num + den,
                den > 0,
        ;
    }

    /// Later beats never sound earlier.
    pub proof fn law_beats_in_order(self, m: int, n: int)
        requires
            self.wf(),
            m <= n,
        ensures
            self.base_frame <= self.beat_at(m) <= self.beat_at(n),
    {
        let (num, den) = (self.num as int, self.den as int);
        let (j, k) = (max_int(m - self.base_index, 0), max_int(n - self.base_index, 0));
        lemma_beat_offset_bounds(j, num, den);
        assert(2 * j * num + den <= 2 * k * num + den) by (nonlinear_arith)
            requires
                j <= k,
                num > 0,
        ;
        vstd::arithmetic::div_mod::lemma_div_is_ordered(2 * j * num + den, 2 * k * num + den, 2 * den);
    }
}

proof fn lemma_beat_offset_bounds(k: int, num: int, den: int)
    requires
        k >= 0,
        num >= 0,
        den > 0,
    ensures
        beat_offset(k, num, den) >= 0,
        k == 0 ==> beat_offset(k, num, den) == 0,
{
    assert(2 * k * num >= 0) by (nonlinear_arith)
        requires
            k >= 0,
            num >= 0,
    ;
    vstd::arithmetic::div_mod::lemma_div_pos_is_pos(2 * k * num + den, 2 * den);
    if k == 0 {
        assert(2 * k * num == 0) by (nonlinear_arith)
            requires
                k == 0,
        ;
        lemma_div_mod_unique(den, 2 * den, 0, den);
    }
}

// ── Commit and stop plans ──────────────────────────────────────────────────────────────────────────

/// An exact quotient `top / bottom`.
#[derive(Clone, Copy, Debug, PartialEq, Eq, Structural)]
pub struct Ratio {
    pub top: u128,
    pub bottom: u64,
}

/// The first-track commit.
#[derive(Clone, Copy, Debug, PartialEq, Eq, Structural)]
pub struct CommitPlan {
    pub fpb: Frame,
    pub bars: Frame,
    pub master: Frame,
    /// The tempo the integer frame count implies; the transport shows it rounded.
    pub derived_bpm: Ratio,
}

/// The bars of a first take of `raw` frames: its completed ones, at least one, at most what fits.
pub open spec fn commit_bars(raw: int, fpb: int, record_len: int) -> int {
    clamped_bars(raw / fpb, whole_bars(record_len, fpb))
}

/// FLOOR a raw take to its completed whole bars (at least one, at most what fits `record_len`): a free
/// stop lands a hair after the targeted downbeat, so the overshoot is dropped, never rounded up.
pub fn plan_commit(raw: Frame, bpm: u32, sample_rate: u32, record_len: Frame) -> (plan: CommitPlan)
    requires
        bpm > 0,
        bar_frames(bpm as int, sample_rate as int) > 0,
        fits(
            commit_bars(raw as int, bar_frames(bpm as int, sample_rate as int), record_len as int)
                * bar_frames(bpm as int, sample_rate as int),
        ),
    ensures
        plan.fpb == bar_frames(bpm as int, sample_rate as int),
        plan.bars == commit_bars(raw as int, plan.fpb as int, record_len as int),
        plan.master == plan.bars * plan.fpb,
        plan.derived_bpm.top == plan.bars * 240 * sample_rate,
        plan.derived_bpm.bottom == plan.master,
{
    let fpb: Frame = frames_per_bar(bpm, sample_rate);
    let bars: Frame = clamp_bars(div_floor(raw, fpb), max_whole_bars(record_len, fpb));
    let master: Frame = bars * fpb;
    proof {
        assert(master > 0) by (nonlinear_arith)
            requires
                master == bars * fpb,
                bars >= 1,
                fpb >= 1,
        ;
        assert(bars * 240 * sample_rate <= u128::MAX) by (nonlinear_arith)
            requires
                1 <= bars <= i64::MAX,
                0 <= sample_rate <= u32::MAX,
        ;
    }
    CommitPlan { fpb, bars, master, derived_bpm: Ratio { top: bars as u128 * 240 * sample_rate as u128, bottom: master as u64 } }
}

/// The master grid anchor at a first-take commit at frame `at`.
pub open spec fn anchor_at(downbeat: Option<Frame>, master: int, at: int) -> int {
    match downbeat {
        Some(d) if master > 0 => d + (at - d) / master * master,
        _ => at,
    }
}

/// The master grid anchor at a first-take commit: the counted downbeat, a whole number of loops back
/// from `at`, so the loop, its click and the count-in share one grid.
pub fn commit_anchor(downbeat: Option<Frame>, master: Frame, at: Frame) -> (anchor: Frame)
    requires
        master > 0 ==> (downbeat matches Some(d) ==> fits(at - d) && fits(
            (at - d) / (master as int) * master,
        ) && fits(anchor_at(downbeat, master as int, at as int))),
    ensures
        anchor == anchor_at(downbeat, master as int, at as int),
{
    match downbeat {
        Some(d) => {
            if master > 0 {
                d + div_floor(at - d, master) * master
            } else {
                at
            }
        },
        None => at,
    }
}

/// The anchor of a commit lies a whole number of loops from the counted downbeat, and at most one loop
/// before the commit.
pub proof fn law_commit_anchor_on_the_count_grid(downbeat: Frame, master: int, at: int)
    requires
        master > 0,
    ensures
        (anchor_at(Some(downbeat), master, at) - downbeat) % master == 0,
        anchor_at(Some(downbeat), master, at) <= at < anchor_at(Some(downbeat), master, at) + master,
{
    let q = (at - downbeat) / master;
    vstd::arithmetic::div_mod::lemma_fundamental_div_mod(at - downbeat, master);
    assert(q * master == master * q) by (nonlinear_arith);
    vstd::arithmetic::div_mod::lemma_mod_multiples_basic(q, master);
}

/// Whole bars completed `elapsed` frames after the musical start, a sixteenth of a bar early at most.
pub open spec fn graced_bars(elapsed: int, fpb: int) -> int {
    if fpb <= 0 {
        0
    } else {
        (16 * elapsed + fpb) / (16 * fpb)
    }
}

/// Whole bars chosen by a stop pressed `elapsed` frames after the take's musical start, with a quarter
/// beat of grace for a slightly early press.
pub fn bars_at(elapsed: Frame, fpb: Frame) -> (bars: Frame)
    requires
        fpb > 0 ==> fits(16 * elapsed) && fits(16 * elapsed + fpb) && fits(16 * fpb),
    ensures
        bars == graced_bars(elapsed as int, fpb as int),
{
    if fpb <= 0 {
        return 0;
    }
    // floor((elapsed + fpb/16) / fpb), exactly.
    div_floor(16 * elapsed + fpb, 16 * fpb)
}

/// The length a free first-take stop asks for, `None` before the first completed bar.
pub open spec fn free_stop(elapsed: int, fpb: int, record_len: int) -> Option<int> {
    let bars = graced_bars(elapsed, fpb);
    if bars >= 1 {
        Some(clamped_bars(bars, whole_bars(record_len, fpb)) * fpb)
    } else {
        None
    }
}

/// The free first-take stop: whole bars from musical time, clamped to what fits. `None` when no bar
/// has completed yet: the take then ends at the press and pads to one bar.
pub fn plan_free_stop(elapsed: Frame, fpb: Frame, record_len: Frame) -> (target: Option<Frame>)
    requires
        fpb > 0 ==> fits(16 * elapsed) && fits(16 * elapsed + fpb) && fits(16 * fpb),
        free_stop(elapsed as int, fpb as int, record_len as int) matches Some(t) ==> fits(t),
    ensures
        target is Some <==> graced_bars(elapsed as int, fpb as int) >= 1,
        target matches Some(t) ==> Some(t as int) == free_stop(
            elapsed as int,
            fpb as int,
            record_len as int,
        ),
{
    let bars: Frame = bars_at(elapsed, fpb);
    if bars >= 1 {
        Some(clamp_bars(bars, max_whole_bars(record_len, fpb)) * fpb)
    } else {
        None
    }
}

/// The bars of a later take: see [`later_take_bars`].
pub open spec fn later_bars(requested: int, master_bars: int, max_bars: int) -> int {
    let m = max_int(master_bars, 1);
    if requested <= m {
        clamped_bars(requested, m)
    } else {
        min_int(requested / m, max_int(max_bars / m, 1)) * m
    }
}

/// The bars a later take records over a master of `master_bars` whole bars when `requested` are asked
/// for (the FIXED count, or the bars an early stop completed). Up to the master: the request, at least
/// one (a shorter take tiles across the loop). Past it, a multiply: the loop grows to the take in
/// whole loops, so the request floors to a multiple of the master, at most the largest multiple within
/// `max_bars` (the lane buffer and the FIXED bound). A request below two loops therefore gives the master.
pub fn later_take_bars(requested: Frame, master_bars: Frame, max_bars: Frame) -> (bars: Frame)
    ensures
        bars == later_bars(requested as int, master_bars as int, max_bars as int),
{
    let m: Frame = if master_bars < 1 {
        1
    } else {
        master_bars
    };
    if requested <= m {
        return clamp_bars(requested, m);
    }
    let loops: Frame = requested / m;
    let most: Frame = max_whole_bars(max_bars, m);
    let whole: Frame = if loops > most {
        most
    } else {
        loops
    };
    proof {
        let (r, mi, l, w) = (requested as int, m as int, loops as int, whole as int);
        vstd::arithmetic::div_mod::lemma_fundamental_div_mod(r, mi);
        assert(0 <= w * mi <= r) by (nonlinear_arith)
            requires
                r == mi * l + r % mi,
                0 <= r % mi < mi,
                0 <= w <= l,
                mi >= 1,
        ;
    }
    whole * m
}

/// Past the master a later take is whole loops long: at least one, never more than asked for, and
/// within the bound wherever one loop is.
pub proof fn law_later_takes_past_the_master_are_whole_loops(requested: int, master_bars: int, max_bars: int)
    requires
        1 <= master_bars < requested,
    ensures
        later_bars(requested, master_bars, max_bars) % master_bars == 0,
        master_bars <= later_bars(requested, master_bars, max_bars) <= requested,
        master_bars <= max_bars ==> later_bars(requested, master_bars, max_bars) <= max_bars,
        requested < 2 * master_bars ==> later_bars(requested, master_bars, max_bars) == master_bars,
{
    let m = master_bars;
    let l = requested / m;
    let b = max_bars / m;
    let w = min_int(l, max_int(b, 1));
    vstd::arithmetic::div_mod::lemma_fundamental_div_mod(requested, m);
    vstd::arithmetic::div_mod::lemma_fundamental_div_mod(max_bars, m);
    assert(l >= 1) by (nonlinear_arith)
        requires
            requested == m * l + requested % m,
            0 <= requested % m < m,
            requested > m,
    ;
    assert(m <= w * m <= requested) by (nonlinear_arith)
        requires
            requested == m * l + requested % m,
            0 <= requested % m,
            1 <= w <= l,
            m >= 1,
    ;
    if m <= max_bars {
        assert(w * m <= max_bars) by (nonlinear_arith)
            requires
                max_bars == m * b + max_bars % m,
                0 <= max_bars % m < m,
                w <= max_int(b, 1),
                m <= max_bars,
                m >= 1,
        ;
    }
    if requested < 2 * m {
        assert(l == 1) by (nonlinear_arith)
            requires
                requested == m * l + requested % m,
                0 <= requested % m,
                l >= 1,
                requested < 2 * m,
                m >= 1,
        ;
        assert(w * m == m) by (nonlinear_arith)
            requires
                w == 1,
        ;
    }
    vstd::arithmetic::div_mod::lemma_mod_multiples_basic(w, m);
}

/// Up to the master a later take has the bars asked for, at least one.
pub proof fn law_later_takes_up_to_the_master_keep_their_bars(requested: int, master_bars: int, max_bars: int)
    requires
        1 <= master_bars,
        requested <= master_bars,
    ensures
        later_bars(requested, master_bars, max_bars) == max_int(requested, 1),
{
}

/// The later-take stop: completed bars since the take's musical start (its window start minus the
/// alignment), as [`later_take_bars`] counts them: up to the master as they are (at least one), past it
/// floored to whole loops (a multiply window stopped early).
pub fn plan_later_stop(
    press: Frame,
    window_start: Frame,
    align: Frame,
    fpb: Frame,
    master_bars: Frame,
    max_bars: Frame,
) -> (frames: Frame)
    requires
        fits(window_start - align),
        fits(press - (window_start - align)),
        fpb > 0 ==> fits(16 * (press - (window_start - align))) && fits(
            16 * (press - (window_start - align)) + fpb,
        ) && fits(16 * fpb),
        fits(later_stop(press - (window_start - align), fpb as int, master_bars as int, max_bars as int)),
    ensures
        frames == later_stop(
            press - (window_start - align),
            fpb as int,
            master_bars as int,
            max_bars as int,
        ),
{
    let elapsed: Frame = press - (window_start - align);
    later_take_bars(bars_at(elapsed, fpb), master_bars, max_bars) * fpb
}

/// The length a later take stopped `elapsed` frames after its musical start keeps.
pub open spec fn later_stop(elapsed: int, fpb: int, master_bars: int, max_bars: int) -> int {
    later_bars(graced_bars(elapsed, fpb), master_bars, max_bars) * fpb
}

#[derive(Clone, Copy, Debug, PartialEq, Eq, Structural)]
pub enum RetakeStop {
    /// Inside the quarter-beat grace before the pass edge: let the pass in flight finish and keep it.
    FinishPass,
    /// Keep the last complete pass; the one in flight is dropped.
    KeepLast,
    /// Nothing complete kept yet: an ordinary stop.
    StopNow,
}

pub open spec fn retake_stop(press: int, pass_end: int, fpb: int, has_kept_pass: bool) -> RetakeStop {
    if 16 * (pass_end - press) <= fpb {
        RetakeStop::FinishPass
    } else if has_kept_pass {
        RetakeStop::KeepLast
    } else {
        RetakeStop::StopNow
    }
}

/// The stop gesture on a rolling RETAKE. The grace equals the one [`bars_at`] gives a free stop.
pub fn plan_retake_stop(press: Frame, pass_end: Frame, fpb: Frame, has_kept_pass: bool) -> (stop: RetakeStop)
    requires
        fits(pass_end - press),
        fits(16 * (pass_end - press)),
    ensures
        stop == retake_stop(press as int, pass_end as int, fpb as int, has_kept_pass),
{
    if 16 * (pass_end - press) <= fpb {
        RetakeStop::FinishPass
    } else if has_kept_pass {
        RetakeStop::KeepLast
    } else {
        RetakeStop::StopNow
    }
}

/// The retake grace equals the free-stop grace: a press `early` frames before the end of `bars` bars
/// lets the pass finish exactly when a free stop there keeps all of them.
pub proof fn law_retake_grace_is_the_free_stop_grace(
    bars: int,
    early: int,
    fpb: int,
    record_len: int,
    has_kept_pass: bool,
)
    requires
        fpb > 0,
        bars >= 1,
        bars * fpb <= record_len,
    ensures
        (free_stop(bars * fpb - early, fpb, record_len) matches Some(t) && t >= bars * fpb) <==> retake_stop(
            bars * fpb - early,
            bars * fpb,
            fpb,
            has_kept_pass,
        ) == RetakeStop::FinishPass,
{
    let len = bars * fpb;
    let got = graced_bars(len - early, fpb);
    let top = 16 * (len - early) + fpb;
    vstd::arithmetic::div_mod::lemma_fundamental_div_mod(top, 16 * fpb);
    assert(got >= bars <==> 16 * early <= fpb) by (nonlinear_arith)
        requires
            top == (16 * fpb) * got + top % (16 * fpb),
            0 <= top % (16 * fpb) < 16 * fpb,
            top == 16 * (bars * fpb - early) + fpb,
            fpb > 0,
    ;
    let most = record_len / fpb;
    vstd::arithmetic::div_mod::lemma_fundamental_div_mod(record_len, fpb);
    assert(most >= bars) by (nonlinear_arith)
        requires
            record_len == fpb * most + record_len % fpb,
            0 <= record_len % fpb < fpb,
            bars * fpb <= record_len,
            fpb > 0,
    ;
    if got >= 1 {
        let kept = clamped_bars(got, whole_bars(record_len, fpb));
        assert(kept * fpb >= bars * fpb <==> kept >= bars) by (nonlinear_arith)
            requires
                fpb > 0,
        ;
    }
}

// ── The loop ───────────────────────────────────────────────────────────────────────────────────────

/// The master boundary at or after `now`.
pub open spec fn boundary_after(anchor: int, master: int, now: int) -> int {
    if master <= 0 {
        now
    } else {
        anchor + div_up(now - anchor, master) * master
    }
}

/// The master boundary at or after `now` (`now` itself with no master).
pub fn next_boundary(anchor: Frame, master: Frame, now: Frame) -> (at: Frame)
    requires
        master > 0 ==> fits(now - anchor) && now - anchor > i64::MIN && fits(
            boundary_after(anchor as int, master as int, now as int),
        ) && fits(boundary_after(anchor as int, master as int, now as int) - anchor),
    ensures
        at == boundary_after(anchor as int, master as int, now as int),
{
    if master <= 0 {
        return now;
    }
    anchor + ceil_div(now - anchor, master) * master
}

/// [`next_boundary`] is the first boundary at or after `now`, where the loop starts over.
pub proof fn law_next_boundary_is_the_first_loop_start(anchor: int, master: int, now: int)
    requires
        master > 0,
    ensures
        now <= boundary_after(anchor, master, now) < now + master,
        pos_in_loop(boundary_after(anchor, master, now), anchor, master) == 0,
{
    let q = div_up(now - anchor, master);
    vstd::arithmetic::div_mod::lemma_fundamental_div_mod(-(now - anchor), master);
    let r = (-(now - anchor)) % master;
    assert(now - anchor <= q * master < now - anchor + master) by (nonlinear_arith)
        requires
            -(now - anchor) == master * (-q) + r,
            0 <= r < master,
    ;
    vstd::arithmetic::div_mod::lemma_mod_multiples_basic(q, master);
}

/// Position of `frame` in a loop of `len` frames anchored at `anchor`.
pub open spec fn pos_in_loop(frame: int, anchor: int, len: int) -> int {
    (frame - anchor) % len
}

/// Position of `frame` in a loop of `len` frames anchored at `anchor`, in `[0, len)`.
pub fn loop_pos(frame: Frame, anchor: Frame, len: Frame) -> (pos: Frame)
    requires
        len > 0,
        fits(frame - anchor),
    ensures
        pos == pos_in_loop(frame as int, anchor as int, len as int),
        0 <= pos < len,
{
    rem_floor(frame - anchor, len)
}

/// A loop plays the same position one loop later, and the next position one frame later.
pub proof fn law_loop_position_advances_and_repeats(frame: int, anchor: int, len: int)
    requires
        len > 0,
    ensures
        0 <= pos_in_loop(frame, anchor, len) < len,
        pos_in_loop(frame + len, anchor, len) == pos_in_loop(frame, anchor, len),
        pos_in_loop(frame + 1, anchor, len) == (if pos_in_loop(frame, anchor, len) + 1 == len {
            0
        } else {
            pos_in_loop(frame, anchor, len) + 1
        }),
{
    let d = frame - anchor;
    let (q, r) = (d / len, d % len);
    vstd::arithmetic::div_mod::lemma_fundamental_div_mod(d, len);
    assert(d + len == (q + 1) * len + r) by (nonlinear_arith)
        requires
            d == len * q + r,
    ;
    lemma_div_mod_unique(d + len, len, q + 1, r);
    if r + 1 == len {
        assert(d + 1 == (q + 1) * len + 0) by (nonlinear_arith)
            requires
                d == len * q + r,
                r + 1 == len,
        ;
        lemma_div_mod_unique(d + 1, len, q + 1, 0);
    } else {
        assert(d + 1 == q * len + (r + 1)) by (nonlinear_arith)
            requires
                d == len * q + r,
        ;
        lemma_div_mod_unique(d + 1, len, q, r + 1);
    }
}

/// A remainder does not turn on the divisor's sign.
proof fn lemma_mod_of_negative(a: int, b: int)
    requires
        a >= 0,
        b > 0,
    ensures
        a % (-b) == a % b,
{
    vstd::arithmetic::div_mod::lemma_fundamental_div_mod(a, b);
    vstd::arithmetic::div_mod::lemma_fundamental_div_mod(a, -b);
    let (q, r) = (a / b, a % b);
    let (s, t) = (a / (-b), a % (-b));
    assert(0 <= t < b);
    assert(r == t) by (nonlinear_arith)
        requires
            a == b * q + r,
            a == (-b) * s + t,
            0 <= r < b,
            0 <= t < b,
    {
        assert(b * (q + s) == t - r);
        assert(q + s == 0);
    }
}

// ── Filling a committed take ───────────────────────────────────────────────────────────────────────

/// How a committed take fills its master region: loop position `p` holds take frame `p % period`, or
/// silence where the take never reached (`p % period >= raw`). One map for both commits: a first take
/// pads its short tail (`period` = master); a later take floors to whole bars and tiles them across the
/// master, blanking whatever a window cut short of its first bar left. A multiply extends every other
/// loop with it ([`TakeFill::extend`]).
#[derive(Clone, Copy, Debug, PartialEq, Eq, Structural)]
pub struct TakeFill {
    pub raw: Frame,
    pub period: Frame,
    pub master: Frame,
}

impl TakeFill {
    pub open spec fn wf(self) -> bool {
        &&& 0 <= self.raw <= self.master
        &&& 0 < self.period <= self.master
    }

    pub open spec fn first_fill(raw: Frame, master: Frame) -> TakeFill {
        TakeFill { raw: min_int(raw as int, master as int) as Frame, period: master, master }
    }

    pub fn first(raw: Frame, master: Frame) -> (fill: Self)
        ensures
            fill == TakeFill::first_fill(raw, master),
            raw >= 0 && master > 0 ==> fill.wf(),
    {
        TakeFill {
            raw: if raw < master {
                raw
            } else {
                master
            },
            period: master,
            master,
        }
    }

    pub open spec fn later_fill(raw: Frame, fpb: Frame, master: Frame) -> TakeFill {
        if fpb <= 0 || master as int % fpb as int != 0 {
            TakeFill::first_fill(raw, master)
        } else {
            TakeFill {
                raw: min_int(raw as int, master as int) as Frame,
                period: (clamped_bars(raw as int / fpb as int, whole_bars(master as int, fpb as int)) * fpb) as Frame,
                master,
            }
        }
    }

    pub fn later(raw: Frame, fpb: Frame, master: Frame) -> (fill: Self)
        ensures
            fill == TakeFill::later_fill(raw, fpb, master),
            raw >= 0 && master > 0 ==> fill.wf(),
            fpb > 0 && master as int % fpb as int == 0 ==> fill.period as int % fpb as int == 0,
    {
        if fpb <= 0 || loop_pos(master, 0, fpb) != 0 {
            // Not a whole-bar master (a foreign import): no tiling, only the padding.
            return TakeFill::first(raw, master);
        }
        let bars: Frame = clamp_bars(div_floor(raw, fpb), max_whole_bars(master, fpb));
        proof {
            let (b, f, m) = (bars as int, fpb as int, master as int);
            vstd::arithmetic::div_mod::lemma_fundamental_div_mod(m, f);
            if m > 0 {
                assert(m / f >= 1) by (nonlinear_arith)
                    requires
                        m == f * (m / f),
                        m > 0,
                        f > 0,
                ;
                assert(0 < b * f <= m) by (nonlinear_arith)
                    requires
                        m == f * (m / f),
                        1 <= b <= m / f,
                        f > 0,
                ;
            } else {
                assert(m / f < 1) by (nonlinear_arith)
                    requires
                        m == f * (m / f),
                        m <= 0,
                        f > 0,
                ;
                assert(b == 1);
                assert(b * f == f) by (nonlinear_arith)
                    requires
                        b == 1,
                ;
            }
            vstd::arithmetic::div_mod::lemma_mod_multiples_basic(b, f);
        }
        TakeFill {
            raw: if raw < master {
                raw
            } else {
                master
            },
            period: bars * fpb,
            master,
        }
    }

    /// A committed loop of `old` frames tiled out to a new master of `master` frames, a whole multiple of
    /// it (a multiply): the same loop, repeating. Being whole loops, it reads the same backwards.
    pub fn extend(old: Frame, master: Frame) -> (fill: Self)
        ensures
            fill == (TakeFill { raw: old, period: old, master }),
    {
        TakeFill { raw: old, period: old, master }
    }

    /// The take frame loop position `p` plays, `None` for silence. A position below 0 counts backwards
    /// from 0.
    pub open spec fn source_of(self, p: int) -> Option<int> {
        let q = if p >= 0 {
            p % self.period as int
        } else {
            -(-p % self.period as int)
        };
        if q < self.raw {
            Some(q)
        } else {
            None
        }
    }

    /// The take frame loop position `p` plays, or `None` for silence.
    pub fn source(&self, p: Frame) -> (q: Option<Frame>)
        requires
            self.period != 0,
            !(p == i64::MIN && self.period == -1),
        ensures
            q is Some <==> self.source_of(p as int) is Some,
            q matches Some(f) ==> Some(f as int) == self.source_of(p as int),
            p >= 0 && self.period > 0 ==> (q matches Some(f) ==> 0 <= f < self.period),
    {
        let length: i128 = if self.period < 0 {
            -(self.period as i128)
        } else {
            self.period as i128
        };
        let q: Frame = if p >= 0 {
            (p as i128 % length) as Frame
        } else {
            (-(-(p as i128) % length)) as Frame
        };
        proof {
            if self.period < 0 {
                let far = if p >= 0 {
                    p as int
                } else {
                    -p
                };
                lemma_mod_of_negative(far, -self.period);
            }
        }
        if q < self.raw {
            Some(q)
        } else {
            None
        }
    }

    pub open spec fn kept(self) -> int {
        min_int(self.raw as int, self.period as int)
    }

    /// Positions below this already hold their final content; the fill rewrites `[untouched, master)`.
    pub fn untouched(&self) -> (lo: Frame)
        ensures
            lo == self.kept(),
    {
        if self.raw < self.period {
            self.raw
        } else {
            self.period
        }
    }

    /// Positions below [`TakeFill::untouched`] play the take frame they already hold; every other one
    /// plays such a frame, or silence: a fill never reads what it rewrites.
    pub proof fn law_fill_reads_only_what_it_keeps(self, p: int)
        requires
            self.wf(),
            0 <= p,
        ensures
            p < self.kept() ==> self.source_of(p) == Some(p),
            self.source_of(p) matches Some(q) ==> 0 <= q < self.kept(),
    {
        if p < self.kept() {
            lemma_div_mod_unique(p, self.period as int, 0, p);
        }
    }

    /// A fill repeats with its period, on either side of position 0.
    pub proof fn law_fill_repeats(self, p: int)
        requires
            self.wf(),
            p >= 0 || p + self.period <= 0,
        ensures
            self.source_of(p + self.period) == self.source_of(p),
    {
        if p >= 0 {
            law_loop_position_advances_and_repeats(p, 0, self.period as int);
        } else {
            law_loop_position_advances_and_repeats(-p - self.period, 0, self.period as int);
            if p + self.period == 0 {
                lemma_div_mod_unique(-p, self.period as int, 1, 0);
            }
        }
    }

    /// A loop extended to whole copies of itself, played backwards, is the loop backwards, repeating.
    pub proof fn law_an_extended_loop_reads_the_same_backwards(old: Frame, copies: int, p: int)
        requires
            old > 0,
            copies >= 1,
            fits(copies * old),
            0 <= p < copies * old,
        ensures
            ({
                let fill = TakeFill { raw: old, period: old, master: (copies * old) as Frame };
                fill.source_of(copies * old - 1 - p) == Some(old - 1 - p % (old as int))
            }),
    {
        let (q, r) = (p / (old as int), p % (old as int));
        vstd::arithmetic::div_mod::lemma_fundamental_div_mod(p, old as int);
        assert(copies * old - 1 - p == (copies - 1 - q) * old + (old - 1 - r)) by (nonlinear_arith)
            requires
                p == old * q + r,
        ;
        lemma_div_mod_unique(copies * old - 1 - p, old as int, copies - 1 - q, old - 1 - r);
    }
}

/// Clamped to what fits a buffer, whole bars fit it, as long as one does.
pub proof fn lemma_whole_bars_fit(bars: int, most: int, fpb: int, capacity: int)
    requires
        fpb >= 1,
        1 <= bars <= whole_bars(most, fpb),
        most <= capacity,
        fpb <= capacity,
    ensures
        fpb <= bars * fpb <= capacity,
{
    vstd::arithmetic::div_mod::lemma_fundamental_div_mod(most, fpb);
    let q = most / fpb;
    assert(fpb <= bars * fpb <= capacity) by (nonlinear_arith)
        requires
            most == fpb * q + most % fpb,
            0 <= most % fpb,
            1 <= bars,
            bars <= q || bars <= 1,
            fpb >= 1,
            most <= capacity,
            fpb <= capacity,
    ;
}

/// The downbeat after a count-in is at most a bar away.
pub proof fn lemma_count_in(grid: Grid, bpm: u32, sample_rate: u32)
    requires
        MIN_BPM <= bpm <= MAX_BPM,
        sample_rate >= 1,
        grid == Grid::tempo_grid(grid.base_frame, 0, bpm, sample_rate),
        near(grid.base_frame as int),
    ensures
        grid.reaches(COUNT_IN_BEATS as int),
        grid.base_frame <= grid.beat_at(COUNT_IN_BEATS as int) <= grid.base_frame + 6 * sample_rate,
{
    let (num, den) = (grid.num as int, grid.den as int);
    let top = 2 * 4 * num + den;
    let off = beat_offset(4, num, den);
    vstd::arithmetic::div_mod::lemma_fundamental_div_mod(top, 2 * den);
    assert(0 <= off <= 6 * sample_rate) by (nonlinear_arith)
        requires
            top == (2 * den) * off + top % (2 * den),
            0 <= top % (2 * den) < 2 * den,
            top == 8 * num + den,
            num == 60 * sample_rate,
            den >= 40,
            sample_rate >= 1,
    ;
}

} // verus!

//! The per-track effects and their parameters, as the UI, the session file and the chain name them.

use vstd::prelude::*;

use crate::api::same_text;
use crate::float::Double;

verus! {

/// The five effects, in chain (and serialized) order.
#[derive(Clone, Copy, Debug, PartialEq, Eq, Structural)]
pub enum FxKind {
    Filter,
    Pitch,
    Stutter,
    Delay,
    Reverb,
}

impl FxKind {
    /// Its place in the chain.
    pub open spec fn place(self) -> int {
        match self {
            FxKind::Filter => 0,
            FxKind::Pitch => 1,
            FxKind::Stutter => 2,
            FxKind::Delay => 3,
            FxKind::Reverb => 4,
        }
    }

    pub fn index(self) -> (i: usize)
        ensures
            i == self.place(),
            i < 5,
    {
        match self {
            FxKind::Filter => 0,
            FxKind::Pitch => 1,
            FxKind::Stutter => 2,
            FxKind::Delay => 3,
            FxKind::Reverb => 4,
        }
    }

    /// How many parameters it has.
    pub open spec fn count(self) -> int {
        match self {
            FxKind::Filter => 2,
            FxKind::Delay => 3,
            _ => 1,
        }
    }

    pub open spec fn name(self) -> Seq<char> {
        match self {
            FxKind::Filter => "Filter"@,
            FxKind::Pitch => "Pitch"@,
            FxKind::Stutter => "Stutter"@,
            FxKind::Delay => "Delay"@,
            FxKind::Reverb => "Reverb"@,
        }
    }

    pub fn label(self) -> (l: &'static str)
        ensures
            l@ == self.name(),
    {
        match self {
            FxKind::Filter => "Filter",
            FxKind::Pitch => "Pitch",
            FxKind::Stutter => "Stutter",
            FxKind::Delay => "Delay",
            FxKind::Reverb => "Reverb",
        }
    }
}

/// One FX parameter, by kind and key.
#[derive(Clone, Copy, Debug, PartialEq, Eq, Structural)]
pub enum FxParam {
    Cutoff,
    Q,
    Semitones,
    Rate,
    Time,
    Feedback,
    Mix,
    Amount,
}

impl FxParam {
    /// The effect it belongs to.
    pub open spec fn effect(self) -> FxKind {
        match self {
            FxParam::Cutoff | FxParam::Q => FxKind::Filter,
            FxParam::Semitones => FxKind::Pitch,
            FxParam::Rate => FxKind::Stutter,
            FxParam::Time | FxParam::Feedback | FxParam::Mix => FxKind::Delay,
            FxParam::Amount => FxKind::Reverb,
        }
    }

    pub fn kind(self) -> (kind: FxKind)
        ensures
            kind == self.effect(),
    {
        match self {
            FxParam::Cutoff | FxParam::Q => FxKind::Filter,
            FxParam::Semitones => FxKind::Pitch,
            FxParam::Rate => FxKind::Stutter,
            FxParam::Time | FxParam::Feedback | FxParam::Mix => FxKind::Delay,
            FxParam::Amount => FxKind::Reverb,
        }
    }

    /// Its place among its effect's parameters.
    pub open spec fn place(self) -> int {
        match self {
            FxParam::Q | FxParam::Feedback => 1,
            FxParam::Mix => 2,
            _ => 0,
        }
    }

    /// Its position in its kind's parameters, in serialization order.
    pub fn index(self) -> (i: usize)
        ensures
            i == self.place(),
    {
        match self {
            FxParam::Q | FxParam::Feedback => 1,
            FxParam::Mix => 2,
            _ => 0,
        }
    }

    /// The name it has among its effect's parameters.
    pub open spec fn key(self) -> Seq<char> {
        match self {
            FxParam::Cutoff => "cutoff"@,
            FxParam::Q => "q"@,
            FxParam::Semitones => "semitones"@,
            FxParam::Rate => "rate"@,
            FxParam::Time => "time"@,
            FxParam::Feedback => "feedback"@,
            FxParam::Mix => "mix"@,
            FxParam::Amount => "amount"@,
        }
    }

    /// The param a kind's `key` names, if any.
    pub fn from_key(kind: FxKind, key: &str) -> (param: Option<FxParam>)
        ensures
            param matches Some(p) ==> p.effect() == kind && p.key() == key@,
            param is None ==> forall|p: FxParam| p.effect() == kind ==> #[trigger] p.key() != key@,
    {
        let (count, names) = match kind {
            FxKind::Filter => (2, ["cutoff", "q", ""]),
            FxKind::Pitch => (1, ["semitones", "", ""]),
            FxKind::Stutter => (1, ["rate", "", ""]),
            FxKind::Delay => (3, ["time", "feedback", "mix"]),
            FxKind::Reverb => (1, ["amount", "", ""]),
        };
        let mut i: usize = 0;
        while i < count
            invariant
                count == kind.count(),
                forall|j: int| 0 <= j < count ==> (#[trigger] names@[j])@ == FxParam::nth(kind, j).key(),
                forall|j: int| 0 <= j < i ==> (#[trigger] names@[j])@ != key@,
                i <= count <= 3,
            decreases count - i,
        {
            if same_text(names[i], key) {
                return Some(Self::of(kind, i));
            }
            i = i + 1;
        }
        proof {
            assert forall|p: FxParam| p.effect() == kind implies #[trigger] p.key() != key@ by {
                assert(p == FxParam::nth(kind, p.place()));
                assert(names@[p.place()]@ != key@);
            }
        }
        None
    }

    /// The parameter at a place of a kind.
    pub open spec fn nth(kind: FxKind, index: int) -> FxParam {
        match kind {
            FxKind::Filter => if index == 0 {
                FxParam::Cutoff
            } else {
                FxParam::Q
            },
            FxKind::Pitch => FxParam::Semitones,
            FxKind::Stutter => FxParam::Rate,
            FxKind::Delay => if index == 0 {
                FxParam::Time
            } else if index == 1 {
                FxParam::Feedback
            } else {
                FxParam::Mix
            },
            FxKind::Reverb => FxParam::Amount,
        }
    }

    /// The parameter at `index` of `kind`; past the last one, the last.
    pub fn of(kind: FxKind, index: usize) -> (param: FxParam)
        ensures
            param == FxParam::nth(kind, index as int),
    {
        match kind {
            FxKind::Filter => if index == 0 {
                FxParam::Cutoff
            } else {
                FxParam::Q
            },
            FxKind::Pitch => FxParam::Semitones,
            FxKind::Stutter => FxParam::Rate,
            FxKind::Delay => if index == 0 {
                FxParam::Time
            } else if index == 1 {
                FxParam::Feedback
            } else {
                FxParam::Mix
            },
            FxKind::Reverb => FxParam::Amount,
        }
    }

    /// A parameter is found again by its effect and its place, and no two share them.
    pub proof fn law_a_parameter_is_its_place(self)
        ensures
            FxParam::nth(self.effect(), self.place()) == self,
            0 <= self.place() < self.effect().count(),
    {
    }
}

// ── Values (as bit patterns) ─────────────────────────────────────────────────────────────────────────────────────────

pub const ZERO: u64 = 0;

pub const TENTH: u64 = 0x3fb9_9999_9999_999a;

pub const THREE_TENTHS: u64 = 0x3fd3_3333_3333_3333;

pub const TWO_FIFTHS: u64 = 0x3fd9_9999_9999_999a;

/// The number just below a half.
pub const UNDER_A_HALF: u64 = 0x3fdf_ffff_ffff_ffff;

/// The most feedback a delay takes: 0.95, short of oscillating by itself.
pub const MAX_FEEDBACK: u64 = 0x3fee_6666_6666_6666;

pub const ONE: u64 = 0x3ff0_0000_0000_0000;

pub const ONE_AND_A_HALF: u64 = 0x3ff8_0000_0000_0000;

pub const TWO: u64 = 0x4000_0000_0000_0000;

pub const TWO_AND_A_HALF: u64 = 0x4004_0000_0000_0000;

pub const THREE: u64 = 0x4008_0000_0000_0000;

pub const TWELVE: u64 = 0x4028_0000_0000_0000;

pub const MINUS_TWELVE: u64 = 0xc028_0000_0000_0000;

pub const FOURTEEN: u64 = 0x402c_0000_0000_0000;

/// 120 Hz.
pub const LOWEST_CUTOFF: u64 = 0x405e_0000_0000_0000;

/// 1200 Hz.
pub const FIRST_CUTOFF: u64 = 0x4092_c000_0000_0000;

/// 14 kHz.
pub const HIGHEST_CUTOFF: u64 = 0x40cb_5800_0000_0000;

/// The note divisions a tempo-synced parameter can have: 1/4, 1/8, 1/8 dotted, 1/16.
pub const DIVISION_COUNT: usize = 4;

/// The division a value picks: the value and a half, rounded down, held among the divisions. (In doubles
/// the number just under a half and a half make 1.)
pub open spec fn division_of(value: Double) -> int {
    if value.rank() >= (Double { bits: TWO_AND_A_HALF }).rank() {
        3
    } else if value.rank() >= (Double { bits: ONE_AND_A_HALF }).rank() {
        2
    } else if value.rank() >= (Double { bits: UNDER_A_HALF }).rank() {
        1
    } else {
        0
    }
}

pub fn division(value: Double) -> (i: usize)
    requires
        value.finite(),
    ensures
        i == division_of(value),
        i < DIVISION_COUNT,
{
    if value.at_least(Double { bits: TWO_AND_A_HALF }) {
        3
    } else if value.at_least(Double { bits: ONE_AND_A_HALF }) {
        2
    } else if value.at_least(Double { bits: UNDER_A_HALF }) {
        1
    } else {
        0
    }
}

/// A division as the value of its parameter.
pub open spec fn division_value(i: int) -> Double {
    if i <= 0 {
        Double { bits: ZERO }
    } else if i == 1 {
        Double { bits: ONE }
    } else if i == 2 {
        Double { bits: TWO }
    } else {
        Double { bits: THREE }
    }
}

pub fn value_of_division(i: usize) -> (value: Double)
    ensures
        value == division_value(i as int),
{
    if i == 0 {
        Double { bits: ZERO }
    } else if i == 1 {
        Double { bits: ONE }
    } else if i == 2 {
        Double { bits: TWO }
    } else {
        Double { bits: THREE }
    }
}

/// The length of a division in sixteenths of a bar: a beat is a quarter of one.
pub open spec fn sixteenths(i: int) -> int {
    if i <= 0 {
        4
    } else if i == 1 {
        2
    } else if i == 2 {
        3
    } else {
        1
    }
}

pub fn division_sixteenths(i: usize) -> (n: u32)
    ensures
        n == sixteenths(i as int),
{
    if i == 0 {
        4
    } else if i == 1 {
        2
    } else if i == 2 {
        3
    } else {
        1
    }
}

impl FxParam {
    /// The least and the most a control sets, and what a fresh effect has.
    pub open spec fn limits(self) -> (Double, Double, Double) {
        match self {
            FxParam::Cutoff => (Double { bits: LOWEST_CUTOFF }, Double { bits: HIGHEST_CUTOFF }, Double { bits: FIRST_CUTOFF }),
            FxParam::Q => (Double { bits: TENTH }, Double { bits: FOURTEEN }, Double { bits: TWO }),
            FxParam::Semitones => (Double { bits: MINUS_TWELVE }, Double { bits: TWELVE }, Double { bits: ZERO }),
            FxParam::Rate | FxParam::Time => (Double { bits: ZERO }, Double { bits: THREE }, Double { bits: ONE }),
            FxParam::Feedback => (Double { bits: ZERO }, Double { bits: MAX_FEEDBACK }, Double { bits: TWO_FIFTHS }),
            FxParam::Mix | FxParam::Amount => (Double { bits: ZERO }, Double { bits: ONE }, Double { bits: THREE_TENTHS }),
        }
    }

    pub fn range(self) -> (limits: (Double, Double, Double))
        ensures
            limits == self.limits(),
    {
        match self {
            FxParam::Cutoff => (Double { bits: LOWEST_CUTOFF }, Double { bits: HIGHEST_CUTOFF }, Double { bits: FIRST_CUTOFF }),
            FxParam::Q => (Double { bits: TENTH }, Double { bits: FOURTEEN }, Double { bits: TWO }),
            FxParam::Semitones => (Double { bits: MINUS_TWELVE }, Double { bits: TWELVE }, Double { bits: ZERO }),
            FxParam::Rate | FxParam::Time => (Double { bits: ZERO }, Double { bits: THREE }, Double { bits: ONE }),
            FxParam::Feedback => (Double { bits: ZERO }, Double { bits: MAX_FEEDBACK }, Double { bits: TWO_FIFTHS }),
            FxParam::Mix | FxParam::Amount => (Double { bits: ZERO }, Double { bits: ONE }, Double { bits: THREE_TENTHS }),
        }
    }

    /// What an effect keeps of a value: a division picks one of the divisions, a level stays a level.
    pub open spec fn kept(self, value: Double) -> Double {
        match self {
            FxParam::Rate | FxParam::Time => division_value(division_of(value)),
            FxParam::Feedback => value.held(Double { bits: ZERO }, Double { bits: MAX_FEEDBACK }),
            FxParam::Mix | FxParam::Amount => value.held(Double { bits: ZERO }, Double { bits: ONE }),
            _ => value,
        }
    }

    pub fn keep(self, value: Double) -> (r: Double)
        requires
            value.finite(),
        ensures
            r == self.kept(value),
    {
        match self {
            FxParam::Rate | FxParam::Time => value_of_division(division(value)),
            FxParam::Feedback => value.hold(Double { bits: ZERO }, Double { bits: MAX_FEEDBACK }),
            FxParam::Mix | FxParam::Amount => value.hold(Double { bits: ZERO }, Double { bits: ONE }),
            _ => value,
        }
    }

    /// What an effect keeps, it keeps again: a state taken over is the state that was handed on.
    pub proof fn law_a_kept_value_is_kept_again(self, value: Double)
        ensures
            self.kept(self.kept(value)) == self.kept(value),
    {
    }

    /// A fresh effect's value is one that it keeps, within what a control sets.
    pub proof fn law_a_fresh_value_is_in_range(self)
        ensures
            self.kept(self.limits().2) == self.limits().2,
            self.limits().0.rank() <= self.limits().2.rank() <= self.limits().1.rank(),
            self.limits().2.finite(),
    {
    }
}

/// The params one effect has at most.
pub const MAX_PARAMS: usize = 3;

/// An effect's bypass and its params, in their order (unused places stay 0).
#[derive(Clone, Copy, Debug)]
pub struct FxState {
    pub bypassed: bool,
    pub params: [Double; 3],
}

impl FxState {
    pub open spec fn is_default(self, kind: FxKind) -> bool {
        &&& self.bypassed
        &&& forall|i: int|
            0 <= i < MAX_PARAMS ==> #[trigger] self.params@[i] == (if i < kind.count() {
                FxParam::nth(kind, i).limits().2
            } else {
                Double { bits: ZERO }
            })
    }

    /// Bypassed, the params as they come.
    pub fn default_for(kind: FxKind) -> (s: FxState)
        ensures
            s.is_default(kind),
    {
        let params: [Double; 3] = match kind {
            FxKind::Filter => [Double { bits: FIRST_CUTOFF }, Double { bits: TWO }, Double { bits: ZERO }],
            FxKind::Pitch => [Double { bits: ZERO }, Double { bits: ZERO }, Double { bits: ZERO }],
            FxKind::Stutter => [Double { bits: ONE }, Double { bits: ZERO }, Double { bits: ZERO }],
            FxKind::Delay => [Double { bits: ONE }, Double { bits: TWO_FIFTHS }, Double { bits: THREE_TENTHS }],
            FxKind::Reverb => [Double { bits: THREE_TENTHS }, Double { bits: ZERO }, Double { bits: ZERO }],
        };
        FxState { bypassed: true, params }
    }
}

/// The grid the rhythmic effects follow, in seconds: where a beat falls, and how long it is.
#[derive(Clone, Copy, Debug, PartialEq, Eq, Structural)]
pub struct FxTiming {
    pub anchor: Double,
    pub beat_period: Double,
}

impl FxTiming {
    /// A grid is usable where its anchor is finite and its beat a positive finite time.
    pub fn check(self) -> (r: Result<(), InvalidTiming>)
        ensures
            r is Ok <==> self.anchor.finite() && self.beat_period.finite() && self.beat_period.rank() > 0,
    {
        if self.anchor.is_finite() && self.beat_period.is_finite() && self.beat_period.above(Double { bits: ZERO }) {
            Ok(())
        } else {
            Err(InvalidTiming)
        }
    }
}

/// A grid that cannot be followed: the anchor must be finite and the beat period positive.
#[derive(Clone, Copy, Debug, PartialEq, Eq, Structural)]
pub struct InvalidTiming;

/// A division is picked back from its value, and a larger value picks no shorter place in the list.
pub proof fn law_a_division_is_picked_back(i: int, a: Double, b: Double)
    requires
        0 <= i < 4,
        a.rank() <= b.rank(),
    ensures
        division_of(division_value(i)) == i,
        0 <= division_of(a) <= division_of(b) < 4,
{
}

/// A quarter note is two eighths, a dotted eighth one and a half, an eighth two sixteenths; four quarters make a bar
/// of sixteen.
pub proof fn law_divisions_are_notes()
    ensures
        4 * sixteenths(0) == 16,
        sixteenths(0) == 2 * sixteenths(1),
        2 * sixteenths(2) == 3 * sixteenths(1),
        sixteenths(1) == 2 * sixteenths(3),
{
}

} // verus!

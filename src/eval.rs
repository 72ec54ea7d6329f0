//! Gain ratios and the ranking of candidate splits.
use vstd::prelude::*;

verus! {

/// Bit pattern of the IEEE-754 double `+inf`; bit patterns above it (sign bit set aside)
/// are NaNs.
pub const INFINITY_BITS: u64 = 0x7ff0_0000_0000_0000;

/// The sign bit of an IEEE-754 double.
pub const SIGN_BIT: u64 = 0x8000_0000_0000_0000;

/// A gain ratio, held as the bit pattern of the IEEE-754 double that the scoring
/// function produced. Two gain ratios are `==` when they rank level: both NaN, or
/// both the same number (`+0.0 == -0.0`).
#[derive(Clone, Copy, Debug)]
pub struct GainRatio {
    pub bits: u64,
}

/// Whether a bit pattern encodes a NaN.
pub open spec fn nan_bits(bits: u64) -> bool {
    (bits as int) % (SIGN_BIT as int) > INFINITY_BITS as int
}

/// An integer that orders the non-NaN doubles as their values do: positive doubles
/// are ordered by their bits, negative ones by the bits of their magnitude reversed,
/// and both zeros map to 0.
pub open spec fn order_key(bits: u64) -> int {
    if bits < SIGN_BIT {
        bits as int
    } else {
        SIGN_BIT as int - bits as int
    }
}

impl GainRatio {
    pub open spec fn is_nan_spec(&self) -> bool {
        nan_bits(self.bits)
    }

    pub open spec fn key(&self) -> int {
        order_key(self.bits)
    }

    /// The gain ratio whose double has the given bit pattern.
    pub fn from_bits(bits: u64) -> (r: GainRatio)
        ensures
            r.bits == bits,
    {
        GainRatio { bits }
    }

    /// The gain ratio `+0.0`.
    pub open spec fn zero_spec() -> GainRatio {
        GainRatio { bits: 0 }
    }

    /// The gain ratio `+0.0`, given to a split that leaves one branch empty.
    pub fn zero() -> (r: GainRatio)
        ensures
            r == GainRatio::zero_spec(),
            !r.is_nan_spec(),
            r.key() == 0,
    {
        GainRatio { bits: 0 }
    }

    /// Whether the double is a NaN.
    #[verifier::when_used_as_spec(is_nan_spec)]
    pub fn is_nan(&self) -> (r: bool)
        ensures
            r == self.is_nan_spec(),
    {
        let magnitude: u64 = if self.bits >= SIGN_BIT {
            self.bits - SIGN_BIT
        } else {
            self.bits
        };
        magnitude > INFINITY_BITS
    }

    /// Compares two non-NaN gain ratios by value: negative, zero or positive as
    /// `self` is below, equal to or above `other`.
    fn compare_values(&self, other: &GainRatio) -> (r: i8)
        ensures
            r < 0 <==> self.key() < other.key(),
            r == 0 <==> self.key() == other.key(),
            r > 0 <==> self.key() > other.key(),
    {
        let a_neg = self.bits >= SIGN_BIT;
        let b_neg = other.bits >= SIGN_BIT;
        if !a_neg && !b_neg {
            if self.bits < other.bits {
                -1
            } else if self.bits == other.bits {
                0
            } else {
                1
            }
        } else if a_neg && b_neg {
            if self.bits > other.bits {
                -1
            } else if self.bits == other.bits {
                0
            } else {
                1
            }
        } else if a_neg {
            // self <= -0 and other >= +0: equal only when both are zeros
            if self.bits == SIGN_BIT && other.bits == 0 {
                0
            } else {
                -1
            }
        } else {
            if self.bits == 0 && other.bits == SIGN_BIT {
                0
            } else {
                1
            }
        }
    }
}

/// Whether two gain ratios rank level: both NaN, or both the same number.
pub open spec fn same_gain(a: GainRatio, b: GainRatio) -> bool {
    if a.is_nan_spec() || b.is_nan_spec() {
        a.is_nan_spec() && b.is_nan_spec()
    } else {
        a.key() == b.key()
    }
}

impl PartialEq for GainRatio {
    fn eq(&self, other: &GainRatio) -> (r: bool)
        ensures
            r == same_gain(*self, *other),
    {
        let a_nan = self.is_nan();
        let b_nan = other.is_nan();
        if a_nan || b_nan {
            a_nan && b_nan
        } else {
            self.compare_values(other) == 0
        }
    }
}

impl vstd::std_specs::cmp::PartialEqSpecImpl for GainRatio {
    open spec fn obeys_eq_spec() -> bool {
        true
    }

    open spec fn eq_spec(&self, other: &GainRatio) -> bool {
        same_gain(*self, *other)
    }
}

/// How desirable a candidate split is: its gain ratio, and the width of its wider
/// branch, which breaks ties between equal gain ratios. Two evaluations are `==`
/// exactly when they rank level (`equivalent`).
#[derive(Clone, Copy, Debug)]
pub struct DecisionEval {
    pub gain_ratio: GainRatio,
    pub max_branch_width: usize,
}

/// Whether `a` ranks strictly above `b`: a higher gain ratio wins, a NaN gain ratio
/// loses to every other one, and between equal (or two NaN) gain ratios the smaller
/// branch width wins.
pub open spec fn better(a: DecisionEval, b: DecisionEval) -> bool {
    let (ga, gb) = (a.gain_ratio, b.gain_ratio);
    if ga.is_nan_spec() && gb.is_nan_spec() {
        a.max_branch_width < b.max_branch_width
    } else if ga.is_nan_spec() {
        false
    } else if gb.is_nan_spec() {
        true
    } else if ga.key() != gb.key() {
        ga.key() > gb.key()
    } else {
        a.max_branch_width < b.max_branch_width
    }
}

/// `a` and `b` rank level: both gain ratios are NaN or both equal the same number,
/// and the branch widths agree.
pub open spec fn equivalent(a: DecisionEval, b: DecisionEval) -> bool {
    &&& a.gain_ratio.is_nan_spec() == b.gain_ratio.is_nan_spec()
    &&& (!a.gain_ratio.is_nan_spec() ==> a.gain_ratio.key() == b.gain_ratio.key())
    &&& a.max_branch_width == b.max_branch_width
}

/// The ranking as an `Ordering`: `Greater` when `a` is the better split.
pub open spec fn rank(a: DecisionEval, b: DecisionEval) -> core::cmp::Ordering {
    if better(a, b) {
        core::cmp::Ordering::Greater
    } else if better(b, a) {
        core::cmp::Ordering::Less
    } else {
        core::cmp::Ordering::Equal
    }
}

impl PartialEq for DecisionEval {
    fn eq(&self, other: &DecisionEval) -> (r: bool)
        ensures
            r == equivalent(*self, *other),
    {
        self.gain_ratio.eq(&other.gain_ratio) && self.max_branch_width == other.max_branch_width
    }
}

impl vstd::std_specs::cmp::PartialEqSpecImpl for DecisionEval {
    open spec fn obeys_eq_spec() -> bool {
        true
    }

    open spec fn eq_spec(&self, other: &DecisionEval) -> bool {
        equivalent(*self, *other)
    }
}

impl DecisionEval {
    /// Ranks `self` against `other`; `Greater` means that `self` is the better split.
    pub fn compare(&self, other: &DecisionEval) -> (r: core::cmp::Ordering)
        ensures
            r == rank(*self, *other),
    {
        let a_nan = self.gain_ratio.is_nan();
        let b_nan = other.gain_ratio.is_nan();
        let by_width = if self.max_branch_width < other.max_branch_width {
            core::cmp::Ordering::Greater
        } else if self.max_branch_width == other.max_branch_width {
            core::cmp::Ordering::Equal
        } else {
            core::cmp::Ordering::Less
        };
        if a_nan && b_nan {
            by_width
        } else if a_nan {
            core::cmp::Ordering::Less
        } else if b_nan {
            core::cmp::Ordering::Greater
        } else {
            let c = self.gain_ratio.compare_values(&other.gain_ratio);
            if c > 0 {
                core::cmp::Ordering::Greater
            } else if c < 0 {
                core::cmp::Ordering::Less
            } else {
                by_width
            }
        }
    }

    /// Whether `self` ranks strictly above `other`.
    pub fn is_better_than(&self, other: &DecisionEval) -> (r: bool)
        ensures
            r == better(*self, *other),
    {
        match self.compare(other) {
            core::cmp::Ordering::Greater => true,
            _ => false,
        }
    }
}

/// No evaluation ranks above itself.
pub proof fn lemma_rank_irreflexive(a: DecisionEval)
    ensures
        !better(a, a),
        rank(a, a) == core::cmp::Ordering::Equal,
{
}

/// The ranking is antisymmetric: `a` is above `b` exactly when `b` is below `a`.
pub proof fn lemma_rank_antisymmetric(a: DecisionEval, b: DecisionEval)
    ensures
        better(a, b) ==> !better(b, a),
        rank(a, b) == core::cmp::Ordering::Greater <==> rank(b, a) == core::cmp::Ordering::Less,
        rank(a, b) == core::cmp::Ordering::Equal <==> rank(b, a) == core::cmp::Ordering::Equal,
{
}

/// The ranking is transitive, and so is ranking level.
pub proof fn lemma_rank_transitive(a: DecisionEval, b: DecisionEval, c: DecisionEval)
    ensures
        better(a, b) && better(b, c) ==> better(a, c),
        rank(a, b) == core::cmp::Ordering::Equal && rank(b, c) == core::cmp::Ordering::Equal
            ==> rank(a, c) == core::cmp::Ordering::Equal,
{
    lemma_rank_total(a, b);
    lemma_rank_total(b, c);
    lemma_rank_total(a, c);
}

/// If `a` ranks above `c`, then any `b` ranks below `a` or above `c`.
pub proof fn lemma_rank_negative_transitive(a: DecisionEval, b: DecisionEval, c: DecisionEval)
    ensures
        better(a, c) ==> better(a, b) || better(b, c),
{
    lemma_rank_total(a, b);
    lemma_rank_total(b, c);
    lemma_rank_total(a, c);
}

/// Any two evaluations are comparable: exactly one ranks above the other, or they
/// rank level, and ranking level is being `equivalent`, which is what `==` tests.
pub proof fn lemma_rank_total(a: DecisionEval, b: DecisionEval)
    ensures
        better(a, b) || better(b, a) || equivalent(a, b),
        !(better(a, b) && better(b, a)),
        equivalent(a, b) <==> (!better(a, b) && !better(b, a)),
{
}

} // verus!

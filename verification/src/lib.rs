//! Counts occurrences of fixed-length symbol combinations across the lines of
//! a text corpus. An ordered alphabet and two boundary strings delimit the
//! combination space, which is enumerated odometer-style; every corpus line of
//! at least three symbols is tested for each combination as a substring; the
//! final counters are drained into a sparse report.

use vstd::prelude::*;

pub mod alphabet;
pub mod count;
pub mod generate;
pub mod report;
pub mod space;

verus! {

/// `base` raised to the power `exp`; the size of the space of length-`exp`
/// strings over an alphabet of `base` symbols.
pub open spec fn pow_int(base: int, exp: nat) -> int
    decreases exp,
{
    if exp == 0 {
        1
    } else {
        base * pow_int(base, (exp - 1) as nat)
    }
}

/// A positive base raised to any power is positive.
pub proof fn lemma_pow_positive(base: int, exp: nat)
    requires
        base >= 1,
    ensures
        pow_int(base, exp) >= 1,
    decreases exp,
{
    if exp > 0 {
        lemma_pow_positive(base, (exp - 1) as nat);
        assert(base * pow_int(base, (exp - 1) as nat) >= 1) by (nonlinear_arith)
            requires
                base >= 1,
                pow_int(base, (exp - 1) as nat) >= 1,
        ;
    }
}

/// The character sequences denoted by a vector of character vectors.
pub open spec fn seq_views(s: Seq<Vec<char>>) -> Seq<Seq<char>> {
    s.map_values(|v: Vec<char>| v@)
}

} // verus!


//! The combination generator: enumerates every string of a fixed length over
//! an ordered alphabet lying between two boundary strings inclusive, in
//! odometer order (least significant position last, wrapping carries).

use vstd::prelude::*;
use crate::lemma_pow_positive;
use crate::pow_int;
use crate::space::chars_of_ranks;
use crate::space::comb_of;
use crate::space::ints_of;
use crate::space::lemma_digits_of_value;
use crate::space::lemma_first_diff_lex;
use crate::space::lemma_ints_of_update;
use crate::space::lemma_lex_lt_value;
use crate::space::lemma_ranks_of_string;
use crate::space::lemma_value_of_bounds;
use crate::space::lemma_value_of_maxed;
use crate::space::lemma_value_of_update;
use crate::space::lemma_value_of_zeros;
use crate::space::position_of;
use crate::space::rank_in;
use crate::space::ranks_in_range;
use crate::space::ranks_of;
use crate::space::symbols_from;
use crate::space::value_of;

verus! {

/// The one way `generate` rejects its inputs: boundary strings of unequal
/// length, a boundary symbol absent from the alphabet, or an alphabet of
/// fewer than two symbols.
#[derive(Clone, Copy, PartialEq, Eq, Structural, Debug)]
pub enum GenerateError {
    InvalidFormat,
}

/// The inputs `generate` accepts: equal-length boundary strings whose
/// symbols all come from an alphabet of at least two symbols.
pub open spec fn generate_inputs_ok(a: Seq<char>, start: Seq<char>, end: Seq<char>) -> bool {
    &&& a.len() >= 2
    &&& start.len() == end.len()
    &&& symbols_from(a, start)
    &&& symbols_from(a, end)
}

/// Finds the index of `c` in `alphabet` by linear scan.
fn find_rank(alphabet: &Vec<char>, c: char) -> (r: Option<usize>)
    ensures
        match r {
            Some(i) => i < alphabet@.len() && alphabet@[i as int] == c,
            None => !alphabet@.contains(c),
        },
{
    let mut i: usize = 0;
    while i < alphabet.len()
        invariant
            i <= alphabet@.len(),
            forall|k: int| 0 <= k < i ==> alphabet@[k] != c,
        decreases alphabet@.len() - i,
    {
        if alphabet[i] == c {
            return Some(i);
        }
        i += 1;
    }
    None
}

/// Converts a boundary string to its rank vector, rejecting any symbol
/// absent from the alphabet.
fn ranks_of_string(alphabet: &Vec<char>, s: &Vec<char>) -> (r: Option<Vec<usize>>)
    requires
        alphabet@.no_duplicates(),
    ensures
        match r {
            Some(v) => {
                &&& symbols_from(alphabet@, s@)
                &&& v@.len() == s@.len()
                &&& ints_of(v@) == ranks_of(alphabet@, s@)
            },
            None => !symbols_from(alphabet@, s@),
        },
{
    let mut out: Vec<usize> = Vec::new();
    let mut i: usize = 0;
    while i < s.len()
        invariant
            alphabet@.no_duplicates(),
            i <= s@.len(),
            out@.len() == i,
            forall|k: int| 0 <= k < i ==> alphabet@.contains(#[trigger] s@[k]),
            forall|k: int| 0 <= k < i ==> ints_of(out@)[k] == rank_in(alphabet@, s@[k]),
        decreases s@.len() - i,
    {
        match find_rank(alphabet, s[i]) {
            None => {
                proof {
                    assert(!symbols_from(alphabet@, s@));
                }
                return None;
            },
            Some(f) => {
                proof {
                    assert(alphabet@[f as int] == s@[i as int]);
                    assert(alphabet@.contains(s@[i as int]));
                    let idx = rank_in(alphabet@, s@[i as int]);
                    assert(0 <= idx < alphabet@.len() && alphabet@[idx] == s@[i as int]);
                    if idx != f as int {
                        assert(alphabet@[idx] != alphabet@[f as int]);
                        assert(false);
                    }
                }
                let ghost prevu = out@;
                out.push(f);
                proof {
                    assert(ints_of(out@) =~= ints_of(prevu).push(f as int));
                }
            },
        }
        i += 1;
    }
    proof {
        assert(ints_of(out@) =~= ranks_of(alphabet@, s@));
    }
    Some(out)
}

/// Maps a rank vector back to the combination string it denotes.
fn chars_from_ranks(alphabet: &Vec<char>, r: &Vec<usize>) -> (s: Vec<char>)
    requires
        ranks_in_range(ints_of(r@), alphabet@.len() as int),
    ensures
        s@ == chars_of_ranks(alphabet@, ints_of(r@)),
{
    let mut s: Vec<char> = Vec::new();
    let mut i: usize = 0;
    while i < r.len()
        invariant
            ranks_in_range(ints_of(r@), alphabet@.len() as int),
            i <= r@.len(),
            s@.len() == i,
            forall|k: int| 0 <= k < i ==> s@[k] == chars_of_ranks(alphabet@, ints_of(r@))[k],
        decreases r@.len() - i,
    {
        proof {
            assert(ints_of(r@)[i as int] == r@[i as int] as int);
        }
        s.push(alphabet[r[i]]);
        i += 1;
    }
    proof {
        assert(s@ =~= chars_of_ranks(alphabet@, ints_of(r@)));
    }
    s
}

/// Tests two rank vectors for equality.
fn ranks_equal(x: &Vec<usize>, y: &Vec<usize>) -> (r: bool)
    ensures
        r == (x@ == y@),
{
    if x.len() != y.len() {
        return false;
    }
    let mut i: usize = 0;
    while i < x.len()
        invariant
            x@.len() == y@.len(),
            i <= x@.len(),
            forall|k: int| 0 <= k < i ==> x@[k] == y@[k],
        decreases x@.len() - i,
    {
        if x[i] != y[i] {
            return false;
        }
        i += 1;
    }
    proof {
        assert(x@ =~= y@);
    }
    true
}

/// Decides whether the first odometer reading is at or before the second.
fn ranks_le(x: &Vec<usize>, y: &Vec<usize>, base: usize) -> (r: bool)
    requires
        x@.len() == y@.len(),
        base >= 1,
        ranks_in_range(ints_of(x@), base as int),
        ranks_in_range(ints_of(y@), base as int),
    ensures
        r == (value_of(ints_of(x@), base as int) <= value_of(ints_of(y@), base as int)),
{
    let mut i: usize = 0;
    while i < x.len()
        invariant
            x@.len() == y@.len(),
            base >= 1,
            ranks_in_range(ints_of(x@), base as int),
            ranks_in_range(ints_of(y@), base as int),
            i <= x@.len(),
            forall|k: int| 0 <= k < i ==> ints_of(x@)[k] == #[trigger] ints_of(y@)[k],
        decreases x@.len() - i,
    {
        if x[i] < y[i] {
            proof {
                lemma_first_diff_lex(ints_of(x@), ints_of(y@), i as int);
                lemma_lex_lt_value(ints_of(x@), ints_of(y@), base as int);
            }
            return true;
        }
        if x[i] > y[i] {
            proof {
                lemma_first_diff_lex(ints_of(y@), ints_of(x@), i as int);
                lemma_lex_lt_value(ints_of(y@), ints_of(x@), base as int);
            }
            return false;
        }
        i += 1;
    }
    proof {
        assert(ints_of(x@) =~= ints_of(y@));
    }
    true
}

/// Advances the odometer one step: increments the least significant rank,
/// carrying into more significant positions, each wrapped rank returning to
/// the lowest rank.
fn incr_ranks(ranks: &mut Vec<usize>, base: usize)
    requires
        base >= 1,
        old(ranks)@.len() >= 1,
        ranks_in_range(ints_of(old(ranks)@), base as int),
        value_of(ints_of(old(ranks)@), base as int) + 1 < pow_int(
            base as int,
            old(ranks)@.len() as nat,
        ),
    ensures
        final(ranks)@.len() == old(ranks)@.len(),
        ranks_in_range(ints_of(final(ranks)@), base as int),
        value_of(ints_of(final(ranks)@), base as int) == value_of(
            ints_of(old(ranks)@),
            base as int,
        ) + 1,
{
    let ghost orig = ints_of(old(ranks)@);
    let ghost b = base as int;
    let ghost n = old(ranks)@.len() as int;
    let mut i: usize = ranks.len();
    while i > 0 && ranks[i - 1] == base - 1
        invariant
            base >= 1,
            ranks@.len() == n,
            i <= n,
            ranks_in_range(ints_of(ranks@), b),
            value_of(ints_of(ranks@), b) == value_of(orig, b) - (pow_int(b, (n - i) as nat) - 1),
            forall|k: int| 0 <= k < i ==> ints_of(ranks@)[k] == orig[k],
            forall|k: int| i <= k < n ==> orig[k] == b - 1,
            orig == ints_of(old(ranks)@),
            b == base as int,
            n == old(ranks)@.len() as int,
            ranks_in_range(orig, b),
            value_of(orig, b) + 1 < pow_int(b, n as nat),
        decreases i,
    {
        let j = i - 1;
        proof {
            assert(ints_of(ranks@)[j as int] == ranks@[j as int] as int);
            assert(ints_of(ranks@)[j as int] == orig[j as int]);
        }
        let ghost prevu = ranks@;
        ranks.set(j, 0);
        proof {
            lemma_ints_of_update(prevu, j as int, 0);
            lemma_value_of_update(ints_of(prevu), j as int, 0, b);
            let p = pow_int(b, (n - 1 - j) as nat);
            assert(ints_of(prevu)[j as int] == b - 1);
            assert((0 - (b - 1)) * p == p - b * p) by (nonlinear_arith);
            assert(pow_int(b, (n - j) as nat) == b * p);
            assert(value_of(ints_of(ranks@), b) == value_of(orig, b) - (pow_int(
                b,
                (n - j) as nat,
            ) - 1));
        }
        i = j;
    }
    proof {
        if i == 0 {
            lemma_value_of_bounds(ints_of(ranks@), b);
            assert(pow_int(b, (n - 0) as nat) == pow_int(b, n as nat));
            assert(false);
        }
    }
    let j = i - 1;
    proof {
        assert(ints_of(ranks@)[j as int] == ranks@[j as int] as int);
        assert(ints_of(ranks@)[j as int] == orig[j as int]);
        assert(orig[j as int] < b - 1);
    }
    let d = ranks[j];
    let dn = d + 1;
    let ghost prevu = ranks@;
    ranks.set(j, dn);
    proof {
        lemma_ints_of_update(prevu, j as int, dn);
        lemma_value_of_update(ints_of(prevu), j as int, dn as int, b);
        assert(ints_of(prevu)[j as int] == d as int);
        assert((dn as int - d as int) * pow_int(b, (n - 1 - j) as nat) == pow_int(
            b,
            (n - 1 - j) as nat,
        )) by (nonlinear_arith)
            requires
                dn as int == d as int + 1,
        ;
        assert(value_of(ints_of(ranks@), b) == value_of(orig, b) + 1);
    }
}

/// A run of consecutive positions in the space yields pairwise distinct
/// combinations: what the generator emits can seed a count table, whose
/// keys may not repeat.
pub proof fn lemma_combination_run_distinct(a: Seq<char>, combos: Seq<Seq<char>>, lo: int, len: nat)
    requires
        a.no_duplicates(),
        a.len() >= 1,
        0 <= lo,
        lo + combos.len() <= pow_int(a.len() as int, len),
        forall|k: int| 0 <= k < combos.len() ==> #[trigger] combos[k] == comb_of(a, lo + k, len),
    ensures
        combos.no_duplicates(),
{
    assert forall|i: int, j: int|
        0 <= i < combos.len() && 0 <= j < combos.len() && i != j implies combos[i] != combos[j] by {
        if i < j {
            crate::space::lemma_comb_of_injective(a, lo + i, lo + j, len);
        } else {
            crate::space::lemma_comb_of_injective(a, lo + j, lo + i, len);
        }
    }
}

/// Enumerates every string of length `start.len()` over `alphabet` that lies
/// between `start` and `end` inclusive, in strictly increasing odometer
/// order: the result's `k`th element is the combination `k` places past
/// `start`. Rejects boundary strings of unequal length, boundary symbols
/// absent from the alphabet, and alphabets of fewer than two symbols. When
/// `start` lies after `end` in the enumeration order the result is empty.
pub fn generate(alphabet: &Vec<char>, start: &Vec<char>, end: &Vec<char>) -> (r: Result<
    Vec<Vec<char>>,
    GenerateError,
>)
    requires
        alphabet@.no_duplicates(),
    ensures
        match r {
            Ok(combos) => {
                &&& generate_inputs_ok(alphabet@, start@, end@)
                &&& ({
                    let lo = position_of(alphabet@, start@);
                    let hi = position_of(alphabet@, end@);
                    if lo <= hi {
                        &&& combos@.len() == hi - lo + 1
                        &&& forall|k: int|
                            0 <= k < combos@.len() ==> (#[trigger] combos@[k])@ == comb_of(
                                alphabet@,
                                lo + k,
                                start@.len(),
                            )
                    } else {
                        combos@.len() == 0
                    }
                })
            },
            Err(e) => {
                &&& e == GenerateError::InvalidFormat
                &&& !generate_inputs_ok(alphabet@, start@, end@)
            },
        },
{
    if alphabet.len() < 2 {
        return Err(GenerateError::InvalidFormat);
    }
    if start.len() != end.len() {
        return Err(GenerateError::InvalidFormat);
    }
    let start_ranks = match ranks_of_string(alphabet, start) {
        Some(v) => v,
        None => {
            return Err(GenerateError::InvalidFormat);
        },
    };
    let end_ranks = match ranks_of_string(alphabet, end) {
        Some(v) => v,
        None => {
            return Err(GenerateError::InvalidFormat);
        },
    };
    let ghost a = alphabet@;
    let ghost b = a.len() as int;
    let ghost ll = start@.len();
    let ghost lo = position_of(a, start@);
    let ghost hi = position_of(a, end@);
    proof {
        lemma_ranks_of_string(a, start@);
        lemma_ranks_of_string(a, end@);
        lemma_value_of_bounds(ints_of(start_ranks@), b);
        lemma_value_of_bounds(ints_of(end_ranks@), b);
    }
    if !ranks_le(&start_ranks, &end_ranks, alphabet.len()) {
        return Ok(Vec::new());
    }
    let mut current = start_ranks;
    let mut out: Vec<Vec<char>> = Vec::new();
    let first_comb = chars_from_ranks(alphabet, &current);
    out.push(first_comb);
    proof {
        lemma_digits_of_value(ints_of(current@), b);
    }
    while !ranks_equal(&current, &end_ranks)
        invariant
            a == alphabet@,
            b == a.len() as int,
            b >= 2,
            a.no_duplicates(),
            ll == start@.len(),
            current@.len() == ll,
            end_ranks@.len() == ll,
            ranks_in_range(ints_of(current@), b),
            ints_of(end_ranks@) == ranks_of(a, end@),
            ranks_in_range(ints_of(end_ranks@), b),
            value_of(ints_of(end_ranks@), b) == hi,
            hi < pow_int(b, ll),
            0 <= lo <= value_of(ints_of(current@), b) <= hi,
            out@.len() == value_of(ints_of(current@), b) - lo + 1,
            forall|k: int| 0 <= k < out@.len() ==> (#[trigger] out@[k])@ == comb_of(a, lo + k, ll),
        decreases hi - value_of(ints_of(current@), b),
    {
        proof {
            let vc = value_of(ints_of(current@), b);
            if vc == hi {
                lemma_digits_of_value(ints_of(current@), b);
                lemma_digits_of_value(ints_of(end_ranks@), b);
                assert(ints_of(current@) == ints_of(end_ranks@));
                assert forall|k: int| 0 <= k < current@.len() implies current@[k] == #[trigger] end_ranks@[k] by {
                    assert(ints_of(current@)[k] == ints_of(end_ranks@)[k]);
                }
                assert(current@ =~= end_ranks@);
                assert(false);
            }
        }
        incr_ranks(&mut current, alphabet.len());
        let c = chars_from_ranks(alphabet, &current);
        out.push(c);
        proof {
            lemma_digits_of_value(ints_of(current@), b);
        }
    }
    proof {
        assert(value_of(ints_of(current@), b) == hi);
    }
    Ok(out)
}

/// Builds the full combination set for `alphabet` at length `len`: every
/// length-`len` string over the alphabet, from the all-lowest-rank string to
/// the all-highest-rank string inclusive, in enumeration order. Rejects an
/// alphabet of fewer than two symbols.
pub fn dict_for_with_len(alphabet: &Vec<char>, len: usize) -> (r: Result<
    Vec<Vec<char>>,
    GenerateError,
>)
    requires
        alphabet@.no_duplicates(),
    ensures
        match r {
            Ok(combos) => {
                &&& alphabet@.len() >= 2
                &&& combos@.len() == pow_int(alphabet@.len() as int, len as nat)
                &&& forall|k: int|
                    0 <= k < combos@.len() ==> (#[trigger] combos@[k])@ == comb_of(
                        alphabet@,
                        k,
                        len as nat,
                    )
            },
            Err(e) => {
                &&& e == GenerateError::InvalidFormat
                &&& alphabet@.len() < 2
            },
        },
{
    if alphabet.len() < 2 {
        return Err(GenerateError::InvalidFormat);
    }
    let first = alphabet[0];
    let last = alphabet[alphabet.len() - 1];
    let mut start: Vec<char> = Vec::new();
    let mut end: Vec<char> = Vec::new();
    let mut i: usize = 0;
    while i < len
        invariant
            i <= len,
            start@.len() == i,
            end@.len() == i,
            forall|k: int| 0 <= k < i ==> #[trigger] start@[k] == first,
            forall|k: int| 0 <= k < i ==> #[trigger] end@[k] == last,
            first == alphabet@[0],
            last == alphabet@[alphabet@.len() - 1],
            alphabet@.len() >= 2,
        decreases len - i,
    {
        start.push(first);
        end.push(last);
        i += 1;
    }
    let ghost a = alphabet@;
    let ghost b = a.len() as int;
    proof {
        assert forall|k: int| 0 <= k < start@.len() implies a.contains(#[trigger] start@[k]) by {
            assert(a[0] == start@[k]);
        }
        assert forall|k: int| 0 <= k < end@.len() implies a.contains(#[trigger] end@[k]) by {
            assert(a[a.len() - 1] == end@[k]);
        }
        assert forall|k: int| 0 <= k < start@.len() implies #[trigger] ranks_of(a, start@)[k]
            == 0 by {
            assert(a.contains(start@[k]));
            let idx = rank_in(a, start@[k]);
            assert(0 <= idx < a.len() && a[idx] == start@[k]);
            if idx != 0 {
                assert(a[idx] != a[0]);
                assert(false);
            }
        }
        lemma_value_of_zeros(ranks_of(a, start@), b);
        assert forall|k: int| 0 <= k < end@.len() implies #[trigger] ranks_of(a, end@)[k] == b
            - 1 by {
            assert(a.contains(end@[k]));
            let idx = rank_in(a, end@[k]);
            assert(0 <= idx < a.len() && a[idx] == end@[k]);
            if idx != a.len() - 1 {
                assert(a[idx] != a[a.len() - 1]);
                assert(false);
            }
        }
        lemma_value_of_maxed(ranks_of(a, end@), b);
        lemma_pow_positive(b, len as nat);
    }
    match generate(alphabet, &start, &end) {
        Ok(v) => {
            proof {
                assert(position_of(a, start@) == 0);
                assert(position_of(a, end@) == pow_int(b, len as nat) - 1);
            }
            Ok(v)
        },
        Err(e) => {
            proof {
                assert(generate_inputs_ok(a, start@, end@));
                assert(false);
            }
            Err(e)
        },
    }
}

} // verus!

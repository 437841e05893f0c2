//! The mathematical model of the combination space: a length-L string over an
//! ordered alphabet is read as a rank vector (most significant position
//! first), and the rank vector as a number in base `alphabet.len()`. The
//! enumeration order of the space is the order of these numbers.

use vstd::prelude::*;
use vstd::arithmetic::div_mod::lemma_fundamental_div_mod;
use vstd::arithmetic::div_mod::lemma_fundamental_div_mod_converse;
use vstd::arithmetic::div_mod::lemma_mod_bound;
use vstd::arithmetic::div_mod::lemma_div_pos_is_pos;
use crate::pow_int;
use crate::lemma_pow_positive;

verus! {

/// Every entry of `r` is a rank: at least 0 and below `base`.
pub open spec fn ranks_in_range(r: Seq<int>, base: int) -> bool {
    forall|i: int| 0 <= i < r.len() ==> 0 <= #[trigger] r[i] < base
}

/// The number that rank vector `r` denotes in base `base`, most significant
/// position first: the odometer reading.
pub open spec fn value_of(r: Seq<int>, base: int) -> int
    decreases r.len(),
{
    if r.len() == 0 {
        0
    } else {
        value_of(r.drop_last(), base) * base + r.last()
    }
}

/// The length-`len` rank vector that denotes `v` in base `base`.
pub open spec fn digits_of(v: int, base: int, len: nat) -> Seq<int>
    decreases len,
{
    if len == 0 {
        Seq::empty()
    } else {
        digits_of(v / base, base, (len - 1) as nat).push(v % base)
    }
}

/// An in-range rank vector denotes a number below `base` to the vector's
/// length.
pub proof fn lemma_value_of_bounds(r: Seq<int>, base: int)
    requires
        base >= 1,
        ranks_in_range(r, base),
    ensures
        0 <= value_of(r, base) < pow_int(base, r.len()),
    decreases r.len(),
{
    if r.len() > 0 {
        let dl = r.drop_last();
        assert(ranks_in_range(dl, base));
        lemma_value_of_bounds(dl, base);
        let p = pow_int(base, dl.len());
        assert(0 <= value_of(dl, base) * base + r.last() < p * base) by (nonlinear_arith)
            requires
                0 <= value_of(dl, base) < p,
                0 <= r.last() < base,
                base >= 1,
        ;
        assert(pow_int(base, r.len()) == base * p);
        assert(p * base == base * p) by (nonlinear_arith);
    }
}

/// Reading a rank vector as a number and writing that number back as digits
/// restores the vector.
pub proof fn lemma_digits_of_value(r: Seq<int>, base: int)
    requires
        base >= 1,
        ranks_in_range(r, base),
    ensures
        digits_of(value_of(r, base), base, r.len()) == r,
    decreases r.len(),
{
    if r.len() == 0 {
        assert(digits_of(value_of(r, base), base, r.len()) =~= r);
    } else {
        let dl = r.drop_last();
        assert(ranks_in_range(dl, base));
        lemma_digits_of_value(dl, base);
        let v = value_of(r, base);
        lemma_fundamental_div_mod_converse(v, base, value_of(dl, base), r.last());
        assert(digits_of(v, base, r.len()) == dl.push(r.last()));
        assert(dl.push(r.last()) =~= r);
    }
}

/// Writing a number below `base` to the `len` as `len` digits and reading
/// them back restores the number; the digits are in range.
pub proof fn lemma_value_of_digits(v: int, base: int, len: nat)
    requires
        base >= 1,
        0 <= v < pow_int(base, len),
    ensures
        ranks_in_range(digits_of(v, base, len), base),
        digits_of(v, base, len).len() == len,
        value_of(digits_of(v, base, len), base) == v,
    decreases len,
{
    if len == 0 {
        assert(digits_of(v, base, len) =~= Seq::<int>::empty());
    } else {
        let p = pow_int(base, (len - 1) as nat);
        assert(pow_int(base, len) == base * p);
        lemma_mod_bound(v, base);
        lemma_fundamental_div_mod(v, base);
        lemma_div_pos_is_pos(v, base);
        assert(v / base < p) by {
            if v / base >= p {
                assert(base * (v / base) >= base * p) by (nonlinear_arith)
                    requires
                        v / base >= p,
                        base >= 1,
                ;
            }
        }
        lemma_value_of_digits(v / base, base, (len - 1) as nat);
        let d = digits_of(v / base, base, (len - 1) as nat);
        let whole = d.push(v % base);
        assert(whole.drop_last() =~= d);
        assert(value_of(whole, base) == value_of(d, base) * base + (v % base));
        assert(ranks_in_range(whole, base));
    }
}

/// Lexicographic order on rank vectors, most significant position first.
pub open spec fn lex_lt(x: Seq<int>, y: Seq<int>) -> bool
    decreases x.len(),
{
    &&& x.len() > 0
    &&& y.len() > 0
    &&& (x.first() < y.first() || (x.first() == y.first() && lex_lt(
        x.drop_first(),
        y.drop_first(),
    )))
}

/// Dropping the most significant position keeps the ranks in range.
proof fn lemma_ranks_in_range_drop_first(r: Seq<int>, base: int)
    requires
        r.len() > 0,
        ranks_in_range(r, base),
    ensures
        ranks_in_range(r.drop_first(), base),
{
    assert forall|i: int| 0 <= i < r.drop_first().len() implies 0 <= #[trigger] r.drop_first()[i]
        < base by {
        assert(r[i + 1] == r.drop_first()[i]);
    }
}

/// A rank vector's value, split at its most significant position.
proof fn lemma_value_of_first(r: Seq<int>, base: int)
    requires
        r.len() > 0,
    ensures
        value_of(r, base) == r.first() * pow_int(base, (r.len() - 1) as nat) + value_of(
            r.drop_first(),
            base,
        ),
    decreases r.len(),
{
    if r.len() == 1 {
        assert(r.drop_last() =~= Seq::<int>::empty());
        assert(r.drop_first() =~= Seq::<int>::empty());
        assert(value_of(r.drop_last(), base) == 0);
        assert(value_of(r.drop_first(), base) == 0);
        assert(value_of(r, base) == r.last());
        assert((r.len() - 1) as nat == 0);
        assert(pow_int(base, 0) == 1);
        assert(value_of(r, base) == r.first() * pow_int(base, (r.len() - 1) as nat) + value_of(
            r.drop_first(),
            base,
        ));
    } else {
        let dl = r.drop_last();
        lemma_value_of_first(dl, base);
        assert(r.drop_first().drop_last() =~= dl.drop_first());
        let ptail = pow_int(base, (r.len() - 2) as nat);
        assert(dl.first() == r.first());
        assert((dl.len() - 1) as nat == (r.len() - 2) as nat);
        assert(value_of(dl, base) == r.first() * ptail + value_of(dl.drop_first(), base));
        assert(value_of(r.drop_first(), base) == value_of(dl.drop_first(), base) * base
            + r.last());
        assert(r.drop_first().last() == r.last());
        assert((r.first() * ptail + value_of(dl.drop_first(), base)) * base == r.first() * (ptail * base)
            + value_of(dl.drop_first(), base) * base) by (nonlinear_arith);
        assert(ptail * base == base * ptail) by (nonlinear_arith);
        assert(pow_int(base, (r.len() - 1) as nat) == base * ptail);
    }
}

/// A lexicographically smaller in-range vector denotes a smaller number.
pub proof fn lemma_lex_lt_value(x: Seq<int>, y: Seq<int>, base: int)
    requires
        base >= 1,
        x.len() == y.len(),
        ranks_in_range(x, base),
        ranks_in_range(y, base),
        lex_lt(x, y),
    ensures
        value_of(x, base) < value_of(y, base),
    decreases x.len(),
{
    lemma_value_of_first(x, base);
    lemma_value_of_first(y, base);
    lemma_ranks_in_range_drop_first(x, base);
    lemma_ranks_in_range_drop_first(y, base);
    let p = pow_int(base, (x.len() - 1) as nat);
    if x.first() < y.first() {
        lemma_value_of_bounds(x.drop_first(), base);
        lemma_value_of_bounds(y.drop_first(), base);
        lemma_pow_positive(base, (x.len() - 1) as nat);
        assert((x.first() + 1) * p <= y.first() * p) by (nonlinear_arith)
            requires
                x.first() + 1 <= y.first(),
                p >= 1,
        ;
        assert(x.first() * p + p == (x.first() + 1) * p) by (nonlinear_arith);
    } else {
        lemma_lex_lt_value(x.drop_first(), y.drop_first(), base);
    }
}

/// Distinct equal-length vectors compare one way or the other.
pub proof fn lemma_lex_trichotomy(x: Seq<int>, y: Seq<int>)
    requires
        x.len() == y.len(),
        x != y,
    ensures
        lex_lt(x, y) || lex_lt(y, x),
    decreases x.len(),
{
    if x.len() == 0 {
        assert(x =~= y);
    } else if x.first() == y.first() {
        if x.drop_first() == y.drop_first() {
            assert forall|i: int| 0 <= i < x.len() implies x[i] == #[trigger] y[i] by {
                if i > 0 {
                    assert(x.drop_first()[i - 1] == y.drop_first()[i - 1]);
                }
            }
            assert(x =~= y);
        } else {
            lemma_lex_trichotomy(x.drop_first(), y.drop_first());
        }
    }
}

/// Numeric order and lexicographic order coincide on in-range vectors of one
/// length.
pub proof fn lemma_value_lt_iff_lex_lt(x: Seq<int>, y: Seq<int>, base: int)
    requires
        base >= 1,
        x.len() == y.len(),
        ranks_in_range(x, base),
        ranks_in_range(y, base),
    ensures
        value_of(x, base) < value_of(y, base) <==> lex_lt(x, y),
{
    if lex_lt(x, y) {
        lemma_lex_lt_value(x, y, base);
    } else if value_of(x, base) < value_of(y, base) {
        if x != y {
            lemma_lex_trichotomy(x, y);
            lemma_lex_lt_value(y, x, base);
        }
    }
}

/// The string whose symbols are the alphabet entries at the given ranks.
pub open spec fn chars_of_ranks(a: Seq<char>, r: Seq<int>) -> Seq<char> {
    Seq::new(r.len(), |i: int| a[r[i]])
}

/// The length-`len` combination sitting `v` places past the all-lowest-rank
/// string in the enumeration order over alphabet `a`.
pub open spec fn comb_of(a: Seq<char>, v: int, len: nat) -> Seq<char> {
    chars_of_ranks(a, digits_of(v, a.len() as int, len))
}

/// The rank of symbol `c` in alphabet `a`: its index.
pub open spec fn rank_in(a: Seq<char>, c: char) -> int {
    a.index_of(c)
}

/// The rank vector of string `s` over alphabet `a`.
pub open spec fn ranks_of(a: Seq<char>, s: Seq<char>) -> Seq<int> {
    s.map_values(|c: char| rank_in(a, c))
}

/// The position of string `s` in the enumeration order over alphabet `a`.
pub open spec fn position_of(a: Seq<char>, s: Seq<char>) -> int {
    value_of(ranks_of(a, s), a.len() as int)
}

/// Every symbol of `s` is drawn from alphabet `a`.
pub open spec fn symbols_from(a: Seq<char>, s: Seq<char>) -> bool {
    forall|i: int| 0 <= i < s.len() ==> a.contains(#[trigger] s[i])
}

/// A string over the alphabet has an in-range rank vector, and mapping the
/// ranks back through the alphabet restores the string.
pub proof fn lemma_ranks_of_string(a: Seq<char>, s: Seq<char>)
    requires
        symbols_from(a, s),
    ensures
        ranks_of(a, s).len() == s.len(),
        ranks_in_range(ranks_of(a, s), a.len() as int),
        chars_of_ranks(a, ranks_of(a, s)) == s,
{
    let r = ranks_of(a, s);
    assert forall|i: int| 0 <= i < s.len() implies 0 <= #[trigger] r[i] < a.len()
        && a[r[i]] == s[i] by {
        assert(a.contains(s[i]));
    }
    assert(chars_of_ranks(a, r) =~= s);
}

/// A string over the alphabet has a position below the size of the space,
/// and the combination sitting at that position is the string itself: with
/// equal boundaries the enumeration holds exactly the boundary.
pub proof fn lemma_comb_of_position(a: Seq<char>, s: Seq<char>)
    requires
        a.len() >= 1,
        symbols_from(a, s),
    ensures
        0 <= position_of(a, s) < pow_int(a.len() as int, s.len()),
        comb_of(a, position_of(a, s), s.len()) == s,
{
    lemma_ranks_of_string(a, s);
    lemma_value_of_bounds(ranks_of(a, s), a.len() as int);
    lemma_digits_of_value(ranks_of(a, s), a.len() as int);
}

/// Distinct positions in the space yield distinct combinations when the
/// alphabet holds no symbol twice.
pub proof fn lemma_comb_of_injective(a: Seq<char>, v1: int, v2: int, len: nat)
    requires
        a.no_duplicates(),
        a.len() >= 1,
        0 <= v1 < pow_int(a.len() as int, len),
        0 <= v2 < pow_int(a.len() as int, len),
        v1 != v2,
    ensures
        comb_of(a, v1, len) != comb_of(a, v2, len),
{
    let base = a.len() as int;
    lemma_value_of_digits(v1, base, len);
    lemma_value_of_digits(v2, base, len);
    let d1 = digits_of(v1, base, len);
    let d2 = digits_of(v2, base, len);
    if comb_of(a, v1, len) == comb_of(a, v2, len) {
        assert forall|i: int| 0 <= i < len implies d1[i] == d2[i] by {
            assert(chars_of_ranks(a, d1)[i] == chars_of_ranks(a, d2)[i]);
            assert(a[d1[i]] == a[d2[i]]);
        }
        assert(d1 =~= d2);
        assert(value_of(d1, base) == value_of(d2, base));
    }
}

/// Changing one rank changes the value by the difference, weighted by the
/// position's power of the base.
pub proof fn lemma_value_of_update(r: Seq<int>, j: int, x: int, base: int)
    requires
        0 <= j < r.len(),
    ensures
        value_of(r.update(j, x), base) == value_of(r, base) + (x - r[j]) * pow_int(
            base,
            (r.len() - 1 - j) as nat,
        ),
    decreases r.len(),
{
    let u = r.update(j, x);
    if j == r.len() - 1 {
        assert(u.drop_last() =~= r.drop_last());
        assert(u.last() == x);
        assert(pow_int(base, 0) == 1);
    } else {
        assert(u.drop_last() =~= r.drop_last().update(j, x));
        lemma_value_of_update(r.drop_last(), j, x, base);
        assert(r.drop_last()[j] == r[j]);
        let w = pow_int(base, (r.len() - 2 - j) as nat);
        assert((value_of(r.drop_last(), base) + (x - r[j]) * w) * base == value_of(
            r.drop_last(),
            base,
        ) * base + (x - r[j]) * (w * base)) by (nonlinear_arith);
        assert(w * base == base * w) by (nonlinear_arith);
        assert(pow_int(base, (r.len() - 1 - j) as nat) == base * w);
        assert(u.last() == r.last());
    }
}

/// If two vectors agree before position `j` and differ there, the one with
/// the smaller rank at `j` is lexicographically smaller.
pub proof fn lemma_first_diff_lex(x: Seq<int>, y: Seq<int>, j: int)
    requires
        x.len() == y.len(),
        0 <= j < x.len(),
        forall|k: int| 0 <= k < j ==> x[k] == #[trigger] y[k],
        x[j] < y[j],
    ensures
        lex_lt(x, y),
    decreases j,
{
    if j > 0 {
        assert forall|k: int| 0 <= k < j - 1 implies x.drop_first()[k] == #[trigger] y.drop_first()[k] by {
            assert(x[k + 1] == y[k + 1]);
        }
        assert(x.drop_first()[j - 1] == x[j]);
        assert(y.drop_first()[j - 1] == y[j]);
        lemma_first_diff_lex(x.drop_first(), y.drop_first(), j - 1);
        assert(x.first() == y.first());
    }
}

/// The all-zero rank vector denotes 0: the first position of the space.
pub proof fn lemma_value_of_zeros(r: Seq<int>, base: int)
    requires
        forall|i: int| 0 <= i < r.len() ==> #[trigger] r[i] == 0,
    ensures
        value_of(r, base) == 0,
    decreases r.len(),
{
    if r.len() > 0 {
        let dl = r.drop_last();
        assert(forall|i: int| 0 <= i < dl.len() ==> #[trigger] dl[i] == 0);
        lemma_value_of_zeros(dl, base);
    }
}

/// The all-highest rank vector denotes the last position of the space.
pub proof fn lemma_value_of_maxed(r: Seq<int>, base: int)
    requires
        base >= 1,
        forall|i: int| 0 <= i < r.len() ==> #[trigger] r[i] == base - 1,
    ensures
        value_of(r, base) == pow_int(base, r.len()) - 1,
    decreases r.len(),
{
    if r.len() > 0 {
        let dl = r.drop_last();
        assert(forall|i: int| 0 <= i < dl.len() ==> #[trigger] dl[i] == base - 1);
        lemma_value_of_maxed(dl, base);
        let p = pow_int(base, dl.len());
        assert((p - 1) * base == p * base - base) by (nonlinear_arith);
        assert(p * base == base * p) by (nonlinear_arith);
        assert(pow_int(base, r.len()) == base * p);
    }
}

/// The rank vector that a vector of machine integers denotes.
pub open spec fn ints_of(r: Seq<usize>) -> Seq<int> {
    r.map_values(|x: usize| x as int)
}

/// Updating one machine rank updates the denoted rank vector pointwise.
pub proof fn lemma_ints_of_update(r: Seq<usize>, j: int, x: usize)
    requires
        0 <= j < r.len(),
    ensures
        ints_of(r.update(j, x)) == ints_of(r).update(j, x as int),
{
    assert(ints_of(r.update(j, x)) =~= ints_of(r).update(j, x as int));
}

/// With a duplicate-free alphabet, reading a combination's ranks back
/// restores the digit vector it was built from, and its position in the
/// enumeration order is the number it was built from.
pub proof fn lemma_ranks_of_comb(a: Seq<char>, v: int, len: nat)
    requires
        a.no_duplicates(),
        a.len() >= 1,
        0 <= v < pow_int(a.len() as int, len),
    ensures
        ranks_of(a, comb_of(a, v, len)) == digits_of(v, a.len() as int, len),
        position_of(a, comb_of(a, v, len)) == v,
{
    let base = a.len() as int;
    lemma_value_of_digits(v, base, len);
    let d = digits_of(v, base, len);
    assert forall|i: int| 0 <= i < len implies #[trigger] ranks_of(a, comb_of(a, v, len))[i]
        == d[i] by {
        assert(comb_of(a, v, len)[i] == a[d[i]]);
        assert(a.contains(a[d[i]]));
        let idx = rank_in(a, a[d[i]]);
        assert(0 <= idx < a.len() && a[idx] == a[d[i]]);
        if idx != d[i] {
            assert(a[idx] != a[d[i]]);
            assert(false);
        }
    }
    assert(ranks_of(a, comb_of(a, v, len)) =~= d);
}

/// Enumeration is strictly increasing: of two positions in the space, the
/// later one's combination has the lexicographically greater rank vector and
/// the later position; in particular the enumeration holds no duplicates.
pub proof fn lemma_enumeration_increasing(a: Seq<char>, v1: int, v2: int, len: nat)
    requires
        a.no_duplicates(),
        a.len() >= 1,
        0 <= v1 < v2 < pow_int(a.len() as int, len),
    ensures
        lex_lt(ranks_of(a, comb_of(a, v1, len)), ranks_of(a, comb_of(a, v2, len))),
        position_of(a, comb_of(a, v1, len)) < position_of(a, comb_of(a, v2, len)),
        comb_of(a, v1, len) != comb_of(a, v2, len),
{
    let base = a.len() as int;
    lemma_value_of_digits(v1, base, len);
    lemma_value_of_digits(v2, base, len);
    lemma_value_lt_iff_lex_lt(digits_of(v1, base, len), digits_of(v2, base, len), base);
    lemma_comb_of_injective(a, v1, v2, len);
    lemma_ranks_of_comb(a, v1, len);
    lemma_ranks_of_comb(a, v2, len);
}

} // verus!

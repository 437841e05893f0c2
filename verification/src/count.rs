//! The counter: one fixed key per combination, one counter per key. A line
//! of at least three symbols raises the counter of every combination it
//! contains as a substring, by exactly one however often the combination
//! occurs within the line. Tables over disjoint line sets merge by adding
//! counters, which equals one scan of all the lines together.

use vstd::prelude::*;
use crate::seq_views;

verus! {

/// `needle` occurs contiguously somewhere inside `hay`.
pub open spec fn contains_seq(hay: Seq<char>, needle: Seq<char>) -> bool {
    exists|i: int|
        0 <= i <= hay.len() - needle.len() && #[trigger] hay.subrange(i, i + needle.len())
            == needle
}

/// Whether a line feeds the counter of combination `c`: the line has at
/// least three symbols and contains `c` as a substring.
pub open spec fn line_counts_for(line: Seq<char>, c: Seq<char>) -> bool {
    line.len() >= 3 && contains_seq(line, c)
}

/// How many of `lines` feed the counter of `c`: each qualifying line counts
/// exactly once, however many times `c` occurs inside it.
pub open spec fn occ_count(c: Seq<char>, lines: Seq<Seq<char>>) -> int
    decreases lines.len(),
{
    if lines.len() == 0 {
        0
    } else {
        occ_count(c, lines.drop_last()) + (if line_counts_for(lines.last(), c) {
            1int
        } else {
            0int
        })
    }
}

/// A counter is never negative and never exceeds the number of lines.
pub proof fn lemma_occ_count_bounds(c: Seq<char>, lines: Seq<Seq<char>>)
    ensures
        0 <= occ_count(c, lines) <= lines.len(),
    decreases lines.len(),
{
    if lines.len() > 0 {
        lemma_occ_count_bounds(c, lines.drop_last());
    }
}

/// Splitting the corpus anywhere and counting the parts separately, then
/// adding the counters, equals one scan of the whole corpus: the final table
/// does not depend on line order or partitioning, so a concurrent chunked
/// scan yields the same table as a sequential one.
pub proof fn lemma_count_partition(c: Seq<char>, l1: Seq<Seq<char>>, l2: Seq<Seq<char>>)
    ensures
        occ_count(c, l1 + l2) == occ_count(c, l1) + occ_count(c, l2),
    decreases l2.len(),
{
    if l2.len() == 0 {
        assert(l1 + l2 =~= l1);
    } else {
        lemma_count_partition(c, l1, l2.drop_last());
        assert((l1 + l2).drop_last() =~= l1 + l2.drop_last());
        assert((l1 + l2).last() == l2.last());
    }
}

/// A line of fewer than three symbols never changes any counter, whatever
/// the combination's length.
pub proof fn lemma_short_line_no_effect(c: Seq<char>, lines: Seq<Seq<char>>, line: Seq<char>)
    requires
        line.len() < 3,
    ensures
        occ_count(c, lines.push(line)) == occ_count(c, lines),
{
    assert(lines.push(line).drop_last() =~= lines);
    assert(lines.push(line).last() == line);
}

/// Whether `c` starts at position `i` of `line`.
fn match_at(line: &Vec<char>, c: &Vec<char>, i: usize) -> (r: bool)
    requires
        i + c@.len() <= line@.len(),
    ensures
        r == (line@.subrange(i as int, i + c@.len()) == c@),
{
    let nl = line.len();
    let nc = c.len();
    let mut j: usize = 0;
    while j < nc
        invariant
            nl == line@.len(),
            nc == c@.len(),
            i + c@.len() <= line@.len(),
            j <= c@.len(),
            forall|k: int| 0 <= k < j ==> line@[i + k] == #[trigger] c@[k],
        decreases c@.len() - j,
    {
        if line[i + j] != c[j] {
            proof {
                assert(line@.subrange(i as int, i + c@.len())[j as int] == line@[i + j]);
            }
            return false;
        }
        j += 1;
    }
    proof {
        assert(line@.subrange(i as int, i + c@.len()) =~= c@);
    }
    true
}

/// Substring test by direct scan over every starting position.
pub fn contains_combination(line: &Vec<char>, c: &Vec<char>) -> (r: bool)
    ensures
        r == contains_seq(line@, c@),
{
    if c.len() > line.len() {
        return false;
    }
    if c.len() == 0 {
        proof {
            assert(line@.subrange(0, 0 + c@.len() as int) =~= c@);
        }
        return true;
    }
    let n = line.len() - c.len();
    let mut i: usize = 0;
    while i <= n
        invariant
            1 <= c@.len() <= line@.len(),
            line@.len() <= usize::MAX,
            n == line@.len() - c@.len(),
            i <= n + 1,
            forall|k: int| 0 <= k < i ==> #[trigger] line@.subrange(k, k + c@.len()) != c@,
        decreases n + 1 - i,
    {
        if match_at(line, c, i) {
            return true;
        }
        i += 1;
    }
    false
}

/// Tests two character vectors for equality.
fn chars_equal(x: &Vec<char>, y: &Vec<char>) -> (r: bool)
    ensures
        r == (x@ == y@),
{
    if x.len() != y.len() {
        return false;
    }
    let mut i: usize = 0;
    while i < x.len()
        invariant
            x@.len() == y@.len(),
            i <= x@.len(),
            forall|k: int| 0 <= k < i ==> x@[k] == #[trigger] y@[k],
        decreases x@.len() - i,
    {
        if x[i] != y[i] {
            return false;
        }
        i += 1;
    }
    proof {
        assert(x@ =~= y@);
    }
    true
}

/// Copies one combination string.
pub(crate) fn copy_chars(v: &Vec<char>) -> (r: Vec<char>)
    ensures
        r@ == v@,
{
    let mut out: Vec<char> = Vec::new();
    let mut i: usize = 0;
    while i < v.len()
        invariant
            i <= v@.len(),
            out@.len() == i,
            forall|k: int| 0 <= k < i ==> out@[k] == #[trigger] v@[k],
        decreases v@.len() - i,
    {
        out.push(v[i]);
        i += 1;
    }
    proof {
        assert(out@ =~= v@);
    }
    out
}

/// The frequency table: keys fixed at creation, counters mutable, the number
/// of lines folded in recorded as the bound on every counter.
pub struct CountTable {
    keys: Vec<Vec<char>>,
    counts: Vec<u64>,
    lines_seen: u64,
}

impl CountTable {
    /// The combinations the table counts, in creation order.
    pub closed spec fn keys(self) -> Seq<Seq<char>> {
        seq_views(self.keys@)
    }

    /// The counters, one per combination, in key order.
    pub closed spec fn counts(self) -> Seq<int> {
        self.counts@.map_values(|c: u64| c as int)
    }

    /// The number of corpus lines folded into the table so far.
    pub closed spec fn lines_seen(self) -> int {
        self.lines_seen as int
    }

    /// Well-formed: one counter per key, no key twice, every counter bounded
    /// by the number of lines folded in.
    pub open spec fn wf(self) -> bool {
        &&& self.keys().len() == self.counts().len()
        &&& self.keys().no_duplicates()
        &&& forall|k: int| 0 <= k < self.counts().len() ==> 0 <= #[trigger] self.counts()[k] <= self.lines_seen()
    }

    /// The counter recorded for combination `key`.
    pub open spec fn count_of(self, key: Seq<char>) -> int {
        self.counts()[self.keys().index_of(key)]
    }

    /// How many combinations the table counts.
    pub fn len(&self) -> (n: usize)
        ensures
            n == self.keys().len(),
    {
        self.keys.len()
    }

    /// The `i`th combination.
    pub fn key_at(&self, i: usize) -> (k: &Vec<char>)
        requires
            i < self.keys().len(),
        ensures
            k@ == self.keys()[i as int],
    {
        &self.keys[i]
    }

    /// The `i`th counter.
    pub fn count_at(&self, i: usize) -> (c: u64)
        requires
            i < self.counts().len(),
        ensures
            c as int == self.counts()[i as int],
    {
        self.counts[i]
    }

    /// The number of lines folded in, as the merge bound callers must check.
    pub fn lines_seen_count(&self) -> (n: u64)
        ensures
            n as int == self.lines_seen(),
    {
        self.lines_seen
    }

    /// The counter of combination `c`, or `None` when `c` is not a key.
    pub fn get_count(&self, c: &Vec<char>) -> (r: Option<u64>)
        requires
            self.wf(),
        ensures
            match r {
                Some(n) => self.keys().contains(c@) && n as int == self.count_of(c@),
                None => !self.keys().contains(c@),
            },
    {
        let mut i: usize = 0;
        while i < self.keys.len()
            invariant
                self.wf(),
                i <= self.keys().len(),
                forall|k: int| 0 <= k < i ==> #[trigger] self.keys()[k] != c@,
            decreases self.keys().len() - i,
        {
            if chars_equal(&self.keys[i], c) {
                proof {
                    assert(self.keys()[i as int] == c@);
                    assert(self.keys().contains(c@));
                    let idx = self.keys().index_of(c@);
                    assert(0 <= idx < self.keys().len() && self.keys()[idx] == c@);
                    if idx != i as int {
                        assert(self.keys()[idx] != self.keys()[i as int]);
                        assert(false);
                    }
                }
                return Some(self.counts[i]);
            }
            i += 1;
        }
        return None;
    }

    /// Adds the counters of `other` into `self`, key for key, and adds the
    /// line totals. Together with the partition law this makes a chunked
    /// scan equal a sequential one.
    pub fn merge(&mut self, other: &CountTable)
        requires
            old(self).wf(),
            other.wf(),
            old(self).keys() == other.keys(),
            old(self).lines_seen() + other.lines_seen() <= u64::MAX,
        ensures
            final(self).wf(),
            final(self).keys() == old(self).keys(),
            final(self).lines_seen() == old(self).lines_seen() + other.lines_seen(),
            final(self).counts().len() == old(self).counts().len(),
            forall|k: int|
                0 <= k < final(self).counts().len() ==> #[trigger] final(self).counts()[k] == old(
                    self,
                ).counts()[k] + other.counts()[k],
    {
        let n = self.counts.len();
        let mut i: usize = 0;
        while i < n
            invariant
                old(self).wf(),
                other.wf(),
                old(self).keys() == other.keys(),
                old(self).lines_seen() + other.lines_seen() <= u64::MAX,
                n == self.counts@.len(),
                self.counts@.len() == old(self).counts@.len(),
                self.keys@ == old(self).keys@,
                self.lines_seen == old(self).lines_seen,
                i <= n,
                forall|k: int|
                    0 <= k < i ==> #[trigger] self.counts@[k] as int == old(self).counts@[k] as int
                        + other.counts@[k] as int,
                forall|k: int| i <= k < n ==> #[trigger] self.counts@[k] == old(self).counts@[k],
            decreases n - i,
        {
            proof {
                assert(old(self).counts()[i as int] == old(self).counts@[i as int] as int);
                assert(other.counts()[i as int] == other.counts@[i as int] as int);
                assert(other.counts@.len() == old(self).counts@.len());
            }
            let a = self.counts[i];
            let b = other.counts[i];
            self.counts.set(i, a + b);
            i += 1;
        }
        self.lines_seen = self.lines_seen + other.lines_seen;
        proof {
            assert forall|k: int| 0 <= k < self.counts().len() implies #[trigger] self.counts()[k]
                == old(self).counts()[k] + other.counts()[k] by {
                assert(self.counts@[k] as int == old(self).counts@[k] as int
                    + other.counts@[k] as int);
            }
        }
    }
}

/// Counts, for every combination, how many corpus lines of at least three
/// symbols contain it as a substring, one count per line. The resulting
/// table holds one counter per combination, in order.
pub fn count_combinations(lines: &Vec<Vec<char>>, combinations: &Vec<Vec<char>>) -> (t: CountTable)
    requires
        combinations@.len() > 0,
        seq_views(combinations@).no_duplicates(),
    ensures
        t.wf(),
        t.keys() == seq_views(combinations@),
        t.lines_seen() == lines@.len(),
        forall|k: int|
            0 <= k < t.counts().len() ==> #[trigger] t.counts()[k] == occ_count(
                t.keys()[k],
                seq_views(lines@),
            ),
{
    let ghost kviews = seq_views(combinations@);
    let ghost lviews = seq_views(lines@);
    let mut keys: Vec<Vec<char>> = Vec::new();
    let mut counts: Vec<u64> = Vec::new();
    let mut ci: usize = 0;
    while ci < combinations.len()
        invariant
            ci <= combinations@.len(),
            keys@.len() == ci,
            counts@.len() == ci,
            kviews == seq_views(combinations@),
            forall|k: int| 0 <= k < ci ==> #[trigger] keys@[k]@ == kviews[k],
            forall|k: int| 0 <= k < ci ==> #[trigger] counts@[k] == 0,
        decreases combinations@.len() - ci,
    {
        let kc = copy_chars(&combinations[ci]);
        keys.push(kc);
        counts.push(0);
        ci += 1;
    }
    let mut li: usize = 0;
    while li < lines.len()
        invariant
            li <= lines@.len(),
            keys@.len() == combinations@.len(),
            counts@.len() == combinations@.len(),
            kviews == seq_views(combinations@),
            lviews == seq_views(lines@),
            forall|k: int| 0 <= k < counts@.len() ==> #[trigger] keys@[k]@ == kviews[k],
            forall|k: int|
                0 <= k < counts@.len() ==> #[trigger] counts@[k] as int == occ_count(
                    kviews[k],
                    lviews.subrange(0, li as int),
                ),
        decreases lines@.len() - li,
    {
        let line = &lines[li];
        proof {
            assert(line@ == lviews[li as int]);
        }
        if line.len() >= 3 {
            let mut cj: usize = 0;
            while cj < combinations.len()
                invariant
                    li < lines@.len(),
                    li < usize::MAX,
                    cj <= combinations@.len(),
                    counts@.len() == combinations@.len(),
                    kviews == seq_views(combinations@),
                    lviews == seq_views(lines@),
                    line@ == lviews[li as int],
                    line@.len() >= 3,
                    forall|k: int|
                        0 <= k < cj ==> #[trigger] counts@[k] as int == occ_count(
                            kviews[k],
                            lviews.subrange(0, li as int),
                        ) + (if line_counts_for(lviews[li as int], kviews[k]) {
                            1int
                        } else {
                            0int
                        }),
                    forall|k: int|
                        cj <= k < counts@.len() ==> #[trigger] counts@[k] as int == occ_count(
                            kviews[k],
                            lviews.subrange(0, li as int),
                        ),
                decreases combinations@.len() - cj,
            {
                proof {
                    assert(combinations@[cj as int]@ == kviews[cj as int]);
                }
                if contains_combination(line, &combinations[cj]) {
                    proof {
                        lemma_occ_count_bounds(
                            kviews[cj as int],
                            lviews.subrange(0, li as int),
                        );
                    }
                    let cur = counts[cj];
                    counts.set(cj, cur + 1);
                }
                cj += 1;
            }
        }
        proof {
            assert(lviews.subrange(0, li + 1).drop_last() =~= lviews.subrange(0, li as int));
            assert(lviews.subrange(0, li + 1).last() == lviews[li as int]);
        }
        li += 1;
    }
    proof {
        assert(lviews.subrange(0, lines@.len() as int) =~= lviews);
    }
    let total = lines.len() as u64;
    let t = CountTable { keys, counts, lines_seen: total };
    proof {
        assert(t.keys() =~= seq_views(combinations@));
        assert forall|k: int| 0 <= k < t.counts().len() implies #[trigger] t.counts()[k]
            == occ_count(t.keys()[k], seq_views(lines@)) by {
            assert(t.counts()[k] == t.counts@[k] as int);
            assert(t.keys()[k] == kviews[k]);
        }
        assert forall|k: int| 0 <= k < t.counts().len() implies 0 <= #[trigger] t.counts()[k]
            <= t.lines_seen() by {
            lemma_occ_count_bounds(t.keys()[k], seq_views(lines@));
        }
    }
    t
}

} // verus!

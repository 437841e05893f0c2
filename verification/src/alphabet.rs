//! The alphabet deriver: collects every distinct symbol occurring anywhere
//! in the corpus, each exactly once, in a deterministic order (first
//! encounter, scanning lines in order and each line left to right).

use vstd::prelude::*;

verus! {

/// Some line among `lines` holds the symbol `c`.
pub open spec fn corpus_has_char(lines: Seq<Seq<char>>, c: char) -> bool {
    exists|i: int| 0 <= i < lines.len() && (#[trigger] lines[i]).contains(c)
}

/// Membership test by linear scan.
fn contains_char(v: &Vec<char>, c: char) -> (r: bool)
    ensures
        r == v@.contains(c),
{
    let mut i: usize = 0;
    while i < v.len()
        invariant
            i <= v@.len(),
            forall|k: int| 0 <= k < i ==> v@[k] != c,
        decreases v@.len() - i,
    {
        if v[i] == c {
            return true;
        }
        i += 1;
    }
    false
}

/// Derives the alphabet of a corpus: every symbol appearing in any line
/// appears exactly once in the result, and no other symbol does. The order
/// is deterministic: symbols appear by first encounter.
pub fn alphabet_of_lines(lines: &Vec<Vec<char>>) -> (r: Vec<char>)
    ensures
        r@.no_duplicates(),
        forall|c: char| r@.contains(c) <==> corpus_has_char(crate::seq_views(lines@), c),
{
    let ghost lviews = crate::seq_views(lines@);
    let mut out: Vec<char> = Vec::new();
    let mut li: usize = 0;
    while li < lines.len()
        invariant
            li <= lines@.len(),
            lviews == crate::seq_views(lines@),
            out@.no_duplicates(),
            forall|c: char|
                out@.contains(c) <==> corpus_has_char(lviews.subrange(0, li as int), c),
        decreases lines@.len() - li,
    {
        let line = &lines[li];
        proof {
            assert(line@ == lviews[li as int]);
        }
        let mut cj: usize = 0;
        while cj < line.len()
            invariant
                li < lines@.len(),
                cj <= line@.len(),
                lviews == crate::seq_views(lines@),
                line@ == lviews[li as int],
                out@.no_duplicates(),
                forall|c: char|
                    out@.contains(c) <==> (corpus_has_char(lviews.subrange(0, li as int), c)
                        || exists|k: int| 0 <= k < cj && #[trigger] line@[k] == c),
            decreases line@.len() - cj,
        {
            let ch = line[cj];
            if !contains_char(&out, ch) {
                let ghost prev = out@;
                out.push(ch);
                proof {
                    assert forall|c: char| out@.contains(c) implies (corpus_has_char(
                        lviews.subrange(0, li as int),
                        c,
                    ) || exists|k: int| 0 <= k < cj + 1 && #[trigger] line@[k] == c) by {
                        let w = choose|w: int| 0 <= w < out@.len() && out@[w] == c;
                        if w < prev.len() {
                            assert(prev.contains(c));
                        } else {
                            assert(line@[cj as int] == c);
                        }
                    }
                    assert forall|c: char|
                        (corpus_has_char(lviews.subrange(0, li as int), c) || exists|k: int|
                            0 <= k < cj + 1 && #[trigger] line@[k] == c) implies out@.contains(
                        c,
                    ) by {
                        if corpus_has_char(lviews.subrange(0, li as int), c) {
                            assert(prev.contains(c));
                            let w = choose|w: int| 0 <= w < prev.len() && prev[w] == c;
                            assert(out@[w] == c);
                        } else {
                            let k = choose|k: int| 0 <= k < cj + 1 && #[trigger] line@[k] == c;
                            if k < cj {
                                assert(prev.contains(c));
                                let w = choose|w: int| 0 <= w < prev.len() && prev[w] == c;
                                assert(out@[w] == c);
                            } else {
                                assert(out@[prev.len() as int] == c);
                            }
                        }
                    }
                    assert(out@.no_duplicates());
                }
            } else {
                proof {
                    assert(line@[cj as int] == ch);
                }
            }
            cj += 1;
        }
        proof {
            let sub_next = lviews.subrange(0, li + 1);
            assert forall|c: char| out@.contains(c) implies corpus_has_char(sub_next, c) by {
                if corpus_has_char(lviews.subrange(0, li as int), c) {
                    let w = choose|w: int|
                        0 <= w < lviews.subrange(0, li as int).len() && (#[trigger] lviews
                            .subrange(0, li as int)[w]).contains(c);
                    assert(sub_next[w].contains(c));
                } else {
                    assert(sub_next[li as int].contains(c));
                }
            }
            assert forall|c: char| corpus_has_char(sub_next, c) implies out@.contains(c) by {
                let w = choose|w: int|
                    0 <= w < sub_next.len() && (#[trigger] sub_next[w]).contains(c);
                if w < li {
                    assert(lviews.subrange(0, li as int)[w].contains(c));
                } else {
                    assert(line@.contains(c));
                    let k = choose|k: int| 0 <= k < line@.len() && line@[k] == c;
                    assert(line@[k] == c);
                }
            }
        }
        li += 1;
    }
    proof {
        assert(lviews.subrange(0, lines@.len() as int) =~= lviews);
    }
    out
}

} // verus!

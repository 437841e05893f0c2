//! The report: drains a count table into records, one per combination,
//! either all of them or exactly those with a positive counter, in table
//! order. Serializing and writing the records is the caller's concern; the
//! records themselves carry the key and the count losslessly.

use vstd::prelude::*;
use crate::count::copy_chars;
use crate::count::CountTable;

verus! {

/// One output record: a combination and its final counter.
pub struct Record {
    pub key: Vec<char>,
    pub count: u64,
}

/// The records a table yields, in table order: every entry when
/// `include_zeros` is set, otherwise exactly the entries whose counter is
/// positive.
pub open spec fn report_of(
    keys: Seq<Seq<char>>,
    counts: Seq<int>,
    include_zeros: bool,
) -> Seq<(Seq<char>, int)>
    decreases keys.len(),
{
    if keys.len() == 0 {
        Seq::empty()
    } else {
        let rest = report_of(keys.drop_last(), counts.drop_last(), include_zeros);
        if include_zeros || counts[keys.len() - 1] > 0 {
            rest.push((keys.last(), counts[keys.len() - 1]))
        } else {
            rest
        }
    }
}

/// Without zeros the report holds no record whose counter is 0; with zeros
/// it holds exactly one record per combination, in order.
pub proof fn lemma_report_zero_policy(keys: Seq<Seq<char>>, counts: Seq<int>)
    requires
        keys.len() == counts.len(),
    ensures
        forall|j: int|
            0 <= j < report_of(keys, counts, false).len() ==> (#[trigger] report_of(
                keys,
                counts,
                false,
            )[j]).1 > 0,
        report_of(keys, counts, true) == Seq::new(keys.len(), |i: int| (keys[i], counts[i])),
    decreases keys.len(),
{
    if keys.len() == 0 {
        assert(report_of(keys, counts, true) =~= Seq::new(
            keys.len(),
            |i: int| (keys[i], counts[i]),
        ));
    } else {
        lemma_report_zero_policy(keys.drop_last(), counts.drop_last());
        assert(report_of(keys, counts, true) =~= Seq::new(
            keys.len(),
            |i: int| (keys[i], counts[i]),
        ));
        let whole = report_of(keys, counts, false);
        let rest = report_of(keys.drop_last(), counts.drop_last(), false);
        assert forall|j: int| 0 <= j < whole.len() implies (#[trigger] whole[j]).1 > 0 by {
            if j < rest.len() {
                assert(whole[j] == rest[j]);
            }
        }
    }
}

/// Builds the report records for `table`: every entry when `include_zeros`
/// is set, otherwise exactly the entries whose counter is positive, in
/// table order.
pub fn filtered_records(table: &CountTable, include_zeros: bool) -> (r: Vec<Record>)
    requires
        table.wf(),
    ensures
        r@.map_values(|rec: Record| (rec.key@, rec.count as int)) == report_of(
            table.keys(),
            table.counts(),
            include_zeros,
        ),
{
    let n = table.len();
    let mut out: Vec<Record> = Vec::new();
    let mut i: usize = 0;
    while i < n
        invariant
            n == table.keys().len(),
            table.keys().len() == table.counts().len(),
            i <= n,
            out@.map_values(|rec: Record| (rec.key@, rec.count as int)) == report_of(
                table.keys().subrange(0, i as int),
                table.counts().subrange(0, i as int),
                include_zeros,
            ),
        decreases n - i,
    {
        let ghost prev = out@;
        let count = table.count_at(i);
        if include_zeros || count > 0 {
            let key = copy_chars(table.key_at(i));
            out.push(Record { key, count });
        }
        proof {
            let kp = table.keys().subrange(0, i + 1);
            let cp = table.counts().subrange(0, i + 1);
            assert(kp.drop_last() =~= table.keys().subrange(0, i as int));
            assert(cp.drop_last() =~= table.counts().subrange(0, i as int));
            assert(kp.last() == table.keys()[i as int]);
            assert(cp[kp.len() - 1] == table.counts()[i as int]);
            if include_zeros || count > 0 {
                assert(out@.map_values(|rec: Record| (rec.key@, rec.count as int)) =~= prev
                    .map_values(|rec: Record| (rec.key@, rec.count as int)).push(
                    (table.keys()[i as int], table.counts()[i as int]),
                ));
            }
            assert(out@.map_values(|rec: Record| (rec.key@, rec.count as int)) =~= report_of(
                kp,
                cp,
                include_zeros,
            ));
        }
        i += 1;
    }
    proof {
        assert(table.keys().subrange(0, n as int) =~= table.keys());
        assert(table.counts().subrange(0, n as int) =~= table.counts());
    }
    out
}

} // verus!

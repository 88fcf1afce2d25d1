//! The store's general properties, stated and proved once for all inputs.

use crate::data::DataView;
use crate::text::{char_of_digit, counter_of, dec_of, lemma_dec_of};
use crate::{base_data, empty_data, spec_append, spec_create_table};
use vstd::prelude::*;

verus! {

/// The counter invariant: the stored counter parses, every record key
/// parses, and the counter reads strictly above every key — appends
/// allocate the counter and never reuse a freed ID.
pub open spec fn counter_dominates(d: DataView) -> bool {
    &&& counter_of(d.next_id) is Some
    &&& forall|i: int|
        0 <= i < d.records.len() ==> counter_of((#[trigger] d.records[i]).0) is Some
            && counter_of(d.records[i].0).unwrap() < counter_of(d.next_id).unwrap()
}

/// Freshly created tables satisfy the counter invariant.
pub proof fn lemma_fresh_dominates(table: Seq<char>, record: Seq<char>)
    ensures
        counter_dominates(base_data(table, record)),
        counter_dominates(empty_data(table)),
{
    lemma_dec_of(0);
    lemma_dec_of(1);
    assert(dec_of(0) =~= seq!['0']) by {
        assert(char_of_digit(0) == '0');
    }
    assert(dec_of(1) =~= seq!['1']) by {
        assert(char_of_digit(1) == '1');
    }
    assert(counter_of(seq!['0']) == Some(0u64));
    assert(counter_of(seq!['1']) == Some(1u64));
}

/// Appending preserves the counter invariant, as long as the counter
/// itself has room to move up.
pub proof fn lemma_append_dominates(d: DataView, record: Seq<char>)
    requires
        counter_dominates(d),
        counter_of(d.next_id).unwrap() + 1 < u64::MAX,
    ensures
        spec_append(d, record) is Some,
        counter_dominates(spec_append(d, record).unwrap()),
{
    let n = counter_of(d.next_id).unwrap();
    lemma_dec_of(n as nat);
    lemma_dec_of(n as nat + 1);
    let d2 = spec_append(d, record).unwrap();
    assert(counter_of(d2.next_id) == Some((n + 1) as u64));
    assert(counter_of(dec_of(n as nat)) == Some(n));
    assert forall|i: int|
        0 <= i < d2.records.len() implies counter_of((#[trigger] d2.records[i]).0) is Some
        && counter_of(d2.records[i].0).unwrap() < counter_of(d2.next_id).unwrap() by {
        if i < d.records.len() {
            assert(d2.records[i] == d.records[i]);
        } else {
            assert(d2.records[i] == (dec_of(n as nat), record));
        }
    }
}

/// Applies `spec_append` once per record, left to right; `None` as soon as
/// the counter fails to parse.
pub open spec fn apply_appends(d: DataView, recs: Seq<Seq<char>>) -> Option<DataView>
    decreases recs.len(),
{
    if recs.len() == 0 {
        Some(d)
    } else {
        match spec_append(d, recs[0]) {
            Some(d2) => apply_appends(d2, recs.drop_first()),
            None => None,
        }
    }
}

/// Create idempotence: creating a table a second time — with any other
/// seed record — leaves the store exactly as the first create left it.
pub proof fn lemma_create_idempotent(
    m: Map<Seq<char>, Seq<char>>,
    name: Seq<char>,
    r1: Seq<char>,
    r2: Seq<char>,
)
    ensures
        spec_create_table(spec_create_table(m, name, r1), name, r2) == spec_create_table(
            m,
            name,
            r1,
        ),
{
}

/// Appending from a counter at `n` files records under `n`, `n + 1`, ...
/// and leaves the counter at `n` plus the number of appends.
proof fn lemma_apply_appends_from(d: DataView, recs: Seq<Seq<char>>, n: nat)
    requires
        d.next_id == dec_of(n),
        n + recs.len() < u64::MAX,
    ensures
        ({
            let r = apply_appends(d, recs);
            &&& r is Some
            &&& r.unwrap().table == d.table
            &&& r.unwrap().next_id == dec_of((n + recs.len()) as nat)
            &&& r.unwrap().records == d.records + Seq::new(
                recs.len(),
                |i: int| (dec_of((n + i) as nat), recs[i]),
            )
        }),
    decreases recs.len(),
{
    lemma_dec_of(n);
    if recs.len() == 0 {
        assert(d.records + Seq::new(0, |i: int| (dec_of((n + i) as nat), recs[i])) =~= d.records);
    } else {
        assert(counter_of(dec_of(n)) == Some(n as u64));
        let d2 = spec_append(d, recs[0]).unwrap();
        assert(d2.next_id == dec_of(n + 1)) by {
            assert((n as u64 + 1) as nat == n + 1);
        }
        lemma_apply_appends_from(d2, recs.drop_first(), n + 1);
        let r = apply_appends(d, recs).unwrap();
        assert(r.records =~= d.records + Seq::new(
            recs.len(),
            |i: int| (dec_of((n + i) as nat), recs[i]),
        )) by {
            assert(r.records == d2.records + Seq::new(
                recs.drop_first().len(),
                |i: int| (dec_of((n + 1 + i) as nat), recs.drop_first()[i]),
            ));
            assert(d2.records == d.records.push((dec_of(n), recs[0])));
            assert forall|k: int|
                0 <= k < d.records.len() + recs.len() implies r.records[k] == (d.records
                + Seq::new(recs.len(), |i: int| (dec_of((n + i) as nat), recs[i])))[k] by {
                if k < d.records.len() {
                } else if k == d.records.len() {
                    assert(r.records[k] == (dec_of(n), recs[0]));
                } else {
                    let i = k - d.records.len();
                    assert(r.records[k] == (dec_of((n + 1 + (i - 1)) as nat), recs.drop_first()[i
                        - 1]));
                    assert(recs.drop_first()[i - 1] == recs[i]);
                }
            }
        }
    }
}

/// Append monotonicity: after any sequence of appends to a freshly created
/// table, the counter reads one past the number of records, and the
/// records hold exactly the keys `"0"`, `"1"`, ... in allocation order —
/// the seed record under `"0"`, the i-th appended record under the i-th
/// key after it.
pub proof fn lemma_append_monotonic(name: Seq<char>, seed: Seq<char>, recs: Seq<Seq<char>>)
    requires
        recs.len() + 1 < u64::MAX,
    ensures
        ({
            let r = apply_appends(base_data(name, seed), recs);
            &&& r is Some
            &&& r.unwrap().table == name
            &&& r.unwrap().next_id == dec_of((recs.len() + 1) as nat)
            &&& r.unwrap().records.len() == recs.len() + 1
            &&& forall|i: int|
                0 <= i < recs.len() + 1 ==> (#[trigger] r.unwrap().records[i]).0 == dec_of(
                    i as nat,
                )
            &&& r.unwrap().records[0].1 == seed
            &&& forall|i: int|
                1 <= i < recs.len() + 1 ==> (#[trigger] r.unwrap().records[i]).1 == recs[i - 1]
        }),
{
    let d = base_data(name, seed);
    lemma_dec_of(0);
    lemma_dec_of(1);
    assert(dec_of(0) =~= seq!['0']) by {
        assert(char_of_digit(0) == '0');
    }
    assert(dec_of(1) =~= seq!['1']) by {
        assert(char_of_digit(1) == '1');
    }
    assert(d.next_id == dec_of(1));
    lemma_apply_appends_from(d, recs, 1);
    let r = apply_appends(d, recs).unwrap();
    assert(d.records[0] == (dec_of(0), seed));
    assert forall|i: int| 0 <= i < recs.len() + 1 implies (#[trigger] r.records[i]).0 == dec_of(
        i as nat,
    ) by {
        if i >= 1 {
            assert(r.records[i] == (dec_of((1 + (i - 1)) as nat), recs[i - 1]));
        }
    }
}

} // verus!

//! A minimal document store: each named table is one file of UTF-8 JSON
//! text holding a `table`/`next_id`/`records` envelope with an
//! auto-incrementing record map.
//!
//! The store itself is a value — a map from table names to file contents —
//! and every operation is a whole-file read-decode-mutate-encode-write
//! cycle on it. A thin unverified shell keeps the store on disk (one file
//! per table under a root directory) and performs the actual reads and
//! writes; everything the files contain and everything the operations
//! decide is specified and verified here.

pub mod data;
pub mod data_props;
pub mod errors;
pub mod json;
pub mod json_props;
pub mod laws;
pub mod sc;
pub mod text;

use crate::data::{encode_data, parse_envelope, records_obj, spec_encode, Data, DataView};
use crate::errors::Error;
use crate::json::{pairs_view, value_end_x, wf_value};
use crate::text::{counter_of, dec_of, fmt_u64, parse_counter, str_eq};
use vstd::prelude::*;

verus! {

broadcast use vstd::string::group_string_axioms;

// ---------------------------------------------------------------------------
// The store
// ---------------------------------------------------------------------------

/// Whether the table names of the entries are pairwise distinct.
pub open spec fn names_unique(ts: Seq<(String, String)>) -> bool {
    forall|a: int, b: int|
        0 <= a < b < ts.len() ==> (#[trigger] ts[a]).0@ != (#[trigger] ts[b]).0@
}

/// The map from table names to file contents that the entries denote.
pub open spec fn tables_map(ts: Seq<(String, String)>) -> Map<Seq<char>, Seq<char>>
    decreases ts.len(),
{
    if ts.len() == 0 {
        Map::<Seq<char>, Seq<char>>::empty()
    } else {
        tables_map(ts.drop_last()).insert(ts.last().0@, ts.last().1@)
    }
}

/// The whole store: one entry per table, the entry's second component being
/// the table file's full text. The file contents are the sole source of
/// truth; no decoded state survives between operations.
pub struct Store {
    pub tables: Vec<(String, String)>,
}

impl View for Store {
    type V = Map<Seq<char>, Seq<char>>;

    open spec fn view(&self) -> Map<Seq<char>, Seq<char>> {
        tables_map(self.tables@)
    }
}

impl Store {
    /// Well-formed: no two entries share a table name.
    pub open spec fn wf(&self) -> bool {
        names_unique(self.tables@)
    }

    /// An empty store.
    pub fn new() -> (s: Store)
        ensures
            s.wf(),
            s@ == Map::<Seq<char>, Seq<char>>::empty(),
    {
        Store { tables: Vec::new() }
    }
}

/// A name in the map is a name of some entry.
proof fn lemma_tables_map_domain(ts: Seq<(String, String)>, name: Seq<char>)
    ensures
        tables_map(ts).contains_key(name) <==> exists|i: int|
            0 <= i < ts.len() && (#[trigger] ts[i]).0@ == name,
    decreases ts.len(),
{
    if ts.len() > 0 {
        lemma_tables_map_domain(ts.drop_last(), name);
        if ts.last().0@ == name {
            assert(ts[ts.len() - 1].0@ == name);
        } else if tables_map(ts).contains_key(name) {
            let i = choose|i: int| 0 <= i < ts.drop_last().len() && (#[trigger] ts.drop_last()[i]).0@
                == name;
            assert(ts[i].0@ == name);
        } else {
            assert forall|i: int| 0 <= i < ts.len() implies (#[trigger] ts[i]).0@ != name by {
                if i < ts.len() - 1 {
                    assert(ts.drop_last()[i] == ts[i]);
                }
            }
        }
    }
}

/// With unique names, an entry's contents are what the map holds under its
/// name.
proof fn lemma_tables_map_at(ts: Seq<(String, String)>, i: int)
    requires
        names_unique(ts),
        0 <= i < ts.len(),
    ensures
        tables_map(ts).contains_key(ts[i].0@),
        tables_map(ts)[ts[i].0@] == ts[i].1@,
    decreases ts.len(),
{
    if i == ts.len() - 1 {
        assert(ts.last() == ts[i]);
    } else {
        assert(names_unique(ts.drop_last())) by {
            assert forall|a: int, b: int|
                0 <= a < b < ts.drop_last().len() implies (#[trigger] ts.drop_last()[a]).0@ != (
            #[trigger] ts.drop_last()[b]).0@ by {
                assert(ts.drop_last()[a] == ts[a]);
                assert(ts.drop_last()[b] == ts[b]);
            }
        }
        lemma_tables_map_at(ts.drop_last(), i);
        assert(ts.drop_last()[i] == ts[i]);
        assert(ts[i].0@ != ts.last().0@);
    }
}

/// Replacing the entry at `i` replaces its name's contents in the map.
proof fn lemma_tables_map_update(ts: Seq<(String, String)>, i: int, p: (String, String))
    requires
        names_unique(ts),
        0 <= i < ts.len(),
        p.0@ == ts[i].0@,
    ensures
        tables_map(ts.update(i, p)) == tables_map(ts).insert(p.0@, p.1@),
        names_unique(ts.update(i, p)),
    decreases ts.len(),
{
    assert(names_unique(ts.update(i, p))) by {
        assert forall|a: int, b: int|
            0 <= a < b < ts.update(i, p).len() implies (#[trigger] ts.update(i, p)[a]).0@ != (
        #[trigger] ts.update(i, p)[b]).0@ by {}
    }
    if i == ts.len() - 1 {
        assert(ts.update(i, p).drop_last() =~= ts.drop_last());
        assert(ts.update(i, p).last() == p);
        assert(tables_map(ts.update(i, p)) =~= tables_map(ts).insert(p.0@, p.1@));
    } else {
        assert(names_unique(ts.drop_last())) by {
            assert forall|a: int, b: int|
                0 <= a < b < ts.drop_last().len() implies (#[trigger] ts.drop_last()[a]).0@ != (
            #[trigger] ts.drop_last()[b]).0@ by {
                assert(ts.drop_last()[a] == ts[a]);
                assert(ts.drop_last()[b] == ts[b]);
            }
        }
        assert(ts.drop_last()[i] == ts[i]);
        lemma_tables_map_update(ts.drop_last(), i, p);
        assert(ts.update(i, p).drop_last() =~= ts.drop_last().update(i, p));
        assert(ts.update(i, p).last() == ts.last());
        assert(ts[i].0@ != ts.last().0@);
        assert(tables_map(ts.update(i, p)) =~= tables_map(ts).insert(p.0@, p.1@));
    }
}

/// Removing the entry at `i` removes its name from the map.
proof fn lemma_tables_map_remove(ts: Seq<(String, String)>, i: int)
    requires
        names_unique(ts),
        0 <= i < ts.len(),
    ensures
        tables_map(ts.remove(i)) == tables_map(ts).remove(ts[i].0@),
        names_unique(ts.remove(i)),
    decreases ts.len(),
{
    assert(names_unique(ts.remove(i))) by {
        assert forall|a: int, b: int|
            0 <= a < b < ts.remove(i).len() implies (#[trigger] ts.remove(i)[a]).0@ != (
        #[trigger] ts.remove(i)[b]).0@ by {}
    }
    assert(names_unique(ts.drop_last())) by {
        assert forall|a: int, b: int|
            0 <= a < b < ts.drop_last().len() implies (#[trigger] ts.drop_last()[a]).0@ != (
        #[trigger] ts.drop_last()[b]).0@ by {
            assert(ts.drop_last()[a] == ts[a]);
            assert(ts.drop_last()[b] == ts[b]);
        }
    }
    if i == ts.len() - 1 {
        assert(ts.remove(i) =~= ts.drop_last());
        lemma_tables_map_domain(ts.drop_last(), ts[i].0@);
        assert forall|k: int| 0 <= k < ts.drop_last().len() implies (#[trigger] ts.drop_last()[
        k]).0@ != ts[i].0@ by {
            assert(ts.drop_last()[k] == ts[k]);
        }
        assert(!tables_map(ts.drop_last()).contains_key(ts[i].0@));
        assert(tables_map(ts.remove(i)) =~= tables_map(ts).remove(ts[i].0@));
    } else {
        lemma_tables_map_remove(ts.drop_last(), i);
        assert(ts.drop_last()[i] == ts[i]);
        assert(ts.remove(i).drop_last() =~= ts.drop_last().remove(i));
        assert(ts.remove(i).last() == ts.last());
        assert(ts[i].0@ != ts.last().0@);
        assert(tables_map(ts.remove(i)) =~= tables_map(ts).remove(ts[i].0@));
    }
}

/// Appending an entry with a fresh name inserts it into the map.
proof fn lemma_tables_map_push(ts: Seq<(String, String)>, p: (String, String))
    requires
        names_unique(ts),
        forall|i: int| 0 <= i < ts.len() ==> (#[trigger] ts[i]).0@ != p.0@,
    ensures
        tables_map(ts.push(p)) == tables_map(ts).insert(p.0@, p.1@),
        names_unique(ts.push(p)),
{
    assert(ts.push(p).drop_last() =~= ts);
    assert(ts.push(p).last() == p);
    assert(names_unique(ts.push(p))) by {
        assert forall|a: int, b: int|
            0 <= a < b < ts.push(p).len() implies (#[trigger] ts.push(p)[a]).0@ != (
        #[trigger] ts.push(p)[b]).0@ by {}
    }
}

impl Store {
    /// The index of the entry for `name`, if any.
    fn find_table(&self, name: &str) -> (r: Option<usize>)
        requires
            self.wf(),
        ensures
            match r {
                Some(i) => i < self.tables@.len() && self.tables@[i as int].0@ == name@
                    && self@.contains_key(name@) && self@[name@] == self.tables@[i as int].1@,
                None => !self@.contains_key(name@),
            },
    {
        let mut i: usize = 0;
        while i < self.tables.len()
            invariant
                self.wf(),
                i <= self.tables@.len(),
                forall|k: int| 0 <= k < i ==> (#[trigger] self.tables@[k]).0@ != name@,
            decreases self.tables@.len() - i,
        {
            if str_eq(self.tables[i].0.as_str(), name) {
                proof {
                    lemma_tables_map_at(self.tables@, i as int);
                }
                return Some(i);
            }
            i = i + 1;
        }
        proof {
            lemma_tables_map_domain(self.tables@, name@);
        }
        None
    }

    /// The contents stored under `name`, if present.
    fn read_contents(&self, name: &str) -> (r: Option<String>)
        requires
            self.wf(),
        ensures
            match r {
                Some(s) => self@.contains_key(name@) && s@ == self@[name@],
                None => !self@.contains_key(name@),
            },
    {
        match self.find_table(name) {
            Some(i) => Some(self.tables[i].1.clone()),
            None => None,
        }
    }

    /// Sets the contents stored under `name`, creating the entry if absent.
    fn set_table(&mut self, name: &str, contents: String)
        requires
            old(self).wf(),
        ensures
            final(self).wf(),
            final(self)@ == old(self)@.insert(name@, contents@),
    {
        let ghost ts0 = self.tables@;
        match self.find_table(name) {
            Some(i) => {
                let pair = (name.to_owned(), contents);
                self.tables.remove(i);
                self.tables.insert(i, pair);
                proof {
                    assert(self.tables@ =~= ts0.update(i as int, (ts0[i as int].0, pair.1)).update(
                        i as int,
                        pair,
                    ));
                    assert(self.tables@ =~= ts0.update(i as int, pair));
                    lemma_tables_map_update(ts0, i as int, pair);
                }
            },
            None => {
                let pair = (name.to_owned(), contents);
                self.tables.push(pair);
                proof {
                    assert forall|k: int| 0 <= k < ts0.len() implies (#[trigger] ts0[k]).0@
                        != pair.0@ by {
                        lemma_tables_map_at(ts0, k);
                    }
                    lemma_tables_map_push(ts0, pair);
                }
            },
        }
    }
}

// ---------------------------------------------------------------------------
// Specification of the operations
// ---------------------------------------------------------------------------

/// The envelope of a freshly created table: one record under key `"0"`,
/// counter at `"1"`.
pub open spec fn base_data(table: Seq<char>, record: Seq<char>) -> DataView {
    DataView { table: table, next_id: seq!['1'], records: seq![(seq!['0'], record)] }
}

/// The envelope of a freshly created empty table: no records, counter at
/// `"1"`.
pub open spec fn empty_data(table: Seq<char>) -> DataView {
    DataView { table: table, next_id: seq!['1'], records: Seq::empty() }
}

/// What `create_table` does to the store: nothing if the table exists,
/// else a fresh single-record envelope.
pub open spec fn spec_create_table(
    m: Map<Seq<char>, Seq<char>>,
    name: Seq<char>,
    record: Seq<char>,
) -> Map<Seq<char>, Seq<char>> {
    if m.contains_key(name) {
        m
    } else {
        m.insert(name, spec_encode(base_data(name, record)))
    }
}

/// What `create_empty_table` does to the store.
pub open spec fn spec_create_empty(m: Map<Seq<char>, Seq<char>>, name: Seq<char>) -> Map<
    Seq<char>,
    Seq<char>,
> {
    if m.contains_key(name) {
        m
    } else {
        m.insert(name, spec_encode(empty_data(name)))
    }
}

/// What one append does to a decoded envelope: the record is filed under
/// the current counter value and the counter moves up by one. `None` when
/// the stored counter does not parse (corruption).
pub open spec fn spec_append(d: DataView, record: Seq<char>) -> Option<DataView> {
    match counter_of(d.next_id) {
        Some(n) => Some(
            DataView {
                table: d.table,
                next_id: dec_of(n as nat + 1),
                records: d.records.push((dec_of(n as nat), record)),
            },
        ),
        None => None,
    }
}

/// The first record filed under `id`, if any.
pub open spec fn records_lookup(rs: Seq<(Seq<char>, Seq<char>)>, id: Seq<char>) -> Option<
    Seq<char>,
>
    decreases rs.len(),
{
    if rs.len() == 0 {
        None
    } else if rs[0].0 == id {
        Some(rs[0].1)
    } else {
        records_lookup(rs.drop_first(), id)
    }
}

/// The records with every entry under `id` removed, order kept.
pub open spec fn records_remove(rs: Seq<(Seq<char>, Seq<char>)>, id: Seq<char>) -> Seq<
    (Seq<char>, Seq<char>),
>
    decreases rs.len(),
{
    if rs.len() == 0 {
        Seq::empty()
    } else if rs[0].0 == id {
        records_remove(rs.drop_first(), id)
    } else {
        seq![rs[0]] + records_remove(rs.drop_first(), id)
    }
}

// ---------------------------------------------------------------------------
// Small verified helpers
// ---------------------------------------------------------------------------

/// Whether the text is exactly one JSON value, as stored records must be.
fn record_valid(t: &str) -> (r: bool)
    ensures
        r == wf_value(t@),
{
    let v = crate::text::chars_of(t);
    match value_end_x(&v, 0) {
        Some(e) => e == v.len(),
        None => false,
    }
}

/// Builds the fresh single-record envelope that `create_table` and
/// `update_table` store.
fn create_base_data(table: &str, t: &str) -> (d: Data)
    ensures
        d@ == base_data(table@, t@),
{
    let mut records: Vec<(String, String)> = Vec::new();
    records.push(("0".to_owned(), t.to_owned()));
    let d = Data { table: table.to_owned(), next_id: "1".to_owned(), records };
    proof {
        reveal_strlit("0");
        reveal_strlit("1");
        assert("0"@ =~= seq!['0']);
        assert("1"@ =~= seq!['1']);
        assert(pairs_view(d.records@) =~= seq![(seq!['0'], t@)]);
    }
    d
}

/// Encodes an envelope and stores it under `table`, replacing what was
/// there.
fn upgrade_table(store: &mut Store, table: &str, t: &Data)
    requires
        old(store).wf(),
    ensures
        final(store).wf(),
        final(store)@ == old(store)@.insert(table@, spec_encode(t@)),
{
    let contents = encode_data(t);
    store.set_table(table, contents);
}

// ---------------------------------------------------------------------------
// The public operations
// ---------------------------------------------------------------------------

/// Unconditionally overwrites `table` with a fresh single-record envelope
/// holding `t` under key `"0"` — a destructive replace, not a merge.
///
/// Fails only when `t` is not a single JSON value.
pub fn update_table(store: &mut Store, table: &str, t: &str) -> (r: Result<(), Error>)
    requires
        old(store).wf(),
    ensures
        final(store).wf(),
        match r {
            Ok(_) => wf_value(t@) && final(store)@ == old(store)@.insert(
                table@,
                spec_encode(base_data(table@, t@)),
            ),
            Err(e) => !wf_value(t@) && e is Serde && final(store)@ == old(store)@,
        },
{
    if !record_valid(t) {
        return Err(Error::Serde("record is not a JSON value".to_owned()));
    }
    let d = create_base_data(table, t);
    upgrade_table(store, table, &d);
    Ok(())
}

/// Creates `table` with `t` as its only record; if the table already
/// exists, succeeds without touching it (creation never overwrites).
///
/// Fails only when `t` is not a single JSON value.
pub fn create_table(store: &mut Store, table: &str, t: &str) -> (r: Result<(), Error>)
    requires
        old(store).wf(),
    ensures
        final(store).wf(),
        match r {
            Ok(_) => wf_value(t@) && final(store)@ == spec_create_table(
                old(store)@,
                table@,
                t@,
            ),
            Err(e) => !wf_value(t@) && e is Serde && final(store)@ == old(store)@,
        },
{
    if !record_valid(t) {
        return Err(Error::Serde("record is not a JSON value".to_owned()));
    }
    let d = create_base_data(table, t);
    match store.find_table(table) {
        Some(_) => Ok(()),
        None => {
            upgrade_table(store, table, &d);
            Ok(())
        },
    }
}

/// Creates `table` with no records and the counter at `"1"`; if the table
/// already exists, succeeds without touching it.
pub fn create_empty_table(store: &mut Store, table: &str) -> (r: Result<(), Error>)
    requires
        old(store).wf(),
    ensures
        final(store).wf(),
        r is Ok,
        final(store)@ == spec_create_empty(old(store)@, table@),
{
    let d = Data { table: table.to_owned(), next_id: "1".to_owned(), records: Vec::new() };
    proof {
        reveal_strlit("1");
        assert("1"@ =~= seq!['1']);
        assert(pairs_view(d.records@) =~= Seq::<(Seq<char>, Seq<char>)>::empty());
        assert(d@ == empty_data(table@));
    }
    match store.find_table(table) {
        Some(_) => Ok(()),
        None => {
            upgrade_table(store, table, &d);
            Ok(())
        },
    }
}

/// The raw text of `table`'s file. A missing table is the dedicated
/// missing-table kind, never an IO failure.
pub fn read_table(store: &Store, table: &str) -> (r: Result<String, Error>)
    requires
        store.wf(),
    ensures
        match r {
            Ok(s) => store@.contains_key(table@) && s@ == store@[table@],
            Err(e) => !store@.contains_key(table@) && (e matches Error::NoSuchTable(n) && n@
                == table@),
        },
{
    match store.read_contents(table) {
        Some(s) => Ok(s),
        None => Err(Error::NoSuchTable(table.to_owned())),
    }
}

/// Removes `table` from the store; removing an absent table is an IO
/// failure, as removing a missing file is.
pub fn drop_table(store: &mut Store, table: &str) -> (r: Result<(), Error>)
    requires
        old(store).wf(),
    ensures
        final(store).wf(),
        match r {
            Ok(_) => old(store)@.contains_key(table@) && final(store)@ == old(store)@.remove(
                table@,
            ),
            Err(e) => !old(store)@.contains_key(table@) && e is Io && final(store)@ == old(
                store,
            )@,
        },
{
    let ghost ts0 = store.tables@;
    match store.find_table(table) {
        Some(i) => {
            store.tables.remove(i);
            proof {
                lemma_tables_map_remove(ts0, i as int);
            }
            Ok(())
        },
        None => Err(Error::Io("no such table file to remove".to_owned())),
    }
}

/// Reads and decodes `table`'s envelope.
pub fn get_table(store: &Store, table: &str) -> (r: Result<Data, Error>)
    requires
        store.wf(),
    ensures
        match r {
            Ok(d) => store@.contains_key(table@) && parse_envelope(store@[table@]) == Some(d@),
            Err(e) => match e {
                Error::NoSuchTable(n) => !store@.contains_key(table@) && n@ == table@,
                Error::Serde(_) => store@.contains_key(table@) && parse_envelope(
                    store@[table@],
                ) is None,
                _ => false,
            },
        },
{
    match read_table(store, table) {
        Ok(c) => crate::data::decode_data(c.as_str()),
        Err(e) => Err(e),
    }
}

/// The decoded records of `table`, keys and raw values, in file order.
pub fn get_table_records(store: &Store, table: &str) -> (r: Result<Vec<(String, String)>, Error>)
    requires
        store.wf(),
    ensures
        match r {
            Ok(rs) => store@.contains_key(table@) && parse_envelope(store@[table@]) is Some
                && pairs_view(rs@) == parse_envelope(store@[table@]).unwrap().records,
            Err(e) => match e {
                Error::NoSuchTable(n) => !store@.contains_key(table@) && n@ == table@,
                Error::Serde(_) => store@.contains_key(table@) && parse_envelope(
                    store@[table@],
                ) is None,
                _ => false,
            },
        },
{
    match get_table(store, table) {
        Ok(d) => Ok(d.records),
        Err(e) => Err(e),
    }
}

/// The raw JSON text of the record stored under `id` in `table`. A present
/// table whose envelope decodes but lacks `id` is the missing-key kind.
pub fn find(store: &Store, table: &str, id: &str) -> (r: Result<String, Error>)
    requires
        store.wf(),
    ensures
        match r {
            Ok(s) => store@.contains_key(table@) && parse_envelope(store@[table@]) is Some
                && records_lookup(parse_envelope(store@[table@]).unwrap().records, id@) == Some(
                s@,
            ),
            Err(e) => match e {
                Error::NoSuchTable(n) => !store@.contains_key(table@) && n@ == table@,
                Error::Serde(_) => store@.contains_key(table@) && parse_envelope(
                    store@[table@],
                ) is None,
                Error::NoSuchKey => store@.contains_key(table@) && parse_envelope(
                    store@[table@],
                ) is Some && records_lookup(
                    parse_envelope(store@[table@]).unwrap().records,
                    id@,
                ) is None,
                _ => false,
            },
        },
{
    let rs = match get_table_records(store, table) {
        Ok(rs) => rs,
        Err(e) => { return Err(e) },
    };
    let ghost rsv = pairs_view(rs@);
    proof {
        assert(rsv.skip(0) =~= rsv);
    }
    let mut i: usize = 0;
    while i < rs.len()
        invariant
            i <= rs@.len(),
            rsv == pairs_view(rs@),
            store@.contains_key(table@),
            parse_envelope(store@[table@]) is Some,
            rsv == parse_envelope(store@[table@]).unwrap().records,
            records_lookup(rsv, id@) == records_lookup(rsv.skip(i as int), id@),
        decreases rs@.len() - i,
    {
        if str_eq(rs[i].0.as_str(), id) {
            proof {
                assert(rsv.skip(i as int)[0] == rsv[i as int]);
            }
            return Ok(rs[i].1.clone());
        }
        i = i + 1;
        proof {
            assert(rsv.skip(i as int - 1)[0] == rsv[i as int - 1]);
            assert(rsv.skip(i as int - 1).drop_first() =~= rsv.skip(i as int));
        }
    }
    proof {
        assert(rsv.skip(rs@.len() as int) =~= Seq::<(Seq<char>, Seq<char>)>::empty());
    }
    Err(Error::NoSuchKey)
}

/// Removes the record under `id` from `table` (removing an absent key is
/// not an error) and overwrites the file with the records object alone.
///
/// The overwrite keeps only the records mapping — the `table` and
/// `next_id` fields are not rewritten, so a delete followed by a read
/// shows a bare records object rather than an envelope. This asymmetry is
/// part of the store's observed design and is preserved deliberately.
pub fn delete(store: &mut Store, table: &str, id: &str) -> (r: Result<(), Error>)
    requires
        old(store).wf(),
    ensures
        final(store).wf(),
        match r {
            Ok(_) => old(store)@.contains_key(table@) && parse_envelope(
                old(store)@[table@],
            ) is Some && final(store)@ == old(store)@.insert(
                table@,
                records_obj(
                    records_remove(parse_envelope(old(store)@[table@]).unwrap().records, id@),
                ),
            ),
            Err(e) => final(store)@ == old(store)@ && match e {
                Error::NoSuchTable(n) => !old(store)@.contains_key(table@) && n@ == table@,
                Error::Serde(_) => old(store)@.contains_key(table@) && parse_envelope(
                    old(store)@[table@],
                ) is None,
                _ => false,
            },
        },
{
    let rs = match get_table_records(store, table) {
        Ok(rs) => rs,
        Err(e) => { return Err(e) },
    };
    let ghost rsv = pairs_view(rs@);
    let mut kept: Vec<(String, String)> = Vec::new();
    proof {
        assert(rsv.skip(0) =~= rsv);
        assert(pairs_view(kept@) =~= Seq::<(Seq<char>, Seq<char>)>::empty());
        assert(pairs_view(kept@) + records_remove(rsv, id@) =~= records_remove(rsv, id@));
    }
    let mut i: usize = 0;
    while i < rs.len()
        invariant
            i <= rs@.len(),
            rsv == pairs_view(rs@),
            records_remove(rsv, id@) == pairs_view(kept@) + records_remove(
                rsv.skip(i as int),
                id@,
            ),
        decreases rs@.len() - i,
    {
        let ghost kept0 = pairs_view(kept@);
        proof {
            assert(rsv.skip(i as int)[0] == rsv[i as int]);
            assert(rsv.skip(i as int).drop_first() =~= rsv.skip(i as int + 1));
        }
        if !str_eq(rs[i].0.as_str(), id) {
            let key = rs[i].0.clone();
            let val = rs[i].1.clone();
            kept.push((key, val));
            proof {
                assert(pairs_view(kept@) =~= kept0.push(rsv[i as int]));
                assert(kept0 + (seq![rsv[i as int]] + records_remove(
                    rsv.skip(i as int + 1),
                    id@,
                )) =~= kept0.push(rsv[i as int]) + records_remove(rsv.skip(i as int + 1), id@));
            }
        }
        i = i + 1;
    }
    proof {
        assert(rsv.skip(rs@.len() as int) =~= Seq::<(Seq<char>, Seq<char>)>::empty());
        assert(pairs_view(kept@) + Seq::<(Seq<char>, Seq<char>)>::empty() =~= pairs_view(kept@));
    }
    let contents = crate::data::encode_records_obj(&kept);
    store.set_table(table, contents);
    Ok(())
}

/// The raw JSON text of the record under `id` — what `find` returns, which
/// is already JSON text.
pub fn json_find(store: &Store, table: &str, id: &str) -> (r: Result<String, Error>)
    requires
        store.wf(),
    ensures
        match r {
            Ok(s) => store@.contains_key(table@) && parse_envelope(store@[table@]) is Some
                && records_lookup(parse_envelope(store@[table@]).unwrap().records, id@) == Some(
                s@,
            ),
            Err(e) => match e {
                Error::NoSuchTable(n) => !store@.contains_key(table@) && n@ == table@,
                Error::Serde(_) => store@.contains_key(table@) && parse_envelope(
                    store@[table@],
                ) is None,
                Error::NoSuchKey => store@.contains_key(table@) && parse_envelope(
                    store@[table@],
                ) is Some && records_lookup(
                    parse_envelope(store@[table@]).unwrap().records,
                    id@,
                ) is None,
                _ => false,
            },
        },
{
    find(store, table, id)
}

/// The records of `table` serialized as one JSON object.
pub fn json_table_records(store: &Store, table: &str) -> (r: Result<String, Error>)
    requires
        store.wf(),
    ensures
        match r {
            Ok(s) => store@.contains_key(table@) && parse_envelope(store@[table@]) is Some && s@
                == records_obj(parse_envelope(store@[table@]).unwrap().records),
            Err(e) => match e {
                Error::NoSuchTable(n) => !store@.contains_key(table@) && n@ == table@,
                Error::Serde(_) => store@.contains_key(table@) && parse_envelope(
                    store@[table@],
                ) is None,
                _ => false,
            },
        },
{
    match get_table_records(store, table) {
        Ok(rs) => Ok(crate::data::encode_records_obj(&rs)),
        Err(e) => Err(e),
    }
}

/// Stores caller-supplied JSON text verbatim under `table` if the table
/// does not exist; an existing table is left untouched. The text is not
/// validated — this bypasses the typed envelope entirely.
pub fn store_json(store: &mut Store, table: &str, json: &str) -> (r: Result<(), Error>)
    requires
        old(store).wf(),
    ensures
        final(store).wf(),
        r is Ok,
        final(store)@ == (if old(store)@.contains_key(table@) {
            old(store)@
        } else {
            old(store)@.insert(table@, json@)
        }),
{
    match store.find_table(table) {
        Some(_) => Ok(()),
        None => {
            store.set_table(table, json.to_owned());
            Ok(())
        },
    }
}

/// Overwrites `table` with caller-supplied JSON text verbatim,
/// unconditionally and without validation.
pub fn update_json(store: &mut Store, table: &str, json: &str) -> (r: Result<(), Error>)
    requires
        old(store).wf(),
    ensures
        final(store).wf(),
        r is Ok,
        final(store)@ == old(store)@.insert(table@, json@),
{
    store.set_table(table, json.to_owned());
    Ok(())
}

/// Appends `t` to `table`: files it under the current counter value and
/// advances the counter by one — the only operation that allocates IDs.
///
/// A counter that does not parse as a decimal integer is the dedicated
/// corrupted-counter kind, and the table is left unmodified.
pub fn append_records(store: &mut Store, table: &str, t: &str) -> (r: Result<(), Error>)
    requires
        old(store).wf(),
    ensures
        final(store).wf(),
        match r {
            Ok(_) => {
                &&& old(store)@.contains_key(table@)
                &&& parse_envelope(old(store)@[table@]) is Some
                &&& counter_of(parse_envelope(old(store)@[table@]).unwrap().next_id) is Some
                &&& wf_value(t@)
                &&& final(store)@ == old(store)@.insert(
                    table@,
                    spec_encode(
                        spec_append(parse_envelope(old(store)@[table@]).unwrap(), t@).unwrap(),
                    ),
                )
            },
            Err(e) => final(store)@ == old(store)@ && match e {
                Error::NoSuchTable(n) => !old(store)@.contains_key(table@) && n@ == table@,
                Error::Serde(_) => old(store)@.contains_key(table@) && (parse_envelope(
                    old(store)@[table@],
                ) is None || (parse_envelope(old(store)@[table@]) is Some && counter_of(
                    parse_envelope(old(store)@[table@]).unwrap().next_id,
                ) is Some && !wf_value(t@))),
                Error::ParseInt(m) => old(store)@.contains_key(table@) && parse_envelope(
                    old(store)@[table@],
                ) is Some && counter_of(
                    parse_envelope(old(store)@[table@]).unwrap().next_id,
                ) is None && m@ == parse_envelope(old(store)@[table@]).unwrap().next_id,
                _ => false,
            },
        },
{
    let d = match get_table(store, table) {
        Ok(d) => d,
        Err(e) => { return Err(e) },
    };
    let n = match parse_counter(d.next_id.as_str()) {
        Some(n) => n,
        None => { return Err(Error::ParseInt(d.next_id)) },
    };
    if !record_valid(t) {
        return Err(Error::Serde("record is not a JSON value".to_owned()));
    }
    let ghost dv = d@;
    let mut d2 = d;
    let key = fmt_u64(n);
    d2.records.push((key, t.to_owned()));
    d2.next_id = fmt_u64(n + 1);
    proof {
        assert(pairs_view(d2.records@) =~= dv.records.push((dec_of(n as nat), t@)));
        assert(d2@ == spec_append(dv, t@).unwrap());
    }
    upgrade_table(store, table, &d2);
    Ok(())
}

} // verus!

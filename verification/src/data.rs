//! The table envelope: its data type, its canonical encoding, and its
//! decoding from file text.
//!
//! A table file holds `{"table": <string>, "next_id": <string>,
//! "records": {<key>: <value>, ...}}` in exactly that field order; the
//! record values are opaque JSON values kept as raw text. Encoding is
//! canonical (no whitespace); decoding accepts whitespace between tokens
//! and the standard string escapes, and rejects duplicate record keys.

use crate::errors::Error;
use crate::json::{
    json_quote,
    members_rest,
    pairs_view,
    parse_string,
    parse_string_x,
    unique_keys,
    wf_value,
    ws_end,
    ws_end_x,
};
use crate::text::{chars_of, push_char, string_of};
use vstd::prelude::*;
use vstd::string::StringExecFns;

verus! {

broadcast use vstd::string::group_string_axioms;

// ---------------------------------------------------------------------------
// The envelope type
// ---------------------------------------------------------------------------

/// What a table envelope denotes: its name, its counter text, and its
/// records as (key, raw JSON value) pairs in file order.
pub struct DataView {
    pub table: Seq<char>,
    pub next_id: Seq<char>,
    pub records: Seq<(Seq<char>, Seq<char>)>,
}

/// A decoded table envelope.
///
/// `records` keeps each record's raw JSON text under its decimal-string
/// key, in file order; keys are unique.
#[derive(Debug)]
pub struct Data {
    pub table: String,
    pub next_id: String,
    pub records: Vec<(String, String)>,
}

impl View for Data {
    type V = DataView;

    open spec fn view(&self) -> DataView {
        DataView {
            table: self.table@,
            next_id: self.next_id@,
            records: pairs_view(self.records@),
        }
    }
}

/// A well-formed envelope: unique record keys, and every record value one
/// whole JSON value.
pub open spec fn wf_data(d: DataView) -> bool {
    &&& unique_keys(d.records)
    &&& forall|i: int| 0 <= i < d.records.len() ==> wf_value((#[trigger] d.records[i]).1)
}

// ---------------------------------------------------------------------------
// Encoding
// ---------------------------------------------------------------------------

/// The characters of the field name `table`.
pub open spec fn key_table() -> Seq<char> {
    seq!['t', 'a', 'b', 'l', 'e']
}

/// The characters of the field name `next_id`.
pub open spec fn key_next_id() -> Seq<char> {
    seq!['n', 'e', 'x', 't', '_', 'i', 'd']
}

/// The characters of the field name `records`.
pub open spec fn key_records() -> Seq<char> {
    seq!['r', 'e', 'c', 'o', 'r', 'd', 's']
}

/// One encoded record entry: quoted key, colon, raw value.
pub open spec fn encode_entry(p: (Seq<char>, Seq<char>)) -> Seq<char> {
    json_quote(p.0) + seq![':'] + p.1
}

/// The encoded members of the records object, comma-separated, in order.
pub open spec fn encode_members(rs: Seq<(Seq<char>, Seq<char>)>) -> Seq<char>
    decreases rs.len(),
{
    if rs.len() == 0 {
        Seq::<char>::empty()
    } else if rs.len() == 1 {
        encode_entry(rs[0])
    } else {
        encode_entry(rs[0]) + seq![','] + encode_members(rs.drop_first())
    }
}

/// A bare records object: the encoded members inside braces. This is what
/// `delete` writes back and what the records of a table serialize to.
pub open spec fn records_obj(rs: Seq<(Seq<char>, Seq<char>)>) -> Seq<char> {
    seq!['{'] + encode_members(rs) + seq!['}']
}

/// The canonical encoding of an envelope: compact JSON, fields in the order
/// `table`, `next_id`, `records`.
pub open spec fn spec_encode(d: DataView) -> Seq<char> {
    seq!['{'] + json_quote(key_table()) + seq![':'] + json_quote(d.table) + seq![','] + json_quote(
        key_next_id(),
    ) + seq![':'] + json_quote(d.next_id) + seq![','] + json_quote(key_records()) + seq![':']
        + records_obj(d.records) + seq!['}']
}

/// Appending one entry extends the encoded members on the right.
pub proof fn lemma_encode_members_snoc(rs: Seq<(Seq<char>, Seq<char>)>, p: (Seq<char>, Seq<char>))
    ensures
        rs.len() == 0 ==> encode_members(rs.push(p)) == encode_entry(p),
        rs.len() > 0 ==> encode_members(rs.push(p)) == encode_members(rs) + seq![',']
            + encode_entry(p),
    decreases rs.len(),
{
    if rs.len() == 0 {
        assert(rs.push(p)[0] == p);
        assert(encode_members(rs.push(p)) == encode_entry(p));
    } else if rs.len() == 1 {
        assert(rs.push(p)[0] == rs[0]);
        assert(rs.push(p).drop_first() =~= seq![p]);
        assert(encode_members(seq![p]) == encode_entry(p));
        assert(encode_members(rs.push(p)) == encode_entry(rs[0]) + seq![','] + encode_entry(p));
        assert(encode_members(rs) == encode_entry(rs[0]));
    } else {
        lemma_encode_members_snoc(rs.drop_first(), p);
        assert(rs.push(p)[0] == rs[0]);
        assert(rs.push(p).drop_first() =~= rs.drop_first().push(p));
        assert(encode_members(rs.push(p)) == encode_entry(rs[0]) + seq![','] + encode_members(
            rs.drop_first().push(p),
        ));
        assert(encode_entry(rs[0]) + seq![','] + (encode_members(rs.drop_first()) + seq![',']
            + encode_entry(p)) =~= (encode_entry(rs[0]) + seq![','] + encode_members(
            rs.drop_first(),
        )) + seq![','] + encode_entry(p));
    }
}

/// Encodes a bare records object: the record entries inside braces.
pub fn encode_records_obj(records: &Vec<(String, String)>) -> (out: String)
    ensures
        out@ == records_obj(pairs_view(records@)),
{
    let mut out = String::new();
    push_char(&mut out, '{');
    let mut k: usize = 0;
    while k < records.len()
        invariant
            k <= records.len(),
            out@ == seq!['{'] + encode_members(pairs_view(records@).take(k as int)),
        decreases records.len() - k,
    {
        let ghost pre = pairs_view(records@).take(k as int);
        if k > 0 {
            push_char(&mut out, ',');
        }
        crate::json::append_json_quoted(&mut out, records[k].0.as_str());
        push_char(&mut out, ':');
        out.append(records[k].1.as_str());
        k = k + 1;
        proof {
            let rs = pairs_view(records@);
            lemma_encode_members_snoc(pre, rs[k as int - 1]);
            assert(rs.take(k as int) =~= pre.push(rs[k as int - 1]));
            assert(out@ =~= seq!['{'] + encode_members(rs.take(k as int)));
        }
    }
    push_char(&mut out, '}');
    proof {
        assert(pairs_view(records@).take(records@.len() as int) =~= pairs_view(records@));
        assert(out@ =~= records_obj(pairs_view(records@)));
    }
    out
}

/// Encodes an envelope as canonical table-file text.
pub fn encode_data(d: &Data) -> (out: String)
    ensures
        out@ == spec_encode(d@),
{
    let mut out = String::new();
    push_char(&mut out, '{');
    proof {
        reveal_strlit("table");
        reveal_strlit("next_id");
        reveal_strlit("records");
        assert("table"@ =~= key_table());
        assert("next_id"@ =~= key_next_id());
        assert("records"@ =~= key_records());
    }
    crate::json::append_json_quoted(&mut out, "table");
    push_char(&mut out, ':');
    crate::json::append_json_quoted(&mut out, d.table.as_str());
    push_char(&mut out, ',');
    crate::json::append_json_quoted(&mut out, "next_id");
    push_char(&mut out, ':');
    crate::json::append_json_quoted(&mut out, d.next_id.as_str());
    push_char(&mut out, ',');
    crate::json::append_json_quoted(&mut out, "records");
    push_char(&mut out, ':');
    let obj = encode_records_obj(&d.records);
    out.append(obj.as_str());
    push_char(&mut out, '}');
    proof {
        assert(out@ =~= spec_encode(d@));
    }
    out
}

// ---------------------------------------------------------------------------
// Decoding
// ---------------------------------------------------------------------------

/// The end of an envelope: optional whitespace, the closing brace, optional
/// whitespace, end of text.
pub open spec fn envelope_close(s: Seq<char>, pos: int) -> bool {
    let e = ws_end(s, pos);
    &&& e < s.len()
    &&& s[e] == '}'
    &&& ws_end(s, e + 1) == s.len()
}

/// Decodes table-file text as an envelope: the three fields in order, then
/// the record pairs, rejecting duplicate keys and trailing text.
pub open spec fn parse_envelope(s: Seq<char>) -> Option<DataView> {
    let i0 = ws_end(s, 0);
    if i0 < s.len() && s[i0] == '{' {
        let i1 = ws_end(s, i0 + 1);
        match parse_string(s, i1) {
            Some(k1) => if k1.1 == key_table() {
                let c1 = ws_end(s, k1.0);
                if c1 < s.len() && s[c1] == ':' {
                    let v1 = ws_end(s, c1 + 1);
                    match parse_string(s, v1) {
                        Some(tv) => {
                            let m1 = ws_end(s, tv.0);
                            if m1 < s.len() && s[m1] == ',' {
                                let i2 = ws_end(s, m1 + 1);
                                match parse_string(s, i2) {
                                    Some(k2) => if k2.1 == key_next_id() {
                                        let c2 = ws_end(s, k2.0);
                                        if c2 < s.len() && s[c2] == ':' {
                                            let v2 = ws_end(s, c2 + 1);
                                            match parse_string(s, v2) {
                                                Some(nv) => parse_envelope_tail(s, nv.0, k1.1, tv.1, nv.1),
                                                None => None,
                                            }
                                        } else {
                                            None
                                        }
                                    } else {
                                        None
                                    },
                                    None => None,
                                }
                            } else {
                                None
                            }
                        },
                        None => None,
                    }
                } else {
                    None
                }
            } else {
                None
            },
            None => None,
        }
    } else {
        None
    }
}

/// Decodes the `records` field and the envelope's end, starting just past
/// the `next_id` value.
pub open spec fn parse_envelope_tail(
    s: Seq<char>,
    pos: int,
    table: Seq<char>,
    table_val: Seq<char>,
    next_id_val: Seq<char>,
) -> Option<DataView> {
    let m2 = ws_end(s, pos);
    if m2 < s.len() && s[m2] == ',' {
        let i3 = ws_end(s, m2 + 1);
        match parse_string(s, i3) {
            Some(k3) => if k3.1 == key_records() {
                let c3 = ws_end(s, k3.0);
                if c3 < s.len() && s[c3] == ':' {
                    let o = ws_end(s, c3 + 1);
                    if o < s.len() && s[o] == '{' {
                        let j = ws_end(s, o + 1);
                        if j < s.len() {
                            if s[j] == '}' {
                                if envelope_close(s, j + 1) {
                                    Some(
                                        DataView {
                                            table: table_val,
                                            next_id: next_id_val,
                                            records: Seq::empty(),
                                        },
                                    )
                                } else {
                                    None
                                }
                            } else {
                                match members_rest(s, j) {
                                    Some(p) => if unique_keys(p.1) && envelope_close(s, p.0) {
                                        Some(
                                            DataView {
                                                table: table_val,
                                                next_id: next_id_val,
                                                records: p.1,
                                            },
                                        )
                                    } else {
                                        None
                                    },
                                    None => None,
                                }
                            }
                        } else {
                            None
                        }
                    } else {
                        None
                    }
                } else {
                    None
                }
            } else {
                None
            },
            None => None,
        }
    } else {
        None
    }
}

/// Whether all record keys are pairwise distinct.
fn keys_unique(pairs: &Vec<(String, String)>) -> (r: bool)
    ensures
        r == unique_keys(pairs_view(pairs@)),
{
    let mut a: usize = 0;
    while a < pairs.len()
        invariant
            a <= pairs.len(),
            forall|x: int, y: int|
                0 <= x < y < pairs@.len() && x < a ==> (#[trigger] pairs_view(pairs@)[x]).0 != (
                #[trigger] pairs_view(pairs@)[y]).0,
        decreases pairs.len() - a,
    {
        let mut b: usize = a + 1;
        while b < pairs.len()
            invariant
                a < b <= pairs.len() || (a + 1 == b && b > pairs.len()),
                a < pairs.len(),
                forall|y: int|
                    a < y < b ==> (#[trigger] pairs_view(pairs@)[y]).0 != pairs_view(
                        pairs@,
                    )[a as int].0,
            decreases pairs.len() - b,
        {
            if crate::text::str_eq(pairs[a].0.as_str(), pairs[b].0.as_str()) {
                assert(pairs_view(pairs@)[a as int].0 == pairs_view(pairs@)[b as int].0);
                return false;
            }
            b = b + 1;
        }
        a = a + 1;
    }
    true
}

/// Decodes table-file text, accepting exactly what `parse_envelope`
/// accepts; anything else is the encode/decode error kind.
pub fn decode_data(s: &str) -> (r: Result<Data, Error>)
    ensures
        match r {
            Ok(d) => parse_envelope(s@) == Some(d@),
            Err(e) => parse_envelope(s@) is None && e is Serde,
        },
{
    let v = chars_of(s);
    let i0 = ws_end_x(&v, 0);
    if !(i0 < v.len()) {
        return Err(Error::Serde("not a table envelope: no object".to_owned()));
    }
    if v[i0] != '{' {
        return Err(Error::Serde("not a table envelope: no object".to_owned()));
    }
    let i1 = ws_end_x(&v, i0 + 1);
    let k1 = match parse_string_x(&v, i1) {
        Some(p) => p,
        None => { return Err(Error::Serde("missing field table".to_owned())) },
    };
    let k1s = string_of(&k1.1);
    proof {
        reveal_strlit("table");
        assert("table"@ =~= key_table());
    }
    if !crate::text::str_eq(k1s.as_str(), "table") {
        return Err(Error::Serde("missing field table".to_owned()));
    }
    let c1 = ws_end_x(&v, k1.0);
    if !(c1 < v.len()) {
        return Err(Error::Serde("missing field table".to_owned()));
    }
    if v[c1] != ':' {
        return Err(Error::Serde("missing field table".to_owned()));
    }
    let v1 = ws_end_x(&v, c1 + 1);
    let tv = match parse_string_x(&v, v1) {
        Some(p) => p,
        None => { return Err(Error::Serde("missing field table".to_owned())) },
    };
    let m1 = ws_end_x(&v, tv.0);
    if !(m1 < v.len()) {
        return Err(Error::Serde("missing field next_id".to_owned()));
    }
    if v[m1] != ',' {
        return Err(Error::Serde("missing field next_id".to_owned()));
    }
    let i2 = ws_end_x(&v, m1 + 1);
    let k2 = match parse_string_x(&v, i2) {
        Some(p) => p,
        None => { return Err(Error::Serde("missing field next_id".to_owned())) },
    };
    let k2s = string_of(&k2.1);
    proof {
        reveal_strlit("next_id");
        assert("next_id"@ =~= key_next_id());
    }
    if !crate::text::str_eq(k2s.as_str(), "next_id") {
        return Err(Error::Serde("missing field next_id".to_owned()));
    }
    let c2 = ws_end_x(&v, k2.0);
    if !(c2 < v.len()) {
        return Err(Error::Serde("missing field next_id".to_owned()));
    }
    if v[c2] != ':' {
        return Err(Error::Serde("missing field next_id".to_owned()));
    }
    let v2 = ws_end_x(&v, c2 + 1);
    let nv = match parse_string_x(&v, v2) {
        Some(p) => p,
        None => { return Err(Error::Serde("missing field next_id".to_owned())) },
    };
    // records field and envelope end
    let m2 = ws_end_x(&v, nv.0);
    if !(m2 < v.len()) {
        return Err(Error::Serde("missing field records".to_owned()));
    }
    if v[m2] != ',' {
        return Err(Error::Serde("missing field records".to_owned()));
    }
    let i3 = ws_end_x(&v, m2 + 1);
    let k3 = match parse_string_x(&v, i3) {
        Some(p) => p,
        None => { return Err(Error::Serde("missing field records".to_owned())) },
    };
    let k3s = string_of(&k3.1);
    proof {
        reveal_strlit("records");
        assert("records"@ =~= key_records());
    }
    if !crate::text::str_eq(k3s.as_str(), "records") {
        return Err(Error::Serde("missing field records".to_owned()));
    }
    let c3 = ws_end_x(&v, k3.0);
    if !(c3 < v.len()) {
        return Err(Error::Serde("missing field records".to_owned()));
    }
    if v[c3] != ':' {
        return Err(Error::Serde("missing field records".to_owned()));
    }
    let o = ws_end_x(&v, c3 + 1);
    if !(o < v.len()) {
        return Err(Error::Serde("missing field records".to_owned()));
    }
    if v[o] != '{' {
        return Err(Error::Serde("missing field records".to_owned()));
    }
    let j = ws_end_x(&v, o + 1);
    if !(j < v.len()) {
        return Err(Error::Serde("malformed table envelope".to_owned()));
    }
    let table_s = string_of(&tv.1);
    let next_id_s = string_of(&nv.1);
    if v[j] == '}' {
        if !close_x(&v, j + 1) {
            return Err(Error::Serde("malformed table envelope".to_owned()));
        }
        let d = Data { table: table_s, next_id: next_id_s, records: Vec::new() };
        proof {
            assert(pairs_view(Seq::<(String, String)>::empty()) =~= Seq::<
                (Seq<char>, Seq<char>),
            >::empty());
            assert(parse_envelope(s@) == Some(d@));
        }
        Ok(d)
    } else {
        let p = match crate::json::members_rest_x(&v, j) {
            Some(p) => p,
            None => { return Err(Error::Serde("malformed table envelope".to_owned())) },
        };
        if !keys_unique(&p.1) {
            return Err(Error::Serde("duplicate record key".to_owned()));
        }
        if !close_x(&v, p.0) {
            return Err(Error::Serde("malformed table envelope".to_owned()));
        }
        let d = Data { table: table_s, next_id: next_id_s, records: p.1 };
        proof {
            assert(parse_envelope(s@) == Some(d@));
        }
        Ok(d)
    }
}

/// Whether the text closes the envelope at `pos` and then ends.
fn close_x(v: &Vec<char>, pos: usize) -> (r: bool)
    requires
        pos <= v.len(),
    ensures
        r == envelope_close(v@, pos as int),
{
    let e = ws_end_x(v, pos);
    if e < v.len() && v[e] == '}' {
        let t = ws_end_x(v, e + 1);
        t == v.len()
    } else {
        false
    }
}

} // verus!

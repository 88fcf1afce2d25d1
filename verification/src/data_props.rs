//! The codec round-trip: decoding what `spec_encode` produced yields the
//! original envelope, so re-encoding a decoded table file reproduces it
//! byte for byte.

use crate::data::{
    encode_entry,
    encode_members,
    key_next_id,
    key_records,
    key_table,
    parse_envelope,
    parse_envelope_tail,
    spec_encode,
    wf_data,
    DataView,
};
use crate::json::{
    char_of_hex,
    enc_char,
    esc_char,
    esc_seq,
    hex4_val,
    hex_val,
    is_ws,
    json_quote,
    lemma_ws_end_is,
    members_rest,
    parse_string,
    parse_string_body,
    unique_keys,
    value_end,
    wf_value,
    ws_end,
};
use crate::json_props::{lemma_members_wf, lemma_value_shift};
use crate::text::lemma_digit_char_val;
use vstd::prelude::*;

verus! {

/// One character of a window placed in a larger text.
proof fn lemma_at(t: Seq<char>, i: int, w: Seq<char>, d: int)
    requires
        0 <= i,
        i + w.len() <= t.len(),
        t.subrange(i, i + w.len() as int) == w,
        0 <= d < w.len(),
    ensures
        t[i + d] == w[d],
{
    assert(t.subrange(i, i + w.len() as int)[d] == t[i + d]);
}

/// Splitting a window splits its placement.
proof fn lemma_tail(t: Seq<char>, i: int, w: Seq<char>, a: Seq<char>, b: Seq<char>)
    requires
        0 <= i,
        i + w.len() <= t.len(),
        t.subrange(i, i + w.len() as int) == w,
        w == a + b,
    ensures
        t.subrange(i + a.len(), i + w.len() as int) == b,
        t.subrange(i, i + a.len() as int) == a,
{
    assert(t.subrange(i + a.len(), i + w.len() as int) =~= b) by {
        assert forall|q: int|
            0 <= q < b.len() implies t.subrange(i + a.len(), i + w.len() as int)[q] == b[q] by {
            assert(t.subrange(i + a.len(), i + w.len() as int)[q] == t[i + a.len() + q]);
            assert(t.subrange(i, i + w.len() as int)[a.len() + q] == t[i + a.len() + q]);
            assert(w[a.len() + q] == b[q]);
        }
    }
    assert(t.subrange(i, i + a.len() as int) =~= a) by {
        assert forall|q: int|
            0 <= q < a.len() implies t.subrange(i, i + a.len() as int)[q] == a[q] by {
            assert(t.subrange(i, i + a.len() as int)[q] == t[i + q]);
            assert(t.subrange(i, i + w.len() as int)[q] == t[i + q]);
            assert(w[q] == a[q]);
        }
    }
}

/// `char_of_hex` and `hex_val` invert each other below sixteen.
proof fn lemma_hex_inv(d: nat)
    requires
        d < 16,
    ensures
        hex_val(char_of_hex(d)) == Some(d),
{
    if d < 10 {
        lemma_digit_char_val(d);
    }
}

/// Parsing the escaped body of a string (with its closing quote) recovers
/// the original characters.
#[verifier::rlimit(60)]
proof fn lemma_esc_parse(x: Seq<char>, t: Seq<char>, i: int)
    requires
        0 <= i,
        i + esc_seq(x).len() + 1 <= t.len(),
        t.subrange(i, i + esc_seq(x).len() + 1) == esc_seq(x) + seq!['"'],
    ensures
        parse_string_body(t, i) == Some((i + esc_seq(x).len() + 1, x)),
    decreases x.len(),
{
    let w = esc_seq(x) + seq!['"'];
    if x.len() == 0 {
        assert(w[0] == '"');
        lemma_at(t, i, w, 0);
    } else {
        let c = x[0];
        let x2 = x.drop_first();
        let ec = enc_char(c);
        assert(esc_seq(x) == ec + esc_seq(x2));
        let w2 = esc_seq(x2) + seq!['"'];
        assert(w =~= ec + w2);
        lemma_tail(t, i, w, ec, w2);
        assert forall|d: int| 0 <= d < ec.len() implies t[i + d] == ec[d] by {
            lemma_at(t, i, w, d);
        }
        assert(x =~= seq![c] + x2);
        if c == '"' || c == '\\' {
            assert(ec == seq!['\\', c]);
            assert(esc_char(c) == Some(c));
            lemma_esc_parse(x2, t, i + 2);
        } else if c == '\u{8}' {
            assert(ec == seq!['\\', 'b']);
            lemma_esc_parse(x2, t, i + 2);
        } else if c == '\t' {
            assert(ec == seq!['\\', 't']);
            lemma_esc_parse(x2, t, i + 2);
        } else if c == '\n' {
            assert(ec == seq!['\\', 'n']);
            lemma_esc_parse(x2, t, i + 2);
        } else if c == '\u{c}' {
            assert(ec == seq!['\\', 'f']);
            lemma_esc_parse(x2, t, i + 2);
        } else if c == '\r' {
            assert(ec == seq!['\\', 'r']);
            lemma_esc_parse(x2, t, i + 2);
        } else if (c as u32) < 0x20 {
            let hi = (c as u32) as nat / 16;
            let lo = (c as u32) as nat % 16;
            assert(ec == seq!['\\', 'u', '0', '0', char_of_hex(hi), char_of_hex(lo)]);
            assert(t[i] == '\\' && t[i + 1] == 'u' && t[i + 2] == '0' && t[i + 3] == '0');
            assert(t[i + 4] == char_of_hex(hi) && t[i + 5] == char_of_hex(lo));
            lemma_hex_inv(hi);
            lemma_hex_inv(lo);
            assert(hex_val('0') == Some(0nat)) by {
                lemma_digit_char_val(0);
            }
            assert(hex4_val(t, i + 2) == Some(hi * 0x10 + lo));
            assert(hi * 0x10 + lo == (c as u32) as nat) by {
                vstd::arithmetic::div_mod::lemma_fundamental_div_mod((c as u32) as int, 16);
            }
            let code = hex4_val(t, i + 2).unwrap();
            assert(code == (c as u32) as nat);
            assert((code as u32) as char == c) by {
                vstd::utf8::char_u32_cast(c, code as u32);
            }
            lemma_esc_parse(x2, t, i + 6);
            assert(parse_string_body(t, i) == Some((i + esc_seq(x).len() + 1, seq![c] + x2)));
        } else {
            assert(ec == seq![c]);
            assert(t[i] == c);
            lemma_esc_parse(x2, t, i + 1);
        }
    }
}

/// Parsing a quoted string token recovers the original characters.
pub proof fn lemma_quote_parse(x: Seq<char>, t: Seq<char>, i: int)
    requires
        0 <= i,
        i + json_quote(x).len() <= t.len(),
        t.subrange(i, i + json_quote(x).len() as int) == json_quote(x),
    ensures
        parse_string(t, i) == Some((i + json_quote(x).len(), x)),
        json_quote(x).len() == esc_seq(x).len() + 2,
{
    let jq = json_quote(x);
    assert(jq =~= seq!['"'] + (esc_seq(x) + seq!['"']));
    lemma_tail(t, i, jq, seq!['"'], esc_seq(x) + seq!['"']);
    lemma_at(t, i, jq, 0);
    assert(t[i] == '"');
    lemma_esc_parse(x, t, i + 1);
}

/// A record value is one whole JSON value, so it is non-empty and starts
/// with a character that is neither whitespace nor absent from the value
/// dispatch.
proof fn lemma_wf_value_head(v: Seq<char>)
    requires
        wf_value(v),
    ensures
        v.len() > 0,
        !is_ws(v[0]),
{
    assert(value_end(v, 0) is Some);
}

/// Encoded members start with the quote of the first key.
proof fn lemma_members_head(rs: Seq<(Seq<char>, Seq<char>)>)
    requires
        rs.len() >= 1,
    ensures
        encode_members(rs).len() >= 1,
        encode_members(rs)[0] == '"',
{
    let ent = encode_entry(rs[0]);
    assert(ent[0] == '"') by {
        assert(json_quote(rs[0].0)[0] == '"');
    }
    if rs.len() == 1 {
    } else {
        assert(encode_members(rs)[0] == ent[0]);
    }
}

/// Parsing encoded members (followed by the closing brace) recovers the
/// original pairs.
#[verifier::rlimit(100)]
proof fn lemma_members_parse(rs: Seq<(Seq<char>, Seq<char>)>, t: Seq<char>, i: int)
    requires
        0 <= i,
        rs.len() >= 1,
        forall|q: int| 0 <= q < rs.len() ==> wf_value((#[trigger] rs[q]).1),
        i + encode_members(rs).len() + 1 <= t.len(),
        t.subrange(i, i + encode_members(rs).len() + 1) == encode_members(rs) + seq!['}'],
    ensures
        members_rest(t, i) == Some((i + encode_members(rs).len() + 1, rs)),
    decreases rs.len(),
{
    let m_all = encode_members(rs);
    let w = m_all + seq!['}'];
    let key = rs[0].0;
    let v = rs[0].1;
    let jq = json_quote(key);
    assert(wf_value(v));
    lemma_wf_value_head(v);
    if rs.len() == 1 {
        assert(m_all == encode_entry(rs[0]));
        let w2 = seq![':'] + (v + seq!['}']);
        assert(w =~= jq + w2);
        lemma_tail(t, i, w, jq, w2);
        lemma_quote_parse(key, t, i);
        let e = i + jq.len();
        lemma_at(t, e, w2, 0);
        assert(t[e] == ':' && !is_ws(':'));
        lemma_ws_end_is(t, e, e);
        let w3 = v + seq!['}'];
        lemma_tail(t, e, w2, seq![':'], w3);
        lemma_tail(t, e + 1, w3, v, seq!['}']);
        lemma_at(t, e + 1, w3, 0);
        lemma_at(t, e + 1, w3, v.len() as int);
        assert(t[e + 1] == v[0] && !is_ws(v[0]));
        lemma_ws_end_is(t, e + 1, e + 1);
        assert(v.subrange(0, v.len() as int) =~= v);
        let ve = e + 1 + v.len();
        assert(t[ve] == '}');
        lemma_value_shift(v, 0, v.len() as int, t, e + 1);
        lemma_ws_end_is(t, ve, ve);
        assert(members_rest(t, i) == Some((ve + 1, seq![(key, t.subrange(e + 1, ve))])));
        assert(t.subrange(e + 1, ve) == v);
        assert(seq![(key, v)] =~= rs);
    } else {
        let rest = rs.drop_first();
        let m2 = encode_members(rest);
        assert(m_all == encode_entry(rs[0]) + seq![','] + m2);
        lemma_members_head(rest);
        let w2 = seq![':'] + (v + (seq![','] + (m2 + seq!['}'])));
        assert(w =~= jq + w2);
        lemma_tail(t, i, w, jq, w2);
        lemma_quote_parse(key, t, i);
        let e = i + jq.len();
        lemma_at(t, e, w2, 0);
        assert(t[e] == ':' && !is_ws(':'));
        lemma_ws_end_is(t, e, e);
        let w3 = v + (seq![','] + (m2 + seq!['}']));
        lemma_tail(t, e, w2, seq![':'], w3);
        let w4 = seq![','] + (m2 + seq!['}']);
        lemma_tail(t, e + 1, w3, v, w4);
        lemma_at(t, e + 1, w3, 0);
        assert(t[e + 1] == v[0] && !is_ws(v[0]));
        lemma_ws_end_is(t, e + 1, e + 1);
        assert(v.subrange(0, v.len() as int) =~= v);
        let ve = e + 1 + v.len();
        lemma_at(t, ve, w4, 0);
        assert(t[ve] == ',');
        lemma_value_shift(v, 0, v.len() as int, t, e + 1);
        lemma_ws_end_is(t, ve, ve);
        let w5 = m2 + seq!['}'];
        lemma_tail(t, ve, w4, seq![','], w5);
        lemma_at(t, ve + 1, w5, 0);
        assert(t[ve + 1] == '"' && !is_ws('"'));
        lemma_ws_end_is(t, ve + 1, ve + 1);
        assert forall|q: int| 0 <= q < rest.len() implies wf_value((#[trigger] rest[q]).1) by {
            assert(rest[q] == rs[q + 1]);
        }
        lemma_members_parse(rest, t, ve + 1);
        assert(members_rest(t, i) == Some(
            (i + m_all.len() + 1, seq![(key, t.subrange(e + 1, ve))] + rest),
        ));
        assert(t.subrange(e + 1, ve) == v);
        assert(seq![(key, v)] + rest =~= rs);
    }
}

/// The `records` field and the closing braces of an encoded envelope
/// decode to the original records.
#[verifier::rlimit(100)]
proof fn lemma_tail_parse(d: DataView, s: Seq<char>, p8: int)
    requires
        wf_data(d),
        0 <= p8,
        p8 + tail_window(d).len() == s.len(),
        s.subrange(p8, s.len() as int) == tail_window(d),
    ensures
        parse_envelope_tail(s, p8, key_table(), d.table, d.next_id) == Some(d),
{
    let q3 = json_quote(key_records());
    let m_all = encode_members(d.records);
    let w13 = (m_all + seq!['}']) + seq!['}'];
    let w12 = seq!['{'] + w13;
    let w11 = seq![':'] + w12;
    let w10 = q3 + w11;
    let w9 = seq![','] + w10;
    lemma_at(s, p8, w9, 0);
    assert(s[p8] == ',' && !is_ws(','));
    lemma_ws_end_is(s, p8, p8);
    lemma_tail(s, p8, w9, seq![','], w10);
    let p9 = p8 + 1;
    lemma_at(s, p9, w10, 0);
    assert(q3[0] == '"') by {
        assert(json_quote(key_records())[0] == '"');
    }
    assert(s[p9] == '"' && !is_ws('"'));
    lemma_ws_end_is(s, p9, p9);
    lemma_tail(s, p9, w10, q3, w11);
    lemma_quote_parse(key_records(), s, p9);
    let p10 = p9 + q3.len();
    lemma_at(s, p10, w11, 0);
    assert(s[p10] == ':' && !is_ws(':'));
    lemma_ws_end_is(s, p10, p10);
    lemma_tail(s, p10, w11, seq![':'], w12);
    let p11 = p10 + 1;
    lemma_at(s, p11, w12, 0);
    assert(s[p11] == '{' && !is_ws('{'));
    lemma_ws_end_is(s, p11, p11);
    lemma_tail(s, p11, w12, seq!['{'], w13);
    let p12 = p11 + 1;
    lemma_tail(s, p12, w13, m_all + seq!['}'], seq!['}']);
    let p14 = p12 + m_all.len() + 1;
    lemma_at(s, p14, seq!['}'], 0);
    assert(s[p14] == '}' && !is_ws('}'));
    assert(p14 + 1 == s.len());
    if d.records.len() == 0 {
        assert(m_all =~= Seq::<char>::empty());
        assert(m_all + seq!['}'] =~= seq!['}']);
        lemma_at(s, p12, m_all + seq!['}'], 0);
        assert(s[p12] == '}' && !is_ws('}'));
        lemma_ws_end_is(s, p12, p12);
        lemma_ws_end_is(s, p12 + 1, p12 + 1);
        lemma_ws_end_is(s, p14 + 1, p14 + 1);
        assert(ws_end(s, p14 + 1) == s.len());
        assert(parse_envelope_tail(s, p8, key_table(), d.table, d.next_id) == Some(
            DataView { table: d.table, next_id: d.next_id, records: Seq::empty() },
        ));
        assert(DataView { table: d.table, next_id: d.next_id, records: Seq::empty() } == d) by {
            assert(d.records =~= Seq::<(Seq<char>, Seq<char>)>::empty());
        }
    } else {
        lemma_members_head(d.records);
        lemma_at(s, p12, m_all + seq!['}'], 0);
        assert(s[p12] == '"' && !is_ws('"'));
        lemma_ws_end_is(s, p12, p12);
        lemma_members_parse(d.records, s, p12);
        assert(members_rest(s, p12) == Some((p14, d.records)));
        assert(unique_keys(d.records));
        lemma_ws_end_is(s, p14, p14);
        lemma_ws_end_is(s, p14 + 1, p14 + 1);
        assert(ws_end(s, p14 + 1) == s.len());
        assert(parse_envelope_tail(s, p8, key_table(), d.table, d.next_id) == Some(
            DataView { table: d.table, next_id: d.next_id, records: d.records },
        ));
        assert(DataView { table: d.table, next_id: d.next_id, records: d.records } == d);
    }
}

/// The text of an encoded envelope from the comma before `records` on.
spec fn tail_window(d: DataView) -> Seq<char> {
    seq![','] + (json_quote(key_records()) + (seq![':'] + (seq!['{'] + ((encode_members(d.records)
        + seq!['}']) + seq!['}']))))
}

/// The encoded envelope, re-grouped head first.
spec fn whole_window(d: DataView) -> Seq<char> {
    seq!['{'] + (json_quote(key_table()) + (seq![':'] + (json_quote(d.table) + (seq![','] + (
    json_quote(key_next_id()) + (seq![':'] + (json_quote(d.next_id) + tail_window(d))))))))
}

/// `spec_encode` produces exactly the re-grouped window.
#[verifier::rlimit(100)]
proof fn lemma_encode_shape(d: DataView)
    ensures
        spec_encode(d) == whole_window(d),
{
    assert(spec_encode(d) =~= whole_window(d));
}

/// From the `next_id` field name on, an encoded envelope decodes to the
/// original counter text and records.
#[verifier::rlimit(100)]
proof fn lemma_mid_parse(d: DataView, s: Seq<char>, p5: int)
    requires
        wf_data(d),
        0 <= p5,
        p5 + (json_quote(key_next_id()) + (seq![':'] + (json_quote(d.next_id) + tail_window(
            d,
        )))).len() == s.len(),
        s.subrange(p5, s.len() as int) == json_quote(key_next_id()) + (seq![':'] + (json_quote(
            d.next_id,
        ) + tail_window(d))),
    ensures
        ({
            let q2 = json_quote(key_next_id());
            let qn = json_quote(d.next_id);
            &&& parse_string(s, p5) == Some((p5 + q2.len(), key_next_id()))
            &&& p5 + q2.len() < s.len()
            &&& ws_end(s, p5 + q2.len()) == p5 + q2.len()
            &&& s[p5 + q2.len()] == ':'
            &&& ws_end(s, p5 + q2.len() + 1) == p5 + q2.len() + 1
            &&& parse_string(s, p5 + q2.len() + 1) == Some(
                (p5 + q2.len() + 1 + qn.len(), d.next_id),
            )
            &&& ws_end(s, p5) == p5
            &&& parse_envelope_tail(
                s,
                p5 + q2.len() + 1 + qn.len(),
                key_table(),
                d.table,
                d.next_id,
            ) == Some(d)
        }),
{
    let q2 = json_quote(key_next_id());
    let qn = json_quote(d.next_id);
    let w9 = tail_window(d);
    let w8 = qn + w9;
    let w7 = seq![':'] + w8;
    let w6 = q2 + w7;
    lemma_at(s, p5, w6, 0);
    assert(q2[0] == '"') by {
        assert(json_quote(key_next_id())[0] == '"');
    }
    assert(s[p5] == '"' && !is_ws('"'));
    lemma_ws_end_is(s, p5, p5);
    lemma_tail(s, p5, w6, q2, w7);
    lemma_quote_parse(key_next_id(), s, p5);
    let p6 = p5 + q2.len();
    lemma_at(s, p6, w7, 0);
    assert(s[p6] == ':' && !is_ws(':'));
    lemma_ws_end_is(s, p6, p6);
    lemma_tail(s, p6, w7, seq![':'], w8);
    let p7 = p6 + 1;
    lemma_at(s, p7, w8, 0);
    assert(qn[0] == '"') by {
        assert(json_quote(d.next_id)[0] == '"');
    }
    assert(s[p7] == '"' && !is_ws('"'));
    lemma_ws_end_is(s, p7, p7);
    lemma_tail(s, p7, w8, qn, w9);
    lemma_quote_parse(d.next_id, s, p7);
    let p8 = p7 + qn.len();
    lemma_tail_parse(d, s, p8);
}

/// The first half of an encoded envelope — the braces, the `table` field
/// name, and the table-name value — decodes to the original pieces, and
/// the rest of the text is the `next_id`-onward window.
#[verifier::rlimit(100)]
proof fn lemma_head_parse(d: DataView, s: Seq<char>)
    requires
        s == whole_window(d),
    ensures
        ({
            let q1 = json_quote(key_table());
            let qt = json_quote(d.table);
            let p2: int = 1 + q1.len() as int;
            let p4: int = p2 + 1 + qt.len() as int;
            let p5: int = p4 + 1;
            &&& 0 < s.len()
            &&& ws_end(s, 0) == 0
            &&& s[0] == '{'
            &&& ws_end(s, 1) == 1
            &&& parse_string(s, 1) == Some((p2, key_table()))
            &&& p2 < s.len()
            &&& ws_end(s, p2) == p2
            &&& s[p2] == ':'
            &&& ws_end(s, p2 + 1) == p2 + 1
            &&& parse_string(s, p2 + 1) == Some((p4, d.table))
            &&& p4 < s.len()
            &&& ws_end(s, p4) == p4
            &&& s[p4] == ','
            &&& p5 + (json_quote(key_next_id()) + (seq![':'] + (json_quote(d.next_id)
                + tail_window(d)))).len() == s.len()
            &&& s.subrange(p5, s.len() as int) == json_quote(key_next_id()) + (seq![':'] + (
            json_quote(d.next_id) + tail_window(d)))
        }),
{
    let q1 = json_quote(key_table());
    let qt = json_quote(d.table);
    let q2 = json_quote(key_next_id());
    let qn = json_quote(d.next_id);
    let w9 = tail_window(d);
    let w8 = qn + w9;
    let w7 = seq![':'] + w8;
    let w6 = q2 + w7;
    let w5 = seq![','] + w6;
    let w4 = qt + w5;
    let w3 = seq![':'] + w4;
    let w2 = q1 + w3;
    let w1 = seq!['{'] + w2;
    assert(s == w1);
    assert(s.subrange(0, s.len() as int) =~= s);
    lemma_tail(s, 0, w1, seq!['{'], w2);
    lemma_at(s, 0, w1, 0);
    assert(s[0] == '{' && !is_ws('{'));
    lemma_ws_end_is(s, 0, 0);
    let p1: int = 1;
    lemma_at(s, p1, w2, 0);
    assert(q1[0] == '"') by {
        assert(json_quote(key_table())[0] == '"');
    }
    assert(s[p1] == '"' && !is_ws('"'));
    lemma_ws_end_is(s, p1, p1);
    lemma_tail(s, p1, w2, q1, w3);
    lemma_quote_parse(key_table(), s, p1);
    let p2 = p1 + q1.len();
    lemma_at(s, p2, w3, 0);
    assert(s[p2] == ':' && !is_ws(':'));
    lemma_ws_end_is(s, p2, p2);
    lemma_tail(s, p2, w3, seq![':'], w4);
    let p3 = p2 + 1;
    lemma_at(s, p3, w4, 0);
    assert(qt[0] == '"') by {
        assert(json_quote(d.table)[0] == '"');
    }
    assert(s[p3] == '"' && !is_ws('"'));
    lemma_ws_end_is(s, p3, p3);
    lemma_tail(s, p3, w4, qt, w5);
    lemma_quote_parse(d.table, s, p3);
    let p4 = p3 + qt.len();
    lemma_at(s, p4, w5, 0);
    assert(s[p4] == ',' && !is_ws(','));
    lemma_ws_end_is(s, p4, p4);
    lemma_tail(s, p4, w5, seq![','], w6);
}

/// Decoding what `spec_encode` produced yields the original envelope.
#[verifier::rlimit(100)]
pub proof fn lemma_round_trip(d: DataView)
    requires
        wf_data(d),
    ensures
        parse_envelope(spec_encode(d)) == Some(d),
{
    let s = spec_encode(d);
    let q1 = json_quote(key_table());
    let qt = json_quote(d.table);
    lemma_encode_shape(d);
    lemma_head_parse(d, s);
    let p5: int = 1 + q1.len() as int + 1 + qt.len() as int + 1;
    lemma_mid_parse(d, s, p5);
    assert(parse_envelope(s) == Some(d));
}

/// Whatever decodes is well-formed: unique keys, every record value one
/// whole JSON value. With `lemma_round_trip` this closes the loop: a
/// decoded table can always be re-encoded.
pub proof fn lemma_parse_wf(s: Seq<char>)
    requires
        parse_envelope(s) is Some,
    ensures
        wf_data(parse_envelope(s).unwrap()),
{
    let d = parse_envelope(s).unwrap();
    if d.records.len() > 0 {
        let i1 = ws_end(s, ws_end(s, 0) + 1);
        let k1 = parse_string(s, i1).unwrap();
        let v1 = ws_end(s, ws_end(s, k1.0) + 1);
        let tv = parse_string(s, v1).unwrap();
        let i2 = ws_end(s, ws_end(s, tv.0) + 1);
        let k2 = parse_string(s, i2).unwrap();
        let v2 = ws_end(s, ws_end(s, k2.0) + 1);
        let nv = parse_string(s, v2).unwrap();
        let m2 = ws_end(s, nv.0);
        let i3 = ws_end(s, m2 + 1);
        let k3 = parse_string(s, i3).unwrap();
        let c3 = ws_end(s, k3.0);
        let o = ws_end(s, c3 + 1);
        let j = ws_end(s, o + 1);
        assert(d.records == members_rest(s, j).unwrap().1);
        lemma_members_wf(s, j);
    }
}

/// The round trip at the file level: a table file the encoder wrote
/// decodes, and re-encoding the decoded envelope reproduces the file
/// byte for byte.
pub proof fn lemma_encode_decode(d: DataView)
    requires
        wf_data(d),
    ensures
        parse_envelope(spec_encode(d)) is Some,
        spec_encode(parse_envelope(spec_encode(d)).unwrap()) == spec_encode(d),
{
    lemma_round_trip(d);
}

} // verus!

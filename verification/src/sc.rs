//! An example record schema: a pair of coordinates with its JSON codec.
//!
//! The store treats records as opaque JSON text; this type shows what a
//! record type looks like on top of that: it encodes itself as
//! `{"x":<x>,"y":<y>}` and decodes the same shape back, fields in either
//! order, whitespace allowed, each value a JSON integer in range.

use crate::json::{digits_run_end, digits_run_end_x, parse_string, parse_string_x, ws_end, ws_end_x};
use crate::text::{chars_of, dec_of, digits_span_value, digits_value, fmt_u64, push_char};
use vstd::prelude::*;
use vstd::string::StringExecFns;

verus! {

broadcast use vstd::string::group_string_axioms;

/// A pair of integer coordinates.
#[derive(Debug, PartialEq, Eq, Structural, Clone, Copy)]
pub struct Coordinates {
    pub x: i32,
    pub y: i32,
}

/// The decimal rendering of a signed integer.
pub open spec fn dec_i32(x: int) -> Seq<char> {
    if x < 0 {
        seq!['-'] + dec_of((-x) as nat)
    } else {
        dec_of(x as nat)
    }
}

/// The canonical JSON text of a `Coordinates`.
pub open spec fn coord_json(c: Coordinates) -> Seq<char> {
    seq!['{', '"', 'x', '"', ':'] + dec_i32(c.x as int) + seq![',', '"', 'y', '"', ':'] + dec_i32(
        c.y as int,
    ) + seq!['}']
}

/// Parses a JSON integer token at `i`: the end position and the value,
/// unbounded. Leading zeros are rejected as JSON does.
pub open spec fn parse_int(s: Seq<char>, i: int) -> Option<(int, int)> {
    let neg = 0 <= i < s.len() && s[i] == '-';
    let d0: int = if neg {
        i + 1
    } else {
        i
    };
    let j = digits_run_end(s, d0);
    if 0 <= d0 <= s.len() && j > d0 && (s[d0] == '0' ==> j == d0 + 1) {
        let v = digits_value(s.subrange(d0, j)) as int;
        Some((j, if neg { -v } else { v }))
    } else {
        None
    }
}

/// The view of an optional machine integer.
pub open spec fn oi(o: Option<i32>) -> Option<int> {
    match o {
        Some(v) => Some(v as int),
        None => None,
    }
}

/// Parses the members of a coordinate object from the first key: the end
/// position and the fields gathered so far, a later duplicate overriding
/// an earlier value. Keys other than `x`/`y`, malformed or out-of-range
/// values fail.
pub open spec fn coord_members(s: Seq<char>, i: int, x: Option<int>, y: Option<int>) -> Option<
    (int, Option<int>, Option<int>),
>
    decreases s.len() - i,
{
    if i < 0 || i >= s.len() {
        None
    } else {
        match parse_string(s, i) {
            Some(kp) => if kp.0 > i && (kp.1 == seq!['x'] || kp.1 == seq!['y']) {
                let j = ws_end(s, kp.0);
                if j >= kp.0 && j < s.len() && s[j] == ':' {
                    let k = ws_end(s, j + 1);
                    if k >= j + 1 {
                        match parse_int(s, k) {
                            Some(iv) => if iv.0 > k && -0x8000_0000 <= iv.1 < 0x8000_0000 {
                                let x2: Option<int> = if kp.1 == seq!['x'] {
                                    Some(iv.1)
                                } else {
                                    x
                                };
                                let y2: Option<int> = if kp.1 == seq!['y'] {
                                    Some(iv.1)
                                } else {
                                    y
                                };
                                let m = ws_end(s, iv.0);
                                if m >= iv.0 && m < s.len() {
                                    if s[m] == '}' {
                                        Some((m + 1, x2, y2))
                                    } else if s[m] == ',' {
                                        let k2 = ws_end(s, m + 1);
                                        if k2 >= m + 1 && k2 < s.len() {
                                            coord_members(s, k2, x2, y2)
                                        } else {
                                            None
                                        }
                                    } else {
                                        None
                                    }
                                } else {
                                    None
                                }
                            } else {
                                None
                            },
                            None => None,
                        }
                    } else {
                        None
                    }
                } else {
                    None
                }
            } else {
                None
            },
            None => None,
        }
    }
}

/// Decodes coordinate JSON: both fields must be present when the object
/// closes, and nothing but whitespace may follow.
pub open spec fn parse_coord(s: Seq<char>) -> Option<Coordinates> {
    let i0 = ws_end(s, 0);
    if 0 <= i0 && i0 < s.len() && s[i0] == '{' {
        let j = ws_end(s, i0 + 1);
        if j <= s.len() {
            match coord_members(s, j, None, None) {
                Some(t) => if 0 <= t.0 <= s.len() && ws_end(s, t.0) == s.len() {
                    match (t.1, t.2) {
                        (Some(x), Some(y)) => Some(Coordinates { x: x as i32, y: y as i32 }),
                        _ => None,
                    }
                } else {
                    None
                },
                None => None,
            }
        } else {
            None
        }
    } else {
        None
    }
}

/// Steps through the fields of a `Coordinates` while serializing it, in
/// declaration order: first `x`, then `y`.
pub struct SeVisitor<'a> {
    pub data: &'a Coordinates,
    pub field: usize,
}

impl<'a> SeVisitor<'a> {
    /// A visitor at the first field.
    pub fn new(data: &'a Coordinates) -> (v: SeVisitor<'a>)
        ensures
            v.data == data,
            v.field == 0,
    {
        SeVisitor { data: data, field: 0 }
    }

    /// Appends the current field's JSON to `out` and advances; the result
    /// says whether a field is left to visit.
    pub fn visit(&mut self, out: &mut String) -> (more: bool)
        requires
            old(self).field < 2,
        ensures
            final(self).data == old(self).data,
            final(self).field == old(self).field + 1,
            more == (final(self).field < 2),
            old(self).field == 0 ==> final(out)@ == old(out)@ + seq!['"', 'x', '"', ':'] + dec_i32(
                old(self).data.x as int,
            ),
            old(self).field == 1 ==> final(out)@ == old(out)@ + seq![',', '"', 'y', '"', ':']
                + dec_i32(old(self).data.y as int),
    {
        if self.field == 0 {
            push_char(out, '"');
            push_char(out, 'x');
            push_char(out, '"');
            push_char(out, ':');
            append_i32(out, self.data.x);
            self.field = 1;
            proof {
                assert(out@ =~= old(out)@ + seq!['"', 'x', '"', ':'] + dec_i32(
                    old(self).data.x as int,
                ));
            }
            true
        } else {
            push_char(out, ',');
            push_char(out, '"');
            push_char(out, 'y');
            push_char(out, '"');
            push_char(out, ':');
            append_i32(out, self.data.y);
            self.field = 2;
            proof {
                assert(out@ =~= old(out)@ + seq![',', '"', 'y', '"', ':'] + dec_i32(
                    old(self).data.y as int,
                ));
            }
            false
        }
    }
}

/// Appends the decimal rendering of a signed integer.
fn append_i32(out: &mut String, x: i32)
    ensures
        final(out)@ == old(out)@ + dec_i32(x as int),
{
    if x < 0 {
        push_char(out, '-');
        let mag: u64 = (-(x as i64)) as u64;
        proof {
            assert(mag as nat == (-(x as int)) as nat);
        }
        let digits = fmt_u64(mag);
        out.append(digits.as_str());
        proof {
            assert(out@ =~= old(out)@ + dec_i32(x as int));
        }
    } else {
        let digits = fmt_u64(x as u64);
        out.append(digits.as_str());
    }
}

impl Coordinates {
    /// The canonical JSON text of this value: `{"x":<x>,"y":<y>}`.
    pub fn to_json(&self) -> (s: String)
        ensures
            s@ == coord_json(*self),
    {
        let mut out = String::new();
        push_char(&mut out, '{');
        let mut vis = SeVisitor::new(self);
        let more = vis.visit(&mut out);
        if more {
            vis.visit(&mut out);
        }
        push_char(&mut out, '}');
        proof {
            assert(out@ =~= coord_json(*self));
        }
        out
    }

    /// Decodes coordinate JSON, accepting exactly what `parse_coord`
    /// accepts.
    pub fn from_json(s: &str) -> (r: Option<Coordinates>)
        ensures
            r == parse_coord(s@),
    {
        let v = chars_of(s);
        let i0 = ws_end_x(&v, 0);
        if !(i0 < v.len()) {
            return None;
        }
        if v[i0] != '{' {
            return None;
        }
        let j = ws_end_x(&v, i0 + 1);
        let t = match coord_members_x(&v, j, None, None) {
            Some(t) => t,
            None => { return None; },
        };
        if ws_end_x(&v, t.0) != v.len() {
            return None;
        }
        match (t.1, t.2) {
            (Some(x), Some(y)) => Some(Coordinates { x, y }),
            _ => None,
        }
    }
}

/// Parses a JSON integer token, reporting a value only when it fits `i32`.
fn parse_int_x(v: &Vec<char>, i: usize) -> (r: Option<(usize, i32)>)
    requires
        i <= v.len(),
    ensures
        match r {
            Some(p) => parse_int(v@, i as int) == Some((p.0 as int, p.1 as int)) && i < p.0
                <= v.len(),
            None => parse_int(v@, i as int) is None || (parse_int(v@, i as int) is Some && !(
            -0x8000_0000 <= parse_int(v@, i as int).unwrap().1 < 0x8000_0000)),
        },
{
    let neg = i < v.len() && v[i] == '-';
    let d0: usize = if neg {
        i + 1
    } else {
        i
    };
    let j = digits_run_end_x(v, d0);
    if !(j > d0) {
        return None;
    }
    if v[d0] == '0' && j != d0 + 1 {
        return None;
    }
    proof {
        crate::json::lemma_digits_run_end(v@, d0 as int);
    }
    let n = match digits_span_value(v, d0, j) {
        Some(n) => n,
        None => {
            proof {
                assert(digits_value(v@.subrange(d0 as int, j as int)) >= u64::MAX);
            }
            return None;
        },
    };
    if neg {
        if n > 0x8000_0000u64 {
            return None;
        }
        let val: i32 = (-(n as i64)) as i32;
        proof {
            assert(val as int == -(n as int));
        }
        Some((j, val))
    } else {
        if n > 0x7FFF_FFFFu64 {
            return None;
        }
        Some((j, n as i32))
    }
}

/// Parses the members of a coordinate object.
fn coord_members_x(v: &Vec<char>, i: usize, x: Option<i32>, y: Option<i32>) -> (r: Option<
    (usize, Option<i32>, Option<i32>),
>)
    requires
        i <= v.len(),
    ensures
        match r {
            Some(t) => coord_members(v@, i as int, oi(x), oi(y)) == Some(
                (t.0 as int, oi(t.1), oi(t.2)),
            ) && i < t.0 <= v.len(),
            None => coord_members(v@, i as int, oi(x), oi(y)) is None,
        },
    decreases v.len() - i,
{
    if i >= v.len() {
        return None;
    }
    let kp = match parse_string_x(v, i) {
        Some(kp) => kp,
        None => { return None; },
    };
    let key_is_x = kp.1.len() == 1 && kp.1[0] == 'x';
    let key_is_y = kp.1.len() == 1 && kp.1[0] == 'y';
    proof {
        assert(key_is_x == (kp.1@ == seq!['x'])) by {
            if kp.1@.len() == 1 && kp.1@[0] == 'x' {
                assert(kp.1@ =~= seq!['x']);
            }
        }
        assert(key_is_y == (kp.1@ == seq!['y'])) by {
            if kp.1@.len() == 1 && kp.1@[0] == 'y' {
                assert(kp.1@ =~= seq!['y']);
            }
        }
    }
    if !(key_is_x || key_is_y) {
        return None;
    }
    let j = ws_end_x(v, kp.0);
    if !(j < v.len() && v[j] == ':') {
        return None;
    }
    let k = ws_end_x(v, j + 1);
    let iv = match parse_int_x(v, k) {
        Some(iv) => iv,
        None => { return None; },
    };
    let x2: Option<i32> = if key_is_x {
        Some(iv.1)
    } else {
        x
    };
    let y2: Option<i32> = if key_is_y {
        Some(iv.1)
    } else {
        y
    };
    let m = ws_end_x(v, iv.0);
    if !(m < v.len()) {
        return None;
    }
    if v[m] == '}' {
        Some((m + 1, x2, y2))
    } else if v[m] == ',' {
        let k2 = ws_end_x(v, m + 1);
        coord_members_x(v, k2, x2, y2)
    } else {
        None
    }
}

} // verus!

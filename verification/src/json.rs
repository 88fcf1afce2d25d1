//! The JSON grammar of table files.
//!
//! A table file is UTF-8 JSON text; its envelope fields are JSON strings and
//! its records are opaque JSON values kept as raw text spans. This module
//! defines, at the specification level, what a JSON string decodes to
//! (`parse_string`) and where a JSON value ends (`value_end`), together with
//! the executable parser for both, and the canonical encoding of strings
//! (`json_quote`).
//!
//! The value parser is strict JSON: it accepts objects, arrays, strings with
//! the standard escapes (`\uXXXX` limited to codes outside the surrogate
//! range), numbers without leading zeros, and the three literals, with
//! whitespace between tokens. A value's raw span never reaches inside a
//! string, so records round-trip verbatim.

use crate::text::{char_of_code, digit_val, is_digit};
use vstd::prelude::*;

verus! {

// ---------------------------------------------------------------------------
// Character classes and runs
// ---------------------------------------------------------------------------

/// True on JSON whitespace.
pub open spec fn is_ws(c: char) -> bool {
    c == ' ' || c == '\t' || c == '\n' || c == '\r'
}

/// True on the characters that may occur in a number token.
pub open spec fn is_num_char(c: char) -> bool {
    is_digit(c) || c == '-' || c == '+' || c == '.' || c == 'e' || c == 'E'
}

/// The first position at or after `i` holding no whitespace.
pub open spec fn ws_end(s: Seq<char>, i: int) -> int
    decreases s.len() - i,
{
    if 0 <= i < s.len() && is_ws(s[i]) {
        ws_end(s, i + 1)
    } else {
        i
    }
}

/// The first position at or after `i` holding no digit.
pub open spec fn digits_run_end(s: Seq<char>, i: int) -> int
    decreases s.len() - i,
{
    if 0 <= i < s.len() && is_digit(s[i]) {
        digits_run_end(s, i + 1)
    } else {
        i
    }
}

/// The first position at or after `i` holding no number character.
pub open spec fn num_end(s: Seq<char>, i: int) -> int
    decreases s.len() - i,
{
    if 0 <= i < s.len() && is_num_char(s[i]) {
        num_end(s, i + 1)
    } else {
        i
    }
}

/// What a whitespace run looks like: everything before the end is
/// whitespace, and the end is the first place that is not.
pub proof fn lemma_ws_end(s: Seq<char>, i: int)
    requires
        0 <= i <= s.len(),
    ensures
        i <= ws_end(s, i) <= s.len(),
        forall|k: int| i <= k < ws_end(s, i) ==> is_ws(#[trigger] s[k]),
        ws_end(s, i) < s.len() ==> !is_ws(s[ws_end(s, i)]),
    decreases s.len() - i,
{
    if i < s.len() && is_ws(s[i]) {
        lemma_ws_end(s, i + 1);
    }
}

/// A run of whitespace followed by a non-whitespace boundary determines
/// `ws_end`.
pub proof fn lemma_ws_end_is(s: Seq<char>, i: int, m: int)
    requires
        0 <= i <= m <= s.len(),
        forall|k: int| i <= k < m ==> is_ws(#[trigger] s[k]),
        m == s.len() || !is_ws(s[m]),
    ensures
        ws_end(s, i) == m,
    decreases m - i,
{
    if i < m {
        lemma_ws_end_is(s, i + 1, m);
    }
}

/// Same characterization for digit runs.
pub proof fn lemma_digits_run_end(s: Seq<char>, i: int)
    requires
        0 <= i <= s.len(),
    ensures
        i <= digits_run_end(s, i) <= s.len(),
        forall|k: int| i <= k < digits_run_end(s, i) ==> is_digit(#[trigger] s[k]),
        digits_run_end(s, i) < s.len() ==> !is_digit(s[digits_run_end(s, i)]),
    decreases s.len() - i,
{
    if i < s.len() && is_digit(s[i]) {
        lemma_digits_run_end(s, i + 1);
    }
}

/// A run of digits followed by a non-digit boundary determines
/// `digits_run_end`.
pub proof fn lemma_digits_run_end_is(s: Seq<char>, i: int, m: int)
    requires
        0 <= i <= m <= s.len(),
        forall|k: int| i <= k < m ==> is_digit(#[trigger] s[k]),
        m == s.len() || !is_digit(s[m]),
    ensures
        digits_run_end(s, i) == m,
    decreases m - i,
{
    if i < m {
        lemma_digits_run_end_is(s, i + 1, m);
    }
}

/// Same characterization for number-character runs.
pub proof fn lemma_num_end(s: Seq<char>, i: int)
    requires
        0 <= i <= s.len(),
    ensures
        i <= num_end(s, i) <= s.len(),
        forall|k: int| i <= k < num_end(s, i) ==> is_num_char(#[trigger] s[k]),
        num_end(s, i) < s.len() ==> !is_num_char(s[num_end(s, i)]),
    decreases s.len() - i,
{
    if i < s.len() && is_num_char(s[i]) {
        lemma_num_end(s, i + 1);
    }
}

/// A run of number characters followed by a boundary determines `num_end`.
pub proof fn lemma_num_end_is(s: Seq<char>, i: int, m: int)
    requires
        0 <= i <= m <= s.len(),
        forall|k: int| i <= k < m ==> is_num_char(#[trigger] s[k]),
        m == s.len() || !is_num_char(s[m]),
    ensures
        num_end(s, i) == m,
    decreases m - i,
{
    if i < m {
        lemma_num_end_is(s, i + 1, m);
    }
}

// ---------------------------------------------------------------------------
// Strings
// ---------------------------------------------------------------------------

/// The value of a hexadecimal digit, upper or lower case.
pub open spec fn hex_val(c: char) -> Option<nat> {
    if is_digit(c) {
        Some(digit_val(c))
    } else if 'a' <= c && c <= 'f' {
        Some(((c as int) - ('a' as int) + 10) as nat)
    } else if 'A' <= c && c <= 'F' {
        Some(((c as int) - ('A' as int) + 10) as nat)
    } else {
        None
    }
}

/// The value of the four hexadecimal digits at `i`.
pub open spec fn hex4_val(s: Seq<char>, i: int) -> Option<nat> {
    if 0 <= i && i + 4 <= s.len() && hex_val(s[i]) is Some && hex_val(s[i + 1]) is Some && hex_val(
        s[i + 2],
    ) is Some && hex_val(s[i + 3]) is Some {
        Some(
            hex_val(s[i]).unwrap() * 0x1000 + hex_val(s[i + 1]).unwrap() * 0x100 + hex_val(
                s[i + 2],
            ).unwrap() * 0x10 + hex_val(s[i + 3]).unwrap(),
        )
    } else {
        None
    }
}

/// What the single-character escapes decode to.
pub open spec fn esc_char(c: char) -> Option<char> {
    if c == '"' {
        Some('"')
    } else if c == '\\' {
        Some('\\')
    } else if c == '/' {
        Some('/')
    } else if c == 'b' {
        Some('\u{8}')
    } else if c == 'f' {
        Some('\u{c}')
    } else if c == 'n' {
        Some('\n')
    } else if c == 'r' {
        Some('\r')
    } else if c == 't' {
        Some('\t')
    } else {
        None
    }
}

/// Parses the body of a JSON string starting right after the opening quote:
/// the position just past the closing quote, and the decoded characters.
///
/// Raw control characters and invalid escapes are rejected; a `\uXXXX`
/// escape is accepted for every code point outside the surrogate range.
pub open spec fn parse_string_body(s: Seq<char>, i: int) -> Option<(int, Seq<char>)>
    decreases s.len() - i,
{
    if i < 0 || i >= s.len() {
        None
    } else if s[i] == '"' {
        Some((i + 1, Seq::<char>::empty()))
    } else if s[i] == '\\' {
        if i + 1 < s.len() && s[i + 1] == 'u' {
            match hex4_val(s, i + 2) {
                Some(code) => if i + 6 <= s.len() && (code <= 0xD7FF || 0xE000 <= code) {
                    match parse_string_body(s, i + 6) {
                        Some(p) => Some((p.0, seq![(code as u32) as char] + p.1)),
                        None => None,
                    }
                } else {
                    None
                },
                None => None,
            }
        } else if i + 1 < s.len() {
            match esc_char(s[i + 1]) {
                Some(c) => match parse_string_body(s, i + 2) {
                    Some(p) => Some((p.0, seq![c] + p.1)),
                    None => None,
                },
                None => None,
            }
        } else {
            None
        }
    } else if (s[i] as u32) < 0x20 {
        None
    } else {
        match parse_string_body(s, i + 1) {
            Some(p) => Some((p.0, seq![s[i]] + p.1)),
            None => None,
        }
    }
}

/// Parses a whole JSON string token (opening quote included) at `i`.
pub open spec fn parse_string(s: Seq<char>, i: int) -> Option<(int, Seq<char>)> {
    if 0 <= i < s.len() && s[i] == '"' {
        parse_string_body(s, i + 1)
    } else {
        None
    }
}

/// A successful string-body parse ends after `i` and within the text.
pub proof fn lemma_parse_string_body_bounds(s: Seq<char>, i: int)
    requires
        parse_string_body(s, i) is Some,
    ensures
        i < parse_string_body(s, i).unwrap().0 <= s.len(),
    decreases s.len() - i,
{
    if s[i] == '"' {
    } else if s[i] == '\\' {
        if i + 1 < s.len() && s[i + 1] == 'u' {
            lemma_parse_string_body_bounds(s, i + 6);
        } else {
            lemma_parse_string_body_bounds(s, i + 2);
        }
    } else if (s[i] as u32) < 0x20 {
    } else {
        lemma_parse_string_body_bounds(s, i + 1);
    }
}

// ---------------------------------------------------------------------------
// Numbers and literals
// ---------------------------------------------------------------------------

/// The end of the fraction part starting at `i`, or `-1` if malformed.
pub open spec fn frac_end(t: Seq<char>, i: int) -> int {
    if 0 <= i < t.len() && t[i] == '.' {
        let j = digits_run_end(t, i + 1);
        if j > i + 1 {
            j
        } else {
            -1
        }
    } else {
        i
    }
}

/// The end of the exponent part starting at `i`, or `-1` if malformed.
pub open spec fn exp_end(t: Seq<char>, i: int) -> int {
    if 0 <= i < t.len() && (t[i] == 'e' || t[i] == 'E') {
        let k: int = if i + 1 < t.len() && (t[i + 1] == '+' || t[i + 1] == '-') {
            i + 2
        } else {
            i + 1
        };
        let j = digits_run_end(t, k);
        if j > k {
            j
        } else {
            -1
        }
    } else {
        i
    }
}

/// True when the whole token is a JSON number: optional sign, an integer
/// part without leading zeros, an optional fraction, an optional exponent.
pub open spec fn is_number(t: Seq<char>) -> bool {
    let i0: int = if t.len() > 0 && t[0] == '-' {
        1
    } else {
        0
    };
    let i1 = digits_run_end(t, i0);
    let i2 = frac_end(t, i1);
    let i3 = exp_end(t, i2);
    &&& t.len() > 0
    &&& i1 > i0
    &&& (t[i0] == '0' ==> i1 == i0 + 1)
    &&& i3 == t.len()
}

/// The characters of `true`.
pub open spec fn lit_true() -> Seq<char> {
    seq!['t', 'r', 'u', 'e']
}

/// The characters of `false`.
pub open spec fn lit_false() -> Seq<char> {
    seq!['f', 'a', 'l', 's', 'e']
}

/// The characters of `null`.
pub open spec fn lit_null() -> Seq<char> {
    seq!['n', 'u', 'l', 'l']
}

// ---------------------------------------------------------------------------
// Values
// ---------------------------------------------------------------------------

/// The position just past the JSON value starting at `i`, which must be the
/// value's first character (no leading whitespace).
pub open spec fn value_end(s: Seq<char>, i: int) -> Option<int>
    decreases s.len() - i, 0int,
{
    if i < 0 || i >= s.len() {
        None
    } else if s[i] == '"' {
        match parse_string_body(s, i + 1) {
            Some(p) => Some(p.0),
            None => None,
        }
    } else if s[i] == '{' {
        let j = ws_end(s, i + 1);
        if i + 1 <= j && j < s.len() {
            if s[j] == '}' {
                Some(j + 1)
            } else {
                match members_rest(s, j) {
                    Some(p) => Some(p.0),
                    None => None,
                }
            }
        } else {
            None
        }
    } else if s[i] == '[' {
        let j = ws_end(s, i + 1);
        if i + 1 <= j && j < s.len() {
            if s[j] == ']' {
                Some(j + 1)
            } else {
                arr_items(s, j)
            }
        } else {
            None
        }
    } else if s[i] == 't' {
        if i + 4 <= s.len() && s.subrange(i, i + 4) == lit_true() {
            Some(i + 4)
        } else {
            None
        }
    } else if s[i] == 'f' {
        if i + 5 <= s.len() && s.subrange(i, i + 5) == lit_false() {
            Some(i + 5)
        } else {
            None
        }
    } else if s[i] == 'n' {
        if i + 4 <= s.len() && s.subrange(i, i + 4) == lit_null() {
            Some(i + 4)
        } else {
            None
        }
    } else if s[i] == '-' || is_digit(s[i]) {
        let j = num_end(s, i);
        if i <= j && j <= s.len() && is_number(s.subrange(i, j)) {
            Some(j)
        } else {
            None
        }
    } else {
        None
    }
}

/// Parses the members of an object from the first character of a key string
/// to just past the closing brace: the end position and the (key, raw value
/// span) pairs in order.
pub open spec fn members_rest(s: Seq<char>, i: int) -> Option<
    (int, Seq<(Seq<char>, Seq<char>)>),
>
    decreases s.len() - i, 1int,
{
    if i < 0 || i >= s.len() {
        None
    } else {
        match parse_string(s, i) {
            Some(kp) => if kp.0 > i {
                let j = ws_end(s, kp.0);
                if j >= kp.0 && j < s.len() && s[j] == ':' {
                    let k = ws_end(s, j + 1);
                    if k >= j + 1 && k < s.len() {
                        match value_end(s, k) {
                            Some(ve) => if ve >= k && ve <= s.len() {
                                let m = ws_end(s, ve);
                                if m >= ve && m < s.len() {
                                    if s[m] == '}' {
                                        Some((m + 1, seq![(kp.1, s.subrange(k, ve))]))
                                    } else if s[m] == ',' {
                                        let k2 = ws_end(s, m + 1);
                                        if k2 >= m + 1 && k2 < s.len() {
                                            match members_rest(s, k2) {
                                                Some(p) => Some(
                                                    (p.0, seq![(kp.1, s.subrange(k, ve))] + p.1),
                                                ),
                                                None => None,
                                            }
                                        } else {
                                            None
                                        }
                                    } else {
                                        None
                                    }
                                } else {
                                    None
                                }
                            } else {
                                None
                            },
                            None => None,
                        }
                    } else {
                        None
                    }
                } else {
                    None
                }
            } else {
                None
            },
            None => None,
        }
    }
}

/// Parses the items of an array from the first character of the first item
/// to just past the closing bracket.
pub open spec fn arr_items(s: Seq<char>, i: int) -> Option<int>
    decreases s.len() - i, 1int,
{
    if i < 0 || i >= s.len() {
        None
    } else {
        match value_end(s, i) {
            Some(ve) => if ve >= i && ve <= s.len() {
                let m = ws_end(s, ve);
                if m >= ve && m < s.len() {
                    if s[m] == ']' {
                        Some(m + 1)
                    } else if s[m] == ',' {
                        let k = ws_end(s, m + 1);
                        if k >= m + 1 && k < s.len() {
                            arr_items(s, k)
                        } else {
                            None
                        }
                    } else {
                        None
                    }
                } else {
                    None
                }
            } else {
                None
            },
            None => None,
        }
    }
}

/// A well-formed raw record value: exactly one JSON value, first to last
/// character.
pub open spec fn wf_value(v: Seq<char>) -> bool {
    value_end(v, 0) == Some(v.len() as int)
}

/// Whether the keys of the pairs are pairwise distinct.
pub open spec fn unique_keys(rs: Seq<(Seq<char>, Seq<char>)>) -> bool {
    forall|a: int, b: int|
        0 <= a < b < rs.len() ==> (#[trigger] rs[a]).0 != (#[trigger] rs[b]).0
}

/// The character sequences of a list of (key, value) string pairs.
pub open spec fn pairs_view(rs: Seq<(String, String)>) -> Seq<(Seq<char>, Seq<char>)> {
    rs.map_values(|p: (String, String)| (p.0@, p.1@))
}

// ---------------------------------------------------------------------------
// The executable parser
// ---------------------------------------------------------------------------

/// Whether the character is JSON whitespace.
fn is_ws_x(c: char) -> (r: bool)
    ensures
        r == is_ws(c),
{
    c == ' ' || c == '\t' || c == '\n' || c == '\r'
}

/// Runs to the end of the whitespace at `i`.
pub(crate) fn ws_end_x(v: &Vec<char>, i: usize) -> (r: usize)
    requires
        i <= v.len(),
    ensures
        r as int == ws_end(v@, i as int),
        i <= r <= v.len(),
{
    let mut j = i;
    while j < v.len() && is_ws_x(v[j])
        invariant
            i <= j <= v.len(),
            ws_end(v@, i as int) == ws_end(v@, j as int),
        decreases v.len() - j,
    {
        j = j + 1;
    }
    j
}

/// Runs to the end of the digits at `i`.
pub(crate) fn digits_run_end_x(v: &Vec<char>, i: usize) -> (r: usize)
    requires
        i <= v.len(),
    ensures
        r as int == digits_run_end(v@, i as int),
        i <= r <= v.len(),
{
    let mut j = i;
    while j < v.len() && '0' <= v[j] && v[j] <= '9'
        invariant
            i <= j <= v.len(),
            digits_run_end(v@, i as int) == digits_run_end(v@, j as int),
        decreases v.len() - j,
    {
        j = j + 1;
    }
    j
}

/// Runs to the end of the number characters at `i`.
fn num_end_x(v: &Vec<char>, i: usize) -> (r: usize)
    requires
        i <= v.len(),
    ensures
        r as int == num_end(v@, i as int),
        i <= r <= v.len(),
{
    let mut j = i;
    while j < v.len() && ('0' <= v[j] && v[j] <= '9' || v[j] == '-' || v[j] == '+' || v[j] == '.'
        || v[j] == 'e' || v[j] == 'E')
        invariant
            i <= j <= v.len(),
            num_end(v@, i as int) == num_end(v@, j as int),
        decreases v.len() - j,
    {
        j = j + 1;
    }
    j
}

/// The characters of the span `[a, b)`.
pub(crate) fn span_chars(v: &Vec<char>, a: usize, b: usize) -> (tok: Vec<char>)
    requires
        a <= b <= v.len(),
    ensures
        tok@ == v@.subrange(a as int, b as int),
{
    let mut tok: Vec<char> = Vec::new();
    let mut i = a;
    while i < b
        invariant
            a <= i <= b <= v.len(),
            tok@ == v@.subrange(a as int, i as int),
        decreases b - i,
    {
        tok.push(v[i]);
        i = i + 1;
        proof {
            assert(tok@ =~= v@.subrange(a as int, i as int));
        }
    }
    tok
}

/// The value of a hexadecimal digit.
fn hex_val_x(c: char) -> (r: Option<u32>)
    ensures
        match r {
            Some(d) => hex_val(c) == Some(d as nat) && d < 16,
            None => hex_val(c) is None,
        },
{
    if '0' <= c && c <= '9' {
        Some(c as u32 - 48)
    } else if 'a' <= c && c <= 'f' {
        Some(c as u32 - 97 + 10)
    } else if 'A' <= c && c <= 'F' {
        Some(c as u32 - 65 + 10)
    } else {
        None
    }
}

/// The decoding of a single-character escape.
fn esc_char_x(c: char) -> (r: Option<char>)
    ensures
        r == esc_char(c),
{
    if c == '"' {
        Some('"')
    } else if c == '\\' {
        Some('\\')
    } else if c == '/' {
        Some('/')
    } else if c == 'b' {
        Some('\u{8}')
    } else if c == 'f' {
        Some('\u{c}')
    } else if c == 'n' {
        Some('\n')
    } else if c == 'r' {
        Some('\r')
    } else if c == 't' {
        Some('\t')
    } else {
        None
    }
}

/// Parses a string body starting right after the opening quote; on success,
/// the position just past the closing quote and the decoded characters.
pub(crate) fn parse_string_body_x(v: &Vec<char>, i0: usize) -> (r: Option<(usize, Vec<char>)>)
    requires
        i0 <= v.len(),
    ensures
        match r {
            Some(p) => parse_string_body(v@, i0 as int) == Some((p.0 as int, p.1@)) && i0 < p.0
                <= v.len(),
            None => parse_string_body(v@, i0 as int) is None,
        },
{
    let mut i = i0;
    let mut acc: Vec<char> = Vec::new();
    loop
        invariant
            i0 <= i <= v.len(),
            parse_string_body(v@, i0 as int) == (match parse_string_body(v@, i as int) {
                Some(p) => Some((p.0, acc@ + p.1)),
                None => None::<(int, Seq<char>)>,
            }),
        decreases v.len() - i,
    {
        if i >= v.len() {
            return None;
        }
        let c = v[i];
        if c == '"' {
            proof {
                assert(acc@ + Seq::<char>::empty() =~= acc@);
            }
            return Some((i + 1, acc));
        } else if c == '\\' {
            if v.len() - i < 2 {
                return None;
            }
            let e = v[i + 1];
            if e == 'u' {
                if v.len() - i < 6 {
                    return None;
                }
                let h0 = match hex_val_x(v[i + 2]) {
                    Some(h) => h,
                    None => { return None; },
                };
                let h1 = match hex_val_x(v[i + 3]) {
                    Some(h) => h,
                    None => { return None; },
                };
                let h2 = match hex_val_x(v[i + 4]) {
                    Some(h) => h,
                    None => { return None; },
                };
                let h3 = match hex_val_x(v[i + 5]) {
                    Some(h) => h,
                    None => { return None; },
                };
                let code: u32 = h0 * 0x1000 + h1 * 0x100 + h2 * 0x10 + h3;
                proof {
                    assert(hex4_val(v@, i as int + 2) == Some(code as nat));
                }
                if !(code <= 0xD7FF || 0xE000 <= code) {
                    return None;
                }
                let dc = char_of_code(code);
                let ghost old_acc = acc@;
                acc.push(dc);
                i = i + 6;
                proof {
                    assert forall|p: (int, Seq<char>)|
                        parse_string_body(v@, i as int) == Some(p) implies old_acc + (seq![dc]
                        + p.1) =~= acc@ + p.1 by {}
                }
            } else {
                let dc = match esc_char_x(e) {
                    Some(d) => d,
                    None => { return None; },
                };
                let ghost old_acc = acc@;
                acc.push(dc);
                i = i + 2;
                proof {
                    assert forall|p: (int, Seq<char>)|
                        parse_string_body(v@, i as int) == Some(p) implies old_acc + (seq![dc]
                        + p.1) =~= acc@ + p.1 by {}
                }
            }
        } else if (c as u32) < 0x20 {
            return None;
        } else {
            let ghost old_acc = acc@;
            acc.push(c);
            i = i + 1;
            proof {
                assert forall|p: (int, Seq<char>)|
                    parse_string_body(v@, i as int) == Some(p) implies old_acc + (seq![c] + p.1)
                    =~= acc@ + p.1 by {}
            }
        }
    }
}

/// Parses a whole string token at `i`.
pub(crate) fn parse_string_x(v: &Vec<char>, i: usize) -> (r: Option<(usize, Vec<char>)>)
    requires
        i <= v.len(),
    ensures
        match r {
            Some(p) => parse_string(v@, i as int) == Some((p.0 as int, p.1@)) && i < p.0 <= v.len(),
            None => parse_string(v@, i as int) is None,
        },
{
    if i < v.len() && v[i] == '"' {
        parse_string_body_x(v, i + 1)
    } else {
        None
    }
}

/// Whether a whole token is a JSON number.
fn is_number_x(t: &Vec<char>) -> (r: bool)
    ensures
        r == is_number(t@),
{
    let i0: usize = if t.len() > 0 && t[0] == '-' {
        1
    } else {
        0
    };
    if i0 > t.len() {
        return false;
    }
    let i1 = digits_run_end_x(t, i0);
    if !(i1 > i0) {
        return false;
    }
    if t[i0] == '0' && i1 != i0 + 1 {
        return false;
    }
    // fraction part
    let i2: usize = if i1 < t.len() && t[i1] == '.' {
        let j = digits_run_end_x(t, i1 + 1);
        if j > i1 + 1 {
            j
        } else {
            return false;
        }
    } else {
        i1
    };
    proof {
        assert(frac_end(t@, i1 as int) == i2 as int);
    }
    // exponent part
    let i3: usize = if i2 < t.len() && (t[i2] == 'e' || t[i2] == 'E') {
        let k: usize = if i2 + 1 < t.len() && (t[i2 + 1] == '+' || t[i2 + 1] == '-') {
            i2 + 2
        } else {
            i2 + 1
        };
        if k > t.len() {
            return false;
        }
        let j = digits_run_end_x(t, k);
        if j > k {
            j
        } else {
            return false;
        }
    } else {
        i2
    };
    proof {
        assert(exp_end(t@, i2 as int) == i3 as int);
    }
    i3 == t.len()
}

/// The position just past the value starting at `i`.
pub(crate) fn value_end_x(v: &Vec<char>, i: usize) -> (r: Option<usize>)
    requires
        i <= v.len(),
    ensures
        match r {
            Some(e) => value_end(v@, i as int) == Some(e as int) && i < e <= v.len(),
            None => value_end(v@, i as int) is None,
        },
    decreases v.len() - i, 0int,
{
    if i >= v.len() {
        return None;
    }
    let c = v[i];
    if c == '"' {
        match parse_string_body_x(v, i + 1) {
            Some(p) => Some(p.0),
            None => None,
        }
    } else if c == '{' {
        let j = ws_end_x(v, i + 1);
        if j < v.len() {
            if v[j] == '}' {
                Some(j + 1)
            } else {
                match members_rest_x(v, j) {
                    Some(p) => Some(p.0),
                    None => None,
                }
            }
        } else {
            None
        }
    } else if c == '[' {
        let j = ws_end_x(v, i + 1);
        if j < v.len() {
            if v[j] == ']' {
                Some(j + 1)
            } else {
                arr_items_x(v, j)
            }
        } else {
            None
        }
    } else if c == 't' {
        if v.len() - i >= 4 && v[i + 1] == 'r' && v[i + 2] == 'u' && v[i + 3] == 'e' {
            proof {
                assert(v@.subrange(i as int, i as int + 4) =~= lit_true());
            }
            Some(i + 4)
        } else {
            proof {
                if v.len() - i >= 4 {
                    assert(v@.subrange(i as int, i as int + 4) != lit_true()) by {
                        assert(lit_true()[1] == 'r' && lit_true()[2] == 'u' && lit_true()[3]
                            == 'e');
                    }
                }
            }
            None
        }
    } else if c == 'f' {
        if v.len() - i >= 5 && v[i + 1] == 'a' && v[i + 2] == 'l' && v[i + 3] == 's' && v[i + 4]
            == 'e' {
            proof {
                assert(v@.subrange(i as int, i as int + 5) =~= lit_false());
            }
            Some(i + 5)
        } else {
            proof {
                if v.len() - i >= 5 {
                    assert(v@.subrange(i as int, i as int + 5) != lit_false()) by {
                        assert(lit_false()[1] == 'a' && lit_false()[2] == 'l' && lit_false()[3]
                            == 's' && lit_false()[4] == 'e');
                    }
                }
            }
            None
        }
    } else if c == 'n' {
        if v.len() - i >= 4 && v[i + 1] == 'u' && v[i + 2] == 'l' && v[i + 3] == 'l' {
            proof {
                assert(v@.subrange(i as int, i as int + 4) =~= lit_null());
            }
            Some(i + 4)
        } else {
            proof {
                if v.len() - i >= 4 {
                    assert(v@.subrange(i as int, i as int + 4) != lit_null()) by {
                        assert(lit_null()[1] == 'u' && lit_null()[2] == 'l' && lit_null()[3]
                            == 'l');
                    }
                }
            }
            None
        }
    } else if c == '-' || ('0' <= c && c <= '9') {
        let j = num_end_x(v, i);
        let tok = span_chars(v, i, j);
        if is_number_x(&tok) {
            proof {
                assert(i < j) by {
                    if j == i {
                        assert(tok@.len() == 0);
                    }
                }
            }
            Some(j)
        } else {
            None
        }
    } else {
        None
    }
}

/// Parses an object's members from the first key to just past the brace.
pub(crate) fn members_rest_x(v: &Vec<char>, i: usize) -> (r: Option<(usize, Vec<(String, String)>)>)
    requires
        i <= v.len(),
    ensures
        match r {
            Some(p) => {
                &&& members_rest(v@, i as int) == Some(
                    (p.0 as int, pairs_view(p.1@)),
                )
                &&& i < p.0 <= v.len()
            },
            None => members_rest(v@, i as int) is None,
        },
    decreases v.len() - i, 1int,
{
    if i >= v.len() {
        return None;
    }
    let kp = match parse_string_x(v, i) {
        Some(kp) => kp,
        None => { return None; },
    };
    let e = kp.0;
    let j = ws_end_x(v, e);
    if !(j < v.len() && v[j] == ':') {
        return None;
    }
    let k = ws_end_x(v, j + 1);
    if !(k < v.len()) {
        return None;
    }
    let ve = match value_end_x(v, k) {
        Some(ve) => ve,
        None => { return None; },
    };
    let m = ws_end_x(v, ve);
    if !(m < v.len()) {
        return None;
    }
    let key = crate::text::string_of(&kp.1);
    let span = span_string(v, k, ve);
    if v[m] == '}' {
        let mut pairs: Vec<(String, String)> = Vec::new();
        pairs.push((key, span));
        proof {
            assert(pairs_view(pairs@) =~= seq![(kp.1@, v@.subrange(k as int, ve as int))]);
        }
        Some((m + 1, pairs))
    } else if v[m] == ',' {
        let k2 = ws_end_x(v, m + 1);
        if !(k2 < v.len()) {
            return None;
        }
        match members_rest_x(v, k2) {
            Some(p) => {
                let (end, rest) = p;
                let mut pairs = rest;
                pairs.insert(0, (key, span));
                proof {
                    assert(pairs_view(pairs@) =~= seq![(kp.1@, v@.subrange(k as int, ve as int))]
                        + members_rest(v@, k2 as int).unwrap().1);
                }
                Some((end, pairs))
            },
            None => None,
        }
    } else {
        None
    }
}

/// Parses an array's items from the first item to just past the bracket.
pub(crate) fn arr_items_x(v: &Vec<char>, i: usize) -> (r: Option<usize>)
    requires
        i <= v.len(),
    ensures
        match r {
            Some(e) => arr_items(v@, i as int) == Some(e as int) && i < e <= v.len(),
            None => arr_items(v@, i as int) is None,
        },
    decreases v.len() - i, 1int,
{
    if i >= v.len() {
        return None;
    }
    let ve = match value_end_x(v, i) {
        Some(ve) => ve,
        None => { return None; },
    };
    let m = ws_end_x(v, ve);
    if !(m < v.len()) {
        return None;
    }
    if v[m] == ']' {
        Some(m + 1)
    } else if v[m] == ',' {
        let k = ws_end_x(v, m + 1);
        if !(k < v.len()) {
            return None;
        }
        arr_items_x(v, k)
    } else {
        None
    }
}

/// The string holding the characters of the span `[a, b)`.
pub(crate) fn span_string(v: &Vec<char>, a: usize, b: usize) -> (s: String)
    requires
        a <= b <= v.len(),
    ensures
        s@ == v@.subrange(a as int, b as int),
{
    let tok = span_chars(v, a, b);
    crate::text::string_of(&tok)
}

// ---------------------------------------------------------------------------
// Encoding
// ---------------------------------------------------------------------------

/// The lower-case hexadecimal digit with the given value (meaningful for
/// `d < 16`).
pub open spec fn char_of_hex(d: nat) -> char {
    if d < 10 {
        crate::text::char_of_digit(d)
    } else if d == 10 {
        'a'
    } else if d == 11 {
        'b'
    } else if d == 12 {
        'c'
    } else if d == 13 {
        'd'
    } else if d == 14 {
        'e'
    } else {
        'f'
    }
}

/// How a single character is written inside a JSON string: quote and
/// backslash escaped, the five short control escapes, `\u00XX` for the
/// remaining control characters, everything else verbatim.
pub open spec fn enc_char(c: char) -> Seq<char> {
    if c == '"' {
        seq!['\\', '"']
    } else if c == '\\' {
        seq!['\\', '\\']
    } else if c == '\u{8}' {
        seq!['\\', 'b']
    } else if c == '\t' {
        seq!['\\', 't']
    } else if c == '\n' {
        seq!['\\', 'n']
    } else if c == '\u{c}' {
        seq!['\\', 'f']
    } else if c == '\r' {
        seq!['\\', 'r']
    } else if (c as u32) < 0x20 {
        seq!['\\', 'u', '0', '0', char_of_hex((c as u32) as nat / 16), char_of_hex(
            (c as u32) as nat % 16,
        )]
    } else {
        seq![c]
    }
}

/// The escaped body of a JSON string.
pub open spec fn esc_seq(s: Seq<char>) -> Seq<char>
    decreases s.len(),
{
    if s.len() == 0 {
        Seq::<char>::empty()
    } else {
        enc_char(s[0]) + esc_seq(s.drop_first())
    }
}

/// A whole JSON string token: quotes around the escaped body.
pub open spec fn json_quote(s: Seq<char>) -> Seq<char> {
    seq!['"'] + esc_seq(s) + seq!['"']
}

/// Escaping one more character appends its encoding.
pub proof fn lemma_esc_seq_snoc(s: Seq<char>, c: char)
    ensures
        esc_seq(s.push(c)) == esc_seq(s) + enc_char(c),
    decreases s.len(),
{
    if s.len() == 0 {
        assert(s.push(c)[0] == c);
        assert(s.push(c).drop_first() =~= Seq::<char>::empty());
        assert(esc_seq(s.push(c)) == enc_char(c) + esc_seq(Seq::<char>::empty()));
        assert(enc_char(c) + Seq::<char>::empty() =~= enc_char(c));
        assert(esc_seq(s) + enc_char(c) =~= enc_char(c));
    } else {
        lemma_esc_seq_snoc(s.drop_first(), c);
        assert(s.push(c).drop_first() =~= s.drop_first().push(c));
        assert(s.push(c)[0] == s[0]);
        assert(esc_seq(s.push(c)) == enc_char(s[0]) + esc_seq(s.drop_first().push(c)));
        assert(enc_char(s[0]) + (esc_seq(s.drop_first()) + enc_char(c)) =~= (enc_char(s[0])
            + esc_seq(s.drop_first())) + enc_char(c));
    }
}

/// The lower-case hexadecimal digit for a value below sixteen.
fn char_of_hex_x(d: u32) -> (c: char)
    requires
        d < 16,
    ensures
        c == char_of_hex(d as nat),
{
    if d == 0 {
        '0'
    } else if d == 1 {
        '1'
    } else if d == 2 {
        '2'
    } else if d == 3 {
        '3'
    } else if d == 4 {
        '4'
    } else if d == 5 {
        '5'
    } else if d == 6 {
        '6'
    } else if d == 7 {
        '7'
    } else if d == 8 {
        '8'
    } else if d == 9 {
        '9'
    } else if d == 10 {
        'a'
    } else if d == 11 {
        'b'
    } else if d == 12 {
        'c'
    } else if d == 13 {
        'd'
    } else if d == 14 {
        'e'
    } else {
        'f'
    }
}

/// Appends a whole JSON string token for `s` to `out`.
pub(crate) fn append_json_quoted(out: &mut String, s: &str)
    ensures
        final(out)@ == old(out)@ + json_quote(s@),
{
    crate::text::push_char(out, '"');
    let v = crate::text::chars_of(s);
    let mut i: usize = 0;
    while i < v.len()
        invariant
            i <= v.len(),
            v@ == s@,
            out@ == old(out)@ + seq!['"'] + esc_seq(s@.take(i as int)),
        decreases v.len() - i,
    {
        let c = v[i];
        if c == '"' {
            crate::text::push_char(out, '\\');
            crate::text::push_char(out, '"');
        } else if c == '\\' {
            crate::text::push_char(out, '\\');
            crate::text::push_char(out, '\\');
        } else if c == '\u{8}' {
            crate::text::push_char(out, '\\');
            crate::text::push_char(out, 'b');
        } else if c == '\t' {
            crate::text::push_char(out, '\\');
            crate::text::push_char(out, 't');
        } else if c == '\n' {
            crate::text::push_char(out, '\\');
            crate::text::push_char(out, 'n');
        } else if c == '\u{c}' {
            crate::text::push_char(out, '\\');
            crate::text::push_char(out, 'f');
        } else if c == '\r' {
            crate::text::push_char(out, '\\');
            crate::text::push_char(out, 'r');
        } else if (c as u32) < 0x20 {
            crate::text::push_char(out, '\\');
            crate::text::push_char(out, 'u');
            crate::text::push_char(out, '0');
            crate::text::push_char(out, '0');
            let hi = char_of_hex_x((c as u32) / 16);
            let lo = char_of_hex_x((c as u32) % 16);
            crate::text::push_char(out, hi);
            crate::text::push_char(out, lo);
        } else {
            crate::text::push_char(out, c);
        }
        i = i + 1;
        proof {
            lemma_esc_seq_snoc(s@.take(i - 1), s@[i - 1]);
            assert(s@.take(i as int) =~= s@.take(i - 1).push(s@[i - 1]));
            assert(out@ =~= old(out)@ + seq!['"'] + esc_seq(s@.take(i as int)));
        }
    }
    crate::text::push_char(out, '"');
    proof {
        assert(s@.take(v.len() as int) =~= s@);
        assert(out@ =~= old(out)@ + json_quote(s@));
    }
}

} // verus!

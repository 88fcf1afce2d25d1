//! Properties of the JSON grammar: a parse depends only on the characters
//! it consumed (plus a one-character lookahead after a number), so parses
//! move intact between texts that agree on that window. These lemmas carry
//! the round-trip proof for the envelope codec.

use crate::json::{
    arr_items,
    hex4_val,
    is_num_char,
    is_number,
    is_ws,
    lemma_num_end,
    lemma_num_end_is,
    lemma_parse_string_body_bounds,
    lemma_ws_end,
    lemma_ws_end_is,
    lit_false,
    lit_null,
    lit_true,
    members_rest,
    num_end,
    parse_string,
    parse_string_body,
    value_end,
    wf_value,
    ws_end,
};
use vstd::prelude::*;

verus! {

/// A successful value parse ends after `i` and within the text; the same
/// holds of member lists and array items.
pub proof fn lemma_value_end_bounds(s: Seq<char>, i: int)
    requires
        value_end(s, i) is Some,
    ensures
        i < value_end(s, i).unwrap() <= s.len(),
    decreases s.len() - i, 0int,
{
    if s[i] == '"' {
        lemma_parse_string_body_bounds(s, i + 1);
    } else if s[i] == '{' {
        let j = ws_end(s, i + 1);
        if s[j] != '}' {
            lemma_members_bounds(s, j);
        }
    } else if s[i] == '[' {
        let j = ws_end(s, i + 1);
        if s[j] != ']' {
            lemma_arr_bounds(s, j);
        }
    }
}

/// See `lemma_value_end_bounds`.
pub proof fn lemma_members_bounds(s: Seq<char>, i: int)
    requires
        members_rest(s, i) is Some,
    ensures
        i < members_rest(s, i).unwrap().0 <= s.len(),
    decreases s.len() - i, 1int,
{
    let kp = parse_string(s, i).unwrap();
    let j = ws_end(s, kp.0);
    let k = ws_end(s, j + 1);
    lemma_value_end_bounds(s, k);
    let ve = value_end(s, k).unwrap();
    let m = ws_end(s, ve);
    if s[m] != '}' {
        let k2 = ws_end(s, m + 1);
        lemma_members_bounds(s, k2);
    }
}

/// See `lemma_value_end_bounds`.
pub proof fn lemma_arr_bounds(s: Seq<char>, i: int)
    requires
        arr_items(s, i) is Some,
    ensures
        i < arr_items(s, i).unwrap() <= s.len(),
    decreases s.len() - i, 1int,
{
    lemma_value_end_bounds(s, i);
    let ve = value_end(s, i).unwrap();
    let m = ws_end(s, ve);
    if s[m] != ']' {
        let k = ws_end(s, m + 1);
        lemma_arr_bounds(s, k);
    }
}

/// One character carries over between texts agreeing on a window.
proof fn lemma_win_char(s: Seq<char>, i: int, e: int, t: Seq<char>, i2: int, d: int)
    requires
        0 <= i <= e <= s.len(),
        0 <= i2,
        i2 + (e - i) <= t.len(),
        t.subrange(i2, i2 + (e - i)) == s.subrange(i, e),
        0 <= d < e - i,
    ensures
        t[i2 + d] == s[i + d],
{
    assert(t.subrange(i2, i2 + (e - i))[d] == s.subrange(i, e)[d]);
    assert(t.subrange(i2, i2 + (e - i))[d] == t[i2 + d]);
    assert(s.subrange(i, e)[d] == s[i + d]);
}

/// A sub-window of agreeing windows agrees.
proof fn lemma_win_sub(s: Seq<char>, i: int, e: int, t: Seq<char>, i2: int, a: int, b: int)
    requires
        0 <= i <= e <= s.len(),
        0 <= i2,
        i2 + (e - i) <= t.len(),
        t.subrange(i2, i2 + (e - i)) == s.subrange(i, e),
        i <= a <= b <= e,
    ensures
        t.subrange(i2 + (a - i), i2 + (b - i)) == s.subrange(a, b),
{
    assert(t.subrange(i2 + (a - i), i2 + (b - i)) =~= s.subrange(a, b)) by {
        assert forall|q: int|
            0 <= q < b - a implies t.subrange(i2 + (a - i), i2 + (b - i))[q] == s.subrange(
            a,
            b,
        )[q] by {
            assert(t.subrange(i2, i2 + (e - i))[(a - i) + q] == s.subrange(i, e)[(a - i) + q]);
            assert(t.subrange(i2, i2 + (e - i))[(a - i) + q] == t[i2 + (a - i) + q]);
            assert(s.subrange(i, e)[(a - i) + q] == s[i + (a - i) + q]);
            assert(t.subrange(i2 + (a - i), i2 + (b - i))[q] == t[i2 + (a - i) + q]);
            assert(s.subrange(a, b)[q] == s[a + q]);
        }
    }
}

/// A whitespace run carries over: `ws_end` on the copy stops at the same
/// offset, the boundary character being inside the window.
proof fn lemma_win_ws(s: Seq<char>, i: int, e: int, t: Seq<char>, i2: int, a: int, b: int)
    requires
        0 <= i <= e <= s.len(),
        0 <= i2,
        i2 + (e - i) <= t.len(),
        t.subrange(i2, i2 + (e - i)) == s.subrange(i, e),
        i <= a <= b < e,
        ws_end(s, a) == b,
    ensures
        ws_end(t, i2 + (a - i)) == i2 + (b - i),
{
    lemma_ws_end(s, a);
    assert forall|q: int| i2 + (a - i) <= q < i2 + (b - i) implies is_ws(#[trigger] t[q]) by {
        lemma_win_char(s, i, e, t, i2, q - i2);
        assert(is_ws(s[i + (q - i2)]));
    }
    lemma_win_char(s, i, e, t, i2, b - i);
    assert(!is_ws(t[i2 + (b - i)]));
    lemma_ws_end_is(t, i2 + (a - i), i2 + (b - i));
}

/// A string-body parse moves intact to any text holding the same window.
#[verifier::rlimit(60)]
pub proof fn lemma_psb_shift(
    s: Seq<char>,
    i: int,
    e: int,
    dec: Seq<char>,
    t: Seq<char>,
    i2: int,
)
    requires
        0 <= i,
        0 <= i2,
        parse_string_body(s, i) == Some((e, dec)),
        i2 + (e - i) <= t.len(),
        t.subrange(i2, i2 + (e - i)) == s.subrange(i, e),
    ensures
        parse_string_body(t, i2) == Some((i2 + (e - i), dec)),
    decreases s.len() - i,
{
    lemma_parse_string_body_bounds(s, i);
    lemma_win_char(s, i, e, t, i2, 0);
    if s[i] == '"' {
    } else if s[i] == '\\' {
        if i + 1 < s.len() && s[i + 1] == 'u' {
            let code = hex4_val(s, i + 2).unwrap();
            let p = parse_string_body(s, i + 6).unwrap();
            lemma_parse_string_body_bounds(s, i + 6);
            lemma_win_char(s, i, e, t, i2, 1);
            lemma_win_char(s, i, e, t, i2, 2);
            lemma_win_char(s, i, e, t, i2, 3);
            lemma_win_char(s, i, e, t, i2, 4);
            lemma_win_char(s, i, e, t, i2, 5);
            assert(hex4_val(t, i2 + 2) == Some(code));
            lemma_win_sub(s, i, e, t, i2, i + 6, e);
            lemma_psb_shift(s, i + 6, e, p.1, t, i2 + 6);
        } else {
            let p = parse_string_body(s, i + 2).unwrap();
            lemma_parse_string_body_bounds(s, i + 2);
            lemma_win_char(s, i, e, t, i2, 1);
            lemma_win_sub(s, i, e, t, i2, i + 2, e);
            lemma_psb_shift(s, i + 2, e, p.1, t, i2 + 2);
        }
    } else {
        let p = parse_string_body(s, i + 1).unwrap();
        lemma_parse_string_body_bounds(s, i + 1);
        lemma_win_sub(s, i, e, t, i2, i + 1, e);
        lemma_psb_shift(s, i + 1, e, p.1, t, i2 + 1);
    }
}

/// A value parse moves intact to any text holding the same window, as
/// long as the window is not followed there by a number character (which
/// could extend a number token).
#[verifier::rlimit(60)]
pub proof fn lemma_value_shift(s: Seq<char>, i: int, e: int, t: Seq<char>, i2: int)
    requires
        0 <= i,
        0 <= i2,
        value_end(s, i) == Some(e),
        i2 + (e - i) <= t.len(),
        t.subrange(i2, i2 + (e - i)) == s.subrange(i, e),
        i2 + (e - i) == t.len() || !is_num_char(t[i2 + (e - i)]),
    ensures
        value_end(t, i2) == Some(i2 + (e - i)),
    decreases s.len() - i, 0int,
{
    lemma_value_end_bounds(s, i);
    lemma_win_char(s, i, e, t, i2, 0);
    if s[i] == '"' {
        let p = parse_string_body(s, i + 1).unwrap();
        lemma_parse_string_body_bounds(s, i + 1);
        lemma_win_sub(s, i, e, t, i2, i + 1, e);
        lemma_psb_shift(s, i + 1, e, p.1, t, i2 + 1);
    } else if s[i] == '{' {
        let j = ws_end(s, i + 1);
        lemma_ws_end(s, i + 1);
        if s[j] == '}' {
            assert(e == j + 1);
            lemma_win_ws(s, i, e, t, i2, i + 1, j);
            lemma_win_char(s, i, e, t, i2, j - i);
        } else {
            let p = members_rest(s, j).unwrap();
            lemma_members_bounds(s, j);
            assert(j < e);
            lemma_win_ws(s, i, e, t, i2, i + 1, j);
            lemma_win_char(s, i, e, t, i2, j - i);
            lemma_win_sub(s, i, e, t, i2, j, e);
            lemma_members_shift(s, j, e, p.1, t, i2 + (j - i));
        }
    } else if s[i] == '[' {
        let j = ws_end(s, i + 1);
        lemma_ws_end(s, i + 1);
        if s[j] == ']' {
            assert(e == j + 1);
            lemma_win_ws(s, i, e, t, i2, i + 1, j);
            lemma_win_char(s, i, e, t, i2, j - i);
        } else {
            lemma_arr_bounds(s, j);
            assert(j < e);
            lemma_win_ws(s, i, e, t, i2, i + 1, j);
            lemma_win_char(s, i, e, t, i2, j - i);
            lemma_win_sub(s, i, e, t, i2, j, e);
            lemma_arr_shift(s, j, e, t, i2 + (j - i));
        }
    } else if s[i] == 't' {
        lemma_win_sub(s, i, e, t, i2, i, i + 4);
        assert(t.subrange(i2, i2 + 4) == lit_true());
    } else if s[i] == 'f' {
        lemma_win_sub(s, i, e, t, i2, i, i + 5);
        assert(t.subrange(i2, i2 + 5) == lit_false());
    } else if s[i] == 'n' {
        lemma_win_sub(s, i, e, t, i2, i, i + 4);
        assert(t.subrange(i2, i2 + 4) == lit_null());
    } else {
        let j = num_end(s, i);
        lemma_num_end(s, i);
        assert forall|q: int| i2 <= q < i2 + (j - i) implies is_num_char(#[trigger] t[q]) by {
            lemma_win_char(s, i, e, t, i2, q - i2);
            assert(is_num_char(s[i + (q - i2)]));
        }
        lemma_num_end_is(t, i2, i2 + (j - i));
        lemma_win_sub(s, i, e, t, i2, i, j);
        assert(is_number(t.subrange(i2, i2 + (j - i))));
    }
}

/// A member-list parse moves intact to any text holding the same window;
/// the list is self-delimiting, so no condition on what follows.
#[verifier::rlimit(60)]
pub proof fn lemma_members_shift(
    s: Seq<char>,
    i: int,
    e: int,
    sem: Seq<(Seq<char>, Seq<char>)>,
    t: Seq<char>,
    i2: int,
)
    requires
        0 <= i,
        0 <= i2,
        members_rest(s, i) == Some((e, sem)),
        i2 + (e - i) <= t.len(),
        t.subrange(i2, i2 + (e - i)) == s.subrange(i, e),
    ensures
        members_rest(t, i2) == Some((i2 + (e - i), sem)),
    decreases s.len() - i, 1int,
{
    lemma_members_bounds(s, i);
    let kp = parse_string(s, i).unwrap();
    lemma_parse_string_body_bounds(s, i + 1);
    let j = ws_end(s, kp.0);
    let k = ws_end(s, j + 1);
    let ve = value_end(s, k).unwrap();
    lemma_value_end_bounds(s, k);
    let m = ws_end(s, ve);
    lemma_ws_end(s, ve);
    // order of the positions inside the window
    if s[m] == '}' {
        assert(e == m + 1);
    } else {
        let k2 = ws_end(s, m + 1);
        lemma_members_bounds(s, k2);
        assert(e > k2);
        assert(k2 >= m + 1);
    }
    assert(i + 1 <= kp.0 <= j);
    assert(j + 1 <= k <= ve <= m);
    assert(m + 1 <= e);
    // carry each token over
    lemma_win_char(s, i, e, t, i2, 0);
    lemma_win_sub(s, i, e, t, i2, i + 1, kp.0);
    lemma_psb_shift(s, i + 1, kp.0, kp.1, t, i2 + 1);
    lemma_win_ws(s, i, e, t, i2, kp.0, j);
    lemma_win_char(s, i, e, t, i2, j - i);
    lemma_win_ws(s, i, e, t, i2, j + 1, k);
    lemma_win_sub(s, i, e, t, i2, k, ve);
    lemma_win_char(s, i, e, t, i2, ve - i);
    assert(!is_num_char(t[i2 + (ve - i)])) by {
        if m > ve {
            assert(is_ws(s[ve]));
        } else {
            assert(s[ve] == ',' || s[ve] == '}');
        }
    }
    lemma_value_shift(s, k, ve, t, i2 + (k - i));
    lemma_win_ws(s, i, e, t, i2, ve, m);
    lemma_win_char(s, i, e, t, i2, m - i);
    if s[m] == '}' {
        assert(t.subrange(i2 + (k - i), i2 + (ve - i)) == s.subrange(k, ve));
    } else {
        let k2 = ws_end(s, m + 1);
        lemma_ws_end(s, m + 1);
        let p = members_rest(s, k2).unwrap();
        lemma_members_bounds(s, k2);
        lemma_win_ws(s, i, e, t, i2, m + 1, k2);
        lemma_win_sub(s, i, e, t, i2, k2, e);
        lemma_members_shift(s, k2, p.0, p.1, t, i2 + (k2 - i));
        assert(t.subrange(i2 + (k - i), i2 + (ve - i)) == s.subrange(k, ve));
    }
}

/// An array-items parse moves intact to any text holding the same window.
#[verifier::rlimit(60)]
pub proof fn lemma_arr_shift(s: Seq<char>, i: int, e: int, t: Seq<char>, i2: int)
    requires
        0 <= i,
        0 <= i2,
        arr_items(s, i) == Some(e),
        i2 + (e - i) <= t.len(),
        t.subrange(i2, i2 + (e - i)) == s.subrange(i, e),
    ensures
        arr_items(t, i2) == Some(i2 + (e - i)),
    decreases s.len() - i, 1int,
{
    lemma_arr_bounds(s, i);
    let ve = value_end(s, i).unwrap();
    lemma_value_end_bounds(s, i);
    let m = ws_end(s, ve);
    lemma_ws_end(s, ve);
    if s[m] == ']' {
        assert(e == m + 1);
    } else {
        let k = ws_end(s, m + 1);
        lemma_arr_bounds(s, k);
        assert(e > k);
        assert(k >= m + 1);
    }
    assert(i < ve <= m);
    assert(m + 1 <= e);
    lemma_win_sub(s, i, e, t, i2, i, ve);
    lemma_win_char(s, i, e, t, i2, ve - i);
    assert(!is_num_char(t[i2 + (ve - i)])) by {
        if m > ve {
            assert(is_ws(s[ve]));
        } else {
            assert(s[ve] == ',' || s[ve] == ']');
        }
    }
    lemma_value_shift(s, i, ve, t, i2);
    lemma_win_ws(s, i, e, t, i2, ve, m);
    lemma_win_char(s, i, e, t, i2, m - i);
    if s[m] == ']' {
    } else {
        let k = ws_end(s, m + 1);
        lemma_ws_end(s, m + 1);
        lemma_win_ws(s, i, e, t, i2, m + 1, k);
        lemma_win_sub(s, i, e, t, i2, k, e);
        lemma_arr_shift(s, k, e, t, i2 + (k - i));
    }
}

/// Every raw span a member-list parse hands out is itself one whole JSON
/// value.
pub proof fn lemma_members_wf(s: Seq<char>, i: int)
    requires
        members_rest(s, i) is Some,
    ensures
        forall|q: int|
            0 <= q < members_rest(s, i).unwrap().1.len() ==> wf_value(
                (#[trigger] members_rest(s, i).unwrap().1[q]).1,
            ),
    decreases s.len() - i,
{
    let kp = parse_string(s, i).unwrap();
    let j = ws_end(s, kp.0);
    let k = ws_end(s, j + 1);
    let ve = value_end(s, k).unwrap();
    lemma_value_end_bounds(s, k);
    let span = s.subrange(k, ve);
    assert(wf_value(span)) by {
        assert(span.subrange(0, ve - k) =~= s.subrange(k, ve));
        lemma_value_shift(s, k, ve, span, 0);
    }
    let m = ws_end(s, ve);
    if s[m] == '}' {
        assert(members_rest(s, i).unwrap().1 =~= seq![(kp.1, span)]);
    } else {
        let k2 = ws_end(s, m + 1);
        lemma_members_wf(s, k2);
        let rest = members_rest(s, k2).unwrap().1;
        assert forall|q: int|
            0 <= q < members_rest(s, i).unwrap().1.len() implies wf_value(
            (#[trigger] members_rest(s, i).unwrap().1[q]).1,
        ) by {
            if q == 0 {
                assert(members_rest(s, i).unwrap().1[0] == (kp.1, span));
            } else {
                assert(members_rest(s, i).unwrap().1[q] == rest[q - 1]);
            }
        }
    }
}

} // verus!

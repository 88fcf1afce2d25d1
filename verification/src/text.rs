//! Characters, decimal-ASCII integers, and small string utilities.
//!
//! The record-ID counter of a table is stored as a decimal-ASCII string; this
//! module defines what such a string denotes (`digits_value`, `counter_of`,
//! `dec_of`) and provides verified parsing and formatting for it, together
//! with the character-level plumbing the codec needs.

use vstd::prelude::*;
use vstd::std_specs::iter::IteratorSpec;

verus! {

broadcast use vstd::string::group_string_axioms;

// ---------------------------------------------------------------------------
// Trusted wrappers around std string primitives
// ---------------------------------------------------------------------------

/// Relies on `String::push`: appends the given character to the end of the
/// string.
#[verifier::external_body]
pub(crate) fn push_char(s: &mut String, c: char)
    ensures
        final(s)@ == old(s)@.push(c),
{
    s.push(c);
}

/// Relies on `char::from_u32`: returns the character with the given code
/// point. It is `Some` exactly on Unicode scalar values, which the caller's
/// bound guarantees, so the unwrap cannot fail.
#[verifier::external_body]
pub(crate) fn char_of_code(u: u32) -> (c: char)
    requires
        u <= 0xD7FF || (0xE000 <= u && u <= 0x10FFFF),
    ensures
        c == u as char,
{
    char::from_u32(u).unwrap()
}

// ---------------------------------------------------------------------------
// Characters of a string, strings from characters
// ---------------------------------------------------------------------------

/// The characters of a string slice, in order, as a vector.
pub(crate) fn chars_of(s: &str) -> (v: Vec<char>)
    ensures
        v@ == s@,
{
    let mut v: Vec<char> = Vec::new();
    let mut it = s.chars();
    loop
        invariant
            v@ + it.remaining() == s@,
        ensures
            v@ == s@,
        decreases s@.len() - v@.len(),
    {
        match it.next() {
            Some(c) => {
                v.push(c);
                proof {
                    assert(v@ + it.remaining() =~= s@);
                }
            },
            None => {
                proof {
                    assert(v@ + it.remaining() =~= v@);
                }
                break ;
            },
        }
    }
    v
}

/// The string holding exactly the given characters.
pub(crate) fn string_of(v: &Vec<char>) -> (s: String)
    ensures
        s@ == v@,
{
    let mut s = String::new();
    let mut i: usize = 0;
    while i < v.len()
        invariant
            i <= v.len(),
            s@ == v@.take(i as int),
        decreases v.len() - i,
    {
        push_char(&mut s, v[i]);
        i = i + 1;
        proof {
            assert(s@ =~= v@.take(i as int));
        }
    }
    proof {
        assert(v@.take(v.len() as int) =~= v@);
    }
    s
}

/// String-slice equality, stated over the character sequences.
pub(crate) fn str_eq(a: &str, b: &str) -> (r: bool)
    ensures
        r == (a@ == b@),
{
    a.to_owned() == b.to_owned()
}

// ---------------------------------------------------------------------------
// Decimal-ASCII integers
// ---------------------------------------------------------------------------

/// True on the ten ASCII digits.
pub open spec fn is_digit(c: char) -> bool {
    '0' <= c && c <= '9'
}

/// The numeric value of an ASCII digit.
pub open spec fn digit_val(c: char) -> nat {
    ((c as int) - ('0' as int)) as nat
}

/// The ASCII digit with the given value (meaningful for `d < 10`).
pub open spec fn char_of_digit(d: nat) -> char {
    if d == 0 {
        '0'
    } else if d == 1 {
        '1'
    } else if d == 2 {
        '2'
    } else if d == 3 {
        '3'
    } else if d == 4 {
        '4'
    } else if d == 5 {
        '5'
    } else if d == 6 {
        '6'
    } else if d == 7 {
        '7'
    } else if d == 8 {
        '8'
    } else {
        '9'
    }
}

/// True when every character of `s` is an ASCII digit.
pub open spec fn all_digits(s: Seq<char>) -> bool {
    forall|i: int| 0 <= i < s.len() ==> #[trigger] is_digit(s[i])
}

/// The number a sequence of ASCII digits denotes, most significant first.
pub open spec fn digits_value(s: Seq<char>) -> nat
    decreases s.len(),
{
    if s.len() == 0 {
        0
    } else {
        digits_value(s.drop_last()) * 10 + digit_val(s.last())
    }
}

/// What a stored counter string denotes: the denoted number, provided the
/// string is a non-empty run of ASCII digits and the number leaves room to be
/// incremented without leaving `u64`; everything else is corruption.
pub open spec fn counter_of(s: Seq<char>) -> Option<u64> {
    if s.len() > 0 && all_digits(s) && digits_value(s) < u64::MAX {
        Some(digits_value(s) as u64)
    } else {
        None
    }
}

/// The canonical decimal rendering of a number: no sign, no leading zeros.
pub open spec fn dec_of(n: nat) -> Seq<char>
    decreases n,
{
    if n < 10 {
        seq![char_of_digit(n)]
    } else {
        dec_of(n / 10).push(char_of_digit(n % 10))
    }
}

/// `char_of_digit` and `digit_val` invert each other on digits.
pub proof fn lemma_digit_char_val(d: nat)
    requires
        d < 10,
    ensures
        is_digit(char_of_digit(d)),
        digit_val(char_of_digit(d)) == d,
{
}

/// The canonical rendering denotes the number it was made from, consists of
/// digits, and carries no leading zero.
pub proof fn lemma_dec_of(n: nat)
    ensures
        dec_of(n).len() >= 1,
        all_digits(dec_of(n)),
        digits_value(dec_of(n)) == n,
        n > 0 ==> dec_of(n)[0] != '0',
        n < 10 ==> dec_of(n) =~= seq![char_of_digit(n)],
    decreases n,
{
    if n < 10 {
        lemma_digit_char_val(n);
        assert(dec_of(n).drop_last() =~= Seq::<char>::empty());
        assert(dec_of(n).last() == char_of_digit(n));
        assert(digits_value(Seq::<char>::empty()) == 0);
        assert(digits_value(dec_of(n)) == digits_value(dec_of(n).drop_last()) * 10 + digit_val(
            dec_of(n).last(),
        ));
    } else {
        lemma_dec_of(n / 10);
        lemma_digit_char_val(n % 10);
        let s = dec_of(n);
        assert(s.drop_last() =~= dec_of(n / 10));
        assert(s.last() == char_of_digit(n % 10));
        assert(digits_value(s) == (n / 10) * 10 + n % 10);
        assert((n / 10) * 10 + n % 10 == n) by {
            vstd::arithmetic::div_mod::lemma_fundamental_div_mod(n as int, 10);
        }
        assert forall|i: int| 0 <= i < s.len() implies #[trigger] is_digit(s[i]) by {
            if i < s.len() - 1 {
                assert(s[i] == dec_of(n / 10)[i]);
            }
        }
        assert(s[0] == dec_of(n / 10)[0]);
    }
}

/// A digit appended on the right multiplies the value by ten and adds it.
proof fn lemma_digits_value_step(s: Seq<char>, i: int)
    requires
        0 <= i < s.len(),
    ensures
        digits_value(s.take(i + 1)) == digits_value(s.take(i)) * 10 + digit_val(s[i]),
{
    assert(s.take(i + 1).drop_last() =~= s.take(i));
    assert(s.take(i + 1).last() == s[i]);
}

/// Reading more digits never decreases the denoted value.
proof fn lemma_digits_value_take_mono(s: Seq<char>, i: int, j: int)
    requires
        0 <= i <= j <= s.len(),
    ensures
        digits_value(s.take(i)) <= digits_value(s.take(j)),
    decreases j - i,
{
    if i < j {
        lemma_digits_value_take_mono(s, i + 1, j);
        lemma_digits_value_step(s, i);
    }
}

/// Parses a stored counter string, accepting exactly what `counter_of`
/// accepts.
pub fn parse_counter(s: &str) -> (r: Option<u64>)
    ensures
        r == counter_of(s@),
{
    let v = chars_of(s);
    if v.len() == 0 {
        return None;
    }
    let mut acc: u64 = 0;
    let mut i: usize = 0;
    while i < v.len()
        invariant
            0 <= i <= v.len(),
            v@ == s@,
            acc == digits_value(s@.take(i as int)),
            all_digits(s@.take(i as int)),
        decreases v.len() - i,
    {
        let c = v[i];
        if !('0' <= c && c <= '9') {
            assert(!is_digit(s@[i as int]));
            return None;
        }
        let d: u64 = (c as u32 - 48) as u64;
        proof {
            assert(d == digit_val(s@[i as int]));
        }
        let m = match acc.checked_mul(10) {
            Some(m) => m,
            None => {
                proof {
                    lemma_digits_value_step(s@, i as int);
                    lemma_digits_value_take_mono(s@, i as int + 1, s@.len() as int);
                    assert(s@.take(s@.len() as int) =~= s@);
                }
                return None;
            },
        };
        let a2 = match m.checked_add(d) {
            Some(a2) => a2,
            None => {
                proof {
                    lemma_digits_value_step(s@, i as int);
                    lemma_digits_value_take_mono(s@, i as int + 1, s@.len() as int);
                    assert(s@.take(s@.len() as int) =~= s@);
                }
                return None;
            },
        };
        acc = a2;
        i = i + 1;
        proof {
            lemma_digits_value_step(s@, i as int - 1);
            assert forall|k: int| 0 <= k < i implies #[trigger] is_digit(s@.take(i as int)[k]) by {
                if k < i - 1 {
                    assert(s@.take(i as int - 1)[k] == s@.take(i as int)[k]);
                    assert(is_digit(s@.take(i as int - 1)[k]));
                }
            }
        }
    }
    proof {
        assert(s@.take(v.len() as int) =~= s@);
    }
    if acc == u64::MAX {
        return None;
    }
    Some(acc)
}

/// The value of the run of digits in `[a, b)`, unless it does not fit the
/// counter range.
pub(crate) fn digits_span_value(v: &Vec<char>, a: usize, b: usize) -> (r: Option<u64>)
    requires
        a <= b <= v.len(),
        forall|k: int| a <= k < b ==> is_digit(#[trigger] v@[k]),
    ensures
        ({
            let s = v@.subrange(a as int, b as int);
            match r {
                Some(n) => n as nat == digits_value(s) && digits_value(s) < u64::MAX,
                None => digits_value(s) >= u64::MAX,
            }
        }),
{
    let ghost s = v@.subrange(a as int, b as int);
    let mut acc: u64 = 0;
    let mut i: usize = a;
    while i < b
        invariant
            a <= i <= b <= v.len(),
            s == v@.subrange(a as int, b as int),
            forall|k: int| a <= k < b ==> is_digit(#[trigger] v@[k]),
            acc == digits_value(s.take(i - a)),
        decreases b - i,
    {
        let c = v[i];
        assert(c == s[i - a]);
        assert(is_digit(c));
        let d: u64 = (c as u32 - 48) as u64;
        proof {
            assert(d == digit_val(s[i - a]));
        }
        let m = match acc.checked_mul(10) {
            Some(m) => m,
            None => {
                proof {
                    lemma_digits_value_step(s, i - a);
                    lemma_digits_value_take_mono(s, i - a + 1, s.len() as int);
                    assert(s.take(s.len() as int) =~= s);
                }
                return None;
            },
        };
        let a2 = match m.checked_add(d) {
            Some(a2) => a2,
            None => {
                proof {
                    lemma_digits_value_step(s, i - a);
                    lemma_digits_value_take_mono(s, i - a + 1, s.len() as int);
                    assert(s.take(s.len() as int) =~= s);
                }
                return None;
            },
        };
        acc = a2;
        i = i + 1;
        proof {
            lemma_digits_value_step(s, i - a - 1);
        }
    }
    proof {
        assert(s.take(b - a) =~= s);
    }
    if acc == u64::MAX {
        return None;
    }
    Some(acc)
}

/// Renders a number in canonical decimal.
pub fn fmt_u64(n: u64) -> (s: String)
    ensures
        s@ == dec_of(n as nat),
    decreases n,
{
    if n < 10 {
        let c = digit_char(n);
        let mut s = String::new();
        push_char(&mut s, c);
        proof {
            assert(s@ =~= seq![char_of_digit(n as nat)]);
        }
        s
    } else {
        proof {
            assert(n / 10 < n) by (nonlinear_arith)
                requires
                    n >= 10,
            ;
        }
        let mut s = fmt_u64(n / 10);
        let c = digit_char(n % 10);
        push_char(&mut s, c);
        s
    }
}

/// The ASCII digit for a value below ten.
fn digit_char(d: u64) -> (c: char)
    requires
        d < 10,
    ensures
        c == char_of_digit(d as nat),
{
    if d == 0 {
        '0'
    } else if d == 1 {
        '1'
    } else if d == 2 {
        '2'
    } else if d == 3 {
        '3'
    } else if d == 4 {
        '4'
    } else if d == 5 {
        '5'
    } else if d == 6 {
        '6'
    } else if d == 7 {
        '7'
    } else if d == 8 {
        '8'
    } else {
        '9'
    }
}

} // verus!

//! Reading a size that a front end was given as text.

use vstd::prelude::*;
use vstd::string::StrSliceExecFns;

verus! {

/// The value of a decimal digit; `None` for any other character.
pub open spec fn digit_value(c: char) -> Option<nat> {
    if c == '0' {
        Some(0nat)
    } else if c == '1' {
        Some(1nat)
    } else if c == '2' {
        Some(2nat)
    } else if c == '3' {
        Some(3nat)
    } else if c == '4' {
        Some(4nat)
    } else if c == '5' {
        Some(5nat)
    } else if c == '6' {
        Some(6nat)
    } else if c == '7' {
        Some(7nat)
    } else if c == '8' {
        Some(8nat)
    } else if c == '9' {
        Some(9nat)
    } else {
        None
    }
}

/// The number that a string of decimal digits denotes; `None` where some
/// character is no digit. The empty string denotes 0.
pub open spec fn digits_value(s: Seq<char>) -> Option<nat>
    decreases s.len(),
{
    if s.len() == 0 {
        Some(0nat)
    } else {
        match (digits_value(s.drop_last()), digit_value(s.last())) {
            (Some(v), Some(d)) => Some(v * 10 + d),
            _ => None,
        }
    }
}

/// The number that a numeral denotes: an optional plus sign, then one or
/// more decimal digits. `None` for any other text.
pub open spec fn numeral(s: Seq<char>) -> Option<nat> {
    let body = if s.len() > 0 && s[0] == '+' {
        s.subrange(1, s.len() as int)
    } else {
        s
    };
    if body.len() == 0 {
        None
    } else {
        digits_value(body)
    }
}

/// Whether `s` gives a size: the numeral of a positive number that a machine
/// word holds.
pub open spec fn gives_size(s: Seq<char>) -> bool {
    match numeral(s) {
        Some(n) => 1 <= n <= usize::MAX,
        None => false,
    }
}

/// A string of digits that extends one without a value has no value, and
/// one that extends one with a value has no smaller value.
proof fn lemma_digits_extend(s: Seq<char>, k: int)
    requires
        0 <= k <= s.len(),
    ensures
        digits_value(s.take(k)) is None ==> digits_value(s) is None,
        digits_value(s) matches Some(w) ==> digits_value(s.take(k)) matches Some(v) && v <= w,
    decreases s.len() - k,
{
    if k == s.len() {
        assert(s.take(k) =~= s);
    } else {
        assert(s.drop_last().take(k) =~= s.take(k));
        lemma_digits_extend(s.drop_last(), k);
    }
}

/// The value of `c` where it is a decimal digit.
fn digit_of(c: char) -> (digit: Option<usize>)
    ensures
        (match digit {
            Some(d) => digit_value(c) == Some(d as nat) && d < 10,
            None => digit_value(c) is None,
        }),
{
    if c == '0' {
        Some(0)
    } else if c == '1' {
        Some(1)
    } else if c == '2' {
        Some(2)
    } else if c == '3' {
        Some(3)
    } else if c == '4' {
        Some(4)
    } else if c == '5' {
        Some(5)
    } else if c == '6' {
        Some(6)
    } else if c == '7' {
        Some(7)
    } else if c == '8' {
        Some(8)
    } else if c == '9' {
        Some(9)
    } else {
        None
    }
}

/// The number that `text` denotes, where it is a numeral of a number that a
/// machine word holds.
pub fn parse_digits(text: &str) -> (number: Option<usize>)
    ensures
        number == (match numeral(text@) {
            Some(n) => if n <= usize::MAX {
                Some(n as usize)
            } else {
                None
            },
            None => None,
        }),
{
    let len: usize = text.unicode_len();
    let start: usize = if len > 0 && text.get_char(0) == '+' {
        1
    } else {
        0
    };
    if start == len {
        return None;
    }
    let ghost body = text@.subrange(start as int, len as int);
    proof {
        assert(text@.subrange(0, len as int) =~= text@);
        assert(numeral(text@) == digits_value(body));
    }
    let mut value: usize = 0;
    let mut i: usize = start;
    while i < len
        invariant
            start <= i <= len,
            len == text@.len(),
            body == text@.subrange(start as int, len as int),
            numeral(text@) == digits_value(body),
            digits_value(body.take(i - start)) == Some(value as nat),
        decreases len - i,
    {
        let c = text.get_char(i);
        proof {
            assert(body.take(i + 1 - start).drop_last() =~= body.take(i - start));
            assert(body.take(i + 1 - start).last() == c);
            lemma_digits_extend(body, i + 1 - start);
        }
        match digit_of(c) {
            None => {
                return None;
            },
            Some(d) => {
                if value > (usize::MAX - d) / 10 {
                    return None;
                }
                value = value * 10 + d;
            },
        }
        i = i + 1;
    }
    proof {
        assert(body.take(len - start) =~= body);
    }
    Some(value)
}

/// The size that a front end was given: the number that `value` denotes
/// where it gives a size, else `default`. The flag says that a text was
/// given and turned down, so that the front end can say so.
pub fn parse_number(value: Option<&str>, default: usize) -> (result: (usize, bool))
    ensures
        result.1 == (value matches Some(s) && !gives_size(s@)),
        result.0 == (match value {
            Some(s) => if gives_size(s@) {
                numeral(s@)->Some_0 as usize
            } else {
                default
            },
            None => default,
        }),
{
    match value {
        None => (default, false),
        Some(s) => match parse_digits(s) {
            Some(n) => if n >= 1 {
                (n, false)
            } else {
                (default, true)
            },
            None => (default, true),
        },
    }
}

} // verus!

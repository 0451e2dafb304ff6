//! Decimal numbers in ServerQuery text.
use vstd::prelude::*;

use crate::text::push_char;

verus! {

/// An ASCII decimal digit.
pub open spec fn is_digit(c: char) -> bool {
    '0' <= c && c <= '9'
}

/// The value of an ASCII decimal digit.
pub open spec fn digit_value(c: char) -> int {
    c as int - '0' as int
}

/// The value of a string of decimal digits, most significant first.
pub open spec fn digits_value(s: Seq<char>) -> int
    decreases s.len(),
{
    if s.len() == 0 {
        0
    } else {
        digits_value(s.drop_last()) * 10 + digit_value(s.last())
    }
}

/// The digits of an unsigned number: the text without one leading `+`.
pub open spec fn unsigned_digits(s: Seq<char>) -> Seq<char> {
    if s.len() > 0 && s[0] == '+' {
        s.drop_first()
    } else {
        s
    }
}

/// The unsigned number that `s` writes, as `str::parse` reads it for an
/// unsigned integer type whose largest value is `max`: an optional `+`, then
/// one or more ASCII digits, and a value no larger than `max`.
pub open spec fn spec_parse_unsigned(s: Seq<char>, max: int) -> Option<int> {
    let d = unsigned_digits(s);
    if d.len() > 0 && (forall|i: int| 0 <= i < d.len() ==> is_digit(#[trigger] d[i]))
        && digits_value(d) <= max {
        Some(digits_value(d))
    } else {
        None
    }
}

/// A longer string of digits is worth at least as much as its prefixes.
proof fn lemma_digits_value_prefix(t: Seq<char>, k: int)
    requires
        0 <= k <= t.len(),
        forall|i: int| 0 <= i < t.len() ==> is_digit(#[trigger] t[i]),
    ensures
        0 <= digits_value(t.take(k)) <= digits_value(t),
    decreases t.len(),
{
    if k == t.len() {
        assert(t.take(k) =~= t);
        lemma_digits_value_nonneg(t);
    } else {
        let d = t.drop_last();
        assert(d.take(k) =~= t.take(k));
        lemma_digits_value_prefix(d, k);
        assert(is_digit(t[t.len() - 1]));
    }
}

/// Digits are worth at least zero.
proof fn lemma_digits_value_nonneg(t: Seq<char>)
    requires
        forall|i: int| 0 <= i < t.len() ==> is_digit(#[trigger] t[i]),
    ensures
        0 <= digits_value(t),
    decreases t.len(),
{
    if t.len() > 0 {
        lemma_digits_value_nonneg(t.drop_last());
        assert(is_digit(t[t.len() - 1]));
    }
}

/// Parses an unsigned decimal number no larger than `max`.
pub fn parse_unsigned(s: &str, max: u64) -> (res: Option<u64>)
    ensures
        match res {
            Some(n) => spec_parse_unsigned(s@, max as int) == Some(n as int),
            None => spec_parse_unsigned(s@, max as int) is None,
        },
{
    let len = s.unicode_len();
    let plus = len > 0 && s.get_char(0) == '+';
    let offset: usize = if plus { 1 } else { 0 };
    let ghost d = unsigned_digits(s@);
    proof {
        assert(d =~= s@.skip(offset as int));
    }
    let mut value: u64 = 0;
    let mut index: usize = 0;
    for ch in it: s.chars()
        invariant
            it.seq() == s@,
            d == s@.skip(offset as int),
            d == unsigned_digits(s@),
            len == s@.len(),
            offset == (if plus { 1usize } else { 0usize }),
            offset == (if s@.len() > 0 && s@[0] == '+' { 1int } else { 0int }),
            index == it.index(),
            it.index() >= offset || it.index() == 0,
            it.index() >= offset ==> {
                &&& forall|i: int| 0 <= i < it.index() - offset ==> is_digit(#[trigger] d[i])
                &&& value == digits_value(d.take(it.index() - offset))
                &&& value <= max
            },
            it.index() < offset ==> value == 0,
    {
        if index == 0 && plus {
            proof {
                assert(d.take(0) =~= Seq::<char>::empty());
            }
        } else {
            let ghost k = index - offset;
            if !('0' <= ch && ch <= '9') {
                assert(!is_digit(d[k]));
                return None;
            }
            let digit = ch as u64 - '0' as u64;
            proof {
                assert(d.take(k + 1).drop_last() =~= d.take(k));
                assert(d.take(k + 1).last() == ch);
                assert(digits_value(d.take(k + 1)) == value * 10 + digit);
            }
            let next = match value.checked_mul(10) {
                Some(tens) => tens.checked_add(digit),
                None => None,
            };
            match next {
                Some(n) if n <= max => {
                    value = n;
                },
                _ => {
                    proof {
                        assert(value * 10 + digit > max);
                        if forall|i: int| 0 <= i < d.len() ==> is_digit(#[trigger] d[i]) {
                            lemma_digits_value_prefix(d, k + 1);
                            assert(digits_value(d) > max);
                        }
                        assert(spec_parse_unsigned(s@, max as int) is None);
                    }
                    return None;
                },
            }
        }
        index = index + 1;
    }
    if len == offset {
        return None;
    }
    proof {
        assert(d.take(d.len() as int) =~= d);
    }
    Some(value)
}

/// The decimal digit for a value below ten.
pub open spec fn digit_char(n: nat) -> char {
    (n + '0' as nat) as char
}

/// The decimal text of a number, without leading zeros.
pub open spec fn spec_decimal(n: nat) -> Seq<char>
    decreases n,
{
    if n < 10 {
        seq![digit_char(n)]
    } else {
        spec_decimal(n / 10).push(digit_char(n % 10))
    }
}

/// Writes a number in decimal.
pub fn decimal(n: u64) -> (res: String)
    ensures
        res@ == spec_decimal(n as nat),
    decreases n,
{
    let mut text = if n < 10 { String::new() } else { decimal(n / 10) };
    push_char(&mut text, digit_to_char(n % 10));
    proof {
        if n < 10 {
            assert(text@ =~= seq![digit_char(n as nat)]);
        }
    }
    text
}

fn digit_to_char(d: u64) -> (c: char)
    requires
        d < 10,
    ensures
        c == digit_char(d as nat),
{
    match d {
        0 => '0',
        1 => '1',
        2 => '2',
        3 => '3',
        4 => '4',
        5 => '5',
        6 => '6',
        7 => '7',
        8 => '8',
        _ => '9',
    }
}

} // verus!

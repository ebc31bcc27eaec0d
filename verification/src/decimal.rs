//! Whole numbers in decimal digits.

use crate::schema::chars_of;
use vstd::prelude::*;

verus! {

/// The text of one decimal digit.
pub open spec fn digit_text(d: nat) -> Seq<char> {
    if d == 0 {
        "0"@
    } else if d == 1 {
        "1"@
    } else if d == 2 {
        "2"@
    } else if d == 3 {
        "3"@
    } else if d == 4 {
        "4"@
    } else if d == 5 {
        "5"@
    } else if d == 6 {
        "6"@
    } else if d == 7 {
        "7"@
    } else if d == 8 {
        "8"@
    } else {
        "9"@
    }
}

/// The decimal digits of a natural number, the leading one not zero unless
/// the number is zero.
pub open spec fn digits(n: nat) -> Seq<char>
    decreases n,
{
    if n < 10 {
        digit_text(n)
    } else {
        digits(n / 10) + digit_text(n % 10)
    }
}

/// The decimal text of a whole number: its digits, after a minus sign where
/// it is below zero.
pub open spec fn decimal_text(n: int) -> Seq<char> {
    if n < 0 {
        "-"@ + digits((-n) as nat)
    } else {
        digits(n as nat)
    }
}

fn digit_str(d: u64) -> (s: &'static str)
    requires
        d < 10,
    ensures
        s@ == digit_text(d as nat),
{
    if d == 0 {
        "0"
    } else if d == 1 {
        "1"
    } else if d == 2 {
        "2"
    } else if d == 3 {
        "3"
    } else if d == 4 {
        "4"
    } else if d == 5 {
        "5"
    } else if d == 6 {
        "6"
    } else if d == 7 {
        "7"
    } else if d == 8 {
        "8"
    } else {
        "9"
    }
}

/// The decimal text of `n`.
pub fn decimal_of_u64(n: u64) -> (text: String)
    ensures
        text@ == decimal_text(n as int),
    decreases n,
{
    if n < 10 {
        digit_str(n).to_owned()
    } else {
        decimal_of_u64(n / 10).concat(digit_str(n % 10))
    }
}

/// The decimal text of `n`.
pub fn decimal_of_i64(n: i64) -> (text: String)
    ensures
        text@ == decimal_text(n as int),
{
    if n >= 0 {
        decimal_of_u64(n as u64)
    } else {
        let magnitude: u64 = (-(n + 1)) as u64 + 1;
        "-".to_owned().concat(decimal_of_u64(magnitude).as_str())
    }
}

/// The value of a decimal digit.
pub open spec fn digit_value(c: char) -> Option<nat> {
    if c == '0' {
        Some(0)
    } else if c == '1' {
        Some(1)
    } else if c == '2' {
        Some(2)
    } else if c == '3' {
        Some(3)
    } else if c == '4' {
        Some(4)
    } else if c == '5' {
        Some(5)
    } else if c == '6' {
        Some(6)
    } else if c == '7' {
        Some(7)
    } else if c == '8' {
        Some(8)
    } else if c == '9' {
        Some(9)
    } else {
        None
    }
}

/// The number that a run of decimal digits reads as, where every character
/// is a digit and the number is within 64 bits.
pub open spec fn digits_value(s: Seq<char>) -> Option<nat>
    decreases s.len(),
{
    if s.len() == 0 {
        Some(0)
    } else {
        match (digits_value(s.drop_last()), digit_value(s.last())) {
            (Some(v), Some(d)) => if 10 * v + d <= 0xffff_ffff_ffff_ffff {
                Some(10 * v + d)
            } else {
                None
            },
            _ => None,
        }
    }
}

/// The whole number that a text reads as: its digits, below zero after a
/// minus sign.
pub open spec fn whole_read(s: Seq<char>) -> Option<int> {
    if s.len() > 0 && s[0] == '-' {
        match digits_value(s.drop_first()) {
            Some(v) => Some(-(v as int)),
            None => None,
        }
    } else {
        match digits_value(s) {
            Some(v) => Some(v as int),
            None => None,
        }
    }
}

/// The whole number from `low` to `high` that `s` is the decimal text of:
/// the number that `s` reads as, where it is in the range and is written as
/// `s`, without a sign or a zero that its decimal text does not have.
pub open spec fn whole_of_text(s: Seq<char>, low: int, high: int) -> Option<int> {
    match whole_read(s) {
        Some(n) => if low <= n <= high && decimal_text(n) == s {
            Some(n)
        } else {
            None
        },
        None => None,
    }
}

fn digit_of(c: char) -> (d: Option<u64>)
    ensures
        match d {
            Some(v) => digit_value(c) == Some(v as nat),
            None => digit_value(c) is None,
        },
{
    if c == '0' {
        Some(0)
    } else if c == '1' {
        Some(1)
    } else if c == '2' {
        Some(2)
    } else if c == '3' {
        Some(3)
    } else if c == '4' {
        Some(4)
    } else if c == '5' {
        Some(5)
    } else if c == '6' {
        Some(6)
    } else if c == '7' {
        Some(7)
    } else if c == '8' {
        Some(8)
    } else if c == '9' {
        Some(9)
    } else {
        None
    }
}

/// The number that the characters from `from` on read as.
fn digits_from(chars: &Vec<char>, from: usize) -> (r: Option<u64>)
    requires
        from <= chars.len(),
    ensures
        match r {
            Some(v) => digits_value(chars@.subrange(from as int, chars.len() as int)) == Some(
                v as nat,
            ),
            None => digits_value(chars@.subrange(from as int, chars.len() as int)) is None,
        },
{
    let mut value: Option<u64> = Some(0);
    let mut i: usize = from;
    while i < chars.len()
        invariant
            from <= i <= chars.len(),
            match value {
                Some(v) => digits_value(chars@.subrange(from as int, i as int)) == Some(v as nat),
                None => digits_value(chars@.subrange(from as int, i as int)) is None,
            },
        decreases chars.len() - i,
    {
        let ghost next = chars@.subrange(from as int, i + 1);
        assert(next.drop_last() == chars@.subrange(from as int, i as int));
        assert(next.last() == chars@[i as int]);
        value = match (value, digit_of(chars[i])) {
            (Some(v), Some(d)) => if v < 1844674407370955161 || (v == 1844674407370955161 && d
                <= 5) {
                Some(10 * v + d)
            } else {
                None
            },
            _ => None,
        };
        i += 1;
    }
    value
}

/// The whole number from `low` to `high` that `text` is the decimal text of.
pub fn whole_from_text(text: &String, low: i128, high: i128) -> (r: Option<i128>)
    requires
        -0x8000_0000_0000_0000 <= low,
        high <= 0xffff_ffff_ffff_ffff,
    ensures
        match r {
            Some(n) => whole_of_text(text@, low as int, high as int) == Some(n as int),
            None => whole_of_text(text@, low as int, high as int) is None,
        },
{
    let chars = chars_of(text.as_str());
    let negative = chars.len() > 0 && chars[0] == '-';
    let magnitude = if negative {
        assert(chars@.drop_first() == chars@.subrange(1, chars.len() as int));
        digits_from(&chars, 1)
    } else {
        assert(chars@ == chars@.subrange(0, chars.len() as int));
        digits_from(&chars, 0)
    };
    match magnitude {
        None => None,
        Some(v) => {
            let n: i128 = if negative {
                -(v as i128)
            } else {
                v as i128
            };
            if n < low || n > high {
                None
            } else {
                let written = if n >= 0 {
                    decimal_of_u64(n as u64)
                } else {
                    decimal_of_i64(n as i64)
                };
                if written == *text {
                    Some(n)
                } else {
                    None
                }
            }
        },
    }
}

/// The text of a digit is one character, which is read as the digit.
pub proof fn lemma_digit_text(d: nat)
    requires
        d < 10,
    ensures
        digit_text(d).len() == 1,
        digit_value(digit_text(d)[0]) == Some(d),
        digit_text(d)[0] != '-',
{
    reveal_strlit("0");
    reveal_strlit("1");
    reveal_strlit("2");
    reveal_strlit("3");
    reveal_strlit("4");
    reveal_strlit("5");
    reveal_strlit("6");
    reveal_strlit("7");
    reveal_strlit("8");
    reveal_strlit("9");
}

/// The digits of a number within 64 bits are read as the number, and do not
/// begin with a minus sign.
pub proof fn lemma_digits_read_back(n: nat)
    requires
        n <= 0xffff_ffff_ffff_ffff,
    ensures
        digits(n).len() >= 1,
        digits(n)[0] != '-',
        digits_value(digits(n)) == Some(n),
    decreases n,
{
    let s = digits(n);
    if n < 10 {
        lemma_digit_text(n);
        assert(s.drop_last().len() == 0);
        assert(digits_value(s.drop_last()) == Some(0nat));
        assert(s.last() == s[0]);
    } else {
        let front = digits(n / 10);
        let last = digit_text(n % 10);
        lemma_digits_read_back(n / 10);
        lemma_digit_text(n % 10);
        assert(s == front + last);
        assert(s.drop_last() == front);
        assert(s.last() == last[0]);
        assert(s[0] == front[0]);
        assert(10 * (n / 10) + n % 10 == n);
    }
}

/// The decimal text of a whole number is read back as the number: every
/// whole number in a range within 64 bits is the number of its decimal text.
pub proof fn law_decimal_text_reads_back(n: int, low: int, high: int)
    requires
        low <= n <= high,
        -0xffff_ffff_ffff_ffff <= n <= 0xffff_ffff_ffff_ffff,
    ensures
        whole_of_text(decimal_text(n), low, high) == Some(n),
{
    let s = decimal_text(n);
    if n < 0 {
        reveal_strlit("-");
        let rest = digits((-n) as nat);
        lemma_digits_read_back((-n) as nat);
        assert(s == "-"@ + rest);
        assert(s[0] == '-');
        assert(s.drop_first() == rest);
    } else {
        lemma_digits_read_back(n as nat);
    }
}

} // verus!

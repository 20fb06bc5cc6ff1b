//! Numbers in decimal notation.

use vstd::prelude::*;

use crate::address::all_digits;
use crate::address::digit_value;
use crate::address::digits_value;
use crate::address::read_digit;
use crate::text::chars_of;
use crate::text::text_of;

verus! {

/// The character of a decimal digit.
pub open spec fn digit_char(d: nat) -> char {
    ('0' as nat + d) as char
}

/// A number in decimal notation, without leading zeros.
pub open spec fn decimal(n: nat) -> Seq<char>
    decreases n,
{
    if n < 10 {
        seq![digit_char(n)]
    } else {
        decimal(n / 10).push(digit_char(n % 10))
    }
}

/// The number that a text writes: digits, with or without a plus sign before
/// them.
pub open spec fn natural_of(s: Seq<char>) -> Option<nat> {
    let digits = if s.len() > 0 && s[0] == '+' {
        s.drop_first()
    } else {
        s
    };
    if digits.len() > 0 && all_digits(digits, 10) {
        Some(digits_value(digits, 10))
    } else {
        None
    }
}

/// The number that a text writes: digits, with or without a sign before them.
pub open spec fn integer_of(s: Seq<char>) -> Option<int> {
    if s.len() > 0 && s[0] == '-' {
        let digits = s.drop_first();
        if digits.len() > 0 && all_digits(digits, 10) {
            Some(-(digits_value(digits, 10) as int))
        } else {
            None
        }
    } else {
        match natural_of(s) {
            Some(n) => Some(n as int),
            None => None,
        }
    }
}

fn char_of_digit(d: u64) -> (c: char)
    requires
        d < 10,
    ensures
        c == digit_char(d as nat),
{
    match d {
        0 => '0',
        1 => '1',
        2 => '2',
        3 => '3',
        4 => '4',
        5 => '5',
        6 => '6',
        7 => '7',
        8 => '8',
        _ => '9',
    }
}

fn decimal_chars(n: u64) -> (cs: Vec<char>)
    ensures
        cs@ == decimal(n as nat),
    decreases n,
{
    if n < 10 {
        let mut cs: Vec<char> = Vec::new();
        cs.push(char_of_digit(n));
        cs
    } else {
        let mut cs = decimal_chars(n / 10);
        cs.push(char_of_digit(n % 10));
        cs
    }
}

/// Writes a number in decimal notation.
pub fn decimal_text(n: usize) -> (s: String)
    ensures
        s@ == decimal(n as nat),
{
    let cs = decimal_chars(n as u64);
    text_of(cs.as_slice())
}

/// Writes a 64-bit number in decimal notation.
pub fn decimal_text_of_u64(n: u64) -> (s: String)
    ensures
        s@ == decimal(n as nat),
{
    let cs = decimal_chars(n);
    text_of(cs.as_slice())
}

/// Reads digits as a number that is at most `limit`.
fn read_digits(p: &[char], limit: u64) -> (r: Option<u64>)
    ensures
        match r {
            Some(v) => p@.len() > 0 && all_digits(p@, 10) && v == digits_value(p@, 10) && v
                <= limit,
            None => p@.len() == 0 || !all_digits(p@, 10) || digits_value(p@, 10) > limit,
        },
{
    if p.len() == 0 {
        return None;
    }
    let mut value: u64 = 0;
    let mut over: bool = false;
    let mut i: usize = 0;
    while i < p.len()
        invariant
            p@.len() > 0,
            i <= p@.len(),
            forall|j: int| 0 <= j < i ==> digit_value(#[trigger] p@[j], 10) is Some,
            !over ==> value == digits_value(p@.take(i as int), 10) && value <= limit,
            over ==> digits_value(p@.take(i as int), 10) > limit,
        decreases p.len() - i,
    {
        match read_digit(p[i], 10) {
            Some(d) => {
                proof {
                    assert(p@.take(i + 1).drop_last() =~= p@.take(i as int));
                    assert(p@.take(i + 1).last() == p@[i as int]);
                }
                if !over {
                    let next: u128 = (value as u128) * 10 + d as u128;
                    if next > limit as u128 {
                        over = true;
                    } else {
                        value = next as u64;
                    }
                }
            },
            None => {
                proof {
                    assert(digit_value(p@[i as int], 10) is None);
                }
                return None;
            },
        }
        i = i + 1;
    }
    proof {
        assert(p@.take(p@.len() as int) =~= p@);
    }
    if over {
        None
    } else {
        Some(value)
    }
}

fn without_first(s: &[char]) -> (t: Vec<char>)
    requires
        s@.len() > 0,
    ensures
        t@ == s@.drop_first(),
{
    let t = crate::text::copy_range(s, 1, s.len());
    proof {
        assert(t@ =~= s@.drop_first());
    }
    t
}

/// Reads a number that fits in `usize`.
pub fn parse_usize(s: &str) -> (r: Option<usize>)
    ensures
        match r {
            Some(n) => natural_of(s@) == Some(n as nat),
            None => natural_of(s@) is None || natural_of(s@)->0 > usize::MAX,
        },
{
    let cs = chars_of(s);
    let v = if cs.len() > 0 && cs[0] == '+' {
        let digits = without_first(cs.as_slice());
        read_digits(digits.as_slice(), usize::MAX as u64)
    } else {
        read_digits(cs.as_slice(), usize::MAX as u64)
    };
    match v {
        Some(n) => Some(n as usize),
        None => None,
    }
}

/// Reads a number that fits in `i32`.
pub fn parse_i32(s: &str) -> (r: Option<i32>)
    ensures
        match r {
            Some(n) => integer_of(s@) == Some(n as int),
            None => integer_of(s@) is None || integer_of(s@)->0 > i32::MAX || integer_of(s@)->0
                < i32::MIN,
        },
{
    let cs = chars_of(s);
    if cs.len() > 0 && cs[0] == '-' {
        let digits = without_first(cs.as_slice());
        match read_digits(digits.as_slice(), 0x8000_0000) {
            Some(n) => Some((0 - n as i64) as i32),
            None => None,
        }
    } else {
        let v = if cs.len() > 0 && cs[0] == '+' {
            let digits = without_first(cs.as_slice());
            read_digits(digits.as_slice(), 0x7fff_ffff)
        } else {
            read_digits(cs.as_slice(), 0x7fff_ffff)
        };
        match v {
            Some(n) => Some(n as i32),
            None => None,
        }
    }
}

/// What is written in decimal notation reads as the number it was.
pub proof fn law_decimal_reads_back(n: nat)
    ensures
        natural_of(decimal(n)) == Some(n),
        integer_of(decimal(n)) == Some(n as int),
{
    lemma_decimal(n);
    let s = decimal(n);
    assert(digit_value(s[0], 10) is Some);
}

/// The digits of a number in decimal notation.
pub proof fn lemma_decimal(n: nat)
    ensures
        decimal(n).len() > 0,
        all_digits(decimal(n), 10),
        digits_value(decimal(n), 10) == n,
    decreases n,
{
    if n < 10 {
        let s = decimal(n);
        assert(s.drop_last() =~= Seq::empty());
        assert(digits_value(s.drop_last(), 10) == 0);
        assert(s.last() == digit_char(n));
    } else {
        lemma_decimal(n / 10);
        let s = decimal(n);
        assert(s.drop_last() =~= decimal(n / 10));
        assert(s.last() == digit_char(n % 10));
        assert forall|i: int| 0 <= i < s.len() implies digit_value(#[trigger] s[i], 10) is Some by {
            if i < s.len() - 1 {
                assert(s[i] == decimal(n / 10)[i]);
            }
        }
    }
}

/// A number is written in decimal: its last digit is what it leaves on division
/// by ten, and before it stands the quotient, unless that is nothing.
pub proof fn law_decimal_digits(n: nat, d: nat)
    requires
        d < 10,
    ensures
        decimal(d) == seq!["0123456789"@[d as int]],
        n > 0 ==> decimal(10 * n + d) == decimal(n) + seq!["0123456789"@[d as int]],
{
    reveal_strlit("0123456789");
    let all = "0123456789"@;
    assert(all =~= seq!['0', '1', '2', '3', '4', '5', '6', '7', '8', '9']);
    assert(digit_char(d) == all[d as int]);
    if n > 0 {
        assert((10 * n + d) / 10 == n && (10 * n + d) % 10 == d) by (nonlinear_arith)
            requires
                d < 10,
        ;
        assert(decimal(10 * n + d) =~= decimal(n) + seq![all[d as int]]);
    }
}

/// A number is read back with a plus sign, with leading zeros and, negated,
/// with a minus sign.
pub proof fn law_signs(n: nat, zeros: Seq<char>)
    requires
        forall|i: int| 0 <= i < zeros.len() ==> #[trigger] zeros[i] == '0',
    ensures
        natural_of(zeros + decimal(n)) == Some(n),
        natural_of(seq!['+'] + zeros + decimal(n)) == Some(n),
        integer_of(seq!['+'] + zeros + decimal(n)) == Some(n as int),
        integer_of(seq!['-'] + zeros + decimal(n)) == Some(-(n as int)),
        natural_of(seq!['-'] + zeros + decimal(n)) is None,
{
    let digits = zeros + decimal(n);
    lemma_decimal(n);
    lemma_leading_zeros(zeros, decimal(n));
    assert(decimal(n).len() > 0);
    assert forall|i: int| 0 <= i < digits.len() implies digit_value(
        #[trigger] digits[i],
        10,
    ) is Some by {
        if i >= zeros.len() {
            assert(digits[i] == decimal(n)[i - zeros.len()]);
        } else {
            assert(zeros[i] == '0');
        }
    }
    assert(digit_value(digits[0], 10) is Some);
    assert((seq!['+'] + zeros + decimal(n)).drop_first() =~= digits);
    assert((seq!['-'] + zeros + decimal(n)).drop_first() =~= digits);
    let negative = seq!['-'] + zeros + decimal(n);
    assert(negative[0] == '-');
    assert(!all_digits(negative, 10));
}

proof fn lemma_leading_zeros(zeros: Seq<char>, p: Seq<char>)
    requires
        forall|i: int| 0 <= i < zeros.len() ==> #[trigger] zeros[i] == '0',
    ensures
        digits_value(zeros + p, 10) == digits_value(p, 10),
    decreases p.len(), zeros.len(),
{
    if p.len() > 0 {
        lemma_leading_zeros(zeros, p.drop_last());
        assert((zeros + p).drop_last() =~= zeros + p.drop_last());
    } else if zeros.len() > 0 {
        let fewer = zeros.drop_last();
        assert(zeros + p =~= zeros);
        assert(zeros[zeros.len() - 1] == '0');
        assert forall|i: int| 0 <= i < fewer.len() implies #[trigger] fewer[i] == '0' by {
            assert(zeros[i] == '0');
        }
        lemma_leading_zeros(fewer, p);
        assert(fewer + p =~= fewer);
    } else {
        assert(zeros + p =~= p);
    }
}

/// What is not made of digits, but for one sign before them, is no number.
pub proof fn law_not_a_number(s: Seq<char>, i: int)
    ensures
        natural_of(Seq::empty()) is None,
        natural_of(seq!['+']) is None,
        integer_of(Seq::empty()) is None,
        integer_of(seq!['+']) is None,
        integer_of(seq!['-']) is None,
        0 < i < s.len() && !('0' <= s[i] <= '9') ==> natural_of(s) is None && integer_of(s) is None,
        s.len() > 0 && !('0' <= s[0] <= '9') && s[0] != '+' ==> natural_of(s) is None,
        s.len() > 0 && !('0' <= s[0] <= '9') && s[0] != '+' && s[0] != '-' ==> integer_of(s) is None,
{
    if 0 < i < s.len() && !('0' <= s[i] <= '9') {
        assert(s.drop_first()[i - 1] == s[i]);
        assert(digit_value(s[i], 10) is None);
        assert(!all_digits(s, 10));
        assert(digit_value(s.drop_first()[i - 1], 10) is None);
        assert(!all_digits(s.drop_first(), 10));
    }
    if s.len() > 0 && !('0' <= s[0] <= '9') {
        assert(digit_value(s[0], 10) is None);
        assert(!all_digits(s, 10));
    }
}

} // verus!

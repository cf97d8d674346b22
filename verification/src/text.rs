//! Small text tools: pieces of strings, and decimal numbers.

use vstd::prelude::*;
use vstd::utf8::{encode_utf8, is_ascii_chars};
use crate::ser::{lemma_utf8_injective, str_equal, string_from_utf8};

verus! {

/// `s` begins with `p`.
pub open spec fn begins(s: Seq<char>, p: Seq<char>) -> bool {
    p.len() <= s.len() && s.take(p.len() as int) == p
}

/// Whether `s` begins with `p`.
pub fn begins_with(s: &str, p: &str) -> (r: bool)
    ensures
        r == begins(s@, p@),
{
    let n: usize = p.unicode_len();
    if s.unicode_len() < n {
        return false;
    }
    let head = s.substring_char(0, n);
    assert(head@ =~= s@.take(n as int));
    str_equal(head, p)
}

/// `s` without its first `n` characters.
pub fn after_chars<'a>(s: &'a str, n: usize) -> (r: &'a str)
    requires
        n <= s@.len(),
    ensures
        r@ == s@.skip(n as int),
{
    let r = s.substring_char(n, s.unicode_len());
    assert(r@ =~= s@.skip(n as int));
    r
}

/// The characters of a string.
pub fn chars_of(s: &str) -> (r: Vec<char>)
    ensures
        r@ == s@,
{
    let mut v: Vec<char> = Vec::new();
    for c in it: s.chars()
        invariant
            it.seq() == s@,
            v@ == s@.take(it.index() as int),
    {
        v.push(c);
        assert(v@ =~= s@.take(it.index() as int + 1));
    }
    assert(s@.take(s@.len() as int) =~= s@);
    v
}

/// Two strings in a row.
pub fn joined(a: &str, b: &str) -> (r: String)
    ensures
        r@ == a@ + b@,
{
    let mut s = String::from_str(a);
    s.append(b);
    s
}

/// Three strings in a row.
pub fn joined3(a: &str, b: &str, c: &str) -> (r: String)
    ensures
        r@ == a@ + b@ + c@,
{
    let mut s = String::from_str(a);
    s.append(b);
    s.append(c);
    s
}

/// The characters with these codes.
pub open spec fn ascii_chars(b: Seq<u8>) -> Seq<char> {
    Seq::new(b.len(), |i: int| b[i] as char)
}

/// The string with these character codes.
pub fn ascii_string(bytes: Vec<u8>) -> (r: String)
    requires
        forall|i: int| 0 <= i < bytes@.len() ==> #[trigger] bytes@[i] < 128,
    ensures
        r@ == ascii_chars(bytes@),
{
    let ghost b = bytes@;
    let ghost c = ascii_chars(b);
    proof {
        assert(is_ascii_chars(c));
        vstd::utf8::is_ascii_chars_encode_utf8(c);
        assert(encode_utf8(c) =~= b);
        vstd::utf8::encode_utf8_valid_utf8(c);
    }
    match string_from_utf8(bytes) {
        Some(s) => {
            proof {
                lemma_utf8_injective(s@, c);
            }
            s
        },
        None => {
            assert(false);
            String::new()
        },
    }
}

// ---------------------------------------------------------------- numbers

/// The character of a decimal digit.
pub open spec fn digit_char(d: int) -> char {
    (d + 48) as u8 as char
}

pub open spec fn is_digit(c: char) -> bool {
    '0' <= c <= '9'
}

/// The decimal form of `n`, without leading zeros.
pub open spec fn decimal(n: nat) -> Seq<char>
    decreases n,
{
    if n < 10 {
        seq![digit_char(n as int)]
    } else {
        decimal(n / 10).push(digit_char((n % 10) as int))
    }
}

/// The number whose decimal digits are `s`.
pub open spec fn digits_value(s: Seq<char>) -> nat
    decreases s.len(),
{
    if s.len() == 0 {
        0
    } else {
        digits_value(s.drop_last()) * 10 + (s.last() as u32 - 48) as nat
    }
}

/// One digit or more and nothing else.
pub open spec fn all_digits(s: Seq<char>) -> bool {
    s.len() > 0 && forall|i: int| 0 <= i < s.len() ==> is_digit(#[trigger] s[i])
}

/// What follows a plus sign, where there is one.
pub open spec fn unsigned_part(s: Seq<char>) -> Seq<char> {
    if s.len() > 0 && s[0] == '+' {
        s.skip(1)
    } else {
        s
    }
}

/// The number of at most `max` that `s` writes in decimal.
pub open spec fn parsed(s: Seq<char>, max: nat) -> Option<nat> {
    let d = unsigned_part(s);
    if all_digits(d) && digits_value(d) <= max {
        Some(digits_value(d))
    } else {
        None
    }
}

fn push_digits(v: &mut Vec<u8>, n: u64)
    requires
        forall|i: int| 0 <= i < old(v)@.len() ==> #[trigger] old(v)@[i] < 128,
    ensures
        forall|i: int| 0 <= i < final(v)@.len() ==> #[trigger] final(v)@[i] < 128,
        ascii_chars(final(v)@) == ascii_chars(old(v)@) + decimal(n as nat),
    decreases n,
{
    if n >= 10 {
        push_digits(v, n / 10);
    }
    let ghost head = v@;
    let d: u8 = (n % 10) as u8 + 48;
    v.push(d);
    proof {
        assert(ascii_chars(v@) =~= ascii_chars(head).push(d as char));
        assert(d as char == digit_char((n % 10) as int));
        if n < 10 {
            assert(ascii_chars(v@) =~= ascii_chars(old(v)@) + seq![d as char]);
        } else {
            assert(ascii_chars(v@) =~= ascii_chars(old(v)@) + decimal((n / 10) as nat).push(
                d as char,
            ));
        }
    }
}

/// The decimal form of a number.
pub fn to_decimal(n: u64) -> (r: String)
    ensures
        r@ == decimal(n as nat),
{
    let mut v: Vec<u8> = Vec::new();
    push_digits(&mut v, n);
    let ghost b = v@;
    assert(ascii_chars(b) =~= decimal(n as nat));
    ascii_string(v)
}

/// Reads a decimal number of at most 64 bits.
pub fn parse_decimal(s: &str) -> (r: Option<u64>)
    ensures
        match r {
            Some(v) => parsed(s@, u64::MAX as nat) == Some(v as nat),
            None => parsed(s@, u64::MAX as nat) is None,
        },
{
    let v = chars_of(s);
    let mut i: usize = 0;
    if v.len() > 0 && v[0] == '+' {
        i = 1;
    }
    let ghost from = i as int;
    let ghost d = unsigned_part(s@);
    assert(d =~= s@.skip(from));
    if i == v.len() {
        return None;
    }
    let mut n: u64 = 0;
    while i < v.len()
        invariant
            v@ == s@,
            0 <= from <= i <= v@.len(),
            d == unsigned_part(s@),
            d == s@.skip(from),
            d.len() > 0,
            forall|j: int| 0 <= j < i - from ==> is_digit(#[trigger] d[j]),
            n == digits_value(d.take(i - from)),
        decreases v@.len() - i,
    {
        let c = v[i];
        assert(c == d[i - from]);
        if c < '0' || c > '9' {
            return None;
        }
        let digit: u64 = c as u64 - 48;
        proof {
            lemma_digits_step(d, i - from);
            lemma_digits_prefix(d, i - from + 1);
        }
        match n.checked_mul(10) {
            Some(m) => match m.checked_add(digit) {
                Some(x) => {
                    n = x;
                },
                None => {
                    return None;
                },
            },
            None => {
                return None;
            },
        }
        i = i + 1;
    }
    assert(d.take(i - from) =~= d);
    Some(n)
}

proof fn lemma_digits_step(d: Seq<char>, n: int)
    requires
        0 <= n < d.len(),
        is_digit(d[n]),
    ensures
        digits_value(d.take(n + 1)) == digits_value(d.take(n)) * 10 + (d[n] as u32 - 48),
{
    assert(d.take(n + 1).drop_last() =~= d.take(n));
    assert(d.take(n + 1).last() == d[n]);
}

/// A number is at least as large as the number of its first digits.
proof fn lemma_digits_prefix(d: Seq<char>, n: int)
    requires
        0 <= n <= d.len(),
    ensures
        all_digits(d) ==> digits_value(d) >= digits_value(d.take(n)),
    decreases d.len() - n,
{
    if n == d.len() {
        assert(d.take(n) =~= d);
    } else {
        lemma_digits_prefix(d, n + 1);
        assert(d.take(n + 1).drop_last() =~= d.take(n));
        if all_digits(d) {
            assert(is_digit(d[n]));
            assert(d.take(n + 1).last() == d[n]);
        }
    }
}

proof fn lemma_decimal(n: nat)
    ensures
        all_digits(decimal(n)),
        digits_value(decimal(n)) == n,
        decimal(n)[0] != '+',
    decreases n,
{
    reveal_with_fuel(digits_value, 2);
    if n < 10 {
        let s = decimal(n);
        assert(s.drop_last() =~= Seq::empty());
        assert(is_digit(s[0]));
    } else {
        lemma_decimal(n / 10);
        let s = decimal(n);
        assert(s.drop_last() =~= decimal(n / 10));
        assert forall|i: int| 0 <= i < s.len() implies is_digit(#[trigger] s[i]) by {
            if i < s.len() - 1 {
                assert(s[i] == decimal(n / 10)[i]);
            }
        }
        assert(s[0] == decimal(n / 10)[0]);
    }
}

/// Reading back the decimal form of a number gives the number.
pub proof fn law_decimal_round_trip(n: nat, max: nat)
    requires
        n <= max,
    ensures
        parsed(decimal(n), max) == Some(n),
{
    lemma_decimal(n);
}

/// The numbers between -1 and 9 that `s` writes with an optional sign.
pub open spec fn level_of(s: Seq<char>) -> Option<int> {
    if s.len() > 0 && s[0] == '-' {
        let d = s.skip(1);
        if all_digits(d) && digits_value(d) <= 1 {
            Some(-digits_value(d))
        } else {
            None
        }
    } else {
        match parsed(s, 9) {
            Some(n) => Some(n as int),
            None => None,
        }
    }
}

/// Whether `s` writes a number between -1 and 9.
pub fn is_level(s: &str) -> (r: bool)
    ensures
        r == (level_of(s@) is Some),
{
    if s.unicode_len() > 0 && s.get_char(0) == '-' {
        let d = after_chars(s, 1);
        if d.unicode_len() > 0 && d.get_char(0) == '+' {
            assert(!is_digit(d@[0]));
            return false;
        }
        assert(unsigned_part(d@) == d@);
        match parse_decimal(d) {
            Some(n) => n <= 1,
            None => false,
        }
    } else {
        match parse_decimal(s) {
            Some(n) => n <= 9,
            None => false,
        }
    }
}

} // verus!

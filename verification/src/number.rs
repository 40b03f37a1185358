//! Writing numbers as text and reading them back.
use vstd::prelude::*;

use crate::text::{chars_of, is_ascii_digit, is_digit, string_of};

verus! {

// ── Writing ─────────────────────────────────────────────────────────────────

/// The digit for `d`, `0`..=`9` and then `a`..=`f`.
pub open spec fn digit_char(d: nat) -> char {
    if d < 10 {
        (48 + d) as char
    } else {
        (87 + d) as char
    }
}

/// The digits of `n` in the given base, without leading zeros.
pub open spec fn digits(n: nat, base: nat) -> Seq<char>
    decreases n,
{
    if base < 2 || n < base {
        seq![digit_char(n)]
    } else {
        proof {
            assert(n / base < n) by (nonlinear_arith)
                requires
                    base >= 2,
                    n >= base,
            ;
        }
        digits(n / base, base).push(digit_char(n % base))
    }
}

/// The decimal notation of `n`.
pub open spec fn decimal(n: nat) -> Seq<char> {
    digits(n, 10)
}

/// `s` with zeros in front up to the given width.
pub open spec fn zero_padded(s: Seq<char>, width: nat) -> Seq<char> {
    if s.len() < width {
        Seq::new((width - s.len()) as nat, |i: int| '0') + s
    } else {
        s
    }
}

fn digit_to_char(d: u8) -> (c: char)
    requires
        d < 16,
    ensures
        c == digit_char(d as nat),
{
    if d < 10 {
        (48 + d) as char
    } else {
        (87 + d) as char
    }
}

/// The digits of `n` in base 10 or 16, most significant first.
fn digits_of(n: u128, base: u128) -> (r: Vec<char>)
    requires
        base == 10 || base == 16,
    ensures
        r@ == digits(n as nat, base as nat),
    decreases n,
{
    if n < base {
        let mut r: Vec<char> = Vec::new();
        r.push(digit_to_char(n as u8));
        r
    } else {
        let q: u128 = n / base;
        let m: u128 = n % base;
        let mut r = digits_of(q, base);
        r.push(digit_to_char(m as u8));
        r
    }
}

/// The decimal notation of a number.
pub fn decimal_string(n: u128) -> (r: String)
    ensures
        r@ == decimal(n as nat),
{
    string_of(&digits_of(n, 10))
}

fn pad_with_zeros(v: Vec<char>, width: usize) -> (r: String)
    ensures
        r@ == zero_padded(v@, width as nat),
{
    let mut r: String = String::new();
    let mut k: usize = v.len();
    while k < width
        invariant
            v@.len() <= k,
            k <= width || k == v@.len(),
            r@ == Seq::new((k - v@.len()) as nat, |i: int| '0'),
        decreases width - k,
    {
        r.push('0');
        k += 1;
        assert(r@ =~= Seq::new((k - v@.len()) as nat, |i: int| '0'));
    }
    let ghost zeros = r@;
    for i in 0..v.len()
        invariant
            r@ == zeros + v@.take(i as int),
    {
        r.push(v[i]);
        assert(zeros + v@.take(i + 1) =~= (zeros + v@.take(i as int)).push(v@[i as int]));
    }
    assert(v@.take(v@.len() as int) =~= v@);
    assert(zeros + v@ =~= zero_padded(v@, width as nat));
    r
}

/// The lowercase hexadecimal notation of a number, at least `width` digits.
pub fn hex_string(n: u64, width: usize) -> (r: String)
    ensures
        r@ == zero_padded(digits(n as nat, 16), width as nat),
{
    pad_with_zeros(digits_of(n as u128, 16), width)
}

/// The decimal notation of a number, at least `width` digits.
pub fn padded_decimal_string(n: u64, width: usize) -> (r: String)
    ensures
        r@ == zero_padded(decimal(n as nat), width as nat),
{
    pad_with_zeros(digits_of(n as u128, 10), width)
}

/// The decimal notation of an integer, with a minus sign where it is negative.
pub open spec fn signed_decimal(n: int) -> Seq<char> {
    if n < 0 {
        seq!['-'] + decimal((-n) as nat)
    } else {
        decimal(n as nat)
    }
}

/// The decimal notation of an integer.
pub fn signed_decimal_string(n: i32) -> (r: String)
    ensures
        r@ == signed_decimal(n as int),
{
    if n < 0 {
        let m: i64 = 0i64 - n as i64;
        let mut v: Vec<char> = Vec::new();
        v.push('-');
        let mut d = digits_of(m as u128, 10);
        let ghost dv = d@;
        v.append(&mut d);
        assert(v@ =~= seq!['-'] + dv);
        string_of(&v)
    } else {
        decimal_string(n as u128)
    }
}

// ── Reading ─────────────────────────────────────────────────────────────────

/// The number that a row of decimal digits denotes.
pub open spec fn value_of(s: Seq<char>) -> nat
    decreases s.len(),
{
    if s.len() == 0 {
        0
    } else {
        value_of(s.drop_last()) * 10 + (s.last() as nat - 48) as nat
    }
}

/// `s` is a non-empty row of decimal digits.
pub open spec fn is_digit_row(s: Seq<char>) -> bool {
    s.len() > 0 && forall|i: int| 0 <= i < s.len() ==> is_ascii_digit(#[trigger] s[i])
}

/// `s` without one leading plus sign.
pub open spec fn without_plus(s: Seq<char>) -> Seq<char> {
    if s.len() > 0 && s[0] == '+' {
        s.skip(1)
    } else {
        s
    }
}

/// The number at most `max` that `s` denotes: digits, with an optional plus.
pub open spec fn parsed(s: Seq<char>, max: nat) -> Option<nat> {
    let d = without_plus(s);
    if is_digit_row(d) && value_of(d) <= max {
        Some(value_of(d))
    } else {
        None
    }
}

/// The 32-bit integer that `s` denotes: digits, with an optional sign.
pub open spec fn parsed_signed(s: Seq<char>) -> Option<int> {
    if s.len() > 0 && s[0] == '-' {
        let d = s.skip(1);
        if is_digit_row(d) && value_of(d) <= 0x8000_0000 {
            Some(-(value_of(d) as int))
        } else {
            None
        }
    } else {
        match parsed(s, i32::MAX as nat) {
            Some(n) => Some(n as int),
            None => None,
        }
    }
}

proof fn lemma_value_monotonic(s: Seq<char>, k: int)
    requires
        0 <= k <= s.len(),
        forall|i: int| 0 <= i < s.len() ==> is_ascii_digit(#[trigger] s[i]),
    ensures
        value_of(s.take(k)) <= value_of(s),
    decreases s.len(),
{
    if k == s.len() {
        assert(s.take(k) =~= s);
    } else {
        assert forall|i: int| 0 <= i < s.drop_last().len() implies is_ascii_digit(
            #[trigger] s.drop_last()[i],
        ) by {
            assert(s.drop_last()[i] == s[i]);
        }
        lemma_value_monotonic(s.drop_last(), k);
        assert(s.drop_last().take(k) =~= s.take(k));
    }
}

/// Reads the digits from `from` on; `None` if there are none, if something
/// else is among them, or if the number exceeds `max`.
fn read_digits(v: &Vec<char>, from: usize, max: u64) -> (r: Option<u64>)
    requires
        from <= v@.len(),
    ensures
        match r {
            Some(n) => is_digit_row(v@.skip(from as int)) && n == value_of(v@.skip(from as int))
                && n <= max,
            None => !(is_digit_row(v@.skip(from as int)) && value_of(v@.skip(from as int)) <= max),
        },
{
    let ghost d = v@.skip(from as int);
    if from == v.len() {
        return None;
    }
    let mut n: u64 = 0;
    for i in from..v.len()
        invariant
            from <= v@.len(),
            d == v@.skip(from as int),
            forall|j: int| 0 <= j < i - from ==> is_ascii_digit(#[trigger] d[j]),
            n == value_of(d.take(i - from)),
            n <= max,
    {
        let c = v[i];
        assert(d[i - from] == c);
        if !is_digit(c) {
            return None;
        }
        let x: u64 = (c as u32 - 48) as u64;
        proof {
            assert(d.take(i - from + 1).drop_last() =~= d.take(i - from));
            assert(value_of(d.take(i - from + 1)) == n * 10 + x);
        }
        if x > max || n > (max - x) / 10 {
            proof {
                if is_digit_row(d) {
                    lemma_value_monotonic(d, i - from + 1);
                }
            }
            return None;
        }
        n = n * 10 + x;
    }
    assert(d.take(d.len() as int) =~= d);
    Some(n)
}

/// Reads an unsigned number of at most `max`.
pub fn parse_up_to(s: &str, max: u64) -> (r: Option<u64>)
    ensures
        match r {
            Some(n) => parsed(s@, max as nat) == Some(n as nat),
            None => parsed(s@, max as nat) is None,
        },
{
    let v = chars_of(s);
    if v.len() > 0 && v[0] == '+' {
        read_digits(&v, 1, max)
    } else {
        assert(v@.skip(0) =~= v@);
        read_digits(&v, 0, max)
    }
}

/// Reads a `u64`.
pub fn parse_u64(s: &str) -> (r: Option<u64>)
    ensures
        match r {
            Some(n) => parsed(s@, u64::MAX as nat) == Some(n as nat),
            None => parsed(s@, u64::MAX as nat) is None,
        },
{
    parse_up_to(s, u64::MAX)
}

/// Reads a `u32`.
pub fn parse_u32(s: &str) -> (r: Option<u32>)
    ensures
        match r {
            Some(n) => parsed(s@, u32::MAX as nat) == Some(n as nat),
            None => parsed(s@, u32::MAX as nat) is None,
        },
{
    match parse_up_to(s, u32::MAX as u64) {
        Some(n) => Some(n as u32),
        None => None,
    }
}

/// Reads an `i32`.
pub fn parse_i32(s: &str) -> (r: Option<i32>)
    ensures
        match r {
            Some(n) => parsed_signed(s@) == Some(n as int),
            None => parsed_signed(s@) is None,
        },
{
    let v = chars_of(s);
    if v.len() > 0 && v[0] == '-' {
        match read_digits(&v, 1, 0x8000_0000) {
            Some(n) => Some((0i64 - n as i64) as i32),
            None => None,
        }
    } else {
        match parse_up_to(s, i32::MAX as u64) {
            Some(n) => Some(n as i32),
            None => None,
        }
    }
}

// ── Reading back what was written ───────────────────────────────────────────

pub proof fn lemma_decimal_digits(n: nat)
    ensures
        is_digit_row(decimal(n)),
        value_of(decimal(n)) == n,
    decreases n,
{
    if n < 10 {
        let s = decimal(n);
        assert(s.drop_last() =~= Seq::empty());
        assert(value_of(s.drop_last()) == 0);
    } else {
        lemma_decimal_digits(n / 10);
        let t = decimal(n / 10);
        let s = decimal(n);
        assert(s.drop_last() =~= t);
        assert forall|i: int| 0 <= i < s.len() implies is_ascii_digit(#[trigger] s[i]) by {
            if i < t.len() {
                assert(s[i] == t[i]);
            }
        }
    }
}

/// Reading the decimal notation of a number gives the number back.
pub proof fn parse_inverts_decimal(n: nat, max: nat)
    requires
        n <= max,
    ensures
        parsed(decimal(n), max) == Some(n),
{
    lemma_decimal_digits(n);
    assert(is_ascii_digit(decimal(n)[0]));
}

/// Different numbers have different decimal notations.
pub proof fn decimal_is_injective(a: nat, b: nat)
    requires
        decimal(a) == decimal(b),
    ensures
        a == b,
{
    lemma_decimal_digits(a);
    lemma_decimal_digits(b);
}

// ── Digits of a fixed number ────────────────────────────────────────────────

/// The digit that a character stands for.
spec fn digit_of(c: char) -> int {
    if c as int >= 97 {
        c as int - 87
    } else {
        c as int - 48
    }
}

/// The number that a row of digits stands for.
spec fn number_of(s: Seq<char>, base: nat) -> int
    decreases s.len(),
{
    if s.len() == 0 {
        0
    } else {
        number_of(s.drop_last(), base) * base + digit_of(s.last())
    }
}

proof fn lemma_number_of_digits(n: nat, base: nat)
    requires
        2 <= base <= 16,
    ensures
        number_of(digits(n, base), base) == n,
    decreases n,
{
    let s = digits(n, base);
    if n < base {
        assert(s.drop_last() =~= Seq::empty());
        assert(number_of(s.drop_last(), base) == 0);
        assert(0 * base == 0);
    } else {
        assert(n / base < n && n / base * base + n % base == n && n % base < base)
            by (nonlinear_arith)
            requires
                n >= base,
                base >= 2,
        ;
        lemma_number_of_digits(n / base, base);
        assert(s.drop_last() =~= digits(n / base, base));
    }
}

proof fn lemma_leading_zeros(s: Seq<char>, k: nat, base: nat)
    ensures
        number_of(Seq::new(k, |i: int| '0') + s, base) == number_of(s, base),
    decreases k + s.len(),
{
    let zeros = Seq::new(k, |i: int| '0');
    if s.len() > 0 {
        lemma_leading_zeros(s.drop_last(), k, base);
        assert((zeros + s).drop_last() =~= zeros + s.drop_last());
    } else if k > 0 {
        lemma_leading_zeros(s, (k - 1) as nat, base);
        let fewer = Seq::new((k - 1) as nat, |i: int| '0');
        assert((zeros + s).drop_last() =~= fewer + s);
        assert(number_of(fewer + s, base) == 0);
        assert(0 * base == 0);
    } else {
        assert(zeros + s =~= s);
    }
}

proof fn lemma_digits_len(n: nat, base: nat, k: nat)
    requires
        base >= 2,
        k >= 1,
        n < vstd::arithmetic::power::pow(base as int, k),
    ensures
        1 <= digits(n, base).len() <= k,
    decreases k,
{
    if n >= base {
        vstd::arithmetic::power::lemma_pow1(base as int);
        assert(k >= 2) by {
            if k == 1 {
                assert(vstd::arithmetic::power::pow(base as int, 1) == base);
            }
        }
        vstd::arithmetic::power::lemma_pow_adds(base as int, 1, (k - 1) as nat);
        let p = vstd::arithmetic::power::pow(base as int, (k - 1) as nat);
        assert(n / base < p) by (nonlinear_arith)
            requires
                n < base * p,
                base >= 2,
        ;
        lemma_digits_len(n / base, base, (k - 1) as nat);
    }
}

/// Different numbers have different hexadecimal digits, however they are filled
/// up with zeros.
pub proof fn hex_is_injective(a: nat, b: nat, width: nat)
    requires
        zero_padded(digits(a, 16), width) == zero_padded(digits(b, 16), width),
    ensures
        a == b,
{
    lemma_number_of_padded(a, width);
    lemma_number_of_padded(b, width);
}

/// Zeros in front do not change the number that digits stand for.
proof fn lemma_number_of_padded(n: nat, width: nat)
    ensures
        number_of(zero_padded(digits(n, 16), width), 16) == n,
{
    let s = digits(n, 16);
    lemma_number_of_digits(n, 16);
    if s.len() < width {
        let k = (width - s.len()) as nat;
        lemma_leading_zeros(s, k, 16);
        assert(zero_padded(s, width) =~= Seq::new(k, |i: int| '0') + s);
    }
}

/// Numbers below 16^width have exactly `width` hexadecimal digits when they
/// are filled up with zeros.
pub proof fn fixed_width_hex_has_its_width(a: nat, width: nat)
    requires
        width >= 1,
        a < vstd::arithmetic::power::pow(16, width),
    ensures
        zero_padded(digits(a, 16), width).len() == width,
{
    lemma_digits_len(a, 16, width);
}

/// A decimal is made of the digits of its number, the last digit last.
pub proof fn decimals_end_in_the_last_digit(n: nat, d: nat)
    requires
        d < 10,
    ensures
        n > 0 ==> decimal(10 * n + d) == decimal(n).push((48 + d) as char),
        decimal(d) == seq![(48 + d) as char],
{
    if n > 0 {
        assert((10 * n + d) / 10 == n && (10 * n + d) % 10 == d) by (nonlinear_arith)
            requires
                d < 10,
        ;
    }
}

/// A number that was written down is read back, with or without a plus sign.
pub proof fn numbers_are_read_back(n: int)
    requires
        i32::MIN <= n <= i32::MAX,
    ensures
        parsed_signed(signed_decimal(n)) == Some(n),
        n >= 0 ==> parsed_signed(seq!['+'] + signed_decimal(n)) == Some(n),
{
    if n < 0 {
        let d = decimal((-n) as nat);
        lemma_decimal_digits((-n) as nat);
        assert((seq!['-'] + d).skip(1) =~= d);
    } else {
        let d = decimal(n as nat);
        lemma_decimal_digits(n as nat);
        assert(is_ascii_digit(d[0]));
        assert((seq!['+'] + d).skip(1) =~= d);
    }
}

} // verus!

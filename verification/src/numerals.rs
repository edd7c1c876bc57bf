//! Numbers as text: decimal and hexadecimal digits, one-decimal quotients, and reading back.

use crate::text;
use vstd::prelude::*;

verus! {

/// The decimal or hexadecimal digit for a value below sixteen.
pub open spec fn digit_char(d: nat) -> char {
    if d == 0 {
        '0'
    } else if d == 1 {
        '1'
    } else if d == 2 {
        '2'
    } else if d == 3 {
        '3'
    } else if d == 4 {
        '4'
    } else if d == 5 {
        '5'
    } else if d == 6 {
        '6'
    } else if d == 7 {
        '7'
    } else if d == 8 {
        '8'
    } else if d == 9 {
        '9'
    } else if d == 10 {
        'a'
    } else if d == 11 {
        'b'
    } else if d == 12 {
        'c'
    } else if d == 13 {
        'd'
    } else if d == 14 {
        'e'
    } else {
        'f'
    }
}

fn digit(d: u64) -> (c: char)
    ensures
        c == digit_char(d as nat),
{
    match d {
        0 => '0',
        1 => '1',
        2 => '2',
        3 => '3',
        4 => '4',
        5 => '5',
        6 => '6',
        7 => '7',
        8 => '8',
        9 => '9',
        10 => 'a',
        11 => 'b',
        12 => 'c',
        13 => 'd',
        14 => 'e',
        _ => 'f',
    }
}

/// A natural number in decimal, without leading zeros.
pub open spec fn spec_decimal(n: nat) -> Seq<char>
    decreases n,
{
    if n < 10 {
        seq![digit_char(n)]
    } else {
        spec_decimal(n / 10).push(digit_char(n % 10))
    }
}

/// An integer in decimal, with a minus sign in front of a negative one.
pub open spec fn spec_signed(n: int) -> Seq<char> {
    if n < 0 {
        "-"@ + spec_decimal((-n) as nat)
    } else {
        spec_decimal(n as nat)
    }
}

/// A natural number in decimal.
pub fn decimal(n: u64) -> (r: String)
    ensures
        r@ == spec_decimal(n as nat),
    decreases n,
{
    if n < 10 {
        let mut s = String::new();
        s.push(digit(n));
        assert(s@ =~= seq![digit_char(n as nat)]);
        s
    } else {
        let mut s = decimal(n / 10);
        s.push(digit(n % 10));
        s
    }
}

/// A length or line number in decimal.
pub fn decimal_usize(n: usize) -> (r: String)
    ensures
        r@ == spec_decimal(n as nat),
{
    decimal(n as u64)
}

/// A signed integer in decimal.
pub fn signed(n: i64) -> (r: String)
    ensures
        r@ == spec_signed(n as int),
{
    if n < 0 {
        let magnitude: u64 = (-(n as i128)) as u64;
        text::owned("-").concat(decimal(magnitude).as_str())
    } else {
        decimal(n as u64)
    }
}

/// The lowest `width` hexadecimal digits of a natural number.
pub open spec fn spec_hex(n: nat, width: nat) -> Seq<char>
    decreases width,
{
    if width == 0 {
        Seq::empty()
    } else {
        spec_hex(n / 16, (width - 1) as nat).push(digit_char(n % 16))
    }
}

fn hex(n: u64, width: u64) -> (r: String)
    ensures
        r@ == spec_hex(n as nat, width as nat),
    decreases width,
{
    if width == 0 {
        String::new()
    } else {
        let mut s = hex(n / 16, width - 1);
        s.push(digit(n % 16));
        s
    }
}

/// A 64-bit value as sixteen hexadecimal digits.
pub fn hex16(n: u64) -> (r: String)
    ensures
        r@ == spec_hex(n as nat, 16),
{
    hex(n, 16)
}

/// A quotient rounded to the nearest integer, halves to the even one.
pub open spec fn round_half_even(num: nat, den: nat) -> nat {
    let q = num / den;
    let r = num % den;
    if 2 * r > den || (2 * r == den && q % 2 == 1) {
        q + 1
    } else {
        q
    }
}

fn rounded(num: u128, den: u128) -> (r: u128)
    requires
        0 < den < 0x1_0000_0000_0000_0000,
        num < 0x1000_0000_0000_0000_0000_0000,
    ensures
        r == round_half_even(num as nat, den as nat),
        r <= num / den + 1,
{
    let q: u128 = num / den;
    let rem: u128 = num % den;
    assert(q <= num) by (nonlinear_arith)
        requires
            q == num / den,
            den > 0,
    ;
    if 2 * rem > den || (2 * rem == den && q % 2 == 1) {
        q + 1
    } else {
        q
    }
}

/// A quotient in decimal with one digit after the point, halves rounded to the even digit.
pub open spec fn spec_tenths(num: nat, den: nat) -> Seq<char> {
    let t = round_half_even(10 * num, den);
    (spec_decimal(t / 10) + "."@).push(digit_char(t % 10))
}

/// A quotient in decimal with one digit after the point.
pub fn tenths(num: u128, den: u128) -> (r: String)
    requires
        0 < den < 0x1_0000_0000_0000_0000,
        num < 0x1_0000_0000_0000_1000,
        10 * num < 0x1000_0000_0000_0000 * den,
    ensures
        r@ == spec_tenths(num as nat, den as nat),
{
    let ten: u128 = 10 * num;
    let t: u128 = rounded(ten, den);
    assert(ten / den < 0x1000_0000_0000_0000) by (nonlinear_arith)
        requires
            ten < 0x1000_0000_0000_0000 * den,
            den > 0,
    ;
    let whole: u64 = (t / 10) as u64;
    let last: u64 = (t % 10) as u64;
    let mut s = decimal(whole).concat(".");
    s.push(digit(last));
    s
}

/// The weight of the lowest of the 53 leading bits of a number; one for a number that has
/// no more than 53.
pub open spec fn double_unit(n: nat) -> nat
    decreases n,
{
    if n < 0x20_0000_0000_0000 {
        1
    } else {
        2 * double_unit(n / 2)
    }
}

/// The double-precision number nearest to a natural number, ties to the even one.
pub open spec fn nearest_double(n: nat) -> nat {
    round_half_even(n, double_unit(n)) * double_unit(n)
}

fn unit_of(n: u64) -> (r: u64)
    ensures
        r == double_unit(n as nat),
        0 < r < 0x1000,
        n < 0x20_0000_0000_0000 ==> r == 1,
        n >= 0x20_0000_0000_0000 ==> r * 0x10_0000_0000_0000 <= n,
    decreases n,
{
    if n < 0x20_0000_0000_0000 {
        1
    } else {
        let half: u64 = unit_of(n / 2);
        2 * half
    }
}

/// The double-precision number nearest to a 64-bit count.
pub fn as_double(n: u64) -> (r: u128)
    ensures
        r == nearest_double(n as nat),
        r < 0x1_0000_0000_0000_1000,
{
    let unit: u64 = unit_of(n);
    let q: u128 = rounded(n as u128, unit as u128);
    assert(q * unit <= n + unit) by (nonlinear_arith)
        requires
            q <= n / unit + 1,
            unit > 0,
    ;
    q * (unit as u128)
}

/// The value of a decimal digit.
pub open spec fn digit_value(c: char) -> Option<nat> {
    if '0' <= c <= '9' {
        Some((c as u32 - '0' as u32) as nat)
    } else {
        None
    }
}

/// The number that a run of decimal digits stands for.
pub open spec fn digits_value(s: Seq<char>) -> Option<nat>
    decreases s.len(),
{
    if s.len() == 0 {
        Some(0nat)
    } else {
        match (digits_value(s.drop_last()), digit_value(s.last())) {
            (Some(high), Some(low)) => Some(10 * high + low),
            _ => None,
        }
    }
}

/// The integer that a text stands for: at least one digit, with a sign in front or without.
pub open spec fn spec_parse(s: Seq<char>) -> Option<int> {
    if s.len() == 0 {
        None
    } else if s[0] == '+' || s[0] == '-' {
        if s.len() == 1 {
            None
        } else {
            match digits_value(s.drop_first()) {
                Some(n) => Some(if s[0] == '-' {
                    -(n as int)
                } else {
                    n as int
                }),
                None => None,
            }
        }
    } else {
        match digits_value(s) {
            Some(n) => Some(n as int),
            None => None,
        }
    }
}

/// The power of ten with the given exponent.
pub open spec fn ten_to(n: nat) -> nat
    decreases n,
{
    if n == 0 {
        1
    } else {
        10 * ten_to((n - 1) as nat)
    }
}

proof fn lemma_ten_to_monotone(a: nat, b: nat)
    requires
        a <= b,
    ensures
        ten_to(a) <= ten_to(b),
    decreases b,
{
    if a < b {
        lemma_ten_to_monotone(a, (b - 1) as nat);
    }
}

fn read_digits(s: &[char], from: usize) -> (r: Option<i64>)
    requires
        from <= s@.len(),
        s@.len() - from <= 18,
    ensures
        match r {
            Some(n) => digits_value(s@.skip(from as int)) == Some(n as nat) && 0 <= n,
            None => digits_value(s@.skip(from as int)) is None,
        },
{
    let mut value: i64 = 0;
    let ghost t = s@.skip(from as int);
    let mut i: usize = from;
    assert(t.take(0) =~= Seq::empty());
    assert(ten_to(18) == 1_000_000_000_000_000_000) by {
        reveal_with_fuel(ten_to, 19);
    }
    while i < s.len()
        invariant
            t == s@.skip(from as int),
            t.len() <= 18,
            from <= i <= s@.len(),
            ten_to(18) == 1_000_000_000_000_000_000,
            0 <= value < ten_to((i - from) as nat),
            digits_value(t.take(i - from)) == Some(value as nat),
        decreases s@.len() - i,
    {
        let c = s[i];
        proof {
            let k = i - from;
            assert(t.take(k + 1).drop_last() =~= t.take(k));
            assert(t[k] == c);
            lemma_ten_to_monotone((k + 1) as nat, 18);
        }
        if !('0' <= c && c <= '9') {
            proof {
                lemma_bad_digit(t, i - from);
            }
            return None;
        }
        let d: i64 = (c as u32 - '0' as u32) as i64;
        value = 10 * value + d;
        i = i + 1;
    }
    assert(t.take(t.len() as int) =~= t);
    Some(value)
}

proof fn lemma_bad_digit(t: Seq<char>, k: int)
    requires
        0 <= k < t.len(),
        digit_value(t[k]) is None,
    ensures
        digits_value(t) is None,
    decreases t.len(),
{
    if k < t.len() - 1 {
        lemma_bad_digit(t.drop_last(), k);
    }
}

proof fn lemma_digits_bound(s: Seq<char>)
    ensures
        digits_value(s) matches Some(n) ==> n < ten_to(s.len()),
    decreases s.len(),
{
    if s.len() > 0 {
        lemma_digits_bound(s.drop_last());
    }
}

/// At most four characters stand for a number of at most four digits.
pub proof fn lemma_parse_bound(s: Seq<char>)
    requires
        s.len() <= 4,
    ensures
        spec_parse(s) matches Some(n) ==> -10_000 < n < 10_000,
{
    lemma_digits_bound(s);
    lemma_ten_to_monotone(s.len(), 4);
    if s.len() > 0 {
        lemma_digits_bound(s.drop_first());
        lemma_ten_to_monotone(s.drop_first().len(), 4);
    }
    assert(ten_to(4) == 10_000) by {
        reveal_with_fuel(ten_to, 5);
    }
}

/// The integer that a short text stands for: at least one digit, with a sign in front or
/// without.
pub fn parse(s: &[char]) -> (r: Option<i64>)
    requires
        s@.len() <= 18,
    ensures
        match r {
            Some(n) => spec_parse(s@) == Some(n as int),
            None => spec_parse(s@) is None,
        },
{
    if s.len() == 0 {
        return None;
    }
    if s[0] == '+' || s[0] == '-' {
        if s.len() == 1 {
            return None;
        }
        assert(s@.skip(1) =~= s@.drop_first());
        match read_digits(s, 1) {
            Some(n) => {
                if s[0] == '-' {
                    Some(-n)
                } else {
                    Some(n)
                }
            },
            None => None,
        }
    } else {
        assert(s@.skip(0) =~= s@);
        read_digits(s, 0)
    }
}

/// The number that a run of decimal digits stands for.
pub open spec fn value_of(digits: Seq<char>) -> int
    decreases digits.len(),
{
    if digits.len() == 0 {
        0
    } else {
        10 * value_of(digits.drop_last()) + (digits.last() as int - '0' as int)
    }
}

/// A number in decimal has digits only, stands for the number, and has no zero in front of it.
pub proof fn law_decimal(n: nat)
    ensures
        value_of(spec_decimal(n)) == n,
        spec_decimal(n).len() > 0,
        forall|i: int| 0 <= i < spec_decimal(n).len() ==> '0' <= #[trigger] spec_decimal(n)[i] <= '9',
        n > 0 ==> spec_decimal(n)[0] != '0',
    decreases n,
{
    if n < 10 {
        let s = spec_decimal(n);
        assert(s.drop_last() =~= Seq::empty());
        assert(value_of(s.drop_last()) == 0);
    } else {
        law_decimal(n / 10);
        let s = spec_decimal(n);
        assert(s.drop_last() =~= spec_decimal(n / 10));
    }
}

/// Different numbers look different in decimal.
pub proof fn law_decimals_differ(m: nat, n: nat)
    requires
        spec_decimal(m) == spec_decimal(n),
    ensures
        m == n,
{
    law_decimal(m);
    law_decimal(n);
}

/// Whether a text is made of decimal digits.
pub open spec fn all_digits(s: Seq<char>) -> bool {
    forall|i: int| 0 <= i < s.len() ==> '0' <= #[trigger] s[i] <= '9'
}

proof fn lemma_digits_value(s: Seq<char>)
    requires
        all_digits(s),
    ensures
        digits_value(s) matches Some(n) && n == value_of(s),
    decreases s.len(),
{
    if s.len() > 0 {
        let t = s.drop_last();
        assert forall|i: int| 0 <= i < t.len() implies '0' <= #[trigger] t[i] <= '9' by {
            assert(t[i] == s[i]);
        }
        lemma_digits_value(t);
        assert('0' <= s[s.len() - 1] <= '9');
    }
}

/// Digits are read as the number that they stand for, with a sign in front or without. Whatever
/// holds another character behind its first is no number.
pub proof fn law_numbers_are_read(digits: Seq<char>, s: Seq<char>)
    requires
        digits.len() > 0,
        all_digits(digits),
    ensures
        spec_parse(digits) == Some(value_of(digits)),
        spec_parse(seq!['-'] + digits) == Some(-value_of(digits)),
        spec_parse(seq!['+'] + digits) == Some(value_of(digits)),
        spec_parse(Seq::empty()) is None,
        (exists|i: int| 0 < i < s.len() && !('0' <= #[trigger] s[i] <= '9')) ==> spec_parse(
            s,
        ) is None,
{
    lemma_digits_value(digits);
    assert('0' <= digits[0] <= '9');
    assert((seq!['-'] + digits).drop_first() =~= digits);
    assert((seq!['+'] + digits).drop_first() =~= digits);
    if exists|i: int| 0 < i < s.len() && !('0' <= #[trigger] s[i] <= '9') {
        let i = choose|i: int| 0 < i < s.len() && !('0' <= #[trigger] s[i] <= '9');
        lemma_no_digit(s, i);
        assert(s.drop_first()[i - 1] == s[i]);
        lemma_no_digit(s.drop_first(), i - 1);
    }
}

proof fn lemma_no_digit(s: Seq<char>, i: int)
    requires
        0 <= i < s.len(),
        !('0' <= s[i] <= '9'),
    ensures
        digits_value(s) is None,
    decreases s.len(),
{
    if i < s.len() - 1 {
        assert(s.drop_last()[i] == s[i]);
        lemma_no_digit(s.drop_last(), i);
    }
}

/// The number that a run of hexadecimal digits stands for.
pub open spec fn hex_value(digits: Seq<char>) -> int
    decreases digits.len(),
{
    if digits.len() == 0 {
        0
    } else {
        let c = digits.last();
        16 * hex_value(digits.drop_last()) + if c <= '9' {
            c as int - '0' as int
        } else {
            c as int - 'a' as int + 10
        }
    }
}

/// The power of sixteen with the given exponent.
pub open spec fn sixteen_to(n: nat) -> nat
    decreases n,
{
    if n == 0 {
        1
    } else {
        16 * sixteen_to((n - 1) as nat)
    }
}

/// A number of sixty-four bits has sixteen hexadecimal digits.
pub proof fn lemma_sixteen_to_sixteen()
    ensures
        sixteen_to(16) == 0x1_0000_0000_0000_0000,
{
    reveal_with_fuel(sixteen_to, 17);
}

/// A number that fits in so many hexadecimal digits is shown by them, in small letters.
pub proof fn law_hexadecimal(n: nat, width: nat)
    ensures
        spec_hex(n, width).len() == width,
        forall|i: int|
            0 <= i < width ==> ('0' <= #[trigger] spec_hex(n, width)[i] <= '9' || 'a' <= spec_hex(
                n,
                width,
            )[i] <= 'f'),
        n < sixteen_to(width) ==> hex_value(spec_hex(n, width)) == n,
    decreases width,
{
    if width > 0 {
        let w = (width - 1) as nat;
        law_hexadecimal(n / 16, w);
        let s = spec_hex(n, width);
        assert(s.drop_last() =~= spec_hex(n / 16, w));
        assert forall|i: int| 0 <= i < width implies ('0' <= #[trigger] s[i] <= '9' || 'a' <= s[i]
            <= 'f') by {
            if i < w {
                assert(s[i] == spec_hex(n / 16, w)[i]);
            }
        }
    }
}

/// A quotient is rounded to an integer that is at most a half away from it, and to an even one
/// where it is exactly a half away.
pub proof fn law_rounding(num: nat, den: nat)
    requires
        den > 0,
    ensures
        2 * num <= 2 * (round_half_even(num, den) * den) + den,
        2 * (round_half_even(num, den) * den) <= 2 * num + den,
        2 * num == 2 * (round_half_even(num, den) * den) + den || 2 * (round_half_even(num, den)
            * den) == 2 * num + den ==> round_half_even(num, den) % 2 == 0,
{
    let q = num / den;
    let r = num % den;
    assert(num == q * den + r) by (nonlinear_arith)
        requires
            q == num / den,
            r == num % den,
            den > 0,
    ;
    assert((q + 1) * den == q * den + den) by (nonlinear_arith);
}

/// A negative number is shown with a minus sign before the number without it, any other without a
/// sign.
pub proof fn law_signs(n: nat)
    ensures
        spec_signed(n as int) == spec_decimal(n),
        n > 0 ==> spec_signed(-(n as int)) == "-"@ + spec_decimal(n),
{
}

/// A quotient in tenths is shown by the number of its tenths in decimal, with a point before the
/// last digit.
pub proof fn law_tenths(num: nat, den: nat)
    ensures
        ({
            let t = round_half_even(10 * num, den);
            &&& spec_tenths(num, den).len() == spec_decimal(t / 10).len() + 2
            &&& spec_tenths(num, den).take(spec_decimal(t / 10).len() as int) == spec_decimal(t / 10)
            &&& spec_tenths(num, den)[spec_decimal(t / 10).len() as int] == '.'
            &&& spec_tenths(num, den).last() as int - '0' as int == t % 10
        }),
{
    let t = round_half_even(10 * num, den);
    reveal_strlit(".");
    assert(spec_tenths(num, den).take(spec_decimal(t / 10).len() as int) =~= spec_decimal(t / 10));
}

/// Numbers below 2^53 are double-precision numbers themselves.
pub proof fn law_small_numbers_are_doubles(n: nat)
    requires
        n < 0x20_0000_0000_0000,
    ensures
        nearest_double(n) == n,
{
    assert(double_unit(n) == 1);
    assert(round_half_even(n, 1) == n);
    assert(n * 1 == n);
}

} // verus!

//! Text helpers: moving between strings and character vectors, comparing
//! text, and rendering and reading decimal numerals.

use vstd::prelude::*;

verus! {

/// The characters of a string slice, in order.
pub fn chars_of(s: &str) -> (r: Vec<char>)
    ensures
        r@ == s@,
{
    let mut out: Vec<char> = Vec::new();
    for c in it: s.chars()
        invariant
            out@ == it.seq().take(it.index() as int),
            it.seq() == s@,
    {
        out.push(c);
    }
    out
}

/// `String::push` of the standard library: the string grows by exactly the
/// given character at its end.
#[verifier::external_body]
fn push_char(s: &mut String, c: char)
    ensures
        final(s)@ == old(s)@.push(c),
{
    s.push(c);
}

/// The string made of the given characters, in order.
pub fn string_of(chars: &Vec<char>) -> (r: String)
    ensures
        r@ == chars@,
{
    let mut out = String::new();
    let mut i: usize = 0;
    while i < chars.len()
        invariant
            i <= chars.len(),
            out@ == chars@.take(i as int),
        decreases chars.len() - i,
    {
        push_char(&mut out, chars[i]);
        i += 1;
    }
    out
}

/// Appends every character of `tail` to `buf`.
pub fn push_all(buf: &mut Vec<char>, tail: &Vec<char>)
    ensures
        final(buf)@ == old(buf)@ + tail@,
{
    let mut i: usize = 0;
    while i < tail.len()
        invariant
            i <= tail.len(),
            buf@ == old(buf)@ + tail@.take(i as int),
        decreases tail.len() - i,
    {
        buf.push(tail[i]);
        i += 1;
    }
}

/// Appends every character of the string slice `tail` to `buf`.
pub fn push_str(buf: &mut Vec<char>, tail: &str)
    ensures
        final(buf)@ == old(buf)@ + tail@,
{
    let t = chars_of(tail);
    push_all(buf, &t);
}

/// Whether two character vectors hold the same text.
pub fn same_chars(a: &Vec<char>, b: &Vec<char>) -> (r: bool)
    ensures
        r == (a@ == b@),
{
    if a.len() != b.len() {
        return false;
    }
    let mut i: usize = 0;
    while i < a.len()
        invariant
            i <= a.len(),
            a.len() == b.len(),
            a@.take(i as int) == b@.take(i as int),
        decreases a.len() - i,
    {
        if a[i] != b[i] {
            return false;
        }
        assert(a@.take(i + 1) == a@.take(i as int).push(a@[i as int]));
        assert(b@.take(i + 1) == b@.take(i as int).push(b@[i as int]));
        i += 1;
    }
    assert(a@.take(a.len() as int) == a@);
    assert(b@.take(b.len() as int) == b@);
    true
}

/// Whether two string slices hold the same text.
pub fn same_text(a: &str, b: &str) -> (r: bool)
    ensures
        r == (a@ == b@),
{
    let x = chars_of(a);
    let y = chars_of(b);
    same_chars(&x, &y)
}

/// The character that writes the decimal digit `d`.
pub open spec fn digit_char(d: int) -> char {
    if d == 0 {
        '0'
    } else if d == 1 {
        '1'
    } else if d == 2 {
        '2'
    } else if d == 3 {
        '3'
    } else if d == 4 {
        '4'
    } else if d == 5 {
        '5'
    } else if d == 6 {
        '6'
    } else if d == 7 {
        '7'
    } else if d == 8 {
        '8'
    } else {
        '9'
    }
}

/// Whether `c` is one of the ten ASCII decimal digits.
pub open spec fn is_digit(c: char) -> bool {
    '0' <= c <= '9'
}

/// The value of the decimal digit `c`.
pub open spec fn digit_value(c: char) -> int {
    c as int - '0' as int
}

/// The decimal numeral of a natural number, without leading zeros.
pub open spec fn nat_digits(n: nat) -> Seq<char>
    decreases n,
{
    if n < 10 {
        seq![digit_char(n as int)]
    } else {
        nat_digits(n / 10).push(digit_char((n % 10) as int))
    }
}

/// The decimal numeral of an integer: a minus sign, where it is negative,
/// and the numeral of its magnitude.
pub open spec fn int_digits(n: int) -> Seq<char> {
    if n < 0 {
        seq!['-'] + nat_digits((-n) as nat)
    } else {
        nat_digits(n as nat)
    }
}

/// The number that a sequence of decimal digits writes; the empty sequence
/// writes zero.
pub open spec fn digits_value(s: Seq<char>) -> nat
    decreases s.len(),
{
    if s.len() == 0 {
        0
    } else {
        (digits_value(s.drop_last()) * 10 + digit_value(s.last())) as nat
    }
}

/// Whether every character of `s` is a decimal digit.
pub open spec fn all_digits(s: Seq<char>) -> bool {
    forall|i: int| 0 <= i < s.len() ==> is_digit(#[trigger] s[i])
}

/// Exec test for a decimal digit.
pub fn is_digit_char(c: char) -> (r: bool)
    ensures
        r == is_digit(c),
{
    '0' <= c && c <= '9'
}

/// The character that writes the decimal digit `d`.
fn digit_of(d: u8) -> (c: char)
    requires
        d < 10,
    ensures
        c == digit_char(d as int),
{
    if d == 0 {
        '0'
    } else if d == 1 {
        '1'
    } else if d == 2 {
        '2'
    } else if d == 3 {
        '3'
    } else if d == 4 {
        '4'
    } else if d == 5 {
        '5'
    } else if d == 6 {
        '6'
    } else if d == 7 {
        '7'
    } else if d == 8 {
        '8'
    } else {
        '9'
    }
}

/// Appends the decimal numeral of `n` to `buf`.
pub fn push_nat(buf: &mut Vec<char>, n: u128)
    ensures
        final(buf)@ == old(buf)@ + nat_digits(n as nat),
    decreases n,
{
    if n >= 10 {
        push_nat(buf, n / 10);
    }
    buf.push(digit_of((n % 10) as u8));
}

/// Appends the decimal numeral of `n` to `buf`.
pub fn push_int(buf: &mut Vec<char>, n: i128)
    requires
        n > i128::MIN,
    ensures
        final(buf)@ == old(buf)@ + int_digits(n as int),
{
    if n < 0 {
        buf.push('-');
        push_nat(buf, (-n) as u128);
        assert(buf@ == old(buf)@ + (seq!['-'] + nat_digits((-n) as nat)));
    } else {
        push_nat(buf, n as u128);
    }
}

/// The power of ten with the given exponent.
pub open spec fn pow10(p: nat) -> nat
    decreases p,
{
    if p == 0 {
        1
    } else {
        10 * pow10((p - 1) as nat)
    }
}

/// The lowest `width` decimal digits of `v`, with zeros in front where `v`
/// has fewer.
pub open spec fn padded_digits(v: nat, width: nat) -> Seq<char>
    decreases width,
{
    if width == 0 {
        Seq::empty()
    } else {
        padded_digits(v / 10, (width - 1) as nat).push(digit_char((v % 10) as int))
    }
}

/// The fraction `num / den` in units of `10^-places`, rounded to the nearest
/// unit, a half upwards. A zero denominator gives zero.
pub open spec fn scaled(num: nat, den: nat, places: nat) -> nat {
    if den == 0 {
        0
    } else {
        (2 * num * pow10(places) + den) / (2 * den)
    }
}

/// The fraction `num / den` in decimal notation with `places` digits after
/// the point, rounded to the nearest, a half away from zero; with a minus sign
/// where `num` is negative.
pub open spec fn fixed_text(num: int, den: nat, places: nat) -> Seq<char> {
    let q = scaled(magnitude(num), den, places);
    (if num < 0 {
        seq!['-']
    } else {
        Seq::empty()
    }) + nat_digits(q / pow10(places)) + seq!['.'] + padded_digits(q % pow10(places), places)
}

/// The text put to the right of as many spaces as it lacks to `width`
/// characters.
pub open spec fn right_aligned(s: Seq<char>, width: nat) -> Seq<char> {
    if s.len() < width {
        Seq::new((width - s.len()) as nat, |i: int| ' ') + s
    } else {
        s
    }
}

/// Appends `n` times the character `c` to `buf`.
pub fn push_repeated(buf: &mut Vec<char>, c: char, n: usize)
    ensures
        final(buf)@ == old(buf)@ + Seq::new(n as nat, |i: int| c),
{
    let mut i: usize = 0;
    while i < n
        invariant
            i <= n,
            buf@ == old(buf)@ + Seq::new(i as nat, |k: int| c),
        decreases n - i,
    {
        buf.push(c);
        assert(buf@ =~= old(buf)@ + Seq::new((i + 1) as nat, |k: int| c));
        i += 1;
    }
}

/// Appends the decimal numeral of `n`, right-aligned to `width` characters.
pub fn push_int_aligned(buf: &mut Vec<char>, n: i128, width: usize)
    requires
        n > i128::MIN,
    ensures
        final(buf)@ == old(buf)@ + right_aligned(int_digits(n as int), width as nat),
{
    let mut digits: Vec<char> = Vec::new();
    push_int(&mut digits, n);
    if digits.len() < width {
        push_repeated(buf, ' ', width - digits.len());
    }
    push_all(buf, &digits);
}

/// Appends the lowest `width` decimal digits of `v` to `buf`.
pub fn push_padded(buf: &mut Vec<char>, v: u128, width: u32)
    ensures
        final(buf)@ == old(buf)@ + padded_digits(v as nat, width as nat),
    decreases width,
{
    if width > 0 {
        push_padded(buf, v / 10, width - 1);
        buf.push(digit_of((v % 10) as u8));
    }
}

/// The largest number of digits after the point that can be asked for.
pub const MAX_PLACES: u32 = 9;

/// The bound on the magnitudes that the fixed-point notation takes.
pub const FIXED_LIMIT: u128 = 0x4000_0000_0000_0000_0000_0000_0000_0000;

/// Ten to the power `places`.
pub fn ten_to(places: u32) -> (r: u128)
    requires
        places <= MAX_PLACES,
    ensures
        r == pow10(places as nat),
        1 <= r <= 1_000_000_000,
    decreases places,
{
    if places == 0 {
        1
    } else {
        let r = ten_to(places - 1);
        proof {
            lemma_pow10_grows((places - 1) as nat, 8);
            lemma_pow10_grows(places as nat, 9);
            reveal_with_fuel(pow10, 10);
            assert(pow10(9) == 1_000_000_000);
        }
        r * 10
    }
}

/// A larger exponent gives a larger power of ten.
pub proof fn lemma_pow10_grows(p: nat, q: nat)
    requires
        p <= q,
    ensures
        1 <= pow10(p) <= pow10(q),
    decreases q,
{
    if p < q {
        lemma_pow10_grows(p, (q - 1) as nat);
    } else if p > 0 {
        lemma_pow10_grows((p - 1) as nat, (p - 1) as nat);
    }
}

/// The magnitude of an integer.
pub open spec fn magnitude(n: int) -> nat {
    if n < 0 {
        (-n) as nat
    } else {
        n as nat
    }
}

/// Appends the fraction `num / den` in decimal notation with `places` digits
/// after the point.
pub fn push_fixed(buf: &mut Vec<char>, num: i128, den: u128, places: u32)
    requires
        places <= MAX_PLACES,
        magnitude(num as int) * pow10(places as nat) < FIXED_LIMIT,
        den < FIXED_LIMIT,
    ensures
        final(buf)@ == old(buf)@ + fixed_text(num as int, den as nat, places as nat),
{
    let unit = ten_to(places);
    assert(magnitude(num as int) <= magnitude(num as int) * unit) by (nonlinear_arith)
        requires
            unit >= 1,
    ;
    let mag: u128 = if num < 0 {
        (-num) as u128
    } else {
        num as u128
    };
    let ghost want = fixed_text(num as int, den as nat, places as nat);
    let ghost start = buf@;
    if num < 0 {
        buf.push('-');
    }
    assert(2 * mag * unit == 2 * (mag * unit)) by (nonlinear_arith);
    let q: u128 = if den == 0 {
        0
    } else {
        (2 * mag * unit + den) / (2 * den)
    };
    push_nat(buf, q / unit);
    buf.push('.');
    push_padded(buf, q % unit, places);
    assert(buf@ == start + want);
}

/// Reads a run of decimal digits as a number, if it fits in an `i32`.
pub fn read_i32(digits: &Vec<char>) -> (r: Option<i32>)
    requires
        all_digits(digits@),
    ensures
        r is Some <==> digits_value(digits@) <= i32::MAX,
        r matches Some(v) ==> v as int == digits_value(digits@),
{
    let mut acc: i64 = 0;
    let mut i: usize = 0;
    while i < digits.len()
        invariant
            i <= digits.len(),
            all_digits(digits@),
            0 <= acc <= i32::MAX,
            acc as nat == digits_value(digits@.take(i as int)),
        decreases digits.len() - i,
    {
        let c = digits[i];
        assert(is_digit(digits@[i as int]));
        let d: i64 = (c as u32 - '0' as u32) as i64;
        let next: i64 = acc * 10 + d;
        proof {
            let t = digits@.take(i + 1);
            assert(t.drop_last() == digits@.take(i as int));
            assert(t.last() == c);
            assert(digits_value(t) == next);
            if next > i32::MAX {
                lemma_digits_value_grows(digits@, i + 1);
            }
        }
        if next > 2147483647 {
            return None;
        }
        acc = next;
        i += 1;
    }
    assert(digits@.take(digits.len() as int) == digits@);
    Some(acc as i32)
}

/// A longer run of digits writes a number that is no smaller than what any
/// of its prefixes writes.
pub proof fn lemma_digits_value_grows(s: Seq<char>, k: int)
    requires
        all_digits(s),
        0 <= k <= s.len(),
    ensures
        digits_value(s.take(k)) <= digits_value(s),
    decreases s.len() - k,
{
    if k == s.len() {
        assert(s.take(k) == s);
    } else {
        lemma_digits_value_grows(s, k + 1);
        let t = s.take(k + 1);
        assert(t.drop_last() == s.take(k));
        assert(is_digit(s[k]));
        assert(t.last() == s[k]);
    }
}

} // verus!

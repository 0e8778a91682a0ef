//! The doubles that texts spell.

use crate::big::Big;
use crate::double::Double;
use crate::float::{self, nearest_pattern, Format};
use crate::number::{self, read_number, Number};
use crate::text::{self, chars_of, to_lower};
use vstd::arithmetic::power2;
use vstd::prelude::*;

verus! {

/// The magnitude of the double nearest to a product of a number and a power of ten.
pub open spec fn nearest_magnitude(n: nat, exponent: int) -> nat {
    if exponent >= 0 {
        float::nearest(
            Format::Double,
            (n * number::pow10(exponent as nat)) * power2::pow2(1074),
            1,
        )
    } else {
        float::nearest(
            Format::Double,
            n * power2::pow2(1074),
            number::pow10((-exponent) as nat),
        )
    }
}

/// The double nearest to a spelled number.
pub open spec fn nearest_double(n: number::Spelling) -> Double {
    Double::of(
        float::signed(
            Format::Double,
            n.negative,
            nearest_magnitude(number::value_of(n.digits), n.exponent),
        ),
    )
}

/// The double that a word stands for: an infinite one, or what is not a number, in capitals or
/// small letters and with or without a sign.
pub open spec fn named_double(text: Seq<char>) -> Option<Double> {
    let negative = text.len() > 0 && text[0] == '-';
    let word = if text.len() > 0 && (text[0] == '-' || text[0] == '+') {
        text.skip(1)
    } else {
        text.skip(0)
    };
    if text::same_but_case("inf"@, word) || text::same_but_case("infinity"@, word) {
        Some(Double::of(float::signed(Format::Double, negative, Format::Double.top())))
    } else if text::same_but_case("nan"@, word) {
        Some(Double::of(Format::Double.nan() as int))
    } else {
        None
    }
}

/// The double that a text spells.
pub open spec fn double_of(text: Seq<char>) -> Option<Double> {
    match number::spelled(text) {
        Some(n) => Some(nearest_double(n)),
        None => named_double(text),
    }
}

// ---- Digits ----

proof fn lemma_power_grows(a: nat, b: nat)
    requires
        a <= b,
    ensures
        number::pow10(a) <= number::pow10(b),
        number::pow10(a) > 0,
    decreases b,
{
    number::lemma_pow10_positive(a);
    if a < b {
        lemma_power_grows(a, (b - 1) as nat);
    }
}

proof fn lemma_power_sum(a: nat, b: nat)
    ensures
        number::pow10(a) * number::pow10(b) == number::pow10(a + b),
    decreases a,
{
    if a == 0 {
        assert(1 * number::pow10(b) == number::pow10(b)) by (nonlinear_arith);
    } else {
        lemma_power_sum((a - 1) as nat, b);
        let p = number::pow10((a - 1) as nat);
        let q = number::pow10(b);
        assert((10 * p) * q == 10 * (p * q)) by (nonlinear_arith);
    }
}

/// A row of digits spells less than one followed by as many zeros.
proof fn lemma_value_below(digits: Seq<char>)
    requires
        number::all_digits(digits),
    ensures
        number::value_of(digits) < number::pow10(digits.len()),
    decreases digits.len(),
{
    if digits.len() > 0 {
        let front = digits.drop_last();
        assert forall|i: int| 0 <= i < front.len() implies number::is_digit(
            #[trigger] front[i],
        ) by {
            assert(number::is_digit(digits[i]));
        }
        assert(number::is_digit(digits[digits.len() - 1]));
        lemma_value_below(front);
    }
}

/// A row of digits that does not start with a zero spells at least one followed by as many zeros
/// as there are other digits.
proof fn lemma_value_above(digits: Seq<char>)
    requires
        number::all_digits(digits),
        digits.len() > 0,
        digits[0] != '0',
    ensures
        number::value_of(digits) >= number::pow10((digits.len() - 1) as nat),
    decreases digits.len(),
{
    let front = digits.drop_last();
    assert(number::is_digit(digits[0]));
    assert(number::is_digit(digits[digits.len() - 1]));
    if front.len() == 0 {
        assert(number::value_of(front) == 0);
        assert(number::pow10(0) == 1);
    } else {
        assert forall|i: int| 0 <= i < front.len() implies number::is_digit(
            #[trigger] front[i],
        ) by {
            assert(number::is_digit(digits[i]));
        }
        assert(front[0] == digits[0]);
        lemma_value_above(front);
    }
}

/// Zeros in front of a number do not count.
proof fn lemma_leading_zero(digits: Seq<char>)
    requires
        digits.len() > 0,
        digits[0] == '0',
    ensures
        number::value_of(digits) == number::value_of(digits.skip(1)),
    decreases digits.len(),
{
    if digits.len() == 1 {
        assert(number::value_of(digits.drop_last()) == 0);
        assert(number::value_of(digits.skip(1)) == 0);
    } else {
        lemma_leading_zero(digits.drop_last());
        assert(digits.drop_last().skip(1) =~= digits.skip(1).drop_last());
        assert(digits.skip(1).last() == digits.last());
    }
}

/// Where the significant digits of a row start.
fn first_significant(digits: &Vec<char>) -> (start: usize)
    requires
        number::all_digits(digits@),
    ensures
        start <= digits@.len(),
        number::value_of(digits@.skip(start as int)) == number::value_of(digits@),
        start < digits@.len() ==> digits@[start as int] != '0',
{
    let mut start: usize = 0;
    assert(digits@.skip(0) =~= digits@);
    while start < digits.len() && digits[start] == '0'
        invariant
            start <= digits@.len(),
            number::value_of(digits@.skip(start as int)) == number::value_of(digits@),
        decreases digits@.len() - start,
    {
        proof {
            lemma_leading_zero(digits@.skip(start as int));
            assert(digits@.skip(start as int).skip(1) =~= digits@.skip(start + 1));
        }
        start = start + 1;
    }
    start
}

/// The number that a row of digits spells.
fn big_value(digits: &Vec<char>) -> (n: Big)
    requires
        number::all_digits(digits@),
    ensures
        n@ == number::value_of(digits@),
{
    let mut n = Big::new(0);
    let mut i: usize = 0;
    assert(digits@.take(0) =~= Seq::<char>::empty());
    while i < digits.len()
        invariant
            i <= digits@.len(),
            number::all_digits(digits@),
            n@ == number::value_of(digits@.take(i as int)),
        decreases digits@.len() - i,
    {
        let c: char = digits[i];
        proof {
            assert(number::is_digit(digits@[i as int]));
            assert(digits@.take(i + 1).drop_last() =~= digits@.take(i as int));
            assert(digits@.take(i + 1).last() == c);
        }
        n = n.times_plus(10, (c as u32 - '0' as u32) as u64);
        i = i + 1;
    }
    assert(digits@.take(i as int) =~= digits@);
    n
}

/// The product of a number and a power of ten.
fn times_power_of_ten(n: &Big, exponent: u128) -> (product: Big)
    ensures
        product@ == n@ * number::pow10(exponent as nat),
{
    let mut product = n.times_plus(1, 0);
    let mut i: u128 = 0;
    assert(n@ * 1 == n@) by (nonlinear_arith);
    while i < exponent
        invariant
            i <= exponent,
            product@ == n@ * number::pow10(i as nat),
        decreases exponent - i,
    {
        proof {
            let p = number::pow10(i as nat);
            assert((n@ * p) * 10 == n@ * (10 * p)) by (nonlinear_arith);
        }
        product = product.times_plus(10, 0);
        i = i + 1;
    }
    product
}

// ---- Range ----

/// A power of ten is larger than a power of two.
proof fn lemma_power_of_ten(k: nat)
    ensures
        number::pow10(3 * k) >= power2::pow2(9 * k),
    decreases k,
{
    power2::lemma2_to64();
    if k == 0 {
        assert(number::pow10(0) == 1);
    } else {
        let j = (k - 1) as nat;
        lemma_power_of_ten(j);
        power2::lemma_pow2_adds(9, 9 * j);
        let p = number::pow10(3 * j);
        let q = power2::pow2(9 * j);
        assert(number::pow10(3 * j + 1) == 10 * p);
        assert(number::pow10(3 * j + 2) == 100 * p);
        assert(number::pow10(3 * j + 3) == 1000 * p);
        assert(3 * j + 3 == 3 * k);
        assert(9 + 9 * j == 9 * k);
        assert(1000 * p >= 512 * q);
    }
}

proof fn lemma_far_power()
    ensures
        number::pow10(400) >= power2::pow2(1076),
        power2::pow2(1076) == 4 * power2::pow2(1074),
        power2::pow2(1076) >= power2::pow2(1024),
{
    lemma_power_of_ten(133);
    lemma_power_grows(399, 400);
    power2::lemma_pow2_strictly_increases(1076, 1197);
    power2::lemma_pow2_strictly_increases(1024, 1076);
    power2::lemma2_to64();
    power2::lemma_pow2_adds(2, 1074);
}

proof fn lemma_infinity()
    ensures
        float::units(Format::Double, Format::Double.top()) == power2::pow2(1024) * power2::pow2(
            1074,
        ),
{
    power2::lemma2_to64_rest();
    power2::lemma_pow2_adds(52, 2046);
    power2::lemma_pow2_adds(1024, 1074);
}

/// A number with so many digits before the point is infinite.
proof fn lemma_large(n: nat, count: nat, exponent: int)
    requires
        count >= 1,
        n >= number::pow10((count - 1) as nat),
        count + exponent > 400,
    ensures
        nearest_magnitude(n, exponent) == Format::Double.top(),
{
    lemma_far_power();
    lemma_infinity();
    let f = Format::Double;
    let top = float::units(f, f.top());
    let scale = power2::pow2(1074);
    let bound = power2::pow2(1024);
    let order = (count - 1 + exponent) as nat;
    lemma_power_grows(400, order);
    let ten = number::pow10(order);
    if exponent >= 0 {
        let p = number::pow10(exponent as nat);
        lemma_power_sum((count - 1) as nat, exponent as nat);
        number::lemma_pow10_positive(exponent as nat);
        let low = number::pow10((count - 1) as nat);
        assert(n * p >= low * p) by (nonlinear_arith)
            requires
                n >= low,
        ;
        assert((n * p) * scale >= bound * scale) by (nonlinear_arith)
            requires
                n * p >= bound,
        ;
        lemma_infinite(f, (n * p) * scale, 1);
    } else {
        let den = number::pow10((-exponent) as nat);
        lemma_power_sum((-exponent) as nat, order);
        number::lemma_pow10_positive((-exponent) as nat);
        assert(n >= den * ten);
        assert(n * scale >= (bound * scale) * den) by (nonlinear_arith)
            requires
                n >= den * ten,
                ten >= bound,
        ;
        lemma_infinite(f, n * scale, den);
    }
}

proof fn lemma_infinite(f: Format, num: nat, den: nat)
    requires
        den > 0,
        num >= float::units(f, f.top()) * den,
    ensures
        float::nearest(f, num, den) == f.top(),
{
    let top = float::units(f, f.top());
    float::lemma_exact(f, f.top(), top * den, den);
    float::lemma_nearest_exists(f, num, den);
    assert((top * den) * den <= num * den) by (nonlinear_arith)
        requires
            num >= top * den,
    ;
    float::lemma_rounding_is_monotone(
        f,
        f.top(),
        top * den,
        den,
        float::nearest(f, num, den),
        num,
        den,
    );
}

/// A number with so many zeros behind the point is zero.
proof fn lemma_small(n: nat, count: nat, exponent: int)
    requires
        n < number::pow10(count),
        count + exponent < -400,
    ensures
        nearest_magnitude(n, exponent) == 0,
{
    lemma_far_power();
    let f = Format::Double;
    let scale = power2::pow2(1074);
    let den = number::pow10((-exponent) as nat);
    let rest = (-exponent - count) as nat;
    lemma_power_sum(count, rest);
    lemma_power_grows(400, rest);
    number::lemma_pow10_positive((-exponent) as nat);
    power2::lemma_pow2_pos(1074);
    let high = number::pow10(count);
    let ten = number::pow10(rest);
    assert(2 * (n * scale) < den) by (nonlinear_arith)
        requires
            n < high,
            den == high * ten,
            ten >= 4 * scale,
            scale > 0,
    ;
    assert(float::middle(f, 0) == 1) by {
        power2::lemma2_to64();
        assert(float::power(f, 0) == 0 && float::significant(f, 0) == 0);
    }
    assert(1 * den == den) by (nonlinear_arith);
    assert(float::is_nearest(f, 0, n * scale, den));
    float::lemma_nearest_is_unique(f, 0, n * scale, den);
}

// ---- Reading ----

proof fn lemma_skip_digits(digits: Seq<char>, start: int)
    requires
        number::all_digits(digits),
        0 <= start <= digits.len(),
    ensures
        number::all_digits(digits.skip(start)),
{
    let rest = digits.skip(start);
    assert forall|i: int| 0 <= i < rest.len() implies number::is_digit(#[trigger] rest[i]) by {
        assert(number::is_digit(digits[start + i]));
    }
}

/// The magnitude of the double nearest to a spelled number.
fn magnitude_of(n: &Number, Ghost(spelling): Ghost<number::Spelling>) -> (p: u64)
    requires
        number::is_spelled(*n, spelling),
    ensures
        p == nearest_magnitude(number::value_of(spelling.digits), spelling.exponent),
        p <= Format::Double.top(),
{
    let start: usize = first_significant(&n.digits);
    let count: usize = n.digits.len() - start;
    let ghost value = number::value_of(n.digits@);
    let ghost rest = n.digits@.skip(start as int);
    proof {
        lemma_skip_digits(n.digits@, start as int);
        lemma_value_below(rest);
    }
    if count == 0 {
        proof {
            assert(value == 0);
            assert(0 * number::pow10(spelling.exponent as nat) == 0) by (nonlinear_arith);
            assert(0 * power2::pow2(1074) == 0) by (nonlinear_arith);
            number::lemma_pow10_positive((-spelling.exponent) as nat);
            float::lemma_zero_is_nearest(Format::Double, 1);
            float::lemma_zero_is_nearest(
                Format::Double,
                number::pow10((-spelling.exponent) as nat),
            );
        }
        return 0;
    }
    proof {
        lemma_value_above(rest);
    }
    let order: i128 = count as i128 + n.exponent;
    if order > 400 {
        proof {
            lemma_large(value, count as nat, spelling.exponent);
        }
        return 0x7ff0_0000_0000_0000;
    }
    if order < -400 {
        proof {
            lemma_small(value, count as nat, spelling.exponent);
        }
        return 0;
    }
    assert(n.exponent == spelling.exponent);
    let whole = big_value(&n.digits);
    if n.exponent >= 0 {
        let num = times_power_of_ten(&whole, n.exponent as u128).shifted(1074);
        nearest_pattern(Format::Double, &num, &Big::new(1))
    } else {
        let den = times_power_of_ten(&Big::new(1), (-n.exponent) as u128);
        proof {
            let ten = number::pow10((-n.exponent) as nat);
            assert(1 * ten == ten) by (nonlinear_arith);
            number::lemma_pow10_positive((-n.exponent) as nat);
        }
        nearest_pattern(Format::Double, &whole.shifted(1074), &den)
    }
}

/// Whether a text is a word from a position on, in capitals or small letters.
fn is_word(text: &[char], from: usize, word: &str) -> (same: bool)
    requires
        from <= text@.len(),
    ensures
        same == text::same_but_case(word@, text@.skip(from as int)),
{
    let letters = chars_of(word);
    let n: usize = text.len();
    let ghost rest = text@.skip(from as int);
    if letters.len() != n - from {
        return false;
    }
    let mut i: usize = 0;
    while i < letters.len()
        invariant
            i <= letters@.len(),
            letters@ == word@,
            letters@.len() == text@.len() - from,
            from <= n,
            n == text@.len(),
            rest == text@.skip(from as int),
            forall|k: int|
                0 <= k < i ==> text::lower(#[trigger] word@[k]) == text::lower(rest[k]),
        decreases letters@.len() - i,
    {
        assert(rest[i as int] == text@[from + i]);
        if to_lower(letters[i]) != to_lower(text[from + i]) {
            assert(text::lower(word@[i as int]) != text::lower(rest[i as int]));
            return false;
        }
        i = i + 1;
    }
    true
}

/// Reads the double that a word stands for.
fn read_name(text: &[char]) -> (value: Option<Double>)
    ensures
        value == named_double(text@),
{
    let negative: bool = text.len() > 0 && text[0] == '-';
    let start: usize = if text.len() > 0 && (text[0] == '-' || text[0] == '+') {
        1
    } else {
        0
    };
    if is_word(text, start, "inf") || is_word(text, start, "infinity") {
        if negative {
            Some(Double { bits: 0xfff0_0000_0000_0000 })
        } else {
            Some(Double { bits: 0x7ff0_0000_0000_0000 })
        }
    } else if is_word(text, start, "nan") {
        Some(Double { bits: 0x7ff8_0000_0000_0000 })
    } else {
        None
    }
}

/// Reads the double that a text spells.
pub fn read_double(text: &[char]) -> (value: Option<Double>)
    ensures
        value == double_of(text@),
{
    match read_number(text) {
        Some(n) => {
            let ghost spelling = number::spelled(text@)->0;
            let p: u64 = magnitude_of(&n, Ghost(spelling));
            let bits: u64 = if n.negative {
                p + 0x8000_0000_0000_0000
            } else {
                p
            };
            Some(Double { bits })
        },
        None => read_name(text),
    }
}

/// A row of digits is read as the double that is nearest to the number that they spell.
pub proof fn law_whole_numbers_are_read(digits: Seq<char>)
    requires
        number::all_digits(digits),
        digits.len() > 0,
    ensures
        double_of(digits) == Some(Double::counted(number::value_of(digits))),
{
    let none = Seq::<char>::empty();
    assert(number::all_digits(none));
    assert(number::all_digits(seq!['0']));
    number::law_spelled_numbers(false, digits, none, false, seq!['0']);
    assert(number::sign_text(false) + digits =~= digits);
    let n = number::value_of(digits);
    assert(number::pow10(0) == 1);
    assert(n * 1 == n) by (nonlinear_arith);
    assert(nearest_magnitude(n, 0) == float::nearest(Format::Double, n * power2::pow2(1074), 1));
}

} // verus!

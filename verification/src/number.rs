//! Numbers that texts spell.

use crate::bounds;
use vstd::prelude::*;

verus! {

/// Whether a character is a decimal digit.
pub open spec fn is_digit(c: char) -> bool {
    '0' <= c <= '9'
}

/// The value of a decimal digit.
pub open spec fn digit_value(c: char) -> int {
    (c as u32) - ('0' as u32)
}

/// The number that a row of decimal digits spells.
pub open spec fn value_of(digits: Seq<char>) -> nat
    decreases digits.len(),
{
    if digits.len() == 0 {
        0
    } else {
        10 * value_of(digits.drop_last()) + digit_value(digits.last()) as nat
    }
}

/// A power of ten.
pub open spec fn pow10(k: nat) -> nat
    decreases k,
{
    if k == 0 {
        1
    } else {
        10 * pow10((k - 1) as nat)
    }
}

/// Whether all characters are decimal digits.
pub open spec fn all_digits(text: Seq<char>) -> bool {
    forall|i: int| 0 <= i < text.len() ==> is_digit(#[trigger] text[i])
}

/// The end of the row of digits that starts at position `from`.
pub open spec fn digits_end(text: Seq<char>, from: int) -> int
    decreases text.len() - from,
{
    if 0 <= from < text.len() && is_digit(text[from]) {
        digits_end(text, from + 1)
    } else {
        from
    }
}

/// A number as it is spelled: its digits, without the point, and the power of ten that they count.
pub struct Spelling {
    pub negative: bool,
    pub digits: Seq<char>,
    pub exponent: int,
}

/// The number that a text spells: a sign, digits with or without a point among them, and a power
/// of ten after the letter `e`; only the digits have to be there.
pub open spec fn spelled(text: Seq<char>) -> Option<Spelling> {
    let n = text.len() as int;
    let signed = n > 0 && (text[0] == '-' || text[0] == '+');
    let negative = signed && text[0] == '-';
    let start: int = if signed { 1 } else { 0 };
    let whole_end = digits_end(text, start);
    let part_start = if whole_end < n && text[whole_end] == '.' { whole_end + 1 } else { whole_end };
    let part_end = if part_start > whole_end { digits_end(text, part_start) } else { part_start };
    let digits = text.subrange(start, whole_end) + text.subrange(part_start, part_end);
    if digits.len() == 0 {
        None
    } else if part_end == n {
        Some(Spelling { negative, digits, exponent: part_start - part_end })
    } else if text[part_end] == 'e' || text[part_end] == 'E' {
        let down = part_end + 1 < n && text[part_end + 1] == '-';
        let up = part_end + 1 < n && text[part_end + 1] == '+';
        let power_start = if down || up { part_end + 2 } else { part_end + 1 };
        if power_start < n && digits_end(text, power_start) == n {
            let power = value_of(text.subrange(power_start, n)) as int;
            Some(
                Spelling {
                    negative,
                    digits,
                    exponent: (if down { -power } else { power }) + part_start - part_end,
                },
            )
        } else {
            None
        }
    } else {
        None
    }
}

/// A spelled number.
pub struct Number {
    pub negative: bool,
    pub digits: Vec<char>,
    pub exponent: i128,
}

/// Powers of ten that no text is long enough to make up for.
pub const FAR: i128 = 0x1_0000_0000_0000_0000_0000;

/// Whether a number is spelled like this. A power of ten that is far away may be another one on
/// the same side.
pub open spec fn is_spelled(number: Number, spelling: Spelling) -> bool {
    &&& number.negative == spelling.negative
    &&& number.digits@ == spelling.digits
    &&& all_digits(number.digits@)
    &&& -0x4_0000_0000_0000_0000_0000 <= number.exponent <= 0x4_0000_0000_0000_0000_0000
    &&& {
        ||| number.exponent == spelling.exponent
        ||| number.exponent >= FAR && spelling.exponent >= FAR
        ||| number.exponent <= -FAR && spelling.exponent <= -FAR
    }
}

fn end_of_digits(text: &[char], from: usize) -> (end: usize)
    requires
        from <= text@.len(),
    ensures
        end == digits_end(text@, from as int),
        from <= end <= text@.len(),
        all_digits(text@.subrange(from as int, end as int)),
{
    let mut end: usize = from;
    while end < text.len() && '0' <= text[end] && text[end] <= '9'
        invariant
            from <= end <= text@.len(),
            digits_end(text@, from as int) == digits_end(text@, end as int),
            forall|i: int| from <= i < end ==> is_digit(#[trigger] text@[i]),
        decreases text@.len() - end,
    {
        end = end + 1;
    }
    end
}

/// The value of a row of digits, or `limit` where it is larger.
fn value_up_to(digits: &[char], limit: u128) -> (value: u128)
    requires
        all_digits(digits@),
        limit <= 0x10_0000_0000_0000_0000_0000_0000,
    ensures
        value == bounds::smaller(value_of(digits@) as int, limit as int),
{
    let mut value: u128 = 0;
    let mut i: usize = 0;
    assert(digits@.take(0) =~= Seq::<char>::empty());
    while i < digits.len()
        invariant
            i <= digits@.len(),
            all_digits(digits@),
            limit <= 0x10_0000_0000_0000_0000_0000_0000,
            value == bounds::smaller(value_of(digits@.take(i as int)) as int, limit as int),
        decreases digits@.len() - i,
    {
        let c: char = digits[i];
        let d: u128 = (c as u32 - '0' as u32) as u128;
        proof {
            assert(is_digit(digits@[i as int]));
            assert(digits@.take(i + 1).drop_last() =~= digits@.take(i as int));
            assert(digits@.take(i + 1).last() == c);
        }
        let next: u128 = value * 10 + d;
        value = if next >= limit {
            limit
        } else {
            next
        };
        i = i + 1;
    }
    assert(digits@.take(i as int) =~= digits@);
    value
}

pub proof fn lemma_pow10_positive(k: nat)
    ensures
        pow10(k) > 0,
    decreases k,
{
    if k > 0 {
        lemma_pow10_positive((k - 1) as nat);
    }
}

/// The characters from one position up to another.
fn part(text: &[char], from: usize, to: usize, into: &mut Vec<char>)
    requires
        from <= to <= text@.len(),
    ensures
        final(into)@ == old(into)@ + text@.subrange(from as int, to as int),
{
    let mut i: usize = from;
    assert(into@ =~= old(into)@ + text@.subrange(from as int, from as int));
    while i < to
        invariant
            from <= i <= to <= text@.len(),
            into@ == old(into)@ + text@.subrange(from as int, i as int),
        decreases to - i,
    {
        into.push(text[i]);
        assert(into@ =~= old(into)@ + text@.subrange(from as int, i + 1));
        i = i + 1;
    }
}

/// Reads the number that a text spells.
#[verifier::rlimit(40)]
pub fn read_number(text: &[char]) -> (number: Option<Number>)
    ensures
        number is Some <==> spelled(text@) is Some,
        number matches Some(n) ==> is_spelled(n, spelled(text@)->0),
{
    let n: usize = text.len();
    let signed: bool = n > 0 && (text[0] == '-' || text[0] == '+');
    let negative: bool = signed && text[0] == '-';
    let start: usize = if signed {
        1
    } else {
        0
    };
    let whole_end: usize = end_of_digits(text, start);
    let part_start: usize = if whole_end < n && text[whole_end] == '.' {
        whole_end + 1
    } else {
        whole_end
    };
    let part_end: usize = if part_start > whole_end {
        end_of_digits(text, part_start)
    } else {
        part_start
    };
    let mut digits: Vec<char> = Vec::new();
    part(text, start, whole_end, &mut digits);
    part(text, part_start, part_end, &mut digits);
    proof {
        assert(digits@ =~= text@.subrange(start as int, whole_end as int) + text@.subrange(
            part_start as int,
            part_end as int,
        ));
        let whole = text@.subrange(start as int, whole_end as int);
        let rest = text@.subrange(part_start as int, part_end as int);
        assert forall|i: int| 0 <= i < digits@.len() implies is_digit(#[trigger] digits@[i]) by {
            if i < whole.len() {
                assert(digits@[i] == whole[i]);
            } else {
                assert(digits@[i] == rest[i - whole.len()]);
            }
        }
    }
    if digits.len() == 0 {
        return None;
    }
    let places: i128 = part_start as i128 - part_end as i128;
    if part_end == n {
        return Some(Number { negative, digits, exponent: places });
    }
    if text[part_end] != 'e' && text[part_end] != 'E' {
        return None;
    }
    let down: bool = part_end + 1 < n && text[part_end + 1] == '-';
    let up: bool = part_end + 1 < n && text[part_end + 1] == '+';
    let power_start: usize = if down || up {
        part_end + 2
    } else {
        part_end + 1
    };
    if power_start >= n || end_of_digits(text, power_start) != n {
        return None;
    }
    let mut power_digits: Vec<char> = Vec::new();
    part(text, power_start, n, &mut power_digits);
    assert(power_digits@ =~= text@.subrange(power_start as int, n as int));
    let power: i128 = value_up_to(power_digits.as_slice(), 0x2_0000_0000_0000_0000_0000) as i128;
    let exponent: i128 = if down {
        places - power
    } else {
        places + power
    };
    Some(Number { negative, digits, exponent })
}

/// The unsigned 64-bit number that a text spells: digits, with or without a plus sign before
/// them, for a number that is not too large.
pub open spec fn unsigned(text: Seq<char>) -> Option<nat> {
    let digits = if text.len() > 0 && text[0] == '+' { text.skip(1) } else { text };
    if digits.len() > 0 && all_digits(digits) && value_of(digits) <= u64::MAX {
        Some(value_of(digits))
    } else {
        None
    }
}

proof fn lemma_value_grows(digits: Seq<char>, n: int)
    requires
        all_digits(digits),
        0 <= n <= digits.len(),
    ensures
        value_of(digits.take(n)) <= value_of(digits),
    decreases digits.len(),
{
    if n == digits.len() {
        assert(digits.take(n) =~= digits);
    } else {
        let front = digits.drop_last();
        assert forall|i: int| 0 <= i < front.len() implies is_digit(#[trigger] front[i]) by {
            assert(is_digit(digits[i]));
        }
        assert(is_digit(digits[digits.len() - 1]));
        lemma_value_grows(front, n);
        assert(front.take(n) =~= digits.take(n));
    }
}

/// Reads the unsigned 64-bit number that a text spells.
pub fn read_unsigned(text: &[char]) -> (value: Option<u64>)
    ensures
        value is Some <==> unsigned(text@) is Some,
        value matches Some(v) ==> unsigned(text@) == Some(v as nat),
{
    let start: usize = if text.len() > 0 && text[0] == '+' {
        1
    } else {
        0
    };
    let ghost digits = if text@.len() > 0 && text@[0] == '+' { text@.skip(1) } else { text@ };
    assert(text@.skip(0) =~= text@);
    assert(digits == text@.skip(start as int));
    if start == text.len() {
        return None;
    }
    let mut value: u64 = 0;
    let mut i: usize = start;
    assert(digits.take(0) =~= Seq::<char>::empty());
    while i < text.len()
        invariant
            start <= i <= text@.len(),
            digits == text@.skip(start as int),
            digits == (if text@.len() > 0 && text@[0] == '+' { text@.skip(1) } else { text@ }),
            value == value_of(digits.take(i - start)),
            forall|k: int| 0 <= k < i - start ==> is_digit(#[trigger] digits[k]),
        decreases text@.len() - i,
    {
        let c: char = text[i];
        assert(digits[i - start] == c);
        if c < '0' || c > '9' {
            assert(!is_digit(digits[i - start]));
            return None;
        }
        let d: u64 = (c as u32 - '0' as u32) as u64;
        proof {
            assert(digits.take(i - start + 1).drop_last() =~= digits.take(i - start));
            assert(digits.take(i - start + 1).last() == c);
        }
        let next: u128 = value as u128 * 10 + d as u128;
        if next > 0xffff_ffff_ffff_ffff {
            proof {
                if all_digits(digits) {
                    lemma_value_grows(digits, i - start + 1);
                }
            }
            return None;
        }
        value = next as u64;
        i = i + 1;
    }
    assert(digits.take(i - start) =~= digits);
    Some(value)
}

// ---- Laws ----

proof fn lemma_digits_end(text: Seq<char>, from: int, end: int)
    requires
        0 <= from <= end <= text.len(),
        forall|i: int| from <= i < end ==> is_digit(#[trigger] text[i]),
        end == text.len() || !is_digit(text[end]),
    ensures
        digits_end(text, from) == end,
    decreases end - from,
{
    if from < end {
        lemma_digits_end(text, from + 1, end);
    }
}

/// The signs that a number may have.
pub open spec fn sign_text(negative: bool) -> Seq<char> {
    if negative {
        seq!['-']
    } else {
        Seq::empty()
    }
}

/// Digits, a point, digits, the letter e and digits again spell a number: its digits are those
/// before and behind the point; the power of ten is what stands behind the letter, less the number
/// of digits behind the point. A minus sign makes the number, or the power, negative.
pub proof fn law_spelled_numbers(
    negative: bool,
    whole: Seq<char>,
    part: Seq<char>,
    down: bool,
    power: Seq<char>,
)
    requires
        all_digits(whole),
        all_digits(part),
        all_digits(power),
        whole.len() + part.len() > 0,
        power.len() > 0,
    ensures
        spelled(
            sign_text(negative) + whole + seq!['.'] + part + seq!['e'] + sign_text(down) + power,
        ) == Some(
            Spelling {
                negative,
                digits: whole + part,
                exponent: (if down { -(value_of(power) as int) } else { value_of(power) as int })
                    - part.len(),
            },
        ),
        spelled(sign_text(negative) + whole + seq!['.'] + part) == Some(
            Spelling { negative, digits: whole + part, exponent: -(part.len() as int) },
        ),
        whole.len() > 0 ==> spelled(sign_text(negative) + whole) == Some(
            Spelling { negative, digits: whole, exponent: 0 },
        ),
{
    let sign = sign_text(negative);
    let start = sign.len() as int;
    let point = start + whole.len();
    let letter = point + 1 + part.len();
    let long = sign + whole + seq!['.'] + part + seq!['e'] + sign_text(down) + power;
    let short = sign + whole + seq!['.'] + part;
    let plain = sign + whole;
    // The sign.
    assert(long.len() > 0 && short.len() > 0);
    if negative {
        assert(long[0] == '-' && short[0] == '-' && plain[0] == '-');
    } else {
        if whole.len() > 0 {
            assert(long[0] == whole[0] && short[0] == whole[0] && plain[0] == whole[0]);
            assert(is_digit(whole[0]));
        } else {
            assert(long[0] == '.' && short[0] == '.');
        }
    }
    // Before the point.
    assert forall|i: int| start <= i < point implies is_digit(#[trigger] long[i]) && is_digit(
        short[i],
    ) && is_digit(plain[i]) by {
        assert(long[i] == whole[i - start] && short[i] == whole[i - start] && plain[i]
            == whole[i - start]);
    }
    assert forall|i: int| start <= i < point implies is_digit(#[trigger] short[i]) by {
        assert(is_digit(long[i]));
    }
    assert forall|i: int| start <= i < point implies is_digit(#[trigger] plain[i]) by {
        assert(is_digit(long[i]));
    }
    assert(long[point] == '.' && short[point] == '.');
    lemma_digits_end(long, start, point);
    lemma_digits_end(short, start, point);
    lemma_digits_end(plain, start, point);
    assert(plain.subrange(start, point) =~= whole);
    assert(plain.subrange(start, point) + plain.subrange(point, point) =~= whole);
    // Behind it.
    assert forall|i: int| point + 1 <= i < letter implies is_digit(#[trigger] long[i]) by {
        assert(long[i] == part[i - point - 1]);
    }
    assert forall|i: int| point + 1 <= i < letter implies is_digit(#[trigger] short[i]) by {
        assert(short[i] == part[i - point - 1]);
    }
    assert(long[letter] == 'e');
    lemma_digits_end(long, point + 1, letter);
    lemma_digits_end(short, point + 1, letter);
    assert(long.subrange(start, point) + long.subrange(point + 1, letter) =~= whole + part);
    assert(short.subrange(start, point) + short.subrange(point + 1, letter) =~= whole + part);
    // The power.
    let from = letter + 1 + sign_text(down).len();
    assert forall|i: int| from <= i < long.len() implies is_digit(#[trigger] long[i]) by {
        assert(long[i] == power[i - from]);
    }
    if down {
        assert(long[letter + 1] == '-');
    } else {
        assert(long[letter + 1] == power[0]);
        assert(is_digit(power[0]));
    }
    lemma_digits_end(long, from, long.len() as int);
    assert(long.subrange(from, long.len() as int) =~= power);
}

} // verus!

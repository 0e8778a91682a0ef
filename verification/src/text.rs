//! Text: characters, decimal numerals, and the numbers that texts spell.

use crate::big::Big;
use vstd::prelude::*;

verus! {

// ---- Characters ----

/// The characters of a text.
pub fn chars_of(text: &str) -> (chars: Vec<char>)
    ensures
        chars@ == text@,
{
    let mut chars: Vec<char> = Vec::new();
    for c in it: text.chars()
        invariant
            chars@ == it.seq().take(it.index()),
            it.seq() == text@,
    {
        chars.push(c);
    }
    assert(chars@ =~= text@);
    chars
}

/// An ASCII capital as the small letter, any other character as it is.
pub open spec fn lower(c: char) -> char {
    if 'A' <= c <= 'Z' {
        ((c as u32) + 32) as char
    } else {
        c
    }
}

/// An ASCII capital as the small letter, any other character as it is.
pub fn to_lower(c: char) -> (small: char)
    ensures
        small == lower(c),
{
    if 'A' <= c && c <= 'Z' {
        let code: u8 = (c as u32 + 32) as u8;
        code as char
    } else {
        c
    }
}

/// Whether two texts are the same.
pub fn equal(a: &str, b: &str) -> (same: bool)
    ensures
        same == (a@ == b@),
{
    let x = chars_of(a);
    let y = chars_of(b);
    if x.len() != y.len() {
        return false;
    }
    let mut i: usize = 0;
    while i < x.len()
        invariant
            i <= x@.len(),
            x@.len() == y@.len(),
            x@ == a@,
            y@ == b@,
            forall|k: int| 0 <= k < i ==> x@[k] == y@[k],
        decreases x@.len() - i,
    {
        if x[i] != y[i] {
            return false;
        }
        i = i + 1;
    }
    assert(a@ =~= b@);
    true
}

/// Whether two texts are the same but for the case of ASCII letters.
pub open spec fn same_but_case(a: Seq<char>, b: Seq<char>) -> bool {
    &&& a.len() == b.len()
    &&& forall|i: int| 0 <= i < a.len() ==> lower(#[trigger] a[i]) == lower(b[i])
}

/// Whether two texts are the same but for the case of ASCII letters.
pub fn equal_ignoring_case(a: &str, b: &str) -> (equal: bool)
    ensures
        equal == same_but_case(a@, b@),
{
    let x = chars_of(a);
    let y = chars_of(b);
    if x.len() != y.len() {
        return false;
    }
    let mut i: usize = 0;
    while i < x.len()
        invariant
            i <= x@.len(),
            x@ == a@,
            y@ == b@,
            x@.len() == y@.len(),
            forall|k: int| 0 <= k < i ==> lower(#[trigger] a@[k]) == lower(b@[k]),
        decreases x@.len() - i,
    {
        if to_lower(x[i]) != to_lower(y[i]) {
            assert(lower(a@[i as int]) != lower(b@[i as int]));
            return false;
        }
        i = i + 1;
    }
    true
}

/// Whether `needle` stands in `text` at position `i`, whatever the case of the text's letters.
pub open spec fn occurs_at(text: Seq<char>, needle: Seq<char>, i: int) -> bool {
    &&& 0 <= i <= text.len() - needle.len()
    &&& forall|j: int| 0 <= j < needle.len() ==> lower(text[i + j]) == #[trigger] needle[j]
}

/// Whether `needle` stands anywhere in `text`, whatever the case of the text's letters.
pub open spec fn occurs(text: Seq<char>, needle: Seq<char>) -> bool {
    exists|i: int| #[trigger] occurs_at(text, needle, i)
}

/// Whether `needle` stands anywhere in `text`, whatever the case of the text's letters.
pub fn contains_ignoring_case(text: &str, needle: &str) -> (found: bool)
    ensures
        found == occurs(text@, needle@),
{
    let t = chars_of(text);
    let n = chars_of(needle);
    if n.len() > t.len() {
        assert forall|i: int| !#[trigger] occurs_at(text@, needle@, i) by {}
        return false;
    }
    let mut i: usize = 0;
    while i <= t.len() - n.len()
        invariant
            n@.len() <= t@.len(),
            i <= t@.len() - n@.len() + 1,
            t@ == text@,
            n@ == needle@,
            forall|k: int| k < i ==> !#[trigger] occurs_at(text@, needle@, k),
        decreases t@.len() - n@.len() + 1 - i,
    {
        let mut j: usize = 0;
        let mut same: bool = true;
        let length: usize = t.len();
        while same && j < n.len()
            invariant
                length == t@.len(),
                n@.len() <= t@.len(),
                i <= t@.len() - n@.len(),
                j <= n@.len(),
                t@ == text@,
                n@ == needle@,
                same ==> forall|k: int| 0 <= k < j ==> lower(text@[i + k]) == #[trigger] needle@[k],
                !same ==> !occurs_at(text@, needle@, i as int),
            decreases n@.len() - j + if same { 1int } else { 0int },
        {
            if to_lower(t[i + j]) != n[j] {
                same = false;
                assert(lower(text@[i + j]) != needle@[j as int]);
            } else {
                j = j + 1;
            }
        }
        if same {
            assert(occurs_at(text@, needle@, i as int));
            return true;
        }
        i = i + 1;
    }
    false
}

/// The pieces of a text between the occurrences of a separator.
pub open spec fn split(text: Seq<char>, separator: char) -> Seq<Seq<char>>
    decreases text.len(),
{
    if text.len() == 0 {
        seq![Seq::empty()]
    } else {
        let before = split(text.drop_last(), separator);
        if text.last() == separator {
            before.push(Seq::empty())
        } else {
            before.drop_last().push(before.last().push(text.last()))
        }
    }
}

/// The contents of a list of texts.
pub open spec fn pieces(texts: Seq<Vec<char>>) -> Seq<Seq<char>> {
    texts.map_values(|t: Vec<char>| t@)
}

/// The pieces of a text between the occurrences of a separator.
pub fn split_chars(text: &[char], separator: char) -> (parts: Vec<Vec<char>>)
    ensures
        pieces(parts@) == split(text@, separator),
        parts@.len() > 0,
{
    let mut parts: Vec<Vec<char>> = Vec::new();
    let mut current: Vec<char> = Vec::new();
    let mut i: usize = 0;
    assert(text@.take(0) =~= Seq::<char>::empty());
    assert(pieces(parts@).push(current@) =~= split(text@.take(0), separator));
    while i < text.len()
        invariant
            i <= text@.len(),
            pieces(parts@).push(current@) == split(text@.take(i as int), separator),
        decreases text@.len() - i,
    {
        let ghost before = split(text@.take(i as int), separator);
        let ghost done = pieces(parts@);
        let ghost open = current@;
        proof {
            assert(text@.take(i + 1).drop_last() =~= text@.take(i as int));
            assert(text@.take(i + 1).last() == text@[i as int]);
            assert(before.last() == open);
            assert(before.drop_last() =~= done);
        }
        if text[i] == separator {
            parts.push(current);
            current = Vec::new();
            assert(pieces(parts@) =~= done.push(open));
            assert(current@ =~= Seq::<char>::empty());
        } else {
            current.push(text[i]);
        }
        i = i + 1;
    }
    assert(text@.take(i as int) =~= text@);
    let ghost done = pieces(parts@);
    let ghost open = current@;
    parts.push(current);
    assert(pieces(parts@) =~= done.push(open));
    parts
}

/// Whether a character is white space, as Unicode's property White_Space has it.
pub open spec fn is_space(c: char) -> bool {
    ||| '\u{9}' <= c <= '\u{d}'
    ||| c == ' '
    ||| c == '\u{85}'
    ||| c == '\u{a0}'
    ||| c == '\u{1680}'
    ||| '\u{2000}' <= c <= '\u{200a}'
    ||| c == '\u{2028}'
    ||| c == '\u{2029}'
    ||| c == '\u{202f}'
    ||| c == '\u{205f}'
    ||| c == '\u{3000}'
}

fn space(c: char) -> (white: bool)
    ensures
        white == is_space(c),
{
    ('\u{9}' <= c && c <= '\u{d}') || c == ' ' || c == '\u{85}' || c == '\u{a0}' || c == '\u{1680}'
        || ('\u{2000}' <= c && c <= '\u{200a}') || c == '\u{2028}' || c == '\u{2029}' || c
        == '\u{202f}' || c == '\u{205f}' || c == '\u{3000}'
}

/// A text without the white space at its end.
pub open spec fn trim_end(text: Seq<char>) -> Seq<char>
    decreases text.len(),
{
    if text.len() > 0 && is_space(text.last()) {
        trim_end(text.drop_last())
    } else {
        text
    }
}

/// A text without the white space at its start.
pub open spec fn trim_start(text: Seq<char>) -> Seq<char>
    decreases text.len(),
{
    if text.len() > 0 && is_space(text[0]) {
        trim_start(text.skip(1))
    } else {
        text
    }
}

/// A text without the white space at its ends.
pub open spec fn trim(text: Seq<char>) -> Seq<char> {
    trim_end(trim_start(text))
}

/// A text without the white space at its ends.
pub fn trim_chars(text: &[char]) -> (trimmed: Vec<char>)
    ensures
        trimmed@ == trim(text@),
{
    let mut start: usize = 0;
    assert(text@.skip(0) =~= text@);
    while start < text.len() && space(text[start])
        invariant
            start <= text@.len(),
            trim_start(text@.skip(start as int)) == trim_start(text@),
        decreases text@.len() - start,
    {
        assert(text@.skip(start as int).skip(1) =~= text@.skip(start + 1));
        start = start + 1;
    }
    let ghost rest = text@.skip(start as int);
    assert(trim_start(text@) == rest);
    let mut end: usize = text.len();
    assert(rest.take(end - start) =~= rest);
    while end > start && space(text[end - 1])
        invariant
            start <= end <= text@.len(),
            rest == text@.skip(start as int),
            trim_end(rest.take(end - start)) == trim_end(rest),
        decreases end,
    {
        assert(rest.take(end - start).last() == text@[end - 1]);
        assert(rest.take(end - start).drop_last() =~= rest.take(end - 1 - start));
        end = end - 1;
    }
    let mut trimmed: Vec<char> = Vec::new();
    let mut i: usize = start;
    while i < end
        invariant
            start <= i <= end <= text@.len(),
            trimmed@ == text@.subrange(start as int, i as int),
        decreases end - i,
    {
        trimmed.push(text[i]);
        assert(trimmed@ =~= text@.subrange(start as int, i + 1));
        i = i + 1;
    }
    proof {
        if end > start {
            assert(rest.take(end - start).last() == text@[end - 1]);
        }
        assert(trim_end(rest.take(end - start)) == rest.take(end - start));
        assert(trimmed@ =~= rest.take(end - start));
    }
    trimmed
}

// ---- Decimal numerals ----

/// The decimal digit of a number below ten.
pub open spec fn digit(d: int) -> char {
    (('0' as u32) + d) as char
}

/// The decimal numeral of a number.
pub open spec fn numeral(n: nat) -> Seq<char>
    decreases n,
{
    if n < 10 {
        seq![digit(n as int)]
    } else {
        numeral(n / 10).push(digit((n % 10) as int))
    }
}

/// The numeral of a number below a hundred, with two digits.
pub open spec fn two_digits(n: nat) -> Seq<char> {
    seq![digit((n / 10) as int), digit((n % 10) as int)]
}

fn digit_text(d: u64) -> (text: &'static str)
    requires
        d < 10,
    ensures
        text@ == seq![digit(d as int)],
{
    proof {
        reveal_strlit("0");
        reveal_strlit("1");
        reveal_strlit("2");
        reveal_strlit("3");
        reveal_strlit("4");
        reveal_strlit("5");
        reveal_strlit("6");
        reveal_strlit("7");
        reveal_strlit("8");
        reveal_strlit("9");
    }
    let text = match d {
        0 => "0",
        1 => "1",
        2 => "2",
        3 => "3",
        4 => "4",
        5 => "5",
        6 => "6",
        7 => "7",
        8 => "8",
        _ => "9",
    };
    assert(text@ =~= seq![digit(d as int)]);
    text
}

/// Appends the numeral of a number.
pub fn push_numeral(text: &mut String, n: u64)
    ensures
        final(text)@ == old(text)@ + numeral(n as nat),
    decreases n,
{
    if n >= 10 {
        push_numeral(text, n / 10);
    }
    let ghost before = text@;
    text.append(digit_text(n % 10));
    assert(text@ =~= old(text)@ + numeral(n as nat));
}

/// Appends the numeral of a number below a hundred, with two digits.
pub fn push_two_digits(text: &mut String, n: u64)
    requires
        n < 100,
    ensures
        final(text)@ == old(text)@ + two_digits(n as nat),
{
    text.append(digit_text(n / 10));
    text.append(digit_text(n % 10));
    assert(text@ =~= old(text)@ + two_digits(n as nat));
}

/// The quotient of two numbers, rounded to the nearest integer, halves to the even one.
pub open spec fn round_half_even(num: int, den: int) -> int {
    let q = num / den;
    let r = num % den;
    if 2 * r < den || (2 * r == den && q % 2 == 0) {
        q
    } else {
        q + 1
    }
}

/// The quotient of two numbers, rounded to the nearest integer, halves to the even one.
pub fn rounded(num: u128, den: u128) -> (q: u128)
    requires
        0 < den <= 0x4000_0000_0000_0000_0000_0000_0000_0000,
        num < u128::MAX,
    ensures
        q == round_half_even(num as int, den as int),
{
    let q: u128 = num / den;
    let r: u128 = num % den;
    proof {
        vstd::arithmetic::div_mod::lemma_div_is_ordered_by_denominator(num as int, 1, den as int);
        vstd::arithmetic::div_mod::lemma_div_basics(num as int);
    }
    if 2 * r < den || (2 * r == den && q % 2 == 0) {
        q
    } else {
        q + 1
    }
}

/// A number of tenths as a decimal with one place.
pub open spec fn one_place(tenths: nat) -> Seq<char> {
    numeral(tenths / 10) + seq!['.', digit((tenths % 10) as int)]
}

/// Appends the numeral of a number of any size.
fn push_big(text: &mut String, n: &Big)
    ensures
        final(text)@ == old(text)@ + numeral(n@),
    decreases n@,
{
    let (quotient, last) = n.divided(10);
    if !quotient.is_zero() {
        push_big(text, &quotient);
    }
    text.append(digit_text(last as u64));
    assert(text@ =~= old(text)@ + numeral(n@));
}

/// Appends a number of tenths of any size as a decimal with one place.
pub fn push_tenths(text: &mut String, tenths: &Big)
    ensures
        final(text)@ == old(text)@ + one_place(tenths@),
{
    let (whole, last) = tenths.divided(10);
    push_big(text, &whole);
    proof {
        reveal_strlit(".");
    }
    text.append(".");
    text.append(digit_text(last as u64));
    assert(text@ =~= old(text)@ + one_place(tenths@));
}

// ---- Laws ----

/// Joining a text to another one with a separator between them adds a piece, as long as the
/// separator does not occur in it; and a text without the separator is a single piece.
pub proof fn law_separated_texts_are_pieces(a: Seq<char>, separator: char, b: Seq<char>)
    requires
        !b.contains(separator),
    ensures
        split(a.push(separator) + b, separator) == split(a, separator).push(b),
        split(b, separator) == seq![b],
    decreases b.len(),
{
    let whole = a.push(separator) + b;
    if b.len() == 0 {
        assert(whole =~= a.push(separator));
        assert(a.push(separator).drop_last() =~= a);
        assert(b =~= Seq::<char>::empty());
    } else {
        let front = b.drop_last();
        assert(!front.contains(separator)) by {
            if front.contains(separator) {
                assert(b[front.index_of(separator)] == separator);
            }
        }
        law_separated_texts_are_pieces(a, separator, front);
        assert(whole.drop_last() =~= a.push(separator) + front);
        assert(b.last() == b[b.len() - 1]);
        assert(whole.last() == b.last() && b.last() != separator);
        let before = split(a, separator).push(front);
        assert(before.drop_last() =~= split(a, separator));
        assert(front.push(b.last()) =~= b);
        assert(seq![front].drop_last().push(b) =~= seq![b]);
    }
}

/// A text that has no white space at its ends is kept, and white space around it is taken off.
pub proof fn law_trimming_takes_white_space_off(before: Seq<char>, text: Seq<char>, behind: Seq<char>)
    requires
        text.len() > 0,
        !is_space(text[0]),
        !is_space(text.last()),
        forall|i: int| 0 <= i < before.len() ==> is_space(#[trigger] before[i]),
        forall|i: int| 0 <= i < behind.len() ==> is_space(#[trigger] behind[i]),
    ensures
        trim(before + text + behind) == text,
{
    lemma_trim_start(before, text + behind);
    assert(before + text + behind =~= before + (text + behind));
    lemma_trim_end(text, behind);
}

proof fn lemma_trim_start(before: Seq<char>, rest: Seq<char>)
    requires
        rest.len() > 0,
        !is_space(rest[0]),
        forall|i: int| 0 <= i < before.len() ==> is_space(#[trigger] before[i]),
    ensures
        trim_start(before + rest) == rest,
    decreases before.len(),
{
    if before.len() == 0 {
        assert(before + rest =~= rest);
    } else {
        assert((before + rest)[0] == before[0]);
        assert((before + rest).skip(1) =~= before.skip(1) + rest);
        lemma_trim_start(before.skip(1), rest);
    }
}

proof fn lemma_trim_end(text: Seq<char>, behind: Seq<char>)
    requires
        text.len() > 0,
        !is_space(text.last()),
        forall|i: int| 0 <= i < behind.len() ==> is_space(#[trigger] behind[i]),
    ensures
        trim_end(text + behind) == text,
    decreases behind.len(),
{
    if behind.len() == 0 {
        assert(text + behind =~= text);
    } else {
        assert((text + behind).last() == behind[behind.len() - 1]);
        assert((text + behind).drop_last() =~= text + behind.drop_last());
        lemma_trim_end(text, behind.drop_last());
    }
}

/// A numeral spells its number: its digits, most significant one first, make it up.
pub proof fn law_numerals_spell_their_numbers(n: nat)
    ensures
        spelled_number(numeral(n)) == n,
        n > 0 ==> numeral(n)[0] != '0',
        numeral(n).len() > 0,
    decreases n,
{
    if n >= 10 {
        law_numerals_spell_their_numbers(n / 10);
        let front = numeral(n / 10);
        assert(numeral(n).drop_last() =~= front);
        assert(numeral(n)[0] == front[0]);
    } else {
        assert(numeral(n).drop_last() =~= Seq::<char>::empty());
        assert(spelled_number(Seq::<char>::empty()) == 0);
    }
}

/// The number that decimal digits spell.
pub open spec fn spelled_number(digits: Seq<char>) -> int
    decreases digits.len(),
{
    if digits.len() == 0 {
        0
    } else {
        10 * spelled_number(digits.drop_last()) + (digits.last() as u32 - '0' as u32)
    }
}

/// A word in small letters occurs in a text that holds it in capitals or small letters, whatever
/// stands before and behind; and it does not occur in a text that is shorter.
pub proof fn law_words_occur_in_any_case(
    before: Seq<char>,
    word: Seq<char>,
    behind: Seq<char>,
    needle: Seq<char>,
)
    requires
        word.len() == needle.len(),
        forall|j: int|
            0 <= j < word.len() ==> #[trigger] word[j] == needle[j] || ('A' <= word[j] <= 'Z'
                && needle[j] == ((word[j] as u32) + 32) as char),
        forall|j: int| 0 <= j < needle.len() ==> !('A' <= #[trigger] needle[j] <= 'Z'),
    ensures
        occurs(before + word + behind, needle),
        before.len() < needle.len() ==> !occurs(before, needle),
{
    let text = before + word + behind;
    let i = before.len() as int;
    assert forall|j: int| 0 <= j < needle.len() implies lower(text[i + j])
        == #[trigger] needle[j] by {
        assert(text[i + j] == word[j]);
    }
    assert(occurs_at(text, needle, i));
}

/// A rounded quotient is at most a half away from the quotient, and even where it is just a half.
pub proof fn law_rounded_quotients_are_nearest(num: int, den: int)
    requires
        den > 0,
    ensures
        -den <= 2 * (num - round_half_even(num, den) * den) <= den,
        2 * (num - round_half_even(num, den) * den) == den || 2 * (num - round_half_even(num, den)
            * den) == -den ==> round_half_even(num, den) % 2 == 0,
{
    let q = num / den;
    let r = num % den;
    vstd::arithmetic::div_mod::lemma_fundamental_div_mod(num, den);
    vstd::arithmetic::div_mod::lemma_mod_bound(num, den);
    assert(den * q == q * den && (q + 1) * den == q * den + den) by (nonlinear_arith);
}

} // verus!

//! Texts: their characters, prefixes and suffixes, hexadecimal digits and canonical decimal
//! numbers.

use vstd::prelude::*;
use crate::keys::lemma_text_bytes_injective;
use crate::path::equal_bytes;

verus! {

/// The characters of a text.
pub fn characters(text: &str) -> (characters: Vec<char>)
    ensures
        characters@ == text@,
{
    let mut characters: Vec<char> = Vec::new();
    for character in iter: text.chars()
        invariant
            characters@ == iter.seq().take(iter.index()),
            iter.seq() == text@,
    {
        characters.push(character);
        assert(characters@ =~= iter.seq().take(iter.index() + 1));
    }
    assert(characters@ =~= text@);
    characters
}

/// Whether two texts are equal.
pub fn equals(left: &str, right: &str) -> (equal: bool)
    ensures
        equal == (left@ == right@),
{
    let equal = equal_bytes(left.as_bytes(), right.as_bytes());
    proof {
        if equal {
            lemma_text_bytes_injective(left@, right@);
        }
    }
    equal
}

/// `text` starts with `prefix`.
pub open spec fn starts_with(text: Seq<char>, prefix: Seq<char>) -> bool {
    prefix.len() <= text.len() && text.take(prefix.len() as int) == prefix
}

/// `text` ends with `suffix`.
pub open spec fn ends_with(text: Seq<char>, suffix: Seq<char>) -> bool {
    suffix.len() <= text.len() && text.skip(text.len() - suffix.len()) == suffix
}

/// What follows `prefix` in `text`, if it starts with that.
pub fn strip_prefix<'a>(text: &'a str, prefix: &str) -> (rest: Option<&'a str>)
    ensures
        match rest {
            Some(rest) => starts_with(text@, prefix@) && rest@ == text@.skip(
                prefix@.len() as int,
            ),
            None => !starts_with(text@, prefix@),
        },
{
    let count = text.unicode_len();
    let length = prefix.unicode_len();
    if length > count {
        return None;
    }
    if equals(text.substring_char(0, length), prefix) {
        assert(text@.subrange(0, length as int) =~= text@.take(length as int));
        assert(text@.subrange(length as int, count as int) =~= text@.skip(length as int));
        Some(text.substring_char(length, count))
    } else {
        assert(text@.subrange(0, length as int) =~= text@.take(length as int));
        None
    }
}

/// What precedes `suffix` in `text`, if it ends with that.
pub fn strip_suffix<'a>(text: &'a str, suffix: &str) -> (rest: Option<&'a str>)
    ensures
        match rest {
            Some(rest) => ends_with(text@, suffix@) && rest@ == text@.take(
                text@.len() - suffix@.len(),
            ),
            None => !ends_with(text@, suffix@),
        },
{
    let count = text.unicode_len();
    let length = suffix.unicode_len();
    if length > count {
        return None;
    }
    let split: usize = count - length;
    assert(text@.subrange(split as int, count as int) =~= text@.skip(split as int));
    if equals(text.substring_char(split, count), suffix) {
        assert(text@.subrange(0, split as int) =~= text@.take(split as int));
        Some(text.substring_char(0, split))
    } else {
        None
    }
}

/// The first position of `mark` in `text`, or its length.
pub open spec fn first_mark(text: Seq<char>, mark: char) -> nat
    decreases text.len(),
{
    if text.len() == 0 || text[0] == mark {
        0
    } else {
        1 + first_mark(text.drop_first(), mark)
    }
}

/// What stands before and behind the first `mark` in `text`, if there is one.
pub fn split_once<'a>(text: &'a str, mark: char) -> (parts: Option<(&'a str, &'a str)>)
    ensures
        ({
            let at = first_mark(text@, mark) as int;
            match parts {
                Some((before, behind)) => at < text@.len() && before@ == text@.take(at) && behind@
                    == text@.skip(at + 1),
                None => at >= text@.len(),
            }
        }),
{
    let units = characters(text);
    let mut i: usize = 0;
    assert(text@.skip(0) =~= text@);
    while i < units.len()
        invariant
            i <= units@.len(),
            units@ == text@,
            first_mark(text@, mark) == i + first_mark(text@.skip(i as int), mark),
        decreases units@.len() - i,
    {
        if units[i] == mark {
            assert(text@.skip(i as int)[0] == mark);
            let count = text.unicode_len();
            assert(text@.subrange(0, i as int) =~= text@.take(i as int));
            assert(text@.subrange(i + 1, count as int) =~= text@.skip(i + 1));
            return Some((text.substring_char(0, i), text.substring_char(i + 1, count)));
        }
        proof {
            assert(text@.skip(i as int).drop_first() =~= text@.skip(i + 1));
            assert(text@.skip(i as int)[0] == units@[i as int]);
        }
        i += 1;
    }
    assert(text@.skip(i as int).len() == 0);
    None
}

/// A lower-case hexadecimal digit.
pub open spec fn lower_hex(c: char) -> bool {
    ('0' <= c && c <= '9') || ('a' <= c && c <= 'f')
}

/// A hexadecimal digit of either case.
pub open spec fn any_hex(c: char) -> bool {
    lower_hex(c) || ('A' <= c && c <= 'F')
}

/// The length of a hexadecimal digest or identity.
pub const DIGEST_LEN: usize = 64;

/// A store identity: as many lower-case hexadecimal digits as a digest has.
pub open spec fn is_identity(text: Seq<char>) -> bool {
    text.len() == DIGEST_LEN && forall|i: int| 0 <= i < text.len() ==> lower_hex(#[trigger] text[i])
}

/// A digest in hexadecimal digits of either case.
pub open spec fn is_hex_digest(text: Seq<char>) -> bool {
    text.len() == DIGEST_LEN && forall|i: int| 0 <= i < text.len() ==> any_hex(#[trigger] text[i])
}

/// Whether `identity` is a store identity.
pub fn valid_identity(identity: &str) -> (result: bool)
    ensures
        result == is_identity(identity@),
{
    let units = characters(identity);
    if units.len() != DIGEST_LEN {
        return false;
    }
    let mut i: usize = 0;
    while i < units.len()
        invariant
            i <= units@.len(),
            units@ == identity@,
            units@.len() == DIGEST_LEN,
            forall|k: int| 0 <= k < i ==> lower_hex(#[trigger] identity@[k]),
        decreases units@.len() - i,
    {
        let c = units[i];
        if !(('0' <= c && c <= '9') || ('a' <= c && c <= 'f')) {
            assert(!lower_hex(identity@[i as int]));
            return false;
        }
        i += 1;
    }
    true
}

/// Whether `digest` is a digest in hexadecimal digits.
pub fn valid_hex_digest(digest: &str) -> (result: bool)
    ensures
        result == is_hex_digest(digest@),
{
    let units = characters(digest);
    if units.len() != DIGEST_LEN {
        return false;
    }
    let mut i: usize = 0;
    while i < units.len()
        invariant
            i <= units@.len(),
            units@ == digest@,
            units@.len() == DIGEST_LEN,
            forall|k: int| 0 <= k < i ==> any_hex(#[trigger] digest@[k]),
        decreases units@.len() - i,
    {
        let c = units[i];
        if !(('0' <= c && c <= '9') || ('a' <= c && c <= 'f') || ('A' <= c && c <= 'F')) {
            assert(!any_hex(digest@[i as int]));
            return false;
        }
        i += 1;
    }
    true
}

/// The digit for a number below sixteen.
pub open spec fn digit_char(digit: int) -> char {
    if digit < 10 {
        (48 + digit) as char
    } else {
        (87 + digit) as char
    }
}

fn digit_text(digit: u8) -> (text: &'static str)
    requires
        digit < 16,
    ensures
        text@ == seq![digit_char(digit as int)],
{
    proof {
        reveal_strlit("0");
        reveal_strlit("1");
        reveal_strlit("2");
        reveal_strlit("3");
        reveal_strlit("4");
        reveal_strlit("5");
        reveal_strlit("6");
        reveal_strlit("7");
        reveal_strlit("8");
        reveal_strlit("9");
        reveal_strlit("a");
        reveal_strlit("b");
        reveal_strlit("c");
        reveal_strlit("d");
        reveal_strlit("e");
        reveal_strlit("f");
    }
    let text = if digit == 0 {
        "0"
    } else if digit == 1 {
        "1"
    } else if digit == 2 {
        "2"
    } else if digit == 3 {
        "3"
    } else if digit == 4 {
        "4"
    } else if digit == 5 {
        "5"
    } else if digit == 6 {
        "6"
    } else if digit == 7 {
        "7"
    } else if digit == 8 {
        "8"
    } else if digit == 9 {
        "9"
    } else if digit == 10 {
        "a"
    } else if digit == 11 {
        "b"
    } else if digit == 12 {
        "c"
    } else if digit == 13 {
        "d"
    } else if digit == 14 {
        "e"
    } else {
        "f"
    };
    assert(text@ =~= seq![digit_char(digit as int)]);
    text
}

/// Two lower-case hexadecimal digits for each byte.
pub open spec fn hex_of(bytes: Seq<u8>) -> Seq<char>
    decreases bytes.len(),
{
    if bytes.len() == 0 {
        Seq::empty()
    } else {
        hex_of(bytes.drop_last()) + seq![
            digit_char(bytes.last() as int / 16),
            digit_char(bytes.last() as int % 16),
        ]
    }
}

/// Writes bytes in lower-case hexadecimal digits.
pub fn hex(bytes: &[u8]) -> (text: String)
    ensures
        text@ == hex_of(bytes@),
{
    let mut text = String::new();
    let mut i: usize = 0;
    assert(bytes@.take(0) =~= Seq::empty());
    while i < bytes.len()
        invariant
            i <= bytes@.len(),
            text@ == hex_of(bytes@.take(i as int)),
        decreases bytes@.len() - i,
    {
        let byte = bytes[i];
        text.append(digit_text(byte / 16));
        text.append(digit_text(byte % 16));
        proof {
            assert(bytes@.take(i + 1).drop_last() =~= bytes@.take(i as int));
            assert(text@ =~= hex_of(bytes@.take(i + 1)));
        }
        i += 1;
    }
    assert(bytes@.take(i as int) =~= bytes@);
    text
}

/// Hexadecimal text has two digits a byte, all of them lower-case.
pub proof fn lemma_hex_digits(bytes: Seq<u8>)
    ensures
        hex_of(bytes).len() == 2 * bytes.len(),
        forall|i: int| 0 <= i < hex_of(bytes).len() ==> lower_hex(#[trigger] hex_of(bytes)[i]),
    decreases bytes.len(),
{
    if bytes.len() > 0 {
        lemma_hex_digits(bytes.drop_last());
        let high = bytes.last() as int / 16;
        let low = bytes.last() as int % 16;
        assert(lower_hex(digit_char(high)) && lower_hex(digit_char(low)));
        let shorter = hex_of(bytes.drop_last());
        assert forall|i: int| 0 <= i < hex_of(bytes).len() implies lower_hex(
            #[trigger] hex_of(bytes)[i],
        ) by {
            if i < shorter.len() {
                assert(hex_of(bytes)[i] == shorter[i]);
            }
        }
    }
}

/// Different byte strings have different hexadecimal texts.
pub proof fn law_hex_is_injective(left: Seq<u8>, right: Seq<u8>)
    requires
        hex_of(left) == hex_of(right),
    ensures
        left == right,
    decreases left.len(),
{
    lemma_hex_digits(left);
    lemma_hex_digits(right);
    if left.len() > 0 {
        let n = hex_of(left).len() as int;
        let a = hex_of(left.drop_last());
        let b = hex_of(right.drop_last());
        lemma_hex_digits(left.drop_last());
        lemma_hex_digits(right.drop_last());
        assert(hex_of(left)[n - 2] == digit_char(left.last() as int / 16));
        assert(hex_of(right)[n - 2] == digit_char(right.last() as int / 16));
        assert(hex_of(left)[n - 1] == digit_char(left.last() as int % 16));
        assert(hex_of(right)[n - 1] == digit_char(right.last() as int % 16));
        assert(a =~= hex_of(left).take(n - 2));
        assert(b =~= hex_of(right).take(n - 2));
        law_hex_is_injective(left.drop_last(), right.drop_last());
        assert(left =~= left.drop_last().push(left.last()));
        assert(right =~= right.drop_last().push(right.last()));
    } else {
        assert(left =~= right);
    }
}

/// The decimal digits of a number, without leading zeros.
pub open spec fn decimal(n: nat) -> Seq<char>
    decreases n,
{
    if n < 10 {
        seq![digit_char(n as int)]
    } else {
        decimal(n / 10).push(digit_char((n % 10) as int))
    }
}

/// Writes a number in decimal digits.
pub fn render_u64(n: u64) -> (text: String)
    ensures
        text@ == decimal(n as nat),
    decreases n,
{
    if n < 10 {
        String::from_str(digit_text(n as u8))
    } else {
        let mut text = render_u64(n / 10);
        text.append(digit_text((n % 10) as u8));
        assert(text@ =~= decimal(n as nat));
        text
    }
}

/// A decimal digit.
pub open spec fn is_decimal_digit(c: char) -> bool {
    '0' <= c && c <= '9'
}

/// The number that a text of decimal digits stands for; none for an empty text or one with
/// any other character.
pub open spec fn digits_value(text: Seq<char>) -> Option<nat>
    decreases text.len(),
{
    if text.len() == 0 || !is_decimal_digit(text.last()) {
        None
    } else {
        let digit = (text.last() as int - 48) as nat;
        if text.len() == 1 {
            Some(digit)
        } else {
            match digits_value(text.drop_last()) {
                Some(value) => Some(10 * value + digit),
                None => None,
            }
        }
    }
}

/// The machine integer that a text stands for: decimal digits, perhaps behind a plus sign.
pub open spec fn parsed_u64(text: Seq<char>) -> Option<u64> {
    let digits = if text.len() > 0 && text[0] == '+' {
        text.drop_first()
    } else {
        text
    };
    match digits_value(digits) {
        Some(value) => if value <= u64::MAX {
            Some(value as u64)
        } else {
            None
        },
        None => None,
    }
}

/// The digits of a number stand for that number.
pub proof fn lemma_decimal_value(n: nat)
    ensures
        digits_value(decimal(n)) == Some(n),
        decimal(n).len() > 0,
        is_decimal_digit(decimal(n)[0]),
    decreases n,
{
    if n >= 10 {
        lemma_decimal_value(n / 10);
        assert(decimal(n).drop_last() =~= decimal(n / 10));
        assert(decimal(n)[0] == decimal(n / 10)[0]);
    }
}

/// What was written as a number is read back as that number.
pub proof fn law_rendered_number_is_parsed(n: u64)
    ensures
        parsed_u64(decimal(n as nat)) == Some(n),
{
    lemma_decimal_value(n as nat);
}

/// Longer texts of digits stand for numbers that are no smaller.
proof fn lemma_digits_prefix(text: Seq<char>, i: int)
    requires
        0 < i <= text.len(),
        digits_value(text) is Some,
    ensures
        digits_value(text.take(i)) is Some,
        digits_value(text.take(i)).unwrap() <= digits_value(text).unwrap(),
    decreases text.len(),
{
    if i == text.len() {
        assert(text.take(i) =~= text);
    } else {
        lemma_digits_prefix(text.drop_last(), i);
        assert(text.drop_last().take(i) =~= text.take(i));
    }
}

/// Reads a machine integer from decimal digits, perhaps behind a plus sign.
pub fn parse_u64(text: &str) -> (value: Option<u64>)
    ensures
        value == parsed_u64(text@),
{
    let units = characters(text);
    let start: usize = if units.len() > 0 && units[0] == '+' {
        1
    } else {
        0
    };
    let ghost digits = if text@.len() > 0 && text@[0] == '+' {
        text@.drop_first()
    } else {
        text@
    };
    assert(digits =~= text@.skip(start as int));
    if units.len() == start {
        return None;
    }
    let mut value: u64 = 0;
    let mut i: usize = start;
    while i < units.len()
        invariant
            start <= i <= units@.len(),
            start < units@.len(),
            units@ == text@,
            digits == text@.skip(start as int),
            parsed_u64(text@) == (match digits_value(digits) {
                Some(value) => if value <= u64::MAX {
                    Some(value as u64)
                } else {
                    None
                },
                None => None,
            }),
            i == start ==> value == 0,
            i > start ==> digits_value(digits.take(i - start)) == Some(value as nat),
        decreases units@.len() - i,
    {
        let c = units[i];
        let ghost taken = digits.take(i - start);
        let ghost longer = digits.take(i + 1 - start);
        proof {
            assert(longer.drop_last() =~= taken);
            assert(longer.last() == c);
            if digits_value(digits) is Some {
                lemma_digits_prefix(digits, i + 1 - start);
            }
        }
        if !('0' <= c && c <= '9') {
            return None;
        }
        let digit: u64 = c as u64 - 48;
        assert(digits_value(longer) == Some((10 * value + digit) as nat));
        if value > 1844674407370955161 || (value == 1844674407370955161 && digit > 5) {
            return None;
        }
        value = value * 10 + digit;
        i += 1;
    }
    assert(digits.take(i - start) =~= digits);
    Some(value)
}

/// A text starts with what stands before its rest, and ends with what stands behind it.
pub proof fn law_prefixes_and_suffixes(text: Seq<char>, part: Seq<char>, rest: Seq<char>)
    ensures
        starts_with(part + rest, part) && (part + rest).skip(part.len() as int) == rest,
        ends_with(rest + part, part) && (rest + part).take(rest.len() as int) == rest,
        starts_with(text, part) ==> text == part + text.skip(part.len() as int),
        ends_with(text, part) ==> text == text.take(text.len() - part.len()) + part,
{
    assert((part + rest).take(part.len() as int) =~= part);
    assert((part + rest).skip(part.len() as int) =~= rest);
    assert((rest + part).skip(rest.len() as int) =~= part);
    assert((rest + part).take(rest.len() as int) =~= rest);
    if starts_with(text, part) {
        assert(text =~= part + text.skip(part.len() as int));
    }
    if ends_with(text, part) {
        assert(text =~= text.take(text.len() - part.len()) + part);
    }
}

/// A text is split at the first mark: nothing before it is one. Where there is no mark, the
/// place is the end of the text.
pub proof fn law_texts_are_split_at_the_first_mark(text: Seq<char>, mark: char)
    ensures
        first_mark(text, mark) <= text.len(),
        first_mark(text, mark) < text.len() ==> text[first_mark(text, mark) as int] == mark,
        forall|i: int| 0 <= i < first_mark(text, mark) ==> text[i] != mark,
    decreases text.len(),
{
    if text.len() > 0 && text[0] != mark {
        law_texts_are_split_at_the_first_mark(text.drop_first(), mark);
        assert forall|i: int| 0 <= i < first_mark(text, mark) implies text[i] != mark by {
            if i > 0 {
                assert(text.drop_first()[i - 1] == text[i]);
            }
        }
    }
}

/// An identity is 64 lowercase hexadecimal digits. A digest may hold uppercase ones too.
pub proof fn law_identities_are_hexadecimal(text: Seq<char>, i: int)
    ensures
        is_identity(text) || is_hex_digest(text) ==> text.len() == 64,
        is_identity(text) && 0 <= i < text.len() ==> ('0' <= text[i] <= '9') || ('a' <= text[i]
            <= 'f'),
        is_hex_digest(text) && 0 <= i < text.len() ==> ('0' <= text[i] <= '9') || ('a' <= text[i]
            <= 'f') || ('A' <= text[i] <= 'F'),
        is_identity(text) ==> is_hex_digest(text),
        text.len() == 64 && (forall|k: int|
            0 <= k < 64 ==> ('0' <= #[trigger] text[k] <= '9') || ('a' <= text[k] <= 'f'))
            ==> is_identity(text),
        text.len() == 64 && (forall|k: int|
            0 <= k < 64 ==> ('0' <= #[trigger] text[k] <= '9') || ('a' <= text[k] <= 'f') || ('A'
                <= text[k] <= 'F')) ==> is_hex_digest(text),
{
}

/// The value of a hexadecimal digit.
pub open spec fn nibble(c: char) -> int {
    if '0' <= c <= '9' {
        c as int - '0' as int
    } else {
        c as int - 'a' as int + 10
    }
}

/// Bytes are written with two hexadecimal digits each, the higher one first.
pub proof fn law_hex_digits_are_values(bytes: Seq<u8>, i: int)
    requires
        0 <= i < bytes.len(),
    ensures
        hex_of(bytes).len() == 2 * bytes.len(),
        16 * nibble(hex_of(bytes)[2 * i]) + nibble(hex_of(bytes)[2 * i + 1]) == bytes[i],
        0 <= nibble(hex_of(bytes)[2 * i]) < 16,
        0 <= nibble(hex_of(bytes)[2 * i + 1]) < 16,
    decreases bytes.len(),
{
    lemma_hex_len(bytes);
    lemma_hex_len(bytes.drop_last());
    if i < bytes.len() - 1 {
        law_hex_digits_are_values(bytes.drop_last(), i);
    }
}

proof fn lemma_hex_len(bytes: Seq<u8>)
    ensures
        hex_of(bytes).len() == 2 * bytes.len(),
    decreases bytes.len(),
{
    if bytes.len() > 0 {
        lemma_hex_len(bytes.drop_last());
    }
}

proof fn lemma_digits_scale(text: Seq<char>)
    requires
        text.len() > 0,
        forall|i: int| 0 <= i < text.len() ==> '0' <= #[trigger] text[i] <= '9',
    ensures
        digits_value(text) is Some,
    decreases text.len(),
{
    if text.len() > 1 {
        assert forall|i: int| 0 <= i < text.len() - 1 implies '0' <= #[trigger] text.drop_last()[i]
            <= '9' by {
            assert(text.drop_last()[i] == text[i]);
        }
        lemma_digits_scale(text.drop_last());
    }
}

proof fn lemma_valued_digits(text: Seq<char>, i: int)
    requires
        digits_value(text) is Some,
        0 <= i < text.len(),
    ensures
        '0' <= text[i] <= '9',
    decreases text.len(),
{
    if i < text.len() - 1 {
        lemma_valued_digits(text.drop_last(), i);
    }
}

/// A number is read exactly from digits, behind at most one plus sign, as long as it fits. One
/// more digit makes it ten times as large, and adds the digit.
pub proof fn law_numbers_are_read_from_digits(text: Seq<char>, digit: int)
    requires
        0 <= digit < 10,
    ensures
        (forall|i: int| 0 <= i < text.len() ==> '0' <= #[trigger] text[i] <= '9') && text.len() > 0
            ==> digits_value(text) is Some,
        text.len() == 0 ==> digits_value(text) is None && parsed_u64(text) is None,
        digits_value(text) is Some ==> forall|i: int|
            0 <= i < text.len() ==> '0' <= #[trigger] text[i] <= '9',
        digits_value(text) is Some ==> digits_value(text.push(('0' as int + digit) as char)) == Some(
            (10 * digits_value(text).unwrap() + digit) as nat,
        ),
        digits_value(seq![('0' as int + digit) as char]) == Some(digit as nat),
        digits_value(text) is Some && digits_value(text).unwrap() <= u64::MAX ==> parsed_u64(text)
            == Some(digits_value(text).unwrap() as u64) && parsed_u64(seq!['+'] + text) == Some(
            digits_value(text).unwrap() as u64,
        ),
        digits_value(text) is Some && digits_value(text).unwrap() > u64::MAX ==> parsed_u64(
            text,
        ) is None,
{
    if text.len() > 0 && forall|i: int| 0 <= i < text.len() ==> '0' <= #[trigger] text[i] <= '9' {
        lemma_digits_scale(text);
    }
    if digits_value(text) is Some {
        assert forall|i: int| 0 <= i < text.len() implies '0' <= #[trigger] text[i] <= '9' by {
            lemma_valued_digits(text, i);
        }
        assert(text.push(('0' as int + digit) as char).drop_last() =~= text);
        assert((seq!['+'] + text).drop_first() =~= text);
        assert('0' <= text[0] <= '9');
    }
}

} // verus!

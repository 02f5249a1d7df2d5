//! Lists of replacement characters, written as Unicode ranges such as `U+0456-U+0458,U+0435`.

use crate::text;
use crate::text::{chars_of, mark_spaces, position_of, trim_marked};
use vstd::prelude::*;
use vstd::slice::slice_subrange;

verus! {

/// Why a code point could not be read.
#[derive(Debug, Clone, Copy, PartialEq, Eq, Structural)]
pub enum RangeError {
    /// There is nothing where a code point should stand.
    Empty,
    /// A character is no hexadecimal digit.
    InvalidDigit,
    /// The value does not fit in 32 bits.
    Overflow,
}

/// The value of a hexadecimal digit.
pub open spec fn hex_digit(c: char) -> Option<int> {
    if '0' <= c <= '9' {
        Some(c as int - '0' as int)
    } else if 'a' <= c <= 'f' {
        Some(c as int - 'a' as int + 10)
    } else if 'A' <= c <= 'F' {
        Some(c as int - 'A' as int + 10)
    } else {
        None
    }
}

/// The number that a string of hexadecimal digits denotes. The leftmost trouble decides the error.
pub open spec fn hex_value(digits: Seq<char>) -> Result<u32, RangeError>
    decreases digits.len(),
{
    if digits.len() == 0 {
        Ok(0)
    } else {
        match hex_value(digits.drop_last()) {
            Err(e) => Err(e),
            Ok(v) => match hex_digit(digits.last()) {
                None => Err(RangeError::InvalidDigit),
                Some(d) => if 16 * v + d <= u32::MAX {
                    Ok((16 * v + d) as u32)
                } else {
                    Err(RangeError::Overflow)
                },
            },
        }
    }
}

/// The number that `s` denotes: hexadecimal digits, at least one, with an optional `+` in front.
pub open spec fn hex_number(s: Seq<char>) -> Result<u32, RangeError> {
    if s.len() == 0 {
        Err(RangeError::Empty)
    } else if s[0] != '+' {
        hex_value(s)
    } else if s.len() == 1 {
        Err(RangeError::InvalidDigit)
    } else {
        hex_value(s.skip(1))
    }
}

/// `s` without the prefix `U+`, however often it is repeated.
pub open spec fn without_prefix(s: Seq<char>) -> Seq<char>
    decreases s.len(),
{
    if s.len() >= 2 && s[0] == 'U' && s[1] == '+' {
        without_prefix(s.skip(2))
    } else {
        s
    }
}

/// The code point that `s` denotes.
pub open spec fn code_point(s: Seq<char>) -> Result<u32, RangeError> {
    hex_number(without_prefix(s))
}

/// Whether `cp` is a Unicode scalar value, that is, the value of some `char`.
pub open spec fn is_scalar(cp: int) -> bool {
    0 <= cp < 0xD800 || 0xE000 <= cp <= 0x10FFFF
}

/// `char::from_u32` gives the character of a scalar value, and `None` for every other number.
pub assume_specification[ char::from_u32 ](i: u32) -> (c: Option<char>)
    ensures
        c == (if is_scalar(i as int) {
            Some(i as char)
        } else {
            None
        }),
;

/// The characters from `first` to `last`, both included, in ascending order.
pub open spec fn span(first: int, last: int) -> Seq<char>
    decreases last - first + 1,
{
    if first > last {
        Seq::empty()
    } else if is_scalar(last) {
        span(first, last - 1).push(last as char)
    } else {
        span(first, last - 1)
    }
}

/// The characters that one item of a list denotes: a code point, or two joined by a dash.
pub open spec fn range_chars(item: Seq<char>) -> Result<Seq<char>, RangeError> {
    let k = text::find(item, '-', 0);
    if k < item.len() {
        match code_point(item.take(k)) {
            Err(e) => Err(e),
            Ok(first) => match code_point(item.skip(k + 1)) {
                Err(e) => Err(e),
                Ok(last) => Ok(span(first as int, last as int)),
            },
        }
    } else {
        match code_point(item) {
            Err(e) => Err(e),
            Ok(cp) => Ok(span(cp as int, cp as int)),
        }
    }
}

/// The characters that the items denote, in order. The first item in error decides.
pub open spec fn list_chars(items: Seq<Seq<char>>) -> Result<Seq<char>, RangeError>
    decreases items.len(),
{
    if items.len() == 0 {
        Ok(Seq::empty())
    } else {
        match list_chars(items.drop_last()) {
            Err(e) => Err(e),
            Ok(before) => match range_chars(items.last()) {
                Err(e) => Err(e),
                Ok(more) => Ok(before + more),
            },
        }
    }
}

/// The items of a comma-separated list, without the white space around them.
pub open spec fn list_items(s: Seq<char>) -> Seq<Seq<char>> {
    text::fields(s, ',').map_values(|field: Seq<char>| text::trim_text(field))
}

/// The characters that a comma-separated list of ranges denotes.
pub open spec fn utf_ranges(s: Seq<char>) -> Result<Seq<char>, RangeError> {
    list_chars(list_items(s))
}

/// Reads hexadecimal digits.
fn read_hex_digits(digits: &[char]) -> (value: Result<u32, RangeError>)
    ensures
        value == hex_value(digits@),
{
    let mut value: u32 = 0;
    let mut i: usize = 0;
    while i < digits.len()
        invariant
            i <= digits@.len(),
            hex_value(digits@.take(i as int)) == Ok::<u32, RangeError>(value),
        decreases digits@.len() - i,
    {
        proof {
            assert(digits@.take(i + 1).drop_last() == digits@.take(i as int));
            assert(digits@.take(i + 1).last() == digits@[i as int]);
        }
        let c = digits[i];
        let digit: u32 = if '0' <= c && c <= '9' {
            c as u32 - '0' as u32
        } else if 'a' <= c && c <= 'f' {
            c as u32 - 'a' as u32 + 10
        } else if 'A' <= c && c <= 'F' {
            c as u32 - 'A' as u32 + 10
        } else {
            proof {
                lemma_hex_error(digits@, i + 1);
            }
            return Err(RangeError::InvalidDigit);
        };
        if value > (u32::MAX - digit) / 16 {
            proof {
                lemma_hex_error(digits@, i + 1);
            }
            return Err(RangeError::Overflow);
        }
        value = 16 * value + digit;
        i += 1;
    }
    assert(digits@.take(digits@.len() as int) == digits@);
    Ok(value)
}

/// An error in the first `n` digits is the error of the whole numeral.
proof fn lemma_hex_error(digits: Seq<char>, n: int)
    requires
        0 <= n <= digits.len(),
        hex_value(digits.take(n)) is Err,
    ensures
        hex_value(digits) == hex_value(digits.take(n)),
    decreases digits.len() - n,
{
    if n < digits.len() {
        assert(digits.take(n + 1).drop_last() == digits.take(n));
        lemma_hex_error(digits, n + 1);
    } else {
        assert(digits.take(n) == digits);
    }
}

/// Reads a code point such as `U+0456`, `0456` or `456`.
pub fn parse_code_point(s: &[char]) -> (cp: Result<u32, RangeError>)
    ensures
        cp == code_point(s@),
{
    let mut i: usize = 0;
    assert(s@.skip(0) == s@);
    while s.len() - i >= 2 && s[i] == 'U' && s[i + 1] == '+'
        invariant
            i <= s@.len(),
            without_prefix(s@.skip(i as int)) == without_prefix(s@),
        decreases s@.len() - i,
    {
        assert(s@.skip(i as int).skip(2) == s@.skip(i + 2));
        i += 2;
    }
    let number = slice_subrange(s, i, s.len());
    assert(number@ == s@.skip(i as int));
    if number.len() == 0 {
        Err(RangeError::Empty)
    } else if number[0] != '+' {
        read_hex_digits(number)
    } else if number.len() == 1 {
        Err(RangeError::InvalidDigit)
    } else {
        assert(number@.subrange(1, number@.len() as int) == number@.skip(1));
        read_hex_digits(slice_subrange(number, 1, number.len()))
    }
}

/// Reads one item of a list, a code point or a range, from which white space was trimmed.
pub fn parse_range(item: &[char]) -> (chars: Result<Vec<char>, RangeError>)
    ensures
        match chars {
            Ok(v) => range_chars(item@) == Ok::<Seq<char>, RangeError>(v@),
            Err(e) => range_chars(item@) == Err::<Seq<char>, RangeError>(e),
        },
{
    let dash = position_of(item, '-', 0);
    let first: u32;
    let last: u32;
    if dash < item.len() {
        let head = slice_subrange(item, 0, dash);
        let tail = slice_subrange(item, dash + 1, item.len());
        assert(head@ == item@.take(dash as int));
        assert(tail@ == item@.skip(dash + 1));
        match parse_code_point(head) {
            Ok(cp) => {
                first = cp;
            },
            Err(e) => {
                return Err(e);
            },
        }
        match parse_code_point(tail) {
            Ok(cp) => {
                last = cp;
            },
            Err(e) => {
                return Err(e);
            },
        }
    } else {
        match parse_code_point(item) {
            Ok(cp) => {
                first = cp;
                last = cp;
            },
            Err(e) => {
                return Err(e);
            },
        }
    }
    Ok(collect_span(first, last))
}

/// Lists the characters from `first` to `last`, both included.
fn collect_span(first: u32, last: u32) -> (chars: Vec<char>)
    ensures
        chars@ == span(first as int, last as int),
{
    let mut chars: Vec<char> = Vec::new();
    if first > last {
        return chars;
    }
    let mut cp: u32 = first;
    loop
        invariant_except_break
            chars@ == span(first as int, cp - 1),
        invariant
            first <= cp <= last,
        ensures
            chars@ == span(first as int, last as int),
        decreases last - cp,
    {
        if let Some(c) = char::from_u32(cp) {
            chars.push(c);
        }
        assert(chars@ == span(first as int, cp as int));
        if cp == last {
            break;
        }
        cp += 1;
    }
    chars
}

/// An error in the first `n` items is the error of the whole list.
proof fn lemma_list_error(items: Seq<Seq<char>>, n: int)
    requires
        0 <= n <= items.len(),
        list_chars(items.take(n)) is Err,
    ensures
        list_chars(items) == list_chars(items.take(n)),
    decreases items.len() - n,
{
    if n < items.len() {
        assert(items.take(n + 1).drop_last() == items.take(n));
        lemma_list_error(items, n + 1);
    } else {
        assert(items.take(n) == items);
    }
}

/// Reads the items of a list, from which white space was trimmed.
pub fn parse_items(items: &[Vec<char>]) -> (chars: Result<Vec<char>, RangeError>)
    ensures
        match chars {
            Ok(v) => list_chars(text::char_views(items@)) == Ok::<Seq<char>, RangeError>(v@),
            Err(e) => list_chars(text::char_views(items@)) == Err::<Seq<char>, RangeError>(e),
        },
{
    let ghost all = text::char_views(items@);
    let mut chars: Vec<char> = Vec::new();
    let mut i: usize = 0;
    while i < items.len()
        invariant
            i <= items@.len(),
            all == text::char_views(items@),
            list_chars(all.take(i as int)) == Ok::<Seq<char>, RangeError>(chars@),
        decreases items@.len() - i,
    {
        proof {
            assert(all.take(i + 1).drop_last() == all.take(i as int));
            assert(all.take(i + 1).last() == items@[i as int]@);
        }
        match parse_range(items[i].as_slice()) {
            Ok(more) => {
                let mut more = more;
                chars.append(&mut more);
            },
            Err(e) => {
                proof {
                    lemma_list_error(all, i + 1);
                }
                return Err(e);
            },
        }
        i += 1;
    }
    assert(all.take(all.len() as int) == all);
    Ok(chars)
}

/// Cuts a list at its commas and trims the white space around each item.
pub fn split_items(range_str: &str) -> (items: Vec<Vec<char>>)
    ensures
        text::char_views(items@) == list_items(range_str@),
{
    let source = chars_of(range_str);
    let ghost trim = |field: Seq<char>| text::trim_text(field);
    let ghost all = list_items(range_str@);
    let mut items: Vec<Vec<char>> = Vec::new();
    let mut start: usize = 0;
    assert(source@.skip(0) == source@);
    assert(text::char_views(items@) + all == all);
    loop
        invariant_except_break
            text::char_views(items@) + list_items(source@.skip(start as int)) == all,
        invariant
            start <= source@.len(),
            trim == (|field: Seq<char>| text::trim_text(field)),
            all == list_items(range_str@),
        ensures
            text::char_views(items@) == all,
        decreases source@.len() - start,
    {
        let comma = position_of(source.as_slice(), ',', start);
        let field = slice_subrange(source.as_slice(), start, comma);
        let marks = mark_spaces(field);
        let item = trim_marked(field, marks.as_slice());
        let ghost before = text::char_views(items@);
        let ghost rest = source@.skip(start as int);
        items.push(item);
        proof {
            lemma_find_skip(source@, ',', start as int);
            assert(field@ == rest.take(comma - start));
            assert(text::char_views(items@) == before.push(trim(field@)));
        }
        if comma == source.len() {
            proof {
                assert(field@ == rest);
                assert(text::fields(rest, ',') == seq![field@]);
                assert(list_items(rest) == seq![trim(field@)]);
            }
            break;
        }
        proof {
            let later = source@.skip(comma + 1);
            assert(rest.skip(comma - start + 1) == later);
            assert(text::fields(rest, ',') == seq![field@] + text::fields(later, ','));
            assert(list_items(rest) == seq![trim(field@)] + list_items(later));
            assert(before + (seq![trim(field@)] + list_items(later)) == before.push(trim(field@))
                + list_items(later));
        }
        start = comma + 1;
    }
    items
}

/// Reads a comma-separated list of code points and ranges into the characters that it denotes.
///
/// Numbers that are no Unicode scalar value contribute no character.
pub fn parse_utf_ranges(range_str: &str) -> (chars: Result<Vec<char>, RangeError>)
    ensures
        match chars {
            Ok(v) => utf_ranges(range_str@) == Ok::<Seq<char>, RangeError>(v@),
            Err(e) => utf_ranges(range_str@) == Err::<Seq<char>, RangeError>(e),
        },
{
    let items = split_items(range_str);
    parse_items(items.as_slice())
}

/// Searching in a suffix finds the same position, counted from the start of the suffix.
proof fn lemma_find_skip(s: Seq<char>, c: char, start: int)
    requires
        0 <= start <= s.len(),
    ensures
        text::find(s.skip(start), c, 0) == text::find(s, c, start) - start,
{
    text::lemma_find(s, c, start);
    text::lemma_find(s.skip(start), c, 0);
    let t = s.skip(start);
    let a = text::find(t, c, 0);
    let b = text::find(s, c, start) - start;
    if a < b {
        assert(s[start + a] == c);
    } else if b < a {
        assert(t[b] == c);
    }
}

/// Why a list of replacement characters was refused.
#[derive(Debug, Clone, Copy, PartialEq, Eq, Structural)]
pub enum ReplacementError {
    /// The list could not be read.
    Range(RangeError),
    /// The list denotes no character at all.
    NoCharacters,
}

/// Reads the list of replacement characters, which must not come out empty.
pub fn replacement_list(range_str: &str) -> (chars: Result<Vec<char>, ReplacementError>)
    ensures
        match chars {
            Ok(v) => utf_ranges(range_str@) == Ok::<Seq<char>, RangeError>(v@) && v@.len() > 0,
            Err(ReplacementError::Range(e)) => utf_ranges(range_str@) == Err::<
                Seq<char>,
                RangeError,
            >(e),
            Err(ReplacementError::NoCharacters) => utf_ranges(range_str@) == Ok::<
                Seq<char>,
                RangeError,
            >(Seq::empty()),
        },
{
    match parse_utf_ranges(range_str) {
        Ok(chars) => {
            if chars.len() == 0 {
                assert(chars@ == Seq::<char>::empty());
                Err(ReplacementError::NoCharacters)
            } else {
                Ok(chars)
            }
        },
        Err(e) => Err(ReplacementError::Range(e)),
    }
}

/// Whether all characters are hexadecimal digits.
pub open spec fn all_digits(digits: Seq<char>) -> bool {
    forall|k: int| 0 <= k < digits.len() ==> hex_digit(#[trigger] digits[k]) is Some
}

/// The value of hexadecimal digits by position, without any bound.
pub open spec fn positional(digits: Seq<char>) -> int
    decreases digits.len(),
{
    if digits.len() == 0 {
        0
    } else {
        16 * positional(digits.drop_last()) + hex_digit(digits.last()).unwrap_or(0)
    }
}

/// Digits denote a number exactly if they all are digits and their positional value fits in 32
/// bits, and the number is that value.
pub proof fn lemma_hex_value(digits: Seq<char>)
    ensures
        hex_value(digits) is Ok <==> all_digits(digits) && positional(digits) <= u32::MAX,
        hex_value(digits) matches Ok(v) ==> v == positional(digits),
        positional(digits) >= 0,
    decreases digits.len(),
{
    if digits.len() > 0 {
        let shorter = digits.drop_last();
        lemma_hex_value(shorter);
        assert(hex_digit(digits.last()) matches Some(d) ==> d >= 0);
        if all_digits(digits) {
            assert forall|k: int| 0 <= k < shorter.len() implies hex_digit(
                #[trigger] shorter[k],
            ) is Some by {
                assert(shorter[k] == digits[k]);
            }
        }
        if all_digits(shorter) && hex_digit(digits.last()) is Some {
            assert forall|k: int| 0 <= k < digits.len() implies hex_digit(
                #[trigger] digits[k],
            ) is Some by {
                if k < shorter.len() {
                    assert(shorter[k] == digits[k]);
                }
            }
        }
        if all_digits(digits) {
            assert(digits[digits.len() - 1] == digits.last());
        }
    }
}

/// The prefix `U+` makes no difference.
pub proof fn lemma_prefix_optional(s: Seq<char>)
    ensures
        code_point(seq!['U', '+'] + s) == code_point(s),
{
    let t = seq!['U', '+'] + s;
    assert(t[0] == 'U' && t[1] == '+');
    assert(t.skip(2) == s);
}

/// The code point of a character is a scalar value.
proof fn lemma_char_is_scalar(c: char)
    ensures
        is_scalar(c as int),
{
}

/// A span holds exactly the characters whose code points lie in it, in ascending order.
pub proof fn lemma_span(first: int, last: int)
    requires
        0 <= first,
    ensures
        forall|c: char| #[trigger] span(first, last).contains(c) <==> first <= c as int <= last,
        forall|i: int, j: int|
            0 <= i < j < span(first, last).len() ==> (#[trigger] span(first, last)[i] as int) < (
            #[trigger] span(first, last)[j] as int),
    decreases last - first + 1,
{
    if first <= last {
        lemma_span(first, last - 1);
        let shorter = span(first, last - 1);
        let all = span(first, last);
        assert forall|c: char| #[trigger] all.contains(c) <==> first <= c as int <= last by {
            lemma_char_is_scalar(c);
            if shorter.contains(c) {
                assert(all[shorter.index_of(c)] == c);
            }
            if c as int == last {
                assert(is_scalar(last));
                assert(all[shorter.len() as int] == c);
            }
            if all.contains(c) && !shorter.contains(c) {
                let k = all.index_of(c);
                if k < shorter.len() {
                    assert(shorter[k] == c);
                }
            }
        }
        assert forall|i: int, j: int| 0 <= i < j < all.len() implies (#[trigger] all[i] as int) < (
        #[trigger] all[j] as int) by {
            assert(shorter[i] == all[i]);
            assert(shorter.contains(shorter[i]));
            if j < shorter.len() {
                assert(shorter[j] == all[j]);
            }
        }
    }
}

/// A code point on its own denotes the same as the range from it to itself.
pub proof fn lemma_single_is_range(item: Seq<char>)
    requires
        !item.contains('-'),
    ensures
        range_chars(item.push('-') + item) == range_chars(item),
{
    let whole = item.push('-') + item;
    text::lemma_find(item, '-', 0);
    text::lemma_find(whole, '-', 0);
    let k = text::find(whole, '-', 0);
    if text::find(item, '-', 0) < item.len() {
        assert(item.contains(item[text::find(item, '-', 0)]));
    }
    assert(k == item.len()) by {
        if k < item.len() {
            assert(item[k] == whole[k]);
        }
        if item.len() < k {
            assert(whole[item.len() as int] == '-');
        }
    }
    assert(whole.take(k) == item);
    assert(whole.skip(k + 1) == item);
}

/// A range that runs backwards, or holds surrogates only, denotes no character.
pub proof fn lemma_empty_span(first: int, last: int)
    requires
        first > last || 0xD800 <= first <= last <= 0xDFFF || first > 0x10FFFF,
    ensures
        span(first, last) == Seq::<char>::empty(),
    decreases last - first + 1,
{
    if first <= last {
        lemma_empty_span(first, last - 1);
    }
}

/// Items in a row denote what the first ones denote, then what the others denote; an error among
/// the first ones comes first.
pub proof fn lemma_list_concat(a: Seq<Seq<char>>, b: Seq<Seq<char>>)
    ensures
        list_chars(a + b) == (match list_chars(a) {
            Err(e) => Err::<Seq<char>, RangeError>(e),
            Ok(x) => match list_chars(b) {
                Err(e) => Err(e),
                Ok(y) => Ok(x + y),
            },
        }),
    decreases b.len(),
{
    if b.len() == 0 {
        assert(a + b == a);
        if let Ok(x) = list_chars(a) {
            assert(x + Seq::<char>::empty() == x);
        }
    } else {
        lemma_list_concat(a, b.drop_last());
        assert((a + b).drop_last() == a + b.drop_last());
        assert((a + b).last() == b.last());
        if let (Ok(x), Ok(y)) = (list_chars(a), list_chars(b.drop_last())) {
            if let Ok(z) = range_chars(b.last()) {
                assert(x + (y + z) == (x + y) + z);
            }
        }
    }
}

/// Two lists with a comma between them denote what the one denotes, then what the other denotes;
/// an error in the first comes first.
pub proof fn lemma_ranges_concat(a: Seq<char>, b: Seq<char>)
    ensures
        utf_ranges(a.push(',') + b) == (match utf_ranges(a) {
            Err(e) => Err::<Seq<char>, RangeError>(e),
            Ok(x) => match utf_ranges(b) {
                Err(e) => Err(e),
                Ok(y) => Ok(x + y),
            },
        }),
{
    lemma_items_concat(a, b);
    lemma_list_concat(list_items(a), list_items(b));
}

/// What a range denotes: from `first` to `last`, where both are code points and the first one holds
/// no dash, every character whose code point lies between theirs, both included, and no other, in
/// ascending order. Where one of them is no code point, its error is the error of the range, the
/// first one's before the last one's.
pub proof fn lemma_range_between(first: Seq<char>, last: Seq<char>)
    requires
        !first.contains('-'),
    ensures
        match (code_point(first), code_point(last)) {
            (Ok(a), Ok(b)) => range_chars(first.push('-') + last) matches Ok(chars) && (forall|
                c: char,
            | #[trigger]
                chars.contains(c) <==> a <= c as int <= b) && (forall|i: int, j: int|
                0 <= i < j < chars.len() ==> (#[trigger] chars[i] as int) < (
                #[trigger] chars[j] as int)),
            (Ok(_), Err(e)) => range_chars(first.push('-') + last) == Err::<Seq<char>, RangeError>(
                e,
            ),
            (Err(e), _) => range_chars(first.push('-') + last) == Err::<Seq<char>, RangeError>(e),
        },
{
    let whole = first.push('-') + last;
    text::lemma_find(whole, '-', 0);
    let k = text::find(whole, '-', 0);
    assert(k == first.len()) by {
        if k < first.len() {
            assert(first[k] == whole[k]);
        }
        if first.len() < k {
            assert(whole[first.len() as int] == '-');
        }
    }
    assert(whole.take(k) =~= first);
    assert(whole.skip(k + 1) =~= last);
    if let (Ok(a), Ok(b)) = (code_point(first), code_point(last)) {
        lemma_span(a as int, b as int);
    }
}

/// What an item without a dash denotes: the character with that code point, if there is one. Where
/// the item is no code point, its error is that of the code point.
pub proof fn lemma_single_code_point(item: Seq<char>)
    requires
        !item.contains('-'),
    ensures
        match code_point(item) {
            Ok(cp) => range_chars(item) matches Ok(chars) && chars.len() <= 1 && (forall|c: char|
                #[trigger] chars.contains(c) <==> c as int == cp),
            Err(e) => range_chars(item) == Err::<Seq<char>, RangeError>(e),
        },
{
    text::lemma_find(item, '-', 0);
    if text::find(item, '-', 0) < item.len() {
        assert(item.contains(item[text::find(item, '-', 0)]));
    }
    if let Ok(cp) = code_point(item) {
        let chars = span(cp as int, cp as int);
        lemma_span(cp as int, cp as int);
        if chars.len() > 1 {
            assert(chars.contains(chars[0]));
            assert(chars.contains(chars[1]));
            assert((chars[0] as int) < (chars[1] as int));
        }
    }
}

/// Characters in front of which no prefix `U+` can be completed any more stay at the end when
/// prefixes are dropped.
proof fn lemma_prefix_push(s: Seq<char>, c: char)
    requires
        without_prefix(s).len() > 0,
        !(without_prefix(s) == seq!['U'] && c == '+'),
    ensures
        without_prefix(s.push(c)) == without_prefix(s).push(c),
    decreases s.len(),
{
    let t = s.push(c);
    if s.len() >= 2 {
        assert(t[0] == s[0] && t[1] == s[1]);
        if s[0] == 'U' && s[1] == '+' {
            assert(t.skip(2) =~= s.skip(2).push(c));
            lemma_prefix_push(s.skip(2), c);
        }
    } else {
        assert(s.len() == 1);
        if s[0] == 'U' {
            assert(s =~= seq!['U']);
        }
        assert(t[1] == c);
    }
}

/// How a code point is read: nothing is none, a character on its own counts as its hexadecimal
/// digit, and a `+` in front of it makes no difference.
pub proof fn lemma_code_point_start(c: char, d: int)
    requires
        0 <= d < 16,
    ensures
        code_point(Seq::empty()) == Err::<u32, RangeError>(RangeError::Empty),
        c == "0123456789abcdef"@[d] || c == "0123456789ABCDEF"@[d] ==> code_point(seq![c]) == Ok::<
            u32,
            RangeError,
        >(d as u32),
        !"0123456789abcdef"@.contains(c) && !"0123456789ABCDEF"@.contains(c) ==> code_point(seq![c])
            == Err::<u32, RangeError>(RangeError::InvalidDigit),
        code_point(seq!['+', c]) == code_point(seq![c]),
{
    lemma_digits(c, d);
    let one = seq![c];
    let two = seq!['+', c];
    assert(one.drop_last() =~= Seq::<char>::empty());
    assert(two.skip(1) =~= one);
    reveal_with_fuel(hex_value, 2);
    reveal_with_fuel(without_prefix, 2);
}

/// The hexadecimal digits, in lower and in upper case.
proof fn lemma_digits(c: char, d: int)
    requires
        0 <= d < 16,
    ensures
        c == "0123456789abcdef"@[d] || c == "0123456789ABCDEF"@[d] <==> hex_digit(c) == Some(d),
        "0123456789abcdef"@.contains(c) || "0123456789ABCDEF"@.contains(c) <==> hex_digit(
            c,
        ) is Some,
{
    reveal_strlit("0123456789abcdef");
    reveal_strlit("0123456789ABCDEF");
    let low = "0123456789abcdef"@;
    let high = "0123456789ABCDEF"@;
    assert forall|k: int| 0 <= k < 16 implies hex_digit(#[trigger] low[k]) == Some(k) by {
    }
    assert forall|k: int| 0 <= k < 16 implies hex_digit(#[trigger] high[k]) == Some(k) by {
    }
    if let Some(k) = hex_digit(c) {
        assert(0 <= k < 16);
        if 'A' <= c <= 'F' {
            assert(high[k] as int == 'A' as int + k - 10);
            assert(high[k] == c);
        } else {
            assert(low[k] as int == c as int);
            assert(low[k] == c);
        }
    }
    if low.contains(c) {
        assert(hex_digit(low[low.index_of(c)]) is Some);
    }
    if high.contains(c) {
        assert(hex_digit(high[high.index_of(c)]) is Some);
    }
}

/// How reading goes on: another digit makes the number sixteen times as large and adds the value of
/// the digit, as long as that fits in 32 bits; anything else is no digit.
pub proof fn lemma_code_point_digit(s: Seq<char>, v: u32, c: char, d: int)
    requires
        code_point(s) == Ok::<u32, RangeError>(v),
        0 <= d < 16,
    ensures
        c == "0123456789abcdef"@[d] || c == "0123456789ABCDEF"@[d] ==> code_point(s.push(c)) == (
        if 16 * v + d <= u32::MAX {
            Ok::<u32, RangeError>((16 * v + d) as u32)
        } else {
            Err(RangeError::Overflow)
        }),
        !"0123456789abcdef"@.contains(c) && !"0123456789ABCDEF"@.contains(c) ==> code_point(
            s.push(c),
        ) == Err::<u32, RangeError>(RangeError::InvalidDigit),
{
    lemma_digits(c, d);
    let t = without_prefix(s);
    assert(t != seq!['U']) by {
        assert(seq!['U'].drop_last() =~= Seq::<char>::empty());
        reveal_with_fuel(hex_value, 2);
    }
    lemma_prefix_push(s, c);
    lemma_number_push(t, c);
}

/// A number with another character behind it is read on from where it was.
proof fn lemma_number_push(t: Seq<char>, c: char)
    requires
        t.len() > 0,
        t != seq!['+'],
    ensures
        hex_number(t.push(c)) == (match hex_number(t) {
            Err(e) => Err::<u32, RangeError>(e),
            Ok(v) => match hex_digit(c) {
                None => Err(RangeError::InvalidDigit),
                Some(d) => if 16 * v + d <= u32::MAX {
                    Ok((16 * v + d) as u32)
                } else {
                    Err(RangeError::Overflow)
                },
            },
        }),
{
    let u = t.push(c);
    assert(u[0] == t[0]);
    if t[0] != '+' {
        assert(u.drop_last() =~= t);
    } else {
        if t.len() == 1 {
            assert(t =~= seq!['+']);
        }
        assert(u.skip(1).drop_last() =~= t.skip(1));
        assert(u.skip(1).last() == c);
    }
}

/// Once a number is too large it stays so, and once a character is no digit nothing behind it mends
/// that, unless it is a `+` or part of a prefix `U+`.
pub proof fn lemma_code_point_error(s: Seq<char>, c: char)
    ensures
        code_point(s) == Err::<u32, RangeError>(RangeError::Overflow) ==> code_point(s.push(c))
            == code_point(s),
        code_point(s) == Err::<u32, RangeError>(RangeError::InvalidDigit) && !(s.len() >= 2 && s[0]
            == 'U' && s[1] == '+') && s != seq!['+'] && !(s == seq!['U'] && c == '+')
            ==> code_point(s.push(c)) == code_point(s),
{
    let t = without_prefix(s);
    if code_point(s) == Err::<u32, RangeError>(RangeError::Overflow) {
        assert(t != seq!['U'] && t != seq!['+']) by {
            assert(seq!['U'].drop_last() =~= Seq::<char>::empty());
            reveal_with_fuel(hex_value, 2);
        }
        lemma_prefix_push(s, c);
        lemma_number_push(t, c);
    } else if code_point(s) == Err::<u32, RangeError>(RangeError::InvalidDigit) && !(s.len() >= 2
        && s[0] == 'U' && s[1] == '+') && s != seq!['+'] && !(s == seq!['U'] && c == '+') {
        lemma_prefix_push(s, c);
        lemma_number_push(t, c);
    }
}

/// A list without a comma is one item, from which white space is trimmed, and denotes what that
/// item denotes.
pub proof fn lemma_single_item(item: Seq<char>)
    requires
        !item.contains(','),
    ensures
        list_items(item) == seq![text::trim_text(item)],
        utf_ranges(item) == range_chars(text::trim_text(item)),
{
    text::lemma_single_field(item, ',');
    assert(list_items(item) =~= seq![text::trim_text(item)]);
    lemma_list_of_one(text::trim_text(item));
}

/// A list of one item denotes what that item denotes, and a list of none denotes no character.
pub proof fn lemma_list_of_one(item: Seq<char>)
    ensures
        list_chars(seq![item]) == range_chars(item),
        list_chars(Seq::empty()) == Ok::<Seq<char>, RangeError>(Seq::empty()),
{
    let list = seq![item];
    assert(list.drop_last() =~= Seq::<Seq<char>>::empty());
    reveal_with_fuel(list_chars, 2);
    if let Ok(chars) = range_chars(item) {
        assert(Seq::<char>::empty() + chars =~= chars);
    }
}

/// A comma parts the items before it from those after it.
pub proof fn lemma_items_concat(a: Seq<char>, b: Seq<char>)
    ensures
        list_items(a.push(',') + b) == list_items(a) + list_items(b),
{
    text::lemma_fields_concat(a, b, ',');
    assert(list_items(a.push(',') + b) =~= list_items(a) + list_items(b));
}

} // verus!

use archaic_word_finder::ranges::{
    parse_code_point, parse_items, parse_range, parse_utf_ranges, replacement_list, split_items,
    RangeError, ReplacementError,
};

fn chars(s: &str) -> Vec<char> {
    s.chars().collect()
}

#[test]
fn default_ranges_give_three_letters() {
    assert_eq!(
        parse_utf_ranges("U+0456-U+0456,U+0438-U+0438,U+0435-U+0435"),
        Ok(vec!['і', 'и', 'е'])
    );
}

#[test]
fn ranges_are_inclusive_and_keep_their_order() {
    assert_eq!(parse_utf_ranges("U+0043-U+0045,0041"), Ok(vec!['C', 'D', 'E', 'A']));
    assert_eq!(parse_utf_ranges("0041,U+0043-U+0045"), Ok(vec!['A', 'C', 'D', 'E']));
}

#[test]
fn single_code_point_is_a_range_of_one() {
    assert_eq!(parse_utf_ranges("U+0456"), parse_utf_ranges("U+0456-U+0456"));
    assert_eq!(parse_utf_ranges("U+0456"), Ok(vec!['і']));
}

#[test]
fn prefix_is_optional_and_may_repeat() {
    assert_eq!(parse_utf_ranges("456"), Ok(vec!['і']));
    assert_eq!(parse_utf_ranges("U+U+0456"), Ok(vec!['і']));
    assert_eq!(parse_utf_ranges("+456"), Ok(vec!['і']));
    assert_eq!(parse_utf_ranges("u+0456"), Err(RangeError::InvalidDigit));
}

#[test]
fn white_space_around_items_is_ignored() {
    assert_eq!(parse_utf_ranges(" U+0041 ,\u{a0}U+0042\t"), Ok(vec!['A', 'B']));
    assert_eq!(parse_utf_ranges("U+0041 - U+0042"), Err(RangeError::InvalidDigit));
}

#[test]
fn backward_range_is_empty() {
    assert_eq!(parse_utf_ranges("U+0042-U+0041"), Ok(vec![]));
}

#[test]
fn surrogates_and_large_numbers_denote_no_character() {
    assert_eq!(parse_utf_ranges("U+D7FF-U+E000"), Ok(vec!['\u{d7ff}', '\u{e000}']));
    assert_eq!(parse_utf_ranges("D800,DFFF,110000"), Ok(vec![]));
    assert_eq!(parse_utf_ranges("10FFFF-110003"), Ok(vec!['\u{10ffff}']));
}

#[test]
fn range_errors() {
    assert_eq!(parse_utf_ranges(""), Err(RangeError::Empty));
    assert_eq!(parse_utf_ranges("0041,"), Err(RangeError::Empty));
    assert_eq!(parse_utf_ranges("U+"), Err(RangeError::Empty));
    assert_eq!(parse_utf_ranges("-0041"), Err(RangeError::Empty));
    assert_eq!(parse_utf_ranges("0041-"), Err(RangeError::Empty));
    assert_eq!(parse_utf_ranges("0041-0042-0043"), Err(RangeError::InvalidDigit));
    assert_eq!(parse_utf_ranges("xyz"), Err(RangeError::InvalidDigit));
    assert_eq!(parse_utf_ranges("100000000"), Err(RangeError::Overflow));
    assert_eq!(parse_utf_ranges("0041-100000000"), Err(RangeError::Overflow));
    assert_eq!(parse_utf_ranges("zz,100000000"), Err(RangeError::InvalidDigit));
    assert_eq!(parse_utf_ranges("100000000,zz"), Err(RangeError::Overflow));
}

#[test]
fn code_points_agree_with_the_standard_library() {
    let samples = [
        "", "+", "-", "+1", "-1", "++1", "0", "00000000000041", "ffffffff", "FFFFFFFF", "fFfF",
        "100000000", "FFFFFFFFG", "FFFFFFFFFG", "GFFFFFFFFFF", "12 ", " 12", "1_2", "é", "12é",
        "FFFFFFFFFé", "+ffffffff", "+100000000", "DEADBEEF", "10ffff",
    ];
    for s in samples {
        let ours = parse_code_point(&chars(s));
        let theirs = u32::from_str_radix(s, 16);
        match (ours, theirs) {
            (Ok(a), Ok(b)) => assert_eq!(a, b, "{}", s),
            (Err(a), Err(b)) => {
                let kind = match b.kind() {
                    std::num::IntErrorKind::Empty => RangeError::Empty,
                    std::num::IntErrorKind::InvalidDigit => RangeError::InvalidDigit,
                    std::num::IntErrorKind::PosOverflow => RangeError::Overflow,
                    _ => panic!("unexpected kind for {}", s),
                };
                assert_eq!(a, kind, "{}", s);
            }
            _ => panic!("disagreement on {}", s),
        }
    }
}

#[test]
fn one_item_is_read_without_trimming() {
    assert_eq!(parse_range(&chars("41-43")), Ok(vec!['A', 'B', 'C']));
    assert_eq!(parse_range(&chars(" 41")), Err(RangeError::InvalidDigit));
}

#[test]
fn lists_concatenate() {
    let mut left = parse_utf_ranges("41-42,5A").unwrap();
    let right = parse_utf_ranges("456,430-432").unwrap();
    left.extend(right);
    assert_eq!(parse_utf_ranges("41-42,5A,456,430-432"), Ok(left));
}

#[test]
fn replacement_list_must_not_be_empty() {
    assert_eq!(replacement_list("41"), Ok(vec!['A']));
    assert_eq!(replacement_list("42-41"), Err(ReplacementError::NoCharacters));
    assert_eq!(replacement_list("D800"), Err(ReplacementError::NoCharacters));
    assert_eq!(
        replacement_list("q"),
        Err(ReplacementError::Range(RangeError::InvalidDigit))
    );
}

#[test]
fn items_are_cut_at_commas_and_trimmed() {
    assert_eq!(split_items(" 41, ,\u{a0}4 2"), vec![chars("41"), chars(""), chars("4 2")]);
    assert_eq!(split_items(""), vec![chars("")]);
}

#[test]
fn given_items_are_read_in_order() {
    assert_eq!(parse_items(&[chars("42"), chars("41-42")]), Ok(vec!['B', 'A', 'B']));
    assert_eq!(parse_items(&[chars("42"), chars("x"), chars("")]), Err(RangeError::InvalidDigit));
    assert_eq!(parse_items(&[]), Ok(vec![]));
}

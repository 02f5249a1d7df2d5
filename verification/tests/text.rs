use archaic_word_finder::text::{
    chars_of, mark_letters, mark_spaces, position_of, push_decimal, split_words, string_of,
    trim_chars, trim_marked,
};

#[test]
fn characters_round_trip() {
    let chars = chars_of("Заяц, ё!");
    assert_eq!(chars.len(), 8);
    assert_eq!(chars[7], '!');
    assert_eq!(string_of(&chars), "Заяц, ё!");
}

#[test]
fn words_agree_with_the_standard_library() {
    for s in ["", " ", "a", " a  bc\td\n", "\u{a0}x\u{2003}y\u{3000}", "нет пробелов", "a\u{200b}b"] {
        let chars = chars_of(s);
        let words = split_words(&chars, &mark_spaces(&chars));
        let ours: Vec<String> = words.iter().map(|w| string_of(w)).collect();
        let theirs: Vec<&str> = s.split_whitespace().collect();
        assert_eq!(ours, theirs);
    }
}

#[test]
fn words_between_given_marks() {
    let chars = chars_of("ab-c--");
    let marks = vec![false, false, true, false, true, true];
    assert_eq!(split_words(&chars, &marks), vec![vec!['a', 'b'], vec!['c']]);
}

#[test]
fn trimming_agrees_with_the_standard_library() {
    for s in ["", "  ", "a", "  a b\t", "\u{a0}слово\u{2028}", "\u{feff}x "] {
        assert_eq!(string_of(&trim_chars(s)), s.trim());
    }
}

#[test]
fn trimming_by_given_marks() {
    let chars = chars_of("xaxbx");
    let marks = vec![true, false, true, false, true];
    assert_eq!(trim_marked(&chars, &marks), vec!['a', 'x', 'b']);
    assert_eq!(trim_marked(&chars, &vec![true; 5]), Vec::<char>::new());
}

#[test]
fn letters_are_marked() {
    assert_eq!(mark_letters(&chars_of("яZ7!ѣ")), vec![true, true, false, false, true]);
}

#[test]
fn positions() {
    let chars = chars_of("a-b-");
    assert_eq!(position_of(&chars, '-', 0), 1);
    assert_eq!(position_of(&chars, '-', 2), 3);
    assert_eq!(position_of(&chars, 'z', 0), 4);
}

#[test]
fn numerals() {
    for n in [0, 1, 9, 10, 90701, usize::MAX] {
        let mut s = String::from("n=");
        push_decimal(&mut s, n);
        assert_eq!(s, format!("n={}", n));
    }
}

#[test]
fn white_space_is_what_unicode_lists() {
    for c in '\0'..=char::MAX {
        let listed = matches!(c,
            '\u{9}'..='\u{D}' | '\u{20}' | '\u{85}' | '\u{A0}' | '\u{1680}'
            | '\u{2000}'..='\u{200A}' | '\u{2028}' | '\u{2029}' | '\u{202F}' | '\u{205F}' | '\u{3000}');
        assert_eq!(mark_spaces(&[c]), vec![listed]);
    }
}

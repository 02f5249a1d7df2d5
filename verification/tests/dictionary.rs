use archaic_word_finder::dictionary::{
    read_words, Dictionary, DictionaryError, Method, WordIndex, WordList,
};
use archaic_word_finder::morphology::can_stem;

fn lines(list: &[&str]) -> Vec<String> {
    list.iter().map(|s| s.to_string()).collect()
}

fn dictionary(list: &[&str], fold: bool) -> Dictionary {
    match read_words(&lines(list), fold) {
        Ok(words) => Dictionary::build(words, 1000),
        Err(_) => panic!("no words"),
    }
}

/// A dictionary with other words around the listed ones, sized so that its filters have some eighty
/// hash functions and half of their bits set: whether they turn away a string that is not listed
/// is then no longer a matter of luck.
fn large_dictionary(list: &[&str], fold: bool) -> Dictionary {
    let mut all = lines(list);
    all.extend((0..200).map(|n| format!("слово{}", n)));
    match read_words(&all, fold) {
        Ok(words) => Dictionary::build(words, 3000),
        Err(_) => panic!("no words"),
    }
}

#[test]
fn words_are_trimmed_and_blank_lines_ignored() {
    match read_words(&lines(&["  Заяц\t", "", " \u{a0}", "абіе"]), true) {
        Ok(list) => {
            assert_eq!(list.exact, lines(&["Заяц", "абіе"]));
            assert_eq!(list.lowered, Some(lines(&["заяц", "абіе"])));
        }
        Err(_) => panic!("no words"),
    }
}

#[test]
fn no_lower_case_list_without_folding() {
    match read_words(&lines(&["Заяц"]), false) {
        Ok(list) => assert_eq!(list.lowered, None),
        Err(_) => panic!("no words"),
    }
}

#[test]
fn blank_dictionary_is_refused() {
    assert!(matches!(read_words(&lines(&[]), true), Err(DictionaryError::NoWords)));
    assert!(matches!(read_words(&lines(&["", "  "]), false), Err(DictionaryError::NoWords)));
}

#[test]
fn index_knows_its_words() {
    let index = WordIndex::build(lines(&["один", "два"]), 100_000, 20_000);
    assert!(index.contains("один"));
    assert!(index.contains("два"));
    assert!(!index.contains("Один"));
    assert!(index.passes(&"один".to_string()));
    assert!(index.passes(&"два".to_string()));
    assert!(!index.passes(&"три".to_string()));
    assert!(!WordIndex::build(vec![], 100, 2).passes(&"один".to_string()));
}

#[test]
fn filters_lose_no_word() {
    let words: Vec<String> = (0..500).map(|n| format!("слово{}", n)).collect();
    let index = WordIndex::build(words.clone(), 7, 500);
    for word in &words {
        assert!(index.passes(word));
        assert!(index.contains(word));
    }
}

#[test]
fn case_matters_without_folding() {
    let dict = large_dictionary(&["Заяц"], false);
    assert!(dict.screen(&"Заяц".to_string()));
    assert!(!dict.screen(&"заяц".to_string()));
    assert_eq!(dict.judge("Заяц", "заяц", "заяц"), Some(Method::Exact));
    assert_eq!(dict.judge("заяц", "заяц", "заяц"), None);
}

#[test]
fn case_is_folded_on_request() {
    let dict = dictionary(&["Заяц"], true);
    assert!(dict.screen(&"Заяц".to_string()));
    assert!(dict.screen(&"ЗАЯЦ".to_string()));
    assert_eq!(dict.judge("ЗАЯЦ", "заяц", "заяц"), Some(Method::Exact));
    assert_eq!(dict.judge("зайцы", "зайцы", "заяц"), Some(Method::Stemmed));
    assert_eq!(dict.judge("волк", "волк", "волк"), None);
}

#[test]
fn stems_are_looked_up_last() {
    let dict = dictionary(&["книг"], false);
    assert_eq!(dict.judge("книги", "книги", "книг"), Some(Method::Stemmed));
    assert_eq!(dict.judge("книг", "книг", "книг"), Some(Method::Exact));
}

#[test]
fn dictionary_from_given_lower_case_words() {
    let list = WordList { exact: lines(&["Аз"]), lowered: Some(lines(&["буки"])) };
    let dict = Dictionary::build(list, 64);
    assert_eq!(dict.judge("x", "буки", "y"), Some(Method::Exact));
    assert_eq!(dict.judge("x", "аз", "y"), None);
}

#[test]
fn ordinary_words_can_be_stemmed() {
    assert!(can_stem(""));
    assert!(can_stem("превысокомногорассмотрительствующий"));
}

#[test]
fn blank_words_are_not_added() {
    let mut list = WordList { exact: vec![], lowered: Some(vec![]) };
    list.add("Аз".to_string(), Some("аз".to_string()));
    list.add("".to_string(), Some("".to_string()));
    assert_eq!(list.exact, lines(&["Аз"]));
    assert_eq!(list.lowered, Some(lines(&["аз"])));
    let mut plain = WordList { exact: vec![], lowered: None };
    plain.add("Аз".to_string(), None);
    assert_eq!(plain.exact, lines(&["Аз"]));
    assert_eq!(plain.lowered, None);
}

#[test]
fn filters_look_at_both_forms() {
    let dict = large_dictionary(&["Заяц"], true);
    assert!(dict.admits(&"Заяц".to_string(), &"x".to_string()));
    assert!(dict.admits(&"x".to_string(), &"заяц".to_string()));
    assert!(!dict.admits(&"x".to_string(), &"Заяц".to_string()));
    let strict = large_dictionary(&["Заяц"], false);
    assert!(!strict.admits(&"x".to_string(), &"Заяц".to_string()));
}

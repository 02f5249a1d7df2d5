use archaic_word_finder::dictionary::{read_words, Dictionary, Method};
use archaic_word_finder::ranges::replacement_list;
use archaic_word_finder::search::{
    clean_word, examine, is_searchable, line_label, method_name, process_lines, process_text, MatchResult,
};
use archaic_word_finder::symbols::SymbolSet;

const RANGES: &str = "U+0456-U+0456,U+0438-U+0438,U+0435-U+0435";

fn lines(list: &[&str]) -> Vec<String> {
    list.iter().map(|s| s.to_string()).collect()
}

fn dictionary(list: &[&str], fold: bool, bitmap: usize) -> Dictionary {
    match read_words(&lines(list), fold) {
        Ok(words) => Dictionary::build(words, bitmap),
        Err(_) => panic!("no words"),
    }
}

fn search(text: &str, dict: &Dictionary) -> Vec<MatchResult> {
    let reps = replacement_list(RANGES).unwrap();
    process_text(text, "book:line_1", dict, &SymbolSet::from_symbols("!"), &reps, 2, 5000).unwrap()
}

fn summary(list: &[MatchResult]) -> Vec<(String, usize, String, String)> {
    list.iter()
        .map(|m| {
            (
                m.original_word.clone(),
                m.position,
                m.candidate.clone(),
                m.validation_method.clone(),
            )
        })
        .collect()
}

fn row(original: &str, position: usize, candidate: &str, method: &str) -> (String, usize, String, String) {
    (original.to_string(), position, candidate.to_string(), method.to_string())
}

#[test]
fn restores_the_words_of_the_examples() {
    let dict = dictionary(&["абіе", "аберраціи", "Абиссинія"], false, 1000);
    assert_eq!(
        summary(&search("вот аб!е, и (аберрац!и) Абиссин!я", &dict)),
        vec![
            row("аб!е", 1, "абіе", "exact"),
            row("аберрац!и", 3, "аберраціи", "exact"),
            row("Абиссин!я", 4, "Абиссинія", "exact"),
        ]
    );
}

#[test]
fn all_fields_of_a_match() {
    let dict = dictionary(&["книги"], false, 1000);
    let found = search("— кн!ги!", &dict);
    assert_eq!(found.len(), 0);
    let found = search("— «кн!ги»", &dict);
    assert_eq!(found.len(), 1);
    assert_eq!(found[0].source_file, "book:line_1");
    assert_eq!(found[0].original_word, "кн!ги");
    assert_eq!(found[0].position, 1);
    assert_eq!(found[0].candidate, "книги");
    assert_eq!(found[0].stemmed, "книг");
    assert_eq!(found[0].validation_method, "exact");
}

#[test]
fn case_of_the_text_is_kept_when_folding() {
    let strict = dictionary(&["абіе"], false, 1000);
    let folding = dictionary(&["абіе"], true, 1000);
    assert_eq!(summary(&search("аБ!е", &strict)), vec![]);
    assert_eq!(summary(&search("аБ!е", &folding)), vec![row("аБ!е", 0, "аБіе", "exact")]);
    assert_eq!(summary(&search("аб!е", &strict)), summary(&search("аб!е", &folding)));
}

#[test]
fn upper_case_entry_is_found_in_lower_case_when_folding() {
    let folding = dictionary(&["Абіе"], true, 1000);
    assert_eq!(summary(&search("аб!е", &folding)), vec![row("аб!е", 0, "абіе", "exact")]);
}

#[test]
fn stems_are_accepted_when_the_filter_lets_the_word_pass() {
    let mut words: Vec<String> = (0..400).map(|n| format!("слово{}", n)).collect();
    words.push("книг".to_string());
    let list: Vec<&str> = words.iter().map(|w| w.as_str()).collect();
    let dict = dictionary(&list, false, 1);
    assert_eq!(summary(&search("кн!ги", &dict)), vec![row("кн!ги", 0, "книги", "stemmed")]);
    let sharp = dictionary(&list, false, 6000);
    assert_eq!(summary(&search("кн!ги", &sharp)), vec![]);
}

#[test]
fn short_words_are_skipped() {
    let dict = dictionary(&["і", "и"], false, 1000);
    assert_eq!(summary(&search("! !", &dict)), vec![]);
    let reps = vec!['і'];
    let symbols = SymbolSet::from_symbols("ъ");
    let found = process_text("ъ", "s", &dict, &symbols, &reps, 2, 5000).unwrap();
    assert_eq!(summary(&found), vec![row("ъ", 0, "і", "exact")]);
}

#[test]
fn nothing_is_found_without_symbols() {
    let dict = dictionary(&["абіе"], true, 1000);
    assert_eq!(summary(&search("абіе абие", &dict)), vec![]);
    assert_eq!(summary(&search("", &dict)), vec![]);
}

#[test]
fn limit_bounds_the_spellings_per_word() {
    let dict = dictionary(&["абие"], false, 1000);
    let symbols = SymbolSet::from_symbols("!");
    let reps = replacement_list(RANGES).unwrap();
    let one = process_text("аб!е аб!е", "s", &dict, &symbols, &reps, 2, 1).unwrap();
    assert_eq!(one.len(), 0);
    let two = process_text("аб!е аб!е", "s", &dict, &symbols, &reps, 2, 2).unwrap();
    assert_eq!(summary(&two), vec![row("аб!е", 0, "абие", "exact"), row("аб!е", 1, "абие", "exact")]);
}

#[test]
fn exact_matches_are_the_same_under_all_keys() {
    let text = "аб!е кн!ги аберрац!и";
    let expected = summary(&search(text, &dictionary(&["абіе", "аберраціи"], true, 1000)));
    assert_eq!(expected.len(), 2);
    for _ in 0..20 {
        let again = search(text, &dictionary(&["абіе", "аберраціи"], true, 1000));
        assert_eq!(summary(&again), expected);
    }
}

#[test]
fn cleaning_keeps_letters_and_symbols() {
    let symbols = SymbolSet::from_symbols("!");
    let word = vec!['(', 'а', '!', '1'];
    assert_eq!(clean_word(&word, &[false, true, false, false], &symbols), vec!['а', '!']);
    assert_eq!(clean_word(&word, &[true, false, false, true], &symbols), vec!['(', '!', '1']);
}

#[test]
fn searchable_words_have_two_bytes_and_a_symbol() {
    let symbols = SymbolSet::from_symbols("!ъ");
    assert!(!is_searchable(&"!".to_string(), &symbols));
    assert!(!is_searchable(&"".to_string(), &symbols));
    assert!(!is_searchable(&"ab".to_string(), &symbols));
    assert!(is_searchable(&"ъ".to_string(), &symbols));
    assert!(is_searchable(&"a!".to_string(), &symbols));
}

#[test]
fn method_names() {
    assert_eq!(method_name(Method::Exact), "exact");
    assert_eq!(method_name(Method::Stemmed), "stemmed");
}

#[test]
fn labels_count_from_one() {
    assert_eq!(line_label("stdin", 0), "stdin:line_1");
    assert_eq!(line_label("dir/book.txt", 90700), "dir/book.txt:line_90701");
    assert_ne!(line_label("stdin", 0), line_label("stdin", 10));
}

#[test]
fn chunks_make_no_difference() {
    let dict = dictionary(&["абіе", "книги"], true, 1000);
    let symbols = SymbolSet::from_symbols("!");
    let reps = replacement_list(RANGES).unwrap();
    let text = lines(&["аб!е", "", "кн!ги аБ!е", "нет", "АБ!Е"]);
    let whole = process_lines(&text, "stdin", 0, &dict, &symbols, &reps, 2, 5000).unwrap();
    let label = |list: &Vec<MatchResult>| -> Vec<(String, String)> {
        list.iter().map(|m| (m.source_file.clone(), m.candidate.clone())).collect()
    };
    assert_eq!(
        label(&whole),
        vec![
            ("stdin:line_1".to_string(), "абіе".to_string()),
            ("stdin:line_3".to_string(), "книги".to_string()),
            ("stdin:line_3".to_string(), "аБіе".to_string()),
            ("stdin:line_5".to_string(), "АБіЕ".to_string()),
        ]
    );
    for size in 1..6 {
        let mut parts = Vec::new();
        for (k, chunk) in text.chunks(size).enumerate() {
            let part = process_lines(chunk, "stdin", k * size, &dict, &symbols, &reps, 2, 5000);
            parts.extend(part.unwrap());
        }
        assert_eq!(label(&parts), label(&whole));
    }
}

#[test]
fn given_forms_are_looked_up() {
    let dict = dictionary(&["Книги", "книг"], true, 1000);
    let exact = examine(&dict, "s", "кн!ги", 3, "кНиги", "книги", "x".to_string()).unwrap();
    assert_eq!(exact.validation_method, "exact");
    assert_eq!(exact.stemmed, "x");
    assert_eq!(exact.candidate, "кНиги");
    assert_eq!(exact.position, 3);
    let stemmed = examine(&dict, "s", "кн!гу", 0, "книгу", "книгу", "книг".to_string()).unwrap();
    assert_eq!(stemmed.validation_method, "stemmed");
    assert_eq!(stemmed.original_word, "кн!гу");
    assert!(examine(&dict, "s", "кн!гу", 0, "книгу", "книгу", "кни".to_string()).is_none());
}

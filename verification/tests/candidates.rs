use archaic_word_finder::candidates::generate_candidates;
use archaic_word_finder::symbols::SymbolSet;

fn generate(word: &str, symbols: &str, reps: &[char], max: u8, limit: usize) -> Vec<(String, usize)> {
    generate_candidates(word, &SymbolSet::from_symbols(symbols), reps, max, limit)
}

fn pairs(list: &[(&str, usize)]) -> Vec<(String, usize)> {
    list.iter().map(|(s, i)| (s.to_string(), *i)).collect()
}

#[test]
fn symbol_set_holds_exactly_its_symbols() {
    let set = SymbolSet::from_symbols("!і!");
    assert!(set.contains('!'));
    assert!(set.contains('і'));
    assert!(!set.contains('i'));
    assert!(!SymbolSet::from_symbols("").contains('!'));
}

#[test]
fn one_symbol_is_replaced_by_each_replacement() {
    assert_eq!(
        generate("аб!е", "!", &['і', 'и', 'е'], 2, 5000),
        pairs(&[("абіе", 2), ("абие", 2), ("абее", 2)])
    );
}

#[test]
fn two_symbols_are_replaced_by_pairs() {
    assert_eq!(
        generate("а!!б", "!", &['x', 'y'], 2, 5000),
        pairs(&[("аxxб", 1), ("аxyб", 1), ("аyxб", 1), ("аyyб", 1)])
    );
}

#[test]
fn only_one_run_is_replaced_at_a_time() {
    assert_eq!(generate("!а!", "!", &['x'], 2, 5000), pairs(&[("xа!", 0), ("!аx", 2)]));
}

#[test]
fn runs_of_one_when_asked_for() {
    let expected = pairs(&[("x!", 0), ("!x", 1)]);
    assert_eq!(generate("!!", "!", &['x'], 1, 5000), expected);
    assert_eq!(generate("!!", "!", &['x'], 0, 5000), expected);
}

#[test]
fn three_symbols_with_runs_of_two() {
    assert_eq!(generate("!!!", "!", &['x'], 2, 5000), pairs(&[("xx!", 0), ("!!x", 2)]));
}

#[test]
fn longer_runs_are_passed_over() {
    assert_eq!(generate("!!!", "!", &['x'], 3, 5000), pairs(&[("!xx", 1)]));
    assert_eq!(generate("!!!!", "!", &['x'], 255, 5000), pairs(&[("!!xx", 2)]));
}

#[test]
fn different_symbols_make_one_run() {
    assert_eq!(generate("?!", "!?", &['x'], 2, 5000), pairs(&[("xx", 0)]));
}

#[test]
fn limit_cuts_the_list() {
    let all = generate("!а!!", "!", &['x', 'y', 'z'], 2, 5000);
    assert_eq!(all.len(), 12);
    for limit in 1..15 {
        let some = generate("!а!!", "!", &['x', 'y', 'z'], 2, limit);
        assert_eq!(some.len(), std::cmp::min(limit, 12));
        assert_eq!(some[..], all[..some.len()]);
    }
    assert_eq!(generate("!а!!", "!", &['x', 'y', 'z'], 2, 0), all[..1].to_vec());
}

#[test]
fn nothing_to_replace_or_to_replace_by() {
    assert_eq!(generate("абв", "!", &['x'], 2, 5000), vec![]);
    assert_eq!(generate("а!в", "!", &[], 2, 5000), vec![]);
    assert_eq!(generate("", "!", &['x'], 2, 5000), vec![]);
}

#[test]
fn everything_else_is_kept() {
    for (spelling, at) in generate("Аб!Де!!", "!", &['і', 'и'], 2, 5000) {
        let before: Vec<char> = "Аб!Де!!".chars().collect();
        let after: Vec<char> = spelling.chars().collect();
        assert_eq!(after.len(), before.len());
        for k in 0..before.len() {
            if after[k] != before[k] {
                assert!(k >= at && k < at + 2);
                assert_eq!(before[k], '!');
                assert!(after[k] == 'і' || after[k] == 'и');
            }
        }
    }
}

//! What a search does, stated over its arguments and its results.

use crate::candidates;
use crate::dictionary;
use crate::dictionary::{Dictionary, Lexicon};
use crate::morphology;
use crate::search;
use crate::search::{Finding, MatchResult, Query};
use crate::symbols::SymbolSet;
use crate::text;
use vstd::prelude::*;

verus! {

/// A search goes by the arguments that it is given, each of them as it is.
pub proof fn lemma_query(
    dict: &Dictionary,
    target_symbols: &SymbolSet,
    replacements: &[char],
    max_consecutive: u8,
    max_combinations: usize,
)
    ensures
        ({
            let q = search::query(
                dict,
                target_symbols,
                replacements,
                max_consecutive,
                max_combinations,
            );
            &&& q.lexicon == dict@
            &&& q.symbols == target_symbols@
            &&& q.replacements == replacements@
            &&& q.max_run == max_consecutive
            &&& q.limit == max_combinations
        }),
{
}

/// The findings in a list of results are its items, field by field and in order.
pub proof fn lemma_findings(list: Seq<MatchResult>)
    ensures
        search::findings(list).len() == list.len(),
        forall|k: int|
            #![trigger search::findings(list)[k]]
            #![trigger list[k]]
            0 <= k < list.len() ==> search::findings(list)[k] == (Finding {
                source_file: list[k].source_file@,
                original_word: list[k].original_word@,
                position: list[k].position as int,
                candidate: list[k].candidate@,
                stemmed: list[k].stemmed@,
                validation_method: list[k].validation_method@,
            }),
{
}

/// Cleaning a word by given marks keeps the marked characters and the symbols, in order, and drops
/// everything else.
pub proof fn lemma_kept(word: Seq<char>, letters: Seq<bool>, symbols: Set<char>)
    requires
        word.len() == letters.len(),
    ensures
        text::select(word, search::kept_marks(word, letters, symbols)) == word.zip_with(
            letters,
        ).filter(|p: (char, bool)| p.1 || symbols.contains(p.0)).map_values(
            |p: (char, bool)| p.0,
        ),
    decreases word.len(),
{
    let keep = |p: (char, bool)| p.1 || symbols.contains(p.0);
    let take = |p: (char, bool)| p.0;
    let marks = search::kept_marks(word, letters, symbols);
    let zipped = word.zip_with(letters);
    reveal_with_fuel(Seq::filter, 2);
    if word.len() == 0 {
        assert(zipped.filter(keep).map_values(take) =~= Seq::<char>::empty());
    } else {
        let shorter = word.drop_last();
        let fewer = letters.drop_last();
        lemma_kept(shorter, fewer, symbols);
        let some = search::kept_marks(shorter, fewer, symbols);
        text::lemma_select_split(word, marks, word.len() - 1);
        text::lemma_select_split(shorter, some, shorter.len() as int);
        assert(marks.take(word.len() - 1) =~= some);
        assert(word.take(word.len() - 1) =~= shorter);
        let last = word.skip(word.len() - 1);
        let mark = marks.skip(word.len() - 1);
        assert(last =~= seq![word.last()]);
        assert(last.drop_last() =~= Seq::<char>::empty());
        reveal_with_fuel(text::select, 2);
        assert(zipped.drop_last() =~= shorter.zip_with(fewer));
        assert(zipped.last() == (word.last(), letters.last()));
        let kept = zipped.drop_last().filter(keep);
        if keep(zipped.last()) {
            assert(text::select(last, mark) =~= seq![word.last()]);
            assert(kept.push(zipped.last()).map_values(take) =~= kept.map_values(take) + seq![
                word.last(),
            ]);
        } else {
            assert(text::select(last, mark) =~= Seq::<char>::empty());
            assert(kept.map_values(take) + Seq::<char>::empty() =~= kept.map_values(take));
        }
    }
}

/// A cleaned word is the word without everything that is neither alphabetic nor a symbol.
pub proof fn lemma_cleaned(word: Seq<char>, symbols: Set<char>)
    ensures
        search::cleaned(word, symbols) == word.filter(
            |c: char| text::alphabetic(c) || symbols.contains(c),
        ),
        forall|k: int|
            0 <= k < search::cleaned(word, symbols).len() ==> text::alphabetic(
                #[trigger] search::cleaned(word, symbols)[k],
            ) || symbols.contains(search::cleaned(word, symbols)[k]),
{
    let letters = text::letter_marks(word);
    let keep = |c: char| text::alphabetic(c) || symbols.contains(c);
    lemma_kept(word, letters, symbols);
    lemma_zipped_filter(word, symbols);
    let clean = search::cleaned(word, symbols);
    assert forall|k: int| 0 <= k < clean.len() implies text::alphabetic(#[trigger] clean[k])
        || symbols.contains(clean[k]) by {
        word.lemma_filter_pred(keep, k);
    }
}

/// Filtering characters together with their letter marks is filtering the letters and symbols.
proof fn lemma_zipped_filter(word: Seq<char>, symbols: Set<char>)
    ensures
        word.zip_with(text::letter_marks(word)).filter(
            |p: (char, bool)| p.1 || symbols.contains(p.0),
        ).map_values(|p: (char, bool)| p.0) == word.filter(
            |c: char| text::alphabetic(c) || symbols.contains(c),
        ),
    decreases word.len(),
{
    let keep = |c: char| text::alphabetic(c) || symbols.contains(c);
    let pick = |p: (char, bool)| p.1 || symbols.contains(p.0);
    let take = |p: (char, bool)| p.0;
    let zipped = word.zip_with(text::letter_marks(word));
    reveal_with_fuel(Seq::filter, 2);
    if word.len() == 0 {
        assert(zipped.filter(pick).map_values(take) =~= word.filter(keep));
    } else {
        let shorter = word.drop_last();
        lemma_zipped_filter(shorter, symbols);
        assert(zipped.drop_last() =~= shorter.zip_with(text::letter_marks(shorter)));
        assert(zipped.last() == (word.last(), text::alphabetic(word.last())));
        let kept = zipped.drop_last().filter(pick);
        assert(kept.push(zipped.last()).map_values(take) =~= kept.map_values(take).push(
            word.last(),
        ));
    }
}

/// What the finding for a spelling says: there is one exactly if the spelling, its lower-case form
/// or its stem is a word of the dictionary, and it names the method.
pub proof fn lemma_finding_for(
    lexicon: Lexicon,
    label: Seq<char>,
    clean: Seq<char>,
    position: int,
    spelling: Seq<char>,
    lower: Seq<char>,
    stem: Seq<char>,
)
    ensures
        ({
            let exact = lexicon.exact.words.contains(spelling) || (lexicon.lower is Some
                && lexicon.lower->0.words.contains(lower));
            let stemmed = lexicon.exact.words.contains(stem) || (lexicon.lower is Some
                && lexicon.lower->0.words.contains(stem));
            search::finding_for(lexicon, label, clean, position, spelling, lower, stem) == (
            if exact || stemmed {
                Some(
                    Finding {
                        source_file: label,
                        original_word: clean,
                        position,
                        candidate: spelling,
                        stemmed: stem,
                        validation_method: if exact {
                            "exact"@
                        } else {
                            "stemmed"@
                        },
                    },
                )
            } else {
                None
            })
        }),
{
}

/// Whether a cleaned word is searched: it has two bytes or more, and a symbol among its characters.
pub proof fn lemma_searchable(clean: Seq<char>, symbols: Set<char>)
    ensures
        search::searchable(clean, symbols) <==> vstd::utf8::encode_utf8(clean).len() >= 2
            && exists|c: char| #[trigger] clean.contains(c) && symbols.contains(c),
{
    if exists|c: char| #[trigger] clean.contains(c) && symbols.contains(c) {
        let c = choose|c: char| #[trigger] clean.contains(c) && symbols.contains(c);
        assert(symbols.contains(clean[clean.index_of(c)]));
    }
    if search::searchable(clean, symbols) {
        let i = choose|i: int| 0 <= i < clean.len() && symbols.contains(#[trigger] clean[i]);
        assert(clean.contains(clean[i]));
    }
}

/// What is found in a text of one word: the word is cleaned of everything but letters and symbols;
/// if two bytes or more are left, with a symbol among them, its candidates are tried in order, and
/// each that gets past the filters and is known, by itself, by its lower-case form or by its stem,
/// is reported.
pub proof fn lemma_one_word_searched(
    dict: &Dictionary,
    target_symbols: &SymbolSet,
    replacements: &[char],
    max_consecutive: u8,
    max_combinations: usize,
    label: Seq<char>,
    word: Seq<char>,
)
    requires
        word.len() > 0,
        forall|k: int| 0 <= k < word.len() ==> !text::white_space(#[trigger] word[k]),
    ensures
        ({
            let q = search::query(
                dict,
                target_symbols,
                replacements,
                max_consecutive,
                max_combinations,
            );
            let clean = word.filter(
                |c: char| text::alphabetic(c) || target_symbols@.contains(c),
            );
            let searched = vstd::utf8::encode_utf8(clean).len() >= 2 && exists|c: char| #[trigger]
                clean.contains(c) && target_symbols@.contains(c);
            let tried = candidates::candidates(
                clean,
                target_symbols@,
                replacements@,
                max_consecutive as int,
                max_combinations as int,
            );
            &&& !searched ==> q.text_findings(label, word) == Seq::<Finding>::empty()
            &&& searched ==> q.text_findings(label, word) == tried.filter_map(
                |s: (Seq<char>, int)|
                    {
                        let lower = morphology::lowercase(s.0);
                        let stem = morphology::russian_stem(lower);
                        let exact = dict@.exact.words.contains(s.0) || (dict@.lower is Some
                            && dict@.lower->0.words.contains(lower));
                        let stemmed = dict@.exact.words.contains(stem) || (dict@.lower is Some
                            && dict@.lower->0.words.contains(stem));
                        if dict@.passes(s.0, lower) && (exact || stemmed) {
                            Some(
                                Finding {
                                    source_file: label,
                                    original_word: clean,
                                    position: 0,
                                    candidate: s.0,
                                    stemmed: stem,
                                    validation_method: if exact {
                                        "exact"@
                                    } else {
                                        "stemmed"@
                                    },
                                },
                            )
                        } else {
                            None
                        }
                    },
            )
        }),
{
    let q = search::query(dict, target_symbols, replacements, max_consecutive, max_combinations);
    let clean = word.filter(|c: char| text::alphabetic(c) || target_symbols@.contains(c));
    lemma_cleaned(word, q.symbols);
    lemma_searchable(clean, q.symbols);
    lemma_text_of_one_word(q, label, word);
    let find = |s: (Seq<char>, int)| q.finding(label, clean, 0, s.0);
    let report = |s: (Seq<char>, int)|
        {
            let lower = morphology::lowercase(s.0);
            let stem = morphology::russian_stem(lower);
            let exact = dict@.exact.words.contains(s.0) || (dict@.lower is Some
                && dict@.lower->0.words.contains(lower));
            let stemmed = dict@.exact.words.contains(stem) || (dict@.lower is Some
                && dict@.lower->0.words.contains(stem));
            if dict@.passes(s.0, lower) && (exact || stemmed) {
                Some(
                    Finding {
                        source_file: label,
                        original_word: clean,
                        position: 0,
                        candidate: s.0,
                        stemmed: stem,
                        validation_method: if exact {
                            "exact"@
                        } else {
                            "stemmed"@
                        },
                    },
                )
            } else {
                None
            }
        };
    assert(find =~= report);
    if !search::searchable(clean, q.symbols) {
        assert(q.spellings(word).filter_map(find) =~= Seq::<Finding>::empty());
    }
}

/// A text of one word is searched as that word.
proof fn lemma_text_of_one_word(q: Query, label: Seq<char>, word: Seq<char>)
    requires
        word.len() > 0,
        forall|k: int| 0 <= k < word.len() ==> !text::white_space(#[trigger] word[k]),
    ensures
        q.text_findings(label, word) == q.word_findings(label, word, 0),
        q.text_fits(word) == q.spellings_fit(q.spellings(word)),
{
    let words = text::text_words(word);
    text::lemma_single_word(word);
    assert(words.drop_last() =~= Seq::<Seq<char>>::empty());
    reveal_with_fuel(Query::words_findings, 2);
    let found = q.word_findings(label, word, 0);
    assert(Seq::<Finding>::empty() + found =~= found);
    assert(words[0] == word);
}

/// When a text of one word can be searched: unless the word is searched and one of its candidates
/// gets past the filters whose lower-case form has more bytes than a 32-bit signed integer counts.
pub proof fn lemma_one_word_fits(
    dict: &Dictionary,
    target_symbols: &SymbolSet,
    replacements: &[char],
    max_consecutive: u8,
    max_combinations: usize,
    word: Seq<char>,
)
    requires
        word.len() > 0,
        forall|k: int| 0 <= k < word.len() ==> !text::white_space(#[trigger] word[k]),
    ensures
        ({
            let q = search::query(
                dict,
                target_symbols,
                replacements,
                max_consecutive,
                max_combinations,
            );
            let clean = word.filter(
                |c: char| text::alphabetic(c) || target_symbols@.contains(c),
            );
            let searched = vstd::utf8::encode_utf8(clean).len() >= 2 && exists|c: char| #[trigger]
                clean.contains(c) && target_symbols@.contains(c);
            let tried = candidates::candidates(
                clean,
                target_symbols@,
                replacements@,
                max_consecutive as int,
                max_combinations as int,
            );
            q.text_fits(word) <==> !(searched && exists|k: int|
                0 <= k < tried.len() && dict@.passes(
                    (#[trigger] tried[k]).0,
                    morphology::lowercase(tried[k].0),
                ) && vstd::utf8::encode_utf8(morphology::lowercase(tried[k].0)).len()
                    > 0x7fff_ffff)
        }),
{
    let q = search::query(dict, target_symbols, replacements, max_consecutive, max_combinations);
    let clean = word.filter(|c: char| text::alphabetic(c) || target_symbols@.contains(c));
    lemma_cleaned(word, q.symbols);
    lemma_searchable(clean, q.symbols);
    lemma_text_of_one_word(q, Seq::empty(), word);
    let tried = q.spellings(word);
    if !q.spellings_fit(tried) {
        let k = choose|k: int|
            0 <= k < tried.len() && q.admits((#[trigger] tried[k]).0) && !morphology::stemmable(
                morphology::lowercase(tried[k].0),
            );
        assert(dict@.passes(tried[k].0, morphology::lowercase(tried[k].0)));
    }
}

/// The same spellings of a word further on in the text give the same findings, further on.
proof fn lemma_findings_moved(
    q: Query,
    label: Seq<char>,
    clean: Seq<char>,
    position: int,
    by: int,
    spellings: Seq<(Seq<char>, int)>,
)
    ensures
        q.spelling_findings(label, clean, position + by, spellings) == q.spelling_findings(
            label,
            clean,
            position,
            spellings,
        ).map_values(|f: Finding| moved(f, by)),
    decreases spellings.len(),
{
    let here = |s: (Seq<char>, int)| q.finding(label, clean, position, s.0);
    let there = |s: (Seq<char>, int)| q.finding(label, clean, position + by, s.0);
    let go = |f: Finding| moved(f, by);
    reveal_with_fuel(Seq::filter_map, 2);
    if spellings.len() == 0 {
        assert(spellings.filter_map(here).map_values(go) =~= Seq::<Finding>::empty());
    } else {
        let shorter = spellings.drop_last();
        lemma_findings_moved(q, label, clean, position, by, shorter);
        let some = shorter.filter_map(here);
        if let Some(f) = here(spellings.last()) {
            assert(there(spellings.last()) == Some(moved(f, by)));
            assert((some + seq![f]).map_values(go) =~= some.map_values(go) + seq![moved(f, by)]);
        }
    }
}

/// A finding for the same word, `by` words further on.
spec fn moved(f: Finding, by: int) -> Finding {
    Finding {
        source_file: f.source_file,
        original_word: f.original_word,
        position: f.position + by,
        candidate: f.candidate,
        stemmed: f.stemmed,
        validation_method: f.validation_method,
    }
}

/// The findings in more words are those in the first ones, then those in the others, further on.
proof fn lemma_words_findings_concat(
    q: Query,
    label: Seq<char>,
    a: Seq<Seq<char>>,
    b: Seq<Seq<char>>,
)
    ensures
        q.words_findings(label, a + b) == q.words_findings(label, a) + q.words_findings(
            label,
            b,
        ).map_values(|f: Finding| moved(f, a.len() as int)),
    decreases b.len(),
{
    let go = |f: Finding| moved(f, a.len() as int);
    let first = q.words_findings(label, a);
    if b.len() == 0 {
        assert(a + b =~= a);
        assert(first + q.words_findings(label, b).map_values(go) =~= first);
    } else {
        let shorter = b.drop_last();
        let word = b.last();
        lemma_words_findings_concat(q, label, a, shorter);
        assert((a + b).drop_last() =~= a + shorter);
        assert((a + b).last() == word);
        lemma_findings_moved(
            q,
            label,
            search::cleaned(word, q.symbols),
            b.len() - 1,
            a.len() as int,
            q.spellings(word),
        );
        let some = q.words_findings(label, shorter);
        let more = q.word_findings(label, word, b.len() - 1);
        assert((some + more).map_values(go) =~= some.map_values(go) + more.map_values(go));
        assert(first + (some.map_values(go) + more.map_values(go)) =~= (first + some.map_values(go))
            + more.map_values(go));
    }
}

/// A text can be searched part by part: white space parts the findings before it from those after
/// it, which are those in the second part, counted on by the number of words in the first. Nothing
/// is found in an empty text.
pub proof fn lemma_texts_parted(
    q: Query,
    label: Seq<char>,
    a: Seq<char>,
    space: char,
    b: Seq<char>,
)
    requires
        text::white_space(space),
    ensures
        q.text_findings(label, a.push(space) + b) == q.text_findings(label, a) + q.text_findings(
            label,
            b,
        ).map_values(
            |f: Finding|
                Finding {
                    source_file: f.source_file,
                    original_word: f.original_word,
                    position: f.position + text::text_words(a).len(),
                    candidate: f.candidate,
                    stemmed: f.stemmed,
                    validation_method: f.validation_method,
                },
        ),
        q.text_fits(a.push(space) + b) <==> q.text_fits(a) && q.text_fits(b),
        q.text_findings(label, Seq::empty()) == Seq::<Finding>::empty(),
        q.text_fits(Seq::empty()),
{
    let first = text::text_words(a);
    let second = text::text_words(b);
    let all = text::text_words(a.push(space) + b);
    text::lemma_words_parted(a, space, b);
    text::lemma_single_word(Seq::empty());
    lemma_words_findings_concat(q, label, first, second);
    let n = first.len() as int;
    let go = |f: Finding| moved(f, n);
    let count_on = |f: Finding|
        Finding {
            source_file: f.source_file,
            original_word: f.original_word,
            position: f.position + text::text_words(a).len(),
            candidate: f.candidate,
            stemmed: f.stemmed,
            validation_method: f.validation_method,
        };
    assert(q.text_findings(label, b).map_values(go) =~= q.text_findings(label, b).map_values(
        count_on,
    ));
    if q.text_fits(a.push(space) + b) {
        assert forall|p: int| 0 <= p < first.len() implies q.spellings_fit(
            q.spellings(#[trigger] first[p]),
        ) by {
            assert(all[p] == first[p]);
        }
        assert forall|p: int| 0 <= p < second.len() implies q.spellings_fit(
            q.spellings(#[trigger] second[p]),
        ) by {
            assert(all[n + p] == second[p]);
        }
    }
    if q.text_fits(a) && q.text_fits(b) {
        assert forall|p: int| 0 <= p < all.len() implies q.spellings_fit(
            q.spellings(#[trigger] all[p]),
        ) by {
            if p < n {
                assert(all[p] == first[p]);
            } else {
                assert(all[p] == second[p - n]);
            }
        }
    }
}

/// The findings in one line of a source are those in its text, under the label of the line, and
/// there are none in no lines.
pub proof fn lemma_one_line_searched(q: Query, source: Seq<char>, first: int, line: Seq<char>)
    ensures
        q.lines_findings(source, first, seq![line]) == q.text_findings(
            search::label_of(source, first),
            line,
        ),
        q.lines_findings(source, first, Seq::empty()) == Seq::<Finding>::empty(),
        q.lines_fit(seq![line]) == q.text_fits(line),
        q.lines_fit(Seq::empty()),
{
    let lines = seq![line];
    assert(lines.drop_last() =~= Seq::<Seq<char>>::empty());
    reveal_with_fuel(Query::lines_findings, 2);
    let found = q.text_findings(search::label_of(source, first), line);
    assert(Seq::<Finding>::empty() + found =~= found);
    assert(lines[0] == line);
}

/// The label of a line gives its source, then `:line_`, then its number, counted from one: read as
/// a decimal numeral, digit by digit from the left, what follows is one more than the index of the
/// line. It has digits only, and no zero in front.
pub proof fn lemma_label_number(source: Seq<char>, line_index: int)
    requires
        0 <= line_index,
    ensures
        ({
            let label = search::label_of(source, line_index);
            let head = source + ":line_"@;
            let number = label.skip(head.len() as int);
            &&& head.is_prefix_of(label)
            &&& number.fold_left(0int, |v: int, c: char| 10 * v + (c as int - '0' as int))
                == line_index + 1
            &&& number.len() > 0
            &&& forall|k: int| 0 <= k < number.len() ==> '0' <= #[trigger] number[k] <= '9'
            &&& number[0] != '0'
        }),
{
    let label = search::label_of(source, line_index);
    let head = source + ":line_"@;
    let numeral = text::decimal((line_index + 1) as nat);
    text::lemma_decimal_read_back((line_index + 1) as nat);
    assert(label.skip(head.len() as int) =~= numeral);
    assert(label.take(head.len() as int) =~= head);
    let number = label.skip(head.len() as int);
    assert(number == numeral);
}

/// How the labels of the lines of a source go on: the first nine lines have their digit behind
/// `:line_`, and the line with the number `10 * tens + ones` has the label of the line with the
/// number `tens`, with the digit of `ones` behind it.
pub proof fn lemma_label_digits(source: Seq<char>, tens: int, ones: int)
    requires
        0 <= tens,
        0 <= ones < 10,
        0 < tens || 0 < ones,
    ensures
        search::label_of(source, 10 * tens + ones - 1) == (if tens == 0 {
            source + ":line_"@
        } else {
            search::label_of(source, tens - 1)
        }).push("0123456789"@[ones]),
{
    text::lemma_decimal_notation(tens as nat, ones as nat);
    let head = source + ":line_"@;
    let digit = "0123456789"@[ones];
    if tens == 0 {
        assert(head + Seq::<char>::empty().push(digit) =~= head.push(digit));
    } else {
        let front = text::decimal(tens as nat);
        assert(head + front.push(digit) =~= (head + front).push(digit));
    }
}

/// A string has at least as many bytes as characters.
proof fn lemma_bytes(s: Seq<char>)
    ensures
        vstd::utf8::encode_utf8(s).len() >= s.len(),
    decreases s.len(),
{
    if s.len() > 0 {
        lemma_bytes(s.drop_first());
    }
}

/// A finding that is among those of a search is one of its results.
proof fn lemma_finding_in_results(results: Seq<MatchResult>, f: Finding)
    requires
        search::findings(results).contains(f),
    ensures
        exists|k: int|
            0 <= k < results.len() && (#[trigger] results[k]).source_file@ == f.source_file
                && results[k].original_word@ == f.original_word && results[k].position == f.position
                && results[k].candidate@ == f.candidate && results[k].stemmed@ == f.stemmed
                && results[k].validation_method@ == f.validation_method,
{
    lemma_findings(results);
    let k = search::findings(results).index_of(f);
    assert(search::findings(results)[k] == f);
    assert(results[k].source_file@ == f.source_file);
}

/// A known spelling that is among those tried for a word of the text is reported.
proof fn lemma_tried_is_reported(
    results: Seq<MatchResult>,
    text: &str,
    source_label: &str,
    q: Query,
    position: int,
    rank: int,
)
    requires
        search::findings(results) == q.text_findings(source_label@, text@),
        q.lexicon.filled(),
        0 <= position < text::text_words(text@).len(),
        0 <= rank < q.spellings(text::text_words(text@)[position]).len(),
        ({
            let spelling = q.spellings(text::text_words(text@)[position])[rank].0;
            q.lexicon.knows(spelling, morphology::lowercase(spelling))
        }),
    ensures
        ({
            let word = text::text_words(text@)[position];
            let spelling = q.spellings(word)[rank].0;
            exists|k: int|
                0 <= k < results.len() && (#[trigger] results[k]).source_file@ == source_label@
                    && results[k].original_word@ == search::cleaned(word, q.symbols)
                    && results[k].position == position && results[k].candidate@ == spelling
                    && results[k].stemmed@ == morphology::russian_stem(
                    morphology::lowercase(spelling),
                ) && results[k].validation_method@ == "exact"@
        }),
{
    let word = text::text_words(text@)[position];
    let spelling = q.spellings(word)[rank].0;
    search::lemma_known_spelling_found(q, source_label@, text@, position, rank);
    lemma_finding_in_results(
        results,
        Finding {
            source_file: source_label@,
            original_word: search::cleaned(word, q.symbols),
            position,
            candidate: spelling,
            stemmed: morphology::russian_stem(morphology::lowercase(spelling)),
            validation_method: "exact"@,
        },
    );
}

/// A word with two symbols in a row is restored: where the letters and symbols of a word of the
/// text are a part without symbols, two symbols, and another part without symbols, runs of two may
/// be taken together, and the limit lets the pair of the `a`-th and the `b`-th replacement be tried,
/// the word with this pair in place of the symbols is reported as an exact match if it, or its
/// lower-case form where case is folded, is in the dictionary.
pub proof fn lemma_two_symbols_restored(
    results: Seq<MatchResult>,
    text: &str,
    source_label: &str,
    dict: &Dictionary,
    target_symbols: &SymbolSet,
    replacements: &[char],
    max_consecutive: u8,
    max_combinations: usize,
    position: int,
    before: Seq<char>,
    run: Seq<char>,
    after: Seq<char>,
    a: int,
    b: int,
)
    requires
        dict.valid(),
        search::findings(results) == search::query(
            dict,
            target_symbols,
            replacements,
            max_consecutive,
            max_combinations,
        ).text_findings(source_label@, text@),
        0 <= position < text::text_words(text@).len(),
        text::text_words(text@)[position].filter(
            |c: char| text::alphabetic(c) || target_symbols@.contains(c),
        ) == before + run + after,
        run.len() == 2,
        target_symbols@.contains(run[0]),
        target_symbols@.contains(run[1]),
        forall|k: int| 0 <= k < before.len() ==> !target_symbols@.contains(#[trigger] before[k]),
        forall|k: int| 0 <= k < after.len() ==> !target_symbols@.contains(#[trigger] after[k]),
        max_consecutive >= 2,
        0 <= a < replacements@.len(),
        0 <= b < replacements@.len(),
        a * replacements@.len() + b < max_combinations || a == 0 && b == 0,
        ({
            let restored = before + seq![replacements@[a], replacements@[b]] + after;
            dict@.exact.words.contains(restored) || (dict@.lower is Some
                && dict@.lower->0.words.contains(morphology::lowercase(restored)))
        }),
    ensures
        ({
            let restored = before + seq![replacements@[a], replacements@[b]] + after;
            exists|k: int|
                0 <= k < results.len() && (#[trigger] results[k]).source_file@ == source_label@
                    && results[k].original_word@ == before + run + after && results[k].position
                    == position && results[k].candidate@ == restored && results[k].stemmed@
                    == morphology::russian_stem(morphology::lowercase(restored))
                    && results[k].validation_method@ == "exact"@
        }),
{
    let q = search::query(dict, target_symbols, replacements, max_consecutive, max_combinations);
    let word = text::text_words(text@)[position];
    let clean = before + run + after;
    let n = replacements@.len() as int;
    let rank = a * n + b;
    lemma_cleaned(word, q.symbols);
    lemma_bytes(clean);
    assert(clean[before.len() as int] == run[0]);
    assert(clean.contains(run[0]));
    lemma_searchable(clean, q.symbols);
    candidates::lemma_candidates_of_one_run(
        before,
        run,
        after,
        q.symbols,
        q.replacements,
        q.max_run,
    );
    candidates::lemma_candidates_limited(clean, q.symbols, q.replacements, q.max_run, q.limit);
    assert(0 <= rank < n * n && rank / n == a && rank % n == b) by {
        assert(0 <= a * n + b < n * n) by (nonlinear_arith)
            requires
                0 <= a < n,
                0 <= b < n,
        ;
        vstd::arithmetic::div_mod::lemma_fundamental_div_mod_converse(rank, n, a, b);
    }
    assert(a == 0 ==> a * n == 0) by (nonlinear_arith);
    let tried = q.spellings(word);
    assert(rank < tried.len());
    assert(tried[rank].0 == before + seq![replacements@[a], replacements@[b]] + after);
    lemma_tried_is_reported(results, text, source_label, q, position, rank);
}

/// A word with a single symbol is restored: where the letters and symbols of a word of the text are
/// a part without symbols, a symbol, and another part without symbols, two bytes or more in all,
/// and the limit lets the `a`-th replacement be tried, the word with this replacement in place of
/// the symbol is reported as an exact match if it, or its lower-case form where case is folded, is
/// in the dictionary.
pub proof fn lemma_one_symbol_restored(
    results: Seq<MatchResult>,
    text: &str,
    source_label: &str,
    dict: &Dictionary,
    target_symbols: &SymbolSet,
    replacements: &[char],
    max_consecutive: u8,
    max_combinations: usize,
    position: int,
    before: Seq<char>,
    symbol: char,
    after: Seq<char>,
    a: int,
)
    requires
        dict.valid(),
        search::findings(results) == search::query(
            dict,
            target_symbols,
            replacements,
            max_consecutive,
            max_combinations,
        ).text_findings(source_label@, text@),
        0 <= position < text::text_words(text@).len(),
        text::text_words(text@)[position].filter(
            |c: char| text::alphabetic(c) || target_symbols@.contains(c),
        ) == before + seq![symbol] + after,
        vstd::utf8::encode_utf8(before + seq![symbol] + after).len() >= 2,
        target_symbols@.contains(symbol),
        forall|k: int| 0 <= k < before.len() ==> !target_symbols@.contains(#[trigger] before[k]),
        forall|k: int| 0 <= k < after.len() ==> !target_symbols@.contains(#[trigger] after[k]),
        0 <= a < replacements@.len(),
        a < max_combinations || a == 0,
        ({
            let restored = before + seq![replacements@[a]] + after;
            dict@.exact.words.contains(restored) || (dict@.lower is Some
                && dict@.lower->0.words.contains(morphology::lowercase(restored)))
        }),
    ensures
        ({
            let restored = before + seq![replacements@[a]] + after;
            exists|k: int|
                0 <= k < results.len() && (#[trigger] results[k]).source_file@ == source_label@
                    && results[k].original_word@ == before + seq![symbol] + after
                    && results[k].position == position && results[k].candidate@ == restored
                    && results[k].stemmed@ == morphology::russian_stem(
                    morphology::lowercase(restored),
                ) && results[k].validation_method@ == "exact"@
        }),
{
    let q = search::query(dict, target_symbols, replacements, max_consecutive, max_combinations);
    let word = text::text_words(text@)[position];
    let run = seq![symbol];
    let clean = before + run + after;
    lemma_cleaned(word, q.symbols);
    assert(clean[before.len() as int] == symbol);
    assert(clean.contains(symbol));
    lemma_searchable(clean, q.symbols);
    candidates::lemma_candidates_of_one_run(
        before,
        run,
        after,
        q.symbols,
        q.replacements,
        q.max_run,
    );
    candidates::lemma_candidates_limited(clean, q.symbols, q.replacements, q.max_run, q.limit);
    let tried = q.spellings(word);
    assert(a < tried.len());
    assert(tried[a].0 == before + seq![replacements@[a]] + after);
    lemma_tried_is_reported(results, text, source_label, q, position, a);
}

/// What a result of a search says: it names the source; the word at its position, of which letters
/// and symbols are left, two bytes or more and a symbol among them; a candidate that has
/// replacements for one symbol of that word, or for two in a row where runs of two may be taken
/// together, and agrees with the word in everything else, case included; the stem of its
/// lower-case form; and how it is known: as an exact match where it, or its lower-case form if case
/// is folded, is in the dictionary, and otherwise by its stem, which is.
pub proof fn lemma_result_meaning(
    results: Seq<MatchResult>,
    text: &str,
    source_label: &str,
    dict: &Dictionary,
    target_symbols: &SymbolSet,
    replacements: &[char],
    max_consecutive: u8,
    max_combinations: usize,
    k: int,
)
    requires
        search::findings(results) == search::query(
            dict,
            target_symbols,
            replacements,
            max_consecutive,
            max_combinations,
        ).text_findings(source_label@, text@),
        0 <= k < results.len(),
    ensures
        ({
            let m = results[k];
            let words = text::text_words(text@);
            let original = m.original_word@;
            let candidate = m.candidate@;
            let lower = morphology::lowercase(candidate);
            let exact = dict@.exact.words.contains(candidate) || (dict@.lower is Some
                && dict@.lower->0.words.contains(lower));
            &&& m.source_file@ == source_label@
            &&& m.position < words.len()
            &&& original == words[m.position as int].filter(
                |c: char| text::alphabetic(c) || target_symbols@.contains(c),
            )
            &&& forall|i: int|
                0 <= i < original.len() ==> text::alphabetic(#[trigger] original[i])
                    || target_symbols@.contains(original[i])
            &&& vstd::utf8::encode_utf8(original).len() >= 2
            &&& candidate.len() == original.len()
            &&& exists|i: int, end: int|
                #![trigger original.subrange(i, end)]
                {
                    &&& 0 <= i < end <= original.len()
                    &&& end - i == 1 || end - i == 2 && max_consecutive >= 2
                    &&& forall|j: int|
                        i <= j < end ==> target_symbols@.contains(#[trigger] original[j])
                    &&& forall|j: int|
                        i <= j < end ==> replacements@.contains(#[trigger] candidate[j])
                    &&& forall|j: int|
                        0 <= j < i || end <= j < original.len() ==> #[trigger] candidate[j]
                            == original[j]
                }
            &&& m.stemmed@ == morphology::russian_stem(lower)
            &&& dict@.passes(candidate, lower)
            &&& exact ==> m.validation_method@ == "exact"@
            &&& !exact ==> m.validation_method@ == "stemmed"@ && (dict@.exact.words.contains(
                m.stemmed@,
            ) || (dict@.lower is Some && dict@.lower->0.words.contains(m.stemmed@)))
        }),
{
    let q = search::query(dict, target_symbols, replacements, max_consecutive, max_combinations);
    let m = results[k];
    let f = search::findings(results)[k];
    lemma_findings(results);
    assert(q.text_findings(source_label@, text@).contains(f));
    search::lemma_finding_meaning(q, source_label@, text@, f);
    let word = text::text_words(text@)[f.position];
    lemma_cleaned(word, q.symbols);
    let original = m.original_word@;
    let candidate = m.candidate@;
    let (i, run) = choose|i: int, run: int| #[trigger]
        candidates::restores(
            f.original_word,
            q.symbols,
            q.replacements,
            q.max_run,
            f.candidate,
            i,
            run,
        );
    assert(candidates::restores(
        original,
        q.symbols,
        q.replacements,
        q.max_run,
        candidate,
        i,
        run,
    ));
    let end = i + run;
    assert(original.subrange(i, end).len() == run);
}

/// Every exact match stands in the dictionary: where a dictionary was made of the words on some
/// lines, the candidate of an exact match is the text of one of these lines without the white space
/// around it or, where case is folded, has the same lower-case form as that text.
pub proof fn lemma_exact_match_listed(
    results: Seq<MatchResult>,
    text: &str,
    source_label: &str,
    dict: &Dictionary,
    target_symbols: &SymbolSet,
    replacements: &[char],
    max_consecutive: u8,
    max_combinations: usize,
    lines: Seq<Seq<char>>,
    ci_fallback: bool,
    k: int,
)
    requires
        dictionary::made_of(dict@, dictionary::dictionary_words(lines), ci_fallback),
        search::findings(results) == search::query(
            dict,
            target_symbols,
            replacements,
            max_consecutive,
            max_combinations,
        ).text_findings(source_label@, text@),
        0 <= k < results.len(),
    ensures
        results[k].validation_method@ == "exact"@ <==> exists|n: int|
            0 <= n < lines.len() && text::trim_text(#[trigger] lines[n]).len() > 0 && (
            text::trim_text(lines[n]) == results[k].candidate@ || ci_fallback
                && morphology::lowercase(text::trim_text(lines[n])) == morphology::lowercase(
                results[k].candidate@,
            )),
{
    let candidate = results[k].candidate@;
    let lower = morphology::lowercase(candidate);
    let stem = results[k].stemmed@;
    let words = dictionary::dictionary_words(lines);
    lemma_result_meaning(
        results,
        text,
        source_label,
        dict,
        target_symbols,
        replacements,
        max_consecutive,
        max_combinations,
        k,
    );
    reveal_strlit("exact");
    reveal_strlit("stemmed");
    assert("exact"@.len() != "stemmed"@.len());
    dictionary::lemma_known_by_sets(dict@, candidate, lower, stem);
    dictionary::lemma_known_by_list(dict@, words, ci_fallback, candidate, stem);
    if results[k].validation_method@ == "exact"@ {
        let w = choose|w: int|
            0 <= w < words.len() && (#[trigger] words[w] == candidate || ci_fallback
                && morphology::lowercase(words[w]) == lower);
        dictionary::lemma_dictionary_words(lines, words[w]);
        assert(words.contains(words[w]));
    }
    if exists|n: int|
        0 <= n < lines.len() && text::trim_text(#[trigger] lines[n]).len() > 0 && (
        text::trim_text(lines[n]) == candidate || ci_fallback && morphology::lowercase(
            text::trim_text(lines[n]),
        ) == lower) {
        let n = choose|n: int|
            0 <= n < lines.len() && text::trim_text(#[trigger] lines[n]).len() > 0 && (
            text::trim_text(lines[n]) == candidate || ci_fallback && morphology::lowercase(
                text::trim_text(lines[n]),
            ) == lower);
        let word = text::trim_text(lines[n]);
        dictionary::lemma_dictionary_words(lines, word);
        assert(words[words.index_of(word)] == word);
    }
}

/// What a result of a search of several lines says of where it was found: behind the source and
/// `:line_` it has the number of one of these lines, counted from one, in decimal, and its original
/// word is made of the letters and symbols of the word at its position in that line.
pub proof fn lemma_line_result_meaning(
    results: Seq<MatchResult>,
    lines: Seq<String>,
    source: &str,
    first: usize,
    dict: &Dictionary,
    target_symbols: &SymbolSet,
    replacements: &[char],
    max_consecutive: u8,
    max_combinations: usize,
    k: int,
)
    requires
        search::findings(results) == search::query(
            dict,
            target_symbols,
            replacements,
            max_consecutive,
            max_combinations,
        ).lines_findings(source@, first as int, dictionary::string_views(lines)),
        0 <= k < results.len(),
    ensures
        ({
            let m = results[k];
            let head = source@ + ":line_"@;
            let number = m.source_file@.skip(head.len() as int);
            &&& head.is_prefix_of(m.source_file@)
            &&& exists|n: int|
                #![trigger lines[n]]
                {
                    let words = text::text_words(lines[n]@);
                    &&& 0 <= n < lines.len()
                    &&& number.fold_left(0int, |v: int, c: char| 10 * v + (c as int - '0' as int))
                        == first + n + 1
                    &&& m.position < words.len()
                    &&& m.original_word@ == words[m.position as int].filter(
                        |c: char| text::alphabetic(c) || target_symbols@.contains(c),
                    )
                }
        }),
{
    let q = search::query(dict, target_symbols, replacements, max_consecutive, max_combinations);
    let all = dictionary::string_views(lines);
    let f = search::findings(results)[k];
    lemma_findings(results);
    dictionary::lemma_string_views(lines);
    assert(q.lines_findings(source@, first as int, all).contains(f));
    search::lemma_lines_findings(q, source@, first as int, all, f);
    let n = choose|n: int|
        0 <= n < all.len() && q.text_findings(
            search::label_of(source@, first + n),
            #[trigger] all[n],
        ).contains(f);
    assert(all[n] == lines[n]@);
    let label = search::label_of(source@, first + n);
    search::lemma_finding_meaning(q, label, all[n], f);
    lemma_cleaned(text::text_words(all[n])[f.position], q.symbols);
    lemma_label_number(source@, first + n);
}

} // verus!

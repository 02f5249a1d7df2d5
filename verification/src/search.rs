//! The search itself: from a text to the known words that its damaged words may stand for.

use crate::candidates;
use crate::candidates::generate_candidates;
use crate::dictionary;
use crate::dictionary::{Dictionary, Lexicon, Method};
use crate::morphology;
use crate::morphology::{can_stem, stem_russian};
use crate::symbols::SymbolSet;
use crate::text;
use crate::text::{
    chars_of, mark_letters, mark_spaces, push_decimal, split_words, string_of,
};
use vstd::prelude::*;

verus! {

/// A known word that a damaged word of the text may stand for.
#[derive(Debug)]
pub struct MatchResult {
    /// Where the text comes from.
    pub source_file: String,
    /// The damaged word, without the characters that are neither letters nor symbols.
    pub original_word: String,
    /// The number of words before it in the text.
    pub position: usize,
    /// The known word, in the case in which the text has it.
    pub candidate: String,
    /// The stem of the known word.
    pub stemmed: String,
    /// `exact` or `stemmed`: how the word was found in the dictionary.
    pub validation_method: String,
}

/// The mathematical content of a `MatchResult`.
pub struct Finding {
    pub source_file: Seq<char>,
    pub original_word: Seq<char>,
    pub position: int,
    pub candidate: Seq<char>,
    pub stemmed: Seq<char>,
    pub validation_method: Seq<char>,
}

impl View for MatchResult {
    type V = Finding;

    open spec fn view(&self) -> Finding {
        Finding {
            source_file: self.source_file@,
            original_word: self.original_word@,
            position: self.position as int,
            candidate: self.candidate@,
            stemmed: self.stemmed@,
            validation_method: self.validation_method@,
        }
    }
}

/// The findings in a list of results.
pub open spec fn findings(list: Seq<MatchResult>) -> Seq<Finding> {
    list.map_values(|m: MatchResult| m@)
}

/// The word for a method in the output.
pub open spec fn method_label(method: Method) -> Seq<char> {
    match method {
        Method::Exact => "exact"@,
        Method::Stemmed => "stemmed"@,
    }
}

/// The word for a method in the output.
pub fn method_name(method: Method) -> (name: String)
    ensures
        name@ == method_label(method),
        method == Method::Exact ==> name@ == "exact"@,
        method == Method::Stemmed ==> name@ == "stemmed"@,
{
    match method {
        Method::Exact => "exact".to_owned(),
        Method::Stemmed => "stemmed".to_owned(),
    }
}

/// All that a search depends on besides the text.
pub struct Query {
    pub lexicon: Lexicon,
    pub symbols: Set<char>,
    pub replacements: Seq<char>,
    pub max_run: int,
    pub limit: int,
}

/// The query that the arguments of a search make up.
pub open spec fn query(
    dict: &Dictionary,
    target_symbols: &SymbolSet,
    replacements: &[char],
    max_consecutive: u8,
    max_combinations: usize,
) -> Query {
    Query {
        lexicon: dict@,
        symbols: target_symbols@,
        replacements: replacements@,
        max_run: max_consecutive as int,
        limit: max_combinations as int,
    }
}

/// Which characters of a word are kept: its letters and the symbols.
pub open spec fn kept_marks(word: Seq<char>, letters: Seq<bool>, symbols: Set<char>) -> Seq<bool> {
    Seq::new(word.len(), |i: int| letters[i] || symbols.contains(word[i]))
}

/// A word without the characters that are neither letters nor symbols.
pub open spec fn cleaned(word: Seq<char>, symbols: Set<char>) -> Seq<char> {
    text::select(word, kept_marks(word, text::letter_marks(word), symbols))
}

/// Whether a cleaned word is worth searching: it has two bytes or more in UTF-8, and a symbol.
pub open spec fn searchable(word: Seq<char>, symbols: Set<char>) -> bool {
    &&& vstd::utf8::encode_utf8(word).len() >= 2
    &&& exists|i: int| 0 <= i < word.len() && symbols.contains(#[trigger] word[i])
}

/// The finding for a spelling with the given lower-case form and stem, if the dictionary knows it.
pub open spec fn finding_for(
    lexicon: Lexicon,
    label: Seq<char>,
    clean: Seq<char>,
    position: int,
    spelling: Seq<char>,
    lower: Seq<char>,
    stem: Seq<char>,
) -> Option<Finding> {
    match lexicon.classify(spelling, lower, stem) {
        Some(method) => Some(
            Finding {
                source_file: label,
                original_word: clean,
                position,
                candidate: spelling,
                stemmed: stem,
                validation_method: method_label(method),
            },
        ),
        None => None,
    }
}

/// Looks up a spelling with the given lower-case form and stem, and makes the result for it.
pub fn examine(
    dict: &Dictionary,
    source_label: &str,
    clean: &str,
    position: usize,
    spelling: &str,
    lower: &str,
    stemmed: String,
) -> (result: Option<MatchResult>)
    ensures
        match result {
            Some(m) => Some(m@),
            None => None,
        } == finding_for(
            dict@,
            source_label@,
            clean@,
            position as int,
            spelling@,
            lower@,
            stemmed@,
        ),
{
    match dict.judge(spelling, lower, stemmed.as_str()) {
        Some(method) => Some(
            MatchResult {
                source_file: source_label.to_owned(),
                original_word: clean.to_owned(),
                position,
                candidate: spelling.to_owned(),
                stemmed,
                validation_method: method_name(method),
            },
        ),
        None => None,
    }
}

impl Query {
    /// The spellings that are tried for a word of the text.
    pub open spec fn spellings(self, word: Seq<char>) -> Seq<(Seq<char>, int)> {
        let clean = cleaned(word, self.symbols);
        if searchable(clean, self.symbols) {
            candidates::candidates(
                clean,
                self.symbols,
                self.replacements,
                self.max_run,
                self.limit,
            )
        } else {
            Seq::empty()
        }
    }

    /// Whether a spelling gets past the filters of the dictionary.
    pub open spec fn admits(self, spelling: Seq<char>) -> bool {
        self.lexicon.passes(spelling, morphology::lowercase(spelling))
    }

    /// How a spelling is known, if it gets past the filters and is.
    pub open spec fn verdict(self, spelling: Seq<char>) -> Option<Method> {
        let lower = morphology::lowercase(spelling);
        if self.admits(spelling) {
            self.lexicon.classify(spelling, lower, morphology::russian_stem(lower))
        } else {
            None
        }
    }

    /// The finding for one spelling of the `position`-th word of the text, if it is known.
    pub open spec fn finding(
        self,
        label: Seq<char>,
        clean: Seq<char>,
        position: int,
        spelling: Seq<char>,
    ) -> Option<Finding> {
        let lower = morphology::lowercase(spelling);
        if self.admits(spelling) {
            finding_for(
                self.lexicon,
                label,
                clean,
                position,
                spelling,
                lower,
                morphology::russian_stem(lower),
            )
        } else {
            None
        }
    }

    /// The findings for some spellings of the `position`-th word of the text.
    pub open spec fn spelling_findings(
        self,
        label: Seq<char>,
        clean: Seq<char>,
        position: int,
        spellings: Seq<(Seq<char>, int)>,
    ) -> Seq<Finding> {
        spellings.filter_map(|s: (Seq<char>, int)| self.finding(label, clean, position, s.0))
    }

    /// The findings for the `position`-th word of the text.
    pub open spec fn word_findings(self, label: Seq<char>, word: Seq<char>, position: int) -> Seq<
        Finding,
    > {
        self.spelling_findings(label, cleaned(word, self.symbols), position, self.spellings(word))
    }

    /// The findings for the words of a text, in order.
    pub open spec fn words_findings(self, label: Seq<char>, words: Seq<Seq<char>>) -> Seq<Finding>
        decreases words.len(),
    {
        if words.len() == 0 {
            Seq::empty()
        } else {
            self.words_findings(label, words.drop_last()) + self.word_findings(
                label,
                words.last(),
                words.len() - 1,
            )
        }
    }

    /// The findings in a text.
    pub open spec fn text_findings(self, label: Seq<char>, source: Seq<char>) -> Seq<Finding> {
        self.words_findings(label, text::text_words(source))
    }

    /// Whether the stemmer can take every spelling of `spellings` that gets past the filters.
    pub open spec fn spellings_fit(self, spellings: Seq<(Seq<char>, int)>) -> bool {
        forall|k: int|
            0 <= k < spellings.len() && self.admits((#[trigger] spellings[k]).0)
                ==> morphology::stemmable(morphology::lowercase(spellings[k].0))
    }

    /// Whether the stemmer can take every spelling that it is asked about in a text.
    pub open spec fn text_fits(self, source: Seq<char>) -> bool {
        forall|p: int|
            0 <= p < text::text_words(source).len() ==> self.spellings_fit(
                self.spellings(#[trigger] text::text_words(source)[p]),
            )
    }
}

/// Drops the characters of `word` that are neither marked as letters nor symbols.
pub fn clean_word(word: &[char], letters: &[bool], symbols: &SymbolSet) -> (clean: Vec<char>)
    requires
        word@.len() == letters@.len(),
    ensures
        clean@ == text::select(word@, kept_marks(word@, letters@, symbols@)),
{
    let mut clean: Vec<char> = Vec::new();
    let ghost marks = kept_marks(word@, letters@, symbols@);
    let mut i: usize = 0;
    while i < word.len()
        invariant
            i <= word@.len() == letters@.len(),
            marks == kept_marks(word@, letters@, symbols@),
            clean@ == text::select(word@.take(i as int), marks),
        decreases word@.len() - i,
    {
        assert(word@.take(i + 1).drop_last() == word@.take(i as int));
        if letters[i] || symbols.contains(word[i]) {
            clean.push(word[i]);
        }
        i += 1;
    }
    assert(word@.take(word@.len() as int) == word@);
    clean
}

/// Whether a cleaned word is worth searching.
pub fn is_searchable(clean: &String, symbols: &SymbolSet) -> (answer: bool)
    ensures
        answer == searchable(clean@, symbols@),
{
    if clean.as_str().as_bytes().len() < 2 {
        return false;
    }
    let chars = chars_of(clean.as_str());
    let mut i: usize = 0;
    while i < chars.len()
        invariant
            i <= chars@.len(),
            chars@ == clean@,
            vstd::utf8::encode_utf8(clean@).len() >= 2,
            forall|k: int| 0 <= k < i ==> !symbols@.contains(#[trigger] clean@[k]),
        decreases chars@.len() - i,
    {
        if symbols.contains(chars[i]) {
            assert(symbols@.contains(clean@[i as int]));
            return true;
        }
        i += 1;
    }
    false
}

/// Searches one word of a text and appends what is found to `results`.
///
/// The answer is `false` where the stemmer cannot take one of the spellings; what `results` then
/// holds beyond its old content is unspecified.
fn search_word(
    word: &[char],
    position: usize,
    source_label: &str,
    dict: &Dictionary,
    target_symbols: &SymbolSet,
    replacements: &[char],
    max_consecutive: u8,
    max_combinations: usize,
    results: &mut Vec<MatchResult>,
) -> (fits: bool)
    ensures
        ({
            let q = query(dict, target_symbols, replacements, max_consecutive, max_combinations);
            &&& fits == q.spellings_fit(q.spellings(word@))
            &&& fits ==> findings(final(results)@) == findings(old(results)@) + q.word_findings(
                source_label@,
                word@,
                position as int,
            )
        }),
{
    let ghost q = query(dict, target_symbols, replacements, max_consecutive, max_combinations);
    let ghost start = findings(results@);
    let letters = mark_letters(word);
    let clean_chars = clean_word(word, letters.as_slice(), target_symbols);
    let clean = string_of(clean_chars.as_slice());
    if !is_searchable(&clean, target_symbols) {
        assert(q.word_findings(source_label@, word@, position as int) == Seq::<Finding>::empty());
        assert(start + Seq::<Finding>::empty() == start);
        return true;
    }
    let list = generate_candidates(
        clean.as_str(),
        target_symbols,
        replacements,
        max_consecutive,
        max_combinations,
    );
    let ghost all = candidates::candidate_views(list@);
    assert(all == q.spellings(word@));
    let ghost find = |s: (Seq<char>, int)|
        q.finding(source_label@, clean@, position as int, s.0);
    let mut i: usize = 0;
    assert(start + all.take(0).filter_map(find) == start);
    while i < list.len()
        invariant
            i <= list@.len(),
            q == query(dict, target_symbols, replacements, max_consecutive, max_combinations),
            all == candidates::candidate_views(list@),
            all == q.spellings(word@),
            find == (|s: (Seq<char>, int)|
                q.finding(source_label@, clean@, position as int, s.0)),
            q.spellings_fit(all.take(i as int)),
            findings(results@) == start + all.take(i as int).filter_map(find),
        decreases list@.len() - i,
    {
        let spelling = &list[i].0;
        proof {
            assert(all[i as int].0 == spelling@);
            assert(all.take(i + 1).drop_last() == all.take(i as int));
            assert(all.take(i + 1).last() == all[i as int]);
            reveal_with_fuel(Seq::filter_map, 2);
        }
        if dict.screen(spelling) {
            let lower = spelling.as_str().to_lowercase();
            if !can_stem(lower.as_str()) {
                assert(!q.spellings_fit(all)) by {
                    assert(q.admits(all[i as int].0));
                }
                return false;
            }
            let stemmed = stem_russian(lower.as_str());
            let result = examine(
                dict,
                source_label,
                clean.as_str(),
                position,
                spelling.as_str(),
                lower.as_str(),
                stemmed,
            );
            if let Some(found) = result {
                let ghost before = findings(results@);
                results.push(found);
                proof {
                    assert(findings(results@) == before.push(found@));
                    assert(find(all[i as int]) == Some(found@));
                    assert(start + all.take(i as int).filter_map(find) + seq![found@] == start + (
                    all.take(i as int).filter_map(find) + seq![found@]));
                }
            }
        }
        i += 1;
    }
    assert(all.take(all.len() as int) == all);
    true
}

/// Searches a text for damaged words and lists the known words that they may stand for, word by
/// word and in the order in which the spellings are tried.
///
/// The result is `None` where a spelling got past the filters whose lower-case form is longer than
/// the stemmer can take.
pub fn process_text(
    text: &str,
    source_label: &str,
    dict: &Dictionary,
    target_symbols: &SymbolSet,
    replacements: &[char],
    max_consecutive: u8,
    max_combinations: usize,
) -> (results: Option<Vec<MatchResult>>)
    ensures
        ({
            let q = query(dict, target_symbols, replacements, max_consecutive, max_combinations);
            &&& q.lexicon.filled()
            &&& results is Some == q.text_fits(text@)
            &&& results matches Some(list) ==> findings(list@) == q.text_findings(
                source_label@,
                text@,
            )
        }),
{
    let ghost q = query(dict, target_symbols, replacements, max_consecutive, max_combinations);
    proof {
        use_type_invariant(dict);
    }
    let chars = chars_of(text);
    let marks = mark_spaces(chars.as_slice());
    let words = split_words(chars.as_slice(), marks.as_slice());
    let ghost all = text::char_views(words@);
    let mut results: Vec<MatchResult> = Vec::new();
    let mut position: usize = 0;
    while position < words.len()
        invariant
            position <= words@.len(),
            q.lexicon.filled(),
            q == query(dict, target_symbols, replacements, max_consecutive, max_combinations),
            all == text::char_views(words@),
            all == text::text_words(text@),
            forall|p: int|
                0 <= p < position ==> q.spellings_fit(q.spellings(#[trigger] all[p])),
            findings(results@) == q.words_findings(source_label@, all.take(position as int)),
        decreases words@.len() - position,
    {
        proof {
            assert(all[position as int] == words@[position as int]@);
            assert(all.take(position + 1).drop_last() == all.take(position as int));
        }
        let fits = search_word(
            words[position].as_slice(),
            position,
            source_label,
            dict,
            target_symbols,
            replacements,
            max_consecutive,
            max_combinations,
            &mut results,
        );
        if !fits {
            return None;
        }
        position += 1;
    }
    assert(all.take(all.len() as int) == all);
    Some(results)
}

/// The label of a line: where it comes from, and its number, counted from one.
pub open spec fn label_of(source: Seq<char>, line_index: int) -> Seq<char> {
    source + ":line_"@ + text::decimal((line_index + 1) as nat)
}

/// Makes the label of the line with the given index.
pub fn line_label(source: &str, line_index: usize) -> (label: String)
    requires
        line_index < usize::MAX,
    ensures
        label@ == label_of(source@, line_index as int),
{
    let mut label = source.to_owned();
    label.append(":line_");
    push_decimal(&mut label, line_index + 1);
    label
}

impl Query {
    /// The findings in consecutive lines of a source, the first of which has index `first`.
    pub open spec fn lines_findings(
        self,
        source: Seq<char>,
        first: int,
        lines: Seq<Seq<char>>,
    ) -> Seq<Finding>
        decreases lines.len(),
    {
        if lines.len() == 0 {
            Seq::empty()
        } else {
            self.lines_findings(source, first, lines.drop_last()) + self.text_findings(
                label_of(source, first + lines.len() - 1),
                lines.last(),
            )
        }
    }

    /// Whether the stemmer can take every spelling that it is asked about in some lines.
    pub open spec fn lines_fit(self, lines: Seq<Seq<char>>) -> bool {
        forall|n: int| 0 <= n < lines.len() ==> self.text_fits(#[trigger] lines[n])
    }
}

/// Searches consecutive lines of a source, the first of which has index `first`.
///
/// The result is `None` where a spelling in one of them is longer than the stemmer can take.
pub fn process_lines(
    lines: &[String],
    source: &str,
    first: usize,
    dict: &Dictionary,
    target_symbols: &SymbolSet,
    replacements: &[char],
    max_consecutive: u8,
    max_combinations: usize,
) -> (results: Option<Vec<MatchResult>>)
    requires
        first + lines@.len() <= usize::MAX,
    ensures
        ({
            let q = query(dict, target_symbols, replacements, max_consecutive, max_combinations);
            &&& q.lexicon.filled()
            &&& results is Some == q.lines_fit(dictionary::string_views(lines@))
            &&& results matches Some(list) ==> findings(list@) == q.lines_findings(
                source@,
                first as int,
                dictionary::string_views(lines@),
            )
        }),
{
    let ghost q = query(dict, target_symbols, replacements, max_consecutive, max_combinations);
    let ghost all = dictionary::string_views(lines@);
    proof {
        use_type_invariant(dict);
    }
    let mut results: Vec<MatchResult> = Vec::new();
    let mut i: usize = 0;
    while i < lines.len()
        invariant
            i <= lines@.len(),
            first + lines@.len() <= usize::MAX,
            q == query(dict, target_symbols, replacements, max_consecutive, max_combinations),
            all == dictionary::string_views(lines@),
            q.lines_fit(all.take(i as int)),
            findings(results@) == q.lines_findings(source@, first as int, all.take(i as int)),
        decreases lines@.len() - i,
    {
        proof {
            assert(all[i as int] == lines@[i as int]@);
            assert(all.take(i + 1).drop_last() == all.take(i as int));
            assert(all.take(i + 1).last() == all[i as int]);
        }
        let label = line_label(source, first + i);
        let found = process_text(
            lines[i].as_str(),
            label.as_str(),
            dict,
            target_symbols,
            replacements,
            max_consecutive,
            max_combinations,
        );
        match found {
            Some(list) => {
                let ghost before = findings(results@);
                let ghost more = findings(list@);
                let mut list = list;
                results.append(&mut list);
                assert(findings(results@) == before + more);
            },
            None => {
                assert(!q.text_fits(all[i as int]));
                return None;
            },
        }
        i += 1;
    }
    assert(all.take(all.len() as int) == all);
    Some(results)
}

/// What is found for some spellings is what one of them yields, and each that yields something is
/// found.
proof fn lemma_spelling_findings(
    q: Query,
    label: Seq<char>,
    clean: Seq<char>,
    position: int,
    spellings: Seq<(Seq<char>, int)>,
    f: Finding,
)
    ensures
        q.spelling_findings(label, clean, position, spellings).contains(f) <==> exists|k: int|
            0 <= k < spellings.len() && q.finding(
                label,
                clean,
                position,
                (#[trigger] spellings[k]).0,
            ) == Some(f),
    decreases spellings.len(),
{
    let find = |s: (Seq<char>, int)| q.finding(label, clean, position, s.0);
    let all = q.spelling_findings(label, clean, position, spellings);
    reveal_with_fuel(Seq::filter_map, 2);
    if spellings.len() > 0 {
        let shorter = spellings.drop_last();
        let some = q.spelling_findings(label, clean, position, shorter);
        lemma_spelling_findings(q, label, clean, position, shorter, f);
        assert(some == shorter.filter_map(find));
        let last = q.finding(label, clean, position, spellings.last().0);
        assert(find(spellings.last()) == last);
        if let Some(g) = last {
            assert(all == some + seq![g]);
            assert(all[some.len() as int] == g);
        } else {
            assert(all == some);
        }
        if all.contains(f) {
            if some.contains(f) {
                let k = choose|k: int|
                    0 <= k < shorter.len() && q.finding(
                        label,
                        clean,
                        position,
                        (#[trigger] shorter[k]).0,
                    ) == Some(f);
                assert(spellings[k] == shorter[k]);
            } else {
                let n = all.index_of(f);
                if n < some.len() {
                    assert(some[n] == f);
                }
                assert(spellings[spellings.len() - 1] == spellings.last());
            }
        }
        if exists|k: int|
            0 <= k < spellings.len() && q.finding(
                label,
                clean,
                position,
                (#[trigger] spellings[k]).0,
            ) == Some(f) {
            let k = choose|k: int|
                0 <= k < spellings.len() && q.finding(
                    label,
                    clean,
                    position,
                    (#[trigger] spellings[k]).0,
                ) == Some(f);
            if k < shorter.len() {
                assert(shorter[k] == spellings[k]);
                assert(all[some.index_of(f)] == f);
            }
        }
    }
}

/// Whether `f` is the finding for a spelling that is tried for `word` at `position`.
pub open spec fn yields(
    q: Query,
    label: Seq<char>,
    word: Seq<char>,
    position: int,
    f: Finding,
) -> bool {
    exists|k: int|
        0 <= k < q.spellings(word).len() && q.finding(
            label,
            cleaned(word, q.symbols),
            position,
            (#[trigger] q.spellings(word)[k]).0,
        ) == Some(f)
}

/// Whether `f` is the finding for a spelling that is tried for the word at `f.position`.
pub open spec fn is_finding_of(q: Query, label: Seq<char>, words: Seq<Seq<char>>, f: Finding) -> bool {
    0 <= f.position < words.len() && yields(q, label, words[f.position], f.position, f)
}

proof fn lemma_words_findings(q: Query, label: Seq<char>, words: Seq<Seq<char>>, f: Finding)
    ensures
        q.words_findings(label, words).contains(f) <==> is_finding_of(q, label, words, f),
    decreases words.len(),
{
    if words.len() > 0 {
        let shorter = words.drop_last();
        let word = words.last();
        let last = words.len() - 1;
        let some = q.words_findings(label, shorter);
        let more = q.word_findings(label, word, last);
        let all = q.words_findings(label, words);
        assert(all == some + more);
        lemma_words_findings(q, label, shorter, f);
        lemma_spelling_findings(
            q,
            label,
            cleaned(word, q.symbols),
            last,
            q.spellings(word),
            f,
        );
        assert(all.contains(f) <==> some.contains(f) || more.contains(f)) by {
            if all.contains(f) {
                let n = all.index_of(f);
                if n < some.len() {
                    assert(some[n] == f);
                } else {
                    assert(more[n - some.len()] == f);
                }
            }
            if some.contains(f) {
                assert(all[some.index_of(f)] == f);
            }
            if more.contains(f) {
                assert(all[some.len() + more.index_of(f)] == f);
            }
        }
        if f.position < last {
            assert(is_finding_of(q, label, shorter, f) == is_finding_of(q, label, words, f)) by {
                if 0 <= f.position {
                    assert(shorter[f.position] == words[f.position]);
                }
            }
            assert(!more.contains(f));
        }
        if more.contains(f) {
            assert(f.position == last);
            assert(is_finding_of(q, label, words, f));
        }
        if f.position == last && is_finding_of(q, label, words, f) {
            assert(more.contains(f));
        }
    }
}

/// A search reports the known spellings among those that are tried for the words of the text, and
/// no others.
pub proof fn lemma_findings_exact(q: Query, label: Seq<char>, source: Seq<char>, f: Finding)
    ensures
        q.text_findings(label, source).contains(f) <==> is_finding_of(
            q,
            label,
            text::text_words(source),
            f,
        ),
{
    lemma_words_findings(q, label, text::text_words(source), f);
}

/// Findings come in the order of the words that they belong to.
pub proof fn lemma_findings_ordered(
    q: Query,
    label: Seq<char>,
    words: Seq<Seq<char>>,
    m: int,
    n: int,
)
    requires
        0 <= m <= n < q.words_findings(label, words).len(),
    ensures
        0 <= q.words_findings(label, words)[m].position <= q.words_findings(
            label,
            words,
        )[n].position < words.len(),
    decreases words.len(),
{
    let all = q.words_findings(label, words);
    let shorter = words.drop_last();
    let some = q.words_findings(label, shorter);
    lemma_words_findings(q, label, words, all[m]);
    lemma_words_findings(q, label, words, all[n]);
    assert(all.contains(all[m]));
    assert(all.contains(all[n]));
    if n < some.len() {
        lemma_findings_ordered(q, label, shorter, m, n);
    } else {
        let more = q.word_findings(label, words.last(), words.len() - 1);
        assert(all[n] == more[n - some.len()]);
        lemma_spelling_findings(
            q,
            label,
            cleaned(words.last(), q.symbols),
            words.len() - 1,
            q.spellings(words.last()),
            all[n],
        );
        assert(more.contains(all[n]));
    }
}

/// What a finding says: it names the source and the cleaned word of the text at its position, its
/// candidate restores one run of symbols in that word and keeps everything else, case included,
/// and its method is that by which the dictionary knows the candidate.
pub proof fn lemma_finding_meaning(q: Query, label: Seq<char>, source: Seq<char>, f: Finding)
    requires
        q.text_findings(label, source).contains(f),
    ensures
        0 <= f.position < text::text_words(source).len(),
        f.source_file == label,
        f.original_word == cleaned(text::text_words(source)[f.position], q.symbols),
        searchable(f.original_word, q.symbols),
        exists|i: int, run: int| #[trigger]
            candidates::restores(
                f.original_word,
                q.symbols,
                q.replacements,
                q.max_run,
                f.candidate,
                i,
                run,
            ),
        f.stemmed == morphology::russian_stem(morphology::lowercase(f.candidate)),
        q.verdict(f.candidate) is Some,
        f.validation_method == method_label(q.verdict(f.candidate)->0),
{
    lemma_findings_exact(q, label, source, f);
    let word = text::text_words(source)[f.position];
    let clean = cleaned(word, q.symbols);
    let k = choose|k: int|
        0 <= k < q.spellings(word).len() && q.finding(
            label,
            clean,
            f.position,
            (#[trigger] q.spellings(word)[k]).0,
        ) == Some(f);
    candidates::lemma_candidate_restores(
        clean,
        q.symbols,
        q.replacements,
        q.max_run,
        q.limit,
        k,
    );
    let c = q.spellings(word)[k];
    let run = choose|run: int| #[trigger]
        candidates::restores(clean, q.symbols, q.replacements, q.max_run, c.0, c.1, run);
    assert(candidates::restores(
        f.original_word,
        q.symbols,
        q.replacements,
        q.max_run,
        f.candidate,
        c.1,
        run,
    ));
}

/// Every spelling that is tried and known, in its own case or with case folded, is reported as an
/// exact match.
pub proof fn lemma_known_spelling_found(
    q: Query,
    label: Seq<char>,
    source: Seq<char>,
    position: int,
    k: int,
)
    requires
        q.lexicon.filled(),
        0 <= position < text::text_words(source).len(),
        0 <= k < q.spellings(text::text_words(source)[position]).len(),
        ({
            let spelling = q.spellings(text::text_words(source)[position])[k].0;
            q.lexicon.knows(spelling, morphology::lowercase(spelling))
        }),
    ensures
        ({
            let word = text::text_words(source)[position];
            let spelling = q.spellings(word)[k].0;
            q.text_findings(label, source).contains(
                (Finding {
                    source_file: label,
                    original_word: cleaned(word, q.symbols),
                    position,
                    candidate: spelling,
                    stemmed: morphology::russian_stem(morphology::lowercase(spelling)),
                    validation_method: "exact"@,
                }),
            )
        }),
{
    let word = text::text_words(source)[position];
    let clean = cleaned(word, q.symbols);
    let spelling = q.spellings(word)[k].0;
    let f = Finding {
        source_file: label,
        original_word: clean,
        position,
        candidate: spelling,
        stemmed: morphology::russian_stem(morphology::lowercase(spelling)),
        validation_method: "exact"@,
    };
    dictionary::lemma_known_words_pass(q.lexicon, spelling, morphology::lowercase(spelling));
    assert(q.finding(label, clean, position, spelling) == Some(f));
    assert(is_finding_of(q, label, text::text_words(source), f));
    lemma_findings_exact(q, label, source, f);
}

/// A damaged word is restored: where a run of one or two symbols stands alone in a word of the
/// text, replacing it by replacement characters gives a known word, and the limit does not cut
/// that spelling off, the search reports it as an exact match.
pub proof fn lemma_restored_word_found(
    q: Query,
    label: Seq<char>,
    source: Seq<char>,
    position: int,
    i: int,
    fill: Seq<char>,
)
    requires
        q.lexicon.filled(),
        0 <= position < text::text_words(source).len(),
        ({
            let clean = cleaned(text::text_words(source)[position], q.symbols);
            let run = candidates::stretch(clean, q.symbols, i);
            &&& vstd::utf8::encode_utf8(clean).len() >= 2
            &&& 0 <= i < clean.len()
            &&& i > 0 ==> !q.symbols.contains(clean[i - 1])
            &&& 1 <= run <= 2
            &&& run == 1 || run <= q.max_run
            &&& fill.len() == run
            &&& forall|k: int|
                0 <= k < fill.len() ==> q.replacements.contains(#[trigger] fill[k])
            &&& q.lexicon.knows(
                candidates::spliced(clean, i, run, fill),
                morphology::lowercase(candidates::spliced(clean, i, run, fill)),
            )
            &&& {
                ||| candidates::all_candidates(
                    clean,
                    q.symbols,
                    q.replacements,
                    q.max_run,
                ).len() <= q.limit
                ||| candidates::candidates(
                    clean,
                    q.symbols,
                    q.replacements,
                    q.max_run,
                    q.limit,
                ).contains((candidates::spliced(clean, i, run, fill), i))
            }
        }),
    ensures
        ({
            let clean = cleaned(text::text_words(source)[position], q.symbols);
            let run = candidates::stretch(clean, q.symbols, i);
            let restored = candidates::spliced(clean, i, run, fill);
            q.text_findings(label, source).contains(
                (Finding {
                    source_file: label,
                    original_word: clean,
                    position,
                    candidate: restored,
                    stemmed: morphology::russian_stem(morphology::lowercase(restored)),
                    validation_method: "exact"@,
                }),
            )
        }),
{
    let word = text::text_words(source)[position];
    let clean = cleaned(word, q.symbols);
    let run = candidates::stretch(clean, q.symbols, i);
    let restored = candidates::spliced(clean, i, run, fill);
    candidates::lemma_stretch(clean, q.symbols, i);
    candidates::lemma_isolated_run_restored(
        clean,
        q.symbols,
        q.replacements,
        q.max_run,
        i,
        fill,
    );
    assert(q.symbols.contains(clean[i]));
    assert(q.spellings(word).contains((restored, i)));
    let k = q.spellings(word).index_of((restored, i));
    lemma_known_spelling_found(q, label, source, position, k);
}

/// Whether two queries differ in the hash keys of the filters at most.
pub open spec fn same_but_filters(a: Query, b: Query) -> bool {
    &&& a.lexicon.exact.words == b.lexicon.exact.words
    &&& a.lexicon.lower is Some == b.lexicon.lower is Some
    &&& a.lexicon.lower is Some ==> a.lexicon.lower->0.words == b.lexicon.lower->0.words
    &&& a.symbols == b.symbols
    &&& a.replacements == b.replacements
    &&& a.max_run == b.max_run
    &&& a.limit == b.limit
}

/// Exact matches do not depend on the random keys of the filters: every search with the same
/// words reports the same ones.
pub proof fn lemma_exact_matches_reproducible(
    a: Query,
    b: Query,
    label: Seq<char>,
    source: Seq<char>,
    f: Finding,
)
    requires
        a.lexicon.filled(),
        b.lexicon.filled(),
        same_but_filters(a, b),
        f.validation_method == "exact"@,
        a.text_findings(label, source).contains(f),
    ensures
        b.text_findings(label, source).contains(f),
{
    let words = text::text_words(source);
    lemma_findings_exact(a, label, source, f);
    lemma_findings_exact(b, label, source, f);
    let word = words[f.position];
    let clean = cleaned(word, a.symbols);
    let k = choose|k: int|
        0 <= k < a.spellings(word).len() && a.finding(
            label,
            clean,
            f.position,
            (#[trigger] a.spellings(word)[k]).0,
        ) == Some(f);
    assert(a.verdict(f.candidate) == Some(Method::Exact)) by {
        reveal_strlit("exact");
        reveal_strlit("stemmed");
        assert("exact"@.len() != "stemmed"@.len());
    }
    dictionary::lemma_known_words_pass(
        b.lexicon,
        f.candidate,
        morphology::lowercase(f.candidate),
    );
    assert(b.verdict(f.candidate) == Some(Method::Exact));
    assert(b.spellings(word) == a.spellings(word));
    assert(b.finding(label, clean, f.position, b.spellings(word)[k].0) == Some(f));
}

/// Folding case loses no exact match: what a search with the words as written reports as exact,
/// the same search with case folded reports too.
pub proof fn lemma_folding_loses_nothing(
    strict: Query,
    folding: Query,
    words: Seq<Seq<char>>,
    label: Seq<char>,
    source: Seq<char>,
    f: Finding,
)
    requires
        dictionary::made_of(strict.lexicon, words, false),
        dictionary::made_of(folding.lexicon, words, true),
        strict.symbols == folding.symbols,
        strict.replacements == folding.replacements,
        strict.max_run == folding.max_run,
        strict.limit == folding.limit,
        f.validation_method == "exact"@,
        strict.text_findings(label, source).contains(f),
    ensures
        folding.text_findings(label, source).contains(f),
{
    lemma_findings_exact(strict, label, source, f);
    let word = text::text_words(source)[f.position];
    let clean = cleaned(word, strict.symbols);
    let k = choose|k: int|
        0 <= k < strict.spellings(word).len() && strict.finding(
            label,
            clean,
            f.position,
            (#[trigger] strict.spellings(word)[k]).0,
        ) == Some(f);
    assert(strict.verdict(f.candidate) == Some(Method::Exact)) by {
        reveal_strlit("exact");
        reveal_strlit("stemmed");
        assert("exact"@.len() != "stemmed"@.len());
    }
    assert(folding.spellings(word) == strict.spellings(word));
    lemma_known_spelling_found(folding, label, source, f.position, k);
}

/// Nothing is found in a text without symbols.
pub proof fn lemma_nothing_without_symbols(q: Query, label: Seq<char>, source: Seq<char>)
    requires
        forall|k: int| 0 <= k < source.len() ==> !q.symbols.contains(#[trigger] source[k]),
    ensures
        q.text_findings(label, source).len() == 0,
        q.text_fits(source),
{
    let words = text::text_words(source);
    assert forall|p: int| 0 <= p < words.len() implies q.spellings(#[trigger] words[p]).len()
        == 0 by {
        let word = words[p];
        let marks = kept_marks(word, text::letter_marks(word), q.symbols);
        let clean = cleaned(word, q.symbols);
        text::lemma_text_word(source, p);
        assert forall|k: int| 0 <= k < clean.len() implies !q.symbols.contains(
            #[trigger] clean[k],
        ) by {
            let i = text::lemma_select_origin(word, marks, k);
            assert(source.contains(word[i]));
            let j = source.index_of(word[i]);
            assert(!q.symbols.contains(source[j]));
        }
    }
    if q.text_findings(label, source).len() > 0 {
        let f = q.text_findings(label, source)[0];
        assert(q.text_findings(label, source).contains(f));
        lemma_findings_exact(q, label, source, f);
    }
}

/// Lines can be searched in parts: what is found in the first ones, and then in the others counted
/// from where they start, is what is found in all of them.
pub proof fn lemma_lines_concat(
    q: Query,
    source: Seq<char>,
    first: int,
    a: Seq<Seq<char>>,
    b: Seq<Seq<char>>,
)
    ensures
        q.lines_findings(source, first, a + b) == q.lines_findings(source, first, a)
            + q.lines_findings(source, first + a.len(), b),
        q.lines_fit(a + b) <==> q.lines_fit(a) && q.lines_fit(b),
    decreases b.len(),
{
    if b.len() == 0 {
        assert(a + b == a);
        assert(q.lines_findings(source, first, a) + Seq::<Finding>::empty() == q.lines_findings(
            source,
            first,
            a,
        ));
    } else {
        let shorter = b.drop_last();
        lemma_lines_concat(q, source, first, a, shorter);
        assert((a + b).drop_last() == a + shorter);
        assert((a + b).last() == b.last());
        let x = q.lines_findings(source, first, a);
        let y = q.lines_findings(source, first + a.len(), shorter);
        let z = q.text_findings(label_of(source, first + (a + b).len() - 1), b.last());
        assert((x + y) + z == x + (y + z));
        if q.lines_fit(a + b) {
            assert forall|n: int| 0 <= n < a.len() implies q.text_fits(#[trigger] a[n]) by {
                assert((a + b)[n] == a[n]);
            }
            assert forall|n: int| 0 <= n < b.len() implies q.text_fits(#[trigger] b[n]) by {
                assert((a + b)[a.len() + n] == b[n]);
            }
        }
    }
}

/// What is found in lines of a source is what is found in one of them, under the label with the
/// number of that line.
pub proof fn lemma_lines_findings(
    q: Query,
    source: Seq<char>,
    first: int,
    lines: Seq<Seq<char>>,
    f: Finding,
)
    ensures
        q.lines_findings(source, first, lines).contains(f) <==> exists|n: int|
            0 <= n < lines.len() && q.text_findings(
                label_of(source, first + n),
                #[trigger] lines[n],
            ).contains(f),
    decreases lines.len(),
{
    if lines.len() > 0 {
        let shorter = lines.drop_last();
        let last = lines.len() - 1;
        let some = q.lines_findings(source, first, shorter);
        let more = q.text_findings(label_of(source, first + last), lines.last());
        let all = q.lines_findings(source, first, lines);
        assert(all == some + more);
        lemma_lines_findings(q, source, first, shorter, f);
        if all.contains(f) {
            let k = all.index_of(f);
            if k < some.len() {
                assert(some[k] == f);
                let n = choose|n: int|
                    0 <= n < shorter.len() && q.text_findings(
                        label_of(source, first + n),
                        #[trigger] shorter[n],
                    ).contains(f);
                assert(lines[n] == shorter[n]);
            } else {
                assert(more[k - some.len()] == f);
                assert(lines[last] == lines.last());
            }
        }
        if exists|n: int|
            0 <= n < lines.len() && q.text_findings(
                label_of(source, first + n),
                #[trigger] lines[n],
            ).contains(f) {
            let n = choose|n: int|
                0 <= n < lines.len() && q.text_findings(
                    label_of(source, first + n),
                    #[trigger] lines[n],
                ).contains(f);
            if n < last {
                assert(shorter[n] == lines[n]);
                assert(all[some.index_of(f)] == f);
            } else {
                assert(all[some.len() + more.index_of(f)] == f);
            }
        }
    }
}

impl Query {
    /// The findings in lines that are searched in chunks of `size` lines, from the line with index
    /// `start` on: chunk by chunk, each counted from its own first line.
    pub open spec fn chunked_findings(
        self,
        source: Seq<char>,
        lines: Seq<Seq<char>>,
        size: int,
        start: int,
    ) -> Seq<Finding>
        decreases lines.len() - start,
    {
        if size <= 0 || start < 0 || start >= lines.len() {
            Seq::empty()
        } else {
            let end = if start + size < lines.len() { start + size } else { lines.len() as int };
            self.lines_findings(source, start, lines.subrange(start, end)) + self.chunked_findings(
                source,
                lines,
                size,
                end,
            )
        }
    }
}

/// How lines are cut into chunks makes no difference to what is found in them.
pub proof fn lemma_chunks(q: Query, source: Seq<char>, lines: Seq<Seq<char>>, size: int, start: int)
    requires
        size > 0,
        0 <= start <= lines.len(),
    ensures
        q.chunked_findings(source, lines, size, start) == q.lines_findings(
            source,
            start,
            lines.skip(start),
        ),
    decreases lines.len() - start,
{
    if start < lines.len() {
        let end = if start + size < lines.len() { start + size } else { lines.len() as int };
        lemma_chunks(q, source, lines, size, end);
        lemma_lines_concat(q, source, start, lines.subrange(start, end), lines.skip(end));
        assert(lines.subrange(start, end) + lines.skip(end) == lines.skip(start));
    }
}

/// Lines of one source with different numbers have different labels.
pub proof fn lemma_labels_distinct(source: Seq<char>, m: int, n: int)
    requires
        0 <= m,
        0 <= n,
        label_of(source, m) == label_of(source, n),
    ensures
        m == n,
{
    let head = source + ":line_"@;
    let a = text::decimal((m + 1) as nat);
    let b = text::decimal((n + 1) as nat);
    assert((head + a).skip(head.len() as int) == a);
    assert((head + b).skip(head.len() as int) == b);
    text::lemma_decimal_injective((m + 1) as nat, (n + 1) as nat);
}

} // verus!

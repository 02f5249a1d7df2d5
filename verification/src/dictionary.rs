//! The dictionary: the known words, each set of them behind a Bloom filter.

use crate::filter;
use crate::filter::{may_hold, new_filter, record};
use crate::morphology;
use crate::text;
use crate::text::{string_of, trim_chars};
use bloomfilter::Bloom;
use vstd::hash_set::StringHashSet;
use vstd::prelude::*;

verus! {

/// A set of words and the filter in front of it: the bits that belong to each string, those that
/// are set, and how many bits and hash functions there are.
pub struct WordBook {
    pub words: Set<Seq<char>>,
    pub probes: Map<Seq<char>, Set<nat>>,
    pub bits: Set<nat>,
    pub shape: (nat, nat),
}

impl WordBook {
    /// The strings that the filter lets pass: those of which every bit is set.
    pub open spec fn passed(self) -> Set<Seq<char>> {
        Set::new(|s: Seq<char>| self.probes[s].subset_of(self.bits))
    }

    /// Whether `b` is a bit of one of the words.
    pub open spec fn is_word_bit(self, b: nat) -> bool {
        exists|w: Seq<char>| #[trigger] self.words.contains(w) && self.probes[w].contains(b)
    }

    /// The words, and nothing else, were recorded in the filter, in which every string has a bit.
    pub open spec fn filled(self) -> bool {
        &&& forall|b: nat| #[trigger] self.bits.contains(b) <==> self.is_word_bit(b)
        &&& self.probes.dom() == Set::<Seq<char>>::full()
        &&& forall|s: Seq<char>| #[trigger] filter::has_bit(self.probes, s)
    }
}

/// A set of words behind a Bloom filter in which they, and nothing else, were recorded.
pub struct WordIndex {
    bloom: Bloom<String>,
    set: StringHashSet,
}

impl View for WordIndex {
    type V = WordBook;

    closed spec fn view(&self) -> WordBook {
        WordBook {
            words: self.set@,
            probes: filter::probes(self.bloom),
            bits: filter::set_bits(self.bloom),
            shape: filter::shape(self.bloom),
        }
    }
}

/// What is said of an index is said of its set, and of its filter as it is.
proof fn lemma_index_parts(index: WordIndex)
    ensures
        index@.words == index.set@,
        index@.probes == filter::probes(index.bloom),
        index@.bits == filter::set_bits(index.bloom),
        index@.shape == filter::shape(index.bloom),
        forall|s: Seq<char>|
            #[trigger] index@.passed().contains(s) <==> filter::accepted(index.bloom).contains(s),
{
}

/// The strings in a list.
pub open spec fn string_views(list: Seq<String>) -> Seq<Seq<char>> {
    list.map_values(|s: String| s@)
}

impl WordIndex {
    /// The words of the set, and nothing else, were recorded in the filter.
    #[verifier::type_invariant]
    pub open spec fn valid(self) -> bool {
        self@.filled()
    }

    /// Whether the filter has a bitmap of `bitmap_size` bytes and suits `capacity` words.
    pub closed spec fn sized_for(self, bitmap_size: usize, capacity: usize) -> bool {
        filter::sized_for(self.bloom, bitmap_size as nat, capacity as nat)
    }

    /// Indexes `words` behind a filter of `bitmap_size` bytes made for `capacity` words.
    pub fn build(words: Vec<String>, bitmap_size: usize, capacity: usize) -> (index: WordIndex)
        requires
            0 < bitmap_size <= usize::MAX / 8,
            0 < capacity,
        ensures
            index@.words == string_views(words@).to_set(),
            index.valid(),
            index.sized_for(bitmap_size, capacity),
    {
        let mut bloom = new_filter(bitmap_size, capacity);
        let mut set = StringHashSet::new();
        let mut i: usize = 0;
        while i < words.len()
            invariant
                i <= words@.len(),
                filter::sized_for(bloom, bitmap_size as nat, capacity as nat),
                set@ == string_views(words@.take(i as int)).to_set(),
                (WordBook {
                    words: set@,
                    probes: filter::probes(bloom),
                    bits: filter::set_bits(bloom),
                    shape: filter::shape(bloom),
                }).filled(),
            decreases words@.len() - i,
        {
            let ghost earlier = WordBook {
                words: set@,
                probes: filter::probes(bloom),
                bits: filter::set_bits(bloom),
                shape: filter::shape(bloom),
            };
            record(&mut bloom, &words[i]);
            set.insert(words[i].clone());
            proof {
                lemma_recorded(earlier, words@[i as int]@);
                let before = string_views(words@.take(i as int));
                let after = string_views(words@.take(i + 1));
                assert(after == before.push(words@[i as int]@));
                lemma_push_to_set(before, words@[i as int]@);
            }
            i += 1;
        }
        assert(words@.take(words@.len() as int) == words@);
        WordIndex { bloom, set }
    }

    /// Whether the filter lets `word` pass.
    pub fn passes(&self, word: &String) -> (answer: bool)
        ensures
            answer == self@.passed().contains(word@),
    {
        may_hold(&self.bloom, word)
    }

    /// Whether `word` is one of the words.
    pub fn contains(&self, word: &str) -> (answer: bool)
        ensures
            answer == self@.words.contains(word@),
    {
        self.set.contains(word)
    }
}

/// Adding a word to the set and recording it keeps the filter filled.
proof fn lemma_recorded(book: WordBook, word: Seq<char>)
    requires
        book.filled(),
    ensures
        (WordBook {
            words: book.words.insert(word),
            probes: book.probes,
            bits: book.bits.union(book.probes[word]),
            shape: book.shape,
        }).filled(),
{
    let after = WordBook {
        words: book.words.insert(word),
        probes: book.probes,
        bits: book.bits.union(book.probes[word]),
        shape: book.shape,
    };
    assert forall|b: nat| #[trigger] after.bits.contains(b) <==> after.is_word_bit(b) by {
        assert(book.bits.contains(b) <==> book.is_word_bit(b));
        if book.is_word_bit(b) {
            let w = choose|w: Seq<char>| #[trigger]
                book.words.contains(w) && book.probes[w].contains(b);
            assert(after.words.contains(w));
        }
        if after.probes[word].contains(b) {
            assert(after.words.contains(word));
        }
        if after.is_word_bit(b) {
            let w = choose|w: Seq<char>| #[trigger]
                after.words.contains(w) && after.probes[w].contains(b);
            if w != word {
                assert(book.words.contains(w));
                assert(book.is_word_bit(b));
            }
        }
    }
}

/// What a filter lets pass: a string passes exactly if each of its bits is a bit of some word.
/// Every word does, and where there is no word nothing does.
pub proof fn lemma_passed(book: WordBook, s: Seq<char>)
    requires
        book.filled(),
    ensures
        book.passed().contains(s) <==> forall|b: nat| #[trigger]
            book.probes[s].contains(b) ==> book.is_word_bit(b),
        book.words.contains(s) ==> book.passed().contains(s),
        book.passed().contains(s) ==> exists|w: Seq<char>| book.words.contains(w),
{
    if book.words.contains(s) {
        assert forall|b: nat| #[trigger] book.probes[s].contains(b) implies book.bits.contains(
            b,
        ) by {
            assert(book.is_word_bit(b));
        }
    }
    if book.passed().contains(s) {
        assert(filter::has_bit(book.probes, s));
        let b = choose|b: nat| #[trigger] book.probes[s].contains(b);
        assert(book.probes[s].contains(b));
        assert(book.bits.contains(b));
        assert(book.is_word_bit(b));
    }
}

/// The set of a list that grew by one item is the old set with that item.
proof fn lemma_push_to_set(list: Seq<Seq<char>>, item: Seq<char>)
    ensures
        list.push(item).to_set() == list.to_set().insert(item),
{
    let grown = list.push(item);
    assert forall|x: Seq<char>|
        #[trigger] grown.to_set().contains(x) <==> list.to_set().insert(item).contains(x) by {
        if list.contains(x) {
            assert(grown[list.index_of(x)] == x);
        }
        assert(grown[list.len() as int] == item);
    }
    assert(grown.to_set() =~= list.to_set().insert(item));
}

/// Why a dictionary could not be loaded.
#[derive(Debug, Clone, Copy, PartialEq, Eq, Structural)]
pub enum DictionaryError {
    /// There is no word in it.
    NoWords,
}

/// The words of a dictionary as written and, where case is to be folded, in lower case.
pub struct WordList {
    pub exact: Vec<String>,
    pub lowered: Option<Vec<String>>,
}

/// The words in the lines of a dictionary: one per line, without the white space around it.
pub open spec fn dictionary_words(lines: Seq<Seq<char>>) -> Seq<Seq<char>> {
    lines.map_values(|line: Seq<char>| text::trim_text(line)).filter(|word: Seq<char>| word.len() > 0)
}

/// The lower-case forms of `words`, in order.
pub open spec fn lowered_words(words: Seq<Seq<char>>) -> Seq<Seq<char>> {
    words.map_values(|word: Seq<char>| morphology::lowercase(word))
}

/// `words` with `word` at the end, unless it is blank.
pub open spec fn with_word(words: Seq<Seq<char>>, word: Seq<char>, item: Seq<char>) -> Seq<
    Seq<char>,
> {
    if word.len() > 0 {
        words.push(item)
    } else {
        words
    }
}

impl WordList {
    /// Adds a word, with its lower-case form where case is to be folded. A blank word is ignored.
    pub fn add(&mut self, word: String, lower: Option<String>)
        requires
            old(self).lowered is Some ==> lower is Some,
        ensures
            string_views(final(self).exact@) == with_word(
                string_views(old(self).exact@),
                word@,
                word@,
            ),
            final(self).lowered is Some == old(self).lowered is Some,
            old(self).lowered matches Some(v) ==> string_views(final(self).lowered->0@)
                == with_word(string_views(v@), word@, lower->0@),
            word@.len() == 0 ==> *final(self) == *old(self),
            word@.len() > 0 ==> final(self).exact@ == old(self).exact@.push(word),
            word@.len() > 0 && old(self).lowered is Some ==> final(self).lowered->0@ == old(
                self,
            ).lowered->0@.push(lower->0),
    {
        if word.as_str().is_empty() {
            return;
        }
        let ghost exact = string_views(self.exact@);
        if let Some(forms) = &mut self.lowered {
            if let Some(form) = lower {
                let ghost before = string_views(forms@);
                forms.push(form);
                assert(string_views(forms@) == before.push(form@));
            }
        }
        self.exact.push(word);
        assert(string_views(self.exact@) == exact.push(word@));
    }
}

/// Collects the words of a dictionary from its lines. Blank lines are ignored.
pub fn read_words(lines: &[String], ci_fallback: bool) -> (list: Result<WordList, DictionaryError>)
    ensures
        match list {
            Ok(list) => {
                let words = dictionary_words(string_views(lines@));
                &&& words.len() > 0
                &&& string_views(list.exact@) == words
                &&& list.lowered is Some == ci_fallback
                &&& list.lowered matches Some(v) ==> string_views(v@) == lowered_words(words)
            },
            Err(DictionaryError::NoWords) => dictionary_words(string_views(lines@)).len() == 0,
        },
{
    let mut list = WordList {
        exact: Vec::new(),
        lowered: if ci_fallback {
            Some(Vec::new())
        } else {
            None
        },
    };
    let ghost all = string_views(lines@);
    let ghost trim = |line: Seq<char>| text::trim_text(line);
    let ghost keep = |word: Seq<char>| word.len() > 0;
    let mut i: usize = 0;
    while i < lines.len()
        invariant
            i <= lines@.len(),
            all == string_views(lines@),
            trim == (|line: Seq<char>| text::trim_text(line)),
            keep == (|word: Seq<char>| word.len() > 0),
            string_views(list.exact@) == all.take(i as int).map_values(trim).filter(keep),
            list.lowered is Some == ci_fallback,
            list.lowered matches Some(v) ==> string_views(v@) == lowered_words(
                string_views(list.exact@),
            ),
        decreases lines@.len() - i,
    {
        let core = trim_chars(lines[i].as_str());
        let word = string_of(core.as_slice());
        proof {
            let earlier = all.take(i as int).map_values(trim);
            let now = all.take(i + 1).map_values(trim);
            assert(now.drop_last() == earlier);
            assert(now.last() == word@);
            reveal_with_fuel(Seq::filter, 2);
        }
        let lower = if ci_fallback {
            Some(word.as_str().to_lowercase())
        } else {
            None
        };
        list.add(word, lower);
        i += 1;
    }
    assert(all.take(all.len() as int) == all);
    if list.exact.len() == 0 {
        assert(string_views(list.exact@).len() == 0);
        return Err(DictionaryError::NoWords);
    }
    assert(string_views(list.exact@).len() > 0);
    Ok(list)
}

/// What a dictionary holds: the words as written and, where case is folded, in lower case.
pub struct Lexicon {
    pub exact: WordBook,
    pub lower: Option<WordBook>,
}

impl Lexicon {
    /// Each filter holds the words behind it, and nothing else.
    pub open spec fn filled(self) -> bool {
        &&& self.exact.filled()
        &&& self.lower matches Some(book) ==> book.filled()
    }

    /// Whether a spelling with the given lower-case form gets past the filters.
    pub open spec fn passes(self, spelling: Seq<char>, lower: Seq<char>) -> bool {
        ||| self.exact.passed().contains(spelling)
        ||| self.lower matches Some(book) && book.passed().contains(lower)
    }

    /// Whether a spelling with the given lower-case form is a known word.
    pub open spec fn knows(self, spelling: Seq<char>, lower: Seq<char>) -> bool {
        ||| self.exact.words.contains(spelling)
        ||| self.lower matches Some(book) && book.words.contains(lower)
    }

    /// Whether a stem is a known word.
    pub open spec fn knows_stem(self, stem: Seq<char>) -> bool {
        ||| self.exact.words.contains(stem)
        ||| self.lower matches Some(book) && book.words.contains(stem)
    }

    /// How a spelling with the given lower-case form and stem is known, if it is.
    pub open spec fn classify(
        self,
        spelling: Seq<char>,
        lower: Seq<char>,
        stem: Seq<char>,
    ) -> Option<Method> {
        if self.knows(spelling, lower) {
            Some(Method::Exact)
        } else if self.knows_stem(stem) {
            Some(Method::Stemmed)
        } else {
            None
        }
    }
}

/// Whether `lexicon` holds `words`, and folds case or not.
pub open spec fn made_of(lexicon: Lexicon, words: Seq<Seq<char>>, ci_fallback: bool) -> bool {
    &&& lexicon.filled()
    &&& lexicon.exact.words == words.to_set()
    &&& lexicon.lower is Some == ci_fallback
    &&& lexicon.lower matches Some(book) ==> book.words == lowered_words(words).to_set()
}

/// How a spelling was found to be a word.
#[derive(Debug, Clone, Copy, PartialEq, Eq, Structural)]
pub enum Method {
    /// The spelling itself, or its lower-case form, is in the dictionary.
    Exact,
    /// Its stem is in the dictionary.
    Stemmed,
}

/// A dictionary of known words.
pub struct Dictionary {
    exact: WordIndex,
    lower: Option<WordIndex>,
}

impl View for Dictionary {
    type V = Lexicon;

    closed spec fn view(&self) -> Lexicon {
        Lexicon {
            exact: self.exact@,
            lower: match self.lower {
                Some(index) => Some(index@),
                None => None,
            },
        }
    }
}

/// What is said of a dictionary is said of its two indexes as they are.
proof fn lemma_dictionary_parts(dict: Dictionary)
    ensures
        dict@.exact == dict.exact@,
        dict@.lower is Some <==> dict.lower is Some,
        dict.lower matches Some(index) ==> dict@.lower == Some(index@),
{
}

impl Dictionary {
    /// Each filter holds the words behind it, and nothing else.
    #[verifier::type_invariant]
    pub open spec fn valid(self) -> bool {
        self@.filled()
    }

    /// Whether each filter has a bitmap of `bitmap_size` bytes and suits `capacity` words.
    pub closed spec fn sized_for(self, bitmap_size: usize, capacity: usize) -> bool {
        &&& self.exact.sized_for(bitmap_size, capacity)
        &&& self.lower matches Some(index) ==> index.sized_for(bitmap_size, capacity)
    }

    /// Builds a dictionary of the given words. Each filter has a bitmap of `bitmap_size` bytes and
    /// is made for as many words as the list holds.
    pub fn build(list: WordList, bitmap_size: usize) -> (dict: Dictionary)
        requires
            list.exact@.len() > 0,
            0 < bitmap_size <= usize::MAX / 8,
        ensures
            dict.valid(),
            dict@.exact.words == string_views(list.exact@).to_set(),
            dict@.lower is Some == list.lowered is Some,
            list.lowered matches Some(v) ==> dict@.lower->0.words == string_views(v@).to_set(),
            list.lowered is None ==> made_of(dict@, string_views(list.exact@), false),
            list.lowered matches Some(v) && string_views(v@) == lowered_words(
                string_views(list.exact@),
            ) ==> made_of(dict@, string_views(list.exact@), true),
            dict.sized_for(bitmap_size, list.exact@.len() as usize),
    {
        let capacity: usize = list.exact.len();
        let exact = WordIndex::build(list.exact, bitmap_size, capacity);
        let lower = match list.lowered {
            Some(words) => Some(WordIndex::build(words, bitmap_size, capacity)),
            None => None,
        };
        Dictionary { exact, lower }
    }

    /// Whether the filters let a spelling with the given lower-case form pass.
    pub fn admits(&self, spelling: &String, lower: &String) -> (answer: bool)
        ensures
            answer == self@.passes(spelling@, lower@),
    {
        if self.exact.passes(spelling) {
            return true;
        }
        match &self.lower {
            Some(index) => index.passes(lower),
            None => false,
        }
    }

    /// Whether the filters let `spelling` pass, as written or, where case is folded, in lower case.
    pub fn screen(&self, spelling: &String) -> (answer: bool)
        ensures
            answer == self@.passes(spelling@, morphology::lowercase(spelling@)),
    {
        match &self.lower {
            Some(_) => self.admits(spelling, &spelling.as_str().to_lowercase()),
            None => self.exact.passes(spelling),
        }
    }

    /// How a spelling with the given lower-case form and stem is known.
    pub fn judge(&self, spelling: &str, lower: &str, stem: &str) -> (method: Option<Method>)
        ensures
            method == self@.classify(spelling@, lower@, stem@),
    {
        if self.exact.contains(spelling) {
            return Some(Method::Exact);
        }
        if let Some(index) = &self.lower {
            if index.contains(lower) {
                return Some(Method::Exact);
            }
        }
        if self.exact.contains(stem) {
            return Some(Method::Stemmed);
        }
        if let Some(index) = &self.lower {
            if index.contains(stem) {
                return Some(Method::Stemmed);
            }
        }
        None
    }
}

/// The words of a dictionary are its lines without the white space around them, blank lines apart.
pub proof fn lemma_dictionary_words(lines: Seq<Seq<char>>, word: Seq<char>)
    ensures
        dictionary_words(lines).contains(word) <==> word.len() > 0 && exists|n: int|
            0 <= n < lines.len() && text::trim_text(#[trigger] lines[n]) == word,
{
    let trimmed = lines.map_values(|line: Seq<char>| text::trim_text(line));
    let keep = |w: Seq<char>| w.len() > 0;
    broadcast use vstd::seq_lib::group_filter_ensures;

    let words = dictionary_words(lines);
    assert(words == trimmed.filter(keep));
    if words.contains(word) {
        let k = words.index_of(word);
        assert(keep(trimmed.filter(keep)[k]));
        trimmed.lemma_filter_contains_rev(keep, word);
        let n = trimmed.index_of(word);
        assert(text::trim_text(lines[n]) == word);
    }
    if word.len() > 0 && exists|n: int|
        0 <= n < lines.len() && text::trim_text(#[trigger] lines[n]) == word {
        let n = choose|n: int|
            0 <= n < lines.len() && text::trim_text(#[trigger] lines[n]) == word;
        assert(trimmed[n] == word);
        assert(keep(trimmed[n]));
    }
}

/// The filters lose no known word.
pub proof fn lemma_known_words_pass(lexicon: Lexicon, spelling: Seq<char>, lower: Seq<char>)
    requires
        lexicon.filled(),
        lexicon.knows(spelling, lower),
    ensures
        lexicon.passes(spelling, lower),
{
    lemma_passed(lexicon.exact, spelling);
    if let Some(book) = lexicon.lower {
        lemma_passed(book, lower);
    }
}

/// Where case is not folded, a spelling is known exactly if it is listed in its own case.
pub proof fn lemma_case_matters(
    lexicon: Lexicon,
    spelling: Seq<char>,
    lower: Seq<char>,
    stem: Seq<char>,
)
    requires
        lexicon.lower is None,
    ensures
        lexicon.classify(spelling, lower, stem) == Some(Method::Exact)
            <==> lexicon.exact.words.contains(spelling),
{
}

/// Where case is folded, every spelling is known whose lower-case form is that of a listed word.
pub proof fn lemma_case_folded(
    lexicon: Lexicon,
    words: Seq<Seq<char>>,
    word: Seq<char>,
    spelling: Seq<char>,
)
    requires
        made_of(lexicon, words, true),
        words.contains(word),
        morphology::lowercase(spelling) == morphology::lowercase(word),
    ensures
        lexicon.knows(spelling, morphology::lowercase(spelling)),
        lexicon.passes(spelling, morphology::lowercase(spelling)),
{
    let lowered = lowered_words(words);
    let k = words.index_of(word);
    assert(lowered[k] == morphology::lowercase(word));
    assert(lowered.to_set().contains(morphology::lowercase(word)));
    lemma_known_words_pass(lexicon, spelling, morphology::lowercase(spelling));
}

/// Folding case adds known spellings and takes none away.
pub proof fn lemma_folding_keeps_matches(
    strict: Lexicon,
    folding: Lexicon,
    words: Seq<Seq<char>>,
    spelling: Seq<char>,
    lower: Seq<char>,
)
    requires
        made_of(strict, words, false),
        made_of(folding, words, true),
        strict.knows(spelling, lower),
    ensures
        folding.knows(spelling, lower),
        folding.passes(spelling, lower),
{
    lemma_known_words_pass(folding, spelling, lower);
}

/// A spelling that passes the filters and is known by its stem only is a false alarm of a filter:
/// it passed although the word in question is not behind that filter.
pub proof fn lemma_stemmed_is_false_alarm(
    lexicon: Lexicon,
    spelling: Seq<char>,
    lower: Seq<char>,
    stem: Seq<char>,
)
    requires
        lexicon.passes(spelling, lower),
        lexicon.classify(spelling, lower, stem) == Some(Method::Stemmed),
    ensures
        (lexicon.exact.passed().contains(spelling) && !lexicon.exact.words.contains(spelling)) || (
        lexicon.lower is Some && lexicon.lower->0.passed().contains(lower)
            && !lexicon.lower->0.words.contains(lower)),
{
}

/// The views of a list of strings are those of its items, in order.
pub proof fn lemma_string_views(list: Seq<String>)
    ensures
        string_views(list).len() == list.len(),
        forall|k: int| 0 <= k < list.len() ==> #[trigger] string_views(list)[k] == list[k]@,
{
}

/// Words are lowered one by one, in order.
pub proof fn lemma_lowered_words(words: Seq<Seq<char>>)
    ensures
        lowered_words(words).len() == words.len(),
        forall|k: int|
            0 <= k < words.len() ==> #[trigger] lowered_words(words)[k] == morphology::lowercase(
                words[k],
            ),
{
}

/// A dictionary is read line by line: a line gives the word on it, a blank one none, and the words
/// of some lines come before those of the lines after them.
pub proof fn lemma_words_line_by_line(a: Seq<Seq<char>>, b: Seq<Seq<char>>, line: Seq<char>)
    ensures
        dictionary_words(a + b) == dictionary_words(a) + dictionary_words(b),
        dictionary_words(Seq::empty()) == Seq::<Seq<char>>::empty(),
        text::trim_text(line).len() > 0 ==> dictionary_words(seq![line]) == seq![
            text::trim_text(line),
        ],
        text::trim_text(line).len() == 0 ==> dictionary_words(seq![line]) == Seq::<
            Seq<char>,
        >::empty(),
{
    let trim = |l: Seq<char>| text::trim_text(l);
    let keep = |w: Seq<char>| w.len() > 0;
    assert((a + b).map_values(trim) =~= a.map_values(trim) + b.map_values(trim));
    Seq::filter_distributes_over_add(a.map_values(trim), b.map_values(trim), keep);
    let one = seq![line].map_values(trim);
    assert(one =~= seq![text::trim_text(line)]);
    assert(one.drop_last() =~= Seq::<Seq<char>>::empty());
    reveal_with_fuel(Seq::filter, 2);
    assert(Seq::<Seq<char>>::empty().map_values(trim) =~= Seq::<Seq<char>>::empty());
    assert(Seq::<Seq<char>>::empty().push(text::trim_text(line)) =~= seq![text::trim_text(line)]);
}

/// When a spelling is known: as an exact match exactly if it is itself a listed word or, where case
/// is folded, has the lower-case form of one; by its stem exactly if it is no exact match and the
/// stem is a listed word or, where case is folded, the lower-case form of one.
pub proof fn lemma_known_by_list(
    lexicon: Lexicon,
    words: Seq<Seq<char>>,
    ci_fallback: bool,
    spelling: Seq<char>,
    stem: Seq<char>,
)
    requires
        made_of(lexicon, words, ci_fallback),
    ensures
        ({
            let lower = morphology::lowercase(spelling);
            let exact = exists|k: int|
                0 <= k < words.len() && (#[trigger] words[k] == spelling || ci_fallback
                    && morphology::lowercase(words[k]) == lower);
            let stemmed = exists|k: int|
                0 <= k < words.len() && (#[trigger] words[k] == stem || ci_fallback
                    && morphology::lowercase(words[k]) == stem);
            &&& lexicon.classify(spelling, lower, stem) == Some(Method::Exact) <==> exact
            &&& lexicon.classify(spelling, lower, stem) == Some(Method::Stemmed) <==> !exact
                && stemmed
        }),
{
    let lower = morphology::lowercase(spelling);
    let lowered = lowered_words(words);
    assert forall|s: Seq<char>|
        #[trigger] words.to_set().contains(s) <==> exists|k: int|
            0 <= k < words.len() && #[trigger] words[k] == s by {
        if words.contains(s) {
            assert(words[words.index_of(s)] == s);
        }
    }
    assert forall|s: Seq<char>|
        #[trigger] lowered.to_set().contains(s) <==> exists|k: int|
            0 <= k < words.len() && morphology::lowercase(#[trigger] words[k]) == s by {
        if lowered.contains(s) {
            let k = lowered.index_of(s);
            assert(lowered[k] == morphology::lowercase(words[k]));
        }
        if exists|k: int| 0 <= k < words.len() && morphology::lowercase(#[trigger] words[k]) == s {
            let k = choose|k: int|
                0 <= k < words.len() && morphology::lowercase(#[trigger] words[k]) == s;
            assert(lowered[k] == s);
        }
    }
}

/// When a spelling with a given lower-case form and stem is known to a dictionary with these two
/// sets of words.
pub proof fn lemma_known_by_sets(
    lexicon: Lexicon,
    spelling: Seq<char>,
    lower: Seq<char>,
    stem: Seq<char>,
)
    ensures
        lexicon.classify(spelling, lower, stem) == (if lexicon.exact.words.contains(spelling) || (
        lexicon.lower is Some && lexicon.lower->0.words.contains(lower)) {
            Some(Method::Exact)
        } else if lexicon.exact.words.contains(stem) || (lexicon.lower is Some
            && lexicon.lower->0.words.contains(stem)) {
            Some(Method::Stemmed)
        } else {
            None
        }),
{
}

/// What gets past the filters: a spelling each of whose bits, or each of whose lower-case form's
/// bits, where case is folded, is a bit of some word behind that filter.
pub proof fn lemma_filtered_by_bits(lexicon: Lexicon, spelling: Seq<char>, lower: Seq<char>)
    requires
        lexicon.filled(),
    ensures
        lexicon.passes(spelling, lower) <==> {
            ||| forall|b: nat| #[trigger]
                lexicon.exact.probes[spelling].contains(b) ==> exists|w: Seq<char>| #[trigger]
                    lexicon.exact.words.contains(w) && lexicon.exact.probes[w].contains(b)
            ||| lexicon.lower is Some && forall|b: nat| #[trigger]
                lexicon.lower->0.probes[lower].contains(b) ==> exists|w: Seq<char>| #[trigger]
                    lexicon.lower->0.words.contains(w) && lexicon.lower->0.probes[w].contains(b)
        },
{
    lemma_passed_by_bits(lexicon.exact, spelling);
    if let Some(book) = lexicon.lower {
        lemma_passed_by_bits(book, lower);
    }
}

/// A filter lets a string pass exactly if each of its bits is a bit of some word behind it.
pub proof fn lemma_passed_by_bits(book: WordBook, s: Seq<char>)
    requires
        book.filled(),
    ensures
        book.passed().contains(s) <==> forall|b: nat| #[trigger]
            book.probes[s].contains(b) ==> exists|w: Seq<char>| #[trigger]
                book.words.contains(w) && book.probes[w].contains(b),
{
    if book.passed().contains(s) {
        assert forall|b: nat| #[trigger] book.probes[s].contains(b) implies exists|w: Seq<char>|
            #[trigger] book.words.contains(w) && book.probes[w].contains(b) by {
            assert(book.bits.contains(b));
            assert(book.is_word_bit(b));
        }
    } else {
        let b = choose|b: nat| #[trigger] book.probes[s].contains(b) && !book.bits.contains(b);
        assert(book.probes[s].contains(b) && !book.bits.contains(b)) by {
            if forall|b: nat| #[trigger] book.probes[s].contains(b) ==> book.bits.contains(b) {
                assert(book.probes[s].subset_of(book.bits));
            }
        }
        assert(!book.is_word_bit(b));
    }
}

/// The filter of an index that was sized for `capacity` words has a bitmap of the given size, and
/// its number of hash functions is the number of bits per word times the natural logarithm of two,
/// rounded up.
pub proof fn lemma_index_shape(index: WordIndex, bitmap_size: usize, capacity: usize)
    requires
        index.sized_for(bitmap_size, capacity),
    ensures
        ({
            let (bits, hashes) = index@.shape;
            &&& bits == 8 * bitmap_size
            &&& 1 <= hashes <= u32::MAX
            &&& hashes == u32::MAX || 693_147 * bits <= 1_000_000 * hashes * capacity
            &&& hashes == 1 || 1_000_000 * (hashes - 1) * capacity < 693_148 * bits
        }),
{
}

/// Both filters of a dictionary have the size that it was built with.
pub proof fn lemma_dictionary_shape(dict: Dictionary, bitmap_size: usize, capacity: usize)
    requires
        dict.sized_for(bitmap_size, capacity),
    ensures
        forall|book: WordBook|
            (book == dict@.exact || Some(book) == dict@.lower) ==> {
                let (bits, hashes) = (#[trigger] book.shape);
                &&& bits == 8 * bitmap_size
                &&& 1 <= hashes <= u32::MAX
                &&& hashes == u32::MAX || 693_147 * bits <= 1_000_000 * hashes * capacity
                &&& hashes == 1 || 1_000_000 * (hashes - 1) * capacity < 693_148 * bits
            },
{
    lemma_index_shape(dict.exact, bitmap_size, capacity);
    if let Some(index) = dict.lower {
        lemma_index_shape(index, bitmap_size, capacity);
    }
}

} // verus!

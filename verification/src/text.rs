//! Characters, words and numerals: the text operations that the rest of the library builds on.

use vstd::prelude::*;

verus! {

/// Whether Unicode gives `c` the `White_Space` property.
pub open spec fn white_space(c: char) -> bool {
    ||| '\u{9}' <= c <= '\u{D}'
    ||| c == '\u{20}' || c == '\u{85}' || c == '\u{A0}' || c == '\u{1680}'
    ||| '\u{2000}' <= c <= '\u{200A}'
    ||| c == '\u{2028}' || c == '\u{2029}' || c == '\u{202F}' || c == '\u{205F}' || c == '\u{3000}'
}

/// Whether Unicode gives `c` the `Alphabetic` property, as `char::is_alphabetic` answers.
pub uninterp spec fn alphabetic(c: char) -> bool;

/// `char::is_whitespace` answers whether the character has the Unicode property `White_Space`,
/// whose code points `white_space` lists.
pub assume_specification[ char::is_whitespace ](c: char) -> (answer: bool)
    ensures
        answer == white_space(c),
;

/// `char::is_alphabetic` depends on the character alone; its answer is named `alphabetic`.
pub assume_specification[ char::is_alphabetic ](c: char) -> (answer: bool)
    ensures
        answer == alphabetic(c),
;

/// `String::push` appends the one character to the end of the string.
pub assume_specification[ String::push ](s: &mut String, c: char)
    ensures
        final(s)@ == old(s)@.push(c),
;

/// Which characters of `s` are white space.
pub open spec fn space_marks(s: Seq<char>) -> Seq<bool> {
    s.map_values(|c: char| white_space(c))
}

/// Which characters of `s` are alphabetic.
pub open spec fn letter_marks(s: Seq<char>) -> Seq<bool> {
    s.map_values(|c: char| alphabetic(c))
}

/// The characters of a string, as a vector.
pub fn chars_of(s: &str) -> (chars: Vec<char>)
    ensures
        chars@ == s@,
{
    let mut chars: Vec<char> = Vec::new();
    for c in it: s.chars()
        invariant
            it.seq() == s@,
            chars@ == s@.take(it.index() as int),
    {
        chars.push(c);
    }
    assert(s@.take(s@.len() as int) == s@);
    chars
}

/// The string made of the given characters.
pub fn string_of(chars: &[char]) -> (s: String)
    ensures
        s@ == chars@,
{
    let mut s = String::new();
    let mut i: usize = 0;
    while i < chars.len()
        invariant
            i <= chars@.len(),
            s@ == chars@.take(i as int),
        decreases chars@.len() - i,
    {
        s.push(chars[i]);
        i += 1;
        assert(s@ == chars@.take(i as int));
    }
    assert(chars@.take(chars@.len() as int) == chars@);
    s
}

/// Marks the white space in `chars`.
pub fn mark_spaces(chars: &[char]) -> (marks: Vec<bool>)
    ensures
        marks@ == space_marks(chars@),
{
    let mut marks: Vec<bool> = Vec::new();
    let mut i: usize = 0;
    while i < chars.len()
        invariant
            i <= chars@.len(),
            marks@ == space_marks(chars@.take(i as int)),
        decreases chars@.len() - i,
    {
        marks.push(chars[i].is_whitespace());
        i += 1;
        assert(marks@ == space_marks(chars@.take(i as int)));
    }
    assert(chars@.take(chars@.len() as int) == chars@);
    marks
}

/// Marks the alphabetic characters in `chars`.
pub fn mark_letters(chars: &[char]) -> (marks: Vec<bool>)
    ensures
        marks@ == letter_marks(chars@),
{
    let mut marks: Vec<bool> = Vec::new();
    let mut i: usize = 0;
    while i < chars.len()
        invariant
            i <= chars@.len(),
            marks@ == letter_marks(chars@.take(i as int)),
        decreases chars@.len() - i,
    {
        marks.push(chars[i].is_alphabetic());
        i += 1;
        assert(marks@ == letter_marks(chars@.take(i as int)));
    }
    assert(chars@.take(chars@.len() as int) == chars@);
    marks
}

/// Where the run of unmarked positions that starts at `i` ends.
pub open spec fn run_end(marks: Seq<bool>, i: int) -> int
    decreases marks.len() - i,
{
    if 0 <= i < marks.len() && !marks[i] {
        run_end(marks, i + 1)
    } else {
        i
    }
}

/// The unmarked run at `i` spans `i..run_end(marks, i)`, and cannot be extended to the right.
pub proof fn lemma_run_end(marks: Seq<bool>, i: int)
    requires
        0 <= i <= marks.len(),
    ensures
        i <= run_end(marks, i) <= marks.len(),
        forall|k: int| i <= k < run_end(marks, i) ==> !#[trigger] marks[k],
        run_end(marks, i) < marks.len() ==> marks[run_end(marks, i)],
    decreases marks.len() - i,
{
    if i < marks.len() && !marks[i] {
        lemma_run_end(marks, i + 1);
    }
}

/// The maximal runs of unmarked characters of `s` from position `i` on, in order.
pub open spec fn words_from(s: Seq<char>, marks: Seq<bool>, i: int) -> Seq<Seq<char>>
    decreases marks.len() - i,
{
    if i < 0 || i >= marks.len() {
        Seq::empty()
    } else if marks[i] {
        words_from(s, marks, i + 1)
    } else {
        proof {
            lemma_run_end(marks, i + 1);
        }
        seq![s.subrange(i, run_end(marks, i))] + words_from(s, marks, run_end(marks, i))
    }
}

/// The maximal runs of unmarked characters of `s`, in order.
pub open spec fn words(s: Seq<char>, marks: Seq<bool>) -> Seq<Seq<char>> {
    words_from(s, marks, 0)
}

/// The sequences that a vector of character vectors holds.
pub open spec fn char_views(v: Seq<Vec<char>>) -> Seq<Seq<char>> {
    v.map_values(|w: Vec<char>| w@)
}

/// Cuts `chars` at the marked positions and keeps the non-empty pieces.
pub fn split_words(chars: &[char], marks: &[bool]) -> (pieces: Vec<Vec<char>>)
    requires
        chars@.len() == marks@.len(),
    ensures
        char_views(pieces@) == words(chars@, marks@),
{
    let mut pieces: Vec<Vec<char>> = Vec::new();
    let mut i: usize = 0;
    while i < chars.len()
        invariant
            i <= chars@.len() == marks@.len(),
            char_views(pieces@) + words_from(chars@, marks@, i as int) == words(chars@, marks@),
        decreases chars@.len() - i,
    {
        if marks[i] {
            i += 1;
        } else {
            let start: usize = i;
            let mut piece: Vec<char> = Vec::new();
            while i < chars.len() && !marks[i]
                invariant
                    start <= i <= chars@.len() == marks@.len(),
                    piece@ == chars@.subrange(start as int, i as int),
                    run_end(marks@, i as int) == run_end(marks@, start as int),
                decreases chars@.len() - i,
            {
                piece.push(chars[i]);
                i += 1;
                assert(piece@ == chars@.subrange(start as int, i as int));
            }
            let ghost before = char_views(pieces@);
            pieces.push(piece);
            assert(char_views(pieces@) == before.push(piece@));
        }
    }
    pieces
}

/// The words of a text: its maximal runs of characters that are not white space.
pub open spec fn text_words(s: Seq<char>) -> Seq<Seq<char>> {
    words(s, space_marks(s))
}

/// The characters of `s` whose position is marked, in order.
pub open spec fn select(s: Seq<char>, marks: Seq<bool>) -> Seq<char>
    decreases s.len(),
{
    if s.len() == 0 {
        Seq::empty()
    } else if marks[s.len() - 1] {
        select(s.drop_last(), marks).push(s.last())
    } else {
        select(s.drop_last(), marks)
    }
}

/// Where the run of marked positions that starts at `i` ends.
pub open spec fn gap_end(marks: Seq<bool>, i: int) -> int
    decreases marks.len() - i,
{
    if 0 <= i < marks.len() && marks[i] {
        gap_end(marks, i + 1)
    } else {
        i
    }
}

/// Where the run of marked positions that ends at `j` starts.
pub open spec fn gap_start(marks: Seq<bool>, j: int) -> int
    decreases j,
{
    if 0 < j <= marks.len() && marks[j - 1] {
        gap_start(marks, j - 1)
    } else {
        j
    }
}

/// `s` without the marked characters at its two ends.
pub open spec fn trimmed(s: Seq<char>, marks: Seq<bool>) -> Seq<char> {
    let i = gap_end(marks, 0);
    let j = gap_start(marks, marks.len() as int);
    if i < j {
        s.subrange(i, j)
    } else {
        Seq::empty()
    }
}

/// Drops the marked characters at the two ends of `chars`.
pub fn trim_marked(chars: &[char], marks: &[bool]) -> (core: Vec<char>)
    requires
        chars@.len() == marks@.len(),
    ensures
        core@ == trimmed(chars@, marks@),
{
    let mut i: usize = 0;
    while i < chars.len() && marks[i]
        invariant
            i <= chars@.len() == marks@.len(),
            gap_end(marks@, i as int) == gap_end(marks@, 0),
        decreases chars@.len() - i,
    {
        i += 1;
    }
    let mut j: usize = chars.len();
    while j > 0 && marks[j - 1]
        invariant
            j <= chars@.len() == marks@.len(),
            gap_start(marks@, j as int) == gap_start(marks@, marks@.len() as int),
        decreases j,
    {
        j -= 1;
    }
    let mut core: Vec<char> = Vec::new();
    let mut k: usize = i;
    while k < j
        invariant
            i <= k,
            j <= chars@.len(),
            i < j ==> k <= j && core@ == chars@.subrange(i as int, k as int),
            i >= j ==> core@.len() == 0,
        decreases j - k,
    {
        core.push(chars[k]);
        k += 1;
        assert(core@ == chars@.subrange(i as int, k as int));
    }
    core
}

/// A text without the white space at its two ends.
pub open spec fn trim_text(s: Seq<char>) -> Seq<char> {
    trimmed(s, space_marks(s))
}

/// Drops the white space at the two ends of `s`.
pub fn trim_chars(s: &str) -> (core: Vec<char>)
    ensures
        core@ == trim_text(s@),
{
    let chars = chars_of(s);
    let marks = mark_spaces(chars.as_slice());
    trim_marked(chars.as_slice(), marks.as_slice())
}

/// The first position from `i` on that holds `c`, or the length of `s`.
pub open spec fn find(s: Seq<char>, c: char, i: int) -> int
    decreases s.len() - i,
{
    if 0 <= i < s.len() && s[i] != c {
        find(s, c, i + 1)
    } else {
        i
    }
}

/// Everything before `find(s, c, i)` differs from `c`, and that position holds `c` if it exists.
pub proof fn lemma_find(s: Seq<char>, c: char, i: int)
    requires
        0 <= i <= s.len(),
    ensures
        i <= find(s, c, i) <= s.len(),
        forall|k: int| i <= k < find(s, c, i) ==> #[trigger] s[k] != c,
        find(s, c, i) < s.len() ==> s[find(s, c, i)] == c,
    decreases s.len() - i,
{
    if i < s.len() && s[i] != c {
        lemma_find(s, c, i + 1);
    }
}

/// Finds the first position from `i` on that holds `c`.
pub fn position_of(s: &[char], c: char, i: usize) -> (k: usize)
    requires
        i <= s@.len(),
    ensures
        k == find(s@, c, i as int),
        i <= k <= s@.len(),
{
    let mut k: usize = i;
    while k < s.len() && s[k] != c
        invariant
            i <= k <= s@.len(),
            find(s@, c, k as int) == find(s@, c, i as int),
        decreases s@.len() - k,
    {
        k += 1;
    }
    k
}

/// The pieces of `s` between the occurrences of `sep`, empty ones included.
pub open spec fn fields(s: Seq<char>, sep: char) -> Seq<Seq<char>>
    decreases s.len(),
{
    let k = find(s, sep, 0);
    proof {
        lemma_find(s, sep, 0);
    }
    if 0 <= k < s.len() {
        seq![s.take(k)] + fields(s.skip(k + 1), sep)
    } else {
        seq![s]
    }
}

/// The decimal digit of value `d`.
pub open spec fn digit_char(d: nat) -> char {
    (48 + d) as char
}

/// The decimal numeral of `n`, without leading zeros.
pub open spec fn decimal(n: nat) -> Seq<char>
    decreases n,
{
    if n < 10 {
        seq![digit_char(n)]
    } else {
        decimal(n / 10).push(digit_char(n % 10))
    }
}

/// Appends the decimal numeral of `n` to `s`.
pub fn push_decimal(s: &mut String, n: usize)
    ensures
        final(s)@ == old(s)@ + decimal(n as nat),
    decreases n,
{
    if n >= 10 {
        push_decimal(s, n / 10);
    }
    let digit: u8 = 48u8 + (n % 10) as u8;
    s.push(digit as char);
}

/// Which positions are not marked.
pub open spec fn unmarked(marks: Seq<bool>) -> Seq<bool> {
    marks.map_values(|m: bool| !m)
}

/// Selecting works piece by piece.
pub proof fn lemma_select_split(s: Seq<char>, marks: Seq<bool>, k: int)
    requires
        0 <= k <= s.len(),
        s.len() == marks.len(),
    ensures
        select(s, marks) == select(s.take(k), marks.take(k)) + select(s.skip(k), marks.skip(k)),
    decreases s.len(),
{
    if k == s.len() {
        assert(s.take(k) == s);
        assert(marks.take(k) == marks);
        assert(select(s.skip(k), marks.skip(k)) == Seq::<char>::empty());
    } else {
        let shorter = s.drop_last();
        let fewer = marks.drop_last();
        lemma_select_split(shorter, fewer, k);
        lemma_select_local(shorter, fewer, marks);
        assert(shorter.take(k) == s.take(k));
        assert(fewer.take(k) == marks.take(k));
        assert(shorter.skip(k) == s.skip(k).drop_last());
        lemma_select_local(shorter.skip(k), fewer.skip(k), marks.skip(k));
        assert(marks.skip(k)[s.len() - k - 1] == marks[s.len() - 1]);
        assert(s.skip(k).last() == s.last());
        if marks[s.len() - 1] {
            assert(select(s.take(k), marks.take(k)) + select(shorter.skip(k), fewer.skip(k)).push(
                s.last(),
            ) == (select(s.take(k), marks.take(k)) + select(shorter.skip(k), fewer.skip(k))).push(
                s.last(),
            ));
        }
    }
}

/// What is selected from `s` depends only on the marks at the positions of `s`.
proof fn lemma_select_local(s: Seq<char>, a: Seq<bool>, b: Seq<bool>)
    requires
        s.len() <= a.len(),
        s.len() <= b.len(),
        forall|i: int| 0 <= i < s.len() ==> a[i] == b[i],
    ensures
        select(s, a) == select(s, b),
    decreases s.len(),
{
    if s.len() > 0 {
        lemma_select_local(s.drop_last(), a, b);
    }
}

/// Where everything is marked, everything is selected.
proof fn lemma_select_all(s: Seq<char>, marks: Seq<bool>)
    requires
        s.len() <= marks.len(),
        forall|i: int| 0 <= i < s.len() ==> marks[i],
    ensures
        select(s, marks) == s,
    decreases s.len(),
{
    if s.len() > 0 {
        lemma_select_all(s.drop_last(), marks);
        assert(s.drop_last().push(s.last()) == s);
    }
}

/// A selected character comes from a marked position.
pub proof fn lemma_select_origin(s: Seq<char>, marks: Seq<bool>, k: int) -> (i: int)
    requires
        s.len() <= marks.len(),
        0 <= k < select(s, marks).len(),
    ensures
        0 <= i < s.len(),
        marks[i],
        select(s, marks)[k] == s[i],
    decreases s.len(),
{
    let shorter = s.drop_last();
    if k < select(shorter, marks).len() {
        lemma_select_origin(shorter, marks, k)
    } else {
        s.len() - 1
    }
}

/// Whether the characters from `a` to `b` are a maximal run of unmarked ones.
pub open spec fn is_word_at(marks: Seq<bool>, a: int, b: int) -> bool {
    &&& 0 <= a < b <= marks.len()
    &&& forall|k: int| a <= k < b ==> !#[trigger] marks[k]
    &&& a > 0 ==> marks[a - 1]
    &&& b < marks.len() ==> marks[b]
}

/// Whether `word` stands in `s` as a maximal run of unmarked characters from `i` on.
pub open spec fn occurs_from(s: Seq<char>, marks: Seq<bool>, i: int, word: Seq<char>) -> bool {
    exists|a: int, b: int|
        i <= a && #[trigger] is_word_at(marks, a, b) && word == s.subrange(a, b)
}

/// The words from position `i` on are the maximal unmarked runs there, and put together they are
/// the unmarked characters from there on.
proof fn lemma_words_from(s: Seq<char>, marks: Seq<bool>, i: int)
    requires
        s.len() == marks.len(),
        0 <= i <= s.len(),
        i == 0 || i == s.len() || marks[i - 1] || marks[i],
    ensures
        words_from(s, marks, i).flatten() == select(s.skip(i), unmarked(marks).skip(i)),
        forall|word: Seq<char>|
            words_from(s, marks, i).contains(word) <==> #[trigger] occurs_from(s, marks, i, word),
    decreases s.len() - i,
{
    let all = unmarked(marks);
    let list = words_from(s, marks, i);
    if i == s.len() {
        assert(list.flatten() == select(s.skip(i), all.skip(i)));
    } else if marks[i] {
        lemma_words_from(s, marks, i + 1);
        lemma_select_split(s.skip(i), all.skip(i), 1);
        assert(s.skip(i).skip(1) == s.skip(i + 1));
        assert(all.skip(i).skip(1) == all.skip(i + 1));
        assert(select(s.skip(i).take(1), all.skip(i).take(1)) == Seq::<char>::empty()) by {
            reveal_with_fuel(select, 2);
        }
        assert(Seq::<char>::empty() + select(s.skip(i + 1), all.skip(i + 1)) == select(
            s.skip(i + 1),
            all.skip(i + 1),
        ));
        assert forall|word: Seq<char>|
            list.contains(word) <==> #[trigger] occurs_from(s, marks, i, word) by {
            assert(occurs_from(s, marks, i + 1, word) <==> occurs_from(s, marks, i, word));
        }
    } else {
        let j = run_end(marks, i);
        lemma_run_end(marks, i + 1);
        lemma_run_end(marks, i);
        lemma_words_from(s, marks, j);
        lemma_select_split(s.skip(i), all.skip(i), j - i);
        assert(s.skip(i).skip(j - i) == s.skip(j));
        assert(all.skip(i).skip(j - i) == all.skip(j));
        let first = s.subrange(i, j);
        assert(s.skip(i).take(j - i) == first);
        lemma_select_all(first, all.skip(i).take(j - i));
        let rest = words_from(s, marks, j);
        assert(list == seq![first] + rest);
        assert(list.drop_first() == rest);
        assert(list.flatten() == first + rest.flatten());
        assert(is_word_at(marks, i, j));
        assert forall|word: Seq<char>|
            list.contains(word) <==> #[trigger] occurs_from(s, marks, i, word) by {
            assert(list[0] == first);
            if rest.contains(word) {
                assert(list[1 + rest.index_of(word)] == word);
            }
            if list.contains(word) && word != first {
                assert(rest[list.index_of(word) - 1] == word);
            }
            assert(occurs_from(s, marks, j, word) ==> occurs_from(s, marks, i, word));
            if occurs_from(s, marks, i, word) {
                let (a, b) = choose|a: int, b: int|
                    i <= a && #[trigger] is_word_at(marks, a, b) && word == s.subrange(a, b);
                if a == i {
                    assert(b == j) by {
                        if b < j {
                            assert(!marks[b]);
                        }
                        if j < b {
                            assert(marks[j]);
                        }
                    }
                } else {
                    assert(a >= j) by {
                        if a < j {
                            assert(!marks[a - 1]);
                        }
                    }
                    assert(occurs_from(s, marks, j, word));
                }
            }
        }
    }
}

/// The words of a text are exactly the maximal runs of characters that are not white space. Put
/// together in order they are the text without its white space.
pub proof fn lemma_text_words(source: Seq<char>)
    ensures
        text_words(source).flatten() == select(source, unmarked(space_marks(source))),
        forall|word: Seq<char>|
            text_words(source).contains(word) <==> #[trigger] occurs_from(
                source,
                space_marks(source),
                0,
                word,
            ),
{
    let marks = space_marks(source);
    lemma_words_from(source, marks, 0);
    assert(source.skip(0) == source);
    assert(unmarked(marks).skip(0) == unmarked(marks));
}

/// No word of a text is empty, and none holds white space.
pub proof fn lemma_text_word(source: Seq<char>, n: int)
    requires
        0 <= n < text_words(source).len(),
    ensures
        text_words(source)[n].len() > 0,
        forall|k: int|
            0 <= k < text_words(source)[n].len() ==> !white_space(
                #[trigger] text_words(source)[n][k],
            ),
        forall|k: int|
            0 <= k < text_words(source)[n].len() ==> source.contains(
                #[trigger] text_words(source)[n][k],
            ),
{
    let marks = space_marks(source);
    let word = text_words(source)[n];
    lemma_text_words(source);
    assert(occurs_from(source, marks, 0, word));
    let (a, b) = choose|a: int, b: int|
        0 <= a && #[trigger] is_word_at(marks, a, b) && word == source.subrange(a, b);
    assert forall|k: int| 0 <= k < word.len() implies !white_space(#[trigger] word[k])
        && source.contains(word[k]) by {
        assert(!marks[a + k]);
        assert(source[a + k] == word[k]);
    }
}

/// Trimming removes marked characters only, at the two ends only, and all of them there.
pub proof fn lemma_trimmed(s: Seq<char>, marks: Seq<bool>)
    requires
        s.len() == marks.len(),
    ensures
        exists|i: int, j: int|
            #![trigger s.subrange(i, j)]
            {
                &&& 0 <= i <= j <= s.len()
                &&& trimmed(s, marks) == s.subrange(i, j)
                &&& forall|k: int| 0 <= k < i || j <= k < s.len() ==> #[trigger] marks[k]
                &&& i < j ==> !marks[i] && !marks[j - 1]
            },
{
    let i = gap_end(marks, 0);
    let j = gap_start(marks, marks.len() as int);
    lemma_gap_end(marks, 0);
    lemma_gap_start(marks, marks.len() as int);
    if i < j {
        assert(trimmed(s, marks) == s.subrange(i, j));
    } else {
        assert(i == s.len()) by {
            if i < s.len() {
                assert(!marks[i]);
            }
        }
        assert(s.subrange(i, i) == Seq::<char>::empty());
        assert(trimmed(s, marks) == s.subrange(i, i));
    }
}

proof fn lemma_gap_end(marks: Seq<bool>, i: int)
    requires
        0 <= i <= marks.len(),
    ensures
        i <= gap_end(marks, i) <= marks.len(),
        forall|k: int| i <= k < gap_end(marks, i) ==> #[trigger] marks[k],
        gap_end(marks, i) < marks.len() ==> !marks[gap_end(marks, i)],
    decreases marks.len() - i,
{
    if i < marks.len() && marks[i] {
        lemma_gap_end(marks, i + 1);
    }
}

proof fn lemma_gap_start(marks: Seq<bool>, j: int)
    requires
        0 <= j <= marks.len(),
    ensures
        0 <= gap_start(marks, j) <= j,
        forall|k: int| gap_start(marks, j) <= k < j ==> #[trigger] marks[k],
        gap_start(marks, j) > 0 ==> !marks[gap_start(marks, j) - 1],
    decreases j,
{
    if j > 0 && marks[j - 1] {
        lemma_gap_start(marks, j - 1);
    }
}

/// The pieces of `list` with `sep` between them.
pub open spec fn joined(list: Seq<Seq<char>>, sep: char) -> Seq<char>
    decreases list.len(),
{
    if list.len() == 0 {
        Seq::empty()
    } else if list.len() == 1 {
        list[0]
    } else {
        list[0].push(sep) + joined(list.drop_first(), sep)
    }
}

/// The fields of a string hold no separator, and joined by it they give the string back.
pub proof fn lemma_fields_joined(s: Seq<char>, sep: char)
    ensures
        fields(s, sep).len() > 0,
        joined(fields(s, sep), sep) == s,
        forall|n: int| 0 <= n < fields(s, sep).len() ==> !(#[trigger] fields(s, sep)[n]).contains(sep),
    decreases s.len(),
{
    let k = find(s, sep, 0);
    lemma_find(s, sep, 0);
    let list = fields(s, sep);
    if k < s.len() {
        let rest = fields(s.skip(k + 1), sep);
        lemma_fields_joined(s.skip(k + 1), sep);
        assert(list == seq![s.take(k)] + rest);
        assert(list.drop_first() == rest);
        assert(s.take(k).push(sep) + s.skip(k + 1) == s);
        assert forall|n: int| 0 <= n < list.len() implies !(#[trigger] list[n]).contains(sep) by {
            if n > 0 {
                assert(list[n] == rest[n - 1]);
            }
        }
    }
}

/// The fields of two strings with a separator between them are the fields of the one, then those
/// of the other.
pub proof fn lemma_fields_concat(a: Seq<char>, b: Seq<char>, sep: char)
    ensures
        fields(a.push(sep) + b, sep) == fields(a, sep) + fields(b, sep),
    decreases a.len(),
{
    let whole = a.push(sep) + b;
    let k = find(a, sep, 0);
    lemma_find(a, sep, 0);
    lemma_find(whole, sep, 0);
    let m = find(whole, sep, 0);
    assert(m == k) by {
        if m < k {
            assert(a[m] == whole[m]);
        }
        if k < m {
            assert(whole[k] == sep);
        }
    }
    assert(whole.take(k) == a.take(k));
    if k < a.len() {
        lemma_fields_concat(a.skip(k + 1), b, sep);
        assert(whole.skip(k + 1) == a.skip(k + 1).push(sep) + b);
        assert(seq![a.take(k)] + (fields(a.skip(k + 1), sep) + fields(b, sep)) == (seq![a.take(k)]
            + fields(a.skip(k + 1), sep)) + fields(b, sep));
    } else {
        assert(a.take(k) == a);
        assert(whole.skip(k + 1) == b);
    }
}

/// Different numbers have different numerals.
pub proof fn lemma_decimal_injective(m: nat, n: nat)
    requires
        decimal(m) == decimal(n),
    ensures
        m == n,
    decreases m,
{
    lemma_decimal_len(m / 10);
    lemma_decimal_len(n / 10);
    assert(decimal(m).last() == digit_char(m % 10));
    assert(decimal(n).last() == digit_char(n % 10));
    assert(m % 10 == n % 10);
    if m >= 10 && n >= 10 {
        assert(decimal(m).drop_last() == decimal(m / 10));
        assert(decimal(n).drop_last() == decimal(n / 10));
        lemma_decimal_injective(m / 10, n / 10);
    } else if m >= 10 || n >= 10 {
        assert(decimal(m).len() == decimal(n).len());
    }
}

proof fn lemma_decimal_len(n: nat)
    ensures
        decimal(n).len() > 0,
{
}

/// The numeral of a number in decimal notation: the numeral of its tens, where there are any, then
/// the digit of its ones.
pub proof fn lemma_decimal_notation(tens: nat, ones: nat)
    requires
        ones < 10,
    ensures
        decimal(10 * tens + ones) == (if tens == 0 {
            Seq::empty()
        } else {
            decimal(tens)
        }).push("0123456789"@[ones as int]),
{
    reveal_strlit("0123456789");
    assert("0123456789"@[ones as int] == digit_char(ones));
    assert(decimal(10 * tens + ones) =~= (if tens == 0 {
        Seq::empty()
    } else {
        decimal(tens)
    }).push(digit_char(ones)));
}

/// A numeral, read digit by digit from the left, gives its number back. It holds digits only, and
/// the first of several is not zero.
pub proof fn lemma_decimal_read_back(n: nat)
    ensures
        decimal(n).fold_left(0int, |v: int, c: char| 10 * v + (c as int - '0' as int)) == n,
        decimal(n).len() > 0,
        forall|k: int| 0 <= k < decimal(n).len() ==> '0' <= #[trigger] decimal(n)[k] <= '9',
        n > 0 ==> decimal(n)[0] != '0',
    decreases n,
{
    let read = |v: int, c: char| 10 * v + (c as int - '0' as int);
    let numeral = decimal(n);
    assert(digit_char(n % 10) as int == 48 + n % 10);
    if n < 10 {
        assert(numeral.drop_last() =~= Seq::<char>::empty());
        reveal_with_fuel(Seq::fold_left, 2);
        assert(numeral.last() == digit_char(n));
    } else {
        lemma_decimal_read_back(n / 10);
        assert(numeral.drop_last() =~= decimal(n / 10));
        assert(numeral[0] == decimal(n / 10)[0]);
        assert forall|k: int| 0 <= k < numeral.len() implies '0' <= #[trigger] numeral[k]
            <= '9' by {
            if k < numeral.len() - 1 {
                assert(numeral[k] == decimal(n / 10)[k]);
            }
        }
    }
}

/// The views of a list of character vectors are those of its items, in order.
pub proof fn lemma_char_views(v: Seq<Vec<char>>)
    ensures
        char_views(v).len() == v.len(),
        forall|k: int| 0 <= k < v.len() ==> #[trigger] char_views(v)[k] == v[k]@,
{
}

/// White space and letters are marked character by character.
pub proof fn lemma_marks(s: Seq<char>)
    ensures
        space_marks(s).len() == s.len(),
        letter_marks(s).len() == s.len(),
        forall|k: int| 0 <= k < s.len() ==> #[trigger] space_marks(s)[k] == white_space(s[k]),
        forall|k: int| 0 <= k < s.len() ==> #[trigger] letter_marks(s)[k] == alphabetic(s[k]),
{
}

/// Selecting keeps the marked characters and drops the others.
pub proof fn lemma_select_marked(s: Seq<char>, marks: Seq<bool>)
    requires
        s.len() == marks.len(),
    ensures
        select(s, marks) == s.zip_with(marks).filter(|p: (char, bool)| p.1).map_values(
            |p: (char, bool)| p.0,
        ),
    decreases s.len(),
{
    let keep = |p: (char, bool)| p.1;
    let take = |p: (char, bool)| p.0;
    let zipped = s.zip_with(marks);
    reveal_with_fuel(Seq::filter, 2);
    if s.len() == 0 {
        assert(zipped.filter(keep).map_values(take) =~= Seq::<char>::empty());
    } else {
        let shorter = s.drop_last();
        let fewer = marks.drop_last();
        lemma_select_marked(shorter, fewer);
        lemma_select_local(shorter, fewer, marks);
        assert(zipped.drop_last() =~= shorter.zip_with(fewer));
        assert(zipped.last() == (s.last(), marks.last()));
        let kept = zipped.drop_last().filter(keep);
        if marks.last() {
            assert(kept.push(zipped.last()).map_values(take) =~= kept.map_values(take).push(
                s.last(),
            ));
        }
    }
}

/// A run behind some other marks ends where it ends without them, so much further on.
proof fn lemma_run_end_behind(head: Seq<bool>, marks: Seq<bool>, i: int)
    requires
        0 <= i <= marks.len(),
    ensures
        run_end(head + marks, head.len() + i) == head.len() + run_end(marks, i),
    decreases marks.len() - i,
{
    if i < marks.len() {
        assert((head + marks)[head.len() + i] == marks[i]);
        if !marks[i] {
            lemma_run_end_behind(head, marks, i + 1);
        }
    }
}

/// A run in front of a marked position ends where it ends if nothing follows.
proof fn lemma_run_end_before(marks: Seq<bool>, tail: Seq<bool>, i: int)
    requires
        0 <= i <= marks.len(),
    ensures
        run_end(marks.push(true) + tail, i) == run_end(marks, i),
    decreases marks.len() - i,
{
    let whole = marks.push(true) + tail;
    if i < marks.len() {
        assert(whole[i] == marks[i]);
        if !marks[i] {
            lemma_run_end_before(marks, tail, i + 1);
        }
    } else {
        assert(whole[i]);
    }
}

/// The words behind some other characters are those that are there without them.
proof fn lemma_words_behind(
    head: Seq<char>,
    head_marks: Seq<bool>,
    s: Seq<char>,
    marks: Seq<bool>,
    i: int,
)
    requires
        head.len() == head_marks.len(),
        s.len() == marks.len(),
        0 <= i <= s.len(),
    ensures
        words_from(head + s, head_marks + marks, head.len() + i) == words_from(s, marks, i),
    decreases s.len() - i,
{
    let n = head.len() as int;
    if i < s.len() {
        assert((head_marks + marks)[n + i] == marks[i]);
        if marks[i] {
            lemma_words_behind(head, head_marks, s, marks, i + 1);
        } else {
            let j = run_end(marks, i);
            lemma_run_end_behind(head_marks, marks, i);
            lemma_run_end(marks, i + 1);
            lemma_words_behind(head, head_marks, s, marks, j);
            assert((head + s).subrange(n + i, n + j) =~= s.subrange(i, j));
        }
    }
}

/// The words in front of a marked position are those that are there if nothing follows.
proof fn lemma_words_before(
    s: Seq<char>,
    marks: Seq<bool>,
    gap: char,
    tail: Seq<char>,
    tail_marks: Seq<bool>,
    i: int,
)
    requires
        s.len() == marks.len(),
        tail.len() == tail_marks.len(),
        0 <= i <= s.len(),
    ensures
        words_from(s.push(gap) + tail, marks.push(true) + tail_marks, i) == words_from(s, marks, i)
            + words(tail, tail_marks),
    decreases s.len() - i,
{
    let whole = s.push(gap) + tail;
    let all = marks.push(true) + tail_marks;
    let later = words(tail, tail_marks);
    if i == s.len() {
        assert(all[i]);
        lemma_words_behind(s.push(gap), marks.push(true), tail, tail_marks, 0);
        assert(Seq::<Seq<char>>::empty() + later =~= later);
    } else {
        assert(all[i] == marks[i]);
        if marks[i] {
            lemma_words_before(s, marks, gap, tail, tail_marks, i + 1);
        } else {
            let j = run_end(marks, i);
            lemma_run_end_before(marks, tail_marks, i);
            lemma_run_end(marks, i + 1);
            lemma_words_before(s, marks, gap, tail, tail_marks, j);
            assert(whole.subrange(i, j) =~= s.subrange(i, j));
            assert(seq![s.subrange(i, j)] + (words_from(s, marks, j) + later) =~= (seq![
                s.subrange(i, j),
            ] + words_from(s, marks, j)) + later);
        }
    }
}

/// Cutting at marked positions: a marked position parts what is before it from what is after it,
/// unmarked characters without a gap are one piece, and marked ones are none.
pub proof fn lemma_words_by_marks(
    a: Seq<char>,
    a_marks: Seq<bool>,
    gap: char,
    b: Seq<char>,
    b_marks: Seq<bool>,
)
    requires
        a.len() == a_marks.len(),
        b.len() == b_marks.len(),
    ensures
        words(a.push(gap) + b, a_marks.push(true) + b_marks) == words(a, a_marks) + words(b, b_marks),
        a.len() > 0 && (forall|k: int| 0 <= k < a.len() ==> !#[trigger] a_marks[k]) ==> words(
            a,
            a_marks,
        ) == seq![a],
        a.len() == 0 ==> words(a, a_marks) == Seq::<Seq<char>>::empty(),
{
    lemma_words_before(a, a_marks, gap, b, b_marks, 0);
    if a.len() > 0 && (forall|k: int| 0 <= k < a.len() ==> !#[trigger] a_marks[k]) {
        lemma_run_end(a_marks, 0);
        let j = run_end(a_marks, 0);
        assert(!a_marks[0]);
        assert(j == a.len());
        assert(a.subrange(0, j) =~= a);
        assert(words_from(a, a_marks, j) =~= Seq::<Seq<char>>::empty());
    }
}

/// White space parts the words before it from those after it.
pub proof fn lemma_words_parted(a: Seq<char>, space: char, b: Seq<char>)
    requires
        white_space(space),
    ensures
        text_words(a.push(space) + b) == text_words(a) + text_words(b),
{
    lemma_words_by_marks(a, space_marks(a), space, b, space_marks(b));
    assert(space_marks(a.push(space) + b) =~= space_marks(a).push(true) + space_marks(b));
}

/// A text without white space is one word, unless it is empty.
pub proof fn lemma_single_word(word: Seq<char>)
    requires
        forall|k: int| 0 <= k < word.len() ==> !white_space(#[trigger] word[k]),
    ensures
        text_words(word) == (if word.len() > 0 {
            seq![word]
        } else {
            Seq::empty()
        }),
{
    lemma_words_by_marks(word, space_marks(word), ' ', Seq::empty(), Seq::empty());
    assert forall|k: int| 0 <= k < word.len() implies !#[trigger] space_marks(word)[k] by {
        assert(!white_space(word[k]));
    }
}

/// Trimming by marks gives the core back that stands between marked characters, where the core does
/// not itself start or end with a marked one.
pub proof fn lemma_trimmed_core(
    left: Seq<char>,
    core: Seq<char>,
    core_marks: Seq<bool>,
    right: Seq<char>,
    marks: Seq<bool>,
)
    requires
        core.len() == core_marks.len(),
        core.len() > 0 ==> !core_marks[0] && !core_marks[core.len() - 1],
        marks.len() == left.len() + core.len() + right.len(),
        forall|k: int| 0 <= k < left.len() ==> #[trigger] marks[k],
        forall|k: int| left.len() + core.len() <= k < marks.len() ==> #[trigger] marks[k],
        forall|k: int| 0 <= k < core.len() ==> #[trigger] core_marks[k] == marks[left.len() + k],
    ensures
        trimmed(left + core + right, marks) == core,
{
    let s = left + core + right;
    lemma_gap_end(marks, 0);
    lemma_gap_start(marks, marks.len() as int);
    let i = gap_end(marks, 0);
    let j = gap_start(marks, marks.len() as int);
    if core.len() > 0 {
        let first = left.len() as int;
        let last = left.len() + core.len() - 1;
        assert(core_marks[0] == marks[first]);
        assert(core_marks[core.len() - 1] == marks[last]);
        assert(i == first) by {
            if i < first {
                assert(marks[i]);
            }
        }
        assert(j == last + 1) by {
            if j > last + 1 {
                assert(marks[j - 1]);
            }
        }
        assert(s.subrange(i, j) =~= core);
    } else {
        assert(i == marks.len()) by {
            if i < marks.len() {
                assert(marks[i]);
            }
        }
    }
}

/// Trimming gives back the text that stands between white space, where that text does not itself
/// start or end with white space.
pub proof fn lemma_trimmed_text(left: Seq<char>, core: Seq<char>, right: Seq<char>)
    requires
        forall|k: int| 0 <= k < left.len() ==> white_space(#[trigger] left[k]),
        forall|k: int| 0 <= k < right.len() ==> white_space(#[trigger] right[k]),
        core.len() > 0 ==> !white_space(core[0]) && !white_space(core[core.len() - 1]),
    ensures
        trim_text(left + core + right) == core,
{
    let s = left + core + right;
    let marks = space_marks(s);
    assert forall|k: int| 0 <= k < left.len() implies #[trigger] marks[k] by {
        assert(s[k] == left[k]);
    }
    assert forall|k: int| left.len() + core.len() <= k < marks.len() implies #[trigger] marks[k] by {
        assert(s[k] == right[k - left.len() - core.len()]);
    }
    lemma_trimmed_core(left, core, space_marks(core), right, marks);
}

/// A string without the separator is its own only field.
pub proof fn lemma_single_field(s: Seq<char>, sep: char)
    requires
        !s.contains(sep),
    ensures
        fields(s, sep) == seq![s],
{
    lemma_find(s, sep, 0);
    if find(s, sep, 0) < s.len() {
        assert(s.contains(s[find(s, sep, 0)]));
    }
}

} // verus!

//! The spellings that a damaged word may stand for.

use crate::symbols::SymbolSet;
use crate::text::{chars_of, string_of};
use vstd::prelude::*;
use vstd::slice::slice_subrange;

verus! {

/// How many symbols in a row stand in `word` from position `i` on.
pub open spec fn stretch(word: Seq<char>, symbols: Set<char>, i: int) -> int
    decreases word.len() - i,
{
    if 0 <= i < word.len() && symbols.contains(word[i]) {
        1 + stretch(word, symbols, i + 1)
    } else {
        0
    }
}

/// A stretch lies within the word, holds symbols only, and no symbol follows it.
pub proof fn lemma_stretch(word: Seq<char>, symbols: Set<char>, i: int)
    requires
        0 <= i <= word.len(),
    ensures
        0 <= stretch(word, symbols, i) <= word.len() - i,
        forall|k: int|
            i <= k < i + stretch(word, symbols, i) ==> symbols.contains(#[trigger] word[k]),
        i + stretch(word, symbols, i) < word.len() ==> !symbols.contains(
            word[i + stretch(word, symbols, i)],
        ),
    decreases word.len() - i,
{
    if i < word.len() && symbols.contains(word[i]) {
        lemma_stretch(word, symbols, i + 1);
    }
}

/// How many symbols from position `i` on are taken together: at most `max_run` of them, but at
/// least one where there is one.
pub open spec fn run_length(word: Seq<char>, symbols: Set<char>, max_run: int, i: int) -> int {
    let most = if max_run < 1 { 1 } else { max_run };
    let there = stretch(word, symbols, i);
    if there < most { there } else { most }
}

/// The pairs of replacements whose first member is one of the first `rows`, in order.
pub open spec fn pairs(replacements: Seq<char>, rows: int) -> Seq<Seq<char>>
    decreases rows,
{
    if rows <= 0 {
        Seq::empty()
    } else {
        pairs(replacements, rows - 1) + replacements.map_values(
            |second: char| seq![replacements[rows - 1], second],
        )
    }
}

/// What `run` symbols in a row, one or two, can be replaced by, in order.
pub open spec fn fills(replacements: Seq<char>, run: int) -> Seq<Seq<char>> {
    if run == 1 {
        replacements.map_values(|c: char| seq![c])
    } else {
        pairs(replacements, replacements.len() as int)
    }
}

/// `word` with the `run` characters at `i` replaced by `fill`.
pub open spec fn spliced(word: Seq<char>, i: int, run: int, fill: Seq<char>) -> Seq<char> {
    word.take(i) + fill + word.skip(i + run)
}

/// The spellings that result from replacing the `run` characters of `word` at `i`, each with `i`.
pub open spec fn expansions(word: Seq<char>, i: int, run: int, by: Seq<Seq<char>>) -> Seq<
    (Seq<char>, int),
> {
    by.map_values(|fill: Seq<char>| (spliced(word, i, run, fill), i))
}

/// All spellings that result from replacing one run of symbols from position `i` on.
///
/// A run of more than two symbols is passed over by one position.
pub open spec fn candidates_from(
    word: Seq<char>,
    symbols: Set<char>,
    replacements: Seq<char>,
    max_run: int,
    i: int,
) -> Seq<(Seq<char>, int)>
    decreases word.len() - i,
{
    let run = run_length(word, symbols, max_run, i);
    if i < 0 || i >= word.len() {
        Seq::empty()
    } else if run == 1 || run == 2 {
        proof {
            lemma_stretch(word, symbols, i);
        }
        expansions(word, i, run, fills(replacements, run)) + candidates_from(
            word,
            symbols,
            replacements,
            max_run,
            i + run,
        )
    } else {
        candidates_from(word, symbols, replacements, max_run, i + 1)
    }
}

/// All spellings that result from replacing one run of symbols, with the position of the run.
pub open spec fn all_candidates(
    word: Seq<char>,
    symbols: Set<char>,
    replacements: Seq<char>,
    max_run: int,
) -> Seq<(Seq<char>, int)> {
    candidates_from(word, symbols, replacements, max_run, 0)
}

/// The first `limit` items of `all`, or the first one if `limit` is zero.
pub open spec fn capped<T>(all: Seq<T>, limit: int) -> Seq<T> {
    let most = if limit < 1 { 1 } else { limit };
    if all.len() <= most {
        all
    } else {
        all.take(most)
    }
}

/// The spellings that are tried for `word`.
pub open spec fn candidates(
    word: Seq<char>,
    symbols: Set<char>,
    replacements: Seq<char>,
    max_run: int,
    limit: int,
) -> Seq<(Seq<char>, int)> {
    capped(all_candidates(word, symbols, replacements, max_run), limit)
}

/// The mathematical content of a list of spellings with their positions.
pub open spec fn candidate_views(list: Seq<(String, usize)>) -> Seq<(Seq<char>, int)> {
    list.map_values(|c: (String, usize)| (c.0@, c.1 as int))
}

/// The pairs of the first rows come first among the pairs of more rows.
proof fn lemma_pairs_prefix(replacements: Seq<char>, m: int, n: int)
    requires
        0 <= m <= n,
    ensures
        pairs(replacements, m).len() <= pairs(replacements, n).len(),
        pairs(replacements, m) == pairs(replacements, n).take(
            pairs(replacements, m).len() as int,
        ),
    decreases n,
{
    if m < n {
        lemma_pairs_prefix(replacements, m, n - 1);
        let small = pairs(replacements, m);
        let mid = pairs(replacements, n - 1);
        assert(pairs(replacements, n).take(mid.len() as int) == mid);
        assert(pairs(replacements, n).take(small.len() as int) == mid.take(small.len() as int));
    } else {
        assert(pairs(replacements, n).take(pairs(replacements, n).len() as int) == pairs(
            replacements,
            n,
        ));
    }
}

/// Lists the spellings that result from replacing one run of placeholder symbols in `word` by
/// replacement characters, each with the position of the run.
///
/// Runs of at most `max_consecutive` symbols are replaced as a whole; of these only runs of one or
/// two symbols count. The list stops once it holds `limit` spellings.
pub fn generate_candidates(
    word: &str,
    target_symbols: &SymbolSet,
    replacements: &[char],
    max_consecutive: u8,
    limit: usize,
) -> (list: Vec<(String, usize)>)
    ensures
        candidate_views(list@) == candidates(
            word@,
            target_symbols@,
            replacements@,
            max_consecutive as int,
            limit as int,
        ),
{
    let mut list: Vec<(String, usize)> = Vec::new();
    let chars = chars_of(word);
    let ghost symbols = target_symbols@;
    let ghost max_run = max_consecutive as int;
    let ghost full = all_candidates(word@, symbols, replacements@, max_run);
    let mut i: usize = 0;
    assert(candidate_views(list@) + full == full);
    while i < chars.len()
        invariant
            i <= chars@.len(),
            chars@ == word@,
            symbols == target_symbols@,
            max_run == max_consecutive as int,
            full == all_candidates(word@, symbols, replacements@, max_run),
            candidate_views(list@) + candidates_from(
                word@,
                symbols,
                replacements@,
                max_run,
                i as int,
            ) == full,
            list@.len() == 0 || list@.len() < limit,
        decreases chars@.len() - i,
    {
        if target_symbols.contains(chars[i]) {
            let mut run: usize = 1;
            while run < chars.len() - i && run < max_consecutive as usize
                && target_symbols.contains(chars[i + run])
                invariant
                    i < chars@.len(),
                    1 <= run <= chars@.len() - i,
                    chars@ == word@,
                    symbols == target_symbols@,
                    max_run == max_consecutive as int,
                    run == 1 || run <= max_run,
                    stretch(word@, symbols, i as int) == run + stretch(
                        word@,
                        symbols,
                        i + run,
                    ),
                decreases chars@.len() - i - run,
            {
                run += 1;
            }
            assert(run == run_length(word@, symbols, max_run, i as int)) by {
                lemma_stretch(word@, symbols, i + run);
            }
            if run == 1 || run == 2 {
                let prefix = string_of(slice_subrange(chars.as_slice(), 0, i));
                let suffix = string_of(slice_subrange(chars.as_slice(), i + run, chars.len()));
                assert(prefix@ == word@.take(i as int));
                assert(suffix@ == word@.skip(i + run));
                let ghost base = candidate_views(list@);
                let ghost here = expansions(
                    word@,
                    i as int,
                    run as int,
                    fills(replacements@, run as int),
                );
                assert(base + here == full.take((base + here).len() as int));
                if run == 1 {
                    let mut j: usize = 0;
                    while j < replacements.len()
                        invariant
                            j <= replacements@.len(),
                            prefix@ == word@.take(i as int),
                            suffix@ == word@.skip(i + run),
                            run == 1,
                            here == expansions(
                                word@,
                                i as int,
                                1,
                                fills(replacements@, 1),
                            ),
                            (base + here).len() <= full.len(),
                            base + here == full.take((base + here).len() as int),
                            full == all_candidates(word@, symbols, replacements@, max_run),
                            symbols == target_symbols@,
                            max_run == max_consecutive as int,
                            candidate_views(list@) == base + here.take(j as int),
                            list@.len() == 0 || list@.len() < limit,
                        decreases replacements@.len() - j,
                    {
                        let mut spelling = prefix.clone();
                        spelling.push(replacements[j]);
                        spelling.append(suffix.as_str());
                        let ghost before = candidate_views(list@);
                        list.push((spelling, i));
                        proof {
                            let item = (spelling@, i as int);
                            assert(candidate_views(list@) == before.push(item));
                            assert(spelling@ == spliced(
                                word@,
                                i as int,
                                1,
                                seq![replacements@[j as int]],
                            ));
                            assert(here[j as int] == item);
                            assert(here.take(j + 1) == here.take(j as int).push(item));
                            assert(before.push(item) == base + here.take(j + 1));
                            assert(base + here.take(j + 1) == (base + here).take(
                                base.len() + j + 1,
                            ));
                            assert(candidate_views(list@) == full.take(list@.len() as int));
                        }
                        if list.len() >= limit {
                            return list;
                        }
                        j += 1;
                    }
                    assert(here.take(here.len() as int) == here);
                } else {
                    let mut j: usize = 0;
                    while j < replacements.len()
                        invariant
                            j <= replacements@.len(),
                            prefix@ == word@.take(i as int),
                            suffix@ == word@.skip(i + run),
                            run == 2,
                            here == expansions(
                                word@,
                                i as int,
                                2,
                                fills(replacements@, 2),
                            ),
                            (base + here).len() <= full.len(),
                            base + here == full.take((base + here).len() as int),
                            full == all_candidates(word@, symbols, replacements@, max_run),
                            symbols == target_symbols@,
                            max_run == max_consecutive as int,
                            candidate_views(list@) == base + expansions(
                                word@,
                                i as int,
                                2,
                                pairs(replacements@, j as int),
                            ),
                            list@.len() == 0 || list@.len() < limit,
                        decreases replacements@.len() - j,
                    {
                        let ghost done = expansions(
                            word@,
                            i as int,
                            2,
                            pairs(replacements@, j as int),
                        );
                        let ghost more = expansions(
                            word@,
                            i as int,
                            2,
                            pairs(replacements@, j + 1),
                        );
                        proof {
                            lemma_pairs_prefix(replacements@, j + 1, replacements@.len() as int);
                            assert(more == here.take(more.len() as int));
                            assert(done == more.take(done.len() as int));
                            assert(base + done == base + more.take(done.len() as int));
                        }
                        let mut k: usize = 0;
                        while k < replacements.len()
                            invariant
                                j < replacements@.len(),
                                k <= replacements@.len(),
                                prefix@ == word@.take(i as int),
                                suffix@ == word@.skip(i + run),
                                run == 2,
                                done.len() == pairs(replacements@, j as int).len(),
                                more == expansions(
                                    word@,
                                    i as int,
                                    2,
                                    pairs(replacements@, j + 1),
                                ),
                                more.len() <= here.len(),
                                more == here.take(more.len() as int),
                                (base + here).len() <= full.len(),
                                base + here == full.take((base + here).len() as int),
                                full == all_candidates(word@, symbols, replacements@, max_run),
                                symbols == target_symbols@,
                                max_run == max_consecutive as int,
                                candidate_views(list@) == base + more.take(done.len() + k),
                                list@.len() == 0 || list@.len() < limit,
                            decreases replacements@.len() - k,
                        {
                            let mut spelling = prefix.clone();
                            spelling.push(replacements[j]);
                            spelling.push(replacements[k]);
                            spelling.append(suffix.as_str());
                            let ghost before = candidate_views(list@);
                            list.push((spelling, i));
                            proof {
                                let item = (spelling@, i as int);
                                let at = done.len() + k;
                                let fill = seq![replacements@[j as int], replacements@[k as int]];
                                assert(candidate_views(list@) == before.push(item));
                                assert(spelling@ == spliced(word@, i as int, 2, fill));
                                assert(pairs(replacements@, j + 1)[at] == fill);
                                assert(more[at] == item);
                                assert(more.take(at + 1) == more.take(at).push(item));
                                assert(before.push(item) == base + more.take(at + 1));
                                assert(more.take(at + 1) == here.take(at + 1));
                                assert(base + here.take(at + 1) == (base + here).take(
                                    base.len() + at + 1,
                                ));
                                assert(candidate_views(list@) == full.take(list@.len() as int));
                            }
                            if list.len() >= limit {
                                return list;
                            }
                            k += 1;
                        }
                        assert(more.take(more.len() as int) == more);
                        j += 1;
                    }
                }
                proof {
                    let later = candidates_from(
                        word@,
                        symbols,
                        replacements@,
                        max_run,
                        i + run,
                    );
                    assert(base + (here + later) == (base + here) + later);
                }
                i += run;
                continue;
            }
        }
        i += 1;
    }
    list
}

/// Whether `spelling` results from `word` by replacing the `run` symbols at `i`, and nothing else,
/// by replacement characters, where runs may have `max_run` symbols, or one in any case.
pub open spec fn restores(
    word: Seq<char>,
    symbols: Set<char>,
    replacements: Seq<char>,
    max_run: int,
    spelling: Seq<char>,
    i: int,
    run: int,
) -> bool {
    &&& 0 <= i
    &&& 1 <= run <= 2
    &&& run == 1 || run <= max_run
    &&& i + run <= word.len()
    &&& spelling.len() == word.len()
    &&& forall|k: int| i <= k < i + run ==> symbols.contains(#[trigger] word[k])
    &&& forall|k: int| i <= k < i + run ==> replacements.contains(#[trigger] spelling[k])
    &&& forall|k: int|
        0 <= k < i || i + run <= k < word.len() ==> #[trigger] spelling[k] == word[k]
}

/// Pairs consist of two replacements.
proof fn lemma_pairs_members(replacements: Seq<char>, rows: int, n: int)
    requires
        0 <= rows <= replacements.len(),
        0 <= n < pairs(replacements, rows).len(),
    ensures
        pairs(replacements, rows)[n].len() == 2,
        replacements.contains(pairs(replacements, rows)[n][0]),
        replacements.contains(pairs(replacements, rows)[n][1]),
    decreases rows,
{
    let fewer = pairs(replacements, rows - 1);
    if n < fewer.len() {
        lemma_pairs_members(replacements, rows - 1, n);
    } else {
        assert(pairs(replacements, rows)[n] == seq![
            replacements[rows - 1],
            replacements[n - fewer.len()],
        ]);
    }
}

/// The candidates from position `from` on restore runs of symbols at or after `from`, and come in
/// the order of the runs.
proof fn lemma_candidates_from(
    word: Seq<char>,
    symbols: Set<char>,
    replacements: Seq<char>,
    max_run: int,
    from: int,
)
    requires
        0 <= from <= word.len(),
    ensures
        ({
            let list = candidates_from(word, symbols, replacements, max_run, from);
            &&& forall|n: int|
                0 <= n < list.len() ==> from <= (#[trigger] list[n]).1 && exists|run: int|
                    #[trigger]
                    restores(word, symbols, replacements, max_run, list[n].0, list[n].1, run)
            &&& forall|m: int, n: int|
                0 <= m <= n < list.len() ==> (#[trigger] list[m]).1 <= (#[trigger] list[n]).1
        }),
    decreases word.len() - from,
{
    let list = candidates_from(word, symbols, replacements, max_run, from);
    if from < word.len() {
        let run = run_length(word, symbols, max_run, from);
        lemma_stretch(word, symbols, from);
        if run == 1 || run == 2 {
            lemma_candidates_from(word, symbols, replacements, max_run, from + run);
            let by = fills(replacements, run);
            let here = expansions(word, from, run, by);
            let later = candidates_from(word, symbols, replacements, max_run, from + run);
            assert(list == here + later);
            assert forall|n: int| 0 <= n < list.len() implies from <= (#[trigger] list[n]).1
                && exists|r: int|
                #[trigger]
                restores(word, symbols, replacements, max_run, list[n].0, list[n].1, r) by {
                if n < here.len() {
                    if run == 2 {
                        lemma_pairs_members(replacements, replacements.len() as int, n);
                    }
                    let fill = by[n];
                    assert(fill.len() == run);
                    assert(list[n] == (spliced(word, from, run, fill), from));
                    assert forall|k: int| from <= k < from + run implies replacements.contains(
                        #[trigger] list[n].0[k],
                    ) by {
                        assert(list[n].0[k] == fill[k - from]);
                    }
                    assert(restores(word, symbols, replacements, max_run, list[n].0, list[n].1, run));
                } else {
                    assert(list[n] == later[n - here.len()]);
                }
            }
            assert forall|m: int, n: int| 0 <= m <= n < list.len() implies (#[trigger] list[m]).1
                <= (#[trigger] list[n]).1 by {
                if n >= here.len() {
                    assert(list[n] == later[n - here.len()]);
                    if m >= here.len() {
                        assert(list[m] == later[m - here.len()]);
                    }
                }
            }
        } else {
            lemma_candidates_from(word, symbols, replacements, max_run, from + 1);
            assert(list == candidates_from(word, symbols, replacements, max_run, from + 1));
        }
    }
}

/// Every candidate differs from the word in one run of symbols only, of length one or, if `max_run`
/// allows it, two, at the position given with it, where it has replacement characters. Everything else, its case
/// included, is as in the word.
pub proof fn lemma_candidate_restores(
    word: Seq<char>,
    symbols: Set<char>,
    replacements: Seq<char>,
    max_run: int,
    limit: int,
    n: int,
)
    requires
        0 <= n < candidates(word, symbols, replacements, max_run, limit).len(),
    ensures
        ({
            let c = candidates(word, symbols, replacements, max_run, limit)[n];
            exists|run: int| #[trigger] restores(word, symbols, replacements, max_run, c.0, c.1, run)
        }),
{
    lemma_candidates_from(word, symbols, replacements, max_run, 0);
    let c = candidates(word, symbols, replacements, max_run, limit)[n];
    assert(c == all_candidates(word, symbols, replacements, max_run)[n]);
}

/// Candidates come in the order of the runs that they restore.
pub proof fn lemma_candidates_ordered(
    word: Seq<char>,
    symbols: Set<char>,
    replacements: Seq<char>,
    max_run: int,
    limit: int,
    m: int,
    n: int,
)
    requires
        0 <= m <= n < candidates(word, symbols, replacements, max_run, limit).len(),
    ensures
        candidates(word, symbols, replacements, max_run, limit)[m].1 <= candidates(
            word,
            symbols,
            replacements,
            max_run,
            limit,
        )[n].1,
{
    lemma_candidates_from(word, symbols, replacements, max_run, 0);
    let all = all_candidates(word, symbols, replacements, max_run);
    assert(candidates(word, symbols, replacements, max_run, limit)[m] == all[m]);
    assert(candidates(word, symbols, replacements, max_run, limit)[n] == all[n]);
}

/// There are no more candidates than the limit allows, except that one is always allowed. A higher
/// limit only adds candidates at the end.
pub proof fn lemma_candidates_capped(
    word: Seq<char>,
    symbols: Set<char>,
    replacements: Seq<char>,
    max_run: int,
    limit: int,
    higher: int,
)
    requires
        limit <= higher,
    ensures
        candidates(word, symbols, replacements, max_run, limit).len() <= limit || candidates(
            word,
            symbols,
            replacements,
            max_run,
            limit,
        ).len() <= 1,
        candidates(word, symbols, replacements, max_run, limit).is_prefix_of(
            candidates(word, symbols, replacements, max_run, higher),
        ),
{
    let few = candidates(word, symbols, replacements, max_run, limit);
    let many = candidates(word, symbols, replacements, max_run, higher);
    assert(few =~= many.take(few.len() as int));
}

/// Two symbols can be replaced by every pair of replacements, ordered by the first, then by the
/// second member.
pub proof fn lemma_pairs(replacements: Seq<char>, rows: int, a: int, b: int)
    requires
        0 <= a < rows <= replacements.len(),
        0 <= b < replacements.len(),
    ensures
        pairs(replacements, rows).len() == rows * replacements.len(),
        0 <= a * replacements.len() + b < pairs(replacements, rows).len(),
        pairs(replacements, rows)[a * replacements.len() + b] == seq![
            replacements[a],
            replacements[b],
        ],
    decreases rows,
{
    let n = replacements.len() as int;
    lemma_pairs_len(replacements, rows);
    lemma_pairs_len(replacements, rows - 1);
    let fewer = pairs(replacements, rows - 1);
    assert(rows * n == (rows - 1) * n + n) by (nonlinear_arith);
    if a == rows - 1 {
        assert(pairs(replacements, rows)[fewer.len() + b] == seq![
            replacements[a],
            replacements[b],
        ]);
    } else {
        lemma_pairs(replacements, rows - 1, a, b);
        assert(pairs(replacements, rows)[a * n + b] == fewer[a * n + b]);
    }
}

proof fn lemma_pairs_len(replacements: Seq<char>, rows: int)
    requires
        0 <= rows,
    ensures
        pairs(replacements, rows).len() == rows * replacements.len(),
    decreases rows,
{
    let n = replacements.len() as int;
    if rows > 0 {
        lemma_pairs_len(replacements, rows - 1);
        assert(rows * n == (rows - 1) * n + n) by (nonlinear_arith);
    } else {
        assert(0 * n == 0) by (nonlinear_arith);
    }
}

/// A run of one or two symbols that stands alone is replaced as a whole by everything that it can
/// be replaced by, as long as `max_run` allows runs of that length.
pub proof fn lemma_isolated_run_restored(
    word: Seq<char>,
    symbols: Set<char>,
    replacements: Seq<char>,
    max_run: int,
    i: int,
    fill: Seq<char>,
)
    requires
        0 <= i < word.len(),
        i > 0 ==> !symbols.contains(word[i - 1]),
        1 <= stretch(word, symbols, i) <= 2,
        stretch(word, symbols, i) == 1 || stretch(word, symbols, i) <= max_run,
        fill.len() == stretch(word, symbols, i),
        forall|k: int| 0 <= k < fill.len() ==> replacements.contains(#[trigger] fill[k]),
    ensures
        all_candidates(word, symbols, replacements, max_run).contains(
            (spliced(word, i, stretch(word, symbols, i), fill), i),
        ),
{
    let run = stretch(word, symbols, i);
    let by = fills(replacements, run);
    assert(by.contains(fill)) by {
        let a = replacements.index_of(fill[0]);
        if run == 1 {
            assert(by[a] == seq![fill[0]]);
            assert(by[a] == fill);
        } else {
            let b = replacements.index_of(fill[1]);
            assert(replacements.contains(fill[1]));
            lemma_pairs(replacements, replacements.len() as int, a, b);
            assert(by[a * replacements.len() + b] == fill);
        }
    }
    lemma_run_reached(word, symbols, replacements, max_run, 0, i, by.index_of(fill));
}

/// The search from `from` on reaches the run that stands alone at `i`.
proof fn lemma_run_reached(
    word: Seq<char>,
    symbols: Set<char>,
    replacements: Seq<char>,
    max_run: int,
    from: int,
    i: int,
    n: int,
)
    requires
        0 <= from <= i < word.len(),
        i > 0 ==> !symbols.contains(word[i - 1]),
        1 <= stretch(word, symbols, i) <= 2,
        stretch(word, symbols, i) == 1 || stretch(word, symbols, i) <= max_run,
        0 <= n < fills(replacements, stretch(word, symbols, i)).len(),
    ensures
        candidates_from(word, symbols, replacements, max_run, from).contains(
            (
                spliced(
                    word,
                    i,
                    stretch(word, symbols, i),
                    fills(replacements, stretch(word, symbols, i))[n],
                ),
                i,
            ),
        ),
    decreases i - from,
{
    let run = run_length(word, symbols, max_run, from);
    let list = candidates_from(word, symbols, replacements, max_run, from);
    let wanted = (
        spliced(
            word,
            i,
            stretch(word, symbols, i),
            fills(replacements, stretch(word, symbols, i))[n],
        ),
        i,
    );
    lemma_stretch(word, symbols, from);
    if from == i {
        let here = expansions(word, i, run, fills(replacements, run));
        assert(here[n] == wanted);
        assert(list[n] == wanted);
    } else if run == 1 || run == 2 {
        assert(from + run <= i) by {
            if from + stretch(word, symbols, from) > i - 1 {
                assert(symbols.contains(word[i - 1]));
            }
        }
        lemma_run_reached(word, symbols, replacements, max_run, from + run, i, n);
        let here = expansions(word, from, run, fills(replacements, run));
        let later = candidates_from(word, symbols, replacements, max_run, from + run);
        assert(list == here + later);
        assert(list[here.len() + later.index_of(wanted)] == wanted);
    } else {
        lemma_run_reached(word, symbols, replacements, max_run, from + 1, i, n);
    }
}

/// A word without symbols, or a search without replacements, has no candidates.
pub proof fn lemma_no_candidates(
    word: Seq<char>,
    symbols: Set<char>,
    replacements: Seq<char>,
    max_run: int,
    limit: int,
)
    requires
        replacements.len() == 0 || forall|k: int|
            0 <= k < word.len() ==> !symbols.contains(#[trigger] word[k]),
    ensures
        candidates(word, symbols, replacements, max_run, limit).len() == 0,
{
    lemma_candidates_from(word, symbols, replacements, max_run, 0);
    let all = all_candidates(word, symbols, replacements, max_run);
    if all.len() > 0 {
        let c = all[0];
        let run = choose|run: int| #[trigger]
            restores(word, symbols, replacements, max_run, c.0, c.1, run);
        assert(symbols.contains(word[c.1]));
        assert(replacements.contains(c.0[c.1]));
    }
}

/// The limit cuts the list of all candidates off, and does nothing else: the first `limit` of them
/// are left, or all where there are no more, or the first one where the limit is zero.
pub proof fn lemma_candidates_limited(
    word: Seq<char>,
    symbols: Set<char>,
    replacements: Seq<char>,
    max_run: int,
    limit: int,
)
    ensures
        ({
            let all = all_candidates(word, symbols, replacements, max_run);
            let few = candidates(word, symbols, replacements, max_run, limit);
            &&& all.len() <= limit ==> few == all
            &&& 1 <= limit <= all.len() ==> few == all.take(limit)
            &&& limit <= 0 && all.len() > 0 ==> few == all.take(1)
            &&& all.len() == 0 ==> few == all
        }),
{
    let all = all_candidates(word, symbols, replacements, max_run);
    assert(all.take(all.len() as int) =~= all);
}

/// The views of a list of spellings are those of its items, in order.
pub proof fn lemma_candidate_views(list: Seq<(String, usize)>)
    ensures
        candidate_views(list).len() == list.len(),
        forall|k: int|
            0 <= k < list.len() ==> #[trigger] candidate_views(list)[k] == (
                list[k].0@,
                list[k].1 as int,
            ),
{
}

/// A stretch behind other characters is what it is without them.
proof fn lemma_stretch_behind(a: Seq<char>, b: Seq<char>, symbols: Set<char>, j: int)
    requires
        0 <= j <= b.len(),
    ensures
        stretch(a + b, symbols, a.len() + j) == stretch(b, symbols, j),
    decreases b.len() - j,
{
    if j < b.len() {
        assert((a + b)[a.len() + j] == b[j]);
        if symbols.contains(b[j]) {
            lemma_stretch_behind(a, b, symbols, j + 1);
        }
    }
}

/// A stretch that other characters do not continue is what it is without them.
proof fn lemma_stretch_before(a: Seq<char>, b: Seq<char>, symbols: Set<char>, i: int)
    requires
        0 <= i < a.len(),
        b.len() == 0 || !symbols.contains(a.last()) || !symbols.contains(b[0]),
    ensures
        stretch(a + b, symbols, i) == stretch(a, symbols, i),
    decreases a.len() - i,
{
    let whole = a + b;
    assert(whole[i] == a[i]);
    if symbols.contains(a[i]) {
        if i + 1 < a.len() {
            lemma_stretch_before(a, b, symbols, i + 1);
        } else {
            assert(stretch(a, symbols, i + 1) == 0);
            if b.len() > 0 {
                assert(whole[i + 1] == b[0]);
            }
            assert(stretch(whole, symbols, i + 1) == 0);
        }
    }
}

/// The candidates behind other characters are those that are there without them, each with these
/// characters in front.
proof fn lemma_candidates_behind(
    a: Seq<char>,
    b: Seq<char>,
    symbols: Set<char>,
    replacements: Seq<char>,
    max_run: int,
    j: int,
)
    requires
        0 <= j <= b.len(),
    ensures
        candidates_from(a + b, symbols, replacements, max_run, a.len() + j) == candidates_from(
            b,
            symbols,
            replacements,
            max_run,
            j,
        ).map_values(|c: (Seq<char>, int)| (a + c.0, a.len() + c.1)),
    decreases b.len() - j,
{
    let shift = |c: (Seq<char>, int)| (a + c.0, a.len() + c.1);
    let n = a.len() as int;
    let whole = a + b;
    let left = candidates_from(whole, symbols, replacements, max_run, n + j);
    let right = candidates_from(b, symbols, replacements, max_run, j);
    if j < b.len() {
        let run = run_length(b, symbols, max_run, j);
        lemma_stretch_behind(a, b, symbols, j);
        lemma_stretch(b, symbols, j);
        assert(run_length(whole, symbols, max_run, n + j) == run);
        if run == 1 || run == 2 {
            let by = fills(replacements, run);
            let here = expansions(b, j, run, by);
            let later = candidates_from(b, symbols, replacements, max_run, j + run);
            lemma_candidates_behind(a, b, symbols, replacements, max_run, j + run);
            let there = expansions(whole, n + j, run, by);
            assert forall|k: int| 0 <= k < by.len() implies #[trigger] there[k] == shift(here[k]) by {
                assert(whole.take(n + j) =~= a + b.take(j));
                assert(whole.skip(n + j + run) =~= b.skip(j + run));
                assert(spliced(whole, n + j, run, by[k]) =~= a + spliced(b, j, run, by[k]));
            }
            assert(there =~= here.map_values(shift));
            assert(left == there + later.map_values(shift));
            assert(right == here + later);
            assert((here + later).map_values(shift) =~= here.map_values(shift) + later.map_values(
                shift,
            ));
        } else {
            lemma_candidates_behind(a, b, symbols, replacements, max_run, j + 1);
        }
    } else {
        assert(left =~= right.map_values(shift));
    }
}

/// The candidates in front of characters that continue no run are those that are there without
/// them, each with these characters behind.
proof fn lemma_candidates_before(
    a: Seq<char>,
    b: Seq<char>,
    symbols: Set<char>,
    replacements: Seq<char>,
    max_run: int,
    i: int,
)
    requires
        0 <= i <= a.len(),
        a.len() == 0 || b.len() == 0 || !symbols.contains(a.last()) || !symbols.contains(b[0]),
    ensures
        candidates_from(a + b, symbols, replacements, max_run, i) == candidates_from(
            a,
            symbols,
            replacements,
            max_run,
            i,
        ).map_values(|c: (Seq<char>, int)| (c.0 + b, c.1)) + candidates_from(
            a + b,
            symbols,
            replacements,
            max_run,
            a.len() as int,
        ),
    decreases a.len() - i,
{
    let extend = |c: (Seq<char>, int)| (c.0 + b, c.1);
    let whole = a + b;
    let rest = candidates_from(whole, symbols, replacements, max_run, a.len() as int);
    let left = candidates_from(whole, symbols, replacements, max_run, i);
    let right = candidates_from(a, symbols, replacements, max_run, i);
    if i < a.len() {
        let run = run_length(a, symbols, max_run, i);
        lemma_stretch_before(a, b, symbols, i);
        lemma_stretch(a, symbols, i);
        if run == 1 || run == 2 {
            let by = fills(replacements, run);
            let here = expansions(a, i, run, by);
            let later = candidates_from(a, symbols, replacements, max_run, i + run);
            lemma_candidates_before(a, b, symbols, replacements, max_run, i + run);
            let there = expansions(whole, i, run, by);
            assert forall|k: int| 0 <= k < by.len() implies #[trigger] there[k] == extend(
                here[k],
            ) by {
                assert(whole.take(i) =~= a.take(i));
                assert(whole.skip(i + run) =~= a.skip(i + run) + b);
                assert(spliced(whole, i, run, by[k]) =~= spliced(a, i, run, by[k]) + b);
            }
            assert(there =~= here.map_values(extend));
            assert(right == here + later);
            assert((here + later).map_values(extend) =~= here.map_values(extend)
                + later.map_values(extend));
            assert(left == there + (later.map_values(extend) + rest));
            assert(there + (later.map_values(extend) + rest) =~= (there + later.map_values(extend))
                + rest);
        } else {
            lemma_candidates_before(a, b, symbols, replacements, max_run, i + 1);
        }
    } else {
        assert(right.map_values(extend) + rest =~= rest);
    }
}

/// Candidates can be listed part by part: where a word is cut so that no run is cut, or behind a
/// run of as many symbols as are taken together, its candidates are those of the first part, each
/// with the second part behind, then those of the second part, each with the first part in front.
pub proof fn lemma_candidates_split(
    a: Seq<char>,
    b: Seq<char>,
    symbols: Set<char>,
    replacements: Seq<char>,
    max_run: int,
)
    requires
        ({
            ||| a.len() == 0
            ||| b.len() == 0
            ||| !symbols.contains(a.last())
            ||| !symbols.contains(b[0])
            ||| {
                &&& a.len() <= 2
                &&& a.len() == max_run || a.len() == 1 && max_run < 1
                &&& forall|k: int| 0 <= k < a.len() ==> symbols.contains(#[trigger] a[k])
            }
        }),
    ensures
        all_candidates(a + b, symbols, replacements, max_run) == all_candidates(
            a,
            symbols,
            replacements,
            max_run,
        ).map_values(|c: (Seq<char>, int)| (c.0 + b, c.1)) + all_candidates(
            b,
            symbols,
            replacements,
            max_run,
        ).map_values(|c: (Seq<char>, int)| (a + c.0, a.len() + c.1)),
{
    let whole = a + b;
    lemma_candidates_behind(a, b, symbols, replacements, max_run, 0);
    if a.len() == 0 || b.len() == 0 || !symbols.contains(a.last()) || !symbols.contains(b[0]) {
        lemma_candidates_before(a, b, symbols, replacements, max_run, 0);
    } else {
        let extend = |c: (Seq<char>, int)| (c.0 + b, c.1);
        let run = a.len() as int;
        lemma_full_stretch(a, symbols);
        lemma_stretch(whole, symbols, 0);
        assert(stretch(whole, symbols, 0) >= run) by {
            let end = stretch(whole, symbols, 0);
            if end < run {
                assert(whole[end] == a[end]);
            }
        }
        let by = fills(replacements, run);
        let here = expansions(a, 0, run, by);
        let there = expansions(whole, 0, run, by);
        assert forall|k: int| 0 <= k < by.len() implies #[trigger] there[k] == extend(here[k]) by {
            assert(whole.skip(run) =~= a.skip(run) + b);
            assert(whole.take(0) =~= a.take(0));
            assert(spliced(whole, 0, run, by[k]) =~= spliced(a, 0, run, by[k]) + b);
        }
        assert(there =~= here.map_values(extend));
        assert(candidates_from(a, symbols, replacements, max_run, run) =~= Seq::<
            (Seq<char>, int),
        >::empty());
        assert(all_candidates(a, symbols, replacements, max_run) =~= here);
    }
}

/// A word of symbols only is one stretch.
proof fn lemma_full_stretch(word: Seq<char>, symbols: Set<char>)
    requires
        forall|k: int| 0 <= k < word.len() ==> symbols.contains(#[trigger] word[k]),
    ensures
        stretch(word, symbols, 0) == word.len(),
{
    lemma_stretch(word, symbols, 0);
    if stretch(word, symbols, 0) < word.len() {
        assert(symbols.contains(word[stretch(word, symbols, 0)]));
    }
}

/// A position in a square table of `n` rows, counted row by row, is that of a row and a column.
proof fn lemma_square_index(k: int, n: int)
    requires
        0 <= k < n * n,
        0 <= n,
    ensures
        0 <= k / n < n,
        0 <= k % n < n,
        (k / n) * n + k % n == k,
{
    assert(n > 0) by (nonlinear_arith)
        requires
            0 <= k < n * n,
            0 <= n,
    ;
    vstd::arithmetic::div_mod::lemma_fundamental_div_mod(k, n);
    vstd::arithmetic::div_mod::lemma_mod_bound(k, n);
    vstd::arithmetic::div_mod::lemma_div_pos_is_pos(k, n);
    assert(n * (k / n) == (k / n) * n) by (nonlinear_arith);
    assert(k / n < n) by (nonlinear_arith)
        requires
            (k / n) * n <= k < n * n,
            n > 0,
    ;
}

/// The candidates of a word without symbols, of one symbol, of two symbols, and of more symbols
/// than two that are taken together: none; every replacement; every pair of replacements, ordered
/// by the first, then by the second; and those of all symbols but the first.
pub proof fn lemma_candidates_of_run(
    word: Seq<char>,
    symbols: Set<char>,
    replacements: Seq<char>,
    max_run: int,
)
    ensures
        (forall|k: int| 0 <= k < word.len() ==> !symbols.contains(#[trigger] word[k]))
            ==> all_candidates(word, symbols, replacements, max_run) == Seq::<
            (Seq<char>, int),
        >::empty(),
        word.len() == 1 && symbols.contains(word[0]) ==> all_candidates(
            word,
            symbols,
            replacements,
            max_run,
        ) == replacements.map_values(|c: char| (seq![c], 0int)),
        word.len() == 2 && symbols.contains(word[0]) && symbols.contains(word[1]) && max_run >= 2
            ==> all_candidates(word, symbols, replacements, max_run) == Seq::new(
            replacements.len() * replacements.len(),
            |k: int|
                (
                    seq![
                        replacements[k / replacements.len() as int],
                        replacements[k % replacements.len() as int],
                    ],
                    0int,
                ),
        ),
        word.len() >= 3 && max_run >= 3 && (forall|k: int|
            0 <= k < word.len() ==> symbols.contains(#[trigger] word[k])) ==> all_candidates(
            word,
            symbols,
            replacements,
            max_run,
        ) == all_candidates(word.skip(1), symbols, replacements, max_run).map_values(
            |c: (Seq<char>, int)| (word.take(1) + c.0, 1 + c.1),
        ),
{
    let all = all_candidates(word, symbols, replacements, max_run);
    if forall|k: int| 0 <= k < word.len() ==> !symbols.contains(#[trigger] word[k]) {
        lemma_candidates_from(word, symbols, replacements, max_run, 0);
        if all.len() > 0 {
            let c = all[0];
            let run = choose|run: int| #[trigger]
                restores(word, symbols, replacements, max_run, c.0, c.1, run);
            assert(symbols.contains(word[c.1]));
        }
        assert(all =~= Seq::<(Seq<char>, int)>::empty());
    }
    if word.len() == 1 && symbols.contains(word[0]) {
        lemma_full_stretch(word, symbols);
        let by = fills(replacements, 1);
        let here = expansions(word, 0, 1, by);
        assert(candidates_from(word, symbols, replacements, max_run, 1) =~= Seq::<
            (Seq<char>, int),
        >::empty());
        assert(all =~= here);
        assert forall|k: int| 0 <= k < here.len() implies #[trigger] here[k] == (
            seq![replacements[k]],
            0int,
        ) by {
            assert(spliced(word, 0, 1, by[k]) =~= by[k]);
        }
        assert(all =~= replacements.map_values(|c: char| (seq![c], 0int)));
    }
    if word.len() == 2 && symbols.contains(word[0]) && symbols.contains(word[1]) && max_run >= 2 {
        let n = replacements.len() as int;
        lemma_full_stretch(word, symbols);
        let by = fills(replacements, 2);
        let here = expansions(word, 0, 2, by);
        assert(candidates_from(word, symbols, replacements, max_run, 2) =~= Seq::<
            (Seq<char>, int),
        >::empty());
        assert(all =~= here);
        lemma_pairs_len(replacements, n);
        assert forall|k: int| 0 <= k < here.len() implies #[trigger] here[k] == (
            seq![replacements[k / n], replacements[k % n]],
            0int,
        ) by {
            lemma_square_index(k, n);
            lemma_pairs(replacements, n, k / n, k % n);
            assert(spliced(word, 0, 2, by[k]) =~= by[k]);
        }
    }
    if word.len() >= 3 && max_run >= 3 && (forall|k: int|
        0 <= k < word.len() ==> symbols.contains(#[trigger] word[k])) {
        lemma_full_stretch(word, symbols);
        lemma_candidates_behind(word.take(1), word.skip(1), symbols, replacements, max_run, 0);
        assert(word.take(1) + word.skip(1) =~= word);
        assert(all == candidates_from(word, symbols, replacements, max_run, 1));
    }
}

/// The candidates of a word with a single run of one symbol, or of two where so many are taken
/// together: the run is replaced as a whole, by every replacement or by every pair of them.
pub proof fn lemma_candidates_of_one_run(
    before: Seq<char>,
    run: Seq<char>,
    after: Seq<char>,
    symbols: Set<char>,
    replacements: Seq<char>,
    max_run: int,
)
    requires
        forall|k: int| 0 <= k < before.len() ==> !symbols.contains(#[trigger] before[k]),
        forall|k: int| 0 <= k < run.len() ==> symbols.contains(#[trigger] run[k]),
        forall|k: int| 0 <= k < after.len() ==> !symbols.contains(#[trigger] after[k]),
        run.len() == 1 || run.len() == 2 && max_run >= 2,
    ensures
        run.len() == 1 ==> all_candidates(before + run + after, symbols, replacements, max_run)
            == replacements.map_values(
            |c: char| (before + seq![c] + after, before.len() as int),
        ),
        run.len() == 2 ==> all_candidates(before + run + after, symbols, replacements, max_run)
            == Seq::new(
            replacements.len() * replacements.len(),
            |k: int|
                (
                    before + seq![
                        replacements[k / replacements.len() as int],
                        replacements[k % replacements.len() as int],
                    ] + after,
                    before.len() as int,
                ),
        ),
{
    let word = before + run + after;
    let all = all_candidates(word, symbols, replacements, max_run);
    let front = before + run;
    let some = all_candidates(front, symbols, replacements, max_run);
    let core = all_candidates(run, symbols, replacements, max_run);
    let extend = |c: (Seq<char>, int)| (c.0 + after, c.1);
    let shift = |c: (Seq<char>, int)| (before + c.0, before.len() + c.1);
    lemma_candidates_split(before, run, symbols, replacements, max_run);
    lemma_candidates_split(front, after, symbols, replacements, max_run);
    lemma_candidates_of_run(before, symbols, replacements, max_run);
    lemma_candidates_of_run(run, symbols, replacements, max_run);
    lemma_candidates_of_run(after, symbols, replacements, max_run);
    assert(some =~= core.map_values(shift));
    assert(all =~= some.map_values(extend));
    if run.len() == 1 {
        assert(all =~= replacements.map_values(
            |c: char| (before + seq![c] + after, before.len() as int),
        ));
    }
}

} // verus!

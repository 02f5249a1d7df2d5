//! Decisions about where a corpus is read from and how its processing is cut up and reported.

use vstd::prelude::*;

verus! {

/// The smallest number of lines that are processed together.
pub const MIN_CHUNK: usize = 50;

/// About how many chunks of lines there are for each thread, where the lines are many.
pub const CHUNKS_PER_THREAD: usize = 4;

/// After how many lines the progress display moves.
pub const PROGRESS_STEP: u64 = 1000;

/// Whether two strings hold the same characters.
fn same_text(a: &str, b: &str) -> (answer: bool)
    ensures
        answer == (a@ == b@),
{
    a.to_owned() == b.to_owned()
}

/// Whether the text comes from standard input: on request, or where the corpus is called `-`.
pub fn reads_stdin(requested: bool, corpus: Option<&str>) -> (answer: bool)
    ensures
        answer == (requested || (corpus matches Some(path) && path@ == "-"@)),
{
    if requested {
        return true;
    }
    match corpus {
        Some(path) => same_text(path, "-"),
        None => false,
    }
}

/// Whether a file with the given extension belongs to the corpus.
pub open spec fn corpus_extension(extension: Seq<char>) -> bool {
    ||| extension == "txt"@
    ||| extension == "text"@
    ||| extension == "utf"@
    ||| extension == "md"@
}

/// Whether a file with the given extension, if it has one, belongs to the corpus.
pub fn is_corpus_file(extension: Option<&str>) -> (answer: bool)
    ensures
        answer == (extension matches Some(name) && corpus_extension(name@)),
        answer <==> extension is Some && seq!["txt"@, "text"@, "utf"@, "md"@].contains(
            extension->0@,
        ),
{
    proof {
        let known = seq!["txt"@, "text"@, "utf"@, "md"@];
        assert(known[0] == "txt"@ && known[1] == "text"@ && known[2] == "utf"@ && known[3] == "md"@);
    }
    match extension {
        Some(name) => same_text(name, "txt") || same_text(name, "text") || same_text(name, "utf")
            || same_text(name, "md"),
        None => false,
    }
}

/// How many lines are processed together when `threads` threads share `lines` lines.
pub fn chunk_size(lines: usize, threads: usize) -> (size: usize)
    requires
        0 < threads <= usize::MAX / CHUNKS_PER_THREAD,
    ensures
        ({
            let share = lines as int / (threads * CHUNKS_PER_THREAD);
            size == if share < MIN_CHUNK { MIN_CHUNK as int } else { share }
        }),
        size >= 50,
        size > 50 ==> size * (4 * threads) <= lines,
        (size + 1) * (4 * threads) > lines,
{
    let share: usize = lines / (threads * CHUNKS_PER_THREAD);
    proof {
        let parts = threads * 4;
        vstd::arithmetic::div_mod::lemma_fundamental_div_mod(lines as int, parts);
        vstd::arithmetic::div_mod::lemma_mod_bound(lines as int, parts);
        assert(share * parts <= lines < (share + 1) * parts) by (nonlinear_arith)
            requires
                lines == parts * share + lines as int % parts,
                0 <= lines as int % parts < parts,
        ;
        assert(share < 50 ==> (share + 1) * parts <= 51 * parts) by (nonlinear_arith)
            requires
                parts > 0,
        ;
    }
    if share < MIN_CHUNK {
        MIN_CHUNK
    } else {
        share
    }
}

/// Whether the progress display moves when `lines` more lines are done after the first `before`:
/// where another step of lines is full, and at the end.
pub fn progress_due(before: u64, lines: u64, total: u64) -> (answer: bool)
    requires
        before + lines <= u64::MAX,
    ensures
        answer == (before / PROGRESS_STEP != (before + lines) / PROGRESS_STEP as int || before
            + lines >= total),
        answer == (before % 1000 + lines >= 1000 || before + lines >= total),
{
    let after: u64 = before + lines;
    before / PROGRESS_STEP != after / PROGRESS_STEP || after >= total
}

} // verus!

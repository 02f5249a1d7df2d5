//! Lower case and stems of words.

use rust_stemmers::{Algorithm, Stemmer};
use vstd::prelude::*;

verus! {

/// The lower-case form of a string, as `str::to_lowercase` gives it.
pub uninterp spec fn lowercase(s: Seq<char>) -> Seq<char>;

/// The stem of a word, as the Russian Snowball stemmer of `rust_stemmers` gives it.
pub uninterp spec fn russian_stem(word: Seq<char>) -> Seq<char>;

/// `str::to_lowercase` depends on the string alone; its result is named `lowercase`.
pub assume_specification[ str::to_lowercase ](s: &str) -> (lower: String)
    ensures
        lower@ == lowercase(s@),
;

/// Whether a word is short enough for the stemmer, which counts bytes in 32-bit signed integers.
pub open spec fn stemmable(word: Seq<char>) -> bool {
    vstd::utf8::encode_utf8(word).len() <= i32::MAX
}

/// `Stemmer::stem` with `Algorithm::Russian` depends on the word alone; its result is named
/// `russian_stem`.
///
/// The stemmer casts byte positions to `i32` and can panic where they do not fit.
#[verifier::external_body]
pub(crate) fn stem_russian(word: &str) -> (stem: String)
    requires
        stemmable(word@),
    ensures
        stem@ == russian_stem(word@),
{
    Stemmer::create(Algorithm::Russian).stem(word).into_owned()
}

/// Whether `word` is short enough for the stemmer.
pub fn can_stem(word: &str) -> (answer: bool)
    ensures
        answer == stemmable(word@),
        answer == (vstd::utf8::encode_utf8(word@).len() < 0x8000_0000),
{
    word.as_bytes().len() <= 0x7fff_ffff
}

} // verus!

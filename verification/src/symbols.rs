//! The set of placeholder symbols that a search looks for.

use crate::text::chars_of;
use std::collections::HashSet;
use vstd::prelude::*;

verus! {

/// A set of characters, kept as the set of their code points.
pub struct SymbolSet {
    codes: HashSet<u32>,
}

impl View for SymbolSet {
    type V = Set<char>;

    closed spec fn view(&self) -> Set<char> {
        Set::new(|c: char| self.codes@.contains(c as u32))
    }
}

impl SymbolSet {
    /// The set of the characters that occur in `symbols`.
    pub fn from_symbols(symbols: &str) -> (set: SymbolSet)
        ensures
            set@ == symbols@.to_set(),
    {
        let chars = chars_of(symbols);
        let mut codes: HashSet<u32> = HashSet::new();
        let mut i: usize = 0;
        while i < chars.len()
            invariant
                i <= chars@.len(),
                forall|c: char|
                    codes@.contains(c as u32) <==> #[trigger] chars@.take(i as int).contains(c),
            decreases chars@.len() - i,
        {
            codes.insert(chars[i] as u32);
            proof {
                let before = chars@.take(i as int);
                let after = chars@.take(i + 1);
                assert(after == before.push(chars@[i as int]));
                assert forall|c: char|
                    codes@.contains(c as u32) <==> #[trigger] after.contains(c) by {
                    vstd::utf8::char_u32_cast(c, c as u32);
                    vstd::utf8::char_u32_cast(chars@[i as int], chars@[i as int] as u32);
                    assert(before.contains(c) ==> after.contains(c));
                    assert(after.contains(c) ==> before.contains(c) || c == chars@[i as int]);
                    if before.contains(c) {
                        let k = before.index_of(c);
                        assert(after[k] == c);
                    }
                    if c == chars@[i as int] {
                        assert(after[i as int] == c);
                    }
                }
            }
            i += 1;
        }
        assert(chars@.take(chars@.len() as int) == chars@);
        let set = SymbolSet { codes };
        assert(set@ =~= symbols@.to_set());
        set
    }

    /// Whether `c` is one of the symbols.
    pub fn contains(&self, c: char) -> (found: bool)
        ensures
            found == self@.contains(c),
    {
        self.codes.contains(&(c as u32))
    }
}

} // verus!

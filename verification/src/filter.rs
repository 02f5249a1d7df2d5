//! Bloom filters over strings.

use bloomfilter::Bloom;
use vstd::prelude::*;

verus! {

/// `bloomfilter::Bloom`, a Bloom filter. Its bitmap and its hash keys are not visible here.
#[verifier::external_type_specification]
#[verifier::external_body]
#[verifier::reject_recursive_types(T)]
pub struct ExBloom<T: ?Sized>(Bloom<T>);

/// The bits that are set in the bitmap of `filter`.
pub uninterp spec fn set_bits(filter: Bloom<String>) -> Set<nat>;

/// The bits that belong to each string under the hash keys of `filter`. Which bits these are is a
/// matter of chance, since the keys are random.
pub uninterp spec fn probes(filter: Bloom<String>) -> Map<Seq<char>, Set<nat>>;

/// Whether at least one bit belongs to the string `s`.
pub open spec fn has_bit(probes: Map<Seq<char>, Set<nat>>, s: Seq<char>) -> bool {
    exists|b: nat| #[trigger] probes[s].contains(b)
}

/// The strings for which `filter` answers that they may have been recorded in it: those of which
/// every bit is set.
pub open spec fn accepted(filter: Bloom<String>) -> Set<Seq<char>> {
    Set::new(|s: Seq<char>| probes(filter)[s].subset_of(set_bits(filter)))
}

/// How many bits the bitmap of `filter` has, and how many hash functions it uses.
pub uninterp spec fn shape(filter: Bloom<String>) -> (nat, nat);

/// Whether `filter` has a bitmap of `bitmap_size` bytes and the number of hash functions that suits
/// `items_count` items: the number of bits per item times the natural logarithm of two, rounded up
/// to a whole number that is at least one and fits in 32 bits. The logarithm lies between 0.693147
/// and 0.693148.
pub open spec fn sized_for(filter: Bloom<String>, bitmap_size: nat, items_count: nat) -> bool {
    let bits = 8 * bitmap_size;
    let hashes = shape(filter).1;
    &&& shape(filter).0 == bits
    &&& 1 <= hashes <= u32::MAX
    &&& hashes == u32::MAX || 693_147 * bits <= 1_000_000 * hashes * items_count
    &&& hashes == 1 || 1_000_000 * (hashes - 1) * items_count < 693_148 * bits
}

/// `Bloom::new` makes a filter with an empty bitmap of `bitmap_size` bytes, and at least one hash
/// function, under random keys: no bit is set, and every string has a bit. The number of hash
/// functions follows from `items_count`.
///
/// It panics where a size is zero or the number of bits does not fit in `usize`, which the
/// precondition rules out. It also panics where the machine has no random numbers to give, which
/// no precondition can tell.
#[verifier::external_body]
pub(crate) fn new_filter(bitmap_size: usize, items_count: usize) -> (filter: Bloom<String>)
    requires
        0 < bitmap_size <= usize::MAX / 8,
        0 < items_count,
    ensures
        set_bits(filter) == Set::<nat>::empty(),
        probes(filter).dom() == Set::<Seq<char>>::full(),
        forall|s: Seq<char>| #[trigger] has_bit(probes(filter), s),
        sized_for(filter, bitmap_size as nat, items_count as nat),
{
    Bloom::new(bitmap_size, items_count)
}

/// `Bloom::set` records a string: it sets the bits of that string and leaves all other bits, the
/// keys and the shape of the filter as they are.
#[verifier::external_body]
pub(crate) fn record(filter: &mut Bloom<String>, item: &String)
    ensures
        set_bits(*final(filter)) == set_bits(*old(filter)).union(probes(*old(filter))[item@]),
        probes(*final(filter)) == probes(*old(filter)),
        shape(*final(filter)) == shape(*old(filter)),
{
    filter.set(item)
}

/// `Bloom::check` answers whether all bits of the string are set.
#[verifier::external_body]
pub(crate) fn may_hold(filter: &Bloom<String>, item: &String) -> (answer: bool)
    ensures
        answer == accepted(*filter).contains(item@),
{
    filter.check(item)
}

} // verus!

//! Trusted interface to `hibitset::BitSet`, the index set used for the
//! per-frame dirty sets, the per-material entity indices and the
//! propagator's change sets.
//!
//! The set's contents are named by the uninterpreted [`elems`]; every
//! wrapper states, over that name, what the corresponding `hibitset`
//! method does according to its source.  `hibitset` panics when an index
//! at or above `usize**4` is added (`1_048_576` on 32-bit targets), so
//! the adding wrapper requires indices below [`MAX_INDEX`].
use hibitset::BitSetLike;
use vstd::prelude::*;

verus! {

#[verifier::external_type_specification]
#[verifier::external_body]
pub struct ExBitSet(hibitset::BitSet);

/// Largest count of indices a set is used with here: `hibitset`'s
/// documented limit for the smallest (32-bit) `usize`.
pub const MAX_INDEX: u32 = 0x10_0000;

/// The set of indices currently in a `hibitset::BitSet`.
pub uninterp spec fn elems(s: &hibitset::BitSet) -> Set<u32>;

/// Each element strictly less than the next.
pub open spec fn strictly_ascending(s: Seq<u32>) -> bool {
    forall|i: int, j: int| 0 <= i < j < s.len() ==> s[i] < s[j]
}

/// Relies on `hibitset::BitSet::new`: creates an empty set.
#[verifier::external_body]
pub(crate) fn bitset_new() -> (r: hibitset::BitSet)
    ensures
        elems(&r) == Set::<u32>::empty(),
{
    hibitset::BitSet::new()
}

/// Relies on `hibitset::BitSet::add`: inserts `id` and returns whether it
/// was already present; panics only for indices past the structure's
/// capacity limit, which `MAX_INDEX` keeps out.
#[verifier::external_body]
pub(crate) fn bitset_add(s: &mut hibitset::BitSet, id: u32) -> (r: bool)
    requires
        id < MAX_INDEX,
    ensures
        elems(final(s)) == elems(old(s)).insert(id),
        r == elems(old(s)).contains(id),
{
    s.add(id)
}

/// Relies on `hibitset::BitSet::remove`: removes `id` and returns whether
/// it was present.
#[verifier::external_body]
pub(crate) fn bitset_remove(s: &mut hibitset::BitSet, id: u32) -> (r: bool)
    ensures
        elems(final(s)) == elems(old(s)).remove(id),
        r == elems(old(s)).contains(id),
{
    s.remove(id)
}

/// Relies on `hibitset::BitSet::contains`.
#[verifier::external_body]
pub(crate) fn bitset_contains(s: &hibitset::BitSet, id: u32) -> (r: bool)
    ensures
        r == elems(s).contains(id),
{
    s.contains(id)
}

/// Relies on `hibitset::BitSet::clear`: wipes the whole set.
#[verifier::external_body]
pub(crate) fn bitset_clear(s: &mut hibitset::BitSet)
    ensures
        elems(final(s)) == Set::<u32>::empty(),
{
    s.clear()
}

/// Relies on `BitSetLike::iter` for `&BitSet`: yields each contained
/// index exactly once, in ascending order.
#[verifier::external_body]
pub(crate) fn bitset_items(s: &hibitset::BitSet) -> (r: Vec<u32>)
    ensures
        forall|id: u32| r@.contains(id) <==> elems(s).contains(id),
        strictly_ascending(r@),
{
    (&s).iter().collect()
}

/// Everything a strictly sorted element list implies: no duplicates, and
/// the length is the cardinality of the set it enumerates.
pub proof fn lemma_items_card(r: Seq<u32>, s: Set<u32>)
    requires
        forall|id: u32| r.contains(id) <==> s.contains(id),
        strictly_ascending(r),
    ensures
        r.no_duplicates(),
        s.finite(),
        r.len() == s.len(),
{
    assert(r.no_duplicates());
    assert(r.to_set() =~= s);
    r.unique_seq_to_set();
}

} // verus!

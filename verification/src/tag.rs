//! Words that hold either the address of a node or, marked by their lowest bit, the address of an
//! announcement. Addresses are even, so the lowest bit of a word is free to carry the mark.
use vstd::prelude::*;

verus! {

/// The bit that marks the address of an announcement.
pub const ANN_TAG: usize = 1;

/// Whether `word` is the address of an announcement.
pub open spec fn marked(word: usize) -> bool {
    word % 2 == 1
}

/// The address in `word`, without the mark.
pub open spec fn address(word: usize) -> usize {
    (word - word % 2) as usize
}

/// The word that holds the address `ann` with the mark.
pub open spec fn mark(ann: usize) -> usize {
    (address(ann) + 1) as usize
}

/// The word under which the announcement at `ann` is published.
pub fn tag_ann(ann: usize) -> (word: usize)
    ensures
        word == mark(ann),
        marked(word),
        address(word) == address(ann),
{
    assert(ann | 1 == ((ann - ann % 2) as usize + 1) as usize) by (bit_vector);
    ann | ANN_TAG
}

/// The address in `word`, whatever it is the address of.
pub fn untag(word: usize) -> (addr: usize)
    ensures
        addr == address(word),
        addr % 2 == 0,
{
    assert(word & !1 == (word - word % 2) as usize) by (bit_vector);
    word & !ANN_TAG
}

/// Whether `word` is the address of an announcement.
pub fn is_ann(word: usize) -> (b: bool)
    ensures
        b == marked(word),
{
    assert((word & 1 == 1) == (word % 2 == 1)) by (bit_vector);
    (word & ANN_TAG) == ANN_TAG
}

/// The announcement that a marked `word` is the address of.
pub fn get_ann_ptr(word: usize) -> (ann: usize)
    ensures
        ann == address(word),
        marked(word) ==> word == mark(ann),
{
    untag(word)
}

/// The node that an unmarked `word` is the address of.
pub fn get_node_ptr(word: usize) -> (node: usize)
    ensures
        node == word,
        !marked(word) ==> node == address(word),
{
    word
}

/// Marking an address and taking the mark off again gives the address back, and the marked word
/// is told apart from every unmarked one.
pub proof fn mark_round_trip(ann: usize)
    requires
        ann % 2 == 0,
    ensures
        marked(mark(ann)),
        address(mark(ann)) == ann,
        !marked(ann),
        forall|other: usize| other % 2 == 0 && mark(other) == mark(ann) ==> other == ann,
{
}

} // verus!

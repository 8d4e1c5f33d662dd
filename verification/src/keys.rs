//! Ordering facts about the integer keys used in ordered collections.

use vstd::prelude::*;

verus! {

/// Pairs of 16-bit integers follow the total order that ordered maps rely on.
pub proof fn lemma_pair_keys_ordered()
    ensures
        vstd::laws_cmp::obeys_cmp::<(u16, u16)>(),
{
    assert(vstd::laws_cmp::obeys_cmp::<u16>());
}

/// Triples of one 8-bit and two 16-bit integers follow the total order that
/// ordered sets rely on.
pub proof fn lemma_layer_cell_keys_ordered()
    ensures
        vstd::laws_cmp::obeys_cmp::<(u8, u16, u16)>(),
{
    assert(vstd::laws_cmp::obeys_cmp::<u8>());
    assert(vstd::laws_cmp::obeys_cmp::<u16>());
}

/// Pairs of 32-bit integers follow the total order that ordered sets rely on.
pub proof fn lemma_u32_pair_keys_ordered()
    ensures
        vstd::laws_cmp::obeys_cmp::<(u32, u32)>(),
{
    assert(vstd::laws_cmp::obeys_cmp::<u32>());
}

/// 64-bit integers follow the total order that ordered maps rely on.
pub open spec fn u64_keys_ordered() -> bool {
    vstd::laws_cmp::obeys_cmp::<u64>()
}

/// Proof that 64-bit keys are ordered.
pub proof fn lemma_u64_keys_ordered()
    ensures
        u64_keys_ordered(),
{
}

/// 16-bit integers follow the total order that ordered maps rely on.
pub open spec fn u16_keys_ordered() -> bool {
    vstd::laws_cmp::obeys_cmp::<u16>()
}

/// Proof that 16-bit keys are ordered.
pub proof fn lemma_u16_keys_ordered()
    ensures
        u16_keys_ordered(),
{
}

/// 8-bit integers follow the total order that ordered maps rely on.
pub open spec fn u8_keys_ordered() -> bool {
    vstd::laws_cmp::obeys_cmp::<u8>()
}

/// Proof that 8-bit keys are ordered.
pub proof fn lemma_u8_keys_ordered()
    ensures
        u8_keys_ordered(),
{
}

/// 32-bit integers follow the total order that ordered maps rely on.
pub open spec fn u32_keys_ordered() -> bool {
    vstd::laws_cmp::obeys_cmp::<u32>()
}

/// Proof that 32-bit keys are ordered.
pub proof fn lemma_u32_keys_ordered()
    ensures
        u32_keys_ordered(),
{
}

/// Pairs of a 32-bit and an 8-bit integer follow the total order that
/// ordered maps rely on.
pub open spec fn owner_slot_keys_ordered() -> bool {
    vstd::laws_cmp::obeys_cmp::<(u32, u8)>()
}

/// Proof that owner-and-slot keys are ordered.
pub proof fn lemma_owner_slot_keys_ordered()
    ensures
        owner_slot_keys_ordered(),
{
    assert(vstd::laws_cmp::obeys_cmp::<u32>());
    assert(vstd::laws_cmp::obeys_cmp::<u8>());
}

} // verus!

//! What the target asks of the generated code.

use vstd::prelude::*;

verus! {

/// The number of bits in the bitmap that says which voices are live.
pub const BITMAP_BITS: u32 = 32;

/// What the target asks of the generated code.
#[derive(Debug, PartialEq, Eq, Clone, Copy, Structural)]
pub struct TargetProperties {
    /// Whether blocks get a pointer to their part of the user interface.
    pub include_ui: bool,
    /// How many voices a per-voice surface has at most.
    pub capacity: u32,
}

impl TargetProperties {
    pub fn new(include_ui: bool, capacity: u32) -> (r: Self)
        ensures
            r == (TargetProperties { include_ui, capacity }),
    {
        TargetProperties { include_ui, capacity }
    }
}

/// Whether bit `slot` of the bitmap is set: the voice is live.
pub open spec fn is_live(bitmap: u32, slot: u32) -> bool {
    (bitmap >> slot) & 1 == 1
}

/// The bitmap in which the first `capacity` voices are live and no other.
pub open spec fn all_slots_spec(capacity: u32) -> u32 {
    if capacity >= 32 {
        0xffff_ffffu32
    } else {
        ((1u32 << capacity) - 1) as u32
    }
}

/// The bitmap in which the first `capacity` voices are live and no other.
#[verifier::when_used_as_spec(all_slots_spec)]
pub fn all_slots(capacity: u32) -> (r: u32)
    requires
        capacity <= BITMAP_BITS,
    ensures
        r == all_slots_spec(capacity),
        forall|slot: u32| slot < BITMAP_BITS ==> (#[trigger] is_live(r, slot) <==> slot < capacity),
{
    assert forall|slot: u32| slot < 32 implies (#[trigger] is_live(all_slots_spec(capacity), slot)
        <==> slot < capacity) by {
        lemma_all_slots(capacity, slot);
    }
    if capacity >= 32 {
        0xffff_ffffu32
    } else {
        assert((1u32 << capacity) >= 1) by (bit_vector)
            requires
                capacity < 32,
        ;
        (1u32 << capacity) - 1
    }
}

/// In the bitmap of the first `capacity` voices, those voices are live and
/// no other.
pub proof fn lemma_all_slots(capacity: u32, slot: u32)
    requires
        capacity <= 32,
        slot < 32,
    ensures
        is_live(all_slots_spec(capacity), slot) <==> slot < capacity,
{
    if capacity >= 32 {
        assert((0xffff_ffffu32 >> slot) & 1 == 1) by (bit_vector)
            requires
                slot < 32,
        ;
    } else {
        assert(((((1u32 << capacity) - 1) as u32 >> slot) & 1 == 1) <==> slot < capacity)
            by (bit_vector)
            requires
                capacity < 32,
                slot < 32,
        ;
    }
}

} // verus!

//! NaN-boxed value words as the runtime lays them out: the top 16 bits carry a
//! tag, the low 48 bits a payload.
use vstd::prelude::*;

verus! {

/// Tag of a heap pointer in the top 16 bits.
pub const POINTER_TAG: u64 = 0x7FFD_0000_0000_0000;

/// Mask of the 48-bit payload.
pub const POINTER_MASK: u64 = 0x0000_FFFF_FFFF_FFFF;

/// Mask of the 16-bit tag.
pub const TAG_MASK: u64 = 0xFFFF_0000_0000_0000;

/// The word of `undefined`.
pub const TAG_UNDEFINED: u64 = 0x7FFC_0000_0000_0001;

/// A pointer `ptr` boxed as a pointer-tagged word.
pub open spec fn spec_box_pointer(ptr: i64) -> u64 {
    POINTER_TAG | ((ptr as u64) & POINTER_MASK)
}

/// Boxes `ptr` as a pointer-tagged word: the tag on top, the low 48 bits of
/// `ptr` below.
pub fn box_pointer(ptr: i64) -> (w: u64)
    ensures
        w == spec_box_pointer(ptr),
        w & TAG_MASK == POINTER_TAG,
        w & POINTER_MASK == (ptr as u64) & POINTER_MASK,
{
    let w = POINTER_TAG | ((ptr as u64) & POINTER_MASK);
    proof {
        lemma_box_pointer_parts(ptr);
    }
    w
}

/// A boxed pointer carries the pointer tag and gives back the low 48 bits of
/// the pointer it boxes.
pub proof fn lemma_box_pointer_parts(ptr: i64)
    ensures
        spec_box_pointer(ptr) & TAG_MASK == POINTER_TAG,
        spec_box_pointer(ptr) & POINTER_MASK == (ptr as u64) & POINTER_MASK,
        spec_box_pointer(ptr) >> 48u64 == 0x7FFDu64,
{
    let p = ptr as u64;
    assert((0x7FFD_0000_0000_0000u64 | (p & 0x0000_FFFF_FFFF_FFFFu64)) & 0xFFFF_0000_0000_0000u64
        == 0x7FFD_0000_0000_0000u64) by (bit_vector);
    assert((0x7FFD_0000_0000_0000u64 | (p & 0x0000_FFFF_FFFF_FFFFu64)) & 0x0000_FFFF_FFFF_FFFFu64
        == p & 0x0000_FFFF_FFFF_FFFFu64) by (bit_vector);
    assert((0x7FFD_0000_0000_0000u64 | (p & 0x0000_FFFF_FFFF_FFFFu64)) >> 48u64 == 0x7FFDu64)
        by (bit_vector);
}

/// The word carries the pointer tag.
pub open spec fn spec_is_pointer(bits: u64) -> bool {
    bits >> 48u64 == 0x7FFDu64
}

/// Whether the word carries the pointer tag.
pub fn is_pointer(bits: u64) -> (b: bool)
    ensures
        b == spec_is_pointer(bits),
{
    bits >> 48u64 == 0x7FFDu64
}

/// The 48-bit payload of a word.
pub fn payload(bits: u64) -> (p: u64)
    ensures
        p == bits & POINTER_MASK,
{
    bits & POINTER_MASK
}

/// Whether `Number.<name>` is re-pointed at the global function of the same
/// name: both looked-up words must be pointers and the `Number` constructor's
/// pointer must not be null.
pub fn should_alias_number_static(global_fn_bits: u64, number_ctor_bits: u64) -> (b: bool)
    ensures
        b == (spec_is_pointer(global_fn_bits) && spec_is_pointer(number_ctor_bits)
            && number_ctor_bits & POINTER_MASK != 0),
{
    is_pointer(global_fn_bits) && is_pointer(number_ctor_bits) && payload(number_ctor_bits) != 0
}

} // verus!

//! The NaN-boxed 64-bit value layout shared with the fpga-lisp ISA: a quiet
//! NaN whose bits 28..31 carry a tag and whose remaining payload bits carry
//! a 28-bit fixnum or a 48-bit pointer split into a low and a high part.
use vstd::prelude::*;

verus! {

/// All exponent bits set.
pub const MASK_QNAN: u64 = 0x7FF0_0000_0000_0000;

pub const TAG_FIXNUM: u64 = 0;
pub const TAG_CONS: u64 = 1;
pub const TAG_SYMBOL: u64 = 2;
pub const TAG_NIL: u64 = 3;
pub const TAG_TRUE: u64 = 4;
pub const TAG_PRIMITIVE: u64 = 5;
pub const TAG_STRING: u64 = 6;
pub const TAG_RATIONAL: u64 = 7;
pub const TAG_CLOSURE: u64 = 8;
pub const TAG_MACRO: u64 = 9;
pub const TAG_TCP_CONN: u64 = 10;
pub const TAG_TCP_LIST: u64 = 11;

/// A NaN-boxed value.
#[derive(Debug, Copy, Clone)]
pub struct NanBox(pub u64);

/// The tag a boxed word carries.
pub open spec fn tag_of(bits: u64) -> u64 {
    (bits >> 28u64) & 0xFu64
}

/// The 48-bit pointer a boxed word carries.
pub open spec fn pointer_of(bits: u64) -> u64 {
    (((bits >> 32u64) & 0xF_FFFFu64) << 28u64) | (bits & 0x0FFF_FFFFu64)
}

/// Whether the word is a quiet-NaN box.
pub open spec fn is_boxed(bits: u64) -> bool {
    bits & MASK_QNAN == MASK_QNAN
}

/// The word that packs `ptr` under `tag`.
pub open spec fn packed(tag: u64, ptr: u64) -> u64 {
    MASK_QNAN | (((ptr >> 28u64) & 0x000F_FFFFu64) << 32u64) | (tag << 28u64) | (ptr & 0x0FFF_FFFFu64)
}

impl NanBox {
    /// Packs a 48-bit pointer and a 4-bit tag: the low 28 pointer bits in
    /// bits 0..27, the tag in bits 28..31, the high 20 pointer bits in bits
    /// 32..51, under the quiet-NaN exponent.
    pub fn pack_ptr(tag: u64, ptr: u64) -> (r: u64)
        ensures
            r == packed(tag, ptr),
    {
        let ptr_low = ptr & 0x0FFF_FFFF;
        let ptr_high = (ptr >> 28) & 0x000F_FFFF;
        MASK_QNAN | (ptr_high << 32) | (tag << 28) | ptr_low
    }

    /// The box of the empty list (and of false, which is the empty list).
    pub fn nil() -> (r: NanBox)
        ensures
            r.0 == MASK_QNAN | (TAG_NIL << 28u64),
    {
        NanBox(MASK_QNAN | (TAG_NIL << 28))
    }

    /// The box of truth.
    pub fn truth() -> (r: NanBox)
        ensures
            r.0 == MASK_QNAN | (TAG_TRUE << 28u64),
    {
        NanBox(MASK_QNAN | (TAG_TRUE << 28))
    }

    /// The box of an exact integer: its low 28 bits as a fixnum payload.
    pub fn fixnum(value: i32) -> (r: NanBox)
        ensures
            r.0 == MASK_QNAN | (TAG_FIXNUM << 28u64) | (((value as u32) & 0x0FFF_FFFFu32) as u64),
    {
        let payload = (value as u32) & 0x0FFF_FFFF;
        NanBox(MASK_QNAN | (TAG_FIXNUM << 28) | (payload as u64))
    }
}

/// Packing is undone by reading the fields back: a box under a 4-bit tag
/// keeps the tag and every bit of a 48-bit pointer, and is a quiet NaN.
pub proof fn lemma_pack_roundtrip(tag: u64, ptr: u64)
    requires
        tag < 16,
        ptr < 0x1_0000_0000_0000,
    ensures
        tag_of(packed(tag, ptr)) == tag,
        pointer_of(packed(tag, ptr)) == ptr,
        is_boxed(packed(tag, ptr)),
{
    assert(((MASK_QNAN | (((ptr >> 28u64) & 0x000F_FFFFu64) << 32u64) | (tag << 28u64) | (ptr & 0x0FFF_FFFFu64)) >> 28u64) & 0xFu64 == tag) by (bit_vector)
        requires
            tag < 16,
            MASK_QNAN == 0x7FF0_0000_0000_0000u64;
    assert(((((MASK_QNAN | (((ptr >> 28u64) & 0x000F_FFFFu64) << 32u64) | (tag << 28u64) | (ptr & 0x0FFF_FFFFu64)) >> 32u64) & 0xF_FFFFu64) << 28u64) | ((MASK_QNAN | (((ptr >> 28u64) & 0x000F_FFFFu64) << 32u64) | (tag << 28u64) | (ptr & 0x0FFF_FFFFu64)) & 0x0FFF_FFFFu64) == ptr) by (bit_vector)
        requires
            tag < 16,
            ptr < 0x1_0000_0000_0000u64,
            MASK_QNAN == 0x7FF0_0000_0000_0000u64;
    assert((MASK_QNAN | (((ptr >> 28u64) & 0x000F_FFFFu64) << 32u64) | (tag << 28u64) | (ptr & 0x0FFF_FFFFu64)) & MASK_QNAN == MASK_QNAN) by (bit_vector)
        requires
            MASK_QNAN == 0x7FF0_0000_0000_0000u64;
}

} // verus!

use lib::layout::{NanBox, MASK_QNAN, TAG_NIL, TAG_STRING, TAG_TRUE};

#[test]
fn pointers_split_around_the_tag() {
    let ptr: u64 = 0x0000_ABCD_1234_5678;
    let word = NanBox::pack_ptr(TAG_STRING, ptr);
    assert_eq!(word & MASK_QNAN, MASK_QNAN);
    assert_eq!((word >> 28) & 0xF, TAG_STRING);
    assert_eq!(word & 0x0FFF_FFFF, ptr & 0x0FFF_FFFF);
    assert_eq!((word >> 32) & 0xF_FFFF, (ptr >> 28) & 0xF_FFFF);
    assert_eq!(word, 0x7FFA_BCD1_6234_5678);
}

#[test]
fn immediates_carry_their_tags() {
    assert_eq!(NanBox::nil().0, MASK_QNAN | (TAG_NIL << 28));
    assert_eq!(NanBox::truth().0, MASK_QNAN | (TAG_TRUE << 28));
    assert_eq!(NanBox::fixnum(5).0, MASK_QNAN | 5);
    assert_eq!(NanBox::fixnum(-1).0, MASK_QNAN | 0x0FFF_FFFF);
}

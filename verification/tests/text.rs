use lib::text::string_slice_text;

#[test]
fn slices_count_unicode_scalars_and_clamp() {
    assert_eq!(string_slice_text("привіт", 1, 3), "ри");
    assert_eq!(string_slice_text("abc", 1, 99), "bc");
    assert_eq!(string_slice_text("abc", 5, 9), "");
    assert_eq!(string_slice_text("abc", 2, 1), "");
}

#[test]
fn signed_slices_clamp_to_the_text() {
    assert_eq!(lib::text::string_slice("привіт", 1, 3), "ри");
    assert_eq!(lib::text::string_slice("abc", -5, 2), "ab");
    assert_eq!(lib::text::string_slice("abc", 2, 1), "");
    assert_eq!(lib::text::string_slice("abc", 1, 99), "bc");
    assert_eq!(lib::text::string_slice("abc", 9, 99), "");
}

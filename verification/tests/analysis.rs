use lib::analysis::{offset_to_position, position_to_offset};

#[test]
fn positions_round_trip_at_every_boundary() {
    let source = "(def a 1)\n(car 😀 ї)\r\n\nend";
    for (offset, _) in source.char_indices().chain(std::iter::once((source.len(), ' '))) {
        let (line, character) = offset_to_position(source, offset);
        assert_eq!(position_to_offset(source, line, character), offset, "offset {offset}");
    }
}

#[test]
fn positions_count_utf16_units_and_clamp() {
    let source = "😀x\nab";
    assert_eq!(offset_to_position(source, 4), (0, 2));
    assert_eq!(offset_to_position(source, 2), (0, 0));
    assert_eq!(offset_to_position(source, 6), (1, 0));
    assert_eq!(position_to_offset(source, 0, 1), 4);
    assert_eq!(position_to_offset(source, 0, 99), 5);
    assert_eq!(position_to_offset(source, 7, 0), source.len());
}

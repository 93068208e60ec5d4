use nimby_graph::text::char_is_whitespace;

#[test]
fn white_space_agrees_with_std() {
    for u in 0u32..0x11000 {
        if let Some(c) = char::from_u32(u) {
            assert_eq!(char_is_whitespace(c), c.is_whitespace(), "U+{u:04X}");
        }
    }
    assert!(char_is_whitespace(' '));
    assert!(!char_is_whitespace('7'));
}

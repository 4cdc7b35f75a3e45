use provenance::text::is_whitespace;

#[test]
fn white_space_agrees_with_the_standard_library_on_every_character() {
    for code in 0..=0x10FFFFu32 {
        if let Some(c) = char::from_u32(code) {
            assert_eq!(is_whitespace(c), c.is_whitespace(), "U+{code:04X}");
        }
    }
}

use auto_write::text::chars::{is_ascii_punctuation, is_whitespace, len_utf8, to_ascii_lowercase};

fn all_chars() -> impl Iterator<Item = char> {
    (0u32..=0x10FFFF).filter_map(char::from_u32)
}

#[test]
fn whitespace_agrees_with_std_on_every_character() {
    for c in all_chars() {
        assert_eq!(is_whitespace(c), c.is_whitespace(), "{:?}", c);
    }
}

#[test]
fn punctuation_width_and_lowering_agree_with_std() {
    for c in all_chars() {
        assert_eq!(is_ascii_punctuation(c), c.is_ascii_punctuation(), "{:?}", c);
        assert_eq!(len_utf8(c), c.len_utf8(), "{:?}", c);
        assert_eq!(to_ascii_lowercase(c), c.to_ascii_lowercase(), "{:?}", c);
    }
}

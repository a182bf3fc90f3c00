use lita_tokenizers::tokenizer_core::{
    ESCAPE, ESCAPE_CHAR, ESCAPE_STR, TAG, TAG_CHAR, TAG_STR, TOKEN, TOKEN_CHAR, TOKEN_STR, Tag,
};

#[test]
fn can_be_escaped() {
    fn helper(byte: u8) {
        let s = [ESCAPE, byte];
        assert!(
            std::str::from_utf8(&s).is_ok(),
            "{s:02x?} is not a valid UTF-8 string"
        );
    }
    helper(TOKEN);
    helper(TAG);
    helper(ESCAPE);
}

#[test]
fn delimiter_forms_agree() {
    fn helper(as_byte: u8, as_str: &str, as_char: char) {
        let s = [as_byte];
        let s = std::str::from_utf8(&s);
        assert!(s.is_ok(), "0x{as_byte:02x} is not a valid UTF-8 character");
        assert_eq!(s.unwrap(), as_str);
        assert_eq!(as_byte as char, as_char);
    }
    helper(TOKEN, TOKEN_STR, TOKEN_CHAR);
    helper(TAG, TAG_STR, TAG_CHAR);
    helper(ESCAPE, ESCAPE_STR, ESCAPE_CHAR);
}

#[test]
fn tag_as_str_gives_the_text() {
    assert_eq!(Tag::Escaped("a\\/b").as_str(), "a\\/b");
    assert_eq!(Tag::Unescaped("c").as_str(), "c");
}

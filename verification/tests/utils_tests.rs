use lita_tokenizers::tokenizer_core::{Tag, Token, TokenPosition, TokenStream};
use lita_tokenizers::utils::decode::{decode, Charset};
use lita_tokenizers::utils::noop_tokenizer::{NoopStream, NoopToken, NoopTokenizer};
use lita_tokenizers::utils::str_utils::{ends_with_eos_marker, matches_eos_marker};
use lita_tokenizers::utils::write::tag::{normalize_tag, NormalizedTag};
use lita_tokenizers::utils::walk::{DirWalk, EntryKind, WalkAction, WalkEvent};
use lita_tokenizers::utils::write::token_chars::{normalize_token, normalize_token_stream};

#[test]
fn noop_tokenizer() {
    fn test_impl(input: &str, expected: Vec<(&'static str, Vec<&'static str>)>) {
        let stream = NoopTokenizer.tokenize(input);
        let tokens = stream.tokens();

        let found = tokens
            .into_iter()
            .map(|(pos, token)| {
                let Tag::Unescaped(surface) = token.surface() else {
                    unreachable!();
                };
                let surface = match pos {
                    TokenPosition::Normal => format!("{surface}|n"),
                    TokenPosition::Eos => format!("{surface}|e"),
                };
                let tags = token
                    .tags()
                    .into_iter()
                    .map(|tag| {
                        let Tag::Unescaped(tag) = tag else {
                            unreachable!();
                        };
                        tag.to_owned()
                    })
                    .collect::<Vec<_>>();
                (surface, tags)
            })
            .collect::<Vec<_>>();

        let expected = expected
            .into_iter()
            .map(|(surface, tags)| {
                (
                    surface.to_owned(),
                    tags.into_iter().map(String::from).collect::<Vec<_>>(),
                )
            })
            .collect::<Vec<_>>();

        assert_eq!(found, expected);
    }

    test_impl("", vec![("|e", vec![])]);
    test_impl("abc", vec![("abc|e", vec![])]);
    test_impl("abc.", vec![("abc.|e", vec![])]);

    test_impl(
        "abc\tdef.\tghi.\tjkl\tmno\tpqr\tstu.\twxy\tz",
        vec![
            ("abc|n", vec![]),
            ("def.|e", vec![]),
            ("ghi.|e", vec![]),
            ("jkl|n", vec![]),
            ("mno|n", vec![]),
            ("pqr|n", vec![]),
            ("stu.|e", vec![]),
            ("wxy|n", vec![]),
            ("z|e", vec![]),
        ],
    );
    test_impl(
        "abc\tdef\t\t\tghi\t\t",
        vec![
            ("abc|n", vec![]),
            ("def|n", vec![]),
            ("|n", vec![]),
            ("|n", vec![]),
            ("ghi|n", vec![]),
            ("|n", vec![]),
            ("|e", vec![]),
        ],
    );

    test_impl("abc/tag", vec![("abc|e", vec!["tag"])]);
    test_impl("abc/tag1/tag2/tag3", vec![("abc|e", vec!["tag1", "tag2", "tag3"])]);
    test_impl("abc/tag/", vec![("abc|e", vec!["tag", ""])]);
    test_impl("abc/tag////", vec![("abc|e", vec!["tag", "", "", "", ""])]);
    test_impl("abc/tag///another", vec![("abc|e", vec!["tag", "", "", "another"])]);
    test_impl("/", vec![("|e", vec![""])]);
    test_impl("/tag", vec![("|e", vec!["tag"])]);
    test_impl("/tag", vec![("|e", vec!["tag"])]);

    test_impl("abc\t/tag", vec![("abc|n", vec![]), ("|e", vec!["tag"])]);
    test_impl("abc/tag1\t/tag2", vec![("abc|n", vec!["tag1"]), ("|e", vec!["tag2"])]);
    test_impl(
        "abc/tag1//\t/tag2",
        vec![("abc|n", vec!["tag1", "", ""]), ("|e", vec!["tag2"])],
    );

    test_impl(
        "abc/tag\tdef/tag2-1/tag2-2\tghi\tjkl/tag",
        vec![
            ("abc|n", vec!["tag"]),
            ("def|n", vec!["tag2-1", "tag2-2"]),
            ("ghi|n", vec![]),
            ("jkl|e", vec!["tag"]),
        ],
    );
}

#[test]
fn normalize_tag_escaped() {
    fn eq(test: &str, expected: &str) {
        let test_to_string = NormalizedTag::new(Tag::Escaped(test)).to_string();
        assert_eq!(test_to_string, expected);

        let test_collect = NormalizedTag::new(Tag::Escaped(test))
            .chars()
            .into_iter()
            .collect::<String>();
        assert_eq!(test_collect, expected);
    }

    eq("", "");
    eq("abc", "abc");
    eq("ａｂｃ", "abc");
    eq("あいう", "あいう");

    eq("\\\\", "\\");
    eq("\\\\\\\\", "\\\\");
    eq("\\\t", "␣");
    eq("\\/", "╱");

    eq("ａｂ\\/ｃ\\\t\\\tｄ ｅ　ｆ\\/ｇｈｉ\n", "ab╱c␣␣d␣e␣f╱ghi␣");
}

#[test]
fn normalize_tag_unescaped() {
    fn eq(test: &str, expected: &str) {
        let test_to_string = NormalizedTag::new(Tag::Unescaped(test)).to_string();
        assert_eq!(test_to_string, expected);

        let test_collect = NormalizedTag::new(Tag::Unescaped(test))
            .chars()
            .into_iter()
            .collect::<String>();
        assert_eq!(test_collect, expected);
    }

    eq("", "");
    eq("abc", "abc");
    eq("ａｂｃ", "abc");
    eq("あいう", "あいう");

    eq("\\", "\\");
    eq("\\\\", "\\\\");
    eq("\t", "␣");
    eq("\\\t", "\\␣");
    eq("/", "╱");

    eq("ａｂ/ｃ\t\tｄ ｅ　ｆ/ｇｈｉ\n", "ab╱c␣␣d␣e␣f╱ghi␣");
}

#[test]
fn fused() {
    fn test_impl_escaped(s: &str) {
        let tag = normalize_tag(Tag::Escaped(s));
        let mut it = tag.chars().into_iter();
        for _ in &mut it {}
        assert_eq!(it.next(), Option::<char>::None);
        assert_eq!(it.next(), Option::<char>::None);
        assert_eq!(it.next(), Option::<char>::None);
        assert_eq!(it.next(), Option::<char>::None);
    }
    fn test_impl_unescaped(s: &str) {
        let tag = normalize_tag(Tag::Unescaped(s));
        let mut it = tag.chars().into_iter();
        for _ in &mut it {}
        assert_eq!(it.next(), Option::<char>::None);
        assert_eq!(it.next(), Option::<char>::None);
        assert_eq!(it.next(), Option::<char>::None);
        assert_eq!(it.next(), Option::<char>::None);
    }

    test_impl_escaped("");
    test_impl_escaped("abc");
    test_impl_escaped("ａｂｃ");
    test_impl_escaped("あいう");
    test_impl_escaped("\\\\");
    test_impl_escaped("\\\t");
    test_impl_escaped("\\/");
    test_impl_escaped("ａｂ\\/ｃ\\\t\\\tｄ ｅ　ｆ\\/ｇｈｉ\n");

    test_impl_unescaped("");
    test_impl_unescaped("abc");
    test_impl_unescaped("ａｂｃ");
    test_impl_unescaped("あいう");
    test_impl_unescaped("\\");
    test_impl_unescaped("\\\\");
    test_impl_unescaped("\t");
    test_impl_unescaped("\\\t");
    test_impl_unescaped("/");
    test_impl_unescaped("ａｂ/ｃ\t\tｄ ｅ　ｆ/ｇｈｉ\n");
}

#[test]
fn token_stream() {
    fn eq(test: &str, expected: &str) {
        let test_to_string = normalize_token_stream(NoopTokenizer.tokenize(test)).to_string();
        assert_eq!(test_to_string, expected);

        let test_collect = normalize_token_stream(NoopTokenizer.tokenize(test))
            .chars()
            .into_iter()
            .collect::<String>();
        assert_eq!(test_collect, expected);
    }

    eq("", "\n");
    eq("abc", "abc\n");
    eq("abc\tdef\tghi", "abc\tdef\tghi\n");
    eq("ａｂｃ\tｄ ｅ　ｆ\tｇｈｉ", "abc\td␣e␣f\tghi\n");
    eq("\tabc\tdef\t\t\t", "\tabc\tdef\t\t\t\n");

    eq("abc/tag", "abc/tag\n");
    eq("abc/tag1/tag2/tag3", "abc/tag1/tag2/tag3\n");
    eq(
        "abc/tag\tdef\tghi/tag1/tag2\tjkl",
        "abc/tag\tdef\tghi/tag1/tag2\tjkl\n",
    );
    eq("abc/tag1///tag2/", "abc/tag1///tag2/\n");

    eq("/tag", "/tag\n");
    eq("/tag1/tag2/tag3", "/tag1/tag2/tag3\n");
}

#[test]
fn normalized_token_examples() {
    let token = NoopToken {
        surface: "ａｂｃ　ｄｅｆ",
        tags: Some("tag1/tag2"),
    };
    assert_eq!(normalize_token(token).to_string(), "abc␣def/tag1/tag2");

    let token = NoopToken {
        surface: "abc",
        tags: None,
    };
    assert_eq!(normalize_token(token).to_string(), "abc");

    let token = NoopToken {
        surface: "abc",
        tags: Some("tag1"),
    };
    assert_eq!(normalize_token(token).to_string(), "abc/tag1");

    let token = NoopToken {
        surface: "ａｂｃ　ｄｅｆ",
        tags: Some("tag1/tag2"),
    };
    assert_eq!(
        normalize_token(token).chars().into_iter().collect::<String>(),
        "abc␣def/tag1/tag2"
    );
}

#[test]
fn normalized_stream_examples() {
    let stream = NoopStream { input: "ａｂｃ　ｄｅｆ/tag1/tag2" };
    assert_eq!(normalize_token_stream(stream).to_string(), "abc␣def/tag1/tag2\n");

    let stream = NoopStream { input: "token1/tag1" };
    assert_eq!(normalize_token_stream(stream).to_string(), "token1/tag1\n");

    let stream = NoopStream { input: "token1/tag1\ttoken2/tag2\ttoken3/tag3" };
    assert_eq!(
        normalize_token_stream(stream).to_string(),
        "token1/tag1\ttoken2/tag2\ttoken3/tag3\n"
    );
}

#[test]
fn written_text_holds_no_delimiter() {
    let out = NormalizedTag::new(Tag::Unescaped("a/b\tc\nd\u{3000}e")).to_string();
    assert_eq!(out, "a╱b␣c␣d␣e");
    assert!(!out.contains('/') && !out.contains('\t') && !out.contains('\n'));
}

#[test]
fn written_stream_reads_back_on_concrete_input() {
    let out = normalize_token_stream(NoopTokenizer.tokenize("a/x y\tb.\tc")).to_string();
    assert_eq!(out, "a/x␣y\tb.\nc\n");
    let mut read = Vec::new();
    let mut cur = String::new();
    for ch in out.chars() {
        if ch == '\t' || ch == '\n' {
            read.push((ch == '\n', cur.clone()));
            cur.clear();
        } else {
            cur.push(ch);
        }
    }
    assert_eq!(
        read,
        vec![(false, "a/x␣y".to_owned()), (true, "b.".to_owned()), (true, "c".to_owned())]
    );
}

#[test]
fn eos_markers() {
    assert!(ends_with_eos_marker("abc."));
    assert!(ends_with_eos_marker("本当？"));
    assert!(ends_with_eos_marker("終わり。"));
    assert!(!ends_with_eos_marker("abc"));
    assert!(!ends_with_eos_marker(""));
    assert!(matches_eos_marker("。"));
    assert!(matches_eos_marker("‼"));
    assert!(!matches_eos_marker(".."));
    assert!(!matches_eos_marker("a"));
}

#[test]
fn decode_examples() {
    let utf8_bytes = "春はあけぼの。";
    assert!(decode(utf8_bytes.as_bytes(), Charset::Utf8).is_ok_and(|s| s == utf8_bytes));

    let shift_jis_bytes: &[u8] =
        &[0x8F, 0x74, 0x82, 0xCD, 0x82, 0xA0, 0x82, 0xAF, 0x82, 0xDA, 0x82, 0xCC, 0x81, 0x42];
    assert!(decode(shift_jis_bytes, Charset::ShiftJis).is_ok_and(|s| s == utf8_bytes));

    let euc_jp_bytes: &[u8] =
        &[0xBD, 0xD5, 0xA4, 0xCF, 0xA4, 0xA2, 0xA4, 0xB1, 0xA4, 0xDC, 0xA4, 0xCE, 0xA1, 0xA3];
    assert!(decode(euc_jp_bytes, Charset::EucJp).is_ok_and(|s| s == utf8_bytes));

    let utf16_be_bytes: &[u8] =
        &[0x66, 0x25, 0x30, 0x6F, 0x30, 0x42, 0x30, 0x51, 0x30, 0x7C, 0x30, 0x6E, 0x30, 0x02];
    assert!(decode(utf16_be_bytes, Charset::Utf16Be).is_ok_and(|s| s == utf8_bytes));

    let utf16_be_bytes_bom: &[u8] = &[
        0xfe, 0xff, 0x66, 0x25, 0x30, 0x6F, 0x30, 0x42, 0x30, 0x51, 0x30, 0x7C, 0x30, 0x6E, 0x30,
        0x02,
    ];
    assert!(decode(utf16_be_bytes_bom, Charset::Utf16Be).is_ok_and(|s| s == utf8_bytes));

    let utf16_le_bytes: &[u8] =
        &[0x25, 0x66, 0x6F, 0x30, 0x42, 0x30, 0x51, 0x30, 0x7C, 0x30, 0x6E, 0x30, 0x02, 0x30];
    assert!(decode(utf16_le_bytes, Charset::Utf16Le).is_ok_and(|s| s == utf8_bytes));

    let utf16_le_bytes_bom: &[u8] = &[
        0xff, 0xfe, 0x25, 0x66, 0x6F, 0x30, 0x42, 0x30, 0x51, 0x30, 0x7C, 0x30, 0x6E, 0x30, 0x02,
        0x30,
    ];
    assert!(decode(utf16_le_bytes_bom, Charset::Utf16Le).is_ok_and(|s| s == utf8_bytes));

    assert!(decode(utf8_bytes.as_bytes(), Charset::Dynamic).is_ok_and(|s| s == utf8_bytes));
    assert!(decode(shift_jis_bytes, Charset::Dynamic).is_ok_and(|s| s == "春はあけぼの。"));
    assert!(decode(euc_jp_bytes, Charset::ShiftJis).is_ok_and(|s| s == "ｽﾕ､ﾏ､｢､ｱ､ﾜ､ﾎ｡｣"));
    assert!(decode(euc_jp_bytes, Charset::Dynamic).is_ok_and(|s| s == "ｽﾕ､ﾏ､｢､ｱ､ﾜ､ﾎ｡｣"));
}

#[test]
fn decode_byte_order_marks() {
    let with_bom: &[u8] = &[0xef, 0xbb, 0xbf, b'a', b'b'];
    assert_eq!(decode(with_bom, Charset::Utf8).ok().unwrap(), "ab");
    assert_eq!(decode(with_bom, Charset::Dynamic).ok().unwrap(), "\u{feff}ab");
    assert_eq!(decode(&[0xff, 0xfe, 0x41, 0x00], Charset::Utf16Le).ok().unwrap(), "A");
    assert_eq!(decode(&[0xff, 0xfe, 0x41, 0x00], Charset::Utf16Be).ok().unwrap(), "\u{fffe}\u{4100}");
    assert_eq!(decode(b"\xff", Charset::Utf8).ok().unwrap(), "\u{fffd}");
}

#[test]
fn decode_unknown_encoding() {
    let err = decode(&[0xff, 0xff, 0xff], Charset::Dynamic);
    assert!(err.is_err());
    if let Err(e) = err {
        assert_eq!(
            e.to_string(),
            "unknown character encoding (acceptable encodings: UTF-8, UTF-16 BE/LE, SHIFT-JIS, EUC-JP)"
        );
    }
}

#[test]
fn charset_default_is_utf8() {
    assert_eq!(Charset::default(), Charset::Utf8);
}

#[test]
fn escaped_tag_normalizes_as_its_unescaped_form() {
    let pairs = [
        ("ａｂ\\/ｃ\\\tｄ", "ａｂ/ｃ\tｄ"),
        ("\\\\x\\/", "\\x/"),
        ("plain", "plain"),
        ("", ""),
    ];
    for (escaped, unescaped) in pairs {
        assert_eq!(
            normalize_tag(Tag::Escaped(escaped)).to_string(),
            normalize_tag(Tag::Unescaped(unescaped)).to_string()
        );
    }
    assert_eq!(normalize_tag(Tag::Escaped("ａｂ\\/ｃ")).to_string(), "ab╱c");
}

#[test]
fn walk_mirrors_a_tree() {
    // input/{a.txt, sub/{b.txt, sub2/{}}, fifo}
    let events = [
        WalkEvent::Entry(EntryKind::File),
        WalkEvent::Entry(EntryKind::Dir),
        WalkEvent::Entry(EntryKind::File),
        WalkEvent::Entry(EntryKind::Dir),
        WalkEvent::DirEnd,
        WalkEvent::DirEnd,
        WalkEvent::Entry(EntryKind::Other),
        WalkEvent::DirEnd,
    ];
    let expected = [
        WalkAction::Tokenize,
        WalkAction::Descend,
        WalkAction::Tokenize,
        WalkAction::Descend,
        WalkAction::Ascend,
        WalkAction::Ascend,
        WalkAction::Skip,
        WalkAction::Finish,
    ];
    let mut walk = DirWalk::new();
    for (event, action) in events.into_iter().zip(expected) {
        assert!(!walk.is_done());
        assert_eq!(walk.on_event(event), action);
    }
    assert!(walk.is_done());
}

use lita_tokenizers::kytea::sys::{CorpusFormat, DebugLevel, TrainConfigError};
use lita_tokenizers::kytea::tags::{Noop as KyTeaNoop, Selected as KyTeaSelected};
use lita_tokenizers::kytea::tokenizer::{prepare_input, Error as KyTeaError, KyTeaStreamBuilder, KyTeaToken};
use lita_tokenizers::mecab::node::{
    BoundaryConstraintType, LcAttr, Lattice, NodeData, NodeKind, RcAttr, RequestType,
};
use lita_tokenizers::mecab::tokenizer::{MeCabStream, Noop as MeCabNoop, Selected as MeCabSelected};
use lita_tokenizers::tokenizer_core::{Tag, Token, TokenPosition, TokenStream};
use lita_tokenizers::utils::write::token_chars::normalize_token_stream;
use lita_tokenizers::whitespace::{trim, Whitespace, WhitespaceToken};

fn render<'o, T: Token<'o>>(tokens: Vec<(TokenPosition, T)>) -> Vec<String> {
    tokens
        .into_iter()
        .map(|(pos, tok)| {
            let mut s = tok.surface().as_str().to_owned();
            for tag in tok.tags() {
                s.push('|');
                s.push_str(tag.as_str());
            }
            match pos {
                TokenPosition::Normal => s.push_str(" n"),
                TokenPosition::Eos => s.push_str(" e"),
            }
            s
        })
        .collect()
}

#[test]
fn whitespace_tokens_and_sentences() {
    let mut ws = Whitespace;
    let stream = ws.tokenize("  The quick/ADJ brown fox.  jumps\n\n  over the/DET/x lazy dog \n");
    assert_eq!(
        render(stream.tokens()),
        vec![
            "The n", "quick|ADJ n", "brown n", "fox. e", "jumps e", "over n", "the|DET|x n",
            "lazy n", "dog e",
        ]
    );
}

#[test]
fn whitespace_empty_and_blank() {
    let mut ws = Whitespace;
    assert!(ws.tokenize("").tokens().is_empty());
    assert!(ws.tokenize(" \t\n\u{3000}\n").tokens().is_empty());
    assert_eq!(render(ws.tokenize("a/").tokens()), vec!["a| e"]);
}

#[test]
fn whitespace_output_is_normalized() {
    let mut ws = Whitespace;
    let out = normalize_token_stream(ws.tokenize("ａｂｃ de/f\nｇ")).to_string();
    assert_eq!(out, "abc\tde/f\ng\n");
}

#[test]
fn whitespace_trim_and_token_split() {
    assert_eq!(trim("\u{3000} a b \n"), "a b");
    assert_eq!(trim("   "), "");
    let t = WhitespaceToken::from_token("x/y/z");
    assert_eq!(t.surface().as_str(), "x");
    assert_eq!(t.tags().iter().map(|t| t.as_str()).collect::<Vec<_>>(), vec!["y", "z"]);
    let t = WhitespaceToken::from_token("plain");
    assert!(t.tags().is_empty());
}

#[test]
fn kytea_reads_output_lines() {
    let ord = KyTeaNoop;
    let builder = KyTeaStreamBuilder::new(&ord);
    let output = "すもも/名詞/すもも\tも/助詞/も\tもも/名詞/もも\n\n  \r\nうち/名詞/うち\t．/補助記号/。\r\n".as_bytes();
    let stream = builder.from_output(output).ok().unwrap();
    assert_eq!(
        render(stream.tokens()),
        vec![
            "すもも|名詞|すもも n",
            "も|助詞|も n",
            "もも|名詞|もも e",
            "うち|名詞|うち n",
            "．|補助記号|。 e",
        ]
    );
}

#[test]
fn kytea_escapes_and_eos_marks() {
    let ord = KyTeaNoop;
    let builder = KyTeaStreamBuilder::new(&ord);
    let output = b"a\\/b/x\\\\/y\t!/sym\tc\\\td/z\n";
    let stream = builder.from_output(output).ok().unwrap();
    let tokens = stream.tokens();
    assert_eq!(render(tokens), vec!["a\\/b|x\\\\|y n", "!|sym e", "c\\\td|z e"]);
    let tokens = stream.tokens();
    assert!(matches!(tokens[0].1.surface(), Tag::Escaped("a\\/b")));
}

#[test]
fn kytea_selected_tags() {
    let index = [2usize, 1, 0, 1, 0, 0, 2];
    let ord = KyTeaSelected { index: &index };
    let builder = KyTeaStreamBuilder::new(&ord);
    let stream = builder.from_output(b"surface/tag1/tag2/tag3\n").ok().unwrap();
    assert_eq!(
        render(stream.tokens()),
        vec!["surface|tag3|tag2|tag1|tag2|tag1|tag1|tag3 e"]
    );

    let index = [3usize, 0, 3];
    let ord = KyTeaSelected { index: &index };
    let builder = KyTeaStreamBuilder::new(&ord);
    let stream = builder.from_output(b"surface/tag1/tag2/tag3\n").ok().unwrap();
    assert_eq!(render(stream.tokens()), vec!["surface||tag1| e"]);

    let index: [usize; 0] = [];
    let ord = KyTeaSelected { index: &index };
    let builder = KyTeaStreamBuilder::new(&ord);
    let stream = builder.from_output(b"surface/tag1\n").ok().unwrap();
    assert_eq!(render(stream.tokens()), vec!["surface e"]);

    let index = [1usize, 0];
    let ord = KyTeaSelected { index: &index };
    let token = KyTeaToken::from_token("bare", &ord);
    assert_eq!(token.tags().iter().map(|t| t.as_str()).collect::<Vec<_>>(), vec!["", ""]);
}

#[test]
fn kytea_invalid_output() {
    let ord = KyTeaNoop;
    let builder = KyTeaStreamBuilder::new(&ord);
    let err = builder.from_output(b"ab\xffcd").err().unwrap();
    match &err {
        KyTeaError::InvalidUtf8Output(s) => assert_eq!(s, "ab\u{fffd}cd"),
        _ => panic!("unexpected error"),
    }
    assert_eq!(err.to_string(), "output is invalid UTF-8: \"ab\u{fffd}cd\"");
    assert_eq!(
        KyTeaError::InvalidConfig(TrainConfigError::DoNothing).to_string(),
        "invalid config: neither word segmentation nor tag prediction are enabled"
    );
}

#[test]
fn kytea_settings() {
    assert_eq!(prepare_input("すもも"), "すもも\n");
    assert_eq!(prepare_input("a\n"), "a\n");
    assert_eq!(prepare_input(""), "\n");
    assert_eq!(TrainConfigError::from_sanity_code(0), None);
    assert_eq!(TrainConfigError::from_sanity_code(1), Some(TrainConfigError::DoNothing));
    assert_eq!(
        TrainConfigError::from_sanity_code(2),
        Some(TrainConfigError::RawWithoutWordSegmentation)
    );
    assert_eq!(
        TrainConfigError::from_sanity_code(3),
        Some(TrainConfigError::NoWordSegmentationModel)
    );
    assert_eq!(DebugLevel::Silent.raw_level(), 0);
    assert_eq!(DebugLevel::Full.raw_level(), 3);
    assert_eq!(CorpusFormat::Eda.raw_format(), 6);
    assert!(CorpusFormat::Tok.disables_word_segmentation());
    assert!(!CorpusFormat::Raw.disables_word_segmentation());
}

fn node(surface: &str, feature: &str, stat: u8) -> NodeData {
    NodeData {
        surface: surface.to_owned(),
        feature: feature.to_owned(),
        stat,
        id: 0,
        lc_attr: LcAttr::from_raw(0),
        rc_attr: RcAttr::from_raw(0),
        pos_id: 0,
        char_type: 0,
        is_best: true,
        wcost: 0,
        cost: 0,
    }
}

fn sumomo() -> Lattice {
    Lattice::from_nodes(vec![
        node("", "BOS/EOS,*,*,*,*,*,*,*,*", 2),
        node("すもも", "名詞,一般,*,*,*,*,すもも,スモモ,スモモ", 0),
        node("も", "助詞,係助詞,*,*,*,*,も,モ,モ", 0),
        node("もも", "名詞,一般,*,*,*,*,もも,モモ,モモ", 0),
        node("。", "記号,句点,*,*,*,*,。,。,。", 0),
        node("の", "助詞,連体化,*,*,*,*,の,ノ,ノ", 0),
        node("うち", "名詞,非自立,副詞可能,*,*,*,うち,ウチ,ウチ", 0),
        node("", "BOS/EOS,*,*,*,*,*,*,*,*", 3),
    ])
}

#[test]
fn mecab_reads_lattice() {
    let lattice = sumomo();
    let ord = MeCabNoop;
    let stream = MeCabStream::new(&lattice, &ord);
    let tokens = render(stream.tokens());
    assert_eq!(tokens[0], "すもも|名詞|一般|*|*|*|*|すもも|スモモ|スモモ n");
    assert_eq!(tokens[3], "。|記号|句点|*|*|*|*|。|。|。 e");
    assert_eq!(tokens[5], "うち|名詞|非自立|副詞可能|*|*|*|うち|ウチ|ウチ e");
    assert_eq!(tokens.len(), 6);
}

#[test]
fn mecab_selected_features() {
    let lattice = sumomo();
    let index = [0usize, 6, 20, 1, 0];
    let ord = MeCabSelected { index: &index };
    let stream = MeCabStream::new(&lattice, &ord);
    let tokens = render(stream.tokens());
    assert_eq!(tokens[0], "すもも|名詞|すもも||一般|名詞 n");
    assert_eq!(tokens[1], "も|助詞|も||係助詞|助詞 n");
}

#[test]
fn mecab_cursor_walks_and_dies() {
    let lattice = sumomo();
    let mut cursor = lattice.bos_node();
    assert!(cursor.curr().is_some_and(|node| node.kind().is_bos()));
    cursor.move_next();
    cursor.move_next();
    assert_eq!(cursor.curr().map(|n| n.surface()), Some("も"));
    cursor.move_prev();
    assert_eq!(cursor.curr().map(|n| n.surface()), Some("すもも"));
    while cursor.curr().is_some_and(|node| !node.kind().is_eos()) {
        cursor.move_next();
    }
    assert!(cursor.curr().is_some_and(|node| node.kind().is_eos()));
    cursor.move_next();
    assert!(cursor.curr().is_none());
    cursor.move_prev();
    assert!(cursor.curr().is_none());

    let mut cursor = lattice.bos_node();
    cursor.move_prev();
    assert!(cursor.curr().is_none());
    cursor.move_next();
    assert!(cursor.curr().is_none());

    let mut cursor = lattice.bos_node();
    while cursor.next().is_some() {}
    assert!(cursor.curr().is_none());
    cursor.move_prev();
    assert!(cursor.curr().is_none());
}

#[test]
fn mecab_raw_values() {
    assert_eq!(NodeKind::from_stat(2), NodeKind::Bos);
    assert_eq!(NodeKind::from_stat(3), NodeKind::Eos);
    assert_eq!(NodeKind::from_stat(1), NodeKind::Unk);
    assert_eq!(NodeKind::from_stat(4), NodeKind::EoNbest);
    assert_eq!(NodeKind::from_stat(0), NodeKind::Normal);
    assert_eq!(LcAttr::from_raw(7).to_raw(), 7);
    assert_eq!(RcAttr::from_raw(9).to_raw(), 9);
    assert_eq!(RequestType::default().bits(), 1);
    assert_eq!(RequestType::from_raw(0x1ff).bits(), 0x7f);
    assert_eq!(RequestType::from_raw(6).as_raw(), 6);
    for c in [
        BoundaryConstraintType::Any,
        BoundaryConstraintType::Token,
        BoundaryConstraintType::InsideToken,
    ] {
        assert_eq!(BoundaryConstraintType::from_raw(c.as_raw()), c);
    }
    assert_eq!(BoundaryConstraintType::from_raw(5), BoundaryConstraintType::Any);
}

/// The lattice that MeCab builds for "すもももももももものうち" with the test dictionary.
fn sumomo_parsed() -> Lattice {
    Lattice::from_nodes(vec![
        node("", "BOS/EOS,*,*,*,*,*,*,*,*", 2),
        node("すもも", "名詞,一般,*,*,*,*,すもも,スモモ,スモモ", 0),
        node("も", "助詞,係助詞,*,*,*,*,も,モ,モ", 0),
        node("もも", "名詞,一般,*,*,*,*,もも,モモ,モモ", 0),
        node("も", "助詞,係助詞,*,*,*,*,も,モ,モ", 0),
        node("もも", "名詞,一般,*,*,*,*,もも,モモ,モモ", 0),
        node("の", "助詞,連体化,*,*,*,*,の,ノ,ノ", 0),
        node("うち", "名詞,非自立,副詞可能,*,*,*,うち,ウチ,ウチ", 0),
        node("", "BOS/EOS,*,*,*,*,*,*,*,*", 3),
    ])
}

#[test]
fn predict_predict() {
    let lattice = sumomo_parsed();

    let mut ret = String::new();
    let mut cursor = lattice.bos_node();
    while let Some(node) = cursor.next() {
        let surface = node.surface();
        let feat = node.feature();
        ret.push_str(&format!("{surface}: {feat}\n"));
    }

    let mut expected = [
        ": BOS/EOS,*,*,*,*,*,*,*,*",
        "すもも: 名詞,一般,*,*,*,*,すもも,スモモ,スモモ",
        "も: 助詞,係助詞,*,*,*,*,も,モ,モ",
        "もも: 名詞,一般,*,*,*,*,もも,モモ,モモ",
        "も: 助詞,係助詞,*,*,*,*,も,モ,モ",
        "もも: 名詞,一般,*,*,*,*,もも,モモ,モモ",
        "の: 助詞,連体化,*,*,*,*,の,ノ,ノ",
        "うち: 名詞,非自立,副詞可能,*,*,*,うち,ウチ,ウチ",
        ": BOS/EOS,*,*,*,*,*,*,*,*",
    ]
    .join("\n");
    expected.push('\n');
    assert_eq!(ret, expected);
}

#[test]
fn cursor() {
    let lattice = sumomo_parsed();

    let mut cursor = lattice.bos_node();
    assert!(cursor.curr().is_some_and(|node| node.kind().is_bos()));

    cursor.move_next();
    let first_node = cursor.curr().unwrap();
    assert_eq!(first_node.surface(), "すもも");

    cursor.move_prev();
    assert!(cursor.curr().is_some_and(|node| node.kind().is_bos()));

    cursor.move_next();
    assert_eq!(first_node.surface(), cursor.curr().unwrap().surface());

    cursor.move_next();
    cursor.move_next();
    cursor.move_next();
    cursor.move_next();
    cursor.move_next();
    cursor.move_next();
    assert_eq!(cursor.curr().unwrap().surface(), "うち");

    cursor.move_next();
    assert!(cursor.curr().is_some_and(|node| node.kind().is_eos()));

    cursor.move_next();
    assert!(cursor.curr().is_none());

    cursor.move_prev();
    assert!(cursor.curr().is_none());

    let mut cursor = lattice.bos_node();
    while cursor.curr().is_some_and(|node| !node.kind().is_eos()) {
        cursor.move_next();
    }
    assert!(cursor.curr().is_some_and(|node| node.kind().is_eos()));

    cursor.move_next();
    assert!(cursor.curr().is_none());
    cursor.move_prev();
    assert!(cursor.curr().is_none());

    let mut cursor = lattice.bos_node();
    assert!(cursor.curr().is_some_and(|node| node.kind().is_bos()));
    cursor.move_prev();
    assert!(cursor.curr().is_none());
    cursor.move_next();
    assert!(cursor.curr().is_none());

    let mut cursor = lattice.bos_node();
    while cursor.next().is_some() {}
    assert!(cursor.curr().is_none());
    cursor.move_prev();
    assert!(cursor.curr().is_none());
}

#[test]
fn mecab_tokens_stay_finished() {
    let lattice = sumomo_parsed();
    let ord = MeCabNoop;
    let stream = MeCabStream::new(&lattice, &ord);
    let mut it = stream.iter();
    let mut n = 0;
    while it.next().is_some() {
        n += 1;
    }
    assert_eq!(n, 7);
    assert!(it.next().is_none());
    assert!(it.next().is_none());
}

#[test]
fn whitespace_words_by_lines() {
    let input = "  a b.\n\n c/x  d \r\n e";
    let tokens = render(Whitespace.tokenize(input).tokens());
    assert_eq!(tokens, vec!["a n", "b. e", "c|x n", "d e", "e e"]);
    let words: Vec<&str> = input.split_whitespace().collect();
    assert_eq!(words, vec!["a", "b.", "c/x", "d", "e"]);
}

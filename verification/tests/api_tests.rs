use lita_tokenizers::api::common::{c_string, route, Input, NulError, Output, Route};
use lita_tokenizers::api::kytea::{model_path, TagIndex as KyTeaTagIndex};
use lita_tokenizers::api::mecab::{ModelPath, TagIndex as MeCabTagIndex};
use lita_tokenizers::cli::{
    ascii_eq_ignore_case, kytea_tag_index, mecab_tag_index, output_to_api, parse_usize, Charset,
    Indices, Input as CliInput,
};
use lita_tokenizers::api::error::Error as ApiError;
use lita_tokenizers::mecab::node::Error as MeCabError;
use lita_tokenizers::utils::decode;
use lita_tokenizers::utils::fs::FsError;

#[test]
fn routes_between_inputs_and_outputs() {
    assert!(matches!(route(&Input::Stdin, &Output::Stdout), Route::StdinToStdout));
    assert!(matches!(route(&Input::Path("in"), &Output::Stdout), Route::FileToStdout("in")));
    assert!(matches!(route(&Input::Stdin, &Output::Path("out")), Route::StdinToFile("out")));
    let owned = Input::PathOwned("dir".to_owned());
    assert!(matches!(route(&owned, &Output::Path("o")), Route::PathToPath("dir", "o")));
}

#[test]
fn c_strings() {
    assert_eq!(c_string(b"abc").ok().unwrap(), b"abc\0".to_vec());
    assert_eq!(c_string(b"a\0b\0").err().unwrap(), NulError { position: 1 });
    assert_eq!(model_path(b"/model").ok().unwrap(), b"/model\0".to_vec());
    assert!(model_path(b"/mo\0del").is_err());
    let mp = ModelPath { dict: b"/dict", rc: b"/rc" };
    assert_eq!(mp.cli_arg().ok().unwrap(), b"-d /dict -r /rc\0".to_vec());
    let bad = ModelPath { dict: b"/di\0ct", rc: b"/rc" };
    assert!(bad.cli_arg().is_err());
}

#[test]
fn charset_arguments() {
    assert_eq!(Charset::from_arg("utf8"), Charset::Utf8);
    assert_eq!(Charset::from_arg("UTF-8"), Charset::Utf8);
    assert_eq!(Charset::from_arg("Utf_8"), Charset::Utf8);
    assert_eq!(Charset::from_arg("SHIFT_JIS"), Charset::ShiftJis);
    assert_eq!(Charset::from_arg("shift-jis"), Charset::ShiftJis);
    assert_eq!(Charset::from_arg("EUC-JP"), Charset::EucJp);
    assert_eq!(Charset::from_arg("eucjp"), Charset::EucJp);
    assert_eq!(Charset::from_arg("dynamic"), Charset::Dynamic);
    assert_eq!(Charset::from_arg("latin1"), Charset::Dynamic);
    assert_eq!(Charset::ShiftJis.to_decode(), decode::Charset::ShiftJis);
    assert!(ascii_eq_ignore_case("AbC", "aBc"));
    assert!(!ascii_eq_ignore_case("abc", "abcd"));
}

#[test]
fn index_arguments() {
    assert_eq!(Indices::from_arg(Some("2,1,0")).inner, vec![2, 1, 0]);
    assert_eq!(Indices::from_arg(Some("1,x,+3,")).inner, vec![1, usize::MAX, 3, usize::MAX]);
    assert_eq!(Indices::from_arg(None).inner, Vec::<usize>::new());
    assert_eq!(parse_usize(b"42"), Some(42));
    assert_eq!(parse_usize(b"+7"), Some(7));
    assert_eq!(parse_usize(b"+"), None);
    assert_eq!(parse_usize(b""), None);
    assert_eq!(parse_usize(b"-1"), None);
    assert_eq!(parse_usize(b"99999999999999999999999"), None);
    let some = Some(Indices { inner: vec![1, 0] });
    assert!(matches!(kytea_tag_index(&some), KyTeaTagIndex::Specified(&[1, 0])));
    assert!(matches!(mecab_tag_index(&some), MeCabTagIndex::Specified(&[1, 0])));
    let empty = Some(Indices { inner: vec![] });
    assert!(matches!(kytea_tag_index(&empty), KyTeaTagIndex::Asis));
    assert!(matches!(mecab_tag_index(&None), MeCabTagIndex::Asis));
}

#[test]
fn input_and_output_arguments() {
    assert!(matches!(CliInput::from_arg("-"), CliInput::Stdin));
    match CliInput::from_arg("file.txt") {
        CliInput::Path(p) => assert_eq!(p, "file.txt"),
        CliInput::Stdin => panic!("a path was expected"),
    }
    assert!(matches!(output_to_api(&None), Output::Stdout));
    let out = Some("o.txt".to_owned());
    assert!(matches!(output_to_api(&out), Output::Path("o.txt")));
    assert_eq!(Input::Path("p").as_path(), Some("p"));
    assert_eq!(Output::Stdout.as_path(), None);
}

#[test]
fn error_messages() {
    assert_eq!(
        NulError { position: 0 }.to_string(),
        "nul byte found in provided data at position: 0"
    );
    assert_eq!(
        NulError { position: 1207 }.to_string(),
        "nul byte found in provided data at position: 1207"
    );
    assert_eq!(
        ApiError::KyTeaModelPath(NulError { position: 42 }).to_string(),
        "KyTea model path is an invalid string: nul byte found in provided data at position: 42"
    );
    assert_eq!(
        ApiError::MeCab(MeCabError::new("bad dictionary".to_owned())).to_string(),
        "MeCab failed: bad dictionary"
    );
    assert_eq!(
        ApiError::UnknownEncoding(decode::UnknownEncoding).to_string(),
        "invalid encoding for the input: unknown character encoding (acceptable encodings: UTF-8, UTF-16 BE/LE, SHIFT-JIS, EUC-JP)"
    );
    let io = std::io::Error::new(std::io::ErrorKind::NotFound, "no such thing");
    assert_eq!(FsError::ReadDir(io).to_string(), "could not read directory: no such thing");
    let io = std::io::Error::new(std::io::ErrorKind::NotFound, "gone");
    assert_eq!(
        ApiError::Fs(FsError::CreateFile(io)).to_string(),
        "could not create file: gone"
    );
    let io = std::io::Error::new(std::io::ErrorKind::Other, "disk full");
    assert_eq!(ApiError::WriteIo(io).to_string(), "could not write to the output: disk full");
}

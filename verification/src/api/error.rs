//! The errors of the high-level tokenization entry points.
use vstd::prelude::*;
use crate::utils::decode::UnknownEncoding;
use crate::utils::fs;
use crate::utils::fs::{FsError, fs_error_prefix};
use crate::utils::io::io_error_text;
use crate::kytea::tokenizer::kytea_error_text;
use crate::kytea::tokenizer::Error as KyTeaError;
use crate::mecab::node::Error as MeCabError;
use super::common::{NulError, decimal_text};

verus! {

/// The errors of a tokenization.
#[derive(Debug)]
pub enum Error {
    /// Input text is of unknown encoding.
    UnknownEncoding(UnknownEncoding),
    /// IO error for reading inputs.
    ReadIo(std::io::Error),
    /// IO error for writing outputs.
    WriteIo(std::io::Error),
    /// Filesystem errors.
    Fs(FsError),
    /// KyTea tokenization fails.
    KyTea(KyTeaError),
    /// Model path is invalid as a C string.
    KyTeaModelPath(NulError),
    /// Could not read the KyTea model.
    KyTeaModelRead(std::io::Error),
    /// MeCab tokenization fails.
    MeCab(MeCabError),
    /// Model or dictrc path is invalid as a C string.
    MeCabModelPath(NulError),
    /// Failed to initialize the MeCab model.
    MeCabModelRead(MeCabError),
}

impl Error {
    /// The same failure, with the tokenizer's own error turned into an `Error` by `tokenizer`.
    pub fn from_fs<E, F: Fn(E) -> Error>(value: fs::Error<E>, tokenizer: F) -> (r: Error)
        requires
            forall|e: E| tokenizer.requires((e,)),
        ensures
            match value {
                fs::Error::UnknownEncoding(e) => r == Error::UnknownEncoding(e),
                fs::Error::Fs(e) => r == Error::Fs(e),
                fs::Error::ReadIo(e) => r == Error::ReadIo(e),
                fs::Error::WriteIo(e) => r == Error::WriteIo(e),
                fs::Error::Tokenizer(e) => tokenizer.ensures((e,), r),
            },
    {
        match value {
            fs::Error::UnknownEncoding(e) => Error::UnknownEncoding(e),
            fs::Error::Fs(e) => Error::Fs(e),
            fs::Error::ReadIo(e) => Error::ReadIo(e),
            fs::Error::WriteIo(e) => Error::WriteIo(e),
            fs::Error::Tokenizer(e) => tokenizer(e),
        }
    }
}

/// The message of an invalid model path.
pub open spec fn nul_error_text(e: NulError) -> Seq<char> {
    "nul byte found in provided data at position: "@ + decimal_text(e.position as nat)
}

/// Whether `r` is the message of `e`: what failed, then the message of the cause. The text of
/// an I/O error is supplied by the operating system, so only what precedes it is fixed.
pub open spec fn error_text(e: &Error, r: Seq<char>) -> bool {
    match e {
        Error::UnknownEncoding(_) => r == "invalid encoding for the input: "@
            + "unknown character encoding (acceptable encodings: UTF-8, UTF-16 BE/LE, SHIFT-JIS, EUC-JP)"@,
        Error::ReadIo(_) => exists|t: Seq<char>| r == "could not read the input: "@ + t,
        Error::WriteIo(_) => exists|t: Seq<char>| r == "could not write to the output: "@ + t,
        Error::Fs(f) => exists|t: Seq<char>| r == fs_error_prefix(*f) + t,
        Error::KyTea(k) => exists|t: Seq<char>| r == "KyTea failed: "@ + t && kytea_error_text(k, t),
        Error::KyTeaModelPath(n) => r == "KyTea model path is an invalid string: "@ + nul_error_text(*n),
        Error::KyTeaModelRead(_) => exists|t: Seq<char>| r == "could not read the KyTea model: "@ + t,
        Error::MeCab(m) => r == "MeCab failed: "@ + m.message(),
        Error::MeCabModelPath(n) => r == "MeCab model path is an invalid string: "@ + nul_error_text(*n),
        Error::MeCabModelRead(m) => r == "could not read the MeCab model: "@ + m.message(),
    }
}

/// A message after a fixed start.
fn prefixed(prefix: &str, text: &str) -> (r: String)
    ensures
        r@ == prefix@ + text@,
{
    let mut r = prefix.to_owned();
    r.append(text);
    r
}

impl Error {
    /// The error message.
    pub fn to_string(&self) -> (r: String)
        ensures
            error_text(self, r@),
    {
        match self {
            Error::UnknownEncoding(e) => {
                let t = e.to_string();
                prefixed("invalid encoding for the input: ", t.as_str())
            },
            Error::ReadIo(e) => {
                let t = io_error_text(e);
                prefixed("could not read the input: ", t.as_str())
            },
            Error::WriteIo(e) => {
                let t = io_error_text(e);
                prefixed("could not write to the output: ", t.as_str())
            },
            Error::Fs(e) => e.to_string(),
            Error::KyTea(e) => {
                let t = e.to_string();
                let r = prefixed("KyTea failed: ", t.as_str());
                assert(r@ == "KyTea failed: "@ + t@ && kytea_error_text(e, t@));
                r
            },
            Error::KyTeaModelPath(e) => {
                let t = e.to_string();
                prefixed("KyTea model path is an invalid string: ", t.as_str())
            },
            Error::KyTeaModelRead(e) => {
                let t = io_error_text(e);
                prefixed("could not read the KyTea model: ", t.as_str())
            },
            Error::MeCab(e) => prefixed("MeCab failed: ", e.to_inner()),
            Error::MeCabModelPath(e) => {
                let t = e.to_string();
                prefixed("MeCab model path is an invalid string: ", t.as_str())
            },
            Error::MeCabModelRead(e) => prefixed("could not read the MeCab model: ", e.to_inner()),
        }
    }
}

} // verus!

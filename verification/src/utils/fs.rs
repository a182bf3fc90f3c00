//! Errors of tokenizing files and directories.
use vstd::prelude::*;
use super::decode::UnknownEncoding;
use super::io;
use super::io::io_error_text;

verus! {

/// A filesystem operation failed.
#[derive(Debug)]
pub enum FsError {
    OpenFile(std::io::Error),
    ReadDir(std::io::Error),
    FileMetadata(std::io::Error),
    CreateFile(std::io::Error),
    CreateDir(std::io::Error),
}

/// The start of the message of a filesystem error; the text of the I/O error follows it.
pub open spec fn fs_error_prefix(e: FsError) -> Seq<char> {
    match e {
        FsError::OpenFile(_) => "could not open file: "@,
        FsError::ReadDir(_) => "could not read directory: "@,
        FsError::FileMetadata(_) => "could not read file metadata: "@,
        FsError::CreateFile(_) => "could not create file: "@,
        FsError::CreateDir(_) => "could not create directory: "@,
    }
}

impl FsError {
    /// The error message: what failed, then the text of the I/O error, which the operating
    /// system supplies.
    pub fn to_string(&self) -> (r: String)
        ensures
            exists|t: Seq<char>| r@ == fs_error_prefix(*self) + t,
    {
        let (mut r, e) = match self {
            FsError::OpenFile(e) => ("could not open file: ".to_owned(), e),
            FsError::ReadDir(e) => ("could not read directory: ".to_owned(), e),
            FsError::FileMetadata(e) => ("could not read file metadata: ".to_owned(), e),
            FsError::CreateFile(e) => ("could not create file: ".to_owned(), e),
            FsError::CreateDir(e) => ("could not create directory: ".to_owned(), e),
        };
        let ghost p = r@;
        assert(p == fs_error_prefix(*self));
        let t = io_error_text(e);
        r.append(t.as_str());
        assert(r@ == fs_error_prefix(*self) + t@);
        r
    }
}

/// Tokenizing files failed; `E` is the error of the tokenizer.
#[derive(Debug)]
pub enum Error<E> {
    UnknownEncoding(UnknownEncoding),
    ReadIo(std::io::Error),
    WriteIo(std::io::Error),
    Fs(FsError),
    Tokenizer(E),
}

impl<E> Error<E> {
    /// The same failure, as tokenizing files reports it.
    pub fn from_io(value: io::Error<E, std::io::Error>) -> (r: Error<E>)
        ensures
            match value {
                io::Error::Read(io::ReadError::UnknownEncoding(e)) => r == Error::<E>::UnknownEncoding(e),
                io::Error::Read(io::ReadError::ReadIo(e)) => r == Error::<E>::ReadIo(e),
                io::Error::Write(io::WriteError::WriteIo(e)) => r == Error::<E>::WriteIo(e),
                io::Error::Tokenizer(e) => r == Error::<E>::Tokenizer(e),
            },
    {
        match value {
            io::Error::Read(io::ReadError::UnknownEncoding(e)) => Error::UnknownEncoding(e),
            io::Error::Read(io::ReadError::ReadIo(e)) => Error::ReadIo(e),
            io::Error::Write(io::WriteError::WriteIo(e)) => Error::WriteIo(e),
            io::Error::Tokenizer(e) => Error::Tokenizer(e),
        }
    }

    pub fn open_file(e: std::io::Error) -> (r: Error<E>)
        ensures
            r == Error::<E>::Fs(FsError::OpenFile(e)),
    {
        Error::Fs(FsError::OpenFile(e))
    }

    pub fn read_dir(e: std::io::Error) -> (r: Error<E>)
        ensures
            r == Error::<E>::Fs(FsError::ReadDir(e)),
    {
        Error::Fs(FsError::ReadDir(e))
    }

    pub fn file_metadata(e: std::io::Error) -> (r: Error<E>)
        ensures
            r == Error::<E>::Fs(FsError::FileMetadata(e)),
    {
        Error::Fs(FsError::FileMetadata(e))
    }

    pub fn create_file(e: std::io::Error) -> (r: Error<E>)
        ensures
            r == Error::<E>::Fs(FsError::CreateFile(e)),
    {
        Error::Fs(FsError::CreateFile(e))
    }

    pub fn create_dir(e: std::io::Error) -> (r: Error<E>)
        ensures
            r == Error::<E>::Fs(FsError::CreateDir(e)),
    {
        Error::Fs(FsError::CreateDir(e))
    }
}

} // verus!

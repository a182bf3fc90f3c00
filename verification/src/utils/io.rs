//! Errors of reading an input, tokenizing it and writing the output.
use vstd::prelude::*;
use super::decode::UnknownEncoding;

verus! {

#[verifier::external_type_specification]
#[verifier::external_body]
pub struct ExIoError(std::io::Error);

/// Formats an I/O error with `{}`; nothing is claimed of the text.
#[verifier::external_body]
pub(crate) fn io_error_text(e: &std::io::Error) -> (r: String) {
    format!("{e}")
}

/// Reading the input failed.
#[derive(Debug)]
pub enum ReadError<Io> {
    UnknownEncoding(UnknownEncoding),
    ReadIo(Io),
}

/// Writing the output failed.
#[derive(Debug)]
pub enum WriteError<Io> {
    WriteIo(Io),
}

/// Tokenizing an input into an output failed; `E` is the error of the tokenizer.
#[derive(Debug)]
pub enum Error<E, Io> {
    Read(ReadError<Io>),
    Tokenizer(E),
    Write(WriteError<Io>),
}

impl<E, Io> Error<E, Io> {
    pub fn unknown_encoding(e: UnknownEncoding) -> (r: Error<E, Io>)
        ensures
            r == Error::<E, Io>::Read(ReadError::UnknownEncoding(e)),
    {
        Error::Read(ReadError::UnknownEncoding(e))
    }

    pub fn write_io(e: Io) -> (r: Error<E, Io>)
        ensures
            r == Error::<E, Io>::Write(WriteError::WriteIo(e)),
    {
        Error::Write(WriteError::WriteIo(e))
    }

    pub fn read_io(e: Io) -> (r: Error<E, Io>)
        ensures
            r == Error::<E, Io>::Read(ReadError::ReadIo(e)),
    {
        Error::Read(ReadError::ReadIo(e))
    }
}

} // verus!

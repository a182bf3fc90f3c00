//! Inputs and outputs of a tokenization, and C strings.
use vstd::prelude::*;
use crate::text::first_byte_index;
use crate::utils::write::unicode::string_from_chars;

verus! {

/// An input text file or directory, or the standard input.
#[derive(Debug, Clone)]
pub enum Input<'a> {
    Path(&'a str),
    PathOwned(String),
    Stdin,
}

impl<'a> Input<'a> {
    /// The path of the input, if it is not the standard input.
    pub fn as_path(&self) -> (r: Option<&str>)
        ensures
            match self {
                Input::Path(p) => r matches Some(q) && q@ == p@,
                Input::PathOwned(p) => r matches Some(q) && q@ == p@,
                Input::Stdin => r is None,
            },
    {
        match self {
            Input::Path(p) => Some(p),
            Input::PathOwned(p) => Some(p.as_str()),
            Input::Stdin => None,
        }
    }
}

/// An output text file or directory, or the standard output.
#[derive(Debug, Clone)]
pub enum Output<'a> {
    Path(&'a str),
    PathOwned(String),
    Stdout,
}

impl<'a> Output<'a> {
    /// The path of the output, if it is not the standard output.
    pub fn as_path(&self) -> (r: Option<&str>)
        ensures
            match self {
                Output::Path(p) => r matches Some(q) && q@ == p@,
                Output::PathOwned(p) => r matches Some(q) && q@ == p@,
                Output::Stdout => r is None,
            },
    {
        match self {
            Output::Path(p) => Some(p),
            Output::PathOwned(p) => Some(p.as_str()),
            Output::Stdout => None,
        }
    }
}

/// How a tokenization connects its input to its output: the standard streams are read and
/// written as single files, and two paths are tokenized file by file (or directory by directory).
#[derive(Debug, Clone, Copy)]
pub enum Route<'a> {
    StdinToStdout,
    PathToPath(&'a str, &'a str),
    FileToStdout(&'a str),
    StdinToFile(&'a str),
}

/// The route from `input` to `output`.
pub fn route<'a>(input: &'a Input<'a>, output: &'a Output<'a>) -> (r: Route<'a>)
    ensures
        match (input, output) {
            (Input::Stdin, Output::Stdout) => r is StdinToStdout,
            (Input::Stdin, _) => r matches Route::StdinToFile(o) && Some(o@) == output.path_view(),
            (_, Output::Stdout) => r matches Route::FileToStdout(i) && Some(i@) == input.path_view(),
            _ => r matches Route::PathToPath(i, o) && Some(i@) == input.path_view() && Some(o@)
                == output.path_view(),
        },
{
    match (input.as_path(), output.as_path()) {
        (None, None) => Route::StdinToStdout,
        (Some(i), Some(o)) => Route::PathToPath(i, o),
        (Some(i), None) => Route::FileToStdout(i),
        (None, Some(o)) => Route::StdinToFile(o),
    }
}

impl<'a> Input<'a> {
    /// The characters of the path, if any.
    pub open spec fn path_view(&self) -> Option<Seq<char>> {
        match self {
            Input::Path(p) => Some(p@),
            Input::PathOwned(p) => Some(p@),
            Input::Stdin => None,
        }
    }
}

impl<'a> Output<'a> {
    /// The characters of the path, if any.
    pub open spec fn path_view(&self) -> Option<Seq<char>> {
        match self {
            Output::Path(p) => Some(p@),
            Output::PathOwned(p) => Some(p@),
            Output::Stdout => None,
        }
    }
}

/// A byte string that holds a NUL byte cannot become a C string; `position` is the first one.
#[derive(Debug, Clone, Copy, PartialEq, Eq, Structural)]
pub struct NulError {
    pub position: usize,
}

/// The character of a decimal digit.
pub open spec fn digit_char(d: nat) -> char {
    ((d + 48) as u8) as char
}

/// The decimal numeral of `n`, without leading zeros.
pub open spec fn decimal_text(n: nat) -> Seq<char>
    decreases n,
{
    if n < 10 {
        seq![digit_char(n)]
    } else {
        decimal_text(n / 10) + seq![digit_char(n % 10)]
    }
}

fn push_decimal(out: &mut Vec<char>, n: usize)
    ensures
        final(out)@ == old(out)@ + decimal_text(n as nat),
    decreases n,
{
    if n >= 10 {
        push_decimal(out, n / 10);
    }
    let d: u8 = (n % 10) as u8;
    let b: u8 = 48u8 + d;
    out.push(b as char);
    proof {
        if n >= 10 {
            assert(decimal_text(n as nat) == decimal_text((n / 10) as nat) + seq![digit_char((n % 10) as nat)]);
        }
    }
    assert(out@ =~= old(out)@ + decimal_text(n as nat));
}

impl NulError {
    /// The error message, with the position of the NUL byte in decimal.
    pub fn to_string(&self) -> (r: String)
        ensures
            r@ == "nul byte found in provided data at position: "@ + decimal_text(self.position as nat),
    {
        let mut v: Vec<char> = Vec::new();
        push_decimal(&mut v, self.position);
        let digits = string_from_chars(&v);
        let mut r = "nul byte found in provided data at position: ".to_owned();
        r.append(digits.as_str());
        assert(v@ =~= decimal_text(self.position as nat));
        r
    }
}

/// The bytes of the C string made of `bytes`: them with a terminating NUL, unless they hold one.
pub fn c_string(bytes: &[u8]) -> (r: Result<Vec<u8>, NulError>)
    ensures
        match r {
            Ok(v) => v@ == bytes@.push(0u8) && forall|i: int| 0 <= i < bytes@.len() ==> bytes@[i] != 0u8,
            Err(e) => e.position < bytes@.len() && bytes@[e.position as int] == 0u8 && forall|i: int|
                0 <= i < e.position ==> bytes@[i] != 0u8,
        },
{
    match first_byte_index(0u8, bytes) {
        Some(i) => Err(NulError { position: i }),
        None => {
            let mut v = vstd::slice::slice_to_vec(bytes);
            v.push(0u8);
            Ok(v)
        },
    }
}

} // verus!

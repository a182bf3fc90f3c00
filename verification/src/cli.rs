//! Reading the command-line arguments: the input, the character encoding and the tag indices.
use vstd::prelude::*;
use crate::api::common;
use crate::api::kytea;
use crate::api::mecab;
use crate::utils::decode;

verus! {

/// The character encoding named on the command line.
#[derive(Debug, Clone, Copy, PartialEq, Eq, Structural)]
pub enum Charset {
    Utf8,
    ShiftJis,
    EucJp,
    Dynamic,
}

/// A character in ASCII lower case.
pub open spec fn ascii_lower(c: char) -> char {
    if 'A' <= c <= 'Z' {
        ((c as u32) + 32) as char
    } else {
        c
    }
}

/// The two strings are equal but for the case of ASCII letters.
pub open spec fn eq_ignore_ascii_case(a: Seq<char>, b: Seq<char>) -> bool {
    a.len() == b.len() && forall|i: int| 0 <= i < a.len() ==> ascii_lower(a[i]) == ascii_lower(b[i])
}

fn ascii_lower_exec(c: char) -> (r: char)
    ensures
        r == ascii_lower(c),
{
    if 'A' <= c && c <= 'Z' {
        let u = (c as u32) + 32;
        assert(0x61 <= u <= 0x7a);
        char_from_ascii(u)
    } else {
        c
    }
}

/// The character of an ASCII code.
fn char_from_ascii(u: u32) -> (r: char)
    requires
        u < 128,
    ensures
        r == u as char,
{
    let b = u as u8;
    let r = b as char;
    assert(r == u as char);
    r
}

/// Whether `a` equals `b` but for the case of ASCII letters.
pub fn ascii_eq_ignore_case(a: &str, b: &str) -> (r: bool)
    ensures
        r == eq_ignore_ascii_case(a@, b@),
{
    let n = a.unicode_len();
    if n != b.unicode_len() {
        return false;
    }
    let mut i: usize = 0;
    while i < n
        invariant
            i <= n,
            n == a@.len(),
            a@.len() == b@.len(),
            forall|k: int| 0 <= k < i ==> ascii_lower(a@[k]) == ascii_lower(b@[k]),
        decreases n - i,
    {
        if ascii_lower_exec(a.get_char(i)) != ascii_lower_exec(b.get_char(i)) {
            return false;
        }
        i = i + 1;
    }
    true
}

/// The encoding that an argument names: the spellings `utf8`, `utf-8` and `utf_8` name UTF-8,
/// and likewise for SHIFT-JIS and EUC-JP, in any case; anything else asks for detection.
pub open spec fn spec_charset_of(arg: Seq<char>) -> Charset {
    if eq_ignore_ascii_case(arg, "utf8"@) || eq_ignore_ascii_case(arg, "utf-8"@) || eq_ignore_ascii_case(
        arg,
        "utf_8"@,
    ) {
        Charset::Utf8
    } else if eq_ignore_ascii_case(arg, "shiftjis"@) || eq_ignore_ascii_case(arg, "shift-jis"@)
        || eq_ignore_ascii_case(arg, "shift_jis"@) {
        Charset::ShiftJis
    } else if eq_ignore_ascii_case(arg, "eucjp"@) || eq_ignore_ascii_case(arg, "euc-jp"@)
        || eq_ignore_ascii_case(arg, "euc_jp"@) {
        Charset::EucJp
    } else {
        Charset::Dynamic
    }
}

proof fn lemma_names_differ_at(arg: Seq<char>, x: Seq<char>, y: Seq<char>, i: int)
    requires
        eq_ignore_ascii_case(arg, x),
        0 <= i < x.len(),
        i < y.len(),
        ascii_lower(x[i]) != ascii_lower(y[i]),
    ensures
        !eq_ignore_ascii_case(arg, y),
{
    if eq_ignore_ascii_case(arg, y) {
        assert(ascii_lower(arg[i]) == ascii_lower(x[i]));
        assert(ascii_lower(arg[i]) == ascii_lower(y[i]));
    }
}

proof fn lemma_names_differ_in_length(arg: Seq<char>, x: Seq<char>, y: Seq<char>)
    requires
        eq_ignore_ascii_case(arg, x),
        x.len() != y.len(),
    ensures
        !eq_ignore_ascii_case(arg, y),
{
}

/// The accepted spellings of the encodings, in any ASCII case: `utf8`, `utf-8` and `utf_8` name
/// UTF-8; `shiftjis`, `shift-jis` and `shift_jis` name SHIFT-JIS; `eucjp`, `euc-jp` and `euc_jp`
/// name EUC-JP; any other argument asks for detection.
pub proof fn charset_names_are_the_documented_ones(arg: Seq<char>)
    ensures
        eq_ignore_ascii_case(arg, "utf8"@) ==> spec_charset_of(arg) == Charset::Utf8,
        eq_ignore_ascii_case(arg, "utf-8"@) ==> spec_charset_of(arg) == Charset::Utf8,
        eq_ignore_ascii_case(arg, "utf_8"@) ==> spec_charset_of(arg) == Charset::Utf8,
        eq_ignore_ascii_case(arg, "shiftjis"@) ==> spec_charset_of(arg) == Charset::ShiftJis,
        eq_ignore_ascii_case(arg, "shift-jis"@) ==> spec_charset_of(arg) == Charset::ShiftJis,
        eq_ignore_ascii_case(arg, "shift_jis"@) ==> spec_charset_of(arg) == Charset::ShiftJis,
        eq_ignore_ascii_case(arg, "eucjp"@) ==> spec_charset_of(arg) == Charset::EucJp,
        eq_ignore_ascii_case(arg, "euc-jp"@) ==> spec_charset_of(arg) == Charset::EucJp,
        eq_ignore_ascii_case(arg, "euc_jp"@) ==> spec_charset_of(arg) == Charset::EucJp,
        !eq_ignore_ascii_case(arg, "utf8"@) && !eq_ignore_ascii_case(arg, "utf-8"@)
            && !eq_ignore_ascii_case(arg, "utf_8"@) && !eq_ignore_ascii_case(arg, "shiftjis"@)
            && !eq_ignore_ascii_case(arg, "shift-jis"@) && !eq_ignore_ascii_case(arg, "shift_jis"@)
            && !eq_ignore_ascii_case(arg, "eucjp"@) && !eq_ignore_ascii_case(arg, "euc-jp"@)
            && !eq_ignore_ascii_case(arg, "euc_jp"@) ==> spec_charset_of(arg) == Charset::Dynamic,
{
    reveal_strlit("utf8");
    reveal_strlit("utf-8");
    reveal_strlit("utf_8");
    reveal_strlit("shiftjis");
    reveal_strlit("shift-jis");
    reveal_strlit("shift_jis");
    reveal_strlit("eucjp");
    reveal_strlit("euc-jp");
    reveal_strlit("euc_jp");
    if eq_ignore_ascii_case(arg, "shiftjis"@) || eq_ignore_ascii_case(arg, "shift-jis"@)
        || eq_ignore_ascii_case(arg, "shift_jis"@) {
        let x = if eq_ignore_ascii_case(arg, "shiftjis"@) {
            "shiftjis"@
        } else if eq_ignore_ascii_case(arg, "shift-jis"@) {
            "shift-jis"@
        } else {
            "shift_jis"@
        };
        lemma_names_differ_in_length(arg, x, "utf8"@);
        lemma_names_differ_in_length(arg, x, "utf-8"@);
        lemma_names_differ_in_length(arg, x, "utf_8"@);
    }
    if eq_ignore_ascii_case(arg, "eucjp"@) {
        assert(ascii_lower('e') != ascii_lower('u'));
        lemma_names_differ_in_length(arg, "eucjp"@, "utf8"@);
        lemma_names_differ_at(arg, "eucjp"@, "utf-8"@, 0);
        lemma_names_differ_at(arg, "eucjp"@, "utf_8"@, 0);
        lemma_names_differ_in_length(arg, "eucjp"@, "shiftjis"@);
        lemma_names_differ_in_length(arg, "eucjp"@, "shift-jis"@);
        lemma_names_differ_in_length(arg, "eucjp"@, "shift_jis"@);
    }
    if eq_ignore_ascii_case(arg, "euc-jp"@) || eq_ignore_ascii_case(arg, "euc_jp"@) {
        let x = if eq_ignore_ascii_case(arg, "euc-jp"@) {
            "euc-jp"@
        } else {
            "euc_jp"@
        };
        lemma_names_differ_in_length(arg, x, "utf8"@);
        lemma_names_differ_in_length(arg, x, "utf-8"@);
        lemma_names_differ_in_length(arg, x, "utf_8"@);
        lemma_names_differ_in_length(arg, x, "shiftjis"@);
        lemma_names_differ_in_length(arg, x, "shift-jis"@);
        lemma_names_differ_in_length(arg, x, "shift_jis"@);
    }
}

impl Charset {
    /// The encoding that the argument `value` names.
    pub fn from_arg(value: &str) -> (r: Charset)
        ensures
            r == spec_charset_of(value@),
    {
        if ascii_eq_ignore_case(value, "utf8") || ascii_eq_ignore_case(value, "utf-8")
            || ascii_eq_ignore_case(value, "utf_8") {
            Charset::Utf8
        } else if ascii_eq_ignore_case(value, "shiftjis") || ascii_eq_ignore_case(value, "shift-jis")
            || ascii_eq_ignore_case(value, "shift_jis") {
            Charset::ShiftJis
        } else if ascii_eq_ignore_case(value, "eucjp") || ascii_eq_ignore_case(value, "euc-jp")
            || ascii_eq_ignore_case(value, "euc_jp") {
            Charset::EucJp
        } else {
            Charset::Dynamic
        }
    }

    /// The same encoding, for decoding.
    pub fn to_decode(self) -> (r: decode::Charset)
        ensures
            r == match self {
                Charset::Utf8 => decode::Charset::Utf8,
                Charset::ShiftJis => decode::Charset::ShiftJis,
                Charset::EucJp => decode::Charset::EucJp,
                Charset::Dynamic => decode::Charset::Dynamic,
            },
    {
        match self {
            Charset::Utf8 => decode::Charset::Utf8,
            Charset::ShiftJis => decode::Charset::ShiftJis,
            Charset::EucJp => decode::Charset::EucJp,
            Charset::Dynamic => decode::Charset::Dynamic,
        }
    }
}

/// The input named on the command line: `-` is the standard input.
#[derive(Debug, Clone)]
pub enum Input {
    Path(String),
    Stdin,
}

impl Input {
    pub fn from_arg(value: &str) -> (r: Input)
        ensures
            value@ == "-"@ ==> r is Stdin,
            value@ != "-"@ ==> (r matches Input::Path(p) && p@ == value@),
    {
        proof {
            reveal_strlit("-");
        }
        let n = value.unicode_len();
        if n == 1 && value.get_char(0) == '-' {
            assert(value@ =~= "-"@);
            Input::Stdin
        } else {
            Input::Path(value.to_owned())
        }
    }

    /// The input for tokenization.
    pub fn to_api(&self) -> (r: common::Input<'_>)
        ensures
            match self {
                Input::Path(p) => r matches common::Input::Path(q) && q@ == p@,
                Input::Stdin => r is Stdin,
            },
    {
        match self {
            Input::Path(p) => common::Input::Path(p.as_str()),
            Input::Stdin => common::Input::Stdin,
        }
    }
}

/// The output for tokenization: the standard output when no path is given.
pub fn output_to_api(output: &Option<String>) -> (r: common::Output<'_>)
    ensures
        match output {
            Some(p) => r matches common::Output::Path(q) && q@ == p@,
            None => r is Stdout,
        },
{
    match output {
        Some(p) => common::Output::Path(p.as_str()),
        None => common::Output::Stdout,
    }
}

/// The value of a decimal numeral.
pub open spec fn decimal_value(d: Seq<u8>) -> nat
    decreases d.len(),
{
    if d.len() == 0 {
        0
    } else {
        decimal_value(d.drop_last()) * 10 + (d.last() - 48) as nat
    }
}

/// The digits of an unsigned numeral: what follows an optional leading `+`.
pub open spec fn numeral_digits(s: Seq<u8>) -> Seq<u8> {
    if s.len() > 0 && s[0] == 43u8 {
        s.drop_first()
    } else {
        s
    }
}

/// The number that `str::parse::<usize>` reads from `s`: one or more ASCII digits after an
/// optional `+`, with a value that fits in `usize`.
pub open spec fn spec_parse_usize(s: Seq<u8>) -> Option<nat> {
    let d = numeral_digits(s);
    if d.len() > 0 && (forall|i: int| 0 <= i < d.len() ==> 48 <= #[trigger] d[i] <= 57)
        && decimal_value(d) <= usize::MAX {
        Some(decimal_value(d))
    } else {
        None
    }
}

proof fn lemma_decimal_grows(d: Seq<u8>, k: int)
    requires
        0 <= k <= d.len(),
        forall|i: int| 0 <= i < d.len() ==> 48 <= #[trigger] d[i] <= 57,
    ensures
        decimal_value(d.take(k)) <= decimal_value(d),
    decreases d.len() - k,
{
    if k < d.len() {
        lemma_decimal_grows(d, k + 1);
        assert(d.take(k + 1).drop_last() =~= d.take(k));
        assert(decimal_value(d.take(k + 1)) == decimal_value(d.take(k)) * 10 + (d[k] - 48) as nat);
    } else {
        assert(d.take(k) =~= d);
    }
}

/// Reads a `usize` as `str::parse` does.
pub fn parse_usize(s: &[u8]) -> (r: Option<usize>)
    ensures
        match r {
            Some(v) => spec_parse_usize(s@) == Some(v as nat),
            None => spec_parse_usize(s@) is None,
        },
{
    let ghost d = numeral_digits(s@);
    let start: usize = if s.len() > 0 && s[0] == 43u8 {
        1
    } else {
        0
    };
    assert(d =~= s@.skip(start as int));
    if start >= s.len() {
        return None;
    }
    let mut acc: usize = 0;
    let mut i: usize = start;
    while i < s.len()
        invariant
            start <= i <= s@.len(),
            d == s@.skip(start as int),
            d == numeral_digits(s@),
            forall|k: int| 0 <= k < i - start ==> 48 <= #[trigger] d[k] <= 57,
            acc as nat == decimal_value(d.take(i - start)),
        decreases s@.len() - i,
    {
        let b = s[i];
        if b < 48 || b > 57 {
            assert(d[i - start] == b);
            return None;
        }
        let ghost k = i - start;
        assert(d.take(k + 1).drop_last() =~= d.take(k));
        assert(d[k] == b);
        let digit = (b - 48) as usize;
        let next = match acc.checked_mul(10) {
            Some(m) => m.checked_add(digit),
            None => None,
        };
        match next {
            Some(v) => {
                acc = v;
            },
            None => {
                proof {
                    if forall|m: int| 0 <= m < d.len() ==> 48 <= #[trigger] d[m] <= 57 {
                        lemma_decimal_grows(d, k + 1);
                    }
                }
                return None;
            },
        }
        i = i + 1;
    }
    assert(d.take(i - start) =~= d);
    Some(acc)
}

/// The tag indices given on the command line, separated by commas; an index that is not a
/// number stands for `usize::MAX`, a position that never has a tag.
#[derive(Debug, Clone)]
pub struct Indices {
    pub inner: Vec<usize>,
}

impl Indices {
    /// The indices of an argument; an argument that is not valid UTF-8 gives none.
    pub fn from_arg(value: Option<&str>) -> (r: Indices)
        ensures
            match value {
                None => r.inner@.len() == 0,
                Some(v) => {
                    let pieces = crate::text::split_seq(v@, ',');
                    &&& r.inner@.len() == pieces.len()
                    &&& forall|k: int|
                        0 <= k < pieces.len() ==> #[trigger] r.inner@[k] == match spec_parse_usize(
                            vstd::utf8::encode_utf8(pieces[k]),
                        ) {
                            Some(n) => n as usize,
                            None => usize::MAX,
                        }
                },
            },
    {
        let values = match value {
            Some(v) => v,
            None => {
                return Indices { inner: Vec::new() };
            },
        };
        let pieces = crate::text::split_str(values, ',');
        let ghost all = crate::text::split_seq(values@, ',');
        let mut inner: Vec<usize> = Vec::new();
        let mut k: usize = 0;
        while k < pieces.len()
            invariant
                k <= pieces@.len(),
                crate::text::str_views(pieces@) == all,
                inner@.len() == k,
                forall|m: int|
                    0 <= m < k ==> #[trigger] inner@[m] == match spec_parse_usize(
                        vstd::utf8::encode_utf8(all[m]),
                    ) {
                        Some(n) => n as usize,
                        None => usize::MAX,
                    },
            decreases pieces@.len() - k,
        {
            let piece = pieces[k];
            assert(piece@ == all[k as int]);
            let i = match parse_usize(piece.as_bytes()) {
                Some(i) => i,
                None => usize::MAX,
            };
            inner.push(i);
            k = k + 1;
        }
        Indices { inner }
    }
}

/// The KyTea tags to write: as they are when no indices, or none, are given.
pub fn kytea_tag_index(indices: &Option<Indices>) -> (r: kytea::TagIndex<'_>)
    ensures
        match indices {
            Some(v) => if v.inner@.len() == 0 {
                r is Asis
            } else {
                r matches kytea::TagIndex::Specified(s) && s@ == v.inner@
            },
            None => r is Asis,
        },
{
    match indices {
        Some(v) => {
            if v.inner.len() == 0 {
                kytea::TagIndex::Asis
            } else {
                kytea::TagIndex::Specified(v.inner.as_slice())
            }
        },
        None => kytea::TagIndex::Asis,
    }
}

/// The MeCab features to write: as they are when no indices, or none, are given.
pub fn mecab_tag_index(indices: &Option<Indices>) -> (r: mecab::TagIndex<'_>)
    ensures
        match indices {
            Some(v) => if v.inner@.len() == 0 {
                r is Asis
            } else {
                r matches mecab::TagIndex::Specified(s) && s@ == v.inner@
            },
            None => r is Asis,
        },
{
    match indices {
        Some(v) => {
            if v.inner.len() == 0 {
                mecab::TagIndex::Asis
            } else {
                mecab::TagIndex::Specified(v.inner.as_slice())
            }
        },
        None => mecab::TagIndex::Asis,
    }
}

} // verus!

//! Character encodings of the input text.
//!
//! Besides UTF-8, SHIFT-JIS, EUC-JP and UTF-16 (big and little endian) are decoded with
//! `encoding_rs`. When the `Charset` is `Dynamic`, the encoding is determined in the following
//! order: UTF-8, SHIFT-JIS, EUC-JP, UTF-16 BE, UTF-16 LE; the first one in which the input has no
//! malformed sequence is taken.
use vstd::prelude::*;
use vstd::utf8::*;
use vstd::string::*;
use unicode_bom::Bom;

verus! {

broadcast use vstd::utf8::encode_utf8_decode_utf8;

/// The character encodings of input text. `Utf8` is the default.
#[derive(Debug, Clone, Copy, PartialEq, Eq, PartialOrd, Ord, Hash, Structural)]
#[non_exhaustive]
pub enum Charset {
    Utf8,
    Utf16Be,
    Utf16Le,
    ShiftJis,
    EucJp,
    Dynamic,
}

impl Default for Charset {
    fn default() -> (r: Charset)
        ensures
            r == Charset::Utf8,
    {
        Charset::Utf8
    }
}

/// The encodings tried, in order, when the `Charset` is `Dynamic` and the input is not UTF-8.
pub open spec fn dynamic_candidates() -> Seq<Charset> {
    seq![Charset::ShiftJis, Charset::EucJp, Charset::Utf16Be, Charset::Utf16Le]
}

/// The encodings that `encoding_rs` decodes.
pub open spec fn is_transcoded(c: Charset) -> bool {
    c is Utf16Be || c is Utf16Le || c is ShiftJis || c is EucJp
}

impl Charset {
    /// The encodings tried when the `Charset` is `Dynamic` and the input is not UTF-8.
    pub fn list_encodings() -> (r: Vec<Charset>)
        ensures
            r@ == dynamic_candidates(),
    {
        let v = vec![Charset::ShiftJis, Charset::EucJp, Charset::Utf16Be, Charset::Utf16Le];
        assert(v@ =~= dynamic_candidates());
        v
    }
}

/// The error of `decode` when no encoding fits a `Dynamic` input.
#[derive(Debug, Clone, Copy)]
pub struct UnknownEncoding;

impl UnknownEncoding {
    /// The error message.
    pub fn to_string(&self) -> (r: String)
        ensures
            r@ == "unknown character encoding (acceptable encodings: UTF-8, UTF-16 BE/LE, SHIFT-JIS, EUC-JP)"@,
    {
        "unknown character encoding (acceptable encodings: UTF-8, UTF-16 BE/LE, SHIFT-JIS, EUC-JP)".to_owned()
    }
}

/// The byte order marks that decoding tells apart.
#[derive(Debug, Clone, Copy, PartialEq, Eq, Structural)]
pub enum ByteOrderMark {
    Utf8,
    Utf16Be,
    Utf16Le,
    Other,
}

/// The byte order mark at the start of `b`: `EF BB BF` for UTF-8, `FE FF` for UTF-16 BE, and
/// `FF FE` for UTF-16 LE unless two zero bytes follow (the UTF-32 LE mark).
pub open spec fn bom_of(b: Seq<u8>) -> ByteOrderMark {
    if b.len() >= 3 && b[0] == 0xef && b[1] == 0xbb && b[2] == 0xbf {
        ByteOrderMark::Utf8
    } else if b.len() >= 2 && b[0] == 0xfe && b[1] == 0xff {
        ByteOrderMark::Utf16Be
    } else if b.len() >= 2 && b[0] == 0xff && b[1] == 0xfe && !(b.len() >= 4 && b[2] == 0 && b[3]
        == 0) {
        ByteOrderMark::Utf16Le
    } else {
        ByteOrderMark::Other
    }
}

/// Whether the mark found is the one of the encoding.
pub open spec fn spec_bom_applies(bom: ByteOrderMark, charset: Charset) -> bool {
    ||| (bom is Utf8 && charset is Utf8)
    ||| (bom is Utf16Be && charset is Utf16Be)
    ||| (bom is Utf16Le && charset is Utf16Le)
}

/// The input without the UTF-16 mark of the encoding, when it starts with it.
pub open spec fn without_utf16_bom(charset: Charset, b: Seq<u8>) -> Seq<u8> {
    if b.len() >= 2 && ((charset is Utf16Le && b[0] == 0xff && b[1] == 0xfe) || (charset is Utf16Be
        && b[0] == 0xfe && b[1] == 0xff)) {
        b.skip(2)
    } else {
        b
    }
}

/// What `String::from_utf8_lossy` gives for `bytes`.
pub uninterp spec fn utf8_lossy(bytes: Seq<u8>) -> Seq<char>;

/// What `encoding_rs` decodes from `bytes` in the encoding of `charset`, without handling a byte
/// order mark and with malformed sequences replaced by U+FFFD.
pub uninterp spec fn decoded_without_bom_handling(charset: Charset, bytes: Seq<u8>) -> Seq<char>;

/// What `encoding_rs` decodes from `bytes` in the encoding of `charset` without handling a byte
/// order mark, or nothing when a sequence is malformed.
pub uninterp spec fn strictly_decoded(charset: Charset, bytes: Seq<u8>) -> Option<Seq<char>>;

/// Calls `Bom::from` of `unicode_bom` and tells apart the marks that decoding uses.
///
/// The contract restates the checks that `Bom::from` makes on the first four bytes.
#[verifier::external_body]
fn detect_bom(bytes: &[u8]) -> (r: ByteOrderMark)
    ensures
        r == bom_of(bytes@),
{
    match Bom::from(bytes) {
        Bom::Utf8 => ByteOrderMark::Utf8,
        Bom::Utf16Be => ByteOrderMark::Utf16Be,
        Bom::Utf16Le => ByteOrderMark::Utf16Le,
        _ => ByteOrderMark::Other,
    }
}

/// Calls `std::str::from_utf8`, documented to succeed exactly on valid UTF-8.
#[verifier::external_body]
fn str_from_utf8(bytes: &[u8]) -> (r: Option<&str>)
    ensures
        match r {
            Some(s) => valid_utf8(bytes@) && s.spec_bytes() == bytes@,
            None => !valid_utf8(bytes@),
        },
{
    std::str::from_utf8(bytes).ok()
}

/// Calls `String::from_utf8_lossy`; the result is named `utf8_lossy`, and on valid UTF-8 it is
/// the decoded text, as documented.
#[verifier::external_body]
pub(crate) fn from_utf8_lossy(bytes: &[u8]) -> (r: String)
    ensures
        r@ == utf8_lossy(bytes@),
        valid_utf8(bytes@) ==> r@ == decode_utf8(bytes@),
{
    String::from_utf8_lossy(bytes).into_owned()
}

/// Calls `Encoding::decode_without_bom_handling` of `encoding_rs` for the encoding of `charset`;
/// the result is named `decoded_without_bom_handling`.
///
/// The size computation of the output buffer panics on overflow; the bound on the length keeps
/// it clear of that.
#[verifier::external_body]
fn decode_without_bom_handling(charset: Charset, bytes: &[u8]) -> (r: String)
    requires
        is_transcoded(charset),
        bytes@.len() <= usize::MAX / 8,
    ensures
        r@ == decoded_without_bom_handling(charset, bytes@),
{
    let encoding = match charset {
        Charset::Utf16Be => encoding_rs::UTF_16BE,
        Charset::Utf16Le => encoding_rs::UTF_16LE,
        Charset::ShiftJis => encoding_rs::SHIFT_JIS,
        _ => encoding_rs::EUC_JP,
    };
    encoding.decode_without_bom_handling(bytes).0.into_owned()
}

/// Calls `Encoding::decode_with_bom_removal` of `encoding_rs` for the encoding of `charset`.
///
/// Its source removes the encoding's own UTF-16 mark, when the input starts with it, and decodes
/// the rest as `decode_without_bom_handling` does; the contract states that.
#[verifier::external_body]
fn decode_with_bom_removal(charset: Charset, bytes: &[u8]) -> (r: String)
    requires
        is_transcoded(charset),
        bytes@.len() <= usize::MAX / 8,
    ensures
        r@ == decoded_without_bom_handling(charset, without_utf16_bom(charset, bytes@)),
{
    let encoding = match charset {
        Charset::Utf16Be => encoding_rs::UTF_16BE,
        Charset::Utf16Le => encoding_rs::UTF_16LE,
        Charset::ShiftJis => encoding_rs::SHIFT_JIS,
        _ => encoding_rs::EUC_JP,
    };
    encoding.decode_with_bom_removal(bytes).0.into_owned()
}

/// Calls `Encoding::decode_without_bom_handling_and_without_replacement` of `encoding_rs` for the
/// encoding of `charset`; the result is named `strictly_decoded`.
#[verifier::external_body]
fn decode_strictly(charset: Charset, bytes: &[u8]) -> (r: Option<String>)
    requires
        is_transcoded(charset),
        bytes@.len() <= usize::MAX / 8,
    ensures
        match r {
            Some(s) => strictly_decoded(charset, bytes@) == Some(s@),
            None => strictly_decoded(charset, bytes@) is None,
        },
{
    let encoding = match charset {
        Charset::Utf16Be => encoding_rs::UTF_16BE,
        Charset::Utf16Le => encoding_rs::UTF_16LE,
        Charset::ShiftJis => encoding_rs::SHIFT_JIS,
        _ => encoding_rs::EUC_JP,
    };
    encoding.decode_without_bom_handling_and_without_replacement(bytes).map(|s| s.into_owned())
}

/// The text of `bytes` decoded in `charset`, after removing the byte order mark when `has_bom`.
pub open spec fn spec_decode_as(bytes: Seq<u8>, charset: Charset, has_bom: bool) -> Seq<char> {
    if charset is Utf8 {
        utf8_lossy(
            if has_bom {
                bytes.skip(3)
            } else {
                bytes
            },
        )
    } else if has_bom {
        decoded_without_bom_handling(charset, without_utf16_bom(charset, bytes))
    } else {
        decoded_without_bom_handling(charset, bytes)
    }
}

/// The first of `candidates` in which `bytes` decode without a malformed sequence.
pub open spec fn first_strictly_decodable(candidates: Seq<Charset>, bytes: Seq<u8>) -> Option<Charset>
    decreases candidates.len(),
{
    if candidates.len() == 0 {
        None
    } else if strictly_decoded(candidates[0], bytes) is Some {
        Some(candidates[0])
    } else {
        first_strictly_decodable(candidates.drop_first(), bytes)
    }
}

/// Inputs that decoding accepts: those that `encoding_rs` is handed are short enough for its
/// buffer-size computation.
pub open spec fn decodable_length(bytes: Seq<u8>, charset: Charset) -> bool {
    ||| charset is Utf8
    ||| (charset is Dynamic && valid_utf8(bytes))
    ||| bytes.len() <= usize::MAX / 8
}

/// The result of `decode`.
pub open spec fn spec_decode(bytes: Seq<u8>, charset: Charset) -> Result<Seq<char>, UnknownEncoding> {
    if !(charset is Dynamic) {
        Ok(spec_decode_as(bytes, charset, spec_bom_applies(bom_of(bytes), charset)))
    } else if valid_utf8(bytes) {
        Ok(decode_utf8(bytes))
    } else {
        match first_strictly_decodable(dynamic_candidates(), bytes) {
            Some(c) => Ok(spec_decode_as(bytes, c, spec_bom_applies(bom_of(bytes), c))),
            None => Err(UnknownEncoding),
        }
    }
}

/// Whether the byte order mark found is the one of `charset`, so that it is removed.
pub fn bom_applies(bom: ByteOrderMark, charset: Charset) -> (r: bool)
    ensures
        r == spec_bom_applies(bom, charset),
{
    match (bom, charset) {
        (ByteOrderMark::Utf8, Charset::Utf8) => true,
        (ByteOrderMark::Utf16Be, Charset::Utf16Be) => true,
        (ByteOrderMark::Utf16Le, Charset::Utf16Le) => true,
        _ => false,
    }
}

/// Decodes `bytes` in `charset`, which is not `Dynamic`, removing the byte order mark when
/// `has_bom`.
pub fn decode_as(bytes: &[u8], charset: Charset, has_bom: bool) -> (r: String)
    requires
        !(charset is Dynamic),
        charset is Utf8 && has_bom ==> bytes@.len() >= 3,
        !(charset is Utf8) ==> bytes@.len() <= usize::MAX / 8,
    ensures
        r@ == spec_decode_as(bytes@, charset, has_bom),
        charset is Utf8 && !has_bom && valid_utf8(bytes@) ==> r@ == decode_utf8(bytes@),
        charset is Utf8 && has_bom && valid_utf8(bytes@.skip(3)) ==> r@ == decode_utf8(bytes@.skip(3)),
{
    match charset {
        Charset::Utf8 => {
            if has_bom {
                let rest = vstd::slice::slice_subrange(bytes, 3, bytes.len());
                assert(rest@ =~= bytes@.skip(3));
                from_utf8_lossy(rest)
            } else {
                from_utf8_lossy(bytes)
            }
        },
        _ => {
            if has_bom {
                decode_with_bom_removal(charset, bytes)
            } else {
                decode_without_bom_handling(charset, bytes)
            }
        },
    }
}

/// The first encoding of the `Dynamic` order, after UTF-8, in which `bytes` decode without a
/// malformed sequence.
fn detect_encoding(bytes: &[u8]) -> (r: Option<Charset>)
    requires
        bytes@.len() <= usize::MAX / 8,
    ensures
        r == first_strictly_decodable(dynamic_candidates(), bytes@),
        r matches Some(c) ==> is_transcoded(c),
{
    let candidates = Charset::list_encodings();
    let mut k: usize = 0;
    assert(candidates@.skip(0) =~= candidates@);
    while k < candidates.len()
        invariant
            k <= candidates@.len(),
            candidates@ == dynamic_candidates(),
            bytes@.len() <= usize::MAX / 8,
            first_strictly_decodable(dynamic_candidates(), bytes@) == first_strictly_decodable(
                candidates@.skip(k as int),
                bytes@,
            ),
        decreases candidates@.len() - k,
    {
        let c = candidates[k];
        assert(is_transcoded(c));
        assert(candidates@.skip(k as int)[0] == c);
        assert(candidates@.skip(k as int).drop_first() =~= candidates@.skip(k as int + 1));
        if decode_strictly(c, bytes).is_some() {
            return Some(c);
        }
        k = k + 1;
    }
    None
}

/// Decodes the input bytes as the character encoding `charset`.
///
/// A byte order mark is removed when it is the one of `charset`. With `Dynamic`, valid UTF-8 is
/// taken as it is; otherwise the first of SHIFT-JIS, EUC-JP, UTF-16 BE and UTF-16 LE in which the
/// input has no malformed sequence is taken, and `UnknownEncoding` is returned when there is none.
pub fn decode(bytes: &[u8], charset: Charset) -> (r: Result<String, UnknownEncoding>)
    requires
        decodable_length(bytes@, charset),
    ensures
        match r {
            Ok(s) => spec_decode(bytes@, charset) == Ok::<Seq<char>, UnknownEncoding>(s@),
            Err(_) => spec_decode(bytes@, charset) is Err,
        },
        charset is Utf8 && valid_utf8(bytes@) && !(bom_of(bytes@) is Utf8) ==> (r matches Ok(s) && s@
            == decode_utf8(bytes@)),
        charset is Utf8 && valid_utf8(bytes@) && bom_of(bytes@) is Utf8 ==> (r matches Ok(s) && s@
            == decode_utf8(bytes@.skip(3))),
{
    let bom = detect_bom(bytes);
    let has_bom = bom_applies(bom, charset);
    if charset != Charset::Dynamic {
        proof {
            if charset is Utf8 && valid_utf8(bytes@) && bom_of(bytes@) is Utf8 {
                assert(is_leading_byte_width_3(bytes@[0]));
                assert(pop_first_scalar(bytes@) =~= bytes@.skip(3));
            }
        }
        return Ok(decode_as(bytes, charset, has_bom));
    }
    if let Some(s) = str_from_utf8(bytes) {
        return Ok(s.to_owned());
    }
    match detect_encoding(bytes) {
        Some(detected) => {
            let has_bom = bom_applies(bom, detected);
            Ok(decode_as(bytes, detected, has_bom))
        },
        None => Err(UnknownEncoding),
    }
}

/// `Dynamic` tries the encodings in the documented order, UTF-8, SHIFT-JIS, EUC-JP, UTF-16 BE and
/// UTF-16 LE, and takes the first in which the input has no malformed sequence. Valid UTF-8 is
/// kept as it is; SHIFT-JIS and EUC-JP input is decoded whole; UTF-16 BE input loses a leading
/// `FE FF`, and UTF-16 LE input a leading `FF FE` unless two zero bytes follow it. When none of
/// them fits, the encoding is unknown.
pub proof fn dynamic_detection_follows_the_documented_order(b: Seq<u8>)
    ensures
        valid_utf8(b) ==> spec_decode(b, Charset::Dynamic) == Ok::<Seq<char>, UnknownEncoding>(
            decode_utf8(b),
        ),
        !valid_utf8(b) && strictly_decoded(Charset::ShiftJis, b) is Some ==> spec_decode(
            b,
            Charset::Dynamic,
        ) == Ok::<Seq<char>, UnknownEncoding>(decoded_without_bom_handling(Charset::ShiftJis, b)),
        !valid_utf8(b) && strictly_decoded(Charset::ShiftJis, b) is None && strictly_decoded(
            Charset::EucJp,
            b,
        ) is Some ==> spec_decode(b, Charset::Dynamic) == Ok::<Seq<char>, UnknownEncoding>(
            decoded_without_bom_handling(Charset::EucJp, b),
        ),
        !valid_utf8(b) && strictly_decoded(Charset::ShiftJis, b) is None && strictly_decoded(
            Charset::EucJp,
            b,
        ) is None && strictly_decoded(Charset::Utf16Be, b) is Some ==> spec_decode(
            b,
            Charset::Dynamic,
        ) == Ok::<Seq<char>, UnknownEncoding>(
            decoded_without_bom_handling(
                Charset::Utf16Be,
                if b.len() >= 2 && b[0] == 0xfe && b[1] == 0xff {
                    b.skip(2)
                } else {
                    b
                },
            ),
        ),
        !valid_utf8(b) && strictly_decoded(Charset::ShiftJis, b) is None && strictly_decoded(
            Charset::EucJp,
            b,
        ) is None && strictly_decoded(Charset::Utf16Be, b) is None && strictly_decoded(
            Charset::Utf16Le,
            b,
        ) is Some ==> spec_decode(b, Charset::Dynamic) == Ok::<Seq<char>, UnknownEncoding>(
            decoded_without_bom_handling(
                Charset::Utf16Le,
                if b.len() >= 2 && b[0] == 0xff && b[1] == 0xfe && !(b.len() >= 4 && b[2] == 0
                    && b[3] == 0) {
                    b.skip(2)
                } else {
                    b
                },
            ),
        ),
        !valid_utf8(b) && strictly_decoded(Charset::ShiftJis, b) is None && strictly_decoded(
            Charset::EucJp,
            b,
        ) is None && strictly_decoded(Charset::Utf16Be, b) is None && strictly_decoded(
            Charset::Utf16Le,
            b,
        ) is None ==> spec_decode(b, Charset::Dynamic) is Err,
{
    let c = dynamic_candidates();
    assert(c.drop_first() =~= seq![Charset::EucJp, Charset::Utf16Be, Charset::Utf16Le]);
    assert(c.drop_first().drop_first() =~= seq![Charset::Utf16Be, Charset::Utf16Le]);
    assert(c.drop_first().drop_first().drop_first() =~= seq![Charset::Utf16Le]);
    assert(c.drop_first().drop_first().drop_first().drop_first() =~= Seq::<Charset>::empty());
    reveal_with_fuel(first_strictly_decodable, 5);
}

} // verus!

//! Byte-level splitting of UTF-8 text on ASCII delimiters, with the lemmas
//! that keep the pieces valid UTF-8.
use vstd::prelude::*;
use vstd::utf8::*;
use vstd::string::*;
use vstd::std_specs::iter::IteratorSpec;

verus! {

broadcast use vstd::utf8::encode_utf8_valid_utf8, vstd::utf8::encode_utf8_decode_utf8;

/// Index of the first occurrence of `d` in `s`, or `s.len()` when there is none.
pub open spec fn find_first<A>(s: Seq<A>, d: A) -> int
    decreases s.len(),
{
    if s.len() == 0 {
        0
    } else if s[0] == d {
        0
    } else {
        1 + find_first(s.drop_first(), d)
    }
}

/// The pieces of `s` between occurrences of `d` (always at least one piece).
pub open spec fn split_seq<A>(s: Seq<A>, d: A) -> Seq<Seq<A>>
    decreases s.len(),
{
    let i = find_first(s, d);
    if i >= s.len() {
        seq![s]
    } else {
        proof {
            lemma_find_first(s, d);
        }
        seq![s.take(i)] + split_seq(s.skip(i + 1), d)
    }
}

/// The pieces joined back together with `d` between them.
pub open spec fn join_seq<A>(pieces: Seq<Seq<A>>, d: A) -> Seq<A>
    decreases pieces.len(),
{
    if pieces.len() == 0 {
        seq![]
    } else if pieces.len() == 1 {
        pieces[0]
    } else {
        pieces[0] + seq![d] + join_seq(pieces.drop_first(), d)
    }
}

/// `find_first` on bytes.
pub open spec fn find_byte(s: Seq<u8>, d: u8) -> int {
    find_first(s, d)
}

/// `split_seq` on bytes.
pub open spec fn split_bytes(s: Seq<u8>, d: u8) -> Seq<Seq<u8>> {
    split_seq(s, d)
}

pub proof fn lemma_find_first<A>(s: Seq<A>, d: A)
    ensures
        0 <= find_first(s, d) <= s.len(),
        find_first(s, d) < s.len() ==> s[find_first(s, d)] == d,
        forall|j: int| 0 <= j < find_first(s, d) ==> s[j] != d,
    decreases s.len(),
{
    if s.len() > 0 && s[0] != d {
        lemma_find_first(s.drop_first(), d);
        assert forall|j: int| 0 <= j < find_first(s, d) implies s[j] != d by {
            if j > 0 {
                assert(s[j] == s.drop_first()[j - 1]);
            }
        }
    }
}

pub proof fn lemma_find_byte(s: Seq<u8>, d: u8)
    ensures
        0 <= find_byte(s, d) <= s.len(),
        find_byte(s, d) < s.len() ==> s[find_byte(s, d)] == d,
        forall|j: int| 0 <= j < find_byte(s, d) ==> s[j] != d,
{
    lemma_find_first(s, d);
}

/// `find_first` is the first occurrence, characterised without recursion.
pub proof fn lemma_find_first_is<A>(s: Seq<A>, d: A, i: int)
    requires
        0 <= i <= s.len(),
        i < s.len() ==> s[i] == d,
        forall|j: int| 0 <= j < i ==> s[j] != d,
    ensures
        find_first(s, d) == i,
    decreases s.len(),
{
    if s.len() > 0 && s[0] != d {
        assert forall|j: int| 0 <= j < i - 1 implies s.drop_first()[j] != d by {
            assert(s[j + 1] != d);
        }
        lemma_find_first_is(s.drop_first(), d, i - 1);
    }
}

pub proof fn lemma_find_byte_is(s: Seq<u8>, d: u8, i: int)
    requires
        0 <= i <= s.len(),
        i < s.len() ==> s[i] == d,
        forall|j: int| 0 <= j < i ==> s[j] != d,
    ensures
        find_byte(s, d) == i,
{
    lemma_find_first_is(s, d, i);
}

/// Splitting never yields an empty list, and every piece is free of `d`.
pub proof fn lemma_split_seq<A>(s: Seq<A>, d: A)
    ensures
        split_seq(s, d).len() >= 1,
        forall|k: int, j: int|
            0 <= k < split_seq(s, d).len() && 0 <= j < split_seq(s, d)[k].len() ==> #[trigger] split_seq(s, d)[k][j] != d,
    decreases s.len(),
{
    lemma_find_first(s, d);
    let i = find_first(s, d);
    if i < s.len() {
        lemma_split_seq(s.skip(i + 1), d);
        let rest = split_seq(s.skip(i + 1), d);
        assert forall|k: int, j: int|
            0 <= k < split_seq(s, d).len() && 0 <= j < split_seq(s, d)[k].len() implies #[trigger] split_seq(s, d)[k][j] != d by {
            if k > 0 {
                assert(split_seq(s, d)[k] == rest[k - 1]);
            }
        }
    }
}

pub proof fn lemma_split_bytes(s: Seq<u8>, d: u8)
    ensures
        split_bytes(s, d).len() >= 1,
        forall|k: int, j: int|
            0 <= k < split_bytes(s, d).len() && 0 <= j < split_bytes(s, d)[k].len() ==> #[trigger] split_bytes(s, d)[k][j] != d,
{
    lemma_split_seq(s, d);
}

/// Joining the pieces of a split with the same delimiter gives back the input.
pub proof fn lemma_join_split<A>(s: Seq<A>, d: A)
    ensures
        join_seq(split_seq(s, d), d) == s,
    decreases s.len(),
{
    lemma_find_first(s, d);
    let i = find_first(s, d);
    if i < s.len() {
        lemma_join_split(s.skip(i + 1), d);
        lemma_split_seq(s.skip(i + 1), d);
        let rest = split_seq(s.skip(i + 1), d);
        assert(split_seq(s, d).drop_first() =~= rest);
        assert(s =~= s.take(i) + seq![d] + s.skip(i + 1));
    }
}

/// Splitting a piece-free sequence that was joined with `d` gives back the pieces.
pub proof fn lemma_split_join<A>(pieces: Seq<Seq<A>>, d: A)
    requires
        pieces.len() >= 1,
        forall|k: int, j: int| 0 <= k < pieces.len() && 0 <= j < pieces[k].len() ==> #[trigger] pieces[k][j] != d,
    ensures
        split_seq(join_seq(pieces, d), d) == pieces,
    decreases pieces.len(),
{
    let s = join_seq(pieces, d);
    if pieces.len() == 1 {
        lemma_find_first_is(s, d, s.len() as int);
        assert(split_seq(s, d) =~= pieces);
    } else {
        let p0 = pieces[0];
        let rest = pieces.drop_first();
        assert forall|k: int, j: int| 0 <= k < rest.len() && 0 <= j < rest[k].len() implies #[trigger] rest[k][j] != d by {
            assert(rest[k] == pieces[k + 1]);
        }
        lemma_split_join(rest, d);
        let t = join_seq(rest, d);
        assert(s == p0 + seq![d] + t);
        assert forall|j: int| 0 <= j < p0.len() implies s[j] != d by {
            assert(s[j] == p0[j]);
            assert(pieces[0][j] != d);
        }
        lemma_find_first_is(s, d, p0.len() as int);
        assert(s.take(p0.len() as int) =~= p0);
        assert(s.skip(p0.len() as int + 1) =~= t);
        assert(split_seq(s, d) =~= pieces);
    }
}

/// An ASCII byte in valid UTF-8 starts a character and is followed by a character boundary.
pub proof fn lemma_ascii_boundaries(bytes: Seq<u8>, i: int)
    requires
        valid_utf8(bytes),
        0 <= i < bytes.len(),
        bytes[i] < 128,
    ensures
        is_char_boundary(bytes, i),
        is_char_boundary(bytes, i + 1),
    decreases bytes.len(),
{
    is_char_boundary_iff_not_is_continuation_byte(bytes, i);
    let l = length_of_first_scalar(bytes);
    let pop = pop_first_scalar(bytes);
    assert(pop.len() == bytes.len() - l);
    if i == 0 {
        assert(l == 1);
        is_char_boundary_start_end_of_seq(pop);
    } else {
        assert(i >= l);
        assert(pop[i - l] == bytes[i]);
        lemma_ascii_boundaries(pop, i - l);
    }
}

/// A character boundary of a sequence stays one in any suffix that starts on a boundary.
pub proof fn lemma_boundary_in_suffix(bytes: Seq<u8>, from: int, to: int)
    requires
        valid_utf8(bytes),
        0 <= from <= to <= bytes.len(),
        is_char_boundary(bytes, from),
        is_char_boundary(bytes, to),
    ensures
        valid_utf8(bytes.subrange(from, bytes.len() as int)),
        is_char_boundary(bytes.subrange(from, bytes.len() as int), to - from),
{
    valid_utf8_split(bytes, from);
    let rest = bytes.subrange(from, bytes.len() as int);
    if to == bytes.len() {
        is_char_boundary_start_end_of_seq(rest);
    } else {
        is_char_boundary_iff_not_is_continuation_byte(bytes, to);
        is_char_boundary_iff_not_is_continuation_byte(rest, to - from);
        assert(rest[to - from] == bytes[to]);
    }
}

/// The substring of `s` between two byte offsets on character boundaries.
pub fn substr<'a>(s: &'a str, from: usize, to: usize) -> (r: &'a str)
    requires
        from <= to <= s.spec_bytes().len(),
        is_char_boundary(s.spec_bytes(), from as int),
        is_char_boundary(s.spec_bytes(), to as int),
    ensures
        r.spec_bytes() == s.spec_bytes().subrange(from as int, to as int),
{
    let ghost b = s.spec_bytes();
    proof {
        lemma_boundary_in_suffix(b, from as int, to as int);
    }
    let (_, rest) = s.split_at(from);
    assert(rest.spec_bytes() =~= b.subrange(from as int, b.len() as int));
    let (mid, _) = rest.split_at(to - from);
    assert(mid.spec_bytes() =~= b.subrange(from as int, to as int));
    mid
}

/// Position of the first `needle` in `hay`, if any.
///
/// Calls `memchr::memchr`, whose documentation promises the index of the first
/// occurrence; the contract states exactly that.
#[verifier::external_body]
pub(crate) fn first_byte_index(needle: u8, hay: &[u8]) -> (r: Option<usize>)
    ensures
        match r {
            Some(i) => i < hay@.len() && hay@[i as int] == needle && forall|j: int|
                0 <= j < i ==> hay@[j] != needle,
            None => forall|j: int| 0 <= j < hay@.len() ==> hay@[j] != needle,
        },
{
    memchr::memchr(needle, hay)
}

/// `first_byte_index` expressed through `find_byte`.
pub fn find_byte_from(hay: &[u8], start: usize, needle: u8) -> (r: usize)
    requires
        start <= hay@.len(),
    ensures
        r == start + find_byte(hay@.skip(start as int), needle),
        start <= r <= hay@.len(),
{
    let tail = vstd::slice::slice_subrange(hay, start, hay.len());
    let ghost t = hay@.skip(start as int);
    assert(tail@ =~= t);
    match first_byte_index(needle, tail) {
        Some(i) => {
            proof {
                lemma_find_byte_is(t, needle, i as int);
            }
            start + i
        },
        None => {
            proof {
                lemma_find_byte_is(t, needle, t.len() as int);
            }
            hay.len()
        },
    }
}

} // verus!

verus! {

/// Encoding a concatenation concatenates the encodings.
pub proof fn lemma_encode_concat(a: Seq<char>, b: Seq<char>)
    ensures
        encode_utf8(a + b) == encode_utf8(a) + encode_utf8(b),
    decreases a.len(),
{
    if a.len() == 0 {
        assert(a + b =~= b);
        assert(encode_utf8(a) + encode_utf8(b) =~= encode_utf8(b));
    } else {
        lemma_encode_concat(a.drop_first(), b);
        assert((a + b).drop_first() =~= a.drop_first() + b);
        assert((a + b)[0] == a[0]);
        assert(encode_utf8(a + b) =~= encode_scalar(a[0] as u32) + (encode_utf8(a.drop_first())
            + encode_utf8(b)));
    }
}

/// An ASCII character is encoded as its own byte, and every byte of the encoding of any other
/// character is at least 0x80.
pub proof fn lemma_encode_scalar_ascii(c: char)
    ensures
        (c as u32) < 128 ==> encode_scalar(c as u32) == seq![c as u32 as u8],
        (c as u32) >= 128 ==> forall|k: int|
            0 <= k < encode_scalar(c as u32).len() ==> #[trigger] encode_scalar(c as u32)[k] >= 128,
        1 <= encode_scalar(c as u32).len() <= 4,
{
    let u = c as u32;
    vstd::utf8::char_is_scalar(c);
    assert(u < 128 ==> (u & 0x7f) as u8 == u as u8) by (bit_vector);
    assert(0xc0u8 | ((u >> 6) & 0x1f) as u8 >= 128) by (bit_vector);
    assert(0xe0u8 | ((u >> 12) & 0x0f) as u8 >= 128) by (bit_vector);
    assert(0xf0u8 | ((u >> 18) & 0x7) as u8 >= 128) by (bit_vector);
    assert(0x80u8 | (u & 0x3f) as u8 >= 128) by (bit_vector);
    assert(0x80u8 | ((u >> 6) & 0x3f) as u8 >= 128) by (bit_vector);
    assert(0x80u8 | ((u >> 12) & 0x3f) as u8 >= 128) by (bit_vector);
}

/// The number of bytes in the UTF-8 encoding of a character.
pub fn char_utf8_len(c: char) -> (r: usize)
    ensures
        r == encode_scalar(c as u32).len(),
        1 <= r <= 4,
{
    proof {
        vstd::utf8::char_is_scalar(c);
    }
    let u = c as u32;
    if u < 0x80 {
        1
    } else if u < 0x800 {
        2
    } else if u < 0x10000 {
        3
    } else {
        4
    }
}

/// A single character is encoded as its scalar.
pub proof fn lemma_encode_single(c: char)
    ensures
        encode_utf8(seq![c]) == encode_scalar(c as u32),
{
    assert(seq![c].drop_first() =~= Seq::<char>::empty());
    assert(encode_utf8(seq![c]) == encode_scalar(seq![c][0] as u32) + encode_utf8(
        seq![c].drop_first(),
    ));
    assert(encode_scalar(c as u32) + Seq::<u8>::empty() =~= encode_scalar(c as u32));
}

/// The encoding of a prefix is a prefix of the encoding, and ends on a character boundary.
pub proof fn lemma_prefix_boundary(s: Seq<char>, k: int)
    requires
        0 <= k <= s.len(),
    ensures
        encode_utf8(s) == encode_utf8(s.take(k)) + encode_utf8(s.skip(k)),
        is_char_boundary(encode_utf8(s), encode_utf8(s.take(k)).len() as int),
        encode_utf8(s.take(k)).len() <= encode_utf8(s).len(),
    decreases k,
{
    assert(s =~= s.take(k) + s.skip(k));
    lemma_encode_concat(s.take(k), s.skip(k));
    if k > 0 {
        let t = s.drop_first();
        lemma_prefix_boundary(t, k - 1);
        vstd::utf8::encode_utf8_first_scalar(s);
        let b = encode_utf8(s);
        let l = encode_scalar(s[0] as u32).len() as int;
        assert(pop_first_scalar(b) =~= encode_utf8(t));
        assert(s.take(k) =~= seq![s[0]] + t.take(k - 1));
        lemma_encode_concat(seq![s[0]], t.take(k - 1));
        lemma_encode_single(s[0]);
        assert(encode_utf8(s.take(k)).len() == l + encode_utf8(t.take(k - 1)).len());
    } else {
        vstd::utf8::is_char_boundary_start_end_of_seq(encode_utf8(s));
    }
}

/// The bytes between two character offsets decode to the characters between them.
pub proof fn lemma_char_range_bytes(s: Seq<char>, i: int, j: int)
    requires
        0 <= i <= j <= s.len(),
    ensures
        encode_utf8(s).subrange(encode_utf8(s.take(i)).len() as int, encode_utf8(s.take(j)).len() as int)
            == encode_utf8(s.subrange(i, j)),
{
    assert(s.take(j) =~= s.take(i) + s.subrange(i, j));
    lemma_encode_concat(s.take(i), s.subrange(i, j));
    lemma_prefix_boundary(s, j);
    let e = encode_utf8(s);
    let a = encode_utf8(s.take(i));
    let m = encode_utf8(s.subrange(i, j));
    assert(e.subrange(a.len() as int, (a.len() + m.len()) as int) =~= m);
}

/// The characters of `s` together with the byte offset of each; the last offset is the length.
pub fn char_table(s: &str) -> (r: (Vec<char>, Vec<usize>))
    ensures
        r.0@ == s@,
        r.1@.len() == s@.len() + 1,
        forall|k: int| 0 <= k <= s@.len() ==> #[trigger] r.1@[k] == encode_utf8(s@.take(k)).len(),
{
    broadcast use vstd::string::axiom_spec_iter;

    let mut chars: Vec<char> = Vec::new();
    let mut offs: Vec<usize> = Vec::new();
    let mut off: usize = 0;
    let byte_len = s.as_bytes().len();
    let mut it = s.chars();
    let ghost total = s@;
    offs.push(0);
    proof {
        assert(total.take(0) =~= Seq::<char>::empty());
    }
    loop
        invariant
            it.obeys_prophetic_iter_laws(),
            chars@ + it.remaining() == total,
            total == s@,
            offs@.len() == chars@.len() + 1,
            off == encode_utf8(total.take(chars@.len() as int)).len(),
            off <= s.spec_bytes().len(),
            byte_len == s.spec_bytes().len(),
            forall|k: int| 0 <= k <= chars@.len() ==> #[trigger] offs@[k] == encode_utf8(total.take(k)).len(),
        ensures
            chars@ == total,
            offs@.len() == chars@.len() + 1,
            forall|k: int| 0 <= k <= chars@.len() ==> #[trigger] offs@[k] == encode_utf8(total.take(k)).len(),
        decreases total.len() - chars@.len(),
    {
        let ghost before = it.remaining();
        match it.next() {
            Some(c) => {
                let ghost n = chars@.len() as int;
                proof {
                    assert(before[0] == c);
                    assert(total[n] == c) by {
                        assert((chars@ + before)[n] == before[0]);
                    }
                    assert(total.take(n + 1) =~= total.take(n) + seq![c]);
                    lemma_encode_concat(total.take(n), seq![c]);
                    lemma_encode_single(c);
                    lemma_prefix_boundary(total, n + 1);
                }
                let w = char_utf8_len(c);
                off = off + w;
                chars.push(c);
                offs.push(off);
                proof {
                    assert(chars@ + it.remaining() =~= total);
                }
            },
            None => {
                proof {
                    assert(chars@ =~= total);
                }
                break;
            },
        }
    }
    (chars, offs)
}

/// The substring of `s` between two character indices, given the byte offsets of its characters.
pub fn char_slice<'a>(s: &'a str, offs: &Vec<usize>, i: usize, j: usize) -> (r: &'a str)
    requires
        i <= j <= s@.len(),
        offs@.len() == s@.len() + 1,
        forall|k: int| 0 <= k <= s@.len() ==> #[trigger] offs@[k] == encode_utf8(s@.take(k)).len(),
    ensures
        r@ == s@.subrange(i as int, j as int),
{
    proof {
        lemma_prefix_boundary(s@, i as int);
        lemma_prefix_boundary(s@, j as int);
        lemma_char_range_bytes(s@, i as int, j as int);
        lemma_prefix_boundary(s@.take(j as int), i as int);
        assert(s@.take(j as int).take(i as int) =~= s@.take(i as int));
        assert(offs@[i as int] == encode_utf8(s@.take(i as int)).len());
        assert(offs@[j as int] == encode_utf8(s@.take(j as int)).len());
    }
    let r = substr(s, offs[i], offs[j]);
    proof {
        vstd::utf8::encode_utf8_decode_utf8(s@.subrange(i as int, j as int));
        vstd::utf8::encode_utf8_decode_utf8(r@);
    }
    r
}

} // verus!

verus! {

/// `find_first` in a concatenation whose first part lacks the element.
pub proof fn lemma_find_first_concat<A>(a: Seq<A>, b: Seq<A>, d: A)
    requires
        forall|j: int| 0 <= j < a.len() ==> a[j] != d,
    ensures
        find_first(a + b, d) == a.len() + find_first(b, d),
{
    lemma_find_first(b, d);
    let s = a + b;
    let i = a.len() + find_first(b, d);
    assert forall|j: int| 0 <= j < i implies s[j] != d by {
        if j < a.len() {
            assert(s[j] == a[j]);
        } else {
            assert(s[j] == b[j - a.len()]);
        }
    }
    if i < s.len() {
        assert(s[i] == b[find_first(b, d)]);
    }
    lemma_find_first_is(s, d, i);
}

/// Two ASCII characters with the same byte are the same character.
pub proof fn lemma_ascii_byte_injective(c: char, d: char)
    requires
        (c as u32) < 128,
        (d as u32) < 128,
        c as u32 as u8 == d as u32 as u8,
    ensures
        c == d,
{
    let u = c as u32;
    let v = d as u32;
    assert(u < 128 && v < 128 && u as u8 == v as u8 ==> u == v) by (bit_vector);
    vstd::utf8::char_u32_cast(c, u);
    vstd::utf8::char_u32_cast(d, v);
}

/// The first occurrence of an ASCII byte in the encoding of `s` is at the byte offset of the
/// first occurrence of its character in `s`.
pub proof fn lemma_find_ascii(s: Seq<char>, d: char)
    requires
        (d as u32) < 128,
    ensures
        find_byte(encode_utf8(s), d as u32 as u8) == encode_utf8(s.take(find_first(s, d))).len(),
    decreases s.len(),
{
    let db = d as u32 as u8;
    let e = encode_utf8(s);
    lemma_find_first(s, d);
    if s.len() == 0 {
        assert(s.take(0) =~= s);
    } else {
        let sc = encode_scalar(s[0] as u32);
        let rest = s.drop_first();
        assert(e == sc + encode_utf8(rest));
        lemma_encode_scalar_ascii(s[0]);
        if s[0] == d {
            assert(e[0] == db);
            lemma_find_byte_is(e, db, 0);
            assert(s.take(0) =~= Seq::<char>::empty());
        } else {
            assert forall|j: int| 0 <= j < sc.len() implies sc[j] != db by {
                if (s[0] as u32) < 128 {
                    if sc[j] == db {
                        lemma_ascii_byte_injective(s[0], d);
                    }
                } else {
                    assert(sc[j] >= 128);
                }
            }
            lemma_find_first_concat(sc, encode_utf8(rest), db);
            lemma_find_ascii(rest, d);
            let f = find_first(rest, d);
            assert(find_first(s, d) == 1 + f);
            assert(s.take(1 + f) =~= seq![s[0]] + rest.take(f));
            lemma_encode_concat(seq![s[0]], rest.take(f));
            lemma_encode_single(s[0]);
        }
    }
}

/// Splitting the encoding of `s` at an ASCII delimiter gives the encodings of the pieces of `s`.
pub proof fn lemma_split_ascii(s: Seq<char>, d: char)
    requires
        (d as u32) < 128,
    ensures
        split_bytes(encode_utf8(s), d as u32 as u8) == split_seq(s, d).map_values(
            |p: Seq<char>| encode_utf8(p),
        ),
    decreases s.len(),
{
    let db = d as u32 as u8;
    let e = encode_utf8(s);
    let i = find_first(s, d);
    lemma_find_first(s, d);
    lemma_find_ascii(s, d);
    lemma_find_byte(e, db);
    let bi = encode_utf8(s.take(i)).len() as int;
    if i >= s.len() {
        assert(s.take(i) =~= s);
        assert(split_seq(s, d).map_values(|p: Seq<char>| encode_utf8(p)) =~= seq![e]);
    } else {
        lemma_prefix_boundary(s, i);
        assert(s.skip(i) =~= seq![d] + s.skip(i + 1));
        lemma_encode_concat(seq![d], s.skip(i + 1));
        lemma_encode_single(d);
        lemma_encode_scalar_ascii(d);
        assert(e =~= encode_utf8(s.take(i)) + seq![db] + encode_utf8(s.skip(i + 1)));
        assert(e.take(bi) =~= encode_utf8(s.take(i)));
        assert(e.skip(bi + 1) =~= encode_utf8(s.skip(i + 1)));
        lemma_split_ascii(s.skip(i + 1), d);
        let rest = split_seq(s.skip(i + 1), d);
        assert(split_seq(s, d) == seq![s.take(i)] + rest);
        assert(split_seq(s, d).map_values(|p: Seq<char>| encode_utf8(p)) =~= seq![
            encode_utf8(s.take(i)),
        ] + rest.map_values(|p: Seq<char>| encode_utf8(p)));
    }
}

} // verus!

verus! {

/// The byte sequences of some strings.
pub open spec fn str_bytes<'a>(v: Seq<&'a str>) -> Seq<Seq<u8>> {
    v.map_values(|x: &'a str| x.spec_bytes())
}

/// The character sequences of some strings.
pub open spec fn str_views<'a>(v: Seq<&'a str>) -> Seq<Seq<char>> {
    v.map_values(|x: &'a str| x@)
}

/// Splits `s` at every occurrence of the ASCII character `d`.
pub fn split_str<'a>(s: &'a str, d: char) -> (r: Vec<&'a str>)
    requires
        (d as u32) < 128,
    ensures
        str_views(r@) == split_seq(s@, d),
{
    let db = (d as u32) as u8;
    let bytes = s.as_bytes();
    let n = bytes.len();
    let ghost b = s.spec_bytes();
    let mut out: Vec<&'a str> = Vec::new();
    let mut from: usize = 0;
    proof {
        is_char_boundary_start_end_of_seq(b);
        assert(b.skip(0) =~= b);
        assert(str_bytes(out@) + split_bytes(b.skip(0), db) =~= split_bytes(b, db));
    }
    loop
        invariant_except_break
            str_bytes(out@) + split_bytes(b.skip(from as int), db) == split_bytes(b, db),
        invariant
            bytes@ == b,
            b == s.spec_bytes(),
            n == b.len(),
            db == d as u32 as u8,
            db < 128,
            from <= n,
            is_char_boundary(b, from as int),
        ensures
            str_bytes(out@) == split_bytes(b, db),
        decreases n - from,
    {
        let ghost rest = b.skip(from as int);
        let i = find_byte_from(bytes, from, db);
        proof {
            lemma_find_byte(rest, db);
            is_char_boundary_start_end_of_seq(b);
        }
        if i == n {
            let piece = substr(s, from, n);
            let ghost before = out@;
            out.push(piece);
            proof {
                assert(piece.spec_bytes() =~= rest);
                assert(split_bytes(rest, db) =~= seq![rest]);
                assert(str_bytes(out@) =~= str_bytes(before) + seq![rest]);
            }
            break;
        }
        proof {
            lemma_ascii_boundaries(b, i as int);
        }
        let piece = substr(s, from, i);
        let ghost before = out@;
        out.push(piece);
        proof {
            assert(piece.spec_bytes() =~= rest.take(i - from));
            assert(rest.skip(i - from + 1) =~= b.skip(i as int + 1));
            assert(split_bytes(rest, db) == seq![rest.take(i - from)] + split_bytes(
                b.skip(i as int + 1),
                db,
            ));
            assert(str_bytes(out@) =~= str_bytes(before) + seq![rest.take(i - from)]);
        }
        from = i + 1;
    }
    proof {
        lemma_split_ascii(s@, d);
        let pieces = split_seq(s@, d);
        assert forall|k: int| 0 <= k < out@.len() implies #[trigger] out@[k]@ == pieces[k] by {
            assert(str_bytes(out@)[k] == out@[k].spec_bytes());
            assert(encode_utf8(out@[k]@) == encode_utf8(pieces[k]));
            vstd::utf8::encode_utf8_decode_utf8(out@[k]@);
            vstd::utf8::encode_utf8_decode_utf8(pieces[k]);
        }
        assert(str_views(out@) =~= pieces);
    }
    out
}

} // verus!

verus! {

/// The `k`-th occurrence of `d` in `s`, counting from 0, or `s.len()` when there are not so many.
pub open spec fn nth_occurrence<A>(s: Seq<A>, k: nat, d: A) -> int
    decreases k,
{
    if k == 0 {
        find_first(s, d)
    } else {
        let p = nth_occurrence(s, (k - 1) as nat, d);
        if p >= s.len() {
            s.len() as int
        } else {
            p + 1 + find_first(s.skip(p + 1), d)
        }
    }
}

/// Where the `k`-th piece between occurrences of `d` starts.
pub open spec fn piece_start<A>(s: Seq<A>, k: nat, d: A) -> int {
    if k == 0 {
        0
    } else {
        nth_occurrence(s, (k - 1) as nat, d) + 1
    }
}

/// Counting occurrences in `s` is counting them after its first occurrence, plus one.
pub proof fn lemma_nth_shift<A>(s: Seq<A>, k: nat, d: A)
    requires
        find_first(s, d) < s.len(),
    ensures
        nth_occurrence(s, k + 1, d) == find_first(s, d) + 1 + nth_occurrence(
            s.skip(find_first(s, d) + 1),
            k,
            d,
        ),
    decreases k,
{
    let i = find_first(s, d);
    let t = s.skip(i + 1);
    lemma_find_first(s, d);
    assert(nth_occurrence(s, 0, d) == i);
    if k == 0 {
        assert(nth_occurrence(s, 1, d) == i + 1 + find_first(t, d));
        assert(nth_occurrence(t, 0, d) == find_first(t, d));
    } else {
        lemma_nth_shift(s, (k - 1) as nat, d);
        lemma_nth_bound(t, (k - 1) as nat, d);
        let q = nth_occurrence(t, (k - 1) as nat, d);
        assert(nth_occurrence(s, k, d) == i + 1 + q);
        if q < t.len() {
            assert(s.skip(i + 1 + q + 1) =~= t.skip(q + 1));
            assert(nth_occurrence(s, k + 1, d) == i + 1 + q + 1 + find_first(s.skip(i + 1 + q + 1), d));
            assert(nth_occurrence(t, k, d) == q + 1 + find_first(t.skip(q + 1), d));
        } else {
            assert(nth_occurrence(s, k + 1, d) == s.len());
            assert(nth_occurrence(t, k, d) == t.len());
        }
    }
}

pub proof fn lemma_nth_bound<A>(s: Seq<A>, k: nat, d: A)
    ensures
        0 <= nth_occurrence(s, k, d) <= s.len(),
        nth_occurrence(s, k, d) < s.len() ==> s[nth_occurrence(s, k, d)] == d,
        0 <= piece_start(s, k, d),
        nth_occurrence(s, k, d) < s.len() ==> piece_start(s, k, d) <= nth_occurrence(s, k, d),
        k > 0 && nth_occurrence(s, (k - 1) as nat, d) < s.len() ==> piece_start(s, k, d) <= nth_occurrence(
            s,
            k,
            d,
        ),
        nth_occurrence(s, k, d) < s.len() ==> forall|j: int|
            piece_start(s, k, d) <= j < nth_occurrence(s, k, d) ==> s[j] != d,
        k > 0 && nth_occurrence(s, (k - 1) as nat, d) < s.len() ==> forall|j: int|
            piece_start(s, k, d) <= j < nth_occurrence(s, k, d) ==> s[j] != d,
        k > 0 && nth_occurrence(s, (k - 1) as nat, d) >= s.len() ==> nth_occurrence(s, k, d) == s.len(),
    decreases k,
{
    if k == 0 {
        lemma_find_first(s, d);
    } else {
        lemma_nth_bound(s, (k - 1) as nat, d);
        let p = nth_occurrence(s, (k - 1) as nat, d);
        if p < s.len() {
            let t = s.skip(p + 1);
            lemma_find_first(t, d);
            assert forall|j: int| p + 1 <= j < nth_occurrence(s, k, d) implies s[j] != d by {
                assert(s[j] == t[j - p - 1]);
            }
            if nth_occurrence(s, k, d) < s.len() {
                assert(s[nth_occurrence(s, k, d)] == t[find_first(t, d)]);
            }
        }
    }
}

/// The `k`-th piece of a split lies between the `k-1`-th and the `k`-th occurrence, and the
/// `k`-th occurrence exists exactly when a piece follows the `k`-th.
pub proof fn lemma_split_pieces<A>(s: Seq<A>, k: nat, d: A)
    ensures
        nth_occurrence(s, k, d) < s.len() <==> k + 1 < split_seq(s, d).len(),
        k < split_seq(s, d).len() ==> split_seq(s, d)[k as int] == s.subrange(
            piece_start(s, k, d),
            nth_occurrence(s, k, d),
        ),
    decreases s.len(),
{
    lemma_find_first(s, d);
    lemma_split_seq(s, d);
    let i = find_first(s, d);
    if i >= s.len() {
        assert(split_seq(s, d).len() == 1);
        if k > 0 {
            lemma_nth_dead(s, k, d);
        } else {
            assert(s.subrange(0, s.len() as int) =~= s);
        }
    } else {
        let t = s.skip(i + 1);
        lemma_split_seq(t, d);
        assert(split_seq(s, d).len() == 1 + split_seq(t, d).len());
        if k > 0 {
            lemma_split_pieces(t, (k - 1) as nat, d);
            lemma_nth_shift(s, (k - 1) as nat, d);
            if k >= 2 {
                lemma_nth_shift(s, (k - 2) as nat, d);
            }
            lemma_nth_bound(t, (k - 1) as nat, d);
            if k < split_seq(s, d).len() {
                assert(split_seq(s, d)[k as int] == split_seq(t, d)[k - 1]);
                let a = piece_start(t, (k - 1) as nat, d);
                let b = nth_occurrence(t, (k - 1) as nat, d);
                if k >= 2 {
                    lemma_nth_bound(t, (k - 2) as nat, d);
                    lemma_split_pieces(t, (k - 2) as nat, d);
                }
                assert(t.subrange(a, b) =~= s.subrange(a + i + 1, b + i + 1));
            }
        }
    }
}

/// Past the end, there are no more occurrences.
proof fn lemma_nth_dead<A>(s: Seq<A>, k: nat, d: A)
    requires
        find_first(s, d) >= s.len(),
    ensures
        nth_occurrence(s, k, d) == s.len(),
    decreases k,
{
    lemma_find_first(s, d);
    if k > 0 {
        lemma_nth_dead(s, (k - 1) as nat, d);
    }
}

} // verus!

verus! {

/// The last occurrence of `d` before index `x`, or -1.
pub open spec fn last_occurrence_below<A>(s: Seq<A>, x: int, d: A) -> int
    decreases x,
{
    if x <= 0 {
        -1
    } else if s[x - 1] == d {
        x - 1
    } else {
        last_occurrence_below(s, x - 1, d)
    }
}

pub proof fn lemma_last_below_is<A>(s: Seq<A>, x: int, p: int, d: A)
    requires
        -1 <= p < x <= s.len(),
        p >= 0 ==> s[p] == d,
        forall|j: int| p < j < x ==> s[j] != d,
    ensures
        last_occurrence_below(s, x, d) == p,
    decreases x,
{
    if x - 1 > p {
        lemma_last_below_is(s, x - 1, p, d);
    }
}

/// Below the `k`-th occurrence, the last occurrence is the one before it.
pub proof fn lemma_last_below_nth<A>(s: Seq<A>, k: nat, d: A)
    requires
        k == 0 || nth_occurrence(s, (k - 1) as nat, d) < s.len(),
    ensures
        last_occurrence_below(s, nth_occurrence(s, k, d), d) == (if k == 0 {
            -1
        } else {
            nth_occurrence(s, (k - 1) as nat, d)
        }),
{
    lemma_nth_bound(s, k, d);
    if k == 0 {
        lemma_find_first(s, d);
        lemma_last_below_is(s, nth_occurrence(s, 0, d), -1, d);
    } else {
        lemma_nth_bound(s, (k - 1) as nat, d);
        lemma_last_below_is(s, nth_occurrence(s, k, d), nth_occurrence(s, (k - 1) as nat, d), d);
    }
}

/// Position of the last `needle` in `hay`, if any.
///
/// Calls `memchr::memrchr`, whose documentation promises the index of the last occurrence; the
/// contract states exactly that.
#[verifier::external_body]
pub(crate) fn last_byte_index(needle: u8, hay: &[u8]) -> (r: Option<usize>)
    ensures
        match r {
            Some(i) => i < hay@.len() && hay@[i as int] == needle && forall|j: int|
                i < j < hay@.len() ==> hay@[j] != needle,
            None => forall|j: int| 0 <= j < hay@.len() ==> hay@[j] != needle,
        },
{
    memchr::memrchr(needle, hay)
}

/// The last occurrence of `needle` in `hay` before `end`, or -1 as `None`.
pub fn rfind_byte_before(hay: &[u8], end: usize, needle: u8) -> (r: Option<usize>)
    requires
        end <= hay@.len(),
    ensures
        match r {
            Some(i) => i == last_occurrence_below(hay@, end as int, needle),
            None => last_occurrence_below(hay@, end as int, needle) == -1,
        },
{
    let head = vstd::slice::slice_subrange(hay, 0, end);
    match last_byte_index(needle, head) {
        Some(i) => {
            proof {
                assert forall|j: int| i < j < end implies hay@[j] != needle by {
                    assert(head@[j] == hay@[j]);
                }
                lemma_last_below_is(hay@, end as int, i as int, needle);
            }
            Some(i)
        },
        None => {
            proof {
                assert forall|j: int| -1 < j < end implies hay@[j] != needle by {
                    assert(head@[j] == hay@[j]);
                }
                lemma_last_below_is(hay@, end as int, -1, needle);
            }
            None
        },
    }
}

} // verus!

verus! {

/// Splits `s` at the first occurrence of the ASCII character `d`, if there is one.
pub fn split_once_ascii<'a>(s: &'a str, d: char) -> (r: Option<(&'a str, &'a str)>)
    requires
        (d as u32) < 128,
    ensures
        match r {
            Some((a, b)) => find_first(s@, d) < s@.len() && a@ == s@.take(find_first(s@, d)) && b@
                == s@.skip(find_first(s@, d) + 1),
            None => find_first(s@, d) >= s@.len(),
        },
{
    let ghost tb = s.spec_bytes();
    let ghost tc = s@;
    let db = (d as u32) as u8;
    let bytes = s.as_bytes();
    let t = find_byte_from(bytes, 0, db);
    proof {
        assert(tb.skip(0) =~= tb);
        lemma_find_byte(tb, db);
        lemma_find_first(tc, d);
        lemma_find_ascii(tc, d);
        is_char_boundary_start_end_of_seq(tb);
    }
    let ghost f = find_first(tc, d);
    if t < bytes.len() {
        proof {
            lemma_ascii_boundaries(tb, t as int);
            lemma_prefix_boundary(tc, f);
            assert(tc.skip(f) =~= seq![d] + tc.skip(f + 1));
            lemma_encode_concat(seq![d], tc.skip(f + 1));
            lemma_encode_single(d);
            lemma_encode_scalar_ascii(d);
        }
        let a = substr(s, 0, t);
        let b = substr(s, t + 1, bytes.len());
        proof {
            assert(a.spec_bytes() =~= encode_utf8(tc.take(f)));
            assert(b.spec_bytes() =~= encode_utf8(tc.skip(f + 1)));
            vstd::utf8::encode_utf8_decode_utf8(a@);
            vstd::utf8::encode_utf8_decode_utf8(tc.take(f));
            vstd::utf8::encode_utf8_decode_utf8(b@);
            vstd::utf8::encode_utf8_decode_utf8(tc.skip(f + 1));
        }
        Some((a, b))
    } else {
        proof {
            if f < tc.len() {
                lemma_prefix_boundary(tc, f);
                lemma_encode_scalar_ascii(tc.skip(f)[0]);
                assert(encode_utf8(tc.skip(f)).len() >= 1);
            }
        }
        None
    }
}

} // verus!

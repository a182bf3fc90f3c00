//! Splitting bytes at delimiters that are not escaped, through `escaped-delimiter`.
//!
//! A delimiter is open when an even number of escape bytes precede it. The crate's `Iter` splits
//! at open delimiters from the front, and its `Cursor` moves between the segments in both
//! directions.
use vstd::prelude::*;
use escaped_delimiter::{Cursor, CursorPosition, Iter};

verus! {

#[verifier::external_type_specification]
#[verifier::external_body]
pub struct ExEscapedIter<'a>(Iter<'a>);

#[verifier::external_type_specification]
#[verifier::external_body]
pub struct ExEscapedCursor<'a>(Cursor<'a>);

/// Number of `e` bytes at the end of `s`.
pub open spec fn trailing_escapes(s: Seq<u8>, e: u8) -> nat
    decreases s.len(),
{
    if s.len() == 0 {
        0
    } else if s.last() == e {
        1 + trailing_escapes(s.drop_last(), e)
    } else {
        0
    }
}

/// `h[i]` is the delimiter `d` and an even number of escapes `e` precede it.
pub open spec fn is_open_delim(h: Seq<u8>, i: int, d: u8, e: u8) -> bool {
    0 <= i < h.len() && h[i] == d && trailing_escapes(h.take(i), e) % 2 == 0
}

/// The first open delimiter at or after `k`, or `h.len()`.
pub open spec fn next_open_delim(h: Seq<u8>, k: int, d: u8, e: u8) -> int
    decreases h.len() - k,
{
    if k >= h.len() {
        h.len() as int
    } else if is_open_delim(h, k, d, e) {
        k
    } else {
        next_open_delim(h, k + 1, d, e)
    }
}

/// The first open delimiter of `h`, or `h.len()`.
pub open spec fn find_open_delim(h: Seq<u8>, d: u8, e: u8) -> int {
    next_open_delim(h, 0, d, e)
}

/// The last open delimiter before `k`, or `h.len()` when there is none.
pub open spec fn prev_open_delim(h: Seq<u8>, k: int, d: u8, e: u8) -> int
    decreases k,
{
    if k <= 0 {
        h.len() as int
    } else if is_open_delim(h, k - 1, d, e) {
        k - 1
    } else {
        prev_open_delim(h, k - 1, d, e)
    }
}

/// The last open delimiter of `h`, or `h.len()`.
pub open spec fn rfind_open_delim(h: Seq<u8>, d: u8, e: u8) -> int {
    prev_open_delim(h, h.len() as int, d, e)
}

/// The segments of `h` between its open delimiters, from the front.
pub open spec fn escaped_split(h: Seq<u8>, d: u8, e: u8) -> Seq<Seq<u8>>
    decreases h.len(),
{
    let i = find_open_delim(h, d, e);
    if i >= h.len() {
        seq![h]
    } else {
        proof {
            lemma_next_open(h, 0, d, e);
        }
        seq![h.take(i)] + escaped_split(h.skip(i + 1), d, e)
    }
}

/// The state of an `Iter`: the bytes not yet split, if any, and its delimiter and escape.
pub struct IterView {
    pub rest: Option<Seq<u8>>,
    pub delim: u8,
    pub escape: u8,
}

/// What an `Iter` of `escaped-delimiter` holds.
pub uninterp spec fn iter_view(it: Iter<'_>) -> IterView;

/// Where a `Cursor` stands (`CursorPosition` of `escaped-delimiter`).
#[derive(Debug, Clone, Copy, PartialEq, Eq, Structural)]
pub enum Place {
    Empty,
    Start,
    Middle,
    End,
}

/// The state of a `Cursor`: the whole input, its delimiter and escape, the current segment as
/// a range, and its place.
pub struct CursorView {
    pub entire: Seq<u8>,
    pub delim: u8,
    pub escape: u8,
    pub start: int,
    pub end: int,
    pub place: Place,
}

/// What a `Cursor` of `escaped-delimiter` holds.
pub uninterp spec fn cursor_view(c: Cursor<'_>) -> CursorView;

/// The state after `Cursor::move_next`, as its source computes it.
pub open spec fn after_move_next(v: CursorView) -> CursorView {
    if v.place is Empty || v.place is End {
        v
    } else if v.end == v.entire.len() {
        CursorView { start: v.end, place: Place::End, ..v }
    } else {
        let start = if v.place is Start {
            0
        } else {
            v.end + 1
        };
        let end = start + find_open_delim(v.entire.skip(start), v.delim, v.escape);
        CursorView { start, end, place: Place::Middle, ..v }
    }
}

/// The state after `Cursor::move_prev`, as its source computes it.
pub open spec fn after_move_prev(v: CursorView) -> CursorView {
    if v.place is Empty || v.place is Start {
        v
    } else if v.start == 0 {
        CursorView { end: 0, place: Place::Start, ..v }
    } else {
        let end = if v.place is End {
            v.entire.len() as int
        } else {
            v.start - 1
        };
        let i = rfind_open_delim(v.entire.take(end), v.delim, v.escape);
        let start = if i == end || end == 0 {
            0
        } else {
            i + 1
        };
        CursorView { start, end, place: Place::Middle, ..v }
    }
}

/// Calls `escaped_delimiter::iter`: an iterator over the segments of the whole `slice`.
#[verifier::external_body]
pub(crate) fn escaped_iter<'a>(slice: &'a [u8], delim: u8, escape: u8) -> (r: Iter<'a>)
    ensures
        iter_view(r) == (IterView { rest: Some(slice@), delim, escape }),
{
    escaped_delimiter::iter(slice, delim, escape)
}

/// Calls `Iter::next`. As its source shows, it hands out the bytes before the first open
/// delimiter and keeps those after it, or hands out all the rest when there is no open delimiter.
#[verifier::external_body]
pub(crate) fn iter_next<'a>(it: &mut Iter<'a>) -> (r: Option<&'a [u8]>)
    ensures
        iter_view(*final(it)).delim == iter_view(*old(it)).delim,
        iter_view(*final(it)).escape == iter_view(*old(it)).escape,
        match iter_view(*old(it)).rest {
            None => r is None && iter_view(*final(it)).rest is None,
            Some(h) => {
                let i = find_open_delim(h, iter_view(*old(it)).delim, iter_view(*old(it)).escape);
                if i >= h.len() {
                    r matches Some(p) && p@ == h && iter_view(*final(it)).rest is None
                } else {
                    r matches Some(p) && p@ == h.take(i) && iter_view(*final(it)).rest == Some(
                        h.skip(i + 1),
                    )
                }
            },
        },
{
    it.next()
}

/// Calls `Iter::as_slice`: the bytes not yet split, if any.
#[verifier::external_body]
pub(crate) fn iter_as_slice<'a>(it: &Iter<'a>) -> (r: Option<&'a [u8]>)
    ensures
        match r {
            Some(s) => iter_view(*it).rest == Some(s@),
            None => iter_view(*it).rest is None,
        },
{
    it.as_slice()
}

/// Calls `escaped_delimiter::cursor`: a cursor on the first segment, or on nothing when the input
/// is empty.
#[verifier::external_body]
pub(crate) fn escaped_cursor<'a>(slice: &'a [u8], delim: u8, escape: u8) -> (r: Cursor<'a>)
    ensures
        cursor_view(r) == (if slice@.len() == 0 {
            CursorView { entire: slice@, delim, escape, start: 0, end: 0, place: Place::Empty }
        } else {
            CursorView {
                entire: slice@,
                delim,
                escape,
                start: 0,
                end: find_open_delim(slice@, delim, escape),
                place: Place::Middle,
            }
        }),
{
    escaped_delimiter::cursor(slice, delim, escape)
}

/// Calls `Cursor::curr_range`: the range of the current segment.
#[verifier::external_body]
pub(crate) fn cursor_range(c: &Cursor<'_>) -> (r: (usize, usize))
    ensures
        r.0 == cursor_view(*c).start,
        r.1 == cursor_view(*c).end,
{
    let range = c.curr_range();
    (range.start, range.end)
}

/// Calls `Cursor::position`.
#[verifier::external_body]
pub(crate) fn cursor_place(c: &Cursor<'_>) -> (r: Place)
    ensures
        r == cursor_view(*c).place,
{
    match c.position() {
        CursorPosition::Empty => Place::Empty,
        CursorPosition::Start => Place::Start,
        CursorPosition::Middle => Place::Middle,
        CursorPosition::End => Place::End,
    }
}

/// Calls `Cursor::move_next`, whose source computes `after_move_next`.
#[verifier::external_body]
pub(crate) fn cursor_move_next(c: &mut Cursor<'_>)
    ensures
        cursor_view(*final(c)) == after_move_next(cursor_view(*old(c))),
{
    c.move_next()
}

/// Calls `Cursor::move_prev`, whose source computes `after_move_prev`.
#[verifier::external_body]
pub(crate) fn cursor_move_prev(c: &mut Cursor<'_>)
    ensures
        cursor_view(*final(c)) == after_move_prev(cursor_view(*old(c))),
{
    c.move_prev()
}

pub proof fn lemma_next_open(h: Seq<u8>, k: int, d: u8, e: u8)
    requires
        0 <= k,
    ensures
        k <= h.len() ==> k <= next_open_delim(h, k, d, e),
        next_open_delim(h, k, d, e) <= h.len(),
        next_open_delim(h, k, d, e) < h.len() ==> is_open_delim(h, next_open_delim(h, k, d, e), d, e),
        forall|i: int| k <= i < next_open_delim(h, k, d, e) ==> !is_open_delim(h, i, d, e),
    decreases h.len() - k,
{
    if k < h.len() && !is_open_delim(h, k, d, e) {
        lemma_next_open(h, k + 1, d, e);
    }
}

pub proof fn lemma_next_open_is(h: Seq<u8>, k: int, p: int, d: u8, e: u8)
    requires
        0 <= k <= p <= h.len(),
        p < h.len() ==> is_open_delim(h, p, d, e),
        forall|i: int| k <= i < p ==> !is_open_delim(h, i, d, e),
    ensures
        next_open_delim(h, k, d, e) == p,
    decreases h.len() - k,
{
    if k < p {
        lemma_next_open_is(h, k + 1, p, d, e);
    }
}

/// The escapes that end a suffix starting after a non-escape are those that end the prefix.
pub proof fn lemma_trailing_in_suffix(h: Seq<u8>, s: int, i: int, e: u8)
    requires
        0 <= s <= i <= h.len(),
        s == 0 || h[s - 1] != e,
    ensures
        trailing_escapes(h.skip(s).take(i - s), e) == trailing_escapes(h.take(i), e),
    decreases i - s,
{
    if i == s {
        assert(h.skip(s).take(0) =~= Seq::<u8>::empty());
        if s > 0 {
            assert(h.take(s).last() == h[s - 1]);
        } else {
            assert(h.take(0) =~= Seq::<u8>::empty());
        }
    } else {
        lemma_trailing_in_suffix(h, s, i - 1, e);
        assert(h.skip(s).take(i - s).drop_last() =~= h.skip(s).take(i - 1 - s));
        assert(h.take(i).drop_last() =~= h.take(i - 1));
        assert(h.skip(s).take(i - s).last() == h[i - 1]);
        assert(h.take(i).last() == h[i - 1]);
    }
}

/// Searching a suffix that starts after a non-escape finds the open delimiters of the whole.
pub proof fn lemma_find_in_suffix(h: Seq<u8>, s: int, d: u8, e: u8)
    requires
        0 <= s <= h.len(),
        s == 0 || h[s - 1] != e,
    ensures
        s + find_open_delim(h.skip(s), d, e) == next_open_delim(h, s, d, e),
{
    let t = h.skip(s);
    assert forall|j: int| 0 <= j < t.len() implies is_open_delim(t, j, d, e) == is_open_delim(
        h,
        s + j,
        d,
        e,
    ) by {
        lemma_trailing_in_suffix(h, s, s + j, e);
        assert(t[j] == h[s + j]);
    }
    lemma_next_open(t, 0, d, e);
    let f = find_open_delim(t, d, e);
    if f < t.len() {
        assert(is_open_delim(h, s + f, d, e));
    }
    assert forall|i: int| s <= i < s + f implies !is_open_delim(h, i, d, e) by {
        assert(!is_open_delim(t, i - s, d, e));
    }
    lemma_next_open_is(h, s, s + f, d, e);
}

/// The last open delimiter before `k`, or -1.
pub open spec fn last_open_below(h: Seq<u8>, k: int, d: u8, e: u8) -> int
    decreases k,
{
    if k <= 0 {
        -1
    } else if is_open_delim(h, k - 1, d, e) {
        k - 1
    } else {
        last_open_below(h, k - 1, d, e)
    }
}

pub proof fn lemma_last_open_is(h: Seq<u8>, k: int, p: int, d: u8, e: u8)
    requires
        -1 <= p < k <= h.len(),
        p >= 0 ==> is_open_delim(h, p, d, e),
        forall|i: int| p < i < k ==> !is_open_delim(h, i, d, e),
    ensures
        last_open_below(h, k, d, e) == p,
    decreases k,
{
    if k - 1 > p {
        lemma_last_open_is(h, k - 1, p, d, e);
    }
}

/// Searching backwards in a prefix finds the open delimiters of the whole.
pub proof fn lemma_rfind_in_prefix(h: Seq<u8>, end: int, d: u8, e: u8)
    requires
        0 <= end <= h.len(),
    ensures
        rfind_open_delim(h.take(end), d, e) == (if last_open_below(h, end, d, e) < 0 {
            end
        } else {
            last_open_below(h, end, d, e)
        }),
{
    let t = h.take(end);
    assert forall|i: int| 0 <= i < end implies is_open_delim(t, i, d, e) == is_open_delim(h, i, d, e) by {
        assert(t.take(i) =~= h.take(i));
    }
    lemma_prev_matches(h, end, end, d, e);
}

proof fn lemma_prev_matches(h: Seq<u8>, end: int, k: int, d: u8, e: u8)
    requires
        0 <= k <= end <= h.len(),
        forall|i: int| 0 <= i < end ==> is_open_delim(h.take(end), i, d, e) == is_open_delim(h, i, d, e),
    ensures
        prev_open_delim(h.take(end), k, d, e) == (if last_open_below(h, k, d, e) < 0 {
            end
        } else {
            last_open_below(h, k, d, e)
        }),
    decreases k,
{
    if k > 0 {
        lemma_prev_matches(h, end, k - 1, d, e);
    }
}

} // verus!

verus! {

/// The segments of a text, joined again with the delimiter, give back the text: splitting at open
/// delimiters loses nothing.
pub proof fn escaped_split_rejoins(h: Seq<u8>, d: u8, e: u8)
    ensures
        crate::text::join_seq(escaped_split(h, d, e), d) == h,
    decreases h.len(),
{
    lemma_next_open(h, 0, d, e);
    let i = find_open_delim(h, d, e);
    if i < h.len() {
        escaped_split_rejoins(h.skip(i + 1), d, e);
        let rest = escaped_split(h.skip(i + 1), d, e);
        assert(escaped_split(h, d, e).drop_first() =~= rest);
        assert(h =~= h.take(i) + seq![d] + h.skip(i + 1));
        if rest.len() == 0 {
            assert(false) by {
                lemma_escaped_split_nonempty(h.skip(i + 1), d, e);
            }
        }
    }
}

pub proof fn lemma_escaped_split_nonempty(h: Seq<u8>, d: u8, e: u8)
    ensures
        escaped_split(h, d, e).len() >= 1,
    decreases h.len(),
{
    lemma_next_open(h, 0, d, e);
    let i = find_open_delim(h, d, e);
    if i < h.len() {
        lemma_escaped_split_nonempty(h.skip(i + 1), d, e);
    }
}

} // verus!

//! The segments of an escaped text: the pieces between its open delimiters, counted from the
//! front, and how an `escaped-delimiter` cursor walks over them.
use vstd::prelude::*;
use super::escaped::{
    CursorView, Place, after_move_next, after_move_prev, find_open_delim, is_open_delim,
    last_open_below, lemma_find_in_suffix, lemma_last_open_is, lemma_next_open, lemma_rfind_in_prefix,
    next_open_delim,
};

verus! {

/// The `k`-th open delimiter of `h`, counting from 0, or `h.len()` when there are not so many.
pub open spec fn nth_open_delim(h: Seq<u8>, k: nat, d: u8, e: u8) -> int
    decreases k,
{
    if k == 0 {
        next_open_delim(h, 0, d, e)
    } else {
        let p = nth_open_delim(h, (k - 1) as nat, d, e);
        if p >= h.len() {
            h.len() as int
        } else {
            next_open_delim(h, p + 1, d, e)
        }
    }
}

/// The number of open delimiters at or after `i`.
pub open spec fn open_count_from(h: Seq<u8>, i: int, d: u8, e: u8) -> nat
    decreases h.len() - i,
{
    if i < 0 || i >= h.len() {
        0
    } else {
        (if is_open_delim(h, i, d, e) {
            1nat
        } else {
            0nat
        }) + open_count_from(h, i + 1, d, e)
    }
}

/// The number of segments of `h`: one more than its open delimiters.
pub open spec fn segment_count(h: Seq<u8>, d: u8, e: u8) -> nat {
    1 + open_count_from(h, 0, d, e)
}

/// Where the `k`-th segment starts.
pub open spec fn segment_start(h: Seq<u8>, k: nat, d: u8, e: u8) -> int {
    if k == 0 {
        0
    } else {
        nth_open_delim(h, (k - 1) as nat, d, e) + 1
    }
}

/// The `k`-th segment of `h`.
pub open spec fn segment(h: Seq<u8>, k: nat, d: u8, e: u8) -> Seq<u8> {
    h.subrange(segment_start(h, k, d, e), nth_open_delim(h, k, d, e))
}

/// The segments of `h`, in order.
pub open spec fn segments(h: Seq<u8>, d: u8, e: u8) -> Seq<Seq<u8>> {
    Seq::new(segment_count(h, d, e), |k: int| segment(h, k as nat, d, e))
}

/// A cursor over `h` stands on the `k`-th segment, or past the last one when `k` is the count.
pub open spec fn cursor_at(v: CursorView, h: Seq<u8>, d: u8, e: u8, k: nat) -> bool {
    &&& v.entire == h
    &&& v.delim == d
    &&& v.escape == e
    &&& h.len() > 0
    &&& k <= segment_count(h, d, e)
    &&& (k < segment_count(h, d, e) ==> v.place is Middle && v.start == segment_start(h, k, d, e)
        && v.end == nth_open_delim(h, k, d, e))
    &&& (k == segment_count(h, d, e) ==> v.place is End && v.start == h.len() && v.end == h.len())
}

pub proof fn lemma_count_next(h: Seq<u8>, s: int, d: u8, e: u8)
    requires
        0 <= s <= h.len(),
    ensures
        next_open_delim(h, s, d, e) < h.len() ==> open_count_from(h, s, d, e) == 1 + open_count_from(
            h,
            next_open_delim(h, s, d, e) + 1,
            d,
            e,
        ),
        next_open_delim(h, s, d, e) >= h.len() ==> open_count_from(h, s, d, e) == 0,
    decreases h.len() - s,
{
    if s < h.len() && !is_open_delim(h, s, d, e) {
        lemma_count_next(h, s + 1, d, e);
    }
}

/// The `k`-th open delimiter exists exactly when there are more than `k`; each lies after the
/// one before, with no open delimiter between them.
pub proof fn lemma_nth(h: Seq<u8>, k: nat, d: u8, e: u8)
    ensures
        k < open_count_from(h, 0, d, e) ==> {
            &&& nth_open_delim(h, k, d, e) < h.len()
            &&& is_open_delim(h, nth_open_delim(h, k, d, e), d, e)
            &&& open_count_from(h, nth_open_delim(h, k, d, e) + 1, d, e) == open_count_from(h, 0, d, e)
                - k - 1
        },
        k >= open_count_from(h, 0, d, e) ==> nth_open_delim(h, k, d, e) == h.len(),
        k <= open_count_from(h, 0, d, e) ==> 0 <= segment_start(h, k, d, e) <= nth_open_delim(
            h,
            k,
            d,
            e,
        ) <= h.len(),
        k <= open_count_from(h, 0, d, e) ==> forall|i: int|
            segment_start(h, k, d, e) <= i < nth_open_delim(h, k, d, e) ==> !is_open_delim(h, i, d, e),
    decreases k,
{
    let c = open_count_from(h, 0, d, e);
    if k == 0 {
        lemma_next_open(h, 0, d, e);
        lemma_count_next(h, 0, d, e);
    } else {
        lemma_nth(h, (k - 1) as nat, d, e);
        let p = nth_open_delim(h, (k - 1) as nat, d, e);
        if p < h.len() {
            lemma_next_open(h, p + 1, d, e);
            lemma_count_next(h, p + 1, d, e);
        }
    }
}

/// Below the `k`-th open delimiter, the last open delimiter is the one before it.
pub proof fn lemma_last_below_nth(h: Seq<u8>, k: nat, d: u8, e: u8)
    requires
        k <= open_count_from(h, 0, d, e),
    ensures
        last_open_below(h, nth_open_delim(h, k, d, e), d, e) == (if k == 0 {
            -1
        } else {
            nth_open_delim(h, (k - 1) as nat, d, e)
        }),
{
    lemma_nth(h, k, d, e);
    if k == 0 {
        lemma_last_open_is(h, nth_open_delim(h, 0, d, e), -1, d, e);
    } else {
        lemma_nth(h, (k - 1) as nat, d, e);
        lemma_last_open_is(h, nth_open_delim(h, k, d, e), nth_open_delim(h, (k - 1) as nat, d, e), d, e);
    }
}

/// A fresh cursor on non-empty input stands on the first segment.
pub proof fn lemma_cursor_start(v: CursorView, h: Seq<u8>, d: u8, e: u8)
    requires
        h.len() > 0,
        v == (CursorView {
            entire: h,
            delim: d,
            escape: e,
            start: 0,
            end: find_open_delim(h, d, e),
            place: Place::Middle,
        }),
    ensures
        cursor_at(v, h, d, e, 0),
{
    lemma_nth(h, 0, d, e);
}

/// Moving a cursor forward goes to the next segment, or past the last one.
pub proof fn lemma_cursor_next(v: CursorView, h: Seq<u8>, d: u8, e: u8, k: nat)
    requires
        cursor_at(v, h, d, e, k),
        k < segment_count(h, d, e),
        d != e,
    ensures
        cursor_at(after_move_next(v), h, d, e, k + 1),
{
    lemma_nth(h, k, d, e);
    let c = open_count_from(h, 0, d, e);
    let p = nth_open_delim(h, k, d, e);
    if p < h.len() {
        assert(k < c);
        lemma_find_in_suffix(h, p + 1, d, e);
        lemma_nth(h, k + 1, d, e);
    }
}

/// Moving a cursor backward from a segment after the first, or from past the last one, goes to
/// the segment before.
pub proof fn lemma_cursor_prev(v: CursorView, h: Seq<u8>, d: u8, e: u8, k: nat)
    requires
        cursor_at(v, h, d, e, k),
        k >= 1,
    ensures
        cursor_at(after_move_prev(v), h, d, e, (k - 1) as nat),
{
    let c = open_count_from(h, 0, d, e);
    let j = (k - 1) as nat;
    lemma_nth(h, j, d, e);
    if j >= 1 {
        lemma_nth(h, (j - 1) as nat, d, e);
    }
    if k == segment_count(h, d, e) {
        assert(j == c);
        assert(nth_open_delim(h, j, d, e) == h.len());
    } else {
        assert(j < c);
    }
    let end = nth_open_delim(h, j, d, e);
    lemma_last_below_nth(h, j, d, e);
    lemma_rfind_in_prefix(h, end, d, e);
    if j >= 1 {
        lemma_nth(h, (j - 1) as nat, d, e);
    }
}

} // verus!

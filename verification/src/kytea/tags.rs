//! The tags of a KyTea token and the orders in which they are handed out.
use vstd::prelude::*;
use vstd::string::*;
use vstd::utf8::*;
use escaped_delimiter::Cursor;
use crate::tokenizer_core::{ESCAPE, TAG, Tag, TagView, tag_views};
use crate::text::{lemma_ascii_boundaries, substr};
use super::escaped::{
    CursorView, Place, after_move_next, cursor_move_next, cursor_move_prev, cursor_place,
    cursor_range, cursor_view, escaped_cursor, is_open_delim,
};
use super::segments::{
    cursor_at, lemma_cursor_next, lemma_cursor_prev, lemma_cursor_start, lemma_nth,
    nth_open_delim, open_count_from, segment, segment_count, segment_start, segments,
};

verus! {

broadcast use vstd::utf8::encode_utf8_valid_utf8, vstd::utf8::encode_utf8_decode_utf8;

/// The tag that a segment of escaped bytes stands for.
pub open spec fn escaped_tag(b: Seq<u8>) -> TagView {
    TagView::Escaped(decode_utf8(b))
}

/// All tags of a token whose tags text is `h`: its segments, or none when `h` is empty.
pub open spec fn all_tags(h: Seq<u8>) -> Seq<TagView> {
    if h.len() == 0 {
        seq![]
    } else {
        segments(h, TAG, ESCAPE).map_values(|s: Seq<u8>| escaped_tag(s))
    }
}

/// The tag at position `idx` of the tags text `h`, or an empty tag when there is none.
pub open spec fn selected_tag(h: Seq<u8>, idx: int) -> TagView {
    if h.len() > 0 && idx < segment_count(h, TAG, ESCAPE) {
        escaped_tag(segment(h, idx as nat, TAG, ESCAPE))
    } else {
        TagView::Escaped(seq![])
    }
}

/// The tags at the given positions, in the given order.
pub open spec fn selected_tags(h: Seq<u8>, index: Seq<usize>) -> Seq<TagView> {
    index.map_values(|i: usize| selected_tag(h, i as int))
}

/// The segment bounds of valid UTF-8 are character boundaries.
pub proof fn lemma_segment_boundaries(h: Seq<u8>, k: nat)
    requires
        valid_utf8(h),
        k <= open_count_from(h, 0, TAG, ESCAPE),
    ensures
        is_char_boundary(h, segment_start(h, k, TAG, ESCAPE)),
        is_char_boundary(h, nth_open_delim(h, k, TAG, ESCAPE)),
{
    lemma_nth(h, k, TAG, ESCAPE);
    is_char_boundary_start_end_of_seq(h);
    if k < open_count_from(h, 0, TAG, ESCAPE) {
        lemma_ascii_boundaries(h, nth_open_delim(h, k, TAG, ESCAPE));
    }
    if k > 0 {
        lemma_nth(h, (k - 1) as nat, TAG, ESCAPE);
        lemma_ascii_boundaries(h, nth_open_delim(h, (k - 1) as nat, TAG, ESCAPE));
    }
}

/// The tags of a KyTea token, walked over by a cursor of `escaped-delimiter`.
pub struct KyTeaTags<'t> {
    text: &'t str,
    tags: Cursor<'t>,
    pos: Ghost<nat>,
}

impl<'t> KyTeaTags<'t> {
    /// The tags text.
    pub closed spec fn text(self) -> &'t str {
        self.text
    }

    /// The cursor stands on the segment counted by `pos`, or on nothing for an empty text.
    pub closed spec fn wf(self) -> bool {
        let v = cursor_view(self.tags);
        let h = self.text.spec_bytes();
        if h.len() == 0 {
            self.pos@ == 0 && v == (CursorView {
                entire: h,
                delim: TAG,
                escape: ESCAPE,
                start: 0,
                end: 0,
                place: Place::Empty,
            })
        } else {
            cursor_at(v, h, TAG, ESCAPE, self.pos@)
        }
    }

    /// The cursor stands on the first segment.
    pub closed spec fn fresh(self) -> bool {
        self.wf() && self.pos@ == 0
    }

    /// The tags still to come.
    pub closed spec fn remaining(self) -> Seq<TagView> {
        all_tags(self.text.spec_bytes()).skip(self.pos@ as int)
    }

    /// The tags of the tags text `text`.
    pub fn new(text: &'t str) -> (r: KyTeaTags<'t>)
        ensures
            r.fresh(),
            r.text() == text,
    {
        let tags = escaped_cursor(text.as_bytes(), TAG, ESCAPE);
        proof {
            if text.spec_bytes().len() > 0 {
                lemma_cursor_start(cursor_view(tags), text.spec_bytes(), TAG, ESCAPE);
            }
        }
        KyTeaTags { text, tags, pos: Ghost(0) }
    }

    /// The tag on which the cursor stands: its segment, or an empty tag past the last one.
    fn current(&self) -> (r: &'t str)
        requires
            self.wf(),
        ensures
            self.text.spec_bytes().len() > 0 ==> r.spec_bytes() == (if self.pos@ < segment_count(
                self.text.spec_bytes(),
                TAG,
                ESCAPE,
            ) {
                segment(self.text.spec_bytes(), self.pos@, TAG, ESCAPE)
            } else {
                Seq::<u8>::empty()
            }),
            self.text.spec_bytes().len() == 0 ==> r.spec_bytes() == Seq::<u8>::empty(),
    {
        let ghost h = self.text.spec_bytes();
        let (s, e) = cursor_range(&self.tags);
        proof {
            is_char_boundary_start_end_of_seq(h);
            if h.len() > 0 && self.pos@ < segment_count(h, TAG, ESCAPE) {
                lemma_segment_boundaries(h, self.pos@);
                lemma_nth(h, self.pos@, TAG, ESCAPE);
            }
        }
        let r = substr(self.text, s, e);
        proof {
            if h.len() == 0 || self.pos@ == segment_count(h, TAG, ESCAPE) {
                assert(r.spec_bytes() =~= Seq::<u8>::empty());
            }
        }
        r
    }

    /// The next tag; `None` once all are used up, and from then on.
    pub fn next(&mut self) -> (r: Option<Tag<'t>>)
        requires
            old(self).wf(),
        ensures
            final(self).wf(),
            final(self).text() == old(self).text(),
            old(self).remaining().len() == 0 ==> r is None && final(self).remaining().len() == 0,
            old(self).remaining().len() > 0 ==> {
                &&& r matches Some(tag)
                &&& final(self).remaining() == old(self).remaining().drop_first()
                &&& tag@ == old(self).remaining()[0]
            },
    {
        let ghost h = self.text.spec_bytes();
        let place = cursor_place(&self.tags);
        if place == Place::Empty || place == Place::End {
            proof {
                if h.len() > 0 {
                    assert(self.pos@ == segment_count(h, TAG, ESCAPE));
                }
                assert(self.remaining() =~= Seq::<TagView>::empty());
            }
            return None;
        }
        let tag = self.current();
        let ghost k = self.pos@;
        let ghost before = self.remaining();
        proof {
            lemma_cursor_next(cursor_view(self.tags), h, TAG, ESCAPE, k);
        }
        cursor_move_next(&mut self.tags);
        self.pos = Ghost(k + 1);
        proof {
            assert(k < segment_count(h, TAG, ESCAPE));
            assert(self.remaining() =~= before.drop_first());
            assert(before[0] == all_tags(h)[k as int]);
            assert(tag@ == decode_utf8(tag.spec_bytes()));
        }
        Some(Tag::Escaped(tag))
    }
}

/// The order in which a KyTea token hands out its tags.
pub trait TagOrder {
    /// The tags handed out for the tags text `h`.
    spec fn order_tags(&self, h: Seq<u8>) -> Seq<TagView>;

    fn reorder<'t>(&self, tags: KyTeaTags<'t>) -> (r: Vec<Tag<'t>>)
        requires
            tags.fresh(),
        ensures
            tag_views(r@) == self.order_tags(tags.text().spec_bytes()),
    ;
}

/// All tags, in their order.
#[derive(Debug, Clone, Copy)]
pub struct Noop;

impl TagOrder for Noop {
    open spec fn order_tags(&self, h: Seq<u8>) -> Seq<TagView> {
        all_tags(h)
    }

    fn reorder<'t>(&self, tags: KyTeaTags<'t>) -> (r: Vec<Tag<'t>>) {
        let mut tags = tags;
        let ghost all = tags.remaining();
        let mut out: Vec<Tag<'t>> = Vec::new();
        proof {
            assert(all =~= all_tags(tags.text().spec_bytes()));
        }
        loop
            invariant
                tags.wf(),
                all == all_tags(tags.text().spec_bytes()),
                out@.len() + tags.remaining().len() == all.len(),
                tags.remaining() == all.skip(out@.len() as int),
                forall|k: int| 0 <= k < out@.len() ==> #[trigger] out@[k]@ == all[k],
            ensures
                out@.len() == all.len(),
                forall|k: int| 0 <= k < out@.len() ==> #[trigger] out@[k]@ == all[k],
            decreases tags.remaining().len(),
        {
            let ghost before = tags.remaining();
            match tags.next() {
                Some(tag) => {
                    proof {
                        assert(before[0] == all[out@.len() as int]);
                        assert(tags.remaining() =~= all.skip(out@.len() as int + 1));
                    }
                    out.push(tag);
                },
                None => {
                    break;
                },
            }
        }
        assert(tag_views(out@) =~= all);
        out
    }
}

/// The tags at the given positions, in the given order; an empty tag stands for a position that
/// has no tag.
pub struct Selected<'a> {
    pub index: &'a [usize],
}

impl<'a> TagOrder for Selected<'a> {
    open spec fn order_tags(&self, h: Seq<u8>) -> Seq<TagView> {
        selected_tags(h, self.index@)
    }

    fn reorder<'t>(&self, tags: KyTeaTags<'t>) -> (r: Vec<Tag<'t>>) {
        let ghost h = tags.text().spec_bytes();
        let mut it = SelectedTags::new(self.index, tags);
        let ghost all = it.remaining();
        let mut out: Vec<Tag<'t>> = Vec::new();
        proof {
            assert(all =~= selected_tags(h, self.index@));
        }
        loop
            invariant
                it.wf(),
                all == selected_tags(h, self.index@),
                out@.len() + it.remaining().len() == all.len(),
                it.remaining() == all.skip(out@.len() as int),
                forall|k: int| 0 <= k < out@.len() ==> #[trigger] out@[k]@ == all[k],
            ensures
                out@.len() == all.len(),
                forall|k: int| 0 <= k < out@.len() ==> #[trigger] out@[k]@ == all[k],
            decreases it.remaining().len(),
        {
            let ghost before = it.remaining();
            match it.next() {
                Some(tag) => {
                    proof {
                        assert(before[0] == all[out@.len() as int]);
                        assert(it.remaining() =~= all.skip(out@.len() as int + 1));
                    }
                    out.push(tag);
                },
                None => {
                    break;
                },
            }
        }
        assert(tag_views(out@) =~= all);
        out
    }
}

/// The tags of a `Selected` order, found by moving a cursor back and forth over the segments.
pub struct SelectedTags<'o, 't> {
    ord: &'o [usize],
    next: usize,
    tags: KyTeaTags<'t>,
    curr: usize,
}

impl<'o, 't> SelectedTags<'o, 't> {
    /// The cursor stands on segment `curr`, and `next` counts the positions handed out.
    pub closed spec fn wf(self) -> bool {
        &&& self.tags.wf()
        &&& self.tags.pos@ == self.curr
        &&& self.next <= self.ord@.len()
    }

    /// The tags still to come.
    pub closed spec fn remaining(self) -> Seq<TagView> {
        selected_tags(self.tags.text.spec_bytes(), self.ord@.skip(self.next as int))
    }

    pub fn new(ord: &'o [usize], tags: KyTeaTags<'t>) -> (r: SelectedTags<'o, 't>)
        requires
            tags.fresh(),
        ensures
            r.wf(),
            r.remaining() == selected_tags(tags.text().spec_bytes(), ord@),
    {
        assert(ord@.skip(0) =~= ord@);
        SelectedTags { ord, next: 0, tags, curr: 0 }
    }

    /// The tag at the next position; `None` once all positions are used up, and from then on.
    pub fn next(&mut self) -> (r: Option<Tag<'t>>)
        requires
            old(self).wf(),
        ensures
            final(self).wf(),
            old(self).remaining().len() == 0 ==> r is None && final(self).remaining().len() == 0,
            old(self).remaining().len() > 0 ==> {
                &&& r matches Some(tag)
                &&& final(self).remaining() == old(self).remaining().drop_first()
                &&& tag@ == old(self).remaining()[0]
            },
    {
        let ghost h = self.tags.text.spec_bytes();
        let ghost before = self.remaining();
        if self.next >= self.ord.len() {
            assert(self.remaining() =~= Seq::<TagView>::empty());
            return None;
        }
        let idx = self.ord[self.next];
        self.next = self.next + 1;
        proof {
            assert(before[0] == selected_tag(h, idx as int));
            assert(self.remaining() =~= before.drop_first());
        }
        if cursor_place(&self.tags.tags) == Place::Empty {
            proof {
                if h.len() > 0 {
                    lemma_nth(h, self.curr as nat, TAG, ESCAPE);
                }
            }
            let tag = self.tags.current();
            assert(tag@ == decode_utf8(tag.spec_bytes()));
            return Some(Tag::Escaped(tag));
        }
        let ghost next0 = self.next;
        let ghost ord0 = self.ord;
        if idx < self.curr {
            while self.curr > idx
                invariant
                    self.next == next0,
                    self.ord == ord0,
                    next0 <= ord0@.len(),
                    self.tags.wf(),
                    self.tags.pos@ == self.curr,
                    self.tags.text.spec_bytes() == h,
                    h.len() > 0,
                    idx <= self.curr,
                decreases self.curr,
            {
                proof {
                    lemma_cursor_prev(cursor_view(self.tags.tags), h, TAG, ESCAPE, self.curr as nat);
                }
                cursor_move_prev(&mut self.tags.tags);
                self.curr = self.curr - 1;
                self.tags.pos = Ghost(self.curr as nat);
            }
        } else if idx > self.curr {
            if cursor_place(&self.tags.tags) == Place::Middle {
                loop
                    invariant_except_break
                        self.curr < segment_count(h, TAG, ESCAPE),
                    invariant
                        self.next == next0,
                        self.ord == ord0,
                        next0 <= ord0@.len(),
                        self.tags.wf(),
                        self.tags.pos@ == self.curr,
                        self.tags.text.spec_bytes() == h,
                        h.len() > 0,
                        self.curr <= idx,
                    ensures
                        self.next == next0,
                        self.ord == ord0,
                        self.tags.wf(),
                        self.tags.pos@ == self.curr,
                        self.tags.text.spec_bytes() == h,
                        self.curr <= idx,
                        self.curr == idx || self.curr == segment_count(h, TAG, ESCAPE),
                    decreases idx - self.curr,
                {
                    if self.curr >= idx {
                        break;
                    }
                    proof {
                        lemma_cursor_next(cursor_view(self.tags.tags), h, TAG, ESCAPE, self.curr as nat);
                    }
                    cursor_move_next(&mut self.tags.tags);
                    self.curr = self.curr + 1;
                    self.tags.pos = Ghost(self.curr as nat);
                    if cursor_place(&self.tags.tags) != Place::Middle {
                        break;
                    }
                }
            }
        }
        let tag = self.tags.current();
        proof {
            lemma_nth(h, self.curr as nat, TAG, ESCAPE);
            assert(tag@ == decode_utf8(tag.spec_bytes()));
        }
        Some(Tag::Escaped(tag))
    }
}

} // verus!

verus! {

/// The positions `0, 1, ..., n - 1`.
pub open spec fn all_positions(n: nat) -> Seq<usize> {
    Seq::new(n, |i: int| i as usize)
}

/// Selecting every position in order hands out all tags: for a non-empty tags text, `Selected`
/// with the positions of all its segments gives what `Noop` gives.
pub proof fn selecting_all_positions_is_noop(h: Seq<u8>)
    requires
        h.len() > 0,
        segment_count(h, TAG, ESCAPE) <= usize::MAX + 1,
    ensures
        selected_tags(h, all_positions(segment_count(h, TAG, ESCAPE))) == all_tags(h),
{
    let n = segment_count(h, TAG, ESCAPE);
    let s = selected_tags(h, all_positions(n));
    assert forall|i: int| 0 <= i < n implies s[i] == all_tags(h)[i] by {
        assert(all_positions(n)[i] as int == i);
    }
    assert(s =~= all_tags(h));
}

/// An empty tags text has no tags, and every selected position gives an empty tag.
pub proof fn empty_tags_text(index: Seq<usize>)
    ensures
        all_tags(Seq::<u8>::empty()) == Seq::<TagView>::empty(),
        forall|i: int|
            0 <= i < index.len() ==> #[trigger] selected_tags(Seq::<u8>::empty(), index)[i]
                == TagView::Escaped(Seq::<char>::empty()),
{
}

} // verus!

//! Reading a parsed MeCab lattice as a token stream.
//!
//! The tokens are the nodes after the beginning-of-sentence node, up to the end-of-sentence node.
//! A token ends a sentence when its surface is exactly one end-of-sentence mark or when the
//! end-of-sentence node (or nothing) follows it. Its tags are its features, split at commas.
use vstd::prelude::*;
use vstd::string::*;
use vstd::utf8::*;
use crate::tokenizer_core::{Tag, TagView, Token, TokenPosition, TokenStream, TokenView, tag_views};
use crate::text::{
    find_byte_from, lemma_ascii_boundaries, lemma_find_byte, lemma_last_below_nth, lemma_nth_bound,
    lemma_split_ascii, lemma_split_pieces, nth_occurrence, piece_start, rfind_byte_before,
    split_bytes, split_once_ascii, split_seq, substr,
};
use crate::utils::str_utils::{matches_eos_marker, spec_matches_eos_marker};
use super::node::{Lattice, Node, NodeCursor, NodeData, NodeKind, kind_of_stat, step_next};

verus! {

broadcast use vstd::utf8::encode_utf8_valid_utf8, vstd::utf8::encode_utf8_decode_utf8;

/// The first end-of-sentence node at or after `k`, or the number of nodes.
pub open spec fn eos_from(nodes: Seq<NodeData>, k: int) -> int
    decreases nodes.len() - k,
{
    if k >= nodes.len() {
        nodes.len() as int
    } else if kind_of_stat(nodes[k].stat) is Eos {
        k
    } else {
        eos_from(nodes, k + 1)
    }
}

pub proof fn lemma_eos_from(nodes: Seq<NodeData>, k: int)
    requires
        0 <= k <= nodes.len(),
    ensures
        k <= eos_from(nodes, k) <= nodes.len(),
        eos_from(nodes, k) < nodes.len() ==> kind_of_stat(nodes[eos_from(nodes, k)].stat) is Eos,
    decreases nodes.len() - k,
{
    if k < nodes.len() && !(kind_of_stat(nodes[k].stat) is Eos) {
        lemma_eos_from(nodes, k + 1);
    }
}

/// The position of the token at node `k`.
pub open spec fn mecab_position(nodes: Seq<NodeData>, k: int) -> TokenPosition {
    if spec_matches_eos_marker(nodes[k].surface@) || k + 1 >= nodes.len() || kind_of_stat(
        nodes[k + 1].stat,
    ) is Eos {
        TokenPosition::Eos
    } else {
        TokenPosition::Normal
    }
}

/// The token that a node stands for, with its tags in the order `ord`.
pub open spec fn mecab_token_view<O: TagOrder>(n: NodeData, ord: O) -> TokenView {
    TokenView { surface: TagView::Unescaped(n.surface@), tags: ord.order_tags(Some(n.feature@)) }
}

/// The tokens that follow the node at `at`, up to the end of the sentence.
pub open spec fn tokens_after<O: TagOrder>(nodes: Seq<NodeData>, at: Option<int>, ord: O) -> Seq<
    (TokenPosition, TokenView),
> {
    match at {
        None => seq![],
        Some(i) => {
            let e = eos_from(nodes, i + 1);
            Seq::new(
                if e > i + 1 {
                    (e - i - 1) as nat
                } else {
                    0nat
                },
                |j: int| (mecab_position(nodes, i + 1 + j), mecab_token_view(nodes[i + 1 + j], ord)),
            )
        },
    }
}

/// The tokens of a lattice.
pub open spec fn mecab_stream_view<O: TagOrder>(nodes: Seq<NodeData>, ord: O) -> Seq<
    (TokenPosition, TokenView),
> {
    tokens_after(
        nodes,
        if nodes.len() > 0 {
            Some(0int)
        } else {
            None
        },
        ord,
    )
}

/// No node but the last is an end-of-sentence node, as in a lattice that MeCab builds.
pub open spec fn eos_only_last(nodes: Seq<NodeData>) -> bool {
    forall|k: int| 0 <= k < nodes.len() - 1 ==> !(#[trigger] kind_of_stat(nodes[k].stat) is Eos)
}

/// In a lattice whose only end-of-sentence node is the last, the token iterator stays finished:
/// once no token remains, the step that `next` makes leaves none either.
pub proof fn finished_tokens_stay_finished<O: TagOrder>(nodes: Seq<NodeData>, at: Option<int>, ord: O)
    requires
        eos_only_last(nodes),
        at matches Some(i) ==> 0 <= i < nodes.len(),
        tokens_after(nodes, at, ord).len() == 0,
    ensures
        tokens_after(nodes, step_next(at, nodes.len() as int), ord).len() == 0,
{
    if let Some(i) = at {
        lemma_eos_from(nodes, i + 1);
        if i + 1 < nodes.len() {
            lemma_eos_from(nodes, i + 2);
            if i + 1 < nodes.len() - 1 {
                assert(!(kind_of_stat(nodes[i + 1].stat) is Eos));
                assert(eos_from(nodes, i + 1) == eos_from(nodes, i + 2));
            }
        }
    }
}

/// The tags of some features, in order.
pub open spec fn feature_tags(f: Seq<char>) -> Seq<TagView> {
    split_seq(f, ',').map_values(|p: Seq<char>| TagView::Unescaped(p))
}

/// The feature at position `idx`, or an empty tag when there is none.
pub open spec fn selected_feature(f: Seq<char>, idx: int) -> TagView {
    if idx < split_seq(f, ',').len() {
        TagView::Unescaped(split_seq(f, ',')[idx])
    } else {
        TagView::Unescaped(seq![])
    }
}

/// The features at the given positions, in the given order.
pub open spec fn selected_features(f: Seq<char>, index: Seq<usize>) -> Seq<TagView> {
    index.map_values(|i: usize| selected_feature(f, i as int))
}

/// A parsed lattice read as a token stream, with the tag order `ord`.
pub struct MeCabStream<'o, O> {
    lattice: &'o Lattice,
    ord: &'o O,
}

impl<'o, O: TagOrder> MeCabStream<'o, O> {
    pub fn new(lattice: &'o Lattice, ord: &'o O) -> (r: MeCabStream<'o, O>)
        ensures
            r.nodes() == lattice.nodes(),
            r.ord() == ord,
    {
        MeCabStream { lattice, ord }
    }

    pub closed spec fn nodes(self) -> Seq<NodeData> {
        self.lattice.nodes()
    }

    pub closed spec fn ord(self) -> &'o O {
        self.ord
    }

    /// An iterator over the tokens.
    pub fn iter(&self) -> (r: MeCabTokenIter<'o, O>)
        ensures
            r.wf(),
            r.remaining() == mecab_stream_view(self.nodes(), *self.ord()),
    {
        MeCabTokenIter { cursor: self.lattice.bos_node(), ord: self.ord }
    }
}

impl<'o, O: TagOrder> TokenStream<'o> for MeCabStream<'o, O> {
    type Tok = MeCabToken<'o, O>;

    open spec fn stream_view(&self) -> Seq<(TokenPosition, TokenView)> {
        mecab_stream_view(self.nodes(), *self.ord())
    }

    fn tokens(&self) -> (r: Vec<(TokenPosition, MeCabToken<'o, O>)>) {
        let ghost all = self.stream_view();
        let mut it = self.iter();
        let mut out: Vec<(TokenPosition, MeCabToken<'o, O>)> = Vec::new();
        loop
            invariant_except_break
                out@.len() + it.remaining().len() == all.len(),
                it.remaining() == all.skip(out@.len() as int),
            invariant
                it.wf(),
                all == self.stream_view(),
                forall|k: int|
                    0 <= k < out@.len() ==> #[trigger] out@[k].0 == all[k].0
                        && out@[k].1.token_view() == all[k].1,
            ensures
                out@.len() == all.len(),
                forall|k: int|
                    0 <= k < out@.len() ==> #[trigger] out@[k].0 == all[k].0
                        && out@[k].1.token_view() == all[k].1,
            decreases it.remaining().len(),
        {
            let ghost before = it.remaining();
            match it.next() {
                Some(item) => {
                    proof {
                        assert(before[0] == all[out@.len() as int]);
                        assert(it.remaining() =~= all.skip(out@.len() as int + 1));
                    }
                    out.push(item);
                },
                None => {
                    break;
                },
            }
        }
        out
    }
}

/// Iterator over the tokens of a `MeCabStream`.
pub struct MeCabTokenIter<'o, O> {
    cursor: NodeCursor<'o>,
    ord: &'o O,
}

impl<'o, O: TagOrder> MeCabTokenIter<'o, O> {
    pub closed spec fn wf(self) -> bool {
        self.cursor.wf()
    }

    /// The nodes of the lattice.
    pub closed spec fn nodes(self) -> Seq<NodeData> {
        self.cursor.nodes()
    }

    /// The place of the node last read, if any.
    pub closed spec fn at(self) -> Option<int> {
        self.cursor.at()
    }

    /// The order of the tags.
    pub closed spec fn ord(self) -> O {
        *self.ord
    }

    /// The tokens still to come.
    pub open spec fn remaining(self) -> Seq<(TokenPosition, TokenView)> {
        tokens_after(self.nodes(), self.at(), self.ord())
    }

    /// The next token with its position; `None` at the end of the sentence.
    pub fn next(&mut self) -> (r: Option<(TokenPosition, MeCabToken<'o, O>)>)
        requires
            old(self).wf(),
        ensures
            final(self).wf(),
            final(self).nodes() == old(self).nodes(),
            final(self).ord() == old(self).ord(),
            final(self).at() == step_next(old(self).at(), old(self).nodes().len() as int),
            old(self).remaining().len() == 0 ==> r is None,
            r is None && eos_only_last(old(self).nodes()) ==> final(self).remaining().len() == 0,
            old(self).remaining().len() > 0 ==> {
                &&& r matches Some((pos, tok))
                &&& final(self).remaining() == old(self).remaining().drop_first()
                &&& pos == old(self).remaining()[0].0
                &&& tok.token_view() == old(self).remaining()[0].1
            },
    {
        let ghost nodes = self.cursor.nodes();
        let ghost at0 = self.cursor.at();
        let ghost before = self.remaining();
        self.cursor.move_next();
        let node = match self.cursor.curr() {
            Some(n) => n,
            None => {
                return None;
            },
        };
        let ghost i = node.index();
        proof {
            assert(node.nodes() == nodes);
            assert(at0 == Some(i - 1));
            assert(node.data() == nodes[i]);
            lemma_eos_from(nodes, i);
            lemma_eos_from(nodes, i + 1);
        }
        if node.kind().is_eos() {
            proof {
                if eos_only_last(nodes) {
                    assert(!(i < nodes.len() - 1));
                    lemma_eos_from(nodes, i + 1);
                }
            }
            return None;
        }
        let next_is_eos = match node.next() {
            None => true,
            Some(n) => n.kind().is_eos(),
        };
        let position = if matches_eos_marker(node.surface()) || next_is_eos {
            TokenPosition::Eos
        } else {
            TokenPosition::Normal
        };
        proof {
            assert(eos_from(nodes, i) == eos_from(nodes, i + 1));
            assert(self.cursor.at() == Some(i));
            assert(self.cursor.nodes() == nodes);
            assert(self.remaining() =~= before.drop_first());
        }
        Some((position, MeCabToken { node, ord: self.ord }))
    }
}

/// A token of a MeCab lattice: a node, with the order of its tags.
pub struct MeCabToken<'o, O> {
    node: Node<'o>,
    ord: &'o O,
}

impl<'o, O> MeCabToken<'o, O> {
    #[verifier::type_invariant]
    spec fn inv(self) -> bool {
        self.node.wf()
    }
}

impl<'o, O: TagOrder> Token<'o> for MeCabToken<'o, O> {
    closed spec fn token_view(&self) -> TokenView {
        mecab_token_view(self.node.data(), *self.ord)
    }

    fn surface(&self) -> (r: Tag<'o>) {
        proof {
            use_type_invariant(self);
        }
        Tag::Unescaped(self.node.surface())
    }

    fn tags(&self) -> (r: Vec<Tag<'o>>) {
        proof {
            use_type_invariant(self);
        }
        let tags = MeCabTags { tags: Some(self.node.feature()) };
        self.ord.reorder(tags)
    }
}

/// The features of a node as tags: the pieces between commas.
pub struct MeCabTags<'o> {
    tags: Option<&'o str>,
}

impl<'o> MeCabTags<'o> {
    /// The features still to split, if any.
    pub closed spec fn feature(self) -> Option<Seq<char>> {
        match self.tags {
            Some(t) => Some(t@),
            None => None,
        }
    }

    /// The tags still to come.
    pub open spec fn remaining(self) -> Seq<TagView> {
        match self.feature() {
            Some(f) => feature_tags(f),
            None => seq![],
        }
    }

    /// The tags of the features `feature`.
    pub fn new(feature: &'o str) -> (r: MeCabTags<'o>)
        ensures
            r.feature() == Some(feature@),
    {
        MeCabTags { tags: Some(feature) }
    }

    /// The next tag; `None` once all are used up, and from then on.
    pub fn next(&mut self) -> (r: Option<Tag<'o>>)
        ensures
            old(self).remaining().len() == 0 ==> r is None && final(self).remaining().len() == 0,
            old(self).remaining().len() > 0 ==> {
                &&& r matches Some(tag)
                &&& final(self).remaining() == old(self).remaining().drop_first()
                &&& tag@ == old(self).remaining()[0]
            },
    {
        let tags = match self.tags {
            Some(t) => t,
            None => {
                return None;
            },
        };
        let ghost before = self.remaining();
        proof {
            crate::text::lemma_find_first(tags@, ',');
        }
        match split_once_ascii(tags, ',') {
            Some((head, rest)) => {
                self.tags = Some(rest);
                proof {
                    assert(self.remaining() =~= before.drop_first());
                }
                Some(Tag::Unescaped(head))
            },
            None => {
                self.tags = None;
                proof {
                    assert(split_seq(tags@, ',') =~= seq![tags@]);
                }
                Some(Tag::Unescaped(tags))
            },
        }
    }
}

/// The order in which a MeCab token hands out its tags.
pub trait TagOrder {
    /// The tags handed out for the features `feature`, if any.
    spec fn order_tags(&self, feature: Option<Seq<char>>) -> Seq<TagView>;

    fn reorder<'t>(&self, tags: MeCabTags<'t>) -> (r: Vec<Tag<'t>>)
        ensures
            tag_views(r@) == self.order_tags(tags.feature()),
    ;
}

/// All tags, in their order.
#[derive(Debug, Clone, Copy)]
pub struct Noop;

impl TagOrder for Noop {
    open spec fn order_tags(&self, feature: Option<Seq<char>>) -> Seq<TagView> {
        match feature {
            Some(f) => feature_tags(f),
            None => seq![],
        }
    }

    fn reorder<'t>(&self, tags: MeCabTags<'t>) -> (r: Vec<Tag<'t>>) {
        let mut tags = tags;
        let ghost all = tags.remaining();
        let mut out: Vec<Tag<'t>> = Vec::new();
        loop
            invariant
                out@.len() + tags.remaining().len() == all.len(),
                tags.remaining() == all.skip(out@.len() as int),
                forall|k: int| 0 <= k < out@.len() ==> #[trigger] out@[k]@ == all[k],
            ensures
                out@.len() == all.len(),
                forall|k: int| 0 <= k < out@.len() ==> #[trigger] out@[k]@ == all[k],
            decreases tags.remaining().len(),
        {
            let ghost before = tags.remaining();
            match tags.next() {
                Some(tag) => {
                    proof {
                        assert(before[0] == all[out@.len() as int]);
                        assert(tags.remaining() =~= all.skip(out@.len() as int + 1));
                    }
                    out.push(tag);
                },
                None => {
                    break;
                },
            }
        }
        assert(tag_views(out@) =~= all);
        out
    }
}

/// The tags at the given positions, in the given order; an empty tag stands for a position that
/// has no tag.
pub struct Selected<'a> {
    pub index: &'a [usize],
}

impl<'a> TagOrder for Selected<'a> {
    open spec fn order_tags(&self, feature: Option<Seq<char>>) -> Seq<TagView> {
        selected_features(
            match feature {
                Some(f) => f,
                None => seq![],
            },
            self.index@,
        )
    }

    fn reorder<'t>(&self, tags: MeCabTags<'t>) -> (r: Vec<Tag<'t>>) {
        let text = match tags.tags {
            Some(t) => t,
            None => {
                proof {
                    reveal_strlit("");
                }
                ""
            },
        };
        let ghost f = text@;
        assert(f == match tags.feature() {
            Some(f) => f,
            None => Seq::<char>::empty(),
        });
        let mut it = SelectedTags::new(self.index, text);
        let ghost all = it.remaining();
        let mut out: Vec<Tag<'t>> = Vec::new();
        loop
            invariant
                it.wf(),
                all == selected_features(f, self.index@),
                out@.len() + it.remaining().len() == all.len(),
                it.remaining() == all.skip(out@.len() as int),
                forall|k: int| 0 <= k < out@.len() ==> #[trigger] out@[k]@ == all[k],
            ensures
                out@.len() == all.len(),
                forall|k: int| 0 <= k < out@.len() ==> #[trigger] out@[k]@ == all[k],
            decreases it.remaining().len(),
        {
            let ghost before = it.remaining();
            match it.next() {
                Some(tag) => {
                    proof {
                        assert(before[0] == all[out@.len() as int]);
                        assert(it.remaining() =~= all.skip(out@.len() as int + 1));
                    }
                    out.push(tag);
                },
                None => {
                    break;
                },
            }
        }
        assert(tag_views(out@) =~= all);
        out
    }
}

/// The tags of a `Selected` order, found by moving a span back and forth over the features.
pub struct SelectedTags<'o, 't> {
    ord: &'o [usize],
    next: usize,
    tags: &'t str,
    curr: usize,
    span: (usize, usize),
}

impl<'o, 't> SelectedTags<'o, 't> {
    /// The span covers the `curr`-th feature.
    pub closed spec fn wf(self) -> bool {
        let b = self.tags.spec_bytes();
        &&& self.next <= self.ord@.len()
        &&& self.curr < split_bytes(b, 44u8).len()
        &&& self.span.0 == piece_start(b, self.curr as nat, 44u8)
        &&& self.span.1 == nth_occurrence(b, self.curr as nat, 44u8)
    }

    /// The tags still to come.
    pub closed spec fn remaining(self) -> Seq<TagView> {
        selected_features(self.tags@, self.ord@.skip(self.next as int))
    }

    pub fn new(ord: &'o [usize], tags: &'t str) -> (r: SelectedTags<'o, 't>)
        ensures
            r.wf(),
            r.remaining() == selected_features(tags@, ord@),
    {
        let bytes = tags.as_bytes();
        let end = find_byte_from(bytes, 0, 44u8);
        proof {
            assert(tags.spec_bytes().skip(0) =~= tags.spec_bytes());
            lemma_split_pieces(tags.spec_bytes(), 0, 44u8);
            crate::text::lemma_split_seq(tags.spec_bytes(), 44u8);
        }
        assert(ord@.skip(0) =~= ord@);
        SelectedTags { ord, next: 0, tags, curr: 0, span: (0, end) }
    }

    /// The features of the `k`-th piece.
    proof fn lemma_piece(self, k: nat)
        requires
            k < split_bytes(self.tags.spec_bytes(), 44u8).len(),
        ensures
            k < split_seq(self.tags@, ',').len(),
            decode_utf8(
                self.tags.spec_bytes().subrange(
                    piece_start(self.tags.spec_bytes(), k, 44u8),
                    nth_occurrence(self.tags.spec_bytes(), k, 44u8),
                ),
            ) == split_seq(self.tags@, ',')[k as int],
            is_char_boundary(self.tags.spec_bytes(), piece_start(self.tags.spec_bytes(), k, 44u8)),
            is_char_boundary(self.tags.spec_bytes(), nth_occurrence(self.tags.spec_bytes(), k, 44u8)),
            0 <= piece_start(self.tags.spec_bytes(), k, 44u8) <= nth_occurrence(
                self.tags.spec_bytes(),
                k,
                44u8,
            ) <= self.tags.spec_bytes().len(),
    {
        let b = self.tags.spec_bytes();
        lemma_split_ascii(self.tags@, ',');
        lemma_split_pieces(b, k, 44u8);
        lemma_nth_bound(b, k, 44u8);
        is_char_boundary_start_end_of_seq(b);
        if nth_occurrence(b, k, 44u8) < b.len() {
            lemma_ascii_boundaries(b, nth_occurrence(b, k, 44u8));
        }
        if k > 0 {
            lemma_split_pieces(b, (k - 1) as nat, 44u8);
            lemma_nth_bound(b, (k - 1) as nat, 44u8);
            lemma_ascii_boundaries(b, nth_occurrence(b, (k - 1) as nat, 44u8));
        }
        assert(split_bytes(b, 44u8)[k as int] == encode_utf8(split_seq(self.tags@, ',')[k as int]));
    }

    /// The tag at the next position; `None` once all positions are used up, and from then on.
    pub fn next(&mut self) -> (r: Option<Tag<'t>>)
        requires
            old(self).wf(),
        ensures
            final(self).wf(),
            old(self).remaining().len() == 0 ==> r is None && final(self).remaining().len() == 0,
            old(self).remaining().len() > 0 ==> {
                &&& r matches Some(tag)
                &&& final(self).remaining() == old(self).remaining().drop_first()
                &&& tag@ == old(self).remaining()[0]
            },
    {
        let ghost b = self.tags.spec_bytes();
        let ghost f = self.tags@;
        let ghost before = self.remaining();
        if self.next >= self.ord.len() {
            assert(self.remaining() =~= Seq::<TagView>::empty());
            return None;
        }
        let idx = self.ord[self.next];
        self.next = self.next + 1;
        proof {
            assert(before[0] == selected_feature(f, idx as int));
            assert(self.remaining() =~= before.drop_first());
            lemma_split_ascii(f, ',');
            assert(split_bytes(b, 44u8).len() == split_seq(f, ',').len());
        }
        let bytes = self.tags.as_bytes();
        let n = bytes.len();
        let ghost rem1 = self.remaining();
        if idx < self.curr {
            while self.curr > idx
                invariant
                    self.remaining() == rem1,
                    rem1 == before.drop_first(),
                    before == old(self).remaining(),
                    before.len() > 0,
                    before[0] == selected_feature(f, idx as int),
                    split_bytes(b, 44u8).len() == split_seq(f, ',').len(),
                    f == self.tags@,
                    self.wf(),
                    self.tags.spec_bytes() == b,
                    bytes@ == b,
                    idx <= self.curr,
                decreases self.curr,
            {
                let ghost k = self.curr as nat;
                proof {
                    lemma_split_pieces(b, (k - 1) as nat, 44u8);
                    lemma_nth_bound(b, (k - 1) as nat, 44u8);
                    if k >= 2 {
                        lemma_split_pieces(b, (k - 2) as nat, 44u8);
                    }
                    lemma_last_below_nth(b, (k - 1) as nat, 44u8);
                }
                let end = self.span.0 - 1;
                let start = match rfind_byte_before(bytes, end, 44u8) {
                    Some(i) => i + 1,
                    None => 0,
                };
                self.span = (start, end);
                self.curr = self.curr - 1;
            }
        } else if idx > self.curr {
            while self.curr < idx
                invariant
                    self.remaining() == rem1,
                    rem1 == before.drop_first(),
                    before == old(self).remaining(),
                    before.len() > 0,
                    before[0] == selected_feature(f, idx as int),
                    split_bytes(b, 44u8).len() == split_seq(f, ',').len(),
                    f == self.tags@,
                    self.wf(),
                    self.tags.spec_bytes() == b,
                    bytes@ == b,
                    n == b.len(),
                    self.curr <= idx,
                decreases idx - self.curr,
            {
                let ghost k = self.curr as nat;
                proof {
                    lemma_split_pieces(b, k, 44u8);
                    lemma_nth_bound(b, k, 44u8);
                }
                if self.span.1 == n {
                    proof {
                        assert(idx >= split_seq(f, ',').len());
                        reveal_strlit("");
                        assert(""@ =~= Seq::<char>::empty());
                        assert(before[0] == TagView::Unescaped(Seq::<char>::empty()));
                        assert(self.remaining() == before.drop_first());
                    }
                    return Some(Tag::Unescaped(""));
                }
                let start = self.span.1 + 1;
                let end = find_byte_from(bytes, start, 44u8);
                self.span = (start, end);
                self.curr = self.curr + 1;
                proof {
                    lemma_split_pieces(b, k + 1, 44u8);
                }
            }
        }
        proof {
            self.lemma_piece(self.curr as nat);
        }
        let tag = substr(self.tags, self.span.0, self.span.1);
        Some(Tag::Unescaped(tag))
    }
}

} // verus!

verus! {

/// The positions `0, 1, ..., n - 1`.
pub open spec fn all_positions(n: nat) -> Seq<usize> {
    Seq::new(n, |i: int| i as usize)
}

/// Selecting every position in order hands out all features: `Selected` with the positions of all
/// the pieces between commas gives what `Noop` gives.
pub proof fn selecting_all_features_is_noop(f: Seq<char>)
    requires
        split_seq(f, ',').len() <= usize::MAX + 1,
    ensures
        selected_features(f, all_positions(split_seq(f, ',').len())) == feature_tags(f),
{
    let n = split_seq(f, ',').len();
    let s = selected_features(f, all_positions(n));
    assert forall|i: int| 0 <= i < n implies s[i] == feature_tags(f)[i] by {
        assert(all_positions(n)[i] as int == i);
    }
    assert(s =~= feature_tags(f));
}

} // verus!

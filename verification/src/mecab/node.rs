//! The nodes of a MeCab lattice, held as plain values, and the settings that MeCab numbers.
//!
//! A `Lattice` holds the nodes of the best path in order, from the beginning-of-sentence node to
//! the end-of-sentence node; a `Node` is a place in it and a `NodeCursor` walks over it.
use vstd::prelude::*;

verus! {

/// The status codes of MeCab nodes.
pub const MECAB_NOR_NODE: u8 = 0u8;
pub const MECAB_UNK_NODE: u8 = 1u8;
pub const MECAB_BOS_NODE: u8 = 2u8;
pub const MECAB_EOS_NODE: u8 = 3u8;
pub const MECAB_EON_NODE: u8 = 4u8;

/// The kind of a node.
#[derive(Debug, Clone, Copy, PartialEq, Eq, PartialOrd, Ord, Hash, Structural)]
pub enum NodeKind {
    Bos,
    Eos,
    Unk,
    EoNbest,
    Normal,
}

/// The kind that a status code stands for; any unknown code is a normal node.
pub open spec fn kind_of_stat(stat: u8) -> NodeKind {
    if stat == MECAB_BOS_NODE {
        NodeKind::Bos
    } else if stat == MECAB_EOS_NODE {
        NodeKind::Eos
    } else if stat == MECAB_UNK_NODE {
        NodeKind::Unk
    } else if stat == MECAB_EON_NODE {
        NodeKind::EoNbest
    } else {
        NodeKind::Normal
    }
}

impl NodeKind {
    /// The kind of a node with the status code `stat`.
    pub fn from_stat(stat: u8) -> (r: NodeKind)
        ensures
            r == kind_of_stat(stat),
    {
        if stat == MECAB_BOS_NODE {
            NodeKind::Bos
        } else if stat == MECAB_EOS_NODE {
            NodeKind::Eos
        } else if stat == MECAB_UNK_NODE {
            NodeKind::Unk
        } else if stat == MECAB_EON_NODE {
            NodeKind::EoNbest
        } else {
            NodeKind::Normal
        }
    }

    pub fn is_bos(self) -> (r: bool)
        ensures
            r == (self is Bos),
    {
        self == NodeKind::Bos
    }

    pub fn is_eos(self) -> (r: bool)
        ensures
            r == (self is Eos),
    {
        self == NodeKind::Eos
    }
}

/// The left context attribute of a node.
#[derive(Debug, Clone, Copy, PartialEq, Eq, PartialOrd, Ord, Hash, Structural)]
pub struct LcAttr(u16);

/// The right context attribute of a node.
#[derive(Debug, Clone, Copy, PartialEq, Eq, PartialOrd, Ord, Hash, Structural)]
pub struct RcAttr(u16);

impl LcAttr {
    /// The number that the attribute holds.
    pub closed spec fn raw(self) -> u16 {
        self.0
    }

    pub fn from_raw(attr: u16) -> (r: LcAttr)
        ensures
            r.raw() == attr,
    {
        LcAttr(attr)
    }

    pub fn to_raw(self) -> (r: u16)
        ensures
            r == self.raw(),
    {
        self.0
    }
}

impl RcAttr {
    /// The number that the attribute holds.
    pub closed spec fn raw(self) -> u16 {
        self.0
    }

    pub fn from_raw(attr: u16) -> (r: RcAttr)
        ensures
            r.raw() == attr,
    {
        RcAttr(attr)
    }

    pub fn to_raw(self) -> (r: u16)
        ensures
            r == self.raw(),
    {
        self.0
    }
}

/// An attribute is its number: attributes with the same number are the same, so that making an
/// attribute of the number of another gives that other back.
pub proof fn attr_round_trip(a: LcAttr, b: LcAttr, c: RcAttr, d: RcAttr)
    ensures
        a.raw() == b.raw() ==> a == b,
        c.raw() == d.raw() ==> c == d,
{
}

/// What MeCab records of a node.
pub struct NodeData {
    pub surface: String,
    pub feature: String,
    pub stat: u8,
    pub id: u32,
    pub lc_attr: LcAttr,
    pub rc_attr: RcAttr,
    pub pos_id: u16,
    pub char_type: u8,
    pub is_best: bool,
    pub wcost: i16,
    pub cost: i64,
}

/// The nodes of the best path of a parsed sentence, in order.
pub struct Lattice {
    nodes: Vec<NodeData>,
}

impl Lattice {
    /// The nodes.
    pub closed spec fn nodes(&self) -> Seq<NodeData> {
        self.nodes@
    }

    pub fn from_nodes(nodes: Vec<NodeData>) -> (r: Lattice)
        ensures
            r.nodes() == nodes@,
    {
        Lattice { nodes }
    }

    /// A cursor on the first node, the beginning of the sentence.
    pub fn bos_node(&self) -> (r: NodeCursor<'_>)
        ensures
            r.wf(),
            r.nodes() == self.nodes(),
            r.at() == (if self.nodes().len() > 0 {
                Some(0int)
            } else {
                None
            }),
    {
        if self.nodes.len() > 0 {
            NodeCursor { curr: Some(Node { nodes: self.nodes.as_slice(), index: 0 }), nodes: self.nodes.as_slice() }
        } else {
            NodeCursor { curr: None, nodes: self.nodes.as_slice() }
        }
    }

    /// A cursor on the last node, the end of the sentence.
    pub fn eos_node(&self) -> (r: NodeCursor<'_>)
        ensures
            r.wf(),
            r.nodes() == self.nodes(),
            r.at() == (if self.nodes().len() > 0 {
                Some(self.nodes().len() - 1)
            } else {
                None
            }),
    {
        let n = self.nodes.len();
        if n > 0 {
            NodeCursor { curr: Some(Node { nodes: self.nodes.as_slice(), index: n - 1 }), nodes: self.nodes.as_slice() }
        } else {
            NodeCursor { curr: None, nodes: self.nodes.as_slice() }
        }
    }
}

/// A node of a lattice.
#[derive(Clone, Copy)]
pub struct Node<'a> {
    nodes: &'a [NodeData],
    index: usize,
}

impl<'a> Node<'a> {
    /// The nodes of the lattice.
    pub closed spec fn nodes(self) -> Seq<NodeData> {
        self.nodes@
    }

    /// The place of the node in the lattice.
    pub closed spec fn index(self) -> int {
        self.index as int
    }

    /// The node lies in its lattice.
    pub open spec fn wf(self) -> bool {
        0 <= self.index() < self.nodes().len()
    }

    /// The record of the node.
    pub open spec fn data(self) -> NodeData {
        self.nodes()[self.index()]
    }

    /// The next node, if any.
    pub fn next(self) -> (r: Option<Node<'a>>)
        requires
            self.wf(),
        ensures
            match r {
                Some(n) => n.wf() && n.nodes() == self.nodes() && n.index() == self.index() + 1,
                None => self.index() + 1 == self.nodes().len(),
            },
    {
        if self.index < self.nodes.len() - 1 {
            Some(Node { nodes: self.nodes, index: self.index + 1 })
        } else {
            None
        }
    }

    /// The previous node, if any.
    pub fn prev(self) -> (r: Option<Node<'a>>)
        requires
            self.wf(),
        ensures
            match r {
                Some(n) => n.wf() && n.nodes() == self.nodes() && n.index() == self.index() - 1,
                None => self.index() == 0,
            },
    {
        if self.index > 0 {
            Some(Node { nodes: self.nodes, index: self.index - 1 })
        } else {
            None
        }
    }

    pub fn id(self) -> (r: u32)
        requires
            self.wf(),
        ensures
            r == self.data().id,
    {
        self.nodes[self.index].id
    }

    /// The features of the node, separated by commas.
    pub fn feature(self) -> (r: &'a str)
        requires
            self.wf(),
        ensures
            r@ == self.data().feature@,
    {
        self.nodes[self.index].feature.as_str()
    }

    /// The text of the node.
    pub fn surface(self) -> (r: &'a str)
        requires
            self.wf(),
        ensures
            r@ == self.data().surface@,
    {
        self.nodes[self.index].surface.as_str()
    }

    /// The kind of the node, by its status code.
    pub fn kind(self) -> (r: NodeKind)
        requires
            self.wf(),
        ensures
            r == kind_of_stat(self.data().stat),
    {
        NodeKind::from_stat(self.nodes[self.index].stat)
    }

    pub fn lc_attr(self) -> (r: LcAttr)
        requires
            self.wf(),
        ensures
            r == self.data().lc_attr,
    {
        self.nodes[self.index].lc_attr
    }

    pub fn rc_attr(self) -> (r: RcAttr)
        requires
            self.wf(),
        ensures
            r == self.data().rc_attr,
    {
        self.nodes[self.index].rc_attr
    }

    pub fn pos_id(self) -> (r: u16)
        requires
            self.wf(),
        ensures
            r == self.data().pos_id,
    {
        self.nodes[self.index].pos_id
    }

    pub fn char_type(self) -> (r: u8)
        requires
            self.wf(),
        ensures
            r == self.data().char_type,
    {
        self.nodes[self.index].char_type
    }

    pub fn is_best(self) -> (r: bool)
        requires
            self.wf(),
        ensures
            r == self.data().is_best,
    {
        self.nodes[self.index].is_best
    }

    pub fn wcost(self) -> (r: i16)
        requires
            self.wf(),
        ensures
            r == self.data().wcost,
    {
        self.nodes[self.index].wcost
    }

    pub fn cost(self) -> (r: i64)
        requires
            self.wf(),
        ensures
            r == self.data().cost,
    {
        self.nodes[self.index].cost
    }
}

/// The place after moving forward from `at` over `len` nodes: the next node, or nothing past the
/// last one; nothing stays nothing.
pub open spec fn step_next(at: Option<int>, len: int) -> Option<int> {
    match at {
        Some(i) => if i + 1 < len {
            Some(i + 1)
        } else {
            None
        },
        None => None,
    }
}

/// The place after moving backward from `at`: the previous node, or nothing before the first one;
/// nothing stays nothing.
pub open spec fn step_prev(at: Option<int>) -> Option<int> {
    match at {
        Some(i) => if i > 0 {
            Some(i - 1)
        } else {
            None
        },
        None => None,
    }
}

/// A cursor over the nodes of a lattice. Once it has moved past either end it stays dead.
pub struct NodeCursor<'a> {
    curr: Option<Node<'a>>,
    nodes: &'a [NodeData],
}

impl<'a> NodeCursor<'a> {
    /// The nodes of the lattice.
    pub closed spec fn nodes(self) -> Seq<NodeData> {
        self.nodes@
    }

    /// The place of the current node, if any.
    pub closed spec fn at(self) -> Option<int> {
        match self.curr {
            Some(n) => Some(n.index as int),
            None => None,
        }
    }

    /// The current node lies in the lattice of the cursor.
    pub closed spec fn wf(self) -> bool {
        self.curr matches Some(n) ==> n.wf() && n.nodes() == self.nodes@
    }

    pub fn move_next(&mut self)
        requires
            old(self).wf(),
        ensures
            final(self).wf(),
            final(self).nodes() == old(self).nodes(),
            final(self).at() == step_next(old(self).at(), old(self).nodes().len() as int),
    {
        if let Some(curr) = self.curr {
            self.curr = curr.next();
        }
    }

    pub fn move_prev(&mut self)
        requires
            old(self).wf(),
        ensures
            final(self).wf(),
            final(self).nodes() == old(self).nodes(),
            final(self).at() == step_prev(old(self).at()),
    {
        if let Some(curr) = self.curr {
            self.curr = curr.prev();
        }
    }

    pub fn curr(&self) -> (r: Option<Node<'a>>)
        requires
            self.wf(),
        ensures
            match r {
                Some(n) => n.wf() && n.nodes() == self.nodes() && self.at() == Some(n.index()),
                None => self.at() is None,
            },
    {
        self.curr
    }

    /// The current node, moving forward past it.
    pub fn next(&mut self) -> (r: Option<Node<'a>>)
        requires
            old(self).wf(),
        ensures
            final(self).wf(),
            final(self).nodes() == old(self).nodes(),
            final(self).at() == step_next(old(self).at(), old(self).nodes().len() as int),
            match r {
                Some(n) => n.wf() && n.nodes() == old(self).nodes() && old(self).at() == Some(n.index()),
                None => old(self).at() is None,
            },
    {
        let res = match self.curr {
            Some(n) => n,
            None => {
                return None;
            },
        };
        self.move_next();
        Some(res)
    }
}

/// The place after `k` moves forward from `at` in a lattice of `len` nodes.
pub open spec fn steps_next(at: Option<int>, len: int, k: nat) -> Option<int>
    decreases k,
{
    if k == 0 {
        at
    } else {
        step_next(steps_next(at, len, (k - 1) as nat), len)
    }
}

/// A cursor that starts on the first node visits every node in order, one per move forward, and
/// then stands on no node, where it stays whichever way it moves.
pub proof fn cursor_walks_every_node(len: int, k: nat)
    requires
        len > 0,
    ensures
        steps_next(Some(0int), len, k) == (if k < len {
            Some(k as int)
        } else {
            None::<int>
        }),
        k >= len ==> step_next(steps_next(Some(0int), len, k), len) is None && step_prev(
            steps_next(Some(0int), len, k),
        ) is None,
    decreases k,
{
    if k > 0 {
        cursor_walks_every_node(len, (k - 1) as nat);
    }
}

/// A dead cursor stays dead: moving it either way leaves it on no node.
pub proof fn dead_cursor_stays_dead(len: int)
    ensures
        step_next(None, len) is None,
        step_prev(None) is None,
{
}

/// The kinds of request that MeCab serves, as bit flags.
pub const ONE_BEST: u8 = 1u8;
pub const NBEST: u8 = 2u8;
pub const PARTIAL: u8 = 4u8;
pub const MARGINAL_PROB: u8 = 8u8;
pub const ALTERNATIVE: u8 = 16u8;
pub const ALL_MORPHS: u8 = 32u8;
pub const ALLOCATE_SENTENCE: u8 = 64u8;

/// A set of request flags.
#[derive(Debug, Clone, Copy, PartialEq, Eq, PartialOrd, Ord, Hash, Structural)]
pub struct RequestType {
    bits: u8,
}

impl RequestType {
    /// Only the known flags are ever set.
    #[verifier::type_invariant]
    spec fn known_bits_only(self) -> bool {
        self.bits < 0x80
    }

    /// The flags, as bits.
    pub closed spec fn spec_bits(self) -> u8 {
        self.bits
    }

    /// The flags of `bits` that are known; the others are dropped.
    pub fn from_bits_truncate(bits: u8) -> (r: RequestType)
        ensures
            r.spec_bits() == bits & 0x7f,
    {
        assert(bits & 0x7f < 0x80) by (bit_vector);
        RequestType { bits: bits & 0x7f }
    }

    pub fn bits(self) -> (r: u8)
        ensures
            r == self.spec_bits(),
            r < 0x80,
    {
        proof {
            use_type_invariant(&self);
        }
        self.bits
    }

    /// The flags as MeCab takes them. Reading them back with `from_raw` gives the same flags.
    pub fn as_raw(self) -> (r: i32)
        ensures
            r == self.spec_bits() as i32,
            0 <= r < 0x80,
            (r as u8) & 0x7f == self.spec_bits(),
    {
        proof {
            use_type_invariant(&self);
            request_type_round_trip(self);
        }
        self.bits as i32
    }

    /// The flags given by MeCab: the low byte, without unknown flags.
    pub fn from_raw(request_type: i32) -> (r: RequestType)
        ensures
            r.spec_bits() == (request_type as u8) & 0x7f,
    {
        Self::from_bits_truncate(request_type as u8)
    }
}

impl Default for RequestType {
    fn default() -> (r: RequestType)
        ensures
            r.spec_bits() == ONE_BEST,
    {
        RequestType { bits: ONE_BEST }
    }
}

/// Flags with only known bits survive the trip to MeCab and back.
pub proof fn request_type_round_trip(t: RequestType)
    requires
        t.spec_bits() < 0x80,
    ensures
        ((t.spec_bits() as i32) as u8) & 0x7f == t.spec_bits(),
{
    let b = t.spec_bits();
    assert(b < 0x80 ==> ((b as i32) as u8) & 0x7f == b) by (bit_vector);
}

/// A constraint on the boundaries of tokens at a position of the sentence.
#[derive(Debug, Clone, Copy, PartialEq, Eq, PartialOrd, Ord, Hash, Structural)]
pub enum BoundaryConstraintType {
    Any,
    Token,
    InsideToken,
}

/// The number by which MeCab knows a constraint.
pub open spec fn constraint_raw(c: BoundaryConstraintType) -> i32 {
    match c {
        BoundaryConstraintType::Any => 0,
        BoundaryConstraintType::Token => 1,
        BoundaryConstraintType::InsideToken => 2,
    }
}

/// The constraint that a number stands for; an unknown number is `Any`.
pub open spec fn constraint_of_raw(raw: i32) -> BoundaryConstraintType {
    if raw == 1 {
        BoundaryConstraintType::Token
    } else if raw == 2 {
        BoundaryConstraintType::InsideToken
    } else {
        BoundaryConstraintType::Any
    }
}

impl BoundaryConstraintType {
    pub fn as_raw(self) -> (r: i32)
        ensures
            r == constraint_raw(self),
    {
        match self {
            BoundaryConstraintType::Any => 0,
            BoundaryConstraintType::Token => 1,
            BoundaryConstraintType::InsideToken => 2,
        }
    }

    pub fn from_raw(constraint: i32) -> (r: BoundaryConstraintType)
        ensures
            r == constraint_of_raw(constraint),
    {
        match constraint {
            1 => BoundaryConstraintType::Token,
            2 => BoundaryConstraintType::InsideToken,
            _ => BoundaryConstraintType::Any,
        }
    }
}

/// A constraint survives the trip to MeCab and back.
pub proof fn constraint_round_trip(c: BoundaryConstraintType)
    ensures
        constraint_of_raw(constraint_raw(c)) == c,
{
}

/// An error reported by MeCab, with its message.
#[derive(Debug)]
pub struct Error(String);

impl Error {
    /// The error with the message `msg`.
    pub fn new(msg: String) -> (r: Error)
        ensures
            r.message() == msg@,
    {
        Error(msg)
    }

    /// The message.
    pub closed spec fn message(&self) -> Seq<char> {
        self.0@
    }

    /// Returns the underlying error message.
    pub fn into_inner(self) -> (r: String)
        ensures
            r@ == self.message(),
    {
        self.0
    }

    /// Returns the reference to the underlying error message.
    pub fn to_inner(&self) -> (r: &str)
        ensures
            r@ == self.message(),
    {
        self.0.as_str()
    }
}

} // verus!

//! The decisions of tokenizing a directory tree: what is done with each entry read, and when the
//! walk is over. The filesystem work itself is done by the caller, which reports what it read.
use vstd::prelude::*;

verus! {

/// What an entry of a directory is.
#[derive(Debug, Clone, Copy, PartialEq, Eq, Structural)]
pub enum EntryKind {
    Dir,
    File,
    Other,
}

/// What the caller read next: an entry of the innermost open directory, or its end.
#[derive(Debug, Clone, Copy, PartialEq, Eq, Structural)]
pub enum WalkEvent {
    Entry(EntryKind),
    DirEnd,
}

/// What the caller does next.
#[derive(Debug, Clone, Copy, PartialEq, Eq, Structural)]
pub enum WalkAction {
    /// Create the output directory of the entry and read its input directory.
    Descend,
    /// Tokenize the input file of the entry into its output file.
    Tokenize,
    /// Leave the entry alone.
    Skip,
    /// Go back to the directory around the innermost one.
    Ascend,
    /// Every directory has been read.
    Finish,
}

/// What is done with an input path: a directory is walked, anything else is tokenized as a file.
#[derive(Debug, Clone, Copy, PartialEq, Eq, Structural)]
pub enum PathAction {
    Walk,
    TokenizeFile,
}

pub fn path_action(is_dir: bool) -> (r: PathAction)
    ensures
        r == (if is_dir {
            PathAction::Walk
        } else {
            PathAction::TokenizeFile
        }),
{
    if is_dir {
        PathAction::Walk
    } else {
        PathAction::TokenizeFile
    }
}

/// One step of the walk from `depth` open directories: the directories then open and the action.
pub open spec fn walk_step(depth: nat, e: WalkEvent) -> (nat, WalkAction) {
    match e {
        WalkEvent::Entry(EntryKind::Dir) => (depth + 1, WalkAction::Descend),
        WalkEvent::Entry(EntryKind::File) => (depth, WalkAction::Tokenize),
        WalkEvent::Entry(EntryKind::Other) => (depth, WalkAction::Skip),
        WalkEvent::DirEnd => if depth <= 1 {
            (0, WalkAction::Finish)
        } else {
            ((depth - 1) as nat, WalkAction::Ascend)
        },
    }
}

/// The actions of a walk from `depth` open directories over the events `ev`.
pub open spec fn walk_actions(depth: nat, ev: Seq<WalkEvent>) -> Seq<WalkAction>
    decreases ev.len(),
{
    if ev.len() == 0 {
        seq![]
    } else {
        let (d, a) = walk_step(depth, ev[0]);
        seq![a] + walk_actions(d, ev.drop_first())
    }
}

/// How an event changes the number of directories being read.
pub open spec fn depth_change(e: WalkEvent) -> int {
    match e {
        WalkEvent::Entry(EntryKind::Dir) => 1,
        WalkEvent::DirEnd => -1,
        _ => 0,
    }
}

/// The number of directories being read after the events `ev`, from `depth`.
pub open spec fn open_after(depth: int, ev: Seq<WalkEvent>) -> int
    decreases ev.len(),
{
    if ev.len() == 0 {
        depth
    } else {
        open_after(depth + depth_change(ev[0]), ev.drop_first())
    }
}

/// What is read of an input directory tree: each directory's entries, each subdirectory's
/// events right after its entry, and each directory's end, the input directory's end last.
pub open spec fn reads_input_dir(ev: Seq<WalkEvent>) -> bool {
    &&& ev.len() > 0
    &&& open_after(1, ev) == 0
    &&& forall|k: int| 0 <= k < ev.len() ==> open_after(1, #[trigger] ev.take(k)) >= 1
}

/// The action that mirrors an event: a subdirectory gets its output directory and is read, a file
/// is tokenized, anything else is skipped, and a directory's end goes back to the directory
/// around it, or finishes the walk when it is the last event.
pub open spec fn mirror(e: WalkEvent, last: bool) -> WalkAction {
    match e {
        WalkEvent::Entry(EntryKind::Dir) => WalkAction::Descend,
        WalkEvent::Entry(EntryKind::File) => WalkAction::Tokenize,
        WalkEvent::Entry(EntryKind::Other) => WalkAction::Skip,
        WalkEvent::DirEnd => if last {
            WalkAction::Finish
        } else {
            WalkAction::Ascend
        },
    }
}

proof fn lemma_walk_mirrors(d: nat, ev: Seq<WalkEvent>)
    requires
        forall|k: int| 0 <= k < ev.len() ==> open_after(d as int, #[trigger] ev.take(k)) >= 1,
    ensures
        walk_actions(d, ev).len() == ev.len(),
        forall|k: int|
            0 <= k < ev.len() ==> #[trigger] walk_actions(d, ev)[k] == mirror(
                ev[k],
                open_after(d as int, ev.take(k + 1)) == 0,
            ),
    decreases ev.len(),
{
    if ev.len() > 0 {
        assert(ev.take(0) =~= Seq::<WalkEvent>::empty());
        assert(open_after(d as int, ev.take(0)) >= 1);
        let (d1, a) = walk_step(d, ev[0]);
        let rest = ev.drop_first();
        assert(d1 == d + depth_change(ev[0]));
        assert forall|k: int| 0 <= k <= rest.len() implies open_after(d as int, ev.take(k + 1))
            == open_after(d1 as int, #[trigger] rest.take(k)) by {
            assert(ev.take(k + 1)[0] == ev[0]);
            assert(ev.take(k + 1).drop_first() =~= rest.take(k));
        }
        assert forall|k: int| 0 <= k < rest.len() implies open_after(d1 as int, #[trigger] rest.take(k))
            >= 1 by {
            assert(open_after(d as int, ev.take(k + 1)) == open_after(d1 as int, rest.take(k)));
        }
        lemma_walk_mirrors(d1, rest);
        let w = walk_actions(d, ev);
        assert(w =~= seq![a] + walk_actions(d1, rest));
        assert(rest.take(0) =~= Seq::<WalkEvent>::empty());
        assert(open_after(d as int, ev.take(1)) == d1);
        assert forall|k: int| 0 <= k < ev.len() implies #[trigger] w[k] == mirror(
            ev[k],
            open_after(d as int, ev.take(k + 1)) == 0,
        ) by {
            if k > 0 {
                assert(w[k] == walk_actions(d1, rest)[k - 1]);
                assert(ev[k] == rest[k - 1]);
            }
        }
    }
}

/// The walk over an input directory tree mirrors what it reads: each subdirectory gets its output
/// directory and is read, each file is tokenized, anything else is skipped, and the walk goes
/// back up at each directory's end and finishes exactly at the end of the input directory.
pub proof fn walk_mirrors_the_tree(ev: Seq<WalkEvent>)
    requires
        reads_input_dir(ev),
    ensures
        walk_actions(1, ev) == Seq::new(ev.len(), |k: int| mirror(ev[k], k == ev.len() - 1)),
{
    lemma_walk_mirrors(1, ev);
    assert(ev.take(ev.len() as int) =~= ev);
    assert forall|k: int| 0 <= k < ev.len() - 1 implies open_after(1, #[trigger] ev.take(k + 1)) >= 1 by {
        assert(open_after(1, ev.take(k + 1)) >= 1);
    }
    assert(walk_actions(1, ev) =~= Seq::new(ev.len(), |k: int| mirror(ev[k], k == ev.len() - 1)));
}

/// A depth-first walk over the directories of an input, counting those being read.
#[derive(Debug)]
pub struct DirWalk {
    open: usize,
}

impl DirWalk {
    /// The number of directories being read.
    pub closed spec fn depth(self) -> nat {
        self.open as nat
    }

    /// A walk that reads the input directory.
    pub fn new() -> (r: DirWalk)
        ensures
            r.depth() == 1,
    {
        DirWalk { open: 1 }
    }

    /// Whether every directory has been read.
    pub fn is_done(&self) -> (r: bool)
        ensures
            r == (self.depth() == 0),
    {
        self.open == 0
    }

    /// The action for what was read: a subdirectory is descended into, a file is tokenized, any
    /// other entry is skipped, and the end of a directory goes back to the one around it, or
    /// finishes the walk after the input directory.
    pub fn on_event(&mut self, event: WalkEvent) -> (r: WalkAction)
        requires
            old(self).depth() > 0,
            event == WalkEvent::Entry(EntryKind::Dir) ==> old(self).depth() < usize::MAX,
        ensures
            (final(self).depth(), r) == walk_step(old(self).depth(), event),
            match event {
                WalkEvent::Entry(EntryKind::Dir) => r == WalkAction::Descend && final(self).depth()
                    == old(self).depth() + 1,
                WalkEvent::Entry(EntryKind::File) => r == WalkAction::Tokenize && final(self).depth()
                    == old(self).depth(),
                WalkEvent::Entry(EntryKind::Other) => r == WalkAction::Skip && final(self).depth()
                    == old(self).depth(),
                WalkEvent::DirEnd => if old(self).depth() == 1 {
                    r == WalkAction::Finish && final(self).depth() == 0
                } else {
                    r == WalkAction::Ascend && final(self).depth() == old(self).depth() - 1
                },
            },
    {
        match event {
            WalkEvent::Entry(EntryKind::Dir) => {
                self.open = self.open + 1;
                WalkAction::Descend
            },
            WalkEvent::Entry(EntryKind::File) => WalkAction::Tokenize,
            WalkEvent::Entry(EntryKind::Other) => WalkAction::Skip,
            WalkEvent::DirEnd => {
                self.open = self.open - 1;
                if self.open == 0 {
                    WalkAction::Finish
                } else {
                    WalkAction::Ascend
                }
            },
        }
    }
}

} // verus!

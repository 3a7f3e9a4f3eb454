//! What the system partition holds, as a mathematical value, and the changes
//! that lead from one such value to the next.

use vstd::prelude::*;

verus! {

/// A loader entry as a mathematical value.
pub struct EntryView {
    pub version: u64,
    pub title: Seq<char>,
    pub sort_key: Seq<char>,
    pub stub: Seq<char>,
    pub kernel: Seq<char>,
    pub initrd: Seq<char>,
    pub options: Seq<char>,
}

impl EntryView {
    /// Whether the entry needs the artifact at `path`.
    pub open spec fn needs(self, path: Seq<char>) -> bool {
        self.stub == path || self.kernel == path || self.initrd == path
    }
}

/// What the system partition holds: the artifacts stored by their content,
/// the loader entries by the version of their generation, and the digest of
/// the boot loader that is installed, where that is known.
pub struct EspState {
    pub files: Set<Seq<char>>,
    pub entries: Map<u64, EntryView>,
    pub bootloader: Option<Seq<u8>>,
}

/// One change of the system partition. Each is carried out as a whole or not
/// at all.
pub enum OpView {
    /// Put an artifact in place.
    Write { path: Seq<char>, content: Seq<u8> },
    /// Delete an artifact.
    Remove { path: Seq<char> },
    /// Create or replace the entry of a generation.
    WriteEntry { entry: EntryView },
    /// Delete the entry of a generation.
    RemoveEntry { version: u64 },
    /// Put the boot loader in place, or replace it.
    WriteBootloader { path: Seq<char>, digest: Seq<u8>, content: Seq<u8> },
    /// Have the measurement policy of a generation produced anew.
    RefreshPolicy { version: u64, stub: Seq<char> },
}

impl OpView {
    /// Whether the change takes something away.
    pub open spec fn removes(self) -> bool {
        self is Remove || self is RemoveEntry
    }
}

/// The artifacts that some entry needs.
pub open spec fn referenced(entries: Map<u64, EntryView>) -> Set<Seq<char>> {
    Set::new(
        |path: Seq<char>| exists|v: u64| #[trigger] entries.dom().contains(v) && entries[v].needs(path),
    )
}

impl EspState {
    /// Whether every entry finds the artifacts that it needs.
    pub open spec fn consistent(self) -> bool {
        forall|v: u64| #[trigger]
            self.entries.dom().contains(v) ==> self.files.contains(self.entries[v].stub)
                && self.files.contains(self.entries[v].kernel) && self.files.contains(
                self.entries[v].initrd,
            )
    }

    /// The state after one change.
    pub open spec fn apply(self, op: OpView) -> EspState {
        match op {
            OpView::Write { path, content } => EspState { files: self.files.insert(path), ..self },
            OpView::Remove { path } => EspState { files: self.files.remove(path), ..self },
            OpView::WriteEntry { entry } => EspState {
                entries: self.entries.insert(entry.version, entry),
                ..self
            },
            OpView::RemoveEntry { version } => EspState {
                entries: self.entries.remove(version),
                ..self
            },
            OpView::WriteBootloader { path, digest, content } => EspState {
                bootloader: Some(digest),
                ..self
            },
            OpView::RefreshPolicy { version, stub } => self,
        }
    }

    /// The state after a sequence of changes.
    pub open spec fn replay(self, ops: Seq<OpView>) -> EspState
        decreases ops.len(),
    {
        if ops.len() == 0 {
            self
        } else {
            self.replay(ops.drop_last()).apply(ops.last())
        }
    }

    /// Whether the changes can stop after any of them and leave every entry
    /// with the artifacts that it needs.
    pub open spec fn safe(self, ops: Seq<OpView>) -> bool {
        forall|k: int| 0 <= k <= ops.len() ==> (#[trigger] self.replay(ops.take(k))).consistent()
    }
}

/// A change that keeps a consistent state consistent extends a safe sequence
/// of changes to a safe one.
pub proof fn lemma_safe_push(origin: EspState, ops: Seq<OpView>, op: OpView)
    requires
        origin.safe(ops),
        origin.replay(ops).apply(op).consistent(),
    ensures
        origin.safe(ops.push(op)),
        origin.replay(ops.push(op)) == origin.replay(ops).apply(op),
{
    let longer = ops.push(op);
    assert(longer.drop_last() =~= ops);
    assert forall|k: int| 0 <= k <= longer.len() implies (#[trigger] origin.replay(
        longer.take(k),
    )).consistent() by {
        if k <= ops.len() {
            assert(longer.take(k) =~= ops.take(k));
        } else {
            assert(longer.take(k) =~= longer);
        }
    }
}

/// Replaying two sequences of changes one after the other is replaying their
/// concatenation.
pub proof fn lemma_replay_concat(origin: EspState, first: Seq<OpView>, second: Seq<OpView>)
    ensures
        origin.replay(first + second) == origin.replay(first).replay(second),
    decreases second.len(),
{
    if second.len() == 0 {
        assert(first + second =~= first);
    } else {
        lemma_replay_concat(origin, first, second.drop_last());
        assert((first + second).drop_last() =~= first + second.drop_last());
    }
}

} // verus!

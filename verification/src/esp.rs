//! The system partition as the installer knows it: a store of artifacts by
//! their content, the loader entries, and a journal of the changes decided.

use crate::architecture::Architecture;
use crate::artifact::{artifact_path, path_of, ArtifactKind, InstalledArtifact};
use crate::digest::{bytes_view, sha256, sha256_of};
use crate::entry::{LoaderEntry, Op};
use crate::entry_file::writable;
use crate::state::{lemma_safe_push, referenced, EntryView, EspState, OpView};
use vstd::prelude::*;

verus! {

/// The set of the paths in a list.
pub open spec fn path_set(v: Seq<String>) -> Set<Seq<char>> {
    Set::new(|p: Seq<char>| exists|i: int| 0 <= i < v.len() && (#[trigger] v[i])@ == p)
}

/// The entries in a list by their version; of two entries of one version the
/// later one counts.
pub open spec fn listed(v: Seq<LoaderEntry>) -> Map<u64, EntryView>
    decreases v.len(),
{
    if v.len() == 0 {
        Map::empty()
    } else {
        listed(v.drop_last()).insert(v.last().version, v.last()@)
    }
}

/// The views of the changes in a journal.
pub open spec fn op_views(journal: Seq<Op>) -> Seq<OpView> {
    Seq::new(journal.len(), |i: int| journal[i]@)
}

/// Whether no path stands twice in the list.
pub open spec fn distinct_paths(v: Seq<String>) -> bool {
    forall|i: int, j: int| 0 <= i < j < v.len() ==> (#[trigger] v[i])@ != (#[trigger] v[j])@
}

/// Whether no two entries of the list have one version.
pub open spec fn distinct_entries(v: Seq<LoaderEntry>) -> bool {
    forall|i: int, j: int|
        0 <= i < j < v.len() ==> (#[trigger] v[i]).version != (#[trigger] v[j]).version
}

/// Whether the list holds an entry of the version.
spec fn has_version(v: Seq<LoaderEntry>, version: u64) -> bool {
    exists|i: int| 0 <= i < v.len() && (#[trigger] v[i]).version == version
}

/// A path more in the list is a path more in the set.
proof fn lemma_path_set_push(v: Seq<String>, p: String)
    ensures
        path_set(v.push(p)) == path_set(v).insert(p@),
{
    let longer = v.push(p);
    assert forall|q: Seq<char>| path_set(longer).contains(q) <==> path_set(v).insert(
        p@,
    ).contains(q) by {
        if path_set(longer).contains(q) {
            let i = choose|i: int| 0 <= i < longer.len() && (#[trigger] longer[i])@ == q;
            if i < v.len() {
                assert(v[i]@ == q);
            }
        }
        if path_set(v).contains(q) {
            let i = choose|i: int| 0 <= i < v.len() && (#[trigger] v[i])@ == q;
            assert(longer[i]@ == q);
        }
        if q == p@ {
            assert(longer[v.len() as int]@ == q);
        }
    }
    assert(path_set(longer) =~= path_set(v).insert(p@));
}

/// Where no path stands twice, a path less in the list is a path less in
/// the set.
proof fn lemma_path_set_remove(v: Seq<String>, at: int)
    requires
        0 <= at < v.len(),
        distinct_paths(v),
    ensures
        path_set(v.remove(at)) == path_set(v).remove(v[at]@),
        distinct_paths(v.remove(at)),
{
    let shorter = v.remove(at);
    assert forall|q: Seq<char>| path_set(shorter).contains(q) <==> path_set(v).remove(
        v[at]@,
    ).contains(q) by {
        if path_set(shorter).contains(q) {
            let i = choose|i: int| 0 <= i < shorter.len() && (#[trigger] shorter[i])@ == q;
            if i < at {
                assert(v[i]@ == q);
            } else {
                assert(v[i + 1]@ == q);
            }
        }
        if path_set(v).remove(v[at]@).contains(q) {
            let i = choose|i: int| 0 <= i < v.len() && (#[trigger] v[i])@ == q;
            if i < at {
                assert(shorter[i]@ == q);
            } else {
                assert(shorter[i - 1]@ == q);
            }
        }
    }
    assert(path_set(shorter) =~= path_set(v).remove(v[at]@));
    assert forall|i: int, j: int| 0 <= i < j < shorter.len() implies (#[trigger] shorter[i])@ != (
    #[trigger] shorter[j])@ by {
        let a = if i < at { i } else { i + 1 };
        let b = if j < at { j } else { j + 1 };
        assert(shorter[i] == v[a] && shorter[j] == v[b]);
    }
}

/// The versions that a list of entries has are those of its entries.
proof fn lemma_listed_dom(v: Seq<LoaderEntry>, version: u64)
    ensures
        listed(v).dom().contains(version) <==> has_version(v, version),
    decreases v.len(),
{
    if v.len() > 0 {
        let front = v.drop_last();
        lemma_listed_dom(front, version);
        if has_version(v, version) {
            let i = choose|i: int| 0 <= i < v.len() && (#[trigger] v[i]).version == version;
            if i < front.len() {
                assert(front[i].version == version);
            }
        }
        if has_version(front, version) {
            let i = choose|i: int| 0 <= i < front.len() && (#[trigger] front[i]).version == version;
            assert(v[i].version == version);
        }
        if v.last().version == version {
            assert(v[v.len() - 1].version == version);
        }
    }
}

/// Where versions are distinct, a list of entries gives each of them under
/// its version.
proof fn lemma_listed_at(v: Seq<LoaderEntry>, at: int)
    requires
        0 <= at < v.len(),
        distinct_entries(v),
    ensures
        listed(v).dom().contains(v[at].version),
        listed(v)[v[at].version] == v[at]@,
    decreases v.len(),
{
    let front = v.drop_last();
    if at < front.len() {
        assert(distinct_entries(front)) by {
            assert forall|i: int, j: int| 0 <= i < j < front.len() implies (#[trigger] front[i]).version
                != (#[trigger] front[j]).version by {
                assert(front[i] == v[i] && front[j] == v[j]);
            }
        }
        lemma_listed_at(front, at);
        assert(v[at].version != v[v.len() - 1].version);
    }
}

/// An entry more at the end of the list stands under its version.
proof fn lemma_listed_push(v: Seq<LoaderEntry>, e: LoaderEntry)
    ensures
        listed(v.push(e)) == listed(v).insert(e.version, e@),
{
    assert(v.push(e).drop_last() =~= v);
}

/// An entry put in the place of one of its version stands under that
/// version.
proof fn lemma_listed_update(v: Seq<LoaderEntry>, at: int, e: LoaderEntry)
    requires
        0 <= at < v.len(),
        distinct_entries(v),
        v[at].version == e.version,
    ensures
        listed(v.update(at, e)) == listed(v).insert(e.version, e@),
        distinct_entries(v.update(at, e)),
{
    let changed = v.update(at, e);
    assert(distinct_entries(changed)) by {
        assert forall|i: int, j: int| 0 <= i < j < changed.len() implies (
        #[trigger] changed[i]).version != (#[trigger] changed[j]).version by {
            assert(changed[i].version == v[i].version);
            assert(changed[j].version == v[j].version);
        }
    }
    assert forall|k: u64| listed(changed).dom().contains(k) <==> listed(v).insert(
        e.version,
        e@,
    ).dom().contains(k) by {
        lemma_listed_dom(changed, k);
        lemma_listed_dom(v, k);
        if has_version(changed, k) {
            let i = choose|i: int| 0 <= i < changed.len() && (#[trigger] changed[i]).version == k;
            assert(v[i].version == k);
        }
        if has_version(v, k) {
            let i = choose|i: int| 0 <= i < v.len() && (#[trigger] v[i]).version == k;
            assert(changed[i].version == k);
        }
    }
    assert forall|k: u64| listed(changed).dom().contains(k) implies listed(changed)[k]
        == listed(v).insert(e.version, e@)[k] by {
        lemma_listed_dom(changed, k);
        let i = choose|i: int| 0 <= i < changed.len() && (#[trigger] changed[i]).version == k;
        lemma_listed_at(changed, i);
        if i != at {
            lemma_listed_at(v, i);
        }
    }
    assert(listed(changed) =~= listed(v).insert(e.version, e@));
}

/// Where versions are distinct, an entry less in the list is a version
/// less.
proof fn lemma_listed_remove(v: Seq<LoaderEntry>, at: int)
    requires
        0 <= at < v.len(),
        distinct_entries(v),
    ensures
        listed(v.remove(at)) == listed(v).remove(v[at].version),
        distinct_entries(v.remove(at)),
{
    let shorter = v.remove(at);
    assert(distinct_entries(shorter)) by {
        assert forall|i: int, j: int| 0 <= i < j < shorter.len() implies (
        #[trigger] shorter[i]).version != (#[trigger] shorter[j]).version by {
            let a = if i < at { i } else { i + 1 };
            let b = if j < at { j } else { j + 1 };
            assert(shorter[i] == v[a] && shorter[j] == v[b]);
        }
    }
    assert forall|k: u64| listed(shorter).dom().contains(k) <==> listed(v).remove(
        v[at].version,
    ).dom().contains(k) by {
        lemma_listed_dom(shorter, k);
        lemma_listed_dom(v, k);
        if has_version(shorter, k) {
            let i = choose|i: int| 0 <= i < shorter.len() && (#[trigger] shorter[i]).version == k;
            let a = if i < at { i } else { i + 1 };
            assert(v[a].version == k);
        }
        if has_version(v, k) && k != v[at].version {
            let i = choose|i: int| 0 <= i < v.len() && (#[trigger] v[i]).version == k;
            let a = if i < at { i } else { i - 1 };
            assert(shorter[a].version == k);
        }
    }
    assert forall|k: u64| listed(shorter).dom().contains(k) implies listed(shorter)[k] == listed(
        v,
    ).remove(v[at].version)[k] by {
        lemma_listed_dom(shorter, k);
        let i = choose|i: int| 0 <= i < shorter.len() && (#[trigger] shorter[i]).version == k;
        let a = if i < at { i } else { i + 1 };
        lemma_listed_at(shorter, i);
        lemma_listed_at(v, a);
    }
    assert(listed(shorter) =~= listed(v).remove(v[at].version));
}


/// Whether an artifact known by `digest` is in place.
pub open spec fn present(
    state: EspState,
    architecture: Architecture,
    kind: ArtifactKind,
    digest: Seq<u8>,
) -> bool {
    if kind == ArtifactKind::Bootloader {
        state.bootloader == Some(digest)
    } else {
        state.files.contains(artifact_path(kind, architecture, digest))
    }
}

/// The change that puts an artifact in place.
pub open spec fn placement(
    architecture: Architecture,
    kind: ArtifactKind,
    digest: Seq<u8>,
    content: Seq<u8>,
) -> OpView {
    if kind == ArtifactKind::Bootloader {
        OpView::WriteBootloader { path: artifact_path(kind, architecture, digest), digest, content }
    } else {
        OpView::Write { path: artifact_path(kind, architecture, digest), content }
    }
}

/// Whether an entry can be written: the artifacts that it needs are in place,
/// and it can be read again from its file.
pub open spec fn installable(state: EspState, entry: EntryView) -> bool {
    state.files.contains(entry.stub) && state.files.contains(entry.kernel) && state.files.contains(
        entry.initrd,
    ) && writable(entry)
}

/// Whether a change deletes the entry of a version that is not kept.
pub open spec fn stale_entry(op: OpView, state: EspState, keep: Set<u64>) -> bool {
    op matches OpView::RemoveEntry { version } && state.entries.dom().contains(version)
        && !keep.contains(version)
}

/// Whether a change deletes an artifact that none of the entries needs.
pub open spec fn stale_artifact(
    op: OpView,
    files: Set<Seq<char>>,
    entries: Map<u64, EntryView>,
) -> bool {
    op matches OpView::Remove { path } && files.contains(path) && !referenced(entries).contains(
        path,
    )
}

/// Whether the changes from `from` on delete entries up to `turn` and
/// artifacts from there on.
pub open spec fn entries_first(changes: Seq<OpView>, from: int, turn: int) -> bool {
    &&& from <= turn <= changes.len()
    &&& forall|i: int| from <= i < turn ==> (#[trigger] changes[i]) is RemoveEntry
    &&& forall|i: int| turn <= i < changes.len() ==> (#[trigger] changes[i]) is Remove
}

/// The system partition as the installer knows it: what it holds, and a
/// journal of the changes that were decided since it was looked at. Nothing
/// is written here; the journal is to be carried out in its order.
pub struct Esp {
    architecture: Architecture,
    artifacts: Vec<String>,
    entries: Vec<LoaderEntry>,
    bootloader: Option<Vec<u8>>,
    journal: Vec<Op>,
    origin: Ghost<EspState>,
}

impl View for Esp {
    type V = EspState;

    closed spec fn view(&self) -> EspState {
        EspState {
            files: path_set(self.artifacts@),
            entries: listed(self.entries@),
            bootloader: bytes_view(self.bootloader),
        }
    }
}

impl Esp {
    /// The changes decided so far.
    pub closed spec fn changes(&self) -> Seq<OpView> {
        op_views(self.journal@)
    }

    /// What the partition held when it was looked at.
    pub closed spec fn origin(&self) -> EspState {
        self.origin@
    }

    /// The architecture whose boot loader the partition holds.
    pub closed spec fn machine(&self) -> Architecture {
        self.architecture
    }

    /// The journal leads from the origin to the present state, and where the
    /// origin is consistent the journal is safe.
    pub closed spec fn wf(&self) -> bool {
        &&& distinct_paths(self.artifacts@)
        &&& distinct_entries(self.entries@)
        &&& self.origin@.replay(self.changes()) == self@
        &&& self.origin@.consistent() ==> self.origin@.safe(self.changes())
    }

    /// What holds of every partition: its journal leads from what it held to
    /// what it holds, and if every entry found its artifacts at first, it does
    /// so after each change of the journal.
    pub proof fn lemma_journal(&self)
        requires
            self.wf(),
        ensures
            self.origin().replay(self.changes()) == self@,
            self.origin().consistent() ==> self.origin().safe(self.changes()),
            self.origin().consistent() ==> self@.consistent(),
    {
        if self.origin().consistent() {
            assert(self.changes().take(self.changes().len() as int) =~= self.changes());
        }
    }

    /// The partition as a look at it has found it: the artifacts at the given
    /// paths, the given entries, and the boot loader of the given digest.
    pub fn new(
        architecture: Architecture,
        artifacts: Vec<String>,
        entries: Vec<LoaderEntry>,
        bootloader: Option<Vec<u8>>,
    ) -> (esp: Esp)
        ensures
            esp.wf(),
            esp.machine() == architecture,
            esp@.files == path_set(artifacts@),
            esp@.entries == listed(entries@),
            esp@.bootloader == bytes_view(bootloader),
            esp.changes() == Seq::<OpView>::empty(),
            esp.origin() == esp@,
    {
        let ghost all_paths = artifacts@;
        let ghost all_entries = entries@;
        let mut rest = artifacts;
        let mut kept: Vec<String> = Vec::new();
        let mut seen: Ghost<int> = Ghost(0);
        assert(path_set(kept@) =~= path_set(all_paths.take(0)));
        while rest.len() > 0
            invariant
                0 <= seen@ <= all_paths.len(),
                rest@ == all_paths.skip(seen@),
                distinct_paths(kept@),
                path_set(kept@) == path_set(all_paths.take(seen@)),
            decreases rest.len(),
        {
            let path = rest.remove(0);
            proof {
                assert(all_paths.take(seen@ + 1) =~= all_paths.take(seen@).push(path));
                lemma_path_set_push(all_paths.take(seen@), path);
                assert(rest@ =~= all_paths.skip(seen@ + 1));
            }
            match position_of(&kept, &path) {
                Some(_) => {
                    assert(path_set(kept@).insert(path@) =~= path_set(kept@));
                },
                None => {
                    proof {
                        lemma_path_set_push(kept@, path);
                        assert forall|i: int, j: int| 0 <= i < j < kept@.push(path).len() implies (
                        #[trigger] kept@.push(path)[i])@ != (#[trigger] kept@.push(path)[j])@ by {
                            if j == kept@.len() {
                                assert(kept@[i]@ != path@);
                            }
                        }
                    }
                    kept.push(path);
                },
            }
            proof {
                seen@ = seen@ + 1;
            }
        }
        assert(all_paths.take(seen@) =~= all_paths);

        let mut rest = entries;
        let mut list: Vec<LoaderEntry> = Vec::new();
        let mut seen: Ghost<int> = Ghost(0);
        assert(all_entries.take(0) =~= Seq::<LoaderEntry>::empty());
        while rest.len() > 0
            invariant
                0 <= seen@ <= all_entries.len(),
                rest@ == all_entries.skip(seen@),
                distinct_entries(list@),
                listed(list@) == listed(all_entries.take(seen@)),
            decreases rest.len(),
        {
            let entry = rest.remove(0);
            proof {
                assert(all_entries.take(seen@ + 1) =~= all_entries.take(seen@).push(entry));
                lemma_listed_push(all_entries.take(seen@), entry);
                assert(rest@ =~= all_entries.skip(seen@ + 1));
            }
            match slot_of(&list, entry.version) {
                Some(at) => {
                    proof {
                        lemma_listed_update(list@, at as int, entry);
                    }
                    list.set(at, entry);
                },
                None => {
                    proof {
                        lemma_listed_push(list@, entry);
                        assert forall|i: int, j: int| 0 <= i < j < list@.push(entry).len() implies (
                        #[trigger] list@.push(entry)[i]).version != (#[trigger] list@.push(
                            entry,
                        )[j]).version by {
                            if j == list@.len() {
                                assert(list@[i].version != entry.version);
                            }
                        }
                    }
                    list.push(entry);
                },
            }
            proof {
                seen@ = seen@ + 1;
            }
        }
        assert(all_entries.take(seen@) =~= all_entries);

        let ghost origin = EspState {
            files: path_set(kept@),
            entries: listed(list@),
            bootloader: bytes_view(bootloader),
        };
        let esp = Esp {
            architecture,
            artifacts: kept,
            entries: list,
            bootloader,
            journal: Vec::new(),
            origin: Ghost(origin),
        };
        proof {
            assert(esp.changes() =~= Seq::<OpView>::empty());
            assert forall|k: int| 0 <= k <= esp.changes().len() implies (
            #[trigger] origin.replay(esp.changes().take(k))) == origin by {
                assert(esp.changes().take(k) =~= Seq::<OpView>::empty());
            }
        }
        esp
    }
}

/// Where in a list a path stands, if it does.
fn position_of(paths: &Vec<String>, path: &String) -> (at: Option<usize>)
    ensures
        match at {
            Some(i) => i < paths.len() && paths[i as int]@ == path@,
            None => !path_set(paths@).contains(path@),
        },
{
    let mut i: usize = 0;
    while i < paths.len()
        invariant
            i <= paths.len(),
            forall|j: int| 0 <= j < i ==> (#[trigger] paths[j])@ != path@,
        decreases paths.len() - i,
    {
        if paths[i] == *path {
            return Some(i);
        }
        i += 1;
    }
    None
}

/// Where in a list the entry of a version stands, if there is one.
fn slot_of(entries: &Vec<LoaderEntry>, version: u64) -> (at: Option<usize>)
    ensures
        match at {
            Some(i) => i < entries.len() && entries[i as int].version == version,
            None => !has_version(entries@, version),
        },
{
    let mut i: usize = 0;
    while i < entries.len()
        invariant
            i <= entries.len(),
            forall|j: int| 0 <= j < i ==> (#[trigger] entries[j]).version != version,
        decreases entries.len() - i,
    {
        if entries[i].version == version {
            return Some(i);
        }
        i += 1;
    }
    None
}


/// One more change, which keeps a consistent state consistent, extends a
/// journal that leads from `origin` to `before`.
proof fn lemma_step(origin: EspState, ops: Seq<OpView>, op: OpView, before: EspState)
    requires
        origin.replay(ops) == before,
        origin.consistent() ==> origin.safe(ops),
        before.consistent() ==> before.apply(op).consistent(),
    ensures
        origin.replay(ops.push(op)) == before.apply(op),
        origin.consistent() ==> origin.safe(ops.push(op)),
{
    assert(ops.push(op).drop_last() =~= ops);
    if origin.consistent() {
        assert(ops.take(ops.len() as int) =~= ops);
        lemma_safe_push(origin, ops, op);
    }
}

/// Whether two byte strings are the same.
fn same_bytes(a: &Vec<u8>, b: &Vec<u8>) -> (same: bool)
    ensures
        same == (a@ == b@),
{
    if a.len() != b.len() {
        return false;
    }
    let mut i: usize = 0;
    while i < a.len()
        invariant
            i <= a.len(),
            a.len() == b.len(),
            forall|j: int| 0 <= j < i ==> a[j] == b[j],
        decreases a.len() - i,
    {
        if a[i] != b[i] {
            return false;
        }
        i += 1;
    }
    assert(a@ =~= b@);
    true
}

/// A copy of a byte string.
pub fn copy_bytes(bytes: &Vec<u8>) -> (copy: Vec<u8>)
    ensures
        copy@ == bytes@,
{
    let copy = bytes.clone();
    assert(copy@ =~= bytes@);
    copy
}

/// Whether a version is among those given.
fn among(versions: &Vec<u64>, version: u64) -> (b: bool)
    ensures
        b == versions@.contains(version),
{
    let mut i: usize = 0;
    while i < versions.len()
        invariant
            i <= versions.len(),
            forall|j: int| 0 <= j < i ==> versions[j] != version,
        decreases versions.len() - i,
    {
        if versions[i] == version {
            return true;
        }
        i += 1;
    }
    false
}

impl Esp {
    /// The architecture whose boot loader the partition holds.
    pub fn architecture(&self) -> (a: Architecture)
        ensures
            a == self.machine(),
    {
        self.architecture
    }

    /// The changes decided so far, in the order in which they are to be
    /// carried out.
    pub fn journal(&self) -> (journal: &Vec<Op>)
        ensures
            op_views(journal@) == self.changes(),
    {
        &self.journal
    }

    /// The paths of the artifacts that the partition holds, each of them
    /// once.
    pub fn artifacts(&self) -> (paths: &Vec<String>)
        requires
            self.wf(),
        ensures
            path_set(paths@) == self@.files,
            distinct_paths(paths@),
    {
        &self.artifacts
    }

    /// The entries that the partition holds, one for each version that has
    /// one.
    pub fn entries(&self) -> (entries: &Vec<LoaderEntry>)
        requires
            self.wf(),
        ensures
            listed(entries@) == self@.entries,
            distinct_entries(entries@),
            forall|i: int|
                0 <= i < entries@.len() ==> self@.entries.dom().contains(
                    (#[trigger] entries@[i]).version,
                ) && self@.entries[entries@[i].version] == entries@[i]@,
    {
        proof {
            assert forall|i: int| 0 <= i < self.entries@.len() implies self@.entries.dom().contains(
                (#[trigger] self.entries@[i]).version,
            ) && self@.entries[self.entries@[i].version] == self.entries@[i]@ by {
                lemma_listed_at(self.entries@, i);
            }
        }
        &self.entries
    }

    /// Whether an artifact lies at `path`.
    pub fn contains(&self, path: &String) -> (b: bool)
        ensures
            b == self@.files.contains(path@),
    {
        position_of(&self.artifacts, path).is_some()
    }

    /// Whether a generation of this version has an entry.
    pub fn has_entry(&self, version: u64) -> (b: bool)
        ensures
            b == self@.entries.dom().contains(version),
    {
        proof {
            lemma_listed_dom(self.entries@, version);
        }
        slot_of(&self.entries, version).is_some()
    }

    /// Whether some entry needs the artifact at `path`.
    pub fn is_referenced(&self, path: &String) -> (b: bool)
        requires
            self.wf(),
        ensures
            b == referenced(self@.entries).contains(path@),
    {
        let mut i: usize = 0;
        while i < self.entries.len()
            invariant
                i <= self.entries.len(),
                self.wf(),
                forall|j: int| 0 <= j < i ==> !(#[trigger] self.entries[j])@.needs(path@),
            decreases self.entries.len() - i,
        {
            if self.entries[i].needs(path) {
                proof {
                    lemma_listed_at(self.entries@, i as int);
                    assert(self@.entries.dom().contains(self.entries[i as int].version));
                }
                return true;
            }
            i += 1;
        }
        proof {
            assert forall|v: u64| #[trigger]
                self@.entries.dom().contains(v) implies !self@.entries[v].needs(path@) by {
                lemma_listed_dom(self.entries@, v);
                let j = choose|j: int|
                    0 <= j < self.entries@.len() && (#[trigger] self.entries@[j]).version == v;
                lemma_listed_at(self.entries@, j);
            }
        }
        false
    }

    /// Whether an artifact known by `digest` is in place.
    pub fn holds(&self, kind: ArtifactKind, digest: &Vec<u8>) -> (b: bool)
        ensures
            b == present(self@, self.machine(), kind, digest@),
    {
        match kind {
            ArtifactKind::Bootloader => match &self.bootloader {
                Some(d) => same_bytes(d, digest),
                None => false,
            },
            _ => {
                let path = path_of(kind, self.architecture, digest);
                position_of(&self.artifacts, &path).is_some()
            },
        }
    }

    /// Puts `content` in place as the artifact known by `digest`, unless that
    /// artifact is in place already: what is there is not written again.
    pub fn place(&mut self, kind: ArtifactKind, digest: Vec<u8>, content: Vec<u8>) -> (artifact:
        InstalledArtifact)
        requires
            old(self).wf(),
        ensures
            final(self).wf(),
            final(self).machine() == old(self).machine(),
            final(self).origin() == old(self).origin(),
            artifact.kind == kind,
            artifact.hash@ == digest@,
            artifact.path@ == artifact_path(kind, old(self).machine(), digest@),
            present(old(self)@, old(self).machine(), kind, digest@) ==> final(self)@ == old(self)@
                && final(self).changes() == old(self).changes(),
            !present(old(self)@, old(self).machine(), kind, digest@) ==> final(self)@ == old(
                self,
            )@.apply(placement(old(self).machine(), kind, digest@, content@))
                && final(self).changes() == old(self).changes().push(
                placement(old(self).machine(), kind, digest@, content@),
            ),
    {
        let path = path_of(kind, self.architecture, &digest);
        if !self.holds(kind, &digest) {
            let ghost op = placement(self.architecture, kind, digest@, content@);
            match kind {
                ArtifactKind::Bootloader => {
                    self.bootloader = Some(copy_bytes(&digest));
                    self.journal.push(
                        Op::WriteBootloader {
                            path: path.clone(),
                            digest: copy_bytes(&digest),
                            content,
                        },
                    );
                },
                _ => {
                    self.artifacts.push(path.clone());
                    self.journal.push(Op::Write { path: path.clone(), content });
                    proof {
                        lemma_path_set_push(old(self).artifacts@, path);
                        assert forall|i: int, j: int|
                            0 <= i < j < self.artifacts@.len() implies (
                        #[trigger] self.artifacts@[i])@ != (#[trigger] self.artifacts@[j])@ by {
                            if j == old(self).artifacts@.len() {
                                assert(old(self).artifacts@[i]@ != path@);
                            } else {
                                assert(self.artifacts@[i] == old(self).artifacts@[i]);
                                assert(self.artifacts@[j] == old(self).artifacts@[j]);
                            }
                        }
                        assert(path_set(self.artifacts@) == path_set(
                            old(self).artifacts@.push(path),
                        )) by {
                            assert(self.artifacts@ =~= old(self).artifacts@.push(
                                self.artifacts@.last(),
                            ));
                            lemma_path_set_push(old(self).artifacts@, self.artifacts@.last());
                        }
                    }
                },
            }
            proof {
                lemma_step(old(self).origin@, old(self).changes(), op, old(self)@);
                assert(self.changes() =~= old(self).changes().push(op));
            }
        }
        InstalledArtifact { kind, hash: digest, path }
    }

    /// Stores `content` under its own digest, unless it is stored already.
    pub fn put(&mut self, kind: ArtifactKind, content: &Vec<u8>) -> (artifact: InstalledArtifact)
        requires
            old(self).wf(),
        ensures
            final(self).wf(),
            final(self).machine() == old(self).machine(),
            final(self).origin() == old(self).origin(),
            artifact.kind == kind,
            artifact.hash@ == sha256_of(content@),
            artifact.path@ == artifact_path(kind, old(self).machine(), sha256_of(content@)),
            present(old(self)@, old(self).machine(), kind, sha256_of(content@)) ==> final(self)@
                == old(self)@ && final(self).changes() == old(self).changes(),
            !present(old(self)@, old(self).machine(), kind, sha256_of(content@)) ==> final(self)@
                == old(self)@.apply(
                placement(old(self).machine(), kind, sha256_of(content@), content@),
            ) && final(self).changes() == old(self).changes().push(
                placement(old(self).machine(), kind, sha256_of(content@), content@),
            ),
    {
        let digest = sha256(content);
        self.place(kind, digest, content.clone())
    }

    /// Deletes the artifact at `path`, if one lies there and no entry needs it.
    pub fn remove(&mut self, path: &String) -> (removed: bool)
        requires
            old(self).wf(),
        ensures
            final(self).wf(),
            final(self).machine() == old(self).machine(),
            final(self).origin() == old(self).origin(),
            removed == (old(self)@.files.contains(path@) && !referenced(
                old(self)@.entries,
            ).contains(path@)),
            removed ==> final(self)@ == old(self)@.apply(OpView::Remove { path: path@ })
                && final(self).changes() == old(self).changes().push(
                OpView::Remove { path: path@ },
            ),
            !removed ==> final(self)@ == old(self)@ && final(self).changes() == old(
                self,
            ).changes(),
    {
        match position_of(&self.artifacts, path) {
            None => false,
            Some(at) => {
                if self.is_referenced(path) {
                    false
                } else {
                    let ghost op = OpView::Remove { path: path@ };
                    proof {
                        lemma_path_set_remove(self.artifacts@, at as int);
                        lemma_step(self.origin@, self.changes(), op, self@);
                    }
                    let gone = self.artifacts.remove(at);
                    proof {
                        assert(op_views(self.journal@).push(op) =~= op_views(
                            self.journal@.push(Op::Remove { path: gone }),
                        ));
                    }
                    self.journal.push(Op::Remove { path: gone });
                    true
                }
            },
        }
    }

    /// Creates the entry, or replaces the one of its version, if the artifacts
    /// that it needs are in place and none of its texts holds an end of line.
    /// An entry that is there as given is not written again.
    pub fn write_entry(&mut self, entry: LoaderEntry) -> (written: bool)
        requires
            old(self).wf(),
        ensures
            final(self).wf(),
            final(self).machine() == old(self).machine(),
            final(self).origin() == old(self).origin(),
            written == installable(old(self)@, entry@),
            final(self)@ == if written {
                old(self)@.apply(OpView::WriteEntry { entry: entry@ })
            } else {
                old(self)@
            },
            final(self).changes() == if written && !(old(self)@.entries.dom().contains(
                entry.version,
            ) && old(self)@.entries[entry.version] == entry@) {
                old(self).changes().push(OpView::WriteEntry { entry: entry@ })
            } else {
                old(self).changes()
            },
    {
        if !(self.contains(&entry.stub) && self.contains(&entry.kernel) && self.contains(
            &entry.initrd,
        ) && entry.is_writable()) {
            return false;
        }
        let ghost op = OpView::WriteEntry { entry: entry@ };
        let ghost given = entry;
        proof {
            lemma_listed_dom(self.entries@, entry.version);
        }
        match slot_of(&self.entries, entry.version) {
            Some(at) => {
                proof {
                    lemma_listed_at(self.entries@, at as int);
                    lemma_listed_update(self.entries@, at as int, entry);
                }
                if self.entries[at].same(&entry) {
                    assert(self@.entries.insert(entry.version, entry@) =~= self@.entries);
                } else {
                    self.journal.push(Op::WriteEntry { entry: entry.duplicate() });
                    self.entries.set(at, entry);
                    proof {
                        lemma_step(old(self).origin@, old(self).changes(), op, old(self)@);
                        assert(self.changes() =~= old(self).changes().push(op));
                    }
                }
            },
            None => {
                proof {
                    lemma_listed_push(self.entries@, entry);
                    assert forall|i: int, j: int|
                        0 <= i < j < self.entries@.push(entry).len() implies (
                    #[trigger] self.entries@.push(entry)[i]).version != (
                    #[trigger] self.entries@.push(entry)[j]).version by {
                        if j == self.entries@.len() {
                            assert(self.entries@[i].version != entry.version);
                        }
                    }
                }
                self.journal.push(Op::WriteEntry { entry: entry.duplicate() });
                self.entries.push(entry);
                proof {
                    lemma_step(old(self).origin@, old(self).changes(), op, old(self)@);
                    assert(self.changes() =~= old(self).changes().push(op));
                }
            },
        }
        true
    }

    /// Deletes the entry of a version, if there is one.
    pub fn remove_entry(&mut self, version: u64) -> (removed: bool)
        requires
            old(self).wf(),
        ensures
            final(self).wf(),
            final(self).machine() == old(self).machine(),
            final(self).origin() == old(self).origin(),
            removed == old(self)@.entries.dom().contains(version),
            removed ==> final(self)@ == old(self)@.apply(OpView::RemoveEntry { version })
                && final(self).changes() == old(self).changes().push(
                OpView::RemoveEntry { version },
            ),
            !removed ==> final(self)@ == old(self)@ && final(self).changes() == old(
                self,
            ).changes(),
    {
        proof {
            lemma_listed_dom(self.entries@, version);
        }
        match slot_of(&self.entries, version) {
            None => false,
            Some(at) => {
                let ghost op = OpView::RemoveEntry { version };
                proof {
                    lemma_listed_remove(self.entries@, at as int);
                    lemma_step(self.origin@, self.changes(), op, self@);
                    assert(op_views(self.journal@).push(op) =~= op_views(
                        self.journal@.push(Op::RemoveEntry { version }),
                    ));
                }
                self.entries.remove(at);
                self.journal.push(Op::RemoveEntry { version });
                true
            },
        }
    }

    /// Asks for the measurement policy of a generation to be produced anew
    /// from its stub.
    pub fn refresh_policy(&mut self, version: u64, stub: String)
        requires
            old(self).wf(),
        ensures
            final(self).wf(),
            final(self).machine() == old(self).machine(),
            final(self).origin() == old(self).origin(),
            final(self)@ == old(self)@,
            final(self).changes() == old(self).changes().push(
                OpView::RefreshPolicy { version, stub: stub@ },
            ),
    {
        let ghost op = OpView::RefreshPolicy { version, stub: stub@ };
        proof {
            lemma_step(self.origin@, self.changes(), op, self@);
            assert(op_views(self.journal@).push(op) =~= op_views(
                self.journal@.push(Op::RefreshPolicy { version, stub }),
            ));
        }
        self.journal.push(Op::RefreshPolicy { version, stub });
    }
}


impl Esp {
    /// Deletes the entries of the versions that are not kept.
    fn prune_entries(&mut self, keep: &Vec<u64>)
        requires
            old(self).wf(),
        ensures
            final(self).wf(),
            final(self).machine() == old(self).machine(),
            final(self).origin() == old(self).origin(),
            final(self)@.entries == old(self)@.entries.restrict(keep@.to_set()),
            final(self)@.files == old(self)@.files,
            final(self)@.bootloader == old(self)@.bootloader,
            old(self).changes().is_prefix_of(final(self).changes()),
            forall|i: int|
                old(self).changes().len() <= i < final(self).changes().len() ==> stale_entry(
                    #[trigger] final(self).changes()[i],
                    old(self)@,
                    keep@.to_set(),
                ),
            old(self)@.entries.dom().subset_of(keep@.to_set()) ==> final(self).changes() == old(
                self,
            ).changes(),
    {
        let ghost first = old(self)@.entries;
        let mut i: usize = 0;
        while i < self.entries.len()
            invariant
                i <= self.entries.len(),
                self.wf(),
                self.machine() == old(self).machine(),
                self.origin() == old(self).origin(),
                self@.files == old(self)@.files,
                self@.bootloader == old(self)@.bootloader,
                first == old(self)@.entries,
                forall|j: int| 0 <= j < i ==> keep@.contains((#[trigger] self.entries[j]).version),
                forall|v: u64| #[trigger]
                    self@.entries.dom().contains(v) ==> first.dom().contains(v)
                        && self@.entries[v] == first[v],
                forall|v: u64|
                    first.dom().contains(v) && keep@.contains(v)
                        ==> #[trigger] self@.entries.dom().contains(v),
                old(self).changes().is_prefix_of(self.changes()),
                forall|k: int|
                    old(self).changes().len() <= k < self.changes().len() ==> stale_entry(
                        #[trigger] self.changes()[k],
                        old(self)@,
                        keep@.to_set(),
                    ),
                first.dom().subset_of(keep@.to_set()) ==> self.changes() == old(self).changes(),
            decreases self.entries.len() - i,
        {
            let version = self.entries[i].version;
            if among(keep, version) {
                i += 1;
            } else {
                let ghost before = *self;
                let ghost op = OpView::RemoveEntry { version };
                proof {
                    lemma_listed_at(self.entries@, i as int);
                    lemma_listed_remove(self.entries@, i as int);
                    lemma_step(self.origin@, self.changes(), op, self@);
                }
                self.entries.remove(i);
                self.journal.push(Op::RemoveEntry { version });
                proof {
                    assert(self.changes() =~= before.changes().push(op));
                    assert(self@.entries == before@.entries.remove(version));
                    assert forall|j: int| 0 <= j < i implies keep@.contains(
                        (#[trigger] self.entries[j]).version,
                    ) by {
                        assert(self.entries[j] == before.entries[j]);
                    }
                }
            }
        }
        proof {
            assert forall|v: u64| self@.entries.dom().contains(v) implies keep@.contains(v) by {
                lemma_listed_dom(self.entries@, v);
                let j = choose|j: int|
                    0 <= j < self.entries@.len() && (#[trigger] self.entries@[j]).version == v;
                assert(keep@.contains(self.entries[j].version));
            }
            assert(self@.entries =~= first.restrict(keep@.to_set()));
        }
    }

    /// Deletes the artifacts that no entry needs.
    fn prune_artifacts(&mut self)
        requires
            old(self).wf(),
        ensures
            final(self).wf(),
            final(self).machine() == old(self).machine(),
            final(self).origin() == old(self).origin(),
            final(self)@.entries == old(self)@.entries,
            final(self)@.files == old(self)@.files.intersect(referenced(old(self)@.entries)),
            final(self)@.bootloader == old(self)@.bootloader,
            old(self).changes().is_prefix_of(final(self).changes()),
            forall|i: int|
                old(self).changes().len() <= i < final(self).changes().len() ==> stale_artifact(
                    #[trigger] final(self).changes()[i],
                    old(self)@.files,
                    old(self)@.entries,
                ),
            old(self)@.files.subset_of(referenced(old(self)@.entries)) ==> final(self).changes()
                == old(self).changes(),
    {
        let ghost first = old(self)@.files;
        let ghost needed = referenced(old(self)@.entries);
        let mut i: usize = 0;
        while i < self.artifacts.len()
            invariant
                i <= self.artifacts.len(),
                self.wf(),
                self.machine() == old(self).machine(),
                self.origin() == old(self).origin(),
                self@.entries == old(self)@.entries,
                self@.bootloader == old(self)@.bootloader,
                first == old(self)@.files,
                needed == referenced(old(self)@.entries),
                forall|j: int| 0 <= j < i ==> needed.contains((#[trigger] self.artifacts[j])@),
                self@.files.subset_of(first),
                forall|p: Seq<char>|
                    first.contains(p) && needed.contains(p) ==> #[trigger] self@.files.contains(p),
                old(self).changes().is_prefix_of(self.changes()),
                forall|k: int|
                    old(self).changes().len() <= k < self.changes().len() ==> stale_artifact(
                        #[trigger] self.changes()[k],
                        first,
                        old(self)@.entries,
                    ),
                first.subset_of(needed) ==> self.changes() == old(self).changes(),
            decreases self.artifacts.len() - i,
        {
            if self.is_referenced(&self.artifacts[i]) {
                i += 1;
            } else {
                let ghost before = *self;
                let ghost path = self.artifacts[i as int]@;
                let ghost op = OpView::Remove { path };
                proof {
                    assert(self@.files.contains(path));
                    lemma_path_set_remove(self.artifacts@, i as int);
                    lemma_step(self.origin@, self.changes(), op, self@);
                }
                let gone = self.artifacts.remove(i);
                self.journal.push(Op::Remove { path: gone });
                proof {
                    assert(self.changes() =~= before.changes().push(op));
                    assert(self@.files == before@.files.remove(path));
                    assert forall|j: int| 0 <= j < i implies needed.contains(
                        (#[trigger] self.artifacts[j])@,
                    ) by {
                        assert(self.artifacts[j] == before.artifacts[j]);
                    }
                }
            }
        }
        proof {
            assert forall|p: Seq<char>| self@.files.contains(p) implies needed.contains(p) by {
                let j = choose|j: int|
                    0 <= j < self.artifacts@.len() && (#[trigger] self.artifacts@[j])@ == p;
                assert(needed.contains(self.artifacts[j]@));
            }
            assert(self@.files =~= first.intersect(needed));
        }
    }

    /// Deletes the entries of the versions that are not kept, and after them
    /// the artifacts that no remaining entry needs. In which order the entries
    /// are deleted among themselves, and the artifacts among themselves, is
    /// left open.
    pub fn prune(&mut self, keep: &Vec<u64>)
        requires
            old(self).wf(),
        ensures
            final(self).wf(),
            final(self).machine() == old(self).machine(),
            final(self).origin() == old(self).origin(),
            final(self)@.entries == old(self)@.entries.restrict(keep@.to_set()),
            final(self)@.files == old(self)@.files.intersect(referenced(final(self)@.entries)),
            final(self)@.bootloader == old(self)@.bootloader,
            old(self).changes().is_prefix_of(final(self).changes()),
            forall|i: int|
                old(self).changes().len() <= i < final(self).changes().len() ==> (
                #[trigger] final(self).changes()[i]).removes(),
            forall|i: int|
                old(self).changes().len() <= i < final(self).changes().len() ==> stale_entry(
                    #[trigger] final(self).changes()[i],
                    old(self)@,
                    keep@.to_set(),
                ) || stale_artifact(
                    final(self).changes()[i],
                    old(self)@.files,
                    final(self)@.entries,
                ),
            exists|turn: int| #[trigger]
                entries_first(final(self).changes(), old(self).changes().len() as int, turn),
            old(self)@.entries.dom().subset_of(keep@.to_set()) && old(self)@.files.subset_of(
                referenced(old(self)@.entries),
            ) ==> final(self).changes() == old(self).changes(),
    {
        self.prune_entries(keep);
        let ghost middle = *self;
        self.prune_artifacts();
        proof {
            if old(self)@.entries.dom().subset_of(keep@.to_set()) {
                assert(middle@.entries =~= old(self)@.entries);
            }
            assert(entries_first(
                self.changes(),
                old(self).changes().len() as int,
                middle.changes().len() as int,
            )) by {
                assert forall|i: int|
                    old(self).changes().len() <= i < middle.changes().len() implies (
                #[trigger] self.changes()[i]) is RemoveEntry by {
                    assert(self.changes()[i] == middle.changes()[i]);
                }
            }
            assert forall|i: int|
                old(self).changes().len() <= i < self.changes().len() implies (
            #[trigger] self.changes()[i]).removes() && (stale_entry(
                self.changes()[i],
                old(self)@,
                keep@.to_set(),
            ) || stale_artifact(self.changes()[i], old(self)@.files, self@.entries)) by {
                if i < middle.changes().len() {
                    assert(self.changes()[i] == middle.changes()[i]);
                }
            }
        }
    }
}

} // verus!

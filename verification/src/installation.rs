//! What an installation does to the system partition, stated over what the
//! partition holds: the changes that it makes and the state that they lead to.

use crate::architecture::Architecture;
use crate::artifact::{artifact_path, ArtifactKind};
use crate::digest::sha256_of;
use crate::entry::entry_of;
use crate::error::Error;
use crate::generation::{Resolved, ResolvedView};
use crate::state::{lemma_replay_concat, referenced, EntryView, EspState, OpView};
use crate::stub::{stub_defect, stub_of, UnsignedStubView};
use vstd::prelude::*;

verus! {

/// Where the kernel of a generation lies on the system partition.
pub open spec fn kernel_path(architecture: Architecture, generation: ResolvedView) -> Seq<char> {
    artifact_path(ArtifactKind::Kernel, architecture, sha256_of(generation.kernel))
}

/// Where the initrd of a generation lies on the system partition.
pub open spec fn initrd_path(architecture: Architecture, generation: ResolvedView) -> Seq<char> {
    artifact_path(ArtifactKind::Initrd, architecture, sha256_of(generation.initrd))
}

/// The unsigned stub of a generation.
pub open spec fn stub_for(
    template: Seq<u8>,
    architecture: Architecture,
    generation: ResolvedView,
) -> UnsignedStubView {
    stub_of(
        template,
        generation,
        kernel_path(architecture, generation),
        initrd_path(architecture, generation),
    )
}

/// Where the signed stub of a generation lies on the system partition: under
/// the digest of the unsigned stub, so that a stub in place is found without
/// signing anew.
pub open spec fn stub_path(
    template: Seq<u8>,
    architecture: Architecture,
    generation: ResolvedView,
) -> Seq<char> {
    artifact_path(
        ArtifactKind::Stub,
        architecture,
        sha256_of(stub_for(template, architecture, generation).bytes),
    )
}

/// The loader entry of a generation.
pub open spec fn entry_for(
    template: Seq<u8>,
    architecture: Architecture,
    generation: ResolvedView,
) -> EntryView {
    entry_of(
        generation,
        stub_path(template, architecture, generation),
        kernel_path(architecture, generation),
        initrd_path(architecture, generation),
    )
}

/// Why the stub of a generation cannot be built, if it cannot: the defect of
/// the generation or of the template. The paths of its kernel and its initrd
/// are short and keep no stub from being built.
pub open spec fn fault(
    template: Option<Seq<u8>>,
    architecture: Architecture,
    generation: ResolvedView,
) -> Option<Error> {
    stub_defect(template, architecture, generation)
}

/// The partition once a generation is installed: its kernel, its initrd and
/// its stub are in place, and its entry stands under its version.
pub open spec fn with_generation(
    state: EspState,
    template: Seq<u8>,
    architecture: Architecture,
    generation: ResolvedView,
) -> EspState {
    EspState {
        files: state.files.insert(kernel_path(architecture, generation)).insert(
            initrd_path(architecture, generation),
        ).insert(stub_path(template, architecture, generation)),
        entries: state.entries.insert(
            generation.generation.version,
            entry_for(template, architecture, generation),
        ),
        bootloader: state.bootloader,
    }
}

/// A change, unless what it brings about holds already.
pub open spec fn unless(holds: bool, op: OpView) -> Seq<OpView> {
    if holds {
        Seq::empty()
    } else {
        seq![op]
    }
}

/// The changes that install a generation, `signed` being its signed stub:
/// the kernel, the initrd and the stub are written where they are not in
/// place, then the entry where it is not there as it should be, then the
/// measurement policy is asked for where policies are kept.
pub open spec fn generation_ops(
    state: EspState,
    template: Seq<u8>,
    architecture: Architecture,
    policy: bool,
    generation: ResolvedView,
    signed: Seq<u8>,
) -> Seq<OpView> {
    let kernel = kernel_path(architecture, generation);
    let initrd = initrd_path(architecture, generation);
    let stub = stub_path(template, architecture, generation);
    let entry = entry_for(template, architecture, generation);
    unless(state.files.contains(kernel), OpView::Write { path: kernel, content: generation.kernel })
        + unless(
        state.files.insert(kernel).contains(initrd),
        OpView::Write { path: initrd, content: generation.initrd },
    ) + unless(
        state.files.insert(kernel).insert(initrd).contains(stub),
        OpView::Write { path: stub, content: signed },
    ) + unless(
        state.entries.dom().contains(entry.version) && state.entries[entry.version] == entry,
        OpView::WriteEntry { entry },
    ) + unless(!policy, OpView::RefreshPolicy { version: entry.version, stub })
}

/// What signing has come to, as a mathematical value: the signed executable,
/// or why there is none.
pub open spec fn signing_view(signed: Result<Vec<u8>, Error>) -> Result<Seq<u8>, Error> {
    match signed {
        Ok(bytes) => Ok(bytes@),
        Err(e) => Err(e),
    }
}

/// What signing each of several executables has come to.
pub open spec fn signing_views(signed: Seq<Result<Vec<u8>, Error>>) -> Seq<Result<Seq<u8>, Error>> {
    Seq::new(signed.len(), |i: int| signing_view(signed[i]))
}

/// The signed executable, where there is one, and nothing where there is
/// none.
pub open spec fn content_of(signed: Result<Seq<u8>, Error>) -> Seq<u8> {
    match signed {
        Ok(bytes) => bytes,
        Err(_) => Seq::empty(),
    }
}

/// Why installing a generation stops, if it does: its stub cannot be built;
/// or its stub is not in place and signing it has failed. A stub that is in
/// place is not signed, so that what signing would come to does not count.
pub open spec fn stop(
    state: EspState,
    template: Option<Seq<u8>>,
    architecture: Architecture,
    generation: ResolvedView,
    signed: Result<Seq<u8>, Error>,
) -> Option<Error> {
    match fault(template, architecture, generation) {
        Some(e) => Some(e),
        None => if signed is Err && !state.files.contains(
            stub_path(template->0, architecture, generation),
        ) {
            Some(signed->Err_0)
        } else {
            None
        },
    }
}

/// Whether installing a generation on the partition `state` with the journal
/// `log`, signing its stub having come to `signed`, gives `r` and leaves the
/// partition `after` with the journal `changes`: where it stops, the error is
/// handed back and nothing has changed; else the generation is installed.
pub open spec fn builds(
    state: EspState,
    log: Seq<OpView>,
    template: Option<Seq<u8>>,
    architecture: Architecture,
    policy: bool,
    generation: ResolvedView,
    signed: Result<Seq<u8>, Error>,
    r: Result<(), Error>,
    after: EspState,
    changes: Seq<OpView>,
) -> bool {
    match stop(state, template, architecture, generation, signed) {
        Some(e) => r == Err::<(), Error>(e) && after == state && changes == log,
        None => {
            &&& r is Ok
            &&& after == with_generation(state, template->0, architecture, generation)
            &&& changes == log + generation_ops(
                state,
                template->0,
                architecture,
                policy,
                generation,
                content_of(signed),
            )
        },
    }
}

/// The partition once the generations are installed, one after the other.
pub open spec fn written(
    state: EspState,
    template: Seq<u8>,
    architecture: Architecture,
    items: Seq<Resolved>,
) -> EspState
    decreases items.len(),
{
    if items.len() == 0 {
        state
    } else {
        with_generation(
            written(state, template, architecture, items.drop_last()),
            template,
            architecture,
            items.last()@,
        )
    }
}

/// The changes that install the generations one after the other, `signed`
/// holding the signed stub of each.
pub open spec fn installation_ops(
    state: EspState,
    template: Seq<u8>,
    architecture: Architecture,
    policy: bool,
    items: Seq<Resolved>,
    signed: Seq<Seq<u8>>,
) -> Seq<OpView>
    decreases items.len(),
{
    if items.len() == 0 {
        Seq::empty()
    } else {
        installation_ops(
            state,
            template,
            architecture,
            policy,
            items.drop_last(),
            signed.drop_last(),
        ) + generation_ops(
            written(state, template, architecture, items.drop_last()),
            template,
            architecture,
            policy,
            items.last()@,
            signed.last(),
        )
    }
}

/// The versions of the generations.
pub open spec fn versions(items: Seq<Resolved>) -> Set<u64> {
    Set::new(|v: u64| exists|i: int| 0 <= i < items.len() && (#[trigger] items[i]).version() == v)
}

/// The partition once it is pruned: the entries of the kept versions stay,
/// and the artifacts that one of them needs.
pub open spec fn pruned(state: EspState, keep: Set<u64>) -> EspState {
    EspState {
        files: state.files.intersect(referenced(state.entries.restrict(keep))),
        entries: state.entries.restrict(keep),
        bootloader: state.bootloader,
    }
}

/// The partition after an installation of the generations: they are
/// installed, and all else is pruned.
pub open spec fn installed(
    state: EspState,
    template: Seq<u8>,
    architecture: Architecture,
    items: Seq<Resolved>,
) -> EspState {
    pruned(written(state, template, architecture, items), versions(items))
}

/// Whether a generation is installed: its artifacts are in place and its
/// entry stands as it should.
pub open spec fn holds_generation(
    state: EspState,
    template: Seq<u8>,
    architecture: Architecture,
    generation: ResolvedView,
) -> bool {
    &&& state.files.contains(kernel_path(architecture, generation))
    &&& state.files.contains(initrd_path(architecture, generation))
    &&& state.files.contains(stub_path(template, architecture, generation))
    &&& state.entries.dom().contains(generation.generation.version)
    &&& state.entries[generation.generation.version] == entry_for(
        template,
        architecture,
        generation,
    )
}

/// Whether the partition holds the generations and nothing else: each of
/// them is installed, every entry is that of one of them, and every artifact
/// is needed by an entry.
pub open spec fn settled(
    state: EspState,
    template: Seq<u8>,
    architecture: Architecture,
    items: Seq<Resolved>,
) -> bool {
    &&& forall|i: int|
        0 <= i < items.len() ==> holds_generation(
            state,
            template,
            architecture,
            (#[trigger] items[i])@,
        )
    &&& state.entries.dom().subset_of(versions(items))
    &&& state.files.subset_of(referenced(state.entries))
}

/// Whether none of the changes from `from` on takes something away.
pub open spec fn adds_only(ops: Seq<OpView>, from: int) -> bool {
    forall|i: int| from <= i < ops.len() ==> !(#[trigger] ops[i]).removes()
}

/// Whether each of the changes from `from` on takes something away.
pub open spec fn removes_only(ops: Seq<OpView>, from: int) -> bool {
    forall|i: int| from <= i < ops.len() ==> (#[trigger] ops[i]).removes()
}

/// Whether a journal starts with the changes `first` and goes on with
/// changes that take something away, and with no others.
pub open spec fn then_removals(changes: Seq<OpView>, first: Seq<OpView>) -> bool {
    first.is_prefix_of(changes) && removes_only(changes, first.len() as int)
}

/// Whether each of the changes from `from` on asks for a measurement policy.
pub open spec fn policies_only(ops: Seq<OpView>, from: int) -> bool {
    forall|i: int| from <= i < ops.len() ==> (#[trigger] ops[i]) is RefreshPolicy
}

/// Whether none of the changes from `from` on writes an artifact that is
/// among `files`.
pub open spec fn writes_new(ops: Seq<OpView>, from: int, files: Set<Seq<char>>) -> bool {
    forall|i: int|
        from <= i < ops.len() ==> ((#[trigger] ops[i]) matches OpView::Write { path, .. }
            ==> !files.contains(path))
}

/// What the changes that install a generation are like: none takes anything
/// away, none writes an artifact that is in place, and where the generation
/// is installed already they change nothing.
pub proof fn lemma_generation_ops(
    state: EspState,
    template: Seq<u8>,
    architecture: Architecture,
    policy: bool,
    generation: ResolvedView,
    signed: Seq<u8>,
)
    ensures
        adds_only(generation_ops(state, template, architecture, policy, generation, signed), 0),
        writes_new(
            generation_ops(state, template, architecture, policy, generation, signed),
            0,
            state.files,
        ),
        state.files.subset_of(with_generation(state, template, architecture, generation).files),
        holds_generation(state, template, architecture, generation) ==> policies_only(
            generation_ops(state, template, architecture, policy, generation, signed),
            0,
        ) && with_generation(state, template, architecture, generation) == state,
{
    let kernel = kernel_path(architecture, generation);
    let initrd = initrd_path(architecture, generation);
    let stub = stub_path(template, architecture, generation);
    let entry = entry_for(template, architecture, generation);
    let a = unless(
        state.files.contains(kernel),
        OpView::Write { path: kernel, content: generation.kernel },
    );
    let b = unless(
        state.files.insert(kernel).contains(initrd),
        OpView::Write { path: initrd, content: generation.initrd },
    );
    let c = unless(
        state.files.insert(kernel).insert(initrd).contains(stub),
        OpView::Write { path: stub, content: signed },
    );
    let d = unless(
        state.entries.dom().contains(entry.version) && state.entries[entry.version] == entry,
        OpView::WriteEntry { entry },
    );
    let e = unless(!policy, OpView::RefreshPolicy { version: entry.version, stub });
    let ops = generation_ops(state, template, architecture, policy, generation, signed);
    reveal(entry_of);
    assert(ops == a + b + c + d + e);
    assert forall|i: int| 0 <= i < ops.len() implies !(#[trigger] ops[i]).removes() && (
    ops[i] matches OpView::Write { path, .. } ==> !state.files.contains(path)) && (
    holds_generation(state, template, architecture, generation) ==> ops[i] is RefreshPolicy) by {
        if i < a.len() {
            assert(ops[i] == a[i]);
        } else if i < a.len() + b.len() {
            assert(ops[i] == b[i - a.len()]);
        } else if i < a.len() + b.len() + c.len() {
            assert(ops[i] == c[i - a.len() - b.len()]);
        } else if i < a.len() + b.len() + c.len() + d.len() {
            assert(ops[i] == d[i - a.len() - b.len() - c.len()]);
        } else {
            assert(ops[i] == e[i - a.len() - b.len() - c.len() - d.len()]);
        }
    }
    if holds_generation(state, template, architecture, generation) {
        reveal(entry_of);
        let after = with_generation(state, template, architecture, generation);
        assert(after.files =~= state.files);
        assert(after.entries =~= state.entries);
    }
}

/// What holds of the changes of a journal from `from` on and of all the
/// changes added to it, holds of the longer journal from `from` on.
pub proof fn lemma_concat_ranges(
    before: Seq<OpView>,
    added: Seq<OpView>,
    from: int,
    files: Set<Seq<char>>,
    wider: Set<Seq<char>>,
)
    requires
        0 <= from <= before.len(),
        files.subset_of(wider),
    ensures
        adds_only(before, from) && adds_only(added, 0) ==> adds_only(before + added, from),
        policies_only(before, from) && policies_only(added, 0) ==> policies_only(
            before + added,
            from,
        ),
        writes_new(before, from, files) && writes_new(added, 0, wider) ==> writes_new(
            before + added,
            from,
            files,
        ),
        before.is_prefix_of(before + added),
{
    let all = before + added;
    assert forall|i: int| from <= i < all.len() implies (#[trigger] all[i]) == if i
        < before.len() {
        before[i]
    } else {
        added[i - before.len()]
    } by {}
    if adds_only(before, from) && adds_only(added, 0) {
        assert forall|i: int| from <= i < all.len() implies !(#[trigger] all[i]).removes() by {
            if i >= before.len() {
                assert(!added[i - before.len()].removes());
            }
        }
    }
    if policies_only(before, from) && policies_only(added, 0) {
        assert forall|i: int| from <= i < all.len() implies (#[trigger] all[i]) is RefreshPolicy by {
            if i >= before.len() {
                assert(added[i - before.len()] is RefreshPolicy);
            }
        }
    }
    if writes_new(before, from, files) && writes_new(added, 0, wider) {
        assert forall|i: int| from <= i < all.len() implies ((
        #[trigger] all[i]) matches OpView::Write { path, .. } ==> !files.contains(path)) by {
            if i >= before.len() {
                let op = added[i - before.len()];
                assert(op matches OpView::Write { path, .. } ==> !wider.contains(path));
            }
        }
    }
}

/// The change that puts the boot loader in place, `signed` being the signed
/// binary.
pub open spec fn bootloader_op(architecture: Architecture, binary: Seq<u8>, signed: Seq<u8>) -> OpView {
    OpView::WriteBootloader {
        path: artifact_path(ArtifactKind::Bootloader, architecture, sha256_of(binary)),
        digest: sha256_of(binary),
        content: signed,
    }
}

/// The partition once the boot loader is installed, where one is to be
/// installed.
pub open spec fn with_bootloader(state: EspState, binary: Option<Seq<u8>>) -> EspState {
    match binary {
        Some(b) => EspState { bootloader: Some(sha256_of(b)), ..state },
        None => state,
    }
}

/// Whether the boot loader in place is the one to be installed, where one is
/// to be installed.
pub open spec fn bootloader_settled(state: EspState, binary: Option<Seq<u8>>) -> bool {
    binary matches Some(b) ==> state.bootloader == Some(sha256_of(b))
}

/// The changes that install the boot loader, `signed` being the signed
/// binary: it is written unless it is in place, or none is to be installed.
pub open spec fn bootloader_ops(
    state: EspState,
    architecture: Architecture,
    binary: Option<Seq<u8>>,
    signed: Seq<u8>,
) -> Seq<OpView> {
    match binary {
        Some(b) => unless(state.bootloader == Some(sha256_of(b)), bootloader_op(architecture, b, signed)),
        None => Seq::empty(),
    }
}

/// What the changes that install the boot loader are like: none takes
/// anything away or writes an artifact, and where the boot loader is settled
/// there is none.
pub proof fn lemma_bootloader_ops(
    state: EspState,
    architecture: Architecture,
    binary: Option<Seq<u8>>,
    signed: Seq<u8>,
)
    ensures
        adds_only(bootloader_ops(state, architecture, binary, signed), 0),
        writes_new(bootloader_ops(state, architecture, binary, signed), 0, state.files),
        with_bootloader(state, binary).files == state.files,
        with_bootloader(state, binary).entries == state.entries,
        bootloader_settled(state, binary) ==> bootloader_ops(state, architecture, binary, signed)
            == Seq::<OpView>::empty() && with_bootloader(state, binary) == state,
        state.replay(bootloader_ops(state, architecture, binary, signed)) == with_bootloader(
            state,
            binary,
        ),
{
    let ops = bootloader_ops(state, architecture, binary, signed);
    if ops.len() > 0 {
        assert(ops.drop_last() =~= Seq::<OpView>::empty());
        assert(state.replay(ops.drop_last()) == state);
    }
}

/// Installing generations takes no artifact away.
pub proof fn lemma_written_keeps(
    state: EspState,
    template: Seq<u8>,
    architecture: Architecture,
    items: Seq<Resolved>,
)
    ensures
        state.files.subset_of(written(state, template, architecture, items).files),
        written(state, template, architecture, items).bootloader == state.bootloader,
    decreases items.len(),
{
    if items.len() > 0 {
        lemma_written_keeps(state, template, architecture, items.drop_last());
    }
}

/// A change that is made unless what it brings about holds leads to the state
/// after the change, or leaves the state where it holds.
pub proof fn lemma_replay_unless(state: EspState, holds: bool, op: OpView)
    ensures
        state.replay(unless(holds, op)) == if holds {
            state
        } else {
            state.apply(op)
        },
{
    if !holds {
        assert(unless(holds, op).drop_last() =~= Seq::<OpView>::empty());
        assert(state.replay(unless(holds, op).drop_last()) == state);
    }
}

/// The changes that install a generation lead to the partition with the
/// generation installed.
pub proof fn lemma_generation_replay(
    state: EspState,
    template: Seq<u8>,
    architecture: Architecture,
    policy: bool,
    generation: ResolvedView,
    signed: Seq<u8>,
)
    ensures
        state.replay(generation_ops(state, template, architecture, policy, generation, signed))
            == with_generation(state, template, architecture, generation),
{
    let kernel = kernel_path(architecture, generation);
    let initrd = initrd_path(architecture, generation);
    let stub = stub_path(template, architecture, generation);
    let entry = entry_for(template, architecture, generation);
    let a = unless(
        state.files.contains(kernel),
        OpView::Write { path: kernel, content: generation.kernel },
    );
    let b = unless(
        state.files.insert(kernel).contains(initrd),
        OpView::Write { path: initrd, content: generation.initrd },
    );
    let c = unless(
        state.files.insert(kernel).insert(initrd).contains(stub),
        OpView::Write { path: stub, content: signed },
    );
    let d = unless(
        state.entries.dom().contains(entry.version) && state.entries[entry.version] == entry,
        OpView::WriteEntry { entry },
    );
    let e = unless(!policy, OpView::RefreshPolicy { version: entry.version, stub });
    let s1 = EspState { files: state.files.insert(kernel), ..state };
    let s2 = EspState { files: s1.files.insert(initrd), ..state };
    let s3 = EspState { files: s2.files.insert(stub), ..state };
    let s4 = with_generation(state, template, architecture, generation);
    assert(state.replay(a) == s1) by {
        lemma_replay_unless(
            state,
            state.files.contains(kernel),
            OpView::Write { path: kernel, content: generation.kernel },
        );
        assert(state.files.contains(kernel) ==> state.files.insert(kernel) =~= state.files);
    }
    assert(s1.replay(b) == s2) by {
        lemma_replay_unless(
            s1,
            s1.files.contains(initrd),
            OpView::Write { path: initrd, content: generation.initrd },
        );
        assert(s1.files.contains(initrd) ==> s1.files.insert(initrd) =~= s1.files);
    }
    assert(s2.replay(c) == s3) by {
        lemma_replay_unless(
            s2,
            s2.files.contains(stub),
            OpView::Write { path: stub, content: signed },
        );
        assert(s2.files.contains(stub) ==> s2.files.insert(stub) =~= s2.files);
    }
    assert(s3.replay(d) == s4) by {
        reveal(entry_of);
        lemma_replay_unless(
            s3,
            state.entries.dom().contains(entry.version) && state.entries[entry.version] == entry,
            OpView::WriteEntry { entry },
        );
        if state.entries.dom().contains(entry.version) && state.entries[entry.version] == entry {
            assert(state.entries.insert(entry.version, entry) =~= state.entries);
        }
    }
    assert(s4.replay(e) == s4) by {
        lemma_replay_unless(s4, !policy, OpView::RefreshPolicy { version: entry.version, stub });
    }
    lemma_replay_concat(state, a, b);
    lemma_replay_concat(state, a + b, c);
    lemma_replay_concat(state, a + b + c, d);
    lemma_replay_concat(state, a + b + c + d, e);
}

/// The changes that install generations lead to the partition with the
/// generations installed, and none of them takes anything away or writes an
/// artifact that was in place.
pub proof fn lemma_installation_ops(
    state: EspState,
    template: Seq<u8>,
    architecture: Architecture,
    policy: bool,
    items: Seq<Resolved>,
    signed: Seq<Seq<u8>>,
)
    ensures
        state.replay(installation_ops(state, template, architecture, policy, items, signed))
            == written(state, template, architecture, items),
        adds_only(installation_ops(state, template, architecture, policy, items, signed), 0),
        writes_new(
            installation_ops(state, template, architecture, policy, items, signed),
            0,
            state.files,
        ),
    decreases items.len(),
{
    if items.len() > 0 {
        let front = items.drop_last();
        let before = installation_ops(
            state,
            template,
            architecture,
            policy,
            front,
            signed.drop_last(),
        );
        let middle = written(state, template, architecture, front);
        let last = generation_ops(
            middle,
            template,
            architecture,
            policy,
            items.last()@,
            signed.last(),
        );
        lemma_installation_ops(state, template, architecture, policy, front, signed.drop_last());
        lemma_generation_replay(
            middle,
            template,
            architecture,
            policy,
            items.last()@,
            signed.last(),
        );
        lemma_generation_ops(middle, template, architecture, policy, items.last()@, signed.last());
        lemma_replay_concat(state, before, last);
        lemma_written_keeps(state, template, architecture, front);
        let all = before + last;
        assert forall|i: int| 0 <= i < all.len() implies !(#[trigger] all[i]).removes() && (
        all[i] matches OpView::Write { path, .. } ==> !state.files.contains(path)) by {
            if i < before.len() {
                assert(all[i] == before[i]);
            } else {
                let op = last[i - before.len()];
                assert(all[i] == op);
                assert(!op.removes());
                assert(op matches OpView::Write { path, .. } ==> !middle.files.contains(path));
            }
        }
    }
}

/// On a settled partition, installing some of the generations changes
/// nothing.
pub proof fn lemma_written_settled(
    state: EspState,
    template: Seq<u8>,
    architecture: Architecture,
    items: Seq<Resolved>,
    n: int,
)
    requires
        settled(state, template, architecture, items),
        0 <= n <= items.len(),
    ensures
        written(state, template, architecture, items.take(n)) == state,
    decreases n,
{
    if n > 0 {
        lemma_written_settled(state, template, architecture, items, n - 1);
        assert(items.take(n).drop_last() =~= items.take(n - 1));
        assert(items.take(n).last() == items[n - 1]);
        lemma_generation_ops(state, template, architecture, false, items[n - 1]@, Seq::empty());
    }
}

/// On a settled partition the changes that install the generations only ask
/// for measurement policies.
pub proof fn lemma_installation_settled(
    state: EspState,
    template: Seq<u8>,
    architecture: Architecture,
    policy: bool,
    items: Seq<Resolved>,
    signed: Seq<Seq<u8>>,
    n: int,
)
    requires
        settled(state, template, architecture, items),
        0 <= n <= items.len(),
    ensures
        policies_only(
            installation_ops(state, template, architecture, policy, items.take(n), signed),
            0,
        ),
    decreases n,
{
    if n > 0 {
        let part = items.take(n);
        let front = part.drop_last();
        assert(front =~= items.take(n - 1));
        assert(part.last() == items[n - 1]);
        lemma_installation_settled(
            state,
            template,
            architecture,
            policy,
            items,
            signed.drop_last(),
            n - 1,
        );
        lemma_written_settled(state, template, architecture, items, n - 1);
        let before = installation_ops(
            state,
            template,
            architecture,
            policy,
            front,
            signed.drop_last(),
        );
        let last = generation_ops(
            state,
            template,
            architecture,
            policy,
            items[n - 1]@,
            signed.last(),
        );
        lemma_generation_ops(state, template, architecture, policy, items[n - 1]@, signed.last());
        let all = before + last;
        assert forall|i: int| 0 <= i < all.len() implies (#[trigger] all[i]) is RefreshPolicy by {
            if i < before.len() {
                assert(all[i] == before[i]);
            } else {
                assert(all[i] == last[i - before.len()]);
            }
        }
    }
}

/// What holds of a journal that has grown from `log` by the changes that
/// install the first `n` of the generations on the partition `first`: no
/// change was taken back, and of the new ones none takes anything away or
/// writes an artifact that was in place; nothing that was in place is gone;
/// and on a settled partition the new changes only ask for policies and
/// leave it as it was.
pub proof fn lemma_progress(
    first: EspState,
    log: Seq<OpView>,
    template: Seq<u8>,
    architecture: Architecture,
    policy: bool,
    items: Seq<Resolved>,
    signed: Seq<Seq<u8>>,
    n: int,
)
    requires
        0 <= n <= items.len(),
    ensures
        ({
            let added = installation_ops(
                first,
                template,
                architecture,
                policy,
                items.take(n),
                signed,
            );
            let state = written(first, template, architecture, items.take(n));
            &&& log.is_prefix_of(log + added)
            &&& adds_only(log + added, log.len() as int)
            &&& writes_new(log + added, log.len() as int, first.files)
            &&& first.files.subset_of(state.files)
            &&& state.bootloader == first.bootloader
            &&& settled(first, template, architecture, items) ==> policies_only(
                log + added,
                log.len() as int,
            ) && state == first
        }),
{
    let added = installation_ops(first, template, architecture, policy, items.take(n), signed);
    lemma_installation_ops(first, template, architecture, policy, items.take(n), signed);
    lemma_written_keeps(first, template, architecture, items.take(n));
    lemma_concat_ranges(log, added, log.len() as int, first.files, first.files);
    if settled(first, template, architecture, items) {
        lemma_installation_settled(first, template, architecture, policy, items, signed, n);
        lemma_written_settled(first, template, architecture, items, n);
    }
}

} // verus!

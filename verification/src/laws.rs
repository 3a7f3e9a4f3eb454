//! What holds of every installation: it settles the partition, shares equal
//! content, keeps within the limit, and writes entries that can be read again.

use crate::architecture::Architecture;
use crate::artifact::ArtifactKind;
use crate::digest::sha256_of;
use crate::entry::entry_of;
use crate::stub::stub_defect;
use crate::entry_file::{
    lemma_entry_writable, lemma_path_one_line, lemma_render_parse, parsed, rendered, writable,
};
use crate::generation::{
    by_age, distinct_versions, lemma_by_age, placed, retained, Resolved, ResolvedView,
};
use crate::installation::{
    bootloader_settled, entry_for, fault, generation_ops, holds_generation, initrd_path,
    installed, kernel_path, lemma_generation_ops, lemma_installation_settled,
    lemma_written_settled, policies_only, pruned, settled, stub_for, stub_path, versions,
    with_generation, writes_new, written,
};
use crate::error::{Error, Failure};
use crate::outcome::{
    halt, install_ops, install_result, install_state, installs, lemma_halt, lemma_installs, stubs,
};
use crate::state::{referenced, EspState, OpView};
use vstd::prelude::*;

verus! {

/// Installing generations takes no artifact away and leaves the boot loader
/// alone, and afterwards the artifacts of each generation are in place.
pub proof fn lemma_written_files(
    state: EspState,
    template: Seq<u8>,
    architecture: Architecture,
    items: Seq<Resolved>,
)
    ensures
        state.files.subset_of(written(state, template, architecture, items).files),
        written(state, template, architecture, items).bootloader == state.bootloader,
        forall|i: int|
            0 <= i < items.len() ==> {
                let after = written(state, template, architecture, items);
                &&& after.files.contains(kernel_path(architecture, (#[trigger] items[i])@))
                &&& after.files.contains(initrd_path(architecture, items[i]@))
                &&& after.files.contains(stub_path(template, architecture, items[i]@))
            },
    decreases items.len(),
{
    if items.len() > 0 {
        let front = items.drop_last();
        let after = written(state, template, architecture, items);
        lemma_written_files(state, template, architecture, front);
        assert forall|i: int| 0 <= i < items.len() implies {
            &&& after.files.contains(kernel_path(architecture, (#[trigger] items[i])@))
            &&& after.files.contains(initrd_path(architecture, items[i]@))
            &&& after.files.contains(stub_path(template, architecture, items[i]@))
        } by {
            if i < front.len() {
                assert(front[i] == items[i]);
            }
        }
    }
}

/// The versions of a sequence are those of its front and that of its last.
proof fn lemma_versions_last(items: Seq<Resolved>)
    requires
        items.len() > 0,
    ensures
        versions(items) == versions(items.drop_last()).insert(items.last().version()),
{
    let front = items.drop_last();
    assert forall|v: u64| versions(items).contains(v) <==> versions(front).insert(
        items.last().version(),
    ).contains(v) by {
        if versions(items).contains(v) {
            let i = choose|i: int| 0 <= i < items.len() && (#[trigger] items[i]).version() == v;
            if i < front.len() {
                assert(front[i].version() == v);
            }
        }
        if versions(front).contains(v) {
            let i = choose|i: int| 0 <= i < front.len() && (#[trigger] front[i]).version() == v;
            assert(items[i].version() == v);
        }
        if v == items.last().version() {
            assert(items[items.len() - 1].version() == v);
        }
    }
    assert(versions(items) =~= versions(front).insert(items.last().version()));
}

/// After generations are installed, the entries are those that were there
/// and those of the generations' versions, and no entry of another version
/// has changed.
pub proof fn lemma_written_versions(
    state: EspState,
    template: Seq<u8>,
    architecture: Architecture,
    items: Seq<Resolved>,
)
    ensures
        written(state, template, architecture, items).entries.dom() == state.entries.dom().union(
            versions(items),
        ),
        forall|v: u64|
            state.entries.dom().contains(v) && !versions(items).contains(v) ==> written(
                state,
                template,
                architecture,
                items,
            ).entries[v] == state.entries[v],
    decreases items.len(),
{
    let after = written(state, template, architecture, items);
    if items.len() == 0 {
        assert(versions(items) =~= Set::<u64>::empty());
        assert(after.entries.dom() =~= state.entries.dom().union(versions(items)));
    } else {
        let front = items.drop_last();
        lemma_written_versions(state, template, architecture, front);
        lemma_versions_last(items);
        assert(after.entries.dom() =~= state.entries.dom().union(versions(items)));
    }
}

/// After generations of distinct versions are installed, each has its own
/// entry.
pub proof fn lemma_written_entries(
    state: EspState,
    template: Seq<u8>,
    architecture: Architecture,
    items: Seq<Resolved>,
)
    requires
        distinct_versions(items),
    ensures
        forall|i: int|
            0 <= i < items.len() ==> {
                let after = written(state, template, architecture, items);
                &&& after.entries.dom().contains((#[trigger] items[i]).version())
                &&& after.entries[items[i].version()] == entry_for(
                    template,
                    architecture,
                    items[i]@,
                )
            },
    decreases items.len(),
{
    if items.len() > 0 {
        let front = items.drop_last();
        let after = written(state, template, architecture, items);
        assert(distinct_versions(front)) by {
            assert forall|i: int, j: int| 0 <= i < j < front.len() implies front[i].version()
                != front[j].version() by {
                assert(front[i] == items[i] && front[j] == items[j]);
            }
        }
        lemma_written_entries(state, template, architecture, front);
        assert forall|i: int| 0 <= i < items.len() implies {
            &&& after.entries.dom().contains((#[trigger] items[i]).version())
            &&& after.entries[items[i].version()] == entry_for(template, architecture, items[i]@)
        } by {
            if i < front.len() {
                assert(front[i] == items[i]);
                assert(items[i].version() != items[items.len() - 1].version());
            }
        }
    }
}

/// An installation leaves the partition settled: where no two of the
/// generations have one version, each of them is installed afterwards, every
/// entry is that of one of them, and every artifact is needed by an entry.
pub proof fn lemma_install_settles(
    state: EspState,
    template: Seq<u8>,
    architecture: Architecture,
    items: Seq<Resolved>,
)
    requires
        distinct_versions(items),
    ensures
        settled(installed(state, template, architecture, items), template, architecture, items),
{
    lemma_written_files(state, template, architecture, items);
    lemma_written_versions(state, template, architecture, items);
    lemma_written_entries(state, template, architecture, items);
    let middle = written(state, template, architecture, items);
    let after = installed(state, template, architecture, items);
    assert forall|i: int| 0 <= i < items.len() implies holds_generation(
        after,
        template,
        architecture,
        (#[trigger] items[i])@,
    ) by {
        reveal(entry_of);
        let v = items[i].version();
        let entry = entry_for(template, architecture, items[i]@);
        assert(versions(items).contains(v));
        assert(after.entries.dom().contains(v));
        assert(after.entries[v] == entry);
        assert(entry.needs(kernel_path(architecture, items[i]@)));
        assert(entry.needs(initrd_path(architecture, items[i]@)));
        assert(entry.needs(stub_path(template, architecture, items[i]@)));
    }
}

/// Pruning changes nothing where every entry is kept and every artifact is
/// needed.
pub proof fn lemma_pruned_stays(state: EspState, keep: Set<u64>)
    requires
        state.entries.dom().subset_of(keep),
        state.files.subset_of(referenced(state.entries)),
    ensures
        pruned(state, keep) == state,
{
    assert(state.entries.restrict(keep) =~= state.entries);
    assert(state.files.intersect(referenced(state.entries)) =~= state.files);
}

/// On a settled partition an installation changes nothing.
pub proof fn lemma_settled_stays(
    state: EspState,
    template: Seq<u8>,
    architecture: Architecture,
    items: Seq<Resolved>,
)
    requires
        settled(state, template, architecture, items),
    ensures
        written(state, template, architecture, items) == state,
        installed(state, template, architecture, items) == state,
{
    lemma_written_settled(state, template, architecture, items, items.len() as int);
    assert(items.take(items.len() as int) =~= items);
    lemma_pruned_stays(state, versions(items));
}

/// Installing the same generations of distinct versions twice gives what
/// installing them once gives: the second installation finds the partition
/// settled, changes nothing and writes no artifact.
pub proof fn lemma_install_idempotent(
    state: EspState,
    template: Seq<u8>,
    architecture: Architecture,
    items: Seq<Resolved>,
)
    requires
        distinct_versions(items),
    ensures
        installed(installed(state, template, architecture, items), template, architecture, items)
            == installed(state, template, architecture, items),
        forall|i: int, policy: bool, signed: Seq<u8>|
            0 <= i < items.len() ==> writes_new(
                #[trigger] generation_ops(
                    installed(state, template, architecture, items),
                    template,
                    architecture,
                    policy,
                    items[i]@,
                    signed,
                ),
                0,
                Set::empty(),
            ),
{
    let after = installed(state, template, architecture, items);
    lemma_install_settles(state, template, architecture, items);
    lemma_settled_stays(after, template, architecture, items);
    assert forall|i: int, policy: bool, signed: Seq<u8>| 0 <= i < items.len() implies writes_new(
        #[trigger] generation_ops(after, template, architecture, policy, items[i]@, signed),
        0,
        Set::empty(),
    ) by {
        lemma_generation_ops(after, template, architecture, policy, items[i]@, signed);
    }
}

/// The entries that installing generations writes do not depend on what the
/// partition held.
pub proof fn lemma_written_same_entries(
    a: EspState,
    b: EspState,
    template: Seq<u8>,
    architecture: Architecture,
    items: Seq<Resolved>,
)
    ensures
        forall|v: u64| #[trigger]
            versions(items).contains(v) ==> written(a, template, architecture, items).entries[v]
                == written(b, template, architecture, items).entries[v],
    decreases items.len(),
{
    if items.len() > 0 {
        let front = items.drop_last();
        lemma_written_same_entries(a, b, template, architecture, front);
        lemma_versions_last(items);
        assert forall|v: u64| #[trigger] versions(items).contains(v) implies written(
            a,
            template,
            architecture,
            items,
        ).entries[v] == written(b, template, architecture, items).entries[v] by {
            if v != items.last().version() {
            }
        }
    }
}

/// The artifacts that installing generations adds do not depend on what the
/// partition held: they are the artifacts that it adds to the other
/// partition, but for what that one held.
pub proof fn lemma_written_same_files(
    a: EspState,
    b: EspState,
    template: Seq<u8>,
    architecture: Architecture,
    items: Seq<Resolved>,
)
    ensures
        written(a, template, architecture, items).files.union(b.files) == written(
            b,
            template,
            architecture,
            items,
        ).files.union(a.files),
    decreases items.len(),
{
    if items.len() > 0 {
        lemma_written_same_files(a, b, template, architecture, items.drop_last());
        let wa = written(a, template, architecture, items.drop_last()).files;
        let wb = written(b, template, architecture, items.drop_last()).files;
        assert forall|p: Seq<char>| wa.union(b.files).contains(p) == wb.union(a.files).contains(
            p,
        ) by {}
        assert forall|p: Seq<char>|
            written(a, template, architecture, items).files.union(b.files).contains(p)
                == written(b, template, architecture, items).files.union(a.files).contains(
                p,
            ) by {
            assert(wa.union(b.files).contains(p) == wb.union(a.files).contains(p));
        }
    }
}

/// Each entry that stands after generations are installed under its version
/// is the entry of one of them, and the artifacts of that one are in place.
pub proof fn lemma_written_last(
    state: EspState,
    template: Seq<u8>,
    architecture: Architecture,
    items: Seq<Resolved>,
    v: u64,
)
    requires
        versions(items).contains(v),
    ensures
        exists|i: int|
            0 <= i < items.len() && (#[trigger] items[i]).version() == v && holds_generation(
                written(state, template, architecture, items),
                template,
                architecture,
                items[i]@,
            ),
    decreases items.len(),
{
    let after = written(state, template, architecture, items);
    let front = items.drop_last();
    lemma_written_files(state, template, architecture, items);
    lemma_versions_last(items);
    if v == items.last().version() {
        reveal(entry_of);
    } else {
        lemma_written_last(state, template, architecture, front, v);
        let i = choose|i: int|
            0 <= i < front.len() && (#[trigger] front[i]).version() == v && holds_generation(
                written(state, template, architecture, front),
                template,
                architecture,
                front[i]@,
            );
    }
}

/// What an installation leaves, whatever the generations are: the entries
/// are those of the generations' versions, each entry is that of one of the
/// generations, whose artifacts are in place, and the artifacts are those
/// that the entries need.
pub proof fn lemma_installed_state(
    state: EspState,
    template: Seq<u8>,
    architecture: Architecture,
    items: Seq<Resolved>,
)
    ensures
        installed(state, template, architecture, items).entries.dom() == versions(items),
        forall|v: u64| #[trigger]
            versions(items).contains(v) ==> exists|i: int|
                0 <= i < items.len() && (#[trigger] items[i]).version() == v && holds_generation(
                    installed(state, template, architecture, items),
                    template,
                    architecture,
                    items[i]@,
                ),
        installed(state, template, architecture, items).files == referenced(
            installed(state, template, architecture, items).entries,
        ),
        installed(state, template, architecture, items).consistent(),
{
    let middle = written(state, template, architecture, items);
    let after = installed(state, template, architecture, items);
    lemma_written_versions(state, template, architecture, items);
    assert(after.entries.dom() =~= versions(items));
    assert forall|v: u64| #[trigger] versions(items).contains(v) implies exists|i: int|
        0 <= i < items.len() && (#[trigger] items[i]).version() == v && holds_generation(
            after,
            template,
            architecture,
            items[i]@,
        ) by {
        reveal(entry_of);
        lemma_written_last(state, template, architecture, items, v);
        let i = choose|i: int|
            0 <= i < items.len() && (#[trigger] items[i]).version() == v && holds_generation(
                middle,
                template,
                architecture,
                items[i]@,
            );
    }
    assert forall|path: Seq<char>| referenced(after.entries).contains(path) implies after.files.contains(
        path,
    ) by {
        reveal(entry_of);
        let v = choose|v: u64| #[trigger]
            after.entries.dom().contains(v) && after.entries[v].needs(path);
        let i = choose|i: int|
            0 <= i < items.len() && (#[trigger] items[i]).version() == v && holds_generation(
                after,
                template,
                architecture,
                items[i]@,
            );
    }
    assert forall|v: u64| #[trigger] after.entries.dom().contains(v) implies after.files.contains(
        after.entries[v].stub,
    ) && after.files.contains(after.entries[v].kernel) && after.files.contains(
        after.entries[v].initrd,
    ) by {
    }
}

/// Installing the same generations twice leaves what installing them once
/// leaves, whatever the generations are.
pub proof fn lemma_install_twice_state(
    state: EspState,
    template: Seq<u8>,
    architecture: Architecture,
    items: Seq<Resolved>,
)
    ensures
        installed(installed(state, template, architecture, items), template, architecture, items)
            == installed(state, template, architecture, items),
{
    let first = written(state, template, architecture, items);
    let once = installed(state, template, architecture, items);
    let second = written(once, template, architecture, items);
    let twice = installed(once, template, architecture, items);
    lemma_installed_state(state, template, architecture, items);
    lemma_written_versions(state, template, architecture, items);
    lemma_written_versions(once, template, architecture, items);
    lemma_written_same_entries(state, once, template, architecture, items);
    lemma_written_same_files(state, once, template, architecture, items);
    lemma_written_files(state, template, architecture, items);
    lemma_written_files(once, template, architecture, items);
    assert(twice.entries =~= once.entries);
    assert(twice.files =~= once.files);
}

/// An installation that has succeeded, run again on what it has left, with
/// the same generations of distinct versions, succeeds whatever signing would
/// come to, leaves the partition as it found it, and writes no artifact.
pub proof fn lemma_install_again(
    state: EspState,
    log: Seq<OpView>,
    template: Option<Seq<u8>>,
    architecture: Architecture,
    policy: bool,
    binary: Option<Seq<u8>>,
    items: Seq<Resolved>,
    signed: Seq<Result<Seq<u8>, Error>>,
    loader: Result<Seq<u8>, Error>,
    after: EspState,
    changes: Seq<OpView>,
    signed_again: Seq<Result<Seq<u8>, Error>>,
    loader_again: Result<Seq<u8>, Error>,
    r: Result<(), Failure>,
    after_again: EspState,
    changes_again: Seq<OpView>,
)
    requires
        distinct_versions(items),
        installs(
            state,
            log,
            template,
            architecture,
            policy,
            binary,
            items,
            signed,
            loader,
            Ok(()),
            after,
            changes,
        ),
        installs(
            after,
            changes,
            template,
            architecture,
            policy,
            binary,
            items,
            signed_again,
            loader_again,
            r,
            after_again,
            changes_again,
        ),
    ensures
        r == Ok::<(), Failure>(()),
        after_again == after,
        writes_new(changes_again, changes.len() as int, Set::empty()),
{
    let once = installed(state, template->0, architecture, items);
    lemma_installs(
        state,
        log,
        template,
        architecture,
        policy,
        binary,
        items,
        signed,
        loader,
        Ok(()),
        after,
        changes,
    );
    lemma_install_settles(state, template->0, architecture, items);
    lemma_installs(
        after,
        changes,
        template,
        architecture,
        policy,
        binary,
        items,
        signed_again,
        loader_again,
        r,
        after_again,
        changes_again,
    );
    lemma_settled_stays(after, template->0, architecture, items);
    let k = halt(after, template, architecture, items, signed_again, 0);
    lemma_halt(after, template, architecture, items, signed_again, 0);
    lemma_installation_settled(
        after,
        template->0,
        architecture,
        policy,
        items,
        stubs(signed_again, k),
        k,
    );
    let ops = install_ops(
        after,
        template,
        architecture,
        policy,
        binary,
        items,
        signed_again,
        loader_again,
    );
    assert forall|i: int| changes.len() <= i < changes_again.len() implies !((
    #[trigger] changes_again[i]) is Write) by {
        if i < (changes + ops).len() {
            assert(changes_again[i] == (changes + ops)[i]);
        }
    }
}

/// An installation that fails has pruned nothing: every artifact and every
/// entry that the partition held is still there, and the artifacts of the
/// generations before the one at which it stopped are in place.
pub proof fn lemma_failure_keeps(
    state: EspState,
    template: Option<Seq<u8>>,
    architecture: Architecture,
    binary: Option<Seq<u8>>,
    items: Seq<Resolved>,
    signed: Seq<Result<Seq<u8>, Error>>,
    loader: Result<Seq<u8>, Error>,
)
    requires
        install_result(state, template, architecture, binary, items, signed, loader) is Err,
    ensures
        ({
            let after = install_state(
                state,
                template,
                architecture,
                binary,
                items,
                signed,
                loader,
            );
            let k = halt(state, template, architecture, items, signed, 0);
            &&& 0 <= k <= items.len()
            &&& state.files.subset_of(after.files)
            &&& state.entries.dom().subset_of(after.entries.dom())
            &&& after.bootloader == state.bootloader
            &&& forall|j: int|
                0 <= j < k ==> {
                    &&& after.files.contains(kernel_path(architecture, (#[trigger] items[j])@))
                    &&& after.files.contains(initrd_path(architecture, items[j]@))
                    &&& after.files.contains(stub_path(template->0, architecture, items[j]@))
                    &&& after.entries.dom().contains(items[j].version())
                }
        }),
{
    let k = halt(state, template, architecture, items, signed, 0);
    let part = items.take(k);
    lemma_halt(state, template, architecture, items, signed, 0);
    lemma_written_files(state, template->0, architecture, part);
    lemma_written_versions(state, template->0, architecture, part);
    let after = written(state, template->0, architecture, part);
    assert forall|j: int| 0 <= j < k implies {
        &&& after.files.contains(kernel_path(architecture, (#[trigger] items[j])@))
        &&& after.files.contains(initrd_path(architecture, items[j]@))
        &&& after.files.contains(stub_path(template->0, architecture, items[j]@))
        &&& after.entries.dom().contains(items[j].version())
    } by {
        assert(part[j] == items[j]);
    }
}

/// Generations of one kernel share its copy, whatever the generations are:
/// the kernel lies at one path for both, which is made of its digest alone;
/// and where both have their entries after an installation, the entries name
/// that one path, and the kernel lies there. The same holds of the initrd.
/// Generations of distinct versions all have their entries.
pub proof fn lemma_one_copy(
    state: EspState,
    template: Seq<u8>,
    architecture: Architecture,
    items: Seq<Resolved>,
    i: int,
    j: int,
)
    requires
        0 <= i < items.len(),
        0 <= j < items.len(),
    ensures
        ({
            let after = installed(state, template, architecture, items);
            let a = items[i];
            let b = items[j];
            let both = after.entries[a.version()] == entry_for(template, architecture, a@)
                && after.entries[b.version()] == entry_for(template, architecture, b@);
            &&& a@.kernel == b@.kernel ==> kernel_path(architecture, a@) == kernel_path(
                architecture,
                b@,
            )
            &&& a@.initrd == b@.initrd ==> initrd_path(architecture, a@) == initrd_path(
                architecture,
                b@,
            )
            &&& both && a@.kernel == b@.kernel ==> {
                &&& after.entries[a.version()].kernel == after.entries[b.version()].kernel
                &&& after.entries[a.version()].kernel == kernel_path(architecture, a@)
                &&& after.files.contains(kernel_path(architecture, a@))
            }
            &&& both && a@.initrd == b@.initrd ==> {
                &&& after.entries[a.version()].initrd == after.entries[b.version()].initrd
                &&& after.entries[a.version()].initrd == initrd_path(architecture, a@)
                &&& after.files.contains(initrd_path(architecture, a@))
            }
            &&& distinct_versions(items) ==> both
        }),
{
    let after = installed(state, template, architecture, items);
    let a = items[i];
    let b = items[j];
    lemma_installed_state(state, template, architecture, items);
    assert(versions(items).contains(a.version()));
    assert(versions(items).contains(b.version()));
    reveal(entry_of);
    if distinct_versions(items) {
        lemma_install_settles(state, template, architecture, items);
        assert(holds_generation(after, template, architecture, items[i]@));
    }
}

/// Generations of one kernel share its copy: the kernel lies at one path for
/// both, and installing the second writes no kernel. The same holds of the
/// initrd.
pub proof fn lemma_shared_content(
    state: EspState,
    template: Seq<u8>,
    architecture: Architecture,
    policy: bool,
    a: ResolvedView,
    b: ResolvedView,
    signed: Seq<u8>,
)
    ensures
        a.kernel == b.kernel ==> kernel_path(architecture, a) == kernel_path(architecture, b)
            && forall|i: int|
            0 <= i < generation_ops(
                with_generation(state, template, architecture, a),
                template,
                architecture,
                policy,
                b,
                signed,
            ).len() ==> ((#[trigger] generation_ops(
                with_generation(state, template, architecture, a),
                template,
                architecture,
                policy,
                b,
                signed,
            )[i]) matches OpView::Write { path, .. } ==> path != kernel_path(architecture, b)),
        a.initrd == b.initrd ==> initrd_path(architecture, a) == initrd_path(architecture, b)
            && forall|i: int|
            0 <= i < generation_ops(
                with_generation(state, template, architecture, a),
                template,
                architecture,
                policy,
                b,
                signed,
            ).len() ==> ((#[trigger] generation_ops(
                with_generation(state, template, architecture, a),
                template,
                architecture,
                policy,
                b,
                signed,
            )[i]) matches OpView::Write { path, .. } ==> path != initrd_path(architecture, b)),
{
    lemma_generation_ops(
        with_generation(state, template, architecture, a),
        template,
        architecture,
        policy,
        b,
        signed,
    );
}


/// Placing a generation of a new version adds its version and keeps the
/// versions distinct.
proof fn lemma_placed_versions(sorted: Seq<Resolved>, item: Resolved)
    ensures
        versions(placed(sorted, item)) == versions(sorted).insert(item.version()),
        distinct_versions(sorted) && !versions(sorted).contains(item.version())
            ==> distinct_versions(placed(sorted, item)),
    decreases sorted.len(),
{
    let result = placed(sorted, item);
    if sorted.len() == 0 || sorted.last().version() >= item.version() {
        assert(result.drop_last() =~= sorted);
        lemma_versions_last(result);
        if distinct_versions(sorted) && !versions(sorted).contains(item.version()) {
            assert forall|i: int, j: int| 0 <= i < j < result.len() implies result[i].version()
                != result[j].version() by {
                if j == sorted.len() {
                    assert(sorted[i].version() != item.version());
                }
            }
        }
    } else {
        let front = sorted.drop_last();
        let inner = placed(front, item);
        lemma_placed_versions(front, item);
        lemma_versions_last(sorted);
        assert(result.drop_last() =~= inner);
        lemma_versions_last(result);
        assert(versions(result) =~= versions(sorted).insert(item.version()));
        if distinct_versions(sorted) && !versions(sorted).contains(item.version()) {
            assert(distinct_versions(front)) by {
                assert forall|i: int, j: int| 0 <= i < j < front.len() implies front[i].version()
                    != front[j].version() by {
                    assert(front[i] == sorted[i] && front[j] == sorted[j]);
                }
            }
            assert(!versions(front).contains(sorted.last().version())) by {
                if versions(front).contains(sorted.last().version()) {
                    let i = choose|i: int|
                        0 <= i < front.len() && (#[trigger] front[i]).version()
                            == sorted.last().version();
                    assert(sorted[i].version() == sorted[sorted.len() - 1].version());
                }
            }
            assert(versions(sorted).contains(sorted[sorted.len() - 1].version()));
            assert forall|i: int, j: int| 0 <= i < j < result.len() implies result[i].version()
                != result[j].version() by {
                if j == inner.len() {
                    assert(result[i] == inner[i]);
                    assert(versions(inner).contains(inner[i].version()));
                } else {
                    assert(result[i] == inner[i] && result[j] == inner[j]);
                }
            }
        }
    }
}

/// Ordering by age keeps the versions, and keeps them distinct.
pub proof fn lemma_by_age_versions(s: Seq<Resolved>)
    ensures
        versions(by_age(s)) == versions(s),
        distinct_versions(s) ==> distinct_versions(by_age(s)),
    decreases s.len(),
{
    if s.len() == 0 {
    } else {
        let front = s.drop_last();
        lemma_by_age_versions(front);
        lemma_placed_versions(by_age(front), s.last());
        lemma_versions_last(s);
        if distinct_versions(s) {
            assert(distinct_versions(front)) by {
                assert forall|i: int, j: int| 0 <= i < j < front.len() implies front[i].version()
                    != front[j].version() by {
                    assert(front[i] == s[i] && front[j] == s[j]);
                }
            }
            assert(!versions(front).contains(s.last().version())) by {
                if versions(front).contains(s.last().version()) {
                    let i = choose|i: int|
                        0 <= i < front.len() && (#[trigger] front[i]).version()
                            == s.last().version();
                    assert(s[i].version() == s[s.len() - 1].version());
                }
            }
        }
    }
}

/// The generations that stay installed are among those given, and where no
/// two of those have one version, no two of these have.
pub proof fn lemma_retained_versions(generations: Seq<Resolved>, limit: nat)
    ensures
        versions(retained(generations, limit)).subset_of(versions(generations)),
        distinct_versions(generations) ==> distinct_versions(retained(generations, limit)),
{
    let sorted = by_age(generations);
    let items = retained(generations, limit);
    lemma_by_age(generations);
    lemma_by_age_versions(generations);
    assert forall|v: u64| versions(items).contains(v) implies versions(generations).contains(
        v,
    ) by {
        let i = choose|i: int| 0 <= i < items.len() && (#[trigger] items[i]).version() == v;
        assert(sorted[i].version() == v);
        assert(versions(sorted).contains(v));
    }
    if distinct_versions(generations) {
        assert forall|i: int, j: int| 0 <= i < j < items.len() implies items[i].version()
            != items[j].version() by {
            assert(items[i] == sorted[i] && items[j] == sorted[j]);
        }
    }
}

/// Generations of distinct versions have as many versions as they are.
pub proof fn lemma_versions_count(items: Seq<Resolved>)
    requires
        distinct_versions(items),
    ensures
        versions(items).finite(),
        versions(items).len() == items.len(),
    decreases items.len(),
{
    if items.len() == 0 {
        assert(versions(items) =~= Set::<u64>::empty());
    } else {
        let front = items.drop_last();
        assert(distinct_versions(front)) by {
            assert forall|i: int, j: int| 0 <= i < j < front.len() implies front[i].version()
                != front[j].version() by {
                assert(front[i] == items[i] && front[j] == items[j]);
            }
        }
        lemma_versions_count(front);
        lemma_versions_last(items);
        assert(!versions(front).contains(items.last().version())) by {
            if versions(front).contains(items.last().version()) {
                let i = choose|i: int|
                    0 <= i < front.len() && (#[trigger] front[i]).version()
                        == items.last().version();
                assert(items[i].version() == items[items.len() - 1].version());
            }
        }
    }
}

/// Under a limit below the number of generations, an installation leaves
/// exactly as many entries as the limit allows: those of the newest
/// generations. Every generation without an entry is older than each one with
/// an entry, and no artifact stays but those that the entries need.
pub proof fn lemma_retention_bound(
    state: EspState,
    template: Seq<u8>,
    architecture: Architecture,
    generations: Seq<Resolved>,
    limit: nat,
)
    requires
        distinct_versions(generations),
        limit < generations.len(),
    ensures
        ({
            let items = retained(generations, limit);
            let after = installed(state, template, architecture, items);
            &&& items.len() == limit
            &&& distinct_versions(items)
            &&& versions(items).subset_of(versions(generations))
            &&& after.entries.dom() == versions(items)
            &&& after.entries.dom().finite()
            &&& after.entries.dom().len() == limit
            &&& forall|i: int|
                0 <= i < items.len() ==> after.entries[(#[trigger] items[i]).version()]
                    == entry_for(template, architecture, items[i]@)
            &&& forall|i: int, j: int|
                0 <= i < items.len() && 0 <= j < generations.len() && !versions(items).contains(
                    (#[trigger] generations[j]).version(),
                ) ==> generations[j].version() < (#[trigger] items[i]).version()
            &&& after.files == referenced(after.entries)
        }),
{
    broadcast use vstd::seq_lib::group_to_multiset_ensures;

    let sorted = by_age(generations);
    let items = retained(generations, limit);
    let middle = written(state, template, architecture, items);
    let after = installed(state, template, architecture, items);
    lemma_by_age(generations);
    lemma_by_age_versions(generations);
    lemma_retained_versions(generations, limit);
    lemma_versions_count(items);
    lemma_written_files(state, template, architecture, items);
    lemma_written_versions(state, template, architecture, items);
    lemma_written_entries(state, template, architecture, items);
    assert(after.entries.dom() =~= versions(items));
    assert forall|i: int, j: int|
        0 <= i < items.len() && 0 <= j < generations.len() && !versions(items).contains(
            (#[trigger] generations[j]).version(),
        ) implies generations[j].version() < (#[trigger] items[i]).version() by {
        let g = generations[j];
        assert(generations.to_multiset().count(g) > 0);
        assert(sorted.to_multiset().count(g) > 0);
        let p = choose|p: int| 0 <= p < sorted.len() && sorted[p] == g;
        if p < limit {
            assert(items[p].version() == g.version());
        }
        assert(sorted[i] == items[i]);
        assert(sorted[i].version() >= sorted[p].version());
    }
    assert forall|path: Seq<char>| referenced(after.entries).contains(path) implies middle.files.contains(
        path,
    ) by {
        reveal(entry_of);
        let v = choose|v: u64| #[trigger] after.entries.dom().contains(v) && after.entries[v].needs(path);
        let i = choose|i: int| 0 <= i < items.len() && (#[trigger] items[i]).version() == v;
        assert(after.entries[v] == entry_for(template, architecture, items[i]@));
    }
    assert(after.files =~= referenced(after.entries));
}


/// The entry of a generation whose stub can be built is read from its file
/// as it was written.
pub proof fn lemma_entry_round_trip(
    template: Seq<u8>,
    architecture: Architecture,
    generation: ResolvedView,
)
    requires
        fault(Some(template), architecture, generation) is None,
    ensures
        writable(entry_for(template, architecture, generation)),
        parsed(rendered(entry_for(template, architecture, generation))) == Some(
            entry_for(template, architecture, generation),
        ),
{
    lemma_path_one_line(ArtifactKind::Kernel, architecture, sha256_of(generation.kernel));
    lemma_path_one_line(ArtifactKind::Initrd, architecture, sha256_of(generation.initrd));
    lemma_path_one_line(
        ArtifactKind::Stub,
        architecture,
        sha256_of(stub_for(template, architecture, generation).bytes),
    );
    reveal(stub_defect);
    lemma_entry_writable(
        generation,
        stub_path(template, architecture, generation),
        kernel_path(architecture, generation),
        initrd_path(architecture, generation),
    );
    lemma_render_parse(entry_for(template, architecture, generation));
}


/// Generations have at most as many versions as they are.
pub proof fn lemma_versions_bound(items: Seq<Resolved>)
    ensures
        versions(items).finite(),
        versions(items).len() <= items.len(),
    decreases items.len(),
{
    if items.len() == 0 {
        assert(versions(items) =~= Set::<u64>::empty());
    } else {
        lemma_versions_bound(items.drop_last());
        lemma_versions_last(items);
    }
}

/// Under any limit an installation leaves at most as many entries as the
/// limit allows, and at most as many as there are generations.
pub proof fn lemma_retention_size(
    state: EspState,
    template: Seq<u8>,
    architecture: Architecture,
    generations: Seq<Resolved>,
    limit: nat,
)
    ensures
        retained(generations, limit).len() <= limit,
        retained(generations, limit).len() <= generations.len(),
        installed(
            state,
            template,
            architecture,
            retained(generations, limit),
        ).entries.dom().finite(),
        installed(
            state,
            template,
            architecture,
            retained(generations, limit),
        ).entries.dom().len() <= limit,
{
    let items = retained(generations, limit);
    lemma_by_age(generations);
    lemma_versions_bound(items);
    lemma_written_versions(state, template, architecture, items);
    let after = installed(state, template, architecture, items);
    assert(after.entries.dom() =~= versions(items));
}

/// Building a generation twice gives what building it once gives: after the
/// first time the generation is installed, and the second time changes
/// nothing and at most asks for the measurement policy again.
pub proof fn lemma_build_idempotent(
    state: EspState,
    template: Seq<u8>,
    architecture: Architecture,
    policy: bool,
    generation: ResolvedView,
    signed: Seq<u8>,
)
    ensures
        holds_generation(
            with_generation(state, template, architecture, generation),
            template,
            architecture,
            generation,
        ),
        with_generation(
            with_generation(state, template, architecture, generation),
            template,
            architecture,
            generation,
        ) == with_generation(state, template, architecture, generation),
        policies_only(
            generation_ops(
                with_generation(state, template, architecture, generation),
                template,
                architecture,
                policy,
                generation,
                signed,
            ),
            0,
        ),
{
    lemma_generation_ops(
        with_generation(state, template, architecture, generation),
        template,
        architecture,
        policy,
        generation,
        signed,
    );
}

} // verus!

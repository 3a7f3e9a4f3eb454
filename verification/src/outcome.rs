//! What an installation comes to, given what signing has come to: where it
//! stops, what it hands back, and what it leaves on the system partition.

use crate::architecture::Architecture;
use crate::error::{Error, Failure};
use crate::generation::Resolved;
use crate::installation::{
    adds_only, bootloader_ops, bootloader_settled, content_of, fault, installation_ops, installed,
    lemma_bootloader_ops, lemma_concat_ranges, lemma_progress, lemma_written_keeps, stop,
    stub_path, then_removals, with_bootloader, writes_new, written,
};
use crate::state::{EspState, OpView};
use vstd::prelude::*;

verus! {

/// What signing the stub of the generation at `k` has come to. A stub for
/// which nothing is given counts as one that could not be signed.
pub open spec fn signing_at(signed: Seq<Result<Seq<u8>, Error>>, k: int) -> Result<Seq<u8>, Error> {
    if 0 <= k < signed.len() {
        signed[k]
    } else {
        Err(Error::SigningFailed)
    }
}

/// The signed stubs of the first `n` generations, as far as there are any.
pub open spec fn stubs(signed: Seq<Result<Seq<u8>, Error>>, n: int) -> Seq<Seq<u8>> {
    Seq::new(n as nat, |k: int| content_of(signing_at(signed, k)))
}

/// Why the installation stops at the generation at `k`, if it does, the
/// generations before it being installed.
pub open spec fn stop_at(
    state: EspState,
    template: Option<Seq<u8>>,
    architecture: Architecture,
    items: Seq<Resolved>,
    signed: Seq<Result<Seq<u8>, Error>>,
    k: int,
) -> Option<Error> {
    stop(
        written(state, template->0, architecture, items.take(k)),
        template,
        architecture,
        items[k]@,
        signing_at(signed, k),
    )
}

/// The place of the first generation from `from` on at which the installation
/// stops, or the number of the generations if it stops at none.
pub open spec fn halt(
    state: EspState,
    template: Option<Seq<u8>>,
    architecture: Architecture,
    items: Seq<Resolved>,
    signed: Seq<Result<Seq<u8>, Error>>,
    from: int,
) -> int
    decreases items.len() - from,
{
    if from >= items.len() {
        items.len() as int
    } else if stop_at(state, template, architecture, items, signed, from) is Some {
        from
    } else {
        halt(state, template, architecture, items, signed, from + 1)
    }
}

/// Why installing the boot loader stops, if it does: another one than the one
/// in place is to be installed, and signing it has failed.
pub open spec fn bootloader_stop(
    state: EspState,
    binary: Option<Seq<u8>>,
    signed: Result<Seq<u8>, Error>,
) -> Option<Error> {
    if signed is Err && !bootloader_settled(state, binary) {
        Some(signed->Err_0)
    } else {
        None
    }
}

/// Whether installing the boot loader on the partition `state` with the
/// journal `log`, signing it having come to `signed`, gives `r` and leaves the
/// partition `after` with the journal `changes`.
pub open spec fn loads(
    state: EspState,
    log: Seq<OpView>,
    architecture: Architecture,
    binary: Option<Seq<u8>>,
    signed: Result<Seq<u8>, Error>,
    r: Result<(), Error>,
    after: EspState,
    changes: Seq<OpView>,
) -> bool {
    match bootloader_stop(state, binary, signed) {
        Some(e) => r == Err::<(), Error>(e) && after == state && changes == log,
        None => {
            &&& r is Ok
            &&& after == with_bootloader(state, binary)
            &&& changes == log + bootloader_ops(state, architecture, binary, content_of(signed))
        },
    }
}

/// What an installation of the generations hands back, `signed` holding what
/// signing the stub of each has come to and `loader` what signing the boot
/// loader has come to: the failure of the first generation at which it stops,
/// with that generation's version; else the failure of the boot loader, with
/// no version; else success.
pub open spec fn install_result(
    state: EspState,
    template: Option<Seq<u8>>,
    architecture: Architecture,
    binary: Option<Seq<u8>>,
    items: Seq<Resolved>,
    signed: Seq<Result<Seq<u8>, Error>>,
    loader: Result<Seq<u8>, Error>,
) -> Result<(), Failure> {
    let k = halt(state, template, architecture, items, signed, 0);
    if k < items.len() {
        Err(
            Failure {
                error: stop_at(state, template, architecture, items, signed, k)->0,
                generation: Some(items[k].version()),
            },
        )
    } else {
        match bootloader_stop(state, binary, loader) {
            Some(e) => Err(Failure { error: e, generation: None }),
            None => Ok(()),
        }
    }
}

/// What an installation leaves on the partition: after a success the
/// generations and the boot loader are installed and all else is pruned;
/// after a failure the generations before the one at which it stopped are
/// installed, and nothing is pruned.
pub open spec fn install_state(
    state: EspState,
    template: Option<Seq<u8>>,
    architecture: Architecture,
    binary: Option<Seq<u8>>,
    items: Seq<Resolved>,
    signed: Seq<Result<Seq<u8>, Error>>,
    loader: Result<Seq<u8>, Error>,
) -> EspState {
    let k = halt(state, template, architecture, items, signed, 0);
    if install_result(state, template, architecture, binary, items, signed, loader) is Ok {
        with_bootloader(installed(state, template->0, architecture, items), binary)
    } else {
        written(state, template->0, architecture, items.take(k))
    }
}

/// The changes that an installation makes before it prunes: those that
/// install the generations before the one at which it stops, and after all
/// of them those that install the boot loader.
pub open spec fn install_ops(
    state: EspState,
    template: Option<Seq<u8>>,
    architecture: Architecture,
    policy: bool,
    binary: Option<Seq<u8>>,
    items: Seq<Resolved>,
    signed: Seq<Result<Seq<u8>, Error>>,
    loader: Result<Seq<u8>, Error>,
) -> Seq<OpView> {
    let k = halt(state, template, architecture, items, signed, 0);
    let first = installation_ops(
        state,
        template->0,
        architecture,
        policy,
        items.take(k),
        stubs(signed, k),
    );
    if install_result(state, template, architecture, binary, items, signed, loader) is Ok {
        first + bootloader_ops(
            written(state, template->0, architecture, items),
            architecture,
            binary,
            content_of(loader),
        )
    } else {
        first
    }
}

/// Whether an installation of the generations on the partition `state` with
/// the journal `log` gives `r` and leaves the partition `after` with the
/// journal `changes`: the result and the partition are those of
/// `install_result` and `install_state`; after a failure the journal has
/// grown by the changes of `install_ops`, and after a success by these and
/// then by changes that take something away.
pub open spec fn installs(
    state: EspState,
    log: Seq<OpView>,
    template: Option<Seq<u8>>,
    architecture: Architecture,
    policy: bool,
    binary: Option<Seq<u8>>,
    items: Seq<Resolved>,
    signed: Seq<Result<Seq<u8>, Error>>,
    loader: Result<Seq<u8>, Error>,
    r: Result<(), Failure>,
    after: EspState,
    changes: Seq<OpView>,
) -> bool {
    let ops = install_ops(state, template, architecture, policy, binary, items, signed, loader);
    &&& r == install_result(state, template, architecture, binary, items, signed, loader)
    &&& after == install_state(state, template, architecture, binary, items, signed, loader)
    &&& if r is Ok {
        then_removals(changes, log + ops)
    } else {
        changes == log + ops
    }
}

/// Where the installation stops: at no generation before `halt`, and at the
/// one at `halt` if there is one.
pub proof fn lemma_halt(
    state: EspState,
    template: Option<Seq<u8>>,
    architecture: Architecture,
    items: Seq<Resolved>,
    signed: Seq<Result<Seq<u8>, Error>>,
    from: int,
)
    requires
        0 <= from <= items.len(),
    ensures
        from <= halt(state, template, architecture, items, signed, from) <= items.len(),
        forall|j: int|
            from <= j < halt(state, template, architecture, items, signed, from) ==> stop_at(
                state,
                template,
                architecture,
                items,
                signed,
                j,
            ) is None,
        halt(state, template, architecture, items, signed, from) < items.len() ==> stop_at(
            state,
            template,
            architecture,
            items,
            signed,
            halt(state, template, architecture, items, signed, from),
        ) is Some,
    decreases items.len() - from,
{
    if from < items.len() && stop_at(state, template, architecture, items, signed, from) is None {
        lemma_halt(state, template, architecture, items, signed, from + 1);
    }
}

/// The installation stops at `k` if it stops at no generation from `from` up
/// to `k`, and at the one at `k` if there is one.
pub proof fn lemma_halt_at(
    state: EspState,
    template: Option<Seq<u8>>,
    architecture: Architecture,
    items: Seq<Resolved>,
    signed: Seq<Result<Seq<u8>, Error>>,
    from: int,
    k: int,
)
    requires
        0 <= from <= k <= items.len(),
        forall|j: int|
            from <= j < k ==> stop_at(state, template, architecture, items, signed, j) is None,
        k < items.len() ==> stop_at(state, template, architecture, items, signed, k) is Some,
    ensures
        halt(state, template, architecture, items, signed, from) == k,
    decreases k - from,
{
    if from < k {
        lemma_halt_at(state, template, architecture, items, signed, from + 1, k);
    }
}

/// A generation whose stub cannot be built makes the installation fail.
/// Where it is the first, the failure is its fault under its version, and the
/// partition stays as it was.
pub proof fn lemma_install_fails(
    state: EspState,
    template: Option<Seq<u8>>,
    architecture: Architecture,
    binary: Option<Seq<u8>>,
    items: Seq<Resolved>,
    signed: Seq<Result<Seq<u8>, Error>>,
    loader: Result<Seq<u8>, Error>,
    k: int,
)
    requires
        0 <= k < items.len(),
        fault(template, architecture, items[k]@) is Some,
    ensures
        install_result(state, template, architecture, binary, items, signed, loader) is Err,
        k == 0 ==> install_result(state, template, architecture, binary, items, signed, loader)
            == Err::<(), Failure>(
            Failure {
                error: fault(template, architecture, items[0]@)->0,
                generation: Some(items[0].version()),
            },
        ) && install_state(state, template, architecture, binary, items, signed, loader) == state,
{
    lemma_halt(state, template, architecture, items, signed, 0);
    assert(stop_at(state, template, architecture, items, signed, k) is Some);
    if k == 0 {
    }
}

/// Where an installation fails, it has stopped at a generation whose stub
/// cannot be built, or whose stub was not in place and could not be signed;
/// or, all generations being installed, at a boot loader that was to replace
/// the one in place and could not be signed.
pub proof fn lemma_install_failure(
    state: EspState,
    template: Option<Seq<u8>>,
    architecture: Architecture,
    binary: Option<Seq<u8>>,
    items: Seq<Resolved>,
    signed: Seq<Result<Seq<u8>, Error>>,
    loader: Result<Seq<u8>, Error>,
)
    requires
        install_result(state, template, architecture, binary, items, signed, loader) is Err,
    ensures
        ({
            let k = halt(state, template, architecture, items, signed, 0);
            let failure = install_result(
                state,
                template,
                architecture,
                binary,
                items,
                signed,
                loader,
            )->Err_0;
            &&& 0 <= k <= items.len()
            &&& k < items.len() ==> {
                &&& failure.generation == Some(items[k].version())
                &&& fault(template, architecture, items[k]@) matches Some(e) ==> failure.error == e
                &&& fault(template, architecture, items[k]@) is None ==> {
                    &&& signing_at(signed, k) == Err::<Seq<u8>, Error>(failure.error)
                    &&& !written(state, template->0, architecture, items.take(k)).files.contains(
                        stub_path(template->0, architecture, items[k]@),
                    )
                }
            }
            &&& k == items.len() ==> {
                &&& failure.generation is None
                &&& loader == Err::<Seq<u8>, Error>(failure.error)
                &&& binary is Some
                &&& !bootloader_settled(state, binary)
            }
        }),
{
    lemma_halt(state, template, architecture, items, signed, 0);
}

/// What holds of every installation, whatever signing has come to: no change
/// of the journal is taken back, and no artifact is written that was in
/// place; nothing is taken away before all is installed, and so a failure
/// takes nothing away; a generation whose stub cannot be built makes it fail,
/// the first one with its own fault and before anything is changed; and
/// where every stub can be built and is in place, and the boot loader is the
/// one in place, it succeeds.
pub proof fn lemma_installs(
    state: EspState,
    log: Seq<OpView>,
    template: Option<Seq<u8>>,
    architecture: Architecture,
    policy: bool,
    binary: Option<Seq<u8>>,
    items: Seq<Resolved>,
    signed: Seq<Result<Seq<u8>, Error>>,
    loader: Result<Seq<u8>, Error>,
    r: Result<(), Failure>,
    after: EspState,
    changes: Seq<OpView>,
)
    requires
        installs(
            state,
            log,
            template,
            architecture,
            policy,
            binary,
            items,
            signed,
            loader,
            r,
            after,
            changes,
        ),
    ensures
        log.is_prefix_of(changes),
        writes_new(changes, log.len() as int, state.files),
        adds_only(
            log + install_ops(
                state,
                template,
                architecture,
                policy,
                binary,
                items,
                signed,
                loader,
            ),
            log.len() as int,
        ),
        r is Err ==> adds_only(changes, log.len() as int),
        forall|k: int|
            0 <= k < items.len() && fault(template, architecture, (#[trigger] items[k])@) is Some
                ==> r is Err,
        items.len() > 0 ==> (fault(template, architecture, items[0]@) matches Some(e) ==> r
            == Err::<(), Failure>(Failure { error: e, generation: Some(items[0].version()) })
            && after == state && changes == log),
        (forall|k: int|
            0 <= k < items.len() ==> fault(template, architecture, (#[trigger] items[k])@) is None
                && state.files.contains(stub_path(template->0, architecture, items[k]@)))
            && bootloader_settled(state, binary) ==> r is Ok,
{
    let k = halt(state, template, architecture, items, signed, 0);
    let first = installation_ops(
        state,
        template->0,
        architecture,
        policy,
        items.take(k),
        stubs(signed, k),
    );
    let ops = install_ops(state, template, architecture, policy, binary, items, signed, loader);
    let middle = written(state, template->0, architecture, items);
    lemma_halt(state, template, architecture, items, signed, 0);
    lemma_progress(
        state,
        log,
        template->0,
        architecture,
        policy,
        items,
        stubs(signed, k),
        k,
    );
    if r is Ok {
        let second = bootloader_ops(middle, architecture, binary, content_of(loader));
        lemma_bootloader_ops(middle, architecture, binary, content_of(loader));
        lemma_written_keeps(state, template->0, architecture, items);
        lemma_concat_ranges(log + first, second, log.len() as int, state.files, middle.files);
        assert(log + ops =~= (log + first) + second);
        assert forall|i: int| log.len() <= i < changes.len() implies ((
        #[trigger] changes[i]) matches OpView::Write { path, .. } ==> !state.files.contains(
            path,
        )) by {
            if i < (log + ops).len() {
                assert(changes[i] == (log + ops)[i]);
            }
        }
    }
    assert forall|j: int|
        0 <= j < items.len() && fault(template, architecture, (#[trigger] items[j])@)
            is Some implies r is Err by {
        lemma_install_fails(state, template, architecture, binary, items, signed, loader, j);
    }
    if items.len() > 0 && fault(template, architecture, items[0]@) is Some {
        lemma_install_fails(state, template, architecture, binary, items, signed, loader, 0);
    }
    if k < items.len() {
        lemma_written_keeps(state, template->0, architecture, items.take(k));
    }
}

} // verus!

//! The installer: it builds and signs the stubs of generations, stores their
//! artifacts, writes their entries and prunes what is no longer kept.

use crate::architecture::Architecture;
use crate::artifact::{lemma_path_size, path_of, ArtifactKind};
use crate::digest::{bytes_view, sha256, sha256_of};
use crate::entry::{entry_of, LoaderEntry};
use crate::entry_file::{lemma_entry_writable, lemma_path_one_line, writable};
use crate::error::{Error, Failure};
use crate::esp::{copy_bytes, Esp};
use crate::generation::{retain, retained, Resolved, ResolvedView};
use crate::installation::{
    adds_only, bootloader_op, bootloader_ops, bootloader_settled, builds, content_of, entry_for,
    fault, generation_ops, initrd_path, installation_ops, installed, kernel_path,
    lemma_bootloader_ops, lemma_progress, lemma_written_keeps, policies_only, pruned, settled,
    signing_view, signing_views, stub_for, stub_path, then_removals, versions, with_bootloader,
    with_generation, writes_new, written,
};
use crate::outcome::{
    halt, installs, lemma_halt_at, lemma_install_failure, lemma_installs, loads, signing_at,
    stop_at, stubs,
};
use crate::state::{referenced, EspState, OpView};
use crate::stub::{lemma_short_paths, stub_defect, UnsignedStub};
use vstd::prelude::*;

verus! {

/// What signs an executable. Nothing is known of what comes back: the
/// installer signs what is not yet in place, and stores what it is handed.
pub trait Signer {
    /// Signs `image` and hands back the signed executable, or says why none
    /// could be made.
    fn sign(&self, image: &Vec<u8>) -> (signed: Result<Vec<u8>, Error>);
}

/// The installer: the system partition as it is known, the stub template if
/// it could be loaded, the boot loader's binary if the boot loader is to be
/// installed, how many generations stay installed, and whether measurement
/// policies are kept.
pub struct Installer {
    pub esp: Esp,
    pub template: Option<Vec<u8>>,
    pub bootloader: Option<Vec<u8>>,
    pub configuration_limit: usize,
    pub policy: bool,
}

/// What the installer has worked out for one generation.
struct Plan {
    kernel_digest: Vec<u8>,
    initrd_digest: Vec<u8>,
    stub_digest: Vec<u8>,
    stub: UnsignedStub,
    stub_path: String,
    entry: LoaderEntry,
}

impl Installer {
    /// An installer is well formed if its partition is.
    pub open spec fn wf(&self) -> bool {
        self.esp.wf()
    }

    /// Whether two installers differ at most in what their partitions hold
    /// and in the journals.
    pub open spec fn same_setup(&self, other: &Installer) -> bool {
        &&& bytes_view(self.template) == bytes_view(other.template)
        &&& bytes_view(self.bootloader) == bytes_view(other.bootloader)
        &&& self.configuration_limit == other.configuration_limit
        &&& self.policy == other.policy
        &&& self.esp.machine() == other.esp.machine()
        &&& self.esp.origin() == other.esp.origin()
    }

    spec fn planned(&self, generation: ResolvedView, plan: Plan) -> bool {
        let template = self.template->0@;
        let architecture = self.esp.machine();
        &&& self.template is Some
        &&& fault(Some(template), architecture, generation) is None
        &&& plan.kernel_digest@ == sha256_of(generation.kernel)
        &&& plan.initrd_digest@ == sha256_of(generation.initrd)
        &&& plan.stub@ == stub_for(template, architecture, generation)
        &&& plan.stub_digest@ == sha256_of(plan.stub.bytes@)
        &&& plan.stub_path@ == stub_path(template, architecture, generation)
        &&& plan.entry@ == entry_for(template, architecture, generation)
        &&& writable(plan.entry@)
    }

    /// An installer for the partition, with nothing decided yet beyond what
    /// the partition's journal holds.
    pub fn new(
        esp: Esp,
        template: Option<Vec<u8>>,
        bootloader: Option<Vec<u8>>,
        configuration_limit: usize,
        policy: bool,
    ) -> (installer: Installer)
        requires
            esp.wf(),
        ensures
            installer.wf(),
            installer.esp == esp,
            installer.template == template,
            installer.bootloader == bootloader,
            installer.configuration_limit == configuration_limit,
            installer.policy == policy,
    {
        Installer { esp, template, bootloader, configuration_limit, policy }
    }

    /// Works out the stub, the paths and the entry of a generation.
    fn plan(&self, generation: &Resolved) -> (r: Result<Plan, Error>)
        ensures
            match fault(bytes_view(self.template), self.esp.machine(), generation@) {
                Some(e) => r == Err::<Plan, Error>(e),
                None => r is Ok && self.planned(generation@, r->Ok_0),
            },
    {
        let architecture = self.esp.architecture();
        let kernel_digest = sha256(&generation.kernel);
        let initrd_digest = sha256(&generation.initrd);
        let kernel = path_of(ArtifactKind::Kernel, architecture, &kernel_digest);
        let initrd = path_of(ArtifactKind::Initrd, architecture, &initrd_digest);
        proof {
            lemma_path_size(ArtifactKind::Kernel, architecture, kernel_digest@);
            lemma_path_size(ArtifactKind::Initrd, architecture, initrd_digest@);
            lemma_short_paths(
                bytes_view(self.template),
                architecture,
                generation@,
                kernel@,
                initrd@,
            );
        }
        let stub = match UnsignedStub::build(
            &self.template,
            architecture,
            generation,
            &kernel,
            &initrd,
        ) {
            Ok(stub) => stub,
            Err(e) => { return Err(e); },
        };
        let stub_digest = sha256(&stub.bytes);
        let stub_path = path_of(ArtifactKind::Stub, architecture, &stub_digest);
        proof {
            reveal(stub_defect);
            lemma_path_one_line(ArtifactKind::Kernel, architecture, kernel_digest@);
            lemma_path_one_line(ArtifactKind::Initrd, architecture, initrd_digest@);
            lemma_path_one_line(ArtifactKind::Stub, architecture, stub_digest@);
            lemma_entry_writable(generation@, stub_path@, kernel@, initrd@);
        }
        let entry = LoaderEntry::for_generation(generation, stub_path.clone(), kernel, initrd);
        Ok(Plan { kernel_digest, initrd_digest, stub_digest, stub, stub_path, entry })
    }

    /// Builds the stub of a generation as it is handed to the signer, for a
    /// kernel and an initrd that lie where the partition stores them.
    pub fn unsigned_stub(&self, generation: &Resolved) -> (r: Result<UnsignedStub, Error>)
        ensures
            match fault(bytes_view(self.template), self.esp.machine(), generation@) {
                Some(e) => r == Err::<UnsignedStub, Error>(e),
                None => r is Ok && r->Ok_0@ == stub_for(
                    bytes_view(self.template)->0,
                    self.esp.machine(),
                    generation@,
                ),
            },
    {
        match self.plan(generation) {
            Ok(plan) => Ok(plan.stub),
            Err(e) => Err(e),
        }
    }

    /// Puts the artifacts of a generation in place and writes its entry.
    fn commit(&mut self, generation: &Resolved, plan: Plan, signed: Vec<u8>)
        requires
            old(self).wf(),
            old(self).planned(generation@, plan),
        ensures
            final(self).wf(),
            final(self).same_setup(old(self)),
            final(self).esp@ == with_generation(
                old(self).esp@,
                old(self).template->0@,
                old(self).esp.machine(),
                generation@,
            ),
            final(self).esp.changes() == old(self).esp.changes() + generation_ops(
                old(self).esp@,
                old(self).template->0@,
                old(self).esp.machine(),
                old(self).policy,
                generation@,
                signed@,
            ),
    {
        reveal(entry_of);
        let ghost template = self.template->0@;
        let ghost architecture = self.esp.machine();
        let ghost kernel = kernel_path(architecture, generation@);
        let ghost initrd = initrd_path(architecture, generation@);
        let ghost stub = stub_path(template, architecture, generation@);
        let ghost first = self.esp@;
        let ghost log = self.esp.changes();
        self.esp.place(ArtifactKind::Kernel, plan.kernel_digest, copy_bytes(&generation.kernel));
        let ghost second = self.esp@;
        assert(second.files =~= first.files.insert(kernel));
        self.esp.place(ArtifactKind::Initrd, plan.initrd_digest, copy_bytes(&generation.initrd));
        let ghost third = self.esp@;
        assert(third.files =~= first.files.insert(kernel).insert(initrd));
        self.esp.place(ArtifactKind::Stub, plan.stub_digest, signed);
        let ghost fourth = self.esp@;
        assert(fourth.files =~= first.files.insert(kernel).insert(initrd).insert(stub));
        assert(fourth.entries == first.entries);
        let version = plan.entry.version;
        let written = self.esp.write_entry(plan.entry);
        assert(written);
        if self.policy {
            self.esp.refresh_policy(version, plan.stub_path);
        }
        proof {
            assert(self.esp@ =~= with_generation(first, template, architecture, generation@));
            assert(self.esp.changes() =~= log + generation_ops(
                first,
                template,
                architecture,
                self.policy,
                generation@,
                signed@,
            ));
        }
    }

    /// Installs a generation, given what signing its stub has come to: the
    /// kernel, the initrd and the signed stub are put in place, as far as they
    /// are not there, and the entry is written. Where the stub is in place
    /// already, `signed` is not looked at. Where the stub cannot be built, or
    /// is not in place and was not signed, the error is handed back and
    /// nothing is changed.
    pub fn complete_generation(
        &mut self,
        generation: &Resolved,
        signed: Result<Vec<u8>, Error>,
    ) -> (r: Result<(), Error>)
        requires
            old(self).wf(),
        ensures
            final(self).wf(),
            final(self).same_setup(old(self)),
            builds(
                old(self).esp@,
                old(self).esp.changes(),
                bytes_view(old(self).template),
                old(self).esp.machine(),
                old(self).policy,
                generation@,
                signing_view(signed),
                r,
                final(self).esp@,
                final(self).esp.changes(),
            ),
    {
        let plan = match self.plan(generation) {
            Ok(plan) => plan,
            Err(e) => { return Err(e); },
        };
        match signed {
            Ok(bytes) => {
                self.commit(generation, plan, bytes);
                Ok(())
            },
            Err(e) => {
                if self.esp.contains(&plan.stub_path) {
                    self.commit(generation, plan, Vec::new());
                    Ok(())
                } else {
                    Err(e)
                }
            },
        }
    }

    /// Builds, signs and stores the artifacts of one generation and writes its
    /// entry. Nothing is pruned. A stub that is in place is not signed again,
    /// and a failure leaves the partition as it was. What the build comes to
    /// is what `complete_generation` gives for what signing has come to.
    pub fn build_generation<S: Signer>(&mut self, signer: &S, generation: &Resolved) -> (r: Result<
        (),
        Error,
    >)
        requires
            old(self).wf(),
        ensures
            final(self).wf(),
            final(self).same_setup(old(self)),
            r is Err ==> final(self).esp@ == old(self).esp@ && final(self).esp.changes() == old(self).esp.changes(),
            fault(bytes_view(old(self).template), old(self).esp.machine(), generation@) matches Some(
                e,
            ) ==> r == Err::<(), Error>(e),
            fault(bytes_view(old(self).template), old(self).esp.machine(), generation@) is None
                && old(self).esp@.files.contains(
                stub_path(old(self).template->0@, old(self).esp.machine(), generation@),
            ) ==> r is Ok,
            r is Ok ==> final(self).esp@ == with_generation(
                old(self).esp@,
                old(self).template->0@,
                old(self).esp.machine(),
                generation@,
            ),
            exists|signed: Result<Seq<u8>, Error>| #[trigger]
                builds(
                    old(self).esp@,
                    old(self).esp.changes(),
                    bytes_view(old(self).template),
                    old(self).esp.machine(),
                    old(self).policy,
                    generation@,
                    signed,
                    r,
                    final(self).esp@,
                    final(self).esp.changes(),
                ),
    {
        let ghost first = self.esp@;
        let ghost log = self.esp.changes();
        let ghost template = bytes_view(self.template);
        let ghost architecture = self.esp.machine();
        let plan = match self.plan(generation) {
            Ok(plan) => plan,
            Err(e) => {
                assert(builds(
                    first,
                    log,
                    template,
                    architecture,
                    self.policy,
                    generation@,
                    Err(e),
                    Err(e),
                    self.esp@,
                    self.esp.changes(),
                ));
                return Err(e);
            },
        };
        let signed = if self.esp.contains(&plan.stub_path) {
            Vec::new()
        } else {
            match signer.sign(&plan.stub.bytes) {
                Ok(bytes) => bytes,
                Err(e) => {
                    assert(builds(
                        first,
                        log,
                        template,
                        architecture,
                        self.policy,
                        generation@,
                        Err(e),
                        Err(e),
                        self.esp@,
                        self.esp.changes(),
                    ));
                    return Err(e);
                },
            }
        };
        let ghost stub = signed@;
        self.commit(generation, plan, signed);
        assert(builds(
            first,
            log,
            template,
            architecture,
            self.policy,
            generation@,
            Ok(stub),
            Ok(()),
            self.esp@,
            self.esp.changes(),
        ));
        Ok(())
    }
}

impl Installer {
    /// Installs the boot loader, given what signing it has come to. Where no
    /// boot loader is to be installed, or the one in place is the binary,
    /// nothing is done and `signed` is not looked at.
    pub fn complete_bootloader(&mut self, signed: Result<Vec<u8>, Error>) -> (r: Result<(), Error>)
        requires
            old(self).wf(),
        ensures
            final(self).wf(),
            final(self).same_setup(old(self)),
            loads(
                old(self).esp@,
                old(self).esp.changes(),
                old(self).esp.machine(),
                bytes_view(old(self).bootloader),
                signing_view(signed),
                r,
                final(self).esp@,
                final(self).esp.changes(),
            ),
    {
        let ghost log = self.esp.changes();
        let ghost first = self.esp@;
        match &self.bootloader {
            None => {
                assert(log + Seq::<OpView>::empty() =~= log);
                Ok(())
            },
            Some(binary) => {
                let digest = sha256(binary);
                if self.esp.holds(ArtifactKind::Bootloader, &digest) {
                    assert(log + Seq::<OpView>::empty() =~= log);
                    assert(first.bootloader == Some(sha256_of(binary@)));
                    assert(with_bootloader(first, Some(binary@)) == first);
                    return Ok(());
                }
                match signed {
                    Ok(bytes) => {
                        let ghost op = bootloader_op(self.esp.machine(), binary@, bytes@);
                        self.esp.place(ArtifactKind::Bootloader, digest, bytes);
                        assert(log.push(op) =~= log + seq![op]);
                        Ok(())
                    },
                    Err(e) => Err(e),
                }
            },
        }
    }

    /// Installs the boot loader, or replaces the one in place, where the
    /// binary is another than the one in place; that one is signed first.
    /// The generations are not touched. Where no boot loader is to be
    /// installed, nothing is done. What it comes to is what
    /// `complete_bootloader` gives for what signing has come to.
    pub fn install_bootloader<S: Signer>(&mut self, signer: &S) -> (r: Result<(), Error>)
        requires
            old(self).wf(),
        ensures
            final(self).wf(),
            final(self).same_setup(old(self)),
            bootloader_settled(old(self).esp@, bytes_view(old(self).bootloader)) ==> r is Ok,
            r is Err ==> final(self).esp@ == old(self).esp@ && final(self).esp.changes() == old(self).esp.changes(),
            r is Ok ==> final(self).esp@ == with_bootloader(
                old(self).esp@,
                bytes_view(old(self).bootloader),
            ),
            exists|signed: Result<Seq<u8>, Error>| #[trigger]
                loads(
                    old(self).esp@,
                    old(self).esp.changes(),
                    old(self).esp.machine(),
                    bytes_view(old(self).bootloader),
                    signed,
                    r,
                    final(self).esp@,
                    final(self).esp.changes(),
                ),
    {
        let ghost log = self.esp.changes();
        let ghost first = self.esp@;
        let ghost architecture = self.esp.machine();
        let ghost binary_view = bytes_view(self.bootloader);
        match &self.bootloader {
            None => {
                assert(log + bootloader_ops(first, architecture, binary_view, Seq::empty())
                    =~= log);
                assert(loads(
                    first,
                    log,
                    architecture,
                    binary_view,
                    Ok(Seq::empty()),
                    Ok(()),
                    self.esp@,
                    self.esp.changes(),
                ));
                Ok(())
            },
            Some(binary) => {
                let digest = sha256(binary);
                if self.esp.holds(ArtifactKind::Bootloader, &digest) {
                    assert(log + bootloader_ops(first, architecture, binary_view, Seq::empty())
                        =~= log);
                    assert(with_bootloader(first, Some(binary@)) == first);
                    assert(loads(
                        first,
                        log,
                        architecture,
                        binary_view,
                        Ok(Seq::empty()),
                        Ok(()),
                        self.esp@,
                        self.esp.changes(),
                    ));
                    return Ok(());
                }
                match signer.sign(binary) {
                    Ok(bytes) => {
                        let ghost signed = bytes@;
                        self.esp.place(ArtifactKind::Bootloader, digest, bytes);
                        assert(self.esp.changes() =~= log + bootloader_ops(
                            first,
                            architecture,
                            binary_view,
                            signed,
                        ));
                        assert(loads(
                            first,
                            log,
                            architecture,
                            binary_view,
                            Ok(signed),
                            Ok(()),
                            self.esp@,
                            self.esp.changes(),
                        ));
                        Ok(())
                    },
                    Err(e) => {
                        assert(loads(
                            first,
                            log,
                            architecture,
                            binary_view,
                            Err(e),
                            Err(e),
                            self.esp@,
                            self.esp.changes(),
                        ));
                        Err(e)
                    },
                }
            },
        }
    }

    /// Hands out the partition with its journal.
    pub fn into_esp(self) -> (esp: Esp)
        ensures
            esp == self.esp,
    {
        self.esp
    }
}

/// What signing the stub at `k` has come to, as far as it is given.
fn outcome_at(signed: &Vec<Result<Vec<u8>, Error>>, k: usize) -> (r: Result<Vec<u8>, Error>)
    ensures
        signing_view(r) == signing_at(signing_views(signed@), k as int),
{
    if k < signed.len() {
        match &signed[k] {
            Ok(bytes) => Ok(copy_bytes(bytes)),
            Err(e) => Err(*e),
        }
    } else {
        Err(Error::SigningFailed)
    }
}

impl Installer {
    /// Whether installing the generations, with `signed` for what signing
    /// their stubs has come to, has led from `before` to this installer and
    /// to `r`: the versions of all of them, or the failure of the first at
    /// which it stopped.
    spec fn advanced(
        &self,
        before: &Installer,
        items: Seq<Resolved>,
        signed: Seq<Result<Seq<u8>, Error>>,
        r: Result<Vec<u64>, Failure>,
    ) -> bool {
        let template = bytes_view(before.template);
        let architecture = before.esp.machine();
        let k = halt(before.esp@, template, architecture, items, signed, 0);
        &&& 0 <= k <= items.len()
        &&& self.esp@ == written(before.esp@, template->0, architecture, items.take(k))
        &&& self.esp.changes() == before.esp.changes() + installation_ops(
            before.esp@,
            template->0,
            architecture,
            before.policy,
            items.take(k),
            stubs(signed, k),
        )
        &&& match r {
            Ok(keep) => k == items.len() && keep@.to_set() == versions(items),
            Err(failure) => k < items.len() && failure == (Failure {
                error: stop_at(before.esp@, template, architecture, items, signed, k)->0,
                generation: Some(items[k].version()),
            }),
        }
    }

    /// The versions in a list that holds the version of each generation are
    /// the versions of the generations.
    proof fn lemma_kept(keep: Seq<u64>, items: Seq<Resolved>)
        requires
            keep.len() == items.len(),
            forall|j: int| 0 <= j < items.len() ==> keep[j] == (#[trigger] items[j]).version(),
        ensures
            keep.to_set() == versions(items),
    {
        assert forall|v: u64| keep.to_set().contains(v) <==> versions(items).contains(v) by {
            if keep.to_set().contains(v) {
                let j = choose|j: int| 0 <= j < keep.len() && keep[j] == v;
                assert(items[j].version() == v);
            }
            if versions(items).contains(v) {
                let j = choose|j: int| 0 <= j < items.len() && (#[trigger] items[j]).version() == v;
                assert(keep[j] == v);
            }
        }
        assert(keep.to_set() =~= versions(items));
    }

    /// What installing the generation at `i` comes to, the generations before
    /// it being installed: it fails exactly if the installation stops there,
    /// and then nothing is changed; else the first `i + 1` generations are
    /// installed.
    proof fn lemma_step(
        first: EspState,
        log: Seq<OpView>,
        template: Option<Seq<u8>>,
        architecture: Architecture,
        policy: bool,
        items: Seq<Resolved>,
        signed: Seq<Result<Seq<u8>, Error>>,
        i: int,
        so_far: Seq<OpView>,
        built: Result<(), Error>,
        after: EspState,
        changes: Seq<OpView>,
    )
        requires
            0 <= i < items.len(),
            so_far == log + installation_ops(
                first,
                template->0,
                architecture,
                policy,
                items.take(i),
                stubs(signed, i),
            ),
            builds(
                written(first, template->0, architecture, items.take(i)),
                so_far,
                template,
                architecture,
                policy,
                items[i]@,
                signing_at(signed, i),
                built,
                after,
                changes,
            ),
        ensures
            built is Ok <==> stop_at(first, template, architecture, items, signed, i) is None,
            built is Err ==> {
                &&& built->Err_0 == stop_at(first, template, architecture, items, signed, i)->0
                &&& after == written(first, template->0, architecture, items.take(i))
                &&& changes == so_far
            },
            built is Ok ==> {
                &&& after == written(first, template->0, architecture, items.take(i + 1))
                &&& changes == log + installation_ops(
                    first,
                    template->0,
                    architecture,
                    policy,
                    items.take(i + 1),
                    stubs(signed, i + 1),
                )
            },
    {
        assert(items.take(i + 1).drop_last() =~= items.take(i));
        assert(items.take(i + 1).last() == items[i]);
        assert(stubs(signed, i + 1).drop_last() =~= stubs(signed, i));
        assert(stubs(signed, i + 1).last() == content_of(signing_at(signed, i)));
        if built is Ok {
            let before = installation_ops(
                first,
                template->0,
                architecture,
                policy,
                items.take(i),
                stubs(signed, i),
            );
            let last = generation_ops(
                written(first, template->0, architecture, items.take(i)),
                template->0,
                architecture,
                policy,
                items[i]@,
                content_of(signing_at(signed, i)),
            );
            assert(changes =~= log + (before + last));
        }
    }

    /// What signing one stub more has come to changes nothing for the stubs
    /// before it.
    proof fn lemma_longer(
        first: EspState,
        template: Option<Seq<u8>>,
        architecture: Architecture,
        items: Seq<Resolved>,
        signed: Seq<Result<Seq<u8>, Error>>,
        outcome: Result<Seq<u8>, Error>,
    )
        ensures
            signing_at(signed.push(outcome), signed.len() as int) == outcome,
            stubs(signed.push(outcome), signed.len() as int) == stubs(signed, signed.len() as int),
            forall|j: int|
                0 <= j < signed.len() ==> #[trigger] stop_at(
                    first,
                    template,
                    architecture,
                    items,
                    signed.push(outcome),
                    j,
                ) == stop_at(first, template, architecture, items, signed, j),
    {
        let longer = signed.push(outcome);
        assert(stubs(longer, signed.len() as int) =~= stubs(signed, signed.len() as int));
        assert forall|j: int| 0 <= j < signed.len() implies #[trigger] stop_at(
            first,
            template,
            architecture,
            items,
            longer,
            j,
        ) == stop_at(first, template, architecture, items, signed, j) by {
            assert(signing_at(longer, j) == signing_at(signed, j));
        }
    }

    /// Installs the generations one after the other, signing each stub that
    /// is not in place, and hands back their versions, or the first failure,
    /// which ends it; and what signing has come to.
    fn install_generations<S: Signer>(&mut self, signer: &S, kept: &Vec<Resolved>) -> (r: (
        Result<Vec<u64>, Failure>,
        Ghost<Seq<Result<Seq<u8>, Error>>>,
    ))
        requires
            old(self).wf(),
        ensures
            final(self).wf(),
            final(self).same_setup(old(self)),
            final(self).advanced(old(self), kept@, r.1@, r.0),
    {
        let ghost items = kept@;
        let ghost template = bytes_view(self.template);
        let ghost architecture = self.esp.machine();
        let ghost first = self.esp@;
        let ghost log = self.esp.changes();
        let mut keep: Vec<u64> = Vec::new();
        let mut i: usize = 0;
        let ghost mut signed: Seq<Result<Seq<u8>, Error>> = Seq::empty();
        proof {
            assert(items.take(0) =~= Seq::<Resolved>::empty());
            assert(log + Seq::<OpView>::empty() =~= log);
        }
        while i < kept.len()
            invariant
                i <= kept.len(),
                kept@ == items,
                self.wf(),
                self.same_setup(old(self)),
                template == bytes_view(old(self).template),
                architecture == old(self).esp.machine(),
                first == old(self).esp@,
                log == old(self).esp.changes(),
                signed.len() == i,
                forall|j: int|
                    0 <= j < i ==> stop_at(first, template, architecture, items, signed, j)
                        is None,
                self.esp.changes() == log + installation_ops(
                    first,
                    template->0,
                    architecture,
                    self.policy,
                    items.take(i as int),
                    stubs(signed, i as int),
                ),
                self.esp@ == written(first, template->0, architecture, items.take(i as int)),
                keep@.len() == i,
                forall|j: int| 0 <= j < i ==> keep@[j] == (#[trigger] items[j]).version(),
            decreases kept.len() - i,
        {
            let ghost before = self.esp@;
            let ghost so_far = self.esp.changes();
            let built = self.build_generation(signer, &kept[i]);
            proof {
                let outcome = choose|outcome: Result<Seq<u8>, Error>| #[trigger]
                    builds(
                        before,
                        so_far,
                        template,
                        architecture,
                        self.policy,
                        items[i as int]@,
                        outcome,
                        built,
                        self.esp@,
                        self.esp.changes(),
                    );
                Self::lemma_longer(first, template, architecture, items, signed, outcome);
                signed = signed.push(outcome);
                Self::lemma_step(
                    first,
                    log,
                    template,
                    architecture,
                    self.policy,
                    items,
                    signed,
                    i as int,
                    so_far,
                    built,
                    self.esp@,
                    self.esp.changes(),
                );
            }
            match built {
                Ok(()) => {},
                Err(e) => {
                    proof {
                        lemma_halt_at(first, template, architecture, items, signed, 0, i as int);
                    }
                    return (
                        Err(Failure { error: e, generation: Some(kept[i].generation.version) }),
                        Ghost(signed),
                    );
                },
            }
            keep.push(kept[i].generation.version);
            i += 1;
        }
        proof {
            assert(items.take(i as int) =~= items);
            lemma_halt_at(first, template, architecture, items, signed, 0, i as int);
            Self::lemma_kept(keep@, items);
        }
        (Ok(keep), Ghost(signed))
    }

    /// Installs the generations one after the other, with what signing their
    /// stubs has come to, and hands back their versions, or the first
    /// failure, which ends it.
    fn complete_generations(
        &mut self,
        kept: &Vec<Resolved>,
        given: &Vec<Result<Vec<u8>, Error>>,
    ) -> (r: Result<Vec<u64>, Failure>)
        requires
            old(self).wf(),
        ensures
            final(self).wf(),
            final(self).same_setup(old(self)),
            final(self).advanced(old(self), kept@, signing_views(given@), r),
    {
        let ghost items = kept@;
        let ghost template = bytes_view(self.template);
        let ghost architecture = self.esp.machine();
        let ghost first = self.esp@;
        let ghost log = self.esp.changes();
        let ghost signed = signing_views(given@);
        let mut keep: Vec<u64> = Vec::new();
        let mut i: usize = 0;
        proof {
            assert(items.take(0) =~= Seq::<Resolved>::empty());
            assert(log + Seq::<OpView>::empty() =~= log);
        }
        while i < kept.len()
            invariant
                i <= kept.len(),
                kept@ == items,
                signed == signing_views(given@),
                self.wf(),
                self.same_setup(old(self)),
                template == bytes_view(old(self).template),
                architecture == old(self).esp.machine(),
                first == old(self).esp@,
                log == old(self).esp.changes(),
                forall|j: int|
                    0 <= j < i ==> stop_at(first, template, architecture, items, signed, j)
                        is None,
                self.esp.changes() == log + installation_ops(
                    first,
                    template->0,
                    architecture,
                    self.policy,
                    items.take(i as int),
                    stubs(signed, i as int),
                ),
                self.esp@ == written(first, template->0, architecture, items.take(i as int)),
                keep@.len() == i,
                forall|j: int| 0 <= j < i ==> keep@[j] == (#[trigger] items[j]).version(),
            decreases kept.len() - i,
        {
            let ghost so_far = self.esp.changes();
            let built = self.complete_generation(&kept[i], outcome_at(given, i));
            proof {
                Self::lemma_step(
                    first,
                    log,
                    template,
                    architecture,
                    self.policy,
                    items,
                    signed,
                    i as int,
                    so_far,
                    built,
                    self.esp@,
                    self.esp.changes(),
                );
            }
            match built {
                Ok(()) => {},
                Err(e) => {
                    proof {
                        lemma_halt_at(first, template, architecture, items, signed, 0, i as int);
                    }
                    return Err(
                        Failure { error: e, generation: Some(kept[i].generation.version) },
                    );
                },
            }
            keep.push(kept[i].generation.version);
            i += 1;
        }
        proof {
            assert(items.take(i as int) =~= items);
            lemma_halt_at(first, template, architecture, items, signed, 0, i as int);
            Self::lemma_kept(keep@, items);
        }
        Ok(keep)
    }

    /// Ends an installation whose generations are installed, `loaded` being
    /// what installing the boot loader has come to: where that has failed,
    /// the failure is handed back; else all is pruned but the versions kept.
    fn finish(&mut self, keep: &Vec<u64>, loaded: Result<(), Error>) -> (r: Result<(), Failure>)
        requires
            old(self).wf(),
        ensures
            final(self).wf(),
            final(self).same_setup(old(self)),
            match loaded {
                Err(e) => {
                    &&& r == Err::<(), Failure>(Failure { error: e, generation: None })
                    &&& final(self).esp@ == old(self).esp@
                    &&& final(self).esp.changes() == old(self).esp.changes()
                },
                Ok(_) => {
                    &&& r == Ok::<(), Failure>(())
                    &&& final(self).esp@ == pruned(old(self).esp@, keep@.to_set())
                    &&& then_removals(final(self).esp.changes(), old(self).esp.changes())
                    &&& old(self).esp@.entries.dom().subset_of(keep@.to_set())
                        && old(self).esp@.files.subset_of(referenced(old(self).esp@.entries))
                        ==> final(self).esp.changes() == old(self).esp.changes()
                },
            },
    {
        match loaded {
            Err(e) => Err(Failure { error: e, generation: None }),
            Ok(_) => {
                self.esp.prune(keep);
                Ok(())
            },
        }
    }

    /// What an installation has come to, once its generations are handled
    /// (`middle`), the boot loader is (`late`), and it has ended (`self`).
    proof fn lemma_installed(
        &self,
        before: &Installer,
        middle: &Installer,
        late: &Installer,
        items: Seq<Resolved>,
        signed: Seq<Result<Seq<u8>, Error>>,
        loader: Result<Seq<u8>, Error>,
        done: Result<Vec<u64>, Failure>,
        loaded: Result<(), Error>,
        r: Result<(), Failure>,
    )
        requires
            middle.advanced(before, items, signed, done),
            middle.same_setup(before),
            match done {
                Err(failure) => r == Err::<(), Failure>(failure) && self.esp@ == middle.esp@
                    && self.esp.changes() == middle.esp.changes(),
                Ok(keep) => {
                    &&& loads(
                        middle.esp@,
                        middle.esp.changes(),
                        middle.esp.machine(),
                        bytes_view(middle.bootloader),
                        loader,
                        loaded,
                        late.esp@,
                        late.esp.changes(),
                    )
                    &&& match loaded {
                        Err(e) => {
                            &&& r == Err::<(), Failure>(Failure { error: e, generation: None })
                            &&& self.esp@ == late.esp@
                            &&& self.esp.changes() == late.esp.changes()
                        },
                        Ok(_) => {
                            &&& r == Ok::<(), Failure>(())
                            &&& self.esp@ == pruned(late.esp@, keep@.to_set())
                            &&& then_removals(self.esp.changes(), late.esp.changes())
                            &&& late.esp@.entries.dom().subset_of(keep@.to_set())
                                && late.esp@.files.subset_of(referenced(late.esp@.entries))
                                ==> self.esp.changes() == late.esp.changes()
                        },
                    }
                },
            },
        ensures
            installs(
                before.esp@,
                before.esp.changes(),
                bytes_view(before.template),
                before.esp.machine(),
                before.policy,
                bytes_view(before.bootloader),
                items,
                signed,
                loader,
                r,
                self.esp@,
                self.esp.changes(),
            ),
            settled(before.esp@, bytes_view(before.template)->0, before.esp.machine(), items)
                && bootloader_settled(before.esp@, bytes_view(before.bootloader))
                ==> policies_only(self.esp.changes(), before.esp.changes().len() as int)
                && self.esp@ == before.esp@,
    {
        let first = before.esp@;
        let log = before.esp.changes();
        let template = bytes_view(before.template);
        let architecture = before.esp.machine();
        let binary = bytes_view(before.bootloader);
        let k = halt(first, template, architecture, items, signed, 0);
        lemma_progress(
            first,
            log,
            template->0,
            architecture,
            before.policy,
            items,
            stubs(signed, k),
            k,
        );
        lemma_written_keeps(first, template->0, architecture, items);
        if done is Ok {
            assert(items.take(k) =~= items);
            lemma_bootloader_ops(middle.esp@, architecture, binary, content_of(loader));
            if loaded is Ok && settled(first, template->0, architecture, items)
                && bootloader_settled(first, binary) {
                assert(first.entries.restrict(versions(items)) =~= first.entries);
                assert(first.files.intersect(referenced(first.entries)) =~= first.files);
            }
        }
    }
}

impl Installer {
    /// Installs the newest generations, as many as the limit allows, from the
    /// newest on, then the boot loader where one is to be installed, and then
    /// prunes: the entries of all other versions are deleted, and after them
    /// the artifacts that no entry needs any more. The first failure ends the
    /// installation and is handed back with the version of the generation that
    /// it befell; what was installed before it stays, and nothing is pruned.
    ///
    /// A stub or a boot loader is signed only where it is not in place. What
    /// the installation comes to is what `complete_install` gives for what
    /// signing has come to.
    pub fn install<S: Signer>(&mut self, signer: &S, generations: Vec<Resolved>) -> (r: Result<
        (),
        Failure,
    >)
        requires
            old(self).wf(),
        ensures
            final(self).wf(),
            final(self).same_setup(old(self)),
            ({
                let items = retained(generations@, old(self).configuration_limit as nat);
                let template = bytes_view(old(self).template);
                let architecture = old(self).esp.machine();
                let binary = bytes_view(old(self).bootloader);
                let before = old(self).esp@;
                let log = old(self).esp.changes();
                let after = final(self).esp@;
                let changes = final(self).esp.changes();
                &&& exists|signed: Seq<Result<Seq<u8>, Error>>, loader: Result<Seq<u8>, Error>|
                 #[trigger]
                    installs(
                        before,
                        log,
                        template,
                        architecture,
                        old(self).policy,
                        binary,
                        items,
                        signed,
                        loader,
                        r,
                        after,
                        changes,
                    )
                &&& r is Ok ==> after == with_bootloader(
                    installed(before, template->0, architecture, items),
                    binary,
                )
                &&& r is Err ==> exists|k: int|
                    {
                        &&& 0 <= k <= items.len()
                        &&& after == written(
                            before,
                            template->0,
                            architecture,
                            #[trigger] items.take(k),
                        )
                        &&& r->Err_0.generation == if k < items.len() {
                            Some(items[k].version())
                        } else {
                            None
                        }
                        &&& k < items.len() ==> fault(template, architecture, items[k]@) is Some
                            || !after.files.contains(
                            stub_path(template->0, architecture, items[k]@),
                        )
                        &&& k == items.len() ==> binary is Some && !bootloader_settled(
                            before,
                            binary,
                        )
                    }
                &&& log.is_prefix_of(changes)
                &&& writes_new(changes, log.len() as int, before.files)
                &&& r is Err ==> adds_only(changes, log.len() as int)
                &&& forall|k: int|
                    0 <= k < items.len() && fault(template, architecture, (#[trigger] items[k])@)
                        is Some ==> r is Err
                &&& items.len() > 0 ==> (fault(template, architecture, items[0]@) matches Some(e)
                    ==> r == Err::<(), Failure>(
                    Failure { error: e, generation: Some(items[0].version()) },
                ) && after == before && changes == log)
                &&& (forall|k: int|
                    0 <= k < items.len() ==> fault(
                        template,
                        architecture,
                        (#[trigger] items[k])@,
                    ) is None && before.files.contains(
                        stub_path(template->0, architecture, items[k]@),
                    )) && bootloader_settled(before, binary) ==> r is Ok
                &&& settled(before, template->0, architecture, items) && bootloader_settled(
                    before,
                    binary,
                ) ==> policies_only(changes, log.len() as int) && after == before
            }),
    {
        let ghost items = retained(generations@, self.configuration_limit as nat);
        let ghost template = bytes_view(self.template);
        let ghost architecture = self.esp.machine();
        let ghost binary = bytes_view(self.bootloader);
        let ghost first = self.esp@;
        let ghost log = self.esp.changes();
        let kept = retain(generations, self.configuration_limit);
        let (done, Ghost(signed)) = self.install_generations(signer, &kept);
        let ghost middle = *self;
        let keep = match done {
            Ok(keep) => keep,
            Err(failure) => {
                proof {
                    self.lemma_installed(
                        old(self),
                        &middle,
                        &middle,
                        items,
                        signed,
                        Err(failure.error),
                        done,
                        Ok(()),
                        Err(failure),
                    );
                    lemma_installs(
                        first,
                        log,
                        template,
                        architecture,
                        self.policy,
                        binary,
                        items,
                        signed,
                        Err(failure.error),
                        Err(failure),
                        self.esp@,
                        self.esp.changes(),
                    );
                    lemma_install_failure(
                        first,
                        template,
                        architecture,
                        binary,
                        items,
                        signed,
                        Err(failure.error),
                    );
                }
                return Err(failure);
            },
        };
        let loaded = self.install_bootloader(signer);
        let ghost late = *self;
        let ghost loader = choose|loader: Result<Seq<u8>, Error>| #[trigger]
            loads(
                middle.esp@,
                middle.esp.changes(),
                architecture,
                binary,
                loader,
                loaded,
                late.esp@,
                late.esp.changes(),
            );
        let r = self.finish(&keep, loaded);
        proof {
            self.lemma_installed(
                old(self),
                &middle,
                &late,
                items,
                signed,
                loader,
                done,
                loaded,
                r,
            );
            lemma_installs(
                first,
                log,
                template,
                architecture,
                self.policy,
                binary,
                items,
                signed,
                loader,
                r,
                self.esp@,
                self.esp.changes(),
            );
            if r is Err {
                lemma_install_failure(
                    first,
                    template,
                    architecture,
                    binary,
                    items,
                    signed,
                    loader,
                );
            }
        }
        r
    }

    /// Installs as `install` does, given what signing has come to: `signed`
    /// holds, for each generation that stays installed, from the newest on,
    /// what signing its stub has come to, and `loader` what signing the boot
    /// loader has come to. What is given for a stub or a boot loader that is
    /// in place is not looked at, and a stub for which nothing is given counts
    /// as one that could not be signed.
    pub fn complete_install(
        &mut self,
        generations: Vec<Resolved>,
        signed: Vec<Result<Vec<u8>, Error>>,
        loader: Result<Vec<u8>, Error>,
    ) -> (r: Result<(), Failure>)
        requires
            old(self).wf(),
        ensures
            final(self).wf(),
            final(self).same_setup(old(self)),
            ({
                let items = retained(generations@, old(self).configuration_limit as nat);
                let template = bytes_view(old(self).template);
                let architecture = old(self).esp.machine();
                let binary = bytes_view(old(self).bootloader);
                let before = old(self).esp@;
                let log = old(self).esp.changes();
                let after = final(self).esp@;
                let changes = final(self).esp.changes();
                &&& installs(
                    before,
                    log,
                    template,
                    architecture,
                    old(self).policy,
                    binary,
                    items,
                    signing_views(signed@),
                    signing_view(loader),
                    r,
                    after,
                    changes,
                )
                &&& settled(before, template->0, architecture, items) && bootloader_settled(
                    before,
                    binary,
                ) ==> policies_only(changes, log.len() as int) && after == before
            }),
    {
        let ghost items = retained(generations@, self.configuration_limit as nat);
        let kept = retain(generations, self.configuration_limit);
        let done = self.complete_generations(&kept, &signed);
        let ghost middle = *self;
        let keep = match done {
            Ok(keep) => keep,
            Err(failure) => {
                proof {
                    self.lemma_installed(
                        old(self),
                        &middle,
                        &middle,
                        items,
                        signing_views(signed@),
                        signing_view(loader),
                        done,
                        Ok(()),
                        Err(failure),
                    );
                }
                return Err(failure);
            },
        };
        let loaded = self.complete_bootloader(loader);
        let ghost late = *self;
        let r = self.finish(&keep, loaded);
        proof {
            self.lemma_installed(
                old(self),
                &middle,
                &late,
                items,
                signing_views(signed@),
                signing_view(loader),
                done,
                loaded,
                r,
            );
        }
        r
    }
}

} // verus!

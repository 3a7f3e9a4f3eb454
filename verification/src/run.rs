//! Running a checked command on what was read for it: the installer is set up
//! as the command asks, and does what the command asks for.

use crate::architecture::Architecture;
use crate::cli::Settings;
use crate::digest::bytes_view;
use crate::error::{Error, Failure};
use crate::esp::Esp;
use crate::generation::{retained, Resolved, ResolvedView};
use crate::installation::{
    bootloader_ops, bootloader_settled, builds, content_of, generation_ops, policies_only,
    settled, signing_view, signing_views, stop, with_bootloader, with_generation,
};
use crate::installer::{Installer, Signer};
use crate::outcome::{bootloader_stop, installs, loads};
use crate::state::{EspState, OpView};
use vstd::prelude::*;
use vstd::string::StrSliceExecFns;

verus! {

/// What running a command has come to.
pub struct Report {
    /// The installer as the command has left it. The journal of its partition
    /// holds the changes to carry out, after a failure too.
    pub installer: Installer,
    pub outcome: Result<(), Failure>,
    /// Whether the boot loader's configuration is to be put in place as well.
    pub loader_config: bool,
}

impl Settings {
    /// Whether measurement policies are kept: a directory is given for them.
    pub open spec fn keeps_policies(&self) -> bool {
        self.systemd_pcrlock@.len() > 0
    }

    /// Whether a configuration of the boot loader is given.
    pub open spec fn configures_loader(&self) -> bool {
        self.systemd_boot_loader_config@.len() > 0
    }

    /// Sets up the installer for what was read: the partition, the stub
    /// template and the boot loader's binary. The limit is that of the
    /// settings, and measurement policies are kept if a directory is given
    /// for them.
    pub fn installer(
        &self,
        esp: Esp,
        template: Option<Vec<u8>>,
        bootloader: Option<Vec<u8>>,
    ) -> (installer: Installer)
        requires
            esp.wf(),
        ensures
            installer.wf(),
            installer.esp == esp,
            installer.template == template,
            installer.bootloader == bootloader,
            installer.configuration_limit == self.configuration_limit,
            installer.policy == self.keeps_policies(),
    {
        let policy = self.systemd_pcrlock.as_str().unicode_len() > 0;
        Installer::new(esp, template, bootloader, self.configuration_limit, policy)
    }
}

/// Whether a build of a generation on the partition `state` with the journal
/// `log` gives `r` and leaves the partition `after` with the journal
/// `changes`, signing the stub having come to `signed` and signing the boot
/// loader to `loader`. Where installing the generation stops, its failure is
/// handed back under its version, and nothing is changed. Else the generation
/// is installed, and the boot loader after it if it is `wanted`: a binary
/// that could not be read, or that is to replace the one in place and could
/// not be signed, is a failure under no version, and the generation stays.
pub open spec fn build_runs(
    state: EspState,
    log: Seq<OpView>,
    template: Option<Seq<u8>>,
    architecture: Architecture,
    policy: bool,
    wanted: bool,
    binary: Option<Seq<u8>>,
    generation: ResolvedView,
    signed: Result<Seq<u8>, Error>,
    loader: Result<Seq<u8>, Error>,
    r: Result<(), Failure>,
    after: EspState,
    changes: Seq<OpView>,
) -> bool {
    let built = with_generation(state, template->0, architecture, generation);
    let first = log + generation_ops(
        state,
        template->0,
        architecture,
        policy,
        generation,
        content_of(signed),
    );
    match stop(state, template, architecture, generation, signed) {
        Some(e) => {
            &&& r == Err::<(), Failure>(
                Failure { error: e, generation: Some(generation.generation.version) },
            )
            &&& after == state
            &&& changes == log
        },
        None => if !wanted {
            r == Ok::<(), Failure>(()) && after == built && changes == first
        } else if binary is None {
            &&& r == Err::<(), Failure>(
                Failure { error: Error::BootloaderUnavailable, generation: None },
            )
            &&& after == built
            &&& changes == first
        } else {
            match bootloader_stop(built, binary, loader) {
                Some(e) => {
                    &&& r == Err::<(), Failure>(Failure { error: e, generation: None })
                    &&& after == built
                    &&& changes == first
                },
                None => {
                    &&& r == Ok::<(), Failure>(())
                    &&& after == with_bootloader(built, binary)
                    &&& changes == first + bootloader_ops(
                        built,
                        architecture,
                        binary,
                        content_of(loader),
                    )
                },
            }
        },
    }
}

/// Whether an installation of the generations on the partition `state` with
/// the journal `log` gives `r` and leaves the partition `after` with the
/// journal `changes`: without the boot loader's binary it fails before
/// anything is changed; with it, it goes as `installs` says.
pub open spec fn install_runs(
    state: EspState,
    log: Seq<OpView>,
    template: Option<Seq<u8>>,
    architecture: Architecture,
    policy: bool,
    binary: Option<Seq<u8>>,
    items: Seq<Resolved>,
    signed: Seq<Result<Seq<u8>, Error>>,
    loader: Result<Seq<u8>, Error>,
    r: Result<(), Failure>,
    after: EspState,
    changes: Seq<OpView>,
) -> bool {
    if binary is None {
        &&& r == Err::<(), Failure>(
            Failure { error: Error::BootloaderUnavailable, generation: None },
        )
        &&& after == state
        &&& changes == log
    } else {
        installs(
            state,
            log,
            template,
            architecture,
            policy,
            binary,
            items,
            signed,
            loader,
            r,
            after,
            changes,
        )
    }
}

/// What a build comes to once its generation is handled: a failure of the
/// generation under its version; success where no boot loader is wanted; a
/// failure under no version where the boot loader could not be read; and
/// else the boot loader is due.
fn after_build(wanted: bool, read: bool, version: u64, built: Result<(), Error>) -> (r: Option<
    Result<(), Failure>,
>)
    ensures
        r == match built {
            Err(e) => Some(Err::<(), Failure>(Failure { error: e, generation: Some(version) })),
            Ok(_) => if !wanted {
                Some(Ok::<(), Failure>(()))
            } else if !read {
                Some(
                    Err::<(), Failure>(
                        Failure { error: Error::BootloaderUnavailable, generation: None },
                    ),
                )
            } else {
                None
            },
        },
{
    match built {
        Err(e) => Some(Err(Failure { error: e, generation: Some(version) })),
        Ok(()) => {
            if !wanted {
                Some(Ok(()))
            } else if !read {
                Some(Err(Failure { error: Error::BootloaderUnavailable, generation: None }))
            } else {
                None
            }
        },
    }
}

/// The failure of the boot loader, which befalls no generation.
fn after_bootloader(loaded: Result<(), Error>) -> (r: Result<(), Failure>)
    ensures
        r == match loaded {
            Ok(_) => Ok::<(), Failure>(()),
            Err(e) => Err(Failure { error: e, generation: None }),
        },
{
    match loaded {
        Ok(()) => Ok(()),
        Err(e) => Err(Failure { error: e, generation: None }),
    }
}

/// Builds one generation: its artifacts are built, signed and stored and its
/// entry is written, and nothing is pruned. After that the boot loader is
/// installed if it is `wanted`; `binary` is what was read of it, if it could
/// be read. The boot loader's configuration is to be put in place if the boot
/// loader was wanted, all went well and a configuration is given. What the
/// build comes to is what `finish_build` gives for what signing has come to.
pub fn run_build<S: Signer>(
    settings: &Settings,
    wanted: bool,
    signer: &S,
    esp: Esp,
    template: Option<Vec<u8>>,
    binary: Option<Vec<u8>>,
    generation: Resolved,
) -> (report: Report)
    requires
        esp.wf(),
    ensures
        report.installer.wf(),
        report.installer.esp.machine() == esp.machine(),
        report.installer.esp.origin() == esp.origin(),
        exists|signed: Result<Seq<u8>, Error>, loader: Result<Seq<u8>, Error>| #[trigger]
            build_runs(
                esp@,
                esp.changes(),
                bytes_view(template),
                esp.machine(),
                settings.keeps_policies(),
                wanted,
                bytes_view(binary),
                generation@,
                signed,
                loader,
                report.outcome,
                report.installer.esp@,
                report.installer.esp.changes(),
            ),
        report.loader_config == (wanted && report.outcome is Ok && settings.configures_loader()),
{
    let ghost first = esp@;
    let ghost log = esp.changes();
    let ghost architecture = esp.machine();
    let ghost policy = settings.keeps_policies();
    let ghost source = bytes_view(template);
    let ghost loader_binary = bytes_view(binary);
    let version = generation.generation.version;
    let mut installer = settings.installer(esp, template, binary);
    let built = installer.build_generation(signer, &generation);
    let ghost signed = choose|signed: Result<Seq<u8>, Error>| #[trigger]
        builds(
            first,
            log,
            source,
            architecture,
            policy,
            generation@,
            signed,
            built,
            installer.esp@,
            installer.esp.changes(),
        );
    let ghost middle = installer.esp@;
    let ghost so_far = installer.esp.changes();
    let outcome = match after_build(wanted, installer.bootloader.is_some(), version, built) {
        Some(outcome) => {
            assert(build_runs(
                first,
                log,
                source,
                architecture,
                policy,
                wanted,
                loader_binary,
                generation@,
                signed,
                signed,
                outcome,
                installer.esp@,
                installer.esp.changes(),
            ));
            outcome
        },
        None => {
            let loaded = installer.install_bootloader(signer);
            let ghost loader = choose|loader: Result<Seq<u8>, Error>| #[trigger]
                loads(
                    middle,
                    so_far,
                    architecture,
                    loader_binary,
                    loader,
                    loaded,
                    installer.esp@,
                    installer.esp.changes(),
                );
            let outcome = after_bootloader(loaded);
            assert(build_runs(
                first,
                log,
                source,
                architecture,
                policy,
                wanted,
                loader_binary,
                generation@,
                signed,
                loader,
                outcome,
                installer.esp@,
                installer.esp.changes(),
            ));
            outcome
        },
    };
    let loader_config = wanted && outcome.is_ok()
        && settings.systemd_boot_loader_config.as_str().unicode_len() > 0;
    Report { installer, outcome, loader_config }
}

/// Builds as `run_build` does, given what signing has come to: `signed` for
/// the stub and `loader` for the boot loader. What is given for a stub or a
/// boot loader that is in place is not looked at.
pub fn finish_build(
    settings: &Settings,
    wanted: bool,
    esp: Esp,
    template: Option<Vec<u8>>,
    binary: Option<Vec<u8>>,
    generation: Resolved,
    signed: Result<Vec<u8>, Error>,
    loader: Result<Vec<u8>, Error>,
) -> (report: Report)
    requires
        esp.wf(),
    ensures
        report.installer.wf(),
        report.installer.esp.machine() == esp.machine(),
        report.installer.esp.origin() == esp.origin(),
        build_runs(
            esp@,
            esp.changes(),
            bytes_view(template),
            esp.machine(),
            settings.keeps_policies(),
            wanted,
            bytes_view(binary),
            generation@,
            signing_view(signed),
            signing_view(loader),
            report.outcome,
            report.installer.esp@,
            report.installer.esp.changes(),
        ),
        report.loader_config == (wanted && report.outcome is Ok && settings.configures_loader()),
{
    let version = generation.generation.version;
    let mut installer = settings.installer(esp, template, binary);
    let built = installer.complete_generation(&generation, signed);
    let outcome = match after_build(wanted, installer.bootloader.is_some(), version, built) {
        Some(outcome) => outcome,
        None => after_bootloader(installer.complete_bootloader(loader)),
    };
    let loader_config = wanted && outcome.is_ok()
        && settings.systemd_boot_loader_config.as_str().unicode_len() > 0;
    Report { installer, outcome, loader_config }
}

/// Installs the generations within the limit of the settings, with the boot
/// loader, and prunes, as `Installer::install` does. `binary` is what was
/// read of the boot loader, if it could be read: where it could not, the
/// installation fails before anything is changed. The boot loader's
/// configuration is to be put in place if all went well and a configuration
/// is given. What the installation comes to is what `finish_install` gives
/// for what signing has come to.
pub fn run_install<S: Signer>(
    settings: &Settings,
    signer: &S,
    esp: Esp,
    template: Option<Vec<u8>>,
    binary: Option<Vec<u8>>,
    generations: Vec<Resolved>,
) -> (report: Report)
    requires
        esp.wf(),
    ensures
        report.installer.wf(),
        report.installer.esp.machine() == esp.machine(),
        report.installer.esp.origin() == esp.origin(),
        exists|signed: Seq<Result<Seq<u8>, Error>>, loader: Result<Seq<u8>, Error>| #[trigger]
            install_runs(
                esp@,
                esp.changes(),
                bytes_view(template),
                esp.machine(),
                settings.keeps_policies(),
                bytes_view(binary),
                retained(generations@, settings.configuration_limit as nat),
                signed,
                loader,
                report.outcome,
                report.installer.esp@,
                report.installer.esp.changes(),
            ),
        binary is Some && settled(
            esp@,
            bytes_view(template)->0,
            esp.machine(),
            retained(generations@, settings.configuration_limit as nat),
        ) && bootloader_settled(esp@, bytes_view(binary)) ==> policies_only(
            report.installer.esp.changes(),
            esp.changes().len() as int,
        ) && report.installer.esp@ == esp@,
        report.loader_config == (report.outcome is Ok && settings.configures_loader()),
{
    let ghost first = esp@;
    let ghost log = esp.changes();
    let ghost architecture = esp.machine();
    let ghost policy = settings.keeps_policies();
    let ghost source = bytes_view(template);
    let ghost loader_binary = bytes_view(binary);
    let ghost items = retained(generations@, settings.configuration_limit as nat);
    let mut installer = settings.installer(esp, template, binary);
    let outcome = if installer.bootloader.is_none() {
        let failure = Failure { error: Error::BootloaderUnavailable, generation: None };
        assert(install_runs(
            first,
            log,
            source,
            architecture,
            policy,
            loader_binary,
            items,
            Seq::empty(),
            Err(Error::BootloaderUnavailable),
            Err(failure),
            installer.esp@,
            installer.esp.changes(),
        ));
        Err(failure)
    } else {
        let outcome = installer.install(signer, generations);
        proof {
            let (signed, loader) = choose|
                signed: Seq<Result<Seq<u8>, Error>>,
                loader: Result<Seq<u8>, Error>,
            | #[trigger]
                installs(
                    first,
                    log,
                    source,
                    architecture,
                    policy,
                    loader_binary,
                    items,
                    signed,
                    loader,
                    outcome,
                    installer.esp@,
                    installer.esp.changes(),
                );
            assert(install_runs(
                first,
                log,
                source,
                architecture,
                policy,
                loader_binary,
                items,
                signed,
                loader,
                outcome,
                installer.esp@,
                installer.esp.changes(),
            ));
        }
        outcome
    };
    let loader_config = outcome.is_ok()
        && settings.systemd_boot_loader_config.as_str().unicode_len() > 0;
    Report { installer, outcome, loader_config }
}

/// Installs as `run_install` does, given what signing has come to: `signed`
/// holds, for each generation that stays installed, from the newest on, what
/// signing its stub has come to, and `loader` what signing the boot loader
/// has come to.
pub fn finish_install(
    settings: &Settings,
    esp: Esp,
    template: Option<Vec<u8>>,
    binary: Option<Vec<u8>>,
    generations: Vec<Resolved>,
    signed: Vec<Result<Vec<u8>, Error>>,
    loader: Result<Vec<u8>, Error>,
) -> (report: Report)
    requires
        esp.wf(),
    ensures
        report.installer.wf(),
        report.installer.esp.machine() == esp.machine(),
        report.installer.esp.origin() == esp.origin(),
        install_runs(
            esp@,
            esp.changes(),
            bytes_view(template),
            esp.machine(),
            settings.keeps_policies(),
            bytes_view(binary),
            retained(generations@, settings.configuration_limit as nat),
            signing_views(signed@),
            signing_view(loader),
            report.outcome,
            report.installer.esp@,
            report.installer.esp.changes(),
        ),
        report.loader_config == (report.outcome is Ok && settings.configures_loader()),
{
    let mut installer = settings.installer(esp, template, binary);
    let outcome = if installer.bootloader.is_none() {
        Err(Failure { error: Error::BootloaderUnavailable, generation: None })
    } else {
        installer.complete_install(generations, signed, loader)
    };
    let loader_config = outcome.is_ok()
        && settings.systemd_boot_loader_config.as_str().unicode_len() > 0;
    Report { installer, outcome, loader_config }
}

} // verus!

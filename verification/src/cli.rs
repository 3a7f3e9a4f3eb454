//! The commands of the command line, checked and turned into what the
//! installer is to do.

use crate::architecture::Architecture;
use crate::error::Error;
use crate::link::{link_version, link_version_of};
use vstd::prelude::*;
use vstd::string::StringExecFns;

verus! {

/// The log level in force when neither `quiet` nor `verbose` is given: the
/// level of informational messages.
pub const DEFAULT_LOG_LEVEL: usize = 2;

/// The command line as a whole.
pub struct Cli {
    /// Silence all output.
    pub quiet: bool,
    /// How often the verbose flag was given.
    pub verbose: u8,
    pub commands: Commands,
}

pub enum Commands {
    Build(BuildCommand),
    Install(InstallCommand),
}

/// Builds and signs the artifacts of one generation.
pub struct BuildCommand {
    /// Platform identifier; it decides, among others, the EFI fallback path.
    pub system: String,
    /// Where the boot loader's binaries are found.
    pub systemd: Option<String>,
    /// The boot loader's configuration file.
    pub systemd_boot_loader_config: Option<String>,
    /// Certificate to sign with.
    pub public_key: Option<String>,
    /// Private key to sign with.
    pub private_key: Option<String>,
    /// Mount point of the EFI system partition.
    pub esp: String,
    /// The generation to build.
    pub generation: String,
}

/// Installs a list of generations and prunes what falls out of the limit.
pub struct InstallCommand {
    /// Platform identifier; it decides, among others, the EFI fallback path.
    pub system: String,
    /// Where the boot loader's binaries are found.
    pub systemd: String,
    /// The boot loader's configuration file.
    pub systemd_boot_loader_config: String,
    /// Directory of the measurement policy.
    pub systemd_pcrlock: String,
    /// Certificate to sign with.
    pub public_key: Option<String>,
    /// Private key to sign with.
    pub private_key: Option<String>,
    /// How many generations stay installed.
    pub configuration_limit: usize,
    /// Mount point of the EFI system partition.
    pub esp: String,
    /// Links to the generations, such as `/nix/var/nix/profiles/system-*-link`.
    pub generations: Vec<String>,
}

/// What an installer is set up with, once the command line has been checked.
pub struct Settings {
    /// Location of the stub template.
    pub stub: String,
    pub architecture: Architecture,
    pub systemd: String,
    pub systemd_boot_loader_config: String,
    pub systemd_pcrlock: String,
    pub public_key: String,
    pub private_key: String,
    pub configuration_limit: usize,
    pub esp: String,
}

/// The link to a generation, with the version that its name carries.
pub struct Link {
    pub path: String,
    pub version: u64,
}

/// What is to be done with the installer.
pub enum Operation {
    /// Build one generation under the given version, and install the boot
    /// loader as well if `bootloader` is set.
    Build { generation: String, version: u64, bootloader: bool },
    /// Install the generations behind the links, within the limit.
    Install { generations: Vec<Link> },
}

/// A checked command: the installer's settings and the operation to run.
pub struct Invocation {
    pub settings: Settings,
    pub operation: Operation,
}

/// How the logger is to be set up.
pub struct Logging {
    pub module: String,
    pub show_level: bool,
    pub quiet: bool,
    pub verbosity: usize,
}

/// What a command line asks for: the logger's setup, and the checked command
/// or the reason why there is none.
pub struct Launch {
    pub logging: Logging,
    pub outcome: Result<Invocation, Error>,
}

/// The text of an optional path, empty where there is none.
pub open spec fn text_or_empty(path: Option<String>) -> Seq<char> {
    match path {
        Some(p) => p@,
        None => Seq::empty(),
    }
}

fn path_or_empty(path: Option<String>) -> (r: String)
    ensures
        r@ == text_or_empty(path),
{
    match path {
        Some(p) => p,
        None => String::new(),
    }
}

/// The first fault of a command's configuration, in the order in which the
/// values are looked at: the stub template's location, the certificate, the
/// private key, the platform identifier.
pub open spec fn rejection(
    stub: Option<String>,
    public_key: Option<String>,
    private_key: Option<String>,
    system: Seq<char>,
) -> Option<Error> {
    if stub is None {
        Some(Error::MissingStubTemplate)
    } else if public_key is None {
        Some(Error::MissingPublicKey)
    } else if private_key is None {
        Some(Error::MissingPrivateKey)
    } else if Architecture::resolve(system) is None {
        Some(Error::UnsupportedArchitecture)
    } else {
        None
    }
}

impl BuildCommand {
    /// Whether `plan` is what this command asks for, the stub template being at
    /// `stub`.
    pub open spec fn plans(self, stub: String, plan: Invocation) -> bool {
        &&& plan.settings.stub@ == stub@
        &&& Architecture::resolve(self.system@) == Some(plan.settings.architecture)
        &&& plan.settings.systemd@ == text_or_empty(self.systemd)
        &&& plan.settings.systemd_boot_loader_config@ == text_or_empty(
            self.systemd_boot_loader_config,
        )
        &&& plan.settings.systemd_pcrlock@ == Seq::<char>::empty()
        &&& self.public_key is Some && plan.settings.public_key@ == self.public_key->0@
        &&& self.private_key is Some && plan.settings.private_key@ == self.private_key->0@
        &&& plan.settings.configuration_limit == 1
        &&& plan.settings.esp@ == self.esp@
        &&& plan.operation matches Operation::Build { generation, version, bootloader }
        &&& generation@ == self.generation@
        &&& version == 1
        &&& bootloader == (self.systemd is Some)
    }
}

/// Whether each of the links carries a version in its name.
pub open spec fn versioned(links: Seq<String>) -> bool {
    forall|i: int| 0 <= i < links.len() ==> link_version_of((#[trigger] links[i])@) is Some
}

/// Whether `read` holds the links with the versions that their names carry.
pub open spec fn read_links(links: Seq<String>, read: Seq<Link>) -> bool {
    &&& read.len() == links.len()
    &&& forall|i: int|
        0 <= i < links.len() ==> (#[trigger] read[i]).path@ == links[i]@ && link_version_of(
            links[i]@,
        ) == Some(read[i].version)
}

/// Reads the version of each link from its name.
pub fn versions_of(links: Vec<String>) -> (r: Result<Vec<Link>, Error>)
    ensures
        versioned(links@) ==> r is Ok && read_links(links@, r->Ok_0@),
        !versioned(links@) ==> r == Err::<Vec<Link>, Error>(Error::InvalidGenerationLink),
{
    let ghost all = links@;
    let mut rest = links;
    let mut read: Vec<Link> = Vec::new();
    while rest.len() > 0
        invariant
            all == links@,
            read@.len() + rest@.len() == all.len(),
            rest@ == all.skip(read@.len() as int),
            read_links(all.take(read@.len() as int), read@),
        decreases rest.len(),
    {
        let ghost at = read@.len() as int;
        let path = rest.remove(0);
        assert(path == all[at]);
        let found = link_version(path.as_str());
        match found {
            Some(version) => {
                read.push(Link { path, version });
            },
            None => {
                assert(link_version_of(all[at]@) is None);
                return Err(Error::InvalidGenerationLink);
            },
        }
        assert(rest@ =~= all.skip(at + 1));
    }
    assert(all.take(read@.len() as int) =~= all);
    assert forall|i: int| 0 <= i < all.len() implies link_version_of((#[trigger] all[i])@)
        is Some by {
        assert(read@[i].path@ == all[i]@);
    }
    Ok(read)
}

impl InstallCommand {
    /// The fault that keeps the command from running, if there is one: a
    /// fault of the configuration, or a link that carries no version.
    pub open spec fn rejected(self, stub: Option<String>) -> Option<Error> {
        match rejection(stub, self.public_key, self.private_key, self.system@) {
            Some(e) => Some(e),
            None => if versioned(self.generations@) {
                None
            } else {
                Some(Error::InvalidGenerationLink)
            },
        }
    }

    /// Whether `plan` is what this command asks for, the stub template being at
    /// `stub`.
    pub open spec fn plans(self, stub: String, plan: Invocation) -> bool {
        &&& plan.settings.stub@ == stub@
        &&& Architecture::resolve(self.system@) == Some(plan.settings.architecture)
        &&& plan.settings.systemd@ == self.systemd@
        &&& plan.settings.systemd_boot_loader_config@ == self.systemd_boot_loader_config@
        &&& plan.settings.systemd_pcrlock@ == self.systemd_pcrlock@
        &&& self.public_key is Some && plan.settings.public_key@ == self.public_key->0@
        &&& self.private_key is Some && plan.settings.private_key@ == self.private_key->0@
        &&& plan.settings.configuration_limit == self.configuration_limit
        &&& plan.settings.esp@ == self.esp@
        &&& plan.operation matches Operation::Install { generations }
        &&& read_links(self.generations@, generations@)
    }
}

/// Checks a build command against the location of the stub template, which
/// the environment supplies, and plans the build of its generation as
/// version 1, with a limit of one generation. The boot loader is installed
/// too exactly if its location was given.
pub fn build(args: BuildCommand, stub: Option<String>) -> (r: Result<Invocation, Error>)
    ensures
        match rejection(stub, args.public_key, args.private_key, args.system@) {
            Some(e) => r == Err::<Invocation, Error>(e),
            None => r is Ok && args.plans(stub->0, r->Ok_0),
        },
{
    let stub = match stub {
        Some(s) => s,
        None => { return Err(Error::MissingStubTemplate); },
    };
    let public_key = match args.public_key {
        Some(k) => k,
        None => { return Err(Error::MissingPublicKey); },
    };
    let private_key = match args.private_key {
        Some(k) => k,
        None => { return Err(Error::MissingPrivateKey); },
    };
    let architecture = match Architecture::from_nixos_system(args.system.as_str()) {
        Ok(a) => a,
        Err(e) => { return Err(e); },
    };
    let bootloader = args.systemd.is_some();
    Ok(
        Invocation {
            settings: Settings {
                stub,
                architecture,
                systemd: path_or_empty(args.systemd),
                systemd_boot_loader_config: path_or_empty(args.systemd_boot_loader_config),
                systemd_pcrlock: String::new(),
                public_key,
                private_key,
                configuration_limit: 1,
                esp: args.esp,
            },
            operation: Operation::Build { generation: args.generation, version: 1, bootloader },
        },
    )
}

/// Checks an install command against the location of the stub template, which
/// the environment supplies, and plans the installation of its generations,
/// each under the version that the name of its link carries.
pub fn install(args: InstallCommand, stub: Option<String>) -> (r: Result<Invocation, Error>)
    ensures
        match args.rejected(stub) {
            Some(e) => r == Err::<Invocation, Error>(e),
            None => r is Ok && args.plans(stub->0, r->Ok_0),
        },
{
    let stub = match stub {
        Some(s) => s,
        None => { return Err(Error::MissingStubTemplate); },
    };
    let public_key = match args.public_key {
        Some(k) => k,
        None => { return Err(Error::MissingPublicKey); },
    };
    let private_key = match args.private_key {
        Some(k) => k,
        None => { return Err(Error::MissingPrivateKey); },
    };
    let architecture = match Architecture::from_nixos_system(args.system.as_str()) {
        Ok(a) => a,
        Err(e) => { return Err(e); },
    };
    let generations = match versions_of(args.generations) {
        Ok(read) => read,
        Err(e) => { return Err(e); },
    };
    Ok(
        Invocation {
            settings: Settings {
                stub,
                architecture,
                systemd: args.systemd,
                systemd_boot_loader_config: args.systemd_boot_loader_config,
                systemd_pcrlock: args.systemd_pcrlock,
                public_key,
                private_key,
                configuration_limit: args.configuration_limit,
                esp: args.esp,
            },
            operation: Operation::Install { generations },
        },
    )
}

impl Commands {
    /// The fault that keeps the command from running, if there is one.
    pub open spec fn rejected(self, stub: Option<String>) -> Option<Error> {
        match self {
            Commands::Build(args) => rejection(
                stub,
                args.public_key,
                args.private_key,
                args.system@,
            ),
            Commands::Install(args) => args.rejected(stub),
        }
    }

    /// Whether `plan` is what the command asks for.
    pub open spec fn plans(self, stub: String, plan: Invocation) -> bool {
        match self {
            Commands::Build(args) => args.plans(stub, plan),
            Commands::Install(args) => args.plans(stub, plan),
        }
    }

    /// Checks the command and plans it; `stub` is the location of the stub
    /// template as the environment supplies it.
    pub fn call(self, stub: Option<String>) -> (r: Result<Invocation, Error>)
        ensures
            match self.rejected(stub) {
                Some(e) => r == Err::<Invocation, Error>(e),
                None => r is Ok && self.plans(stub->0, r->Ok_0),
            },
    {
        match self {
            Commands::Build(args) => build(args, stub),
            Commands::Install(args) => install(args, stub),
        }
    }
}

impl Cli {
    /// The logger's verbosity: each verbose flag raises it by one from the
    /// default level.
    pub open spec fn verbosity(self) -> int {
        DEFAULT_LOG_LEVEL + self.verbose
    }

    /// Settles how the logger is set up for `module`, and checks and plans the
    /// command.
    pub fn call(self, module: &str, stub: Option<String>) -> (launch: Launch)
        ensures
            launch.logging.module@ == module@,
            !launch.logging.show_level,
            launch.logging.quiet == self.quiet,
            launch.logging.verbosity == self.verbosity(),
            match self.commands.rejected(stub) {
                Some(e) => launch.outcome == Err::<Invocation, Error>(e),
                None => launch.outcome is Ok && self.commands.plans(stub->0, launch.outcome->Ok_0),
            },
    {
        let level: usize = self.verbose.into();
        let logging = Logging {
            module: String::from_str(module),
            show_level: false,
            quiet: self.quiet,
            verbosity: DEFAULT_LOG_LEVEL + level,
        };
        Launch { logging, outcome: self.commands.call(stub) }
    }
}

impl Launch {
    /// The status with which the process ends if the command cannot run, and
    /// with which it ends after a command that ran without fault.
    pub fn exit_code(&self) -> (code: i32)
        ensures
            code == if self.outcome is Err { 1i32 } else { 0i32 },
    {
        match &self.outcome {
            Ok(_) => 0,
            Err(_) => 1,
        }
    }
}

} // verus!

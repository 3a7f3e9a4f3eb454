//! The machine types for which boot artifacts are made.

use crate::error::Error;
use vstd::prelude::*;
use vstd::string::StringExecFns;

verus! {

/// A machine type for which boot artifacts can be produced.
#[derive(Clone, Copy, Debug, PartialEq, Eq, Structural)]
pub enum Architecture {
    X86,
    AArch64,
}

impl Architecture {
    /// The architecture that a platform identifier names, if it names one.
    pub open spec fn resolve(system: Seq<char>) -> Option<Architecture> {
        if system == "x86_64-linux"@ {
            Some(Architecture::X86)
        } else if system == "aarch64-linux"@ {
            Some(Architecture::AArch64)
        } else {
            None
        }
    }

    /// The tag by which EFI file names refer to the machine type.
    pub open spec fn tag(self) -> Seq<char> {
        match self {
            Architecture::X86 => "x64"@,
            Architecture::AArch64 => "aa64"@,
        }
    }

    /// The name under which the firmware looks for a boot loader when nothing
    /// else is configured.
    pub open spec fn fallback_filename(self) -> Seq<char> {
        match self {
            Architecture::X86 => "BOOTX64.EFI"@,
            Architecture::AArch64 => "BOOTAA64.EFI"@,
        }
    }

    /// Resolves a platform identifier such as `x86_64-linux`.
    pub fn from_nixos_system(system: &str) -> (r: Result<Architecture, Error>)
        ensures
            r == match Self::resolve(system@) {
                Some(a) => Ok::<Architecture, Error>(a),
                None => Err(Error::UnsupportedArchitecture),
            },
    {
        let given = String::from_str(system);
        if given == String::from_str("x86_64-linux") {
            Ok(Architecture::X86)
        } else if given == String::from_str("aarch64-linux") {
            Ok(Architecture::AArch64)
        } else {
            Err(Error::UnsupportedArchitecture)
        }
    }

    /// The tag of the machine type, as it stands in the names of EFI files.
    pub fn efi_representation(&self) -> (s: &'static str)
        ensures
            s@ == self.tag(),
    {
        match self {
            Architecture::X86 => "x64",
            Architecture::AArch64 => "aa64",
        }
    }

    /// The name of the file that the firmware starts when nothing else is
    /// configured.
    pub fn efi_fallback_filename(&self) -> (s: &'static str)
        ensures
            s@ == self.fallback_filename(),
    {
        match self {
            Architecture::X86 => "BOOTX64.EFI",
            Architecture::AArch64 => "BOOTAA64.EFI",
        }
    }
}

} // verus!

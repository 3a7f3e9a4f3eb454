//! The failures of the installer.

use vstd::prelude::*;
use vstd::string::StringExecFns;

verus! {

/// Why an operation of the installer failed.
#[derive(Clone, Copy, Debug, PartialEq, Eq, Structural)]
pub enum Error {
    /// The location of the stub template was not configured.
    MissingStubTemplate,
    /// No public certificate was supplied.
    MissingPublicKey,
    /// No private key was supplied.
    MissingPrivateKey,
    /// The platform identifier names no supported architecture.
    UnsupportedArchitecture,
    /// The name of a link to a generation carries no version.
    InvalidGenerationLink,
    /// The certificate or the private key could not be read when signing.
    CredentialUnavailable,
    /// The signer rejected its input or failed.
    SigningFailed,
    /// The stub template could not be located.
    TemplateUnavailable,
    /// The template is malformed, or what was to be embedded is too large.
    StubConstructionFailed,
    /// No space is left on the system partition.
    StorageFull,
    /// The system partition refused the operation.
    PermissionDenied,
    /// Writing to the system partition failed for another reason.
    WriteFailed,
    /// The boot loader's binary could not be read.
    BootloaderUnavailable,
}

/// A failure of an installation, with the version of the generation that it
/// befell; a failure of installing the boot loader names no generation.
#[derive(Clone, Copy, Debug, PartialEq, Eq, Structural)]
pub struct Failure {
    pub error: Error,
    pub generation: Option<u64>,
}

impl Error {
    /// Whether the error is one of configuration: it is found before anything
    /// is written.
    pub open spec fn is_configuration(self) -> bool {
        self == Error::MissingStubTemplate || self == Error::MissingPublicKey || self
            == Error::MissingPrivateKey || self == Error::UnsupportedArchitecture || self
            == Error::InvalidGenerationLink
    }

    /// The failure that the operating system's error number of a failed write
    /// stands for: no space or quota left (28, 122), no permission or a
    /// read-only file system (1, 13, 30), or any other failure, also one
    /// without a number.
    pub open spec fn of_os_error(code: Option<i32>) -> Error {
        if code == Some(28i32) || code == Some(122i32) {
            Error::StorageFull
        } else if code == Some(1i32) || code == Some(13i32) || code == Some(30i32) {
            Error::PermissionDenied
        } else {
            Error::WriteFailed
        }
    }

    /// Names the failure of a write by the operating system's error number.
    pub fn from_os_error(code: Option<i32>) -> (e: Error)
        ensures
            e == Self::of_os_error(code),
    {
        match code {
            Some(28) => Error::StorageFull,
            Some(122) => Error::StorageFull,
            Some(1) => Error::PermissionDenied,
            Some(13) => Error::PermissionDenied,
            Some(30) => Error::PermissionDenied,
            _ => Error::WriteFailed,
        }
    }

    /// What is said of the failure to the user.
    pub open spec fn message(self) -> Seq<char> {
        match self {
            Error::MissingStubTemplate => "Failed to read LANZABOOTE_STUB env variable"@,
            Error::MissingPublicKey => "Failed to obtain public key"@,
            Error::MissingPrivateKey => "Failed to obtain private key"@,
            Error::UnsupportedArchitecture => "Unsupported system"@,
            Error::InvalidGenerationLink => "Failed to read the version of a generation link"@,
            Error::CredentialUnavailable => "Failed to read the signing credentials"@,
            Error::SigningFailed => "Failed to sign"@,
            Error::TemplateUnavailable => "Failed to find the stub template"@,
            Error::StubConstructionFailed => "Failed to build the stub"@,
            Error::StorageFull => "No space left on the system partition"@,
            Error::PermissionDenied => "Permission denied on the system partition"@,
            Error::WriteFailed => "Failed to write to the system partition"@,
            Error::BootloaderUnavailable => "Failed to read the boot loader"@,
        }
    }

    /// Writes out `message`.
    pub fn describe(&self) -> (text: String)
        ensures
            text@ == self.message(),
    {
        match self {
            Error::MissingStubTemplate => String::from_str(
                "Failed to read LANZABOOTE_STUB env variable",
            ),
            Error::MissingPublicKey => String::from_str("Failed to obtain public key"),
            Error::MissingPrivateKey => String::from_str("Failed to obtain private key"),
            Error::UnsupportedArchitecture => String::from_str("Unsupported system"),
            Error::InvalidGenerationLink => String::from_str(
                "Failed to read the version of a generation link",
            ),
            Error::CredentialUnavailable => String::from_str(
                "Failed to read the signing credentials",
            ),
            Error::SigningFailed => String::from_str("Failed to sign"),
            Error::TemplateUnavailable => String::from_str("Failed to find the stub template"),
            Error::StubConstructionFailed => String::from_str("Failed to build the stub"),
            Error::StorageFull => String::from_str("No space left on the system partition"),
            Error::PermissionDenied => String::from_str(
                "Permission denied on the system partition",
            ),
            Error::WriteFailed => String::from_str("Failed to write to the system partition"),
            Error::BootloaderUnavailable => String::from_str("Failed to read the boot loader"),
        }
    }

    /// Decides `is_configuration`.
    pub fn configuration(&self) -> (b: bool)
        ensures
            b == self.is_configuration(),
    {
        match self {
            Error::MissingStubTemplate => true,
            Error::MissingPublicKey => true,
            Error::MissingPrivateKey => true,
            Error::UnsupportedArchitecture => true,
            Error::InvalidGenerationLink => true,
            _ => false,
        }
    }
}

} // verus!

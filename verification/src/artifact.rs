//! The artifacts on the system partition and where they lie.

use crate::architecture::Architecture;
use crate::digest::{hex, to_hex};
use vstd::prelude::*;
use vstd::string::StringExecFns;

verus! {

/// What an artifact on the system partition is.
#[derive(Clone, Copy, Debug, PartialEq, Eq, Structural)]
pub enum ArtifactKind {
    Kernel,
    Initrd,
    Stub,
    Bootloader,
}

/// Where an artifact lies, from the root of the system partition. A kernel,
/// an initrd and a stub lie under a name made of their digest; the boot
/// loader lies where the firmware of the architecture looks for it.
#[verifier::opaque]
pub open spec fn artifact_path(
    kind: ArtifactKind,
    architecture: Architecture,
    digest: Seq<u8>,
) -> Seq<char> {
    match kind {
        ArtifactKind::Kernel => "EFI/nixos/kernel-"@ + hex(digest) + ".efi"@,
        ArtifactKind::Initrd => "EFI/nixos/initrd-"@ + hex(digest) + ".efi"@,
        ArtifactKind::Stub => "EFI/Linux/nixos-"@ + hex(digest) + ".efi"@,
        ArtifactKind::Bootloader => "EFI/BOOT/"@ + architecture.fallback_filename(),
    }
}

/// The path of a kernel, an initrd or a stub is as long as its digest in
/// hexadecimal and at most 21 characters more.
pub proof fn lemma_path_size(kind: ArtifactKind, architecture: Architecture, digest: Seq<u8>)
    requires
        kind != ArtifactKind::Bootloader,
    ensures
        artifact_path(kind, architecture, digest).len() <= 2 * digest.len() + 21,
{
    reveal(artifact_path);
    reveal_strlit("EFI/nixos/kernel-");
    reveal_strlit("EFI/nixos/initrd-");
    reveal_strlit("EFI/Linux/nixos-");
    reveal_strlit(".efi");
}

/// Computes `artifact_path`.
pub fn path_of(kind: ArtifactKind, architecture: Architecture, digest: &Vec<u8>) -> (path: String)
    ensures
        path@ == artifact_path(kind, architecture, digest@),
{
    reveal(artifact_path);
    match kind {
        ArtifactKind::Kernel => {
            let mut path = String::from_str("EFI/nixos/kernel-");
            path.append(to_hex(digest).as_str());
            path.append(".efi");
            path
        },
        ArtifactKind::Initrd => {
            let mut path = String::from_str("EFI/nixos/initrd-");
            path.append(to_hex(digest).as_str());
            path.append(".efi");
            path
        },
        ArtifactKind::Stub => {
            let mut path = String::from_str("EFI/Linux/nixos-");
            path.append(to_hex(digest).as_str());
            path.append(".efi");
            path
        },
        ArtifactKind::Bootloader => {
            let mut path = String::from_str("EFI/BOOT/");
            path.append(architecture.efi_fallback_filename());
            path
        },
    }
}

/// An artifact as it lies on the system partition.
pub struct InstalledArtifact {
    pub kind: ArtifactKind,
    /// Digest of the content by which the artifact is known.
    pub hash: Vec<u8>,
    /// Where it lies, from the root of the system partition.
    pub path: String,
}

} // verus!

//! The unsigned stub: the template and what is embedded behind it.

use crate::architecture::Architecture;
use crate::error::Error;
use crate::digest::bytes_view;
use crate::entry_file::{is_one_line, one_line};
use crate::generation::{join, joined, Resolved, ResolvedView};
use vstd::bytes::{spec_u32_to_le_bytes, spec_u64_to_le_bytes, u32_to_le_bytes, u64_to_le_bytes};
use vstd::prelude::*;
use vstd::string::StrSliceExecFns;
use vstd::utf8::encode_utf8;

verus! {

/// The number that two bytes from `at` on stand for, the low byte first.
pub open spec fn le16(bytes: Seq<u8>, at: int) -> int {
    bytes[at] + 256 * bytes[at + 1]
}

/// The number that four bytes from `at` on stand for, the lowest byte first.
pub open spec fn le32(bytes: Seq<u8>, at: int) -> int {
    bytes[at] + 256 * bytes[at + 1] + 65536 * bytes[at + 2] + 16777216 * bytes[at + 3]
}

/// The machine type that the header of an EFI executable carries for an
/// architecture.
pub open spec fn machine_type(architecture: Architecture) -> int {
    match architecture {
        Architecture::X86 => 0x8664,
        Architecture::AArch64 => 0xaa64,
    }
}

/// Whether a template is an EFI executable for the architecture, as far as
/// its headers tell: it starts with `MZ`, the four bytes at 60 give the place
/// of the signature `PE\0\0`, and the machine type behind the signature is
/// that of the architecture.
pub open spec fn template_fits(template: Seq<u8>, architecture: Architecture) -> bool {
    &&& template.len() >= 64
    &&& template[0] == 0x4d
    &&& template[1] == 0x5a
    &&& le32(template, 60) + 6 <= template.len()
    &&& template[le32(template, 60)] == 0x50
    &&& template[le32(template, 60) + 1] == 0x45
    &&& template[le32(template, 60) + 2] == 0
    &&& template[le32(template, 60) + 3] == 0
    &&& le16(template, le32(template, 60) + 4) == machine_type(architecture)
}

/// Decides `template_fits`.
pub fn check_template(template: &Vec<u8>, architecture: Architecture) -> (fits: bool)
    ensures
        fits == template_fits(template@, architecture),
{
    if template.len() < 64 || template[0] != 0x4d || template[1] != 0x5a {
        return false;
    }
    let header: u64 = template[60] as u64 + 256 * (template[61] as u64) + 65536 * (
    template[62] as u64) + 16777216 * (template[63] as u64);
    if header + 6 > template.len() as u64 {
        return false;
    }
    let at: usize = header as usize;
    if template[at] != 0x50 || template[at + 1] != 0x45 || template[at + 2] != 0 || template[at
        + 3] != 0 {
        return false;
    }
    let machine: u32 = template[at + 4] as u32 + 256 * (template[at + 5] as u32);
    match architecture {
        Architecture::X86 => machine == 0x8664,
        Architecture::AArch64 => machine == 0xaa64,
    }
}

/// The largest size of one embedded value.
pub const EMBEDDING_LIMIT: usize = 0xffff_ffff;

/// A value as it is embedded: its length in four bytes, the lowest first,
/// and the value behind it.
pub open spec fn framed(data: Seq<u8>) -> Seq<u8> {
    spec_u32_to_le_bytes(data.len() as u32) + data
}

/// What a stub carries behind its template: the version of the generation in
/// eight bytes, the lowest first, then the identification of the operating
/// system, the command line, the path of the kernel and the path of the
/// initrd, each framed.
pub open spec fn embedded(
    version: u64,
    os_release: Seq<u8>,
    cmdline: Seq<char>,
    kernel: Seq<char>,
    initrd: Seq<char>,
) -> Seq<u8> {
    spec_u64_to_le_bytes(version) + framed(os_release) + framed(encode_utf8(cmdline)) + framed(
        encode_utf8(kernel),
    ) + framed(encode_utf8(initrd))
}

/// A unified boot image before it is signed.
pub struct UnsignedStub {
    /// The image: the template, and behind it what is embedded.
    pub bytes: Vec<u8>,
    /// The kernel's command line, as embedded.
    pub cmdline: String,
    /// Path of the kernel on the system partition, as embedded.
    pub kernel: String,
    /// Path of the initrd on the system partition, as embedded.
    pub initrd: String,
    /// Identification of the operating system, as embedded.
    pub os_release: Vec<u8>,
}

/// An unsigned stub as a mathematical value.
pub struct UnsignedStubView {
    pub bytes: Seq<u8>,
    pub cmdline: Seq<char>,
    pub kernel: Seq<char>,
    pub initrd: Seq<char>,
    pub os_release: Seq<u8>,
}

impl View for UnsignedStub {
    type V = UnsignedStubView;

    open spec fn view(&self) -> UnsignedStubView {
        UnsignedStubView {
            bytes: self.bytes@,
            cmdline: self.cmdline@,
            kernel: self.kernel@,
            initrd: self.initrd@,
            os_release: self.os_release@,
        }
    }
}

/// The stub of a generation whose kernel and initrd lie at the given paths
/// of the system partition.
#[verifier::opaque]
pub open spec fn stub_of(
    template: Seq<u8>,
    generation: ResolvedView,
    kernel: Seq<char>,
    initrd: Seq<char>,
) -> UnsignedStubView {
    UnsignedStubView {
        bytes: template + embedded(
            generation.generation.version,
            generation.os_release,
            joined(generation.generation.cmdline),
            kernel,
            initrd,
        ),
        cmdline: joined(generation.generation.cmdline),
        kernel,
        initrd,
        os_release: generation.os_release,
    }
}

/// Why no stub of a generation can be built, wherever its kernel and its
/// initrd lie, if none can: the template is not at hand; or it is no
/// executable for the architecture, the command line holds an end of line,
/// or the command line or the identification of the operating system is
/// larger than `EMBEDDING_LIMIT`.
#[verifier::opaque]
pub open spec fn stub_defect(
    template: Option<Seq<u8>>,
    architecture: Architecture,
    generation: ResolvedView,
) -> Option<Error> {
    if template is None {
        Some(Error::TemplateUnavailable)
    } else if !template_fits(template->0, architecture) || !one_line(
        joined(generation.generation.cmdline),
    ) || generation.os_release.len() > EMBEDDING_LIMIT || encode_utf8(
        joined(generation.generation.cmdline),
    ).len() > EMBEDDING_LIMIT {
        Some(Error::StubConstructionFailed)
    } else {
        None
    }
}

/// Why no stub can be built, if none can: the generation or the template has
/// a defect, or the path of the kernel or of the initrd is larger than
/// `EMBEDDING_LIMIT`.
#[verifier::opaque]
pub open spec fn stub_fault(
    template: Option<Seq<u8>>,
    architecture: Architecture,
    generation: ResolvedView,
    kernel: Seq<char>,
    initrd: Seq<char>,
) -> Option<Error> {
    match stub_defect(template, architecture, generation) {
        Some(e) => Some(e),
        None => if encode_utf8(kernel).len() > EMBEDDING_LIMIT || encode_utf8(initrd).len()
            > EMBEDDING_LIMIT {
            Some(Error::StubConstructionFailed)
        } else {
            None
        },
    }
}

/// A text takes at most four bytes to the character.
pub proof fn lemma_encoded_size(text: Seq<char>)
    ensures
        encode_utf8(text).len() <= 4 * text.len(),
    decreases text.len(),
{
    if text.len() > 0 {
        lemma_encoded_size(text.drop_first());
    }
}

/// With paths of at most a thousand characters, a stub can be built unless
/// the generation or the template has a defect.
pub proof fn lemma_short_paths(
    template: Option<Seq<u8>>,
    architecture: Architecture,
    generation: ResolvedView,
    kernel: Seq<char>,
    initrd: Seq<char>,
)
    requires
        kernel.len() <= 1000,
        initrd.len() <= 1000,
    ensures
        stub_fault(template, architecture, generation, kernel, initrd) == stub_defect(
            template,
            architecture,
            generation,
        ),
{
    reveal(stub_fault);
    lemma_encoded_size(kernel);
    lemma_encoded_size(initrd);
}

/// Appends a value, framed, to an image.
fn embed(image: &mut Vec<u8>, data: &Vec<u8>)
    requires
        data.len() <= EMBEDDING_LIMIT,
    ensures
        final(image)@ == old(image)@ + framed(data@),
{
    let length: u32 = data.len() as u32;
    let mut head = u32_to_le_bytes(length);
    image.append(&mut head);
    image.extend_from_slice(data.as_slice());
    assert(image@ =~= old(image)@ + framed(data@));
}

impl UnsignedStub {
    /// Builds the stub of a generation from the template, for a kernel and an
    /// initrd that lie at the given paths of the system partition. The same
    /// arguments give the same stub, byte for byte.
    pub fn build(
        template: &Option<Vec<u8>>,
        architecture: Architecture,
        generation: &Resolved,
        kernel: &String,
        initrd: &String,
    ) -> (r: Result<UnsignedStub, Error>)
        ensures
            match stub_fault(bytes_view(*template), architecture, generation@, kernel@, initrd@) {
                Some(e) => r == Err::<UnsignedStub, Error>(e),
                None => r is Ok && r->Ok_0@ == stub_of(
                    template->0@,
                    generation@,
                    kernel@,
                    initrd@,
                ),
            },
    {
        reveal(stub_of);
        reveal(stub_fault);
        reveal(stub_defect);
        let template = match template {
            Some(t) => t,
            None => { return Err(Error::TemplateUnavailable); },
        };
        if !check_template(template, architecture) {
            return Err(Error::StubConstructionFailed);
        }
        let cmdline = join(&generation.generation.cmdline);
        if !is_one_line(cmdline.as_str()) {
            return Err(Error::StubConstructionFailed);
        }
        let cmdline_bytes = cmdline.as_str().as_bytes_vec();
        let kernel_bytes = kernel.as_str().as_bytes_vec();
        let initrd_bytes = initrd.as_str().as_bytes_vec();
        if generation.os_release.len() > EMBEDDING_LIMIT || cmdline_bytes.len() > EMBEDDING_LIMIT
            || kernel_bytes.len() > EMBEDDING_LIMIT || initrd_bytes.len() > EMBEDDING_LIMIT {
            return Err(Error::StubConstructionFailed);
        }
        let mut bytes = template.clone();
        assert(bytes@ =~= template@);
        let mut version = u64_to_le_bytes(generation.generation.version);
        bytes.append(&mut version);
        embed(&mut bytes, &generation.os_release);
        embed(&mut bytes, &cmdline_bytes);
        embed(&mut bytes, &kernel_bytes);
        embed(&mut bytes, &initrd_bytes);
        let os_release = generation.os_release.clone();
        assert(os_release@ =~= generation.os_release@);
        assert(bytes@ =~= stub_of(template@, generation@, kernel@, initrd@).bytes);
        Ok(
            UnsignedStub {
                bytes,
                cmdline,
                kernel: kernel.clone(),
                initrd: initrd.clone(),
                os_release,
            },
        )
    }
}

} // verus!

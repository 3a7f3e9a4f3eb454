//! The boot loader's entries, and the changes of a journal.

use crate::digest::{digit, hex_digit};
use crate::generation::{join, joined, Resolved, ResolvedView};
use crate::state::{EntryView, OpView};
use vstd::prelude::*;
use vstd::string::StringExecFns;

verus! {

/// A number in decimal digits.
pub open spec fn decimal(n: nat) -> Seq<char>
    decreases n,
{
    if n < 10 {
        seq![hex_digit(n as int)]
    } else {
        decimal(n / 10).push(hex_digit((n % 10) as int))
    }
}

/// Writes a number in decimal digits.
pub fn to_decimal(n: u64) -> (text: String)
    ensures
        text@ == decimal(n as nat),
    decreases n,
{
    if n < 10 {
        String::from_str(digit(n as u8))
    } else {
        let mut text = to_decimal(n / 10);
        text.append(digit((n % 10) as u8));
        assert(text@ =~= decimal(n as nat));
        text
    }
}

/// The entry of a generation whose artifacts lie at the given paths: its title
/// names the version, its options are the command line, and all entries share
/// one sort key, so that the boot loader orders them by version.
#[verifier::opaque]
pub open spec fn entry_of(
    generation: ResolvedView,
    stub: Seq<char>,
    kernel: Seq<char>,
    initrd: Seq<char>,
) -> EntryView {
    EntryView {
        version: generation.generation.version,
        title: "Generation "@ + decimal(generation.generation.version as nat),
        sort_key: "nixos"@,
        stub,
        kernel,
        initrd,
        options: joined(generation.generation.cmdline),
    }
}

/// The boot loader's menu entry of one generation.
pub struct LoaderEntry {
    /// Version of the generation.
    pub version: u64,
    pub title: String,
    /// What the boot loader orders its menu by.
    pub sort_key: String,
    /// Where the signed stub lies on the system partition.
    pub stub: String,
    /// Where the kernel that the stub loads lies on the system partition.
    pub kernel: String,
    /// Where the initrd that the stub loads lies on the system partition.
    pub initrd: String,
    /// The kernel's command line.
    pub options: String,
}

impl View for LoaderEntry {
    type V = EntryView;

    open spec fn view(&self) -> EntryView {
        EntryView {
            version: self.version,
            title: self.title@,
            sort_key: self.sort_key@,
            stub: self.stub@,
            kernel: self.kernel@,
            initrd: self.initrd@,
            options: self.options@,
        }
    }
}

impl LoaderEntry {
    /// Makes the entry of a generation whose artifacts lie at the given paths.
    pub fn for_generation(
        generation: &Resolved,
        stub: String,
        kernel: String,
        initrd: String,
    ) -> (entry: LoaderEntry)
        ensures
            entry@ == entry_of(generation@, stub@, kernel@, initrd@),
    {
        reveal(entry_of);
        let mut title = String::from_str("Generation ");
        title.append(to_decimal(generation.generation.version).as_str());
        LoaderEntry {
            version: generation.generation.version,
            title,
            sort_key: String::from_str("nixos"),
            stub,
            kernel,
            initrd,
            options: join(&generation.generation.cmdline),
        }
    }

    /// Whether two entries say the same.
    pub fn same(&self, other: &LoaderEntry) -> (b: bool)
        ensures
            b == (self@ == other@),
    {
        self.version == other.version && self.title == other.title && self.sort_key
            == other.sort_key && self.stub == other.stub && self.kernel == other.kernel
            && self.initrd == other.initrd && self.options == other.options
    }

    /// Whether the entry needs the artifact at `path`.
    pub fn needs(&self, path: &String) -> (b: bool)
        ensures
            b == self@.needs(path@),
    {
        self.stub == *path || self.kernel == *path || self.initrd == *path
    }

    /// A copy of the entry.
    pub fn duplicate(&self) -> (copy: LoaderEntry)
        ensures
            copy@ == self@,
    {
        LoaderEntry {
            version: self.version,
            title: self.title.clone(),
            sort_key: self.sort_key.clone(),
            stub: self.stub.clone(),
            kernel: self.kernel.clone(),
            initrd: self.initrd.clone(),
            options: self.options.clone(),
        }
    }
}

/// One change to carry out on the system partition. Each is to be carried
/// out as a whole or not at all: a file is written beside its place and moved
/// there once it is complete and durable.
pub enum Op {
    /// Put an artifact in place.
    Write { path: String, content: Vec<u8> },
    /// Delete an artifact.
    Remove { path: String },
    /// Create or replace the entry of a generation.
    WriteEntry { entry: LoaderEntry },
    /// Delete the entry of a generation.
    RemoveEntry { version: u64 },
    /// Put the boot loader in place, or replace it.
    WriteBootloader { path: String, digest: Vec<u8>, content: Vec<u8> },
    /// Have the measurement policy of a generation produced anew.
    RefreshPolicy { version: u64, stub: String },
}

impl View for Op {
    type V = OpView;

    open spec fn view(&self) -> OpView {
        match *self {
            Op::Write { path, content } => OpView::Write { path: path@, content: content@ },
            Op::Remove { path } => OpView::Remove { path: path@ },
            Op::WriteEntry { entry } => OpView::WriteEntry { entry: entry@ },
            Op::RemoveEntry { version } => OpView::RemoveEntry { version },
            Op::WriteBootloader { path, digest, content } => OpView::WriteBootloader {
                path: path@,
                digest: digest@,
                content: content@,
            },
            Op::RefreshPolicy { version, stub } => OpView::RefreshPolicy { version, stub: stub@ },
        }
    }
}

} // verus!

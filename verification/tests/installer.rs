use lzbt_systemd::architecture::Architecture;
use lzbt_systemd::entry::{LoaderEntry, Op};
use lzbt_systemd::error::{Error, Failure};
use lzbt_systemd::esp::Esp;
use lzbt_systemd::generation::{Generation, Resolved};
use lzbt_systemd::installer::{Installer, Signer};
use std::collections::{BTreeMap, BTreeSet};

/// Signs by putting a mark behind the image, and fails on images that hold
/// the bytes it was told to refuse.
struct MarkingSigner {
    refuse: Option<Vec<u8>>,
}

impl Signer for MarkingSigner {
    fn sign(&self, image: &Vec<u8>) -> Result<Vec<u8>, Error> {
        if let Some(needle) = &self.refuse {
            if image.windows(needle.len()).any(|w| w == needle.as_slice()) {
                return Err(Error::SigningFailed);
            }
        }
        let mut signed = image.clone();
        signed.extend_from_slice(b"SIGNED");
        Ok(signed)
    }
}

/// Has no credentials.
struct LockedSigner;

impl Signer for LockedSigner {
    fn sign(&self, _image: &Vec<u8>) -> Result<Vec<u8>, Error> {
        Err(Error::CredentialUnavailable)
    }
}

fn signer() -> MarkingSigner {
    MarkingSigner { refuse: None }
}

fn template() -> Vec<u8> {
    let mut bytes = vec![0u8; 64];
    bytes[0] = b'M';
    bytes[1] = b'Z';
    bytes[60] = 64;
    bytes.extend_from_slice(b"PE\0\0");
    bytes.extend_from_slice(&[0x64, 0x86]);
    bytes
}

fn generation(version: u64, kernel: &[u8], initrd: &[u8], cmdline: &str) -> Resolved {
    Resolved {
        generation: Generation {
            version,
            toplevel: String::from("/nix/store/toplevel"),
            kernel: String::from("/nix/store/toplevel/kernel"),
            initrd: String::from("/nix/store/toplevel/initrd"),
            cmdline: vec![String::from(cmdline)],
            specialisations: Vec::new(),
        },
        kernel: kernel.to_vec(),
        initrd: initrd.to_vec(),
        os_release: b"ID=nixos\n".to_vec(),
    }
}

fn installer(limit: usize) -> Installer {
    Installer::new(
        Esp::new(Architecture::X86, Vec::new(), Vec::new(), None),
        Some(template()),
        None,
        limit,
        false,
    )
}

fn with_bootloader(binary: &[u8], installed: Option<Vec<u8>>) -> Installer {
    Installer::new(
        Esp::new(Architecture::X86, Vec::new(), Vec::new(), installed),
        Some(template()),
        Some(binary.to_vec()),
        2,
        false,
    )
}

fn count_files(installer: &Installer, directory: &str) -> usize {
    let prefix = format!("{}/", directory);
    installer.esp.artifacts().iter().filter(|path| path.starts_with(&prefix)).count()
}

fn entry_versions(installer: &Installer) -> Vec<u64> {
    let mut versions: Vec<u64> =
        installer.esp.entries().iter().map(|entry| entry.version).collect();
    versions.sort();
    versions
}

/// An installer that starts from what the first one has left on the
/// partition.
fn again(first: &Installer, limit: usize) -> Installer {
    Installer::new(
        Esp::new(
            Architecture::X86,
            first.esp.artifacts().clone(),
            first.esp.entries().iter().map(|entry| entry.duplicate()).collect(),
            None,
        ),
        Some(template()),
        None,
        limit,
        false,
    )
}

/// Build one generation.
/// This should install one stub and one kernel and one initrd.
#[test]
fn build_works() {
    let mut installer = installer(1);
    let generation = generation(1, b"kernel", b"initrd", "console=ttyS0");

    let output1 = installer.build_generation(&signer(), &generation);
    assert!(output1.is_ok());
    assert_eq!(
        count_files(&installer, "EFI/Linux"),
        1,
        "Wrong number of stubs after installation"
    );
    assert_eq!(
        count_files(&installer, "EFI/nixos"),
        2,
        "Wrong number of kernels & initrds after installation"
    );
}

#[test]
fn one_generation_gives_one_stub_one_kernel_one_initrd() {
    let mut installer = installer(1);
    let outcome = installer.install(&signer(), vec![generation(1, b"K1", b"I1", "console=ttyS0")]);
    assert_eq!(outcome, Ok(()));
    assert_eq!(entry_versions(&installer), vec![1]);
    assert_eq!(count_files(&installer, "EFI/Linux"), 1);
    assert_eq!(count_files(&installer, "EFI/nixos"), 2);
    let entry = &installer.esp.entries()[0];
    assert_eq!(entry.title, "Generation 1");
    assert_eq!(entry.sort_key, "nixos");
    assert_eq!(entry.options, "console=ttyS0");
    assert!(entry.stub.starts_with("EFI/Linux/nixos-"));
    assert!(entry.kernel.starts_with("EFI/nixos/kernel-"));
    assert!(entry.initrd.starts_with("EFI/nixos/initrd-"));
    assert!(installer.esp.contains(&entry.stub));
    assert!(installer.esp.contains(&entry.kernel));
    assert!(installer.esp.contains(&entry.initrd));
}

#[test]
fn two_generations_of_one_toplevel_share_kernel_and_initrd() {
    let mut installer = installer(2);
    let outcome = installer.install(
        &signer(),
        vec![
            generation(1, b"kernel", b"initrd", "console=ttyS0"),
            generation(2, b"kernel", b"initrd", "console=ttyS0"),
        ],
    );
    assert_eq!(outcome, Ok(()));
    assert_eq!(entry_versions(&installer), vec![1, 2]);
    assert_eq!(count_files(&installer, "EFI/Linux"), 2);
    assert_eq!(count_files(&installer, "EFI/nixos"), 2);
    let entries = installer.esp.entries();
    assert_eq!(entries[0].kernel, entries[1].kernel);
    assert_eq!(entries[0].initrd, entries[1].initrd);
    assert_ne!(entries[0].stub, entries[1].stub);
    let kernel_writes = installer
        .esp
        .journal()
        .iter()
        .filter(|op| matches!(op, Op::Write { path, .. } if path.starts_with("EFI/nixos/kernel-")))
        .count();
    assert_eq!(kernel_writes, 1);
}

#[test]
fn three_generations_under_limit_two_keep_the_two_newest() {
    let generations = || {
        vec![
            generation(1, b"K1", b"I1", "console=ttyS0"),
            generation(3, b"K3", b"I3", "console=ttyS0"),
            generation(2, b"K2", b"I2", "console=ttyS0"),
        ]
    };
    let mut first = installer(2);
    assert_eq!(first.install(&signer(), generations()), Ok(()));
    assert_eq!(entry_versions(&first), vec![2, 3]);
    assert_eq!(count_files(&first, "EFI/Linux"), 2);
    assert_eq!(count_files(&first, "EFI/nixos"), 4);
    assert_eq!(first.esp.entries()[0].version, 3);

    let mut second = again(&first, 2);
    assert_eq!(second.install(&signer(), generations()), Ok(()));
    assert!(second.esp.journal().is_empty());
    assert_eq!(entry_versions(&second), vec![2, 3]);
    let mut before = first.esp.artifacts().clone();
    let mut after = second.esp.artifacts().clone();
    before.sort();
    after.sort();
    assert_eq!(before, after);
    for (a, b) in first.esp.entries().iter().zip(second.esp.entries().iter()) {
        assert!(a.same(b));
    }
}

#[test]
fn what_falls_out_of_the_limit_is_pruned() {
    let mut installer = installer(5);
    assert_eq!(
        installer.install(
            &signer(),
            vec![
                generation(1, b"K1", b"I1", "ro"),
                generation(2, b"K2", b"I1", "ro"),
                generation(3, b"K2", b"I3", "ro"),
            ],
        ),
        Ok(())
    );
    assert_eq!(entry_versions(&installer), vec![1, 2, 3]);
    assert_eq!(count_files(&installer, "EFI/nixos"), 4);
    installer.configuration_limit = 1;
    assert_eq!(
        installer.install(
            &signer(),
            vec![
                generation(1, b"K1", b"I1", "ro"),
                generation(2, b"K2", b"I1", "ro"),
                generation(3, b"K2", b"I3", "ro"),
            ],
        ),
        Ok(())
    );
    assert_eq!(entry_versions(&installer), vec![3]);
    assert_eq!(count_files(&installer, "EFI/Linux"), 1);
    assert_eq!(count_files(&installer, "EFI/nixos"), 2);
    let entry = &installer.esp.entries()[0];
    let mut expected = vec![entry.stub.clone(), entry.kernel.clone(), entry.initrd.clone()];
    expected.sort();
    let mut held = installer.esp.artifacts().clone();
    held.sort();
    assert_eq!(held, expected);
}

#[test]
fn building_a_generation_twice_adds_nothing() {
    let mut installer = installer(1);
    let generation = generation(1, b"kernel", b"initrd", "console=ttyS0");
    assert_eq!(installer.build_generation(&signer(), &generation), Ok(()));
    let changes = installer.esp.journal().len();
    assert_eq!(changes, 4);
    assert_eq!(installer.build_generation(&signer(), &generation), Ok(()));
    assert_eq!(installer.esp.journal().len(), changes);
    assert_eq!(installer.esp.artifacts().len(), 3);
    assert_eq!(installer.esp.entries().len(), 1);
}

#[test]
fn building_prunes_nothing() {
    let mut installer = installer(1);
    assert_eq!(installer.build_generation(&signer(), &generation(1, b"K1", b"I1", "ro")), Ok(()));
    assert_eq!(installer.build_generation(&signer(), &generation(2, b"K2", b"I2", "ro")), Ok(()));
    assert_eq!(entry_versions(&installer), vec![1, 2]);
    assert_eq!(installer.esp.artifacts().len(), 6);
    assert!(installer
        .esp
        .journal()
        .iter()
        .all(|op| !matches!(op, Op::Remove { .. } | Op::RemoveEntry { .. })));
}

#[test]
fn a_stub_in_place_is_not_signed_again() {
    let mut installer = installer(1);
    let generation = generation(1, b"kernel", b"initrd", "console=ttyS0");
    assert_eq!(installer.build_generation(&signer(), &generation), Ok(()));
    assert_eq!(installer.build_generation(&LockedSigner, &generation), Ok(()));
    let mut second = again(&installer, 1);
    assert_eq!(second.install(&LockedSigner, vec![generation]), Ok(()));
    assert!(second.esp.journal().is_empty());
}

#[test]
fn the_signed_stub_is_what_is_written() {
    let mut installer = installer(1);
    let generation = generation(1, b"kernel", b"initrd", "console=ttyS0");
    assert_eq!(installer.build_generation(&signer(), &generation), Ok(()));
    let stub = installer.esp.entries()[0].stub.clone();
    let written = installer
        .esp
        .journal()
        .iter()
        .find_map(|op| match op {
            Op::Write { path, content } if *path == stub => Some(content.clone()),
            _ => None,
        })
        .unwrap();
    assert!(written.ends_with(b"SIGNED"));
    assert!(written.starts_with(&template()));
}

#[test]
fn a_failed_signature_leaves_the_partition_as_it_was() {
    let mut installer = installer(1);
    let generation = generation(1, b"kernel", b"initrd", "console=ttyS0");
    assert_eq!(
        installer.build_generation(&LockedSigner, &generation),
        Err(Error::CredentialUnavailable)
    );
    assert!(installer.esp.artifacts().is_empty());
    assert!(installer.esp.entries().is_empty());
    assert!(installer.esp.journal().is_empty());
    assert_eq!(
        installer.build_generation(&MarkingSigner { refuse: Some(b"MZ".to_vec()) }, &generation),
        Err(Error::SigningFailed)
    );
    assert!(installer.esp.journal().is_empty());
}

#[test]
fn without_a_template_nothing_is_built() {
    let mut installer =
        Installer::new(Esp::new(Architecture::X86, Vec::new(), Vec::new(), None), None, None, 1, false);
    assert_eq!(
        installer.build_generation(&signer(), &generation(1, b"K", b"I", "ro")),
        Err(Error::TemplateUnavailable)
    );
    assert_eq!(
        installer.install(&signer(), vec![generation(1, b"K", b"I", "ro")]),
        Err(Failure { error: Error::TemplateUnavailable, generation: Some(1) })
    );
    assert!(installer.esp.journal().is_empty());
}

#[test]
fn a_template_of_another_architecture_is_refused() {
    let mut installer = Installer::new(
        Esp::new(Architecture::AArch64, Vec::new(), Vec::new(), None),
        Some(template()),
        None,
        1,
        false,
    );
    assert_eq!(
        installer.build_generation(&signer(), &generation(1, b"K", b"I", "ro")),
        Err(Error::StubConstructionFailed)
    );
    assert!(installer.esp.journal().is_empty());
}

#[test]
fn the_first_failure_ends_the_installation_and_nothing_is_pruned() {
    let mut installer = installer(3);
    assert_eq!(installer.build_generation(&signer(), &generation(9, b"K9", b"I9", "ro")), Ok(()));
    let before = installer.esp.journal().len();
    let outcome = installer.install(
        &MarkingSigner { refuse: Some(b"second".to_vec()) },
        vec![
            generation(1, b"K1", b"I1", "first"),
            generation(2, b"K2", b"I2", "second"),
            generation(3, b"K3", b"I3", "third"),
        ],
    );
    assert_eq!(outcome, Err(Failure { error: Error::SigningFailed, generation: Some(2) }));
    assert_eq!(entry_versions(&installer), vec![3, 9]);
    assert_eq!(installer.esp.artifacts().len(), 6);
    assert!(installer.esp.journal()[before..]
        .iter()
        .all(|op| !matches!(op, Op::Remove { .. } | Op::RemoveEntry { .. })));
    for entry in installer.esp.entries() {
        assert!(installer.esp.contains(&entry.stub));
        assert!(installer.esp.contains(&entry.kernel));
        assert!(installer.esp.contains(&entry.initrd));
    }
}

#[test]
fn under_limit_zero_everything_is_pruned() {
    let mut installer = installer(1);
    assert_eq!(installer.build_generation(&signer(), &generation(1, b"K1", b"I1", "ro")), Ok(()));
    installer.configuration_limit = 0;
    assert_eq!(installer.install(&signer(), vec![generation(1, b"K1", b"I1", "ro")]), Ok(()));
    assert!(installer.esp.entries().is_empty());
    assert!(installer.esp.artifacts().is_empty());
}

/// What a partition holds that the journal is carried out on, change by
/// change.
struct Disk {
    files: BTreeSet<String>,
    entries: BTreeMap<u64, LoaderEntry>,
}

impl Disk {
    fn carry_out(&mut self, op: &Op) {
        match op {
            Op::Write { path, .. } => {
                self.files.insert(path.clone());
            }
            Op::Remove { path } => {
                self.files.remove(path);
            }
            Op::WriteEntry { entry } => {
                self.entries.insert(entry.version, entry.duplicate());
            }
            Op::RemoveEntry { version } => {
                self.entries.remove(version);
            }
            Op::WriteBootloader { .. } => {}
            Op::RefreshPolicy { .. } => {}
        }
    }

    fn consistent(&self) -> bool {
        self.entries.values().all(|entry| {
            self.files.contains(&entry.stub)
                && self.files.contains(&entry.kernel)
                && self.files.contains(&entry.initrd)
        })
    }
}

#[test]
fn after_each_change_every_entry_finds_its_artifacts() {
    let mut installer = installer(4);
    assert_eq!(
        installer.install(
            &signer(),
            vec![
                generation(1, b"K1", b"I1", "ro"),
                generation(2, b"K2", b"I1", "ro"),
                generation(3, b"K2", b"I3", "ro"),
                generation(4, b"K4", b"I4", "ro"),
            ],
        ),
        Ok(())
    );
    installer.configuration_limit = 2;
    assert_eq!(
        installer.install(
            &signer(),
            vec![
                generation(2, b"K2", b"I1", "ro"),
                generation(5, b"K5", b"I3", "ro"),
                generation(4, b"K4", b"I4", "rw"),
            ],
        ),
        Ok(())
    );
    let mut disk = Disk { files: BTreeSet::new(), entries: BTreeMap::new() };
    assert!(disk.consistent());
    let mut most_entries = 0;
    let mut removals_began = false;
    let journal = installer.esp.journal();
    let second_run = journal
        .iter()
        .position(|op| matches!(op, Op::Remove { .. } | Op::RemoveEntry { .. }))
        .unwrap();
    for (at, op) in journal.iter().enumerate() {
        disk.carry_out(op);
        assert!(disk.consistent(), "an entry lost an artifact at change {}", at);
        if at >= second_run {
            let removal = matches!(op, Op::Remove { .. } | Op::RemoveEntry { .. });
            assert!(removal || !removals_began, "something was written after pruning began");
            removals_began = removals_began || removal;
            if !removals_began {
                assert!(disk.entries.len() >= most_entries);
                most_entries = disk.entries.len();
            }
        }
    }
    assert_eq!(disk.entries.keys().cloned().collect::<Vec<u64>>(), vec![4, 5]);
    let held: BTreeSet<String> = installer.esp.artifacts().iter().cloned().collect();
    assert_eq!(disk.files, held);
    assert_eq!(disk.entries[&4].options, "rw");
}

#[test]
fn policies_are_asked_for_where_they_are_kept() {
    let mut installer = Installer::new(
        Esp::new(Architecture::X86, Vec::new(), Vec::new(), None),
        Some(template()),
        None,
        2,
        true,
    );
    assert_eq!(
        installer.install(
            &signer(),
            vec![generation(1, b"K1", b"I1", "ro"), generation(2, b"K2", b"I2", "ro")],
        ),
        Ok(())
    );
    let asked: Vec<u64> = installer
        .esp
        .journal()
        .iter()
        .filter_map(|op| match op {
            Op::RefreshPolicy { version, .. } => Some(*version),
            _ => None,
        })
        .collect();
    assert_eq!(asked, vec![2, 1]);
    for (at, op) in installer.esp.journal().iter().enumerate() {
        if let Op::RefreshPolicy { stub, .. } = op {
            assert!(installer.esp.journal()[..at]
                .iter()
                .any(|earlier| matches!(earlier, Op::Write { path, .. } if path == stub)));
        }
    }
}

#[test]
fn the_boot_loader_is_installed_once() {
    let mut installer = with_bootloader(b"systemd-boot", None);
    assert_eq!(installer.install_bootloader(&signer()), Ok(()));
    assert_eq!(installer.esp.journal().len(), 1);
    match &installer.esp.journal()[0] {
        Op::WriteBootloader { path, digest, content } => {
            assert_eq!(path, "EFI/BOOT/BOOTX64.EFI");
            assert_eq!(digest.len(), 32);
            assert_eq!(content, &b"systemd-bootSIGNED".to_vec());
        }
        _ => panic!("the boot loader was to be written"),
    }
    assert_eq!(installer.install_bootloader(&signer()), Ok(()));
    assert_eq!(installer.install_bootloader(&LockedSigner), Ok(()));
    assert_eq!(installer.esp.journal().len(), 1);
    installer.bootloader = Some(b"systemd-boot 2".to_vec());
    assert_eq!(installer.install_bootloader(&signer()), Ok(()));
    assert_eq!(installer.esp.journal().len(), 2);
    assert!(installer.esp.artifacts().is_empty());
    assert!(installer.esp.entries().is_empty());
}

#[test]
fn a_boot_loader_in_place_is_found_by_its_digest() {
    let digest = vec![
        0xb9, 0x4d, 0x27, 0xb9, 0x93, 0x4d, 0x3e, 0x08, 0xa5, 0x2e, 0x52, 0xd7, 0xda, 0x7d, 0xab,
        0xfa, 0xc4, 0x84, 0xef, 0xe3, 0x7a, 0x53, 0x80, 0xee, 0x90, 0x88, 0xf7, 0xac, 0xe2, 0xef,
        0xcd, 0xe9,
    ];
    let mut installer = with_bootloader(b"hello world", Some(digest));
    assert_eq!(installer.install_bootloader(&LockedSigner), Ok(()));
    assert!(installer.esp.journal().is_empty());
    let mut installer = with_bootloader(b"hello world!", Some(vec![0u8; 32]));
    assert_eq!(installer.install_bootloader(&LockedSigner), Err(Error::CredentialUnavailable));
    assert!(installer.esp.journal().is_empty());
}

#[test]
fn without_a_boot_loader_none_is_installed() {
    let mut installer = installer(1);
    assert_eq!(installer.install_bootloader(&LockedSigner), Ok(()));
    assert_eq!(installer.complete_bootloader(Err(Error::SigningFailed)), Ok(()));
    assert!(installer.esp.journal().is_empty());
}

#[test]
fn an_installation_brings_the_boot_loader() {
    let mut installer = with_bootloader(b"systemd-boot", None);
    assert_eq!(
        installer.install(
            &signer(),
            vec![
                generation(1, b"K1", b"I1", "ro"),
                generation(2, b"K2", b"I2", "ro"),
                generation(3, b"K3", b"I3", "ro"),
            ],
        ),
        Ok(())
    );
    let journal = installer.esp.journal();
    let at = journal.iter().position(|op| matches!(op, Op::WriteBootloader { .. })).unwrap();
    assert_eq!(journal.iter().filter(|op| matches!(op, Op::WriteBootloader { .. })).count(), 1);
    assert!(journal[..at].iter().all(|op| matches!(op, Op::Write { .. } | Op::WriteEntry { .. })));
    assert_eq!(entry_versions(&installer), vec![2, 3]);
    let changes = journal.len();
    assert_eq!(
        installer.install(
            &LockedSigner,
            vec![generation(3, b"K3", b"I3", "ro"), generation(2, b"K2", b"I2", "ro")],
        ),
        Ok(())
    );
    assert_eq!(installer.esp.journal().len(), changes);
}

#[test]
fn a_boot_loader_that_cannot_be_signed_ends_the_installation() {
    let mut installer = with_bootloader(b"systemd-boot", None);
    assert_eq!(installer.build_generation(&signer(), &generation(7, b"K7", b"I7", "ro")), Ok(()));
    let outcome = installer.install(
        &MarkingSigner { refuse: Some(b"systemd-boot".to_vec()) },
        vec![generation(1, b"K1", b"I1", "ro")],
    );
    assert_eq!(outcome, Err(Failure { error: Error::SigningFailed, generation: None }));
    assert_eq!(entry_versions(&installer), vec![1, 7]);
    assert!(installer
        .esp
        .journal()
        .iter()
        .all(|op| !matches!(op, Op::Remove { .. } | Op::RemoveEntry { .. })));
}

#[test]
fn a_boot_loader_that_cannot_be_signed_is_not_installed() {
    let mut installer = with_bootloader(b"systemd-boot", None);
    assert_eq!(installer.install_bootloader(&LockedSigner), Err(Error::CredentialUnavailable));
    assert!(installer.esp.journal().is_empty());
}

#[test]
fn a_command_line_of_two_lines_is_refused() {
    let mut installer = installer(1);
    assert_eq!(
        installer.build_generation(&signer(), &generation(1, b"K", b"I", "quiet\nro")),
        Err(Error::StubConstructionFailed)
    );
    assert!(installer.esp.journal().is_empty());
}

#[test]
fn what_is_installed_is_found_again_in_the_files_of_the_entries() {
    let mut first = installer(2);
    assert_eq!(
        first.install(
            &signer(),
            vec![generation(1, b"K1", b"I1", "console=ttyS0"), generation(2, b"K2", b"I2", "ro")],
        ),
        Ok(())
    );
    let read: Vec<LoaderEntry> = first
        .esp
        .entries()
        .iter()
        .map(|entry| LoaderEntry::parse(&entry.render()).unwrap())
        .collect();
    let mut second = Installer::new(
        Esp::new(Architecture::X86, first.esp.artifacts().clone(), read, None),
        Some(template()),
        None,
        2,
        false,
    );
    assert_eq!(
        second.install(
            &LockedSigner,
            vec![generation(1, b"K1", b"I1", "console=ttyS0"), generation(2, b"K2", b"I2", "ro")],
        ),
        Ok(())
    );
    assert!(second.esp.journal().is_empty());
}

#[test]
fn completing_takes_the_signature_as_it_comes() {
    let mut installer = with_bootloader(b"boot", None);
    let generation = generation(1, b"kernel", b"initrd", "console=ttyS0");
    assert_eq!(
        installer.complete_generation(&generation, Err(Error::SigningFailed)),
        Err(Error::SigningFailed)
    );
    assert!(installer.esp.journal().is_empty());
    assert_eq!(installer.complete_generation(&generation, Ok(b"signed".to_vec())), Ok(()));
    assert_eq!(installer.esp.journal().len(), 4);
    assert_eq!(
        installer.complete_generation(&generation, Err(Error::SigningFailed)),
        Ok(())
    );
    assert_eq!(installer.esp.journal().len(), 4);
    assert_eq!(installer.complete_bootloader(Err(Error::SigningFailed)), Err(Error::SigningFailed));
    assert_eq!(installer.complete_bootloader(Ok(b"signed".to_vec())), Ok(()));
    assert_eq!(installer.complete_bootloader(Err(Error::SigningFailed)), Ok(()));
    let esp = installer.into_esp();
    assert_eq!(esp.journal().len(), 5);
}

#[test]
fn a_generation_with_specialisations_has_one_entry() {
    let mut installer = installer(1);
    let mut with_variants = generation(4, b"K4", b"I4", "ro");
    with_variants.generation.specialisations = vec![
        generation(4, b"", b"", "ro variant=a").generation,
        generation(4, b"", b"", "ro variant=b").generation,
    ];
    assert_eq!(installer.install(&signer(), vec![with_variants]), Ok(()));
    assert_eq!(entry_versions(&installer), vec![4]);
    assert_eq!(installer.esp.entries()[0].options, "ro");
    assert_eq!(count_files(&installer, "EFI/Linux"), 1);
    assert_eq!(count_files(&installer, "EFI/nixos"), 2);
}

fn stub_writes(installer: &Installer) -> Vec<Vec<u8>> {
    installer
        .esp
        .journal()
        .iter()
        .filter_map(|op| match op {
            Op::Write { path, content } if path.starts_with("EFI/Linux/") => Some(content.clone()),
            _ => None,
        })
        .collect()
}

#[test]
fn an_installation_takes_the_signed_stubs_from_the_newest_on() {
    let mut installer = installer(2);
    let outcome = installer.complete_install(
        vec![generation(1, b"K1", b"I1", "ro"), generation(2, b"K2", b"I2", "ro")],
        vec![Ok(b"second".to_vec()), Ok(b"first".to_vec())],
        Err(Error::SigningFailed),
    );
    assert_eq!(outcome, Ok(()));
    assert_eq!(entry_versions(&installer), vec![1, 2]);
    assert_eq!(stub_writes(&installer), vec![b"second".to_vec(), b"first".to_vec()]);
    assert_eq!(installer.esp.entries()[0].version, 2);
    assert_eq!(installer.esp.journal().len(), 8);
}

#[test]
fn an_installation_stops_at_the_first_stub_that_was_not_signed() {
    let mut installer = installer(3);
    assert_eq!(installer.build_generation(&signer(), &generation(9, b"K9", b"I9", "ro")), Ok(()));
    let changes = installer.esp.journal().len();
    let outcome = installer.complete_install(
        vec![
            generation(1, b"K1", b"I1", "ro"),
            generation(2, b"K2", b"I2", "ro"),
            generation(3, b"K3", b"I3", "ro"),
        ],
        vec![Ok(b"third".to_vec()), Err(Error::CredentialUnavailable), Ok(b"first".to_vec())],
        Ok(Vec::new()),
    );
    assert_eq!(
        outcome,
        Err(Failure { error: Error::CredentialUnavailable, generation: Some(2) })
    );
    assert_eq!(entry_versions(&installer), vec![3, 9]);
    assert_eq!(installer.esp.journal().len(), changes + 4);
    assert_eq!(stub_writes(&installer).last(), Some(&b"third".to_vec()));
    assert!(installer
        .esp
        .journal()
        .iter()
        .all(|op| !matches!(op, Op::Remove { .. } | Op::RemoveEntry { .. })));
}

#[test]
fn a_stub_for_which_nothing_is_given_counts_as_not_signed() {
    let mut installer = installer(2);
    let outcome = installer.complete_install(
        vec![generation(1, b"K1", b"I1", "ro"), generation(2, b"K2", b"I2", "ro")],
        vec![Ok(b"second".to_vec())],
        Ok(Vec::new()),
    );
    assert_eq!(outcome, Err(Failure { error: Error::SigningFailed, generation: Some(1) }));
    assert_eq!(entry_versions(&installer), vec![2]);
    let mut empty = self::installer(0);
    assert_eq!(empty.complete_install(Vec::new(), Vec::new(), Err(Error::SigningFailed)), Ok(()));
    assert!(empty.esp.journal().is_empty());
}

#[test]
fn what_is_given_for_a_stub_in_place_is_not_looked_at() {
    let generations =
        || vec![generation(1, b"K1", b"I1", "ro"), generation(2, b"K2", b"I2", "ro")];
    let mut first = installer(2);
    assert_eq!(first.install(&signer(), generations()), Ok(()));
    let mut second = again(&first, 2);
    let outcome = second.complete_install(
        generations(),
        vec![Err(Error::SigningFailed), Err(Error::CredentialUnavailable)],
        Err(Error::SigningFailed),
    );
    assert_eq!(outcome, Ok(()));
    assert!(second.esp.journal().is_empty());
}

#[test]
fn a_stub_that_cannot_be_built_fails_whatever_signing_comes_to() {
    let mut installer =
        Installer::new(Esp::new(Architecture::X86, Vec::new(), Vec::new(), None), None, None, 2, false);
    let outcome = installer.complete_install(
        vec![generation(1, b"K1", b"I1", "ro"), generation(2, b"K2", b"I2", "ro")],
        vec![Ok(b"second".to_vec()), Ok(b"first".to_vec())],
        Ok(Vec::new()),
    );
    assert_eq!(outcome, Err(Failure { error: Error::TemplateUnavailable, generation: Some(2) }));
    assert!(installer.esp.journal().is_empty());

    let mut installer = self::installer(2);
    let outcome = installer.complete_install(
        vec![generation(1, b"K1", b"I1", "quiet\nro"), generation(2, b"K2", b"I2", "ro")],
        vec![Ok(b"second".to_vec()), Ok(b"first".to_vec())],
        Ok(Vec::new()),
    );
    assert_eq!(
        outcome,
        Err(Failure { error: Error::StubConstructionFailed, generation: Some(1) })
    );
    assert_eq!(entry_versions(&installer), vec![2]);
    let outcome = installer.install(
        &signer(),
        vec![generation(1, b"K1", b"I1", "quiet\nro"), generation(2, b"K2", b"I2", "ro")],
    );
    assert_eq!(
        outcome,
        Err(Failure { error: Error::StubConstructionFailed, generation: Some(1) })
    );
}

#[test]
fn a_boot_loader_that_was_not_signed_ends_the_installation_before_it_prunes() {
    let mut installer = with_bootloader(b"systemd-boot", None);
    assert_eq!(installer.build_generation(&signer(), &generation(7, b"K7", b"I7", "ro")), Ok(()));
    let outcome = installer.complete_install(
        vec![generation(1, b"K1", b"I1", "ro")],
        vec![Ok(b"first".to_vec())],
        Err(Error::CredentialUnavailable),
    );
    assert_eq!(outcome, Err(Failure { error: Error::CredentialUnavailable, generation: None }));
    assert_eq!(entry_versions(&installer), vec![1, 7]);
    let outcome = installer.complete_install(
        vec![generation(1, b"K1", b"I1", "ro")],
        Vec::new(),
        Ok(b"loader".to_vec()),
    );
    assert_eq!(outcome, Ok(()));
    assert_eq!(entry_versions(&installer), vec![1]);
    let journal = installer.esp.journal();
    let at = journal.iter().position(|op| matches!(op, Op::WriteBootloader { .. })).unwrap();
    assert!(matches!(&journal[at], Op::WriteBootloader { content, .. } if content == b"loader"));
    assert!(journal[at + 1..]
        .iter()
        .all(|op| matches!(op, Op::Remove { .. } | Op::RemoveEntry { .. })));
    assert_eq!(journal[at + 1..].len(), 4);
}

#[test]
fn an_installation_does_what_it_does_for_what_signing_has_come_to() {
    let generations = || {
        vec![
            generation(1, b"K1", b"I1", "ro"),
            generation(3, b"K3", b"I3", "ro"),
            generation(2, b"K2", b"I2", "ro"),
        ]
    };
    let mut signing = with_bootloader(b"systemd-boot", None);
    assert_eq!(signing.install(&signer(), generations()), Ok(()));
    let loader = signing
        .esp
        .journal()
        .iter()
        .find_map(|op| match op {
            Op::WriteBootloader { content, .. } => Some(content.clone()),
            _ => None,
        })
        .unwrap();
    let signed: Vec<Result<Vec<u8>, Error>> = stub_writes(&signing).into_iter().map(Ok).collect();
    assert_eq!(signed.len(), 2);
    let mut given = with_bootloader(b"systemd-boot", None);
    assert_eq!(given.complete_install(generations(), signed, Ok(loader)), Ok(()));
    assert_eq!(given.esp.journal().len(), signing.esp.journal().len());
    assert_eq!(given.esp.artifacts(), signing.esp.artifacts());
    assert_eq!(entry_versions(&given), entry_versions(&signing));
    for (a, b) in given.esp.entries().iter().zip(signing.esp.entries().iter()) {
        assert!(a.same(b));
    }

}

#[test]
fn a_generation_shadowed_by_another_of_its_version_is_written_anew() {
    let generations =
        || vec![generation(1, b"K1", b"I1", "ro"), generation(1, b"K2", b"I2", "ro")];
    let mut first = installer(2);
    assert_eq!(first.install(&signer(), generations()), Ok(()));
    assert_eq!(entry_versions(&first), vec![1]);
    assert_eq!(first.esp.artifacts().len(), 3);
    let mut second = again(&first, 2);
    assert_eq!(second.install(&signer(), generations()), Ok(()));
    assert!(!second.esp.journal().is_empty());
    let mut before = first.esp.artifacts().clone();
    let mut after = second.esp.artifacts().clone();
    before.sort();
    after.sort();
    assert_eq!(before, after);
    assert_eq!(entry_versions(&second), vec![1]);
    assert!(first.esp.entries()[0].same(&second.esp.entries()[0]));
}

#[test]
fn the_stub_that_is_signed_is_the_stub_of_the_generation() {
    let mut installer = installer(1);
    let generation = generation(1, b"kernel", b"initrd", "console=ttyS0");
    let stub = installer.unsigned_stub(&generation).ok().unwrap();
    assert!(stub.bytes.starts_with(&template()));
    assert_eq!(stub.cmdline, "console=ttyS0");
    assert!(stub.kernel.starts_with("EFI/nixos/kernel-"));
    assert!(stub.initrd.starts_with("EFI/nixos/initrd-"));
    assert_eq!(installer.install(&signer(), vec![generation]), Ok(()));
    let mut signed = stub.bytes.clone();
    signed.extend_from_slice(b"SIGNED");
    assert_eq!(stub_writes(&installer), vec![signed]);
    let entry = &installer.esp.entries()[0];
    assert_eq!(entry.kernel, stub.kernel);
    assert_eq!(entry.initrd, stub.initrd);

    let without =
        Installer::new(Esp::new(Architecture::X86, Vec::new(), Vec::new(), None), None, None, 1, false);
    assert_eq!(
        without.unsigned_stub(&self::generation(1, b"kernel", b"initrd", "ro")).err(),
        Some(Error::TemplateUnavailable)
    );
}

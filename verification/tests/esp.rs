use lzbt_systemd::architecture::Architecture;
use lzbt_systemd::artifact::ArtifactKind;
use lzbt_systemd::entry::{LoaderEntry, Op};
use lzbt_systemd::esp::Esp;

fn empty() -> Esp {
    Esp::new(Architecture::X86, Vec::new(), Vec::new(), None)
}

fn entry(version: u64, stub: &str, kernel: &str, initrd: &str) -> LoaderEntry {
    LoaderEntry {
        version,
        title: format!("Generation {}", version),
        sort_key: String::from("nixos"),
        stub: String::from(stub),
        kernel: String::from(kernel),
        initrd: String::from(initrd),
        options: String::from("console=ttyS0"),
    }
}

fn sorted(paths: &Vec<String>) -> Vec<String> {
    let mut paths = paths.clone();
    paths.sort();
    paths
}

#[test]
fn put_stores_under_the_digest_of_the_content() {
    let mut esp = empty();
    let artifact = esp.put(ArtifactKind::Kernel, &b"hello world".to_vec());
    assert_eq!(artifact.kind, ArtifactKind::Kernel);
    assert_eq!(
        artifact.path,
        "EFI/nixos/kernel-b94d27b9934d3e08a52e52d7da7dabfac484efe37a5380ee9088f7ace2efcde9.efi"
    );
    assert_eq!(artifact.hash.len(), 32);
    assert_eq!(artifact.hash[0], 0xb9);
    assert!(esp.contains(&artifact.path));
    assert_eq!(esp.journal().len(), 1);
    match &esp.journal()[0] {
        Op::Write { path, content } => {
            assert_eq!(path, &artifact.path);
            assert_eq!(content, &b"hello world".to_vec());
        }
        _ => panic!("a write was expected"),
    }
}

#[test]
fn put_of_what_is_stored_writes_nothing() {
    let mut esp = empty();
    let first = esp.put(ArtifactKind::Initrd, &b"initrd".to_vec());
    let second = esp.put(ArtifactKind::Initrd, &b"initrd".to_vec());
    assert_eq!(first.path, second.path);
    assert_eq!(esp.artifacts().len(), 1);
    assert_eq!(esp.journal().len(), 1);
}

#[test]
fn put_tells_kinds_and_contents_apart() {
    let mut esp = empty();
    let kernel = esp.put(ArtifactKind::Kernel, &b"same".to_vec());
    let initrd = esp.put(ArtifactKind::Initrd, &b"same".to_vec());
    let other = esp.put(ArtifactKind::Kernel, &b"other".to_vec());
    assert_ne!(kernel.path, initrd.path);
    assert_ne!(kernel.path, other.path);
    assert_eq!(kernel.hash, initrd.hash);
    assert_eq!(esp.artifacts().len(), 3);
    assert_eq!(esp.journal().len(), 3);
}

#[test]
fn put_finds_what_a_look_at_the_partition_found() {
    let path =
        "EFI/nixos/kernel-b94d27b9934d3e08a52e52d7da7dabfac484efe37a5380ee9088f7ace2efcde9.efi";
    let mut esp = Esp::new(Architecture::X86, vec![String::from(path)], Vec::new(), None);
    let artifact = esp.put(ArtifactKind::Kernel, &b"hello world".to_vec());
    assert_eq!(artifact.path, path);
    assert!(esp.journal().is_empty());
    assert_eq!(esp.artifacts().len(), 1);
}

#[test]
fn holds_tells_what_is_in_place() {
    let mut esp = empty();
    let artifact = esp.put(ArtifactKind::Stub, &b"stub".to_vec());
    assert!(esp.holds(ArtifactKind::Stub, &artifact.hash));
    assert!(!esp.holds(ArtifactKind::Kernel, &artifact.hash));
    assert!(!esp.holds(ArtifactKind::Bootloader, &artifact.hash));
    assert!(!esp.holds(ArtifactKind::Stub, &vec![0u8; 32]));
}

#[test]
fn place_names_by_the_digest_and_stores_the_content() {
    let mut esp = empty();
    let artifact = esp.place(ArtifactKind::Stub, vec![0x12, 0x34], b"signed".to_vec());
    assert_eq!(artifact.path, "EFI/Linux/nixos-1234.efi");
    assert_eq!(artifact.hash, vec![0x12, 0x34]);
    match &esp.journal()[0] {
        Op::Write { path, content } => {
            assert_eq!(path, "EFI/Linux/nixos-1234.efi");
            assert_eq!(content, &b"signed".to_vec());
        }
        _ => panic!("a write was expected"),
    }
    esp.place(ArtifactKind::Stub, vec![0x12, 0x34], b"signed otherwise".to_vec());
    assert_eq!(esp.journal().len(), 1);
}

#[test]
fn the_boot_loader_is_replaced_when_its_digest_changes() {
    let mut esp = Esp::new(Architecture::AArch64, Vec::new(), Vec::new(), Some(vec![1, 2, 3]));
    assert!(esp.holds(ArtifactKind::Bootloader, &vec![1, 2, 3]));
    esp.place(ArtifactKind::Bootloader, vec![1, 2, 3], b"old".to_vec());
    assert!(esp.journal().is_empty());
    let artifact = esp.place(ArtifactKind::Bootloader, vec![4, 5], b"new".to_vec());
    assert_eq!(artifact.path, "EFI/BOOT/BOOTAA64.EFI");
    assert!(esp.holds(ArtifactKind::Bootloader, &vec![4, 5]));
    assert!(!esp.holds(ArtifactKind::Bootloader, &vec![1, 2, 3]));
    assert!(esp.artifacts().is_empty());
    assert_eq!(esp.journal().len(), 1);
    match &esp.journal()[0] {
        Op::WriteBootloader { path, digest, content } => {
            assert_eq!(path, "EFI/BOOT/BOOTAA64.EFI");
            assert_eq!(digest, &vec![4, 5]);
            assert_eq!(content, &b"new".to_vec());
        }
        _ => panic!("the boot loader was to be written"),
    }
}

#[test]
fn an_entry_is_written_once_its_artifacts_are_in_place() {
    let mut esp = empty();
    assert!(!esp.write_entry(entry(1, "s", "k", "i")));
    assert!(!esp.has_entry(1));
    assert!(esp.journal().is_empty());
    let mut esp = Esp::new(
        Architecture::X86,
        vec![String::from("s"), String::from("k")],
        Vec::new(),
        None,
    );
    assert!(!esp.write_entry(entry(1, "s", "k", "i")));
    let mut esp = Esp::new(
        Architecture::X86,
        vec![String::from("s"), String::from("k"), String::from("i")],
        Vec::new(),
        None,
    );
    assert!(esp.write_entry(entry(1, "s", "k", "i")));
    assert!(esp.has_entry(1));
    assert!(!esp.has_entry(2));
    assert_eq!(esp.journal().len(), 1);
    assert!(matches!(&esp.journal()[0], Op::WriteEntry { entry } if entry.version == 1));
}

#[test]
fn an_entry_that_stands_is_not_written_again() {
    let mut esp = Esp::new(
        Architecture::X86,
        vec![String::from("s"), String::from("k"), String::from("i"), String::from("t")],
        vec![entry(1, "s", "k", "i")],
        None,
    );
    assert!(esp.write_entry(entry(1, "s", "k", "i")));
    assert!(esp.journal().is_empty());
    assert!(esp.write_entry(entry(1, "t", "k", "i")));
    assert_eq!(esp.journal().len(), 1);
    assert_eq!(esp.entries().len(), 1);
    assert_eq!(esp.entries()[0].stub, "t");
}

#[test]
fn an_artifact_that_an_entry_needs_is_not_removed() {
    let mut esp = Esp::new(
        Architecture::X86,
        vec![String::from("s"), String::from("k"), String::from("i"), String::from("free")],
        vec![entry(1, "s", "k", "i")],
        None,
    );
    assert!(esp.is_referenced(&String::from("s")));
    assert!(esp.is_referenced(&String::from("k")));
    assert!(esp.is_referenced(&String::from("i")));
    assert!(!esp.is_referenced(&String::from("free")));
    assert!(!esp.remove(&String::from("s")));
    assert!(!esp.remove(&String::from("k")));
    assert!(!esp.remove(&String::from("i")));
    assert!(!esp.remove(&String::from("absent")));
    assert!(esp.journal().is_empty());
    assert!(esp.remove(&String::from("free")));
    assert!(!esp.contains(&String::from("free")));
    assert_eq!(esp.journal().len(), 1);
    assert!(matches!(&esp.journal()[0], Op::Remove { path } if path == "free"));
    assert!(esp.remove_entry(1));
    assert!(!esp.remove_entry(1));
    assert!(esp.remove(&String::from("s")));
    assert_eq!(esp.journal().len(), 3);
}

#[test]
fn prune_deletes_entries_and_then_what_none_needs() {
    let mut esp = Esp::new(
        Architecture::X86,
        vec![
            String::from("s1"),
            String::from("s2"),
            String::from("s3"),
            String::from("k"),
            String::from("k3"),
            String::from("i"),
            String::from("stray"),
        ],
        vec![entry(1, "s1", "k", "i"), entry(2, "s2", "k", "i"), entry(3, "s3", "k3", "i")],
        Some(vec![9]),
    );
    esp.prune(&vec![2, 7]);
    assert!(esp.has_entry(2));
    assert!(!esp.has_entry(1));
    assert!(!esp.has_entry(3));
    assert_eq!(
        sorted(esp.artifacts()),
        vec![String::from("i"), String::from("k"), String::from("s2")]
    );
    assert!(esp.holds(ArtifactKind::Bootloader, &vec![9]));
    let journal = esp.journal();
    assert_eq!(journal.len(), 6);
    assert!(matches!(journal[0], Op::RemoveEntry { .. }));
    assert!(matches!(journal[1], Op::RemoveEntry { .. }));
    for op in &journal[2..] {
        assert!(matches!(op, Op::Remove { .. }));
    }
}

#[test]
fn prune_of_a_settled_partition_does_nothing() {
    let mut esp = Esp::new(
        Architecture::X86,
        vec![String::from("s1"), String::from("k"), String::from("i")],
        vec![entry(1, "s1", "k", "i")],
        None,
    );
    esp.prune(&vec![1, 2]);
    assert!(esp.journal().is_empty());
    assert_eq!(esp.artifacts().len(), 3);
    assert!(esp.has_entry(1));
}

#[test]
fn a_look_at_the_partition_counts_each_path_and_version_once() {
    let esp = Esp::new(
        Architecture::X86,
        vec![String::from("a"), String::from("b"), String::from("a")],
        vec![entry(1, "a", "a", "a"), entry(1, "b", "b", "b")],
        None,
    );
    assert_eq!(esp.artifacts().len(), 2);
    assert_eq!(esp.entries().len(), 1);
    assert_eq!(esp.entries()[0].stub, "b");
    assert_eq!(esp.architecture(), Architecture::X86);
    assert!(esp.journal().is_empty());
}

#[test]
fn a_policy_is_asked_for_in_the_journal() {
    let mut esp = empty();
    esp.refresh_policy(4, String::from("EFI/Linux/nixos-00.efi"));
    assert_eq!(esp.journal().len(), 1);
    assert!(matches!(
        &esp.journal()[0],
        Op::RefreshPolicy { version: 4, stub } if stub == "EFI/Linux/nixos-00.efi"
    ));
    assert!(esp.artifacts().is_empty());
}

#[test]
fn entries_compare_by_what_they_say() {
    let a = entry(1, "s", "k", "i");
    assert!(a.same(&a.duplicate()));
    assert!(!a.same(&entry(2, "s", "k", "i")));
    assert!(!a.same(&entry(1, "t", "k", "i")));
    let mut other = a.duplicate();
    other.options = String::from("quiet");
    assert!(!a.same(&other));
    assert!(a.needs(&String::from("s")));
    assert!(a.needs(&String::from("k")));
    assert!(a.needs(&String::from("i")));
    assert!(!a.needs(&String::from("x")));
}

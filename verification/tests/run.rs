use lzbt_systemd::architecture::Architecture;
use lzbt_systemd::cli::Settings;
use lzbt_systemd::entry::Op;
use lzbt_systemd::error::{Error, Failure};
use lzbt_systemd::esp::Esp;
use lzbt_systemd::generation::{Generation, Resolved};
use lzbt_systemd::installer::Signer;
use lzbt_systemd::run::{finish_build, finish_install, run_build, run_install, Report};

/// Signs by putting a mark behind the image.
struct MarkingSigner;

impl Signer for MarkingSigner {
    fn sign(&self, image: &Vec<u8>) -> Result<Vec<u8>, Error> {
        let mut signed = image.clone();
        signed.extend_from_slice(b"SIGNED");
        Ok(signed)
    }
}

/// Has no credentials.
struct LockedSigner;

impl Signer for LockedSigner {
    fn sign(&self, _image: &Vec<u8>) -> Result<Vec<u8>, Error> {
        Err(Error::CredentialUnavailable)
    }
}

fn template() -> Vec<u8> {
    let mut bytes = vec![0u8; 64];
    bytes[0] = b'M';
    bytes[1] = b'Z';
    bytes[60] = 64;
    bytes.extend_from_slice(b"PE\0\0");
    bytes.extend_from_slice(&[0x64, 0x86]);
    bytes
}

fn generation(version: u64, kernel: &[u8], initrd: &[u8]) -> Resolved {
    Resolved {
        generation: Generation {
            version,
            toplevel: String::from("/nix/store/toplevel"),
            kernel: String::from("/nix/store/toplevel/kernel"),
            initrd: String::from("/nix/store/toplevel/initrd"),
            cmdline: vec![String::from("ro")],
            specialisations: Vec::new(),
        },
        kernel: kernel.to_vec(),
        initrd: initrd.to_vec(),
        os_release: b"ID=nixos\n".to_vec(),
    }
}

fn settings(limit: usize, pcrlock: &str, config: &str) -> Settings {
    Settings {
        stub: String::from("/nix/store/stub.efi"),
        architecture: Architecture::X86,
        systemd: String::from("/nix/store/systemd"),
        systemd_boot_loader_config: String::from(config),
        systemd_pcrlock: String::from(pcrlock),
        public_key: String::from("/keys/db.pem"),
        private_key: String::from("/keys/db.key"),
        configuration_limit: limit,
        esp: String::from("/boot"),
    }
}

fn empty() -> Esp {
    Esp::new(Architecture::X86, Vec::new(), Vec::new(), None)
}

fn versions(report: &Report) -> Vec<u64> {
    let mut versions: Vec<u64> =
        report.installer.esp.entries().iter().map(|entry| entry.version).collect();
    versions.sort();
    versions
}

fn count(report: &Report, is: fn(&Op) -> bool) -> usize {
    report.installer.esp.journal().iter().filter(|op| is(op)).count()
}

fn is_bootloader(op: &Op) -> bool {
    matches!(op, Op::WriteBootloader { .. })
}

fn is_policy(op: &Op) -> bool {
    matches!(op, Op::RefreshPolicy { .. })
}

fn is_removal(op: &Op) -> bool {
    matches!(op, Op::Remove { .. } | Op::RemoveEntry { .. })
}

#[test]
fn the_installer_is_set_up_as_the_settings_say() {
    let installer = settings(4, "", "").installer(empty(), Some(template()), None);
    assert_eq!(installer.configuration_limit, 4);
    assert!(!installer.policy);
    assert_eq!(installer.template, Some(template()));
    assert_eq!(installer.bootloader, None);
    let installer =
        settings(0, "/var/lib/pcrlock.d", "").installer(empty(), None, Some(b"boot".to_vec()));
    assert_eq!(installer.configuration_limit, 0);
    assert!(installer.policy);
    assert_eq!(installer.template, None);
    assert_eq!(installer.bootloader, Some(b"boot".to_vec()));
}

#[test]
fn a_build_installs_the_generation_and_then_the_boot_loader() {
    let report = run_build(
        &settings(1, "", "/etc/loader.conf"),
        true,
        &MarkingSigner,
        empty(),
        Some(template()),
        Some(b"systemd-boot".to_vec()),
        generation(1, b"kernel", b"initrd"),
    );
    assert_eq!(report.outcome, Ok(()));
    assert!(report.loader_config);
    assert_eq!(versions(&report), vec![1]);
    let journal = report.installer.esp.journal();
    assert_eq!(journal.len(), 5);
    assert!(is_bootloader(&journal[4]));
    assert_eq!(count(&report, is_policy), 0);
}

#[test]
fn a_build_leaves_the_boot_loader_alone_where_none_is_wanted() {
    let report = run_build(
        &settings(1, "/var/lib/pcrlock.d", "/etc/loader.conf"),
        false,
        &MarkingSigner,
        empty(),
        Some(template()),
        Some(b"systemd-boot".to_vec()),
        generation(1, b"kernel", b"initrd"),
    );
    assert_eq!(report.outcome, Ok(()));
    assert!(!report.loader_config);
    assert_eq!(count(&report, is_bootloader), 0);
    assert_eq!(count(&report, is_policy), 1);
    assert_eq!(report.installer.esp.journal().len(), 5);
}

#[test]
fn a_boot_loader_that_could_not_be_read_fails_the_build_after_the_generation() {
    let report = run_build(
        &settings(1, "", "/etc/loader.conf"),
        true,
        &MarkingSigner,
        empty(),
        Some(template()),
        None,
        generation(1, b"kernel", b"initrd"),
    );
    assert_eq!(
        report.outcome,
        Err(Failure { error: Error::BootloaderUnavailable, generation: None })
    );
    assert!(!report.loader_config);
    assert_eq!(versions(&report), vec![1]);
    assert_eq!(report.installer.esp.journal().len(), 4);
}

#[test]
fn a_build_that_fails_installs_no_boot_loader() {
    let report = run_build(
        &settings(1, "", "/etc/loader.conf"),
        true,
        &LockedSigner,
        empty(),
        Some(template()),
        Some(b"systemd-boot".to_vec()),
        generation(5, b"kernel", b"initrd"),
    );
    assert_eq!(
        report.outcome,
        Err(Failure { error: Error::CredentialUnavailable, generation: Some(5) })
    );
    assert!(!report.loader_config);
    assert!(report.installer.esp.journal().is_empty());

    let report = run_build(
        &settings(1, "", ""),
        true,
        &MarkingSigner,
        empty(),
        None,
        Some(b"systemd-boot".to_vec()),
        generation(5, b"kernel", b"initrd"),
    );
    assert_eq!(
        report.outcome,
        Err(Failure { error: Error::TemplateUnavailable, generation: Some(5) })
    );
    assert!(report.installer.esp.journal().is_empty());
}

#[test]
fn a_build_without_a_configuration_puts_none_in_place() {
    let report = run_build(
        &settings(1, "", ""),
        true,
        &MarkingSigner,
        empty(),
        Some(template()),
        Some(b"systemd-boot".to_vec()),
        generation(1, b"kernel", b"initrd"),
    );
    assert_eq!(report.outcome, Ok(()));
    assert!(!report.loader_config);
}

#[test]
fn an_installation_keeps_within_the_limit_of_the_settings() {
    let report = run_install(
        &settings(2, "/var/lib/pcrlock.d", "/etc/loader.conf"),
        &MarkingSigner,
        empty(),
        Some(template()),
        Some(b"systemd-boot".to_vec()),
        vec![
            generation(1, b"K1", b"I1"),
            generation(2, b"K2", b"I2"),
            generation(3, b"K3", b"I3"),
        ],
    );
    assert_eq!(report.outcome, Ok(()));
    assert!(report.loader_config);
    assert_eq!(versions(&report), vec![2, 3]);
    assert_eq!(count(&report, is_bootloader), 1);
    assert_eq!(count(&report, is_policy), 2);
    assert_eq!(count(&report, is_removal), 0);
}

#[test]
fn an_installation_without_its_boot_loader_changes_nothing() {
    let report = run_install(
        &settings(2, "", "/etc/loader.conf"),
        &MarkingSigner,
        empty(),
        Some(template()),
        None,
        vec![generation(1, b"K1", b"I1")],
    );
    assert_eq!(
        report.outcome,
        Err(Failure { error: Error::BootloaderUnavailable, generation: None })
    );
    assert!(!report.loader_config);
    assert!(report.installer.esp.journal().is_empty());
    assert!(report.installer.esp.entries().is_empty());
}

#[test]
fn an_installation_that_fails_names_the_generation() {
    let report = run_install(
        &settings(2, "", ""),
        &LockedSigner,
        empty(),
        Some(template()),
        Some(b"systemd-boot".to_vec()),
        vec![generation(1, b"K1", b"I1"), generation(4, b"K4", b"I4")],
    );
    assert_eq!(
        report.outcome,
        Err(Failure { error: Error::CredentialUnavailable, generation: Some(4) })
    );
    assert!(!report.loader_config);
    assert!(report.installer.esp.journal().is_empty());
}

#[test]
fn a_build_takes_the_signatures_as_they_come() {
    let report = finish_build(
        &settings(1, "", "/etc/loader.conf"),
        true,
        empty(),
        Some(template()),
        Some(b"systemd-boot".to_vec()),
        generation(1, b"kernel", b"initrd"),
        Ok(b"signed stub".to_vec()),
        Ok(b"signed loader".to_vec()),
    );
    assert_eq!(report.outcome, Ok(()));
    assert!(report.loader_config);
    let journal = report.installer.esp.journal();
    assert_eq!(journal.len(), 5);
    assert!(matches!(&journal[2], Op::Write { content, .. } if content == b"signed stub"));
    assert!(matches!(&journal[4], Op::WriteBootloader { content, .. } if content == b"signed loader"));
}

#[test]
fn a_stub_that_was_not_signed_fails_the_build_under_its_version() {
    let report = finish_build(
        &settings(1, "", "/etc/loader.conf"),
        true,
        empty(),
        Some(template()),
        Some(b"systemd-boot".to_vec()),
        generation(6, b"kernel", b"initrd"),
        Err(Error::SigningFailed),
        Ok(b"signed loader".to_vec()),
    );
    assert_eq!(report.outcome, Err(Failure { error: Error::SigningFailed, generation: Some(6) }));
    assert!(!report.loader_config);
    assert!(report.installer.esp.journal().is_empty());
}

#[test]
fn a_boot_loader_that_was_not_signed_fails_the_build_under_no_version() {
    let report = finish_build(
        &settings(1, "", "/etc/loader.conf"),
        true,
        empty(),
        Some(template()),
        Some(b"systemd-boot".to_vec()),
        generation(6, b"kernel", b"initrd"),
        Ok(b"signed stub".to_vec()),
        Err(Error::CredentialUnavailable),
    );
    assert_eq!(
        report.outcome,
        Err(Failure { error: Error::CredentialUnavailable, generation: None })
    );
    assert!(!report.loader_config);
    assert_eq!(versions(&report), vec![6]);
    assert_eq!(report.installer.esp.journal().len(), 4);

    let report = finish_build(
        &settings(1, "", "/etc/loader.conf"),
        false,
        empty(),
        Some(template()),
        Some(b"systemd-boot".to_vec()),
        generation(6, b"kernel", b"initrd"),
        Ok(b"signed stub".to_vec()),
        Err(Error::CredentialUnavailable),
    );
    assert_eq!(report.outcome, Ok(()));
    assert_eq!(count(&report, is_bootloader), 0);
}

#[test]
fn an_installation_takes_the_signatures_as_they_come() {
    let report = finish_install(
        &settings(1, "", "/etc/loader.conf"),
        empty(),
        Some(template()),
        Some(b"systemd-boot".to_vec()),
        vec![generation(1, b"K1", b"I1"), generation(2, b"K2", b"I2")],
        vec![Ok(b"second".to_vec())],
        Ok(b"signed loader".to_vec()),
    );
    assert_eq!(report.outcome, Ok(()));
    assert!(report.loader_config);
    assert_eq!(versions(&report), vec![2]);
    assert_eq!(report.installer.esp.journal().len(), 5);

    let report = finish_install(
        &settings(2, "", "/etc/loader.conf"),
        empty(),
        Some(template()),
        Some(b"systemd-boot".to_vec()),
        vec![generation(1, b"K1", b"I1"), generation(2, b"K2", b"I2")],
        vec![Ok(b"second".to_vec()), Err(Error::SigningFailed)],
        Ok(b"signed loader".to_vec()),
    );
    assert_eq!(report.outcome, Err(Failure { error: Error::SigningFailed, generation: Some(1) }));
    assert!(!report.loader_config);
    assert_eq!(versions(&report), vec![2]);
    assert_eq!(count(&report, is_bootloader), 0);

    let report = finish_install(
        &settings(2, "", "/etc/loader.conf"),
        empty(),
        Some(template()),
        None,
        vec![generation(1, b"K1", b"I1")],
        vec![Ok(b"first".to_vec())],
        Ok(b"signed loader".to_vec()),
    );
    assert_eq!(
        report.outcome,
        Err(Failure { error: Error::BootloaderUnavailable, generation: None })
    );
    assert!(report.installer.esp.journal().is_empty());
}

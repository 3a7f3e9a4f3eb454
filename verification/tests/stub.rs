use lzbt_systemd::architecture::Architecture;
use lzbt_systemd::error::Error;
use lzbt_systemd::generation::{Generation, Resolved};
use lzbt_systemd::stub::{check_template, UnsignedStub, EMBEDDING_LIMIT};

fn template(machine: [u8; 2]) -> Vec<u8> {
    let mut bytes = vec![0u8; 64];
    bytes[0] = b'M';
    bytes[1] = b'Z';
    bytes[60] = 64;
    bytes.extend_from_slice(b"PE\0\0");
    bytes.extend_from_slice(&machine);
    bytes.extend_from_slice(&[0xde, 0xad]);
    bytes
}

fn x86_template() -> Vec<u8> {
    template([0x64, 0x86])
}

fn resolved(version: u64, cmdline: Vec<&str>) -> Resolved {
    Resolved {
        generation: Generation {
            version,
            toplevel: String::from("/nix/store/toplevel"),
            kernel: String::from("/nix/store/toplevel/kernel"),
            initrd: String::from("/nix/store/toplevel/initrd"),
            cmdline: cmdline.into_iter().map(String::from).collect(),
            specialisations: Vec::new(),
        },
        kernel: b"K1".to_vec(),
        initrd: b"I1".to_vec(),
        os_release: b"ID=nixos".to_vec(),
    }
}

#[test]
fn a_template_for_the_architecture_fits() {
    assert!(check_template(&x86_template(), Architecture::X86));
    assert!(check_template(&template([0x64, 0xaa]), Architecture::AArch64));
}

#[test]
fn a_template_for_another_architecture_does_not_fit() {
    assert!(!check_template(&x86_template(), Architecture::AArch64));
    assert!(!check_template(&template([0x64, 0xaa]), Architecture::X86));
    assert!(!check_template(&template([0x4c, 0x01]), Architecture::X86));
}

#[test]
fn a_malformed_template_does_not_fit() {
    assert!(!check_template(&Vec::new(), Architecture::X86));
    assert!(!check_template(&vec![b'M', b'Z'], Architecture::X86));
    let mut no_magic = x86_template();
    no_magic[0] = b'E';
    assert!(!check_template(&no_magic, Architecture::X86));
    let mut no_signature = x86_template();
    no_signature[65] = b'F';
    assert!(!check_template(&no_signature, Architecture::X86));
    let mut header_outside = x86_template();
    header_outside[60] = 65;
    assert!(!check_template(&header_outside, Architecture::X86));
    let mut header_far_outside = x86_template();
    header_far_outside[63] = 0xff;
    assert!(!check_template(&header_far_outside, Architecture::X86));
    let mut short = x86_template();
    short.truncate(69);
    assert!(!check_template(&short, Architecture::X86));
}

#[test]
fn the_header_may_end_with_the_template() {
    let mut exact = x86_template();
    exact.truncate(70);
    assert!(check_template(&exact, Architecture::X86));
}

#[test]
fn the_stub_is_the_template_and_what_is_embedded() {
    let template = x86_template();
    let stub = UnsignedStub::build(
        &Some(template.clone()),
        Architecture::X86,
        &resolved(0x0102, vec!["console=ttyS0"]),
        &String::from("EFI/nixos/k.efi"),
        &String::from("EFI/nixos/i.efi"),
    )
    .unwrap();
    let mut expected = template;
    expected.extend_from_slice(&[0x02, 0x01, 0, 0, 0, 0, 0, 0]);
    expected.extend_from_slice(&[8, 0, 0, 0]);
    expected.extend_from_slice(b"ID=nixos");
    expected.extend_from_slice(&[13, 0, 0, 0]);
    expected.extend_from_slice(b"console=ttyS0");
    expected.extend_from_slice(&[15, 0, 0, 0]);
    expected.extend_from_slice(b"EFI/nixos/k.efi");
    expected.extend_from_slice(&[15, 0, 0, 0]);
    expected.extend_from_slice(b"EFI/nixos/i.efi");
    assert_eq!(stub.bytes, expected);
    assert_eq!(stub.cmdline, "console=ttyS0");
    assert_eq!(stub.kernel, "EFI/nixos/k.efi");
    assert_eq!(stub.initrd, "EFI/nixos/i.efi");
    assert_eq!(stub.os_release, b"ID=nixos".to_vec());
}

#[test]
fn the_command_line_is_embedded_in_its_order() {
    let stub = UnsignedStub::build(
        &Some(x86_template()),
        Architecture::X86,
        &resolved(1, vec!["quiet", "init=/init", "quiet"]),
        &String::from("k"),
        &String::from("i"),
    )
    .unwrap();
    assert_eq!(stub.cmdline, "quiet init=/init quiet");
    let text = b"quiet init=/init quiet";
    assert!(stub.bytes.windows(text.len()).any(|w| w == text));
}

#[test]
fn building_twice_gives_the_same_bytes() {
    let generation = resolved(3, vec!["console=ttyS0", "ro"]);
    let first = UnsignedStub::build(
        &Some(x86_template()),
        Architecture::X86,
        &generation,
        &String::from("EFI/nixos/k.efi"),
        &String::from("EFI/nixos/i.efi"),
    )
    .unwrap();
    let second = UnsignedStub::build(
        &Some(x86_template()),
        Architecture::X86,
        &generation,
        &String::from("EFI/nixos/k.efi"),
        &String::from("EFI/nixos/i.efi"),
    )
    .unwrap();
    assert_eq!(first.bytes, second.bytes);
    assert_eq!(first.cmdline, second.cmdline);
}

#[test]
fn stubs_of_two_versions_differ() {
    let first = UnsignedStub::build(
        &Some(x86_template()),
        Architecture::X86,
        &resolved(1, vec!["ro"]),
        &String::from("k"),
        &String::from("i"),
    )
    .unwrap();
    let second = UnsignedStub::build(
        &Some(x86_template()),
        Architecture::X86,
        &resolved(2, vec!["ro"]),
        &String::from("k"),
        &String::from("i"),
    )
    .unwrap();
    assert_ne!(first.bytes, second.bytes);
}

#[test]
fn without_a_template_no_stub_is_built() {
    let built = UnsignedStub::build(
        &None,
        Architecture::X86,
        &resolved(1, vec!["ro"]),
        &String::from("k"),
        &String::from("i"),
    );
    assert_eq!(built.err(), Some(Error::TemplateUnavailable));
}

#[test]
fn a_template_that_does_not_fit_gives_no_stub() {
    let built = UnsignedStub::build(
        &Some(x86_template()),
        Architecture::AArch64,
        &resolved(1, vec!["ro"]),
        &String::from("k"),
        &String::from("i"),
    );
    assert_eq!(built.err(), Some(Error::StubConstructionFailed));
    let built = UnsignedStub::build(
        &Some(b"not an executable".to_vec()),
        Architecture::X86,
        &resolved(1, vec!["ro"]),
        &String::from("k"),
        &String::from("i"),
    );
    assert_eq!(built.err(), Some(Error::StubConstructionFailed));
}

#[test]
fn the_limit_of_an_embedded_value() {
    assert_eq!(EMBEDDING_LIMIT, 4294967295);
}

#[test]
fn empty_values_are_embedded_as_empty() {
    let mut generation = resolved(0, Vec::new());
    generation.os_release = Vec::new();
    let template = x86_template();
    let stub = UnsignedStub::build(
        &Some(template.clone()),
        Architecture::X86,
        &generation,
        &String::new(),
        &String::new(),
    )
    .unwrap();
    let mut expected = template;
    expected.extend_from_slice(&[0u8; 8]);
    expected.extend_from_slice(&[0u8; 16]);
    assert_eq!(stub.bytes, expected);
}

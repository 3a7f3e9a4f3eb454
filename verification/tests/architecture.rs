use lzbt_systemd::architecture::Architecture;
use lzbt_systemd::error::Error;

#[test]
fn resolves_the_supported_systems() {
    assert_eq!(Architecture::from_nixos_system("x86_64-linux"), Ok(Architecture::X86));
    assert_eq!(Architecture::from_nixos_system("aarch64-linux"), Ok(Architecture::AArch64));
}

#[test]
fn rejects_other_systems() {
    assert_eq!(
        Architecture::from_nixos_system("riscv64-linux"),
        Err(Error::UnsupportedArchitecture)
    );
    assert_eq!(Architecture::from_nixos_system(""), Err(Error::UnsupportedArchitecture));
    assert_eq!(
        Architecture::from_nixos_system("x86_64-linux "),
        Err(Error::UnsupportedArchitecture)
    );
    assert_eq!(
        Architecture::from_nixos_system("X86_64-LINUX"),
        Err(Error::UnsupportedArchitecture)
    );
}

#[test]
fn names_the_machine_type() {
    assert_eq!(Architecture::X86.efi_representation(), "x64");
    assert_eq!(Architecture::AArch64.efi_representation(), "aa64");
}

#[test]
fn names_the_fallback_file() {
    assert_eq!(Architecture::X86.efi_fallback_filename(), "BOOTX64.EFI");
    assert_eq!(Architecture::AArch64.efi_fallback_filename(), "BOOTAA64.EFI");
}

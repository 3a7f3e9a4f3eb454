use lzbt_systemd::error::Error;

#[test]
fn configuration_errors_are_told_apart() {
    assert!(Error::MissingStubTemplate.configuration());
    assert!(Error::MissingPublicKey.configuration());
    assert!(Error::MissingPrivateKey.configuration());
    assert!(Error::UnsupportedArchitecture.configuration());
    assert!(Error::InvalidGenerationLink.configuration());
    assert!(!Error::CredentialUnavailable.configuration());
    assert!(!Error::SigningFailed.configuration());
    assert!(!Error::TemplateUnavailable.configuration());
    assert!(!Error::StubConstructionFailed.configuration());
    assert!(!Error::StorageFull.configuration());
    assert!(!Error::PermissionDenied.configuration());
    assert!(!Error::WriteFailed.configuration());
    assert!(!Error::BootloaderUnavailable.configuration());
}

#[test]
fn a_full_partition_is_told_by_its_error_number() {
    assert_eq!(Error::from_os_error(Some(28)), Error::StorageFull);
    assert_eq!(Error::from_os_error(Some(122)), Error::StorageFull);
}

#[test]
fn a_refusal_is_told_by_its_error_number() {
    assert_eq!(Error::from_os_error(Some(1)), Error::PermissionDenied);
    assert_eq!(Error::from_os_error(Some(13)), Error::PermissionDenied);
    assert_eq!(Error::from_os_error(Some(30)), Error::PermissionDenied);
}

#[test]
fn any_other_failure_is_a_failed_write() {
    assert_eq!(Error::from_os_error(Some(5)), Error::WriteFailed);
    assert_eq!(Error::from_os_error(Some(0)), Error::WriteFailed);
    assert_eq!(Error::from_os_error(Some(-1)), Error::WriteFailed);
    assert_eq!(Error::from_os_error(None), Error::WriteFailed);
}

#[test]
fn every_error_has_its_message() {
    assert_eq!(
        Error::MissingStubTemplate.describe(),
        "Failed to read LANZABOOTE_STUB env variable"
    );
    assert_eq!(Error::MissingPublicKey.describe(), "Failed to obtain public key");
    assert_eq!(Error::MissingPrivateKey.describe(), "Failed to obtain private key");
    assert_eq!(Error::UnsupportedArchitecture.describe(), "Unsupported system");
    assert_eq!(
        Error::CredentialUnavailable.describe(),
        "Failed to read the signing credentials"
    );
    assert_eq!(Error::SigningFailed.describe(), "Failed to sign");
    assert_eq!(Error::TemplateUnavailable.describe(), "Failed to find the stub template");
    assert_eq!(Error::StubConstructionFailed.describe(), "Failed to build the stub");
    assert_eq!(Error::StorageFull.describe(), "No space left on the system partition");
    assert_eq!(
        Error::PermissionDenied.describe(),
        "Permission denied on the system partition"
    );
    assert_eq!(Error::WriteFailed.describe(), "Failed to write to the system partition");
    assert_eq!(
        Error::InvalidGenerationLink.describe(),
        "Failed to read the version of a generation link"
    );
    assert_eq!(Error::BootloaderUnavailable.describe(), "Failed to read the boot loader");
}

use najm_kernel::fs::mount;
use najm_kernel::realm;
use najm_kernel::store::{
    capability_bit, compute_digest, effective_profile, examine, grant, payload, report, scan,
    verify, Manifest, SignatureStatus, StoreError,
};

fn package(manifest: &str, files: &[u8]) -> Vec<u8> {
    let mut out = b"NAJMPKG\0".to_vec();
    out.extend_from_slice(&1u32.to_le_bytes());
    out.extend_from_slice(&(manifest.len() as u32).to_le_bytes());
    out.extend_from_slice(&compute_digest(manifest.as_bytes(), files));
    out.extend_from_slice(manifest.as_bytes());
    out.extend_from_slice(files);
    out
}

const NOTES: &str = "\
# a comment
id = org.najm.notes
name = Notes # really
version=1.0
publisher = Najm
entry = /bin/notes
realm = vault
capability = file_read
capability = serial_write
capability = flying
not a setting
unknown = ignored
";

#[test]
fn manifests_are_read() {
    let m = Manifest::parse(NOTES).unwrap();
    assert_eq!(m.id, "org.najm.notes");
    assert_eq!(m.name, "Notes # really");
    assert_eq!(m.version, "1.0");
    assert_eq!(m.publisher, "Najm");
    assert_eq!(m.entry, "/bin/notes");
    assert_eq!(m.requested_realm, 2);
    assert_eq!(m.requested_capabilities, 5);
    assert!(Manifest::parse("id = only").is_none());
    assert!(Manifest::parse("entry = only").is_none());
    assert!(Manifest::parse("").is_none());
    let last = Manifest::parse("id=a\nentry=b\nrealm=gaming\nrealm=system\r\nid = c").unwrap();
    assert_eq!((last.id.as_str(), last.requested_realm), ("c", 0));
}

#[test]
fn rights_have_names() {
    let names = [
        ("serial_write", 0x1),
        ("timer_read", 0x2),
        ("file_read", 0x4),
        ("file_write", 0x8),
        ("process_spawn", 0x10),
        ("ipc_create", 0x20),
        ("ipc_connect", 0x40),
        ("surface_create", 0x80),
        ("input_read", 0x100),
        ("exclusive_scanout", 0x200),
    ];
    for (name, bit) in names {
        assert_eq!(capability_bit(name), Some(bit));
    }
    assert_eq!(capability_bit("root"), None);
    assert_eq!(capability_bit(""), None);
}

#[test]
fn an_intact_package_gets_home_whatever_it_asks() {
    let bytes = package(NOTES, b"files");
    let verdict = verify(&bytes).unwrap();
    assert!(verdict.integrity_ok);
    assert_eq!(verdict.signature, SignatureStatus::Absent);
    assert_eq!(verdict.granted_realm.kind, realm::home().kind);
    assert!(verdict.request_denied);
    assert_eq!(effective_profile(&verdict).capabilities, 5);
    assert_eq!(payload(&bytes).unwrap(), b"files");
    assert_eq!(
        report(&verdict),
        [
            "Najm Store: package 'Notes # really' v1.0 by 'Najm' - entry '/bin/notes'",
            "Najm Store:   integrity OK, signature Absent, granted Home Realm (the package requested a different Realm and was refused)",
            "Najm Store:   the request was denied because elevation requires a signature from a publisher verified in advance - see ARCHITECTURE.md section 2e. Signature verification is not implemented, so it fails closed and nothing is elevated.",
        ]
    );
}

#[test]
fn a_package_that_asks_for_home_gets_what_it_asks() {
    let bytes = package("id=a\nentry=b\nname=A\nversion=2\npublisher=P", b"");
    let verdict = verify(&bytes).unwrap();
    assert!(!verdict.request_denied);
    assert_eq!(effective_profile(&verdict).capabilities, realm::home().capabilities);
    assert_eq!(
        report(&verdict)[1],
        "Najm Store:   integrity OK, signature Absent, granted Home Realm (as requested)"
    );
    assert_eq!(report(&verdict).len(), 2);
}

#[test]
fn every_flipped_byte_is_noticed() {
    let good = package(NOTES, b"files");
    for i in 48..good.len() {
        let mut bad = good.clone();
        bad[i] ^= 0x20;
        let examination = examine(&bad);
        assert!(examination.rejection.is_some());
        if let Ok(verdict) = examination.result {
            assert!(!verdict.integrity_ok);
            assert_eq!(verdict.granted_realm.kind, realm::home().kind);
            assert!(report(&verdict)[1].starts_with("Najm Store:   integrity FAILED"));
        }
    }
    assert!(examine(&good).rejection.is_none());
}

#[test]
fn elevation_needs_a_verified_signature_and_intact_contents() {
    assert_eq!(grant(SignatureStatus::Verified, 2, true).name, "Vault Realm");
    assert_eq!(grant(SignatureStatus::Verified, 1, true).name, "Gaming Realm");
    assert_eq!(grant(SignatureStatus::Verified, 0, true).name, "Home Realm");
    assert_eq!(grant(SignatureStatus::Verified, 3, true).name, "Home Realm");
    for signature in [SignatureStatus::Absent, SignatureStatus::Unverified, SignatureStatus::Verified] {
        assert_eq!(grant(signature, 2, false).name, "Home Realm");
    }
    assert_eq!(grant(SignatureStatus::Unverified, 2, true).name, "Home Realm");
    assert_eq!(grant(SignatureStatus::Absent, 1, true).name, "Home Realm");
}

#[test]
fn malformed_packages_are_refused() {
    let good = package(NOTES, b"files");
    assert!(matches!(verify(b"tiny"), Err(StoreError::TooSmall)));
    assert!(matches!(payload(b"tiny"), Err(StoreError::TooSmall)));
    let mut bad = good.clone();
    bad[0] = 0;
    assert!(matches!(verify(&bad), Err(StoreError::BadMagic)));
    let mut bad = good.clone();
    bad[8] = 2;
    assert!(matches!(verify(&bad), Err(StoreError::UnsupportedVersion(2))));
    let mut bad = good.clone();
    bad[14] = 1;
    assert!(matches!(verify(&bad), Err(StoreError::Malformed(_))));
    assert!(matches!(payload(&bad), Err(StoreError::Malformed(_))));
    let mut bad = good.clone();
    bad[48] = 0xff;
    assert!(matches!(verify(&bad), Err(StoreError::Malformed("the manifest is not valid UTF-8"))));
    let nameless = package("name = x", b"");
    assert!(matches!(verify(&nameless), Err(StoreError::BadManifest)));
}

#[test]
fn store_errors_say_what_is_wrong() {
    assert_eq!(StoreError::TooSmall.message(), "package is smaller than its own header");
    assert_eq!(StoreError::BadMagic.message(), "not a Najm package");
    assert_eq!(
        StoreError::UnsupportedVersion(4).message(),
        "package format version 4 is not supported"
    );
    assert_eq!(StoreError::Malformed("why").message(), "malformed package: why");
    assert_eq!(
        StoreError::BadManifest.message(),
        "the manifest is missing an id or an entry point, without which the package names nothing to run"
    );
}

#[test]
fn a_directory_is_scanned_for_packages() {
    let good = package(NOTES, b"files");
    let mut tampered = good.clone();
    let last = tampered.len() - 1;
    tampered[last] ^= 1;
    let entries: [(&str, &[u8]); 5] = [
        ("/pkg/broken.najm", b"junk"),
        ("/pkg/good.najm", &good),
        ("/pkg/readme.txt", b"text"),
        ("/pkg/tampered.najm", &tampered),
        ("/elsewhere.najm", &good),
    ];
    let table = 24 + 144 * 6;
    let mut archive = b"NAJMAR\0\0".to_vec();
    archive.extend_from_slice(&1u32.to_le_bytes());
    archive.extend_from_slice(&6u32.to_le_bytes());
    archive.extend_from_slice(&0u64.to_le_bytes());
    let mut at = table as u64;
    let mut data = Vec::new();
    let mut add = |path: &str, flags: u32, bytes: &[u8]| {
        archive.extend_from_slice(&at.to_le_bytes());
        archive.extend_from_slice(&(bytes.len() as u64).to_le_bytes());
        archive.extend_from_slice(&flags.to_le_bytes());
        archive.extend_from_slice(&(path.len() as u32).to_le_bytes());
        let mut field = vec![0u8; 120];
        field[..path.len()].copy_from_slice(path.as_bytes());
        archive.extend_from_slice(&field);
        data.extend_from_slice(bytes);
        at += bytes.len() as u64;
    };
    add("/pkg", 1, b"");
    for (path, bytes) in entries {
        add(path, 0, bytes);
    }
    archive.extend_from_slice(&data);
    let fs = mount(&archive).unwrap();
    let found = scan(&fs, "/pkg");
    assert_eq!(found.verdicts.len(), 2);
    assert!(found.verdicts[0].integrity_ok);
    assert!(!found.verdicts[1].integrity_ok);
    assert_eq!(found.lines.len(), 2);
    assert_eq!(
        found.lines[0],
        "Najm Store: could not read '/pkg/broken.najm' - package is smaller than its own header"
    );
    assert!(found.lines[1].starts_with("Najm Store: REJECTED"));
    assert!(scan(&fs, "/absent").verdicts.is_empty());
    assert!(scan(&fs, "/pkg/good.najm").verdicts.is_empty());
}

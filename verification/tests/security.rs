use najm_kernel::arch::x86_64::interrupts::{ticks_with_capability, Clock};
use najm_kernel::drivers::serial::write_with_capability;
use najm_kernel::realm::{self, realm_iteration};
use najm_kernel::security::capability::{
    Capability, CapabilityError, Registry, SerialWrite, TimerRead,
};
use najm_kernel::security::sha256::{digest, digests_equal, selftest_vectors, Sha256};

fn hex(bytes: &[u8]) -> String {
    bytes.iter().map(|b| format!("{:02x}", b)).collect()
}

#[test]
fn digests_are_the_published_ones() {
    assert!(selftest_vectors());
    assert_eq!(
        hex(&digest(b"")),
        "e3b0c44298fc1c149afbf4c8996fb92427ae41e4649b934ca495991b7852b855"
    );
    assert_eq!(
        hex(&digest(b"abc")),
        "ba7816bf8f01cfea414140de5dae2223b00361a396177a9cb410ff61f20015ad"
    );
    assert_eq!(
        hex(&digest(b"abcdbcdecdefdefgefghfghighijhijkijkljklmklmnlmnomnopnopq")),
        "248d6a61d20638b8e5c026930c3e6039a33ce45964ff2167f6ecedd419db06c1"
    );
    assert_eq!(
        hex(&digest(&vec![b'a'; 1_000_000])),
        "cdc76e5c9914fb9281a1c7e284d73e67f1809a48a497200e046d39ccc7112cd0"
    );
}

#[test]
fn pieces_do_not_change_a_digest() {
    let data: Vec<u8> = (0..300u32).map(|n| (n * 7) as u8).collect();
    for split in [0, 1, 55, 56, 63, 64, 65, 128, 299, 300] {
        let mut hasher = Sha256::new();
        hasher.update(&data[..split]);
        hasher.update(&data[split..]);
        let whole = digest(&data);
        let pieces = hasher.finish();
        assert!(digests_equal(&whole, &pieces));
    }
    let mut other = data.clone();
    other[17] ^= 1;
    assert!(!digests_equal(&digest(&data), &digest(&other)));
    assert_eq!(Sha256::default().finish(), digest(b""));
}

#[test]
fn revocation_reaches_every_copy_and_nothing_else() {
    let mut registry = Registry::new();
    let clock = Clock { ticks: 42, ring3_preemptions: 0 };
    let serial: Capability<SerialWrite> = Capability::issue(&mut registry);
    let copy = serial.derive();
    let timer: Capability<TimerRead> = Capability::issue(&mut registry);
    assert_eq!(write_with_capability(&serial, &registry, "hi\n").unwrap(), b"hi\n");
    serial.revoke(&mut registry);
    assert!(copy.is_revoked(&registry));
    assert_eq!(
        write_with_capability(&copy, &registry, "hi\n").unwrap_err(),
        CapabilityError::Revoked
    );
    assert_eq!(ticks_with_capability(&timer, &registry, &clock), Ok(42));
    let timer_copy = timer.derive();
    timer.revoke(&mut registry);
    assert_eq!(
        ticks_with_capability(&timer_copy, &registry, &clock),
        Err(CapabilityError::Revoked)
    );
    assert_eq!(CapabilityError::Revoked.message(), "capability has been revoked");
}

#[test]
fn realms_have_the_rights_they_are_meant_to() {
    let (serial, timer, file_write, spawn, input, scanout) = (1, 2, 8, 16, 0x100, 0x200);
    assert_eq!(realm::home().capabilities, 0x1E7);
    assert_eq!(realm::gaming().capabilities, 0x387);
    assert_eq!(realm::vault().capabilities, 0x8E);
    assert_eq!(realm::system().capabilities, u64::MAX);
    assert!(realm::home().allows(serial | timer));
    assert!(!realm::home().allows(serial | file_write));
    assert!(realm::gaming().allows(scanout));
    assert!(!realm::gaming().allows(file_write) && !realm::gaming().allows(spawn));
    assert!(!realm::vault().allows(serial) && !realm::vault().allows(input));
    assert_eq!(realm::vault().name, "Vault Realm");
    assert_eq!(realm::gaming().kind, 1);
}

#[test]
fn a_realm_task_uses_what_it_was_given() {
    let mut registry = Registry::new();
    let clock = Clock { ticks: 9, ring3_preemptions: 0 };
    let serial: Capability<SerialWrite> = Capability::issue(&mut registry);
    let timer: Capability<TimerRead> = Capability::issue(&mut registry);
    let revoked = timer.derive();
    let gaming = realm::spawn("Gaming Realm", Some(serial), Some(timer.derive()));
    let turn = realm_iteration(&gaming, &registry, &clock, 1);
    assert_eq!(
        turn.written.unwrap(),
        b"[Gaming Realm] iteration 1: wrote via its own SerialWrite capability\n"
    );
    assert!(turn.no_serial.is_none());
    assert_eq!(
        turn.timer,
        "[Gaming Realm] iteration 1: read 9 ticks via its own TimerRead capability"
    );
    timer.revoke(&mut registry);
    let vault = realm::spawn("Vault Realm", None, Some(revoked));
    let turn = realm_iteration(&vault, &registry, &clock, 0);
    assert!(turn.written.is_none());
    assert_eq!(
        turn.no_serial.unwrap(),
        "[Vault Realm] iteration 0: has no SerialWrite capability - cannot write, by construction"
    );
    assert_eq!(
        turn.timer,
        "[Vault Realm] iteration 0: TimerRead capability rejected (capability has been revoked)"
    );
    let home = realm::spawn("Home Realm", None, None);
    assert_eq!(
        realm_iteration(&home, &registry, &clock, 2).timer,
        "[Home Realm] iteration 2: has no TimerRead capability - cannot read ticks, by construction"
    );
}

use najm_kernel::fs::{self, all_paths, lookup, mount, read_all, read_dir, report, MountError, Node};

fn archive(entries: &[(&[u8], u32, &[u8])]) -> Vec<u8> {
    let table = 24 + 144 * entries.len();
    let mut out = Vec::new();
    out.extend_from_slice(b"NAJMAR\0\0");
    out.extend_from_slice(&1u32.to_le_bytes());
    out.extend_from_slice(&(entries.len() as u32).to_le_bytes());
    let total = table + entries.iter().map(|e| e.2.len()).sum::<usize>();
    out.extend_from_slice(&(total as u64).to_le_bytes());
    let mut at = table;
    for (path, flags, data) in entries {
        out.extend_from_slice(&(at as u64).to_le_bytes());
        out.extend_from_slice(&(data.len() as u64).to_le_bytes());
        out.extend_from_slice(&flags.to_le_bytes());
        out.extend_from_slice(&(path.len() as u32).to_le_bytes());
        let mut field = vec![0u8; 120];
        field[..path.len()].copy_from_slice(path);
        out.extend_from_slice(&field);
        at += data.len();
    }
    for (_, _, data) in entries {
        out.extend_from_slice(data);
    }
    out
}

fn sample() -> Vec<u8> {
    archive(&[
        (b"/bin", 1, b""),
        (b"/etc", 1, b""),
        (b"/etc/motd", 0, b"Najm OS: hello\n"),
        (b"/bin/hello", 0, b"\x7fELF"),
        (b"/etc/deep", 1, b""),
        (b"/etc/deep/x", 0, b"x"),
    ])
}

#[test]
fn a_mounted_archive_serves_its_files() {
    let bytes = sample();
    let fs = mount(&bytes).unwrap();
    assert_eq!(fs.node_count(), 7);
    assert_eq!(read_all(&fs, "/etc/motd").unwrap(), b"Najm OS: hello\n");
    assert_eq!(read_all(&fs, "/etc"), None);
    assert_eq!(read_all(&fs, "/nothing"), None);
    assert_eq!(lookup(&fs, "/etc/../etc/motd"), None);
    assert!(lookup(&fs, "/").unwrap().is_directory);
    let motd = lookup(&fs, "/etc/motd").unwrap();
    assert_eq!(motd.size(), 15);
    assert!(!motd.is_directory);
}

#[test]
fn directories_list_their_immediate_children_in_order() {
    let bytes = sample();
    let fs = mount(&bytes).unwrap();
    assert_eq!(read_dir(&fs, "/").unwrap(), ["/bin", "/etc"]);
    assert_eq!(read_dir(&fs, "/etc").unwrap(), ["/etc/deep", "/etc/motd"]);
    assert_eq!(read_dir(&fs, "/etc/deep").unwrap(), ["/etc/deep/x"]);
    assert_eq!(read_dir(&fs, "/etc/motd"), None);
    assert_eq!(read_dir(&fs, "/absent"), None);
}

#[test]
fn reads_stop_at_the_end_of_the_file() {
    let bytes = sample();
    let fs = mount(&bytes).unwrap();
    let node = lookup(&fs, "/etc/motd").unwrap();
    let mut buffer = [0u8; 8];
    assert_eq!(fs::read(&fs, &node, 0, &mut buffer), 8);
    assert_eq!(&buffer, b"Najm OS:");
    assert_eq!(fs::read(&fs, &node, 9, &mut buffer), 6);
    assert_eq!(&buffer, b"hello\nS:");
    assert_eq!(fs::read(&fs, &node, 15, &mut buffer), 0);
    assert_eq!(fs::read(&fs, &node, 99, &mut buffer), 0);
    let directory = lookup(&fs, "/etc").unwrap();
    assert_eq!(fs::read(&fs, &directory, 0, &mut buffer), 0);
    let stale = Node { offset: bytes.len() - 2, len: 4, is_directory: false };
    assert_eq!(fs::read(&fs, &stale, 0, &mut buffer), 0);
}

#[test]
fn every_path_is_reported() {
    let bytes = archive(&[(b"/a", 0, b"12345"), (b"/d", 1, b"")]);
    let fs = mount(&bytes).unwrap();
    assert_eq!(
        all_paths(&fs),
        [
            (String::from("/"), 0, true),
            (String::from("/a"), 5, false),
            (String::from("/d"), 0, true),
        ]
    );
    assert_eq!(
        report(&fs),
        ["Najm Kernel:   //", "Najm Kernel:   /a (5 bytes)", "Najm Kernel:   /d/"]
    );
}

#[test]
fn a_path_that_is_not_utf8_names_nothing_else() {
    let bytes = archive(&[(b"/a\xff", 0, b"data")]);
    let fs = mount(&bytes).unwrap();
    assert_eq!(read_all(&fs, "/a\u{FFFD}").unwrap(), b"data");
    assert_eq!(lookup(&fs, "/a"), None);
}

#[test]
fn malformed_archives_are_refused() {
    assert_eq!(mount(b"short").unwrap_err(), MountError::TooSmall);
    let good = sample();
    let mut bad = good.clone();
    bad[0] = b'X';
    assert_eq!(mount(&bad).unwrap_err(), MountError::BadMagic);
    let mut bad = good.clone();
    bad[8] = 9;
    assert_eq!(mount(&bad).unwrap_err(), MountError::UnsupportedVersion(9));
    let mut bad = good.clone();
    bad[12] = 200;
    assert_eq!(mount(&bad).unwrap_err(), MountError::TooSmall);
    let mut bad = good.clone();
    bad[24 + 144 * 2 + 8] = 255;
    assert_eq!(mount(&bad).unwrap_err(), MountError::EntryOutOfBounds { index: 2 });
    let climbing = archive(&[(b"/a/../b", 0, b"")]);
    assert_eq!(mount(&climbing).unwrap_err(), MountError::BadPath { index: 0 });
    let twice = archive(&[(b"/a", 0, b""), (b"/a", 0, b"")]);
    assert_eq!(mount(&twice).unwrap_err(), MountError::DuplicatePath { index: 1 });
    let long_directory = archive(&[(b"/a", 1, b"data")]);
    assert_eq!(
        mount(&long_directory).unwrap_err(),
        MountError::EntryOutOfBounds { index: 0 }
    );
}

#[test]
fn mount_errors_say_what_is_wrong() {
    assert_eq!(MountError::TooSmall.message(), "archive is smaller than its own header");
    assert_eq!(
        MountError::UnsupportedVersion(3).message(),
        "archive format version 3 is not supported"
    );
    assert_eq!(
        MountError::DuplicatePath { index: 12 }.message(),
        "entry 12 repeats a path an earlier entry already claimed"
    );
    assert!(MountError::BadPath { index: 4 }.message().starts_with("entry 4 has a path"));
    assert!(MountError::EntryOutOfBounds { index: 4 }.message().starts_with("entry 4 names"));
    assert_eq!(
        MountError::BadMagic.message(),
        "archive does not start with the NAR magic"
    );
}

use najm_kernel::abi::archive::{basename, parent_of, path_is_valid};
use najm_kernel::abi::layout::{is_user_address, HIGHER_HALF_START, USER_SPACE_END};
use najm_kernel::abi::{decode, encode_error, err, is_error, FileInfo, InputEvent, RealmInfo, SurfaceInfo};

#[test]
fn error_numbers_round_trip() {
    assert_eq!(encode_error(err::ENOSYS), u64::MAX);
    assert_eq!(encode_error(err::EFAULT), u64::MAX - 1);
    for errno in 1..=err::MAX {
        let raw = encode_error(errno);
        assert!(is_error(raw));
        assert_eq!(decode(raw), Err(errno));
    }
}

#[test]
fn results_outside_the_error_window_are_results() {
    assert_eq!(decode(0), Ok(0));
    assert_eq!(decode(7), Ok(7));
    let last = encode_error(err::MAX) - 1;
    assert!(!is_error(last));
    assert_eq!(decode(last), Ok(last));
}

#[test]
fn paths_that_name_something_are_accepted() {
    assert!(path_is_valid(b"/"));
    assert!(path_is_valid(b"/bin/hello"));
    assert!(path_is_valid(b"/a/.../b"));
    let mut longest = vec![b'/'];
    longest.extend(vec![b'a'; 119]);
    assert!(path_is_valid(&longest));
    longest.push(b'a');
    assert!(!path_is_valid(&longest));
}

#[test]
fn paths_that_climb_or_are_ambiguous_are_refused() {
    for path in [
        &b""[..],
        b"bin",
        b"//",
        b"/bin/",
        b"/bin//hello",
        b"/etc/../etc/motd",
        b"/./etc",
        b"/..",
        b"/a\0b",
    ] {
        assert!(!path_is_valid(path), "{:?}", path);
    }
}

#[test]
fn a_path_splits_into_parent_and_name() {
    assert_eq!(parent_of(b"/"), None);
    assert_eq!(parent_of(b"/bin"), Some(&b"/"[..]));
    assert_eq!(parent_of(b"/bin/hello"), Some(&b"/bin"[..]));
    assert_eq!(parent_of(b"plain"), None);
    assert_eq!(basename(b"/bin/hello"), b"hello");
    assert_eq!(basename(b"plain"), b"plain");
    assert_eq!(basename(b"/"), b"");
}

#[test]
fn user_space_ends_below_the_kernel() {
    assert!(is_user_address(0));
    assert!(is_user_address(USER_SPACE_END - 1));
    assert!(!is_user_address(USER_SPACE_END));
    assert!(!is_user_address(HIGHER_HALF_START));
}

#[test]
fn records_start_out_zeroed() {
    assert_eq!(FileInfo::default(), FileInfo { size: 0, is_directory: 0 });
    assert_eq!(RealmInfo::default(), RealmInfo { kind: 0, pid: 0, capabilities: 0 });
    assert_eq!(
        SurfaceInfo::default(),
        SurfaceInfo { width: 0, height: 0, stride: 0, bytes_per_pixel: 0 }
    );
    assert_eq!(InputEvent::default(), InputEvent { kind: 0, code: 0, x: 0, y: 0 });
}

use najm_kernel::bytes::{bytes_eq, copy_into, fill_zero, read_u16, read_u32, read_u64, u64_le_bytes};
use najm_kernel::settings::{is_white_space, line_end, read_line, Line};
use najm_kernel::text::{
    chars_before, chars_of, push_ascii, push_decimal, push_hexadecimal, push_padded_decimal,
    push_padded_hexadecimal, text_eq,
};

fn read(text: &str) -> Line {
    let chars = chars_of(text);
    let end = line_end(&chars, 0);
    read_line(&chars, 0, end)
}

#[test]
fn numbers_are_little_endian() {
    let bytes = [0x01, 0x02, 0x03, 0x04, 0x05, 0x06, 0x07, 0x08];
    assert_eq!(read_u16(&bytes, 1), 0x0302);
    assert_eq!(read_u32(&bytes, 2), 0x0605_0403);
    assert_eq!(read_u64(&bytes, 0), 0x0807_0605_0403_0201);
    for value in [0, 1, 0xFF, 0x1234_5678_9ABC_DEF0, u64::MAX] {
        assert_eq!(u64_le_bytes(value), value.to_le_bytes().to_vec());
        assert_eq!(read_u64(&u64_le_bytes(value), 0), value);
    }
}

#[test]
fn bytes_are_copied_cleared_and_compared() {
    let mut memory = [9u8; 8];
    copy_into(&mut memory, 2, &[1, 2, 3, 4], 1, 2);
    assert_eq!(memory, [9, 9, 2, 3, 9, 9, 9, 9]);
    fill_zero(&mut memory, 3, 2);
    assert_eq!(memory, [9, 9, 2, 0, 0, 9, 9, 9]);
    assert!(bytes_eq(b"abc", b"abc"));
    assert!(!bytes_eq(b"abc", b"abd"));
    assert!(!bytes_eq(b"abc", b"ab"));
}

#[test]
fn numbers_are_written_as_text() {
    for n in [0u64, 9, 10, 16, 255, 4096, 1_234_567_890, u64::MAX] {
        let mut out = String::from("n=");
        push_decimal(&mut out, n);
        assert_eq!(out, format!("n={}", n));
        let mut out = String::new();
        push_hexadecimal(&mut out, n);
        assert_eq!(out, format!("{:x}", n));
        let mut out = String::new();
        push_padded_decimal(&mut out, n, 4);
        assert_eq!(out, format!("{:04}", n));
        let mut out = String::new();
        push_padded_hexadecimal(&mut out, n, 2);
        assert_eq!(out, format!("{:02x}", n));
    }
}

#[test]
fn text_is_compared_and_ordered_like_strings() {
    let words = ["", "/", "/bin", "/bin/a", "/binary", "é", "z", "\u{10FFFF}"];
    for a in words {
        for b in words {
            assert_eq!(text_eq(a, b), a == b);
            assert_eq!(chars_before(&chars_of(a), &chars_of(b)), a < b);
        }
    }
    let mut out = String::new();
    push_ascii(&mut out, b"PE\n");
    assert_eq!(out, "PE\n");
}

#[test]
fn white_space_is_what_the_standard_library_says() {
    for n in 0..=0x10FFFFu32 {
        if let Some(c) = char::from_u32(n) {
            assert_eq!(is_white_space(c), c.is_whitespace(), "{:#x}", n);
        }
    }
}

#[test]
fn settings_are_split_at_the_first_equals_sign() {
    match read("  key = a = b \r\nnext") {
        Line::Setting { key, value } => {
            assert_eq!(key, "key");
            assert_eq!(value, "a = b");
        }
        other => panic!("{:?}", other),
    }
    match read("colour = #0d1117") {
        Line::Setting { value, .. } => assert_eq!(value, "#0d1117"),
        other => panic!("{:?}", other),
    }
    assert!(matches!(read(""), Line::Blank));
    assert!(matches!(read(" \t "), Line::Blank));
    assert!(matches!(read("  # comment = not a setting"), Line::Blank));
    assert!(matches!(read("no separator"), Line::NotASetting));
}

use najm_kernel::abi::{layout, sys};
use najm_kernel::image::{LogLine, Step};
use najm_kernel::loader::{self, parse_header, segment_flags, LoadError};
use najm_kernel::mirage::{self, pe, win32, MirageError};
use najm_kernel::mm::address_space::{AddressSpace, MapError};
use najm_kernel::mm::paging::PageFlags;

fn put(bytes: &mut [u8], at: usize, value: &[u8]) {
    bytes[at..at + value.len()].copy_from_slice(value);
}

/// An ELF file with one `(type, flags, offset, vaddr, filesz, memsz)` per
/// program header.
fn elf(segments: &[(u32, u32, u64, u64, u64, u64)], len: usize) -> Vec<u8> {
    let mut b = vec![0u8; len];
    put(&mut b, 0, &[0x7f, b'E', b'L', b'F', 2, 1]);
    put(&mut b, 16, &2u16.to_le_bytes());
    put(&mut b, 18, &0x3eu16.to_le_bytes());
    put(&mut b, 24, &0x40_0010u64.to_le_bytes());
    put(&mut b, 32, &64u64.to_le_bytes());
    put(&mut b, 54, &56u16.to_le_bytes());
    put(&mut b, 56, &(segments.len() as u16).to_le_bytes());
    for (i, s) in segments.iter().enumerate() {
        let at = 64 + 56 * i;
        put(&mut b, at, &s.0.to_le_bytes());
        put(&mut b, at + 4, &s.1.to_le_bytes());
        put(&mut b, at + 8, &s.2.to_le_bytes());
        put(&mut b, at + 16, &s.3.to_le_bytes());
        put(&mut b, at + 32, &s.4.to_le_bytes());
        put(&mut b, at + 40, &s.5.to_le_bytes());
    }
    b
}

fn flags(writable: bool, no_execute: bool) -> PageFlags {
    PageFlags { writable, user_accessible: true, no_execute }
}

#[test]
fn permissions_never_allow_both_writing_and_executing() {
    assert_eq!(segment_flags(4, true), Ok(flags(false, true)));
    assert_eq!(segment_flags(5, true), Ok(flags(false, false)));
    assert_eq!(segment_flags(6, true), Ok(flags(true, true)));
    assert_eq!(segment_flags(6, false), Ok(flags(true, false)));
    assert_eq!(segment_flags(7, true), Err(loader::WRITE_AND_EXECUTE));
    assert_eq!(segment_flags(3, true), Err(loader::NOT_READABLE));
    assert_eq!(segment_flags(0, true), Err(loader::NOT_READABLE));
}

#[test]
fn a_program_is_mapped_filled_and_then_tightened() {
    let file = elf(
        &[
            (6, 4, 0, 0, 0, 0),
            (1, 5, 0x100, 0x40_0010, 0x20, 0x20),
            (1, 6, 0x120, 0x40_2ff0, 0x10, 0x1010),
            (1, 4, 0, 0x50_0000, 0, 0),
        ],
        0x200,
    );
    let plan = loader::load_image(&file, "test", true, &mut Vec::new()).unwrap();
    let ready = plan.outcome.unwrap();
    assert_eq!(ready.entry, 0x40_0010);
    assert_eq!(ready.stack_top, layout::USER_STACK_TOP);
    let bottom = layout::USER_STACK_BOTTOM;
    let fill = flags(true, false);
    assert_eq!(plan.steps.len(), 10);
    let s = &plan.steps;
    assert!(matches!(&s[0], Step::MapPages { first: 0x40_0000, pages: 1, flags } if *flags == fill));
    assert!(matches!(&s[1], Step::Zero { addr: 0x40_0000, len: 0x1000 }));
    assert!(matches!(&s[2], Step::Copy { addr: 0x40_0010, from: 0x100, to: 0x120 }));
    assert!(matches!(&s[3], Step::Protect { first: 0x40_0000, pages: 1, flags: f } if *f == flags(false, false)));
    assert!(matches!(&s[4], Step::MapPages { first: 0x40_2000, pages: 2, .. }));
    assert!(matches!(&s[5], Step::Zero { addr: 0x40_2000, len: 0x2000 }));
    assert!(matches!(&s[6], Step::Copy { addr: 0x40_2ff0, from: 0x120, to: 0x130 }));
    assert!(matches!(&s[7], Step::Protect { first: 0x40_2000, pages: 2, flags: f } if *f == flags(true, true)));
    assert!(matches!(&s[8], Step::MapPages { first, pages, flags: f }
        if *first == bottom && *pages == layout::USER_STACK_PAGES && *f == flags(true, true)));
    assert!(matches!(&s[9], Step::Zero { addr, len }
        if *addr == bottom && *len == layout::USER_STACK_PAGES * 4096));
}

fn load_error(segment: (u32, u32, u64, u64, u64, u64)) -> (u64, &'static str) {
    let plan = loader::load_image(&elf(&[segment], 0x200), "test", true, &mut Vec::new()).unwrap();
    match plan.outcome {
        Err(LoadError::BadSegment { index: 0, vaddr, reason }) => (vaddr, reason),
        _ => panic!("the segment was loaded"),
    }
}

#[test]
fn bad_segments_are_named() {
    assert_eq!(load_error((1, 7, 0, 0x40_0000, 0, 0)), (0x40_0000, loader::WRITE_AND_EXECUTE));
    assert_eq!(load_error((1, 2, 0, 0x40_0000, 0, 0)), (0x40_0000, loader::NOT_READABLE));
    let high = layout::HIGHER_HALF_START;
    assert_eq!(load_error((1, 4, 0, high, 0, 0)), (high, "load address is outside user space"));
    let end = layout::USER_SPACE_END;
    assert_eq!(load_error((1, 4, 0, end, 1, 1)), (end, "load address is outside user space"));
    assert_eq!(
        load_error((1, 4, 0, 0x40_0000, 2, 1)),
        (0x40_0000, "file size exceeds memory size")
    );
    assert_eq!(
        load_error((1, 4, u64::MAX, 0x40_0000, 2, 2)),
        (0x40_0000, "file offset + size overflows")
    );
    assert_eq!(
        load_error((1, 4, 0x1ff, 0x40_0000, 2, 2)),
        (0x40_0000, "segment extends past the end of the image")
    );
    assert_eq!(
        load_error((1, 4, 0, 0x40_0000, 0, u64::MAX)),
        (0x40_0000, "vaddr + memsz overflows")
    );
}

#[test]
fn segments_may_not_share_a_page() {
    let file = elf(
        &[(1, 5, 0x100, 0x40_0000, 0x20, 0x20), (1, 6, 0x100, 0x40_0f00, 8, 8)],
        0x200,
    );
    let plan = loader::load_image(&file, "test", true, &mut Vec::new()).unwrap();
    assert!(matches!(
        plan.outcome,
        Err(LoadError::BadSegment { index: 1, vaddr: 0x40_0000, reason: loader::SHARED_PAGE })
    ));
}

#[test]
fn a_segment_that_leaves_user_space_is_refused() {
    let end = layout::USER_SPACE_END;
    let file = elf(&[(1, 4, 0, end - 0x1000, 0, 0x2000)], 0x200);
    let plan = loader::load_image(&file, "test", true, &mut Vec::new()).unwrap();
    assert!(matches!(plan.outcome, Err(LoadError::Mapping(MapError::NotUserAddress(a))) if a == end));
}

fn header_error(change: impl Fn(&mut Vec<u8>)) -> &'static str {
    let mut file = elf(&[(1, 5, 0, 0x40_0000, 0, 0)], 0x200);
    change(&mut file);
    match parse_header(&file) {
        Err(LoadError::NotAnElf(why)) => why,
        _ => panic!("the header was accepted"),
    }
}

#[test]
fn bad_headers_are_refused() {
    assert_eq!(header_error(|f| f.truncate(63)), "smaller than an ELF64 header");
    assert_eq!(header_error(|f| f[0] = 0), "wrong magic number");
    assert_eq!(header_error(|f| f[4] = 1), "not 64-bit");
    assert_eq!(header_error(|f| f[5] = 2), "not little-endian");
    assert_eq!(
        header_error(|f| f[16] = 3),
        "not ET_EXEC - PIE and dynamic linking are not supported"
    );
    assert_eq!(header_error(|f| f[18] = 0x28), "not x86_64");
    assert_eq!(
        header_error(|f| f[54] = 47),
        "program header entries are too small to contain the fields the loader reads"
    );
    assert_eq!(
        header_error(|f| put(f, 32, &u64::MAX.to_le_bytes())),
        "program header table offset overflows"
    );
    assert_eq!(
        header_error(|f| put(f, 56, &100u16.to_le_bytes())),
        "program header table extends past the end of the image"
    );
    let header = parse_header(&elf(&[], 0x40)).unwrap();
    assert_eq!((header.entry, header.phoff, header.phentsize, header.phnum), (0x40_0010, 64, 56, 0));
}

#[test]
fn load_errors_are_sentences() {
    assert_eq!(
        LoadError::NotAnElf("not 64-bit").message(),
        "not a loadable ELF64 image: not 64-bit"
    );
    let bad = LoadError::BadSegment { index: 12, vaddr: 0xabc0, reason: "why" };
    assert_eq!(bad.message(), "segment 12 at 0xabc0 is not loadable: why");
    assert!(LoadError::Mapping(MapError::NotUserAddress(0x10))
        .message()
        .starts_with("could not map the image: "));
    assert_eq!(LoadError::OutOfMemory.message(), "out of memory building the address space");
}

const RAW: usize = 0x200;
const TEXT_RVA: u32 = 0x1000;

fn put_u32(b: &mut [u8], at: usize, v: u32) {
    put(b, at, &v.to_le_bytes());
}

/// A PE32+ file with one section of data at RVA 0x1000. The section holds
/// an import directory at 0x00, a lookup table at 0x40, an address table
/// at 0x80, names from 0xC0 and relocations at 0x180.
fn windows_program(names: &[&str]) -> Vec<u8> {
    let mut b = vec![0u8; RAW + 0x200];
    put(&mut b, 0, b"MZ");
    put_u32(&mut b, 0x3c, 0x40);
    put(&mut b, 0x40, b"PE\0\0");
    put(&mut b, 0x44, &0x8664u16.to_le_bytes());
    put(&mut b, 0x46, &1u16.to_le_bytes());
    put(&mut b, 0x54, &240u16.to_le_bytes());
    let optional = 0x58;
    put(&mut b, optional, &0x20bu16.to_le_bytes());
    put_u32(&mut b, optional + 16, TEXT_RVA + 0x1c0);
    put(&mut b, optional + 24, &0x1_4000_0000u64.to_le_bytes());
    put_u32(&mut b, optional + 56, 0x2000);
    put_u32(&mut b, optional + 60, RAW as u32);
    put_u32(&mut b, optional + 108, 16);
    put_u32(&mut b, optional + 112 + 8, TEXT_RVA);
    put_u32(&mut b, optional + 112 + 12, 40);
    put_u32(&mut b, optional + 112 + 40, TEXT_RVA + 0x180);
    put_u32(&mut b, optional + 112 + 44, 12);
    let section = optional + 240;
    put_u32(&mut b, section + 8, 0x200);
    put_u32(&mut b, section + 12, TEXT_RVA);
    put_u32(&mut b, section + 16, 0x200);
    put_u32(&mut b, section + 20, RAW as u32);
    put_u32(&mut b, section + 36, pe::IMAGE_SCN_MEM_READ | pe::IMAGE_SCN_MEM_EXECUTE);
    put_u32(&mut b, RAW, TEXT_RVA + 0x40);
    put_u32(&mut b, RAW + 12, TEXT_RVA + 0xc0);
    put_u32(&mut b, RAW + 16, TEXT_RVA + 0x80);
    let mut name_at = 0xc0;
    for (i, name) in names.iter().enumerate() {
        put(&mut b, RAW + 0x40 + 8 * i, &((TEXT_RVA + name_at as u32) as u64).to_le_bytes());
        put(&mut b, RAW + name_at + 2, name.as_bytes());
        name_at += 2 + name.len() + 1;
    }
    put_u32(&mut b, RAW + 0x180, TEXT_RVA);
    put_u32(&mut b, RAW + 0x184, 12);
    put(&mut b, RAW + 0x188, &0xa1f0u16.to_le_bytes());
    b
}

const OPTIONAL: usize = 0x58;
const SECTION: usize = OPTIONAL + 240;

#[test]
fn windows_programs_are_parsed() {
    let image = pe::parse(&windows_program(&["ExitProcess", "Sleep"])).unwrap();
    assert_eq!(image.entry_rva, 0x11c0);
    assert_eq!(image.preferred_base, 0x1_4000_0000);
    assert_eq!((image.image_size, image.headers_size), (0x2000, 0x200));
    assert_eq!(image.sections.len(), 1);
    let s = &image.sections[0];
    assert_eq!((s.virtual_address, s.virtual_size, s.raw_offset, s.raw_size), (0x1000, 0x200, 0x200, 0x200));
    assert!(s.executable && s.readable && !s.writable);
    let imports: Vec<_> = image.imports.iter().map(|i| (i.name.as_str(), i.iat_rva)).collect();
    assert_eq!(imports, [("ExitProcess", 0x1080), ("Sleep", 0x1088)]);
    assert_eq!(image.relocations, [0x11f0]);
}

#[test]
fn names_that_are_not_text_are_read_lossily() {
    let mut file = windows_program(&["Sleep"]);
    file[RAW + 0xc2] = 0xff;
    let image = pe::parse(&file).unwrap();
    assert_eq!(image.imports[0].name, "\u{fffd}leep");
}

fn not_pe(change: impl Fn(&mut Vec<u8>)) -> &'static str {
    let mut file = windows_program(&["Sleep"]);
    change(&mut file);
    match pe::parse(&file) {
        Err(MirageError::NotPe(why)) => why,
        _ => panic!("not refused as something else than a PE image"),
    }
}

fn malformed(change: impl Fn(&mut Vec<u8>)) -> &'static str {
    let mut file = windows_program(&["Sleep"]);
    change(&mut file);
    match pe::parse(&file) {
        Err(MirageError::Malformed(why)) => why,
        _ => panic!("not refused as malformed"),
    }
}

#[test]
fn what_is_not_a_windows_program_is_refused() {
    assert_eq!(not_pe(|f| f.truncate(63)), "smaller than a DOS header");
    assert_eq!(not_pe(|f| f[0] = 0), "no MZ signature");
    assert_eq!(not_pe(|f| put_u32(f, 0x3c, 0x3f0)), "PE header offset is outside the file");
    assert_eq!(not_pe(|f| put_u32(f, 0x3c, u32::MAX)), "PE header offset is outside the file");
    assert_eq!(not_pe(|f| f[0x40] = 0), "no PE signature at e_lfanew");
    assert!(not_pe(|f| f[0x44] = 0).starts_with("not an x86_64 image"));
    assert_eq!(not_pe(|f| f[0x55] = 0xff), "optional header extends past the file");
    assert!(not_pe(|f| f[OPTIONAL + 1] = 1).starts_with("not PE32+"));
}

#[test]
fn malformed_windows_programs_are_refused() {
    assert_eq!(malformed(|f| f[0x46] = 97), "implausible section count");
    let size = "SizeOfImage is zero or implausibly large";
    assert_eq!(malformed(|f| put_u32(f, OPTIONAL + 56, 0)), size);
    assert_eq!(malformed(|f| put_u32(f, OPTIONAL + 56, 0x2000_0001)), size);
    assert_eq!(
        malformed(|f| put_u32(f, OPTIONAL + 60, 0x401)),
        "SizeOfHeaders extends past the end of the file"
    );
    assert_eq!(
        malformed(|f| put(f, 0x54, &0x3a8u16.to_le_bytes())),
        "the section table extends past the end of the file"
    );
    assert_eq!(
        malformed(|f| put_u32(f, SECTION + 16, 0x201)),
        "a section's data extends past the end of the file"
    );
    assert_eq!(
        malformed(|f| put_u32(f, SECTION + 8, 0x1001)),
        "a section extends past SizeOfImage"
    );
    assert_eq!(
        malformed(|f| put_u32(f, OPTIONAL + 120, 0x1300)),
        "the import directory RVA is unmapped"
    );
    assert_eq!(
        malformed(|f| put_u32(f, OPTIONAL + 120, 0x11f0)),
        "the import descriptor list runs past the end of the file"
    );
    assert_eq!(malformed(|f| put_u32(f, RAW, 0x1300)), "an import lookup table is unmapped");
    assert!(malformed(|f| f[RAW + 0x47] = 0x80).starts_with("the image imports by ordinal"));
    assert_eq!(
        malformed(|f| put_u32(f, RAW + 0x40, 0x1300)),
        "an import name RVA is unmapped"
    );
    assert_eq!(malformed(|f| {
        put_u32(f, RAW + 0x40, 0x11fc);
        f[RAW + 0x1fe] = b'x';
        f[RAW + 0x1ff] = b'x';
    }), "an import name is not NUL-terminated before the end of the file");
    assert_eq!(
        malformed(|f| put_u32(f, OPTIONAL + 152, 0x1300)),
        "the relocation directory is unmapped"
    );
    assert_eq!(
        malformed(|f| put_u32(f, OPTIONAL + 156, 0x81)),
        "the relocation directory extends past the end of the file"
    );
    let size = "a relocation block has a bad size";
    assert_eq!(malformed(|f| f[RAW + 0x184] = 7), size);
    assert_eq!(malformed(|f| f[RAW + 0x184] = 13), size);
    assert!(malformed(|f| f[RAW + 0x189] = 0x31).starts_with("an unsupported relocation type"));
    assert_eq!(
        malformed(|f| {
            put_u32(f, 0x3c, 0x3e8);
            f.copy_within(0x40..0x46, 0x3e8);
        }),
        "read past the end of the image"
    );
}

#[test]
fn windows_programs_are_planned() {
    let file = windows_program(&["ExitProcess", "Sleep"]);
    let plan = mirage::load_image(&file, "test.exe", true, &mut Vec::new()).unwrap();
    let base = layout::MIRAGE_IMAGE_BASE;
    let ready = plan.outcome.unwrap();
    assert_eq!((ready.entry, ready.stack_top), (base + 0x11c0, layout::USER_STACK_TOP - 64));
    let s = &plan.steps;
    assert_eq!(s.len(), 15);
    let fill = flags(true, true);
    assert!(matches!(&s[0], Step::MapPages { first, pages: 2, flags } if *first == base && *flags == fill));
    assert!(matches!(&s[1], Step::Zero { addr, len: 0x2000 } if *addr == base));
    assert!(matches!(&s[2], Step::Copy { addr, from: 0, to: 0x200 } if *addr == base));
    assert!(matches!(&s[3], Step::Copy { addr, from: 0x200, to: 0x400 } if *addr == base + 0x1000));
    let moved = base.wrapping_sub(0x1_4000_0000);
    assert!(matches!(&s[4], Step::Relocate { addr, delta } if *addr == base + 0x11f0 && *delta == moved));
    let thunks = base + 0x2000;
    assert!(matches!(&s[5], Step::MapPages { first, pages: 1, .. } if *first == thunks));
    assert!(matches!(&s[6], Step::Zero { addr, len: 4096 } if *addr == thunks));
    let exit = win32::generate_thunk(&win32::lookup("ExitProcess").unwrap());
    assert!(matches!(&s[7], Step::Write { addr, data } if *addr == thunks && *data == exit));
    assert!(matches!(&s[8], Step::Write { addr, data }
        if *addr == base + 0x1080 && *data == thunks.to_le_bytes()));
    assert!(matches!(&s[9], Step::Write { addr, .. } if *addr == thunks + 32));
    assert!(matches!(&s[10], Step::Write { addr, data }
        if *addr == base + 0x1088 && *data == (thunks + 32).to_le_bytes()));
    assert!(matches!(&s[11], Step::Protect { first, pages: 1, flags: f }
        if *first == thunks && *f == flags(false, false)));
    assert!(matches!(&s[12], Step::Protect { first, pages: 1, flags: f }
        if *first == base + 0x1000 && *f == flags(false, false)));
    assert!(matches!(&s[13], Step::MapPages { first, .. } if *first == layout::USER_STACK_BOTTOM));
}

#[test]
fn windows_programs_must_be_supported() {
    let missing = mirage::load_image(&windows_program(&["Sleep", "CreateFileW"]), "test.exe", true, &mut Vec::new());
    match missing {
        Err(MirageError::UnimplementedImport(name)) => assert_eq!(name, "CreateFileW"),
        _ => panic!("an unknown import was accepted"),
    }
    let mut file = windows_program(&["Sleep"]);
    file[SECTION + 39] |= 0x80;
    let plan = mirage::load_image(&file, "test.exe", true, &mut Vec::new()).unwrap();
    assert!(matches!(plan.outcome, Err(MirageError::Malformed(mirage::SECTION_WRITE_EXECUTE))));
    assert!(mirage::load_image(b"MZ", "test.exe", true, &mut Vec::new()).is_err());
}

#[test]
fn mirage_errors_are_sentences() {
    assert_eq!(MirageError::NotPe("why").message(), "not a loadable PE32+ image: why");
    assert_eq!(
        MirageError::UnimplementedImport(String::from("Beep")).message(),
        "the image imports 'Beep', which Mirage does not implement yet. Mirage currently provides 4 functions; a real Windows application imports several hundred"
    );
    assert_eq!(MirageError::Malformed("why").message(), "malformed PE image: why");
    assert!(MirageError::Mapping(MapError::NotUserAddress(1))
        .message()
        .starts_with("could not map the image: "));
    assert_eq!(MirageError::OutOfMemory.message(), "out of memory building the address space");
}

#[test]
fn thunks_translate_the_calling_convention() {
    let code = win32::generate_thunk(&win32::lookup("ExitProcess").unwrap());
    let mut expected = vec![0x48, 0x89, 0xcf, 0x48, 0xc7, 0xc0];
    expected.extend_from_slice(&(sys::EXIT as u32).to_le_bytes());
    expected.extend_from_slice(&[0xcd, 0x80, 0xc3]);
    expected.resize(32, 0x90);
    assert_eq!(code, expected);
    let three = win32::Thunk { name: "x", syscall: 0x1234_5678, args: 3, note: "" };
    let code = win32::generate_thunk(&three);
    assert_eq!(
        code[..19],
        [
            0x48, 0x89, 0xcf, 0x48, 0x89, 0xd6, 0x4c, 0x89, 0xc2, 0x48, 0xc7, 0xc0, 0x78, 0x56, 0x34,
            0x12, 0xcd, 0x80, 0xc3
        ]
    );
    assert!(win32::lookup("exitprocess").is_none());
    assert_eq!(win32::thunks().len(), 4);
    let lines = win32::report();
    assert_eq!(lines[0], "Najm Kernel: Mirage implements 4 Win32 function(s):");
    assert!(lines[1].starts_with("Najm Kernel:   ExitProcess(1 arg) -> syscall "));
    assert!(lines[2].starts_with("Najm Kernel:   GetTickCount(0 args) -> syscall "));
}

#[test]
fn the_page_below_the_stack_is_left_alone() {
    let guard = 0x7fff_effe_f000u64;
    let file = elf(&[(1, 5, 0x1000, 0x40_0000, 4, 8)], 0x2000);
    let elf_steps = loader::load_image(&file, "test", true, &mut Vec::new()).unwrap().steps;
    let program = windows_program(&["ExitProcess"]);
    let pe_steps = mirage::load_image(&program, "test.exe", true, &mut Vec::new()).unwrap().steps;
    for steps in [elf_steps, pe_steps] {
        let mut stack = false;
        for step in &steps {
            if let Step::MapPages { first, pages, .. } = step {
                assert!(guard < *first || guard >= *first + 4096 * *pages);
                stack = stack || *first == guard + 4096;
            }
        }
        assert!(stack);
    }
}

fn logged(log: &[LogLine]) -> Vec<(usize, &str)> {
    log.iter().map(|line| (line.after, line.text.as_str())).collect()
}

#[test]
fn a_load_is_logged_segment_by_segment() {
    let file = elf(
        &[
            (6, 4, 0, 0, 0, 0),
            (1, 5, 0x180, 0x40_0010, 0x20, 0x20),
            (1, 6, 0x1a0, 0x40_2ff0, 0, 0x1010),
            (1, 4, 0, 0x50_0000, 0, 0),
            (1, 7, 0, 0x60_0000, 0, 0),
        ],
        0x200,
    );
    let mut log = Vec::new();
    let plan = loader::load_image(&file, "hello", true, &mut log).unwrap();
    assert!(plan.outcome.is_err());
    assert_eq!(plan.steps.len(), 8);
    assert_eq!(
        logged(&log),
        [
            (
                0,
                "Najm Kernel: loading 'hello' into a private address space - entry 0x400010, 5 program header(s)"
            ),
            (
                4,
                "Najm Kernel:   segment 1 - vaddr 0x400010, 32 bytes (32 in memory), permissions r-x"
            ),
            (
                8,
                "Najm Kernel:   segment 2 - vaddr 0x402ff0, 0 bytes (4112 in memory), permissions rw-"
            ),
        ]
    );
    let mut log = Vec::new();
    assert!(loader::load_image(b"no", "hello", true, &mut log).is_err());
    assert!(log.is_empty());
}

#[test]
fn a_windows_load_is_logged() {
    let file = windows_program(&["ExitProcess", "Sleep"]);
    let mut log = Vec::new();
    let plan = mirage::load_image(&file, "a.exe", true, &mut log).unwrap();
    let base = layout::MIRAGE_IMAGE_BASE;
    let first = format!(
        "Najm Kernel: Mirage loading 'a.exe' - PE32+ image, 1 section(s), 2 import(s), preferred base 0x140000000, relocating to {:#x}",
        base
    );
    let last = format!(
        "Najm Kernel: Mirage bound 2 import(s) to ABI-translation thunks at {:#x}; entry {:#x}",
        base + 0x2000,
        base + 0x11c0
    );
    assert_eq!(logged(&log), [(0, first.as_str()), (plan.steps.len(), last.as_str())]);
    let mut log = Vec::new();
    let file = windows_program(&["Beep"]);
    assert!(mirage::load_image(&file, "b.exe", true, &mut log).is_err());
    assert_eq!(log.len(), 1);
    let mut log = Vec::new();
    assert!(mirage::load_image(b"MZ", "b.exe", true, &mut log).is_err());
    assert!(log.is_empty());
}

#[test]
fn relocations_stay_in_one_page() {
    let mut mem = vec![0u8; 0x8000];
    for (at, entry) in [(0x1800, 0x7000u64), (0x5000, 0x2007), (0x2000, 0x3007), (0x3000, 0x4007)] {
        put(&mut mem, at, &entry.to_le_bytes());
    }
    let space = AddressSpace::new(&mut mem, Some(0x5000), 0x1000).unwrap();
    for (at, entry) in [(0x5000, 0x2007u64), (0x4000, 0x6007)] {
        put(&mut mem, at, &entry.to_le_bytes());
    }
    put(&mut mem, 0x6ff8, &1u64.to_le_bytes());
    assert!(mirage::relocate_at(&space, &mut mem, 0xff8, 0x10).is_ok());
    assert_eq!(mem[0x6ff8], 0x11);
    assert!(matches!(
        mirage::relocate_at(&space, &mut mem, 0xff9, 0x10),
        Err(MirageError::Malformed(mirage::STRADDLES))
    ));
    assert!(matches!(
        mirage::relocate_at(&space, &mut mem, 0x1000, 0x10),
        Err(MirageError::Malformed(mirage::OUTSIDE_IMAGE))
    ));
    assert_eq!(mem[0x6ff8], 0x11);
}

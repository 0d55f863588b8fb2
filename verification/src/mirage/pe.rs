//! PE32+ parsing: the headers, the section table, the import directory
//! and the base relocation table.
//!
//! Everything here is hostile input. Two rules are applied throughout:
//! every offset is checked against the real bytes, never against the
//! image's own claims about its size, and every count is bounded before
//! it is iterated.
use vstd::prelude::*;
use crate::bytes::{self, read_u16, read_u32, read_u64};
use crate::mirage::MirageError;
use crate::text::{self, from_utf8_lossy};

verus! {

broadcast use vstd::slice::group_slice_axioms;

pub const DOS_MAGIC: u16 = 0x5A4D;

pub const PE_MAGIC: u32 = 0x0000_4550;

pub const MACHINE_AMD64: u16 = 0x8664;

pub const PE32_PLUS_MAGIC: u16 = 0x20B;

pub const IMAGE_SCN_MEM_EXECUTE: u32 = 0x2000_0000;

pub const IMAGE_SCN_MEM_READ: u32 = 0x4000_0000;

pub const IMAGE_SCN_MEM_WRITE: u32 = 0x8000_0000;

/// Data directory indices.
pub const DIRECTORY_IMPORT: u64 = 1;

pub const DIRECTORY_BASERELOC: u64 = 5;

/// A padding relocation, skipped rather than applied.
pub const IMAGE_REL_BASED_ABSOLUTE: u16 = 0;

/// A 64-bit absolute address to adjust.
pub const IMAGE_REL_BASED_DIR64: u16 = 10;

/// The most sections an image may have.
pub const MAX_SECTIONS: u64 = 96;

/// The most imports an image may have, and the most descriptors walked.
pub const MAX_IMPORTS: usize = 512;

/// The most relocations an image may have.
pub const MAX_RELOCATIONS: usize = 65_536;

/// The largest image that is mapped.
pub const MAX_IMAGE_SIZE: u32 = 512 * 1024 * 1024;

pub const PAST_END: &'static str = "read past the end of the image";

/// One section of an image.
#[derive(Debug, Clone, Copy, PartialEq, Eq, Structural)]
pub struct Section {
    pub virtual_address: u32,
    pub virtual_size: u32,
    pub raw_offset: usize,
    pub raw_size: usize,
    pub executable: bool,
    pub writable: bool,
    pub readable: bool,
}

/// One imported function.
#[derive(Debug)]
pub struct Import {
    /// The imported function's name, as it appears in the image.
    pub name: String,
    /// Where in the image its import address table slot lives.
    pub iat_rva: u32,
}

/// A parsed image.
#[derive(Debug)]
pub struct Image {
    pub entry_rva: u32,
    pub preferred_base: u64,
    pub image_size: usize,
    pub headers_size: usize,
    pub sections: Vec<Section>,
    pub imports: Vec<Import>,
    /// RVAs of 64-bit absolute addresses needing adjustment.
    pub relocations: Vec<u32>,
}

/// What an import says.
pub struct ImportView {
    pub name: Seq<char>,
    pub iat_rva: u32,
}

/// What a parsed image says.
pub struct ImageView {
    pub entry_rva: u32,
    pub preferred_base: u64,
    pub image_size: usize,
    pub headers_size: usize,
    pub sections: Seq<Section>,
    pub imports: Seq<ImportView>,
    pub relocations: Seq<u32>,
}

impl View for Import {
    type V = ImportView;

    open spec fn view(&self) -> ImportView {
        ImportView { name: self.name@, iat_rva: self.iat_rva }
    }
}

/// The views of a list of imports.
pub open spec fn import_views(imports: Seq<Import>) -> Seq<ImportView> {
    Seq::new(imports.len(), |i: int| imports[i]@)
}

impl View for Image {
    type V = ImageView;

    open spec fn view(&self) -> ImageView {
        ImageView {
            entry_rva: self.entry_rva,
            preferred_base: self.preferred_base,
            image_size: self.image_size,
            headers_size: self.headers_size,
            sections: self.sections@,
            imports: import_views(self.imports@),
            relocations: self.relocations@,
        }
    }
}

// ---------------------------------------------------------------------
// Fields
// ---------------------------------------------------------------------

/// A 16-bit field, or the error for reading past the end.
pub open spec fn field16(s: Seq<u8>, at: int) -> Result<u16, MirageError> {
    if at + 2 <= s.len() {
        Ok(bytes::le16(s, at) as u16)
    } else {
        Err(MirageError::Malformed(PAST_END))
    }
}

/// A 32-bit field, or the error for reading past the end.
pub open spec fn field32(s: Seq<u8>, at: int) -> Result<u32, MirageError> {
    if at + 4 <= s.len() {
        Ok(bytes::le32(s, at) as u32)
    } else {
        Err(MirageError::Malformed(PAST_END))
    }
}

/// A 64-bit field, or the error for reading past the end.
pub open spec fn field64(s: Seq<u8>, at: int) -> Result<u64, MirageError> {
    if at + 8 <= s.len() {
        Ok(bytes::le64(s, at) as u64)
    } else {
        Err(MirageError::Malformed(PAST_END))
    }
}

fn u16_at(bytes: &[u8], at: u64) -> (r: Result<u16, MirageError>)
    ensures
        r == field16(bytes@, at as int),
{
    let len: u64 = bytes.len() as u64;
    if len < 2 || at > len - 2 {
        return Err(MirageError::Malformed(PAST_END));
    }
    Ok(read_u16(bytes, at as usize))
}

fn u32_at(bytes: &[u8], at: u64) -> (r: Result<u32, MirageError>)
    ensures
        r == field32(bytes@, at as int),
{
    let len: u64 = bytes.len() as u64;
    if len < 4 || at > len - 4 {
        return Err(MirageError::Malformed(PAST_END));
    }
    Ok(read_u32(bytes, at as usize))
}

fn u64_at(bytes: &[u8], at: u64) -> (r: Result<u64, MirageError>)
    ensures
        r == field64(bytes@, at as int),
{
    let len: u64 = bytes.len() as u64;
    if len < 8 || at > len - 8 {
        return Err(MirageError::Malformed(PAST_END));
    }
    Ok(read_u64(bytes, at as usize))
}

// ---------------------------------------------------------------------
// Headers
// ---------------------------------------------------------------------

/// What the DOS, PE and optional headers say.
#[derive(Debug, Clone, Copy, PartialEq, Eq, Structural)]
pub struct Headers {
    pub section_count: u16,
    /// File offset of the section table.
    pub section_table: u64,
    /// File offset of the data directories.
    pub directories: u64,
    pub directory_count: u32,
    pub entry_rva: u32,
    pub preferred_base: u64,
    pub image_size: u32,
    pub headers_size: u32,
}

/// The headers of an image: which check refuses it first, or what they say.
pub open spec fn headers_of(s: Seq<u8>) -> Result<Headers, MirageError> {
    let pe = bytes::le32(s, 0x3C);
    let opt = pe + 24;
    let opt_size = bytes::le16(s, pe + 20);
    let image_size = bytes::le32(s, opt + 56);
    let headers_size = bytes::le32(s, opt + 60);
    if s.len() < 64 {
        Err(MirageError::NotPe("smaller than a DOS header"))
    } else if bytes::le16(s, 0) != DOS_MAGIC {
        Err(MirageError::NotPe("no MZ signature"))
    } else if pe + 24 > s.len() {
        Err(MirageError::NotPe("PE header offset is outside the file"))
    } else if bytes::le32(s, pe) != PE_MAGIC {
        Err(MirageError::NotPe("no PE signature at e_lfanew"))
    } else if bytes::le16(s, pe + 4) != MACHINE_AMD64 {
        Err(
            MirageError::NotPe(
                "not an x86_64 image - Mirage runs Windows binaries natively rather than emulating \
             them, so the instruction set has to match the CPU",
            ),
        )
    } else if bytes::le16(s, pe + 6) > MAX_SECTIONS {
        Err(MirageError::Malformed("implausible section count"))
    } else if opt + opt_size > s.len() {
        Err(MirageError::NotPe("optional header extends past the file"))
    } else if opt + 2 > s.len() {
        Err(MirageError::Malformed(PAST_END))
    } else if bytes::le16(s, opt) != PE32_PLUS_MAGIC {
        Err(
            MirageError::NotPe(
                "not PE32+ - a 32-bit PE would need a different address space layout and a 32-bit \
             thunk ABI, neither of which exists here",
            ),
        )
    } else if opt + 112 > s.len() {
        Err(MirageError::Malformed(PAST_END))
    } else if image_size == 0 || image_size > MAX_IMAGE_SIZE {
        Err(MirageError::Malformed("SizeOfImage is zero or implausibly large"))
    } else if headers_size > s.len() {
        Err(MirageError::Malformed("SizeOfHeaders extends past the end of the file"))
    } else {
        Ok(
            Headers {
                section_count: bytes::le16(s, pe + 6) as u16,
                section_table: (opt + opt_size) as u64,
                directories: (opt + 112) as u64,
                directory_count: bytes::le32(s, opt + 108) as u32,
                entry_rva: bytes::le32(s, opt + 16) as u32,
                preferred_base: bytes::le64(s, opt + 24) as u64,
                image_size: image_size as u32,
                headers_size: headers_size as u32,
            },
        )
    }
}

fn parse_headers(bytes: &[u8]) -> (r: Result<Headers, MirageError>)
    ensures
        r == headers_of(bytes@),
{
    let len: u64 = bytes.len() as u64;
    if bytes.len() < 64 {
        return Err(MirageError::NotPe("smaller than a DOS header"));
    }
    if read_u16(bytes, 0) != DOS_MAGIC {
        return Err(MirageError::NotPe("no MZ signature"));
    }
    // `e_lfanew` is a raw file offset chosen by the file.
    let pe_offset: u64 = read_u32(bytes, 0x3C) as u64;
    if pe_offset + 24 > len {
        return Err(MirageError::NotPe("PE header offset is outside the file"));
    }
    let pe: usize = pe_offset as usize;
    if read_u32(bytes, pe) != PE_MAGIC {
        return Err(MirageError::NotPe("no PE signature at e_lfanew"));
    }
    if read_u16(bytes, pe + 4) != MACHINE_AMD64 {
        return Err(
            MirageError::NotPe(
                "not an x86_64 image - Mirage runs Windows binaries natively rather than emulating \
             them, so the instruction set has to match the CPU",
            ),
        );
    }
    let section_count: u16 = read_u16(bytes, pe + 6);
    let optional_header_size: u64 = read_u16(bytes, pe + 20) as u64;
    let optional_header: u64 = pe_offset + 24;
    if section_count as u64 > MAX_SECTIONS {
        return Err(MirageError::Malformed("implausible section count"));
    }
    if optional_header + optional_header_size > len {
        return Err(MirageError::NotPe("optional header extends past the file"));
    }
    if optional_header + 2 > len {
        return Err(MirageError::Malformed(PAST_END));
    }
    let opt: usize = optional_header as usize;
    if read_u16(bytes, opt) != PE32_PLUS_MAGIC {
        return Err(
            MirageError::NotPe(
                "not PE32+ - a 32-bit PE would need a different address space layout and a 32-bit \
             thunk ABI, neither of which exists here",
            ),
        );
    }
    if optional_header + 112 > len {
        return Err(MirageError::Malformed(PAST_END));
    }
    let entry_rva: u32 = read_u32(bytes, opt + 16);
    let preferred_base: u64 = read_u64(bytes, opt + 24);
    let image_size: u32 = read_u32(bytes, opt + 56);
    let headers_size: u32 = read_u32(bytes, opt + 60);
    let directory_count: u32 = read_u32(bytes, opt + 108);
    // The image size decides how much address space is mapped, so an
    // absurd value is an out-of-memory request dressed as a header field.
    if image_size == 0 || image_size > MAX_IMAGE_SIZE {
        return Err(MirageError::Malformed("SizeOfImage is zero or implausibly large"));
    }
    if headers_size as u64 > len {
        return Err(MirageError::Malformed("SizeOfHeaders extends past the end of the file"));
    }
    Ok(
        Headers {
            section_count,
            section_table: optional_header + optional_header_size,
            directories: optional_header + 112,
            directory_count,
            entry_rva,
            preferred_base,
            image_size,
            headers_size,
        },
    )
}

/// The (RVA, size) pair of a data directory; zeros where there is none.
pub open spec fn directory(s: Seq<u8>, h: Headers, index: int) -> Result<(u32, u32), MirageError> {
    let at = h.directories + 8 * index;
    if index >= h.directory_count {
        Ok((0, 0))
    } else if at + 8 > s.len() {
        Err(MirageError::Malformed(PAST_END))
    } else {
        Ok((bytes::le32(s, at) as u32, bytes::le32(s, at + 4) as u32))
    }
}

fn read_directory(bytes: &[u8], h: &Headers, index: u64) -> (r: Result<(u32, u32), MirageError>)
    requires
        index <= 5,
        h.directories <= 0x1_0000_0000_0000,
    ensures
        r == directory(bytes@, *h, index as int),
{
    if index >= h.directory_count as u64 {
        return Ok((0, 0));
    }
    let at: u64 = h.directories + index * 8;
    let rva: u32 = match u32_at(bytes, at) {
        Ok(v) => v,
        Err(e) => {
            return Err(e);
        },
    };
    let size: u32 = match u32_at(bytes, at + 4) {
        Ok(v) => v,
        Err(e) => {
            return Err(e);
        },
    };
    Ok((rva, size))
}

// ---------------------------------------------------------------------
// Sections
// ---------------------------------------------------------------------

/// The section header at file offset `at`. Its file range must be inside
/// the file and its memory range inside the image; the two are
/// independent fields.
pub open spec fn section_at(s: Seq<u8>, at: int, image_size: u32) -> Result<Section, MirageError> {
    let virtual_size = bytes::le32(s, at + 8);
    let virtual_address = bytes::le32(s, at + 12);
    let raw_size = bytes::le32(s, at + 16);
    let raw_offset = bytes::le32(s, at + 20);
    let characteristics = bytes::le32(s, at + 36) as u32;
    if at + 40 > s.len() {
        Err(MirageError::Malformed("the section table extends past the end of the file"))
    } else if raw_size > 0 && raw_offset + raw_size > s.len() {
        Err(MirageError::Malformed("a section's data extends past the end of the file"))
    } else if virtual_address + (if virtual_size == 0 {
        1
    } else {
        virtual_size
    }) > image_size {
        Err(MirageError::Malformed("a section extends past SizeOfImage"))
    } else {
        Ok(
            Section {
                virtual_address: virtual_address as u32,
                virtual_size: virtual_size as u32,
                raw_offset: raw_offset as usize,
                raw_size: raw_size as usize,
                executable: characteristics & IMAGE_SCN_MEM_EXECUTE != 0,
                writable: characteristics & IMAGE_SCN_MEM_WRITE != 0,
                readable: characteristics & IMAGE_SCN_MEM_READ != 0,
            },
        )
    }
}

/// The next `left` section headers after those in `sofar`.
pub open spec fn sections_from(
    s: Seq<u8>,
    at: int,
    image_size: u32,
    left: nat,
    sofar: Seq<Section>,
) -> Result<Seq<Section>, MirageError>
    decreases left,
{
    if left == 0 {
        Ok(sofar)
    } else {
        match section_at(s, at, image_size) {
            Err(e) => Err(e),
            Ok(section) => sections_from(
                s,
                at + 40,
                image_size,
                (left - 1) as nat,
                sofar.push(section),
            ),
        }
    }
}

fn parse_section(bytes: &[u8], at: u64, image_size: u32) -> (r: Result<Section, MirageError>)
    requires
        at <= 0x1_0000_0000_0000,
    ensures
        r == section_at(bytes@, at as int, image_size),
{
    if at + 40 > bytes.len() as u64 {
        return Err(MirageError::Malformed("the section table extends past the end of the file"));
    }
    let a: usize = at as usize;
    let virtual_size: u32 = read_u32(bytes, a + 8);
    let virtual_address: u32 = read_u32(bytes, a + 12);
    let raw_size: u32 = read_u32(bytes, a + 16);
    let raw_offset: u32 = read_u32(bytes, a + 20);
    let characteristics: u32 = read_u32(bytes, a + 36);
    if raw_size > 0 && raw_offset as u64 + raw_size as u64 > bytes.len() as u64 {
        return Err(MirageError::Malformed("a section's data extends past the end of the file"));
    }
    let extent: u64 = if virtual_size == 0 {
        1
    } else {
        virtual_size as u64
    };
    if virtual_address as u64 + extent > image_size as u64 {
        return Err(MirageError::Malformed("a section extends past SizeOfImage"));
    }
    Ok(
        Section {
            virtual_address,
            virtual_size,
            raw_offset: raw_offset as usize,
            raw_size: raw_size as usize,
            executable: characteristics & IMAGE_SCN_MEM_EXECUTE != 0,
            writable: characteristics & IMAGE_SCN_MEM_WRITE != 0,
            readable: characteristics & IMAGE_SCN_MEM_READ != 0,
        },
    )
}

fn parse_sections(bytes: &[u8], h: &Headers) -> (r: Result<Vec<Section>, MirageError>)
    requires
        h.section_table <= 0x8000_0000_0000,
    ensures
        match r {
            Ok(v) => sections_from(
                bytes@,
                h.section_table as int,
                h.image_size,
                h.section_count as nat,
                Seq::empty(),
            ) == Ok::<Seq<Section>, MirageError>(v@),
            Err(e) => sections_from(
                bytes@,
                h.section_table as int,
                h.image_size,
                h.section_count as nat,
                Seq::empty(),
            ) == Err::<Seq<Section>, MirageError>(e),
        },
{
    let mut sections: Vec<Section> = Vec::new();
    let mut index: u16 = 0;
    while index < h.section_count
        invariant
            index <= h.section_count,
            h.section_table <= 0x8000_0000_0000,
            sections_from(
                bytes@,
                h.section_table as int,
                h.image_size,
                h.section_count as nat,
                Seq::empty(),
            ) == sections_from(
                bytes@,
                h.section_table + 40 * index,
                h.image_size,
                (h.section_count - index) as nat,
                sections@,
            ),
        decreases h.section_count - index,
    {
        let at: u64 = h.section_table + 40 * (index as u64);
        match parse_section(bytes, at, h.image_size) {
            Ok(section) => {
                sections.push(section);
            },
            Err(e) => {
                return Err(e);
            },
        }
        index += 1;
    }
    Ok(sections)
}

// ---------------------------------------------------------------------
// RVAs
// ---------------------------------------------------------------------

/// The file offset of `rva` in the first section from `i` on whose range
/// holds it. Past that section's file data there is none.
pub open spec fn offset_in_sections(sections: Seq<Section>, i: int, rva: int) -> Option<int>
    decreases sections.len() - i,
{
    if i < 0 || i >= sections.len() {
        None
    } else {
        let x = sections[i];
        let extent = if x.virtual_size >= x.raw_size {
            x.virtual_size as int
        } else {
            x.raw_size as int
        };
        if x.virtual_address <= rva < x.virtual_address + extent {
            if rva - x.virtual_address >= x.raw_size {
                None
            } else {
                Some(x.raw_offset + (rva - x.virtual_address))
            }
        } else {
            offset_in_sections(sections, i + 1, rva)
        }
    }
}

/// The file offset of an RVA. Inside the headers the two coincide; an RVA
/// in no section has none.
pub open spec fn offset_of(headers_size: u32, sections: Seq<Section>, rva: u32) -> Option<int> {
    if rva < headers_size {
        Some(rva as int)
    } else {
        offset_in_sections(sections, 0, rva as int)
    }
}

/// Every section's file range lies inside a file of `len` bytes.
pub open spec fn file_ranges_inside(sections: Seq<Section>, len: int) -> bool {
    forall|i: int|
        0 <= i < sections.len() ==> (#[trigger] sections[i]).raw_size > 0 ==> sections[i].raw_offset
            + sections[i].raw_size <= len
}

/// Where the headers and the sections' data lie in the file, every address
/// of the image that is translated names a byte of the file.
pub proof fn law_translated_address_is_in_the_file(
    headers_size: u32,
    sections: Seq<Section>,
    rva: u32,
    len: int,
)
    requires
        headers_size <= len,
        file_ranges_inside(sections, len),
    ensures
        offset_of(headers_size, sections, rva) matches Some(at) ==> 0 <= at < len,
{
    if rva >= headers_size {
        lemma_offset_in_sections_inside(sections, 0, rva as int, len);
    }
}

proof fn lemma_offset_in_sections_inside(sections: Seq<Section>, i: int, rva: int, len: int)
    requires
        file_ranges_inside(sections, len),
    ensures
        offset_in_sections(sections, i, rva) matches Some(at) ==> 0 <= at < len,
    decreases sections.len() - i,
{
    if 0 <= i < sections.len() {
        lemma_offset_in_sections_inside(sections, i + 1, rva, len);
    }
}

proof fn lemma_sections_inside(
    s: Seq<u8>,
    at: int,
    image_size: u32,
    left: nat,
    sofar: Seq<Section>,
)
    requires
        file_ranges_inside(sofar, s.len() as int),
    ensures
        sections_from(s, at, image_size, left, sofar) matches Ok(all) ==> file_ranges_inside(
            all,
            s.len() as int,
        ),
    decreases left,
{
    if left > 0 {
        match section_at(s, at, image_size) {
            Err(e) => {},
            Ok(section) => {
                lemma_sections_inside(
                    s,
                    at + 40,
                    image_size,
                    (left - 1) as nat,
                    sofar.push(section),
                );
            },
        }
    }
}

fn rva_to_offset(headers_size: u32, sections: &Vec<Section>, rva: u32, len: usize) -> (r: Option<
    usize,
>)
    requires
        headers_size <= len,
        file_ranges_inside(sections@, len as int),
    ensures
        match r {
            Some(at) => offset_of(headers_size, sections@, rva) == Some(at as int) && at < len,
            None => offset_of(headers_size, sections@, rva) is None,
        },
{
    if rva < headers_size {
        return Some(rva as usize);
    }
    let mut i: usize = 0;
    while i < sections.len()
        invariant
            i <= sections.len(),
            headers_size <= rva,
            file_ranges_inside(sections@, len as int),
            offset_of(headers_size, sections@, rva) == offset_in_sections(
                sections@,
                i as int,
                rva as int,
            ),
        decreases sections.len() - i,
    {
        let x: Section = sections[i];
        let extent: u64 = if x.virtual_size as u64 >= x.raw_size as u64 {
            x.virtual_size as u64
        } else {
            x.raw_size as u64
        };
        if rva >= x.virtual_address {
            let delta: u32 = rva - x.virtual_address;
            if (delta as u64) < extent {
                if delta as u64 >= x.raw_size as u64 {
                    return None;
                }
                return Some(x.raw_offset + delta as usize);
            }
        }
        i += 1;
    }
    None
}

// ---------------------------------------------------------------------
// Imports
// ---------------------------------------------------------------------

/// The first NUL at or after `at`.
pub open spec fn nul_from(s: Seq<u8>, at: int) -> Option<int>
    decreases s.len() - at,
{
    if at < 0 || at >= s.len() {
        None
    } else if s[at] == 0 {
        Some(at)
    } else {
        nul_from(s, at + 1)
    }
}

/// One entry of an import lookup table that is neither the terminator nor
/// an ordinal: the name it leads to.
pub open spec fn import_name(
    s: Seq<u8>,
    headers_size: u32,
    sections: Seq<Section>,
    entry: u64,
) -> Result<Seq<char>, MirageError> {
    match offset_of(headers_size, sections, (entry % 0x8000_0000) as u32) {
        None => Err(MirageError::Malformed("an import name RVA is unmapped")),
        Some(hint) => match nul_from(s, hint + 2) {
            None => Err(
                MirageError::Malformed(
                    "an import name is not NUL-terminated before the end of the file",
                ),
            ),
            Some(end) => Ok(text::utf8_lossy(s.subrange(hint + 2, end))),
        },
    }
}

/// The imports of one descriptor: at most `left` more entries of the
/// lookup table at `names`, whose slots start at `slot`, after `sofar`.
pub open spec fn imports_of_table(
    s: Seq<u8>,
    headers_size: u32,
    sections: Seq<Section>,
    names: int,
    slot: int,
    left: nat,
    sofar: Seq<ImportView>,
) -> Result<Seq<ImportView>, MirageError>
    decreases left,
{
    if left == 0 {
        Ok(sofar)
    } else if sofar.len() >= MAX_IMPORTS {
        Err(MirageError::Malformed("implausible number of imports"))
    } else {
        match field64(s, names) {
            Err(e) => Err(e),
            Ok(entry) => if entry == 0 {
                Ok(sofar)
            } else if entry >= 0x8000_0000_0000_0000 {
                Err(
                    MirageError::Malformed(
                        "the image imports by ordinal; Mirage resolves imports by name, since there \
                     is no DLL export table to index into",
                    ),
                )
            } else {
                match import_name(s, headers_size, sections, entry) {
                    Err(e) => Err(e),
                    Ok(name) => if slot > u32::MAX {
                        Err(
                            MirageError::Malformed(
                                "an import address table runs past the 32-bit address range",
                            ),
                        )
                    } else {
                        imports_of_table(
                            s,
                            headers_size,
                            sections,
                            names + 8,
                            slot + 8,
                            (left - 1) as nat,
                            sofar.push(ImportView { name, iat_rva: slot as u32 }),
                        )
                    },
                }
            },
        }
    }
}

/// The imports of at most `left` more descriptors from file offset
/// `descriptor`. The list ends at an all-zero one.
pub open spec fn imports_from(
    s: Seq<u8>,
    headers_size: u32,
    sections: Seq<Section>,
    descriptor: int,
    left: nat,
    sofar: Seq<ImportView>,
) -> Result<Seq<ImportView>, MirageError>
    decreases left,
{
    let lookup_rva = bytes::le32(s, descriptor) as u32;
    let name_rva = bytes::le32(s, descriptor + 12) as u32;
    let iat_rva = bytes::le32(s, descriptor + 16) as u32;
    let names_rva = if lookup_rva != 0 {
        lookup_rva
    } else {
        iat_rva
    };
    if left == 0 {
        Ok(sofar)
    } else if descriptor + 20 > s.len() {
        Err(MirageError::Malformed("the import descriptor list runs past the end of the file"))
    } else if lookup_rva == 0 && name_rva == 0 && iat_rva == 0 {
        Ok(sofar)
    } else {
        match offset_of(headers_size, sections, names_rva) {
            None => Err(MirageError::Malformed("an import lookup table is unmapped")),
            Some(names) => match imports_of_table(
                s,
                headers_size,
                sections,
                names,
                iat_rva as int,
                MAX_IMPORTS as nat,
                sofar,
            ) {
                Err(e) => Err(e),
                Ok(more) => imports_from(
                    s,
                    headers_size,
                    sections,
                    descriptor + 20,
                    (left - 1) as nat,
                    more,
                ),
            },
        }
    }
}

/// Everything the import directory at `rva` names.
pub open spec fn imports_at(
    s: Seq<u8>,
    headers_size: u32,
    sections: Seq<Section>,
    rva: u32,
) -> Result<Seq<ImportView>, MirageError> {
    if rva == 0 {
        Ok(Seq::empty())
    } else {
        match offset_of(headers_size, sections, rva) {
            None => Err(MirageError::Malformed("the import directory RVA is unmapped")),
            Some(at) => imports_from(
                s,
                headers_size,
                sections,
                at,
                MAX_IMPORTS as nat,
                Seq::empty(),
            ),
        }
    }
}

fn find_nul(bytes: &[u8], from: usize) -> (r: Option<usize>)
    ensures
        match r {
            Some(end) => nul_from(bytes@, from as int) == Some(end as int) && from <= end
                < bytes.len(),
            None => nul_from(bytes@, from as int) is None,
        },
{
    let mut at: usize = from;
    while at < bytes.len()
        invariant
            from <= at,
            nul_from(bytes@, from as int) == nul_from(bytes@, at as int),
        decreases bytes.len() - at,
    {
        if bytes[at] == 0 {
            return Some(at);
        }
        at += 1;
    }
    None
}

fn read_import_name(bytes: &[u8], headers_size: u32, sections: &Vec<Section>, entry: u64) -> (r:
    Result<String, MirageError>)
    requires
        headers_size <= bytes.len(),
        file_ranges_inside(sections@, bytes.len() as int),
    ensures
        match r {
            Ok(name) => import_name(bytes@, headers_size, sections@, entry) == Ok::<
                Seq<char>,
                MirageError,
            >(name@),
            Err(e) => import_name(bytes@, headers_size, sections@, entry) == Err::<
                Seq<char>,
                MirageError,
            >(e),
        },
{
    // The low 31 bits are an RVA to a 2-byte hint and a NUL-terminated name.
    let name_rva: u32 = (entry % 0x8000_0000) as u32;
    match rva_to_offset(headers_size, sections, name_rva, bytes.len()) {
        None => Err(MirageError::Malformed("an import name RVA is unmapped")),
        Some(hint) => {
            if bytes.len() - hint < 2 {
                return Err(
                    MirageError::Malformed(
                        "an import name is not NUL-terminated before the end of the file",
                    ),
                );
            }
            match find_nul(bytes, hint + 2) {
                None => Err(
                    MirageError::Malformed(
                        "an import name is not NUL-terminated before the end of the file",
                    ),
                ),
                Some(end) => Ok(
                    from_utf8_lossy(vstd::slice::slice_subrange(bytes, hint + 2, end)),
                ),
            }
        },
    }
}

fn parse_import_table(
    bytes: &[u8],
    headers_size: u32,
    sections: &Vec<Section>,
    names: usize,
    iat_rva: u32,
    imports: &mut Vec<Import>,
) -> (r: Result<(), MirageError>)
    requires
        headers_size <= bytes.len(),
        file_ranges_inside(sections@, bytes.len() as int),
        names < bytes.len(),
    ensures
        imports_of_table(
            bytes@,
            headers_size,
            sections@,
            names as int,
            iat_rva as int,
            MAX_IMPORTS as nat,
            import_views(old(imports)@),
        ) == match r {
            Ok(_) => Ok::<Seq<ImportView>, MirageError>(import_views(final(imports)@)),
            Err(e) => Err::<Seq<ImportView>, MirageError>(e),
        },
{
    let mut done: usize = 0;
    let ghost start = import_views(imports@);
    while done < MAX_IMPORTS
        invariant
            done <= MAX_IMPORTS,
            headers_size <= bytes.len(),
            file_ranges_inside(sections@, bytes.len() as int),
            names < bytes.len(),
            start == import_views(old(imports)@),
            imports_of_table(
                bytes@,
                headers_size,
                sections@,
                names as int,
                iat_rva as int,
                MAX_IMPORTS as nat,
                start,
            ) == imports_of_table(
                bytes@,
                headers_size,
                sections@,
                names + 8 * done,
                iat_rva + 8 * done,
                (MAX_IMPORTS - done) as nat,
                import_views(imports@),
            ),
        decreases MAX_IMPORTS - done,
    {
        if imports.len() >= MAX_IMPORTS {
            return Err(MirageError::Malformed("implausible number of imports"));
        }
        let step: usize = 8 * done;
        if bytes.len() - names < step {
            return Err(MirageError::Malformed(PAST_END));
        }
        let entry: u64 = match u64_at(bytes, (names + step) as u64) {
            Ok(v) => v,
            Err(e) => {
                return Err(e);
            },
        };
        if entry == 0 {
            return Ok(());
        }
        // The high bit means "import by ordinal".
        if entry >= 0x8000_0000_0000_0000 {
            return Err(
                MirageError::Malformed(
                    "the image imports by ordinal; Mirage resolves imports by name, since there \
                     is no DLL export table to index into",
                ),
            );
        }
        let name: String = match read_import_name(bytes, headers_size, sections, entry) {
            Ok(n) => n,
            Err(e) => {
                return Err(e);
            },
        };
        let slot: u64 = iat_rva as u64 + 8 * (done as u64);
        if slot > u32::MAX as u64 {
            return Err(
                MirageError::Malformed(
                    "an import address table runs past the 32-bit address range",
                ),
            );
        }
        let ghost before = imports@;
        let import = Import { name, iat_rva: slot as u32 };
        imports.push(import);
        assert(import_views(imports@) =~= import_views(before).push(import@));
        done += 1;
    }
    Ok(())
}

/// Walks the import directory, collecting every imported function and the
/// slot that will hold its address.
fn parse_imports(
    bytes: &[u8],
    directory_rva: u32,
    headers_size: u32,
    sections: &Vec<Section>,
) -> (r: Result<Vec<Import>, MirageError>)
    requires
        headers_size <= bytes.len(),
        file_ranges_inside(sections@, bytes.len() as int),
    ensures
        imports_at(bytes@, headers_size, sections@, directory_rva) == match r {
            Ok(v) => Ok::<Seq<ImportView>, MirageError>(import_views(v@)),
            Err(e) => Err::<Seq<ImportView>, MirageError>(e),
        },
{
    let mut imports: Vec<Import> = Vec::new();
    assert(import_views(imports@) =~= Seq::<ImportView>::empty());
    if directory_rva == 0 {
        return Ok(imports);
    }
    let first: usize = match rva_to_offset(headers_size, sections, directory_rva, bytes.len()) {
        Some(at) => at,
        None => {
            return Err(MirageError::Malformed("the import directory RVA is unmapped"));
        },
    };
    let mut done: usize = 0;
    while done < MAX_IMPORTS
        invariant
            done <= MAX_IMPORTS,
            headers_size <= bytes.len(),
            file_ranges_inside(sections@, bytes.len() as int),
            first < bytes.len(),
            imports_at(bytes@, headers_size, sections@, directory_rva) == imports_from(
                bytes@,
                headers_size,
                sections@,
                first + 20 * done,
                (MAX_IMPORTS - done) as nat,
                import_views(imports@),
            ),
        decreases MAX_IMPORTS - done,
    {
        // A bound on iterations as well as a terminator, because a file
        // with no terminator would otherwise walk to the end of memory.
        let step: usize = 20 * done;
        if bytes.len() - first < step + 20 {
            return Err(
                MirageError::Malformed("the import descriptor list runs past the end of the file"),
            );
        }
        let d: usize = first + step;
        let lookup_rva: u32 = read_u32(bytes, d);
        let name_rva: u32 = read_u32(bytes, d + 12);
        let iat_rva: u32 = read_u32(bytes, d + 16);
        if lookup_rva == 0 && name_rva == 0 && iat_rva == 0 {
            return Ok(imports);
        }
        // An image may omit the lookup table, in which case the import
        // address table serves as both.
        let names_rva: u32 = if lookup_rva != 0 {
            lookup_rva
        } else {
            iat_rva
        };
        let names: usize = match rva_to_offset(headers_size, sections, names_rva, bytes.len()) {
            Some(at) => at,
            None => {
                return Err(MirageError::Malformed("an import lookup table is unmapped"));
            },
        };
        match parse_import_table(bytes, headers_size, sections, names, iat_rva, &mut imports) {
            Ok(_) => {},
            Err(e) => {
                return Err(e);
            },
        }
        done += 1;
    }
    Ok(imports)
}

// ---------------------------------------------------------------------
// Relocations
// ---------------------------------------------------------------------

/// The next `left` entries, from file offset `at`, of the relocation block
/// for the page at `page_rva`.
pub open spec fn relocations_of_block(
    s: Seq<u8>,
    at: int,
    page_rva: u32,
    left: nat,
    sofar: Seq<u32>,
) -> Result<Seq<u32>, MirageError>
    decreases left,
{
    let entry = bytes::le16(s, at);
    let kind = entry / 4096;
    let address = page_rva + entry % 4096;
    if left == 0 {
        Ok(sofar)
    } else if sofar.len() >= MAX_RELOCATIONS {
        Err(MirageError::Malformed("implausible number of relocations"))
    } else if kind == IMAGE_REL_BASED_ABSOLUTE {
        relocations_of_block(s, at + 2, page_rva, (left - 1) as nat, sofar)
    } else if kind != IMAGE_REL_BASED_DIR64 {
        Err(
            MirageError::Malformed(
                "an unsupported relocation type is present; only 64-bit absolute \
                         relocations are handled",
            ),
        )
    } else if address > u32::MAX {
        Err(MirageError::Malformed("a relocation lies past the 32-bit address range"))
    } else {
        relocations_of_block(
            s,
            at + 2,
            page_rva,
            (left - 1) as nat,
            sofar.push(address as u32),
        )
    }
}

/// The relocations of every block between file offsets `at` and `end`.
pub open spec fn relocations_from(s: Seq<u8>, at: int, end: int, sofar: Seq<u32>) -> Result<
    Seq<u32>,
    MirageError,
>
    decreases end - at,
{
    let page_rva = bytes::le32(s, at) as u32;
    let block_size = bytes::le32(s, at + 4);
    if at + 8 > end {
        Ok(sofar)
    } else if block_size < 8 || at + block_size > end {
        Err(MirageError::Malformed("a relocation block has a bad size"))
    } else {
        match relocations_of_block(s, at + 8, page_rva, ((block_size - 8) / 2) as nat, sofar) {
            Err(e) => Err(e),
            Ok(more) => relocations_from(s, at + block_size, end, more),
        }
    }
}

/// Everything the relocation directory lists.
pub open spec fn relocations_at(
    s: Seq<u8>,
    headers_size: u32,
    sections: Seq<Section>,
    rva: u32,
    size: u32,
) -> Result<Seq<u32>, MirageError> {
    if rva == 0 || size == 0 {
        Ok(Seq::empty())
    } else {
        match offset_of(headers_size, sections, rva) {
            None => Err(MirageError::Malformed("the relocation directory is unmapped")),
            Some(start) => if start + size > s.len() {
                Err(
                    MirageError::Malformed(
                        "the relocation directory extends past the end of the file",
                    ),
                )
            } else {
                relocations_from(s, start, start + size, Seq::empty())
            },
        }
    }
}

fn parse_relocation_block(
    bytes: &[u8],
    at: usize,
    page_rva: u32,
    entries: usize,
    relocations: &mut Vec<u32>,
) -> (r: Result<(), MirageError>)
    requires
        at + 2 * entries <= bytes.len(),
    ensures
        relocations_of_block(bytes@, at as int, page_rva, entries as nat, old(relocations)@)
            == match r {
            Ok(_) => Ok::<Seq<u32>, MirageError>(final(relocations)@),
            Err(e) => Err::<Seq<u32>, MirageError>(e),
        },
{
    let mut index: usize = 0;
    while index < entries
        invariant
            index <= entries,
            at + 2 * entries <= bytes.len(),
            relocations_of_block(bytes@, at as int, page_rva, entries as nat, old(relocations)@)
                == relocations_of_block(
                bytes@,
                at + 2 * index,
                page_rva,
                (entries - index) as nat,
                relocations@,
            ),
        decreases entries - index,
    {
        if relocations.len() >= MAX_RELOCATIONS {
            return Err(MirageError::Malformed("implausible number of relocations"));
        }
        let entry: u16 = read_u16(bytes, at + 2 * index);
        let kind: u16 = entry / 4096;
        let offset: u16 = entry % 4096;
        if kind == IMAGE_REL_BASED_ABSOLUTE {
            // Padding, present only to keep blocks 4-byte aligned.
        } else if kind == IMAGE_REL_BASED_DIR64 {
            match page_rva.checked_add(offset as u32) {
                Some(address) => {
                    relocations.push(address);
                },
                None => {
                    return Err(
                        MirageError::Malformed("a relocation lies past the 32-bit address range"),
                    );
                },
            }
        } else {
            return Err(
                MirageError::Malformed(
                    "an unsupported relocation type is present; only 64-bit absolute \
                         relocations are handled",
                ),
            );
        }
        index += 1;
    }
    Ok(())
}

/// Collects the RVAs of every 64-bit absolute address that needs fixing
/// up when the image is moved from its preferred base.
fn parse_relocations(
    bytes: &[u8],
    rva: u32,
    size: u32,
    headers_size: u32,
    sections: &Vec<Section>,
) -> (r: Result<Vec<u32>, MirageError>)
    requires
        headers_size <= bytes.len(),
        file_ranges_inside(sections@, bytes.len() as int),
    ensures
        relocations_at(bytes@, headers_size, sections@, rva, size) == match r {
            Ok(v) => Ok::<Seq<u32>, MirageError>(v@),
            Err(e) => Err::<Seq<u32>, MirageError>(e),
        },
{
    let mut relocations: Vec<u32> = Vec::new();
    if rva == 0 || size == 0 {
        return Ok(relocations);
    }
    let start: usize = match rva_to_offset(headers_size, sections, rva, bytes.len()) {
        Some(at) => at,
        None => {
            return Err(MirageError::Malformed("the relocation directory is unmapped"));
        },
    };
    if bytes.len() - start < size as usize {
        return Err(
            MirageError::Malformed("the relocation directory extends past the end of the file"),
        );
    }
    let end: usize = start + size as usize;
    let mut at: usize = start;
    while end - at >= 8
        invariant
            at <= end <= bytes.len(),
            relocations_at(bytes@, headers_size, sections@, rva, size) == relocations_from(
                bytes@,
                at as int,
                end as int,
                relocations@,
            ),
        decreases end - at,
    {
        let page_rva: u32 = read_u32(bytes, at);
        let block_size: usize = read_u32(bytes, at + 4) as usize;
        // A block smaller than its own header, or larger than the
        // directory, would spin forever or read past the end.
        if block_size < 8 || block_size > end - at {
            return Err(MirageError::Malformed("a relocation block has a bad size"));
        }
        match parse_relocation_block(
            bytes,
            at + 8,
            page_rva,
            (block_size - 8) / 2,
            &mut relocations,
        ) {
            Ok(_) => {},
            Err(e) => {
                return Err(e);
            },
        }
        at += block_size;
    }
    Ok(relocations)
}

// ---------------------------------------------------------------------
// The whole image
// ---------------------------------------------------------------------

/// What `parse` makes of a file.
pub open spec fn image_of(s: Seq<u8>) -> Result<ImageView, MirageError> {
    match headers_of(s) {
        Err(e) => Err(e),
        Ok(h) => match sections_from(
            s,
            h.section_table as int,
            h.image_size,
            h.section_count as nat,
            Seq::empty(),
        ) {
            Err(e) => Err(e),
            Ok(sections) => match directory(s, h, DIRECTORY_IMPORT as int) {
                Err(e) => Err(e),
                Ok(import_dir) => match imports_at(s, h.headers_size, sections, import_dir.0) {
                    Err(e) => Err(e),
                    Ok(imports) => match directory(s, h, DIRECTORY_BASERELOC as int) {
                        Err(e) => Err(e),
                        Ok(reloc_dir) => match relocations_at(
                            s,
                            h.headers_size,
                            sections,
                            reloc_dir.0,
                            reloc_dir.1,
                        ) {
                            Err(e) => Err(e),
                            Ok(relocations) => Ok(
                                ImageView {
                                    entry_rva: h.entry_rva,
                                    preferred_base: h.preferred_base,
                                    image_size: h.image_size as usize,
                                    headers_size: h.headers_size as usize,
                                    sections,
                                    imports,
                                    relocations,
                                },
                            ),
                        },
                    },
                },
            },
        },
    }
}

/// Parses and validates a PE32+ image.
pub fn parse(bytes: &[u8]) -> (r: Result<Image, MirageError>)
    ensures
        image_of(bytes@) == match r {
            Ok(image) => Ok::<ImageView, MirageError>(image@),
            Err(e) => Err::<ImageView, MirageError>(e),
        },
{
    let h: Headers = match parse_headers(bytes) {
        Ok(h) => h,
        Err(e) => {
            return Err(e);
        },
    };
    let sections: Vec<Section> = match parse_sections(bytes, &h) {
        Ok(v) => v,
        Err(e) => {
            return Err(e);
        },
    };
    proof {
        lemma_sections_inside(
            bytes@,
            h.section_table as int,
            h.image_size,
            h.section_count as nat,
            Seq::empty(),
        );
    }
    let import_dir: (u32, u32) = match read_directory(bytes, &h, DIRECTORY_IMPORT) {
        Ok(d) => d,
        Err(e) => {
            return Err(e);
        },
    };
    let imports: Vec<Import> = match parse_imports(bytes, import_dir.0, h.headers_size, &sections) {
        Ok(v) => v,
        Err(e) => {
            return Err(e);
        },
    };
    let reloc_dir: (u32, u32) = match read_directory(bytes, &h, DIRECTORY_BASERELOC) {
        Ok(d) => d,
        Err(e) => {
            return Err(e);
        },
    };
    let relocations: Vec<u32> = match parse_relocations(
        bytes,
        reloc_dir.0,
        reloc_dir.1,
        h.headers_size,
        &sections,
    ) {
        Ok(v) => v,
        Err(e) => {
            return Err(e);
        },
    };
    Ok(
        Image {
            entry_rva: h.entry_rva,
            preferred_base: h.preferred_base,
            image_size: h.image_size as usize,
            headers_size: h.headers_size as usize,
            sections,
            imports,
            relocations,
        },
    )
}

/// A section that passed the checks: its file bytes are in the file and
/// its memory range is in the image.
pub open spec fn section_is_bounded(x: Section, file_len: int, image_size: int) -> bool {
    &&& x.raw_size > 0 ==> x.raw_offset + x.raw_size <= file_len
    &&& x.virtual_address + x.virtual_size <= image_size
    &&& x.virtual_address < image_size
}

/// Nothing an accepted image says reaches outside the file or past the
/// limits: sizes and counts are bounded, the headers and every section's
/// data lie in the file, and every section's memory lies in the image.
pub proof fn law_accepted_image_is_bounded(s: Seq<u8>)
    requires
        image_of(s) is Ok,
    ensures
        ({
            let v = image_of(s)->Ok_0;
            &&& 0 < v.image_size <= MAX_IMAGE_SIZE
            &&& v.headers_size <= s.len()
            &&& v.sections.len() <= MAX_SECTIONS
            &&& v.imports.len() <= MAX_IMPORTS
            &&& v.relocations.len() <= MAX_RELOCATIONS
            &&& forall|i: int|
                0 <= i < v.sections.len() ==> section_is_bounded(
                    #[trigger] v.sections[i],
                    s.len() as int,
                    v.image_size as int,
                )
        }),
{
    let h = headers_of(s)->Ok_0;
    lemma_sections_bounded(
        s,
        h.section_table as int,
        h.image_size,
        h.section_count as nat,
        Seq::empty(),
    );
    let v = image_of(s)->Ok_0;
    let import_dir = directory(s, h, DIRECTORY_IMPORT as int)->Ok_0;
    if import_dir.0 != 0 {
        let at = offset_of(h.headers_size, v.sections, import_dir.0).unwrap();
        lemma_imports_bounded(s, h.headers_size, v.sections, at, MAX_IMPORTS as nat, Seq::empty());
    }
    let reloc_dir = directory(s, h, DIRECTORY_BASERELOC as int)->Ok_0;
    if reloc_dir.0 != 0 && reloc_dir.1 != 0 {
        let start = offset_of(h.headers_size, v.sections, reloc_dir.0).unwrap();
        lemma_relocations_bounded(s, start, start + reloc_dir.1, Seq::empty());
    }
}

proof fn lemma_sections_bounded(
    s: Seq<u8>,
    at: int,
    image_size: u32,
    left: nat,
    sofar: Seq<Section>,
)
    requires
        forall|i: int|
            0 <= i < sofar.len() ==> section_is_bounded(
                #[trigger] sofar[i],
                s.len() as int,
                image_size as int,
            ),
    ensures
        sections_from(s, at, image_size, left, sofar) matches Ok(all) ==> all.len() == sofar.len()
            + left && forall|i: int|
            0 <= i < all.len() ==> section_is_bounded(
                #[trigger] all[i],
                s.len() as int,
                image_size as int,
            ),
    decreases left,
{
    if left > 0 {
        match section_at(s, at, image_size) {
            Err(e) => {},
            Ok(section) => {
                lemma_sections_bounded(
                    s,
                    at + 40,
                    image_size,
                    (left - 1) as nat,
                    sofar.push(section),
                );
            },
        }
    }
}

proof fn lemma_import_table_bounded(
    s: Seq<u8>,
    headers_size: u32,
    sections: Seq<Section>,
    names: int,
    slot: int,
    left: nat,
    sofar: Seq<ImportView>,
)
    requires
        sofar.len() <= MAX_IMPORTS,
    ensures
        imports_of_table(s, headers_size, sections, names, slot, left, sofar) matches Ok(all)
            ==> all.len() <= MAX_IMPORTS,
    decreases left,
{
    if left > 0 && sofar.len() < MAX_IMPORTS {
        if let Ok(entry) = field64(s, names) {
            if let Ok(name) = import_name(s, headers_size, sections, entry) {
                lemma_import_table_bounded(
                    s,
                    headers_size,
                    sections,
                    names + 8,
                    slot + 8,
                    (left - 1) as nat,
                    sofar.push(ImportView { name, iat_rva: slot as u32 }),
                );
            }
        }
    }
}

proof fn lemma_imports_bounded(
    s: Seq<u8>,
    headers_size: u32,
    sections: Seq<Section>,
    descriptor: int,
    left: nat,
    sofar: Seq<ImportView>,
)
    requires
        sofar.len() <= MAX_IMPORTS,
    ensures
        imports_from(s, headers_size, sections, descriptor, left, sofar) matches Ok(all)
            ==> all.len() <= MAX_IMPORTS,
    decreases left,
{
    if left > 0 && descriptor + 20 <= s.len() {
        let lookup_rva = bytes::le32(s, descriptor) as u32;
        let iat_rva = bytes::le32(s, descriptor + 16) as u32;
        let names_rva = if lookup_rva != 0 {
            lookup_rva
        } else {
            iat_rva
        };
        if let Some(names) = offset_of(headers_size, sections, names_rva) {
            lemma_import_table_bounded(
                s,
                headers_size,
                sections,
                names,
                iat_rva as int,
                MAX_IMPORTS as nat,
                sofar,
            );
            if let Ok(more) = imports_of_table(
                s,
                headers_size,
                sections,
                names,
                iat_rva as int,
                MAX_IMPORTS as nat,
                sofar,
            ) {
                lemma_imports_bounded(
                    s,
                    headers_size,
                    sections,
                    descriptor + 20,
                    (left - 1) as nat,
                    more,
                );
            }
        }
    }
}

proof fn lemma_relocation_block_bounded(
    s: Seq<u8>,
    at: int,
    page_rva: u32,
    left: nat,
    sofar: Seq<u32>,
)
    requires
        sofar.len() <= MAX_RELOCATIONS,
    ensures
        relocations_of_block(s, at, page_rva, left, sofar) matches Ok(all) ==> all.len()
            <= MAX_RELOCATIONS,
    decreases left,
{
    if left > 0 && sofar.len() < MAX_RELOCATIONS {
        let address = page_rva + bytes::le16(s, at) % 4096;
        lemma_relocation_block_bounded(s, at + 2, page_rva, (left - 1) as nat, sofar);
        lemma_relocation_block_bounded(
            s,
            at + 2,
            page_rva,
            (left - 1) as nat,
            sofar.push(address as u32),
        );
    }
}

proof fn lemma_relocations_bounded(s: Seq<u8>, at: int, end: int, sofar: Seq<u32>)
    requires
        sofar.len() <= MAX_RELOCATIONS,
    ensures
        relocations_from(s, at, end, sofar) matches Ok(all) ==> all.len() <= MAX_RELOCATIONS,
    decreases end - at,
{
    let page_rva = bytes::le32(s, at) as u32;
    let block_size = bytes::le32(s, at + 4);
    if at + 8 <= end && block_size >= 8 && at + block_size <= end {
        let entries = ((block_size - 8) / 2) as nat;
        lemma_relocation_block_bounded(s, at + 8, page_rva, entries, sofar);
        if let Ok(more) = relocations_of_block(s, at + 8, page_rva, entries, sofar) {
            lemma_relocations_bounded(s, at + block_size, end, more);
        }
    }
}

// ---------------------------------------------------------------------
// Laws
// ---------------------------------------------------------------------

/// The fields of an accepted image are where the format puts them: the
/// header that the DOS header points to says where everything else is.
#[verifier::spinoff_prover]
#[verifier::rlimit(60)]
pub proof fn law_headers_are_read(s: Seq<u8>)
    requires
        image_of(s) is Ok,
    ensures
        ({
            let v = image_of(s)->Ok_0;
            let pe = bytes::le32(s, 0x3c);
            let optional = pe + 24;
            &&& s[0] == 0x4d && s[1] == 0x5a
            &&& optional + 112 <= s.len()
            &&& s[pe] == 0x50 && s[pe + 1] == 0x45 && s[pe + 2] == 0 && s[pe + 3] == 0
            &&& bytes::le16(s, pe + 4) == 0x8664
            &&& bytes::le16(s, optional) == 0x20b
            &&& v.entry_rva == bytes::le32(s, optional + 16)
            &&& v.preferred_base == bytes::le64(s, optional + 24)
            &&& v.image_size == bytes::le32(s, optional + 56)
            &&& v.headers_size == bytes::le32(s, optional + 60)
            &&& v.sections.len() == bytes::le16(s, pe + 6)
        }),
{
    let h = headers_of(s)->Ok_0;
    lemma_sections_bounded(
        s,
        h.section_table as int,
        h.image_size,
        h.section_count as nat,
        Seq::empty(),
    );
}

proof fn lemma_sections_are_read(
    s: Seq<u8>,
    at: int,
    image_size: u32,
    left: nat,
    sofar: Seq<Section>,
)
    ensures
        sections_from(s, at, image_size, left, sofar) matches Ok(all) ==> {
            &&& all.len() == sofar.len() + left
            &&& forall|i: int| 0 <= i < sofar.len() ==> #[trigger] all[i] == sofar[i]
            &&& forall|i: int|
                sofar.len() <= i < all.len() ==> section_at(
                    s,
                    at + 40 * (i - sofar.len()),
                    image_size,
                ) == Ok::<Section, MirageError>(#[trigger] all[i])
        },
    decreases left,
{
    if left > 0 {
        if let Ok(section) = section_at(s, at, image_size) {
            lemma_sections_are_read(
                s,
                at + 40,
                image_size,
                (left - 1) as nat,
                sofar.push(section),
            );
            if let Ok(all) = sections_from(s, at, image_size, left, sofar) {
                assert forall|i: int| 0 <= i < sofar.len() implies #[trigger] all[i] == sofar[i] by {
                    assert(all[i] == sofar.push(section)[i]);
                }
                assert(all[sofar.len() as int] == sofar.push(section)[sofar.len() as int]);
            }
        }
    }
}

proof fn lemma_section_fields(s: Seq<u8>, at: int, image_size: u32, section: Section)
    requires
        section_at(s, at, image_size) == Ok::<Section, MirageError>(section),
    ensures
        at + 40 <= s.len(),
        section.virtual_size == bytes::le32(s, at + 8),
        section.virtual_address == bytes::le32(s, at + 12),
        section.raw_size == bytes::le32(s, at + 16),
        section.raw_offset == bytes::le32(s, at + 20),
        section.executable <==> (bytes::le32(s, at + 36) as u32) & 0x2000_0000 != 0,
        section.readable <==> (bytes::le32(s, at + 36) as u32) & 0x4000_0000 != 0,
        section.writable <==> (bytes::le32(s, at + 36) as u32) & 0x8000_0000 != 0,
{
}

/// Every section is the one that the section table describes: the table
/// follows the optional header, an entry has forty bytes, and the numbers and
/// permissions are the ones at their places in the entry.
#[verifier::spinoff_prover]
#[verifier::rlimit(60)]
pub proof fn law_sections_are_read(s: Seq<u8>, i: int)
    requires
        image_of(s) is Ok,
        0 <= i < (image_of(s)->Ok_0).sections.len(),
    ensures
        ({
            let section = (image_of(s)->Ok_0).sections[i];
            let pe = bytes::le32(s, 0x3c);
            let at = pe + 24 + bytes::le16(s, pe + 20) + 40 * i;
            let permissions = bytes::le32(s, at + 36) as u32;
            &&& at + 40 <= s.len()
            &&& section.virtual_size == bytes::le32(s, at + 8)
            &&& section.virtual_address == bytes::le32(s, at + 12)
            &&& section.raw_size == bytes::le32(s, at + 16)
            &&& section.raw_offset == bytes::le32(s, at + 20)
            &&& section.executable <==> permissions & 0x2000_0000 != 0
            &&& section.readable <==> permissions & 0x4000_0000 != 0
            &&& section.writable <==> permissions & 0x8000_0000 != 0
        }),
{
    let h = headers_of(s)->Ok_0;
    lemma_sections_are_read(
        s,
        h.section_table as int,
        h.image_size,
        h.section_count as nat,
        Seq::empty(),
    );
    let all = (image_of(s)->Ok_0).sections;
    let at = h.section_table + 40 * (i - Seq::<Section>::empty().len());
    assert(section_at(s, at, h.image_size) == Ok::<Section, MirageError>(all[i]));
    lemma_section_fields(s, at, h.image_size, all[i]);
}

/// Whether a section's range of addresses holds `rva`.
pub open spec fn covers(section: Section, rva: int) -> bool {
    section.virtual_address <= rva && (rva < section.virtual_address + section.virtual_size || rva
        < section.virtual_address + section.raw_size)
}

/// An address of the image names the byte of the file that is mapped there:
/// itself in the headers; the byte as far into the section's data as the
/// address is into the section; and none where no section has data for it.
pub proof fn law_addresses_are_translated(
    headers_size: u32,
    sections: Seq<Section>,
    rva: u32,
    i: int,
)
    requires
        0 <= i <= sections.len(),
        forall|j: int| 0 <= j < i ==> !covers(#[trigger] sections[j], rva as int),
        i < sections.len() ==> covers(sections[i], rva as int),
    ensures
        rva < headers_size ==> offset_of(headers_size, sections, rva) == Some(rva as int),
        rva >= headers_size && i < sections.len() ==> {
            let into = rva - sections[i].virtual_address;
            &&& into < sections[i].raw_size ==> offset_of(headers_size, sections, rva) == Some(
                sections[i].raw_offset + into,
            )
            &&& into >= sections[i].raw_size ==> offset_of(headers_size, sections, rva) is None
        },
        rva >= headers_size && i == sections.len() ==> offset_of(
            headers_size,
            sections,
            rva,
        ) is None,
{
    lemma_skips_sections(sections, 0, i, rva as int);
}

proof fn lemma_skips_sections(sections: Seq<Section>, k: int, i: int, rva: int)
    requires
        0 <= k <= i <= sections.len(),
        forall|j: int| 0 <= j < i ==> !covers(#[trigger] sections[j], rva),
    ensures
        offset_in_sections(sections, k, rva) == offset_in_sections(sections, i, rva),
    decreases i - k,
{
    if k < i {
        assert(!covers(sections[k], rva));
        lemma_skips_sections(sections, k + 1, i, rva);
    }
}

/// Whether `b` is where a block of a relocation directory starts, whose
/// blocks lie one after the other from `at` on.
pub open spec fn is_block(s: Seq<u8>, at: int, end: int, b: int) -> bool
    decreases end - at,
{
    let size = bytes::le32(s, at + 4);
    &&& at + 8 <= end
    &&& 8 <= size
    &&& at + size <= end
    &&& b == at || is_block(s, at + size, end, b)
}

/// Whether entry `e` of the block at `b` is the 64-bit relocation of `x`: the
/// upper four bits of an entry are its type, the rest is where in the block's
/// page the address is.
pub open spec fn entry_gives(s: Seq<u8>, b: int, e: int, x: u32) -> bool {
    let entry = bytes::le16(s, b + 8 + 2 * e);
    &&& 0 <= e < (bytes::le32(s, b + 4) - 8) / 2
    &&& entry / 4096 == 10
    &&& x == bytes::le32(s, b) + entry % 4096
}

/// Whether any entry of any block is the relocation of `x`.
pub open spec fn is_relocated(s: Seq<u8>, at: int, end: int, x: u32) -> bool {
    exists|b: int, e: int| is_block(s, at, end, b) && #[trigger] entry_gives(s, b, e, x)
}

proof fn lemma_block_lists(
    s: Seq<u8>,
    b: int,
    done: int,
    left: nat,
    sofar: Seq<u32>,
    x: u32,
)
    requires
        0 <= done,
        done + left == (bytes::le32(s, b + 4) - 8) / 2,
    ensures
        relocations_of_block(s, b + 8 + 2 * done, bytes::le32(s, b) as u32, left, sofar) matches Ok(
            all,
        ) ==> (all.contains(x) <==> sofar.contains(x) || exists|e: int|
            done <= e && #[trigger] entry_gives(s, b, e, x)),
    decreases left,
{
    let page = bytes::le32(s, b) as u32;
    let at = b + 8 + 2 * done;
    let entry = bytes::le16(s, at);
    if left > 0 && sofar.len() < MAX_RELOCATIONS {
        let next = sofar.push((page + entry % 4096) as u32);
        lemma_block_lists(s, b, done + 1, (left - 1) as nat, sofar, x);
        lemma_block_lists(s, b, done + 1, (left - 1) as nat, next, x);
        assert(next.contains(x) <==> sofar.contains(x) || x == (page + entry % 4096) as u32) by {
            if sofar.contains(x) {
                let k = sofar.index_of(x);
                assert(next[k] == x);
            }
            assert(next[sofar.len() as int] == (page + entry % 4096) as u32);
            if next.contains(x) {
                let k = next.index_of(x);
                assert(k == sofar.len() || sofar[k] == x);
            }
        }
        if relocations_of_block(s, at, page, left, sofar) is Ok {
            assert(entry_gives(s, b, done, x) <==> entry / 4096 == 10 && x == page + entry % 4096);
            if exists|e: int| done <= e && #[trigger] entry_gives(s, b, e, x) {
                let e = choose|e: int| done <= e && #[trigger] entry_gives(s, b, e, x);
                if e > done {
                    assert(done + 1 <= e && entry_gives(s, b, e, x));
                }
            }
        }
    }
}

proof fn lemma_blocks_list(s: Seq<u8>, at: int, end: int, sofar: Seq<u32>, x: u32)
    ensures
        relocations_from(s, at, end, sofar) matches Ok(all) ==> (all.contains(x)
            <==> sofar.contains(x) || is_relocated(s, at, end, x)),
    decreases end - at,
{
    let page = bytes::le32(s, at) as u32;
    let size = bytes::le32(s, at + 4);
    if at + 8 <= end && 8 <= size && at + size <= end {
        let entries = ((size - 8) / 2) as nat;
        lemma_block_lists(s, at, 0, entries, sofar, x);
        if let Ok(more) = relocations_of_block(s, at + 8, page, entries, sofar) {
            lemma_blocks_list(s, at + size, end, more, x);
            assert(is_relocated(s, at, end, x) <==> (exists|e: int|
                0 <= e && #[trigger] entry_gives(s, at, e, x)) || is_relocated(
                s,
                at + size,
                end,
                x,
            )) by {
                if exists|e: int| 0 <= e && #[trigger] entry_gives(s, at, e, x) {
                    let e = choose|e: int| 0 <= e && #[trigger] entry_gives(s, at, e, x);
                    assert(is_block(s, at, end, at) && entry_gives(s, at, e, x));
                }
                if is_relocated(s, at + size, end, x) {
                    let (b, e) = choose|b: int, e: int|
                        is_block(s, at + size, end, b) && #[trigger] entry_gives(s, b, e, x);
                    assert(is_block(s, at, end, b) && entry_gives(s, b, e, x));
                }
                if is_relocated(s, at, end, x) {
                    let (b, e) = choose|b: int, e: int|
                        is_block(s, at, end, b) && #[trigger] entry_gives(s, b, e, x);
                    if b == at {
                        assert(0 <= e && entry_gives(s, at, e, x));
                    } else {
                        assert(is_block(s, at + size, end, b) && entry_gives(s, b, e, x));
                    }
                }
            }
        }
    } else {
        assert(!is_relocated(s, at, end, x)) by {
            if is_relocated(s, at, end, x) {
                let (b, e) = choose|b: int, e: int|
                    is_block(s, at, end, b) && #[trigger] entry_gives(s, b, e, x);
                assert(is_block(s, at, end, b));
            }
        }
    }
}

/// What an image says has to be moved is exactly what the entries of the
/// blocks of its relocation directory name: every entry of every block, and
/// nothing else. The directory is the sixth.
pub proof fn law_relocations_are_the_entries(s: Seq<u8>, x: u32)
    requires
        image_of(s) is Ok,
    ensures
        ({
            let v = image_of(s)->Ok_0;
            let optional = bytes::le32(s, 0x3c) + 24;
            let rva = bytes::le32(s, optional + 112 + 40) as u32;
            let size = bytes::le32(s, optional + 112 + 44);
            let start = offset_of(v.headers_size as u32, v.sections, rva);
            if bytes::le32(s, optional + 108) <= 5 || rva == 0 || size == 0 {
                v.relocations.len() == 0
            } else {
                &&& start is Some
                &&& start.unwrap() + size <= s.len()
                &&& v.relocations.contains(x) <==> is_relocated(
                    s,
                    start.unwrap(),
                    start.unwrap() + size,
                    x,
                )
            }
        }),
{
    let v = image_of(s)->Ok_0;
    let h = headers_of(s)->Ok_0;
    let dir = directory(s, h, DIRECTORY_BASERELOC as int)->Ok_0;
    if dir.0 != 0 && dir.1 != 0 {
        let start = offset_of(h.headers_size, v.sections, dir.0).unwrap();
        lemma_blocks_list(s, start, start + dir.1, Seq::empty(), x);
    }
}

/// Whether `mid` is where a block ends, of those that lie one after the other
/// from `at` on.
pub open spec fn is_boundary(s: Seq<u8>, at: int, mid: int) -> bool
    decreases mid - at,
{
    let size = bytes::le32(s, at + 4);
    at == mid || (at + 8 <= mid && 8 <= size && at + size <= mid && is_boundary(s, at + size, mid))
}

/// A directory is read block after block: what two runs of blocks list, one
/// after the other, is what the first lists followed by what the second
/// lists, in their order and as often as they list it.
pub proof fn law_relocation_blocks_follow_each_other(
    s: Seq<u8>,
    at: int,
    mid: int,
    end: int,
    sofar: Seq<u32>,
)
    requires
        is_boundary(s, at, mid),
        mid <= end,
    ensures
        relocations_from(s, at, end, sofar) == match relocations_from(s, at, mid, sofar) {
            Ok(more) => relocations_from(s, mid, end, more),
            Err(e) => Err(e),
        },
    decreases mid - at,
{
    if at != mid {
        let page = bytes::le32(s, at) as u32;
        let size = bytes::le32(s, at + 4);
        if let Ok(more) = relocations_of_block(
            s,
            at + 8,
            page,
            ((size - 8) / 2) as nat,
            sofar,
        ) {
            law_relocation_blocks_follow_each_other(s, at + size, mid, end, more);
        }
    }
}

/// Whether every entry of a block is either padding or a 64-bit relocation
/// whose address has 32 bits.
pub open spec fn block_is_supported(s: Seq<u8>, b: int) -> bool {
    forall|e: int|
        #![trigger bytes::le16(s, b + 8 + 2 * e)]
        0 <= e < (bytes::le32(s, b + 4) - 8) / 2 ==> {
            let entry = bytes::le16(s, b + 8 + 2 * e);
            ||| entry / 4096 == 0
            ||| entry / 4096 == 10 && bytes::le32(s, b) + entry % 4096 <= u32::MAX
        }
}

proof fn lemma_supported_block_is_accepted(
    s: Seq<u8>,
    b: int,
    done: int,
    left: nat,
    sofar: Seq<u32>,
)
    requires
        block_is_supported(s, b),
        0 <= done,
        done + left == (bytes::le32(s, b + 4) - 8) / 2,
        sofar.len() + left <= MAX_RELOCATIONS,
    ensures
        relocations_of_block(s, b + 8 + 2 * done, bytes::le32(s, b) as u32, left, sofar) matches Ok(
            all,
        ) && all.len() <= sofar.len() + left,
    decreases left,
{
    if left > 0 {
        let entry = bytes::le16(s, b + 8 + 2 * done);
        assert(entry / 4096 == 0 || (entry / 4096 == 10 && bytes::le32(s, b) + entry % 4096
            <= u32::MAX));
        let next = sofar.push((bytes::le32(s, b) + entry % 4096) as u32);
        lemma_supported_block_is_accepted(s, b, done + 1, (left - 1) as nat, sofar);
        lemma_supported_block_is_accepted(s, b, done + 1, (left - 1) as nat, next);
    }
}

/// A directory that is in order is accepted: blocks one after the other up to
/// its end, nothing in them but padding and 64-bit relocations, and no more
/// entries than the limit.
pub proof fn law_sound_relocations_are_accepted(
    s: Seq<u8>,
    at: int,
    end: int,
    sofar: Seq<u32>,
)
    requires
        is_boundary(s, at, end),
        forall|b: int| #[trigger] is_block(s, at, end, b) ==> block_is_supported(s, b),
        2 * sofar.len() + (end - at) <= 131_072,
    ensures
        relocations_from(s, at, end, sofar) is Ok,
    decreases end - at,
{
    if at != end {
        let page = bytes::le32(s, at) as u32;
        let size = bytes::le32(s, at + 4);
        let entries = ((size - 8) / 2) as nat;
        assert(is_block(s, at, end, at));
        lemma_supported_block_is_accepted(s, at, 0, entries, sofar);
        let more = relocations_of_block(s, at + 8, page, entries, sofar)->Ok_0;
        assert forall|b: int| #[trigger] is_block(
            s,
            at + size,
            end,
            b,
        ) implies block_is_supported(s, b) by {
            assert(is_block(s, at, end, b));
        }
        law_sound_relocations_are_accepted(s, at + size, end, more);
    }
}

/// Whether a descriptor of the import directory is not the one that ends it.
pub open spec fn descriptor_is_used(s: Seq<u8>, d: int) -> bool {
    bytes::le32(s, d) != 0 || bytes::le32(s, d + 12) != 0 || bytes::le32(s, d + 16) != 0
}

/// Whether `x` is what entry `e` of the lookup table at file offset `names`
/// asks for: the function whose name, up to its first zero byte, follows a
/// hint of two bytes at the address in the entry, for the slot as far into
/// the address table at `slots` as the entry is into its own table.
pub open spec fn entry_imports(
    s: Seq<u8>,
    headers_size: u32,
    sections: Seq<Section>,
    names: int,
    slots: int,
    e: int,
    x: ImportView,
) -> bool {
    let entry = bytes::le64(s, names + 8 * e);
    let hint = offset_of(headers_size, sections, (entry % 0x8000_0000) as u32);
    &&& entry != 0
    &&& x.iat_rva == slots + 8 * e
    &&& hint is Some
    &&& exists|end: int|
        hint.unwrap() + 2 <= end < s.len() && s[end] == 0 && (forall|k: int|
            hint.unwrap() + 2 <= k < end ==> s[k] != 0) && x.name == #[trigger] text::utf8_lossy(
            s.subrange(hint.unwrap() + 2, end),
        )
}

/// Whether entry `e` of the lookup table at file offset `names` ends it.
pub open spec fn table_ends(s: Seq<u8>, names: int, e: int) -> bool {
    bytes::le64(s, names + 8 * e) == 0
}

proof fn lemma_nul_from(s: Seq<u8>, at: int)
    requires
        0 <= at,
    ensures
        match nul_from(s, at) {
            Some(end) => at <= end < s.len() && s[end] == 0 && forall|k: int|
                at <= k < end ==> s[k] != 0,
            None => forall|k: int| at <= k < s.len() ==> s[k] != 0,
        },
    decreases s.len() - at,
{
    if at < s.len() && s[at] != 0 {
        lemma_nul_from(s, at + 1);
    }
}

proof fn lemma_table_imports(
    s: Seq<u8>,
    headers_size: u32,
    sections: Seq<Section>,
    names: int,
    slots: int,
    done: int,
    left: nat,
    sofar: Seq<ImportView>,
)
    requires
        0 <= done,
        0 <= slots,
    ensures
        imports_of_table(
            s,
            headers_size,
            sections,
            names + 8 * done,
            slots + 8 * done,
            left,
            sofar,
        ) matches Ok(all) ==> {
            let n = all.len() - sofar.len();
            &&& 0 <= n <= left
            &&& forall|i: int| 0 <= i < sofar.len() ==> #[trigger] all[i] == sofar[i]
            &&& forall|i: int|
                sofar.len() <= i < all.len() ==> entry_imports(
                    s,
                    headers_size,
                    sections,
                    names,
                    slots,
                    done + i - sofar.len(),
                    #[trigger] all[i],
                )
            &&& n < left ==> table_ends(s, names, done + n)
        },
    decreases left,
{
    let result = imports_of_table(
        s,
        headers_size,
        sections,
        names + 8 * done,
        slots + 8 * done,
        left,
        sofar,
    );
    if left > 0 && result is Ok && bytes::le64(s, names + 8 * done) != 0 {
        let entry = bytes::le64(s, names + 8 * done) as u64;
        let name = import_name(s, headers_size, sections, entry)->Ok_0;
        let one = ImportView { name, iat_rva: (slots + 8 * done) as u32 };
        let next = sofar.push(one);
        lemma_table_imports(
            s,
            headers_size,
            sections,
            names,
            slots,
            done + 1,
            (left - 1) as nat,
            next,
        );
        let hint = offset_of(headers_size, sections, (entry % 0x8000_0000) as u32).unwrap();
        lemma_offset_is_not_negative(sections, 0, (entry % 0x8000_0000) as int);
        lemma_nul_from(s, hint + 2);
        assert(entry_imports(s, headers_size, sections, names, slots, done, one));
        let all = result->Ok_0;
        assert forall|i: int| 0 <= i < sofar.len() implies #[trigger] all[i] == sofar[i] by {
            assert(all[i] == next[i]);
        }
        assert forall|i: int| sofar.len() <= i < all.len() implies entry_imports(
            s,
            headers_size,
            sections,
            names,
            slots,
            done + i - sofar.len(),
            #[trigger] all[i],
        ) by {
            assert(done + 1 + i - next.len() == done + i - sofar.len());
            if i == sofar.len() {
                assert(all[i] == next[i]);
            }
        }
        assert(done + 1 + (all.len() - next.len()) == done + (all.len() - sofar.len()));
    } else if left > 0 && result is Ok {
        assert(table_ends(s, names, done + 0));
    }
}

proof fn lemma_offset_is_not_negative(sections: Seq<Section>, i: int, rva: int)
    requires
        0 <= rva,
    ensures
        offset_in_sections(sections, i, rva) matches Some(at) ==> 0 <= at,
    decreases sections.len() - i,
{
    if 0 <= i < sections.len() {
        lemma_offset_is_not_negative(sections, i + 1, rva);
    }
}

/// The lookup table of a descriptor gives one import for each of its entries
/// up to the first that is zero, in their order, and nothing else. What was
/// found before stays.
pub proof fn law_lookup_table_is_read_to_its_end(
    s: Seq<u8>,
    headers_size: u32,
    sections: Seq<Section>,
    names: int,
    slots: u32,
    sofar: Seq<ImportView>,
)
    ensures
        imports_of_table(
            s,
            headers_size,
            sections,
            names,
            slots as int,
            512,
            sofar,
        ) matches Ok(all) ==> {
            let n = all.len() - sofar.len();
            &&& 0 <= n <= 512
            &&& forall|i: int| 0 <= i < sofar.len() ==> #[trigger] all[i] == sofar[i]
            &&& forall|e: int|
                0 <= e < n ==> #[trigger] entry_imports(
                    s,
                    headers_size,
                    sections,
                    names,
                    slots as int,
                    e,
                    all[sofar.len() + e],
                )
            &&& n < 512 ==> table_ends(s, names, n)
        },
{
    lemma_table_imports(s, headers_size, sections, names, slots as int, 0, 512, sofar);
    assert(names + 8 * 0 == names && slots + 8 * 0 == slots);
    if let Ok(all) = imports_of_table(s, headers_size, sections, names, slots as int, 512, sofar) {
        let n = all.len() - sofar.len();
        assert forall|e: int| 0 <= e < n implies #[trigger] entry_imports(
            s,
            headers_size,
            sections,
            names,
            slots as int,
            e,
            all[sofar.len() + e],
        ) by {
            let i = sofar.len() + e;
            assert(0 + i - sofar.len() == e);
            assert(all[i] == all[i]);
        }
    }
}

/// The import directory is read descriptor by descriptor, up to the one that
/// is all zeros: what a directory lists is what its first descriptor's table
/// lists, followed by what the rest of the directory lists. The table is the
/// lookup table, or the address table where there is none.
pub proof fn law_import_descriptors_follow_each_other(
    s: Seq<u8>,
    headers_size: u32,
    sections: Seq<Section>,
    d: int,
    left: nat,
    sofar: Seq<ImportView>,
)
    requires
        left > 0,
        d + 20 <= s.len(),
    ensures
        !descriptor_is_used(s, d) ==> imports_from(s, headers_size, sections, d, left, sofar)
            == Ok::<Seq<ImportView>, MirageError>(sofar),
        descriptor_is_used(s, d) ==> {
            let table = if bytes::le32(s, d) != 0 {
                bytes::le32(s, d) as u32
            } else {
                bytes::le32(s, d + 16) as u32
            };
            match offset_of(headers_size, sections, table) {
                Some(names) => imports_from(s, headers_size, sections, d, left, sofar)
                    == match imports_of_table(
                    s,
                    headers_size,
                    sections,
                    names,
                    bytes::le32(s, d + 16),
                    512,
                    sofar,
                ) {
                    Ok(more) => imports_from(
                        s,
                        headers_size,
                        sections,
                        d + 20,
                        (left - 1) as nat,
                        more,
                    ),
                    Err(e) => Err(e),
                },
                None => imports_from(s, headers_size, sections, d, left, sofar) is Err,
            }
        },
{
}

/// The imports of an image are what its import directory lists, which is the
/// second directory, from its first descriptor on.
pub proof fn law_imports_are_the_directorys(s: Seq<u8>)
    requires
        image_of(s) is Ok,
    ensures
        ({
            let v = image_of(s)->Ok_0;
            let optional = bytes::le32(s, 0x3c) + 24;
            let rva = bytes::le32(s, optional + 112 + 8) as u32;
            let start = offset_of(v.headers_size as u32, v.sections, rva);
            if bytes::le32(s, optional + 108) <= 1 || rva == 0 {
                v.imports.len() == 0
            } else {
                &&& start is Some
                &&& imports_from(
                    s,
                    v.headers_size as u32,
                    v.sections,
                    start.unwrap(),
                    512,
                    Seq::empty(),
                ) == Ok::<Seq<ImportView>, MirageError>(v.imports)
            }
        }),
{
}

/// The headers of a file are accepted exactly where they are those of a
/// 64-bit image for this machine: both signatures are there, the headers are
/// in the file, there are at most 96 sections, and the image is not empty and
/// not larger than 512 mebibytes.
#[verifier::spinoff_prover]
#[verifier::rlimit(40)]
pub proof fn law_sound_headers_are_accepted(s: Seq<u8>)
    ensures
        headers_of(s) is Ok <==> {
            let pe = bytes::le32(s, 0x3c);
            let optional = pe + 24;
            &&& s.len() >= 64
            &&& bytes::le16(s, 0) == 0x5a4d
            &&& optional <= s.len()
            &&& bytes::le32(s, pe) == 0x4550
            &&& bytes::le16(s, pe + 4) == 0x8664
            &&& bytes::le16(s, pe + 6) <= 96
            &&& optional + bytes::le16(s, pe + 20) <= s.len()
            &&& optional + 112 <= s.len()
            &&& bytes::le16(s, optional) == 0x20b
            &&& 0 < bytes::le32(s, optional + 56) <= 0x2000_0000
            &&& bytes::le32(s, optional + 60) <= s.len()
        },
        s.len() < 64 || bytes::le16(s, 0) != 0x5a4d ==> image_of(s) matches Err(
            MirageError::NotPe(_),
        ),
{
    assert(bytes::le32(s, bytes::le32(s, 0x3c) + 24 + 56) >= 0);
}

/// Whether the section header at file offset `at` describes a section that is
/// in the file and in the image.
pub open spec fn section_is_sound(s: Seq<u8>, at: int, image_size: u32) -> bool {
    let in_memory = bytes::le32(s, at + 8);
    let address = bytes::le32(s, at + 12);
    let in_file = bytes::le32(s, at + 16);
    let offset = bytes::le32(s, at + 20);
    &&& at + 40 <= s.len()
    &&& in_file > 0 ==> offset + in_file <= s.len()
    &&& address < image_size
    &&& address + in_memory <= image_size
}

/// Sections are accepted exactly where every one of them is sound, and then
/// all of them are there.
pub proof fn law_sound_sections_are_accepted(
    s: Seq<u8>,
    at: int,
    image_size: u32,
    left: nat,
    sofar: Seq<Section>,
)
    ensures
        sections_from(s, at, image_size, left, sofar) is Ok <==> (forall|i: int|
            0 <= i < left ==> #[trigger] section_is_sound(s, at + 40 * i, image_size)),
        sections_from(s, at, image_size, left, sofar) matches Ok(all) ==> all.len() == sofar.len()
            + left,
        sections_from(s, at, image_size, left, sofar) matches Err(e) ==> e is Malformed,
    decreases left,
{
    if left > 0 {
        lemma_section_is_sound(s, at, image_size);
        let result = sections_from(s, at, image_size, left, sofar);
        assert(at + 40 * 0 == at);
        if section_at(s, at, image_size) is Ok {
            let next = sofar.push(section_at(s, at, image_size)->Ok_0);
            law_sound_sections_are_accepted(s, at + 40, image_size, (left - 1) as nat, next);
            if result is Ok {
                assert forall|i: int| 0 <= i < left implies #[trigger] section_is_sound(
                    s,
                    at + 40 * i,
                    image_size,
                ) by {
                    if i > 0 {
                        assert(at + 40 * i == at + 40 + 40 * (i - 1));
                        assert(section_is_sound(s, at + 40 + 40 * (i - 1), image_size));
                    }
                }
            }
            if forall|i: int|
                0 <= i < left ==> #[trigger] section_is_sound(s, at + 40 * i, image_size) {
                assert forall|i: int| 0 <= i < left - 1 implies #[trigger] section_is_sound(
                    s,
                    at + 40 + 40 * i,
                    image_size,
                ) by {
                    assert(at + 40 + 40 * i == at + 40 * (i + 1));
                    assert(section_is_sound(s, at + 40 * (i + 1), image_size));
                }
            }
        } else {
            assert(!section_is_sound(s, at + 40 * 0, image_size));
        }
    }
}

proof fn lemma_section_is_sound(s: Seq<u8>, at: int, image_size: u32)
    ensures
        section_at(s, at, image_size) is Ok <==> section_is_sound(s, at, image_size),
        section_at(s, at, image_size) matches Err(e) ==> e is Malformed,
{
    let in_memory = bytes::le32(s, at + 8);
    assert(in_memory >= 0);
}

/// Whether entry `e` of the lookup table at file offset `names` is one that
/// names a function: it is in the file, is no ordinal, and leads to a hint
/// with a name behind it that ends in the file.
pub open spec fn entry_names_a_function(
    s: Seq<u8>,
    headers_size: u32,
    sections: Seq<Section>,
    names: int,
    e: int,
) -> bool {
    let entry = bytes::le64(s, names + 8 * e);
    let hint = offset_of(headers_size, sections, (entry % 0x8000_0000) as u32);
    &&& names + 8 * e + 8 <= s.len()
    &&& 0 < entry < 0x8000_0000_0000_0000
    &&& hint is Some
    &&& exists|end: int| hint.unwrap() + 2 <= end < s.len() && #[trigger] s[end] == 0
}

/// A lookup table is accepted where all its entries name functions, there are
/// not too many of them, and the slots have addresses.
pub proof fn law_sound_lookup_tables_are_accepted(
    s: Seq<u8>,
    headers_size: u32,
    sections: Seq<Section>,
    names: int,
    slots: int,
    n: int,
    left: nat,
    sofar: Seq<ImportView>,
)
    requires
        0 <= n < left,
        sofar.len() + n < 512,
        0 <= slots,
        slots + 8 * n <= u32::MAX,
        0 <= names,
        forall|e: int|
            0 <= e < n ==> #[trigger] entry_names_a_function(
                s,
                headers_size,
                sections,
                names,
                e,
            ),
        names + 8 * n + 8 <= s.len(),
        table_ends(s, names, n),
    ensures
        imports_of_table(s, headers_size, sections, names, slots, left, sofar) matches Ok(all)
            && all.len() == sofar.len() + n,
    decreases n,
{
    if n > 0 {
        assert(entry_names_a_function(s, headers_size, sections, names, 0));
        assert(names + 8 * 0 == names);
        let entry = bytes::le64(s, names) as u64;
        let hint = offset_of(headers_size, sections, (entry % 0x8000_0000) as u32).unwrap();
        lemma_offset_is_not_negative(sections, 0, (entry % 0x8000_0000) as int);
        lemma_nul_from(s, hint + 2);
        let name = import_name(s, headers_size, sections, entry)->Ok_0;
        let next = sofar.push(ImportView { name, iat_rva: slots as u32 });
        assert forall|e: int| 0 <= e < n - 1 implies #[trigger] entry_names_a_function(
            s,
            headers_size,
            sections,
            names + 8,
            e,
        ) by {
            assert(names + 8 + 8 * e == names + 8 * (e + 1));
            assert(entry_names_a_function(s, headers_size, sections, names, e + 1));
        }
        assert(names + 8 + 8 * (n - 1) == names + 8 * n);
        law_sound_lookup_tables_are_accepted(
            s,
            headers_size,
            sections,
            names + 8,
            slots + 8,
            n - 1,
            (left - 1) as nat,
            next,
        );
    } else {
        assert(names + 8 * 0 == names);
    }
}

/// An image is accepted exactly where its headers, its sections, its imports
/// and its relocations are, and it is refused for the first of these that is
/// not.
pub proof fn law_images_are_accepted_part_by_part(s: Seq<u8>, h: Headers, sections: Seq<Section>)
    ensures
        headers_of(s) is Err ==> image_of(s) is Err,
        headers_of(s) == Ok::<Headers, MirageError>(h) ==> {
            let found = sections_from(
                s,
                h.section_table as int,
                h.image_size,
                h.section_count as nat,
                Seq::empty(),
            );
            &&& found is Err ==> image_of(s) is Err
            &&& found == Ok::<Seq<Section>, MirageError>(sections) ==> {
                let imports = directory(s, h, 1);
                let moved = directory(s, h, 5);
                image_of(s) is Ok <==> {
                    &&& imports is Ok
                    &&& imports_at(s, h.headers_size, sections, imports->Ok_0.0) is Ok
                    &&& moved is Ok
                    &&& relocations_at(
                        s,
                        h.headers_size,
                        sections,
                        moved->Ok_0.0,
                        moved->Ok_0.1,
                    ) is Ok
                }
            }
        },
{
}

/// A directory that the image does not have is empty, and one that it has is
/// the address and the size in the entry of eight bytes with its number.
pub proof fn law_directories_are_read(s: Seq<u8>, h: Headers, index: int)
    requires
        0 <= index <= 5,
    ensures
        index >= h.directory_count ==> directory(s, h, index) == Ok::<(u32, u32), MirageError>(
            (0u32, 0u32),
        ),
        index < h.directory_count && h.directories + 8 * index + 8 <= s.len() ==> (directory(
            s,
            h,
            index,
        ) matches Ok(d) && d.0 == bytes::le32(s, h.directories + 8 * index) && d.1 == bytes::le32(
            s,
            h.directories + 8 * index + 4,
        )),
        index < h.directory_count && h.directories + 8 * index + 8 > s.len() ==> directory(
            s,
            h,
            index,
        ) is Err,
{
}

} // verus!

//! Little-endian and big-endian fields inside byte sequences, and the
//! comparisons every on-disk format here needs.
use vstd::prelude::*;

verus! {

broadcast use vstd::slice::group_slice_axioms;

/// The 16-bit little-endian number at `at`.
pub open spec fn le16(s: Seq<u8>, at: int) -> int {
    s[at] + 0x100 * s[at + 1]
}

/// The 32-bit little-endian number at `at`.
pub open spec fn le32(s: Seq<u8>, at: int) -> int {
    le16(s, at) + 0x1_0000 * le16(s, at + 2)
}

/// The 64-bit little-endian number at `at`.
pub open spec fn le64(s: Seq<u8>, at: int) -> int {
    le32(s, at) + 0x1_0000_0000 * le32(s, at + 4)
}

/// The little-endian bytes of a 64-bit number.
pub open spec fn le64_bytes(value: u64) -> Seq<u8> {
    Seq::new(8, |i: int| le_byte(value as int, i))
}

/// Byte `i` of a number, counting from the least significant.
pub open spec fn le_byte(value: int, i: int) -> u8 {
    if i == 0 {
        (value % 0x100) as u8
    } else if i == 1 {
        (value / 0x100 % 0x100) as u8
    } else if i == 2 {
        (value / 0x1_0000 % 0x100) as u8
    } else if i == 3 {
        (value / 0x100_0000 % 0x100) as u8
    } else if i == 4 {
        (value / 0x1_0000_0000 % 0x100) as u8
    } else if i == 5 {
        (value / 0x100_0000_0000 % 0x100) as u8
    } else if i == 6 {
        (value / 0x1_0000_0000_0000 % 0x100) as u8
    } else {
        (value / 0x100_0000_0000_0000 % 0x100) as u8
    }
}

/// Reads a 16-bit field. The caller has already checked the bounds.
pub fn read_u16(bytes: &[u8], offset: usize) -> (value: u16)
    requires
        offset + 2 <= bytes.len(),
    ensures
        value == le16(bytes@, offset as int),
{
    bytes[offset] as u16 + 0x100 * (bytes[offset + 1] as u16)
}

/// Reads a 32-bit field. The caller has already checked the bounds.
pub fn read_u32(bytes: &[u8], offset: usize) -> (value: u32)
    requires
        offset + 4 <= bytes.len(),
    ensures
        value == le32(bytes@, offset as int),
{
    read_u16(bytes, offset) as u32 + 0x1_0000 * (read_u16(bytes, offset + 2) as u32)
}

/// Reads a 64-bit field. The caller has already checked the bounds.
pub fn read_u64(bytes: &[u8], offset: usize) -> (value: u64)
    requires
        offset + 8 <= bytes.len(),
    ensures
        value == le64(bytes@, offset as int),
{
    read_u32(bytes, offset) as u64 + 0x1_0000_0000 * (read_u32(bytes, offset + 4) as u64)
}

/// The little-endian bytes of `value`.
pub fn u64_le_bytes(value: u64) -> (out: Vec<u8>)
    ensures
        out@ == le64_bytes(value),
{
    let mut out: Vec<u8> = Vec::new();
    out.push((value % 0x100) as u8);
    out.push((value / 0x100 % 0x100) as u8);
    out.push((value / 0x1_0000 % 0x100) as u8);
    out.push((value / 0x100_0000 % 0x100) as u8);
    out.push((value / 0x1_0000_0000 % 0x100) as u8);
    out.push((value / 0x100_0000_0000 % 0x100) as u8);
    out.push((value / 0x1_0000_0000_0000 % 0x100) as u8);
    out.push((value / 0x100_0000_0000_0000 % 0x100) as u8);
    out
}

/// Writing a number as little-endian bytes and reading those bytes back
/// gives the number.
pub proof fn lemma_le64_round_trip(value: u64)
    ensures
        le64(le64_bytes(value), 0) == value,
{
    let v = value as int;
    let a = v / 0x100;
    let b = v / 0x1_0000;
    let c = v / 0x100_0000;
    let d = v / 0x1_0000_0000;
    let e = v / 0x100_0000_0000;
    let f = v / 0x1_0000_0000_0000;
    let g = v / 0x100_0000_0000_0000;
    assert(b == a / 0x100 && c == b / 0x100 && d == c / 0x100 && e == d / 0x100 && f == e / 0x100
        && g == f / 0x100);
}

/// A 32-bit number whose bytes stand at `at` is what is read there.
pub proof fn lemma_le32_bytes(s: Seq<u8>, at: int, value: int)
    requires
        0 <= value < 0x1_0000_0000,
        forall|i: int| 0 <= i < 4 ==> #[trigger] s[at + i] == le_byte(value, i),
    ensures
        le32(s, at) == value,
{
    let a = value / 0x100;
    let b = value / 0x1_0000;
    let c = value / 0x100_0000;
    assert(b == a / 0x100 && c == b / 0x100);
    assert(s[at + 0] == le_byte(value, 0) && s[at + 1] == le_byte(value, 1) && s[at + 2]
        == le_byte(value, 2) && s[at + 3] == le_byte(value, 3));
}

/// Whether two byte sequences are the same.
pub fn bytes_eq(a: &[u8], b: &[u8]) -> (same: bool)
    ensures
        same == (a@ == b@),
{
    if a.len() != b.len() {
        return false;
    }
    let mut i: usize = 0;
    while i < a.len()
        invariant
            a@.len() == b@.len(),
            i <= a@.len(),
            forall|j: int| 0 <= j < i ==> a@[j] == b@[j],
        decreases a@.len() - i,
    {
        if a[i] != b[i] {
            return false;
        }
        i += 1;
    }
    assert(a@ =~= b@);
    true
}

/// `mem` with `data` in place of the bytes from `at` on.
pub open spec fn overwritten(mem: Seq<u8>, at: int, data: Seq<u8>) -> Seq<u8> {
    Seq::new(
        mem.len(),
        |i: int|
            if at <= i < at + data.len() {
                data[i - at]
            } else {
                mem[i]
            },
    )
}

/// Copies `count` bytes of `bytes` from `from` on to `at` of `mem`.
pub fn copy_into(mem: &mut [u8], at: usize, bytes: &[u8], from: usize, count: usize)
    requires
        at + count <= old(mem)@.len(),
        from + count <= bytes@.len(),
    ensures
        final(mem)@ == overwritten(
            old(mem)@,
            at as int,
            bytes@.subrange(from as int, from + count),
        ),
{
    let mut i: usize = 0;
    while i < count
        invariant
            i <= count,
            at + count <= mem@.len(),
            from + count <= bytes.len(),
            mem@.len() == old(mem)@.len(),
            mem@.len() == mem.len(),
            mem@ == overwritten(old(mem)@, at as int, bytes@.subrange(from as int, from + i)),
        decreases count - i,
    {
        let ghost before = mem@;
        mem[at + i] = bytes[from + i];
        i += 1;
        assert(mem@ =~= overwritten(
            old(mem)@,
            at as int,
            bytes@.subrange(from as int, from + i),
        ));
    }
    assert(mem@ =~= overwritten(
        old(mem)@,
        at as int,
        bytes@.subrange(from as int, from + count),
    ));
}

/// Clears `count` bytes of `mem` from `at` on.
pub fn fill_zero(mem: &mut [u8], at: usize, count: usize)
    requires
        at + count <= old(mem)@.len(),
    ensures
        final(mem)@ == overwritten(old(mem)@, at as int, Seq::new(count as nat, |i: int| 0u8)),
{
    let mut i: usize = 0;
    assert(mem@ =~= overwritten(old(mem)@, at as int, Seq::new(0, |i: int| 0u8)));
    while i < count
        invariant
            i <= count,
            at + count <= mem@.len(),
            mem@.len() == old(mem)@.len(),
            mem@.len() == mem.len(),
            mem@ == overwritten(old(mem)@, at as int, Seq::new(i as nat, |k: int| 0u8)),
        decreases count - i,
    {
        mem[at + i] = 0;
        i += 1;
        assert(mem@ =~= overwritten(old(mem)@, at as int, Seq::new(i as nat, |k: int| 0u8)));
    }
    assert(mem@ =~= overwritten(old(mem)@, at as int, Seq::new(count as nat, |i: int| 0u8)));
}

/// Numbers are stored with their least significant byte first: a number is
/// the sum of its bytes, each worth 256 times the one before it.
pub proof fn law_numbers_are_little_endian(s: Seq<u8>, at: int)
    ensures
        le16(s, at) == s[at] + 256 * s[at + 1],
        le32(s, at) == s[at] + 256 * (s[at + 1] + 256 * (s[at + 2] + 256 * s[at + 3])),
        le64(s, at) == s[at] + 256 * (s[at + 1] + 256 * (s[at + 2] + 256 * (s[at + 3] + 256 * (s[at
            + 4] + 256 * (s[at + 5] + 256 * (s[at + 6] + 256 * s[at + 7])))))),
{
}

/// What is overwritten is the range of the new bytes and nothing else.
pub proof fn law_overwriting_changes_only_its_range(
    mem: Seq<u8>,
    at: int,
    data: Seq<u8>,
    i: int,
)
    requires
        0 <= at,
        at + data.len() <= mem.len(),
        0 <= i < mem.len(),
    ensures
        overwritten(mem, at, data).len() == mem.len(),
        at <= i < at + data.len() ==> overwritten(mem, at, data)[i] == data[i - at],
        !(at <= i < at + data.len()) ==> overwritten(mem, at, data)[i] == mem[i],
{
}

} // verus!

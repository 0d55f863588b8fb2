//! The filesystem: a read-only namespace served out of the boot archive.
//!
//! A file is an offset and a length into the archive, not a buffer. There
//! is no writing, no creation and no deletion. Everything about the
//! archive is checked against the actual bytes before anything of it is
//! accepted.
use vstd::prelude::*;
use crate::abi::archive;
use crate::bytes::{self, copy_into, read_u32, read_u64};
use crate::text::{self, chars_before, chars_of, from_utf8_lossy, push_decimal, text_eq};

verus! {

broadcast use vstd::slice::group_slice_axioms;

/// One entry in the namespace.
#[derive(Debug, Clone, Copy, PartialEq, Eq, Structural)]
pub struct Node {
    /// Byte offset of this file's contents within the archive, or 0 for a
    /// directory.
    pub offset: usize,
    /// Length in bytes, or 0 for a directory.
    pub len: usize,
    pub is_directory: bool,
}

impl Node {
    /// Length in bytes.
    pub fn size(&self) -> (n: usize)
        ensures
            n == self.len,
    {
        self.len
    }
}

/// Why an archive could not be mounted.
#[derive(Debug, Clone, Copy, PartialEq, Eq, Structural)]
pub enum MountError {
    TooSmall,
    BadMagic,
    UnsupportedVersion(u32),
    /// An entry's data range falls outside the archive.
    EntryOutOfBounds { index: usize },
    /// An entry's path is not acceptable.
    BadPath { index: usize },
    /// Two entries claim the same path.
    DuplicatePath { index: usize },
}

impl MountError {
    /// What `message` says.
    pub open spec fn text(&self) -> Seq<char> {
        match self {
            MountError::TooSmall => "archive is smaller than its own header"@,
            MountError::BadMagic => "archive does not start with the NAR magic"@,
            MountError::UnsupportedVersion(v) => "archive format version "@ + text::decimal(
                *v as nat,
            ) + " is not supported"@,
            MountError::EntryOutOfBounds { index } => "entry "@ + text::decimal(*index as nat)
                + " names data outside the archive - refusing to mount rather than \
                 serving whatever memory follows it"@,
            MountError::BadPath { index } => "entry "@ + text::decimal(*index as nat)
                + " has a path that is not absolute, or contains '..', '.', an empty \
                 component, or a NUL"@,
            MountError::DuplicatePath { index } => "entry "@ + text::decimal(*index as nat)
                + " repeats a path an earlier entry already claimed"@,
        }
    }

    /// A sentence for the log.
    pub fn message(&self) -> (out: String)
        ensures
            out@ == self.text(),
    {
        match self {
            MountError::TooSmall => String::from_str("archive is smaller than its own header"),
            MountError::BadMagic => String::from_str("archive does not start with the NAR magic"),
            MountError::UnsupportedVersion(v) => {
                let mut out = String::from_str("archive format version ");
                push_decimal(&mut out, *v as u64);
                out.append(" is not supported");
                out
            },
            MountError::EntryOutOfBounds { index } => {
                let mut out = String::from_str("entry ");
                push_decimal(&mut out, *index as u64);
                out.append(
                    " names data outside the archive - refusing to mount rather than \
                 serving whatever memory follows it",
                );
                out
            },
            MountError::BadPath { index } => {
                let mut out = String::from_str("entry ");
                push_decimal(&mut out, *index as u64);
                out.append(
                    " has a path that is not absolute, or contains '..', '.', an empty \
                 component, or a NUL",
                );
                out
            },
            MountError::DuplicatePath { index } => {
                let mut out = String::from_str("entry ");
                push_decimal(&mut out, *index as u64);
                out.append(" repeats a path an earlier entry already claimed");
                out
            },
        }
    }
}

// ---------------------------------------------------------------------
// The namespace as a map
// ---------------------------------------------------------------------

/// Paths in their order, none of them twice.
pub open spec fn sorted(entries: Seq<(Seq<char>, Node)>) -> bool {
    forall|i: int, j: int|
        0 <= i < j < entries.len() ==> text::text_before(
            (#[trigger] entries[i]).0,
            (#[trigger] entries[j]).0,
        )
}

/// The map that a list of entries spells out.
pub open spec fn map_of(entries: Seq<(Seq<char>, Node)>) -> Map<Seq<char>, Node>
    decreases entries.len(),
{
    if entries.len() == 0 {
        Map::empty()
    } else {
        map_of(entries.drop_last()).insert(entries.last().0, entries.last().1)
    }
}

proof fn lemma_map_of(entries: Seq<(Seq<char>, Node)>)
    requires
        sorted(entries),
    ensures
        forall|i: int|
            0 <= i < entries.len() ==> map_of(entries).dom().contains((#[trigger] entries[i]).0)
                && map_of(entries)[entries[i].0] == entries[i].1,
        forall|p: Seq<char>| #[trigger]
            map_of(entries).dom().contains(p) ==> exists|i: int|
                0 <= i < entries.len() && (#[trigger] entries[i]).0 == p,
    decreases entries.len(),
{
    if entries.len() > 0 {
        let rest = entries.drop_last();
        assert(sorted(rest)) by {
            assert forall|i: int, j: int| 0 <= i < j < rest.len() implies text::text_before(
                (#[trigger] rest[i]).0,
                (#[trigger] rest[j]).0,
            ) by {
                assert(rest[i] == entries[i] && rest[j] == entries[j]);
            }
        }
        lemma_map_of(rest);
        assert forall|i: int| 0 <= i < entries.len() implies map_of(entries).dom().contains(
            (#[trigger] entries[i]).0,
        ) && map_of(entries)[entries[i].0] == entries[i].1 by {
            if i < entries.len() - 1 {
                assert(rest[i] == entries[i]);
                assert(text::text_before(entries[i].0, entries[entries.len() - 1].0));
                if entries[i].0 == entries.last().0 {
                    text::lemma_before_irreflexive(entries[i].0);
                }
            }
        }
        assert forall|p: Seq<char>| #[trigger] map_of(entries).dom().contains(p) implies exists|i:
            int|
            0 <= i < entries.len() && (#[trigger] entries[i]).0 == p by {
            if p == entries.last().0 {
                assert(entries[entries.len() - 1].0 == p);
            } else {
                assert(map_of(rest).dom().contains(p));
                let i = choose|i: int| 0 <= i < rest.len() && (#[trigger] rest[i]).0 == p;
                assert(entries[i].0 == p);
            }
        }
    }
}

proof fn lemma_map_insert(entries: Seq<(Seq<char>, Node)>, at: int, x: (Seq<char>, Node))
    requires
        0 <= at <= entries.len(),
        forall|i: int| 0 <= i < entries.len() ==> (#[trigger] entries[i]).0 != x.0,
    ensures
        map_of(entries.insert(at, x)) == map_of(entries).insert(x.0, x.1),
    decreases entries.len(),
{
    let more = entries.insert(at, x);
    if at == entries.len() {
        assert(more.drop_last() =~= entries);
    } else {
        let rest = entries.drop_last();
        assert(more.drop_last() =~= rest.insert(at, x));
        assert(more.last() == entries.last());
        assert forall|i: int| 0 <= i < rest.len() implies (#[trigger] rest[i]).0 != x.0 by {
            assert(rest[i] == entries[i]);
        }
        lemma_map_insert(rest, at, x);
        assert(entries[entries.len() - 1].0 != x.0);
        assert(map_of(more) =~= map_of(entries).insert(x.0, x.1));
    }
}

// ---------------------------------------------------------------------
// Archives
// ---------------------------------------------------------------------

/// The root's path.
pub open spec fn root_path() -> Seq<char> {
    seq!['/']
}

/// A directory carries no data.
pub open spec fn directory_node() -> Node {
    Node { offset: 0, len: 0, is_directory: true }
}

/// Where entry `index` of the table starts.
pub open spec fn entry_offset(index: int) -> int {
    archive::HEADER_SIZE + index * archive::ENTRY_SIZE
}

/// The path bytes of entry `index`.
pub open spec fn entry_path(s: Seq<u8>, index: int) -> Seq<u8> {
    let at = entry_offset(index);
    s.subrange(at + 24, at + 24 + bytes::le32(s, at + 20))
}

/// What entry `index` of the table says, or why it is refused.
pub open spec fn entry_of(s: Seq<u8>, index: int) -> Result<(Seq<char>, Node), MountError> {
    let at = entry_offset(index);
    let offset = bytes::le64(s, at);
    let len = bytes::le64(s, at + 8);
    let is_directory = (bytes::le32(s, at + 16) as u32) & archive::FLAG_DIRECTORY != 0;
    if bytes::le32(s, at + 20) > archive::MAX_PATH || !archive::valid_path(entry_path(s, index)) {
        Err(MountError::BadPath { index: index as usize })
    } else if is_directory && len != 0 {
        Err(MountError::EntryOutOfBounds { index: index as usize })
    } else if !is_directory && offset + len > s.len() {
        Err(MountError::EntryOutOfBounds { index: index as usize })
    } else {
        Ok(
            (
                text::utf8_lossy(entry_path(s, index)),
                if is_directory {
                    directory_node()
                } else {
                    Node { offset: offset as usize, len: len as usize, is_directory: false }
                },
            ),
        )
    }
}

/// The namespace of the first `n` entries.
pub open spec fn first_entries(s: Seq<u8>, n: int) -> Result<Map<Seq<char>, Node>, MountError>
    decreases n,
{
    if n <= 0 {
        Ok(Map::empty())
    } else {
        match first_entries(s, n - 1) {
            Err(e) => Err(e),
            Ok(m) => match entry_of(s, n - 1) {
                Err(e) => Err(e),
                Ok((path, node)) => if m.dom().contains(path) {
                    Err(MountError::DuplicatePath { index: (n - 1) as usize })
                } else {
                    Ok(m.insert(path, node))
                },
            },
        }
    }
}

/// A namespace with the root in it, whether or not it was declared.
pub open spec fn with_root(m: Map<Seq<char>, Node>) -> Map<Seq<char>, Node> {
    if m.dom().contains(root_path()) {
        m
    } else {
        m.insert(root_path(), directory_node())
    }
}

/// The namespace an archive holds, or why it is not mounted.
pub open spec fn namespace_of(s: Seq<u8>) -> Result<Map<Seq<char>, Node>, MountError> {
    let count = bytes::le32(s, 12);
    if s.len() < archive::HEADER_SIZE {
        Err(MountError::TooSmall)
    } else if s.subrange(0, 8) != archive::MAGIC@ {
        Err(MountError::BadMagic)
    } else if bytes::le32(s, 8) != archive::VERSION {
        Err(MountError::UnsupportedVersion(bytes::le32(s, 8) as u32))
    } else if entry_offset(count) > s.len() {
        Err(MountError::TooSmall)
    } else {
        match first_entries(s, count) {
            Err(e) => Err(e),
            Ok(m) => Ok(with_root(m)),
        }
    }
}

/// A refused entry refuses every longer table.
proof fn lemma_refused_stays_refused(s: Seq<u8>, n: int, m: int)
    requires
        0 <= n <= m,
        first_entries(s, n) is Err,
    ensures
        first_entries(s, m) == first_entries(s, n),
    decreases m - n,
{
    if n < m {
        lemma_refused_stays_refused(s, n, m - 1);
    }
}

// ---------------------------------------------------------------------
// The filesystem
// ---------------------------------------------------------------------

#[derive(Debug)]
struct Entry {
    path: String,
    node: Node,
}

/// The parsed namespace and the archive it is served from.
#[derive(Debug)]
pub struct FileSystem<'a> {
    entries: Vec<Entry>,
    archive: &'a [u8],
}

impl<'a> FileSystem<'a> {
    /// The entries in the order of their paths.
    pub closed spec fn entries(&self) -> Seq<(Seq<char>, Node)> {
        Seq::new(
            self.entries@.len(),
            |i: int| (self.entries@[i].path@, self.entries@[i].node),
        )
    }

    /// The bytes files are served from.
    pub closed spec fn archive(&self) -> Seq<u8> {
        self.archive@
    }

    /// The namespace.
    pub open spec fn nodes(&self) -> Map<Seq<char>, Node> {
        map_of(self.entries())
    }

    /// The entries are in order, and every file lies in the archive.
    pub open spec fn wf(&self) -> bool {
        &&& sorted(self.entries())
        &&& forall|i: int|
            0 <= i < self.entries().len() ==> (#[trigger] self.entries()[i]).1.is_directory
                || self.entries()[i].1.offset + self.entries()[i].1.len <= self.archive().len()
    }

    /// An empty namespace over `archive`: what there is before a mount.
    pub fn unmounted(archive: &'a [u8]) -> (fs: FileSystem<'a>)
        ensures
            fs.wf(),
            fs.archive() == archive@,
            fs.entries() == Seq::<(Seq<char>, Node)>::empty(),
    {
        let fs = FileSystem { entries: Vec::new(), archive };
        assert(fs.entries() =~= Seq::<(Seq<char>, Node)>::empty());
        fs
    }

    /// How many entries there are.
    pub fn node_count(&self) -> (n: usize)
        ensures
            n == self.entries().len(),
    {
        self.entries.len()
    }

    /// Adds an entry, unless its path is there already. Says whether it
    /// was added.
    pub fn insert(&mut self, path: String, node: Node) -> (added: bool)
        requires
            old(self).wf(),
            node.is_directory || node.offset + node.len <= old(self).archive().len(),
        ensures
            final(self).wf(),
            final(self).archive() == old(self).archive(),
            added == !old(self).nodes().dom().contains(path@),
            added ==> final(self).nodes() == old(self).nodes().insert(path@, node),
            !added ==> final(self).entries() == old(self).entries(),
    {
        let key: Vec<char> = chars_of(path.as_str());
        let mut at: usize = 0;
        let ghost before = self.entries();
        proof {
            lemma_map_of(before);
        }
        while at < self.entries.len()
            invariant
                at <= self.entries.len(),
                key@ == path@,
                self.entries() == before,
                self.wf(),
                self.archive() == old(self).archive(),
                forall|i: int|
                    0 <= i < at ==> text::text_before((#[trigger] before[i]).0, path@),
            ensures
                at <= self.entries.len(),
                self.entries() == before,
                self.wf(),
                self.archive() == old(self).archive(),
                forall|i: int|
                    0 <= i < at ==> text::text_before((#[trigger] before[i]).0, path@),
                at < before.len() ==> !text::text_before(before[at as int].0, path@),
            decreases self.entries.len() - at,
        {
            let here: Vec<char> = chars_of(self.entries[at].path.as_str());
            assert(here@ == before[at as int].0);
            if !chars_before(&here, &key) {
                break;
            }
            at += 1;
        }
        if at < self.entries.len() {
            if text_eq(self.entries[at].path.as_str(), path.as_str()) {
                assert(before[at as int].0 == path@);
                return false;
            }
        }
        proof {
            assert forall|i: int| at <= i < before.len() implies text::text_before(
                path@,
                (#[trigger] before[i]).0,
            ) by {
                if before[at as int].0 != path@ && !text::text_before(
                    path@,
                    before[at as int].0,
                ) {
                    text::lemma_before_total(before[at as int].0, path@);
                }
                if at < i {
                    text::lemma_before_transitive(path@, before[at as int].0, before[i].0);
                }
            }
            assert forall|i: int| 0 <= i < before.len() implies (#[trigger] before[i]).0
                != path@ by {
                text::lemma_before_irreflexive(path@);
            }
            if self.nodes().dom().contains(path@) {
                let i = choose|i: int| 0 <= i < before.len() && (#[trigger] before[i]).0 == path@;
                assert(before[i].0 != path@);
            }
        }
        let ghost x = (path@, node);
        self.entries.insert(at, Entry { path, node });
        proof {
            let after = self.entries();
            assert(after =~= before.insert(at as int, x));
            lemma_map_insert(before, at as int, x);
            assert forall|i: int, j: int| 0 <= i < j < after.len() implies text::text_before(
                (#[trigger] after[i]).0,
                (#[trigger] after[j]).0,
            ) by {
                let ii = if i < at {
                    i
                } else {
                    i - 1
                };
                let jj = if j < at {
                    j
                } else {
                    j - 1
                };
                if i != at {
                    assert(after[i] == before[ii]);
                }
                if j != at {
                    assert(after[j] == before[jj]);
                }
            }
            assert forall|i: int| 0 <= i < after.len() implies (#[trigger] after[i]).1.is_directory
                || after[i].1.offset + after[i].1.len <= self.archive().len() by {
                if i < at {
                    assert(after[i] == before[i]);
                } else if i > at {
                    assert(after[i] == before[i - 1]);
                }
            }
        }
        true
    }
}

fn starts_with_magic(bytes: &[u8]) -> (r: bool)
    requires
        bytes.len() >= 8,
    ensures
        r == (bytes@.subrange(0, 8) == archive::MAGIC@),
{
    let magic: [u8; 8] = archive::MAGIC;
    let mut i: usize = 0;
    while i < 8
        invariant
            i <= 8,
            bytes.len() >= 8,
            magic == archive::MAGIC,
            forall|j: int| 0 <= j < i ==> bytes@[j] == magic@[j],
        decreases 8 - i,
    {
        if bytes[i] != magic[i] {
            assert(bytes@.subrange(0, 8)[i as int] != magic@[i as int]);
            return false;
        }
        i += 1;
    }
    assert(bytes@.subrange(0, 8) =~= archive::MAGIC@);
    true
}

fn read_entry(bytes: &[u8], index: usize) -> (r: Result<(String, Node), MountError>)
    requires
        entry_offset(index + 1) <= bytes.len(),
    ensures
        match r {
            Ok((path, node)) => entry_of(bytes@, index as int) == Ok::<
                (Seq<char>, Node),
                MountError,
            >((path@, node)) && (node.is_directory || node.offset + node.len <= bytes.len()),
            Err(e) => entry_of(bytes@, index as int) == Err::<(Seq<char>, Node), MountError>(e),
        },
{
    let at: usize = archive::HEADER_SIZE + index * archive::ENTRY_SIZE;
    let offset: u64 = read_u64(bytes, at);
    let len: u64 = read_u64(bytes, at + 8);
    let flags: u32 = read_u32(bytes, at + 16);
    let path_len: usize = read_u32(bytes, at + 20) as usize;
    if path_len > archive::MAX_PATH {
        return Err(MountError::BadPath { index });
    }
    let path: &[u8] = vstd::slice::slice_subrange(bytes, at + 24, at + 24 + path_len);
    if !archive::path_is_valid(path) {
        return Err(MountError::BadPath { index });
    }
    let is_directory = flags & archive::FLAG_DIRECTORY != 0;
    if is_directory {
        if len != 0 {
            return Err(MountError::EntryOutOfBounds { index });
        }
        return Ok(
            (from_utf8_lossy(path), Node { offset: 0, len: 0, is_directory: true }),
        );
    }
    let total: u64 = bytes.len() as u64;
    if len > total || offset > total - len {
        return Err(MountError::EntryOutOfBounds { index });
    }
    Ok(
        (
            from_utf8_lossy(path),
            Node { offset: offset as usize, len: len as usize, is_directory: false },
        ),
    )
}

/// Parses `bytes` as an archive and makes a filesystem of it. Everything
/// is validated before anything is accepted, against the actual bytes and
/// never against the archive's own claims about its length.
pub fn mount<'a>(bytes: &'a [u8]) -> (r: Result<FileSystem<'a>, MountError>)
    ensures
        match namespace_of(bytes@) {
            Ok(m) => r matches Ok(fs) && fs.wf() && fs.nodes() == m && fs.archive() == bytes@,
            Err(e) => r == Err::<FileSystem<'a>, MountError>(e),
        },
{
    if bytes.len() < archive::HEADER_SIZE {
        return Err(MountError::TooSmall);
    }
    if !starts_with_magic(bytes) {
        return Err(MountError::BadMagic);
    }
    let version: u32 = read_u32(bytes, 8);
    if version != archive::VERSION {
        return Err(MountError::UnsupportedVersion(version));
    }
    let count: u64 = read_u32(bytes, 12) as u64;
    // The table has to fit before any entry is read.
    let table_end: u64 = archive::HEADER_SIZE as u64 + count * (archive::ENTRY_SIZE as u64);
    if table_end > bytes.len() as u64 {
        return Err(MountError::TooSmall);
    }
    let mut fs: FileSystem<'a> = FileSystem::unmounted(bytes);
    let mut index: usize = 0;
    while index < count as usize
        invariant
            index <= count,
            count <= u32::MAX,
            entry_offset(count as int) <= bytes.len(),
            count == bytes::le32(bytes@, 12),
            bytes.len() >= archive::HEADER_SIZE,
            bytes@.subrange(0, 8) == archive::MAGIC@,
            bytes::le32(bytes@, 8) == archive::VERSION,
            fs.wf(),
            fs.archive() == bytes@,
            first_entries(bytes@, index as int) == Ok::<Map<Seq<char>, Node>, MountError>(
                fs.nodes(),
            ),
        decreases count - index,
    {
        match read_entry(bytes, index) {
            Err(e) => {
                proof {
                    assert(first_entries(bytes@, index + 1) is Err);
                    lemma_refused_stays_refused(bytes@, index + 1, count as int);
                }
                return Err(e);
            },
            Ok((path, node)) => {
                // Two entries with one path would make lookups depend on
                // their order.
                if !fs.insert(path, node) {
                    proof {
                        assert(first_entries(bytes@, index + 1) is Err);
                        lemma_refused_stays_refused(bytes@, index + 1, count as int);
                    }
                    return Err(MountError::DuplicatePath { index });
                }
            },
        }
        index += 1;
    }
    let mut root = String::new();
    root.push('/');
    proof {
        assert(root@ =~= root_path());
        lemma_map_of(fs.entries());
    }
    let ghost declared = fs.nodes();
    let added: bool = fs.insert(root, Node { offset: 0, len: 0, is_directory: true });
    assert(fs.nodes() == with_root(declared));
    Ok(fs)
}

/// Looks up `path`.
pub fn lookup(fs: &FileSystem, path: &str) -> (r: Option<Node>)
    requires
        fs.wf(),
    ensures
        r == (if fs.nodes().dom().contains(path@) {
            Some(fs.nodes()[path@])
        } else {
            None
        }),
{
    proof {
        lemma_map_of(fs.entries());
    }
    let mut i: usize = 0;
    while i < fs.entries.len()
        invariant
            i <= fs.entries.len(),
            fs.entries().len() == fs.entries.len(),
            fs.nodes() == map_of(fs.entries()),
            forall|i: int|
                0 <= i < fs.entries().len() ==> map_of(fs.entries()).dom().contains(
                    (#[trigger] fs.entries()[i]).0,
                ) && map_of(fs.entries())[fs.entries()[i].0] == fs.entries()[i].1,
            forall|j: int| 0 <= j < i ==> (#[trigger] fs.entries()[j]).0 != path@,
        decreases fs.entries.len() - i,
    {
        if text_eq(fs.entries[i].path.as_str(), path) {
            assert(fs.entries()[i as int].0 == path@);
            return Some(fs.entries[i].node);
        }
        assert(fs.entries()[i as int].0 != path@);
        i += 1;
    }
    None
}

/// How much a read of `node` from `offset` on into `room` bytes gets.
pub open spec fn read_len(node: Node, offset: int, room: int, archive_len: int) -> int {
    let want = if node.len - offset <= room {
        node.len - offset
    } else {
        room
    };
    if node.is_directory || offset >= node.len {
        0
    } else if node.offset + offset + want > archive_len {
        0
    } else {
        want
    }
}

/// Reads up to `buf.len()` bytes of `node`, starting at `offset` within
/// the file, and returns how many were read. The bounds are checked again
/// here, because a node may have been held across a remount.
pub fn read(fs: &FileSystem, node: &Node, offset: usize, buf: &mut [u8]) -> (n: usize)
    ensures
        n == read_len(*node, offset as int, old(buf)@.len() as int, fs.archive().len() as int),
        n == 0 ==> final(buf)@ == old(buf)@,
        n > 0 ==> final(buf)@ == bytes::overwritten(
            old(buf)@,
            0,
            fs.archive().subrange(node.offset + offset, node.offset + offset + n),
        ),
{
    if node.is_directory || offset >= node.len {
        return 0;
    }
    let available: usize = node.len - offset;
    let want: usize = if available <= buf.len() {
        available
    } else {
        buf.len()
    };
    let total: usize = fs.archive.len();
    if node.offset > total || offset > total - node.offset || want > total - node.offset - offset {
        return 0;
    }
    copy_into(buf, 0, fs.archive, node.offset + offset, want);
    want
}

/// A character string has no slash in it.
pub open spec fn slash_free(s: Seq<char>) -> bool {
    forall|i: int| 0 <= i < s.len() ==> s[i] != '/'
}

/// What a directory's children all start with.
pub open spec fn child_prefix(path: Seq<char>) -> Seq<char> {
    if path == root_path() {
        path
    } else {
        path.push('/')
    }
}

/// Whether `candidate` names something right inside `path`.
pub open spec fn is_child(path: Seq<char>, candidate: Seq<char>) -> bool {
    let prefix = child_prefix(path);
    &&& candidate.len() > prefix.len()
    &&& candidate.subrange(0, prefix.len() as int) == prefix
    &&& slash_free(candidate.subrange(prefix.len() as int, candidate.len() as int))
}

fn check_child(prefix: &Vec<char>, candidate: &Vec<char>) -> (r: bool)
    ensures
        r == ({
            &&& candidate@.len() > prefix@.len()
            &&& candidate@.subrange(0, prefix@.len() as int) == prefix@
            &&& slash_free(candidate@.subrange(prefix@.len() as int, candidate@.len() as int))
        }),
{
    if candidate.len() <= prefix.len() {
        return false;
    }
    let ghost head = candidate@.subrange(0, prefix@.len() as int);
    let ghost rest = candidate@.subrange(prefix@.len() as int, candidate@.len() as int);
    let mut i: usize = 0;
    while i < prefix.len()
        invariant
            i <= prefix.len() < candidate.len(),
            head == candidate@.subrange(0, prefix@.len() as int),
            forall|j: int| 0 <= j < i ==> candidate@[j] == prefix@[j],
        decreases prefix.len() - i,
    {
        if candidate[i] != prefix[i] {
            assert(head[i as int] != prefix@[i as int]);
            return false;
        }
        i += 1;
    }
    assert(head =~= prefix@);
    while i < candidate.len()
        invariant
            prefix.len() <= i <= candidate.len(),
            rest == candidate@.subrange(prefix@.len() as int, candidate@.len() as int),
            forall|j: int| prefix.len() <= j < i ==> candidate@[j] != '/',
        decreases candidate.len() - i,
    {
        if candidate[i] == '/' {
            assert(rest[i - prefix@.len()] == '/');
            return false;
        }
        i += 1;
    }
    true
}

/// The paths among `entries` that are right inside `path`, in order.
pub open spec fn children_of(entries: Seq<(Seq<char>, Node)>, path: Seq<char>) -> Seq<Seq<char>>
    decreases entries.len(),
{
    if entries.len() == 0 {
        Seq::empty()
    } else {
        let before = children_of(entries.drop_last(), path);
        if is_child(path, entries.last().0) {
            before.push(entries.last().0)
        } else {
            before
        }
    }
}

/// The immediate children of the directory `path`, as full paths in order.
/// Anything further down belongs to a subdirectory. `None` for a path that
/// is not a directory.
pub fn read_dir(fs: &FileSystem, path: &str) -> (r: Option<Vec<String>>)
    requires
        fs.wf(),
    ensures
        match r {
            Some(children) => {
                &&& fs.nodes().dom().contains(path@)
                &&& fs.nodes()[path@].is_directory
                &&& text::texts(children@) == children_of(fs.entries(), path@)
            },
            None => !fs.nodes().dom().contains(path@) || !fs.nodes()[path@].is_directory,
        },
{
    match lookup(fs, path) {
        None => {
            return None;
        },
        Some(node) => {
            if !node.is_directory {
                return None;
            }
        },
    }
    let mut prefix: Vec<char> = chars_of(path);
    if !(prefix.len() == 1 && prefix[0] == '/') {
        proof {
            if path@ == root_path() {
                assert(prefix@[0] == '/');
            }
        }
        prefix.push('/');
    } else {
        assert(path@ =~= root_path());
    }
    assert(prefix@ =~= child_prefix(path@));
    let mut children: Vec<String> = Vec::new();
    let mut i: usize = 0;
    assert(fs.entries().subrange(0, 0) =~= Seq::<(Seq<char>, Node)>::empty());
    assert(text::texts(children@) =~= children_of(fs.entries().subrange(0, 0), path@));
    while i < fs.entries.len()
        invariant
            i <= fs.entries.len(),
            fs.entries().len() == fs.entries.len(),
            prefix@ == child_prefix(path@),
            text::texts(children@) == children_of(fs.entries().subrange(0, i as int), path@),
        decreases fs.entries.len() - i,
    {
        let candidate: Vec<char> = chars_of(fs.entries[i].path.as_str());
        let ghost before = children@;
        let ghost next = fs.entries().subrange(0, i + 1);
        assert(next.drop_last() =~= fs.entries().subrange(0, i as int));
        assert(next.last().0 == candidate@);
        if check_child(&prefix, &candidate) {
            children.push(fs.entries[i].path.clone());
            assert(text::texts(children@) =~= text::texts(before).push(candidate@));
        }
        i += 1;
    }
    assert(fs.entries().subrange(0, i as int) =~= fs.entries());
    Some(children)
}

/// A listing holds exactly the entries right inside the directory, each
/// once and in the order of their paths.
pub proof fn law_listing_is_exact(entries: Seq<(Seq<char>, Node)>, path: Seq<char>)
    requires
        sorted(entries),
    ensures
        forall|p: Seq<char>| #[trigger]
            children_of(entries, path).contains(p) <==> map_of(entries).dom().contains(p)
                && is_child(path, p),
        forall|i: int, j: int|
            0 <= i < j < children_of(entries, path).len() ==> text::text_before(
                #[trigger] children_of(entries, path)[i],
                #[trigger] children_of(entries, path)[j],
            ),
    decreases entries.len(),
{
    if entries.len() > 0 {
        let rest = entries.drop_last();
        let last = entries.last().0;
        assert forall|i: int, j: int| 0 <= i < j < rest.len() implies text::text_before(
            (#[trigger] rest[i]).0,
            (#[trigger] rest[j]).0,
        ) by {
            assert(rest[i] == entries[i] && rest[j] == entries[j]);
        }
        law_listing_is_exact(rest, path);
        lemma_map_of(rest);
        let before = children_of(rest, path);
        let all = children_of(entries, path);
        assert forall|p: Seq<char>| #[trigger] all.contains(p) <==> map_of(entries).dom().contains(p)
            && is_child(path, p) by {
            if is_child(path, last) {
                assert(all[before.len() as int] == last);
                if all.contains(p) && p != last {
                    let i = all.index_of(p);
                    assert(before[i] == p);
                    assert(before.contains(p));
                }
                if before.contains(p) {
                    let i = before.index_of(p);
                    assert(all[i] == p);
                }
            }
            assert(before.contains(p) <==> map_of(rest).dom().contains(p) && is_child(path, p));
        }
        assert forall|i: int, j: int| 0 <= i < j < all.len() implies text::text_before(
            #[trigger] all[i],
            #[trigger] all[j],
        ) by {
            if j == before.len() {
                assert(all[i] == before[i]);
                assert(before.contains(before[i]));
                let k = choose|k: int|
                    0 <= k < rest.len() && (#[trigger] rest[k]).0 == before[i];
                assert(entries[k].0 == before[i]);
                assert(text::text_before(entries[k].0, entries[entries.len() - 1].0));
            } else {
                assert(all[i] == before[i] && all[j] == before[j]);
            }
        }
    }
}

/// Where an archive mounts, its root exists, every file of it lies inside
/// the archive, and reading a file whole gives exactly its bytes.
pub proof fn law_mounted_archive(s: Seq<u8>, path: Seq<char>)
    requires
        s.len() <= usize::MAX,
        namespace_of(s) is Ok,
        namespace_of(s)->Ok_0.dom().contains(path),
    ensures
        namespace_of(s)->Ok_0.dom().contains(root_path()),
        ({
            let node = namespace_of(s)->Ok_0[path];
            &&& node.is_directory || node.offset + node.len <= s.len()
            &&& !node.is_directory ==> read_len(node, 0, node.len as int, s.len() as int)
                == node.len
        }),
{
    let count = bytes::le32(s, 12);
    lemma_first_entries_inside(s, count, path);
}

proof fn lemma_first_entries_inside(s: Seq<u8>, n: int, path: Seq<char>)
    requires
        s.len() <= usize::MAX,
        first_entries(s, n) is Ok,
    ensures
        first_entries(s, n)->Ok_0.dom().contains(path) ==> ({
            let node = first_entries(s, n)->Ok_0[path];
            node.is_directory || node.offset + node.len <= s.len()
        }),
    decreases n,
{
    if n > 0 {
        lemma_first_entries_inside(s, n - 1, path);
    }
}

/// Every declared path is valid, and comes from the table entry that
/// declares it.
pub proof fn law_namespace_is_the_table(s: Seq<u8>, n: int, path: Seq<char>)
    requires
        first_entries(s, n) is Ok,
        first_entries(s, n)->Ok_0.dom().contains(path),
    ensures
        exists|i: int|
            0 <= i < n && archive::valid_path(#[trigger] entry_path(s, i)) && entry_of(s, i) == Ok::<
                (Seq<char>, Node),
                MountError,
            >((path, first_entries(s, n)->Ok_0[path])),
    decreases n,
{
    if n > 0 {
        let (last, node) = entry_of(s, n - 1)->Ok_0;
        if path == last {
            assert(archive::valid_path(entry_path(s, n - 1)));
        } else {
            law_namespace_is_the_table(s, n - 1, path);
        }
    }
}

/// Every path in the namespace in order, with its size and whether it is a
/// directory.
pub fn all_paths(fs: &FileSystem) -> (r: Vec<(String, usize, bool)>)
    ensures
        r@.len() == fs.entries().len(),
        forall|i: int|
            0 <= i < r@.len() ==> {
                &&& (#[trigger] r@[i]).0@ == fs.entries()[i].0
                &&& r@[i].1 == fs.entries()[i].1.len
                &&& r@[i].2 == fs.entries()[i].1.is_directory
            },
{
    let mut out: Vec<(String, usize, bool)> = Vec::new();
    let mut i: usize = 0;
    while i < fs.entries.len()
        invariant
            i <= fs.entries.len(),
            fs.entries().len() == fs.entries.len(),
            out@.len() == i,
            forall|k: int|
                0 <= k < out@.len() ==> {
                    &&& (#[trigger] out@[k]).0@ == fs.entries()[k].0
                    &&& out@[k].1 == fs.entries()[k].1.len
                    &&& out@[k].2 == fs.entries()[k].1.is_directory
                },
        decreases fs.entries.len() - i,
    {
        let node: Node = fs.entries[i].node;
        out.push((fs.entries[i].path.clone(), node.len, node.is_directory));
        i += 1;
    }
    out
}

/// Reads an entire file. `None` for a path that is not a file.
pub fn read_all(fs: &FileSystem, path: &str) -> (r: Option<Vec<u8>>)
    requires
        fs.wf(),
    ensures
        match r {
            Some(data) => {
                &&& fs.nodes().dom().contains(path@)
                &&& !fs.nodes()[path@].is_directory
                &&& data@ == contents(fs.archive(), fs.nodes()[path@])
            },
            None => !fs.nodes().dom().contains(path@) || fs.nodes()[path@].is_directory,
        },
{
    let node: Node = match lookup(fs, path) {
        Some(node) => node,
        None => {
            return None;
        },
    };
    if node.is_directory {
        return None;
    }
    proof {
        lemma_map_of(fs.entries());
        let i = choose|i: int|
            0 <= i < fs.entries().len() && (#[trigger] fs.entries()[i]).0 == path@;
        assert(fs.entries()[i].1 == node);
    }
    let mut data: Vec<u8> = Vec::new();
    data.resize(node.len, 0);
    let got: usize = read(fs, &node, 0, data.as_mut_slice());
    assert(data@ =~= contents(fs.archive(), node));
    Some(data)
}

/// A file's bytes.
pub open spec fn contents(archive: Seq<u8>, node: Node) -> Seq<u8> {
    archive.subrange(node.offset as int, node.offset + node.len)
}

/// One line of the boot report.
pub open spec fn report_line(entry: (Seq<char>, Node)) -> Seq<char> {
    if entry.1.is_directory {
        "Najm Kernel:   "@ + entry.0 + "/"@
    } else {
        "Najm Kernel:   "@ + entry.0 + " ("@ + text::decimal(entry.1.len as nat) + " bytes)"@
    }
}

/// The namespace, one line per path.
pub fn report(fs: &FileSystem) -> (lines: Vec<String>)
    ensures
        lines@.len() == fs.entries().len(),
        forall|i: int|
            0 <= i < lines@.len() ==> (#[trigger] lines@[i])@ == report_line(fs.entries()[i]),
{
    let mut lines: Vec<String> = Vec::new();
    let mut i: usize = 0;
    while i < fs.entries.len()
        invariant
            i <= fs.entries.len(),
            fs.entries().len() == fs.entries.len(),
            lines@.len() == i,
            forall|k: int|
                0 <= k < lines@.len() ==> (#[trigger] lines@[k])@ == report_line(fs.entries()[k]),
        decreases fs.entries.len() - i,
    {
        let node: Node = fs.entries[i].node;
        let mut line = String::from_str("Najm Kernel:   ");
        line.append(fs.entries[i].path.as_str());
        if node.is_directory {
            line.append("/");
        } else {
            line.append(" (");
            push_decimal(&mut line, node.len as u64);
            line.append(" bytes)");
        }
        lines.push(line);
        i += 1;
    }
    lines
}

/// Where entry `i` of an archive's table is: entries have 144 bytes each and
/// start behind the 24 of the header.
pub open spec fn entry_at(i: int) -> int {
    24 + 144 * i
}

/// The bytes of the path of entry `i`: as many as the entry says, from its
/// byte 24 on.
pub open spec fn path_at(s: Seq<u8>, i: int) -> Seq<u8> {
    s.subrange(entry_at(i) + 24, entry_at(i) + 24 + bytes::le32(s, entry_at(i) + 20))
}

/// An entry with a valid path that is a directory of no length or a file
/// whose bytes are in the archive.
pub open spec fn entry_is_sound(s: Seq<u8>, i: int) -> bool {
    let offset = bytes::le64(s, entry_at(i));
    let len = bytes::le64(s, entry_at(i) + 8);
    let flags = bytes::le32(s, entry_at(i) + 16) as u32;
    &&& bytes::le32(s, entry_at(i) + 20) <= 120
    &&& archive::valid_path(path_at(s, i))
    &&& flags & 1 != 0 ==> len == 0
    &&& flags & 1 == 0 ==> offset + len <= s.len()
}

proof fn lemma_entry_is_declared(s: Seq<u8>, n: int, i: int)
    requires
        first_entries(s, n) is Ok,
        0 <= i < n,
    ensures
        entry_of(s, i) is Ok,
        first_entries(s, n)->Ok_0.dom().contains(entry_of(s, i)->Ok_0.0),
        first_entries(s, n)->Ok_0[entry_of(s, i)->Ok_0.0] == entry_of(s, i)->Ok_0.1,
    decreases n,
{
    if i < n - 1 {
        lemma_entry_is_declared(s, n - 1, i);
    }
}

/// What an archive that is mounted declares is in the namespace: each entry's
/// path names the bytes of the archive that the entry says, or a directory.
pub proof fn law_entries_are_mounted(s: Seq<u8>, i: int)
    requires
        s.len() <= usize::MAX,
        namespace_of(s) is Ok,
        0 <= i < bytes::le32(s, 12),
    ensures
        entry_is_sound(s, i),
        ({
            let nodes = namespace_of(s)->Ok_0;
            let path = text::utf8_lossy(path_at(s, i));
            let node = nodes[path];
            let flags = bytes::le32(s, entry_at(i) + 16) as u32;
            &&& nodes.dom().contains(path)
            &&& node.is_directory <==> flags & 1 != 0
            &&& node.is_directory ==> node.offset == 0 && node.len == 0
            &&& !node.is_directory ==> {
                &&& node.offset == bytes::le64(s, entry_at(i))
                &&& node.len == bytes::le64(s, entry_at(i) + 8)
            }
        }),
{
    assert(entry_offset(i) == entry_at(i));
    assert(entry_path(s, i) == path_at(s, i));
    lemma_entry_is_declared(s, bytes::le32(s, 12), i);
}

proof fn lemma_sound_entries(s: Seq<u8>, n: int)
    requires
        forall|i: int| 0 <= i < n ==> #[trigger] entry_is_sound(s, i),
        forall|i: int, j: int|
            0 <= i < j < n ==> text::utf8_lossy(#[trigger] path_at(s, i)) != text::utf8_lossy(
                #[trigger] path_at(s, j),
            ),
    ensures
        first_entries(s, n) is Ok,
        forall|p: Seq<char>| #[trigger]
            first_entries(s, n)->Ok_0.dom().contains(p) ==> exists|i: int|
                0 <= i < n && p == text::utf8_lossy(#[trigger] path_at(s, i)),
    decreases n,
{
    if n > 0 {
        lemma_sound_entries(s, n - 1);
        assert(entry_is_sound(s, n - 1));
        assert(entry_offset(n - 1) == entry_at(n - 1));
        assert(entry_path(s, n - 1) == path_at(s, n - 1));
        let path = text::utf8_lossy(path_at(s, n - 1));
        let before = first_entries(s, n - 1)->Ok_0;
        if before.dom().contains(path) {
            let i = choose|i: int|
                0 <= i < n - 1 && path == text::utf8_lossy(#[trigger] path_at(s, i));
            assert(text::utf8_lossy(path_at(s, i)) != text::utf8_lossy(path_at(s, n - 1)));
        }
        assert forall|p: Seq<char>| #[trigger]
            first_entries(s, n)->Ok_0.dom().contains(p) implies exists|i: int|
            0 <= i < n && p == text::utf8_lossy(#[trigger] path_at(s, i)) by {
            if p == path {
                assert(p == text::utf8_lossy(path_at(s, n - 1)));
            } else {
                assert(before.dom().contains(p));
                let i = choose|i: int|
                    0 <= i < n - 1 && p == text::utf8_lossy(#[trigger] path_at(s, i));
                assert(p == text::utf8_lossy(path_at(s, i)));
            }
        }
    }
}

/// An archive is mounted if it starts with the eight bytes that say what it
/// is, is of version 1, has room for the entries it says it has, and every
/// one of them is sound and has a path of its own. Nothing but these entries
/// is in the namespace, except for the root.
pub proof fn law_sound_archives_are_mounted(s: Seq<u8>, count: int, path: Seq<char>)
    requires
        count == bytes::le32(s, 12),
        s.len() >= 24,
        s.subrange(0, 8) == seq![0x4eu8, 0x41, 0x4a, 0x4d, 0x41, 0x52, 0, 0],
        bytes::le32(s, 8) == 1,
        entry_at(count) <= s.len(),
        forall|i: int| 0 <= i < count ==> #[trigger] entry_is_sound(s, i),
        forall|i: int, j: int|
            0 <= i < j < count ==> text::utf8_lossy(#[trigger] path_at(s, i)) != text::utf8_lossy(
                #[trigger] path_at(s, j),
            ),
    ensures
        namespace_of(s) is Ok,
        namespace_of(s)->Ok_0.dom().contains(seq!['/']),
        namespace_of(s)->Ok_0.dom().contains(path) ==> path == seq!['/'] || exists|i: int|
            0 <= i < count && path == text::utf8_lossy(#[trigger] path_at(s, i)),
{
    assert(archive::MAGIC@ =~= seq![0x4eu8, 0x41, 0x4a, 0x4d, 0x41, 0x52, 0, 0]);
    assert(entry_offset(count) == entry_at(count));
    lemma_sound_entries(s, count);
}

/// What is no archive is refused for the first thing that is wrong with it.
pub proof fn law_other_archives_are_refused(s: Seq<u8>)
    ensures
        s.len() < 24 ==> namespace_of(s) == Err::<Map<Seq<char>, Node>, MountError>(
            MountError::TooSmall,
        ),
        s.len() >= 24 && s.subrange(0, 8) != seq![0x4eu8, 0x41, 0x4a, 0x4d, 0x41, 0x52, 0, 0]
            ==> namespace_of(s) == Err::<Map<Seq<char>, Node>, MountError>(MountError::BadMagic),
        s.len() >= 24 && s.subrange(0, 8) == seq![0x4eu8, 0x41, 0x4a, 0x4d, 0x41, 0x52, 0, 0] ==> {
            &&& bytes::le32(s, 8) != 1 ==> (namespace_of(s) matches Err(
                MountError::UnsupportedVersion(version),
            ) && version == bytes::le32(s, 8) as u32)
            &&& bytes::le32(s, 8) == 1 && entry_at(bytes::le32(s, 12)) > s.len()
                ==> namespace_of(s) == Err::<Map<Seq<char>, Node>, MountError>(
                MountError::TooSmall,
            )
        },
{
    assert(archive::MAGIC@ =~= seq![0x4eu8, 0x41, 0x4a, 0x4d, 0x41, 0x52, 0, 0]);
}

/// What is in a directory is one name further down: its path is the
/// directory's, a slash, and a name without one, and the root's own path is
/// that slash.
pub proof fn law_children_are_one_name_down(
    path: Seq<char>,
    name: Seq<char>,
    candidate: Seq<char>,
)
    requires
        name.len() > 0,
        forall|i: int| 0 <= i < name.len() ==> name[i] != '/',
    ensures
        path != seq!['/'] ==> is_child(path, path + seq!['/'] + name),
        is_child(seq!['/'], seq!['/'] + name),
        is_child(path, candidate) ==> exists|n: Seq<char>|
            {
                &&& n.len() > 0
                &&& forall|i: int| 0 <= i < n.len() ==> n[i] != '/'
                &&& candidate == (if path == seq!['/'] {
                    path
                } else {
                    path + seq!['/']
                }) + n
            },
{
    let under = path + seq!['/'] + name;
    assert(path.push('/') =~= path + seq!['/']);
    assert(under.subrange(0, path.len() as int + 1) =~= path.push('/'));
    assert(under.subrange(path.len() as int + 1, under.len() as int) =~= name);
    let top = seq!['/'] + name;
    assert(top.subrange(0, 1) =~= seq!['/']);
    assert(top.subrange(1, top.len() as int) =~= name);
    if is_child(path, candidate) {
        let prefix = child_prefix(path);
        let n = candidate.subrange(prefix.len() as int, candidate.len() as int);
        assert(candidate =~= prefix + n);
        assert(slash_free(n));
    }
}

/// How much a read gets of a file: all that is left of it from where the read
/// starts, as far as there is room. Where that is not all in the archive, it
/// gets nothing.
pub proof fn law_reads_get_what_is_left(node: Node, offset: int, room: int, archive_len: int)
    requires
        0 <= offset,
        0 <= room,
    ensures
        node.is_directory ==> read_len(node, offset, room, archive_len) == 0,
        !node.is_directory && offset >= node.len ==> read_len(node, offset, room, archive_len) == 0,
        !node.is_directory && offset + room <= node.len && node.offset + offset + room
            <= archive_len ==> read_len(node, offset, room, archive_len) == room,
        !node.is_directory && offset < node.len < offset + room && node.offset + node.len
            <= archive_len ==> offset + read_len(node, offset, room, archive_len) == node.len,
        !node.is_directory && offset + room <= node.len && node.offset + offset + room
            > archive_len ==> read_len(node, offset, room, archive_len) == 0,
        !node.is_directory && offset < node.len < offset + room && node.offset + node.len
            > archive_len ==> read_len(node, offset, room, archive_len) == 0,
{
}

/// The contents of a file are its bytes of the archive.
pub proof fn law_contents_are_the_archives(archive: Seq<u8>, node: Node, i: int)
    requires
        node.offset + node.len <= archive.len(),
        0 <= i < node.len,
    ensures
        contents(archive, node).len() == node.len,
        contents(archive, node)[i] == archive[node.offset + i],
{
}

/// Every entry is in the namespace, under its own path, and nothing else is.
pub proof fn law_namespace_holds_every_entry(
    entries: Seq<(Seq<char>, Node)>,
    i: int,
    path: Seq<char>,
)
    requires
        sorted(entries),
    ensures
        0 <= i < entries.len() ==> map_of(entries).dom().contains(entries[i].0) && map_of(
            entries,
        )[entries[i].0] == entries[i].1,
        map_of(entries).dom().contains(path) ==> exists|k: int|
            0 <= k < entries.len() && (#[trigger] entries[k]).0 == path,
{
    lemma_map_of(entries);
}

/// The report says of a file its path and its length.
pub proof fn law_files_are_reported(path: Seq<char>, node: Node)
    requires
        !node.is_directory,
    ensures
        text::says(
            report_line((path, node)),
            seq![
                path,
                text::decimal(node.len as nat),
            ],
        ),
{
    let none = Seq::<Seq<char>>::empty();
    let start = "Najm Kernel:   "@;
    text::lemma_says(start, none, path, " ("@);
    let line1 = start + path + " ("@;
    let parts1 = none.push(path);
    text::lemma_says(line1, parts1, text::decimal(node.len as nat), " bytes)"@);
    let line2 = line1 + text::decimal(node.len as nat) + " bytes)"@;
    let parts2 = parts1.push(text::decimal(node.len as nat));
    assert(parts2 =~= seq![path, text::decimal(node.len as nat)]);
    assert(report_line((path, node)) =~= line2);
}

/// The report says of a directory its path.
pub proof fn law_directories_are_reported(path: Seq<char>, node: Node)
    requires
        node.is_directory,
    ensures
        text::says(
            report_line((path, node)),
            seq![
                path,
            ],
        ),
{
    let none = Seq::<Seq<char>>::empty();
    let start = "Najm Kernel:   "@;
    text::lemma_says(start, none, path, "/"@);
    let line1 = start + path + "/"@;
    let parts1 = none.push(path);
    assert(parts1 =~= seq![path]);
    assert(report_line((path, node)) =~= line1);
}

} // verus!

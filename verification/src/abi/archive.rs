//! The archive a filesystem arrives in: a header, a table of fixed-size
//! entries, and the file data they point at.
//!
//! ```text
//!   offset  size  field
//!   0       8     magic
//!   8       4     format version
//!   12      4     entry count
//!   16      8     total archive length
//!   24      ...   entry table: `count` entries of `ENTRY_SIZE` bytes
//!   ...     ...   file data, referenced by absolute offset
//! ```
//!
//! Each entry is an 8-byte data offset, an 8-byte length, 4 bytes of
//! flags, a 4-byte path length and the path itself, not NUL-terminated.
use vstd::prelude::*;

verus! {

/// `"NAJMAR"` and two padding bytes.
pub const MAGIC: [u8; 8] = [0x4e, 0x41, 0x4a, 0x4d, 0x41, 0x52, 0, 0];

/// The only layout version there is.
pub const VERSION: u32 = 1;

/// Bytes before the entry table.
pub const HEADER_SIZE: usize = 24;

/// The longest path an entry may carry.
pub const MAX_PATH: usize = 120;

/// Fixed size of one entry, with its inline path.
pub const ENTRY_SIZE: usize = 144;

/// Set on an entry that is a directory.
pub const FLAG_DIRECTORY: u32 = 1;

/// The path separator.
pub const SLASH: u8 = 0x2f;

const DOT: u8 = 0x2e;

/// A path component that names something: not empty, not `.`, not `..`.
pub open spec fn component_names(component: Seq<u8>) -> bool {
    &&& component.len() > 0
    &&& component != seq![0x2eu8]
    &&& component != seq![0x2eu8, 0x2eu8]
}

/// Whether `path[from..to]` is one whole component: a slash right before
/// it, a slash or the end of the path right after, and none inside.
pub open spec fn is_component(path: Seq<u8>, from: int, to: int) -> bool {
    &&& 1 <= from <= to <= path.len()
    &&& path[from - 1] == SLASH
    &&& (to == path.len() || path[to] == SLASH)
    &&& forall|i: int| from <= i < to ==> path[i] != SLASH
}

/// What makes a path acceptable: absolute, no longer than the limit, no
/// NUL, and either the root or nothing but naming components.
pub open spec fn valid_path(path: Seq<u8>) -> bool {
    &&& 0 < path.len() <= MAX_PATH
    &&& path[0] == SLASH
    &&& forall|i: int| 0 <= i < path.len() ==> path[i] != 0
    &&& (path.len() == 1 || forall|from: int, to: int| #[trigger]
        is_component(path, from, to) ==> component_names(path.subrange(from, to)))
}

/// Whether `path` is a path this system will accept. Rejects rather than
/// repairs: there is no such thing as a path that is nearly valid.
pub fn path_is_valid(path: &[u8]) -> (valid: bool)
    ensures
        valid == valid_path(path@),
{
    if path.len() == 0 || path.len() > MAX_PATH {
        return false;
    }
    if path[0] != SLASH {
        return false;
    }
    let mut i: usize = 0;
    while i < path.len()
        invariant
            i <= path.len(),
            forall|j: int| 0 <= j < i ==> path@[j] != 0,
        decreases path.len() - i,
    {
        if path[i] == 0 {
            return false;
        }
        i += 1;
    }
    if path.len() == 1 {
        return true;
    }
    // `from` is where the component being read starts.
    let mut from: usize = 1;
    let mut at: usize = 1;
    while at < path.len()
        invariant
            1 <= from <= at <= path.len(),
            path@[from - 1] == SLASH,
            forall|j: int| from <= j < at ==> path@[j] != SLASH,
            forall|f: int, t: int| #[trigger]
                is_component(path@, f, t) && t < from ==> component_names(path@.subrange(f, t)),
        decreases path.len() - at,
    {
        if path[at] == SLASH {
            assert(is_component(path@, from as int, at as int));
            if !component_is_name(path, from, at) {
                assert(path@.len() > 1);
                return false;
            }
            let ghost old_from = from;
            from = at + 1;
            at = at + 1;
            assert forall|f: int, t: int| #[trigger]
                is_component(path@, f, t) && t < from implies component_names(
                path@.subrange(f, t),
            ) by {
                if t >= old_from {
                    lemma_component_unique(path@, f, t, old_from as int, at - 1);
                }
            }
        } else {
            at += 1;
        }
    }
    assert(is_component(path@, from as int, at as int));
    if !component_is_name(path, from, at) {
        return false;
    }
    assert forall|f: int, t: int| #[trigger] is_component(path@, f, t) implies component_names(
        path@.subrange(f, t),
    ) by {
        if t >= from {
            lemma_component_unique(path@, f, t, from as int, at as int);
        }
    }
    true
}

/// A component that reaches into another one is that one.
proof fn lemma_component_unique(path: Seq<u8>, f: int, t: int, from: int, to: int)
    requires
        is_component(path, f, t),
        is_component(path, from, to),
        from <= t <= to,
    ensures
        f == from,
        t == to,
{
    if f < from {
        assert(path[from - 1] == SLASH);
        assert(f <= from - 1 < t);
    } else if f > from {
        assert(path[f - 1] == SLASH);
        assert(from <= f - 1 < to);
    }
    if t < to {
        assert(path[t] == SLASH);
    }
}

fn component_is_name(path: &[u8], from: usize, to: usize) -> (r: bool)
    requires
        from <= to <= path.len(),
    ensures
        r == component_names(path@.subrange(from as int, to as int)),
{
    let ghost c = path@.subrange(from as int, to as int);
    if from == to {
        return false;
    }
    if to - from == 1 && path[from] == DOT {
        assert(c =~= seq![0x2eu8]);
        return false;
    }
    if to - from == 2 && path[from] == DOT && path[from + 1] == DOT {
        assert(c =~= seq![0x2eu8, 0x2eu8]);
        return false;
    }
    proof {
        if c == seq![0x2eu8] {
            assert(c[0] == 0x2e);
        }
        if c == seq![0x2eu8, 0x2eu8] {
            assert(c[0] == 0x2e && c[1] == 0x2e);
        }
    }
    true
}

/// The position of the last slash, or -1 where there is none.
pub open spec fn last_slash(path: Seq<u8>) -> int
    decreases path.len(),
{
    if path.len() == 0 {
        -1
    } else if path.last() == SLASH {
        path.len() - 1
    } else {
        last_slash(path.drop_last())
    }
}

/// The directory that holds `path`. The root, and a path with no slash in
/// it, have none.
pub open spec fn parent(path: Seq<u8>) -> Option<Seq<u8>> {
    if path == seq![SLASH] || last_slash(path) < 0 {
        None
    } else if last_slash(path) == 0 {
        Some(seq![SLASH])
    } else {
        Some(path.subrange(0, last_slash(path)))
    }
}

/// The final component: everything after the last slash.
pub open spec fn final_component(path: Seq<u8>) -> Seq<u8> {
    path.subrange(last_slash(path) + 1, path.len() as int)
}

fn rposition_slash(path: &[u8]) -> (r: Option<usize>)
    ensures
        match r {
            Some(i) => i == last_slash(path@) && i < path.len() && path@[i as int] == SLASH,
            None => last_slash(path@) == -1,
        },
{
    let mut n: usize = path.len();
    assert(path@.subrange(0, n as int) =~= path@);
    while n > 0
        invariant
            n <= path.len(),
            last_slash(path@) == last_slash(path@.subrange(0, n as int)),
        decreases n,
    {
        let ghost head = path@.subrange(0, n as int);
        if path[n - 1] == SLASH {
            assert(head.last() == SLASH);
            return Some(n - 1);
        }
        assert(head.drop_last() =~= path@.subrange(0, n - 1));
        n -= 1;
    }
    None
}

/// The parent directory of `path`, or `None` for the root.
pub fn parent_of(path: &[u8]) -> (r: Option<&[u8]>)
    ensures
        match r {
            Some(p) => parent(path@) == Some(p@),
            None => parent(path@) is None,
        },
{
    if path.len() == 1 && path[0] == SLASH {
        assert(path@ =~= seq![SLASH]);
        return None;
    }
    match rposition_slash(path) {
        None => None,
        Some(slash) => {
            if slash == 0 {
                assert(path@.subrange(0, 1) =~= seq![SLASH]);
                Some(vstd::slice::slice_subrange(path, 0, 1))
            } else {
                Some(vstd::slice::slice_subrange(path, 0, slash))
            }
        },
    }
}

/// The final component of `path`: its file name.
pub fn basename(path: &[u8]) -> (r: &[u8])
    ensures
        r@ == final_component(path@),
{
    match rposition_slash(path) {
        Some(slash) => vstd::slice::slice_subrange(path, slash + 1, path.len()),
        None => {
            assert(path@.subrange(0, path@.len() as int) =~= path@);
            path
        },
    }
}

/// A valid path other than the root is its parent, one slash, and its
/// final component, and that component is a name.
pub proof fn law_valid_path_splits(path: Seq<u8>)
    requires
        valid_path(path),
        path.len() > 1,
    ensures
        parent(path) is Some,
        component_names(final_component(path)),
        path == (if parent(path).unwrap() == seq![SLASH] {
            seq![SLASH]
        } else {
            parent(path).unwrap().push(SLASH)
        }) + final_component(path),
{
    lemma_last_slash(path);
    let s = last_slash(path);
    if s < 0 {
        assert(path[0] == SLASH);
    }
    assert(is_component(path, s + 1, path.len() as int));
    if path == seq![SLASH] {
        assert(path.len() == 1);
    }
    if s == 0 {
        assert(path =~= seq![SLASH] + final_component(path));
    } else {
        assert(path =~= path.subrange(0, s).push(SLASH) + final_component(path));
        if path.subrange(0, s) == seq![SLASH] {
            assert(path.subrange(0, s).len() == 1);
            assert(is_component(path, 1, 1));
            assert(path.subrange(1, 1).len() == 0);
        }
    }
}

/// `last_slash` names a slash with none after it.
pub proof fn lemma_last_slash(path: Seq<u8>)
    ensures
        -1 <= last_slash(path) < path.len(),
        last_slash(path) >= 0 ==> path[last_slash(path)] == SLASH,
        forall|i: int| last_slash(path) < i < path.len() ==> path[i] != SLASH,
    decreases path.len(),
{
    if path.len() > 0 && path.last() != SLASH {
        lemma_last_slash(path.drop_last());
        assert forall|i: int| last_slash(path) < i < path.len() implies path[i] != SLASH by {
            if i < path.len() - 1 {
                assert(path[i] == path.drop_last()[i]);
            }
        }
    }
}

/// A path grows by names: a valid path with one more name under it is valid,
/// where it is not too long. A name is anything that is not empty, has no
/// slash and no zero in it, and is not one or two dots.
pub proof fn law_paths_are_made_of_names(path: Seq<u8>, name: Seq<u8>)
    requires
        valid_path(path),
        forall|i: int| 0 <= i < name.len() ==> #[trigger] name[i] != 0x2f && name[i] != 0,
    ensures
        ({
            let longer = if path.len() == 1 {
                path + name
            } else {
                path + seq![0x2fu8] + name
            };
            let is_name = name.len() > 0 && name != seq![0x2eu8] && name != seq![0x2eu8, 0x2eu8];
            &&& is_name && longer.len() <= 120 ==> valid_path(longer)
            &&& !is_name && !(path.len() == 1 && name.len() == 0) ==> !valid_path(longer)
            &&& longer.len() > 120 ==> !valid_path(longer)
        }),
        valid_path(seq![0x2fu8]),
{
    let root = path.len() == 1;
    let longer = if root {
        path + name
    } else {
        path + seq![0x2fu8] + name
    };
    let start = if root {
        1int
    } else {
        path.len() as int + 1
    };
    assert forall|i: int| start <= i < longer.len() implies longer[i] == name[i - start] by {}
    assert forall|i: int| 0 <= i < path.len() implies longer[i] == path[i] by {}
    assert(longer[start - 1] == SLASH);
    let whole = longer.subrange(start, longer.len() as int);
    assert(whole =~= name);
    assert(is_component(longer, start, longer.len() as int));
    let is_name = name.len() > 0 && name != seq![0x2eu8] && name != seq![0x2eu8, 0x2eu8];
    if is_name && longer.len() <= 120 {
        assert forall|i: int| 0 <= i < longer.len() implies longer[i] != 0 by {
            if i >= start {
                assert(longer[i] == name[i - start]);
            } else if i < path.len() {
                assert(longer[i] == path[i]);
            }
        }
        assert forall|from: int, to: int| #[trigger] is_component(longer, from, to) implies
            component_names(longer.subrange(from, to)) by {
            if from >= start {
                if from > start {
                    assert(longer[from - 1] == name[from - 1 - start]);
                }
                if to < longer.len() {
                    assert(longer[to] == name[to - start]);
                }
                assert(longer.subrange(from, to) =~= name);
            } else {
                assert(!root);
                if to > path.len() {
                    assert(longer[start - 1] != SLASH);
                }
                assert(longer[from - 1] == path[from - 1]);
                assert forall|i: int| from <= i < to implies path[i] != SLASH by {
                    assert(longer[i] == path[i]);
                }
                if to < path.len() {
                    assert(longer[to] == path[to]);
                }
                assert(is_component(path, from, to));
                assert(longer.subrange(from, to) =~= path.subrange(from, to));
            }
        }
    }
}

/// What a path starts with, and that it has no zero in it.
pub proof fn law_paths_are_absolute(path: Seq<u8>, i: int)
    ensures
        path.len() == 0 ==> !valid_path(path),
        path.len() > 0 && path[0] != 0x2f ==> !valid_path(path),
        0 <= i < path.len() && path[i] == 0 ==> !valid_path(path),
{
}

/// A path's last name, and what holds it.
pub proof fn law_last_name_and_what_holds_it(path: Seq<u8>, name: Seq<u8>)
    requires
        forall|i: int| 0 <= i < name.len() ==> #[trigger] name[i] != 0x2f,
    ensures
        final_component(path + seq![0x2fu8] + name) == name,
        path.len() > 0 ==> parent(path + seq![0x2fu8] + name) == Some(path),
        name.len() > 0 ==> parent(seq![0x2fu8] + name) == Some(seq![0x2fu8]),
        parent(seq![0x2fu8]) is None,
        parent(name) is None,
        final_component(name) == name,
{
    let whole = path + seq![0x2fu8] + name;
    lemma_last_slash(whole);
    assert forall|i: int| path.len() < i < whole.len() implies whole[i] != SLASH by {
        assert(whole[i] == name[i - path.len() - 1]);
    }
    assert(whole[path.len() as int] == SLASH);
    assert(last_slash(whole) == path.len());
    assert(whole.subrange(path.len() as int + 1, whole.len() as int) =~= name);
    assert(whole.subrange(0, path.len() as int) =~= path);
    let top = seq![0x2fu8] + name;
    lemma_last_slash(top);
    assert forall|i: int| 0 < i < top.len() implies top[i] != SLASH by {
        assert(top[i] == name[i - 1]);
    }
    assert(top[0] == SLASH);
    if name.len() > 0 {
        assert(top.len() != seq![SLASH].len());
    }
    if path.len() > 0 {
        assert(whole != seq![SLASH]) by {
            if whole == seq![SLASH] {
                assert(whole.len() == 1);
            }
        }
    }
    lemma_last_slash(name);
    assert(last_slash(name) == -1);
    assert(name.subrange(0, name.len() as int) =~= name);
}

} // verus!

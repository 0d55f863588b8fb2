//! The `key = value` text that themes and package manifests are written
//! in.
//!
//! The text is untrusted, so the format has no nesting, no lengths and no
//! references. A line that starts with `#` is a comment; a `#` further
//! along is part of the line, since values may contain one.
use vstd::prelude::*;
use crate::text::code_point;

verus! {

/// The characters that Unicode calls white space.
pub open spec fn is_space(c: char) -> bool {
    let n = c as int;
    ||| 0x09 <= n <= 0x0D
    ||| n == 0x20
    ||| n == 0x85
    ||| n == 0xA0
    ||| n == 0x1680
    ||| 0x2000 <= n <= 0x200A
    ||| n == 0x2028
    ||| n == 0x2029
    ||| n == 0x202F
    ||| n == 0x205F
    ||| n == 0x3000
}

/// Whether a character is white space.
pub fn is_white_space(c: char) -> (r: bool)
    ensures
        r == is_space(c),
{
    let n: u32 = code_point(c);
    (0x09 <= n && n <= 0x0D) || n == 0x20 || n == 0x85 || n == 0xA0 || n == 0x1680 || (0x2000 <= n
        && n <= 0x200A) || n == 0x2028 || n == 0x2029 || n == 0x202F || n == 0x205F || n == 0x3000
}

/// `s` without white space at its beginning.
pub open spec fn without_leading(s: Seq<char>) -> Seq<char>
    decreases s.len(),
{
    if s.len() > 0 && is_space(s[0]) {
        without_leading(s.drop_first())
    } else {
        s
    }
}

/// `s` without white space at its end.
pub open spec fn without_trailing(s: Seq<char>) -> Seq<char>
    decreases s.len(),
{
    if s.len() > 0 && is_space(s.last()) {
        without_trailing(s.drop_last())
    } else {
        s
    }
}

/// `s` without white space around it.
pub open spec fn trimmed(s: Seq<char>) -> Seq<char> {
    without_trailing(without_leading(s))
}

/// The position of the first `c` from `i` on, or the length.
pub open spec fn next_char(s: Seq<char>, c: char, i: int) -> int
    decreases s.len() - i,
{
    if 0 <= i < s.len() && s[i] != c {
        next_char(s, c, i + 1)
    } else {
        i
    }
}

/// What one line says.
pub enum LineView {
    /// Nothing, or a comment.
    Blank,
    /// It has no `=`.
    NotASetting,
    Setting { key: Seq<char>, value: Seq<char> },
}

/// What a line says. The first `=` separates the key from the value, and
/// white space around either is not part of it.
pub open spec fn line_meaning(line: Seq<char>) -> LineView {
    let t = trimmed(line);
    let at = next_char(t, '=', 0);
    if t.len() == 0 || t[0] == '#' {
        LineView::Blank
    } else if at >= t.len() {
        LineView::NotASetting
    } else {
        LineView::Setting {
            key: trimmed(t.subrange(0, at)),
            value: trimmed(t.subrange(at + 1, t.len() as int)),
        }
    }
}

/// What one line says.
#[derive(Debug)]
pub enum Line {
    Blank,
    NotASetting,
    Setting { key: String, value: String },
}

impl View for Line {
    type V = LineView;

    open spec fn view(&self) -> LineView {
        match self {
            Line::Blank => LineView::Blank,
            Line::NotASetting => LineView::NotASetting,
            Line::Setting { key, value } => LineView::Setting { key: key@, value: value@ },
        }
    }
}

/// Narrows a range of `s` by the white space around it.
fn trim_range(s: &Vec<char>, from: usize, to: usize) -> (r: (usize, usize))
    requires
        from <= to <= s@.len(),
    ensures
        from <= r.0 <= r.1 <= to,
        s@.subrange(r.0 as int, r.1 as int) == trimmed(s@.subrange(from as int, to as int)),
{
    let mut a: usize = from;
    while a < to && is_white_space(s[a])
        invariant
            from <= a <= to <= s@.len(),
            without_leading(s@.subrange(from as int, to as int)) == without_leading(
                s@.subrange(a as int, to as int),
            ),
        decreases to - a,
    {
        assert(s@.subrange(a as int, to as int).drop_first() =~= s@.subrange(a + 1, to as int));
        a += 1;
    }
    let mut b: usize = to;
    while b > a && is_white_space(s[b - 1])
        invariant
            from <= a <= b <= to <= s@.len(),
            without_trailing(s@.subrange(a as int, to as int)) == without_trailing(
                s@.subrange(a as int, b as int),
            ),
        decreases b - a,
    {
        assert(s@.subrange(a as int, b as int).drop_last() =~= s@.subrange(a as int, b - 1));
        b -= 1;
    }
    (a, b)
}

/// The text between two positions.
fn text_of(s: &Vec<char>, from: usize, to: usize) -> (out: String)
    requires
        from <= to <= s@.len(),
    ensures
        out@ == s@.subrange(from as int, to as int),
{
    let mut out = String::new();
    let mut i: usize = from;
    while i < to
        invariant
            from <= i <= to <= s@.len(),
            out@ == s@.subrange(from as int, i as int),
        decreases to - i,
    {
        out.push(s[i]);
        i += 1;
        assert(out@ =~= s@.subrange(from as int, i as int));
    }
    out
}

proof fn lemma_next_char(s: Seq<char>, c: char, i: int)
    requires
        0 <= i <= s.len(),
    ensures
        i <= next_char(s, c, i) <= s.len(),
    decreases s.len() - i,
{
    if i < s.len() && s[i] != c {
        lemma_next_char(s, c, i + 1);
    }
}

/// Where the line that starts at `from` ends.
pub fn line_end(s: &Vec<char>, from: usize) -> (end: usize)
    requires
        from <= s@.len(),
    ensures
        end == next_char(s@, '\n', from as int),
        from <= end <= s@.len(),
{
    let mut i: usize = from;
    while i < s.len() && s[i] != '\n'
        invariant
            from <= i <= s@.len(),
            next_char(s@, '\n', from as int) == next_char(s@, '\n', i as int),
        decreases s@.len() - i,
    {
        i += 1;
    }
    i
}

/// Reads the line between two positions.
pub fn read_line(s: &Vec<char>, from: usize, to: usize) -> (line: Line)
    requires
        from <= to <= s@.len(),
    ensures
        line@ == line_meaning(s@.subrange(from as int, to as int)),
{
    let (a, b) = trim_range(s, from, to);
    let ghost t = s@.subrange(a as int, b as int);
    if a == b || s[a] == '#' {
        return Line::Blank;
    }
    let mut i: usize = a;
    while i < b && s[i] != '='
        invariant
            a <= i <= b <= s@.len(),
            t == s@.subrange(a as int, b as int),
            next_char(t, '=', 0) == next_char(t, '=', i - a),
        decreases b - i,
    {
        i += 1;
    }
    assert(next_char(t, '=', 0) == i - a);
    if i == b {
        return Line::NotASetting;
    }
    let (key_from, key_to) = trim_range(s, a, i);
    let (value_from, value_to) = trim_range(s, i + 1, b);
    assert(t.subrange(0, i - a) =~= s@.subrange(a as int, i as int));
    assert(t.subrange(i - a + 1, t.len() as int) =~= s@.subrange(i + 1, b as int));
    Line::Setting { key: text_of(s, key_from, key_to), value: text_of(s, value_from, value_to) }
}

/// Trimming leaves nothing to trim: no white space is left at either end.
pub proof fn law_trimmed_text_is_bare(s: Seq<char>)
    ensures
        trimmed(s).len() > 0 ==> !is_space(trimmed(s)[0]) && !is_space(trimmed(s).last()),
{
    lemma_leading(s);
    lemma_trailing(without_leading(s));
}

proof fn lemma_leading(s: Seq<char>)
    ensures
        without_leading(s).len() > 0 ==> !is_space(without_leading(s)[0]),
    decreases s.len(),
{
    if s.len() > 0 && is_space(s[0]) {
        lemma_leading(s.drop_first());
    }
}

proof fn lemma_trailing(s: Seq<char>)
    ensures
        without_trailing(s).len() > 0 ==> !is_space(without_trailing(s).last()) && without_trailing(
            s,
        )[0] == s[0],
    decreases s.len(),
{
    if s.len() > 0 && is_space(s.last()) {
        lemma_trailing(s.drop_last());
    }
}

/// Text of nothing but white space.
pub open spec fn is_blank(s: Seq<char>) -> bool {
    forall|i: int| 0 <= i < s.len() ==> is_space(#[trigger] s[i])
}

/// Text that neither starts nor ends with white space.
pub open spec fn is_bare(s: Seq<char>) -> bool {
    s.len() > 0 ==> !is_space(s[0]) && !is_space(s[s.len() - 1])
}

proof fn lemma_without_leading(a: Seq<char>, m: Seq<char>)
    requires
        is_blank(a),
        m.len() > 0 ==> !is_space(m[0]),
    ensures
        without_leading(a + m) == m,
    decreases a.len(),
{
    if a.len() == 0 {
        assert(a + m =~= m);
    } else {
        assert((a + m)[0] == a[0]);
        assert((a + m).drop_first() =~= a.drop_first() + m);
        lemma_without_leading(a.drop_first(), m);
    }
}

proof fn lemma_without_trailing(m: Seq<char>, d: Seq<char>)
    requires
        is_blank(d),
        m.len() > 0 ==> !is_space(m[m.len() - 1]),
    ensures
        without_trailing(m + d) == m,
    decreases d.len(),
{
    if d.len() == 0 {
        assert(m + d =~= m);
    } else {
        assert((m + d).last() == d.last());
        assert((m + d).drop_last() =~= m + d.drop_last());
        lemma_without_trailing(m, d.drop_last());
    }
}

proof fn lemma_all_blank(s: Seq<char>)
    requires
        is_blank(s),
    ensures
        without_leading(s) == Seq::<char>::empty(),
    decreases s.len(),
{
    if s.len() > 0 {
        assert(is_space(s[0]));
        lemma_all_blank(s.drop_first());
    } else {
        assert(s =~= Seq::<char>::empty());
    }
}

/// Trimming takes the white space off both ends, and no more.
pub proof fn law_trimming_takes_the_white_space(a: Seq<char>, m: Seq<char>, d: Seq<char>)
    requires
        is_blank(a),
        is_bare(m),
        is_blank(d),
    ensures
        trimmed(a + m + d) == m,
{
    if m.len() > 0 {
        assert(a + m + d =~= a + (m + d));
        assert((m + d)[0] == m[0]);
        lemma_without_leading(a, m + d);
        lemma_without_trailing(m, d);
    } else {
        let s = a + m + d;
        assert forall|i: int| 0 <= i < s.len() implies is_space(#[trigger] s[i]) by {
            if i < a.len() {
                assert(s[i] == a[i]);
            } else {
                assert(s[i] == d[i - a.len()]);
            }
        }
        lemma_all_blank(s);
        assert(m =~= Seq::<char>::empty());
    }
}

/// Searching for a character stops at the first one there is, or at the end.
pub proof fn law_search_finds_the_first(s: Seq<char>, c: char, from: int, at: int)
    requires
        0 <= from <= at <= s.len(),
        forall|i: int| from <= i < at ==> #[trigger] s[i] != c,
        at < s.len() ==> s[at] == c,
    ensures
        next_char(s, c, from) == at,
    decreases at - from,
{
    if from < at {
        assert(s[from] != c);
        law_search_finds_the_first(s, c, from + 1, at);
    }
}

/// A line that has a key, `=` and a value sets that key to that value,
/// whatever white space is around them, and whatever is in the value. A line
/// of white space, or one that begins with `#`, sets nothing, and neither
/// does one without `=`.
pub proof fn law_settings_are_read(
    a: Seq<char>,
    key: Seq<char>,
    b: Seq<char>,
    c: Seq<char>,
    value: Seq<char>,
    d: Seq<char>,
)
    requires
        is_blank(a),
        is_blank(b),
        is_blank(c),
        is_blank(d),
        key.len() > 0,
        is_bare(key),
        is_bare(value),
        forall|i: int| 0 <= i < key.len() ==> #[trigger] key[i] != '=',
    ensures
        key[0] != '#' ==> line_meaning(a + key + b + seq!['='] + c + value + d)
            == (LineView::Setting { key, value }),
        key[0] == '#' ==> line_meaning(a + key + b + seq!['='] + c + value + d) == LineView::Blank,
        key[0] != '#' ==> line_meaning(a + key + d) == LineView::NotASetting,
        key[0] == '#' ==> line_meaning(a + key + d) == LineView::Blank,
        line_meaning(a) == LineView::Blank,
{
    let empty = Seq::<char>::empty();
    law_trimming_takes_the_white_space(a, key, d);
    law_search_finds_the_first(key, '=', 0, key.len() as int);
    law_trimming_takes_the_white_space(a, empty, empty);
    assert(a + empty + empty =~= a);
    let line = a + key + b + seq!['='] + c + value + d;
    let m = if value.len() > 0 {
        key + b + seq!['='] + c + value
    } else {
        key + b + seq!['=']
    };
    let tail = if value.len() > 0 {
        d
    } else {
        c + d
    };
    assert(line =~= a + m + tail);
    assert(m[0] == key[0]);
    assert forall|i: int| 0 <= i < tail.len() implies is_space(#[trigger] tail[i]) by {
        if value.len() == 0 {
            if i < c.len() {
                assert(tail[i] == c[i]);
            } else {
                assert(tail[i] == d[i - c.len()]);
            }
        }
    }
    if value.len() > 0 {
        assert(m[m.len() - 1] == value[value.len() - 1]);
    } else {
        assert(m[m.len() - 1] == '=');
    }
    law_trimming_takes_the_white_space(a, m, tail);
    let at = (key.len() + b.len()) as int;
    assert(m[at] == '=');
    assert forall|i: int| 0 <= i < at implies #[trigger] m[i] != '=' by {
        if i < key.len() {
            assert(m[i] == key[i]);
        } else {
            assert(m[i] == b[i - key.len()]);
            assert(is_space(b[i - key.len()]));
        }
    }
    law_search_finds_the_first(m, '=', 0, at);
    assert(m.subrange(0, at) =~= empty + key + b);
    law_trimming_takes_the_white_space(empty, key, b);
    let rest = m.subrange(at + 1, m.len() as int);
    if value.len() > 0 {
        assert(rest =~= c + value + empty);
        law_trimming_takes_the_white_space(c, value, empty);
    } else {
        assert(rest =~= empty + empty + empty);
        law_trimming_takes_the_white_space(empty, empty, empty);
        assert(value =~= empty);
    }
}

} // verus!

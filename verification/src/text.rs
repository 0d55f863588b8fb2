//! Text: comparing strings, and writing numbers into them.
use vstd::prelude::*;
use crate::bytes;

verus! {

/// `String::push` appends one character and changes nothing else.
pub assume_specification[ String::push ](s: &mut String, c: char)
    ensures
        final(s)@ == old(s)@.push(c),
;

/// What `String::from_utf8_lossy` makes of a byte sequence.
pub uninterp spec fn utf8_lossy(bytes: Seq<u8>) -> Seq<char>;

/// `String::from_utf8_lossy`: text depends on the bytes alone, and bytes
/// that are valid UTF-8 come through unchanged. Which bytes of an invalid
/// sequence turn into U+FFFD is left unsaid.
#[verifier::external_body]
pub(crate) fn from_utf8_lossy(bytes: &[u8]) -> (text: String)
    ensures
        text@ == utf8_lossy(bytes@),
        vstd::utf8::valid_utf8(bytes@) ==> vstd::utf8::encode_utf8(text@) == bytes@,
{
    String::from_utf8_lossy(bytes).into_owned()
}

/// `core::str::from_utf8`: accepts exactly the valid UTF-8, and the text
/// it gives is the one those bytes encode.
#[verifier::external_body]
pub(crate) fn from_utf8(bytes: &[u8]) -> (r: Option<&str>)
    ensures
        match r {
            Some(s) => vstd::utf8::valid_utf8(bytes@) && vstd::utf8::encode_utf8(s@) == bytes@,
            None => !vstd::utf8::valid_utf8(bytes@),
        },
{
    core::str::from_utf8(bytes).ok()
}

/// The texts of a list of strings.
pub open spec fn texts(strings: Seq<String>) -> Seq<Seq<char>> {
    Seq::new(strings.len(), |i: int| strings[i]@)
}

/// The character for one hexadecimal digit, in lower case.
pub open spec fn digit_char(d: int) -> char {
    if d < 10 {
        (0x30 + d) as char
    } else {
        (0x57 + d) as char
    }
}

/// A number in decimal, without leading zeros.
pub open spec fn decimal(n: nat) -> Seq<char>
    decreases n,
{
    if n < 10 {
        seq![digit_char(n as int)]
    } else {
        decimal(n / 10).push(digit_char((n % 10) as int))
    }
}

/// A number in lower-case hexadecimal, without leading zeros.
pub open spec fn hexadecimal(n: nat) -> Seq<char>
    decreases n,
{
    if n < 16 {
        seq![digit_char(n as int)]
    } else {
        hexadecimal(n / 16).push(digit_char((n % 16) as int))
    }
}

/// `text` with zeros in front until it is `width` characters long.
pub open spec fn zero_padded(text: Seq<char>, width: nat) -> Seq<char> {
    if text.len() >= width {
        text
    } else {
        Seq::new((width - text.len()) as nat, |i: int| '0') + text
    }
}

fn push_digit(out: &mut String, d: u8)
    requires
        d < 16,
    ensures
        final(out)@ == old(out)@.push(digit_char(d as int)),
{
    if d < 10 {
        out.push((0x30 + d) as char);
    } else {
        out.push((0x57 + d) as char);
    }
}

/// Appends `n` in decimal.
pub fn push_decimal(out: &mut String, n: u64)
    ensures
        final(out)@ == old(out)@ + decimal(n as nat),
    decreases n,
{
    let ghost before = out@;
    if n >= 10 {
        push_decimal(out, n / 10);
    }
    push_digit(out, (n % 10) as u8);
    assert(out@ =~= before + decimal(n as nat));
}

/// Appends `n` in lower-case hexadecimal.
pub fn push_hexadecimal(out: &mut String, n: u64)
    ensures
        final(out)@ == old(out)@ + hexadecimal(n as nat),
    decreases n,
{
    let ghost before = out@;
    if n >= 16 {
        push_hexadecimal(out, n / 16);
    }
    push_digit(out, (n % 16) as u8);
    assert(out@ =~= before + hexadecimal(n as nat));
}

/// Appends `digits` with zeros in front of it.
fn push_zero_padded(out: &mut String, digits: &str, width: usize)
    ensures
        final(out)@ == old(out)@ + zero_padded(digits@, width as nat),
{
    let n: usize = digits.unicode_len();
    let ghost before = out@;
    let mut i: usize = n;
    assert(out@ =~= before + Seq::new(0, |k: int| '0'));
    while i < width
        invariant
            n <= i,
            i <= width || i == n,
            out@ == before + Seq::new((i - n) as nat, |k: int| '0'),
        decreases width - i,
    {
        out.push('0');
        i += 1;
        assert(out@ =~= before + Seq::new((i - n) as nat, |k: int| '0'));
    }
    out.append(digits);
    assert(out@ =~= before + zero_padded(digits@, width as nat));
}

/// Appends `n` in decimal, at least `width` digits long.
pub fn push_padded_decimal(out: &mut String, n: u64, width: usize)
    ensures
        final(out)@ == old(out)@ + zero_padded(decimal(n as nat), width as nat),
{
    let mut digits = String::new();
    push_decimal(&mut digits, n);
    assert(digits@ =~= decimal(n as nat));
    push_zero_padded(out, digits.as_str(), width);
}

/// Appends `n` in lower-case hexadecimal, at least `width` digits long.
pub fn push_padded_hexadecimal(out: &mut String, n: u64, width: usize)
    ensures
        final(out)@ == old(out)@ + zero_padded(hexadecimal(n as nat), width as nat),
{
    let mut digits = String::new();
    push_hexadecimal(&mut digits, n);
    assert(digits@ =~= hexadecimal(n as nat));
    push_zero_padded(out, digits.as_str(), width);
}

/// Whether two strings hold the same text.
pub fn text_eq(a: &str, b: &str) -> (same: bool)
    ensures
        same == (a@ == b@),
{
    let same = bytes::bytes_eq(a.as_bytes(), b.as_bytes());
    proof {
        if same {
            lemma_encoding_injective(a@, b@);
        }
    }
    same
}

/// Two texts with the same UTF-8 encoding are the same text.
pub proof fn lemma_encoding_injective(a: Seq<char>, b: Seq<char>)
    requires
        vstd::utf8::encode_utf8(a) == vstd::utf8::encode_utf8(b),
    ensures
        a == b,
{
    vstd::utf8::encode_utf8_decode_utf8(a);
    vstd::utf8::encode_utf8_decode_utf8(b);
}

/// The characters of a string.
pub fn chars_of(s: &str) -> (chars: Vec<char>)
    ensures
        chars@ == s@,
{
    let mut chars: Vec<char> = Vec::new();
    for c in it: s.chars()
        invariant
            it.seq() == s@,
            chars@ == it.seq().take(it.index() as int),
    {
        chars.push(c);
        assert(chars@ =~= it.seq().take(it.index() + 1));
    }
    assert(chars@ =~= s@);
    chars
}

/// The order of strings: the first characters that differ decide, by their
/// code points, and a proper prefix comes first.
pub open spec fn text_before(a: Seq<char>, b: Seq<char>) -> bool
    decreases a.len(),
{
    if b.len() == 0 {
        false
    } else if a.len() == 0 {
        true
    } else if a[0] != b[0] {
        (a[0] as int) < (b[0] as int)
    } else {
        text_before(a.drop_first(), b.drop_first())
    }
}

/// A character's code point.
pub fn code_point(c: char) -> (n: u32)
    ensures
        n as int == c as int,
{
    c as u32
}

/// Whether `a` sorts strictly before `b`.
pub fn chars_before(a: &Vec<char>, b: &Vec<char>) -> (r: bool)
    ensures
        r == text_before(a@, b@),
{
    let mut i: usize = 0;
    assert(a@.skip(0) =~= a@);
    assert(b@.skip(0) =~= b@);
    while i < a.len() && i < b.len()
        invariant
            i <= a@.len(),
            i <= b@.len(),
            text_before(a@, b@) == text_before(a@.skip(i as int), b@.skip(i as int)),
        decreases a@.len() - i,
    {
        let ghost sa = a@.skip(i as int);
        let ghost sb = b@.skip(i as int);
        assert(sa[0] == a@[i as int] && sb[0] == b@[i as int]);
        if a[i] != b[i] {
            return code_point(a[i]) < code_point(b[i]);
        }
        assert(sa.drop_first() =~= a@.skip(i + 1));
        assert(sb.drop_first() =~= b@.skip(i + 1));
        i += 1;
    }
    i < b.len()
}

/// The order is irreflexive.
pub proof fn lemma_before_irreflexive(a: Seq<char>)
    ensures
        !text_before(a, a),
    decreases a.len(),
{
    if a.len() > 0 {
        lemma_before_irreflexive(a.drop_first());
    }
}

/// The order is transitive.
pub proof fn lemma_before_transitive(a: Seq<char>, b: Seq<char>, c: Seq<char>)
    requires
        text_before(a, b),
        text_before(b, c),
    ensures
        text_before(a, c),
    decreases a.len(),
{
    if a.len() > 0 && b.len() > 0 && c.len() > 0 && a[0] == b[0] && b[0] == c[0] {
        lemma_before_transitive(a.drop_first(), b.drop_first(), c.drop_first());
    }
}

/// The order is total: two texts that are unordered are equal.
pub proof fn lemma_before_total(a: Seq<char>, b: Seq<char>)
    requires
        !text_before(a, b),
        !text_before(b, a),
    ensures
        a == b,
    decreases a.len(),
{
    if a.len() > 0 && b.len() > 0 {
        lemma_before_total(a.drop_first(), b.drop_first());
        assert(a =~= seq![a[0]] + a.drop_first());
        assert(b =~= seq![b[0]] + b.drop_first());
    } else {
        assert(a =~= b);
    }
}

/// ASCII bytes as text.
pub open spec fn ascii_text(bytes: Seq<u8>) -> Seq<char> {
    Seq::new(bytes.len(), |i: int| bytes[i] as char)
}

/// Appends bytes as the characters with those numbers.
pub fn push_ascii(out: &mut String, bytes: &[u8])
    ensures
        final(out)@ == old(out)@ + ascii_text(bytes@),
{
    let mut i: usize = 0;
    let ghost before = out@;
    assert(before =~= before + ascii_text(bytes@.subrange(0, 0)));
    while i < bytes.len()
        invariant
            i <= bytes.len(),
            out@ == before + ascii_text(bytes@.subrange(0, i as int)),
        decreases bytes.len() - i,
    {
        out.push(bytes[i] as char);
        i += 1;
        assert(out@ =~= before + ascii_text(bytes@.subrange(0, i as int)));
    }
    assert(bytes@.subrange(0, i as int) =~= bytes@);
}

// ---------------------------------------------------------------------
// Laws
// ---------------------------------------------------------------------

/// What a digit is worth.
pub open spec fn digit_value(c: char) -> int {
    if '0' <= c && c <= '9' {
        c as int - '0' as int
    } else {
        c as int - 'a' as int + 10
    }
}

/// The number that digits stand for, the most significant first.
pub open spec fn number_written(digits: Seq<char>, base: int) -> int
    decreases digits.len(),
{
    if digits.len() == 0 {
        0
    } else {
        base * number_written(digits.drop_last(), base) + digit_value(digits.last())
    }
}

/// A number in decimal reads back as that number, and has no zeros in front
/// that are not needed.
pub proof fn law_decimal_reads_back(n: nat)
    ensures
        number_written(decimal(n), 10) == n,
        decimal(n).len() > 0,
        decimal(n)[0] == '0' <==> n == 0,
        n == 0 ==> decimal(n).len() == 1,
        forall|i: int|
            0 <= i < decimal(n).len() ==> '0' <= #[trigger] decimal(n)[i] && decimal(n)[i] <= '9',
    decreases n,
{
    let all = decimal(n);
    if n >= 10 {
        law_decimal_reads_back(n / 10);
        let front = decimal(n / 10);
        assert(all.drop_last() =~= front);
        assert(all[0] == front[0]);
        assert forall|i: int| 0 <= i < all.len() implies '0' <= #[trigger] all[i] && all[i]
            <= '9' by {
            if i < front.len() {
                assert(all[i] == front[i]);
            }
        }
    } else {
        assert(all.drop_last() =~= Seq::<char>::empty());
        assert(number_written(all.drop_last(), 10) == 0);
    }
}

/// A number in hexadecimal reads back as that number, in lower case, and has
/// no zeros in front that are not needed.
pub proof fn law_hexadecimal_reads_back(n: nat)
    ensures
        number_written(hexadecimal(n), 16) == n,
        hexadecimal(n).len() > 0,
        hexadecimal(n)[0] == '0' <==> n == 0,
        n == 0 ==> hexadecimal(n).len() == 1,
        forall|i: int|
            0 <= i < hexadecimal(n).len() ==> ('0' <= #[trigger] hexadecimal(n)[i] && hexadecimal(
                n,
            )[i] <= '9') || ('a' <= hexadecimal(n)[i] && hexadecimal(n)[i] <= 'f'),
    decreases n,
{
    let all = hexadecimal(n);
    if n >= 16 {
        law_hexadecimal_reads_back(n / 16);
        let front = hexadecimal(n / 16);
        assert(all.drop_last() =~= front);
        assert(all[0] == front[0]);
        assert forall|i: int| 0 <= i < all.len() implies ('0' <= #[trigger] all[i] && all[i] <= '9')
            || ('a' <= all[i] && all[i] <= 'f') by {
            if i < front.len() {
                assert(all[i] == front[i]);
            }
        }
    } else {
        assert(all.drop_last() =~= Seq::<char>::empty());
        assert(number_written(all.drop_last(), 16) == 0);
    }
}

/// Padding puts nothing but zeros in front, and exactly as many as are
/// missing.
pub proof fn law_padding_is_zeros(text: Seq<char>, width: nat)
    ensures
        ({
            let padded = zero_padded(text, width);
            let n = padded.len() - text.len();
            &&& padded.len() == (if text.len() >= width {
                text.len()
            } else {
                width
            })
            &&& padded.subrange(n, padded.len() as int) == text
            &&& forall|i: int| 0 <= i < n ==> #[trigger] padded[i] == '0'
        }),
{
    let padded = zero_padded(text, width);
    assert(padded.subrange(padded.len() - text.len(), padded.len() as int) =~= text);
}

/// A line in which these texts stand, in this order and apart from each
/// other.
pub open spec fn says(line: Seq<char>, parts: Seq<Seq<char>>) -> bool
    decreases parts.len(),
{
    parts.len() == 0 || exists|front: Seq<char>, rest: Seq<char>|
        {
            &&& line == #[trigger] (front + parts.last() + rest)
            &&& says(front, parts.drop_last())
        }
}

/// A line says what it said, and what is added to it.
pub proof fn lemma_says(front: Seq<char>, parts: Seq<Seq<char>>, part: Seq<char>, rest: Seq<char>)
    requires
        says(front, parts),
    ensures
        says(front + part + rest, parts.push(part)),
{
    let all = parts.push(part);
    assert(all.last() == part);
    assert(all.drop_last() =~= parts);
    assert(front + part + rest == front + all.last() + rest);
}

/// Texts are in the order of a dictionary: what they have in common at the
/// front does not count, then the character with the lower code comes first,
/// and a text comes before any that it is the beginning of.
pub proof fn law_texts_are_in_order(
    common: Seq<char>,
    a: Seq<char>,
    b: Seq<char>,
)
    requires
        b.len() > 0,
        a.len() > 0 ==> (a[0] as int) < b[0] as int,
    ensures
        text_before(common + a, common + b),
        !text_before(common + b, common + a),
    decreases common.len(),
{
    let x = common + a;
    let y = common + b;
    if common.len() == 0 {
        assert(x =~= a);
        assert(y =~= b);
    } else {
        let rest = common.drop_first();
        assert(x.drop_first() =~= rest + a);
        assert(y.drop_first() =~= rest + b);
        assert(x[0] == common[0] && y[0] == common[0]);
        law_texts_are_in_order(rest, a, b);
    }
}

} // verus!

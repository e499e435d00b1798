//! Character classes, UTF-8 byte offsets and the small string operations
//! that the scanners share.
use vstd::prelude::*;
use vstd::string::*;
use vstd::utf8::*;

verus! {

/// Whether `char::is_alphanumeric` holds of `c`.
pub uninterp spec fn alphanumeric(c: char) -> bool;

/// Whether `char::is_alphabetic` holds of `c`.
pub uninterp spec fn alphabetic(c: char) -> bool;

/// What `str::to_lowercase` makes of the characters `s`.
pub uninterp spec fn lowercase_of(s: Seq<char>) -> Seq<char>;

/// Relies on `char::is_alphanumeric`: Unicode Alphabetic or Numeric.
#[verifier::external_body]
pub(crate) fn is_alnum(c: char) -> (r: bool)
    ensures
        r == alphanumeric(c),
{
    c.is_alphanumeric()
}

/// Relies on `char::is_alphabetic`: Unicode Alphabetic.
#[verifier::external_body]
pub(crate) fn is_alpha(c: char) -> (r: bool)
    ensures
        r == alphabetic(c),
{
    c.is_alphabetic()
}

/// Relies on `str::to_lowercase`: the result depends on the characters alone.
#[verifier::external_body]
pub(crate) fn to_lower(s: &str) -> (r: String)
    ensures
        r@ == lowercase_of(s@),
{
    s.to_lowercase()
}

/// Relies on `String::push`: appends one character.
#[verifier::external_body]
pub(crate) fn push_char(s: &mut String, c: char)
    ensures
        final(s)@ == old(s)@.push(c),
{
    s.push(c)
}

/// Number of bytes in the UTF-8 encoding of `s`.
pub open spec fn byte_len(s: Seq<char>) -> nat {
    encode_utf8(s).len()
}

/// Byte offset of the character at index `i` of `s`.
pub open spec fn byte_offset(s: Seq<char>, i: int) -> nat {
    byte_len(s.take(i))
}

/// Encoding a concatenation encodes each part in turn.
pub proof fn lemma_encode_concat(a: Seq<char>, b: Seq<char>)
    ensures
        encode_utf8(a + b) == encode_utf8(a) + encode_utf8(b),
    decreases a.len(),
{
    if a.len() == 0 {
        assert(a + b =~= b);
        assert(encode_utf8(a) + encode_utf8(b) =~= encode_utf8(b));
    } else {
        assert((a + b).drop_first() =~= a.drop_first() + b);
        lemma_encode_concat(a.drop_first(), b);
        assert(encode_utf8(a + b) =~= encode_scalar(a[0] as u32) + encode_utf8(
            a.drop_first() + b,
        ));
    }
}

/// Extending a prefix by one character adds that character's width.
pub proof fn lemma_offset_step(s: Seq<char>, i: int)
    requires
        0 <= i < s.len(),
    ensures
        byte_offset(s, i + 1) == byte_offset(s, i) + encode_scalar(s[i] as u32).len(),
{
    assert(s.take(i + 1) =~= s.take(i) + seq![s[i]]);
    lemma_encode_concat(s.take(i), seq![s[i]]);
    let one = seq![s[i]];
    assert(one.drop_first() =~= Seq::<char>::empty());
    assert(encode_utf8(one.drop_first()) =~= Seq::<u8>::empty());
    assert(encode_utf8(one) == encode_scalar(one[0] as u32) + encode_utf8(one.drop_first()));
    assert(encode_utf8(one) =~= encode_scalar(s[i] as u32));
}

/// Byte offsets never decrease and stay within the encoding.
pub proof fn lemma_offset_mono(s: Seq<char>, i: int, j: int)
    requires
        0 <= i <= j <= s.len(),
    ensures
        byte_offset(s, i) <= byte_offset(s, j) <= byte_len(s),
        byte_offset(s, i) == byte_offset(s, j) ==> i == j,
{
    assert(s.take(j) =~= s.take(i) + s.subrange(i, j));
    lemma_encode_concat(s.take(i), s.subrange(i, j));
    assert(s =~= s.take(j) + s.subrange(j, s.len() as int));
    lemma_encode_concat(s.take(j), s.subrange(j, s.len() as int));
    assert(s.take(s.len() as int) =~= s);
    if i < j {
        let t = s.subrange(i, j);
        assert(t.len() > 0);
        char_is_scalar(t[0]);
        assert(encode_utf8(t).len() >= encode_scalar(t[0] as u32).len());
    }
}

/// The bytes between two character offsets encode the characters between them.
pub proof fn lemma_slice_bytes(s: Seq<char>, i: int, j: int)
    requires
        0 <= i <= j <= s.len(),
    ensures
        encode_utf8(s).subrange(byte_offset(s, i) as int, byte_offset(s, j) as int)
            == encode_utf8(s.subrange(i, j)),
{
    assert(s.take(j) =~= s.take(i) + s.subrange(i, j));
    lemma_encode_concat(s.take(i), s.subrange(i, j));
    assert(s =~= s.take(j) + s.subrange(j, s.len() as int));
    lemma_encode_concat(s.take(j), s.subrange(j, s.len() as int));
    assert(encode_utf8(s).subrange(byte_offset(s, i) as int, byte_offset(s, j) as int)
        =~= encode_utf8(s.subrange(i, j)));
}

/// Number of bytes in the UTF-8 encoding of `s`.
pub fn byte_count(s: &str) -> (r: usize)
    ensures
        r == byte_len(s@),
{
    let b = s.as_bytes();
    b.len()
}

/// Width in bytes of the UTF-8 encoding of `c`.
pub fn char_width(c: char) -> (r: usize)
    ensures
        r == encode_scalar(c as u32).len(),
        1 <= r <= 4,
{
    proof {
        char_is_scalar(c);
    }
    let v = c as u32;
    if v <= 0x7F {
        1
    } else if v <= 0x7FF {
        2
    } else if v <= 0xFFFF {
        3
    } else {
        4
    }
}

/// The characters of `s`, one per element.
pub fn chars_of(s: &str) -> (r: Vec<char>)
    ensures
        r@ == s@,
{
    let mut out: Vec<char> = Vec::new();
    for c in it: s.chars()
        invariant
            it.seq() == s@,
            out@ == it.seq().take(it.index() as int),
    {
        out.push(c);
        assert(out@ =~= it.seq().take(it.index() as int + 1));
    }
    assert(out@ =~= s@);
    out
}

/// `s` ended by a newline: unchanged when it already ends with one.
pub open spec fn newline_ended(s: Seq<char>) -> Seq<char> {
    if s.len() > 0 && s.last() == '\n' {
        s
    } else {
        s.push('\n')
    }
}

/// A text made ready for scanning: folded to lower case on request, and
/// ended by a newline, which is appended only where it is missing.
pub open spec fn prepared(raw: Seq<char>, lowercase: bool) -> Seq<char> {
    newline_ended(if lowercase {
        lowercase_of(raw)
    } else {
        raw
    })
}

/// Folds `raw` to lower case when asked, then appends a closing newline if
/// the text does not already end with one.
pub fn prepare_text(raw: &str, lowercase: bool) -> (r: String)
    ensures
        r@ == prepared(raw@, lowercase),
{
    let mut text = if lowercase {
        to_lower(raw)
    } else {
        raw.to_owned()
    };
    let chars = chars_of(text.as_str());
    let n = chars.len();
    if n == 0 || chars[n - 1] != '\n' {
        push_char(&mut text, '\n');
    }
    text
}

/// A prepared text ends with a newline, so preparing it again without
/// folding leaves it as it is.
pub proof fn lemma_prepare_settles(raw: Seq<char>, lowercase: bool)
    ensures
        prepared(prepared(raw, lowercase), false) == prepared(raw, lowercase),
{
}

/// A span of the text offered for lookup: its characters and the byte
/// offsets where it begins and ends.
pub struct Candidate {
    pub text: String,
    pub begin: usize,
    pub end: usize,
}

impl View for Candidate {
    type V = (Seq<char>, int, int);

    open spec fn view(&self) -> (Seq<char>, int, int) {
        (self.text@, self.begin as int, self.end as int)
    }
}

/// The views of a sequence of candidates.
pub open spec fn candidates_view(v: Seq<Candidate>) -> Seq<(Seq<char>, int, int)> {
    v.map_values(|c: Candidate| c@)
}

/// The candidate that covers characters `a` up to `b` of `s`.
pub open spec fn span_of(s: Seq<char>, a: int, b: int) -> (Seq<char>, int, int) {
    (s.subrange(a, b), byte_offset(s, a) as int, byte_offset(s, b) as int)
}

} // verus!

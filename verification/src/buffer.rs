//! Places in a buffer, counted in bytes, and edits to it.
use crate::text::lemma_encode_utf8_concat;
use vstd::prelude::*;
use vstd::string::*;
use vstd::utf8::*;

verus! {

/// The number of bytes that a text takes.
pub open spec fn byte_len(s: Seq<char>) -> int {
    encode_utf8(s).len() as int
}

/// A character of the text begins at the byte, or the text ends there.
pub open spec fn is_boundary(s: Seq<char>, offset: int) -> bool {
    is_char_boundary(encode_utf8(s), offset)
}

/// The text before a byte.
pub open spec fn text_to(s: Seq<char>, offset: int) -> Seq<char> {
    decode_utf8(encode_utf8(s).take(offset))
}

/// The text from a byte on.
pub open spec fn text_from(s: Seq<char>, offset: int) -> Seq<char> {
    decode_utf8(encode_utf8(s).skip(offset))
}

/// The text between two bytes.
pub open spec fn text_between(s: Seq<char>, start: int, end: int) -> Seq<char> {
    text_from(text_to(s, end), start)
}

/// The bytes of two texts are one after the other in the text made of both.
pub proof fn lemma_byte_len_concat(a: Seq<char>, b: Seq<char>)
    ensures
        byte_len(a + b) == byte_len(a) + byte_len(b),
        text_to(a + b, byte_len(a)) == a,
        text_from(a + b, byte_len(a)) == b,
{
    lemma_encode_utf8_concat(a, b);
    assert(encode_utf8(a + b).take(byte_len(a)) == encode_utf8(a));
    assert(encode_utf8(a + b).skip(byte_len(a)) == encode_utf8(b));
    encode_utf8_decode_utf8(a);
    encode_utf8_decode_utf8(b);
}

/// Cutting a text at a boundary gives two texts that make it up.
pub proof fn lemma_cut(s: Seq<char>, offset: int)
    requires
        is_boundary(s, offset),
    ensures
        s == text_to(s, offset) + text_from(s, offset),
        byte_len(text_to(s, offset)) == offset,
{
    let bytes = encode_utf8(s);
    encode_utf8_valid_utf8(s);
    valid_utf8_split(bytes, offset);
    let a = bytes.take(offset);
    let b = bytes.skip(offset);
    assert(a == bytes.subrange(0, offset));
    assert(b == bytes.subrange(offset, bytes.len() as int));
    decode_utf8_encode_utf8(a);
    decode_utf8_encode_utf8(b);
    lemma_encode_utf8_concat(decode_utf8(a), decode_utf8(b));
    assert(a + b == bytes);
    encode_utf8_decode_utf8(s);
    encode_utf8_decode_utf8(decode_utf8(a) + decode_utf8(b));
}

/// The two parts of a text at a byte.
pub fn cut(s: &str, offset: usize) -> (r: (&str, &str))
    requires
        is_boundary(s@, offset as int),
    ensures
        r.0@ == text_to(s@, offset as int),
        r.1@ == text_from(s@, offset as int),
        s@ == r.0@ + r.1@,
        byte_len(r.0@) == offset,
{
    let r = s.split_at(offset);
    proof {
        lemma_cut(s@, offset as int);
        let bytes = encode_utf8(s@);
        assert(bytes.take(offset as int) == bytes.subrange(0, offset as int));
        assert(bytes.skip(offset as int) == bytes.subrange(offset as int, bytes.len() as int));
        encode_utf8_decode_utf8(r.0@);
        encode_utf8_decode_utf8(r.1@);
    }
    r
}

/// The text between two bytes of a text.
pub fn slice(s: &str, start: usize, end: usize) -> (r: &str)
    requires
        start <= end,
        is_boundary(s@, end as int),
        is_boundary(text_to(s@, end as int), start as int),
    ensures
        r@ == text_between(s@, start as int, end as int),
{
    cut(cut(s, end).0, start).1
}

/// The first characters of a text.
pub fn head(s: &str, n: usize) -> (r: &str)
    requires
        n <= s@.len(),
    ensures
        r@ == s@.take(n as int),
{
    s.substring_char(0, n)
}

/// A text without its first characters.
pub fn tail(s: &str, n: usize) -> (r: &str)
    requires
        n <= s@.len(),
    ensures
        r@ == s@.skip(n as int),
{
    let len = s.unicode_len();
    s.substring_char(n, len)
}

/// The text between two bytes of a buffer is replaced by another.
#[derive(Debug)]
pub struct TextEdit {
    pub start: usize,
    pub end: usize,
    pub text: String,
}

impl TextEdit {
    /// The edit replaces what stands between the two bytes by the text.
    pub open spec fn is(self, start: int, end: int, text: Seq<char>) -> bool {
        self.start == start && self.end == end && self.text@ == text
    }
}

impl View for TextEdit {
    type V = (int, int, Seq<char>);

    /// The two bytes, and the text put between them.
    open spec fn view(&self) -> (int, int, Seq<char>) {
        (self.start as int, self.end as int, self.text@)
    }
}

/// What several edits do, each to the buffer that those before it left.
pub open spec fn edit_views(edits: Seq<TextEdit>) -> Seq<(int, int, Seq<char>)> {
    edits.map_values(|e: TextEdit| e@)
}

/// A buffer after an edit.
pub open spec fn edited(s: Seq<char>, start: int, end: int, text: Seq<char>) -> Seq<char> {
    text_to(s, start) + text + text_from(s, end)
}

/// A buffer after several edits, each to what those before it left.
pub open spec fn edited_by(s: Seq<char>, edits: Seq<(int, int, Seq<char>)>) -> Seq<char>
    decreases edits.len(),
{
    if edits.len() == 0 {
        s
    } else {
        let edit = edits.last();
        edited(edited_by(s, edits.drop_last()), edit.0, edit.1, edit.2)
    }
}

/// One more edit is made to what those before it left.
pub proof fn lemma_edited_by(
    s: Seq<char>,
    edits: Seq<(int, int, Seq<char>)>,
    edit: (int, int, Seq<char>),
)
    ensures
        edited_by(s, edits.push(edit)) == edited(edited_by(s, edits), edit.0, edit.1, edit.2),
        edited_by(s, Seq::empty()) == s,
{
    assert(edits.push(edit).drop_last() == edits);
}

/// An edit from the end of one part of a buffer to the end of the next replaces that part.
pub proof fn lemma_edited(a: Seq<char>, b: Seq<char>, c: Seq<char>, text: Seq<char>)
    ensures
        edited(a + b + c, byte_len(a), byte_len(a + b), text) == a + text + c,
        byte_len(a + b) == byte_len(a) + byte_len(b),
{
    lemma_byte_len_concat(a + b, c);
    lemma_byte_len_concat(a, b + c);
    lemma_byte_len_concat(a, b);
    assert(a + b + c == a + (b + c));
}

/// A character takes at most four bytes.
pub proof fn lemma_byte_len_bound(s: Seq<char>)
    ensures
        byte_len(s) <= 4 * s.len(),
    decreases s.len(),
{
    if s.len() > 0 {
        lemma_byte_len_bound(s.drop_first());
        char_is_scalar(s[0]);
    }
}

/// The bytes of a prefix are among those of the text.
pub proof fn lemma_byte_len_take(s: Seq<char>, n: int)
    requires
        0 <= n <= s.len(),
    ensures
        0 <= byte_len(s.take(n)) <= byte_len(s),
{
    lemma_byte_len_concat(s.take(n), s.skip(n));
    assert(s.take(n) + s.skip(n) == s);
}

} // verus!

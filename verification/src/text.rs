//! Operations on text, specified over sequences of characters.
use vstd::prelude::*;
use vstd::string::*;
use vstd::utf8::*;

verus! {

/// Appends one character to a string.
pub assume_specification[ String::push ](s: &mut String, c: char)
    ensures
        final(s)@ == old(s)@.push(c),
;

/// The characters of a string, in order.
pub fn chars_of(s: &str) -> (r: Vec<char>)
    ensures
        r@ == s@,
{
    let mut r: Vec<char> = Vec::new();
    for c in it: s.chars()
        invariant
            it.seq() == s@,
            r@ == s@.take(it.index()),
    {
        assert(s@.take(it.index() + 1) == s@.take(it.index()).push(c));
        r.push(c);
    }
    assert(s@.take(s@.len() as int) == s@);
    r
}

/// The string made of the characters `chars[from..to]`.
pub fn string_of(chars: &[char], from: usize, to: usize) -> (r: String)
    requires
        from <= to <= chars@.len(),
    ensures
        r@ == chars@.subrange(from as int, to as int),
{
    let mut r = String::new();
    let mut i: usize = from;
    while i < to
        invariant
            from <= i <= to <= chars@.len(),
            r@ == chars@.subrange(from as int, i as int),
        decreases to - i,
    {
        r.push(chars[i]);
        assert(chars@.subrange(from as int, i + 1) == chars@.subrange(from as int, i as int).push(chars@[i as int]));
        i += 1;
    }
    r
}

/// Whether two strings hold the same characters.
pub fn same_text(a: &str, b: &str) -> (r: bool)
    ensures
        r == (a@ == b@),
{
    a.to_owned() == b.to_owned()
}

/// The number of bytes that a string takes in UTF-8.
pub fn utf8_len(s: &str) -> (n: usize)
    ensures
        n == encode_utf8(s@).len(),
{
    s.as_bytes().len()
}

/// Encoding a concatenation is concatenating the encodings.
pub proof fn lemma_encode_utf8_concat(a: Seq<char>, b: Seq<char>)
    ensures
        encode_utf8(a + b) == encode_utf8(a) + encode_utf8(b),
    decreases a.len(),
{
    if a.len() == 0 {
        assert(a + b == b);
        assert(encode_utf8(a) == Seq::<u8>::empty());
    } else {
        lemma_encode_utf8_concat(a.drop_first(), b);
        assert((a + b).drop_first() == a.drop_first() + b);
        assert((a + b).first() == a.first());
        assert(encode_utf8(a + b) == encode_utf8(a) + encode_utf8(b));
    }
}

// ---------------------------------------------------------------------------
// Searching
// ---------------------------------------------------------------------------

/// `pat` stands in `s` at position `i`.
pub open spec fn occurs_at(s: Seq<char>, pat: Seq<char>, i: int) -> bool {
    &&& 0 <= i
    &&& i + pat.len() <= s.len()
    &&& s.subrange(i, i + pat.len()) == pat
}

/// `pat` stands somewhere in `s`.
pub open spec fn contains(s: Seq<char>, pat: Seq<char>) -> bool {
    exists|i: int| occurs_at(s, pat, i)
}

/// The first position, from `i` on, at which `pat` stands in `s`.
pub open spec fn find_from(s: Seq<char>, pat: Seq<char>, i: int) -> Option<int>
    decreases s.len() - i,
{
    if i < 0 || i + pat.len() > s.len() {
        None
    } else if occurs_at(s, pat, i) {
        Some(i)
    } else if i == s.len() {
        None
    } else {
        find_from(s, pat, i + 1)
    }
}

/// The first position at which `pat` stands in `s`.
pub open spec fn find(s: Seq<char>, pat: Seq<char>) -> Option<int> {
    find_from(s, pat, 0)
}

/// The last position, up to `i`, at which `pat` stands in `s`.
pub open spec fn rfind_to(s: Seq<char>, pat: Seq<char>, i: int) -> Option<int>
    decreases i + 1,
{
    if i < 0 {
        None
    } else if occurs_at(s, pat, i) {
        Some(i)
    } else {
        rfind_to(s, pat, i - 1)
    }
}

/// The last position at which `pat` stands in `s`.
pub open spec fn rfind(s: Seq<char>, pat: Seq<char>) -> Option<int> {
    rfind_to(s, pat, s.len() - pat.len())
}

/// What `find_from` gives is the least position at which the pattern stands.
pub proof fn lemma_find_from(s: Seq<char>, pat: Seq<char>, i: int)
    requires
        0 <= i,
    ensures
        match find_from(s, pat, i) {
            Some(k) => i <= k && occurs_at(s, pat, k) && (forall|j: int|
                i <= j < k ==> !occurs_at(s, pat, j)),
            None => forall|j: int| i <= j ==> !occurs_at(s, pat, j),
        },
    decreases s.len() - i,
{
    if i + pat.len() > s.len() {
    } else if occurs_at(s, pat, i) {
    } else if i == s.len() {
    } else {
        lemma_find_from(s, pat, i + 1);
    }
}

/// A pattern is found exactly where it first stands.
pub proof fn lemma_find(s: Seq<char>, pat: Seq<char>)
    ensures
        find(s, pat) is Some <==> contains(s, pat),
        match find(s, pat) {
            Some(k) => occurs_at(s, pat, k) && (forall|j: int|
                0 <= j < k ==> !occurs_at(s, pat, j)),
            None => forall|j: int| !occurs_at(s, pat, j),
        },
{
    lemma_find_from(s, pat, 0);
    if find(s, pat) is None && contains(s, pat) {
        let i = choose|i: int| occurs_at(s, pat, i);
        assert(false);
    }
}

/// Where a pattern stands and does not stand before, it is found.
pub proof fn lemma_find_is(s: Seq<char>, pat: Seq<char>, i: int)
    requires
        occurs_at(s, pat, i),
        forall|j: int| 0 <= j < i ==> !occurs_at(s, pat, j),
    ensures
        find(s, pat) == Some(i),
{
    lemma_find(s, pat);
}

/// What `rfind_to` gives is the greatest position at which the pattern stands.
pub proof fn lemma_rfind_to(s: Seq<char>, pat: Seq<char>, i: int)
    ensures
        match rfind_to(s, pat, i) {
            Some(k) => k <= i && occurs_at(s, pat, k) && (forall|j: int|
                k < j <= i ==> !occurs_at(s, pat, j)),
            None => forall|j: int| j <= i ==> !occurs_at(s, pat, j),
        },
    decreases i + 1,
{
    if i < 0 {
    } else if occurs_at(s, pat, i) {
    } else {
        lemma_rfind_to(s, pat, i - 1);
    }
}

/// A pattern is found from the end exactly where it last stands.
pub proof fn lemma_rfind(s: Seq<char>, pat: Seq<char>)
    ensures
        match rfind(s, pat) {
            Some(k) => occurs_at(s, pat, k) && (forall|j: int|
                k < j ==> !occurs_at(s, pat, j)),
            None => forall|j: int| !occurs_at(s, pat, j),
        },
{
    lemma_rfind_to(s, pat, s.len() - pat.len());
}

/// The position at which a pattern of one character stands is where that character is.
pub proof fn lemma_occurs_char(s: Seq<char>, c: char, i: int)
    ensures
        occurs_at(s, seq![c], i) <==> 0 <= i < s.len() && s[i] == c,
{
    if 0 <= i < s.len() {
        assert(s.subrange(i, i + 1) == seq![s[i]]);
        if s[i] != c {
            assert(seq![s[i]][0] != seq![c][0]);
        }
    }
}

fn matches_at(s: &[char], pat: &[char], i: usize) -> (r: bool)
    requires
        i + pat@.len() <= s@.len(),
    ensures
        r == occurs_at(s@, pat@, i as int),
{
    let n = s.len();
    let mut k: usize = 0;
    while k < pat.len()
        invariant
            n == s@.len(),
            i + pat@.len() <= n,
            k <= pat@.len(),
            forall|j: int| 0 <= j < k ==> s@[i + j] == pat@[j],
        decreases pat@.len() - k,
    {
        if s[i + k] != pat[k] {
            assert(s@.subrange(i as int, i + pat@.len())[k as int] != pat@[k as int]);
            return false;
        }
        k += 1;
    }
    assert(s@.subrange(i as int, i + pat@.len()) == pat@);
    true
}

/// The first position (counted in characters) at which `pat` stands in `s`.
pub fn find_text(s: &str, pat: &str) -> (r: Option<usize>)
    ensures
        match r {
            Some(i) => find(s@, pat@) == Some(i as int),
            None => find(s@, pat@) is None,
        },
        r matches Some(i) ==> i + pat@.len() <= s@.len(),
{
    let cs = chars_of(s);
    let ps = chars_of(pat);
    let n = cs.len();
    let m = ps.len();
    if m > n {
        return None;
    }
    let mut i: usize = 0;
    while i <= n - m
        invariant
            cs@ == s@,
            ps@ == pat@,
            n == cs@.len(),
            m == ps@.len(),
            m <= n,
            i <= n - m + 1,
            find(s@, pat@) == find_from(s@, pat@, i as int),
        decreases n - i + 1,
    {
        if matches_at(cs.as_slice(), ps.as_slice(), i) {
            return Some(i);
        }
        if i == n {
            return None;
        }
        i += 1;
    }
    None
}

/// The last position (counted in characters) at which `pat` stands in `s`.
pub fn rfind_text(s: &str, pat: &str) -> (r: Option<usize>)
    ensures
        match r {
            Some(i) => rfind(s@, pat@) == Some(i as int),
            None => rfind(s@, pat@) is None,
        },
        r matches Some(i) ==> i + pat@.len() <= s@.len(),
{
    let cs = chars_of(s);
    let ps = chars_of(pat);
    let n = cs.len();
    let m = ps.len();
    if m > n {
        return None;
    }
    let mut i: usize = n - m;
    loop
        invariant
            cs@ == s@,
            ps@ == pat@,
            n == cs@.len(),
            m == ps@.len(),
            m <= n,
            i <= n - m,
            rfind(s@, pat@) == rfind_to(s@, pat@, i as int),
        decreases i,
    {
        if matches_at(cs.as_slice(), ps.as_slice(), i) {
            return Some(i);
        }
        if i == 0 {
            assert(rfind_to(s@, pat@, -1) is None);
            return None;
        }
        i -= 1;
    }
}

/// Whether `pat` stands somewhere in `s`.
pub fn contains_text(s: &str, pat: &str) -> (r: bool)
    ensures
        r == contains(s@, pat@),
{
    proof {
        lemma_find(s@, pat@);
    }
    find_text(s, pat).is_some()
}

/// `s` begins with `pat`.
pub open spec fn starts_with(s: Seq<char>, pat: Seq<char>) -> bool {
    occurs_at(s, pat, 0)
}

/// Whether `s` begins with `pat`.
pub fn starts_with_text(s: &str, pat: &str) -> (r: bool)
    ensures
        r == starts_with(s@, pat@),
{
    let cs = chars_of(s);
    let ps = chars_of(pat);
    if ps.len() > cs.len() {
        return false;
    }
    matches_at(cs.as_slice(), ps.as_slice(), 0)
}

// ---------------------------------------------------------------------------
// Characters and trimming
// ---------------------------------------------------------------------------

/// Unicode's `White_Space` property.
pub open spec fn is_space(c: char) -> bool {
    ||| '\u{9}' <= c <= '\u{d}'
    ||| c == ' '
    ||| c == '\u{85}'
    ||| c == '\u{a0}'
    ||| c == '\u{1680}'
    ||| '\u{2000}' <= c <= '\u{200a}'
    ||| c == '\u{2028}'
    ||| c == '\u{2029}'
    ||| c == '\u{202f}'
    ||| c == '\u{205f}'
    ||| c == '\u{3000}'
}

/// Whether a character is white space.
pub fn char_is_space(c: char) -> (r: bool)
    ensures
        r == is_space(c),
{
    ('\u{9}' <= c && c <= '\u{d}') || c == ' ' || c == '\u{85}' || c == '\u{a0}' || c == '\u{1680}'
        || ('\u{2000}' <= c && c <= '\u{200a}') || c == '\u{2028}' || c == '\u{2029}' || c
        == '\u{202f}' || c == '\u{205f}' || c == '\u{3000}'
}

/// What `char::is_alphanumeric` answers: whether Unicode counts the character among the
/// alphabetic or the numeric ones.
pub uninterp spec fn alphanumeric(c: char) -> bool;

/// `char::is_alphanumeric`. Its answer is the named one; of the ASCII characters the letters and
/// the digits are alphanumeric and no others.
pub assume_specification[ char::is_alphanumeric ](c: char) -> (r: bool)
    ensures
        r == alphanumeric(c),
        c <= '\u{7f}' ==> r == ('0' <= c <= '9' || 'A' <= c <= 'Z' || 'a' <= c <= 'z'),
;

/// What `str::to_lowercase` makes of a text.
pub uninterp spec fn lowercase(s: Seq<char>) -> Seq<char>;

/// `str::to_lowercase`: the lowercase equivalent of the string, under its name.
pub assume_specification[ str::to_lowercase ](s: &str) -> (r: String)
    ensures
        r@ == lowercase(s@),
;

/// The sets of characters that texts are trimmed of.
#[derive(Clone, Copy)]
pub enum CharClass {
    /// White space.
    Space,
    /// Everything that cannot stand in a hashtag: not alphanumeric, not `-`, not `_`.
    NotTag,
    /// The colon.
    Colon,
    /// The star.
    Star,
    /// The number sign.
    Hash,
}

impl CharClass {
    /// The class holds the character.
    pub open spec fn holds(self, c: char) -> bool {
        match self {
            CharClass::Space => is_space(c),
            CharClass::NotTag => !alphanumeric(c) && c != '-' && c != '_',
            CharClass::Colon => c == ':',
            CharClass::Star => c == '*',
            CharClass::Hash => c == '#',
        }
    }

    /// Whether the class holds the character.
    pub fn has(self, c: char) -> (r: bool)
        ensures
            r == self.holds(c),
    {
        match self {
            CharClass::Space => char_is_space(c),
            CharClass::NotTag => !c.is_alphanumeric() && c != '-' && c != '_',
            CharClass::Colon => c == ':',
            CharClass::Star => c == '*',
            CharClass::Hash => c == '#',
        }
    }
}

/// `s` without the characters of the class at its beginning.
pub open spec fn trim_start(s: Seq<char>, class: CharClass) -> Seq<char>
    decreases s.len(),
{
    if s.len() > 0 && class.holds(s[0]) {
        trim_start(s.skip(1), class)
    } else {
        s
    }
}

/// `s` without the characters of the class at its end.
pub open spec fn trim_end(s: Seq<char>, class: CharClass) -> Seq<char>
    decreases s.len(),
{
    if s.len() > 0 && class.holds(s.last()) {
        trim_end(s.drop_last(), class)
    } else {
        s
    }
}

/// `s` without the characters of the class at its two ends.
pub open spec fn trim(s: Seq<char>, class: CharClass) -> Seq<char> {
    trim_end(trim_start(s, class), class)
}

/// The text without the characters of the class at its beginning.
pub fn trim_start_of(s: &str, class: CharClass) -> (r: &str)
    ensures
        r@ == trim_start(s@, class),
{
    let cs = chars_of(s);
    let n = cs.len();
    let mut i: usize = 0;
    assert(s@.skip(0) == s@);
    while i < n && class.has(cs[i])
        invariant
            cs@ == s@,
            n == cs@.len(),
            i <= n,
            trim_start(s@, class) == trim_start(s@.skip(i as int), class),
        decreases n - i,
    {
        assert(s@.skip(i as int).skip(1) == s@.skip(i + 1));
        i += 1;
    }
    assert(s@.subrange(i as int, n as int) == s@.skip(i as int));
    s.substring_char(i, n)
}

/// The text without the characters of the class at its end.
pub fn trim_end_of(s: &str, class: CharClass) -> (r: &str)
    ensures
        r@ == trim_end(s@, class),
{
    let cs = chars_of(s);
    let mut n: usize = cs.len();
    assert(s@.take(n as int) == s@);
    while n > 0 && class.has(cs[n - 1])
        invariant
            cs@ == s@,
            n <= cs@.len(),
            trim_end(s@, class) == trim_end(s@.take(n as int), class),
        decreases n,
    {
        assert(s@.take(n as int).drop_last() == s@.take(n - 1));
        n -= 1;
    }
    assert(s@.subrange(0, n as int) == s@.take(n as int));
    s.substring_char(0, n)
}

/// The text without the characters of the class at its two ends.
pub fn trim_of(s: &str, class: CharClass) -> (r: &str)
    ensures
        r@ == trim(s@, class),
{
    trim_end_of(trim_start_of(s, class), class)
}

/// The text with every `suffix` at its end taken off.
pub open spec fn trim_end_matches(s: Seq<char>, suffix: Seq<char>) -> Seq<char>
    decreases s.len(),
{
    if suffix.len() > 0 && occurs_at(s, suffix, s.len() - suffix.len()) {
        trim_end_matches(s.take(s.len() - suffix.len()), suffix)
    } else {
        s
    }
}

/// The text with every `suffix` at its end taken off.
pub fn trim_end_matches_of(s: &str, suffix: &str) -> (r: String)
    ensures
        r@ == trim_end_matches(s@, suffix@),
{
    let cs = chars_of(s);
    let ps = chars_of(suffix);
    let m = ps.len();
    let mut n: usize = cs.len();
    assert(s@.take(n as int) == s@);
    loop
        invariant
            cs@ == s@,
            ps@ == suffix@,
            m == ps@.len(),
            n <= cs@.len(),
            trim_end_matches(s@, suffix@) == trim_end_matches(s@.take(n as int), suffix@),
        ensures
            trim_end_matches(s@, suffix@) == s@.take(n as int),
        decreases n,
    {
        if m == 0 || m > n {
            break;
        }
        assert(s@.take(n as int).subrange(n - m, n as int) == s@.subrange(n - m, n as int));
        if !matches_at(cs.as_slice(), ps.as_slice(), n - m) {
            break;
        }
        assert(s@.take(n as int).take(n - m) == s@.take(n - m));
        n -= m;
    }
    assert(s@.take(n as int) == cs@.subrange(0, n as int));
    string_of(cs.as_slice(), 0, n)
}

// ---------------------------------------------------------------------------
// Splitting and joining
// ---------------------------------------------------------------------------

/// The first position of a character.
pub open spec fn index_of(s: Seq<char>, c: char) -> Option<int> {
    find(s, seq![c])
}

/// The pieces of `s` between the occurrences of `sep`.
pub open spec fn split(s: Seq<char>, sep: char) -> Seq<Seq<char>>
    decreases s.len(),
{
    match index_of(s, sep) {
        Some(i) => if 0 <= i < s.len() {
            seq![s.take(i)] + split(s.skip(i + 1), sep)
        } else {
            seq![s]
        },
        None => seq![s],
    }
}

/// A line without the carriage return that ends it.
pub open spec fn without_cr(s: Seq<char>) -> Seq<char> {
    if s.len() > 0 && s.last() == '\r' {
        s.drop_last()
    } else {
        s
    }
}

/// The lines of `s`: a line ends at a line feed, which a carriage return may precede; what
/// follows the last line feed is a line if it is not empty.
pub open spec fn lines(s: Seq<char>) -> Seq<Seq<char>>
    decreases s.len(),
{
    if s.len() == 0 {
        Seq::empty()
    } else {
        match index_of(s, '\n') {
            Some(i) => if 0 <= i < s.len() {
                seq![without_cr(s.take(i))] + lines(s.skip(i + 1))
            } else {
                seq![s]
            },
            None => seq![s],
        }
    }
}

/// The number of characters before the first white space.
pub open spec fn word_len(s: Seq<char>) -> int
    decreases s.len(),
{
    if s.len() > 0 && !is_space(s[0]) {
        1 + word_len(s.skip(1))
    } else {
        0
    }
}

/// The number of white space characters at the beginning.
pub open spec fn space_len(s: Seq<char>) -> int
    decreases s.len(),
{
    if s.len() > 0 && is_space(s[0]) {
        1 + space_len(s.skip(1))
    } else {
        0
    }
}

/// `word_len` counts within the text.
pub proof fn lemma_word_len(s: Seq<char>)
    ensures
        0 <= word_len(s) <= s.len(),
        forall|j: int| 0 <= j < word_len(s) ==> !is_space(#[trigger] s[j]),
        word_len(s) < s.len() ==> is_space(s[word_len(s)]),
    decreases s.len(),
{
    if s.len() > 0 && !is_space(s[0]) {
        lemma_word_len(s.skip(1));
        assert forall|j: int| 0 <= j < word_len(s) implies !is_space(#[trigger] s[j]) by {
            if j > 0 {
                assert(s[j] == s.skip(1)[j - 1]);
            }
        }
    }
}

/// `space_len` counts within the text.
pub proof fn lemma_space_len(s: Seq<char>)
    ensures
        0 <= space_len(s) <= s.len(),
        forall|j: int| 0 <= j < space_len(s) ==> is_space(#[trigger] s[j]),
        space_len(s) < s.len() ==> !is_space(s[space_len(s)]),
    decreases s.len(),
{
    if s.len() > 0 && is_space(s[0]) {
        lemma_space_len(s.skip(1));
        assert forall|j: int| 0 <= j < space_len(s) implies is_space(#[trigger] s[j]) by {
            if j > 0 {
                assert(s[j] == s.skip(1)[j - 1]);
            }
        }
    }
}

/// The words of `s`: its longest pieces without white space.
pub open spec fn words(s: Seq<char>) -> Seq<Seq<char>>
    decreases s.len(),
{
    let t = s.skip(space_len(s));
    if 0 <= space_len(s) <= s.len() && 0 < word_len(t) <= t.len() {
        seq![t.take(word_len(t))] + words(t.skip(word_len(t)))
    } else {
        Seq::empty()
    }
}

/// The pieces, with `sep` between them.
pub open spec fn join(parts: Seq<Seq<char>>, sep: Seq<char>) -> Seq<char>
    decreases parts.len(),
{
    if parts.len() == 0 {
        Seq::empty()
    } else if parts.len() == 1 {
        parts[0]
    } else {
        join(parts.drop_last(), sep) + sep + parts.last()
    }
}

/// `s` with each occurrence of `from`, from the left and without overlap, replaced by `to`.
pub open spec fn replace(s: Seq<char>, from: Seq<char>, to: Seq<char>) -> Seq<char>
    decreases s.len(),
{
    match find(s, from) {
        Some(i) => if from.len() > 0 && 0 <= i && i + from.len() <= s.len() {
            s.take(i) + to + replace(s.skip(i + from.len()), from, to)
        } else {
            s
        },
        None => s,
    }
}

/// The characters of each string.
pub open spec fn texts(v: Seq<String>) -> Seq<Seq<char>> {
    Seq::new(v.len(), |i: int| v[i]@)
}

/// Pushing a string pushes its characters.
pub proof fn lemma_texts_push(v: Seq<String>, s: String)
    ensures
        texts(v.push(s)) == texts(v).push(s@),
{
    assert(texts(v.push(s)) =~= texts(v).push(s@));
}

/// The pieces of `s` between the occurrences of `sep`.
pub fn split_text(s: &str, sep: char) -> (r: Vec<String>)
    ensures
        texts(r@) == split(s@, sep),
{
    let cs = chars_of(s);
    let n = cs.len();
    let mut r: Vec<String> = Vec::new();
    let mut from: usize = 0;
    let mut i: usize = 0;
    assert(s@.skip(0) == s@);
    assert(texts(r@) + split(s@.skip(0), sep) == split(s@, sep));
    while i < n
        invariant
            cs@ == s@,
            n == cs@.len(),
            from <= i <= n,
            forall|j: int| from <= j < i ==> s@[j] != sep,
            texts(r@) + split(s@.skip(from as int), sep) == split(s@, sep),
        decreases n - i,
    {
        if cs[i] == sep {
            let piece = string_of(cs.as_slice(), from, i);
            proof {
                let rest = s@.skip(from as int);
                lemma_index_of(rest, sep, i - from);
                assert(rest.take(i - from) == piece@);
                assert(rest.skip(i - from + 1) == s@.skip(i + 1));
                lemma_texts_push(r@, piece);
                assert(texts(r@) + (seq![piece@] + split(s@.skip(i + 1), sep)) == texts(r@).push(piece@)
                    + split(s@.skip(i + 1), sep));
            }
            r.push(piece);
            from = i + 1;
        }
        i += 1;
    }
    let piece = string_of(cs.as_slice(), from, n);
    proof {
        let rest = s@.skip(from as int);
        assert forall|j: int| 0 <= j < rest.len() implies rest[j] != sep by {
            assert(rest[j] == s@[from + j]);
        }
        lemma_index_of_none(rest, sep);
        assert(rest == piece@);
        lemma_texts_push(r@, piece);
        assert(texts(r@) + seq![piece@] == texts(r@).push(piece@));
    }
    r.push(piece);
    r
}

/// A character is first at `i` if it is there and nowhere before.
pub proof fn lemma_index_of(s: Seq<char>, c: char, i: int)
    requires
        0 <= i < s.len(),
        s[i] == c,
        forall|j: int| 0 <= j < i ==> s[j] != c,
    ensures
        index_of(s, c) == Some(i),
{
    lemma_find(s, seq![c]);
    lemma_occurs_char(s, c, i);
    let k = index_of(s, c)->0;
    lemma_occurs_char(s, c, k);
}

/// A character that stands nowhere is not found.
pub proof fn lemma_index_of_none(s: Seq<char>, c: char)
    requires
        forall|j: int| 0 <= j < s.len() ==> s[j] != c,
    ensures
        index_of(s, c) is None,
{
    lemma_find(s, seq![c]);
    if index_of(s, c) is Some {
        lemma_occurs_char(s, c, index_of(s, c)->0);
    }
}

/// The lines of `s`.
pub fn lines_of(s: &str) -> (r: Vec<String>)
    ensures
        texts(r@) == lines(s@),
{
    let cs = chars_of(s);
    let n = cs.len();
    let mut r: Vec<String> = Vec::new();
    let mut from: usize = 0;
    let mut i: usize = 0;
    assert(s@.skip(0) == s@);
    assert(texts(r@) + lines(s@.skip(0)) == lines(s@));
    while i < n
        invariant
            cs@ == s@,
            n == cs@.len(),
            from <= i <= n,
            forall|j: int| from <= j < i ==> s@[j] != '\n',
            texts(r@) + lines(s@.skip(from as int)) == lines(s@),
        decreases n - i,
    {
        if cs[i] == '\n' {
            let end: usize = if i > from && cs[i - 1] == '\r' {
                i - 1
            } else {
                i
            };
            let piece = string_of(cs.as_slice(), from, end);
            proof {
                let rest = s@.skip(from as int);
                lemma_index_of(rest, '\n', i - from);
                assert(without_cr(rest.take(i - from)) == piece@);
                assert(rest.skip(i - from + 1) == s@.skip(i + 1));
                lemma_texts_push(r@, piece);
                assert(texts(r@) + (seq![piece@] + lines(s@.skip(i + 1))) == texts(r@).push(piece@)
                    + lines(s@.skip(i + 1)));
            }
            r.push(piece);
            from = i + 1;
        }
        i += 1;
    }
    if from < n {
        let piece = string_of(cs.as_slice(), from, n);
        proof {
            let rest = s@.skip(from as int);
            assert forall|j: int| 0 <= j < rest.len() implies rest[j] != '\n' by {
                assert(rest[j] == s@[from + j]);
            }
            lemma_index_of_none(rest, '\n');
            assert(rest == piece@);
            lemma_texts_push(r@, piece);
            assert(texts(r@) + seq![piece@] == texts(r@).push(piece@));
        }
        r.push(piece);
    } else {
        assert(texts(r@) + Seq::<Seq<char>>::empty() == texts(r@));
    }
    r
}

/// The words of `s`.
pub fn words_of(s: &str) -> (r: Vec<String>)
    ensures
        texts(r@) == words(s@),
{
    let cs = chars_of(s);
    let n = cs.len();
    let mut r: Vec<String> = Vec::new();
    let mut from: usize = 0;
    assert(s@.skip(0) == s@);
    assert(texts(r@) + words(s@.skip(0)) == words(s@));
    loop
        invariant
            cs@ == s@,
            n == cs@.len(),
            from <= n,
            texts(r@) + words(s@.skip(from as int)) == words(s@),
        decreases n - from,
    {
        let mut a: usize = from;
        assert(s@.skip(from as int).skip(0) == s@.skip(from as int));
        while a < n && char_is_space(cs[a])
            invariant
                cs@ == s@,
                n == cs@.len(),
                from <= a <= n,
                space_len(s@.skip(from as int)) == (a - from) + space_len(s@.skip(a as int)),
            decreases n - a,
        {
            assert(s@.skip(a as int).skip(1) == s@.skip(a + 1));
            a += 1;
        }
        let mut b: usize = a;
        while b < n && !char_is_space(cs[b])
            invariant
                cs@ == s@,
                n == cs@.len(),
                from <= a <= b <= n,
                word_len(s@.skip(a as int)) == (b - a) + word_len(s@.skip(b as int)),
            decreases n - b,
        {
            assert(s@.skip(b as int).skip(1) == s@.skip(b + 1));
            b += 1;
        }
        let ghost t = s@.skip(from as int);
        assert(space_len(t) == a - from);
        assert(t.skip(space_len(t)) == s@.skip(a as int));
        if b == a {
            assert(words(t) == Seq::<Seq<char>>::empty());
            assert(texts(r@) + Seq::<Seq<char>>::empty() == texts(r@));
            return r;
        }
        let piece = string_of(cs.as_slice(), a, b);
        proof {
            assert(s@.skip(a as int).take(b - a) == piece@);
            assert(s@.skip(a as int).skip(b - a) == s@.skip(b as int));
            lemma_texts_push(r@, piece);
            assert(texts(r@) + (seq![piece@] + words(s@.skip(b as int))) == texts(r@).push(piece@)
                + words(s@.skip(b as int)));
        }
        r.push(piece);
        from = b;
    }
}

/// The strings, with `sep` between them.
pub fn join_texts(parts: &Vec<String>, sep: &str) -> (r: String)
    ensures
        r@ == join(texts(parts@), sep@),
{
    let mut r = String::new();
    let mut i: usize = 0;
    let ghost ts = texts(parts@);
    assert(ts.take(0) == Seq::<Seq<char>>::empty());
    while i < parts.len()
        invariant
            i <= parts@.len(),
            ts == texts(parts@),
            r@ == join(ts.take(i as int), sep@),
        decreases parts@.len() - i,
    {
        assert(ts.take(i + 1).drop_last() == ts.take(i as int));
        if i > 0 {
            r.append(sep);
            r.append(parts[i].as_str());
        } else {
            r.append(parts[i].as_str());
            assert(r@ == ts[0]);
        }
        i += 1;
    }
    assert(ts.take(i as int) == ts);
    r
}

/// `s` with each occurrence of `from` replaced by `to`.
pub fn replace_text(s: &str, from: &str, to: &str) -> (r: String)
    requires
        from@.len() > 0,
    ensures
        r@ == replace(s@, from@, to@),
{
    let n = s.unicode_len();
    let m = from.unicode_len();
    let mut r = String::new();
    let mut i: usize = 0;
    assert(s@.skip(0) == s@);
    assert(r@ + replace(s@.skip(0), from@, to@) == replace(s@, from@, to@));
    loop
        invariant
            n == s@.len(),
            m == from@.len(),
            m > 0,
            i <= n,
            r@ + replace(s@.skip(i as int), from@, to@) == replace(s@, from@, to@),
        decreases n - i,
    {
        let rest = s.substring_char(i, n);
        assert(rest@ == s@.skip(i as int));
        match find_text(rest, from) {
            Some(k) => {
                let head = rest.substring_char(0, k);
                assert(rest@.subrange(0, k as int) == rest@.take(k as int));
                let ghost before = r@;
                r.append(head);
                r.append(to);
                assert(rest@.skip(k + m) == s@.skip(i + k + m));
                assert(before + (head@ + to@ + replace(s@.skip(i + k + m), from@, to@)) == before + head@
                    + to@ + replace(s@.skip(i + k + m), from@, to@));
                i = i + k + m;
            },
            None => {
                r.append(rest);
                return r;
            },
        }
    }
}

/// The pieces of two texts with a separator between them are those of each.
pub proof fn lemma_split_at(a: Seq<char>, b: Seq<char>, sep: char)
    ensures
        split(a + seq![sep] + b, sep) == split(a, sep) + split(b, sep),
    decreases a.len(),
{
    let t = a + seq![sep] + b;
    lemma_find(a, seq![sep]);
    match index_of(a, sep) {
        Some(i) => {
            lemma_occurs_char(a, sep, i);
            assert forall|j: int| 0 <= j < i implies t[j] != sep by {
                lemma_occurs_char(a, sep, j);
                assert(t[j] == a[j]);
            }
            assert(t[i] == sep);
            lemma_index_of(t, sep, i);
            assert(t.take(i) == a.take(i));
            assert(t.skip(i + 1) == a.skip(i + 1) + seq![sep] + b);
            lemma_split_at(a.skip(i + 1), b, sep);
            assert(seq![a.take(i)] + (split(a.skip(i + 1), sep) + split(b, sep)) == seq![a.take(i)]
                + split(a.skip(i + 1), sep) + split(b, sep));
        },
        None => {
            assert forall|j: int| 0 <= j < a.len() implies t[j] != sep by {
                lemma_occurs_char(a, sep, j);
                assert(t[j] == a[j]);
            }
            assert(t[a.len() as int] == sep);
            lemma_index_of(t, sep, a.len() as int);
            assert(t.take(a.len() as int) == a);
            assert(t.skip(a.len() as int + 1) == b);
        },
    }
}

/// A text without the separator is one piece.
pub proof fn lemma_split_one(s: Seq<char>, sep: char)
    requires
        forall|i: int| 0 <= i < s.len() ==> s[i] != sep,
    ensures
        split(s, sep) == seq![s],
{
    lemma_index_of_none(s, sep);
}

/// What does not stand in two texts does not stand in them with a character between that it lacks.
pub proof fn lemma_contains_across(a: Seq<char>, c: char, b: Seq<char>, pat: Seq<char>)
    requires
        pat.len() > 0,
        forall|i: int| 0 <= i < pat.len() ==> pat[i] != c,
    ensures
        contains(a + seq![c] + b, pat) ==> contains(a, pat) || contains(b, pat),
{
    let t = a + seq![c] + b;
    if contains(t, pat) {
        let i = choose|i: int| occurs_at(t, pat, i);
        let w = t.subrange(i, i + pat.len());
        if i + pat.len() <= a.len() {
            assert(a.subrange(i, i + pat.len()) == w);
            assert(occurs_at(a, pat, i));
        } else if i > a.len() {
            let k = i - a.len() - 1;
            assert(b.subrange(k, k + pat.len()) == w);
            assert(occurs_at(b, pat, k));
        } else {
            assert(w[a.len() - i] == t[a.len() as int]);
        }
    }
}

/// What stands in a part of a text stands in the text.
pub proof fn lemma_contains_part(s: Seq<char>, from: int, to: int, pat: Seq<char>)
    requires
        0 <= from <= to <= s.len(),
    ensures
        contains(s.subrange(from, to), pat) ==> contains(s, pat),
{
    let t = s.subrange(from, to);
    if contains(t, pat) {
        let i = choose|i: int| occurs_at(t, pat, i);
        assert(s.subrange(from + i, from + i + pat.len()) == t.subrange(i, i + pat.len()));
        assert(occurs_at(s, pat, from + i));
    }
}

/// What does not stand in the first part of a text, which ends with a character that it lacks, and
/// begins the second is first found there.
pub proof fn lemma_find_after(a: Seq<char>, c: char, b: Seq<char>, pat: Seq<char>)
    requires
        pat.len() > 0,
        forall|i: int| 0 <= i < pat.len() ==> pat[i] != c,
        !contains(a, pat),
        starts_with(b, pat),
    ensures
        find(a + seq![c] + b, pat) == Some(a.len() as int + 1),
{
    let t = a + seq![c] + b;
    let at = a.len() as int + 1;
    assert(t.subrange(at, at + pat.len()) == b.subrange(0, pat.len() as int));
    assert forall|i: int| 0 <= i < at implies !occurs_at(t, pat, i) by {
        if occurs_at(t, pat, i) {
            let w = t.subrange(i, i + pat.len());
            if i + pat.len() <= a.len() {
                assert(a.subrange(i, i + pat.len()) == w);
                assert(occurs_at(a, pat, i));
            } else {
                assert(w[a.len() - i] == t[a.len() as int]);
            }
        }
    }
    lemma_find_is(t, pat, at);
}

} // verus!

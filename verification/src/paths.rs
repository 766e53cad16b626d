//! Paths of files, with slashes between their components.
use crate::buffer::{head, tail};
use crate::patterns::option_text;
use crate::text::{
    chars_of, lemma_index_of_none, lemma_split_at, lemma_texts_push, rfind, rfind_text, same_text,
    split, split_text, starts_with, texts,
};
use vstd::prelude::*;
use vstd::string::*;

verus! {

/// The path begins at the root.
pub open spec fn is_absolute(path: Seq<char>) -> bool {
    path.len() > 0 && path[0] == '/'
}

/// Whether the path begins at the root.
pub fn path_is_absolute(path: &str) -> (r: bool)
    ensures
        r == is_absolute(path@),
{
    path.unicode_len() > 0 && path.get_char(0) == '/'
}

/// How a system writes paths.
#[derive(Clone, Copy, Debug, PartialEq, Eq, Structural)]
pub enum PathStyle {
    /// With slashes, from one root.
    Posix,
    /// With backslashes or slashes, from the root of a drive or of a share.
    Windows,
}

/// The character separates the names of a Windows path.
pub open spec fn is_separator(c: char) -> bool {
    c == '/' || c == '\\'
}

/// The path begins with the letter of a drive and a colon.
pub open spec fn has_drive(path: Seq<char>) -> bool {
    path.len() >= 2 && ('a' <= path[0] <= 'z' || 'A' <= path[0] <= 'Z') && path[1] == ':'
}

/// The names of a server and of a share follow two separators, with a separator between them at the
/// place.
pub open spec fn has_share_at(path: Seq<char>, i: int) -> bool {
    &&& 2 < i && i + 1 < path.len()
    &&& is_separator(path[0]) && is_separator(path[1])
    &&& forall|j: int| 2 <= j < i ==> !is_separator(#[trigger] path[j])
    &&& is_separator(path[i]) && !is_separator(path[i + 1])
}

/// The path begins with the names of a server and of a share, after two separators.
pub open spec fn has_share(path: Seq<char>) -> bool {
    exists|i: int| #[trigger] has_share_at(path, i)
}

/// The path begins at a root.
pub open spec fn is_rooted(path: Seq<char>, style: PathStyle) -> bool {
    match style {
        PathStyle::Posix => is_absolute(path),
        PathStyle::Windows => (has_drive(path) && path.len() > 2 && is_separator(path[2]))
            || has_share(path),
    }
}

/// Whether the character separates the names of a Windows path.
fn separates(c: char) -> (r: bool)
    ensures
        r == is_separator(c),
{
    c == '/' || c == '\\'
}

/// Whether the path begins with the letter of a drive and a colon.
fn begins_with_drive(path: &str) -> (r: bool)
    ensures
        r == has_drive(path@),
{
    if path.unicode_len() < 2 {
        return false;
    }
    let c = path.get_char(0);
    ('a' <= c && c <= 'z' || 'A' <= c && c <= 'Z') && path.get_char(1) == ':'
}

/// Whether the path begins with the names of a server and of a share.
fn begins_with_share(path: &str) -> (r: bool)
    ensures
        r == has_share(path@),
{
    let cs = chars_of(path);
    let n = cs.len();
    if n < 3 || !separates(cs[0]) || !separates(cs[1]) {
        return false;
    }
    let mut i: usize = 2;
    while i < n && !separates(cs[i])
        invariant
            cs@ == path@,
            n == cs@.len(),
            2 <= i <= n,
            forall|j: int| 2 <= j < i ==> !is_separator(#[trigger] path@[j]),
        decreases n - i,
    {
        i += 1;
    }
    let r = i > 2 && i < n && n - i > 1 && !separates(cs[i + 1]);
    proof {
        if r {
            assert(has_share_at(path@, i as int));
        } else if has_share(path@) {
            let k = choose|k: int| #[trigger] has_share_at(path@, k);
            assert(is_separator(path@[k]));
            if k < i {
                assert(!is_separator(path@[k]));
            } else if i < k {
                assert(!is_separator(path@[i as int]));
            }
        }
    }
    r
}

/// Whether the path begins at a root.
pub fn path_is_rooted(path: &str, style: PathStyle) -> (r: bool)
    ensures
        r == is_rooted(path@, style),
{
    match style {
        PathStyle::Posix => path_is_absolute(path),
        PathStyle::Windows => {
            let len = path.unicode_len();
            (begins_with_drive(path) && len > 2 && separates(path.get_char(2)))
                || begins_with_share(path)
        },
    }
}

/// The piece between two slashes names something: it is not empty, and not a dot.
pub open spec fn is_name(piece: Seq<char>) -> bool {
    piece != ""@ && piece != "."@
}

/// The components of a path: the root, as a slash, where it begins there; a dot where it begins
/// with one; and the names.
pub open spec fn components(path: Seq<char>) -> Seq<Seq<char>> {
    let pieces = split(path, '/');
    let start = if is_absolute(path) {
        seq!["/"@]
    } else if pieces.len() > 0 && pieces[0] == "."@ {
        seq!["."@]
    } else {
        Seq::empty()
    };
    start + pieces.filter(|piece: Seq<char>| is_name(piece))
}

/// The components of a path.
pub fn components_of(path: &str) -> (r: Vec<String>)
    ensures
        texts(r@) == components(path@),
{
    let pieces = split_text(path, '/');
    let ghost all = split(path@, '/');
    let ghost named = |piece: Seq<char>| is_name(piece);
    let mut r: Vec<String> = Vec::new();
    let absolute = path_is_absolute(path);
    assert(pieces@.len() == all.len());
    if absolute {
        r.push("/".to_owned());
        assert(texts(r@) == seq!["/"@]);
    } else if pieces.len() > 0 {
        assert(all[0] == pieces@[0]@);
        if same_text(pieces[0].as_str(), ".") {
            r.push(".".to_owned());
            assert(texts(r@) == seq!["."@]);
        }
    }
    let ghost start = texts(r@);
    let mut i: usize = 0;
    proof {
        assert(all.take(0).filter(named) == Seq::<Seq<char>>::empty()) by {
            reveal(Seq::filter);
        }
        assert(start + Seq::<Seq<char>>::empty() == start);
    }
    while i < pieces.len()
        invariant
            texts(pieces@) == all,
            pieces@.len() == all.len(),
            i <= pieces@.len(),
            named == (|piece: Seq<char>| is_name(piece)),
            texts(r@) == start + all.take(i as int).filter(named),
        decreases pieces@.len() - i,
    {
        assert(all[i as int] == pieces@[i as int]@);
        proof {
            assert(all.take(i + 1) == all.take(i as int).push(all[i as int]));
            all.take(i as int).lemma_filter_push(all[i as int], named);
        }
        let piece = pieces[i].as_str();
        if !same_text(piece, "") && !same_text(piece, ".") {
            let owned = piece.to_owned();
            proof {
                lemma_texts_push(r@, owned);
                assert((start + all.take(i as int).filter(named)).push(owned@) == start + all.take(
                    i as int,
                ).filter(named).push(owned@));
            }
            r.push(owned);
        }
        i += 1;
    }
    assert(all.take(i as int) == all);
    r
}

/// The paths name the same place: their components are the same.
pub open spec fn same_path(a: Seq<char>, b: Seq<char>) -> bool {
    components(a) == components(b)
}

/// The components of the path begin with those of the base.
pub open spec fn path_starts_with(path: Seq<char>, base: Seq<char>) -> bool {
    let p = components(path);
    let b = components(base);
    b.len() <= p.len() && p.take(b.len() as int) == b
}

/// The components of the path end with those of the other.
pub open spec fn path_ends_with(path: Seq<char>, end: Seq<char>) -> bool {
    let p = components(path);
    let e = components(end);
    e.len() <= p.len() && p.skip(p.len() - e.len()) == e
}

/// Whether a list of texts holds another from a place on.
fn texts_match(all: &Vec<String>, part: &Vec<String>, from: usize) -> (r: bool)
    requires
        from + part@.len() <= all@.len(),
    ensures
        r == (texts(all@).subrange(from as int, from + part@.len()) == texts(part@)),
{
    let n = all.len();
    let ghost window = texts(all@).subrange(from as int, from + part@.len());
    let mut i: usize = 0;
    while i < part.len()
        invariant
            n == all@.len(),
            from + part@.len() <= n,
            i <= part@.len(),
            window == texts(all@).subrange(from as int, from + part@.len()),
            forall|j: int| 0 <= j < i ==> window[j] == #[trigger] texts(part@)[j],
        decreases part@.len() - i,
    {
        assert(window[i as int] == all@[from + i]@);
        assert(texts(part@)[i as int] == part@[i as int]@);
        if !same_text(all[from + i].as_str(), part[i].as_str()) {
            return false;
        }
        i += 1;
    }
    assert(window == texts(part@));
    true
}

/// Whether the paths name the same place.
pub fn is_same_path(a: &str, b: &str) -> (r: bool)
    ensures
        r == same_path(a@, b@),
{
    let x = components_of(a);
    let y = components_of(b);
    assert(texts(x@).subrange(0, x@.len() as int) == texts(x@));
    assert(texts(x@).len() == x@.len() && texts(y@).len() == y@.len());
    x.len() == y.len() && texts_match(&x, &y, 0)
}

/// Whether the components of the path begin with those of the base.
pub fn starts_with_path(path: &str, base: &str) -> (r: bool)
    ensures
        r == path_starts_with(path@, base@),
{
    let p = components_of(path);
    let b = components_of(base);
    assert(texts(p@).len() == p@.len() && texts(b@).len() == b@.len());
    if b.len() > p.len() {
        return false;
    }
    assert(texts(p@).subrange(0, b@.len() as int) == texts(p@).take(b@.len() as int));
    texts_match(&p, &b, 0)
}

/// Whether the components of the path end with those of the other.
pub fn ends_with_path(path: &str, end: &str) -> (r: bool)
    ensures
        r == path_ends_with(path@, end@),
{
    let p = components_of(path);
    let e = components_of(end);
    assert(texts(p@).len() == p@.len() && texts(e@).len() == e@.len());
    if e.len() > p.len() {
        return false;
    }
    let from = p.len() - e.len();
    assert(texts(p@).subrange(from as int, p@.len() as int) == texts(p@).skip(from as int));
    texts_match(&p, &e, from)
}

/// A path inside another: the second alone where it begins at the root, else the two with a slash
/// between them.
pub open spec fn joined(base: Seq<char>, path: Seq<char>) -> Seq<char> {
    if is_absolute(path) {
        path
    } else if base.len() > 0 && base.last() != '/' {
        base + "/"@ + path
    } else {
        base + path
    }
}

/// A path inside another.
pub fn join_path(base: &str, path: &str) -> (r: String)
    ensures
        r@ == joined(base@, path@),
{
    if path_is_absolute(path) {
        return path.to_owned();
    }
    let mut r = base.to_owned();
    let len = base.unicode_len();
    if len > 0 && base.get_char(len - 1) != '/' {
        r.append("/");
    }
    r.append(path);
    r
}

/// A name inside a directory. A separator comes between the two, unless the directory ends with one
/// or, on Windows, is a drive alone.
pub open spec fn inside(dir: Seq<char>, name: Seq<char>, style: PathStyle) -> Seq<char> {
    match style {
        PathStyle::Posix => joined(dir, name),
        PathStyle::Windows => if dir.len() > 0 && !is_separator(dir.last()) && !(has_drive(dir)
            && dir.len() == 2) {
            dir + "\\"@ + name
        } else {
            dir + name
        },
    }
}

/// A name inside a directory.
pub fn join_inside(dir: &str, name: &str, style: PathStyle) -> (r: String)
    ensures
        r@ == inside(dir@, name@, style),
{
    match style {
        PathStyle::Posix => join_path(dir, name),
        PathStyle::Windows => {
            let mut r = dir.to_owned();
            let len = dir.unicode_len();
            if len > 0 && !separates(dir.get_char(len - 1)) && !(begins_with_drive(dir) && len == 2) {
                r.append("\\");
            }
            r.append(name);
            r
        },
    }
}

/// A path that goes on from one that begins at a root does too.
pub proof fn lemma_rooted_start(start: Seq<char>, path: Seq<char>, style: PathStyle)
    requires
        is_rooted(start, style),
        starts_with(path, start),
    ensures
        is_rooted(path, style),
{
    assert forall|j: int| 0 <= j < start.len() implies path[j] == start[j] by {
        assert(path.subrange(0, start.len() as int)[j] == path[j]);
    }
    if style == PathStyle::Windows && has_share(start) {
        let i = choose|i: int| #[trigger] has_share_at(start, i);
        assert(has_share_at(path, i));
    }
}

/// A name inside a directory goes on from the directory, unless the name begins at the root.
pub proof fn lemma_inside_begins(dir: Seq<char>, name: Seq<char>, style: PathStyle)
    ensures
        !is_absolute(name) ==> starts_with(inside(dir, name, style), dir),
{
    let r = inside(dir, name, style);
    if !is_absolute(name) {
        assert(r.subrange(0, dir.len() as int) == dir);
    }
}

/// A name inside a directory that begins at a root does too, unless the name itself begins with a
/// separator.
pub proof fn lemma_inside_rooted(dir: Seq<char>, name: Seq<char>, style: PathStyle)
    requires
        is_rooted(dir, style),
        name.len() > 0 ==> !is_separator(name[0]),
    ensures
        is_rooted(inside(dir, name, style), style),
{
    let r = inside(dir, name, style);
    reveal_strlit("\\");
    if style == PathStyle::Posix {
        reveal_strlit("/");
        assert(r[0] == dir[0]);
    } else if has_share(dir) {
        let i = choose|i: int| #[trigger] has_share_at(dir, i);
        assert forall|j: int| 0 <= j < dir.len() implies r[j] == dir[j] by {
        }
        assert(has_share_at(r, i));
    } else {
        assert(r[0] == dir[0] && r[1] == dir[1] && r[2] == dir[2]);
    }
}

/// The name of what a path leads to: its last component, unless that is the root, a dot or two
/// dots.
pub open spec fn file_name(path: Seq<char>) -> Option<Seq<char>> {
    let c = components(path);
    if c.len() > 0 && c.last() != "/"@ && c.last() != "."@ && c.last() != ".."@ {
        Some(c.last())
    } else {
        None
    }
}

/// The name of what a path leads to.
pub fn file_name_of(path: &str) -> (r: Option<String>)
    ensures
        option_text(r) == file_name(path@),
{
    let c = components_of(path);
    assert(texts(c@).len() == c@.len());
    if c.len() == 0 {
        return None;
    }
    let last = c[c.len() - 1].as_str();
    assert(texts(c@).last() == last@);
    if same_text(last, "/") || same_text(last, ".") || same_text(last, "..") {
        None
    } else {
        Some(last.to_owned())
    }
}

/// A name before its last dot and after it; the dot that a name begins with does not count.
pub open spec fn split_name(name: Seq<char>) -> (Seq<char>, Option<Seq<char>>) {
    match rfind(name, "."@) {
        Some(i) if i > 0 => (name.take(i), Some(name.skip(i + 1))),
        _ => (name, None),
    }
}

/// A name before its last dot and after it.
fn split_name_of(name: &str) -> (r: (String, Option<String>))
    ensures
        (r.0@, option_text(r.1)) == split_name(name@),
{
    proof {
        reveal_strlit(".");
    }
    let len = name.unicode_len();
    match rfind_text(name, ".") {
        Some(i) => if 0 < i && i < len {
            (head(name, i).to_owned(), Some(tail(name, i + 1).to_owned()))
        } else {
            (name.to_owned(), None)
        },
        None => (name.to_owned(), None),
    }
}

/// The name of a file without its extension.
pub open spec fn file_stem(path: Seq<char>) -> Option<Seq<char>> {
    match file_name(path) {
        Some(name) => Some(split_name(name).0),
        None => None,
    }
}

/// The extension of a file.
pub open spec fn extension(path: Seq<char>) -> Option<Seq<char>> {
    match file_name(path) {
        Some(name) => split_name(name).1,
        None => None,
    }
}

/// The name of a file without its extension.
pub fn file_stem_of(path: &str) -> (r: Option<String>)
    ensures
        option_text(r) == file_stem(path@),
{
    let name = file_name_of(path)?;
    Some(split_name_of(name.as_str()).0)
}

/// The extension of a file.
pub fn extension_of(path: &str) -> (r: Option<String>)
    ensures
        option_text(r) == extension(path@),
{
    let name = file_name_of(path)?;
    split_name_of(name.as_str()).1
}

/// The file is an org file.
pub open spec fn is_org(path: Seq<char>) -> bool {
    extension(path) == Some("org"@)
}

/// Whether the file is an org file.
pub fn is_org_file(path: &str) -> (r: bool)
    ensures
        r == is_org(path@),
{
    match extension_of(path) {
        Some(e) => same_text(e.as_str(), "org"),
        None => false,
    }
}

/// A path without the slashes and the dots between them that it begins with.
pub open spec fn trimmed_left(path: Seq<char>) -> Seq<char>
    decreases path.len(),
{
    if path.len() > 0 && (path[0] == '/' || path[0] == '.' && (path.len() == 1 || path[1] == '/')) {
        trimmed_left(path.skip(1))
    } else {
        path
    }
}

/// A path from its first slash on.
pub open spec fn from_slash(path: Seq<char>) -> Seq<char>
    decreases path.len(),
{
    if path.len() > 0 && path[0] != '/' {
        from_slash(path.skip(1))
    } else {
        path
    }
}

/// What follows the first component of a path.
pub open spec fn after_component(path: Seq<char>) -> Seq<char> {
    if is_absolute(path) {
        trimmed_left(path.skip(1))
    } else {
        trimmed_left(from_slash(path))
    }
}

/// What follows the first so many components of a path.
pub open spec fn after_components(path: Seq<char>, count: nat) -> Seq<char>
    decreases count,
{
    if count == 0 {
        path
    } else {
        after_components(after_component(path), (count - 1) as nat)
    }
}

/// A path without the slashes and the dots between them that it ends with, but for what it begins
/// with.
pub open spec fn trimmed_right(path: Seq<char>, kept: int) -> Seq<char>
    decreases path.len(),
{
    let n = path.len();
    if 0 <= kept < n && (path[n - 1] == '/' || path[n - 1] == '.' && (n - 1 == kept || path[n - 2]
        == '/')) {
        trimmed_right(path.drop_last(), kept)
    } else {
        path
    }
}

/// How many characters at the beginning of a path are a component that can be no name: the root,
/// or a dot.
pub open spec fn kept_start(path: Seq<char>) -> int {
    if is_absolute(path) || path.len() > 0 && path[0] == '.' && (path.len() == 1 || path[1] == '/') {
        1
    } else {
        0
    }
}

/// A path as seen from a base: what follows the components of the base, if the path begins with
/// them, up to the last component.
pub open spec fn relative_to(path: Seq<char>, base: Seq<char>) -> Option<Seq<char>> {
    if path_starts_with(path, base) {
        let count = components(base).len();
        Some(
            trimmed_right(
                after_components(path, count),
                if count == 0 {
                    kept_start(path)
                } else {
                    0
                },
            ),
        )
    } else {
        None
    }
}

/// Where a path that begins at a place is over, without the slashes and the dots between them that
/// it ends with.
fn end_right(cs: &Vec<char>, from: usize, kept: usize) -> (r: usize)
    requires
        from + kept <= cs@.len(),
    ensures
        from <= r <= cs@.len(),
        cs@.subrange(from as int, r as int) == trimmed_right(cs@.skip(from as int), kept as int),
{
    let mut end: usize = cs.len();
    assert(cs@.subrange(from as int, end as int) == cs@.skip(from as int));
    while end - from > kept && (cs[end - 1] == '/' || cs[end - 1] == '.' && (end - from - 1 == kept
        || cs[end - 2] == '/'))
        invariant
            from + kept <= end <= cs@.len(),
            trimmed_right(cs@.subrange(from as int, end as int), kept as int) == trimmed_right(
                cs@.skip(from as int),
                kept as int,
            ),
        decreases end,
    {
        proof {
            let p = cs@.subrange(from as int, end as int);
            assert(p[p.len() - 1] == cs@[end - 1]);
            if p.len() > 1 {
                assert(p[p.len() - 2] == cs@[end - 2]);
            }
            assert(p.drop_last() == cs@.subrange(from as int, end - 1));
        }
        end -= 1;
    }
    proof {
        let p = cs@.subrange(from as int, end as int);
        if p.len() > 0 {
            assert(p[p.len() - 1] == cs@[end - 1]);
            if p.len() > 1 {
                assert(p[p.len() - 2] == cs@[end - 2]);
            }
        }
    }
    end
}

/// A path without the slashes and the dots between them that it begins with, from a place on.
fn skip_left(cs: &Vec<char>, from: usize) -> (r: usize)
    requires
        from <= cs@.len(),
    ensures
        from <= r <= cs@.len(),
        cs@.skip(r as int) == trimmed_left(cs@.skip(from as int)),
{
    let n = cs.len();
    let mut i: usize = from;
    while i < n && (cs[i] == '/' || cs[i] == '.' && (i + 1 == n || cs[i + 1] == '/'))
        invariant
            n == cs@.len(),
            from <= i <= n,
            trimmed_left(cs@.skip(i as int)) == trimmed_left(cs@.skip(from as int)),
        decreases n - i,
    {
        assert(cs@.skip(i as int).skip(1) == cs@.skip(i + 1));
        i += 1;
    }
    proof {
        let p = cs@.skip(i as int);
        if p.len() > 0 {
            assert(p[0] == cs@[i as int]);
            if p.len() > 1 {
                assert(p[1] == cs@[i + 1]);
            }
        }
    }
    i
}

/// A path as seen from a base.
pub fn strip_base(path: &str, base: &str) -> (r: Option<String>)
    ensures
        option_text(r) == relative_to(path@, base@),
{
    if !starts_with_path(path, base) {
        return None;
    }
    let b = components_of(base);
    assert(texts(b@).len() == b@.len());
    let cs = chars_of(path);
    let n = cs.len();
    let mut i: usize = 0;
    let mut left: usize = b.len();
    let kept: usize = if left == 0 && (path_is_absolute(path) || n > 0 && cs[0] == '.' && (n == 1
        || cs[1] == '/')) {
        1
    } else {
        0
    };
    assert(path@.skip(0) == path@);
    while left > 0
        invariant
            cs@ == path@,
            n == cs@.len(),
            i <= n,
            after_components(path@, b@.len()) == after_components(
                path@.skip(i as int),
                left as nat,
            ),
            i + kept <= n,
            left > 0 ==> kept == 0,
        decreases left,
    {
        let ghost p = path@.skip(i as int);
        if i < n && cs[i] == '/' {
            assert(p[0] == '/');
            assert(p.skip(1) == path@.skip(i + 1));
            i = skip_left(&cs, i + 1);
        } else {
            let mut j: usize = i;
            while j < n && cs[j] != '/'
                invariant
                    cs@ == path@,
                    n == cs@.len(),
                    i <= j <= n,
                    p == path@.skip(i as int),
                    from_slash(p) == from_slash(path@.skip(j as int)),
                decreases n - j,
            {
                assert(path@.skip(j as int).skip(1) == path@.skip(j + 1));
                j += 1;
            }
            assert(from_slash(p) == path@.skip(j as int));
            i = skip_left(&cs, j);
        }
        left -= 1;
    }
    let end = end_right(&cs, i, kept);
    let r = head(tail(path, i), end - i);
    assert(r@ == cs@.subrange(i as int, end as int));
    Some(r.to_owned())
}

/// The pieces of two texts with a slash between them are those of each.
pub proof fn lemma_split_join(a: Seq<char>, b: Seq<char>)
    ensures
        split(a + "/"@ + b, '/') == split(a, '/') + split(b, '/'),
{
    reveal_strlit("/");
    assert("/"@ == seq!['/']);
    lemma_split_at(a, b, '/');
}

/// The name has no slash in it, and names something.
pub open spec fn is_plain_name(name: Seq<char>) -> bool {
    is_name(name) && forall|i: int| 0 <= i < name.len() ==> name[i] != '/'
}

/// One piece between slashes is kept if it names something.
proof fn lemma_filter_one(piece: Seq<char>)
    ensures
        seq![piece].filter(|piece: Seq<char>| is_name(piece)) == if is_name(piece) {
            seq![piece]
        } else {
            Seq::<Seq<char>>::empty()
        },
{
    let named = |piece: Seq<char>| is_name(piece);
    let none = Seq::<Seq<char>>::empty();
    assert(seq![piece] == none.push(piece));
    none.lemma_filter_push(piece, named);
    assert(none.filter(named) == none) by {
        reveal(Seq::filter);
    }
}

/// A name inside a path is one more component of it.
pub proof fn lemma_components_joined(base: Seq<char>, name: Seq<char>)
    requires
        is_plain_name(name),
    ensures
        components(joined(base, name)) == components(base).push(name),
{
    reveal_strlit("/");
    reveal_strlit("");
    reveal_strlit(".");
    let named = |piece: Seq<char>| is_name(piece);
    assert(name.len() > 0) by {
        if name.len() == 0 {
            assert(name == ""@);
        }
    }
    lemma_index_of_none(name, '/');
    assert(split(name, '/') == seq![name]);
    let one = seq![name];
    lemma_filter_one(name);
    if base.len() == 0 {
        assert(joined(base, name) == name);
        lemma_index_of_none(base, '/');
        assert(split(base, '/') == seq![base]);
        assert(base == ""@);
        lemma_filter_one(base);
        assert(components(base) == Seq::<Seq<char>>::empty());
        assert(components(name) == seq![name]);
    } else {
        let stem = if base.last() == '/' {
            base.drop_last()
        } else {
            base
        };
        let p = joined(base, name);
        assert(p == stem + "/"@ + name);
        lemma_split_join(stem, name);
        let pieces = split(stem, '/');
        Seq::filter_distributes_over_add(pieces, one, named);
        assert(p[0] == base[0]);
        lemma_split_nonempty(stem);
        assert(split(p, '/')[0] == pieces[0]);
        if base.last() == '/' {
            let e = Seq::<char>::empty();
            assert(base == stem + "/"@ + e);
            lemma_split_join(stem, e);
            lemma_index_of_none(e, '/');
            assert(split(e, '/') == seq![e]);
            assert(e == ""@);
            lemma_filter_one(e);
            Seq::filter_distributes_over_add(pieces, seq![e], named);
            assert(pieces.filter(named) + Seq::<Seq<char>>::empty() == pieces.filter(named));
            assert(split(base, '/')[0] == pieces[0]);
        }
        assert(components(p) == components(base).push(name));
    }
}

/// There is at least one piece between slashes.
proof fn lemma_split_nonempty(s: Seq<char>)
    ensures
        split(s, '/').len() > 0,
{
}

} // verus!

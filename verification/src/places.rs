//! Paths that are put together and taken apart again.
use crate::capture::{entry_path, entry_target};
use crate::entry::{is_expandable, is_variable_char};
use crate::notes::lemma_pieces;
use crate::paths::{
    after_component, after_components, components, extension, file_name, file_stem, from_slash,
    has_share_at, inside, is_absolute, is_name, is_org, is_plain_name, is_rooted, is_separator,
    joined, kept_start, lemma_components_joined, path_starts_with, relative_to, split_name,
    trimmed_left, trimmed_right, PathStyle,
};
use crate::patterns::lacks;
use crate::text::{lemma_occurs_char, lemma_rfind, lemma_split_at, lemma_split_one, rfind, split};
use vstd::prelude::*;
use vstd::string::*;

verus! {

/// A file in a directory, named by a name and an extension with a dot between, has that name, that
/// stem and that extension; it is an org file if the extension is `org`, and no other is.
pub proof fn lemma_file_parts(dir: Seq<char>, name: Seq<char>, ext: Seq<char>)
    requires
        name.len() > 0,
        ext.len() > 0,
        forall|i: int| 0 <= i < name.len() ==> name[i] != '/',
        forall|i: int| 0 <= i < ext.len() ==> ext[i] != '/' && ext[i] != '.',
    ensures
        ({
            let file = joined(dir, name + "."@ + ext);
            &&& file_name(file) == Some(name + "."@ + ext)
            &&& file_stem(file) == Some(name)
            &&& extension(file) == Some(ext)
            &&& is_org(file) <==> ext == "org"@
        }),
{
    let full = name + "."@ + ext;
    lemma_full_name(name, ext);
    lemma_components_joined(dir, full);
    assert(components(joined(dir, full)).last() == full);
}

proof fn lemma_full_name(name: Seq<char>, ext: Seq<char>)
    requires
        name.len() > 0,
        ext.len() > 0,
        forall|i: int| 0 <= i < name.len() ==> name[i] != '/',
        forall|i: int| 0 <= i < ext.len() ==> ext[i] != '/' && ext[i] != '.',
    ensures
        ({
            let full = name + "."@ + ext;
            &&& is_plain_name(full)
            &&& full != "/"@ && full != "."@ && full != ".."@
            &&& split_name(full) == (name, Some(ext))
        }),
{
    reveal_strlit(".");
    reveal_strlit("..");
    reveal_strlit("/");
    reveal_strlit("");
    let full = name + "."@ + ext;
    assert(full.len() >= 3);
    assert("."@.len() == 1 && ".."@.len() == 2 && "/"@.len() == 1 && ""@.len() == 0);
    assert forall|i: int| 0 <= i < full.len() implies full[i] != '/' by {
        if i < name.len() {
            assert(full[i] == name[i]);
        } else if i > name.len() {
            assert(full[i] == ext[i - name.len() - 1]);
        }
    }
    assert(lacks(ext, '.'));
    lemma_last_dot(name, ext);
}

proof fn lemma_last_dot(name: Seq<char>, ext: Seq<char>)
    requires
        name.len() > 0,
        lacks(ext, '.'),
    ensures
        split_name(name + "."@ + ext) == (name, Some(ext)),
{
    reveal_strlit(".");
    assert("."@ =~= seq!['.']);
    let full = name + seq!['.'] + ext;
    let at = name.len() as int;
    assert(full[at] == '.');
    assert forall|j: int| at < j < full.len() implies full[j] != '.' by {
        assert(full[j] == ext[j - at - 1]);
    }
    lemma_rfind_char(full, '.', at);
    assert(full.take(at) =~= name);
    assert(full.skip(at + 1) =~= ext);
}

proof fn lemma_rfind_char(s: Seq<char>, c: char, at: int)
    requires
        0 <= at < s.len(),
        s[at] == c,
        forall|j: int| at < j < s.len() ==> s[j] != c,
    ensures
        rfind(s, seq![c]) == Some(at),
{
    lemma_rfind(s, seq![c]);
    lemma_occurs_char(s, c, at);
    match rfind(s, seq![c]) {
        Some(k) => {
            lemma_occurs_char(s, c, k);
        },
        None => {},
    }
}

/// The names between the slashes of a path.
spec fn names(path: Seq<char>) -> Seq<Seq<char>> {
    split(path, '/').filter(|piece: Seq<char>| is_name(piece))
}

proof fn lemma_names_join(a: Seq<char>, b: Seq<char>)
    ensures
        names(a + seq!['/'] + b) == names(a) + names(b),
{
    lemma_split_at(a, b, '/');
    Seq::filter_distributes_over_add(
        split(a, '/'),
        split(b, '/'),
        |piece: Seq<char>| is_name(piece),
    );
}

proof fn lemma_names_one(piece: Seq<char>)
    requires
        forall|i: int| 0 <= i < piece.len() ==> piece[i] != '/',
    ensures
        names(piece) == if is_name(piece) {
            seq![piece]
        } else {
            Seq::empty()
        },
{
    let p = |piece: Seq<char>| is_name(piece);
    let none = Seq::<Seq<char>>::empty();
    lemma_split_one(piece, '/');
    assert(none.push(piece) =~= seq![piece]);
    none.lemma_filter_push(piece, p);
    assert(none.filter(p) =~= none) by {
        reveal(Seq::filter);
    }
}

proof fn lemma_nothing_named()
    ensures
        !is_name(Seq::<char>::empty()),
        !is_name(seq!['.']),
        names(Seq::<char>::empty()).len() == 0,
        names(seq!['.']).len() == 0,
{
    reveal_strlit("");
    reveal_strlit(".");
    assert(""@ =~= Seq::<char>::empty());
    assert("."@ =~= seq!['.']);
    lemma_names_one(Seq::<char>::empty());
    lemma_names_one(seq!['.']);
}

/// A path is empty or ends with a slash.
spec fn is_open(path: Seq<char>) -> bool {
    path.len() > 0 ==> path.last() == '/'
}

/// A path begins with a name.
spec fn begins_with_name(path: Seq<char>) -> bool {
    path.len() > 0 && trimmed_left(path) == path
}

proof fn lemma_trimmed_left(path: Seq<char>)
    ensures
        names(trimmed_left(path)) == names(path),
        trimmed_left(trimmed_left(path)) == trimmed_left(path),
        is_open(path) ==> is_open(trimmed_left(path)),
        trimmed_left(path).len() <= path.len(),
    decreases path.len(),
{
    lemma_nothing_named();
    let none = Seq::<char>::empty();
    if path.len() > 0 && (path[0] == '/' || path[0] == '.' && (path.len() == 1 || path[1] == '/')) {
        let rest = path.skip(1);
        lemma_trimmed_left(rest);
        assert(rest.len() > 0 ==> rest.last() == path.last());
        if path[0] == '/' {
            assert(path =~= none + seq!['/'] + rest);
            lemma_names_join(none, rest);
            assert(names(none) + names(rest) =~= names(rest));
        } else if path.len() == 1 {
            assert(path =~= seq!['.']);
            assert(rest =~= none);
            assert(names(path) =~= names(rest));
        } else {
            let more = path.skip(2);
            assert(path =~= seq!['.'] + seq!['/'] + more);
            assert(rest =~= none + seq!['/'] + more);
            lemma_names_join(seq!['.'], more);
            lemma_names_join(none, more);
            assert(names(seq!['.']) + names(more) =~= names(more));
            assert(names(none) + names(more) =~= names(more));
        }
    }
}

proof fn lemma_trimmed_left_before(path: Seq<char>, rest: Seq<char>)
    requires
        is_open(path),
        begins_with_name(rest),
    ensures
        trimmed_left(path + rest) == trimmed_left(path) + rest,
    decreases path.len(),
{
    let s = path + rest;
    if path.len() == 0 {
        assert(s =~= rest);
        assert(trimmed_left(path) + rest =~= rest);
    } else {
        assert(s[0] == path[0]);
        if path.len() > 1 {
            assert(s[1] == path[1]);
        }
        let fewer = path.skip(1);
        assert(s.skip(1) =~= fewer + rest);
        if path[0] == '/' || path[0] == '.' && path.len() > 1 && path[1] == '/' {
            assert(fewer.len() > 0 ==> fewer.last() == path.last());
            lemma_trimmed_left_before(fewer, rest);
        }
    }
}

proof fn lemma_from_slash(path: Seq<char>, rest: Seq<char>)
    requires
        path.len() > 0,
        is_open(path),
    ensures
        from_slash(path + rest) == from_slash(path) + rest,
        is_open(from_slash(path)),
        from_slash(path).len() > 0,
        from_slash(path)[0] == '/',
        from_slash(path).len() <= path.len(),
        ({
            let n = path.len() - from_slash(path).len();
            &&& path == path.take(n) + from_slash(path)
            &&& forall|i: int| 0 <= i < n ==> path[i] != '/'
        }),
    decreases path.len(),
{
    let s = path + rest;
    assert(s[0] == path[0]);
    if path[0] != '/' {
        let fewer = path.skip(1);
        assert(s.skip(1) =~= fewer + rest);
        assert(fewer.len() > 0) by {
            if fewer.len() == 0 {
                assert(path.last() == path[0]);
            }
        }
        assert(fewer.last() == path.last());
        lemma_from_slash(fewer, rest);
        let n = path.len() - from_slash(path).len();
        assert forall|i: int| 0 <= i < n implies path[i] != '/' by {
            if i > 0 {
                assert(path[i] == fewer[i - 1]);
            }
        }
        assert(path =~= path.take(n) + from_slash(path)) by {
            assert(fewer == fewer.take(n - 1) + from_slash(fewer));
            assert forall|i: int| n <= i < path.len() implies path[i] == from_slash(path)[i - n] by {
                assert(path[i] == fewer[i - 1]);
                assert(fewer[i - 1] == (fewer.take(n - 1) + from_slash(fewer))[i - 1]);
            }
        }
    } else {
        assert(path =~= path.take(0) + path);
    }
}

/// Behind the names of a path that begins with a name stands what was put there.
proof fn lemma_after_names(path: Seq<char>, rest: Seq<char>)
    requires
        is_open(path),
        trimmed_left(path) == path,
        begins_with_name(rest),
    ensures
        after_components(path + rest, names(path).len()) == rest,
    decreases path.len(),
{
    lemma_nothing_named();
    if path.len() == 0 {
        assert(path =~= Seq::<char>::empty());
        assert(path + rest =~= rest);
    } else {
        lemma_from_slash(path, rest);
        let tail = from_slash(path);
        let n = path.len() - tail.len();
        let first = path.take(n);
        let inner = tail.skip(1);
        assert(tail =~= seq!['/'] + inner);
        assert(path =~= first + seq!['/'] + inner);
        lemma_names_join(first, inner);
        lemma_trimmed_left(path.skip(1));
        assert(path[0] != '/');
        assert(n > 0);
        assert(is_name(first)) by {
            reveal_strlit("");
            reveal_strlit(".");
            assert(first.len() > 0);
            if first =~= "."@ {
                assert(path[0] == '.');
                assert(path[1] == tail[0]);
            }
        }
        assert forall|i: int| 0 <= i < first.len() implies first[i] != '/' by {
            assert(first[i] == path[i]);
        }
        lemma_names_one(first);
        lemma_trimmed_left(tail);
        let none = Seq::<char>::empty();
        assert(tail =~= none + seq!['/'] + inner);
        lemma_names_join(none, inner);
        assert(names(none) + names(inner) =~= names(inner));
        let next = trimmed_left(tail);
        lemma_trimmed_left_before(tail, rest);
        assert(tail.skip(1).len() < path.len());
        lemma_trimmed_shorter(tail);
        lemma_after_names(next, rest);
        let s = path + rest;
        assert(s[0] == path[0]);
        assert(after_component(s) == next + rest);
        assert(names(path).len() == 1 + names(inner).len());
    }
}

proof fn lemma_trimmed_shorter(path: Seq<char>)
    requires
        path.len() > 0,
        path[0] == '/',
    ensures
        trimmed_left(path).len() < path.len(),
{
    lemma_trimmed_left(path.skip(1));
}

/// What is put behind a path, after a slash or where it ends with one, is what follows the
/// components of that path.
proof fn lemma_after_path(path: Seq<char>, rest: Seq<char>)
    requires
        is_open(path),
        begins_with_name(rest),
    ensures
        after_components(path + rest, components(path).len()) == rest,
{
    lemma_nothing_named();
    reveal_strlit(".");
    reveal_strlit("/");
    assert("."@ =~= seq!['.']);
    let s = path + rest;
    let pieces = split(path, '/');
    if path.len() == 0 {
        assert(path =~= Seq::<char>::empty());
        lemma_split_one(path, '/');
        assert(pieces[0].len() == 0);
        assert(components(path) =~= names(path));
        assert(s =~= rest);
    } else if is_absolute(path) {
        let none = Seq::<char>::empty();
        let inner = path.skip(1);
        assert(inner.len() > 0 ==> inner.last() == path.last());
        assert(path =~= none + seq!['/'] + inner);
        lemma_names_join(none, inner);
        assert(names(none) + names(inner) =~= names(inner));
        assert(components(path).len() == 1 + names(inner).len());
        assert(s[0] == path[0]);
        assert(s.skip(1) =~= inner + rest);
        lemma_trimmed_left(inner);
        lemma_trimmed_left_before(inner, rest);
        lemma_after_names(trimmed_left(inner), rest);
        assert(after_component(s) == trimmed_left(inner) + rest);
    } else {
        lemma_from_slash(path, rest);
        let tail = from_slash(path);
        let n = path.len() - tail.len();
        let first = path.take(n);
        let inner = tail.skip(1);
        assert(tail =~= seq!['/'] + inner);
        assert(path =~= first + seq!['/'] + inner);
        assert forall|i: int| 0 <= i < first.len() implies first[i] != '/' by {
            assert(first[i] == path[i]);
        }
        lemma_split_at(first, inner, '/');
        lemma_split_one(first, '/');
        assert(pieces[0] == first);
        lemma_names_join(first, inner);
        lemma_names_one(first);
        let none = Seq::<char>::empty();
        assert(tail =~= none + seq!['/'] + inner);
        lemma_names_join(none, inner);
        assert(names(none) + names(inner) =~= names(inner));
        assert(n > 0) by {
            if n == 0 {
                assert(path =~= tail);
            }
        }
        assert(components(path).len() == 1 + names(inner).len()) by {
            reveal_strlit("");
            assert(first.len() > 0);
            if first == "."@ {
                assert(!is_name(first));
            } else {
                assert(is_name(first));
            }
        }
        assert(s[0] == path[0]);
        lemma_trimmed_left(tail);
        lemma_trimmed_left_before(tail, rest);
        lemma_after_names(trimmed_left(tail), rest);
        assert(after_component(s) == trimmed_left(tail) + rest);
    }
}

/// A path with something behind a slash has the names of that after its components.
proof fn lemma_components_behind(stem: Seq<char>, tail: Seq<char>)
    requires
        stem.len() > 0,
    ensures
        components(stem + seq!['/'] + tail) == components(stem) + names(tail),
{
    let full = stem + seq!['/'] + tail;
    lemma_split_at(stem, tail, '/');
    lemma_names_join(stem, tail);
    assert(split(stem, '/').len() > 0);
    assert(split(full, '/')[0] == split(stem, '/')[0]);
    assert(full[0] == stem[0]);
    assert(components(full) =~= components(stem) + names(tail));
}

proof fn lemma_components_of_root(tail: Seq<char>)
    ensures
        components(seq!['/'] + tail) == seq!["/"@] + names(tail),
{
    let none = Seq::<char>::empty();
    let full = seq!['/'] + tail;
    lemma_nothing_named();
    assert(full =~= none + seq!['/'] + tail);
    lemma_names_join(none, tail);
    assert(names(none) + names(tail) =~= names(tail));
    assert(full[0] == '/');
}

/// A path with a slash at its end.
spec fn opened(path: Seq<char>) -> Seq<char> {
    if path.len() > 0 && path.last() != '/' {
        path + seq!['/']
    } else {
        path
    }
}

proof fn lemma_opened(path: Seq<char>, rest: Seq<char>)
    ensures
        is_open(opened(path)),
        components(opened(path)) == components(path),
        path.len() > 0 ==> components(opened(path) + rest) == components(path) + names(rest),
{
    let none = Seq::<char>::empty();
    lemma_nothing_named();
    if path.len() > 0 {
        if path.last() != '/' {
            assert(opened(path) =~= path + seq!['/'] + none);
            lemma_components_behind(path, none);
            assert(components(path) + names(none) =~= components(path));
            lemma_components_behind(path, rest);
        } else {
            let stem = path.drop_last();
            assert(path =~= stem + seq!['/']);
            if stem.len() > 0 {
                assert(path =~= stem + seq!['/'] + none);
                lemma_components_behind(stem, none);
                assert(components(stem) + names(none) =~= components(stem));
                lemma_components_behind(stem, rest);
            } else {
                assert(path =~= seq!['/'] + none);
                lemma_components_of_root(none);
                lemma_components_of_root(rest);
                assert(path + rest =~= seq!['/'] + rest);
                assert(seq!["/"@] + names(none) =~= seq!["/"@]);
            }
        }
    }
}

/// A path begins with the components of one that it was put behind.
proof fn lemma_begins_with(path: Seq<char>, rest: Seq<char>)
    requires
        rest.len() > 0,
        rest[0] != '/',
    ensures
        path_starts_with(joined(path, rest), path),
        joined(path, rest) == opened(path) + rest,
{
    reveal_strlit("/");
    reveal_strlit(".");
    assert("/"@ =~= seq!['/']);
    let none = Seq::<char>::empty();
    let full = joined(path, rest);
    assert(full =~= opened(path) + rest);
    lemma_opened(path, rest);
    if path.len() == 0 {
        assert(path =~= none);
        lemma_nothing_named();
        lemma_split_one(none, '/');
        assert(split(none, '/')[0].len() == 0);
        assert(components(path) =~= names(none));
        assert(components(full).take(0) =~= components(path));
    } else {
        assert(components(full).take(components(path).len() as int) =~= components(path));
    }
}

/// A path that lies behind another one, once it was put there, is what is seen from that one: a
/// path that begins with a name and ends with one.
pub proof fn lemma_seen_from(base: Seq<char>, path: Seq<char>)
    requires
        path.len() > 0,
        path[0] != '/',
        path[0] != '.' || path.len() > 1 && path[1] != '/',
        path.last() != '/',
        path.last() != '.' || path.len() > 1 && path[path.len() - 2] != '/',
    ensures
        relative_to(joined(base, path), base) == Some(path),
{
    assert(begins_with_name(path));
    lemma_begins_with(base, path);
    lemma_opened(base, path);
    lemma_after_path(opened(base), path);
    assert(trimmed_right(path, 0) == path);
    if components(base).len() == 0 {
        assert(after_components(joined(base, path), 0) == joined(base, path));
        assert(joined(base, path) == path);
        assert(kept_start(path) == 0);
    }
}

/// A note for an entry that was picked goes to that entry's file, named as it is seen from the
/// journal's directory: the three names of the entry, with the extension at the end.
pub proof fn lemma_picked_entry_is_target(
    journal_dir: Seq<char>,
    year: Seq<char>,
    month: Seq<char>,
    day: Seq<char>,
)
    requires
        is_plain_name(year),
        is_plain_name(month),
        is_plain_name(day),
    ensures
        entry_path(journal_dir, year + "/"@ + month + "/"@ + day) matches Some(path) && entry_target(
            path,
            journal_dir,
        ) == year + "/"@ + month + "/"@ + day + ".org"@,
{
    reveal_strlit("/");
    let slash = seq!['/'];
    assert("/"@ =~= slash);
    let target = year + slash + month + slash + day + ".org"@;
    lemma_pieces(year, month, day);
    lemma_plain(year);
    lemma_plain(month);
    lemma_plain(day);
    lemma_joined_thrice(journal_dir, year, month, day + ".org"@);
    assert(year + slash + month + slash + (day + ".org"@) =~= target);
    lemma_target_ends(year + slash + month + slash + day);
    assert(target[0] == year[0]);
    assert(target[0] != '.' || target[1] != '/') by {
        if year.len() > 1 {
            assert(target[1] == year[1]);
        }
    }
    lemma_seen_from(journal_dir, target);
}

proof fn lemma_plain(name: Seq<char>)
    requires
        is_plain_name(name),
    ensures
        name.len() > 0,
        name[0] != '/',
        name.last() != '/',
        name.len() == 1 ==> name[0] != '.',
{
    reveal_strlit("");
    reveal_strlit(".");
    if name.len() == 0 {
        assert(name =~= ""@);
    }
    if name.len() == 1 && name[0] == '.' {
        assert(name =~= "."@);
    }
}

proof fn lemma_target_ends(stem: Seq<char>)
    ensures
        (stem + ".org"@).last() == 'g',
{
    reveal_strlit(".org");
}

proof fn lemma_joined_thrice(dir: Seq<char>, a: Seq<char>, b: Seq<char>, c: Seq<char>)
    requires
        a.len() > 0 && a[0] != '/' && a.last() != '/',
        b.len() > 0 && b[0] != '/' && b.last() != '/',
        c.len() > 0 && c[0] != '/',
    ensures
        joined(joined(joined(dir, a), b), c) == joined(dir, a + seq!['/'] + b + seq!['/'] + c),
{
    reveal_strlit("/");
    let slash = seq!['/'];
    assert("/"@ =~= slash);
    let one = joined(dir, a);
    assert(one.last() == a.last());
    let two = joined(one, b);
    assert(two =~= one + slash + b);
    assert(two.last() == b.last());
    let whole = a + slash + b + slash + c;
    assert(whole[0] == a[0]);
    assert(joined(two, c) =~= one + slash + b + slash + c);
    assert(joined(dir, whole) =~= one + slash + b + slash + c);
}

/// A name inside a directory begins with the directory and ends with the name, with a separator
/// between the two unless the directory ends with one or is empty; on Windows a drive alone takes
/// none either.
pub proof fn lemma_name_inside(dir: Seq<char>, name: Seq<char>, style: PathStyle)
    requires
        dir.len() > 0,
        name.len() > 0 && name[0] != '/',
    ensures
        ({
            let path = inside(dir, name, style);
            &&& style is Posix && dir.last() == '/' ==> path == dir + name
            &&& style is Posix && dir.last() != '/' ==> path == dir + "/"@ + name
            &&& style is Windows && (dir.last() == '/' || dir.last() == '\\') ==> path == dir + name
            &&& style is Windows && dir.len() > 2 && dir.last() != '/' && dir.last() != '\\'
                ==> path == dir + "\\"@ + name
            &&& style is Windows && dir.len() == 2 && dir[1] == ':' && ('a' <= dir[0] <= 'z' || 'A'
                <= dir[0] <= 'Z') ==> path == dir + name
        }),
{
}

/// The variables of a path without dollar signs can be told apart. Behind text without any, a
/// dollar sign before a letter or digit that is not ASCII cannot be told apart from what follows,
/// and one before white space, or another sign that begins no variable, does not count.
pub proof fn lemma_expandable(before: Seq<char>, c: char, after: Seq<char>)
    requires
        lacks(before, '$'),
    ensures
        is_expandable(before),
        is_variable_char(c) && c > '\u{7f}' ==> !is_expandable(before + seq!['$', c] + after),
        !is_variable_char(c) && c != '$' && c != '{' ==> is_expandable(before + seq!['$', c] + after)
            == is_expandable(seq![c] + after),
    decreases before.len(),
{
    let s = before + seq!['$', c] + after;
    if before.len() == 0 {
        assert(s[0] == '$' && s[1] == c);
        assert(s.skip(1) =~= seq![c] + after);
    } else {
        let rest = before.skip(1);
        assert forall|i: int| 0 <= i < rest.len() implies rest[i] != '$' by {
            assert(rest[i] == before[i + 1]);
        }
        lemma_expandable(rest, c, after);
        assert(s[0] == before[0]);
        assert(s.skip(1) =~= rest + seq!['$', c] + after);
    }
}

/// A path begins at a root if it begins with a slash; on Windows, if it begins with the letter of a
/// drive, a colon and a separator, or with the names of a server and of a share.
pub proof fn lemma_roots(c: char, rest: Seq<char>, server: Seq<char>, share: Seq<char>)
    requires
        server.len() > 0 && lacks(server, '/') && lacks(server, '\\'),
        share.len() > 0 && share[0] != '/' && share[0] != '\\',
    ensures
        is_rooted(seq![c] + rest, PathStyle::Posix) <==> c == '/',
        !is_rooted(Seq::empty(), PathStyle::Posix),
        'a' <= c <= 'z' || 'A' <= c <= 'Z' ==> {
            &&& is_rooted(seq![c, ':', '\\'] + rest, PathStyle::Windows)
            &&& is_rooted(seq![c, ':', '/'] + rest, PathStyle::Windows)
            &&& !is_rooted(seq![c, ':'] + share, PathStyle::Windows)
            &&& !is_rooted(seq![c] + share, PathStyle::Windows) || share[0] == ':'
        },
        is_rooted(seq!['\\', '\\'] + server + seq!['\\'] + share, PathStyle::Windows),
        !is_rooted(seq!['/'] + share, PathStyle::Windows),
{
    let net = seq!['\\', '\\'] + server + seq!['\\'] + share;
    let at = 2 + server.len() as int;
    assert(net[0] == '\\' && net[1] == '\\' && net[at] == '\\');
    assert forall|j: int| 2 <= j < at implies !is_separator(#[trigger] net[j]) by {
        assert(net[j] == server[j - 2]);
    }
    assert(net[at + 1] == share[0]);
    assert(has_share_at(net, at));
    let drive = seq![c, ':', '\\'] + rest;
    assert(drive[0] == c && drive[1] == ':' && drive[2] == '\\');
    let slashed = seq![c, ':', '/'] + rest;
    assert(slashed[0] == c && slashed[1] == ':' && slashed[2] == '/');
    let bare = seq![c, ':'] + share;
    assert(bare[0] == c && bare[1] == ':' && bare[2] == share[0]);
    let name = seq![c] + share;
    assert(name[0] == c && name[1] == share[0]);
    let root = seq!['/'] + share;
    assert(root[0] == '/' && root[1] == share[0]);
    assert((seq![c] + rest)[0] == c);
}

} // verus!

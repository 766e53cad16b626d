//! Tags: where they stand in a journal, and completing one that is being typed.
use crate::agenda::{colon_tags, is_headline, line_is_headline, read_colon_tags};
use crate::buffer::{byte_len, head, slice, tail};
use crate::order::{add_text, add_texts, lemma_with_text, sort_distinct, sorted_listing, with_text};
use crate::paths::{is_org, is_org_file};
use crate::patterns::option_text;
use crate::syntax::{find_last, last_of_kind, SyntaxNode};
use crate::text::{
    chars_of, contains, contains_text, lemma_texts_push, lowercase, rfind, rfind_text, same_text,
    split, split_text, starts_with, starts_with_text, texts, trim, trim_end, trim_of, trim_start,
    trim_start_of, utf8_len, words, words_of, CharClass,
};
use crate::todo::{node_fits, node_text};
use vstd::prelude::*;
use vstd::string::*;

verus! {

/// The tag that a word stands for: what follows its number signs, without the characters around
/// it that cannot stand in a tag.
pub open spec fn hashtag(word: Seq<char>) -> Option<Seq<char>> {
    let tag = trim(trim_start(word, CharClass::Hash), CharClass::NotTag);
    if word.len() > 1 && word[0] == '#' && tag.len() > 0 {
        Some(tag)
    } else {
        None
    }
}

/// The tag that a word stands for.
pub fn hashtag_of(word: &str) -> (r: Option<String>)
    ensures
        option_text(r) == hashtag(word@),
{
    if word.unicode_len() > 1 && word.get_char(0) == '#' {
        let tag = trim_of(trim_start_of(word, CharClass::Hash), CharClass::NotTag);
        if tag.unicode_len() > 0 {
            return Some(tag.to_owned());
        }
    }
    None
}

/// A tag of a list, without white space and the characters around it that cannot stand in one.
pub open spec fn listed_tag(piece: Seq<char>) -> Option<Seq<char>> {
    let tag = trim(trim(piece, CharClass::Space), CharClass::NotTag);
    if tag.len() > 0 {
        Some(tag)
    } else {
        None
    }
}

/// A tag of a list.
pub fn listed_tag_of(piece: &str) -> (r: Option<String>)
    ensures
        option_text(r) == listed_tag(piece@),
{
    let tag = trim_of(trim_of(piece, CharClass::Space), CharClass::NotTag);
    if tag.unicode_len() > 0 {
        Some(tag.to_owned())
    } else {
        None
    }
}

/// The line lists tags: it begins, after white space, with `tags:` in any case.
pub open spec fn is_tag_line(line: Seq<char>) -> bool {
    starts_with(lowercase(trim(line, CharClass::Space)), "tags:"@)
}

/// What stands between the first colon of a line and the second.
pub open spec fn after_colon(line: Seq<char>) -> Seq<char> {
    let pieces = split(line, ':');
    if pieces.len() > 1 {
        pieces[1]
    } else {
        Seq::empty()
    }
}

/// The word or list piece gives the tag.
pub open spec fn has_tag(line: Seq<char>, tag: Seq<char>) -> bool {
    ||| exists|i: int| 0 <= i < words(line).len() && hashtag(#[trigger] words(line)[i]) == Some(tag)
    ||| is_tag_line(line) && exists|i: int|
        0 <= i < split(after_colon(line), ',').len() && listed_tag(
            #[trigger] split(after_colon(line), ',')[i],
        ) == Some(tag)
}

/// The tags on a line: its words that begin with a number sign, and the pieces of its list if it
/// lists tags.
pub open spec fn line_tags(line: Seq<char>) -> Set<Seq<char>> {
    Set::new(|tag: Seq<char>| has_tag(line, tag))
}

/// The text is one that can be a tag: it begins and ends with a character that can stand in one.
pub open spec fn is_tag(tag: Seq<char>) -> bool {
    &&& tag.len() > 0
    &&& !CharClass::NotTag.holds(tag[0])
    &&& !CharClass::NotTag.holds(tag.last())
}

/// Nothing of a class is left at the beginning of what it was trimmed from there.
proof fn lemma_trim_start(s: Seq<char>, class: CharClass)
    ensures
        trim_start(s, class).len() > 0 ==> !class.holds(trim_start(s, class)[0]),
    decreases s.len(),
{
    if s.len() > 0 && class.holds(s[0]) {
        lemma_trim_start(s.skip(1), class);
    }
}

/// Nothing of a class is left at the end of what it was trimmed from there, which begins as before.
proof fn lemma_trim_end(s: Seq<char>, class: CharClass)
    ensures
        trim_end(s, class).len() > 0 ==> !class.holds(trim_end(s, class).last()),
        trim_end(s, class).len() > 0 ==> s.len() > 0 && trim_end(s, class)[0] == s[0],
    decreases s.len(),
{
    if s.len() > 0 && class.holds(s.last()) {
        lemma_trim_end(s.drop_last(), class);
    }
}

/// What is found on a line can be a tag.
pub proof fn lemma_line_tags(line: Seq<char>, tag: Seq<char>)
    requires
        line_tags(line).contains(tag),
    ensures
        is_tag(tag),
{
    let class = CharClass::NotTag;
    if exists|i: int| 0 <= i < words(line).len() && hashtag(#[trigger] words(line)[i]) == Some(tag) {
        let i = choose|i: int|
            0 <= i < words(line).len() && hashtag(#[trigger] words(line)[i]) == Some(tag);
        let word = trim_start(words(line)[i], CharClass::Hash);
        lemma_trim_start(word, class);
        lemma_trim_end(trim_start(word, class), class);
    } else {
        let pieces = split(after_colon(line), ',');
        let i = choose|i: int| 0 <= i < pieces.len() && listed_tag(#[trigger] pieces[i]) == Some(tag);
        let piece = trim(pieces[i], CharClass::Space);
        lemma_trim_start(piece, class);
        lemma_trim_end(trim_start(piece, class), class);
    }
}

/// The tags that each piece of a list gives.
pub open spec fn tags_from(pieces: Seq<Seq<char>>, listed: bool) -> Set<Seq<char>> {
    Set::new(
        |tag: Seq<char>|
            exists|i: int|
                0 <= i < pieces.len() && tag_from(#[trigger] pieces[i], listed) == Some(tag),
    )
}

/// The tag that a word, or a piece of a list, gives.
pub open spec fn tag_from(piece: Seq<char>, listed: bool) -> Option<Seq<char>> {
    if listed {
        listed_tag(piece)
    } else {
        hashtag(piece)
    }
}

/// Adds the tags that words, or pieces of a list, give.
fn add_tags(pieces: &Vec<String>, listed: bool, tags: &mut Vec<String>)
    requires
        texts(old(tags)@).no_duplicates(),
    ensures
        texts(final(tags)@).no_duplicates(),
        texts(final(tags)@).to_set() == texts(old(tags)@).to_set().union(
            tags_from(texts(pieces@), listed),
        ),
{
    let ghost all = texts(pieces@);
    let ghost before = texts(tags@).to_set();
    let mut i: usize = 0;
    assert(tags_from(all.take(0), listed) =~= Set::<Seq<char>>::empty());
    assert(before.union(tags_from(all.take(0), listed)) =~= before);
    while i < pieces.len()
        invariant
            i <= pieces@.len(),
            all == texts(pieces@),
            texts(tags@).no_duplicates(),
            texts(tags@).to_set() == before.union(tags_from(all.take(i as int), listed)),
        decreases pieces@.len() - i,
    {
        assert(all[i as int] == pieces@[i as int]@);
        let tag = if listed {
            listed_tag_of(pieces[i].as_str())
        } else {
            hashtag_of(pieces[i].as_str())
        };
        if let Some(tag) = &tag {
            proof {
                lemma_with_text(texts(tags@), tag@);
            }
            add_text(tags, tag.as_str());
        }
        proof {
            let a = all.take(i as int);
            let b = all.take(i + 1);
            assert forall|t: Seq<char>| tags_from(b, listed).contains(t) <==> tags_from(
                a,
                listed,
            ).contains(t) || option_text(tag) == Some(t) by {
                if tags_from(a, listed).contains(t) {
                    let k = choose|k: int|
                        0 <= k < a.len() && tag_from(#[trigger] a[k], listed) == Some(t);
                    assert(tag_from(b[k], listed) == Some(t));
                }
                if option_text(tag) == Some(t) {
                    assert(tag_from(b[i as int], listed) == Some(t));
                }
                if tags_from(b, listed).contains(t) {
                    let k = choose|k: int|
                        0 <= k < b.len() && tag_from(#[trigger] b[k], listed) == Some(t);
                    if k < i {
                        assert(tag_from(a[k], listed) == Some(t));
                    }
                }
            }
            assert(texts(tags@).to_set() =~= before.union(tags_from(b, listed)));
        }
        i += 1;
    }
    assert(all.take(i as int) == all);
}

/// Adds the tags on a line to those that were found.
pub fn extract_tags_from_line(line: &str, tags: &mut Vec<String>)
    requires
        texts(old(tags)@).no_duplicates(),
    ensures
        texts(final(tags)@).no_duplicates(),
        texts(final(tags)@).to_set() == texts(old(tags)@).to_set().union(line_tags(line@)),
{
    let ghost before = texts(tags@).to_set();
    let all_words = words_of(line);
    add_tags(&all_words, false, tags);
    let ghost hash = tags_from(words(line@), false);
    let lower = trim_of(line, CharClass::Space).to_lowercase();
    if starts_with_text(lower.as_str(), "tags:") {
        let pieces = split_text(line, ':');
        assert(texts(pieces@).len() == pieces@.len());
        let part = if pieces.len() > 1 {
            assert(texts(pieces@)[1] == pieces@[1]@);
            pieces[1].clone()
        } else {
            String::new()
        };
        assert(part@ == after_colon(line@));
        let list = split_text(part.as_str(), ',');
        add_tags(&list, true, tags);
    }
    proof {
        let listed = tags_from(split(after_colon(line@), ','), true);
        assert forall|t: Seq<char>| line_tags(line@).contains(t) <==> hash.contains(t)
            || is_tag_line(line@) && listed.contains(t) by {
            if hash.contains(t) {
                let k = choose|k: int|
                    0 <= k < words(line@).len() && tag_from(#[trigger] words(line@)[k], false) == Some(
                        t,
                    );
                assert(hashtag(words(line@)[k]) == Some(t));
            }
            if listed.contains(t) {
                let s = split(after_colon(line@), ',');
                let k = choose|k: int|
                    0 <= k < s.len() && tag_from(#[trigger] s[k], true) == Some(t);
                assert(listed_tag(split(after_colon(line@), ',')[k]) == Some(t));
            }
            if line_tags(line@).contains(t) {
                if exists|i: int|
                    0 <= i < words(line@).len() && hashtag(#[trigger] words(line@)[i]) == Some(t) {
                    let i = choose|i: int|
                        0 <= i < words(line@).len() && hashtag(#[trigger] words(line@)[i]) == Some(
                            t,
                        );
                    assert(tag_from(words(line@)[i], false) == Some(t));
                } else {
                    let s = split(after_colon(line@), ',');
                    let i = choose|i: int|
                        0 <= i < s.len() && listed_tag(
                            #[trigger] split(after_colon(line@), ',')[i],
                        ) == Some(t);
                    assert(tag_from(s[i], true) == Some(t));
                }
            }
        }
        assert(texts(tags@).to_set() =~= before.union(line_tags(line@)));
    }
}

/// The tags on some lines.
pub open spec fn tags_on_lines(all: Seq<Seq<char>>) -> Set<Seq<char>> {
    Set::new(
        |tag: Seq<char>| exists|i: int| 0 <= i < all.len() && has_tag(#[trigger] all[i], tag),
    )
}

/// Adds the tags of a file's lines to those that were found.
pub fn extract_tags_from_file(file_lines: &Vec<String>, tags: &mut Vec<String>)
    requires
        texts(old(tags)@).no_duplicates(),
    ensures
        texts(final(tags)@).no_duplicates(),
        texts(final(tags)@).to_set() == texts(old(tags)@).to_set().union(
            tags_on_lines(texts(file_lines@)),
        ),
{
    let ghost all = texts(file_lines@);
    let ghost before = texts(tags@).to_set();
    let mut i: usize = 0;
    assert(before.union(tags_on_lines(all.take(0))) =~= before);
    while i < file_lines.len()
        invariant
            i <= file_lines@.len(),
            all == texts(file_lines@),
            texts(tags@).no_duplicates(),
            texts(tags@).to_set() == before.union(tags_on_lines(all.take(i as int))),
        decreases file_lines@.len() - i,
    {
        assert(all[i as int] == file_lines@[i as int]@);
        extract_tags_from_line(file_lines[i].as_str(), tags);
        proof {
            let a = all.take(i as int);
            let b = all.take(i + 1);
            assert forall|t: Seq<char>| tags_on_lines(b).contains(t) <==> tags_on_lines(a).contains(t)
                || line_tags(all[i as int]).contains(t) by {
                if tags_on_lines(a).contains(t) {
                    let k = choose|k: int| 0 <= k < a.len() && has_tag(#[trigger] a[k], t);
                    assert(has_tag(b[k], t));
                }
                if line_tags(all[i as int]).contains(t) {
                    assert(has_tag(b[i as int], t));
                }
                if tags_on_lines(b).contains(t) {
                    let k = choose|k: int| 0 <= k < b.len() && has_tag(#[trigger] b[k], t);
                    if k < i {
                        assert(has_tag(a[k], t));
                    }
                }
            }
            assert(texts(tags@).to_set() =~= before.union(tags_on_lines(b)));
        }
        i += 1;
    }
    assert(all.take(i as int) == all);
}

/// The lines of files.
pub open spec fn lines_of_files(files: Seq<Vec<String>>) -> Seq<Seq<Seq<char>>> {
    files.map_values(|lines: Vec<String>| texts(lines@))
}

/// The tags on the lines of some files.
pub open spec fn tags_in_files(files: Seq<Seq<Seq<char>>>) -> Set<Seq<char>> {
    Set::new(
        |tag: Seq<char>|
            exists|i: int| 0 <= i < files.len() && tags_on_lines(#[trigger] files[i]).contains(tag),
    )
}

/// The tags on the lines of some files, each once, in order.
pub fn scan_tags(files: &Vec<Vec<String>>) -> (r: Vec<String>)
    ensures
        sorted_listing(texts(r@), tags_in_files(lines_of_files(files@))),
{
    let ghost all = lines_of_files(files@);
    let mut tags: Vec<String> = Vec::new();
    let mut i: usize = 0;
    assert(texts(tags@).to_set() =~= tags_in_files(all.take(0)));
    while i < files.len()
        invariant
            i <= files@.len(),
            all == lines_of_files(files@),
            texts(tags@).no_duplicates(),
            texts(tags@).to_set() == tags_in_files(all.take(i as int)),
        decreases files@.len() - i,
    {
        assert(all[i as int] == texts(files@[i as int]@));
        extract_tags_from_file(&files[i], &mut tags);
        proof {
            let a = all.take(i as int);
            let b = all.take(i + 1);
            assert forall|t: Seq<char>| tags_in_files(b).contains(t) <==> tags_in_files(a).contains(t)
                || tags_on_lines(all[i as int]).contains(t) by {
                if tags_in_files(a).contains(t) {
                    let k = choose|k: int|
                        0 <= k < a.len() && tags_on_lines(#[trigger] a[k]).contains(t);
                    assert(tags_on_lines(b[k]).contains(t));
                }
                if tags_on_lines(all[i as int]).contains(t) {
                    assert(tags_on_lines(b[i as int]).contains(t));
                }
                if tags_in_files(b).contains(t) {
                    let k = choose|k: int|
                        0 <= k < b.len() && tags_on_lines(#[trigger] b[k]).contains(t);
                    if k < i {
                        assert(tags_on_lines(a[k]).contains(t));
                    }
                }
            }
            assert(texts(tags@).to_set() =~= tags_in_files(b));
        }
        i += 1;
    }
    assert(all.take(i as int) == all);
    sort_distinct(&tags)
}

/// Adds the tags that stand between colons in a file to those that were found.
pub fn collect_tags_from_content(content: &str, tags: &mut Vec<String>)
    requires
        texts(old(tags)@).no_duplicates(),
    ensures
        texts(final(tags)@).no_duplicates(),
        texts(final(tags)@).to_set() == texts(old(tags)@).to_set().union(
            colon_tags(content@).to_set(),
        ),
{
    let found = read_colon_tags(content);
    add_texts(tags, &found);
}

/// The tags that stand between colons in some texts.
pub open spec fn tags_in_texts(contents: Seq<Seq<char>>) -> Set<Seq<char>> {
    Set::new(
        |tag: Seq<char>|
            exists|i: int|
                0 <= i < contents.len() && colon_tags(#[trigger] contents[i]).contains(tag),
    )
}

/// The tags that stand between colons in a journal's files, each once, given what these hold.
pub fn collect_tags_from_journal_directory(contents: &Vec<String>) -> (r: Vec<String>)
    ensures
        texts(r@).no_duplicates(),
        texts(r@).to_set() == tags_in_texts(texts(contents@)),
{
    let ghost all = texts(contents@);
    let mut tags: Vec<String> = Vec::new();
    let mut i: usize = 0;
    assert(texts(tags@).to_set() =~= tags_in_texts(all.take(0)));
    while i < contents.len()
        invariant
            i <= contents@.len(),
            all == texts(contents@),
            texts(tags@).no_duplicates(),
            texts(tags@).to_set() == tags_in_texts(all.take(i as int)),
        decreases contents@.len() - i,
    {
        assert(all[i as int] == contents@[i as int]@);
        collect_tags_from_content(contents[i].as_str(), &mut tags);
        proof {
            let a = all.take(i as int);
            let b = all.take(i + 1);
            assert forall|t: Seq<char>| tags_in_texts(b).contains(t) <==> tags_in_texts(a).contains(t)
                || colon_tags(all[i as int]).contains(t) by {
                if tags_in_texts(a).contains(t) {
                    let k = choose|k: int|
                        0 <= k < a.len() && colon_tags(#[trigger] a[k]).contains(t);
                    assert(colon_tags(b[k]).contains(t));
                }
                if colon_tags(all[i as int]).contains(t) {
                    assert(colon_tags(b[i as int]).contains(t));
                }
                if tags_in_texts(b).contains(t) {
                    let k = choose|k: int|
                        0 <= k < b.len() && colon_tags(#[trigger] b[k]).contains(t);
                    if k < i {
                        assert(colon_tags(a[k]).contains(t));
                    }
                }
            }
            assert(texts(tags@).to_set() =~= tags_in_texts(b));
        }
        i += 1;
    }
    assert(all.take(i as int) == all);
    tags
}

/// The node and all below it stand between characters of the buffer.
pub open spec fn all_fit(buffer_text: Seq<char>, node: SyntaxNode) -> bool
    decreases node,
{
    node_fits(buffer_text, node) && all_fit_in(buffer_text, node.children@)
}

/// The nodes and all below them stand between characters of the buffer.
pub open spec fn all_fit_in(buffer_text: Seq<char>, nodes: Seq<SyntaxNode>) -> bool
    decreases nodes,
{
    if nodes.len() == 0 {
        true
    } else {
        all_fit_in(buffer_text, nodes.subrange(0, nodes.len() - 1)) && all_fit(
            buffer_text,
            nodes[nodes.len() - 1],
        )
    }
}

/// What fits below a list of nodes fits below each of them.
proof fn lemma_all_fit(buffer_text: Seq<char>, nodes: Seq<SyntaxNode>, i: int)
    requires
        all_fit_in(buffer_text, nodes),
        0 <= i < nodes.len(),
    ensures
        all_fit(buffer_text, nodes[i]),
    decreases nodes.len(),
{
    let init = nodes.subrange(0, nodes.len() - 1);
    if i < init.len() {
        lemma_all_fit(buffer_text, init, i);
        assert(init[i] == nodes[i]);
    }
}

/// The tag of a node without its colons, if the node is a tag and anything is left.
pub open spec fn clean_tag(buffer_text: Seq<char>, node: SyntaxNode) -> Option<Seq<char>> {
    let tag = trim(node_text(buffer_text, node), CharClass::Colon);
    if node.kind@ == "tag"@ && tag.len() > 0 {
        Some(tag)
    } else {
        None
    }
}

/// The tag of a node without its colons.
fn clean_tag_of(buffer_text: &str, node: &SyntaxNode) -> (r: Option<String>)
    requires
        node_fits(buffer_text@, *node),
    ensures
        option_text(r) == clean_tag(buffer_text@, *node),
{
    if same_text(node.kind.as_str(), "tag") {
        let text = slice(buffer_text, node.start_byte, node.end_byte);
        let tag = trim_of(text, CharClass::Colon);
        if tag.unicode_len() > 0 {
            return Some(tag.to_owned());
        }
    }
    None
}

/// The tags of a node and of all below it.
pub open spec fn tags_below(buffer_text: Seq<char>, node: SyntaxNode) -> Set<Seq<char>>
    decreases node,
{
    let below = tags_below_all(buffer_text, node.children@);
    match clean_tag(buffer_text, node) {
        Some(tag) => below.insert(tag),
        None => below,
    }
}

/// The tags of some nodes and of all below them.
pub open spec fn tags_below_all(buffer_text: Seq<char>, nodes: Seq<SyntaxNode>) -> Set<Seq<char>>
    decreases nodes,
{
    if nodes.len() == 0 {
        Set::empty()
    } else {
        tags_below_all(buffer_text, nodes.subrange(0, nodes.len() - 1)).union(
            tags_below(buffer_text, nodes[nodes.len() - 1]),
        )
    }
}

/// Adds the tags of a node and of all below it.
fn visit_node(buffer_text: &str, node: &SyntaxNode, tags: &mut Vec<String>)
    requires
        all_fit(buffer_text@, *node),
        texts(old(tags)@).no_duplicates(),
    ensures
        texts(final(tags)@).no_duplicates(),
        texts(final(tags)@).to_set() == texts(old(tags)@).to_set().union(
            tags_below(buffer_text@, *node),
        ),
    decreases node,
{
    let ghost before = texts(tags@).to_set();
    let tag = clean_tag_of(buffer_text, node);
    if let Some(tag) = &tag {
        proof {
            lemma_with_text(texts(tags@), tag@);
        }
        add_text(tags, tag.as_str());
    }
    let ghost own = texts(tags@).to_set();
    let ghost children = node.children@;
    let mut i: usize = 0;
    proof {
        assert(children.subrange(0, 0) == Seq::<SyntaxNode>::empty());
        assert(own.union(tags_below_all(buffer_text@, children.subrange(0, 0))) =~= own);
    }
    while i < node.children.len()
        invariant
            i <= node.children@.len(),
            children == node.children@,
            all_fit_in(buffer_text@, children),
            texts(tags@).no_duplicates(),
            texts(tags@).to_set() == own.union(
                tags_below_all(buffer_text@, children.subrange(0, i as int)),
            ),
        decreases node.children@.len() - i,
    {
        proof {
            lemma_all_fit(buffer_text@, children, i as int);
            let next = children.subrange(0, i + 1);
            assert(next.subrange(0, next.len() - 1) == children.subrange(0, i as int));
            assert(next[next.len() - 1] == children[i as int]);
        }
        visit_node(buffer_text, &node.children[i], tags);
        assert(texts(tags@).to_set() =~= own.union(
            tags_below_all(buffer_text@, children.subrange(0, i + 1)),
        ));
        i += 1;
    }
    proof {
        assert(children.subrange(0, i as int) == children);
        assert(texts(tags@).to_set() =~= before.union(tags_below(buffer_text@, *node)));
    }
}

/// The tags in a buffer, given the root of its syntax tree, if it has one.
pub fn collect_tags_from_buffer(buffer_text: &str, root: Option<&SyntaxNode>) -> (r: Vec<String>)
    requires
        root matches Some(node) ==> all_fit(buffer_text@, *node),
    ensures
        texts(r@).no_duplicates(),
        texts(r@).to_set() == match root {
            Some(node) => tags_below(buffer_text@, *node),
            None => Set::empty(),
        },
{
    let mut tags: Vec<String> = Vec::new();
    assert(texts(tags@).to_set() =~= Set::<Seq<char>>::empty());
    if let Some(node) = root {
        visit_node(buffer_text, node, &mut tags);
        assert(texts(tags@).to_set() =~= tags_below(buffer_text@, *node));
    }
    tags
}

/// A headline: its row, how deep it lies, and its tags.
pub struct TaggedHeadline {
    pub row: u32,
    pub level: u32,
    pub tags: Vec<String>,
}

/// What is known of a headline: its row, how deep it lies, and its tags.
pub type HeadlineTags = (u32, u32, Seq<Seq<char>>);

impl View for TaggedHeadline {
    type V = HeadlineTags;

    /// The row, the depth and the tags.
    open spec fn view(&self) -> HeadlineTags {
        (self.row, self.level, texts(self.tags@))
    }
}

/// What is known of several headlines.
pub open spec fn headline_views(headlines: Seq<TaggedHeadline>) -> Seq<HeadlineTags> {
    headlines.map_values(|h: TaggedHeadline| h@)
}

/// The number of stars in a text.
pub open spec fn star_count(s: Seq<char>) -> nat
    decreases s.len(),
{
    if s.len() == 0 {
        0
    } else {
        star_count(s.drop_last()) + if s.last() == '*' {
            1nat
        } else {
            0
        }
    }
}

/// The number of stars in a text.
fn count_stars(s: &str) -> (r: usize)
    ensures
        r == star_count(s@),
{
    let cs = chars_of(s);
    let mut n: usize = 0;
    let mut i: usize = 0;
    while i < cs.len()
        invariant
            cs@ == s@,
            i <= cs@.len(),
            n == star_count(s@.take(i as int)),
            n <= i,
        decreases cs@.len() - i,
    {
        assert(s@.take(i + 1).drop_last() == s@.take(i as int));
        if cs[i] == '*' {
            n += 1;
        }
        i += 1;
    }
    assert(s@.take(i as int) == s@);
    n
}

/// The tags among some nodes, in turn.
pub open spec fn tags_among(buffer_text: Seq<char>, nodes: Seq<SyntaxNode>) -> Seq<Seq<char>>
    decreases nodes.len(),
{
    if nodes.len() == 0 {
        Seq::empty()
    } else {
        let before = tags_among(buffer_text, nodes.drop_last());
        match clean_tag(buffer_text, nodes.last()) {
            Some(tag) => before.push(tag),
            None => before,
        }
    }
}

/// The tags in the tag lists among some nodes, in turn.
pub open spec fn tags_listed(buffer_text: Seq<char>, nodes: Seq<SyntaxNode>) -> Seq<Seq<char>>
    decreases nodes.len(),
{
    if nodes.len() == 0 {
        Seq::empty()
    } else {
        let before = tags_listed(buffer_text, nodes.drop_last());
        if nodes.last().kind@ == "tag_list"@ {
            before + tags_among(buffer_text, nodes.last().children@)
        } else {
            before
        }
    }
}

/// How deep a headline lies: the number of its stars.
pub open spec fn headline_level(buffer_text: Seq<char>, node: SyntaxNode) -> u32 {
    match last_of_kind(node.children@, "stars"@) {
        Some(stars) => star_count(node_text(buffer_text, stars)) as u32,
        None => 0,
    }
}

/// What is known of a headline.
pub open spec fn headline_tags(buffer_text: Seq<char>, node: SyntaxNode) -> HeadlineTags {
    (node.start_row, headline_level(buffer_text, node), tags_listed(buffer_text, node.children@))
}

/// The headlines at a node and below it, in their order.
pub open spec fn headlines_below(buffer_text: Seq<char>, node: SyntaxNode) -> Seq<HeadlineTags>
    decreases node,
{
    let below = headlines_below_all(buffer_text, node.children@);
    if node.kind@ == "headline"@ {
        seq![headline_tags(buffer_text, node)] + below
    } else {
        below
    }
}

/// The headlines at some nodes and below them, in their order.
pub open spec fn headlines_below_all(buffer_text: Seq<char>, nodes: Seq<SyntaxNode>) -> Seq<
    HeadlineTags,
>
    decreases nodes,
{
    if nodes.len() == 0 {
        Seq::empty()
    } else {
        headlines_below_all(buffer_text, nodes.subrange(0, nodes.len() - 1)) + headlines_below(
            buffer_text,
            nodes[nodes.len() - 1],
        )
    }
}

/// Adds the tags among some nodes.
fn add_tags_among(buffer_text: &str, nodes: &Vec<SyntaxNode>, tags: &mut Vec<String>)
    requires
        all_fit_in(buffer_text@, nodes@),
    ensures
        texts(final(tags)@) == texts(old(tags)@) + tags_among(buffer_text@, nodes@),
{
    let ghost before = texts(tags@);
    let mut i: usize = 0;
    assert(before + tags_among(buffer_text@, nodes@.take(0)) == before);
    while i < nodes.len()
        invariant
            i <= nodes@.len(),
            all_fit_in(buffer_text@, nodes@),
            texts(tags@) == before + tags_among(buffer_text@, nodes@.take(i as int)),
        decreases nodes@.len() - i,
    {
        proof {
            lemma_all_fit(buffer_text@, nodes@, i as int);
            assert(nodes@.take(i + 1).drop_last() == nodes@.take(i as int));
        }
        if let Some(tag) = clean_tag_of(buffer_text, &nodes[i]) {
            proof {
                lemma_texts_push(tags@, tag);
                assert((before + tags_among(buffer_text@, nodes@.take(i as int))).push(tag@) == before
                    + tags_among(buffer_text@, nodes@.take(i as int)).push(tag@));
            }
            tags.push(tag);
        }
        i += 1;
    }
    assert(nodes@.take(i as int) == nodes@);
}

/// Reads a headline.
fn read_tagged_headline(buffer_text: &str, node: &SyntaxNode) -> (r: TaggedHeadline)
    requires
        all_fit(buffer_text@, *node),
    ensures
        r@ == headline_tags(buffer_text@, *node),
{
    let ghost children = node.children@;
    let level = match find_last(&node.children, "stars") {
        Some(stars) => {
            proof {
                lemma_last_of_kind(children, "stars"@);
                let k = choose|k: int| 0 <= k < children.len() && children[k] == *stars;
                lemma_all_fit(buffer_text@, children, k);
            }
            #[verifier::truncate]
            (count_stars(slice(buffer_text, stars.start_byte, stars.end_byte)) as u32)
        },
        None => 0u32,
    };
    let mut tags: Vec<String> = Vec::new();
    let mut i: usize = 0;
    assert(texts(tags@) == tags_listed(buffer_text@, children.take(0)));
    while i < node.children.len()
        invariant
            i <= node.children@.len(),
            children == node.children@,
            all_fit_in(buffer_text@, children),
            texts(tags@) == tags_listed(buffer_text@, children.take(i as int)),
        decreases node.children@.len() - i,
    {
        proof {
            lemma_all_fit(buffer_text@, children, i as int);
            assert(children.take(i + 1).drop_last() == children.take(i as int));
        }
        let child = &node.children[i];
        if same_text(child.kind.as_str(), "tag_list") {
            add_tags_among(buffer_text, &child.children, &mut tags);
        }
        i += 1;
    }
    assert(children.take(i as int) == children);
    TaggedHeadline { row: node.start_row, level, tags }
}

/// The last node of a kind is one of the nodes.
proof fn lemma_last_of_kind(nodes: Seq<SyntaxNode>, kind: Seq<char>)
    ensures
        last_of_kind(nodes, kind) matches Some(node) ==> exists|k: int|
            0 <= k < nodes.len() && #[trigger] nodes[k] == node,
    decreases nodes.len(),
{
    if nodes.len() > 0 {
        if nodes.last().kind@ == kind {
            assert(nodes[nodes.len() - 1] == nodes.last());
        } else {
            let init = nodes.drop_last();
            lemma_last_of_kind(init, kind);
            if last_of_kind(init, kind) is Some {
                let node = last_of_kind(init, kind)->0;
                let k = choose|k: int| 0 <= k < init.len() && #[trigger] init[k] == node;
                assert(nodes[k] == node);
            }
        }
    }
}

/// Adds the headlines at a node and below it.
fn collect_headlines(buffer_text: &str, node: &SyntaxNode, headlines: &mut Vec<TaggedHeadline>)
    requires
        all_fit(buffer_text@, *node),
    ensures
        headline_views(final(headlines)@) == headline_views(old(headlines)@) + headlines_below(
            buffer_text@,
            *node,
        ),
    decreases node,
{
    let ghost before = headline_views(headlines@);
    let ghost mut own = Seq::<HeadlineTags>::empty();
    if same_text(node.kind.as_str(), "headline") {
        let headline = read_tagged_headline(buffer_text, node);
        proof {
            assert(headline_views(headlines@.push(headline)) == before.push(headline@));
            own = seq![headline@];
        }
        headlines.push(headline);
    }
    let ghost children = node.children@;
    let mut i: usize = 0;
    proof {
        assert(children.subrange(0, 0) == Seq::<SyntaxNode>::empty());
        assert(headline_views(headlines@) == before + own + headlines_below_all(
            buffer_text@,
            children.subrange(0, 0),
        ));
    }
    while i < node.children.len()
        invariant
            i <= node.children@.len(),
            children == node.children@,
            all_fit_in(buffer_text@, children),
            headline_views(headlines@) == before + own + headlines_below_all(
                buffer_text@,
                children.subrange(0, i as int),
            ),
        decreases node.children@.len() - i,
    {
        proof {
            lemma_all_fit(buffer_text@, children, i as int);
            let next = children.subrange(0, i + 1);
            assert(next.subrange(0, next.len() - 1) == children.subrange(0, i as int));
            assert(next[next.len() - 1] == children[i as int]);
        }
        collect_headlines(buffer_text, &node.children[i], headlines);
        i += 1;
        assert(headline_views(headlines@) == before + own + headlines_below_all(
            buffer_text@,
            children.subrange(0, i as int),
        ));
    }
    proof {
        assert(children.subrange(0, i as int) == children);
        assert(before + own + headlines_below_all(buffer_text@, children) == before
            + headlines_below(buffer_text@, *node));
    }
}

/// How deep the first headline on a row lies.
pub open spec fn level_on_row(headlines: Seq<HeadlineTags>, row: u32) -> Option<u32>
    decreases headlines.len(),
{
    if headlines.len() == 0 {
        None
    } else if headlines[0].0 == row {
        Some(headlines[0].1)
    } else {
        level_on_row(headlines.skip(1), row)
    }
}

/// The tags of a list added to others, each once.
pub open spec fn with_texts(tags: Seq<Seq<char>>, more: Seq<Seq<char>>) -> Seq<Seq<char>>
    decreases more.len(),
{
    if more.len() == 0 {
        tags
    } else {
        with_text(with_texts(tags, more.drop_last()), more.last())
    }
}

/// The tags of the headlines around a headline on a row and a level, the nearest first: the nearest
/// above it that lies higher, the nearest above that which lies higher still, and so on.
pub open spec fn inherited_from(headlines: Seq<HeadlineTags>, row: u32, level: u32) -> Seq<
    Seq<char>,
> {
    inherited_onto(Seq::empty(), headlines, row, level)
}

/// The tags of the headlines around a headline on a row and a level, the nearest first, added to
/// others.
pub open spec fn inherited_onto(
    tags: Seq<Seq<char>>,
    headlines: Seq<HeadlineTags>,
    row: u32,
    level: u32,
) -> Seq<Seq<char>>
    decreases headlines.len(),
{
    if headlines.len() == 0 {
        tags
    } else {
        let h = headlines.last();
        if h.0 < row && h.1 < level {
            inherited_onto(with_texts(tags, h.2), headlines.drop_last(), row, h.1)
        } else {
            inherited_onto(tags, headlines.drop_last(), row, level)
        }
    }
}

/// The tags that the headline on a row inherits: those of the headlines around it. There are
/// none where there is no headline on the row.
pub open spec fn inherited_tags(headlines: Seq<HeadlineTags>, row: u32) -> Seq<Seq<char>> {
    match level_on_row(headlines, row) {
        Some(level) => inherited_from(headlines, row, level),
        None => Seq::empty(),
    }
}

/// The headline is one of those around a headline on a row and a level: it stands above, it lies
/// higher, and it lies higher than every headline between.
pub open spec fn is_around(headlines: Seq<HeadlineTags>, i: int, row: u32, level: u32) -> bool {
    &&& 0 <= i < headlines.len()
    &&& headlines[i].0 < row && headlines[i].1 < level
    &&& forall|j: int|
        i < j < headlines.len() && (#[trigger] headlines[j]).0 < row ==> headlines[i].1
            < headlines[j].1
}

/// A headline around one on a row and a level has the tag.
pub open spec fn has_tag_around(
    headlines: Seq<HeadlineTags>,
    row: u32,
    level: u32,
    tag: Seq<char>,
) -> bool {
    exists|i: int| #[trigger]
        is_around(headlines, i, row, level) && headlines[i].2.contains(tag)
}

/// Tags added to others are among them, and no others.
proof fn lemma_with_texts(tags: Seq<Seq<char>>, more: Seq<Seq<char>>, tag: Seq<char>)
    ensures
        with_texts(tags, more).contains(tag) <==> tags.contains(tag) || more.contains(tag),
    decreases more.len(),
{
    if more.len() > 0 {
        let init = more.drop_last();
        lemma_with_texts(tags, init, tag);
        let before = with_texts(tags, init);
        assert(more == init.push(more.last()));
        lemma_push_contains(init, more.last(), tag);
        lemma_push_contains(before, more.last(), tag);
    }
}

/// A list with one more text holds that and the others.
proof fn lemma_push_contains(s: Seq<Seq<char>>, t: Seq<char>, tag: Seq<char>)
    ensures
        s.push(t).contains(tag) <==> s.contains(tag) || t == tag,
{
    if s.contains(tag) {
        let i = choose|i: int| 0 <= i < s.len() && s[i] == tag;
        assert(s.push(t)[i] == tag);
    }
    if t == tag {
        assert(s.push(t)[s.len() as int] == tag);
    }
    if s.push(t).contains(tag) {
        let i = choose|i: int| 0 <= i < s.push(t).len() && s.push(t)[i] == tag;
        if i < s.len() {
            assert(s[i] == tag);
        }
    }
}

/// The tags of the headlines around are added, and no others.
proof fn lemma_inherited_onto(
    tags: Seq<Seq<char>>,
    headlines: Seq<HeadlineTags>,
    row: u32,
    level: u32,
    tag: Seq<char>,
)
    ensures
        inherited_onto(tags, headlines, row, level).contains(tag) <==> tags.contains(tag)
            || has_tag_around(headlines, row, level, tag),
    decreases headlines.len(),
{
    if headlines.len() > 0 {
        let last = headlines.len() - 1;
        let h = headlines.last();
        let init = headlines.drop_last();
        let taken = h.0 < row && h.1 < level;
        let limit = if taken {
            h.1
        } else {
            level
        };
        assert forall|i: int| 0 <= i < last implies (#[trigger] is_around(headlines, i, row, level)
            <==> is_around(init, i, row, limit)) by {
            assert(init[i] == headlines[i]);
            if is_around(init, i, row, limit) {
                assert forall|j: int|
                    i < j < headlines.len() && (
                    #[trigger] headlines[j]).0 < row implies headlines[i].1 < headlines[j].1 by {
                    if j < last {
                        assert(init[j] == headlines[j]);
                    }
                }
            }
            if is_around(headlines, i, row, level) {
                assert(headlines[last] == h);
                assert forall|j: int| i < j < init.len() && (
                #[trigger] init[j]).0 < row implies init[i].1 < init[j].1 by {
                    assert(init[j] == headlines[j]);
                }
            }
        }
        assert(is_around(headlines, last, row, level) <==> taken);
        if has_tag_around(headlines, row, level, tag) {
            let i = choose|i: int| #[trigger]
                is_around(headlines, i, row, level) && headlines[i].2.contains(tag);
            if i < last {
                assert(is_around(init, i, row, limit) && init[i].2.contains(tag));
            }
        }
        if has_tag_around(init, row, limit, tag) {
            let i = choose|i: int| #[trigger]
                is_around(init, i, row, limit) && init[i].2.contains(tag);
            assert(is_around(headlines, i, row, level) && headlines[i].2.contains(tag));
        }
        if taken {
            lemma_with_texts(tags, h.2, tag);
            lemma_inherited_onto(with_texts(tags, h.2), init, row, h.1, tag);
            if h.2.contains(tag) {
                assert(is_around(headlines, last, row, level) && headlines[last].2.contains(tag));
            }
        } else {
            lemma_inherited_onto(tags, init, row, level, tag);
        }
    }
}

/// The headline on a row inherits the tags of the headlines around it, and no others.
pub proof fn lemma_inherited(headlines: Seq<HeadlineTags>, row: u32, tag: Seq<char>)
    ensures
        inherited_tags(headlines, row).contains(tag) <==> (level_on_row(headlines, row) matches Some(
            level,
        ) && has_tag_around(headlines, row, level, tag)),
{
    if let Some(level) = level_on_row(headlines, row) {
        lemma_inherited_onto(Seq::empty(), headlines, row, level, tag);
    }
}

/// Adds the tags of a list, each unless it is there.
fn push_texts(tags: &mut Vec<String>, more: &Vec<String>)
    ensures
        texts(final(tags)@) == with_texts(texts(old(tags)@), texts(more@)),
{
    let ghost before = texts(tags@);
    let ghost all = texts(more@);
    let mut i: usize = 0;
    assert(all.take(0) == Seq::<Seq<char>>::empty());
    while i < more.len()
        invariant
            i <= more@.len(),
            all == texts(more@),
            texts(tags@) == with_texts(before, all.take(i as int)),
        decreases more@.len() - i,
    {
        proof {
            assert(all.take(i + 1).drop_last() == all.take(i as int));
            assert(all.take(i + 1).last() == more@[i as int]@);
        }
        add_text(tags, more[i].as_str());
        i += 1;
    }
    assert(all.take(i as int) == all);
}

/// The tags that the headline on a row inherits, given the root of the buffer's syntax tree, if it
/// has one.
pub fn collect_inherited_tags(
    buffer_text: &str,
    root: Option<&SyntaxNode>,
    current_row: u32,
) -> (r: Vec<String>)
    requires
        root matches Some(node) ==> all_fit(buffer_text@, *node),
    ensures
        texts(r@) == match root {
            Some(node) => inherited_tags(headlines_below(buffer_text@, *node), current_row),
            None => Seq::empty(),
        },
{
    let mut tags: Vec<String> = Vec::new();
    assert(texts(tags@) == Seq::<Seq<char>>::empty());
    let node = match root {
        Some(node) => node,
        None => {
            return tags;
        },
    };
    let mut headlines: Vec<TaggedHeadline> = Vec::new();
    assert(headline_views(headlines@) == Seq::<HeadlineTags>::empty());
    collect_headlines(buffer_text, node, &mut headlines);
    let ghost all = headlines_below(buffer_text@, *node);
    assert(headline_views(headlines@) == all);
    assert(headlines@.len() == all.len());
    let mut level: Option<u32> = None;
    let mut i: usize = 0;
    assert(all.skip(0) == all);
    while i < headlines.len() && level.is_none()
        invariant
            i <= headlines@.len(),
            headlines@.len() == all.len(),
            headline_views(headlines@) == all,
            level is None ==> level_on_row(all, current_row) == level_on_row(
                all.skip(i as int),
                current_row,
            ),
            level is Some ==> level == level_on_row(all, current_row),
        decreases headlines@.len() - i,
    {
        proof {
            assert(all[i as int] == headlines@[i as int]@);
            assert(all.skip(i as int)[0] == all[i as int]);
            assert(all.skip(i as int).skip(1) == all.skip(i + 1));
        }
        if headlines[i].row == current_row {
            level = Some(headlines[i].level);
        }
        i += 1;
    }
    let own_level = match level {
        Some(level) => level,
        None => {
            return tags;
        },
    };
    let mut level: u32 = own_level;
    let mut n: usize = headlines.len();
    assert(all.take(n as int) == all);
    while n > 0
        invariant
            n <= headlines@.len(),
            headlines@.len() == all.len(),
            headline_views(headlines@) == all,
            inherited_onto(texts(tags@), all.take(n as int), current_row, level) == inherited_from(
                all,
                current_row,
                own_level,
            ),
        decreases n,
    {
        proof {
            assert(all[n - 1] == headlines@[n - 1]@);
            assert(all.take(n as int).last() == all[n - 1]);
            assert(all.take(n as int).drop_last() == all.take(n - 1));
        }
        let h = &headlines[n - 1];
        if h.row < current_row && h.level < level {
            push_texts(&mut tags, &h.tags);
            level = h.level;
        }
        n -= 1;
    }
    tags
}

/// A tag offered for completion: what is put in, and what is shown.
#[derive(Debug)]
pub struct TagCompletion {
    pub new_text: String,
    pub label: String,
}

/// The tags offered for completion, and the bytes of the line that they replace.
#[derive(Debug)]
pub struct TagCompletions {
    pub replace_start: usize,
    pub replace_end: usize,
    pub completions: Vec<TagCompletion>,
}

/// The tags among some that hold what was typed, in any case.
pub open spec fn matching_tags(tags: Set<Seq<char>>, typed: Seq<char>) -> Set<Seq<char>> {
    tags.filter(|tag: Seq<char>| contains(lowercase(tag), lowercase(typed)))
}

/// The labels of completions.
pub open spec fn completion_labels(completions: Seq<TagCompletion>) -> Seq<Seq<char>> {
    completions.map_values(|c: TagCompletion| c.label@)
}

/// The tags that hold what was typed, in any case, in order.
fn filter_tags(tags: &Vec<String>, typed: &str) -> (r: Vec<String>)
    requires
        texts(tags@).no_duplicates(),
    ensures
        sorted_listing(texts(r@), matching_tags(texts(tags@).to_set(), typed@)),
{
    let lower = typed.to_lowercase();
    let ghost all = texts(tags@);
    let mut kept: Vec<String> = Vec::new();
    let mut i: usize = 0;
    proof {
        assert(texts(kept@).to_set() =~= matching_tags(all.take(0).to_set(), typed@));
    }
    while i < tags.len()
        invariant
            i <= tags@.len(),
            all == texts(tags@),
            lower@ == lowercase(typed@),
            texts(kept@).no_duplicates(),
            texts(kept@).to_set() == matching_tags(all.take(i as int).to_set(), typed@),
        decreases tags@.len() - i,
    {
        let tag_lower = tags[i].as_str().to_lowercase();
        let found = contains_text(tag_lower.as_str(), lower.as_str());
        proof {
            assert(all[i as int] == tags@[i as int]@);
            lemma_with_text(texts(kept@), all[i as int]);
        }
        if found {
            add_text(&mut kept, tags[i].as_str());
        }
        proof {
            let a = all.take(i as int);
            let b = all.take(i + 1);
            assert forall|t: Seq<char>| b.to_set().contains(t) <==> a.to_set().contains(t) || t
                == all[i as int] by {
                if a.to_set().contains(t) {
                    let k = choose|k: int| 0 <= k < a.len() && a[k] == t;
                    assert(b[k] == t);
                }
                if t == all[i as int] {
                    assert(b[i as int] == t);
                }
                if b.to_set().contains(t) {
                    let k = choose|k: int| 0 <= k < b.len() && b[k] == t;
                    if k < i {
                        assert(a[k] == t);
                    }
                }
            }
            assert(texts(kept@).to_set() =~= matching_tags(b.to_set(), typed@));
        }
        i += 1;
    }
    assert(all.take(i as int) == all);
    sort_distinct(&kept)
}

/// Offers tags to complete in the headlines of org files.
#[derive(Debug)]
pub struct TagCompletionProvider {}

impl TagCompletionProvider {
    /// A provider.
    pub fn new() -> (r: TagCompletionProvider)
        ensures
            r == (TagCompletionProvider {  }),
    {
        TagCompletionProvider {  }
    }

    /// Offers completions for the tag that is being typed at the end of a line: where the line is a
    /// headline with a colon, the tags of the buffer, of the headlines above and of the journal that
    /// hold what follows the last colon, each once, in order. Each is put in with a colon after it.
    pub fn completions(
        &self,
        line_text: &str,
        buffer_tags: &Vec<String>,
        inherited_tags: &Vec<String>,
        journal_tags: &Vec<String>,
    ) -> (r: Option<TagCompletions>)
        ensures
            match rfind(line_text@, ":"@) {
                Some(i) if is_headline(line_text@) => {
                    &&& r is Some
                    &&& r->0.replace_start == byte_len(line_text@.take(i + 1))
                    &&& r->0.replace_end == byte_len(line_text@)
                    &&& sorted_listing(
                        completion_labels(r->0.completions@),
                        matching_tags(
                            texts(buffer_tags@).to_set().union(texts(inherited_tags@).to_set()).union(
                                texts(journal_tags@).to_set(),
                            ),
                            line_text@.skip(i + 1),
                        ),
                    )
                    &&& forall|k: int|
                        0 <= k < r->0.completions@.len() ==> (
                        #[trigger] r->0.completions@[k]).new_text@ == r->0.completions@[k].label@ + ":"@
                },
                _ => r is None,
            },
    {
        if !line_is_headline(line_text) {
            return None;
        }
        proof {
            reveal_strlit(":");
        }
        let len = line_text.unicode_len();
        let at = rfind_text(line_text, ":")?;
        let typed = tail(line_text, at + 1);
        let mut all: Vec<String> = Vec::new();
        add_texts(&mut all, buffer_tags);
        add_texts(&mut all, inherited_tags);
        add_texts(&mut all, journal_tags);
        assert(texts(all@).to_set() =~= texts(buffer_tags@).to_set().union(
            texts(inherited_tags@).to_set(),
        ).union(texts(journal_tags@).to_set()));
        let kept = filter_tags(&all, typed);
        let mut offered: Vec<TagCompletion> = Vec::new();
        let mut i: usize = 0;
        while i < kept.len()
            invariant
                i <= kept@.len(),
                offered@.len() == i,
                forall|k: int| 0 <= k < i ==> (#[trigger] offered@[k]).label@ == kept@[k]@,
                forall|k: int|
                    0 <= k < i ==> (#[trigger] offered@[k]).new_text@ == offered@[k].label@ + ":"@,
            decreases kept@.len() - i,
        {
            let mut new_text = kept[i].clone();
            new_text.append(":");
            offered.push(TagCompletion { new_text, label: kept[i].clone() });
            i += 1;
        }
        assert(completion_labels(offered@) == texts(kept@));
        Some(
            TagCompletions {
                replace_start: utf8_len(head(line_text, at + 1)),
                replace_end: utf8_len(line_text),
                completions: offered,
            },
        )
    }

    /// Whether typing a text at the end of a line asks for completions: a colon in a headline does.
    pub fn is_completion_trigger(&self, text: &str, line_text: &str) -> (r: bool)
        ensures
            r == (text@ == ":"@ && is_headline(line_text@)),
    {
        same_text(text, ":") && line_is_headline(line_text)
    }

    /// Whether an editor is to sort the completions: they come in order.
    pub fn sort_completions(&self) -> (r: bool)
        ensures
            !r,
    {
        false
    }

    /// Whether an editor is to filter the completions: they come filtered.
    pub fn filter_completions(&self) -> (r: bool)
        ensures
            !r,
    {
        false
    }
}

/// Whether tags are completed in a file: they are in org files.
pub fn completes_tags(path: &str) -> (r: bool)
    ensures
        r == is_org(path@),
{
    is_org_file(path)
}

} // verus!

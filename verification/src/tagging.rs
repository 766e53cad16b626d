//! Which tags are found where.
use crate::agenda::colon_tags;
use crate::buffer::byte_len;
use crate::order::lemma_with_text;
use crate::patterns::lacks;
use crate::syntax::SyntaxNode;
use crate::tags::{
    after_colon, clean_tag, has_tag, hashtag, headline_tags, headlines_below, headlines_below_all,
    inherited_onto, inherited_tags, is_tag, is_tag_line, level_on_row, line_tags, listed_tag,
    matching_tags, star_count, tags_among, tags_below, tags_below_all, tags_in_files, tags_in_texts,
    tags_listed, tags_on_lines, with_texts, HeadlineTags,
};
use crate::task_text::{lemma_last_of_kind, lemma_word_between};
use crate::text::{
    contains, is_space, lemma_space_len, lemma_split_at, lemma_split_one, lemma_word_len, lowercase,
    space_len, split, trim, trim_end, trim_start, word_len, words, CharClass,
};
use vstd::prelude::*;
use vstd::string::*;

verus! {

/// What of a class stands before a text is trimmed from it there.
pub proof fn lemma_trim_front(before: Seq<char>, rest: Seq<char>, class: CharClass)
    requires
        forall|i: int| 0 <= i < before.len() ==> class.holds(#[trigger] before[i]),
        rest.len() > 0 ==> !class.holds(rest[0]),
    ensures
        trim_start(before + rest, class) == rest,
    decreases before.len(),
{
    let s = before + rest;
    if before.len() > 0 {
        assert(class.holds(before[0]));
        assert(s[0] == before[0]);
        let fewer = before.skip(1);
        assert forall|i: int| 0 <= i < fewer.len() implies class.holds(#[trigger] fewer[i]) by {
            assert(fewer[i] == before[i + 1]);
        }
        assert(s.skip(1) == fewer + rest);
        lemma_trim_front(fewer, rest, class);
    } else {
        assert(s == rest);
    }
}

proof fn lemma_trim_back(rest: Seq<char>, after: Seq<char>, class: CharClass)
    requires
        forall|i: int| 0 <= i < after.len() ==> class.holds(#[trigger] after[i]),
        rest.len() > 0 ==> !class.holds(rest.last()),
    ensures
        trim_end(rest + after, class) == rest,
    decreases after.len(),
{
    let s = rest + after;
    if after.len() > 0 {
        assert(class.holds(after[after.len() - 1]));
        assert(s.last() == after.last());
        let fewer = after.drop_last();
        assert forall|i: int| 0 <= i < fewer.len() implies class.holds(#[trigger] fewer[i]) by {
            assert(fewer[i] == after[i]);
        }
        assert(s.drop_last() == rest + fewer);
        lemma_trim_back(rest, fewer, class);
    } else {
        assert(s == rest);
    }
}

/// What is trimmed from a text at its two ends is what of the class stands there.
pub proof fn lemma_trimmed(
    before: Seq<char>,
    text: Seq<char>,
    after: Seq<char>,
    class: CharClass,
)
    requires
        text.len() > 0,
        !class.holds(text[0]),
        !class.holds(text.last()),
        forall|i: int| 0 <= i < before.len() ==> class.holds(#[trigger] before[i]),
        forall|i: int| 0 <= i < after.len() ==> class.holds(#[trigger] after[i]),
    ensures
        trim(before + text + after, class) == text,
{
    assert(before + text + after == before + (text + after));
    assert((text + after)[0] == text[0]);
    lemma_trim_front(before, text + after, class);
    lemma_trim_back(text, after, class);
}

/// A word with number signs before a tag, and nothing of a tag after it, stands for the tag.
pub proof fn lemma_hashtag_read(signs: nat, tag: Seq<char>, after: Seq<char>)
    requires
        signs > 0,
        tag.len() > 0 && tag[0] != '#',
    ensures
        is_tag(tag) && (forall|i: int| 0 <= i < after.len() ==> CharClass::NotTag.holds(after[i]))
            ==> hashtag(Seq::new(signs, |i: int| '#') + tag + after) == Some(tag),
{
    let word = Seq::new(signs, |i: int| '#') + tag + after;
    if is_tag(tag) && (forall|i: int| 0 <= i < after.len() ==> CharClass::NotTag.holds(after[i])) {
        assert(word == Seq::new(signs, |i: int| '#') + (tag + after));
        assert((tag + after)[0] == tag[0]);
        lemma_trim_front(Seq::new(signs, |i: int| '#'), tag + after, CharClass::Hash);
        let none = Seq::<char>::empty();
        lemma_trimmed(none, tag, after, CharClass::NotTag);
        assert(none + tag + after == tag + after);
        assert(word[0] == '#');
    }
}

/// A word that does not begin with a number sign stands for no tag, nor does the sign alone.
pub proof fn lemma_no_hashtag(word: Seq<char>)
    ensures
        hashtag(word) is Some ==> word.len() > 1 && word[0] == '#',
{
}

proof fn lemma_space_first(s: Seq<char>)
    requires
        s.len() > 0,
        is_space(s[0]),
    ensures
        words(s) == words(s.skip(1)),
{
    let rest = s.skip(1);
    assert(space_len(s) == 1 + space_len(rest));
    lemma_space_len(rest);
    assert(s.skip(space_len(s)) == rest.skip(space_len(rest)));
}

proof fn lemma_word_is(s: Seq<char>, n: int)
    requires
        0 <= n <= s.len(),
        forall|j: int| 0 <= j < n ==> !is_space(#[trigger] s[j]),
        n < s.len() ==> is_space(s[n]),
    ensures
        word_len(s) == n,
    decreases n,
{
    if n > 0 {
        assert(!is_space(s[0]));
        let t = s.skip(1);
        assert forall|j: int| 0 <= j < n - 1 implies !is_space(#[trigger] t[j]) by {
            assert(t[j] == s[j + 1]);
        }
        lemma_word_is(t, n - 1);
    }
}

proof fn lemma_word_first(word: Seq<char>, rest: Seq<char>)
    requires
        word.len() > 0,
        forall|i: int| 0 <= i < word.len() ==> !is_space(#[trigger] word[i]),
        rest.len() > 0 ==> is_space(rest[0]),
    ensures
        words(word + rest) == seq![word] + words(rest),
{
    let s = word + rest;
    assert(!is_space(word[0]));
    assert(s[0] == word[0]);
    assert(space_len(s) == 0);
    assert(s.skip(0) == s);
    assert forall|j: int| 0 <= j < word.len() implies !is_space(#[trigger] s[j]) by {
        assert(s[j] == word[j]);
    }
    lemma_word_is(s, word.len() as int);
    assert(s.take(word.len() as int) == word);
    assert(s.skip(word.len() as int) == rest);
}

/// What stands between white space, or at the ends, and has none in it is a word of a text.
pub proof fn lemma_word_stands(before: Seq<char>, word: Seq<char>, after: Seq<char>)
    requires
        before.len() > 0 ==> is_space(before.last()),
        word.len() > 0,
        forall|i: int| 0 <= i < word.len() ==> !is_space(#[trigger] word[i]),
        after.len() > 0 ==> is_space(after[0]),
    ensures
        words(before + word + after).contains(word),
    decreases before.len(),
{
    let s = before + word + after;
    if before.len() == 0 {
        assert(s == word + after);
        lemma_word_first(word, after);
        assert(words(s)[0] == word);
    } else if is_space(before[0]) {
        let rest = before.skip(1);
        assert(s[0] == before[0]);
        assert(s.skip(1) == rest + word + after);
        lemma_space_first(s);
        assert(rest.len() > 0 ==> rest.last() == before.last());
        lemma_word_stands(rest, word, after);
    } else {
        lemma_word_len(before);
        let n = word_len(before);
        assert(n < before.len()) by {
            if n == before.len() {
                assert(!is_space(before[n - 1]));
            }
        }
        assert(n > 0);
        let first = before.take(n);
        let rest = before.skip(n);
        assert(rest[0] == before[n]);
        lemma_word_ends_at_space(before);
        assert(is_space(rest[0]));
        assert(rest.last() == before.last());
        assert forall|i: int| 0 <= i < first.len() implies !is_space(#[trigger] first[i]) by {
            assert(first[i] == before[i]);
        }
        assert(s == first + (rest + word + after));
        assert((rest + word + after)[0] == rest[0]);
        lemma_word_first(first, rest + word + after);
        lemma_word_stands(rest, word, after);
        let others = words(rest + word + after);
        let k = choose|k: int| 0 <= k < others.len() && others[k] == word;
        assert(words(s)[k + 1] == word);
    }
}

proof fn lemma_word_ends_at_space(s: Seq<char>)
    ensures
        word_len(s) < s.len() ==> is_space(s[word_len(s)]),
    decreases s.len(),
{
    if s.len() > 0 && !is_space(s[0]) {
        lemma_word_ends_at_space(s.skip(1));
        lemma_word_len(s.skip(1));
    }
}

/// A tag is found on a line where it stands as a word after a number sign.
pub proof fn lemma_hashtag_found(before: Seq<char>, tag: Seq<char>, after: Seq<char>)
    requires
        before.len() > 0 ==> is_space(before.last()),
        tag.len() > 0 && tag[0] != '#',
        forall|i: int| 0 <= i < tag.len() ==> !is_space(#[trigger] tag[i]),
        after.len() > 0 ==> is_space(after[0]),
    ensures
        is_tag(tag) ==> line_tags(before + "#"@ + tag + after).contains(tag),
{
    reveal_strlit("#");
    let none = Seq::<char>::empty();
    let word = "#"@ + tag;
    assert(word =~= Seq::new(1, |i: int| '#') + tag + none);
    lemma_hashtag_read(1, tag, none);
    assert forall|i: int| 0 <= i < word.len() implies !is_space(#[trigger] word[i]) by {
        if i > 0 {
            assert(word[i] == tag[i - 1]);
        }
    }
    lemma_word_stands(before, word, after);
    let line = before + "#"@ + tag + after;
    assert(line =~= before + word + after);
    let k = choose|k: int| 0 <= k < words(line).len() && words(line)[k] == word;
    if is_tag(tag) {
        assert(hashtag(words(line)[k]) == Some(tag));
        assert(has_tag(line, tag));
    }
}

/// A tag is found on a line that lists tags where it stands between commas, or alone, whatever
/// white space is around it.
pub proof fn lemma_listed_tag_found(
    start: Seq<char>,
    left: Seq<char>,
    space: Seq<char>,
    tag: Seq<char>,
    more_space: Seq<char>,
    right: Seq<char>,
)
    requires
        lacks(start, ':'),
        lacks(left, ':') && lacks(space, ':') && lacks(tag, ':') && lacks(more_space, ':') && lacks(
            right,
            ':',
        ),
        lacks(tag, ','),
        forall|i: int| 0 <= i < space.len() ==> is_space(#[trigger] space[i]),
        forall|i: int| 0 <= i < more_space.len() ==> is_space(#[trigger] more_space[i]),
        tag.len() > 0 && !is_space(tag[0]) && !is_space(tag.last()),
    ensures
        ({
            let item = space + tag + more_space;
            let line = start + ":"@ + (left + ","@ + item + ","@ + right);
            is_tag(tag) && is_tag_line(line) ==> line_tags(line).contains(tag)
        }),
        ({
            let line = start + ":"@ + (space + tag + more_space);
            is_tag(tag) && is_tag_line(line) ==> line_tags(line).contains(tag)
        }),
{
    reveal_strlit(":");
    reveal_strlit(",");
    let item = space + tag + more_space;
    let none = Seq::<char>::empty();
    if is_tag(tag) {
        lemma_trimmed(space, tag, more_space, CharClass::Space);
        lemma_trimmed(none, tag, none, CharClass::NotTag);
        assert(none + tag + none =~= tag);
        assert(listed_tag(item) == Some(tag));
    }
    assert forall|i: int| 0 <= i < item.len() implies item[i] != ',' by {
        if i < space.len() {
            assert(item[i] == space[i]);
            assert(is_space(space[i]));
        } else if i < space.len() + tag.len() {
            assert(item[i] == tag[i - space.len()]);
        } else {
            assert(item[i] == more_space[i - space.len() - tag.len()]);
            assert(is_space(more_space[i - space.len() - tag.len()]));
        }
    }
    lemma_split_one(item, ',');
    let list = left + ","@ + item + ","@ + right;
    assert(","@ =~= seq![',']);
    assert(":"@ =~= seq![':']);
    lemma_split_at(left, item, ',');
    lemma_split_at(left + ","@ + item, right, ',');
    let pieces = split(list, ',');
    let n = split(left, ',').len() as int;
    assert(pieces[n] == item);
    lemma_listed(start, list, n, tag);
    lemma_listed(start, item, 0, tag);
}

proof fn lemma_listed(start: Seq<char>, list: Seq<char>, n: int, tag: Seq<char>)
    requires
        lacks(start, ':'),
        lacks(list, ':'),
        0 <= n < split(list, ',').len(),
    ensures
        listed_tag(split(list, ',')[n]) == Some(tag) && is_tag_line(start + ":"@ + list)
            ==> line_tags(start + ":"@ + list).contains(tag),
{
    reveal_strlit(":");
    assert(":"@ =~= seq![':']);
    let line = start + ":"@ + list;
    lemma_split_one(start, ':');
    lemma_split_one(list, ':');
    lemma_split_at(start, list, ':');
    assert(split(line, ':') =~= seq![start, list]);
    assert(after_colon(line) == list);
    if listed_tag(split(list, ',')[n]) == Some(tag) && is_tag_line(line) {
        assert(listed_tag(split(after_colon(line), ',')[n]) == Some(tag));
        assert(has_tag(line, tag));
    }
}

/// The text of a tag's node without the colons around it is the tag, and nodes of other kinds are
/// none.
pub proof fn lemma_tag_node(
    before: Seq<char>,
    left: nat,
    tag: Seq<char>,
    right: nat,
    after: Seq<char>,
    node: SyntaxNode,
)
    requires
        tag.len() > 0 && tag[0] != ':' && tag.last() != ':',
        node.start_byte == byte_len(before),
        node.end_byte == byte_len(
            before + (Seq::new(left, |i: int| ':') + tag + Seq::new(right, |i: int| ':')),
        ),
    ensures
        clean_tag(
            before + (Seq::new(left, |i: int| ':') + tag + Seq::new(right, |i: int| ':')) + after,
            node,
        ) == if node.kind@ == "tag"@ {
            Some(tag)
        } else {
            None
        },
{
    let text = Seq::new(left, |i: int| ':') + tag + Seq::new(right, |i: int| ':');
    lemma_trimmed(
        Seq::new(left, |i: int| ':'),
        tag,
        Seq::new(right, |i: int| ':'),
        CharClass::Colon,
    );
    lemma_word_between(before, text, after);
}

proof fn lemma_below_all(buffer_text: Seq<char>, nodes: Seq<SyntaxNode>, tag: Seq<char>)
    ensures
        tags_below_all(buffer_text, nodes).contains(tag) <==> exists|i: int|
            0 <= i < nodes.len() && tags_below(buffer_text, #[trigger] nodes[i]).contains(tag),
    decreases nodes.len(),
{
    if nodes.len() > 0 {
        let init = nodes.subrange(0, nodes.len() - 1);
        lemma_below_all(buffer_text, init, tag);
        if tags_below_all(buffer_text, init).contains(tag) {
            let i = choose|i: int|
                0 <= i < init.len() && tags_below(buffer_text, #[trigger] init[i]).contains(tag);
            assert(nodes[i] == init[i]);
        }
        if exists|i: int|
            0 <= i < nodes.len() && tags_below(buffer_text, #[trigger] nodes[i]).contains(tag) {
            let i = choose|i: int|
                0 <= i < nodes.len() && tags_below(buffer_text, #[trigger] nodes[i]).contains(tag);
            if i < init.len() {
                assert(init[i] == nodes[i]);
            }
        }
        assert(nodes[nodes.len() - 1] == nodes.last());
    }
}

/// The tags of a tree are that of its root, if it is one, and those of each tree below it, however
/// deep, and no others.
pub proof fn lemma_tags_of_tree(buffer_text: Seq<char>, node: SyntaxNode, tag: Seq<char>)
    ensures
        tags_below(buffer_text, node).contains(tag) <==> clean_tag(buffer_text, node) == Some(tag)
            || exists|i: int|
            0 <= i < node.children@.len() && tags_below(
                buffer_text,
                #[trigger] node.children@[i],
            ).contains(tag),
{
    lemma_below_all(buffer_text, node.children@, tag);
}

proof fn lemma_star_count(n: nat)
    ensures
        star_count(Seq::new(n, |i: int| '*')) == n,
    decreases n,
{
    let s = Seq::new(n, |i: int| '*');
    if n > 0 {
        assert(s.drop_last() =~= Seq::new((n - 1) as nat, |i: int| '*'));
        lemma_star_count((n - 1) as nat);
    }
}

/// A headline lies as deep as it has stars, and it stands on the row on which its node begins.
pub proof fn lemma_headline_depth(
    before: Seq<char>,
    stars: nat,
    after: Seq<char>,
    node: SyntaxNode,
    i: int,
)
    requires
        stars <= u32::MAX,
        0 <= i < node.children@.len(),
        node.children@[i].kind@ == "stars"@,
        node.children@[i].start_byte == byte_len(before),
        node.children@[i].end_byte == byte_len(before + Seq::new(stars, |k: int| '*')),
        forall|k: int| i < k < node.children@.len() ==> (#[trigger] node.children@[k]).kind@ != "stars"@,
    ensures
        ({
            let known = headline_tags(before + Seq::new(stars, |k: int| '*') + after, node);
            known.0 == node.start_row && known.1 == stars
        }),
{
    lemma_last_of_kind(node.children@, "stars"@, i);
    lemma_word_between(before, Seq::new(stars, |k: int| '*'), after);
    lemma_star_count(stars);
}

/// The tags of a headline are those in its lists of tags, in their order.
pub proof fn lemma_headline_tags_listed(
    buffer_text: Seq<char>,
    first: Seq<SyntaxNode>,
    list: SyntaxNode,
    second: Seq<SyntaxNode>,
)
    requires
        list.kind@ == "tag_list"@,
    ensures
        tags_listed(buffer_text, first + seq![list] + second) == tags_listed(buffer_text, first)
            + tags_among(buffer_text, list.children@) + tags_listed(buffer_text, second),
    decreases second.len(),
{
    let all = first + seq![list] + second;
    if second.len() == 0 {
        assert(all.drop_last() =~= first);
        assert(all.last() == list);
        assert(tags_listed(buffer_text, all) =~= tags_listed(buffer_text, first) + tags_among(
            buffer_text,
            list.children@,
        ) + tags_listed(buffer_text, second));
    } else {
        assert(all.drop_last() =~= first + seq![list] + second.drop_last());
        assert(all.last() == second.last());
        lemma_headline_tags_listed(buffer_text, first, list, second.drop_last());
        assert(tags_listed(buffer_text, all) =~= tags_listed(buffer_text, first) + tags_among(
            buffer_text,
            list.children@,
        ) + tags_listed(buffer_text, second));
    }
}

/// Each tag among some nodes is listed, in their order, and nothing else is.
pub proof fn lemma_tags_among(
    buffer_text: Seq<char>,
    first: Seq<SyntaxNode>,
    node: SyntaxNode,
    second: Seq<SyntaxNode>,
)
    ensures
        tags_among(buffer_text, first + seq![node] + second) == tags_among(buffer_text, first) + (
        match clean_tag(buffer_text, node) {
            Some(tag) => seq![tag],
            None => Seq::empty(),
        }) + tags_among(buffer_text, second),
    decreases second.len(),
{
    let all = first + seq![node] + second;
    let own = match clean_tag(buffer_text, node) {
        Some(tag) => seq![tag],
        None => Seq::<Seq<char>>::empty(),
    };
    if second.len() == 0 {
        assert(all.drop_last() =~= first);
        assert(all.last() == node);
    } else {
        assert(all.drop_last() =~= first + seq![node] + second.drop_last());
        assert(all.last() == second.last());
        lemma_tags_among(buffer_text, first, node, second.drop_last());
    }
    assert(tags_among(buffer_text, all) =~= tags_among(buffer_text, first) + own + tags_among(
        buffer_text,
        second,
    ));
}

/// The headlines of several trees are those of the first ones and then those of the others; those
/// of one tree are its root's, if that is a headline, and then those below it.
pub proof fn lemma_headlines_of_trees(
    buffer_text: Seq<char>,
    first: Seq<SyntaxNode>,
    second: Seq<SyntaxNode>,
    node: SyntaxNode,
)
    ensures
        headlines_below_all(buffer_text, first + second) == headlines_below_all(buffer_text, first)
            + headlines_below_all(buffer_text, second),
        headlines_below_all(buffer_text, seq![node]) == headlines_below(buffer_text, node),
        headlines_below(buffer_text, node).len() == headlines_below_all(
            buffer_text,
            node.children@,
        ).len() + if node.kind@ == "headline"@ {
            1int
        } else {
            0
        },
        node.kind@ == "headline"@ ==> headlines_below(buffer_text, node)[0] == headline_tags(
            buffer_text,
            node,
        ),
    decreases second.len(),
{
    let one = seq![node];
    assert(one.subrange(0, 0) =~= Seq::<SyntaxNode>::empty());
    assert(one[0] == node);
    assert(headlines_below_all(buffer_text, one.subrange(0, 0)).len() == 0);
    assert(headlines_below_all(buffer_text, one) == headlines_below_all(
        buffer_text,
        one.subrange(0, one.len() - 1),
    ) + headlines_below(buffer_text, one[one.len() - 1]));
    assert(headlines_below_all(buffer_text, one) =~= headlines_below(buffer_text, node));
    let all = first + second;
    if second.len() == 0 {
        assert(all =~= first);
        assert(headlines_below_all(buffer_text, first) + headlines_below_all(buffer_text, second)
            =~= headlines_below_all(buffer_text, first));
    } else {
        let init = second.subrange(0, second.len() - 1);
        assert(all.subrange(0, all.len() - 1) =~= first + init);
        assert(all[all.len() - 1] == second[second.len() - 1]);
        lemma_headlines_of_trees(buffer_text, first, init, node);
        assert(headlines_below_all(buffer_text, all) =~= headlines_below_all(buffer_text, first)
            + headlines_below_all(buffer_text, second));
    }
}

/// The first headline on a row is the one that inherits.
pub proof fn lemma_level_on_row(headlines: Seq<HeadlineTags>, row: u32, i: int)
    requires
        0 <= i <= headlines.len(),
        forall|k: int| 0 <= k < i ==> (#[trigger] headlines[k]).0 != row,
        i < headlines.len() ==> headlines[i].0 == row,
    ensures
        level_on_row(headlines, row) == if i < headlines.len() {
            Some(headlines[i].1)
        } else {
            None
        },
    decreases headlines.len(),
{
    if headlines.len() > 0 && i > 0 {
        let rest = headlines.skip(1);
        assert(headlines[0].0 != row);
        assert forall|k: int| 0 <= k < i - 1 implies (#[trigger] rest[k]).0 != row by {
            assert(rest[k] == headlines[k + 1]);
        }
        lemma_level_on_row(rest, row, i - 1);
    }
}

/// No tag is inherited twice.
pub proof fn lemma_inherited_once(headlines: Seq<HeadlineTags>, row: u32)
    ensures
        inherited_tags(headlines, row).no_duplicates(),
{
    if let Some(level) = level_on_row(headlines, row) {
        lemma_onto_once(Seq::empty(), headlines, row, level);
    }
}

proof fn lemma_onto_once(tags: Seq<Seq<char>>, headlines: Seq<HeadlineTags>, row: u32, level: u32)
    requires
        tags.no_duplicates(),
    ensures
        inherited_onto(tags, headlines, row, level).no_duplicates(),
    decreases headlines.len(),
{
    if headlines.len() > 0 {
        let h = headlines.last();
        lemma_added_once(tags, h.2);
        if h.0 < row && h.1 < level {
            lemma_onto_once(with_texts(tags, h.2), headlines.drop_last(), row, h.1);
        } else {
            lemma_onto_once(tags, headlines.drop_last(), row, level);
        }
    }
}

proof fn lemma_added_once(tags: Seq<Seq<char>>, more: Seq<Seq<char>>)
    requires
        tags.no_duplicates(),
    ensures
        with_texts(tags, more).no_duplicates(),
    decreases more.len(),
{
    if more.len() > 0 {
        lemma_added_once(tags, more.drop_last());
        lemma_with_text(with_texts(tags, more.drop_last()), more.last());
    }
}

/// The tags offered for completion are those there are that hold what was typed, in any case.
pub proof fn lemma_matching(tags: Set<Seq<char>>, typed: Seq<char>, tag: Seq<char>)
    ensures
        matching_tags(tags, typed).contains(tag) <==> tags.contains(tag) && contains(
            lowercase(tag),
            lowercase(typed),
        ),
{
}

/// The tags of some files are those on each line of each of them, and no others.
pub proof fn lemma_tags_of_files(files: Seq<Seq<Seq<char>>>, tag: Seq<char>)
    ensures
        tags_in_files(files).contains(tag) <==> exists|i: int, j: int|
            0 <= i < files.len() && 0 <= j < files[i].len() && #[trigger] line_tags(
                files[i][j],
            ).contains(tag),
{
    if tags_in_files(files).contains(tag) {
        let i = choose|i: int|
            0 <= i < files.len() && tags_on_lines(#[trigger] files[i]).contains(tag);
        let j = choose|j: int| 0 <= j < files[i].len() && has_tag(#[trigger] files[i][j], tag);
        assert(line_tags(files[i][j]).contains(tag));
    }
    if exists|i: int, j: int|
        0 <= i < files.len() && 0 <= j < files[i].len() && #[trigger] line_tags(
            files[i][j],
        ).contains(tag) {
        let (i, j) = choose|i: int, j: int|
            0 <= i < files.len() && 0 <= j < files[i].len() && #[trigger] line_tags(
                files[i][j],
            ).contains(tag);
        assert(has_tag(files[i][j], tag));
        assert(tags_on_lines(files[i]).contains(tag));
    }
}

/// The tags between colons of some texts are those of each of them, and no others.
pub proof fn lemma_tags_of_texts(contents: Seq<Seq<char>>, tag: Seq<char>)
    ensures
        tags_in_texts(contents).contains(tag) <==> exists|i: int|
            0 <= i < contents.len() && colon_tags(#[trigger] contents[i]).contains(tag),
{
}

/// A line lists tags if what stands between its white space begins, in lower case, with `tags:`;
/// one that has this further behind does not.
pub proof fn lemma_tag_line(before: Seq<char>, text: Seq<char>, after: Seq<char>)
    requires
        text.len() > 0 && !is_space(text[0]) && !is_space(text.last()),
        forall|i: int| 0 <= i < before.len() ==> is_space(#[trigger] before[i]),
        forall|i: int| 0 <= i < after.len() ==> is_space(#[trigger] after[i]),
    ensures
        is_tag_line(before + text + after) <==> lowercase(text).len() >= 5 && lowercase(
            text,
        ).subrange(0, 5) == "tags:"@,
{
    reveal_strlit("tags:");
    lemma_trimmed(before, text, after, CharClass::Space);
}

/// What follows a second colon on a line that lists tags belongs to the list no more.
pub proof fn lemma_list_ends(start: Seq<char>, list: Seq<char>, rest: Seq<char>, tag: Seq<char>, i: int)
    requires
        lacks(start, ':'),
        lacks(list, ':'),
    ensures
        after_colon(start + ":"@ + list + ":"@ + rest) == list,
        0 <= i < split(list, ',').len() && listed_tag(split(list, ',')[i]) == Some(tag)
            && is_tag_line(start + ":"@ + list + ":"@ + rest) ==> line_tags(
            start + ":"@ + list + ":"@ + rest,
        ).contains(tag),
        after_colon(start).len() == 0,
{
    reveal_strlit(":");
    assert(":"@ =~= seq![':']);
    let line = start + ":"@ + list + ":"@ + rest;
    lemma_split_one(start, ':');
    lemma_split_one(list, ':');
    lemma_split_at(start, list, ':');
    lemma_split_at(start + ":"@ + list, rest, ':');
    assert(split(line, ':')[1] == list);
    assert(split(line, ':').len() > 1) by {
        assert(split(line, ':') =~= seq![start] + seq![list] + split(rest, ':'));
    }
    if 0 <= i < split(list, ',').len() && listed_tag(split(list, ',')[i]) == Some(tag)
        && is_tag_line(line) {
        assert(listed_tag(split(after_colon(line), ',')[i]) == Some(tag));
        assert(has_tag(line, tag));
    }
}

} // verus!

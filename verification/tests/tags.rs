use journal::agenda::read_colon_tags;
use journal::syntax::SyntaxNode;
use journal::tags::{
    collect_inherited_tags, collect_tags_from_buffer, collect_tags_from_content,
    collect_tags_from_journal_directory, completes_tags, extract_tags_from_line, hashtag_of,
    listed_tag_of, scan_tags, TagCompletionProvider,
};

fn strings(words: &[&str]) -> Vec<String> {
    words.iter().map(|word| word.to_string()).collect()
}

fn sorted(mut tags: Vec<String>) -> Vec<String> {
    tags.sort();
    tags
}

fn node(kind: &str, text: &str, part: &str, row: u32, children: Vec<SyntaxNode>) -> SyntaxNode {
    let start_byte = text.find(part).unwrap();
    SyntaxNode {
        kind: kind.to_string(),
        start_byte,
        end_byte: start_byte + part.len(),
        start_row: row,
        end_row: row,
        children,
    }
}

#[test]
fn tags_of_words() {
    assert_eq!(hashtag_of("#tag").as_deref(), Some("tag"));
    assert_eq!(hashtag_of("##a-b_c!,").as_deref(), Some("a-b_c"));
    assert_eq!(hashtag_of("#été").as_deref(), Some("été"));
    assert_eq!(hashtag_of("#"), None);
    assert_eq!(hashtag_of("#!!"), None);
    assert_eq!(hashtag_of("tag"), None);
    assert_eq!(listed_tag_of("  'x y' ").as_deref(), Some("x y"));
    assert_eq!(listed_tag_of(" - ").as_deref(), Some("-"));
    assert_eq!(listed_tag_of(" !"), None);
}

#[test]
fn tags_of_lines() {
    let tags = |line: &str| {
        let mut tags = Vec::new();
        extract_tags_from_line(line, &mut tags);
        sorted(tags)
    };
    assert_eq!(tags("see #one and #two, #one"), vec!["one", "two"]);
    assert_eq!(tags("  TAGS: a, b c ,, \"d\" : e"), vec!["a", "b c", "d"]);
    assert_eq!(tags("my tags: a"), Vec::<String>::new());
    assert_eq!(tags("Tags:"), Vec::<String>::new());
    let files = vec![strings(&["#b", "tags: c"]), vec![], strings(&["#a #b"])];
    assert_eq!(scan_tags(&files), vec!["a", "b", "c"]);
}

#[test]
fn tags_between_colons() {
    let mut tags = strings(&["x"]);
    collect_tags_from_content("* A :x:\n* B :y: :z@1:\nno:pe :-:", &mut tags);
    assert_eq!(sorted(tags), vec!["x", "y", "z@1"]);
    let found = collect_tags_from_journal_directory(&strings(&["* A :a:b:c:", "* B :a:"]));
    assert_eq!(sorted(found), vec!["a", "b", "c"]);
    assert_eq!(read_colon_tags(":tag1:tag2:"), vec!["tag1", "tag2"]);
    assert_eq!(read_colon_tags("x:a:é:b_@9:"), vec!["a", "b_@9"]);
    assert_eq!(read_colon_tags("a:b"), Vec::<String>::new());
    assert_eq!(read_colon_tags("::"), Vec::<String>::new());
}

#[test]
fn tags_of_a_tree() {
    let text = "* A :one::two:\n** B :three:\n*** C\n* D :four:\n";
    let a = node(
        "headline",
        text,
        "* A :one::two:",
        0,
        vec![
            node("stars", text, "*", 0, vec![]),
            node(
                "tag_list",
                text,
                ":one::two:",
                0,
                vec![
                    node("tag", text, ":one:", 0, vec![]),
                    node("tag", text, ":two:", 0, vec![]),
                ],
            ),
        ],
    );
    let b = node(
        "headline",
        text,
        "** B :three:",
        1,
        vec![
            node("stars", text, "**", 1, vec![]),
            node("tag_list", text, ":three:", 1, vec![node("tag", text, ":three:", 1, vec![])]),
        ],
    );
    let c = node("headline", text, "*** C", 2, vec![node("stars", text, "***", 2, vec![])]);
    let d = node(
        "headline",
        text,
        "* D :four:",
        3,
        vec![
            node("stars", text, "*", 3, vec![]),
            node("tag_list", text, ":four:", 3, vec![node("tag", text, ":four:", 3, vec![])]),
        ],
    );
    let root = node("document", text, text, 0, vec![a, b, c, d]);
    assert_eq!(
        sorted(collect_tags_from_buffer(text, Some(&root))),
        vec!["four", "one", "three", "two"]
    );
    assert!(collect_tags_from_buffer(text, None).is_empty());
    assert_eq!(collect_inherited_tags(text, Some(&root), 2), vec!["three", "one", "two"]);
    assert_eq!(collect_inherited_tags(text, Some(&root), 1), vec!["one", "two"]);
    assert!(collect_inherited_tags(text, Some(&root), 3).is_empty());
    assert!(collect_inherited_tags(text, Some(&root), 9).is_empty());
    assert!(collect_inherited_tags(text, None, 2).is_empty());
}

#[test]
fn tags_come_from_the_headlines_around() {
    let text = "* A :a:\n* B :b:\n** C\n";
    let headline = |part: &str, stars: &str, tag: Option<&str>, row: u32| {
        let start = text.find(part).unwrap();
        let mut stars = node("stars", text, stars, row, vec![]);
        stars.end_byte = stars.end_byte - stars.start_byte + start;
        stars.start_byte = start;
        let mut children = vec![stars];
        if let Some(tag) = tag {
            children.push(node("tag_list", text, tag, row, vec![node("tag", text, tag, row, vec![])]));
        }
        node("headline", text, part, row, children)
    };
    let root = node(
        "document",
        text,
        text,
        0,
        vec![
            headline("* A :a:", "*", Some(":a:"), 0),
            headline("* B :b:", "*", Some(":b:"), 1),
            headline("** C", "**", None, 2),
        ],
    );
    assert_eq!(collect_inherited_tags(text, Some(&root), 2), vec!["b"]);
    assert!(collect_inherited_tags(text, Some(&root), 1).is_empty());
}

#[test]
fn completing_a_tag() {
    let provider = TagCompletionProvider::new();
    let offered = provider
        .completions(
            "  * É :a:Wo",
            &strings(&["work", "home"]),
            &strings(&["WORLD", "work"]),
            &strings(&["sword", "x"]),
        )
        .unwrap();
    assert_eq!((offered.replace_start, offered.replace_end), (10, 12));
    let labels: Vec<&str> = offered.completions.iter().map(|c| c.label.as_str()).collect();
    assert_eq!(labels, vec!["WORLD", "sword", "work"]);
    assert_eq!(offered.completions[2].new_text, "work:");
    assert!(provider.completions("* no colon", &vec![], &vec![], &vec![]).is_none());
    assert!(provider.completions("text :", &vec![], &vec![], &vec![]).is_none());
    let all = provider.completions("* :", &strings(&["b", "a"]), &vec![], &vec![]).unwrap();
    assert_eq!(all.completions.len(), 2);
    assert!(provider.is_completion_trigger(":", " * x :"));
    assert!(!provider.is_completion_trigger(":", "x :"));
    assert!(!provider.is_completion_trigger("a", "* x a"));
    assert!(!provider.sort_completions());
    assert!(!provider.filter_completions());
    assert!(completes_tags("/j/a.org"));
    assert!(!completes_tags("/j/a.md"));
}

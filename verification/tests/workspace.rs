use journal::buffer::{cut, head, slice, tail};
use journal::order::{add_texts, le_text, position_of, sort_distinct, sort_texts};
use journal::outline::{
    cycle_fold, find_current_section_range, focus_section, unfocus_section, FoldStep, OutlineItem,
    Point,
};
use journal::paths::{
    components_of, ends_with_path, extension_of, file_name_of, file_stem_of, is_same_path,
    join_path, path_is_absolute, starts_with_path, strip_base,
};
use journal::text::{
    contains_text, find_text, lines_of, replace_text, rfind_text, split_text, trim_end_matches_of,
    trim_end_of, trim_of, trim_start_of, words_of, CharClass,
};
use journal::zen::{
    handle_active_item_change, is_journal_file, toggle_journal_zen_mode, JournalZenModeState,
    ZenToggle,
};
use std::path::Path;

const PATHS: [&str; 22] = [
    "", "/", "a", "a/", "/a", "/a/b", "/a/b/", "//a//b", "/a/./b", "./a", ".", "..", "a/..",
    "/a/../b", "a/b.org", "/x/.org", ".hidden", "a.b.c", "a.", "/a/b/c.org", "b", "journal",
];

#[test]
fn paths_as_std_reads_them() {
    for a in PATHS {
        let path = Path::new(a);
        assert_eq!(path_is_absolute(a), path.is_absolute(), "{a}");
        let parts: Vec<String> =
            path.components().map(|c| c.as_os_str().to_str().unwrap().to_string()).collect();
        assert_eq!(components_of(a), parts, "{a}");
        assert_eq!(file_name_of(a), path.file_name().map(|s| s.to_str().unwrap().to_string()), "{a}");
        assert_eq!(file_stem_of(a), path.file_stem().map(|s| s.to_str().unwrap().to_string()), "{a}");
        assert_eq!(extension_of(a), path.extension().map(|s| s.to_str().unwrap().to_string()), "{a}");
        for b in PATHS {
            let other = Path::new(b);
            assert_eq!(is_same_path(a, b), path == other, "{a} {b}");
            assert_eq!(starts_with_path(a, b), path.starts_with(other), "{a} {b}");
            assert_eq!(ends_with_path(a, b), path.ends_with(other), "{a} {b}");
            assert_eq!(join_path(a, b), path.join(other).to_str().unwrap(), "{a} {b}");
            let stripped = path.strip_prefix(other).ok().map(|p| p.to_str().unwrap().to_string());
            assert_eq!(strip_base(a, b), stripped, "{a} {b}");
        }
    }
}

#[test]
fn texts_as_std_reads_them() {
    let texts = ["", "abc", "a\nb\r\nc", "\n", "é*é", "aXaXa", " \u{a0}a b\u{2003}c\t", "..ab..", "\r"];
    for s in texts {
        let lines: Vec<String> = s.lines().map(|line| line.to_string()).collect();
        assert_eq!(lines_of(s), lines, "{s:?}");
        let words: Vec<String> = s.split_whitespace().map(|word| word.to_string()).collect();
        assert_eq!(words_of(s), words, "{s:?}");
        assert_eq!(trim_of(s, CharClass::Space), s.trim(), "{s:?}");
        assert_eq!(trim_start_of(s, CharClass::Space), s.trim_start(), "{s:?}");
        assert_eq!(trim_end_of(s, CharClass::Space), s.trim_end(), "{s:?}");
        let pieces: Vec<String> = s.split('a').map(|piece| piece.to_string()).collect();
        assert_eq!(split_text(s, 'a'), pieces, "{s:?}");
        for pat in ["a", "X", "aX", "é", "b\r\n", "none"] {
            let index = |at: Option<usize>| at.map(|at| s[..at].chars().count());
            assert_eq!(find_text(s, pat), index(s.find(pat)), "{s:?} {pat}");
            assert_eq!(rfind_text(s, pat), index(s.rfind(pat)), "{s:?} {pat}");
            assert_eq!(contains_text(s, pat), s.contains(pat), "{s:?} {pat}");
            assert_eq!(replace_text(s, pat, "<a>"), s.replace(pat, "<a>"), "{s:?} {pat}");
            assert_eq!(trim_end_matches_of(s, pat), s.trim_end_matches(pat), "{s:?} {pat}");
            assert_eq!(le_text(s, pat), s <= pat, "{s:?} {pat}");
        }
    }
}

#[test]
fn cutting_texts() {
    assert_eq!(cut("éa", 2), ("é", "a"));
    assert_eq!(slice("aéb", 1, 3), "é");
    assert_eq!(head("éab", 2), "éa");
    assert_eq!(tail("éab", 2), "b");
}

#[test]
fn texts_in_order() {
    let texts: Vec<String> = ["b", "é", "a", "b", "B"].iter().map(|s| s.to_string()).collect();
    assert_eq!(sort_texts(&texts), vec!["B", "a", "b", "b", "é"]);
    assert_eq!(sort_distinct(&texts[1..4].to_vec()), vec!["a", "b", "é"]);
    assert_eq!(position_of(&texts, "b"), Some(0));
    assert_eq!(position_of(&texts, "c"), None);
    let mut some = vec!["a".to_string()];
    add_texts(&mut some, &texts);
    assert_eq!(some, vec!["a", "b", "é", "B"]);
}

fn section(row: u32, end: u32, depth: usize) -> OutlineItem {
    OutlineItem { start: Point { row, column: 0 }, end: Point { row: end, column: 3 }, depth }
}

fn sections() -> Vec<OutlineItem> {
    vec![section(1, 9, 0), section(3, 5, 1), section(4, 5, 2), section(6, 9, 1), section(10, 12, 0)]
}

#[test]
fn the_section_around_a_row() {
    let range =
        |row: u32| focus_section(&sections(), row).map(|shown| (shown.start.row, shown.end.row));
    assert_eq!(range(0), None);
    assert_eq!(range(1), Some((1, 9)));
    assert_eq!(range(2), Some((1, 9)));
    assert_eq!(range(5), Some((4, 5)));
    assert_eq!(range(99), Some((10, 12)));
    let twins = vec![section(2, 3, 0), section(2, 8, 1)];
    assert_eq!(find_current_section_range(&twins, 2).unwrap().1.row, 3);
    assert_eq!(find_current_section_range(&twins, 3).unwrap().1.row, 8);
    assert_eq!(find_current_section_range(&vec![], 3), None);
}

#[test]
fn the_other_sections_are_folded() {
    let steps = |row: u32| focus_section(&sections(), row).unwrap().steps;
    assert_eq!(steps(2), vec![FoldStep::Unfold(1), FoldStep::Fold(10)]);
    assert_eq!(steps(6), vec![FoldStep::Fold(3), FoldStep::Unfold(6)]);
    assert_eq!(steps(4), vec![FoldStep::Unfold(4)]);
    let end = Point { row: 12, column: 2 };
    let all = unfocus_section(&sections(), end);
    assert_eq!((all.start, all.end), (Point { row: 0, column: 0 }, end));
    let rows: Vec<FoldStep> = [1, 3, 4, 6, 10].map(FoldStep::Unfold).to_vec();
    assert_eq!(all.steps, rows);
    assert!(unfocus_section(&vec![], end).steps.is_empty());
}

#[test]
fn folding_goes_round() {
    let items = sections();
    assert_eq!(cycle_fold(&items, 2, 12, &vec![]), vec![FoldStep::Fold(1)]);
    assert_eq!(
        cycle_fold(&items, 2, 12, &vec![2]),
        vec![FoldStep::Unfold(1), FoldStep::Fold(3), FoldStep::Fold(6)]
    );
    assert_eq!(
        cycle_fold(&items, 2, 12, &vec![7, 4]),
        vec![FoldStep::Unfold(3), FoldStep::Unfold(6)]
    );
    assert_eq!(cycle_fold(&items, 2, 12, &vec![4]), vec![FoldStep::Fold(1)]);
    assert!(cycle_fold(&items, 0, 12, &vec![]).is_empty());
    assert_eq!(cycle_fold(&items, 11, 10, &vec![11]), vec![FoldStep::Fold(10)]);
}

#[test]
fn following_the_user() {
    let mut state = JournalZenModeState::default();
    assert!(!state.is_active);
    assert!(is_journal_file(Some("/j/a.org"), Some("/j")));
    assert!(!is_journal_file(Some("/jot/a.org"), Some("/j")));
    assert!(!is_journal_file(None, Some("/j")));
    assert!(!is_journal_file(Some("/j/a.org"), None));
    let on = handle_active_item_change(&mut state, Some("/j/a.org"), Some("/j"), Some("mine"));
    let on = on.unwrap();
    assert_eq!(on.profile, "journal-zen");
    assert_eq!(on.toggles, vec![ZenToggle::AllDocks, ZenToggle::CenteredLayout, ZenToggle::Zoom]);
    assert!(state.is_active);
    assert_eq!(state.journal_dir.as_deref(), Some("/j"));
    assert_eq!(state.previous_profile.as_deref(), Some("mine"));
    assert!(handle_active_item_change(&mut state, Some("/j/b.org"), Some("/j"), None).is_none());
    let off = handle_active_item_change(&mut state, None, Some("/j"), Some("journal-zen")).unwrap();
    assert_eq!(off.profile, "mine");
    assert!(!state.is_active && state.journal_dir.is_none() && state.previous_profile.is_none());
}

#[test]
fn toggling_the_mode() {
    let mut state = JournalZenModeState::default();
    assert!(toggle_journal_zen_mode(&mut state, Some("/x"), Some("/j"), None).is_none());
    let on = toggle_journal_zen_mode(&mut state, Some("/j/a"), Some("/j"), None).unwrap();
    assert_eq!(on.profile, "journal-zen");
    let off = toggle_journal_zen_mode(&mut state, Some("/j/a"), Some("/j"), None).unwrap();
    assert_eq!(off.profile, "");
    assert!(!state.is_active);
}

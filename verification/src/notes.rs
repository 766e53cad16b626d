//! Where notes go, and in what order they ask for what they need.
use crate::capture::{
    entry_name, entry_names, entry_path, goes_to, is_descending, is_step, retargeted, CaptureStep,
    Destination, JournalEntryPickerDelegate, PendingCapture,
};
use crate::order::text_le;
use crate::paths::{
    components, extension, is_plain_name, joined, lemma_components_joined, lemma_split_join,
};
use crate::settings::CaptureTemplateConfig;
use crate::text::{contains, lemma_index_of_none, occurs_at, split, texts, trim_end_matches};
use crate::written::lemma_endings_taken_off;
use vstd::prelude::*;
use vstd::string::*;

verus! {

/// What is put somewhere of a note.
pub open spec fn put(r: Destination) -> Seq<char> {
    match r {
        Destination::Append { path, content } => content@,
        Destination::Insert(pieces) => if pieces@.len() == 2 {
            pieces@[0]@ + pieces@[1]@
        } else {
            Seq::empty()
        },
        Destination::Nowhere => Seq::empty(),
    }
}

/// A note is put somewhere with nothing but line feeds after it, unless there is nowhere to put it:
/// one that goes to a file of a template ends its line, and any other leaves an empty line. It goes
/// nowhere only where the journal's directory is not known and it does not go to the cursor.
pub proof fn lemma_note_is_put(
    r: Destination,
    target: Option<Seq<char>>,
    journal_dir: Option<Seq<char>>,
    editor: Option<Option<Seq<char>>>,
    text: Seq<char>,
)
    requires
        goes_to(r, target, journal_dir, editor, text),
    ensures
        !(r is Nowhere) ==> put(r) == text + (if target is Some {
            "\n"@
        } else {
            "\n\n"@
        }),
        r is Nowhere ==> journal_dir is None,
        journal_dir is None ==> !(r is Append),
        target is Some ==> !(r is Insert),
        target is None && editor is Some && editor->0 is Some && contains(
            (editor->0)->0,
            "journal"@,
        ) ==> r is Insert,
{
    if let Destination::Insert(pieces) = r {
        assert(texts(pieces@).len() == pieces@.len());
        assert(texts(pieces@)[0] == pieces@[0]@);
        assert(texts(pieces@)[1] == pieces@[1]@);
    }
}

/// A note whose template names a file goes to the end of that file in the journal's directory,
/// whatever the editor shows. One whose template names none goes to the cursor where the editor
/// shows a file whose path has `journal` in it, and to the end of `journal.org` otherwise.
pub proof fn lemma_note_goes(
    r: Destination,
    target: Option<Seq<char>>,
    dir: Seq<char>,
    editor: Option<Option<Seq<char>>>,
    text: Seq<char>,
)
    requires
        goes_to(r, target, Some(dir), editor, text),
    ensures
        ({
            let shows_journal = editor is Some && editor->0 is Some && contains(
                (editor->0)->0,
                "journal"@,
            );
            &&& target matches Some(file) ==> is_plain_name(file) ==> (r matches Destination::Append {
                path,
                content,
            } && components(path@) == components(dir).push(file))
            &&& target matches Some(file) ==> (r matches Destination::Append { path, content }
                && path@ == if file.len() > 0 && file[0] == '/' {
                file
            } else if dir.len() == 0 || dir.last() == '/' {
                dir + file
            } else {
                dir + "/"@ + file
            })
            &&& target is None && shows_journal ==> r is Insert
            &&& target is None && !shows_journal ==> (r matches Destination::Append {
                path,
                content,
            } && components(path@) == components(dir).push("journal.org"@))
        }),
{
    reveal_strlit("journal.org");
    reveal_strlit("");
    reveal_strlit(".");
    assert("journal.org"@.len() == 11 && ""@.len() == 0 && "."@.len() == 1);
    lemma_components_joined(dir, "journal.org"@);
    if let Some(file) = target {
        if is_plain_name(file) {
            lemma_components_joined(dir, file);
        }
    }
}

/// A template without a file has its entry picked first, whatever it asks for. One with a file asks
/// for a text first, with its own prompt or the usual one, then for tags; and where it asks for
/// neither, the note is taken, with a workspace or without. Nothing is asked without a workspace.
pub proof fn lemma_steps_in_order(
    r: CaptureStep,
    template: CaptureTemplateConfig,
    has_journal: bool,
    has_workspace: bool,
)
    requires
        is_step(r, template, has_journal, has_workspace),
    ensures
        r is PickEntry <==> template.target is None && has_workspace && has_journal,
        r is AskInput <==> template.target is Some && has_workspace && template.prompt_for_input
            == Some(true),
        r matches CaptureStep::AskInput(prompt) ==> match template.input_prompt {
            Some(own) => prompt@ == own@,
            None => prompt@ == "Enter text:"@,
        },
        r is AskTags <==> template.target is Some && has_workspace && template.prompt_for_input
            != Some(true) && template.prompt_for_tags == Some(true),
        r is Process <==> template.target is Some && template.prompt_for_input != Some(true)
            && template.prompt_for_tags != Some(true),
        !(r is Dismiss),
{
}

/// The file of the entry listed as three names is the one with the third name and the extension, in
/// a directory with the second, in one with the first, in the journal's; and there is none for
/// fewer or more names.
pub proof fn lemma_entry_file(
    journal_dir: Seq<char>,
    year: Seq<char>,
    month: Seq<char>,
    day: Seq<char>,
    other: Seq<char>,
)
    requires
        is_plain_name(year),
        is_plain_name(month),
        is_plain_name(day),
        is_plain_name(other),
    ensures
        entry_path(journal_dir, year + "/"@ + month + "/"@ + day) matches Some(path) && components(
            path,
        ) == components(journal_dir) + seq![year, month, day + ".org"@],
        entry_path(journal_dir, day) is None,
        entry_path(journal_dir, month + "/"@ + day) is None,
        entry_path(journal_dir, year + "/"@ + month + "/"@ + day + "/"@ + other) is None,
{
    lemma_pieces(year, month, day);
    lemma_one_more(year + "/"@ + month + "/"@ + day, other);
    lemma_file_is_plain(day);
    lemma_three_deep(journal_dir, year, month, day + ".org"@);
    lemma_entry_path(journal_dir, day);
    lemma_entry_path(journal_dir, month + "/"@ + day);
    lemma_entry_path(journal_dir, year + "/"@ + month + "/"@ + day);
    lemma_entry_path(journal_dir, year + "/"@ + month + "/"@ + day + "/"@ + other);
}

proof fn lemma_entry_path(journal_dir: Seq<char>, name: Seq<char>)
    ensures
        split(name, '/').len() != 3 ==> entry_path(journal_dir, name) is None,
        forall|a: Seq<char>, b: Seq<char>, c: Seq<char>| #[trigger]
            seq![a, b, c] == split(name, '/') ==> entry_path(journal_dir, name) == Some(
                joined(joined(joined(journal_dir, a), b), c + ".org"@),
            ),
{
    assert forall|a: Seq<char>, b: Seq<char>, c: Seq<char>| #[trigger]
        seq![a, b, c] == split(name, '/') implies entry_path(journal_dir, name) == Some(
        joined(joined(joined(journal_dir, a), b), c + ".org"@),
    ) by {
        let parts = split(name, '/');
        assert(parts[0] == a && parts[1] == b && parts[2] == c);
    }
}

proof fn lemma_three_deep(dir: Seq<char>, a: Seq<char>, b: Seq<char>, c: Seq<char>)
    requires
        is_plain_name(a),
        is_plain_name(b),
        is_plain_name(c),
    ensures
        components(joined(joined(joined(dir, a), b), c)) == components(dir) + seq![a, b, c],
{
    lemma_components_joined(dir, a);
    lemma_components_joined(joined(dir, a), b);
    lemma_components_joined(joined(joined(dir, a), b), c);
    lemma_three_pushed(components(dir), a, b, c);
}

proof fn lemma_three_pushed(s: Seq<Seq<char>>, a: Seq<char>, b: Seq<char>, c: Seq<char>)
    ensures
        s.push(a).push(b).push(c) == s + seq![a, b, c],
{
    assert(s.push(a).push(b).push(c) =~= s + seq![a, b, c]);
}

proof fn lemma_one_more(names: Seq<char>, other: Seq<char>)
    requires
        is_plain_name(other),
    ensures
        split(names + "/"@ + other, '/').len() == split(names, '/').len() + 1,
{
    lemma_index_of_none(other, '/');
    assert(split(other, '/') == seq![other]);
    lemma_split_join(names, other);
}

proof fn lemma_file_is_plain(day: Seq<char>)
    requires
        is_plain_name(day),
    ensures
        is_plain_name(day + ".org"@),
{
    reveal_strlit(".org");
    reveal_strlit("");
    reveal_strlit(".");
    let file = day + ".org"@;
    assert(file.len() >= 4 && ""@.len() == 0 && "."@.len() == 1);
    assert forall|i: int| 0 <= i < file.len() implies file[i] != '/' by {
        if i >= day.len() {
            assert(file[i] == ".org"@[i - day.len()]);
        }
    }
}

/// The pieces of names with slashes between them are the names.
pub proof fn lemma_pieces(year: Seq<char>, month: Seq<char>, day: Seq<char>)
    requires
        is_plain_name(year),
        is_plain_name(month),
        is_plain_name(day),
    ensures
        split(day, '/') == seq![day],
        split(month + "/"@ + day, '/') == seq![month, day],
        split(year + "/"@ + month + "/"@ + day, '/') == seq![year, month, day],
{
    reveal_strlit("/");
    lemma_index_of_none(year, '/');
    lemma_index_of_none(month, '/');
    lemma_index_of_none(day, '/');
    assert(split(year, '/') == seq![year]);
    assert(split(month, '/') == seq![month]);
    assert(split(day, '/') == seq![day]);
    lemma_split_join(month, day);
    assert(split(month + "/"@ + day, '/') =~= seq![month, day]);
    lemma_split_join(year, month + "/"@ + day);
    assert(year + "/"@ + month + "/"@ + day =~= year + "/"@ + (month + "/"@ + day));
    assert(split(year + "/"@ + month + "/"@ + day, '/') =~= seq![year, month, day]);
}

/// The entries among two lists of files are those among the first and those among the second; a
/// file alone is an entry if it is an org file at least three components deep, and no other is.
pub proof fn lemma_entries_listed(first: Seq<Seq<char>>, second: Seq<Seq<char>>, path: Seq<char>)
    ensures
        entry_names(first + second) == entry_names(first) + entry_names(second),
        entry_names(seq![path]).len() <= 1,
        entry_names(seq![path]).len() == 1 <==> extension(path) == Some("org"@) && components(
            path,
        ).len() >= 3,
        entry_names(seq![path]).len() == 1 ==> Some(entry_names(seq![path])[0]) == entry_name(path),
    decreases second.len(),
{
    let one = seq![path];
    assert(one.drop_last() =~= Seq::<Seq<char>>::empty());
    assert(one.last() == path);
    assert(entry_names(one.drop_last()).len() == 0);
    if second.len() == 0 {
        assert(first + second =~= first);
        assert(entry_names(first) + entry_names(second) =~= entry_names(first));
    } else {
        let both = first + second;
        assert(both.drop_last() =~= first + second.drop_last());
        assert(both.last() == second.last());
        lemma_entries_listed(first, second.drop_last(), path);
        let before = entry_names(second.drop_last());
        if entry_names(second) != before {
            let name = entry_name(second.last())->0;
            assert(entry_names(first) + before.push(name) =~= (entry_names(first) + before).push(
                name,
            ));
        }
    }
}

/// A note whose entry was picked goes to that entry, and everything else about it is as it was.
pub proof fn lemma_note_is_redirected(after: PendingCapture, before: PendingCapture, file: Seq<char>)
    requires
        retargeted(after, before, file),
    ensures
        after.template.target matches Some(target) && target@ == file,
        after.entry_picked,
        after.template.name == before.template.name,
        after.template.description == before.template.description,
        after.template.template == before.template.template,
        after.template.prompt_for_input == before.template.prompt_for_input,
        after.template.input_prompt == before.template.input_prompt,
        after.template.prompt_for_tags == before.template.prompt_for_tags,
        after.context == before.context,
        after.input_text == before.input_text,
        after.tags == before.tags,
        after.journal_dir == before.journal_dir,
{
}

/// The entry that is picked is the one whose name the selected match shows.
pub proof fn lemma_picked_entry(picker: JournalEntryPickerDelegate)
    ensures
        ({
            let i = picker.selection.selected_index as int;
            &&& i < picker.selection.matches@.len() ==> picker.picked_path() == entry_path(
                picker.journal_dir@,
                picker.selection.matches@[i].string@,
            )
            &&& i >= picker.selection.matches@.len() ==> picker.picked_path() is None
        }),
{
}

/// Entries are listed with the greatest name first: of two, the one that comes later in the list
/// comes before the other, or equals it.
pub proof fn lemma_newest_first(names: Seq<Seq<char>>, i: int, j: int)
    requires
        is_descending(names),
        0 <= i < j < names.len(),
    ensures
        text_le(names[j], names[i]),
{
}

/// An entry is listed under the last three components of its path, with slashes between them and
/// without the extension, however often that stands at the end; and not at all if it has fewer.
pub proof fn lemma_entry_is_named(path: Seq<char>, stem: Seq<char>)
    ensures
        ({
            let c = components(path);
            let n = c.len() as int;
            &&& n < 3 ==> entry_name(path) is None
            &&& n >= 3 ==> entry_name(path) == Some(
                c[n - 3] + "/"@ + c[n - 2] + "/"@ + trim_end_matches(c[n - 1], ".org"@),
            )
        }),
        trim_end_matches(stem + ".org"@, ".org"@) == trim_end_matches(stem, ".org"@),
        !occurs_at(stem, ".org"@, stem.len() - 4) ==> trim_end_matches(stem, ".org"@) == stem,
{
    reveal_strlit(".org");
    lemma_endings_taken_off(stem, ".org"@);
}

} // verus!

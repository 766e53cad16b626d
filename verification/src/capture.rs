//! Taking a note from a template, and the entries it can go to.
use crate::agenda::clone_option;
use crate::calendar::{iso_date, iso_date_text, local_now, DateTime};
use crate::entry::{clock, clock_text};
use crate::number::{decimal, decimal_text};
use crate::order::{le_text, lemma_text_le_total, lemma_text_le_transitive, text_le};
use crate::paths::{
    components, components_of, file_name, file_name_of, is_org, is_org_file, is_plain_name,
    join_path, joined, lemma_components_joined, lemma_split_join, relative_to, strip_base,
};
use crate::patterns::option_text;
use crate::picker::{all_among, clamped_index, everything, match_views, Selection, StringMatch};
use crate::planning::as_option_str;
use crate::repeater::option_str;
use crate::settings::{CaptureTemplateConfig, HourFormat};
use crate::text::{
    contains, contains_text, lemma_find, lemma_index_of_none, occurs_at, replace, replace_text,
    split, split_text, texts, trim_end_matches, trim_end_matches_of,
};
use vstd::prelude::*;
use vstd::string::*;

verus! {

/// Where a note is taken: the selected text, the file, and the line.
#[derive(Debug)]
pub struct CaptureContext {
    pub selection: Option<String>,
    pub file_path: Option<String>,
    pub line_number: Option<u32>,
}

/// The context of an editor: the selected text, its file, and the line of the cursor, counted from
/// one.
pub fn capture_context(selection: Option<&str>, file_path: Option<&str>, cursor_row: u32) -> (r:
    CaptureContext)
    requires
        cursor_row < u32::MAX,
    ensures
        option_text(r.selection) == option_str(selection),
        option_text(r.file_path) == option_str(file_path),
        r.line_number == Some((cursor_row + 1) as u32),
{
    CaptureContext {
        selection: match selection {
            Some(s) => Some(s.to_owned()),
            None => None,
        },
        file_path: match file_path {
            Some(s) => Some(s.to_owned()),
            None => None,
        },
        line_number: Some(cursor_row + 1),
    }
}

/// A text with a placeholder replaced, if there is something to replace it by.
pub open spec fn filled(text: Seq<char>, placeholder: Seq<char>, value: Option<Seq<char>>) -> Seq<
    char,
> {
    match value {
        Some(value) => replace(text, placeholder, value),
        None => text,
    }
}

/// A link to a line of a file.
pub open spec fn link_to(path: Seq<char>, line: nat) -> Seq<char> {
    "["@ + path + ":"@ + decimal(line) + "]("@ + path + ":"@ + decimal(line) + ")"@
}

/// The name of a file, or nothing where its path has none.
pub open spec fn name_of(path: Seq<char>) -> Seq<char> {
    match file_name(path) {
        Some(name) => name,
        None => Seq::empty(),
    }
}

/// A text with the placeholders for the context replaced.
pub open spec fn filled_from(text: Seq<char>, context: CaptureContext) -> Seq<char> {
    let selected = filled(text, "{selection}"@, option_text(context.selection));
    match context.file_path {
        Some(path) => {
            let named = replace(selected, "{file}"@, name_of(path@));
            match context.line_number {
                Some(line) => replace(named, "{link}"@, link_to(path@, line as nat)),
                None => named,
            }
        },
        None => selected,
    }
}

/// A template with its placeholders replaced, at a time: first the date, the time and the cursor,
/// then what was typed, the tags, and the context.
pub open spec fn expanded(
    template: Seq<char>,
    hour_format: HourFormat,
    context: Option<CaptureContext>,
    input: Option<Seq<char>>,
    tags: Option<Seq<char>>,
    now: DateTime,
) -> Seq<char> {
    let dated = replace(template, "{date}"@, iso_date(now.date));
    let timed = replace(dated, "{time}"@, clock(now.time, hour_format));
    let plain = replace(timed, "{cursor}"@, ""@);
    let typed = filled(plain, "{input}"@, input);
    let tagged = filled(typed, "{tags}"@, tags);
    match context {
        Some(context) => filled_from(tagged, context),
        None => tagged,
    }
}

/// A link to a line of a file.
fn format_link(path: &str, line: u32) -> (r: String)
    ensures
        r@ == link_to(path@, line as nat),
{
    let number = decimal_text(line as u128);
    let mut r = "[".to_owned();
    r.append(path);
    r.append(":");
    r.append(number.as_str());
    r.append("](");
    r.append(path);
    r.append(":");
    r.append(number.as_str());
    r.append(")");
    r
}

/// A text with the placeholders for the context replaced.
fn fill_from(text: &str, context: &CaptureContext) -> (r: String)
    ensures
        r@ == filled_from(text@, *context),
{
    proof {
        reveal_strlit("{selection}");
        reveal_strlit("{file}");
        reveal_strlit("{link}");
    }
    let mut r = match &context.selection {
        Some(selection) => replace_text(text, "{selection}", selection.as_str()),
        None => text.to_owned(),
    };
    if let Some(path) = &context.file_path {
        let name = match file_name_of(path.as_str()) {
            Some(name) => name,
            None => String::new(),
        };
        r = replace_text(r.as_str(), "{file}", name.as_str());
        if let Some(line) = context.line_number {
            let link = format_link(path.as_str(), line);
            r = replace_text(r.as_str(), "{link}", link.as_str());
        }
    }
    r
}

/// A template with its placeholders replaced, at a time.
pub fn expand_template_at(
    template: &str,
    hour_format: &HourFormat,
    context: &Option<CaptureContext>,
    input: Option<&str>,
    tags: Option<&str>,
    now: DateTime,
) -> (r: String)
    requires
        now.valid(),
    ensures
        r@ == expanded(
            template@,
            *hour_format,
            *context,
            option_str(input),
            option_str(tags),
            now,
        ),
{
    proof {
        reveal_strlit("{date}");
        reveal_strlit("{time}");
        reveal_strlit("{cursor}");
        reveal_strlit("{input}");
        reveal_strlit("{tags}");
    }
    let date = iso_date_text(now.date);
    let time = clock_text(now.time, hour_format);
    let dated = replace_text(template, "{date}", date.as_str());
    let timed = replace_text(dated.as_str(), "{time}", time.as_str());
    let mut r = replace_text(timed.as_str(), "{cursor}", "");
    if let Some(input) = input {
        r = replace_text(r.as_str(), "{input}", input);
    }
    if let Some(tags) = tags {
        r = replace_text(r.as_str(), "{tags}", tags);
    }
    match context {
        Some(context) => fill_from(r.as_str(), context),
        None => r,
    }
}

/// A template with its placeholders replaced, now.
pub fn expand_template(
    template: &str,
    hour_format: &HourFormat,
    context: &Option<CaptureContext>,
    input: Option<&str>,
    tags: Option<&str>,
) -> (r: String)
    ensures
        exists|now: DateTime|
            now.valid() && r@ == #[trigger] expanded(
                template@,
                *hour_format,
                *context,
                option_str(input),
                option_str(tags),
                now,
            ),
{
    let now = local_now();
    expand_template_at(template, hour_format, context, input, tags, now)
}

/// A placeholder that does not stand in a text changes nothing.
pub proof fn lemma_nothing_to_fill(text: Seq<char>, placeholder: Seq<char>, value: Seq<char>)
    requires
        !contains(text, placeholder),
    ensures
        replace(text, placeholder, value) == text,
{
    lemma_find(text, placeholder);
}

/// Nothing that stands for something else in a template occurs in the text.
pub open spec fn lacks_placeholders(text: Seq<char>) -> bool {
    &&& !contains(text, "{date}"@)
    &&& !contains(text, "{time}"@)
    &&& !contains(text, "{cursor}"@)
    &&& !contains(text, "{input}"@)
    &&& !contains(text, "{tags}"@)
    &&& !contains(text, "{selection}"@)
    &&& !contains(text, "{file}"@)
    &&& !contains(text, "{link}"@)
}

/// A template without placeholders is the note.
pub proof fn lemma_plain_template(
    template: Seq<char>,
    hour_format: HourFormat,
    context: Option<CaptureContext>,
    input: Option<Seq<char>>,
    tags: Option<Seq<char>>,
    now: DateTime,
)
    requires
        lacks_placeholders(template),
    ensures
        expanded(template, hour_format, context, input, tags, now) == template,
{
    lemma_nothing_to_fill(template, "{date}"@, iso_date(now.date));
    lemma_nothing_to_fill(template, "{time}"@, clock(now.time, hour_format));
    lemma_nothing_to_fill(template, "{cursor}"@, ""@);
    if input is Some {
        lemma_nothing_to_fill(template, "{input}"@, input->0);
    }
    if tags is Some {
        lemma_nothing_to_fill(template, "{tags}"@, tags->0);
    }
    if let Some(context) = context {
        if let Some(selection) = context.selection {
            lemma_nothing_to_fill(template, "{selection}"@, selection@);
        }
        if let Some(path) = context.file_path {
            lemma_nothing_to_fill(template, "{file}"@, name_of(path@));
            if let Some(line) = context.line_number {
                lemma_nothing_to_fill(template, "{link}"@, link_to(path@, line as nat));
            }
        }
    }
}

/// What becomes of a note.
#[derive(Debug)]
pub enum Destination {
    /// It goes to the end of a file.
    Append { path: String, content: String },
    /// It goes to where the cursor is, piece by piece.
    Insert(Vec<String>),
    /// There is nowhere to put it.
    Nowhere,
}

/// The note goes to the end of a file inside the journal's directory, if that can be determined.
pub open spec fn appends(
    r: Destination,
    journal_dir: Option<Seq<char>>,
    file: Seq<char>,
    content: Seq<char>,
) -> bool {
    match journal_dir {
        Some(dir) => r matches Destination::Append { path, content: c } && path@ == joined(dir, file)
            && c@ == content,
        None => r is Nowhere,
    }
}

/// The file in the editor is one of a journal's.
pub open spec fn edits_journal(editor: Option<Option<Seq<char>>>) -> bool {
    editor matches Some(Some(path)) && contains(path, "journal"@)
}

/// What becomes of a note: it goes to its template's file, or else to the cursor where the editor
/// shows a file of a journal, or else to the journal's file.
pub open spec fn goes_to(
    r: Destination,
    target: Option<Seq<char>>,
    journal_dir: Option<Seq<char>>,
    editor: Option<Option<Seq<char>>>,
    text: Seq<char>,
) -> bool {
    match target {
        Some(file) => appends(r, journal_dir, file, text + "\n"@),
        None => if edits_journal(editor) {
            r matches Destination::Insert(pieces) && texts(pieces@) == seq![text, "\n\n"@]
        } else {
            appends(r, journal_dir, "journal.org"@, text + "\n\n"@)
        },
    }
}

/// Whether there is an editor, and the path of the file in it.
pub open spec fn editor_path(editor: Option<Option<&str>>) -> Option<Option<Seq<char>>> {
    match editor {
        Some(path) => Some(option_str(path)),
        None => None,
    }
}

/// A note that goes to the end of a file inside the journal's directory.
fn append_to(journal_dir: Option<&str>, file: &str, text: &str, end: &str) -> (r: Destination)
    ensures
        appends(r, option_str(journal_dir), file@, text@ + end@),
{
    match journal_dir {
        Some(dir) => {
            let mut content = text.to_owned();
            content.append(end);
            Destination::Append { path: join_path(dir, file), content }
        },
        None => Destination::Nowhere,
    }
}

/// What becomes of a note, given its text.
pub fn destination(
    target: Option<&str>,
    journal_dir: Option<&str>,
    editor: Option<Option<&str>>,
    text: &str,
) -> (r: Destination)
    ensures
        goes_to(r, option_str(target), option_str(journal_dir), editor_path(editor), text@),
{
    if let Some(file) = target {
        return append_to(journal_dir, file, text, "\n");
    }
    if let Some(Some(path)) = editor {
        if contains_text(path, "journal") {
            let pieces = vec![text.to_owned(), "\n\n".to_owned()];
            assert(texts(pieces@) == seq![text@, "\n\n"@]);
            return Destination::Insert(pieces);
        }
    }
    append_to(journal_dir, "journal.org", text, "\n\n")
}

/// Takes a note from a template, now: what becomes of it.
pub fn process_template_with_input(
    template: &CaptureTemplateConfig,
    hour_format: &HourFormat,
    context: &Option<CaptureContext>,
    input: Option<&str>,
    tags: Option<&str>,
    journal_dir: Option<&str>,
    editor: Option<Option<&str>>,
) -> (r: Destination)
    ensures
        exists|now: DateTime|
            now.valid() && goes_to(
                r,
                option_text(template.target),
                option_str(journal_dir),
                editor_path(editor),
                #[trigger] expanded(
                    template.template@,
                    *hour_format,
                    *context,
                    option_str(input),
                    option_str(tags),
                    now,
                ),
            ),
{
    let text = expand_template(template.template.as_str(), hour_format, context, input, tags);
    destination(as_option_str(&template.target), journal_dir, editor, text.as_str())
}

/// Whether an option is set to true.
pub open spec fn is_set(option: Option<bool>) -> bool {
    option == Some(true)
}

/// Whether an option is set to true.
fn set(option: Option<bool>) -> (r: bool)
    ensures
        r == is_set(option),
{
    match option {
        Some(on) => on,
        None => false,
    }
}

/// The prompt of a template that asks for a text.
pub open spec fn prompt_of(template: CaptureTemplateConfig) -> Seq<char> {
    match template.input_prompt {
        Some(prompt) => prompt@,
        None => "Enter text:"@,
    }
}

/// The prompt of a template that asks for a text.
fn prompt_text(template: &CaptureTemplateConfig) -> (r: String)
    ensures
        r@ == prompt_of(*template),
{
    match &template.input_prompt {
        Some(prompt) => prompt.clone(),
        None => "Enter text:".to_owned(),
    }
}

/// What is to be done once a template was picked.
#[derive(Debug)]
pub enum CaptureStep {
    /// Nothing was picked.
    Dismiss,
    /// Nothing can be done.
    Nothing,
    /// The entry is to be picked that the note goes to.
    PickEntry,
    /// A text is to be asked for.
    AskInput(String),
    /// Tags are to be picked.
    AskTags,
    /// The note is taken.
    Process,
}

/// What is to be done for a template: the entry is picked where it has no file, then a text is
/// asked for, then tags, as the template says; else the note is taken. Without a workspace nothing
/// can be asked.
pub open spec fn is_step(
    r: CaptureStep,
    template: CaptureTemplateConfig,
    has_journal: bool,
    has_workspace: bool,
) -> bool {
    if template.target is None {
        if has_workspace && has_journal {
            r is PickEntry
        } else {
            r is Nothing
        }
    } else if is_set(template.prompt_for_input) {
        if has_workspace {
            r matches CaptureStep::AskInput(prompt) && prompt@ == prompt_of(template)
        } else {
            r is Nothing
        }
    } else if is_set(template.prompt_for_tags) {
        if has_workspace {
            r is AskTags
        } else {
            r is Nothing
        }
    } else {
        r is Process
    }
}

/// What is to be done for a template.
pub fn step_for(template: &CaptureTemplateConfig, has_journal: bool, has_workspace: bool) -> (r:
    CaptureStep)
    ensures
        is_step(r, *template, has_journal, has_workspace),
{
    if template.target.is_none() {
        if has_workspace && has_journal {
            CaptureStep::PickEntry
        } else {
            CaptureStep::Nothing
        }
    } else if set(template.prompt_for_input) {
        if has_workspace {
            CaptureStep::AskInput(prompt_text(template))
        } else {
            CaptureStep::Nothing
        }
    } else if set(template.prompt_for_tags) {
        if has_workspace {
            CaptureStep::AskTags
        } else {
            CaptureStep::Nothing
        }
    } else {
        CaptureStep::Process
    }
}

/// What is to be done once a text was typed for a note: tags are picked if its template asks for
/// them, unless the entry was picked that it goes to; else the note is taken.
pub fn step_after_input(note: &PendingCapture) -> (r: CaptureStep)
    ensures
        if is_set(note.template.prompt_for_tags) && !note.entry_picked {
            r is AskTags
        } else {
            r is Process
        },
{
    if set(note.template.prompt_for_tags) && !note.entry_picked {
        CaptureStep::AskTags
    } else {
        CaptureStep::Process
    }
}

/// A list of templates to pick from.
#[derive(Debug)]
pub struct CaptureTemplatePickerDelegate {
    pub templates: Vec<CaptureTemplateConfig>,
    pub journal_dir: Option<String>,
    pub candidates: Vec<String>,
    pub selection: Selection,
}

/// The names of templates.
pub open spec fn template_names(templates: Seq<CaptureTemplateConfig>) -> Seq<Seq<char>> {
    templates.map_values(|t: CaptureTemplateConfig| t.name@)
}

impl CaptureTemplatePickerDelegate {
    /// The candidates are the names of the templates, and each match is one of them.
    pub open spec fn valid(self) -> bool {
        &&& texts(self.candidates@) == template_names(self.templates@)
        &&& all_among(self.selection.matches@, self.templates@.len() as int)
    }

    /// A list of templates, which shows none until something or nothing is typed.
    pub fn new(templates: Vec<CaptureTemplateConfig>, journal_dir: Option<String>) -> (r:
        CaptureTemplatePickerDelegate)
        ensures
            r.valid(),
            r.templates == templates,
            r.journal_dir == journal_dir,
            r.selection.matches@.len() == 0,
            r.selection.selected_index == 0,
    {
        let mut candidates: Vec<String> = Vec::new();
        let mut i: usize = 0;
        while i < templates.len()
            invariant
                i <= templates@.len(),
                candidates@.len() == i,
                forall|j: int| 0 <= j < i ==> (#[trigger] candidates@[j])@ == templates@[j].name@,
            decreases templates@.len() - i,
        {
            candidates.push(templates[i].name.clone());
            i += 1;
        }
        assert(texts(candidates@) == template_names(templates@));
        CaptureTemplatePickerDelegate {
            templates,
            journal_dir,
            candidates,
            selection: Selection::empty(),
        }
    }

    /// What the list shows where nothing was typed.
    pub fn placeholder_text(&self) -> (r: &'static str)
        ensures
            r@ == "Select a capture template…"@,
    {
        "Select a capture template…"
    }

    /// Shows the matches for what was typed.
    pub fn update_matches(&mut self, query: &str, found: Vec<StringMatch>)
        requires
            old(self).valid(),
            all_among(found@, old(self).templates@.len() as int),
        ensures
            final(self).valid(),
            final(self).templates == old(self).templates,
            final(self).journal_dir == old(self).journal_dir,
            final(self).candidates == old(self).candidates,
            match_views(final(self).selection.matches@) == if query@.len() == 0 {
                everything(template_names(old(self).templates@))
            } else {
                match_views(found@)
            },
            final(self).selection.selected_index == clamped_index(
                old(self).selection.selected_index as int,
                final(self).selection.matches@.len() as int,
            ),
    {
        assert(texts(self.candidates@).len() == template_names(self.templates@).len());
        self.selection.update_matches(query, &self.candidates, found);
    }

    /// Picks the selected template: which one it is, and what is to be done for it.
    pub fn confirm(&self, has_workspace: bool) -> (r: (Option<usize>, CaptureStep))
        requires
            self.valid(),
        ensures
            match self.selection.picked() {
                Some(i) => r.0 == Some(i as usize) && is_step(
                    r.1,
                    self.templates@[i],
                    self.journal_dir is Some,
                    has_workspace,
                ),
                None => r.0 is None && r.1 is Dismiss,
            },
    {
        match self.selection.pick() {
            Some(i) => {
                assert(self.selection.matches@[self.selection.selected_index as int].candidate_id
                    < self.templates@.len());
                (Some(i), step_for(&self.templates[i], self.journal_dir.is_some(), has_workspace))
            },
            None => (None, CaptureStep::Dismiss),
        }
    }

    /// What the list shows beside a match: the description of its template.
    pub fn description(&self, ix: usize) -> (r: Option<String>)
        requires
            self.valid(),
        ensures
            option_text(r) == if ix < self.selection.matches@.len() {
                option_text(
                    self.templates@[self.selection.matches@[ix as int].candidate_id as int].description,
                )
            } else {
                None
            },
    {
        if ix < self.selection.matches.len() {
            clone_option(&self.templates[self.selection.matches[ix].candidate_id].description)
        } else {
            None
        }
    }
}

/// Picks a template for a note.
#[derive(Debug)]
pub struct CaptureTemplatePicker {
    pub picker: CaptureTemplatePickerDelegate,
}

/// Begins to take a note: opens a list of the templates, if there are any.
pub fn capture_template(templates: Vec<CaptureTemplateConfig>, journal_dir: Option<String>) -> (r:
    Option<CaptureTemplatePicker>)
    ensures
        templates@.len() == 0 <==> r is None,
        r is Some ==> {
            &&& r->0.picker.valid()
            &&& r->0.picker.templates == templates
            &&& r->0.picker.journal_dir == journal_dir
            &&& r->0.picker.selection.matches@.len() == 0
            &&& r->0.picker.selection.selected_index == 0
        },
{
    if templates.len() == 0 {
        return None;
    }
    Some(CaptureTemplatePicker { picker: CaptureTemplatePickerDelegate::new(templates, journal_dir) })
}

/// A note that is not taken yet.
#[derive(Debug)]
pub struct PendingCapture {
    pub template: CaptureTemplateConfig,
    pub context: Option<CaptureContext>,
    pub input_text: Option<String>,
    pub tags: Option<String>,
    pub journal_dir: Option<String>,
    /// The entry was picked that the note goes to.
    pub entry_picked: bool,
}

/// The name under which an entry is listed: the last three components of its path, without the
/// extension.
pub open spec fn entry_name(path: Seq<char>) -> Option<Seq<char>> {
    let c = components(path);
    let n = c.len();
    if n >= 3 {
        Some(c[n - 3] + "/"@ + c[n - 2] + "/"@ + trim_end_matches(c[n - 1], ".org"@))
    } else {
        None
    }
}

/// The name under which an entry is listed.
pub fn format_entry_name(path: &str) -> (r: Option<String>)
    ensures
        option_text(r) == entry_name(path@),
{
    let c = components_of(path);
    let n = c.len();
    assert(texts(c@).len() == n);
    if n < 3 {
        return None;
    }
    assert(texts(c@)[n - 3] == c@[n - 3]@);
    assert(texts(c@)[n - 2] == c@[n - 2]@);
    assert(texts(c@)[n - 1] == c@[n - 1]@);
    let day = trim_end_matches_of(c[n - 1].as_str(), ".org");
    let mut r = c[n - 3].clone();
    r.append("/");
    r.append(c[n - 2].as_str());
    r.append("/");
    r.append(day.as_str());
    Some(r)
}

/// The file of the entry that is listed under a name, in a journal's directory.
pub open spec fn entry_path(journal_dir: Seq<char>, name: Seq<char>) -> Option<Seq<char>> {
    let parts = split(name, '/');
    if parts.len() == 3 {
        Some(joined(joined(joined(journal_dir, parts[0]), parts[1]), parts[2] + ".org"@))
    } else {
        None
    }
}

/// The file of the entry that is listed under a name, in a journal's directory.
pub fn find_entry_path(journal_dir: &str, name: &str) -> (r: Option<String>)
    ensures
        option_text(r) == entry_path(journal_dir@, name@),
{
    let parts = split_text(name, '/');
    assert(texts(parts@).len() == parts@.len());
    if parts.len() != 3 {
        return None;
    }
    assert(texts(parts@)[0] == parts@[0]@);
    assert(texts(parts@)[1] == parts@[1]@);
    assert(texts(parts@)[2] == parts@[2]@);
    let mut file = parts[2].clone();
    file.append(".org");
    let year = join_path(journal_dir, parts[0].as_str());
    let month = join_path(year.as_str(), parts[1].as_str());
    Some(join_path(month.as_str(), file.as_str()))
}

/// The text does not end with the extension of an entry.
pub open spec fn is_bare(s: Seq<char>) -> bool {
    !occurs_at(s, ".org"@, s.len() - 4)
}

/// The file that is found for an entry is listed under the name it was found for, if the name is
/// made of three names and does not end with the extension.
pub proof fn lemma_entry_round_trip(
    journal_dir: Seq<char>,
    year: Seq<char>,
    month: Seq<char>,
    day: Seq<char>,
)
    requires
        is_plain_name(year),
        is_plain_name(month),
        is_plain_name(day),
        is_bare(day),
    ensures
        entry_path(journal_dir, year + "/"@ + month + "/"@ + day) matches Some(path) && entry_name(
            path,
        ) == Some(year + "/"@ + month + "/"@ + day),
{
    reveal_strlit("/");
    reveal_strlit(".org");
    reveal_strlit("");
    reveal_strlit(".");
    let name = year + "/"@ + month + "/"@ + day;
    assert(name == year + "/"@ + (month + "/"@ + day));
    lemma_split_join(year, month + "/"@ + day);
    lemma_split_join(month, day);
    lemma_index_of_none(year, '/');
    lemma_index_of_none(month, '/');
    lemma_index_of_none(day, '/');
    assert(split(year, '/') == seq![year]);
    assert(split(month, '/') == seq![month]);
    assert(split(day, '/') == seq![day]);
    assert(split(name, '/') == seq![year, month, day]);
    let file = day + ".org"@;
    let a = joined(journal_dir, year);
    let b = joined(a, month);
    let path = joined(b, file);
    assert forall|i: int| 0 <= i < file.len() implies file[i] != '/' by {
        if i >= day.len() {
            assert(file[i] == ".org"@[i - day.len()]);
        }
    }
    lemma_components_joined(journal_dir, year);
    lemma_components_joined(a, month);
    lemma_components_joined(b, file);
    let c = components(path);
    let n = c.len();
    assert(c[n - 1] == file && c[n - 2] == month && c[n - 3] == year);
    assert(file.subrange(file.len() - 4, file.len() as int) == ".org"@);
    assert(occurs_at(file, ".org"@, file.len() - 4));
    assert(file.take(file.len() - 4) == day);
    reveal_with_fuel(trim_end_matches, 2);
}

/// Each text comes before none that stands ahead of it: the greatest is first.
pub open spec fn is_descending(s: Seq<Seq<char>>) -> bool {
    forall|i: int, j: int| 0 <= i < j < s.len() ==> text_le(#[trigger] s[j], #[trigger] s[i])
}

/// The names of the entries among some files, in the order of the files.
pub open spec fn entry_names(paths: Seq<Seq<char>>) -> Seq<Seq<char>>
    decreases paths.len(),
{
    if paths.len() == 0 {
        Seq::empty()
    } else {
        let before = entry_names(paths.drop_last());
        match entry_name(paths.last()) {
            Some(name) if is_org(paths.last()) => before.push(name),
            _ => before,
        }
    }
}

/// Puts a name behind all that are not less.
fn insert_descending(v: &mut Vec<String>, s: String)
    requires
        is_descending(texts(old(v)@)),
    ensures
        is_descending(texts(final(v)@)),
        texts(final(v)@).to_multiset() == texts(old(v)@).to_multiset().insert(s@),
{
    let mut k: usize = 0;
    while k < v.len() && le_text(s.as_str(), v[k].as_str())
        invariant
            k <= v@.len(),
            v@ == old(v)@,
            forall|j: int| 0 <= j < k ==> text_le(s@, #[trigger] texts(v@)[j]),
        decreases v@.len() - k,
    {
        assert(texts(v@)[k as int] == v@[k as int]@);
        k += 1;
    }
    let ghost t = texts(v@);
    let ghost text = s@;
    assert(k < v@.len() ==> !text_le(text, t[k as int]));
    v.insert(k, s);
    proof {
        let u = texts(v@);
        assert(u =~= t.insert(k as int, text));
        if k < t.len() {
            lemma_text_le_total(t[k as int], text);
        }
        assert forall|i: int, j: int| 0 <= i < j < u.len() implies text_le(
            #[trigger] u[j],
            #[trigger] u[i],
        ) by {
            if j < k {
                assert(text_le(t[j], t[i]));
            } else if j == k {
                assert(text_le(text, t[i]));
            } else if i == k {
                if j - 1 > k {
                    assert(text_le(t[j - 1], t[k as int]));
                    lemma_text_le_transitive(t[j - 1], t[k as int], text);
                }
            } else if i < k {
                assert(text_le(t[j - 1], t[i]));
            } else {
                assert(text_le(t[j - 1], t[i - 1]));
            }
        }
        vstd::seq_lib::to_multiset_insert(t, k as int, text);
    }
}

/// The names of the entries among some files, the greatest first.
pub fn collect_journal_entries(paths: &Vec<String>) -> (r: Vec<String>)
    ensures
        is_descending(texts(r@)),
        texts(r@).to_multiset() == entry_names(texts(paths@)).to_multiset(),
{
    let ghost all = texts(paths@);
    let mut r: Vec<String> = Vec::new();
    let mut i: usize = 0;
    assert(texts(r@) =~= entry_names(all.take(0)));
    while i < paths.len()
        invariant
            i <= paths@.len(),
            all == texts(paths@),
            is_descending(texts(r@)),
            texts(r@).to_multiset() == entry_names(all.take(i as int)).to_multiset(),
        decreases paths@.len() - i,
    {
        proof {
            assert(all[i as int] == paths@[i as int]@);
            assert(all.take(i + 1).drop_last() == all.take(i as int));
        }
        if is_org_file(paths[i].as_str()) {
            if let Some(name) = format_entry_name(paths[i].as_str()) {
                proof {
                    vstd::seq_lib::to_multiset_build(entry_names(all.take(i as int)), name@);
                }
                insert_descending(&mut r, name);
            }
        }
        i += 1;
    }
    assert(all.take(i as int) == all);
    r
}

/// A list of entries to pick from, to open one or to take a note into it.
#[derive(Debug)]
pub struct JournalEntryPickerDelegate {
    pub journal_dir: String,
    pub candidates: Vec<String>,
    pub selection: Selection,
    pub capture_mode: bool,
    pub pending_capture: Option<PendingCapture>,
}

/// What is to be done once an entry was picked.
#[derive(Debug)]
pub enum EntryStep {
    /// The list closes.
    Dismiss,
    /// The list closes, and the file of the entry opens.
    Open(String),
    /// A text is asked for, with a prompt, for the note that goes to the entry.
    AskInput(PendingCapture, String),
    /// The list closes, and the note is taken.
    Process(PendingCapture),
}

/// A note goes to the file of an entry that was picked and is otherwise as it was.
pub open spec fn retargeted(r: PendingCapture, pending: PendingCapture, target: Seq<char>) -> bool {
    &&& option_text(r.template.target) == Some(target)
    &&& r == (PendingCapture {
        template: CaptureTemplateConfig { target: r.template.target, ..pending.template },
        entry_picked: true,
        ..pending
    })
}

/// The file of an entry, as seen from the journal's directory.
pub open spec fn entry_target(path: Seq<char>, journal_dir: Seq<char>) -> Seq<char> {
    match relative_to(path, journal_dir) {
        Some(target) => target,
        None => path,
    }
}

impl JournalEntryPickerDelegate {
    /// A list of entries to open one of.
    pub fn new(journal_dir: &str, entry_paths: &Vec<String>) -> (r: JournalEntryPickerDelegate)
        ensures
            r.journal_dir@ == journal_dir@,
            is_descending(texts(r.candidates@)),
            texts(r.candidates@).to_multiset() == entry_names(texts(entry_paths@)).to_multiset(),
            r.selection.matches@.len() == 0,
            r.selection.selected_index == 0,
            !r.capture_mode,
            r.pending_capture is None,
    {
        JournalEntryPickerDelegate {
            journal_dir: journal_dir.to_owned(),
            candidates: collect_journal_entries(entry_paths),
            selection: Selection::empty(),
            capture_mode: false,
            pending_capture: None,
        }
    }

    /// A list of entries to take a note into one of.
    pub fn new_for_capture(
        journal_dir: &str,
        pending_capture: PendingCapture,
        entry_paths: &Vec<String>,
    ) -> (r: JournalEntryPickerDelegate)
        ensures
            r.journal_dir@ == journal_dir@,
            is_descending(texts(r.candidates@)),
            texts(r.candidates@).to_multiset() == entry_names(texts(entry_paths@)).to_multiset(),
            r.selection.matches@.len() == 0,
            r.selection.selected_index == 0,
            r.capture_mode,
            r.pending_capture == Some(pending_capture),
    {
        JournalEntryPickerDelegate {
            journal_dir: journal_dir.to_owned(),
            candidates: collect_journal_entries(entry_paths),
            selection: Selection::empty(),
            capture_mode: true,
            pending_capture: Some(pending_capture),
        }
    }

    /// What the list shows where nothing was typed.
    pub fn placeholder_text(&self) -> (r: &'static str)
        ensures
            r@ == "Select a journal entry…"@,
    {
        "Select a journal entry…"
    }

    /// Shows the matches for what was typed.
    pub fn update_matches(&mut self, query: &str, found: Vec<StringMatch>)
        requires
            all_among(found@, old(self).candidates@.len() as int),
        ensures
            final(self).journal_dir == old(self).journal_dir,
            final(self).candidates == old(self).candidates,
            final(self).capture_mode == old(self).capture_mode,
            final(self).pending_capture == old(self).pending_capture,
            match_views(final(self).selection.matches@) == if query@.len() == 0 {
                everything(texts(old(self).candidates@))
            } else {
                match_views(found@)
            },
            final(self).selection.selected_index == clamped_index(
                old(self).selection.selected_index as int,
                final(self).selection.matches@.len() as int,
            ),
    {
        self.selection.update_matches(query, &self.candidates, found);
    }

    /// The file of a match.
    pub fn get_entry_path(&self, mat: &StringMatch) -> (r: Option<String>)
        ensures
            option_text(r) == entry_path(self.journal_dir@, mat.string@),
    {
        find_entry_path(self.journal_dir.as_str(), mat.string.as_str())
    }

    /// The file of the selected match.
    pub open spec fn picked_path(self) -> Option<Seq<char>> {
        if self.selection.selected_index < self.selection.matches@.len() {
            entry_path(
                self.journal_dir@,
                self.selection.matches@[self.selection.selected_index as int].string@,
            )
        } else {
            None
        }
    }

    /// Picks the selected entry: its file opens; or the note goes to it, once, after a text was
    /// asked for where the template says so, there is none, and there is a workspace to ask in.
    pub fn confirm(&mut self, has_workspace: bool) -> (r: EntryStep)
        ensures
            final(self).journal_dir == old(self).journal_dir,
            final(self).candidates == old(self).candidates,
            final(self).selection == old(self).selection,
            final(self).capture_mode == old(self).capture_mode,
            match old(self).picked_path() {
                Some(path) => if !old(self).capture_mode {
                    &&& r matches EntryStep::Open(file) && file@ == path
                    &&& final(self).pending_capture == old(self).pending_capture
                } else {
                    &&& final(self).pending_capture is None
                    &&& match old(self).pending_capture {
                        Some(pending) => {
                            let target = entry_target(path, old(self).journal_dir@);
                            if is_set(pending.template.prompt_for_input) && pending.input_text is None
                                && has_workspace {
                                r matches EntryStep::AskInput(p, prompt) && retargeted(
                                    p,
                                    pending,
                                    target,
                                ) && prompt@ == prompt_of(pending.template)
                            } else {
                                r matches EntryStep::Process(p) && retargeted(p, pending, target)
                            }
                        },
                        None => r is Dismiss,
                    }
                },
                None => {
                    &&& r is Dismiss
                    &&& final(self).pending_capture == old(self).pending_capture
                },
            },
    {
        if self.selection.selected_index >= self.selection.matches.len() {
            return EntryStep::Dismiss;
        }
        let path = match self.get_entry_path(
            &self.selection.matches[self.selection.selected_index],
        ) {
            Some(path) => path,
            None => {
                return EntryStep::Dismiss;
            },
        };
        if !self.capture_mode {
            return EntryStep::Open(path);
        }
        let mut pending = match self.pending_capture.take() {
            Some(pending) => pending,
            None => {
                return EntryStep::Dismiss;
            },
        };
        let target = match strip_base(path.as_str(), self.journal_dir.as_str()) {
            Some(target) => target,
            None => path,
        };
        pending.template.target = Some(target);
        pending.entry_picked = true;
        if set(pending.template.prompt_for_input) && pending.input_text.is_none() && has_workspace {
            let prompt = prompt_text(&pending.template);
            return EntryStep::AskInput(pending, prompt);
        }
        EntryStep::Process(pending)
    }
}

/// Picks an entry of the journal.
#[derive(Debug)]
pub struct JournalEntryPicker {
    pub picker: JournalEntryPickerDelegate,
}

/// Begins to open an entry: opens a list of them, if the journal's directory can be determined.
pub fn open_journal_entry(journal_dir: Option<&str>, entry_paths: &Vec<String>) -> (r: Option<
    JournalEntryPicker,
>)
    ensures
        journal_dir is None <==> r is None,
        r is Some ==> {
            &&& r->0.picker.journal_dir@ == (journal_dir->0)@
            &&& is_descending(texts(r->0.picker.candidates@))
            &&& texts(r->0.picker.candidates@).to_multiset() == entry_names(
                texts(entry_paths@),
            ).to_multiset()
            &&& r->0.picker.selection.matches@.len() == 0
            &&& r->0.picker.selection.selected_index == 0
            &&& !r->0.picker.capture_mode
            &&& r->0.picker.pending_capture is None
        },
{
    let dir = journal_dir?;
    Some(JournalEntryPicker { picker: JournalEntryPickerDelegate::new(dir, entry_paths) })
}

} // verus!

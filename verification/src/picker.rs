//! Lists to pick from: what they show, what is selected, and what picking does.
use crate::agenda::clone_texts;
use crate::agenda_view::AgendaView;
use crate::calendar::DateTime;
use crate::order::{holds_text, position, position_of};
use crate::patterns::option_text;
use crate::text::{join, join_texts, lemma_texts_push, same_text, texts};
use vstd::prelude::*;
use vstd::string::*;

verus! {

/// A candidate that matches what was typed: which one, its text, and where in it the match lies.
#[derive(Debug)]
pub struct StringMatch {
    pub candidate_id: usize,
    pub string: String,
    pub positions: Vec<usize>,
}

/// What a match says.
pub type MatchView = (int, Seq<char>, Seq<usize>);

impl View for StringMatch {
    type V = MatchView;

    /// Which candidate, its text, and where in it the match lies.
    open spec fn view(&self) -> MatchView {
        (self.candidate_id as int, self.string@, self.positions@)
    }
}

/// What several matches say.
pub open spec fn match_views(matches: Seq<StringMatch>) -> Seq<MatchView> {
    matches.map_values(|m: StringMatch| m@)
}

/// Each candidate, in its order, with nothing of it marked.
pub open spec fn everything(candidates: Seq<Seq<char>>) -> Seq<MatchView> {
    Seq::new(candidates.len(), |i: int| (i, candidates[i], Seq::<usize>::empty()))
}

/// Each candidate, in its order, with nothing of it marked.
pub fn match_everything(candidates: &Vec<String>) -> (r: Vec<StringMatch>)
    ensures
        match_views(r@) == everything(texts(candidates@)),
{
    let mut r: Vec<StringMatch> = Vec::new();
    let mut i: usize = 0;
    while i < candidates.len()
        invariant
            i <= candidates@.len(),
            r@.len() == i,
            forall|j: int|
                0 <= j < i ==> (#[trigger] r@[j])@ == (j, candidates@[j]@, Seq::<usize>::empty()),
        decreases candidates@.len() - i,
    {
        let positions: Vec<usize> = Vec::new();
        assert(positions@ == Seq::<usize>::empty());
        r.push(StringMatch { candidate_id: i, string: candidates[i].clone(), positions });
        i += 1;
    }
    assert(match_views(r@) == everything(texts(candidates@)));
    r
}

/// The matches of a list, and which of them is selected.
#[derive(Debug)]
pub struct Selection {
    pub matches: Vec<StringMatch>,
    pub selected_index: usize,
}

/// Each match is one of so many candidates.
pub open spec fn all_among(matches: Seq<StringMatch>, count: int) -> bool {
    forall|i: int| 0 <= i < matches.len() ==> (#[trigger] matches[i]).candidate_id < count
}

/// The place to select among so many matches: the same, or the last of them.
pub open spec fn clamped_index(selected: int, count: int) -> int {
    if count == 0 {
        0
    } else if selected < count {
        selected
    } else {
        count - 1
    }
}

impl Selection {
    /// No matches.
    pub fn empty() -> (r: Selection)
        ensures
            r.matches@ == Seq::<StringMatch>::empty(),
            r.selected_index == 0,
    {
        Selection { matches: Vec::new(), selected_index: 0 }
    }

    /// Each candidate matches, and the first is selected.
    pub fn of_everything(candidates: &Vec<String>) -> (r: Selection)
        ensures
            match_views(r.matches@) == everything(texts(candidates@)),
            r.selected_index == 0,
            all_among(r.matches@, candidates@.len() as int),
    {
        let matches = match_everything(candidates);
        proof {
            lemma_everything_among(matches@, texts(candidates@));
        }
        Selection { matches, selected_index: 0 }
    }

    /// The number of matches.
    pub fn match_count(&self) -> (r: usize)
        ensures
            r == self.matches@.len(),
    {
        self.matches.len()
    }

    /// The place that is selected.
    pub fn selected_index(&self) -> (r: usize)
        ensures
            r == self.selected_index,
    {
        self.selected_index
    }

    /// Selects a place.
    pub fn set_selected_index(&mut self, ix: usize)
        ensures
            final(self).selected_index == ix,
            final(self).matches == old(self).matches,
    {
        self.selected_index = ix;
    }

    /// The candidate that is selected.
    pub open spec fn picked(self) -> Option<int> {
        if self.selected_index < self.matches@.len() {
            Some(self.matches@[self.selected_index as int].candidate_id as int)
        } else {
            None
        }
    }

    /// The candidate that is selected.
    pub fn pick(&self) -> (r: Option<usize>)
        ensures
            self.picked() == match r {
                Some(i) => Some(i as int),
                None => None,
            },
    {
        if self.selected_index < self.matches.len() {
            Some(self.matches[self.selected_index].candidate_id)
        } else {
            None
        }
    }

    /// Shows the matches for what was typed: each candidate where nothing was, else what was
    /// found. The selection stays where it is, or goes to the last match.
    pub fn update_matches(&mut self, query: &str, candidates: &Vec<String>, found: Vec<StringMatch>)
        requires
            all_among(found@, candidates@.len() as int),
        ensures
            match_views(final(self).matches@) == if query@.len() == 0 {
                everything(texts(candidates@))
            } else {
                match_views(found@)
            },
            all_among(final(self).matches@, candidates@.len() as int),
            final(self).selected_index == clamped_index(
                old(self).selected_index as int,
                final(self).matches@.len() as int,
            ),
    {
        self.set_matches(query, candidates, found);
        let count = self.matches.len();
        if count == 0 {
            self.selected_index = 0;
        } else if self.selected_index >= count {
            self.selected_index = count - 1;
        }
    }

    /// Shows the matches for what was typed, and leaves the selection alone.
    fn set_matches(&mut self, query: &str, candidates: &Vec<String>, found: Vec<StringMatch>)
        requires
            all_among(found@, candidates@.len() as int),
        ensures
            match_views(final(self).matches@) == if query@.len() == 0 {
                everything(texts(candidates@))
            } else {
                match_views(found@)
            },
            all_among(final(self).matches@, candidates@.len() as int),
            final(self).selected_index == old(self).selected_index,
    {
        if query.unicode_len() == 0 {
            self.matches = match_everything(candidates);
            proof {
                lemma_everything_among(self.matches@, texts(candidates@));
            }
        } else {
            self.matches = found;
        }
    }
}

/// Matches of each candidate are among the candidates.
proof fn lemma_everything_among(matches: Seq<StringMatch>, candidates: Seq<Seq<char>>)
    requires
        match_views(matches) == everything(candidates),
    ensures
        all_among(matches, candidates.len() as int),
{
    assert(match_views(matches).len() == matches.len());
    assert(everything(candidates).len() == candidates.len());
    assert forall|i: int| 0 <= i < matches.len() implies (#[trigger] matches[i]).candidate_id
        < candidates.len() by {
        assert(match_views(matches)[i] == matches[i]@);
        assert(everything(candidates)[i].0 == i);
    }
}

/// After showing matches, what is selected is one of them, if there are any.
pub proof fn lemma_clamped_index(selected: int, count: int)
    requires
        0 <= selected,
        0 < count,
    ensures
        0 <= clamped_index(selected, count) < count,
        selected < count ==> clamped_index(selected, count) == selected,
{
}

/// Asks for a text.
#[derive(Debug)]
pub struct TextInputModal {
    pub prompt: String,
    pub placeholder: String,
    pub confirmed: bool,
}

impl TextInputModal {
    /// Asks for a text with a prompt.
    pub fn new(prompt: &str) -> (r: TextInputModal)
        ensures
            r.prompt@ == prompt@,
            r.placeholder@ == "Enter text..."@,
            !r.confirmed,
    {
        TextInputModal {
            prompt: prompt.to_owned(),
            placeholder: "Enter text...".to_owned(),
            confirmed: false,
        }
    }

    /// Hands out what was typed, once.
    pub fn confirm(&mut self, input: &str) -> (r: Option<String>)
        ensures
            option_text(r) == if old(self).confirmed {
                None
            } else {
                Some(input@)
            },
            final(self).confirmed,
            final(self).prompt == old(self).prompt,
            final(self).placeholder == old(self).placeholder,
    {
        if self.confirmed {
            None
        } else {
            self.confirmed = true;
            Some(input.to_owned())
        }
    }
}

/// A tag with a number sign before it.
pub open spec fn with_hash(tag: Seq<char>) -> Seq<char> {
    if tag.len() > 0 && tag[0] == '#' {
        tag
    } else {
        "#"@ + tag
    }
}

/// Tags, each with a number sign, and spaces between them.
pub open spec fn hash_list(tags: Seq<Seq<char>>) -> Seq<char> {
    join(tags.map_values(|tag: Seq<char>| with_hash(tag)), " "@)
}

/// Tags, each with a number sign, and spaces between them.
pub fn format_tags(tags: &Vec<String>) -> (r: String)
    ensures
        r@ == hash_list(texts(tags@)),
{
    let mut hashed: Vec<String> = Vec::new();
    let mut i: usize = 0;
    while i < tags.len()
        invariant
            i <= tags@.len(),
            hashed@.len() == i,
            forall|j: int| 0 <= j < i ==> (#[trigger] hashed@[j])@ == with_hash(tags@[j]@),
        decreases tags@.len() - i,
    {
        let tag = tags[i].as_str();
        if tag.unicode_len() > 0 && tag.get_char(0) == '#' {
            hashed.push(tag.to_owned());
        } else {
            let mut text = "#".to_owned();
            text.append(tag);
            hashed.push(text);
        }
        i += 1;
    }
    assert(texts(hashed@) == texts(tags@).map_values(|tag: Seq<char>| with_hash(tag)));
    join_texts(&hashed, " ")
}

/// A list with a text taken out where it first stands, or added at its end where it does not.
pub open spec fn toggled(tags: Seq<Seq<char>>, tag: Seq<char>) -> Seq<Seq<char>> {
    match position(tags, tag) {
        Some(i) => tags.remove(i),
        None => tags.push(tag),
    }
}

/// Takes a text out of a list, or adds it.
pub fn toggle_text(tags: &mut Vec<String>, tag: &str)
    ensures
        texts(final(tags)@) == toggled(texts(old(tags)@), tag@),
{
    match position_of(tags, tag) {
        Some(i) => {
            let ghost before = tags@;
            tags.remove(i);
            assert(texts(tags@) == texts(before).remove(i as int));
        },
        None => {
            let owned = tag.to_owned();
            proof {
                lemma_texts_push(tags@, owned);
            }
            tags.push(owned);
        },
    }
}

/// Toggling a tag twice leaves a list of distinct tags as it was, up to their order: a tag that
/// was not listed is not listed, one that was is listed, and so is every other.
pub proof fn lemma_toggle_twice(tags: Seq<Seq<char>>, tag: Seq<char>)
    requires
        tags.no_duplicates(),
    ensures
        toggled(tags, tag).no_duplicates(),
        !tags.contains(tag) ==> toggled(toggled(tags, tag), tag) == tags,
        tags.contains(tag) ==> toggled(toggled(tags, tag), tag) == tags.remove(
            tags.index_of_first(tag)->0,
        ).push(tag),
{
    let once = toggled(tags, tag);
    if tags.contains(tag) {
        tags.index_of_first_ensures(tag);
        let i = tags.index_of_first(tag)->0;
        assert forall|a: int, b: int| 0 <= a < b < once.len() implies once[a] != once[b] by {
            let x = if a < i {
                a
            } else {
                a + 1
            };
            let y = if b < i {
                b
            } else {
                b + 1
            };
            assert(once[a] == tags[x] && once[b] == tags[y]);
        }
        if once.contains(tag) {
            let k = choose|k: int| 0 <= k < once.len() && once[k] == tag;
            let x = if k < i {
                k
            } else {
                k + 1
            };
            assert(tags[x] == tag && tags[i] == tag);
        }
    } else {
        assert(once == tags.push(tag));
        assert(once[tags.len() as int] == tag);
        assert(once.contains(tag));
        once.index_of_first_ensures(tag);
        let i = once.index_of_first(tag)->0;
        if i < tags.len() {
            assert(tags[i] == tag);
            assert(tags.contains(tag));
        }
        assert(once.remove(tags.len() as int) == tags);
    }
}

/// A list of tags of which any number is picked.
#[derive(Debug)]
pub struct TagPickerDelegate {
    pub available_tags: Vec<String>,
    pub selected_tags: Vec<String>,
    pub selection: Selection,
    pub confirmed: bool,
}

/// What picking in a list of tags leads to.
#[derive(Debug)]
pub enum TagPick {
    /// The list closes, and hands out the tags that were picked.
    Finished(String),
    /// The list stays open.
    Open,
}

impl TagPickerDelegate {
    /// Each match is one of the tags.
    pub open spec fn valid(self) -> bool {
        all_among(self.selection.matches@, self.available_tags@.len() as int)
    }

    /// A list of tags, with none picked.
    pub fn new(available_tags: Vec<String>) -> (r: TagPickerDelegate)
        ensures
            r.valid(),
            r.available_tags == available_tags,
            texts(r.selected_tags@) == Seq::<Seq<char>>::empty(),
            match_views(r.selection.matches@) == everything(texts(available_tags@)),
            r.selection.selected_index == 0,
            !r.confirmed,
    {
        let selection = Selection::of_everything(&available_tags);
        let selected_tags: Vec<String> = Vec::new();
        assert(texts(selected_tags@) == Seq::<Seq<char>>::empty());
        TagPickerDelegate { available_tags, selected_tags, selection, confirmed: false }
    }

    /// What the list shows where nothing was typed.
    pub fn placeholder_text(&self) -> (r: &'static str)
        ensures
            r@ == "Search tags..."@,
    {
        "Search tags..."
    }

    /// The list is to close: it was asked to, or there is nothing to pick and something was
    /// picked.
    pub open spec fn finishes(self, secondary: bool) -> bool {
        secondary || self.selection.picked() is None && self.selected_tags@.len() > 0
    }

    /// Picks the selected tag, or takes it back; or closes the list and hands out the tags that
    /// were picked, once.
    pub fn confirm(&mut self, secondary: bool) -> (r: TagPick)
        requires
            old(self).valid(),
        ensures
            final(self).valid(),
            final(self).available_tags == old(self).available_tags,
            final(self).selection == old(self).selection,
            if old(self).finishes(secondary) {
                &&& final(self).selected_tags == old(self).selected_tags
                &&& final(self).confirmed
                &&& if old(self).confirmed {
                    r is Open
                } else {
                    r matches TagPick::Finished(tags) && tags@ == hash_list(
                        texts(old(self).selected_tags@),
                    )
                }
            } else {
                &&& r is Open
                &&& final(self).confirmed == old(self).confirmed
                &&& texts(final(self).selected_tags@) == match old(self).selection.picked() {
                    Some(i) => toggled(
                        texts(old(self).selected_tags@),
                        old(self).available_tags@[i]@,
                    ),
                    None => texts(old(self).selected_tags@),
                }
            },
    {
        let picked = self.selection.pick();
        if secondary || picked.is_none() && self.selected_tags.len() > 0 {
            if self.confirmed {
                return TagPick::Open;
            }
            self.confirmed = true;
            return TagPick::Finished(format_tags(&self.selected_tags));
        }
        if let Some(i) = picked {
            assert(self.selection.matches@[self.selection.selected_index as int].candidate_id
                < self.available_tags@.len());
            let tag = self.available_tags[i].clone();
            toggle_text(&mut self.selected_tags, tag.as_str());
        }
        TagPick::Open
    }

    /// Shows the matches for what was typed, and selects the first.
    pub fn update_matches(&mut self, query: &str, found: Vec<StringMatch>)
        requires
            all_among(found@, old(self).available_tags@.len() as int),
        ensures
            final(self).valid(),
            final(self).available_tags == old(self).available_tags,
            final(self).selected_tags == old(self).selected_tags,
            final(self).confirmed == old(self).confirmed,
            final(self).selection.selected_index == 0,
            match_views(final(self).selection.matches@) == if query@.len() == 0 {
                everything(texts(old(self).available_tags@))
            } else {
                match_views(found@)
            },
    {
        self.selection.set_matches(query, &self.available_tags, found);
        self.selection.selected_index = 0;
    }

    /// What the list shows at a place: whether the tag is picked, and the tag with a number sign.
    pub fn render_match(&self, ix: usize) -> (r: Option<(bool, String)>)
        requires
            self.valid(),
        ensures
            match r {
                Some((picked, text)) => {
                    &&& ix < self.selection.matches@.len()
                    &&& ({
                        let tag = self.available_tags@[self.selection.matches@[ix as int].candidate_id as int]@;
                        picked == texts(self.selected_tags@).contains(tag) && text@ == "#"@ + tag
                    })
                },
                None => ix >= self.selection.matches@.len(),
            },
    {
        if ix >= self.selection.matches.len() {
            return None;
        }
        let tag = self.available_tags[self.selection.matches[ix].candidate_id].as_str();
        let picked = holds_text(&self.selected_tags, tag);
        let mut text = "#".to_owned();
        text.append(tag);
        Some((picked, text))
    }
}

/// Picks tags for a note.
#[derive(Debug)]
pub struct TagPickerModal {
    pub picker: TagPickerDelegate,
}

impl TagPickerModal {
    /// Picks tags among those there are.
    pub fn new(available_tags: Vec<String>) -> (r: TagPickerModal)
        ensures
            r.picker.valid(),
            r.picker.available_tags == available_tags,
            texts(r.picker.selected_tags@) == Seq::<Seq<char>>::empty(),
            match_views(r.picker.selection.matches@) == everything(texts(available_tags@)),
            r.picker.selection.selected_index == 0,
            !r.picker.confirmed,
    {
        TagPickerModal { picker: TagPickerDelegate::new(available_tags) }
    }
}

/// The choice that asks for nothing in particular.
pub const CLEAR_FILTER: &'static str = "All (clear filter)";

/// Choices, with the one that asks for nothing in particular before them.
fn with_clear_choice(choices: Vec<String>) -> (r: Vec<String>)
    ensures
        texts(r@) == seq![CLEAR_FILTER@] + texts(choices@),
{
    let mut r = choices;
    let ghost before = r@;
    r.insert(0, CLEAR_FILTER.to_owned());
    assert(texts(r@) == seq![CLEAR_FILTER@] + texts(before));
    r
}

/// Picks a tag to ask for in an agenda.
#[derive(Debug)]
pub struct AgendaTagPickerDelegate {
    pub tags: Vec<String>,
    pub selection: Selection,
}

/// The tags asked for after one was picked: it is added, or taken out where it is asked for; and
/// none is asked for after the choice for that.
pub open spec fn tags_after_pick(asked: Seq<Seq<char>>, picked: Seq<char>) -> Seq<Seq<char>> {
    if picked == CLEAR_FILTER@ {
        Seq::empty()
    } else {
        toggled(asked, picked)
    }
}

impl AgendaTagPickerDelegate {
    /// Each match is one of the choices.
    pub open spec fn valid(self) -> bool {
        all_among(self.selection.matches@, self.tags@.len() as int)
    }

    /// A list of the tags there are.
    pub fn new(tags: Vec<String>) -> (r: AgendaTagPickerDelegate)
        ensures
            r.valid(),
            texts(r.tags@) == seq![CLEAR_FILTER@] + texts(tags@),
            match_views(r.selection.matches@) == everything(texts(r.tags@)),
            r.selection.selected_index == 0,
    {
        let tags = with_clear_choice(tags);
        let selection = Selection::of_everything(&tags);
        AgendaTagPickerDelegate { tags, selection }
    }

    /// What the list shows where nothing was typed.
    pub fn placeholder_text(&self) -> (r: &'static str)
        ensures
            r@ == "Select tag to filter by..."@,
    {
        "Select tag to filter by..."
    }

    /// Shows the matches for what was typed.
    pub fn update_matches(&mut self, query: &str, found: Vec<StringMatch>)
        requires
            all_among(found@, old(self).tags@.len() as int),
        ensures
            final(self).valid(),
            final(self).tags == old(self).tags,
            match_views(final(self).selection.matches@) == if query@.len() == 0 {
                everything(texts(old(self).tags@))
            } else {
                match_views(found@)
            },
            final(self).selection.selected_index == clamped_index(
                old(self).selection.selected_index as int,
                final(self).selection.matches@.len() as int,
            ),
    {
        self.selection.update_matches(query, &self.tags, found);
    }

    /// Asks for the selected tag in an agenda, or no more; or for none.
    pub fn confirm(&self, view: &mut AgendaView)
        requires
            self.valid(),
            old(view)@.valid(),
        ensures
            final(view)@.valid(),
            match self.selection.picked() {
                Some(i) => exists|now: DateTime|
                    now.valid() && final(view)@ == #[trigger] old(view)@.with_tags(
                        tags_after_pick(old(view)@.filter_tags, self.tags@[i]@),
                    ).refreshed(now.date),
                None => final(view)@ == old(view)@,
            },
    {
        if let Some(i) = self.selection.pick() {
            assert(self.selection.matches@[self.selection.selected_index as int].candidate_id
                < self.tags@.len());
            let tag = self.tags[i].as_str();
            if same_text(tag, CLEAR_FILTER) {
                view.filter_tags = Vec::new();
                assert(texts(view.filter_tags@) == Seq::<Seq<char>>::empty());
            } else {
                toggle_text(&mut view.filter_tags, tag);
            }
            assert(view@ == old(view)@.with_tags(
                tags_after_pick(old(view)@.filter_tags, self.tags@[i as int]@),
            ));
            view.apply_filters();
        }
    }
}

/// Picks a file to ask for in an agenda.
#[derive(Debug)]
pub struct AgendaFilePickerDelegate {
    pub files: Vec<String>,
    pub selection: Selection,
}

/// The file asked for after one was picked, or none after the choice for that.
pub open spec fn file_after_pick(picked: Seq<char>) -> Option<Seq<char>> {
    if picked == CLEAR_FILTER@ {
        None
    } else {
        Some(picked)
    }
}

impl AgendaFilePickerDelegate {
    /// Each match is one of the choices.
    pub open spec fn valid(self) -> bool {
        all_among(self.selection.matches@, self.files@.len() as int)
    }

    /// A list of the files there are.
    pub fn new(files: Vec<String>) -> (r: AgendaFilePickerDelegate)
        ensures
            r.valid(),
            texts(r.files@) == seq![CLEAR_FILTER@] + texts(files@),
            match_views(r.selection.matches@) == everything(texts(r.files@)),
            r.selection.selected_index == 0,
    {
        let files = with_clear_choice(files);
        let selection = Selection::of_everything(&files);
        AgendaFilePickerDelegate { files, selection }
    }

    /// What the list shows where nothing was typed.
    pub fn placeholder_text(&self) -> (r: &'static str)
        ensures
            r@ == "Select file to filter by..."@,
    {
        "Select file to filter by..."
    }

    /// Shows the matches for what was typed.
    pub fn update_matches(&mut self, query: &str, found: Vec<StringMatch>)
        requires
            all_among(found@, old(self).files@.len() as int),
        ensures
            final(self).valid(),
            final(self).files == old(self).files,
            match_views(final(self).selection.matches@) == if query@.len() == 0 {
                everything(texts(old(self).files@))
            } else {
                match_views(found@)
            },
            final(self).selection.selected_index == clamped_index(
                old(self).selection.selected_index as int,
                final(self).selection.matches@.len() as int,
            ),
    {
        self.selection.update_matches(query, &self.files, found);
    }

    /// Asks for the selected file in an agenda, or for none.
    pub fn confirm(&self, view: &mut AgendaView)
        requires
            self.valid(),
            old(view)@.valid(),
        ensures
            final(view)@.valid(),
            match self.selection.picked() {
                Some(i) => exists|now: DateTime|
                    now.valid() && final(view)@ == #[trigger] old(view)@.with_file(
                        file_after_pick(self.files@[i]@),
                    ).refreshed(now.date),
                None => final(view)@ == old(view)@,
            },
    {
        if let Some(i) = self.selection.pick() {
            assert(self.selection.matches@[self.selection.selected_index as int].candidate_id
                < self.files@.len());
            let file = self.files[i].as_str();
            view.filter_file = if same_text(file, CLEAR_FILTER) {
                None
            } else {
                Some(file.to_owned())
            };
            assert(view@ == old(view)@.with_file(file_after_pick(self.files@[i as int]@)));
            view.apply_filters();
        }
    }
}

/// Picks a range of days to show in an agenda.
#[derive(Debug)]
pub struct AgendaDateRangePickerDelegate {
    pub labels: Vec<String>,
    pub days: Vec<i64>,
    pub selection: Selection,
}

/// The ranges of days to pick from, in words.
pub open spec fn range_labels() -> Seq<Seq<char>> {
    seq![
        "All time"@,
        "Today"@,
        "Next 3 days"@,
        "This week (7 days)"@,
        "Next 2 weeks (14 days)"@,
        "This month (30 days)"@,
        "Next 2 months (60 days)"@,
        "This quarter (90 days)"@,
        "This year (365 days)"@,
    ]
}

/// The ranges of days to pick from.
pub open spec fn range_days() -> Seq<i64> {
    seq![0, 0, 3, 7, 14, 30, 60, 90, 365]
}

impl AgendaDateRangePickerDelegate {
    /// The choices are the ranges there are, and each match is one of them.
    pub open spec fn valid(self) -> bool {
        &&& texts(self.labels@) == range_labels()
        &&& self.days@ == range_days()
        &&& all_among(self.selection.matches@, self.labels@.len() as int)
    }

    /// A list of the ranges there are.
    pub fn new() -> (r: AgendaDateRangePickerDelegate)
        ensures
            r.valid(),
            match_views(r.selection.matches@) == everything(range_labels()),
            r.selection.selected_index == 0,
    {
        let labels = vec![
            "All time".to_owned(),
            "Today".to_owned(),
            "Next 3 days".to_owned(),
            "This week (7 days)".to_owned(),
            "Next 2 weeks (14 days)".to_owned(),
            "This month (30 days)".to_owned(),
            "Next 2 months (60 days)".to_owned(),
            "This quarter (90 days)".to_owned(),
            "This year (365 days)".to_owned(),
        ];
        assert(texts(labels@) == range_labels());
        let days: Vec<i64> = vec![0, 0, 3, 7, 14, 30, 60, 90, 365];
        assert(days@ == range_days());
        let selection = Selection::of_everything(&labels);
        AgendaDateRangePickerDelegate { labels, days, selection }
    }

    /// What the list shows where nothing was typed.
    pub fn placeholder_text(&self) -> (r: &'static str)
        ensures
            r@ == "Select date range..."@,
    {
        "Select date range..."
    }

    /// Shows the matches for what was typed.
    pub fn update_matches(&mut self, query: &str, found: Vec<StringMatch>)
        requires
            old(self).valid(),
            all_among(found@, old(self).labels@.len() as int),
        ensures
            final(self).valid(),
            match_views(final(self).selection.matches@) == if query@.len() == 0 {
                everything(range_labels())
            } else {
                match_views(found@)
            },
            final(self).selection.selected_index == clamped_index(
                old(self).selection.selected_index as int,
                final(self).selection.matches@.len() as int,
            ),
    {
        self.selection.update_matches(query, &self.labels, found);
    }

    /// Shows the selected range of days in an agenda.
    pub fn confirm(&self, view: &mut AgendaView)
        requires
            self.valid(),
            old(view)@.valid(),
        ensures
            final(view)@.valid(),
            match self.selection.picked() {
                Some(i) => exists|now: DateTime|
                    now.valid() && final(view)@ == #[trigger] old(view)@.with_range(
                        range_days()[i],
                    ).refreshed(now.date),
                None => final(view)@ == old(view)@,
            },
    {
        if let Some(i) = self.selection.pick() {
            proof {
                assert(self.selection.matches@[self.selection.selected_index as int].candidate_id
                    < self.labels@.len());
                assert(texts(self.labels@).len() == self.labels@.len());
                assert(range_labels().len() == 9);
                assert(range_days().len() == 9);
            }
            view.days_range = self.days[i];
            assert(view@ == old(view)@.with_range(range_days()[i as int]));
            view.apply_filters();
        }
    }
}

impl AgendaView {
    /// A list of the tags of the agenda's entries, to ask for one.
    pub fn pick_tag_filter(&self) -> (r: AgendaTagPickerDelegate)
        ensures
            r.valid(),
            texts(r.tags@) == seq![CLEAR_FILTER@] + self@.available_tags,
            match_views(r.selection.matches@) == everything(texts(r.tags@)),
            r.selection.selected_index == 0,
    {
        AgendaTagPickerDelegate::new(clone_texts(&self.available_tags))
    }

    /// A list of the files of the agenda's entries, to ask for one.
    pub fn pick_file_filter(&self) -> (r: AgendaFilePickerDelegate)
        ensures
            r.valid(),
            texts(r.files@) == seq![CLEAR_FILTER@] + self@.available_files,
            match_views(r.selection.matches@) == everything(texts(r.files@)),
            r.selection.selected_index == 0,
    {
        AgendaFilePickerDelegate::new(clone_texts(&self.available_files))
    }

    /// A list of ranges of days, to show one.
    pub fn pick_date_range(&self) -> (r: AgendaDateRangePickerDelegate)
        ensures
            r.valid(),
            match_views(r.selection.matches@) == everything(range_labels()),
            r.selection.selected_index == 0,
    {
        AgendaDateRangePickerDelegate::new()
    }
}

} // verus!

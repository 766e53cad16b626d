//! The mode in which nothing but the journal shows.
use crate::paths::{path_starts_with, starts_with_path};
use crate::patterns::option_text;
use crate::repeater::option_str;
use vstd::prelude::*;
use vstd::string::*;

verus! {

/// The settings profile for this mode.
pub const JOURNAL_ZEN_PROFILE: &'static str = "journal-zen";

/// Whether the mode is on, and what was before it.
#[derive(Debug)]
pub struct JournalZenModeState {
    pub is_active: bool,
    pub journal_dir: Option<String>,
    pub previous_profile: Option<String>,
}

/// What the state of the mode says.
#[verifier::ext_equal]
pub struct ZenView {
    pub is_active: bool,
    pub journal_dir: Option<Seq<char>>,
    pub previous_profile: Option<Seq<char>>,
}

impl View for JournalZenModeState {
    type V = ZenView;

    /// What the state says.
    open spec fn view(&self) -> ZenView {
        ZenView {
            is_active: self.is_active,
            journal_dir: option_text(self.journal_dir),
            previous_profile: option_text(self.previous_profile),
        }
    }
}

/// The mode is off, and nothing is kept from before it.
pub open spec fn zen_off() -> ZenView {
    ZenView { is_active: false, journal_dir: None, previous_profile: None }
}

impl Default for JournalZenModeState {
    fn default() -> (r: JournalZenModeState)
        ensures
            r@ == zen_off(),
    {
        JournalZenModeState { is_active: false, journal_dir: None, previous_profile: None }
    }
}

/// A part of the window that is shown or hidden, in turn.
#[derive(Clone, Copy, Debug, PartialEq, Eq, Structural)]
pub enum ZenToggle {
    AllDocks,
    CenteredLayout,
    Zoom,
}

/// What is to be done to the window: the settings profile to switch to, and the parts to toggle.
#[derive(Debug)]
pub struct ZenChange {
    pub profile: String,
    pub toggles: Vec<ZenToggle>,
}

impl ZenChange {
    /// The change switches to the profile and toggles each part once.
    pub open spec fn switches_to(self, profile: Seq<char>) -> bool {
        self.profile@ == profile && self.toggles@ == seq![
            ZenToggle::AllDocks,
            ZenToggle::CenteredLayout,
            ZenToggle::Zoom,
        ]
    }
}

/// The change that switches to a profile.
fn change_to(profile: &str) -> (r: ZenChange)
    ensures
        r.switches_to(profile@),
{
    let toggles = vec![ZenToggle::AllDocks, ZenToggle::CenteredLayout, ZenToggle::Zoom];
    assert(toggles@ == seq![ZenToggle::AllDocks, ZenToggle::CenteredLayout, ZenToggle::Zoom]);
    ZenChange { profile: profile.to_owned(), toggles }
}

/// The file is one of the journal's.
pub open spec fn in_journal(file_path: Option<Seq<char>>, journal_dir: Option<Seq<char>>) -> bool {
    match (file_path, journal_dir) {
        (Some(file), Some(dir)) => path_starts_with(file, dir),
        _ => false,
    }
}

/// Whether the file is one of the journal's.
pub fn is_journal_file(file_path: Option<&str>, journal_dir: Option<&str>) -> (r: bool)
    ensures
        r == in_journal(option_str(file_path), option_str(journal_dir)),
{
    match (file_path, journal_dir) {
        (Some(file), Some(dir)) => starts_with_path(file, dir),
        _ => false,
    }
}

/// The profile that was before the mode; the empty one where there was none.
pub open spec fn profile_before(state: ZenView) -> Seq<char> {
    match state.previous_profile {
        Some(profile) => profile,
        None => Seq::empty(),
    }
}

/// The state after the mode was switched on.
pub open spec fn switched_on(journal_dir: Option<Seq<char>>, profile: Option<Seq<char>>) -> ZenView {
    ZenView { is_active: true, journal_dir, previous_profile: profile }
}

/// A copy of an optional text.
fn owned(s: Option<&str>) -> (r: Option<String>)
    ensures
        option_text(r) == option_str(s),
{
    match s {
        Some(s) => Some(s.to_owned()),
        None => None,
    }
}

/// Switches the mode on, and keeps the profile that is in force.
pub fn activate_zen_mode(state: &mut JournalZenModeState, journal_dir: Option<&str>, profile: Option<&str>) -> (r:
    ZenChange)
    ensures
        final(state)@ == switched_on(option_str(journal_dir), option_str(profile)),
        r.switches_to(JOURNAL_ZEN_PROFILE@),
{
    state.is_active = true;
    state.journal_dir = owned(journal_dir);
    state.previous_profile = owned(profile);
    change_to(JOURNAL_ZEN_PROFILE)
}

/// Switches the mode off, and goes back to the profile that was before it.
pub fn deactivate_zen_mode(state: &mut JournalZenModeState) -> (r: ZenChange)
    ensures
        final(state)@ == zen_off(),
        r.switches_to(profile_before(old(state)@)),
{
    let profile = match &state.previous_profile {
        Some(profile) => profile.clone(),
        None => String::new(),
    };
    state.is_active = false;
    state.journal_dir = None;
    state.previous_profile = None;
    change_to(profile.as_str())
}

/// Follows the user to another file: the mode goes on with a file of the journal, and off with
/// any other, or where there is no file.
pub fn handle_active_item_change(
    state: &mut JournalZenModeState,
    file_path: Option<&str>,
    journal_dir: Option<&str>,
    profile: Option<&str>,
) -> (r: Option<ZenChange>)
    ensures
        final(state)@ == followed(
            old(state)@,
            option_str(file_path),
            option_str(journal_dir),
            option_str(profile),
        ),
        ({
            let on = in_journal(option_str(file_path), option_str(journal_dir));
            if on && !old(state)@.is_active {
                r matches Some(change) && change.switches_to(JOURNAL_ZEN_PROFILE@)
            } else if !on && old(state)@.is_active {
                r matches Some(change) && change.switches_to(profile_before(old(state)@))
            } else {
                r is None
            }
        }),
{
    let on = is_journal_file(file_path, journal_dir);
    if on && !state.is_active {
        Some(activate_zen_mode(state, journal_dir, profile))
    } else if !on && state.is_active {
        Some(deactivate_zen_mode(state))
    } else {
        None
    }
}

/// Switches the mode on or off, in a file of the journal.
pub fn toggle_journal_zen_mode(
    state: &mut JournalZenModeState,
    file_path: Option<&str>,
    journal_dir: Option<&str>,
    profile: Option<&str>,
) -> (r: Option<ZenChange>)
    ensures
        ({
            let on = in_journal(option_str(file_path), option_str(journal_dir));
            if !on {
                r is None && final(state)@ == old(state)@
            } else if old(state)@.is_active {
                (r matches Some(change) && change.switches_to(profile_before(old(state)@)))
                    && final(state)@ == zen_off()
            } else {
                (r matches Some(change) && change.switches_to(JOURNAL_ZEN_PROFILE@))
                    && final(state)@ == switched_on(
                    option_str(journal_dir),
                    option_str(profile),
                )
            }
        }),
{
    if !is_journal_file(file_path, journal_dir) {
        None
    } else if state.is_active {
        Some(deactivate_zen_mode(state))
    } else {
        Some(activate_zen_mode(state, journal_dir, profile))
    }
}

/// The state after following the user to a file.
pub open spec fn followed(
    state: ZenView,
    file_path: Option<Seq<char>>,
    journal_dir: Option<Seq<char>>,
    profile: Option<Seq<char>>,
) -> ZenView {
    let on = in_journal(file_path, journal_dir);
    if on && !state.is_active {
        switched_on(journal_dir, profile)
    } else if !on && state.is_active {
        zen_off()
    } else {
        state
    }
}

/// Following the user makes the mode be on in a file of the journal and off elsewhere, and
/// following them to the same file again changes nothing.
pub proof fn lemma_followed(
    state: ZenView,
    file_path: Option<Seq<char>>,
    journal_dir: Option<Seq<char>>,
    profile: Option<Seq<char>>,
    later_profile: Option<Seq<char>>,
)
    ensures
        followed(state, file_path, journal_dir, profile).is_active == in_journal(
            file_path,
            journal_dir,
        ),
        followed(
            followed(state, file_path, journal_dir, profile),
            file_path,
            journal_dir,
            later_profile,
        ) == followed(state, file_path, journal_dir, profile),
{
}

/// Switching the mode on and then off goes back to the profile that was in force, or to the empty
/// one where none was.
pub proof fn lemma_profile_restored(journal_dir: Option<Seq<char>>, profile: Option<Seq<char>>)
    ensures
        profile_before(switched_on(journal_dir, profile)) == match profile {
            Some(p) => p,
            None => Seq::empty(),
        },
{
}

} // verus!

//! Searching with regular expressions.
use crate::calendar::is_iso_shape;
use crate::number::all_digits;
use crate::text::{contains, trim_start, word_len, CharClass};
use vstd::prelude::*;
use vstd::string::*;

verus! {

/// What a match captured: the whole match first, then each group that took part in it.
pub type Groups = Vec<Option<String>>;

/// The texts that a match captured.
pub open spec fn group_texts(groups: Seq<Option<String>>) -> Seq<Option<Seq<char>>> {
    groups.map_values(
        |g: Option<String>|
            match g {
                Some(s) => Some(s@),
                None => None,
            },
    )
}

/// The texts that a search captured, if it found a match.
pub open spec fn found_texts(found: Option<Groups>) -> Option<Seq<Option<Seq<char>>>> {
    match found {
        Some(groups) => Some(group_texts(groups@)),
        None => None,
    }
}

/// The text of a group, if there is such a group and it took part in the match.
pub open spec fn group_at(groups: Seq<Option<Seq<char>>>, i: int) -> Option<Seq<char>> {
    if 0 <= i < groups.len() {
        groups[i]
    } else {
        None
    }
}

/// The text of an optional string.
pub open spec fn option_text(s: Option<String>) -> Option<Seq<char>> {
    match s {
        Some(s) => Some(s@),
        None => None,
    }
}

/// The text of a group, if there is such a group and it took part in the match.
pub fn group(groups: &Groups, i: usize) -> (r: Option<String>)
    ensures
        option_text(r) == group_at(group_texts(groups@), i as int),
{
    if i < groups.len() {
        match &groups[i] {
            Some(s) => Some(s.clone()),
            None => None,
        }
    } else {
        None
    }
}

/// The character does not occur in the text.
pub open spec fn lacks(s: Seq<char>, c: char) -> bool {
    forall|i: int| 0 <= i < s.len() ==> s[i] != c
}

/// The text is made of one ASCII letter or more.
pub open spec fn is_word(s: Seq<char>) -> bool {
    s.len() > 0 && forall|i: int|
        0 <= i < s.len() ==> ('a' <= #[trigger] s[i] <= 'z' || 'A' <= s[i] <= 'Z')
}

/// The text is a repeater: one or two signs, digits, and the letter of a unit.
pub open spec fn is_repeater(prefix: Seq<char>, digits: Seq<char>, unit: Seq<char>) -> bool {
    &&& prefix == "+"@ || prefix == "++"@ || prefix == ".+"@
    &&& digits.len() > 0 && all_digits(digits)
    &&& unit == "d"@ || unit == "w"@ || unit == "m"@ || unit == "y"@
}

/// The text is one with a first timestamp that has a repeater.
pub open spec fn has_repeating_timestamp(
    text: Seq<char>,
    before: Seq<char>,
    date: Seq<char>,
    weekday: Seq<char>,
    prefix: Seq<char>,
    digits: Seq<char>,
    unit: Seq<char>,
    after: Seq<char>,
) -> bool {
    &&& text == before + "<"@ + date + " "@ + weekday + " "@ + prefix + digits + unit + ">"@ + after
    &&& lacks(before, '<') && is_iso_shape(date) && is_word(weekday)
    &&& is_repeater(prefix, digits, unit)
}

/// The text is one with a first timestamp that has no repeater.
pub open spec fn has_timestamp(
    text: Seq<char>,
    before: Seq<char>,
    date: Seq<char>,
    weekday: Seq<char>,
    after: Seq<char>,
) -> bool {
    &&& text == before + "<"@ + date + " "@ + weekday + ">"@ + after
    &&& lacks(before, '<') && is_iso_shape(date) && is_word(weekday)
}

/// The text is one with a first timestamp that has a warning period and no repeater.
pub open spec fn has_warning(
    text: Seq<char>,
    before: Seq<char>,
    date: Seq<char>,
    weekday: Seq<char>,
    sign: Seq<char>,
    digits: Seq<char>,
    after: Seq<char>,
) -> bool {
    &&& text == before + "<"@ + date + " "@ + weekday + " "@ + sign + digits + "d"@ + after
    &&& lacks(before, '<') && is_iso_shape(date) && is_word(weekday)
    &&& sign == ""@ || sign == "-"@
    &&& digits.len() > 0 && all_digits(digits)
}

/// The keyword and the space after it end the text before a timestamp.
pub open spec fn introduces(before: Seq<char>, keyword: Seq<char>) -> bool {
    exists|indent: Seq<char>| before == #[trigger] (indent + keyword + " "@)
}

/// A timestamp with a repeater.
pub const REPEATING_TIMESTAMP_PATTERN: &'static str =
    "<(\\d{4}-\\d{2}-\\d{2})\\s+\\w+\\s+([\\+\\.]{1,2})(\\d+)([dwmy])>";

/// A timestamp without a repeater.
pub const TIMESTAMP_PATTERN: &'static str = "<(\\d{4}-\\d{2}-\\d{2})\\s+\\w+>";

/// A scheduling line, up to the repeater.
pub const SCHEDULED_PATTERN: &'static str =
    "SCHEDULED:\\s*<(\\d{4}-\\d{2}-\\d{2})\\s+\\w+(?:\\s+([.+]{1,2})(\\d+)([dwmy]))?";

/// A deadline line, up to the warning period.
pub const DEADLINE_PATTERN: &'static str =
    "DEADLINE:\\s*<(\\d{4}-\\d{2}-\\d{2})\\s+\\w+(?:\\s+([.+]{1,2})(\\d+)([dwmy]))?(?:\\s+(-?\\d+)d)?";

/// A closing line, up to the date.
pub const CLOSED_PATTERN: &'static str = "CLOSED:\\s*\\[(\\d{4}-\\d{2}-\\d{2})";

/// A reminder.
pub const REMIND_PATTERN: &'static str = "REMIND:\\s*(\\d+)(m|h|d|w)";

/// The keyword of a headline.
pub const KEYWORD_PATTERN: &'static str =
    "^\\*+\\s+(TODO|DONE|DOING|WAITING|NEXT|STARTED|CANCELLED|CANCELED|DEFERRED)\\s+";

/// A keyword of a task that is done.
pub const DONE_PATTERN: &'static str = "(DONE|CANCELLED)\\s*";

/// The line that says when a task was closed.
pub const CLOSED_LINE_PATTERN: &'static str = "\\n\\s*CLOSED:\\s*\\[.*?\\]";

/// A planning line with a repeater.
pub const REPEATING_LINE_PATTERN: &'static str =
    "(SCHEDULED:|DEADLINE:)\\s*<\\d{4}-\\d{2}-\\d{2}\\s+\\w+\\s+[\\+\\.]{1,2}\\d+[dwmy]>";

/// What the first match of a pattern in a text captures, by `Regex::captures`.
pub uninterp spec fn first_match(pattern: Seq<char>, text: Seq<char>) -> Option<
    Seq<Option<Seq<char>>>,
>;

/// The text is one with a first reminder.
pub open spec fn has_reminder(
    text: Seq<char>,
    before: Seq<char>,
    digits: Seq<char>,
    unit: Seq<char>,
    after: Seq<char>,
) -> bool {
    &&& text == before + "REMIND: "@ + digits + unit + after
    &&& lacks(before, ':') && digits.len() > 0 && all_digits(digits)
    &&& unit == "m"@ || unit == "h"@ || unit == "d"@ || unit == "w"@
}

/// The text is one with a first closing time.
pub open spec fn has_closing(
    text: Seq<char>,
    before: Seq<char>,
    date: Seq<char>,
    after: Seq<char>,
) -> bool {
    &&& text == before + "CLOSED: ["@ + date + after
    &&& lacks(before, '[') && is_iso_shape(date)
}

/// The patterns for a timestamp find one that is written in the usual way; the one for a timestamp
/// with a repeater finds nothing where the only timestamp has none.
pub open spec fn finds_timestamps(
    pattern: Seq<char>,
    text: Seq<char>,
    found: Option<Seq<Option<Seq<char>>>>,
) -> bool {
    &&& pattern == REPEATING_TIMESTAMP_PATTERN@ ==> forall|
        before: Seq<char>,
        date: Seq<char>,
        weekday: Seq<char>,
        prefix: Seq<char>,
        digits: Seq<char>,
        unit: Seq<char>,
        after: Seq<char>,
    |
        #[trigger] has_repeating_timestamp(text, before, date, weekday, prefix, digits, unit, after)
            ==> {
            &&& found is Some
            &&& group_at(found->0, 1) == Some(date)
            &&& group_at(found->0, 2) == Some(prefix)
            &&& group_at(found->0, 3) == Some(digits)
            &&& group_at(found->0, 4) == Some(unit)
        }
    &&& pattern == TIMESTAMP_PATTERN@ ==> forall|
        before: Seq<char>,
        date: Seq<char>,
        weekday: Seq<char>,
        after: Seq<char>,
    |
        #[trigger] has_timestamp(text, before, date, weekday, after) ==> {
            &&& found is Some
            &&& group_at(found->0, 1) == Some(date)
        }
    &&& pattern == REPEATING_TIMESTAMP_PATTERN@ ==> forall|
        before: Seq<char>,
        date: Seq<char>,
        weekday: Seq<char>,
        after: Seq<char>,
    |
        #[trigger] has_timestamp(text, before, date, weekday, after) && lacks(after, '<') ==> found
            is None
}

/// The pattern for a planning keyword finds such a line, written in the usual way.
pub open spec fn finds_planning_lines(
    keyword: Seq<char>,
    text: Seq<char>,
    found: Option<Seq<Option<Seq<char>>>>,
) -> bool {
    &&& forall|
        before: Seq<char>,
        date: Seq<char>,
        weekday: Seq<char>,
        prefix: Seq<char>,
        digits: Seq<char>,
        unit: Seq<char>,
        after: Seq<char>,
    | #[trigger]
        has_repeating_timestamp(text, before, date, weekday, prefix, digits, unit, after)
            && introduces(before, keyword) ==> {
            &&& found is Some
            &&& group_at(found->0, 1) == Some(date)
            &&& group_at(found->0, 2) == Some(prefix)
            &&& group_at(found->0, 3) == Some(digits)
            &&& group_at(found->0, 4) == Some(unit)
            &&& group_at(found->0, 5) is None
        }
    &&& forall|before: Seq<char>, date: Seq<char>, weekday: Seq<char>, after: Seq<char>| #[trigger]
        has_timestamp(text, before, date, weekday, after) && introduces(before, keyword) ==> {
            &&& found is Some
            &&& group_at(found->0, 1) == Some(date)
            &&& group_at(found->0, 2) is None
            &&& group_at(found->0, 5) is None
        }
}

/// The pattern for a deadline finds one with a warning period, written in the usual way.
pub open spec fn finds_warnings(text: Seq<char>, found: Option<Seq<Option<Seq<char>>>>) -> bool {
    forall|
        before: Seq<char>,
        date: Seq<char>,
        weekday: Seq<char>,
        sign: Seq<char>,
        digits: Seq<char>,
        after: Seq<char>,
    | #[trigger]
        has_warning(text, before, date, weekday, sign, digits, after) && introduces(
            before,
            "DEADLINE:"@,
        ) ==> {
            &&& found is Some
            &&& group_at(found->0, 1) == Some(date)
            &&& group_at(found->0, 2) is None
            &&& group_at(found->0, 5) == Some(sign + digits)
        }
}

/// A pattern that names a keyword finds nothing in a text without it.
pub open spec fn finds_keywords(
    pattern: Seq<char>,
    text: Seq<char>,
    found: Option<Seq<Option<Seq<char>>>>,
) -> bool {
    &&& pattern == SCHEDULED_PATTERN@ && !contains(text, "SCHEDULED:"@) ==> found is None
    &&& pattern == DEADLINE_PATTERN@ && !contains(text, "DEADLINE:"@) ==> found is None
    &&& pattern == CLOSED_PATTERN@ && !contains(text, "CLOSED:"@) ==> found is None
    &&& pattern == REMIND_PATTERN@ && !contains(text, "REMIND:"@) ==> found is None
    &&& pattern == REPEATING_LINE_PATTERN@ && !contains(text, "SCHEDULED:"@) && !contains(
        text,
        "DEADLINE:"@,
    ) ==> found is None
}

/// The word is a keyword of a task.
pub open spec fn is_task_keyword(word: Seq<char>) -> bool {
    ||| word == "TODO"@
    ||| word == "DONE"@
    ||| word == "DOING"@
    ||| word == "WAITING"@
    ||| word == "NEXT"@
    ||| word == "STARTED"@
    ||| word == "CANCELLED"@
    ||| word == "CANCELED"@
    ||| word == "DEFERRED"@
}

/// The keyword of a headline and what follows it: the word after the stars and white space with
/// which the headline begins, if it is one of the keywords and white space follows it.
pub open spec fn task_keyword(text: Seq<char>) -> Option<(Seq<char>, Seq<char>)> {
    let after_stars = trim_start(text, CharClass::Star);
    let words = trim_start(after_stars, CharClass::Space);
    let word = words.take(word_len(words));
    let after_word = words.skip(word_len(words));
    let rest = trim_start(after_word, CharClass::Space);
    if after_stars.len() < text.len() && words.len() < after_stars.len() && rest.len()
        < after_word.len() && is_task_keyword(word) {
        Some((word, rest))
    } else {
        None
    }
}

/// The pattern for the keyword of a headline finds it.
pub open spec fn finds_task_keyword(
    text: Seq<char>,
    found: Option<Seq<Option<Seq<char>>>>,
) -> bool {
    match task_keyword(text) {
        Some((keyword, _)) => found is Some && group_at(found->0, 1) == Some(keyword),
        None => found is None,
    }
}

/// The text is without the stars and the keyword of its headline, if it had a keyword.
pub open spec fn drops_task_keyword(text: Seq<char>, result: Seq<char>) -> bool {
    task_keyword(text) matches Some((_, rest)) ==> result == rest
}

/// The pattern for a reminder finds one that is written in the usual way.
pub open spec fn finds_reminders(text: Seq<char>, found: Option<Seq<Option<Seq<char>>>>) -> bool {
    forall|before: Seq<char>, digits: Seq<char>, unit: Seq<char>, after: Seq<char>| #[trigger]
        has_reminder(text, before, digits, unit, after) ==> {
            &&& found is Some
            &&& group_at(found->0, 1) == Some(digits)
            &&& group_at(found->0, 2) == Some(unit)
        }
}

/// The pattern for a closing time finds one that is written in the usual way.
pub open spec fn finds_closings(text: Seq<char>, found: Option<Seq<Option<Seq<char>>>>) -> bool {
    forall|before: Seq<char>, date: Seq<char>, after: Seq<char>| #[trigger]
        has_closing(text, before, date, after) ==> {
            &&& found is Some
            &&& group_at(found->0, 1) == Some(date)
        }
}

/// What the first match of a pattern in a text captures, through `Regex::captures`. A pattern that
/// is no regular expression matches nothing. Of the patterns for timestamps, planning lines,
/// reminders and closing times it is claimed that they find what is written in the usual way, and
/// capture its parts; of those that name a keyword, that they find nothing without it; and of the
/// one for the keyword of a headline, what it finds.
#[verifier::external_body]
pub(crate) fn captures(pattern: &str, text: &str) -> (r: Option<Groups>)
    ensures
        found_texts(r) == first_match(pattern@, text@),
        finds_timestamps(pattern@, text@, found_texts(r)),
        pattern@ == SCHEDULED_PATTERN@ ==> finds_planning_lines(
            "SCHEDULED:"@,
            text@,
            found_texts(r),
        ),
        pattern@ == DEADLINE_PATTERN@ ==> finds_planning_lines(
            "DEADLINE:"@,
            text@,
            found_texts(r),
        ),
        pattern@ == DEADLINE_PATTERN@ ==> finds_warnings(text@, found_texts(r)),
        finds_keywords(pattern@, text@, found_texts(r)),
        pattern@ == KEYWORD_PATTERN@ ==> finds_task_keyword(text@, found_texts(r)),
        pattern@ == REMIND_PATTERN@ ==> finds_reminders(text@, found_texts(r)),
        pattern@ == CLOSED_PATTERN@ ==> finds_closings(text@, found_texts(r)),
{
    let found = regex::Regex::new(pattern).ok()?.captures(text)?;
    Some(found.iter().map(|group| group.map(|m| m.as_str().to_string())).collect())
}

/// The text with every match of a pattern replaced, by `Regex::replace_all`.
pub uninterp spec fn all_replaced(
    pattern: Seq<char>,
    text: Seq<char>,
    replacement: Seq<char>,
) -> Seq<char>;

/// The patterns for what a task that is done has in it leave a text as it is that has none of it.
pub open spec fn leaves_unnamed(pattern: Seq<char>, text: Seq<char>, result: Seq<char>) -> bool {
    &&& pattern == DONE_PATTERN@ && !contains(text, "DONE"@) && !contains(text, "CANCELLED"@)
        ==> result == text
    &&& pattern == CLOSED_LINE_PATTERN@ && !contains(text, "CLOSED:"@) ==> result == text
}

/// The text with every match of a pattern replaced, through `Regex::replace_all`. A pattern that
/// is no regular expression matches nothing, and a text without a match stays as it is: of the
/// patterns for keywords of tasks that are done and for closing lines it is claimed that they match
/// nothing in a text without such a keyword.
#[verifier::external_body]
pub(crate) fn replace_all(pattern: &str, text: &str, replacement: &str) -> (r: String)
    ensures
        r@ == all_replaced(pattern@, text@, replacement@),
        leaves_unnamed(pattern@, text@, r@),
{
    match regex::Regex::new(pattern) {
        Ok(regex) => regex.replace_all(text, replacement).to_string(),
        Err(_) => text.to_string(),
    }
}

/// The text with the first match of a pattern replaced, by `Regex::replace`.
pub uninterp spec fn first_replaced(
    pattern: Seq<char>,
    text: Seq<char>,
    replacement: Seq<char>,
) -> Seq<char>;

/// One part of the text, replaced, gives the result.
pub open spec fn replaced_within(
    text: Seq<char>,
    replacement: Seq<char>,
    result: Seq<char>,
) -> bool {
    exists|before: Seq<char>, matched: Seq<char>, after: Seq<char>|
        text == #[trigger] (before + matched + after) && result == before + replacement + after
}

/// The text with the first match of a pattern replaced, through `Regex::replace`. A pattern that
/// is no regular expression matches nothing. Where there is a match and the replacement has no
/// dollar sign, the replacement stands in the result as it is. Replaced by nothing, what the
/// pattern for the keyword of a headline finds is gone.
#[verifier::external_body]
pub(crate) fn replace_first(pattern: &str, text: &str, replacement: &str) -> (r: String)
    ensures
        r@ == first_replaced(pattern@, text@, replacement@),
        first_match(pattern@, text@) is Some && lacks(replacement@, '$') ==> replaced_within(
            text@,
            replacement@,
            r@,
        ),
        pattern@ == KEYWORD_PATTERN@ && replacement@ == ""@ ==> drops_task_keyword(text@, r@),
{
    match regex::Regex::new(pattern) {
        Ok(regex) => regex.replace(text, replacement).to_string(),
        Err(_) => text.to_string(),
    }
}

} // verus!

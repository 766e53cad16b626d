//! Short texts as a view shows them.
use vstd::prelude::*;
use vstd::string::*;

verus! {

/// How large a label is.
#[derive(Clone, Copy, Debug, PartialEq, Eq, Structural)]
pub enum LabelSize {
    Default,
    Large,
    Small,
    XSmall,
}

/// The color of a label, by what it means.
#[derive(Clone, Copy, Debug, PartialEq, Eq, Structural)]
pub enum Color {
    Default,
    Muted,
    Accent,
    Info,
    Success,
    Warning,
    Error,
    Created,
    Deleted,
    Modified,
}

/// A short text in a view.
#[derive(Debug)]
pub struct Label {
    pub text: String,
    pub size: LabelSize,
    pub color: Color,
}

/// What a label shows.
pub type Shown = (Seq<char>, LabelSize, Color);

impl Label {
    /// A label with a text.
    pub fn new(text: &str, size: LabelSize, color: Color) -> (r: Label)
        ensures
            r@ == (text@, size, color),
    {
        Label { text: text.to_owned(), size, color }
    }
}

impl View for Label {
    type V = Shown;

    /// What the label shows.
    open spec fn view(&self) -> Shown {
        (self.text@, self.size, self.color)
    }
}

/// What several labels show.
pub open spec fn shown(labels: Seq<Label>) -> Seq<Shown> {
    labels.map_values(|l: Label| l@)
}

} // verus!

//! Widget classifications.
//!
//! Each widget reports one of the classifications below. In the full toolkit
//! a text-bearing classification carries a handle on the widget's text
//! object; here it carries the text itself, which is all the queries read.

use vstd::prelude::*;

verus! {

/// Alignment of contents.
#[derive(Copy, Clone, Debug, PartialEq, Eq)]
pub enum Align {
    /// Align to top or left (for left-to-right text).
    Begin,
    /// Align to centre.
    Center,
    /// Align to bottom or right (for left-to-right text).
    End,
    /// Attempt to align to both margins, padding with space.
    Justify,
}

/// Widget classifications.
#[derive(Copy, Clone, Debug)]
pub enum Class<'a> {
    Container,
    Label(&'a str),
    Entry(&'a str),
    Button(&'a str),
    CheckBox(&'a str),
    Frame,
    Window,
}

impl<'a> Class<'a> {
    /// The widget's text, where its classification carries any.
    pub open spec fn text_spec(self) -> Option<&'a str> {
        match self {
            Class::Label(text) => Some(text),
            Class::Entry(text) => Some(text),
            Class::Button(text) => Some(text),
            Class::CheckBox(text) => Some(text),
            _ => None,
        }
    }

    /// Get widget text, if any.
    pub fn text(&'a self) -> (r: Option<&'a str>)
        ensures
            r == self.text_spec(),
    {
        match self {
            Class::Container => None,
            Class::Label(text) => Some(text),
            Class::Entry(text) => Some(text),
            Class::Button(text) => Some(text),
            Class::CheckBox(text) => Some(text),
            Class::Frame => None,
            Class::Window => None,
        }
    }

    /// The alignments a classification asks for, horizontal then vertical.
    pub open spec fn alignments_spec(self) -> (Align, Align) {
        match self {
            Class::Container | Class::Frame | Class::Window => (Align::Justify, Align::Justify),
            Class::Label(_) => (Align::Begin, Align::Center),
            Class::Entry(_) => (Align::Begin, Align::Begin),
            Class::Button(_) | Class::CheckBox(_) => (Align::Center, Align::Center),
        }
    }

    /// Get widget alignment for horizontal and vertical axes respectively.
    pub fn alignments(&'a self) -> (r: (Align, Align))
        ensures
            r == self.alignments_spec(),
    {
        match self {
            Class::Container | Class::Frame | Class::Window => (Align::Justify, Align::Justify),
            Class::Label(_) => (Align::Begin, Align::Center),
            Class::Entry(_) => (Align::Begin, Align::Begin),
            Class::Button(_) | Class::CheckBox(_) => (Align::Center, Align::Center),
        }
    }
}

} // verus!

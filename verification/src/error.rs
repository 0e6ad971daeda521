//! The errors of compiling, rendering and encoding.

use vstd::prelude::*;
use vstd::string::*;

verus! {

/// What can go wrong while a template is compiled or rendered, or while a
/// value is encoded into template data.
#[derive(Debug, Clone, Copy, PartialEq, Eq, Structural)]
pub enum Error {
    /// The renderer met a value it cannot interpolate, or the encoder a
    /// shape it cannot emit.
    UnsupportedType,
    /// A template or partial is not valid UTF-8.
    InvalidStr,
    /// The encoder was asked for a value and holds none.
    MissingElements,
    /// A map key was encoded as something other than a string.
    KeyIsNotString,
    /// The input ended inside a tag.
    UnclosedTag,
    /// A section was opened and never closed, or closed under another name.
    UnclosedSection,
    /// A section was closed that was never opened.
    StrayClose,
    /// A tag holds nothing but whitespace.
    EmptyTag,
    /// A tag's braces, or its closing delimiter, do not balance.
    UnbalancedTripleMustache,
    /// A delimiter change is malformed, or a delimiter is empty.
    BadDelimiterChange,
    /// Partials or lambdas expanded deeper than the renderer allows.
    RecursionLimit,
}

impl Error {
    /// The text that `description` returns.
    pub open spec fn description_spec(self) -> Seq<char> {
        match self {
            Error::UnsupportedType => "unsupported type"@,
            Error::InvalidStr => "invalid string"@,
            Error::MissingElements => "no elements in value"@,
            Error::KeyIsNotString => "key is not a string"@,
            Error::UnclosedTag => "unclosed tag"@,
            Error::UnclosedSection => "unclosed section"@,
            Error::StrayClose => "closing unopened section"@,
            Error::EmptyTag => "empty tag"@,
            Error::UnbalancedTripleMustache => "unbalanced \"{\" in tag"@,
            Error::BadDelimiterChange => "invalid change delimiter tag content"@,
            Error::RecursionLimit => "templates nested too deeply"@,
        }
    }

    /// A short description of the error.
    pub fn description(&self) -> (s: &'static str)
        ensures
            s@ == self.description_spec(),
    {
        match self {
            Error::UnsupportedType => "unsupported type",
            Error::InvalidStr => "invalid string",
            Error::MissingElements => "no elements in value",
            Error::KeyIsNotString => "key is not a string",
            Error::UnclosedTag => "unclosed tag",
            Error::UnclosedSection => "unclosed section",
            Error::StrayClose => "closing unopened section",
            Error::EmptyTag => "empty tag",
            Error::UnbalancedTripleMustache => "unbalanced \"{\" in tag",
            Error::BadDelimiterChange => "invalid change delimiter tag content",
            Error::RecursionLimit => "templates nested too deeply",
        }
    }

    /// The description as an owned string; every error has one.
    pub fn detail(&self) -> (s: Option<String>)
        ensures
            s matches Some(d) && d@ == self.description_spec(),
    {
        Some(self.description().to_owned())
    }
}

} // verus!

//! The events a scan produces and the errors that end one.

use vstd::prelude::*;

verus! {

/// One structural event produced while scanning a document.
///
/// Every `&str` payload borrows directly from the input buffer; the scanner
/// never allocates storage for an event.
#[derive(Debug, Clone, Copy, PartialEq, Eq)]
pub enum XmlEvent<'a> {
    /// An element was opened: `<name`.
    PushElement { name: &'a str },
    /// An element was closed: `Some(name)` for `</name>`, `None` for `/>`.
    /// The scanner never compares the name against the matching open tag.
    PopElement { name: Option<&'a str> },
    /// An attribute inside an open tag; `value` is `None` for a bare
    /// presence attribute, and holds the raw quoted span (backslash escapes
    /// left undecoded) otherwise.
    Attr { name: &'a str, value: Option<&'a str> },
    /// A run of non-markup content with trailing whitespace removed.
    Text { text: &'a str },
    /// A comment body, only in the comment-emitting configuration.
    Comment { text: &'a str },
}

/// The mathematical image of an [`XmlEvent`]: each payload as the character
/// sequence it borrows.
pub enum EventV {
    Push { name: Seq<char> },
    Pop { name: Option<Seq<char>> },
    Attr { name: Seq<char>, value: Option<Seq<char>> },
    Text { text: Seq<char> },
    Comment { text: Seq<char> },
}

pub open spec fn view_opt(o: Option<&str>) -> Option<Seq<char>> {
    match o {
        Some(s) => Some(s@),
        None => None,
    }
}

impl<'a> View for XmlEvent<'a> {
    type V = EventV;

    open spec fn view(&self) -> EventV {
        match *self {
            XmlEvent::PushElement { name } => EventV::Push { name: name@ },
            XmlEvent::PopElement { name } => EventV::Pop { name: view_opt(name) },
            XmlEvent::Attr { name, value } => EventV::Attr {
                name: name@,
                value: view_opt(value),
            },
            XmlEvent::Text { text } => EventV::Text { text: text@ },
            XmlEvent::Comment { text } => EventV::Comment { text: text@ },
        }
    }
}

/// A fatal condition: the scan ends, and no further call yields an event.
#[derive(Debug, Clone, Copy, PartialEq, Eq)]
pub enum XmlError {
    /// `<` was followed directly by a name delimiter.
    MissingElementName,
    /// An attribute started at `=`, leaving its name empty.
    MissingAttributeName,
    /// The named character, at the named character offset, cannot stand there.
    UnexpectedChar(char, usize),
    /// The input ended inside an open tag or a close tag.
    UnexpectedEndOfInput,
    /// The input ended before the closing quote of an attribute value.
    UnterminatedAttributeValue,
}

/// The mathematical image of an [`XmlError`], with the offset as an `int`.
pub enum ErrorV {
    MissingElementName,
    MissingAttributeName,
    UnexpectedChar(char, int),
    UnexpectedEndOfInput,
    UnterminatedAttributeValue,
}

impl View for XmlError {
    type V = ErrorV;

    open spec fn view(&self) -> ErrorV {
        match *self {
            XmlError::MissingElementName => ErrorV::MissingElementName,
            XmlError::MissingAttributeName => ErrorV::MissingAttributeName,
            XmlError::UnexpectedChar(c, at) => ErrorV::UnexpectedChar(c, at as int),
            XmlError::UnexpectedEndOfInput => ErrorV::UnexpectedEndOfInput,
            XmlError::UnterminatedAttributeValue => ErrorV::UnterminatedAttributeValue,
        }
    }
}

} // verus!

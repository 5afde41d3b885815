//! The errors of a parse.

use vstd::prelude::*;
use vstd::string::StringExecFns;
use crate::grammar::Fault;
use crate::number::{decimal_text, write_decimal};
use crate::rule::Rule;

verus! {

/// The text does not conform to the grammar.
#[derive(Clone, Copy, Debug, PartialEq, Eq)]
pub struct SyntaxError {
    /// The byte offset of the first byte that fits nowhere; the length of
    /// the text where the text ends too early.
    pub offset: usize,
    /// The number of the line that holds that byte, counted from 1.
    pub line: usize,
    /// The production that was expected at that byte.
    pub expected: Rule,
}

impl View for SyntaxError {
    type V = Fault;

    open spec fn view(&self) -> Fault {
        Fault { offset: self.offset as int, expected: self.expected }
    }
}

/// Why a parse failed. A failed parse yields no part of a model.
#[derive(Clone, Copy, Debug, PartialEq, Eq)]
pub enum GendersError<'src> {
    /// The text does not conform to the grammar.
    Syntax(SyntaxError),
    /// The host is declared more than once.
    DuplicateHost { host: &'src str },
    /// The attribute is listed more than once under the host.
    DuplicateAttribute { host: &'src str, attribute: &'src str },
    /// The syntax tree has a shape that the grammar never gives a tree.
    InternalShapeMismatch,
}

/// What a [`GendersError`] says, with names as sequences of characters.
pub enum Failure {
    Syntax(Fault),
    DuplicateHost { host: Seq<char> },
    DuplicateAttribute { host: Seq<char>, attribute: Seq<char> },
    InternalShapeMismatch,
}

impl View for GendersError<'_> {
    type V = Failure;

    open spec fn view(&self) -> Failure {
        match *self {
            GendersError::Syntax(e) => Failure::Syntax(e@),
            GendersError::DuplicateHost { host } => Failure::DuplicateHost { host: host@ },
            GendersError::DuplicateAttribute { host, attribute } => Failure::DuplicateAttribute {
                host: host@,
                attribute: attribute@,
            },
            GendersError::InternalShapeMismatch => Failure::InternalShapeMismatch,
        }
    }
}

impl SyntaxError {
    /// What [`SyntaxError::message`] says.
    pub open spec fn message_text(self) -> Seq<char> {
        "Syntax error at byte "@ + decimal_text(self.offset as nat) + " (line "@ + decimal_text(
            self.line as nat,
        ) + "): expected "@ + self.expected.name_text()
    }

    /// Says where the text stops to conform to the grammar, and what was
    /// expected there.
    pub fn message(&self) -> (r: String)
        ensures
            r@ == self.message_text(),
    {
        let mut r = String::from_str("Syntax error at byte ");
        r.append(write_decimal(self.offset).as_str());
        r.append(" (line ");
        r.append(write_decimal(self.line).as_str());
        r.append("): expected ");
        r.append(self.expected.name());
        r
    }
}

impl GendersError<'_> {
    /// What [`GendersError::message`] says.
    pub open spec fn message_text(self) -> Seq<char> {
        match self {
            GendersError::Syntax(e) => e.message_text(),
            GendersError::DuplicateHost { host } => "Duplicate host "@ + host@,
            GendersError::DuplicateAttribute { host, attribute } => "Duplicate attribute "@
                + attribute@ + " on host "@ + host@,
            GendersError::InternalShapeMismatch => "Syntax tree of an unknown shape"@,
        }
    }

    /// Says what failed, in one line.
    pub fn message(&self) -> (r: String)
        ensures
            r@ == self.message_text(),
    {
        match self {
            GendersError::Syntax(e) => e.message(),
            GendersError::DuplicateHost { host } => {
                let mut r = String::from_str("Duplicate host ");
                r.append(host);
                r
            },
            GendersError::DuplicateAttribute { host, attribute } => {
                let mut r = String::from_str("Duplicate attribute ");
                r.append(attribute);
                r.append(" on host ");
                r.append(host);
                r
            },
            GendersError::InternalShapeMismatch => String::from_str(
                "Syntax tree of an unknown shape",
            ),
        }
    }
}

} // verus!

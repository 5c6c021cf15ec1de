//! The ways in which a scan fails.

use vstd::prelude::*;
use crate::span::{Location, Span};

verus! {

/// Why a text could not be scanned.
#[derive(Debug, Clone, Copy, PartialEq, Eq)]
pub enum LexErrorKind {
    /// A character or string literal is opened and never closed.
    UnterminatedLiteral,
    /// A character literal holds no character, or more than one.
    InvalidCharLiteral,
    /// A character that begins no token.
    UnknownCharacter,
}

/// A failed scan: the reason, and the place in the text that it is about.
#[derive(Debug, Clone, Copy, PartialEq, Eq)]
pub struct LexError {
    pub kind: LexErrorKind,
    pub loc: Location,
}

/// A failed scan as a mathematical value.
pub struct LexErrorView {
    pub kind: LexErrorKind,
    pub loc: Span,
}

impl View for LexError {
    type V = LexErrorView;

    open spec fn view(&self) -> LexErrorView {
        LexErrorView { kind: self.kind, loc: self.loc@ }
    }
}

/// The sentence that goes with each kind of failure.
pub open spec fn message_of(kind: LexErrorKind) -> Seq<char> {
    match kind {
        LexErrorKind::UnterminatedLiteral =>
            "Incomplete char/string literal: The closing quote is missing"@,
        LexErrorKind::InvalidCharLiteral => "char must hold exactly one letter"@,
        LexErrorKind::UnknownCharacter => "Encountered unknown input."@,
    }
}

impl LexErrorKind {
    /// The sentence that goes with this kind of failure.
    pub fn message(&self) -> (s: &'static str)
        ensures
            s@ == message_of(*self),
    {
        match self {
            LexErrorKind::UnterminatedLiteral =>
                "Incomplete char/string literal: The closing quote is missing",
            LexErrorKind::InvalidCharLiteral => "char must hold exactly one letter",
            LexErrorKind::UnknownCharacter => "Encountered unknown input.",
        }
    }
}

} // verus!

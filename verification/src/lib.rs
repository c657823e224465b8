//! A minimal document-and-stylesheet front end: an HTML-like markup parser
//! that produces a tree of document nodes, and a CSS parser that produces an
//! ordered list of style rules whose selectors are sorted by specificity.
//! Both parsers are recursive-descent parsers built on a shared character
//! cursor, and both are specified against a mathematical mirror of the
//! grammar, so every contract pins the exact result for every input.

use vstd::prelude::*;

pub mod cursor;
pub mod dom;
pub mod html;
pub mod style;
pub mod css;

verus! {

/// The closed set of fatal parse failures. A parse either returns the whole
/// result or the first violation encountered; there is no error recovery.
#[derive(Clone, Copy, Debug, PartialEq, Eq, Structural)]
pub enum ParseError {
    /// The cursor was asked for a character at or past end-of-input.
    UnexpectedEndOfInput,
    /// An expected literal character of a tag was absent.
    MalformedTag,
    /// A closing tag name differed from the opening tag name.
    TagMismatch,
    /// An attribute value reached end-of-input before its closing quote.
    UnterminatedAttributeValue,
    /// A selector list held a character that is neither `,` nor `{`.
    UnexpectedCharacterInSelectorList,
    /// A length value carried a unit other than `px`.
    UnknownUnit,
    /// A color literal held fewer than six hexadecimal digits.
    InvalidColorLiteral,
    /// An identifier was empty at a position where a name is required.
    EmptyIdentifier,
    /// An expected literal character of a declaration block was absent.
    MalformedDeclaration,
}

} // verus!

//! The errors of this crate.

use vstd::prelude::*;

verus! {

/// Why a sequence of tokens is no declaration set, no list of variable definitions or no
/// recipe. Parsing stops at the first error.
#[derive(Debug, PartialEq, Eq)]
pub enum ParseError {
    /// A token that the grammar has no place for. The text is the name that was being read
    /// or whose values were being read.
    UnexpectedToken(String),
    /// A second rule for a property in one declaration set.
    DuplicateProperty(String),
    /// A colon was due behind a name and does not stand there.
    MissingColon,
    /// A `$` that no identifier follows.
    MissingVariableIdentifier,
    /// An integer literal whose magnitude is no unsigned 32-bit number.
    InvalidNumericLiteral,
}

/// The mathematical value of a [`ParseError`].
pub enum ParseErrorView {
    UnexpectedToken(Seq<char>),
    DuplicateProperty(Seq<char>),
    MissingColon,
    MissingVariableIdentifier,
    InvalidNumericLiteral,
}

impl View for ParseError {
    type V = ParseErrorView;

    open spec fn view(&self) -> ParseErrorView {
        match self {
            ParseError::UnexpectedToken(name) => ParseErrorView::UnexpectedToken(name@),
            ParseError::DuplicateProperty(name) => ParseErrorView::DuplicateProperty(name@),
            ParseError::MissingColon => ParseErrorView::MissingColon,
            ParseError::MissingVariableIdentifier => ParseErrorView::MissingVariableIdentifier,
            ParseError::InvalidNumericLiteral => ParseErrorView::InvalidNumericLiteral,
        }
    }
}

/// Why the fragments of a store could not be made into a bundle.
#[derive(Debug, PartialEq, Eq)]
pub enum BundleError {
    /// The fragment with this identifier is no stylesheet, so that importing it failed.
    ImportResolutionFailed(String),
    /// The resolved document could not be minified.
    MinifyFailed,
}

/// The mathematical value of a [`BundleError`].
pub enum BundleErrorView {
    ImportResolutionFailed(Seq<char>),
    MinifyFailed,
}

impl View for BundleError {
    type V = BundleErrorView;

    open spec fn view(&self) -> BundleErrorView {
        match self {
            BundleError::ImportResolutionFailed(id) => BundleErrorView::ImportResolutionFailed(id@),
            BundleError::MinifyFailed => BundleErrorView::MinifyFailed,
        }
    }
}

/// Why a compile call failed: its tokens could not be read, or the bundle could not be
/// rebuilt.
#[derive(Debug, PartialEq, Eq)]
pub enum CompileError {
    Parse(ParseError),
    Bundle(BundleError),
}

/// The mathematical value of a [`CompileError`].
pub enum CompileErrorView {
    Parse(ParseErrorView),
    Bundle(BundleErrorView),
}

impl View for CompileError {
    type V = CompileErrorView;

    open spec fn view(&self) -> CompileErrorView {
        match self {
            CompileError::Parse(e) => CompileErrorView::Parse(e@),
            CompileError::Bundle(e) => CompileErrorView::Bundle(e@),
        }
    }
}

/// Why a dispatch table has no entry for a selector.
#[derive(Clone, Copy, Debug, PartialEq, Eq, Structural)]
pub enum LookupError {
    /// No entry has the selector: one of its names is no choice of its variant.
    UnknownVariantChoice,
    /// The selector does not name one choice for each variant.
    SelectorArityMismatch,
}

} // verus!

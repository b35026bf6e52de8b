//! What can go wrong while reading a document, and where.

use vstd::prelude::*;

verus! {

/// The reason a document was rejected.
#[derive(Clone, Debug, PartialEq, Eq)]
pub enum ErrorKind {
    /// The grammar asked for a token that is not there.
    UnexpectedToken,
    /// A quoted string has no closing quote.
    UnterminatedString,
    /// A number has no digits, does not fit, or is no valid cardinality.
    InvalidNumber,
    /// A variable's type keyword is not one this library knows.
    UnknownVariableType,
    /// A probability table does not have the shape its header calls for.
    MalformedTable,
    /// The document does not begin with a network block.
    MissingNetworkDeclaration,
    /// A variable lists a number of states other than its cardinality.
    StateCountMismatch { variable: String, expected: u32, actual: usize },
    /// Two variables share a name.
    DuplicateVariableName,
    /// A probability header names a variable that is declared nowhere.
    UnresolvedVariableReference,
    /// A table row does not hold one value per state of the target.
    ValueCountMismatch,
    /// Two rows of one table describe the same combination of parent states.
    DuplicateTableRow,
    /// A table has fewer rows than there are combinations of parent states.
    IncompleteTable,
    /// Text is left over after the last declaration.
    TrailingInput,
}

/// The mathematical value of an [`ErrorKind`].
pub enum ErrorKindView {
    UnexpectedToken,
    UnterminatedString,
    InvalidNumber,
    UnknownVariableType,
    MalformedTable,
    MissingNetworkDeclaration,
    StateCountMismatch { variable: Seq<char>, expected: nat, actual: nat },
    DuplicateVariableName,
    UnresolvedVariableReference,
    ValueCountMismatch,
    DuplicateTableRow,
    IncompleteTable,
    TrailingInput,
}

impl View for ErrorKind {
    type V = ErrorKindView;

    open spec fn view(&self) -> ErrorKindView {
        match *self {
            ErrorKind::UnexpectedToken => ErrorKindView::UnexpectedToken,
            ErrorKind::UnterminatedString => ErrorKindView::UnterminatedString,
            ErrorKind::InvalidNumber => ErrorKindView::InvalidNumber,
            ErrorKind::UnknownVariableType => ErrorKindView::UnknownVariableType,
            ErrorKind::MalformedTable => ErrorKindView::MalformedTable,
            ErrorKind::MissingNetworkDeclaration => ErrorKindView::MissingNetworkDeclaration,
            ErrorKind::StateCountMismatch { variable, expected, actual } => {
                ErrorKindView::StateCountMismatch {
                    variable: variable@,
                    expected: expected as nat,
                    actual: actual as nat,
                }
            },
            ErrorKind::DuplicateVariableName => ErrorKindView::DuplicateVariableName,
            ErrorKind::UnresolvedVariableReference => ErrorKindView::UnresolvedVariableReference,
            ErrorKind::ValueCountMismatch => ErrorKindView::ValueCountMismatch,
            ErrorKind::DuplicateTableRow => ErrorKindView::DuplicateTableRow,
            ErrorKind::IncompleteTable => ErrorKindView::IncompleteTable,
            ErrorKind::TrailingInput => ErrorKindView::TrailingInput,
        }
    }
}

impl DeepView for ErrorKind {
    type V = ErrorKindView;

    open spec fn deep_view(&self) -> ErrorKindView {
        self@
    }
}

/// A fatal error: its kind, and the byte offset in the document of the text
/// it is about.
#[derive(Clone, Debug, PartialEq, Eq)]
pub struct ParseError {
    pub kind: ErrorKind,
    pub position: usize,
}

/// The mathematical value of a [`ParseError`].
pub struct ParseErrorView {
    pub kind: ErrorKindView,
    pub position: nat,
}

impl View for ParseError {
    type V = ParseErrorView;

    open spec fn view(&self) -> ParseErrorView {
        ParseErrorView { kind: self.kind@, position: self.position as nat }
    }
}

impl DeepView for ParseError {
    type V = ParseErrorView;

    open spec fn deep_view(&self) -> ParseErrorView {
        self@
    }
}

/// The error of the given kind at the given offset.
pub open spec fn fault(kind: ErrorKindView, position: nat) -> ParseErrorView {
    ParseErrorView { kind, position }
}

} // verus!

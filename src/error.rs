//! Parse errors. Each names the offending line (its index among the message's
//! lines), the schema node involved and, where there is one, the raw text that
//! was rejected.
use vstd::prelude::*;

verus! {

#[derive(Debug, PartialEq, Eq)]
pub enum ParseError {
    /// A line holds more elements than its segment has fields (`element` is
    /// `None`, `raw` is the line), or element `element` more components than its
    /// composite declares (`raw` is the element's token).
    TooManyFields { line: usize, element: Option<usize>, raw: Vec<char> },
    /// A mandatory field, or a mandatory component of field `field`, is missing.
    MissingMandatoryField { line: usize, field: usize, component: usize },
    /// The line does not carry the expected segment's tag (`expected` is its index),
    /// or a line follows the end of the message (`expected` is `None`); `found` is
    /// the tag the line carries. A `line` equal to the number of lines means the
    /// input ended, and `found` is then empty.
    UnexpectedSegmentTag { line: usize, expected: Option<usize>, found: Vec<char> },
    /// `raw_token` is not a code of the table with index `table`.
    LeafTypeConversionError {
        line: usize,
        field: usize,
        component: usize,
        table: usize,
        raw_token: Vec<char>,
    },
    /// A one-or-more member of a group matched no line.
    EmptyRequiredRepetition { line: usize, group: usize, member: usize },
}

/// The model of a parse error: its raw text as character sequences.
pub enum ErrorModel {
    TooManyFields { line: usize, element: Option<usize>, raw: Seq<char> },
    MissingMandatoryField { line: usize, field: usize, component: usize },
    UnexpectedSegmentTag { line: usize, expected: Option<usize>, found: Seq<char> },
    LeafTypeConversionError {
        line: usize,
        field: usize,
        component: usize,
        table: usize,
        raw_token: Seq<char>,
    },
    EmptyRequiredRepetition { line: usize, group: usize, member: usize },
}

impl View for ParseError {
    type V = ErrorModel;

    open spec fn view(&self) -> ErrorModel {
        match self {
            ParseError::TooManyFields { line, element, raw } => ErrorModel::TooManyFields {
                line: *line,
                element: *element,
                raw: raw@,
            },
            ParseError::MissingMandatoryField { line, field, component } =>
                ErrorModel::MissingMandatoryField { line: *line, field: *field, component: *component },
            ParseError::UnexpectedSegmentTag { line, expected, found } =>
                ErrorModel::UnexpectedSegmentTag { line: *line, expected: *expected, found: found@ },
            ParseError::LeafTypeConversionError { line, field, component, table, raw_token } =>
                ErrorModel::LeafTypeConversionError {
                line: *line,
                field: *field,
                component: *component,
                table: *table,
                raw_token: raw_token@,
            },
            ParseError::EmptyRequiredRepetition { line, group, member } =>
                ErrorModel::EmptyRequiredRepetition { line: *line, group: *group, member: *member },
        }
    }
}

} // verus!

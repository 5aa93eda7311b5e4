//! The failures that building ranges, expressions, grids and formulas can
//! report, each with the position or the name that it is about.

use vstd::prelude::*;
use crate::csv_cell::{position_text, CellPosition};

verus! {

/// The kinds of failure.
#[derive(Clone, Copy, Debug, PartialEq, Eq, Structural)]
pub enum ErrorKind {
    /// The endpoints of a range differ in both row and column.
    InvalidRange,
    /// The two ranges of a `SUMPRODUCT` have different lengths.
    DimensionMismatch,
    /// Two cells were given the same position.
    OverlappingCells,
    /// An ingredient name is classified both as flour and as non-flour.
    DuplicateIngredientName,
    /// The recipe does not have exactly one component named `mix`.
    MissingRootComponent,
    /// A component consumes itself, directly or through other components.
    CyclicReference,
    /// A component cannot be reached from `mix`.
    DisconnectedComponent,
    /// A component has ingredients but its flour mass is zero, so no
    /// percentage is defined.
    ZeroFlour,
    /// A decimal result or a grid coordinate is beyond what can be
    /// represented.
    Overflow,
}

/// Why a range, an expression, a grid or a recipe was refused.
#[derive(Debug, PartialEq, Eq)]
pub enum Error {
    /// The endpoints of a range differ in both row and column.
    InvalidRange,
    /// The two ranges of a `SUMPRODUCT` have different lengths.
    DimensionMismatch,
    /// Two cells were given this position.
    OverlappingCells(CellPosition),
    /// The ingredient of this name is classified both as flour and as
    /// non-flour.
    DuplicateIngredientName(String),
    /// The recipe does not have exactly one component named `mix`.
    MissingRootComponent,
    /// The component of this name consumes itself, directly or through
    /// other components.
    CyclicReference(String),
    /// The component of this name cannot be reached from `mix`.
    DisconnectedComponent(String),
    /// The component of this name has ingredients but its flour mass is
    /// zero, so no percentage is defined.
    ZeroFlour(String),
    /// A decimal result or a grid coordinate is beyond what can be
    /// represented.
    Overflow,
}

/// What is said of each kind of failure.
pub open spec fn message(kind: ErrorKind) -> Seq<char> {
    match kind {
        ErrorKind::InvalidRange => "CellArray: either 'from' or 'to' must have same value"@,
        ErrorKind::DimensionMismatch => "SumProduct: CellArrays cannot be if different length."@,
        ErrorKind::OverlappingCells => "csv grid cannot contain overlapping CSVCells"@,
        ErrorKind::DuplicateIngredientName => "Duplicate component names are not allowed"@,
        ErrorKind::MissingRootComponent => "Must be exactly one component named 'mix'"@,
        ErrorKind::CyclicReference => "Component may not be self referencing (directly or indirectly)"@,
        ErrorKind::DisconnectedComponent => "mix must reference all components directly or indirectly"@,
        ErrorKind::ZeroFlour => "Component has ingredients but no flour mass"@,
        ErrorKind::Overflow => "Value out of range"@,
    }
}

impl Error {
    /// The kind of the failure.
    pub open spec fn spec_kind(&self) -> ErrorKind {
        match *self {
            Error::InvalidRange => ErrorKind::InvalidRange,
            Error::DimensionMismatch => ErrorKind::DimensionMismatch,
            Error::OverlappingCells(_) => ErrorKind::OverlappingCells,
            Error::DuplicateIngredientName(_) => ErrorKind::DuplicateIngredientName,
            Error::MissingRootComponent => ErrorKind::MissingRootComponent,
            Error::CyclicReference(_) => ErrorKind::CyclicReference,
            Error::DisconnectedComponent(_) => ErrorKind::DisconnectedComponent,
            Error::ZeroFlour(_) => ErrorKind::ZeroFlour,
            Error::Overflow => ErrorKind::Overflow,
        }
    }

    /// The position or the name that the failure is about, as text; empty
    /// where it is about none.
    pub open spec fn subject(self) -> Seq<char> {
        match self {
            Error::OverlappingCells(p) => position_text(p),
            Error::DuplicateIngredientName(name) => name@,
            Error::CyclicReference(name) => name@,
            Error::DisconnectedComponent(name) => name@,
            Error::ZeroFlour(name) => name@,
            _ => Seq::empty(),
        }
    }

    /// The text of the failure: what is said of its kind, and behind a
    /// colon the position or the name that it is about.
    pub open spec fn text(self) -> Seq<char> {
        match self {
            Error::InvalidRange | Error::DimensionMismatch | Error::MissingRootComponent
            | Error::Overflow => message(self.spec_kind()),
            _ => message(self.spec_kind()) + seq![':', ' '] + self.subject(),
        }
    }

    /// The kind of the failure.
    #[verifier::when_used_as_spec(spec_kind)]
    pub fn kind(&self) -> (kind: ErrorKind)
        ensures
            kind == self.spec_kind(),
    {
        match self {
            Error::InvalidRange => ErrorKind::InvalidRange,
            Error::DimensionMismatch => ErrorKind::DimensionMismatch,
            Error::OverlappingCells(_) => ErrorKind::OverlappingCells,
            Error::DuplicateIngredientName(_) => ErrorKind::DuplicateIngredientName,
            Error::MissingRootComponent => ErrorKind::MissingRootComponent,
            Error::CyclicReference(_) => ErrorKind::CyclicReference,
            Error::DisconnectedComponent(_) => ErrorKind::DisconnectedComponent,
            Error::ZeroFlour(_) => ErrorKind::ZeroFlour,
            Error::Overflow => ErrorKind::Overflow,
        }
    }

    /// The text of the failure.
    pub fn to_string(&self) -> (text: String)
        ensures
            text@ == self.text(),
    {
        let mut text = self.kind().to_string();
        match self {
            Error::OverlappingCells(p) => {
                text.append(": ");
                text.append(p.to_string().as_str());
            },
            Error::DuplicateIngredientName(name) => {
                text.append(": ");
                text.append(name.as_str());
            },
            Error::CyclicReference(name) => {
                text.append(": ");
                text.append(name.as_str());
            },
            Error::DisconnectedComponent(name) => {
                text.append(": ");
                text.append(name.as_str());
            },
            Error::ZeroFlour(name) => {
                text.append(": ");
                text.append(name.as_str());
            },
            _ => {},
        }
        proof {
            reveal_strlit(": ");
            assert(": "@ =~= seq![':', ' ']);
            assert(text@ =~= self.text());
        }
        text
    }
}

impl Clone for Error {
    fn clone(&self) -> (copy: Error)
        ensures
            copy == *self,
    {
        match self {
            Error::InvalidRange => Error::InvalidRange,
            Error::DimensionMismatch => Error::DimensionMismatch,
            Error::OverlappingCells(p) => Error::OverlappingCells(*p),
            Error::DuplicateIngredientName(name) => Error::DuplicateIngredientName(name.clone()),
            Error::MissingRootComponent => Error::MissingRootComponent,
            Error::CyclicReference(name) => Error::CyclicReference(name.clone()),
            Error::DisconnectedComponent(name) => Error::DisconnectedComponent(name.clone()),
            Error::ZeroFlour(name) => Error::ZeroFlour(name.clone()),
            Error::Overflow => Error::Overflow,
        }
    }
}

impl ErrorKind {
    /// What is said of this kind of failure.
    pub fn to_string(&self) -> (text: String)
        ensures
            text@ == message(*self),
    {
        match self {
            ErrorKind::InvalidRange => String::from_str(
                "CellArray: either 'from' or 'to' must have same value",
            ),
            ErrorKind::DimensionMismatch => String::from_str(
                "SumProduct: CellArrays cannot be if different length.",
            ),
            ErrorKind::OverlappingCells => String::from_str(
                "csv grid cannot contain overlapping CSVCells",
            ),
            ErrorKind::DuplicateIngredientName => String::from_str(
                "Duplicate component names are not allowed",
            ),
            ErrorKind::MissingRootComponent => String::from_str(
                "Must be exactly one component named 'mix'",
            ),
            ErrorKind::CyclicReference => String::from_str(
                "Component may not be self referencing (directly or indirectly)",
            ),
            ErrorKind::DisconnectedComponent => String::from_str(
                "mix must reference all components directly or indirectly",
            ),
            ErrorKind::ZeroFlour => String::from_str("Component has ingredients but no flour mass"),
            ErrorKind::Overflow => String::from_str("Value out of range"),
        }
    }
}

} // verus!

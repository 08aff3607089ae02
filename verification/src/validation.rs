//! Validation results. These are data to show, not failures: the
//! application keeps running and lists them.

use crate::sheet::CellPos;
use vstd::prelude::*;

verus! {

/// A place where the data (a cell value or the sheet's structure) breaks a constraint.
#[derive(Debug, Clone, PartialEq)]
pub struct Violation {
    /// The id of the sheet.
    pub sheet: String,
    pub pos: Option<CellPos>,
    pub kind: ViolationKind,
    pub message: String,
}

/// What kind of rule a violation breaks.
#[derive(Debug, Clone, Copy, PartialEq, Eq, Structural)]
pub enum ViolationKind {
    MissingRequiredColumn,
    DisallowedColumn,
    MissingRequiredRow,
    DisallowedRow,
    TypeMismatch,
    NotInEnum,
    PatternMismatch,
    OutOfRange,
    Empty,
}

/// Mathematical model of a `Violation`.
pub struct ViolationModel {
    pub sheet: Seq<char>,
    pub pos: Option<CellPos>,
    pub kind: ViolationKind,
    pub message: Seq<char>,
}

impl Violation {
    pub open spec fn model(&self) -> ViolationModel {
        ViolationModel { sheet: self.sheet@, pos: self.pos, kind: self.kind, message: self.message@ }
    }
}

/// The models of a list of violations.
pub open spec fn violations_model(v: Seq<Violation>) -> Seq<ViolationModel> {
    v.map_values(|x: Violation| x.model())
}

/// A defect of the constraint file itself (a contradiction, a rule that does
/// not fit the value type, a parse failure): shown to the user, not fatal.
#[derive(Debug, Clone, PartialEq)]
pub struct ConstraintError {
    pub message: String,
}

impl ConstraintError {
    /// A constraint error with the given message.
    pub fn new(message: String) -> (r: ConstraintError)
        ensures
            r.message == message,
    {
        ConstraintError { message }
    }
}

} // verus!

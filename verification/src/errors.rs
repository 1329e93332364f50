use vstd::prelude::*;

verus! {

/// A conversion fault found in one field of one row, before the fault
/// is attributed to its row index and field name.
#[derive(Debug, Clone, Copy, PartialEq, Eq, Structural)]
pub enum ConvError {
    /// The field's numeric magnitude does not fit the signed 64-bit
    /// integer domain, or a float field encodes NaN or an infinity.
    UnsupportedNumericRange,
    /// A byte-text field does not hold valid UTF-8.
    InvalidEncoding,
}

/// Everything that can go wrong while a table file is turned into
/// value trees: failing to open the source, a row the decoder could
/// not decode, and the two per-field conversion faults, the latter
/// three attributed to the row (and field) that caused them.
#[derive(Debug, Clone, PartialEq, Eq)]
pub enum TableError {
    /// The path could not be opened or is not a valid source file.
    SourceOpenError { message: Vec<char> },
    /// The decoder failed on one row's bytes.
    RowDecodeError { row: usize, message: Vec<char> },
    /// A field's numeric magnitude does not fit the signed 64-bit
    /// integer domain, or a float field encodes NaN or an infinity.
    UnsupportedNumericRange { row: usize, field: Vec<char> },
    /// A byte-text field does not hold valid UTF-8.
    InvalidEncoding { row: usize, field: Vec<char> },
}

/// The mathematical shape of a `TableError`.
pub enum ErrorModel {
    SourceOpenError { message: Seq<char> },
    RowDecodeError { row: int, message: Seq<char> },
    UnsupportedNumericRange { row: int, field: Seq<char> },
    InvalidEncoding { row: int, field: Seq<char> },
}

impl View for TableError {
    type V = ErrorModel;

    open spec fn view(&self) -> ErrorModel {
        match self {
            TableError::SourceOpenError { message } => ErrorModel::SourceOpenError {
                message: message@,
            },
            TableError::RowDecodeError { row, message } => ErrorModel::RowDecodeError {
                row: *row as int,
                message: message@,
            },
            TableError::UnsupportedNumericRange { row, field } => ErrorModel::UnsupportedNumericRange {
                row: *row as int,
                field: field@,
            },
            TableError::InvalidEncoding { row, field } => ErrorModel::InvalidEncoding {
                row: *row as int,
                field: field@,
            },
        }
    }
}

/// Attributes a per-field conversion fault to the row index and field
/// name it was found at.
pub open spec fn located(e: ConvError, row: int, field: Seq<char>) -> ErrorModel {
    match e {
        ConvError::UnsupportedNumericRange => ErrorModel::UnsupportedNumericRange { row, field },
        ConvError::InvalidEncoding => ErrorModel::InvalidEncoding { row, field },
    }
}

} // verus!

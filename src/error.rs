use vstd::prelude::*;

verus! {

/// Why an operation on a frame, an encoder or a splitter was refused.
#[derive(Clone, Copy, Debug, PartialEq, Eq, Structural)]
pub enum FrameError {
    /// No column has the given name.
    UnknownColumn,
    /// The identifier column cannot be created, replaced, changed or removed.
    ReservedColumn,
    /// A column of that name exists already, or a name was given twice.
    DuplicateColumn,
    /// A column's values do not have one entry per row.
    LengthMismatch,
    /// A cell does not fit the type of its column, or a column has the wrong type.
    TypeMismatch,
    /// A row leaves out one of the frame's columns.
    MissingColumn,
    /// A row identifier or position is past the end.
    RowOutOfRange,
    /// A text column remains where only numbers may stand.
    EncodingRequired,
    /// A null cell remains where only numbers may stand.
    NullValue,
    /// A column holds both null cells and the text that names the null category.
    ReservedCategory,
    /// A splitter was given no columns, a zero bin count or a zero stride.
    InvalidParameter,
}

} // verus!

use vstd::prelude::*;

verus! {

/// The type tag of a column.
#[derive(Clone, Copy, Debug, PartialEq, Eq, Structural)]
pub enum DataType {
    Float,
    String,
    Id,
}

/// One cell of a frame. `N` is the numeric scalar that float cells carry;
/// the library stores and moves it but never computes with it.
#[derive(Clone, Debug)]
pub enum DataTypeValue<N> {
    Null,
    Float(N),
    String(String),
    Id(usize),
}

/// Whether a cell may stand in a column of type `dtype`: `Null` always may,
/// any other cell only in the column type of its own variant.
pub open spec fn fits<N>(dtype: DataType, v: DataTypeValue<N>) -> bool {
    match v {
        DataTypeValue::Null => true,
        DataTypeValue::Float(_) => dtype == DataType::Float,
        DataTypeValue::String(_) => dtype == DataType::String,
        DataTypeValue::Id(_) => dtype == DataType::Id,
    }
}

impl<N: Copy> DataTypeValue<N> {
    /// A copy of the cell.
    pub fn duplicate(&self) -> (r: Self)
        ensures
            r == *self,
    {
        match self {
            DataTypeValue::Null => DataTypeValue::Null,
            DataTypeValue::Float(x) => DataTypeValue::Float(*x),
            DataTypeValue::String(s) => DataTypeValue::String(s.clone()),
            DataTypeValue::Id(i) => DataTypeValue::Id(*i),
        }
    }

    /// Whether the cell may stand in a column of type `dtype`.
    pub fn fits_type(&self, dtype: DataType) -> (r: bool)
        ensures
            r == fits(dtype, *self),
    {
        match self {
            DataTypeValue::Null => true,
            DataTypeValue::Float(_) => dtype == DataType::Float,
            DataTypeValue::String(_) => dtype == DataType::String,
            DataTypeValue::Id(_) => dtype == DataType::Id,
        }
    }
}

} // verus!

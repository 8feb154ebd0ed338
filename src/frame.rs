use vstd::prelude::*;

use crate::error::FrameError;
use crate::value::{fits, DataType, DataTypeValue};

verus! {

/// What a column is: its name, its type tag and one cell per row.
pub struct ColumnSpec<N> {
    pub name: Seq<char>,
    pub dtype: DataType,
    pub values: Seq<DataTypeValue<N>>,
}

/// What a frame is: its columns in order and its number of rows.
pub struct FrameSpec<N> {
    pub columns: Seq<ColumnSpec<N>>,
    pub rows: nat,
}

/// The name of the identifier column.
pub open spec fn id_name() -> Seq<char> {
    seq!['i', 'd', 's']
}

/// The identifier column of a frame with `rows` rows.
pub open spec fn id_values<N>(rows: nat) -> Seq<DataTypeValue<N>> {
    Seq::new(rows, |i: int| DataTypeValue::Id(i as usize))
}

/// The position of the column named `name`, if there is one.
pub open spec fn position_of<N>(f: FrameSpec<N>, name: Seq<char>) -> int {
    choose|c: int| 0 <= c < f.columns.len() && f.columns[c].name == name
}

pub open spec fn has_column<N>(f: FrameSpec<N>, name: Seq<char>) -> bool {
    exists|c: int| 0 <= c < f.columns.len() && f.columns[c].name == name
}

/// The invariant of a frame: the identifier column comes first and holds
/// `0..rows`; every column has one cell per row, a unique name, and cells
/// that fit its type; no other column is named or typed as the identifier.
pub open spec fn frame_wf<N>(f: FrameSpec<N>) -> bool {
    &&& f.columns.len() >= 1
    &&& f.rows <= usize::MAX
    &&& f.columns[0].name == id_name()
    &&& f.columns[0].dtype == DataType::Id
    &&& f.columns[0].values == id_values::<N>(f.rows)
    &&& forall|c: int| 0 <= c < f.columns.len() ==> #[trigger] f.columns[c].values.len() == f.rows
    &&& forall|c: int|
        1 <= c < f.columns.len() ==> #[trigger] f.columns[c].dtype != DataType::Id
            && f.columns[c].name != id_name()
    &&& forall|c: int, d: int|
        0 <= c < f.columns.len() && 0 <= d < f.columns.len() && c != d
            ==> #[trigger] f.columns[c].name != #[trigger] f.columns[d].name
    &&& forall|c: int, i: int|
        0 <= c < f.columns.len() && 0 <= i < f.rows ==> fits(
            f.columns[c].dtype,
            #[trigger] f.columns[c].values[i],
        )
}

/// Why `insert_column` refuses a column, or `None` when it accepts it.
pub open spec fn insert_column_error<N>(
    f: FrameSpec<N>,
    name: Seq<char>,
    values: Seq<DataTypeValue<N>>,
    dtype: DataType,
) -> Option<FrameError> {
    if name == id_name() || dtype == DataType::Id {
        Some(FrameError::ReservedColumn)
    } else if values.len() != f.rows {
        Some(FrameError::LengthMismatch)
    } else if has_column(f, name) {
        Some(FrameError::DuplicateColumn)
    } else if exists|i: int| 0 <= i < values.len() && !fits(dtype, #[trigger] values[i]) {
        Some(FrameError::TypeMismatch)
    } else {
        None
    }
}

/// The names of the columns, in order.
pub open spec fn column_names<N>(f: FrameSpec<N>) -> Seq<Seq<char>> {
    f.columns.map_values(|c: ColumnSpec<N>| c.name)
}

/// The position in `row` of the entry named `name`.
pub open spec fn entry_index<N>(row: Seq<(String, DataTypeValue<N>)>, name: Seq<char>) -> int {
    choose|k: int| 0 <= k < row.len() && row[k].0@ == name
}

pub open spec fn names_entry<N>(row: Seq<(String, DataTypeValue<N>)>, name: Seq<char>) -> bool {
    exists|k: int| 0 <= k < row.len() && row[k].0@ == name
}

/// Why `insert_row` refuses a row, or `None` when it accepts it: the row must
/// name every column but the identifier column exactly once, and nothing else,
/// with values that fit the columns' types.
pub open spec fn insert_row_error<N>(
    f: FrameSpec<N>,
    row: Seq<(String, DataTypeValue<N>)>,
) -> Option<FrameError> {
    if exists|k: int| 0 <= k < row.len() && #[trigger] row[k].0@ == id_name() {
        Some(FrameError::ReservedColumn)
    } else if exists|k: int| 0 <= k < row.len() && !has_column(f, #[trigger] row[k].0@) {
        Some(FrameError::UnknownColumn)
    } else if exists|k: int, l: int|
        0 <= k < l < row.len() && #[trigger] row[k].0@ == #[trigger] row[l].0@ {
        Some(FrameError::DuplicateColumn)
    } else if exists|c: int|
        1 <= c < f.columns.len() && !names_entry(row, #[trigger] f.columns[c].name) {
        Some(FrameError::MissingColumn)
    } else if exists|k: int|
        0 <= k < row.len() && !fits(
            f.columns[position_of(f, #[trigger] row[k].0@)].dtype,
            row[k].1,
        ) {
        Some(FrameError::TypeMismatch)
    } else {
        None
    }
}

/// The names of the columns of type `t`, in order.
pub open spec fn names_of_type<N>(cols: Seq<ColumnSpec<N>>, t: DataType) -> Seq<Seq<char>>
    decreases cols.len(),
{
    if cols.len() == 0 {
        Seq::empty()
    } else {
        let rest = names_of_type(cols.drop_last(), t);
        if cols.last().dtype == t {
            rest.push(cols.last().name)
        } else {
            rest
        }
    }
}

/// The positions of the float columns, in order.
pub open spec fn float_positions<N>(cols: Seq<ColumnSpec<N>>) -> Seq<int>
    decreases cols.len(),
{
    if cols.len() == 0 {
        Seq::empty()
    } else {
        let rest = float_positions(cols.drop_last());
        if cols.last().dtype == DataType::Float {
            rest.push(cols.len() - 1)
        } else {
            rest
        }
    }
}

/// The payload of a float cell.
pub open spec fn float_of<N>(v: DataTypeValue<N>) -> N {
    v->Float_0
}

/// Why `as_matrix` refuses a frame, or `None` when every column is numeric
/// and no float cell is null.
pub open spec fn as_matrix_error<N>(f: FrameSpec<N>) -> Option<FrameError> {
    if exists|c: int| 0 <= c < f.columns.len() && #[trigger] f.columns[c].dtype == DataType::String {
        Some(FrameError::EncodingRequired)
    } else if exists|c: int, i: int|
        0 <= c < f.columns.len() && 0 <= i < f.rows && f.columns[c].dtype == DataType::Float
            && #[trigger] f.columns[c].values[i] is Null {
        Some(FrameError::NullValue)
    } else {
        None
    }
}

/// The float cells of `column` with `fill` in place of each null cell.
pub open spec fn filled<N>(column: Seq<DataTypeValue<N>>, fill: N) -> Seq<DataTypeValue<N>> {
    column.map_values(
        |v: DataTypeValue<N>|
            match v {
                DataTypeValue::Null => DataTypeValue::Float(fill),
                _ => v,
            },
    )
}

/// The columns that `get_columns_as_df` keeps for the names `ns`: the
/// identifier column, then the named columns in the order given.
pub open spec fn projected<N>(f: FrameSpec<N>, ns: Seq<Seq<char>>) -> Seq<ColumnSpec<N>>
    decreases ns.len(),
{
    if ns.len() == 0 {
        seq![f.columns[0]]
    } else {
        let rest = projected(f, ns.drop_last());
        if ns.last() == id_name() {
            rest
        } else {
            rest.push(f.columns[position_of(f, ns.last())])
        }
    }
}

/// Why `get_columns_as_df` refuses the names `ns`: the first name, in order,
/// that names no column, or that repeats an earlier one. The identifier
/// column's name is passed over.
pub open spec fn projection_error<N>(f: FrameSpec<N>, ns: Seq<Seq<char>>) -> Option<FrameError>
    decreases ns.len(),
{
    if ns.len() == 0 {
        None
    } else {
        match projection_error(f, ns.drop_last()) {
            Some(e) => Some(e),
            None => {
                let n = ns.last();
                if n == id_name() {
                    None
                } else if !has_column(f, n) {
                    Some(FrameError::UnknownColumn)
                } else if ns.drop_last().contains(n) {
                    Some(FrameError::DuplicateColumn)
                } else {
                    None
                }
            },
        }
    }
}

/// The cells of `values` at the positions `ids`, in that order.
pub open spec fn rows_taken<N>(values: Seq<DataTypeValue<N>>, ids: Seq<usize>) -> Seq<DataTypeValue<N>> {
    Seq::new(ids.len(), |k: int| values[ids[k] as int])
}

proof fn lemma_projection_error_prefix<N>(f: FrameSpec<N>, ns: Seq<Seq<char>>, j: int)
    requires
        0 <= j <= ns.len(),
        projection_error(f, ns.subrange(0, j)) is Some,
    ensures
        projection_error(f, ns) == projection_error(f, ns.subrange(0, j)),
    decreases ns.len(),
{
    if j < ns.len() {
        assert(ns.drop_last().subrange(0, j) =~= ns.subrange(0, j));
        lemma_projection_error_prefix(f, ns.drop_last(), j);
    } else {
        assert(ns.subrange(0, j) =~= ns);
    }
}

/// Whether `new` is the column `old` with each float cell replaced by a text
/// that `render` gives for its number, and the other cells kept.
pub open spec fn is_rendered<N, R: Fn(&N) -> String>(
    old: Seq<DataTypeValue<N>>,
    new: Seq<DataTypeValue<N>>,
    render: R,
) -> bool {
    &&& new.len() == old.len()
    &&& forall|i: int|
        0 <= i < old.len() ==> match #[trigger] old[i] {
            DataTypeValue::Float(x) => new[i] is String && render.ensures((&x,), new[i]->String_0),
            _ => new[i] == old[i],
        }
}

/// Whether a record field forces a float column to become a text column: it
/// is not empty and did not parse as a number.
pub open spec fn widens<N>(dtype: DataType, field: Seq<char>, parsed: Option<N>) -> bool {
    dtype == DataType::Float && field.len() > 0 && parsed is None
}

/// The cell that a record field gives in a column of type `dtype`: null when
/// empty, the parsed number in a float column that can hold it, else the text.
pub open spec fn record_cell<N>(dtype: DataType, field: String, parsed: Option<N>) -> DataTypeValue<N> {
    if field@.len() == 0 {
        DataTypeValue::Null
    } else if dtype == DataType::Float && parsed is Some {
        DataTypeValue::Float(parsed->Some_0)
    } else {
        DataTypeValue::String(field)
    }
}

struct Column<N> {
    name: String,
    dtype: DataType,
    values: Vec<DataTypeValue<N>>,
}

impl<N> View for Column<N> {
    type V = ColumnSpec<N>;

    closed spec fn view(&self) -> ColumnSpec<N> {
        ColumnSpec { name: self.name@, dtype: self.dtype, values: self.values@ }
    }
}

/// A table of named, typed columns that share one number of rows. The first
/// column, named "ids", holds each row's identifier.
pub struct DataFrame<N> {
    columns: Vec<Column<N>>,
    len: usize,
}

impl<N> View for DataFrame<N> {
    type V = FrameSpec<N>;

    closed spec fn view(&self) -> FrameSpec<N> {
        FrameSpec { columns: self.columns@.map_values(|c: Column<N>| c@), rows: self.len as nat }
    }
}

fn same_name(a: &String, b: &String) -> (r: bool)
    ensures
        r == (a@ == b@),
{
    *a == *b
}

impl<N: Copy> Column<N> {
    fn duplicate(&self) -> (r: Self)
        ensures
            r@ == self@,
    {
        let mut values: Vec<DataTypeValue<N>> = Vec::new();
        let mut i: usize = 0;
        while i < self.values.len()
            invariant
                i <= self.values.len(),
                values@ == self.values@.subrange(0, i as int),
            decreases self.values.len() - i,
        {
            values.push(self.values[i].duplicate());
            i = i + 1;
        }
        assert(values@ == self.values@);
        Column { name: self.name.clone(), dtype: self.dtype, values }
    }
}

impl<N: Copy> DataFrame<N> {
    pub open spec fn wf(&self) -> bool {
        frame_wf(self@)
    }

    /// An empty frame: no rows, and only the identifier column.
    pub fn new() -> (r: Self)
        ensures
            r.wf(),
            r@.rows == 0,
            r@.columns.len() == 1,
    {
        let name = String::from_str(DataFrame::<N>::id_column());
        let r = DataFrame {
            columns: vec![Column { name, dtype: DataType::Id, values: Vec::new() }],
            len: 0,
        };
        assert(r@.columns[0].values =~= id_values::<N>(0));
        r
    }

    /// The reserved name of the identifier column.
    pub fn id_column() -> (r: &'static str)
        ensures
            r@ == id_name(),
    {
        proof {
            reveal_strlit("ids");
        }
        "ids"
    }

    /// The number of rows.
    pub fn len(&self) -> (r: usize)
        ensures
            r == self@.rows,
    {
        self.len
    }

    /// A copy of the frame.
    pub fn duplicate(&self) -> (r: Self)
        ensures
            r@ == self@,
    {
        let mut columns: Vec<Column<N>> = Vec::new();
        let mut i: usize = 0;
        while i < self.columns.len()
            invariant
                i <= self.columns.len(),
                columns.len() == i,
                forall|j: int| 0 <= j < i ==> #[trigger] columns@[j]@ == self.columns@[j]@,
            decreases self.columns.len() - i,
        {
            columns.push(self.columns[i].duplicate());
            i = i + 1;
        }
        let r = DataFrame { columns, len: self.len };
        assert(r@.columns =~= self@.columns);
        r
    }

    /// The position of the column named `name`.
    fn find(&self, name: &String) -> (r: Option<usize>)
        requires
            self.wf(),
        ensures
            match r {
                Some(c) => c < self@.columns.len() && self@.columns[c as int].name == name@
                    && position_of(self@, name@) == c,
                None => !has_column(self@, name@),
            },
    {
        let mut c: usize = 0;
        while c < self.columns.len()
            invariant
                self.wf(),
                c <= self.columns.len(),
                forall|d: int| 0 <= d < c ==> self@.columns[d].name != name@,
            decreases self.columns.len() - c,
        {
            if same_name(&self.columns[c].name, name) {
                assert(self@.columns[c as int].name == name@);
                assert(has_column(self@, name@));
                assert(self@.columns[position_of(self@, name@)].name == name@);
                return Some(c);
            }
            c = c + 1;
        }
        None
    }
    fn is_id_name(name: &String) -> (r: bool)
        ensures
            r == (name@ == id_name()),
    {
        let id = String::from_str(DataFrame::<N>::id_column());
        same_name(name, &id)
    }

    fn all_fit(values: &Vec<DataTypeValue<N>>, dtype: DataType) -> (r: bool)
        ensures
            r == (forall|i: int| 0 <= i < values@.len() ==> fits(dtype, #[trigger] values@[i])),
    {
        let mut i: usize = 0;
        while i < values.len()
            invariant
                i <= values.len(),
                forall|j: int| 0 <= j < i ==> fits(dtype, #[trigger] values@[j]),
            decreases values.len() - i,
        {
            if !values[i].fits_type(dtype) {
                return false;
            }
            i = i + 1;
        }
        true
    }

    /// Appends a column. It is refused when the name or the type is that of
    /// the identifier column, when there is not one value per row, when the
    /// name is taken, or when a value does not fit the type.
    pub fn insert_column(
        &mut self,
        column_name: &str,
        values: &Vec<DataTypeValue<N>>,
        dtype: &DataType,
    ) -> (r: Result<(), FrameError>)
        requires
            old(self).wf(),
        ensures
            final(self).wf(),
            match insert_column_error(old(self)@, column_name@, values@, *dtype) {
                Some(e) => r == Err::<(), FrameError>(e) && final(self)@ == old(self)@,
                None => r is Ok && final(self)@ == (FrameSpec {
                    columns: old(self)@.columns.push(
                        ColumnSpec { name: column_name@, dtype: *dtype, values: values@ },
                    ),
                    rows: old(self)@.rows,
                }),
            },
    {
        let name = String::from_str(column_name);
        if DataFrame::<N>::is_id_name(&name) || *dtype == DataType::Id {
            return Err(FrameError::ReservedColumn);
        }
        if values.len() != self.len {
            return Err(FrameError::LengthMismatch);
        }
        if self.find(&name).is_some() {
            return Err(FrameError::DuplicateColumn);
        }
        if !DataFrame::<N>::all_fit(values, *dtype) {
            return Err(FrameError::TypeMismatch);
        }
        let mut copy: Vec<DataTypeValue<N>> = Vec::new();
        let mut i: usize = 0;
        while i < values.len()
            invariant
                i <= values.len(),
                copy@ == values@.subrange(0, i as int),
            decreases values.len() - i,
        {
            copy.push(values[i].duplicate());
            i = i + 1;
        }
        assert(copy@ == values@);
        let ghost before = self@;
        self.columns.push(Column { name, dtype: *dtype, values: copy });
        assert(self@.columns =~= before.columns.push(
            ColumnSpec { name: column_name@, dtype: *dtype, values: values@ },
        ));
        Ok(())
    }

    /// The type tag and the cells of the column named `column_name`.
    pub fn get_column(&self, column_name: &str) -> (r: Result<
        (&DataType, &Vec<DataTypeValue<N>>),
        FrameError,
    >)
        requires
            self.wf(),
        ensures
            has_column(self@, column_name@) ==> r is Ok,
            !has_column(self@, column_name@) ==> r == Err::<
                (&DataType, &Vec<DataTypeValue<N>>),
                FrameError,
            >(FrameError::UnknownColumn),
            r is Ok ==> {
                let c = self@.columns[position_of(self@, column_name@)];
                &&& *r->Ok_0.0 == c.dtype
                &&& r->Ok_0.1@ == c.values
            },
    {
        let name = String::from_str(column_name);
        match self.find(&name) {
            Some(c) => Ok((&self.columns[c].dtype, &self.columns[c].values)),
            None => Err(FrameError::UnknownColumn),
        }
    }

    /// The name, type tag and cells of the column at position `index`.
    pub fn get_column_by_index(&self, index: usize) -> (r: Result<
        (&String, &DataType, &Vec<DataTypeValue<N>>),
        FrameError,
    >)
        requires
            self.wf(),
        ensures
            index < self@.columns.len() ==> r is Ok,
            index >= self@.columns.len() ==> r == Err::<
                (&String, &DataType, &Vec<DataTypeValue<N>>),
                FrameError,
            >(FrameError::UnknownColumn),
            r is Ok ==> {
                let c = self@.columns[index as int];
                &&& r->Ok_0.0@ == c.name
                &&& *r->Ok_0.1 == c.dtype
                &&& r->Ok_0.2@ == c.values
            },
    {
        if index < self.columns.len() {
            let c = &self.columns[index];
            Ok((&c.name, &c.dtype, &c.values))
        } else {
            Err(FrameError::UnknownColumn)
        }
    }

    /// The names of the columns, in order; the identifier column comes first.
    pub fn columns(&self) -> (r: Vec<String>)
        requires
            self.wf(),
        ensures
            r@.map_values(|s: String| s@) == column_names(self@),
    {
        let mut names: Vec<String> = Vec::new();
        let mut i: usize = 0;
        while i < self.columns.len()
            invariant
                i <= self.columns.len(),
                names.len() == i,
                forall|j: int| 0 <= j < i ==> #[trigger] names@[j]@ == self@.columns[j].name,
            decreases self.columns.len() - i,
        {
            names.push(self.columns[i].name.clone());
            i = i + 1;
        }
        assert(names@.map_values(|s: String| s@) =~= column_names(self@));
        names
    }

    /// Drops the column named `column_name`; the others keep their order.
    /// The identifier column cannot be removed.
    pub fn remove_column(&mut self, column_name: &str) -> (r: Result<(), FrameError>)
        requires
            old(self).wf(),
        ensures
            final(self).wf(),
            column_name@ == id_name() ==> r == Err::<(), FrameError>(FrameError::ReservedColumn),
            column_name@ != id_name() && !has_column(old(self)@, column_name@) ==> r == Err::<
                (),
                FrameError,
            >(FrameError::UnknownColumn),
            r is Err ==> final(self)@ == old(self)@,
            column_name@ != id_name() && has_column(old(self)@, column_name@) ==> r is Ok
                && final(self)@ == (FrameSpec {
                columns: old(self)@.columns.remove(position_of(old(self)@, column_name@)),
                rows: old(self)@.rows,
            }),
    {
        let name = String::from_str(column_name);
        if DataFrame::<N>::is_id_name(&name) {
            return Err(FrameError::ReservedColumn);
        }
        match self.find(&name) {
            None => Err(FrameError::UnknownColumn),
            Some(c) => {
                let ghost before = self@;
                self.columns.remove(c);
                assert(self@.columns =~= before.columns.remove(c as int));
                assert forall|j: int| 0 <= j < self@.columns.len() implies #[trigger] self@.columns[j]
                    == if j < c {
                    before.columns[j]
                } else {
                    before.columns[j + 1]
                } by {}
                Ok(())
            },
        }
    }
    fn find_entry(row: &Vec<(String, DataTypeValue<N>)>, name: &String) -> (r: Option<usize>)
        ensures
            match r {
                Some(k) => k < row@.len() && row@[k as int].0@ == name@,
                None => !names_entry(row@, name@),
            },
    {
        let mut k: usize = 0;
        while k < row.len()
            invariant
                k <= row.len(),
                forall|l: int| 0 <= l < k ==> row@[l].0@ != name@,
            decreases row.len() - k,
        {
            if same_name(&row[k].0, name) {
                return Some(k);
            }
            k = k + 1;
        }
        None
    }

    /// Appends one row, given as (column name, value) entries. It is refused
    /// when an entry names the identifier column or no column, when a column
    /// is named twice or not at all, or when a value does not fit its column.
    /// The identifier column receives the new row's position.
    pub fn insert_row(&mut self, row: &Vec<(String, DataTypeValue<N>)>) -> (r: Result<
        (),
        FrameError,
    >)
        requires
            old(self).wf(),
            old(self)@.rows < usize::MAX,
        ensures
            final(self).wf(),
            match insert_row_error(old(self)@, row@) {
                Some(e) => r == Err::<(), FrameError>(e) && final(self)@ == old(self)@,
                None => {
                    &&& r is Ok
                    &&& final(self)@.rows == old(self)@.rows + 1
                    &&& final(self)@.columns.len() == old(self)@.columns.len()
                    &&& final(self)@.columns[0].values == id_values::<N>(old(self)@.rows + 1)
                    &&& forall|c: int|
                        1 <= c < old(self)@.columns.len() ==> #[trigger] final(self)@.columns[c]
                            == (ColumnSpec {
                            name: old(self)@.columns[c].name,
                            dtype: old(self)@.columns[c].dtype,
                            values: old(self)@.columns[c].values.push(
                                row@[entry_index(row@, old(self)@.columns[c].name)].1,
                            ),
                        })
                },
            },
    {
        let ghost f = self@;
        let ghost rs = row@;
        let mut k: usize = 0;
        while k < row.len()
            invariant
                self.wf(),
                self@ == f,
                row@ == rs,
                k <= row.len(),
                forall|l: int| 0 <= l < k ==> #[trigger] rs[l].0@ != id_name(),
            decreases row.len() - k,
        {
            if DataFrame::<N>::is_id_name(&row[k].0) {
                assert(rs[k as int].0@ == id_name());
                return Err(FrameError::ReservedColumn);
            }
            k = k + 1;
        }
        k = 0;
        while k < row.len()
            invariant
                self.wf(),
                self@ == f,
                row@ == rs,
                k <= row.len(),
                forall|l: int| 0 <= l < rs.len() ==> #[trigger] rs[l].0@ != id_name(),
                forall|l: int| 0 <= l < k ==> has_column(f, #[trigger] rs[l].0@),
            decreases row.len() - k,
        {
            if self.find(&row[k].0).is_none() {
                assert(!has_column(f, rs[k as int].0@));
                return Err(FrameError::UnknownColumn);
            }
            k = k + 1;
        }
        k = 0;
        while k < row.len()
            invariant
                self.wf(),
                self@ == f,
                row@ == rs,
                k <= row.len(),
                forall|l: int| 0 <= l < rs.len() ==> #[trigger] rs[l].0@ != id_name(),
                forall|l: int| 0 <= l < rs.len() ==> has_column(f, #[trigger] rs[l].0@),
                forall|a: int, b: int|
                    0 <= a < b < rs.len() && a < k ==> #[trigger] rs[a].0@ != #[trigger] rs[b].0@,
            decreases row.len() - k,
        {
            let mut l: usize = k + 1;
            while l < row.len()
                invariant
                    self.wf(),
                    self@ == f,
                    row@ == rs,
                    forall|l: int| 0 <= l < rs.len() ==> #[trigger] rs[l].0@ != id_name(),
                    forall|l: int| 0 <= l < rs.len() ==> has_column(f, #[trigger] rs[l].0@),
                    k < row.len(),
                    k + 1 <= l <= row.len(),
                    forall|a: int, b: int|
                        0 <= a < b < rs.len() && a < k ==> #[trigger] rs[a].0@ != #[trigger] rs[b].0@,
                    forall|b: int| k < b < l ==> rs[k as int].0@ != #[trigger] rs[b].0@,
                decreases row.len() - l,
            {
                if same_name(&row[k].0, &row[l].0) {
                    assert(rs[k as int].0@ == rs[l as int].0@);
                    return Err(FrameError::DuplicateColumn);
                }
                l = l + 1;
            }
            k = k + 1;
        }
        let mut c: usize = 1;
        while c < self.columns.len()
            invariant
                self.wf(),
                self@ == f,
                row@ == rs,
                1 <= c <= self.columns.len(),
                forall|l: int| 0 <= l < rs.len() ==> #[trigger] rs[l].0@ != id_name(),
                forall|l: int| 0 <= l < rs.len() ==> has_column(f, #[trigger] rs[l].0@),
                forall|a: int, b: int|
                    0 <= a < b < rs.len() ==> #[trigger] rs[a].0@ != #[trigger] rs[b].0@,
                forall|d: int| 1 <= d < c ==> names_entry(rs, #[trigger] f.columns[d].name),
            decreases self.columns.len() - c,
        {
            if DataFrame::<N>::find_entry(row, &self.columns[c].name).is_none() {
                assert(!names_entry(rs, f.columns[c as int].name));
                return Err(FrameError::MissingColumn);
            }
            c = c + 1;
        }
        k = 0;
        while k < row.len()
            invariant
                self.wf(),
                self@ == f,
                row@ == rs,
                k <= row.len(),
                forall|l: int| 0 <= l < rs.len() ==> #[trigger] rs[l].0@ != id_name(),
                forall|l: int| 0 <= l < rs.len() ==> has_column(f, #[trigger] rs[l].0@),
                forall|a: int, b: int|
                    0 <= a < b < rs.len() ==> #[trigger] rs[a].0@ != #[trigger] rs[b].0@,
                forall|d: int| 1 <= d < f.columns.len() ==> names_entry(rs, #[trigger] f.columns[d].name),
                forall|l: int|
                    0 <= l < k ==> fits(f.columns[position_of(f, #[trigger] rs[l].0@)].dtype, rs[l].1),
            decreases row.len() - k,
        {
            let p = self.find(&row[k].0);
            let p = p.unwrap();
            if !row[k].1.fits_type(self.columns[p].dtype) {
                return Err(FrameError::TypeMismatch);
            }
            k = k + 1;
        }
        assert(insert_row_error(f, rs) is None);
        c = 1;
        while c < self.columns.len()
            invariant
                1 <= c <= self.columns.len(),
                self.columns.len() == f.columns.len(),
                self.len == f.rows,
                frame_wf(f),
                self@.columns[0] == f.columns[0],
                row@ == rs,
                forall|a: int, b: int|
                    0 <= a < b < rs.len() ==> #[trigger] rs[a].0@ != #[trigger] rs[b].0@,
                forall|d: int| 1 <= d < f.columns.len() ==> names_entry(rs, #[trigger] f.columns[d].name),
                forall|d: int|
                    1 <= d < c ==> #[trigger] self@.columns[d] == (ColumnSpec {
                        name: f.columns[d].name,
                        dtype: f.columns[d].dtype,
                        values: f.columns[d].values.push(rs[entry_index(rs, f.columns[d].name)].1),
                    }),
                forall|d: int| c <= d < f.columns.len() ==> #[trigger] self@.columns[d] == f.columns[d],
            decreases self.columns.len() - c,
        {
            assert(self@.columns[c as int] == f.columns[c as int]);
            assert(names_entry(rs, f.columns[c as int].name));
            let e = DataFrame::<N>::find_entry(row, &self.columns[c].name);
            let e = e.unwrap();
            proof {
                let q = entry_index(rs, f.columns[c as int].name);
                assert(rs[q].0@ == f.columns[c as int].name);
                assert(q == e) by {
                    if q < e {
                        assert(rs[q].0@ == rs[e as int].0@);
                    } else if e < q {
                        assert(rs[e as int].0@ == rs[q].0@);
                    }
                }
            }
            let v = row[e].1.duplicate();
            let ghost before = self@;
            self.columns[c].values.push(v);
            assert forall|d: int| 0 <= d < f.columns.len() && d != c implies #[trigger] self@.columns[d] == before.columns[d] by {}
            c = c + 1;
        }
        let id = self.len;
        let ghost mid = self@;
        self.columns[0].values.push(DataTypeValue::Id(id));
        self.len = self.len + 1;
        assert forall|d: int| 1 <= d < f.columns.len() implies #[trigger] self@.columns[d] == mid.columns[d] by {}
        assert(self@.columns[0].values =~= id_values::<N>(f.rows + 1));
        proof {
            assert forall|d: int, i: int|
                0 <= d < self@.columns.len() && 0 <= i < self@.rows implies fits(
                self@.columns[d].dtype,
                #[trigger] self@.columns[d].values[i],
            ) by {
                if d >= 1 {
                    assert(self@.columns[d].values == f.columns[d].values.push(rs[entry_index(rs, f.columns[d].name)].1));
                    if i == f.rows {
                        let q = entry_index(rs, f.columns[d].name);
                        assert(rs[q].0@ == f.columns[d].name);
                        let p = position_of(f, rs[q].0@);
                        assert(f.columns[p].name == f.columns[d].name);
                        assert(fits(f.columns[p].dtype, rs[q].1));
                    } else {
                        assert(self@.columns[d].values[i] == f.columns[d].values[i]);
                    }
                }
            }
        }
        Ok(())
    }
    /// The cell of the column named `column_name` at row `row_index`.
    pub fn get_cell_value(&self, column_name: &str, row_index: usize) -> (r: Result<
        &DataTypeValue<N>,
        FrameError,
    >)
        requires
            self.wf(),
        ensures
            !has_column(self@, column_name@) ==> r == Err::<&DataTypeValue<N>, FrameError>(
                FrameError::UnknownColumn,
            ),
            has_column(self@, column_name@) && row_index >= self@.rows ==> r == Err::<
                &DataTypeValue<N>,
                FrameError,
            >(FrameError::RowOutOfRange),
            has_column(self@, column_name@) && row_index < self@.rows ==> r is Ok && *r->Ok_0
                == self@.columns[position_of(self@, column_name@)].values[row_index as int],
    {
        let name = String::from_str(column_name);
        match self.find(&name) {
            None => Err(FrameError::UnknownColumn),
            Some(c) => {
                if row_index < self.len {
                    assert(self@.columns[c as int].values.len() == self@.rows);
                    Ok(&self.columns[c].values[row_index])
                } else {
                    Err(FrameError::RowOutOfRange)
                }
            },
        }
    }

    /// Replaces one cell. The identifier column cannot be changed, and the new
    /// value must fit the column's type.
    pub fn modify_cell(
        &mut self,
        column_name: &str,
        row_index: usize,
        new_value: DataTypeValue<N>,
    ) -> (r: Result<(), FrameError>)
        requires
            old(self).wf(),
        ensures
            final(self).wf(),
            r is Err ==> final(self)@ == old(self)@,
            column_name@ == id_name() ==> r == Err::<(), FrameError>(FrameError::ReservedColumn),
            column_name@ != id_name() && !has_column(old(self)@, column_name@) ==> r == Err::<
                (),
                FrameError,
            >(FrameError::UnknownColumn),
            column_name@ != id_name() && has_column(old(self)@, column_name@) ==> {
                let p = position_of(old(self)@, column_name@);
                let c = old(self)@.columns[p];
                if row_index >= old(self)@.rows {
                    r == Err::<(), FrameError>(FrameError::RowOutOfRange)
                } else if !fits(c.dtype, new_value) {
                    r == Err::<(), FrameError>(FrameError::TypeMismatch)
                } else {
                    r is Ok && final(self)@ == (FrameSpec {
                        columns: old(self)@.columns.update(
                            p,
                            ColumnSpec {
                                name: c.name,
                                dtype: c.dtype,
                                values: c.values.update(row_index as int, new_value),
                            },
                        ),
                        rows: old(self)@.rows,
                    })
                }
            },
    {
        let name = String::from_str(column_name);
        if DataFrame::<N>::is_id_name(&name) {
            return Err(FrameError::ReservedColumn);
        }
        match self.find(&name) {
            None => Err(FrameError::UnknownColumn),
            Some(c) => {
                if row_index >= self.len {
                    return Err(FrameError::RowOutOfRange);
                }
                if !new_value.fits_type(self.columns[c].dtype) {
                    return Err(FrameError::TypeMismatch);
                }
                let ghost before = self@;
                self.columns[c].values.set(row_index, new_value);
                assert(self@.columns =~= before.columns.update(
                    c as int,
                    ColumnSpec {
                        name: before.columns[c as int].name,
                        dtype: before.columns[c as int].dtype,
                        values: before.columns[c as int].values.update(row_index as int, new_value),
                    },
                ));
                Ok(())
            },
        }
    }

    /// Turns the column named `column_name` into a text column: each float
    /// cell becomes the text that `render` gives for its number; null cells
    /// and text cells stay as they are.
    pub fn convert_column_values_to_string<R: Fn(&N) -> String>(
        &mut self,
        column_name: &str,
        render: &R,
    ) -> (r: Result<(), FrameError>)
        requires
            old(self).wf(),
            forall|x: &N| render.requires((x,)),
        ensures
            final(self).wf(),
            r is Err ==> final(self)@ == old(self)@,
            column_name@ == id_name() ==> r == Err::<(), FrameError>(FrameError::ReservedColumn),
            column_name@ != id_name() && !has_column(old(self)@, column_name@) ==> r == Err::<
                (),
                FrameError,
            >(FrameError::UnknownColumn),
            column_name@ != id_name() && has_column(old(self)@, column_name@) ==> {
                let p = position_of(old(self)@, column_name@);
                let c = old(self)@.columns[p];
                let d = final(self)@.columns[p];
                &&& r is Ok
                &&& final(self)@.rows == old(self)@.rows
                &&& final(self)@.columns.len() == old(self)@.columns.len()
                &&& forall|q: int|
                    0 <= q < old(self)@.columns.len() && q != p ==> #[trigger] final(self)@.columns[q]
                        == old(self)@.columns[q]
                &&& d.name == c.name
                &&& d.dtype == DataType::String
                &&& d.values.len() == c.values.len()
                &&& forall|i: int|
                    0 <= i < c.values.len() ==> match #[trigger] c.values[i] {
                        DataTypeValue::Float(x) => d.values[i] is String && render.ensures(
                            (&x,),
                            d.values[i]->String_0,
                        ),
                        _ => d.values[i] == c.values[i],
                    }
            },
    {
        let name = String::from_str(column_name);
        if DataFrame::<N>::is_id_name(&name) {
            return Err(FrameError::ReservedColumn);
        }
        let p = match self.find(&name) {
            None => { return Err(FrameError::UnknownColumn); },
            Some(p) => p,
        };
        let ghost f = self@;
        let mut i: usize = 0;
        while i < self.len
            invariant
                frame_wf(f),
                1 <= p < f.columns.len(),
                self.len == f.rows,
                self.columns.len() == f.columns.len(),
                forall|x: &N| render.requires((x,)),
                i <= self.len,
                forall|q: int| 0 <= q < f.columns.len() && q != p ==> #[trigger] self@.columns[q] == f.columns[q],
                self@.columns[p as int].name == f.columns[p as int].name,
                self@.columns[p as int].dtype == f.columns[p as int].dtype,
                self@.columns[p as int].values.len() == f.rows,
                forall|j: int| i <= j < f.rows ==> #[trigger] self@.columns[p as int].values[j] == f.columns[p as int].values[j],
                forall|j: int|
                    0 <= j < i ==> match #[trigger] f.columns[p as int].values[j] {
                        DataTypeValue::Float(x) => self@.columns[p as int].values[j] is String && render.ensures(
                            (&x,),
                            self@.columns[p as int].values[j]->String_0,
                        ),
                        _ => self@.columns[p as int].values[j] == f.columns[p as int].values[j],
                    },
            decreases self.len - i,
        {
            let cell: Option<N> = match &self.columns[p].values[i] {
                DataTypeValue::Float(x) => Some(*x),
                _ => None,
            };
            if let Some(x) = cell {
                let text = render(&x);
                let ghost before = self@;
                self.columns[p].values.set(i, DataTypeValue::String(text));
                assert forall|q: int| 0 <= q < f.columns.len() && q != p implies #[trigger] self@.columns[q] == before.columns[q] by {}
            }
            i = i + 1;
        }
        let ghost mid = self@;
        self.columns[p].dtype = DataType::String;
        proof {
            assert forall|q: int| 0 <= q < f.columns.len() && q != p implies #[trigger] self@.columns[q] == f.columns[q] by {
                assert(self@.columns[q] == mid.columns[q]);
            }
            assert(self@.columns[p as int].values == mid.columns[p as int].values);
            assert forall|q: int, j: int|
                0 <= q < self@.columns.len() && 0 <= j < self@.rows implies fits(
                self@.columns[q].dtype,
                #[trigger] self@.columns[q].values[j],
            ) by {
                if q == p {
                    assert(fits(f.columns[q].dtype, f.columns[q].values[j]));
                    assert(f.columns[q].dtype != DataType::Id);
                } else {
                    assert(fits(f.columns[q].dtype, f.columns[q].values[j]));
                }
            }
            assert forall|q: int, d: int|
                0 <= q < self@.columns.len() && 0 <= d < self@.columns.len() && q != d
                    implies #[trigger] self@.columns[q].name != #[trigger] self@.columns[d].name by {
                assert(f.columns[q].name != f.columns[d].name);
            }
        }
        Ok(())
    }

    fn names_of(&self, t: DataType) -> (r: Vec<String>)
        ensures
            r@.map_values(|s: String| s@) == names_of_type(self@.columns, t),
    {
        let mut names: Vec<String> = Vec::new();
        let mut i: usize = 0;
        while i < self.columns.len()
            invariant
                i <= self.columns.len(),
                names@.map_values(|s: String| s@) == names_of_type(self@.columns.subrange(0, i as int), t),
            decreases self.columns.len() - i,
        {
            assert(self@.columns.subrange(0, i + 1).drop_last() =~= self@.columns.subrange(0, i as int));
            if self.columns[i].dtype == t {
                names.push(self.columns[i].name.clone());
            }
            i = i + 1;
            assert(names@.map_values(|s: String| s@) =~= names_of_type(self@.columns.subrange(0, i as int), t));
        }
        assert(self@.columns.subrange(0, i as int) =~= self@.columns);
        names
    }

    /// The names of the text columns, in order.
    pub fn categorical_columns(&self) -> (r: Vec<String>)
        ensures
            r@.map_values(|s: String| s@) == names_of_type(self@.columns, DataType::String),
    {
        self.names_of(DataType::String)
    }

    /// The names of the float columns, in order.
    pub fn numeric_columns(&self) -> (r: Vec<String>)
        ensures
            r@.map_values(|s: String| s@) == names_of_type(self@.columns, DataType::Float),
    {
        self.names_of(DataType::Float)
    }
    /// A frame with `n` rows and only the identifier column.
    fn with_rows(n: usize) -> (r: Self)
        ensures
            r.wf(),
            r@.rows == n,
            r@.columns.len() == 1,
    {
        let mut ids: Vec<DataTypeValue<N>> = Vec::new();
        let mut i: usize = 0;
        while i < n
            invariant
                i <= n,
                ids@ == id_values::<N>(i as nat),
            decreases n - i,
        {
            ids.push(DataTypeValue::Id(i));
            i = i + 1;
            assert(ids@ =~= id_values::<N>(i as nat));
        }
        let name = String::from_str(DataFrame::<N>::id_column());
        DataFrame { columns: vec![Column { name, dtype: DataType::Id, values: ids }], len: n }
    }

    /// A new frame with the identifier column and the columns named in
    /// `columns`, in that order; the identifier column's name is passed over.
    /// It is refused at the first name that names no column or repeats one.
    pub fn get_columns_as_df(&self, columns: &Vec<String>) -> (r: Result<DataFrame<N>, FrameError>)
        requires
            self.wf(),
        ensures
            ({
                let ns = columns@.map_values(|s: String| s@);
                match projection_error(self@, ns) {
                    Some(e) => r == Err::<DataFrame<N>, FrameError>(e),
                    None => r is Ok && r->Ok_0.wf() && r->Ok_0@ == (FrameSpec {
                        columns: projected(self@, ns),
                        rows: self@.rows,
                    }),
                }
            }),
    {
        let ghost f = self@;
        let ghost ns = columns@.map_values(|s: String| s@);
        let mut out = DataFrame::<N>::with_rows(self.len);
        assert(out@.columns =~= projected(f, ns.subrange(0, 0)));
        let mut i: usize = 0;
        while i < columns.len()
            invariant
                self.wf(),
                self@ == f,
                ns == columns@.map_values(|s: String| s@),
                i <= columns.len(),
                out.wf(),
                out@.rows == f.rows,
                projection_error(f, ns.subrange(0, i as int)) is None,
                out@.columns == projected(f, ns.subrange(0, i as int)),
                forall|n: Seq<char>|
                    has_column(out@, n) <==> (n == id_name() || ns.subrange(0, i as int).contains(n)),
            decreases columns.len() - i,
        {
            let ghost sub = ns.subrange(0, i as int);
            let ghost next = ns.subrange(0, i + 1);
            assert(next.drop_last() =~= sub);
            assert(next.last() == columns@[i as int]@);
            assert forall|n: Seq<char>| next.contains(n) <==> (sub.contains(n) || n == columns@[i as int]@) by {
                if next.contains(n) {
                    let j = choose|j: int| 0 <= j < next.len() && next[j] == n;
                    if j < i {
                        assert(sub[j] == n);
                    }
                }
                if sub.contains(n) {
                    let j = choose|j: int| 0 <= j < sub.len() && sub[j] == n;
                    assert(next[j] == n);
                }
                if n == columns@[i as int]@ {
                    assert(next[i as int] == n);
                }
            }
            if DataFrame::<N>::is_id_name(&columns[i]) {
                assert(has_column(out@, id_name())) by {
                    assert(out@.columns[0].name == id_name());
                }
            } else {
                let (dtype, values) = match self.get_column(columns[i].as_str()) {
                    Err(e) => {
                        proof {
                            assert(projection_error(f, next) == Some(FrameError::UnknownColumn));
                            lemma_projection_error_prefix(f, ns, i + 1);
                        }
                        return Err(e);
                    },
                    Ok(found) => found,
                };
                let ghost p = position_of(f, columns@[i as int]@);
                proof {
                    assert(f.columns[p].name == columns@[i as int]@);
                    assert(p != 0);
                    assert(f.columns[p].values.len() == f.rows);
                    assert forall|j: int| 0 <= j < values@.len() implies fits(*dtype, #[trigger] values@[j]) by {
                        assert(fits(f.columns[p].dtype, f.columns[p].values[j]));
                    }
                }
                let ghost before = out@;
                match out.insert_column(columns[i].as_str(), values, dtype) {
                    Err(e) => {
                        proof {
                            assert(has_column(before, columns@[i as int]@));
                            assert(projection_error(f, next) == Some(FrameError::DuplicateColumn));
                            lemma_projection_error_prefix(f, ns, i + 1);
                        }
                        return Err(e);
                    },
                    Ok(()) => {},
                }
                proof {
                    assert(out@.columns == before.columns.push(f.columns[p]));
                    assert forall|n: Seq<char>|
                        has_column(out@, n) <==> (n == id_name() || next.contains(n)) by {
                        if has_column(out@, n) {
                            let d = choose|d: int| 0 <= d < out@.columns.len() && out@.columns[d].name == n;
                            if d < before.columns.len() {
                                assert(has_column(before, n));
                            }
                        }
                        if has_column(before, n) {
                            let d = choose|d: int| 0 <= d < before.columns.len() && before.columns[d].name == n;
                            assert(out@.columns[d].name == n);
                        }
                        if n == columns@[i as int]@ {
                            assert(out@.columns[before.columns.len() as int].name == n);
                        }
                    }
                }
            }
            i = i + 1;
        }
        assert(ns.subrange(0, i as int) =~= ns);
        Ok(out)
    }

    /// A new frame with the rows at the positions `ids`, in that order, and
    /// the same columns. The identifier column is numbered afresh.
    pub fn get_rows_as_df(&self, ids: &Vec<usize>) -> (r: Result<DataFrame<N>, FrameError>)
        requires
            self.wf(),
        ensures
            (exists|k: int| 0 <= k < ids@.len() && #[trigger] ids@[k] >= self@.rows) ==> r == Err::<
                DataFrame<N>,
                FrameError,
            >(FrameError::RowOutOfRange),
            (forall|k: int| 0 <= k < ids@.len() ==> #[trigger] ids@[k] < self@.rows) ==> {
                &&& r is Ok
                &&& r->Ok_0.wf()
                &&& r->Ok_0@.rows == ids@.len()
                &&& r->Ok_0@.columns.len() == self@.columns.len()
                &&& forall|c: int|
                    1 <= c < self@.columns.len() ==> #[trigger] r->Ok_0@.columns[c] == (ColumnSpec {
                        name: self@.columns[c].name,
                        dtype: self@.columns[c].dtype,
                        values: rows_taken(self@.columns[c].values, ids@),
                    })
            },
    {
        let ghost f = self@;
        let mut k: usize = 0;
        while k < ids.len()
            invariant
                k <= ids.len(),
                forall|j: int| 0 <= j < k ==> #[trigger] ids@[j] < f.rows,
                self@ == f,
            decreases ids.len() - k,
        {
            if ids[k] >= self.len {
                return Err(FrameError::RowOutOfRange);
            }
            k = k + 1;
        }
        let mut out = DataFrame::<N>::with_rows(ids.len());
        let mut c: usize = 1;
        while c < self.columns.len()
            invariant
                self.wf(),
                self@ == f,
                forall|j: int| 0 <= j < ids@.len() ==> #[trigger] ids@[j] < f.rows,
                1 <= c <= self.columns.len(),
                out.wf(),
                out@.rows == ids@.len(),
                out@.columns.len() == c,
                forall|d: int|
                    1 <= d < c ==> #[trigger] out@.columns[d] == (ColumnSpec {
                        name: f.columns[d].name,
                        dtype: f.columns[d].dtype,
                        values: rows_taken(f.columns[d].values, ids@),
                    }),
            decreases self.columns.len() - c,
        {
            let mut values: Vec<DataTypeValue<N>> = Vec::new();
            let mut j: usize = 0;
            assert(f.columns[c as int].values.len() == f.rows);
            while j < ids.len()
                invariant
                    self.wf(),
                    self@ == f,
                    1 <= c < self.columns.len(),
                    forall|j: int| 0 <= j < ids@.len() ==> #[trigger] ids@[j] < f.rows,
                    f.columns[c as int].values.len() == f.rows,
                    j <= ids.len(),
                    values@ == rows_taken(f.columns[c as int].values, ids@.subrange(0, j as int)),
                decreases ids.len() - j,
            {
                let v = self.columns[c].values[ids[j]].duplicate();
                values.push(v);
                j = j + 1;
                assert(values@ =~= rows_taken(f.columns[c as int].values, ids@.subrange(0, j as int)));
            }
            assert(ids@.subrange(0, j as int) =~= ids@);
            let ghost before = out@;
            proof {
                assert(f.columns[c as int].name != id_name());
                assert(!has_column(before, f.columns[c as int].name)) by {
                    if has_column(before, f.columns[c as int].name) {
                        let d = choose|d: int| 0 <= d < before.columns.len() && before.columns[d].name == f.columns[c as int].name;
                        if d == 0 {
                            assert(before.columns[0].name == id_name());
                        } else {
                            assert(before.columns[d].name == f.columns[d].name);
                        }
                    }
                }
                assert forall|i: int| 0 <= i < values@.len() implies fits(f.columns[c as int].dtype, #[trigger] values@[i]) by {
                    assert(fits(f.columns[c as int].dtype, f.columns[c as int].values[ids@[i] as int]));
                }
            }
            let r = out.insert_column(self.columns[c].name.as_str(), &values, &self.columns[c].dtype);
            assert(r is Ok);
            c = c + 1;
        }
        Ok(out)
    }
    /// The float columns as a dense matrix, one row per frame row, columns in
    /// frame order; with `include_ids`, each row starts with the number that
    /// `id_value` gives for the row's identifier. It is refused while a text
    /// column remains or a float cell is null.
    pub fn as_matrix<F: Fn(usize) -> N>(&self, include_ids: bool, id_value: &F) -> (r: Result<
        Vec<Vec<N>>,
        FrameError,
    >)
        requires
            self.wf(),
            forall|i: usize| id_value.requires((i,)),
        ensures
            match as_matrix_error(self@) {
                Some(e) => r == Err::<Vec<Vec<N>>, FrameError>(e),
                None => r is Ok && ({
                    let m = r->Ok_0@;
                    let fp = float_positions(self@.columns);
                    let off: int = if include_ids { 1 } else { 0 };
                    &&& m.len() == self@.rows
                    &&& forall|i: int|
                        0 <= i < self@.rows ==> {
                            &&& (#[trigger] m[i])@.len() == off + fp.len()
                            &&& include_ids ==> id_value.ensures((i as usize,), m[i]@[0])
                            &&& forall|k: int|
                                0 <= k < fp.len() ==> self@.columns[fp[k]].values[i]
                                    == DataTypeValue::Float(#[trigger] m[i]@[off + k])
                        }
                }),
            },
    {
        let ghost f = self@;
        let mut c: usize = 0;
        while c < self.columns.len()
            invariant
                self@ == f,
                c <= self.columns.len(),
                forall|d: int| 0 <= d < c ==> #[trigger] f.columns[d].dtype != DataType::String,
            decreases self.columns.len() - c,
        {
            if self.columns[c].dtype == DataType::String {
                assert(f.columns[c as int].dtype == DataType::String);
                return Err(FrameError::EncodingRequired);
            }
            c = c + 1;
        }
        c = 0;
        while c < self.columns.len()
            invariant
                self.wf(),
                self@ == f,
                c <= self.columns.len(),
                forall|d: int| 0 <= d < f.columns.len() ==> #[trigger] f.columns[d].dtype != DataType::String,
                forall|d: int, i: int|
                    0 <= d < c && 0 <= i < f.rows && f.columns[d].dtype == DataType::Float
                        ==> !(#[trigger] f.columns[d].values[i] is Null),
            decreases self.columns.len() - c,
        {
            if self.columns[c].dtype == DataType::Float {
                let mut i: usize = 0;
                assert(f.columns[c as int].values.len() == f.rows);
                while i < self.len
                    invariant
                        self@ == f,
                        c < self.columns.len(),
                        f.columns[c as int].dtype == DataType::Float,
                        forall|d: int| 0 <= d < f.columns.len() ==> #[trigger] f.columns[d].dtype != DataType::String,
                        f.columns[c as int].values.len() == f.rows,
                        i <= self.len,
                        self.len == f.rows,
                        forall|j: int| 0 <= j < i ==> !(#[trigger] f.columns[c as int].values[j] is Null),
                    decreases self.len - i,
                {
                    if let DataTypeValue::Null = self.columns[c].values[i] {
                        assert(f.columns[c as int].values[i as int] is Null);
                        return Err(FrameError::NullValue);
                    }
                    i = i + 1;
                }
            }
            c = c + 1;
        }
        assert(as_matrix_error(f) is None);
        let ghost off: int = if include_ids { 1 } else { 0 };
        let mut matrix: Vec<Vec<N>> = Vec::new();
        let mut i: usize = 0;
        while i < self.len
            invariant
                self.wf(),
                self@ == f,
                as_matrix_error(f) is None,
                forall|i: usize| id_value.requires((i,)),
                off == (if include_ids { 1int } else { 0int }),
                i <= self.len,
                matrix@.len() == i,
                forall|a: int|
                    0 <= a < i ==> {
                        &&& (#[trigger] matrix@[a])@.len() == off + float_positions(f.columns).len()
                        &&& include_ids ==> id_value.ensures((a as usize,), matrix@[a]@[0])
                        &&& forall|k: int|
                            0 <= k < float_positions(f.columns).len() ==> f.columns[float_positions(
                                f.columns,
                            )[k]].values[a] == DataTypeValue::Float(#[trigger] matrix@[a]@[off + k])
                    },
            decreases self.len - i,
        {
            let mut row: Vec<N> = Vec::new();
            if include_ids {
                row.push(id_value(i));
            }
            let mut c: usize = 0;
            while c < self.columns.len()
                invariant
                    self.wf(),
                    self@ == f,
                    as_matrix_error(f) is None,
                    i < self.len,
                    off == (if include_ids { 1int } else { 0int }),
                    c <= self.columns.len(),
                    include_ids ==> id_value.ensures((i,), row@[0]),
                    row@.len() == off + float_positions(f.columns.subrange(0, c as int)).len(),
                    forall|k: int|
                        0 <= k < float_positions(f.columns.subrange(0, c as int)).len() ==> f.columns[float_positions(
                            f.columns.subrange(0, c as int),
                        )[k]].values[i as int] == DataTypeValue::Float(#[trigger] row@[off + k]),
                decreases self.columns.len() - c,
            {
                let ghost sub = f.columns.subrange(0, c as int);
                let ghost next = f.columns.subrange(0, c + 1);
                assert(next.drop_last() =~= sub);
                if self.columns[c].dtype == DataType::Float {
                    assert(f.columns[c as int].values.len() == f.rows);
                    let x: N = match &self.columns[c].values[i] {
                        DataTypeValue::Float(x) => *x,
                        _ => {
                            proof {
                                assert(fits(f.columns[c as int].dtype, f.columns[c as int].values[i as int]));
                                assert(!(f.columns[c as int].values[i as int] is Null));
                            }
                            return Err(FrameError::NullValue);
                        },
                    };
                    row.push(x);
                } else {
                }
                c = c + 1;
            }
            assert(f.columns.subrange(0, c as int) =~= f.columns);
            matrix.push(row);
            i = i + 1;
        }
        Ok(matrix)
    }

    /// Appends a row read as text: `fields[i]` is the field of the column at
    /// position `i + 1`, and `parsed[i]` the number it parses as, if any. An
    /// empty field gives a null cell. A field of a float column that is not a
    /// number turns that column into a text column for good, rendering its
    /// numbers with `render`, before the field is stored as text. It is
    /// refused when there is not one field per column.
    pub fn insert_record<R: Fn(&N) -> String>(
        &mut self,
        fields: &Vec<String>,
        parsed: &Vec<Option<N>>,
        render: &R,
    ) -> (r: Result<(), FrameError>)
        requires
            old(self).wf(),
            old(self)@.rows < usize::MAX,
            forall|x: &N| render.requires((x,)),
        ensures
            final(self).wf(),
            (fields@.len() + 1 != old(self)@.columns.len() || parsed@.len() != fields@.len())
                ==> r == Err::<(), FrameError>(FrameError::LengthMismatch) && final(self)@ == old(
                self,
            )@,
            (fields@.len() + 1 == old(self)@.columns.len() && parsed@.len() == fields@.len())
                ==> {
                &&& r is Ok
                &&& final(self)@.rows == old(self)@.rows + 1
                &&& final(self)@.columns.len() == old(self)@.columns.len()
                &&& final(self)@.columns[0].values == id_values::<N>(old(self)@.rows + 1)
                &&& forall|c: int|
                    1 <= c < old(self)@.columns.len() ==> {
                        let o = old(self)@.columns[c];
                        let n = #[trigger] final(self)@.columns[c];
                        let w = widens(o.dtype, fields@[c - 1]@, parsed@[c - 1]);
                        let t = if w { DataType::String } else { o.dtype };
                        &&& n.name == o.name
                        &&& n.dtype == t
                        &&& n.values.len() == old(self)@.rows + 1
                        &&& n.values.last() == record_cell(o.dtype, fields@[c - 1], parsed@[c - 1])
                        &&& if w {
                            is_rendered(o.values, n.values.drop_last(), *render)
                        } else {
                            n.values.drop_last() == o.values
                        }
                    }
            },
    {
        if fields.len() != self.columns.len() - 1 || parsed.len() != fields.len() {
            return Err(FrameError::LengthMismatch);
        }
        let ghost f = self@;
        let mut c: usize = 1;
        while c < self.columns.len()
            invariant
                frame_wf(f),
                self.wf(),
                1 <= c <= self.columns.len(),
                fields@.len() + 1 == f.columns.len(),
                parsed@.len() == fields@.len(),
                forall|x: &N| render.requires((x,)),
                self@.rows == f.rows,
                self@.columns.len() == f.columns.len(),
                self@.columns[0] == f.columns[0],
                forall|d: int|
                    1 <= d < c ==> {
                        let o = f.columns[d];
                        let n = #[trigger] self@.columns[d];
                        let w = widens(o.dtype, fields@[d - 1]@, parsed@[d - 1]);
                        &&& n.name == o.name
                        &&& n.dtype == if w { DataType::String } else { o.dtype }
                        &&& if w { is_rendered(o.values, n.values, *render) } else { n.values == o.values }
                    },
                forall|d: int| c <= d < f.columns.len() ==> #[trigger] self@.columns[d] == f.columns[d],
            decreases self.columns.len() - c,
        {
            let empty = fields[c - 1].as_str().is_empty();
            if self.columns[c].dtype == DataType::Float && !empty && parsed[c - 1].is_none() {
                let name = self.columns[c].name.clone();
                let ghost before = self@;
                proof {
                    assert(before.columns[c as int].name == name@);
                    assert(has_column(before, name@));
                    let q = position_of(before, name@);
                    assert(before.columns[q].name == before.columns[c as int].name);
                    assert(name@ != id_name());
                }
                let res = self.convert_column_values_to_string(name.as_str(), render);
                assert(res is Ok);
                proof {
                    let o = f.columns[c as int];
                    let n = self@.columns[c as int];
                    assert forall|i: int| 0 <= i < o.values.len() implies match #[trigger] o.values[i] {
                        DataTypeValue::Float(x) => n.values[i] is String && render.ensures((&x,), n.values[i]->String_0),
                        _ => n.values[i] == o.values[i],
                    } by {
                        assert(before.columns[c as int].values[i] == o.values[i]);
                    }
                    assert forall|d: int| 0 <= d < f.columns.len() && d != c implies #[trigger] self@.columns[d] == before.columns[d] by {}
                }
            }
            c = c + 1;
        }
        let ghost g = self@;
        c = 1;
        while c < self.columns.len()
            invariant
                frame_wf(g),
                1 <= c <= self.columns.len(),
                fields@.len() + 1 == g.columns.len(),
                parsed@.len() == fields@.len(),
                self.len == g.rows,
                self.columns.len() == g.columns.len(),
                self@.columns[0] == g.columns[0],
                forall|d: int|
                    1 <= d < c ==> #[trigger] self@.columns[d] == (ColumnSpec {
                        name: g.columns[d].name,
                        dtype: g.columns[d].dtype,
                        values: g.columns[d].values.push(record_cell(g.columns[d].dtype, fields@[d - 1], parsed@[d - 1])),
                    }),
                forall|d: int| c <= d < g.columns.len() ==> #[trigger] self@.columns[d] == g.columns[d],
            decreases self.columns.len() - c,
        {
            let field = &fields[c - 1];
            assert(self@.columns[c as int] == g.columns[c as int]);
            let cell: DataTypeValue<N> = if field.as_str().is_empty() {
                DataTypeValue::Null
            } else if self.columns[c].dtype == DataType::Float && parsed[c - 1].is_some() {
                match parsed[c - 1] {
                    Some(x) => DataTypeValue::Float(x),
                    None => DataTypeValue::Null,
                }
            } else {
                DataTypeValue::String(field.clone())
            };
            assert(cell == record_cell(g.columns[c as int].dtype, fields@[c - 1], parsed@[c - 1]));
            let ghost before = self@;
            self.columns[c].values.push(cell);
            assert forall|d: int| 0 <= d < g.columns.len() && d != c implies #[trigger] self@.columns[d] == before.columns[d] by {}
            c = c + 1;
        }
        let id = self.len;
        let ghost mid = self@;
        self.columns[0].values.push(DataTypeValue::Id(id));
        self.len = self.len + 1;
        assert forall|d: int| 1 <= d < g.columns.len() implies #[trigger] self@.columns[d] == mid.columns[d] by {}
        assert(self@.columns[0].values =~= id_values::<N>(g.rows + 1));
        proof {
            assert forall|d: int, i: int|
                0 <= d < self@.columns.len() && 0 <= i < self@.rows implies fits(
                self@.columns[d].dtype,
                #[trigger] self@.columns[d].values[i],
            ) by {
                if d >= 1 {
                    if i < g.rows {
                        assert(self@.columns[d].values[i] == g.columns[d].values[i]);
                    } else {
                        assert(g.columns[d].dtype != DataType::Id);
                        if widens(f.columns[d].dtype, fields@[d - 1]@, parsed@[d - 1]) {
                            assert(g.columns[d].dtype == DataType::String);
                        }
                    }
                }
            }
            assert forall|d: int| 1 <= d < f.columns.len() implies ({
                let o = f.columns[d];
                let n = #[trigger] self@.columns[d];
                let w = widens(o.dtype, fields@[d - 1]@, parsed@[d - 1]);
                &&& n.values.last() == record_cell(o.dtype, fields@[d - 1], parsed@[d - 1])
                &&& if w {
                    is_rendered(o.values, n.values.drop_last(), *render)
                } else {
                    n.values.drop_last() == o.values
                }
            }) by {
                let o = f.columns[d];
                let n = self@.columns[d];
                assert(n.values.drop_last() =~= g.columns[d].values);
                if widens(o.dtype, fields@[d - 1]@, parsed@[d - 1]) {
                    assert(g.columns[d].dtype == DataType::String);
                    assert(fields@[d - 1]@.len() > 0);
                } else {
                    assert(g.columns[d].dtype == o.dtype);
                }
            }
        }
        Ok(())
    }
}

} // verus!

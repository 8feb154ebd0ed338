use vstd::prelude::*;

use crate::error::FrameError;
use crate::frame::{
    filled, frame_wf, has_column, id_name, position_of, ColumnSpec, DataFrame, FrameSpec,
};
use crate::value::{DataType, DataTypeValue};

verus! {

/// How an imputer chooses the number that replaces null cells.
#[derive(Clone, Copy, Debug, PartialEq, Eq, Structural)]
pub enum ImputerStrategy {
    Median,
}

/// How text columns are turned into numbers.
#[derive(Clone, Copy, Debug, PartialEq, Eq, Structural)]
pub enum StringEncoding {
    OneHot,
}

/// Replaces the null cells of float columns by a number computed from the
/// column (its median).
pub struct Imputer {
    strategy: ImputerStrategy,
}

/// Rescales float columns to zero mean and unit sample deviation.
pub struct StandardScalar;

/// Adds, for a float column `c`, the columns `c^2` up to `c^degree`.
pub struct PolynomialFeatures {
    degrees: u32,
}

/// Adds ratio columns derived from the housing columns: rooms and population
/// per household, and bedrooms per room.
pub struct CombinedAttributesAdder;

/// What `fill_nulls` makes of the column `name` of `f`: a float column gets
/// `fill` in place of each null cell, a text column is left as it is.
pub open spec fn fill_nulls_result<N>(f: FrameSpec<N>, name: Seq<char>, fill: N) -> Result<
    FrameSpec<N>,
    FrameError,
> {
    if name == id_name() {
        Err(FrameError::ReservedColumn)
    } else if !has_column(f, name) {
        Err(FrameError::UnknownColumn)
    } else {
        let p = position_of(f, name);
        let c = f.columns[p];
        if c.dtype == DataType::Float {
            Ok(
                FrameSpec {
                    columns: f.columns.update(
                        p,
                        ColumnSpec { name: c.name, dtype: c.dtype, values: filled(c.values, fill) },
                    ),
                    rows: f.rows,
                },
            )
        } else {
            Ok(f)
        }
    }
}

/// The decimal digit characters.
pub open spec fn digit_chars() -> Seq<char> {
    seq!['0', '1', '2', '3', '4', '5', '6', '7', '8', '9']
}

/// The decimal numeral of `n`, without leading zeros.
pub open spec fn decimal(n: nat) -> Seq<char>
    decreases n,
{
    if n < 10 {
        seq![digit_chars()[n as int]]
    } else {
        decimal(n / 10) + seq![digit_chars()[(n % 10) as int]]
    }
}

/// The name of the column that holds the `e`-th power of column `column`.
pub open spec fn power_name(column: Seq<char>, e: nat) -> Seq<char> {
    column + seq!['^'] + decimal(e)
}

/// The digits of the first `count` entries of `stack`, taken from its top.
spec fn stacked_digits(stack: Seq<u32>, count: nat) -> Seq<char> {
    Seq::new(count, |k: int| digit_chars()[stack[stack.len() - 1 - k] as int])
}

/// The decimal numeral of `n`.
fn decimal_string(n: u32) -> (r: String)
    ensures
        r@ == decimal(n as nat),
{
    let digits = "0123456789";
    proof {
        reveal_strlit("0123456789");
        assert(digits@ =~= digit_chars());
    }
    let mut stack: Vec<u32> = Vec::new();
    let mut m: u32 = n;
    while m >= 10
        invariant
            decimal(n as nat) == decimal(m as nat) + stacked_digits(stack@, stack@.len()),
            forall|k: int| 0 <= k < stack.len() ==> #[trigger] stack@[k] < 10,
        decreases m,
    {
        let ghost before = stack@;
        let ghost old_m = m;
        stack.push(m % 10);
        m = m / 10;
        proof {
            let tail_old = stacked_digits(before, before.len());
            let tail_new = stacked_digits(stack@, stack@.len());
            assert(tail_new =~= seq![digit_chars()[(old_m % 10) as int]] + tail_old);
            assert(decimal(old_m as nat) == decimal(m as nat) + seq![digit_chars()[(old_m % 10) as int]]);
            assert(decimal(m as nat) + seq![digit_chars()[(old_m % 10) as int]] + tail_old =~= decimal(m as nat) + tail_new);
        }
    }
    let mut out = String::from_str(digits.substring_char(m as usize, m as usize + 1));
    let ghost first = out@;
    assert(first =~= decimal(m as nat));
    let mut i: usize = stack.len();
    while i > 0
        invariant
            i <= stack.len(),
            forall|k: int| 0 <= k < stack.len() ==> #[trigger] stack@[k] < 10,
            digits@ == digit_chars(),
            decimal(n as nat) == decimal(m as nat) + stacked_digits(stack@, stack@.len()),
            out@ == decimal(m as nat) + stacked_digits(stack@, (stack.len() - i) as nat),
        decreases i,
    {
        i = i - 1;
        let d = stack[i] as usize;
        let piece = digits.substring_char(d, d + 1);
        let ghost before = out@;
        out.append(piece);
        assert(out@ =~= decimal(m as nat) + stacked_digits(stack@, (stack.len() - i) as nat));
    }
    assert(out@ =~= decimal(n as nat));
    out
}

impl Imputer {
    pub closed spec fn spec_strategy(&self) -> ImputerStrategy {
        self.strategy
    }

    /// An imputer with the given strategy.
    pub fn new(strategy: &ImputerStrategy) -> (r: Self)
        ensures
            r.spec_strategy() == *strategy,
    {
        Imputer { strategy: *strategy }
    }

    /// The strategy that chooses the replacement number.
    pub fn strategy(&self) -> (r: ImputerStrategy)
        ensures
            r == self.spec_strategy(),
    {
        self.strategy
    }

    /// A new frame in which the null cells of the float column `column_name`
    /// hold `fill`; a text column comes back unchanged. The identifier column
    /// cannot be imputed.
    pub fn fill_nulls<N: Copy>(&self, df: &DataFrame<N>, column_name: &str, fill: N) -> (r: Result<
        DataFrame<N>,
        FrameError,
    >)
        requires
            df.wf(),
        ensures
            match fill_nulls_result(df@, column_name@, fill) {
                Err(e) => r == Err::<DataFrame<N>, FrameError>(e),
                Ok(g) => r is Ok && r->Ok_0.wf() && r->Ok_0@ == g,
            },
    {
        let ghost f = df@;
        let id = DataFrame::<N>::id_column();
        let name = String::from_str(column_name);
        let id_text = String::from_str(id);
        if name == id_text {
            return Err(FrameError::ReservedColumn);
        }
        let (dtype, values) = match df.get_column(column_name) {
            Err(e) => {
                return Err(e);
            },
            Ok(found) => found,
        };
        let mut out = df.duplicate();
        if *dtype != DataType::Float {
            return Ok(out);
        }
        let ghost p = position_of(f, column_name@);
        let ghost c = f.columns[p];
        assert(c.values.len() == f.rows);
        let mut i: usize = 0;
        while i < values.len()
            invariant
                df@ == f,
                frame_wf(f),
                0 <= p < f.columns.len(),
                c == f.columns[p],
                c.name == column_name@,
                column_name@ != id_name(),
                c.dtype == DataType::Float,
                values@ == c.values,
                c.values.len() == f.rows,
                i <= values.len(),
                out.wf(),
                out@.rows == f.rows,
                out@.columns.len() == f.columns.len(),
                forall|q: int| 0 <= q < f.columns.len() && q != p ==> #[trigger] out@.columns[q] == f.columns[q],
                out@.columns[p].name == c.name,
                out@.columns[p].dtype == c.dtype,
                out@.columns[p].values.len() == f.rows,
                forall|j: int| 0 <= j < i ==> #[trigger] out@.columns[p].values[j] == filled(c.values, fill)[j],
                forall|j: int| i <= j < f.rows ==> #[trigger] out@.columns[p].values[j] == c.values[j],
            decreases values.len() - i,
        {
            if let DataTypeValue::Null = values[i] {
                let ghost before = out@;
                proof {
                    assert(has_column(before, column_name@));
                    let q = position_of(before, column_name@);
                    assert(before.columns[q].name == before.columns[p].name);
                }
                let res = out.modify_cell(column_name, i, DataTypeValue::Float(fill));
                assert(res is Ok);
                assert forall|q: int| 0 <= q < f.columns.len() && q != p implies #[trigger] out@.columns[q] == f.columns[q] by {
                    assert(out@.columns[q] == before.columns[q]);
                }
            }
            i = i + 1;
        }
        assert(out@.columns =~= f.columns.update(
            p,
            ColumnSpec { name: c.name, dtype: c.dtype, values: filled(c.values, fill) },
        )) by {
            assert(out@.columns[p].values =~= filled(c.values, fill));
        }
        Ok(out)
    }
}

impl StandardScalar {
    /// A standard scaler.
    pub fn new() -> (r: Self) {
        StandardScalar
    }
}

impl PolynomialFeatures {
    pub closed spec fn spec_degrees(&self) -> u32 {
        self.degrees
    }

    /// Polynomial features up to the power `degrees`.
    pub fn new(degrees: u32) -> (r: Self)
        ensures
            r.spec_degrees() == degrees,
    {
        PolynomialFeatures { degrees }
    }

    /// The highest power added.
    pub fn degrees(&self) -> (r: u32)
        ensures
            r == self.spec_degrees(),
    {
        self.degrees
    }

    /// The names of the columns added for the column `column_name`, one for
    /// each power from 2 to the degree: `column_name^2`, `column_name^3`, ...
    pub fn feature_names(&self, column_name: &str) -> (r: Vec<String>)
        ensures
            r@.len() == if self.spec_degrees() >= 2 { self.spec_degrees() - 1 } else { 0 },
            forall|k: int| 0 <= k < r@.len() ==> #[trigger] r@[k]@ == power_name(column_name@, (k + 2) as nat),
    {
        let mut names: Vec<String> = Vec::new();
        let mut e: u64 = 2;
        while e <= self.degrees as u64
            invariant
                2 <= e,
                e <= self.degrees + 1 || self.degrees < 2,
                self.degrees < 2 ==> e == 2,
                names@.len() == e - 2,
                forall|k: int| 0 <= k < names@.len() ==> #[trigger] names@[k]@ == power_name(column_name@, (k + 2) as nat),
            decreases self.degrees + 1 - e,
        {
            let mut name = String::from_str(column_name);
            let caret = "^";
            proof {
                reveal_strlit("^");
            }
            name.append(caret);
            let numeral = decimal_string(e as u32);
            name.append(numeral.as_str());
            names.push(name);
            e = e + 1;
        }
        names
    }
}

impl CombinedAttributesAdder {
    /// The ratio-column adder.
    pub fn new() -> (r: Self) {
        CombinedAttributesAdder
    }
}

} // verus!

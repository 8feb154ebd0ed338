use vstd::prelude::*;

use crate::error::FrameError;
use crate::frame::{has_column, id_name, position_of, ColumnSpec, DataFrame, FrameSpec};
use crate::order::{lemma_text_order, text_less, text_lt};
use crate::value::{DataType, DataTypeValue};

verus! {

/// The category name given to null cells.
pub open spec fn null_label() -> Seq<char> {
    seq!['n', 'u', 'l', 'l']
}

/// The category of a cell of a text column.
pub open spec fn label<N>(v: DataTypeValue<N>) -> Seq<char> {
    match v {
        DataTypeValue::String(s) => s@,
        _ => null_label(),
    }
}

pub open spec fn strictly_sorted(s: Seq<Seq<char>>) -> bool {
    forall|a: int, b: int| 0 <= a < b < s.len() ==> text_lt(#[trigger] s[a], #[trigger] s[b])
}

/// `x` put into the sorted list `cats`, unless it is there already.
pub open spec fn insert_sorted(cats: Seq<Seq<char>>, x: Seq<char>) -> Seq<Seq<char>>
    decreases cats.len(),
{
    if cats.len() == 0 {
        seq![x]
    } else if cats[0] == x {
        cats
    } else if text_lt(x, cats[0]) {
        seq![x] + cats
    } else {
        seq![cats[0]] + insert_sorted(cats.drop_first(), x)
    }
}

/// The distinct categories of a column, in ascending order.
pub open spec fn categories<N>(values: Seq<DataTypeValue<N>>) -> Seq<Seq<char>>
    decreases values.len(),
{
    if values.len() == 0 {
        Seq::empty()
    } else {
        insert_sorted(categories(values.drop_last()), label(values.last()))
    }
}

/// The categories that get a column: all of them, or with `drop` all but the
/// last.
pub open spec fn kept_categories<N>(values: Seq<DataTypeValue<N>>, drop: bool) -> Seq<Seq<char>> {
    let cats = categories(values);
    if drop && cats.len() > 0 {
        cats.drop_last()
    } else {
        cats
    }
}

/// The indicator column of category `cat`: `one` where a row is in it,
/// `zero` elsewhere.
pub open spec fn indicator<N>(
    values: Seq<DataTypeValue<N>>,
    cat: Seq<char>,
    one: N,
    zero: N,
) -> Seq<DataTypeValue<N>> {
    Seq::new(
        values.len(),
        |i: int|
            if label(values[i]) == cat {
                DataTypeValue::Float(one)
            } else {
                DataTypeValue::Float(zero)
            },
    )
}

/// The indicator columns of the categories `cats`, in order.
pub open spec fn indicator_columns<N>(
    values: Seq<DataTypeValue<N>>,
    cats: Seq<Seq<char>>,
    one: N,
    zero: N,
) -> Seq<ColumnSpec<N>> {
    Seq::new(
        cats.len(),
        |k: int|
            ColumnSpec {
                name: cats[k],
                dtype: DataType::Float,
                values: indicator(values, cats[k], one, zero),
            },
    )
}

/// Whether a column holds both null cells and the text that names their
/// category.
pub open spec fn null_clash<N>(values: Seq<DataTypeValue<N>>) -> bool {
    &&& exists|i: int| 0 <= i < values.len() && #[trigger] values[i] is Null
    &&& exists|i: int|
        0 <= i < values.len() && #[trigger] values[i] is String && values[i]->String_0@
            == null_label()
}

/// What one-hot encoding the column `name` of `f` gives: the frame without
/// that column and with one float indicator column per kept category, named
/// by it, appended in ascending order; or why it is refused.
pub open spec fn encode_column_result<N>(
    f: FrameSpec<N>,
    name: Seq<char>,
    drop: bool,
    one: N,
    zero: N,
) -> Result<FrameSpec<N>, FrameError> {
    if name == id_name() {
        Err(FrameError::ReservedColumn)
    } else if !has_column(f, name) {
        Err(FrameError::UnknownColumn)
    } else {
        let p = position_of(f, name);
        let c = f.columns[p];
        let cats = kept_categories(c.values, drop);
        if c.dtype != DataType::String {
            Err(FrameError::TypeMismatch)
        } else if null_clash(c.values) {
            Err(FrameError::ReservedCategory)
        } else if exists|k: int| 0 <= k < cats.len() && #[trigger] cats[k] == id_name() {
            Err(FrameError::ReservedColumn)
        } else if exists|k: int| 0 <= k < cats.len() && has_column(f, #[trigger] cats[k]) {
            Err(FrameError::DuplicateColumn)
        } else {
            Ok(
                FrameSpec {
                    columns: f.columns.remove(p) + indicator_columns(c.values, cats, one, zero),
                    rows: f.rows,
                },
            )
        }
    }
}

/// What one-hot encoding the columns `names` of `f`, one after the other,
/// gives; the first refusal stops it.
pub open spec fn encode_result<N>(
    f: FrameSpec<N>,
    names: Seq<Seq<char>>,
    drop: bool,
    one: N,
    zero: N,
) -> Result<FrameSpec<N>, FrameError>
    decreases names.len(),
{
    if names.len() == 0 {
        Ok(f)
    } else {
        match encode_result(f, names.drop_last(), drop, one, zero) {
            Err(e) => Err(e),
            Ok(g) => encode_column_result(g, names.last(), drop, one, zero),
        }
    }
}

proof fn lemma_insert_at(cats: Seq<Seq<char>>, x: Seq<char>, p: int)
    requires
        0 <= p <= cats.len(),
        forall|q: int| 0 <= q < p ==> text_lt(#[trigger] cats[q], x),
        p < cats.len() ==> !text_lt(cats[p], x),
    ensures
        insert_sorted(cats, x) == if p < cats.len() && cats[p] == x {
            cats
        } else {
            cats.insert(p, x)
        },
    decreases p,
{
    if p > 0 {
        lemma_text_order(cats[0], x, x);
        lemma_text_order(x, cats[0], x);
        lemma_insert_at(cats.drop_first(), x, p - 1);
        if p < cats.len() && cats[p] == x {
            assert(seq![cats[0]] + cats.drop_first() =~= cats);
        } else {
            assert(seq![cats[0]] + cats.drop_first().insert(p - 1, x) =~= cats.insert(p, x));
        }
    } else if cats.len() > 0 {
        if cats[0] != x {
            lemma_text_order(x, cats[0], x);
            assert(seq![x] + cats =~= cats.insert(0, x));
        }
    } else {
        assert(seq![x] =~= cats.insert(0, x));
    }
}

proof fn lemma_insert_sorted(cats: Seq<Seq<char>>, x: Seq<char>)
    requires
        strictly_sorted(cats),
    ensures
        strictly_sorted(insert_sorted(cats, x)),
        forall|y: Seq<char>| #[trigger]
            insert_sorted(cats, x).contains(y) <==> (cats.contains(y) || y == x),
    decreases cats.len(),
{
    let r = insert_sorted(cats, x);
    if cats.len() == 0 {
        assert(r[0] == x);
    } else if cats[0] == x {
    } else if text_lt(x, cats[0]) {
        assert forall|a: int, b: int| 0 <= a < b < r.len() implies text_lt(#[trigger] r[a], #[trigger] r[b]) by {
            if a == 0 {
                if b > 1 {
                    lemma_text_order(x, cats[0], cats[b - 1]);
                }
            } else {
                assert(text_lt(cats[a - 1], cats[b - 1]));
            }
        }
        assert forall|y: Seq<char>| #[trigger] r.contains(y) <==> (cats.contains(y) || y == x) by {
            if r.contains(y) {
                let j = choose|j: int| 0 <= j < r.len() && r[j] == y;
                if j > 0 {
                    assert(cats[j - 1] == y);
                }
            }
            if cats.contains(y) {
                let j = choose|j: int| 0 <= j < cats.len() && cats[j] == y;
                assert(r[j + 1] == y);
            }
            if y == x {
                assert(r[0] == y);
            }
        }
    } else {
        let rest = cats.drop_first();
        assert(strictly_sorted(rest)) by {
            assert forall|a: int, b: int| 0 <= a < b < rest.len() implies text_lt(#[trigger] rest[a], #[trigger] rest[b]) by {
                assert(text_lt(cats[a + 1], cats[b + 1]));
            }
        }
        lemma_insert_sorted(rest, x);
        let t = insert_sorted(rest, x);
        lemma_text_order(x, cats[0], x);
        assert forall|a: int, b: int| 0 <= a < b < r.len() implies text_lt(#[trigger] r[a], #[trigger] r[b]) by {
            if a == 0 {
                assert(t.contains(r[b])) by {
                    assert(t[b - 1] == r[b]);
                }
                if r[b] == x {
                } else {
                    let j = choose|j: int| 0 <= j < rest.len() && rest[j] == r[b];
                    assert(text_lt(cats[0], cats[j + 1]));
                }
            } else {
                assert(text_lt(t[a - 1], t[b - 1]));
            }
        }
        assert forall|y: Seq<char>| #[trigger] r.contains(y) <==> (cats.contains(y) || y == x) by {
            if r.contains(y) {
                let j = choose|j: int| 0 <= j < r.len() && r[j] == y;
                if j > 0 {
                    assert(t[j - 1] == y);
                    assert(t.contains(y));
                    if rest.contains(y) {
                        let i = choose|i: int| 0 <= i < rest.len() && rest[i] == y;
                        assert(cats[i + 1] == y);
                    }
                } else {
                    assert(cats[0] == y);
                }
            }
            if cats.contains(y) {
                let j = choose|j: int| 0 <= j < cats.len() && cats[j] == y;
                if j > 0 {
                    assert(rest[j - 1] == y);
                    assert(t.contains(y));
                    let i = choose|i: int| 0 <= i < t.len() && t[i] == y;
                    assert(r[i + 1] == y);
                } else {
                    assert(r[0] == y);
                }
            }
            if y == x {
                assert(t.contains(y));
                let i = choose|i: int| 0 <= i < t.len() && t[i] == y;
                assert(r[i + 1] == y);
            }
        }
    }
}

/// The categories of a column are in strictly ascending order, and they are
/// exactly the categories of its cells.
pub proof fn lemma_categories<N>(values: Seq<DataTypeValue<N>>)
    ensures
        strictly_sorted(categories(values)),
        forall|y: Seq<char>| #[trigger]
            categories(values).contains(y) <==> exists|i: int|
                0 <= i < values.len() && label(#[trigger] values[i]) == y,
    decreases values.len(),
{
    if values.len() > 0 {
        let init = values.drop_last();
        lemma_categories(init);
        lemma_insert_sorted(categories(init), label(values.last()));
        assert forall|y: Seq<char>| #[trigger] categories(values).contains(y) <==> exists|i: int|
            0 <= i < values.len() && label(#[trigger] values[i]) == y by {
            if categories(init).contains(y) {
                let i = choose|i: int| 0 <= i < init.len() && label(#[trigger] init[i]) == y;
                assert(label(values[i]) == y);
            }
            if exists|i: int| 0 <= i < values.len() && label(#[trigger] values[i]) == y {
                let i = choose|i: int| 0 <= i < values.len() && label(#[trigger] values[i]) == y;
                if i < init.len() {
                    assert(label(init[i]) == y);
                }
            }
        }
    }
}

/// How many of the first `n` categories in `cats` the cell of row `i` is in;
/// with `n` the number of categories, the sum of the row's indicators.
pub open spec fn row_hits<N>(values: Seq<DataTypeValue<N>>, cats: Seq<Seq<char>>, i: int, n: int) -> nat
    decreases n,
{
    if n <= 0 {
        0
    } else {
        row_hits(values, cats, i, n - 1) + if label(values[i]) == cats[n - 1] {
            1nat
        } else {
            0nat
        }
    }
}

proof fn lemma_row_hits_single<N>(values: Seq<DataTypeValue<N>>, cats: Seq<Seq<char>>, i: int, k: int, n: int)
    requires
        0 <= k < cats.len(),
        0 <= n <= cats.len(),
        label(values[i]) == cats[k],
        forall|m: int| 0 <= m < cats.len() && m != k ==> #[trigger] cats[m] != cats[k],
    ensures
        row_hits(values, cats, i, n) == if k < n { 1nat } else { 0nat },
    decreases n,
{
    if n > 0 {
        lemma_row_hits_single(values, cats, i, k, n - 1);
    }
}

/// One-hot rows: with every category kept, each row is in exactly one
/// category, so that its indicators sum to one.
pub proof fn lemma_one_hot_rows<N>(values: Seq<DataTypeValue<N>>)
    ensures
        forall|i: int|
            0 <= i < values.len() ==> #[trigger] row_hits(
                values,
                categories(values),
                i,
                categories(values).len() as int,
            ) == 1,
{
    let cats = categories(values);
    lemma_categories(values);
    assert forall|i: int| 0 <= i < values.len() implies #[trigger] row_hits(
        values,
        cats,
        i,
        cats.len() as int,
    ) == 1 by {
        let y = label(values[i]);
        assert(cats.contains(y));
        let k = choose|k: int| 0 <= k < cats.len() && cats[k] == y;
        assert forall|m: int| 0 <= m < cats.len() && m != k implies #[trigger] cats[m] != cats[k] by {
            if m < k {
                assert(text_lt(cats[m], cats[k]));
            } else {
                assert(text_lt(cats[k], cats[m]));
            }
            lemma_text_order(cats[k], cats[k], cats[k]);
        }
        lemma_row_hits_single(values, cats, i, k, cats.len() as int);
    }
}

proof fn lemma_encode_error_prefix<N>(f: FrameSpec<N>, ns: Seq<Seq<char>>, j: int, drop: bool, one: N, zero: N)
    requires
        0 <= j <= ns.len(),
        encode_result(f, ns.subrange(0, j), drop, one, zero) is Err,
    ensures
        encode_result(f, ns, drop, one, zero) == encode_result(f, ns.subrange(0, j), drop, one, zero),
    decreases ns.len(),
{
    if j < ns.len() {
        assert(ns.drop_last().subrange(0, j) =~= ns.subrange(0, j));
        lemma_encode_error_prefix(f, ns.drop_last(), j, drop, one, zero);
    } else {
        assert(ns.subrange(0, j) =~= ns);
    }
}

/// One-hot encoding of text columns: each column is replaced by one float
/// indicator column per category (null cells form the category "null"),
/// named by the category and appended in ascending order. With `drop`, the
/// last category gets no column.
pub struct OneHotEncoder {
    drop: bool,
}

fn same_text(a: &String, b: &String) -> (r: bool)
    ensures
        r == (a@ == b@),
{
    *a == *b
}

impl OneHotEncoder {
    pub closed spec fn drops_last(&self) -> bool {
        self.drop
    }

    /// An encoder that leaves out the last category when `drop` is set.
    pub fn new(drop: bool) -> (r: Self)
        ensures
            r.drops_last() == drop,
    {
        OneHotEncoder { drop }
    }

    /// The categories of `values`, in ascending order, and whether a null
    /// cell clashes with a text cell "null".
    fn collect_categories<N: Copy>(values: &Vec<DataTypeValue<N>>) -> (r: (Vec<String>, bool))
        ensures
            r.0@.map_values(|s: String| s@) == categories(values@),
            r.1 == null_clash(values@),
    {
        let null_text = String::from_str("null");
        proof {
            reveal_strlit("null");
            assert(null_text@ =~= null_label());
        }
        let mut cats: Vec<String> = Vec::new();
        let mut saw_null = false;
        let mut saw_null_text = false;
        let mut i: usize = 0;
        assert(values@.subrange(0, 0) =~= Seq::<DataTypeValue<N>>::empty());
        while i < values.len()
            invariant
                i <= values.len(),
                null_text@ == null_label(),
                cats@.map_values(|s: String| s@) == categories(values@.subrange(0, i as int)),
                saw_null == exists|j: int| 0 <= j < i && #[trigger] values@[j] is Null,
                saw_null_text == exists|j: int|
                    0 <= j < i && #[trigger] values@[j] is String && values@[j]->String_0@
                        == null_label(),
            decreases values.len() - i,
        {
            let x: String = match &values[i] {
                DataTypeValue::String(s) => {
                    if same_text(s, &null_text) {
                        saw_null_text = true;
                    }
                    s.clone()
                },
                _ => {
                    if let DataTypeValue::Null = values[i] {
                        saw_null = true;
                    }
                    null_text.clone()
                },
            };
            let ghost cv = cats@.map_values(|s: String| s@);
            let mut p: usize = 0;
            while p < cats.len() && text_less(&cats[p], &x)
                invariant
                    p <= cats.len(),
                    cv == cats@.map_values(|s: String| s@),
                    forall|q: int| 0 <= q < p ==> text_lt(#[trigger] cv[q], x@),
                decreases cats.len() - p,
            {
                p = p + 1;
            }
            proof {
                lemma_insert_at(cv, x@, p as int);
                assert(values@.subrange(0, i + 1).drop_last() =~= values@.subrange(0, i as int));
                assert(label(values@[i as int]) == x@);
            }
            if p < cats.len() && same_text(&cats[p], &x) {
            } else {
                cats.insert(p, x);
                assert(cats@.map_values(|s: String| s@) =~= cv.insert(p as int, x@));
            }
            i = i + 1;
            assert(saw_null == exists|j: int| 0 <= j < i && #[trigger] values@[j] is Null) by {
                if values@[i - 1] is Null {
                    assert(saw_null);
                }
            }
            assert(saw_null_text == exists|j: int|
                0 <= j < i && #[trigger] values@[j] is String && values@[j]->String_0@ == null_label()) by {
                if values@[i - 1] is String && values@[i - 1]->String_0@ == null_label() {
                    assert(saw_null_text);
                }
            }
        }
        assert(values@.subrange(0, i as int) =~= values@);
        (cats, saw_null && saw_null_text)
    }

    /// One-hot encodes the text column `column_name` of `df` into a new frame:
    /// the column is removed and one float indicator column per category,
    /// holding `one` or `zero`, is appended in ascending order of category.
    pub fn encode_column<N: Copy>(
        &self,
        df: &DataFrame<N>,
        column_name: &str,
        one: N,
        zero: N,
    ) -> (r: Result<DataFrame<N>, FrameError>)
        requires
            df.wf(),
        ensures
            match encode_column_result(df@, column_name@, self.drops_last(), one, zero) {
                Err(e) => r == Err::<DataFrame<N>, FrameError>(e),
                Ok(g) => r is Ok && r->Ok_0.wf() && r->Ok_0@ == g,
            },
    {
        let ghost f = df@;
        let name = String::from_str(column_name);
        let id = String::from_str(DataFrame::<N>::id_column());
        if same_text(&name, &id) {
            return Err(FrameError::ReservedColumn);
        }
        let (dtype, values) = match df.get_column(column_name) {
            Err(e) => {
                return Err(e);
            },
            Ok(found) => found,
        };
        let ghost p = position_of(f, column_name@);
        let ghost c = f.columns[p];
        if *dtype != DataType::String {
            return Err(FrameError::TypeMismatch);
        }
        let (mut cats, clash) = OneHotEncoder::collect_categories(values);
        if clash {
            return Err(FrameError::ReservedCategory);
        }
        proof {
            lemma_categories(c.values);
        }
        let ghost all = categories(c.values);
        if self.drop && cats.len() > 0 {
            cats.pop();
        }
        let ghost kept = kept_categories(c.values, self.drops_last());
        assert(cats@.map_values(|s: String| s@) =~= kept);
        assert(strictly_sorted(kept));
        let mut k: usize = 0;
        while k < cats.len()
            invariant
                df@ == f,
                column_name@ != id_name(),
                has_column(f, column_name@),
                p == position_of(f, column_name@),
                c == f.columns[p],
                c.dtype == DataType::String,
                !null_clash(c.values),
                kept == kept_categories(c.values, self.drops_last()),
                k <= cats.len(),
                id@ == id_name(),
                cats@.map_values(|s: String| s@) == kept,
                forall|q: int| 0 <= q < k ==> #[trigger] kept[q] != id_name(),
            decreases cats.len() - k,
        {
            if same_text(&cats[k], &id) {
                assert(kept[k as int] == id_name());
                return Err(FrameError::ReservedColumn);
            }
            k = k + 1;
        }
        k = 0;
        while k < cats.len()
            invariant
                df.wf(),
                df@ == f,
                column_name@ != id_name(),
                has_column(f, column_name@),
                p == position_of(f, column_name@),
                c == f.columns[p],
                c.dtype == DataType::String,
                !null_clash(c.values),
                kept == kept_categories(c.values, self.drops_last()),
                k <= cats.len(),
                cats@.map_values(|s: String| s@) == kept,
                forall|q: int| 0 <= q < kept.len() ==> #[trigger] kept[q] != id_name(),
                forall|q: int| 0 <= q < k ==> !has_column(f, #[trigger] kept[q]),
            decreases cats.len() - k,
        {
            if df.get_column(cats[k].as_str()).is_ok() {
                assert(has_column(f, kept[k as int]));
                return Err(FrameError::DuplicateColumn);
            }
            k = k + 1;
        }
        let mut out = df.duplicate();
        let null_text = String::from_str("null");
        proof {
            reveal_strlit("null");
            assert(null_text@ =~= null_label());
        }
        k = 0;
        while k < cats.len()
            invariant
                df.wf(),
                df@ == f,
                0 <= p < f.columns.len(),
                c == f.columns[p],
                c.values.len() == f.rows,
                values@ == c.values,
                null_text@ == null_label(),
                k <= cats.len(),
                cats@.map_values(|s: String| s@) == kept,
                strictly_sorted(kept),
                forall|q: int| 0 <= q < kept.len() ==> #[trigger] kept[q] != id_name(),
                forall|q: int| 0 <= q < kept.len() ==> !has_column(f, #[trigger] kept[q]),
                out.wf(),
                out@ == (FrameSpec {
                    columns: f.columns + indicator_columns(c.values, kept.subrange(0, k as int), one, zero),
                    rows: f.rows,
                }),
            decreases cats.len() - k,
        {
            let mut column: Vec<DataTypeValue<N>> = Vec::new();
            let mut i: usize = 0;
            while i < values.len()
                invariant
                    i <= values.len(),
                    k < cats.len(),
                    null_text@ == null_label(),
                    column@ == indicator(values@.subrange(0, i as int), cats@[k as int]@, one, zero),
                decreases values.len() - i,
            {
                let hit = match &values[i] {
                    DataTypeValue::String(s) => same_text(s, &cats[k]),
                    _ => same_text(&null_text, &cats[k]),
                };
                column.push(if hit { DataTypeValue::Float(one) } else { DataTypeValue::Float(zero) });
                i = i + 1;
                assert(column@ =~= indicator(values@.subrange(0, i as int), cats@[k as int]@, one, zero));
            }
            assert(values@.subrange(0, i as int) =~= values@);
            let ghost before = out@;
            proof {
                assert(cats@[k as int]@ == kept[k as int]);
                assert(!has_column(before, kept[k as int])) by {
                    if has_column(before, kept[k as int]) {
                        let d = choose|d: int| 0 <= d < before.columns.len() && before.columns[d].name == kept[k as int];
                        if d < f.columns.len() {
                            assert(has_column(f, kept[k as int]));
                        } else {
                            let q = d - f.columns.len();
                            assert(before.columns[d].name == kept[q]);
                            assert(text_lt(kept[q], kept[k as int]));
                            lemma_text_order(kept[q], kept[q], kept[q]);
                        }
                    }
                }
            }
            let res = out.insert_column(cats[k].as_str(), &column, &DataType::Float);
            assert(res is Ok);
            k = k + 1;
            assert(out@.columns =~= f.columns + indicator_columns(c.values, kept.subrange(0, k as int), one, zero));
        }
        assert(kept.subrange(0, k as int) =~= kept);
        let ghost before = out@;
        proof {
            assert(before.columns[p].name == column_name@);
            assert(has_column(before, column_name@));
            let q = position_of(before, column_name@);
            assert(before.columns[q].name == before.columns[p].name);
        }
        let res = out.remove_column(column_name);
        assert(res is Ok);
        assert(out@.columns =~= f.columns.remove(p) + indicator_columns(c.values, kept, one, zero));
        Ok(out)
    }

    /// One-hot encodes the columns `column_names` of `df`, one after the
    /// other, into a new frame; the first refusal stops it.
    pub fn encode<N: Copy>(
        &self,
        df: &DataFrame<N>,
        column_names: &Vec<String>,
        one: N,
        zero: N,
    ) -> (r: Result<DataFrame<N>, FrameError>)
        requires
            df.wf(),
        ensures
            match encode_result(
                df@,
                column_names@.map_values(|s: String| s@),
                self.drops_last(),
                one,
                zero,
            ) {
                Err(e) => r == Err::<DataFrame<N>, FrameError>(e),
                Ok(g) => r is Ok && r->Ok_0.wf() && r->Ok_0@ == g,
            },
    {
        let ghost f = df@;
        let ghost ns = column_names@.map_values(|s: String| s@);
        let mut out = df.duplicate();
        let mut i: usize = 0;
        assert(ns.subrange(0, 0).len() == 0);
        while i < column_names.len()
            invariant
                i <= column_names.len(),
                ns == column_names@.map_values(|s: String| s@),
                df@ == f,
                out.wf(),
                encode_result(f, ns.subrange(0, i as int), self.drops_last(), one, zero) == Ok::<
                    FrameSpec<N>,
                    FrameError,
                >(out@),
            decreases column_names.len() - i,
        {
            assert(ns.subrange(0, i + 1).drop_last() =~= ns.subrange(0, i as int));
            assert(ns.subrange(0, i + 1).last() == column_names@[i as int]@);
            match self.encode_column(&out, column_names[i].as_str(), one, zero) {
                Err(e) => {
                    proof {
                        assert(ns.subrange(0, i + 1).last() == column_names@[i as int]@);
                        assert(encode_result(f, ns.subrange(0, i + 1), self.drops_last(), one, zero) == Err::<FrameSpec<N>, FrameError>(e));
                        lemma_encode_error_prefix(f, ns, i + 1, self.drops_last(), one, zero);
                    }
                    return Err(e);
                },
                Ok(next) => {
                    out = next;
                },
            }
            i = i + 1;
        }
        assert(ns.subrange(0, i as int) =~= ns);
        Ok(out)
    }
}

} // verus!

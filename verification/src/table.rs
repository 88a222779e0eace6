//! The tabular data model: typed columns, rows of optional scalar values,
//! and the well-formedness invariant every table in the library maintains.
//!
//! A floating-point cell stores the literal text of the value rather than a
//! machine float; the invariant guarantees the text is a valid
//! floating-point literal, so callers can convert it at the boundary.

use vstd::prelude::*;
use crate::num::is_float_text;

verus! {

/// Declared scalar type of a column.
#[derive(Clone, Copy, Debug, PartialEq, Eq, Structural)]
pub enum DataType {
    Int64,
    Float64,
    Str,
}

/// One cell of a table. `Float` carries the literal text of the number.
#[derive(Clone, Debug, PartialEq)]
pub enum Value {
    Null,
    Int(i64),
    Float(String),
    Str(String),
}

/// Mathematical image of a `Value`.
#[verifier::ext_equal]
pub enum ValueView {
    Null,
    Int(int),
    Float(Seq<char>),
    Str(Seq<char>),
}

impl View for Value {
    type V = ValueView;

    open spec fn view(&self) -> ValueView {
        match self {
            Value::Null => ValueView::Null,
            Value::Int(i) => ValueView::Int(*i as int),
            Value::Float(s) => ValueView::Float(s@),
            Value::Str(s) => ValueView::Str(s@),
        }
    }
}

/// A named, typed column.
#[derive(Clone, Debug, PartialEq)]
pub struct Column {
    pub name: String,
    pub dtype: DataType,
}

/// Mathematical image of a `Column`.
#[verifier::ext_equal]
pub struct ColumnView {
    pub name: Seq<char>,
    pub dtype: DataType,
}

impl View for Column {
    type V = ColumnView;

    open spec fn view(&self) -> ColumnView {
        ColumnView { name: self.name@, dtype: self.dtype }
    }
}

/// An ordered list of columns and rows of matching arity.
#[derive(Clone, Debug, PartialEq)]
pub struct Table {
    pub cols: Vec<Column>,
    pub rows: Vec<Vec<Value>>,
}

/// Mathematical image of a `Table`.
#[verifier::ext_equal]
pub struct TableView {
    pub cols: Seq<ColumnView>,
    pub rows: Seq<Seq<ValueView>>,
}

impl View for Table {
    type V = TableView;

    open spec fn view(&self) -> TableView {
        TableView {
            cols: self.cols@.map_values(|c: Column| c@),
            rows: self.rows@.map_values(|r: Vec<Value>| r@.map_values(|v: Value| v@)),
        }
    }
}

/// Whether a cell value is acceptable in a column of the given type. A null
/// fits any column; a float cell must carry a valid literal.
pub open spec fn value_fits(v: ValueView, dt: DataType) -> bool {
    match v {
        ValueView::Null => true,
        ValueView::Int(i) => dt == DataType::Int64 && i64::MIN <= i <= i64::MAX,
        ValueView::Float(s) => dt == DataType::Float64 && is_float_text(s),
        ValueView::Str(_) => dt == DataType::Str,
    }
}

/// Column names are pairwise distinct.
pub open spec fn distinct_cols(cols: Seq<ColumnView>) -> bool {
    forall|i: int, j: int| 0 <= i < j < cols.len() ==> cols[i].name != cols[j].name
}

/// The table invariant: distinct column names, every row of the table's
/// arity, and every cell fitting its column's type.
pub open spec fn wf(t: TableView) -> bool {
    &&& distinct_cols(t.cols)
    &&& forall|i: int| 0 <= i < t.rows.len() ==> #[trigger] t.rows[i].len() == t.cols.len()
    &&& forall|i: int, j: int|
        0 <= i < t.rows.len() && 0 <= j < t.cols.len() ==> value_fits(
            #[trigger] t.rows[i][j],
            t.cols[j].dtype,
        )
}

/// Index of the first column named `name` at or after `i`, or -1.
pub open spec fn find_col_from(cols: Seq<ColumnView>, name: Seq<char>, i: int) -> int
    decreases cols.len() - i,
{
    if i < 0 || i >= cols.len() {
        -1
    } else if cols[i].name == name {
        i
    } else {
        find_col_from(cols, name, i + 1)
    }
}

/// Index of the column named `name`, or -1.
pub open spec fn find_col(t: TableView, name: Seq<char>) -> int {
    find_col_from(t.cols, name, 0)
}

pub open spec fn has_col(t: TableView, name: Seq<char>) -> bool {
    find_col(t, name) >= 0
}

pub proof fn lemma_find_col_from(cols: Seq<ColumnView>, name: Seq<char>, i: int)
    requires
        0 <= i <= cols.len(),
    ensures
        find_col_from(cols, name, i) == -1 ==> forall|k: int|
            i <= k < cols.len() ==> cols[k].name != name,
        find_col_from(cols, name, i) != -1 ==> i <= find_col_from(cols, name, i) < cols.len()
            && cols[find_col_from(cols, name, i)].name == name && forall|k: int|
            i <= k < find_col_from(cols, name, i) ==> cols[k].name != name,
    decreases cols.len() - i,
{
    if i < cols.len() && cols[i].name != name {
        lemma_find_col_from(cols, name, i + 1);
    }
}

impl Table {
    /// A table with no columns and no rows.
    pub fn new() -> (r: Table)
        ensures
            r@.cols =~= Seq::<ColumnView>::empty(),
            r@.rows =~= Seq::<Seq<ValueView>>::empty(),
            wf(r@),
    {
        Table { cols: Vec::new(), rows: Vec::new() }
    }

    /// Number of rows.
    pub fn height(&self) -> (r: usize)
        ensures
            r == self@.rows.len(),
    {
        self.rows.len()
    }

    /// Number of columns.
    pub fn width(&self) -> (r: usize)
        ensures
            r == self@.cols.len(),
    {
        self.cols.len()
    }

    /// Index of the column named `name`, if it exists.
    pub fn find_column(&self, name: &str) -> (r: Option<usize>)
        ensures
            match r {
                Some(i) => find_col(self@, name@) == i && i < self@.cols.len()
                    && self@.cols[i as int].name == name@,
                None => find_col(self@, name@) == -1 && !has_col(self@, name@),
            },
    {
        let n = self.cols.len();
        let mut i: usize = 0;
        while i < n
            invariant
                0 <= i <= n,
                n == self@.cols.len(),
                forall|k: int| 0 <= k < i ==> self@.cols[k].name != name@,
            decreases n - i,
        {
            if crate::text::str_eq(self.cols[i].name.as_str(), name) {
                proof {
                    lemma_find_col_from(self@.cols, name@, 0);
                    let f = find_col(self@, name@);
                    assert(f == i) by {
                        if f == -1 {
                            assert(self@.cols[i as int].name != name@);
                        } else if f < i {
                            assert(self@.cols[f].name != name@);
                        } else if i < f {
                            assert(self@.cols[i as int].name != name@);
                        }
                    }
                }
                return Some(i);
            }
            i = i + 1;
        }
        proof {
            lemma_find_col_from(self@.cols, name@, 0);
            let f = find_col(self@, name@);
            if f != -1 {
                assert(self@.cols[f].name != name@);
            }
        }
        None
    }
}

/// A single-row table after setting `name` to `v`: an existing column keeps
/// its place and type and has its value overwritten; a new column of type
/// `dt` is appended. This is the map-insert semantics duplicate keys get.
pub open spec fn upsert_single(t: TableView, name: Seq<char>, dt: DataType, v: ValueView) -> TableView {
    let i = find_col(t, name);
    if i >= 0 {
        TableView { cols: t.cols, rows: seq![t.rows[0].update(i, v)] }
    } else {
        TableView {
            cols: t.cols.push(ColumnView { name, dtype: dt }),
            rows: seq![t.rows[0].push(v)],
        }
    }
}

/// Setting a fitting value keeps a single-row table well-formed.
pub proof fn lemma_upsert_single_wf(t: TableView, name: Seq<char>, dt: DataType, v: ValueView)
    requires
        wf(t),
        t.rows.len() == 1,
        value_fits(v, dt),
        find_col(t, name) >= 0 ==> t.cols[find_col(t, name)].dtype == dt,
    ensures
        wf(upsert_single(t, name, dt, v)),
        upsert_single(t, name, dt, v).rows.len() == 1,
        upsert_single(t, name, dt, v).cols.len() >= t.cols.len(),
{
    lemma_find_col_from(t.cols, name, 0);
    let i = find_col(t, name);
    let u = upsert_single(t, name, dt, v);
    if i >= 0 {
        assert(u.rows[0].len() == t.cols.len());
        assert(forall|j: int|
            0 <= j < u.cols.len() ==> value_fits(#[trigger] u.rows[0][j], u.cols[j].dtype));
    } else {
        assert(distinct_cols(u.cols)) by {
            assert(forall|k: int| 0 <= k < t.cols.len() ==> t.cols[k].name != name);
        }
        assert(u.rows[0].len() == u.cols.len());
        assert(forall|j: int|
            0 <= j < u.cols.len() ==> value_fits(#[trigger] u.rows[0][j], u.cols[j].dtype));
    }
}

impl Table {
    /// Sets `name` to `v` in a single-row table, appending a column of type
    /// `dt` when the name is new.
    pub fn upsert_single_value(&mut self, name: String, dt: DataType, v: Value)
        requires
            old(self)@.rows.len() == 1,
            old(self)@.rows[0].len() == old(self)@.cols.len(),
        ensures
            final(self)@ =~~= upsert_single(old(self)@, name@, dt, v@),
    {
        let found = self.find_column(name.as_str());
        let mut row = self.rows.pop().unwrap();
        match found {
            Some(i) => {
                proof {
                    lemma_find_col_from(self@.cols, name@, 0);
                    assert(row@.len() == old(self)@.rows[0].len());
                }
                row[i] = v;
                self.rows.push(row);
                proof {
                    assert(row@.map_values(|x: Value| x@) =~= old(self)@.rows[0].update(
                        i as int,
                        v@,
                    ));
                    assert(self@ =~~= upsert_single(old(self)@, name@, dt, v@));
                }
            },
            None => {
                self.cols.push(Column { name, dtype: dt });
                row.push(v);
                self.rows.push(row);
                proof {
                    assert(self@.cols =~= old(self)@.cols.push(
                        ColumnView { name: name@, dtype: dt },
                    ));
                    assert(row@.map_values(|x: Value| x@) =~= old(self)@.rows[0].push(v@));
                    assert(self@ =~~= upsert_single(old(self)@, name@, dt, v@));
                }
            },
        }
    }
}

/// Clones one cell.
pub fn clone_value(v: &Value) -> (r: Value)
    ensures
        r@ == v@,
{
    match v {
        Value::Null => Value::Null,
        Value::Int(i) => Value::Int(*i),
        Value::Float(s) => Value::Float(s.clone()),
        Value::Str(s) => Value::Str(s.clone()),
    }
}

/// Clones one row of cells.
pub fn clone_row(r: &Vec<Value>) -> (out: Vec<Value>)
    ensures
        out@.len() == r@.len(),
        forall|k: int| 0 <= k < r@.len() ==> #[trigger] out@[k]@ == r@[k]@,
{
    let mut out: Vec<Value> = Vec::new();
    let mut i: usize = 0;
    while i < r.len()
        invariant
            0 <= i <= r@.len(),
            out@.len() == i,
            forall|k: int| 0 <= k < i ==> #[trigger] out@[k]@ == r@[k]@,
        decreases r@.len() - i,
    {
        out.push(clone_value(&r[i]));
        i = i + 1;
    }
    out
}

/// Clones one column header.
pub fn clone_column(c: &Column) -> (r: Column)
    ensures
        r@ == c@,
{
    Column { name: c.name.clone(), dtype: c.dtype }
}

/// The chosen indices agree with the requested names: entry `k` is the
/// index of the column named `names[k]`.
pub open spec fn sel_idxs_ok(
    t: TableView,
    names: Seq<Seq<char>>,
    idxs: Seq<usize>,
    upto: int,
) -> bool {
    forall|k: int|
        #![trigger names[k]]
        #![trigger idxs[k]]
        0 <= k < upto ==> has_col(t, names[k]) && idxs[k] as int == find_col(t, names[k]) && idxs[k]
            < t.cols.len()
}

/// Appending the index found for the next name extends the agreement.
proof fn lemma_sel_idxs_push(
    t: TableView,
    names: Seq<Seq<char>>,
    idxs: Seq<usize>,
    i: int,
    f: usize,
)
    requires
        sel_idxs_ok(t, names, idxs, i),
        idxs.len() == i,
        0 <= i < names.len(),
        f < t.cols.len(),
        find_col(t, names[i]) == f as int,
    ensures
        sel_idxs_ok(t, names, idxs.push(f), i + 1),
{
    let idxs2 = idxs.push(f);
    assert forall|k: int| #![trigger idxs2[k]] 0 <= k < i + 1 implies has_col(t, names[k])
        && idxs2[k] as int == find_col(t, names[k]) && idxs2[k] < t.cols.len() by {
        if k < i {
            assert(0 <= k < i);
            assert(sel_idxs_ok(t, names, idxs, i));
            assert(idxs[k] == idxs[k]);
            assert(has_col(t, names[k]));
            assert(idxs[k] as int == find_col(t, names[k]));
            assert(idxs[k] < t.cols.len());
            assert(idxs2[k] == idxs[k]);
        } else {
            assert(idxs2[k] == f);
        }
    }
}

/// Every filtered row is one of the source rows.
proof fn lemma_filter_rows_from(rows: Seq<Seq<ValueView>>, f: int, start: int, end: int)
    ensures
        forall|x: int|
            0 <= x < filter_rows(rows, f, start, end).len() ==> rows.contains(
                #[trigger] filter_rows(rows, f, start, end)[x],
            ),
    decreases rows.len(),
{
    if rows.len() > 0 {
        lemma_filter_rows_from(rows.drop_last(), f, start, end);
        let pre = filter_rows(rows.drop_last(), f, start, end);
        assert forall|x: int|
            0 <= x < filter_rows(rows, f, start, end).len() implies rows.contains(
            #[trigger] filter_rows(rows, f, start, end)[x],
        ) by {
            let fr = filter_rows(rows, f, start, end);
            if x < pre.len() {
                assert(fr[x] == pre[x]);
                assert(rows.drop_last().contains(pre[x]));
                let q = choose|q: int|
                    0 <= q < rows.drop_last().len() && rows.drop_last()[q] == pre[x];
                assert(rows[q] == pre[x]);
            } else {
                assert(fr[x] == rows.last());
                assert(rows[rows.len() - 1] == rows.last());
            }
        }
    }
}

/// The first row's value of a column when it holds text, else empty: the
/// empty string stands in for a missing column, a table without rows, a
/// null, and a non-text value alike.
pub open spec fn first_str_value(t: TableView, name: Seq<char>) -> Seq<char> {
    let f = find_col(t, name);
    if f >= 0 && t.rows.len() > 0 && t.rows[0][f] is Str {
        t.rows[0][f]->Str_0
    } else {
        Seq::empty()
    }
}

/// The rows whose value in column `f` is an integer within the closed
/// range, in order; rows with a null or non-integer value drop out.
pub open spec fn filter_rows(
    rows: Seq<Seq<ValueView>>,
    f: int,
    start: int,
    end: int,
) -> Seq<Seq<ValueView>>
    decreases rows.len(),
{
    if rows.len() == 0 {
        Seq::empty()
    } else {
        let pre = filter_rows(rows.drop_last(), f, start, end);
        match rows.last()[f] {
            ValueView::Int(v) => if start <= v <= end {
                pre.push(rows.last())
            } else {
                pre
            },
            _ => pre,
        }
    }
}

/// What filtering on the epoch-seconds column yields: the same columns and
/// the rows whose `measure_time1970` lies in the closed range; nothing when
/// the table has no such column.
pub open spec fn filter_spec(t: TableView, start: int, end: int) -> Option<TableView> {
    let f = find_col(t, "measure_time1970"@);
    if f < 0 {
        None
    } else {
        Some(TableView { cols: t.cols, rows: filter_rows(t.rows, f, start, end) })
    }
}

/// What selecting a comma-separated list of column names yields: the named
/// columns in request order with every row projected to them; the whole
/// table when the request is empty; nothing when a name is unknown or
/// requested twice.
pub open spec fn select_spec(t: TableView, columns: Seq<char>) -> Option<TableView> {
    if columns.len() == 0 {
        Some(t)
    } else {
        let names = crate::text::split_char(columns, ',');
        if (forall|i: int| 0 <= i < names.len() ==> has_col(t, #[trigger] names[i])) && (forall|
            i: int,
            j: int,
        | 0 <= i < j < names.len() ==> names[i] != names[j]) {
            Some(
                TableView {
                    cols: Seq::new(names.len(), |i: int| t.cols[find_col(t, names[i])]),
                    rows: t.rows.map_values(
                        |r: Seq<ValueView>| Seq::new(names.len(), |i: int| r[find_col(t, names[i])]),
                    ),
                },
            )
        } else {
            None
        }
    }
}

impl Table {
    /// Returns the first value of the named column when it holds text, and
    /// the empty string in every other case.
    pub fn first_value_or_empty_string(&self, column_name: &str) -> (r: String)
        requires
            wf(self@),
        ensures
            r@ == first_str_value(self@, column_name@),
    {
        match self.find_column(column_name) {
            Some(f) => {
                if self.rows.len() > 0 {
                    proof {
                        assert(self@.rows[0].len() == self@.cols.len());
                        assert(self.rows@[0]@.len() == self@.rows[0].len());
                    }
                    match &self.rows[0][f] {
                        Value::Str(s) => s.clone(),
                        _ => String::new(),
                    }
                } else {
                    String::new()
                }
            },
            None => String::new(),
        }
    }

    /// Keeps the rows whose `measure_time1970` value lies between the two
    /// epoch-second bounds, inclusive; a table without that column yields
    /// nothing.
    pub fn filter_dataframe_by_measure_time(&self, start: i64, end: i64) -> (r: Option<Table>)
        requires
            wf(self@),
        ensures
            match r {
                Some(out) => filter_spec(self@, start as int, end as int) == Some(out@) && wf(
                    out@,
                ),
                None => filter_spec(self@, start as int, end as int) is None,
            },
    {
        let f = match self.find_column("measure_time1970") {
            None => {
                return None;
            },
            Some(f) => f,
        };
        let n = self.rows.len();
        let mut kept: Vec<Vec<Value>> = Vec::new();
        let mut i: usize = 0;
        while i < n
            invariant
                0 <= i <= n,
                n == self@.rows.len(),
                wf(self@),
                0 <= f < self@.cols.len(),
                kept@.map_values(|rr: Vec<Value>| rr@.map_values(|v: Value| v@)) =~~= filter_rows(
                    self@.rows.subrange(0, i as int),
                    f as int,
                    start as int,
                    end as int,
                ),
            decreases n - i,
        {
            let ghost pre = self@.rows.subrange(0, i as int);
            let ghost cur = self@.rows.subrange(0, i + 1);
            proof {
                assert(cur.drop_last() =~= pre);
                assert(cur.last() == self@.rows[i as int]);
                assert(self@.rows[i as int].len() == self@.cols.len());
                assert(self.rows@[i as int]@.len() == self@.rows[i as int].len());
            }
            let keep = match &self.rows[i][f] {
                Value::Int(v) => start <= *v && *v <= end,
                _ => false,
            };
            if keep {
                let row2 = clone_row(&self.rows[i]);
                proof {
                    assert(row2@.map_values(|v: Value| v@) =~= self@.rows[i as int]);
                }
                kept.push(row2);
            }
            proof {
                assert(kept@.map_values(|rr: Vec<Value>| rr@.map_values(|v: Value| v@))
                    =~~= filter_rows(cur, f as int, start as int, end as int));
            }
            i = i + 1;
        }
        let mut cols2: Vec<Column> = Vec::new();
        let mut j: usize = 0;
        while j < self.cols.len()
            invariant
                0 <= j <= self@.cols.len(),
                cols2@.len() == j,
                forall|k: int| 0 <= k < j ==> #[trigger] cols2@[k]@ == self@.cols[k],
            decreases self@.cols.len() - j,
        {
            cols2.push(clone_column(&self.cols[j]));
            j = j + 1;
        }
        let out = Table { cols: cols2, rows: kept };
        proof {
            assert(self@.rows.subrange(0, n as int) =~= self@.rows);
            assert(out@.cols =~~= self@.cols);
            assert(out@ =~~= (TableView {
                cols: self@.cols,
                rows: filter_rows(self@.rows, f as int, start as int, end as int),
            }));
            lemma_filter_rows_from(self@.rows, f as int, start as int, end as int);
            assert(wf(out@)) by {
                let fr = filter_rows(self@.rows, f as int, start as int, end as int);
                assert forall|x: int, y: int|
                    0 <= x < out@.rows.len() && 0 <= y < out@.cols.len() implies value_fits(
                    #[trigger] out@.rows[x][y],
                    out@.cols[y].dtype,
                ) by {
                    assert(self@.rows.contains(fr[x]));
                    let src = choose|q: int|
                        0 <= q < self@.rows.len() && self@.rows[q] == fr[x];
                    assert(value_fits(self@.rows[src][y], self@.cols[y].dtype));
                }
                assert forall|x: int| 0 <= x < out@.rows.len() implies #[trigger] out@.rows[x].len()
                    == out@.cols.len() by {
                    let fr2 = filter_rows(self@.rows, f as int, start as int, end as int);
                    assert(self@.rows.contains(fr2[x]));
                    let src = choose|q: int|
                        0 <= q < self@.rows.len() && self@.rows[q] == fr2[x];
                    assert(self@.rows[src].len() == self@.cols.len());
                }
            }
        }
        Some(out)
    }

    /// Projects the table onto a comma-separated list of column names, in
    /// request order; an empty request keeps every column. An unknown or
    /// repeated name yields nothing.
    pub fn select_dataframe_columns(&self, columns: &str) -> (r: Option<Table>)
        requires
            wf(self@),
        ensures
            match r {
                Some(out) => select_spec(self@, columns@) == Some(out@) && wf(out@),
                None => select_spec(self@, columns@) is None,
            },
    {
        if columns.is_empty() {
            let mut cols2: Vec<Column> = Vec::new();
            let mut j: usize = 0;
            while j < self.cols.len()
                invariant
                    0 <= j <= self@.cols.len(),
                    cols2@.len() == j,
                    forall|k: int| 0 <= k < j ==> #[trigger] cols2@[k]@ == self@.cols[k],
                decreases self@.cols.len() - j,
            {
                cols2.push(clone_column(&self.cols[j]));
                j = j + 1;
            }
            let mut rows2: Vec<Vec<Value>> = Vec::new();
            let mut i: usize = 0;
            while i < self.rows.len()
                invariant
                    0 <= i <= self@.rows.len(),
                    rows2@.len() == i,
                    forall|x: int|
                        #![trigger rows2@[x]]
                        0 <= x < i ==> rows2@[x]@.map_values(|v: Value| v@) =~= self@.rows[x],
                decreases self@.rows.len() - i,
            {
                let row2 = clone_row(&self.rows[i]);
                proof {
                    assert(self.rows@[i as int]@.len() == self@.rows[i as int].len());
                    assert(row2@.map_values(|v: Value| v@) =~= self@.rows[i as int]);
                }
                rows2.push(row2);
                i = i + 1;
            }
            let out = Table { cols: cols2, rows: rows2 };
            proof {
                assert(out@.cols =~~= self@.cols);
                assert(out@.rows =~~= self@.rows) by {
                    assert forall|x: int| 0 <= x < self@.rows.len() implies out@.rows[x]
                        =~= self@.rows[x] by {
                        assert(out@.rows[x] == rows2@[x]@.map_values(|v: Value| v@));
                    }
                }
                assert(out@ =~~= self@);
            }
            return Some(out);
        }
        let req_chars = crate::text::str_to_chars(columns);
        let toks = crate::text::split_chars(req_chars.as_slice(), ',');
        let ghost names = crate::text::split_char(columns@, ',');
        proof {
            assert(toks.deep_view() == names);
        }
        let m = toks.len();
        let mut idxs: Vec<usize> = Vec::new();
        let mut i: usize = 0;
        while i < m
            invariant
                0 <= i <= m,
                m == toks@.len(),
                toks.deep_view() == names,
                names == crate::text::split_char(columns@, ','),
                columns@.len() != 0,
                names.len() == m,
                wf(self@),
                idxs@.len() == i,
                sel_idxs_ok(self@, names, idxs@, i as int),
                forall|k1: int, k2: int| 0 <= k1 < k2 < i ==> names[k1] != names[k2],
            decreases m - i,
        {
            proof {
                assert(toks@[i as int]@ == names[i as int]);
            }
            let name_str = crate::text::chars_to_string(toks[i].as_slice());
            match self.find_column(name_str.as_str()) {
                None => {
                    proof {
                        assert(!has_col(self@, names[i as int]));
                        assert(select_spec(self@, columns@) is None);
                    }
                    return None;
                },
                Some(f) => {
                    // a repeated name maps to the same index
                    let mut k: usize = 0;
                    while k < i
                        invariant
                            0 <= k <= i < m,
                            names == crate::text::split_char(columns@, ','),
                            columns@.len() != 0,
                            names.len() == m,
                            wf(self@),
                            idxs@.len() == i,
                            0 <= f < self@.cols.len(),
                            find_col(self@, names[i as int]) == f,
                            self@.cols[f as int].name == names[i as int],
                            sel_idxs_ok(self@, names, idxs@, i as int),
                            forall|x: int| 0 <= x < k ==> names[x] != names[i as int],
                        decreases i - k,
                    {
                        proof {
                            assert(idxs@[k as int] as int == find_col(self@, names[k as int]));
                        }
                        if idxs[k] == f {
                            proof {
                                assert(idxs@[k as int] as int == find_col(
                                    self@,
                                    names[k as int],
                                ));
                                lemma_find_col_from(self@.cols, names[k as int], 0);
                                assert(self@.cols[f as int].name == names[k as int]);
                                assert(names[k as int] == names[i as int]);
                                assert(select_spec(self@, columns@) is None);
                            }
                            return None;
                        }
                        proof {
                            if names[k as int] == names[i as int] {
                                assert(find_col(self@, names[k as int]) == f);
                            }
                        }
                        k = k + 1;
                    }
                    let ghost pre_idxs = idxs@;
                    idxs.push(f);
                    proof {
                        lemma_sel_idxs_push(self@, names, pre_idxs, i as int, f);
                        assert(idxs@ == pre_idxs.push(f));
                        assert(sel_idxs_ok(self@, names, idxs@, i + 1));
                    }
                },
            }
            i = i + 1;
        }
        // build the projection
        let ghost sel = select_spec(self@, columns@) ->Some_0;
        proof {
            assert forall|k: int| 0 <= k < m implies has_col(self@, #[trigger] names[k]) by {
                assert(idxs@[k] as int == find_col(self@, names[k]));
            }
            assert(select_spec(self@, columns@) is Some);
        }
        let mut cols2: Vec<Column> = Vec::new();
        let mut i: usize = 0;
        while i < m
            invariant
                0 <= i <= m,
                m == idxs@.len(),
                names.len() == m,
                wf(self@),
                sel_idxs_ok(self@, names, idxs@, m as int),
                cols2@.len() == i,
                forall|k: int|
                    0 <= k < i ==> #[trigger] cols2@[k]@ == self@.cols[find_col(self@, names[k])],
            decreases m - i,
        {
            proof {
                assert(idxs@[i as int] as int == find_col(self@, names[i as int]));
            }
            cols2.push(clone_column(&self.cols[idxs[i]]));
            i = i + 1;
        }
        let mut rows2: Vec<Vec<Value>> = Vec::new();
        let mut x: usize = 0;
        while x < self.rows.len()
            invariant
                0 <= x <= self@.rows.len(),
                m == idxs@.len(),
                names.len() == m,
                wf(self@),
                sel_idxs_ok(self@, names, idxs@, m as int),
                rows2@.len() == x,
                forall|y: int|
                    #![trigger rows2@[y]]
                    0 <= y < x ==> rows2@[y]@.map_values(|v: Value| v@) =~= Seq::new(
                        names.len(),
                        |k: int| self@.rows[y][find_col(self@, names[k])],
                    ),
            decreases self@.rows.len() - x,
        {
            let mut row2: Vec<Value> = Vec::new();
            let mut k: usize = 0;
            proof {
                assert(self@.rows[x as int].len() == self@.cols.len());
                assert(self.rows@[x as int]@.len() == self@.rows[x as int].len());
            }
            while k < m
                invariant
                    0 <= k <= m,
                    0 <= x < self@.rows.len(),
                    m == idxs@.len(),
                    names.len() == m,
                    wf(self@),
                    sel_idxs_ok(self@, names, idxs@, m as int),
                    self.rows@[x as int]@.len() == self@.cols.len(),
                    self@.rows[x as int].len() == self@.cols.len(),
                    row2@.len() == k,
                    forall|kk: int|
                        0 <= kk < k ==> #[trigger] row2@[kk]@ == self@.rows[x as int][find_col(
                            self@,
                            names[kk],
                        )],
                decreases m - k,
            {
                proof {
                    assert(idxs@[k as int] as int == find_col(self@, names[k as int]));
                }
                let v = clone_value(&self.rows[x][idxs[k]]);
                proof {
                    assert(v@ == self@.rows[x as int][idxs@[k as int] as int]);
                }
                row2.push(v);
                k = k + 1;
            }
            proof {
                assert(row2@.map_values(|v: Value| v@) =~= Seq::new(
                    names.len(),
                    |kk: int| self@.rows[x as int][find_col(self@, names[kk])],
                ));
            }
            rows2.push(row2);
            x = x + 1;
        }
        let out = Table { cols: cols2, rows: rows2 };
        proof {
            assert(out@.cols =~~= sel.cols);
            assert(out@.rows =~~= sel.rows) by {
                assert forall|y: int| 0 <= y < self@.rows.len() implies out@.rows[y] =~= sel.rows[y]
                    by {
                    assert(out@.rows[y] == rows2@[y]@.map_values(|v: Value| v@));
                }
            }
            assert(out@ =~~= sel);
            assert(wf(out@)) by {
                assert forall|i1: int, j1: int| 0 <= i1 < j1 < out@.cols.len() implies out@.cols[
                    i1
                ].name != out@.cols[j1].name by {
                    lemma_find_col_from(self@.cols, names[i1], 0);
                    lemma_find_col_from(self@.cols, names[j1], 0);
                    assert(out@.cols[i1].name == names[i1]);
                    assert(out@.cols[j1].name == names[j1]);
                }
                assert(forall|y: int|
                    0 <= y < out@.rows.len() ==> #[trigger] out@.rows[y].len()
                        == out@.cols.len());
                assert forall|y: int, k1: int|
                    0 <= y < out@.rows.len() && 0 <= k1 < out@.cols.len() implies value_fits(
                    #[trigger] out@.rows[y][k1],
                    out@.cols[k1].dtype,
                ) by {
                    lemma_find_col_from(self@.cols, names[k1], 0);
                    assert(out@.rows[y][k1] == self@.rows[y][find_col(self@, names[k1])]);
                    assert(out@.cols[k1] == self@.cols[find_col(self@, names[k1])]);
                }
            }
        }
        Some(out)
    }
}

/// The set of column names of a table view.
pub open spec fn col_name_set(cols: Seq<ColumnView>) -> Set<Seq<char>> {
    cols.map_values(|c: ColumnView| c.name).to_set()
}

/// The static name-to-type lookup: the fixed set of measurement quantities
/// carried as 64-bit floats, the epoch-seconds column carried as a 64-bit
/// integer, and text for every other name.
pub open spec fn spec_dtype_for(name: Seq<char>) -> DataType {
    if name == "measure_time1970"@ {
        DataType::Int64
    } else if name == "centervalue"@ || name == "check_wall_min_minlimit"@ || name
        == "check_wall_min_nomlimit"@ || name == "check_wall_mean_minlimit"@ || name
        == "check_wall_mean_nomlimit"@ || name == "diameter_outer_mean"@ || name
        == "wall_extra_percent"@ || name == "check_diameter_outer_mean_nomlimit"@ || name
        == "area_outer"@ || name == "diameter_outer_max"@ || name == "ovality"@ || name
        == "wall_min"@ || name == "area_wall"@ || name == "wall_mean"@ {
        DataType::Float64
    } else {
        DataType::Str
    }
}

/// Executable mirror of `spec_dtype_for`.
pub fn dtype_for(name: &str) -> (r: DataType)
    ensures
        r == spec_dtype_for(name@),
{
    if crate::text::str_eq(name, "measure_time1970") {
        DataType::Int64
    } else if crate::text::str_eq(name, "centervalue") || crate::text::str_eq(
        name,
        "check_wall_min_minlimit",
    ) || crate::text::str_eq(name, "check_wall_min_nomlimit") || crate::text::str_eq(
        name,
        "check_wall_mean_minlimit",
    ) || crate::text::str_eq(name, "check_wall_mean_nomlimit") || crate::text::str_eq(
        name,
        "diameter_outer_mean",
    ) || crate::text::str_eq(name, "wall_extra_percent") || crate::text::str_eq(
        name,
        "check_diameter_outer_mean_nomlimit",
    ) || crate::text::str_eq(name, "area_outer") || crate::text::str_eq(
        name,
        "diameter_outer_max",
    ) || crate::text::str_eq(name, "ovality") || crate::text::str_eq(name, "wall_min")
        || crate::text::str_eq(name, "area_wall") || crate::text::str_eq(name, "wall_mean") {
        DataType::Float64
    } else {
        DataType::Str
    }
}

} // verus!

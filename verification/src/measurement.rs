//! Parser for measurement files — repeating pairs of tab-separated header
//! and value lines — and the schema reconciler that aligns each parsed
//! row's column set with the accumulated table before appending it.
//!
//! Policy for malformed cells (the lenient variant): a value that does not
//! parse as its column's declared numeric type becomes a null, and a pair
//! whose headers repeat a name is silently discarded.

use vstd::prelude::*;
use vstd::string::StringExecFns;
use crate::error::ParseError;
use crate::num::{int_text_value, is_float_text, is_i64_text};
use crate::table::{
    clone_row, clone_value, distinct_cols, find_col, find_col_from, spec_dtype_for,
    value_fits, wf, Column, ColumnView, DataType, Table, TableView, Value, ValueView,
};
use crate::text::{
    chars_eq, chars_to_string, split_char, split_chars, str_to_chars, trim_char_spec, trim_spec,
};

verus! {

/// A header token after trimming whitespace and stripping the surrounding
/// quote characters.
pub open spec fn clean_header(tok: Seq<char>) -> Seq<char> {
    trim_char_spec(trim_spec(tok), '"')
}

/// The parsed cell for a declared type and a raw value token: numeric
/// types parse their text, yielding null when the text does not parse; the
/// text type keeps the token as it stands.
pub open spec fn parse_cell_typed(data_type: DataType, raw: Seq<char>) -> ValueView {
    match data_type {
        DataType::Int64 => if is_i64_text(raw) {
            ValueView::Int(int_text_value(raw))
        } else {
            ValueView::Null
        },
        DataType::Float64 => if is_float_text(raw) {
            ValueView::Float(raw)
        } else {
            ValueView::Null
        },
        DataType::Str => ValueView::Str(raw),
    }
}

/// The parsed cell for a column name: its declared type comes from the
/// static lookup.
pub open spec fn parse_cell(name: Seq<char>, raw: Seq<char>) -> ValueView {
    parse_cell_typed(spec_dtype_for(name), raw)
}

/// Parses one raw value token into a cell of the declared type; a numeric
/// text that does not parse yields a null (the lenient policy).
pub fn parse_column(value: &[char], data_type: DataType) -> (v: Value)
    ensures
        v@ == parse_cell_typed(data_type, value@),
{
    match data_type {
        DataType::Int64 => {
            match crate::num::parse_i64(value) {
                Some(x) => Value::Int(x),
                None => Value::Null,
            }
        },
        DataType::Float64 => {
            if crate::num::is_float_chars(value) {
                Value::Float(chars_to_string(value))
            } else {
                Value::Null
            }
        },
        DataType::Str => Value::Str(chars_to_string(value)),
    }
}

/// Pairwise-distinct name sequences.
pub open spec fn distinct_names(names: Seq<Seq<char>>) -> bool {
    forall|i: int, j: int| 0 <= i < j < names.len() ==> names[i] != names[j]
}

/// How parsing one header/value pair can end.
pub enum PairOutcome {
    /// A single-row table: one column per header token, in token order.
    Row(TableView),
    /// The two lines split into different numbers of tokens.
    Mismatch,
    /// The cleaned header tokens repeat a name.
    Duplicate,
}

/// The cleaned header names of a header line.
pub open spec fn header_names(hdr_line: Seq<char>) -> Seq<Seq<char>> {
    split_char(hdr_line, '\t').map_values(|tok: Seq<char>| clean_header(tok))
}

/// What parsing one header/value pair yields.
pub open spec fn pair_parse(hdr_line: Seq<char>, val_line: Seq<char>) -> PairOutcome {
    let names = header_names(hdr_line);
    let vals = split_char(val_line, '\t');
    if names.len() != vals.len() {
        PairOutcome::Mismatch
    } else if !distinct_names(names) {
        PairOutcome::Duplicate
    } else {
        PairOutcome::Row(
            TableView {
                cols: names.map_values(
                    |n: Seq<char>| ColumnView { name: n, dtype: spec_dtype_for(n) },
                ),
                rows: seq![Seq::new(names.len(), |j: int| parse_cell(names[j], vals[j]))],
            },
        )
    }
}

/// Every column's declared type agrees with the static lookup. The parser
/// maintains this for every table it builds, which is what makes row
/// reconciliation total.
pub open spec fn lookup_typed(t: TableView) -> bool {
    forall|k: int|
        0 <= k < t.cols.len() ==> #[trigger] t.cols[k].dtype == spec_dtype_for(t.cols[k].name)
}

/// The names among `bcols` (from index `j` on) that are absent from
/// `acols`, in order.
pub open spec fn missing_names(bcols: Seq<ColumnView>, acols: Seq<ColumnView>, j: int) -> Seq<
    Seq<char>,
>
    decreases bcols.len() - j,
{
    if j < 0 || j >= bcols.len() {
        Seq::empty()
    } else if find_col_from(acols, bcols[j].name, 0) >= 0 {
        missing_names(bcols, acols, j + 1)
    } else {
        seq![bcols[j].name] + missing_names(bcols, acols, j + 1)
    }
}

/// A row of `k` nulls.
pub open spec fn null_row(k: nat) -> Seq<ValueView> {
    Seq::new(k, |x: int| ValueView::Null)
}

/// A table with typed null columns of the given names appended: each new
/// column's type comes from the static lookup, and every row grows by that
/// many nulls.
pub open spec fn with_null_cols(t: TableView, names: Seq<Seq<char>>) -> TableView {
    TableView {
        cols: t.cols + names.map_values(
            |n: Seq<char>| ColumnView { name: n, dtype: spec_dtype_for(n) },
        ),
        rows: t.rows.map_values(|r: Seq<ValueView>| r + null_row(names.len())),
    }
}

/// The single row of `b` rearranged to the column order `cols2`, with a
/// null in every column `b` lacks.
pub open spec fn aligned_row(cols2: Seq<ColumnView>, b: TableView) -> Seq<ValueView> {
    Seq::new(
        cols2.len(),
        |j: int|
            {
                let f = find_col_from(b.cols, cols2[j].name, 0);
                if f >= 0 {
                    b.rows[0][f]
                } else {
                    ValueView::Null
                }
            },
    )
}

/// The schema reconciler: `a`'s columns first, then `b`'s columns that `a`
/// lacks as typed null columns; `a`'s rows padded with nulls, and `b`'s
/// single row appended in the shared column order.
pub open spec fn reconcile(a: TableView, b: TableView) -> TableView {
    let t2 = with_null_cols(a, missing_names(b.cols, a.cols, 0));
    TableView { cols: t2.cols, rows: t2.rows.push(aligned_row(t2.cols, b)) }
}

/// When row insertion cannot fail: every column shared by `a` and `b`
/// declares the same type on both sides, and a column only `b` has agrees
/// with the static lookup.
pub open spec fn align_ok(a: TableView, b: TableView) -> bool {
    forall|j: int|
        #![trigger b.cols[j]]
        0 <= j < b.cols.len() ==> {
            let f = find_col_from(a.cols, b.cols[j].name, 0);
            if f >= 0 {
                a.cols[f].dtype == b.cols[j].dtype
            } else {
                b.cols[j].dtype == spec_dtype_for(b.cols[j].name)
            }
        }
}

/// What `missing_names` returns: names of `b` absent from `a`, pairwise
/// distinct, covering every absent name of `b`.
pub proof fn lemma_missing_names(bcols: Seq<ColumnView>, acols: Seq<ColumnView>, j: int)
    requires
        0 <= j <= bcols.len(),
        distinct_cols(bcols),
    ensures
        ({
            let m = missing_names(bcols, acols, j);
            &&& forall|k: int|
                0 <= k < m.len() ==> find_col_from(acols, #[trigger] m[k], 0) == -1 && exists|
                    x: int,
                |
                    j <= x < bcols.len() && #[trigger] bcols[x].name == m[k]
            &&& forall|k1: int, k2: int| 0 <= k1 < k2 < m.len() ==> m[k1] != m[k2]
            &&& forall|x: int|
                j <= x < bcols.len() && find_col_from(acols, #[trigger] bcols[x].name, 0) == -1
                    ==> m.contains(bcols[x].name)
        }),
    decreases bcols.len() - j,
{
    if j == bcols.len() {
    } else {
        lemma_missing_names(bcols, acols, j + 1);
        let m1 = missing_names(bcols, acols, j + 1);
        let m = missing_names(bcols, acols, j);
        if find_col_from(acols, bcols[j].name, 0) >= 0 {
            assert(forall|x: int|
                j <= x < bcols.len() && find_col_from(acols, #[trigger] bcols[x].name, 0) == -1
                    ==> m.contains(bcols[x].name)) by {
                assert(forall|n: Seq<char>| m1.contains(n) ==> m.contains(n));
            }
            assert forall|k: int| 0 <= k < m.len() implies find_col_from(acols, #[trigger] m[k], 0)
                == -1 && exists|x: int| j <= x < bcols.len() && #[trigger] bcols[x].name == m[k] by {
                assert(m[k] == m1[k]);
                let x = choose|x: int|
                    j + 1 <= x < bcols.len() && #[trigger] bcols[x].name == m1[k];
                assert(j <= x < bcols.len() && bcols[x].name == m[k]);
            }
        } else {
            crate::table::lemma_find_col_from(acols, bcols[j].name, 0);
            assert(find_col_from(acols, bcols[j].name, 0) == -1);
            assert(m == seq![bcols[j].name] + m1);
            assert(m[0] == bcols[j].name);
            // the head is distinct from every later entry, which names a
            // later column of `b`
            assert(forall|k: int| 0 <= k < m1.len() ==> m[k + 1] == #[trigger] m1[k]);
            assert(forall|k2: int| #![trigger m[k2]] 1 <= k2 < m.len() ==> m[0] != m[k2]) by {
                assert forall|k2: int| #![trigger m[k2]] 1 <= k2 < m.len() implies m[0]
                    != m[k2] by {
                    let x = choose|x: int|
                        j + 1 <= x < bcols.len() && #[trigger] bcols[x].name == m1[k2 - 1];
                    assert(bcols[j].name != bcols[x].name);
                }
            }
            assert(forall|x: int|
                j <= x < bcols.len() && find_col_from(acols, #[trigger] bcols[x].name, 0) == -1
                    ==> m.contains(bcols[x].name)) by {
                assert forall|x: int|
                    j <= x < bcols.len() && find_col_from(acols, #[trigger] bcols[x].name, 0)
                        == -1 implies m.contains(bcols[x].name) by {
                    if x == j {
                        assert(m[0] == bcols[x].name);
                    } else {
                        let k = choose|k: int|
                            0 <= k < m1.len() && #[trigger] m1[k] == bcols[x].name;
                        assert(m[k + 1] == bcols[x].name);
                    }
                }
            }
            assert forall|k: int| 0 <= k < m.len() implies find_col_from(acols, #[trigger] m[k], 0)
                == -1 && exists|x: int| j <= x < bcols.len() && #[trigger] bcols[x].name == m[k] by {
                if k == 0 {
                    assert(bcols[j].name == m[0]);
                } else {
                    assert(m[k] == m1[k - 1]);
                    let x = choose|x: int|
                        j + 1 <= x < bcols.len() && #[trigger] bcols[x].name == m1[k - 1];
                    assert(j <= x < bcols.len() && bcols[x].name == m[k]);
                }
            }
        }
    }
}

/// The names of `from`'s columns that `into` lacks, in column order.
fn missing_names_vec(from: &Table, into: &Table) -> (r: Vec<String>)
    ensures
        r.deep_view() =~~= missing_names(from@.cols, into@.cols, 0),
{
    let n = from.cols.len();
    let mut r: Vec<String> = Vec::new();
    let mut j: usize = 0;
    proof {
        assert(r.deep_view() + missing_names(from@.cols, into@.cols, 0) =~~= missing_names(
            from@.cols,
            into@.cols,
            0,
        ));
    }
    while j < n
        invariant
            0 <= j <= n,
            n == from@.cols.len(),
            missing_names(from@.cols, into@.cols, 0) =~~= r.deep_view() + missing_names(
                from@.cols,
                into@.cols,
                j as int,
            ),
        decreases n - j,
    {
        match into.find_column(from.cols[j].name.as_str()) {
            Some(_) => {
            },
            None => {
                let ghost old_deep = r.deep_view();
                let nm = from.cols[j].name.clone();
                proof {
                    assert(missing_names(from@.cols, into@.cols, j as int) =~~= seq![nm@]
                        + missing_names(from@.cols, into@.cols, j + 1));
                    assert(old_deep + (seq![nm@] + missing_names(from@.cols, into@.cols, j + 1))
                        =~~= old_deep.push(nm@) + missing_names(from@.cols, into@.cols, j + 1));
                }
                r.push(nm);
                proof {
                    assert(r.deep_view() =~~= old_deep.push(from@.cols[j as int].name));
                }
            },
        }
        j = j + 1;
    }
    r
}

/// The column names unique to each of two tables: first those of `a` that
/// `b` lacks, then those of `b` that `a` lacks, each in column order.
pub fn find_column_name_differences(a: &Table, b: &Table) -> (r: (Vec<String>, Vec<String>))
    ensures
        r.0.deep_view() =~~= missing_names(a@.cols, b@.cols, 0),
        r.1.deep_view() =~~= missing_names(b@.cols, a@.cols, 0),
{
    (missing_names_vec(a, b), missing_names_vec(b, a))
}

/// Appends a typed null column for each given name: the column's type comes
/// from the static lookup, and every row grows by one null per name.
pub fn add_null_columns(dataframe: &mut Table, column_names: &Vec<String>)
    requires
        wf(old(dataframe)@),
        forall|k: int|
            0 <= k < column_names@.len() ==> find_col(
                old(dataframe)@,
                #[trigger] column_names@[k]@,
            ) == -1,
        distinct_names(column_names.deep_view()),
    ensures
        final(dataframe)@ =~~= with_null_cols(old(dataframe)@, column_names.deep_view()),
        wf(final(dataframe)@),
{
    let ghost a0 = old(dataframe)@;
    let ghost names = column_names.deep_view();
    let n = column_names.len();
    let old_width = dataframe.cols.len();
    let mut i: usize = 0;
    while i < n
        invariant
            0 <= i <= n,
            n == column_names@.len(),
            names == column_names.deep_view(),
            old_width == a0.cols.len(),
            dataframe@.rows == a0.rows,
            dataframe@.cols.len() == old_width + i,
            forall|k: int| 0 <= k < old_width ==> #[trigger] dataframe@.cols[k] == a0.cols[k],
            forall|k: int|
                0 <= k < i ==> #[trigger] dataframe@.cols[old_width + k] == (ColumnView {
                    name: names[k],
                    dtype: spec_dtype_for(names[k]),
                }),
        decreases n - i,
    {
        let nm = column_names[i].clone();
        let dt = crate::table::dtype_for(nm.as_str());
        proof {
            assert(nm@ == names[i as int]);
        }
        let ghost pre = dataframe@.cols;
        let ghost colv = ColumnView { name: nm@, dtype: dt };
        dataframe.cols.push(Column { name: nm, dtype: dt });
        proof {
            assert(dataframe@.cols =~~= pre.push(colv));
        }
        i = i + 1;
    }
    let mut new_rows: Vec<Vec<Value>> = Vec::new();
    let height = dataframe.rows.len();
    let mut ri: usize = 0;
    while ri < height
        invariant
            0 <= ri <= height,
            height == dataframe@.rows.len(),
            dataframe@.rows == a0.rows,
            n == column_names@.len(),
            new_rows@.len() == ri,
            forall|x: int|
                #![trigger new_rows@[x]]
                0 <= x < ri ==> new_rows@[x]@.map_values(|v: Value| v@) =~= a0.rows[x] + null_row(
                    n as nat,
                ),
        decreases height - ri,
    {
        let mut r2 = clone_row(&dataframe.rows[ri]);
        let mut k: usize = 0;
        while k < n
            invariant
                0 <= k <= n,
                r2@.len() == a0.rows[ri as int].len() + k,
                0 <= ri < a0.rows.len(),
                forall|x: int|
                    0 <= x < a0.rows[ri as int].len() ==> #[trigger] r2@[x]@ == a0.rows[ri as int][x],
                forall|x: int|
                    a0.rows[ri as int].len() <= x < r2@.len() ==> #[trigger] r2@[x]@
                        == ValueView::Null,
            decreases n - k,
        {
            r2.push(Value::Null);
            k = k + 1;
        }
        proof {
            assert(r2@.map_values(|v: Value| v@) =~= a0.rows[ri as int] + null_row(n as nat));
        }
        new_rows.push(r2);
        ri = ri + 1;
    }
    dataframe.rows = new_rows;
    proof {
        let u = with_null_cols(a0, names);
        assert(dataframe@.cols =~~= u.cols) by {
            assert forall|x: int| 0 <= x < u.cols.len() implies dataframe@.cols[x] == u.cols[x] by {
                if x >= old_width {
                    assert(dataframe@.cols[old_width + (x - old_width)] == (ColumnView {
                        name: names[x - old_width],
                        dtype: spec_dtype_for(names[x - old_width]),
                    }));
                }
            }
        }
        assert(dataframe@.rows =~~= u.rows) by {
            assert forall|x: int| 0 <= x < u.rows.len() implies dataframe@.rows[x] =~= u.rows[x] by {
                assert(new_rows@[x]@.map_values(|v: Value| v@) =~= a0.rows[x] + null_row(n as nat));
                assert(dataframe@.rows[x] == new_rows@[x]@.map_values(|v: Value| v@));
            }
        }
        assert(dataframe@ =~~= u);
        lemma_with_null_cols_wf(a0, names);
    }
}

/// Appending fresh, distinct typed null columns keeps a table well-formed.
proof fn lemma_with_null_cols_wf(t: TableView, names: Seq<Seq<char>>)
    requires
        wf(t),
        forall|k: int| 0 <= k < names.len() ==> find_col(t, #[trigger] names[k]) == -1,
        distinct_names(names),
    ensures
        wf(with_null_cols(t, names)),
{
    let u = with_null_cols(t, names);
    assert(distinct_cols(u.cols)) by {
        assert forall|i: int, j: int| 0 <= i < j < u.cols.len() implies u.cols[i].name
            != u.cols[j].name by {
            if j >= t.cols.len() {
                crate::table::lemma_find_col_from(t.cols, names[j - t.cols.len()], 0);
                if i >= t.cols.len() {
                    assert(names[i - t.cols.len()] != names[j - t.cols.len()]);
                } else {
                    assert(t.cols[i].name != names[j - t.cols.len()]);
                }
            }
        }
    }
    assert(forall|i: int| 0 <= i < u.rows.len() ==> #[trigger] u.rows[i].len() == u.cols.len());
    assert forall|i: int, j: int|
        0 <= i < u.rows.len() && 0 <= j < u.cols.len() implies value_fits(
        #[trigger] u.rows[i][j],
        u.cols[j].dtype,
    ) by {
        if j < t.cols.len() {
            assert(u.rows[i][j] == t.rows[i][j]);
        } else {
            assert(u.rows[i][j] == ValueView::Null);
        }
    }
}

/// In a table with distinct column names, looking a column's own name up
/// finds that column.
proof fn lemma_find_own_col(cols: Seq<ColumnView>, j: int)
    requires
        distinct_cols(cols),
        0 <= j < cols.len(),
    ensures
        find_col_from(cols, cols[j].name, 0) == j,
{
    crate::table::lemma_find_col_from(cols, cols[j].name, 0);
    let f = find_col_from(cols, cols[j].name, 0);
    if f == -1 {
        assert(cols[j].name != cols[j].name);
    } else if f < j {
        assert(cols[f].name == cols[j].name);
    } else if j < f {
        assert(cols[j].name != cols[j].name);
    }
}

/// Reconciling a well-formed single row into a well-formed table under
/// `align_ok` yields a well-formed table.
proof fn lemma_reconcile_wf(a: TableView, b: TableView)
    requires
        wf(a),
        wf(b),
        b.rows.len() == 1,
        align_ok(a, b),
    ensures
        wf(reconcile(a, b)),
{
    let m = missing_names(b.cols, a.cols, 0);
    lemma_missing_names(b.cols, a.cols, 0);
    let u = reconcile(a, b);
    let cols2 = u.cols;
    assert(cols2.len() == a.cols.len() + m.len());
    assert(forall|k: int| 0 <= k < a.cols.len() ==> #[trigger] cols2[k] == a.cols[k]);
    assert(forall|k: int|
        0 <= k < m.len() ==> #[trigger] cols2[a.cols.len() + k] == (ColumnView {
            name: m[k],
            dtype: spec_dtype_for(m[k]),
        }));
    assert(distinct_cols(cols2)) by {
        assert forall|i: int, j: int| 0 <= i < j < cols2.len() implies cols2[i].name
            != cols2[j].name by {
            if j >= a.cols.len() {
                crate::table::lemma_find_col_from(a.cols, m[j - a.cols.len()], 0);
                if i >= a.cols.len() {
                    assert(m[i - a.cols.len()] != m[j - a.cols.len()]);
                } else {
                    assert(a.cols[i].name != m[j - a.cols.len()]);
                }
            }
        }
    }
    assert(forall|i: int| 0 <= i < u.rows.len() ==> #[trigger] u.rows[i].len() == cols2.len());
    assert forall|i: int, j: int|
        0 <= i < u.rows.len() && 0 <= j < cols2.len() implies value_fits(
        #[trigger] u.rows[i][j],
        cols2[j].dtype,
    ) by {
        if i < a.rows.len() {
            if j < a.cols.len() {
                assert(u.rows[i][j] == a.rows[i][j]);
            } else {
                assert(u.rows[i][j] == ValueView::Null);
            }
        } else {
            // the appended row, rearranged from b
            assert(u.rows[i] == aligned_row(cols2, b));
            let f = find_col_from(b.cols, cols2[j].name, 0);
            crate::table::lemma_find_col_from(b.cols, cols2[j].name, 0);
            if f >= 0 {
                assert(u.rows[i][j] == b.rows[0][f]);
                assert(value_fits(b.rows[0][f], b.cols[f].dtype));
                assert(b.cols[f].name == cols2[j].name);
                if j < a.cols.len() {
                    lemma_find_own_col(a.cols, j);
                    assert(find_col_from(a.cols, b.cols[f].name, 0) == j);
                    assert(b.cols[f].dtype == a.cols[j].dtype);
                } else {
                    assert(find_col_from(a.cols, b.cols[f].name, 0) == -1);
                    assert(b.cols[f].dtype == spec_dtype_for(b.cols[f].name));
                }
            } else {
                assert(u.rows[i][j] == ValueView::Null);
            }
        }
    }
}

/// Aligns the column sets of the accumulated table and a freshly parsed
/// single-row table, then appends the row.
///
/// Columns only the row has are added to the table as typed null columns;
/// columns only the table has read as null in the new row. The insertion
/// fails, leaving the table untouched, exactly when a shared column
/// declares different types on the two sides or a fresh column's type
/// disagrees with the static lookup.
/// Reconciling two tables yields the union of their column sets: `a`'s
/// columns keep their order, values and types; `a`'s rows read null in
/// every column they lacked; and the appended row carries `b`'s values,
/// with null in every column `b` lacked.
pub proof fn lemma_reconcile_shape(a: TableView, b: TableView)
    requires
        wf(a),
        wf(b),
        b.rows.len() == 1,
    ensures
        ({
            let u = reconcile(a, b);
            &&& u.rows.len() == a.rows.len() + 1
            &&& u.cols.len() >= a.cols.len()
            &&& forall|j: int| 0 <= j < a.cols.len() ==> #[trigger] u.cols[j] == a.cols[j]
            &&& crate::table::col_name_set(u.cols) =~= crate::table::col_name_set(a.cols).union(
                crate::table::col_name_set(b.cols),
            )
            &&& forall|i: int, j: int|
                0 <= i < a.rows.len() && 0 <= j < a.cols.len() ==> #[trigger] u.rows[i][j]
                    == a.rows[i][j]
            &&& forall|i: int, j: int|
                0 <= i < a.rows.len() && a.cols.len() <= j < u.cols.len() ==> #[trigger] u.rows[i][j]
                    == ValueView::Null
            &&& forall|j: int|
                #![trigger u.cols[j]]
                0 <= j < u.cols.len() ==> {
                    let f = find_col_from(b.cols, u.cols[j].name, 0);
                    if f >= 0 {
                        u.rows[a.rows.len() as int][j] == b.rows[0][f]
                    } else {
                        u.rows[a.rows.len() as int][j] == ValueView::Null
                    }
                }
        }),
{
    let m = missing_names(b.cols, a.cols, 0);
    lemma_missing_names(b.cols, a.cols, 0);
    let u = reconcile(a, b);
    assert(u.rows.len() == a.rows.len() + 1);
    let an = crate::table::col_name_set(a.cols);
    let bn = crate::table::col_name_set(b.cols);
    let un = crate::table::col_name_set(u.cols);
    let amap = a.cols.map_values(|c: ColumnView| c.name);
    let bmap = b.cols.map_values(|c: ColumnView| c.name);
    let umap = u.cols.map_values(|c: ColumnView| c.name);
    assert(un =~= an.union(bn)) by {
        assert forall|n: Seq<char>| un.contains(n) implies an.union(bn).contains(n) by {
            let k = choose|k: int| 0 <= k < umap.len() && umap[k] == n;
            if k < a.cols.len() {
                assert(amap[k] == n);
            } else {
                assert(u.cols[k].name == m[k - a.cols.len()]);
                let x = choose|x: int|
                    0 <= x < b.cols.len() && #[trigger] b.cols[x].name == m[k - a.cols.len()];
                assert(bmap[x] == n);
            }
        }
        assert forall|n: Seq<char>| an.union(bn).contains(n) implies un.contains(n) by {
            if an.contains(n) {
                let k = choose|k: int| 0 <= k < amap.len() && amap[k] == n;
                assert(u.cols[k].name == n);
                assert(umap[k] == n);
            } else {
                let x = choose|x: int| 0 <= x < bmap.len() && bmap[x] == n;
                assert(b.cols[x].name == n);
                crate::table::lemma_find_col_from(a.cols, n, 0);
                let f = find_col_from(a.cols, n, 0);
                if f >= 0 {
                    assert(umap[f] == n);
                } else {
                    assert(m.contains(b.cols[x].name));
                    let k = choose|k: int| 0 <= k < m.len() && m[k] == n;
                    assert(u.cols[a.cols.len() + k].name == n);
                    assert(umap[a.cols.len() + k] == n);
                }
            }
        }
    }
}

/// Whether the row can be inserted: shared columns agree on their type and
/// fresh columns agree with the static lookup.
fn check_alignment(a: &Table, b: &Table) -> (r: bool)
    ensures
        r == align_ok(a@, b@),
{
    let bw = b.cols.len();
    let mut j: usize = 0;
    while j < bw
        invariant
            0 <= j <= bw,
            bw == b@.cols.len(),
            forall|jj: int|
                #![trigger b@.cols[jj]]
                0 <= jj < j ==> {
                    let f = find_col_from(a@.cols, b@.cols[jj].name, 0);
                    if f >= 0 {
                        0 <= f < a@.cols.len() && a@.cols[f].dtype == b@.cols[jj].dtype
                    } else {
                        b@.cols[jj].dtype == spec_dtype_for(b@.cols[jj].name)
                    }
                },
        decreases bw - j,
    {
        let name = &b.cols[j].name;
        proof {
            assert(name@ == b@.cols[j as int].name);
        }
        match a.find_column(name.as_str()) {
            Some(f) => {
                if !(a.cols[f].dtype == b.cols[j].dtype) {
                    proof {
                        assert(find_col_from(a@.cols, b@.cols[j as int].name, 0) == f);
                        assert(a@.cols[f as int].dtype != b@.cols[j as int].dtype);
                        assert(!align_ok(a@, b@)) by {
                            assert(b@.cols[j as int].name == name@);
                        }
                    }
                    return false;
                }
            },
            None => {
                let dt = crate::table::dtype_for(name.as_str());
                if !(b.cols[j].dtype == dt) {
                    proof {
                        assert(find_col_from(a@.cols, b@.cols[j as int].name, 0) == -1);
                        assert(b@.cols[j as int].dtype != spec_dtype_for(b@.cols[j as int].name));
                        assert(!align_ok(a@, b@)) by {
                            assert(b@.cols[j as int].name == name@);
                        }
                    }
                    return false;
                }
            },
        }
        j = j + 1;
    }
    true
}

/// Aligns the column sets of the accumulated table and a freshly parsed
/// single-row table, then appends the row.
///
/// Columns only the row has are added to the table as typed null columns;
/// columns only the table has read as null in the new row. The insertion
/// fails, leaving the table untouched, exactly when a shared column
/// declares different types on the two sides or a fresh column's type
/// disagrees with the static lookup.
pub fn align_dataframes_and_insert_row(main_dataframe: &mut Table, new_data_row: &Table) -> (r:
    Result<(), ParseError>)
    requires
        wf(old(main_dataframe)@),
        wf(new_data_row@),
        new_data_row@.rows.len() == 1,
    ensures
        match r {
            Ok(()) => align_ok(old(main_dataframe)@, new_data_row@) && final(main_dataframe)@
                =~~= reconcile(old(main_dataframe)@, new_data_row@) && wf(final(main_dataframe)@),
            Err(e) => !align_ok(old(main_dataframe)@, new_data_row@) && e
                == ParseError::DataAlignmentError && final(main_dataframe)@ == old(
                main_dataframe,
            )@,
        },
{
    let ghost a0 = old(main_dataframe)@;
    let b = new_data_row;
    if !check_alignment(main_dataframe, b) {
        return Err(ParseError::DataAlignmentError);
    }

    let to_main = missing_names_vec(b, main_dataframe);
    proof {
        lemma_missing_names(b@.cols, a0.cols, 0);
        let m = missing_names(b@.cols, a0.cols, 0);
        assert(to_main.deep_view() == m);
        assert(forall|k: int|
            0 <= k < to_main@.len() ==> #[trigger] to_main@[k]@ == to_main.deep_view()[k]);
        assert(forall|k: int|
            0 <= k < to_main@.len() ==> find_col(main_dataframe@, #[trigger] to_main@[k]@) == -1);
        assert(distinct_names(to_main.deep_view()));
    }
    add_null_columns(main_dataframe, &to_main);
    let ghost cols2 = reconcile(a0, b@).cols;
    proof {
        assert(main_dataframe@.cols =~~= cols2);
    }

    let width = main_dataframe.cols.len();
    let mut row: Vec<Value> = Vec::new();
    let mut j: usize = 0;
    while j < width
        invariant
            0 <= j <= width,
            width == main_dataframe@.cols.len(),
            main_dataframe@.cols == cols2,
            b@.rows.len() == 1,
            wf(b@),
            row@.len() == j,
            forall|k: int| 0 <= k < j ==> #[trigger] row@[k]@ == aligned_row(cols2, b@)[k],
        decreases width - j,
    {
        let name = &main_dataframe.cols[j].name;
        proof {
            assert(name@ == cols2[j as int].name);
            assert(b@.rows[0].len() == b@.cols.len());
            assert(b.rows@.len() == b@.rows.len());
            assert(b.rows@[0]@.len() == b@.rows[0].len());
        }
        match b.find_column(name.as_str()) {
            Some(f) => {
                let cell = clone_value(&b.rows[0][f]);
                proof {
                    assert(cell@ == b@.rows[0][f as int]);
                    assert(cell@ == aligned_row(cols2, b@)[j as int]);
                }
                row.push(cell);
            },
            None => {
                proof {
                    assert(ValueView::Null == aligned_row(cols2, b@)[j as int]);
                }
                row.push(Value::Null);
            },
        }
        j = j + 1;
    }
    main_dataframe.rows.push(row);
    proof {
        assert(row@.map_values(|v: Value| v@) =~= aligned_row(cols2, b@));
        assert(main_dataframe@ =~~= reconcile(a0, b@));
        lemma_reconcile_wf(a0, b@);
    }
    Ok(())
}

/// What rendering an epoch instant in a named time zone yields: the RFC
/// 3339 text of the instant in that zone, or nothing when the zone name is
/// unknown or the instant lies outside the representable range. The time
/// zone database is compiled into the program, so the result depends on the
/// arguments alone.
pub uninterp spec fn local_time_text(epoch_ms: int, tz: Seq<char>) -> Option<Seq<char>>;

/// Relies on chrono's DateTime::from_timestamp_millis and with_timezone,
/// and on chrono-tz's zone lookup, to render an epoch instant in a named
/// zone; chrono-tz embeds its own time zone tables.
#[verifier::external_body]
fn epoch_ms_to_local(ms: i64, tz: &str) -> (r: Option<String>)
    ensures
        match r {
            Some(s) => local_time_text(ms as int, tz@) == Some(s@),
            None => local_time_text(ms as int, tz@) is None,
        },
{
    let zone: chrono_tz::Tz = tz.parse().ok()?;
    let utc = chrono::DateTime::from_timestamp_millis(ms)?;
    Some(utc.with_timezone(&zone).to_rfc3339())
}

/// The localized texts of an epoch-seconds column, one per row: a null
/// stays null, an integer is scaled to milliseconds and rendered, and
/// anything else — a scale overflow, an unknown zone, an out-of-range
/// instant or a non-integer value — fails the whole derivation.
pub open spec fn local_times(rows: Seq<Seq<ValueView>>, f: int, tz: Seq<char>) -> Option<
    Seq<ValueView>,
>
    decreases rows.len(),
{
    if rows.len() == 0 {
        Some(Seq::empty())
    } else {
        match local_times(rows.drop_last(), f, tz) {
            None => None,
            Some(pre) => match rows.last()[f] {
                ValueView::Int(v) => if i64::MIN <= v * 1000 <= i64::MAX {
                    match local_time_text(v * 1000, tz) {
                        Some(s) => Some(pre.push(ValueView::Str(s))),
                        None => None,
                    }
                } else {
                    None
                },
                ValueView::Null => Some(pre.push(ValueView::Null)),
                _ => None,
            },
        }
    }
}

/// A failed prefix fails the whole column derivation.
proof fn lemma_local_times_none(rows: Seq<Seq<ValueView>>, f: int, tz: Seq<char>, i: int)
    requires
        0 <= i <= rows.len(),
        local_times(rows.subrange(0, i), f, tz) is None,
    ensures
        local_times(rows, f, tz) is None,
    decreases rows.len() - i,
{
    if i == rows.len() {
        assert(rows.subrange(0, i) =~= rows);
    } else {
        assert(rows.subrange(0, i + 1).drop_last() =~= rows.subrange(0, i));
        lemma_local_times_none(rows, f, tz, i + 1);
    }
}

/// The table with the derived `local_time` column installed: an existing
/// column of that name is replaced in place, else the column is appended.
pub open spec fn with_local_time(t: TableView, vals: Seq<ValueView>) -> TableView {
    let f = find_col(t, "local_time"@);
    if f >= 0 {
        TableView {
            cols: t.cols.update(f, ColumnView { name: "local_time"@, dtype: DataType::Str }),
            rows: Seq::new(t.rows.len(), |i: int| t.rows[i].update(f, vals[i])),
        }
    } else {
        TableView {
            cols: t.cols.push(ColumnView { name: "local_time"@, dtype: DataType::Str }),
            rows: Seq::new(t.rows.len(), |i: int| t.rows[i].push(vals[i])),
        }
    }
}

/// What deriving the localized timestamp column yields: the table unchanged
/// when it has no epoch-seconds column, the table with `local_time`
/// installed when every row converts, and nothing when one fails.
pub open spec fn derive_local(t: TableView, tz: Seq<char>) -> Option<TableView> {
    let f = find_col(t, "measure_time1970"@);
    if f < 0 {
        Some(t)
    } else {
        match local_times(t.rows, f, tz) {
            Some(vals) => Some(with_local_time(t, vals)),
            None => None,
        }
    }
}

/// Installing a text-or-null column keeps the table well-formed.
proof fn lemma_with_local_time_wf(t: TableView, vals: Seq<ValueView>)
    requires
        wf(t),
        vals.len() == t.rows.len(),
        forall|i: int|
            0 <= i < vals.len() ==> (#[trigger] vals[i] is Str || vals[i] is Null),
    ensures
        wf(with_local_time(t, vals)),
{
    let u = with_local_time(t, vals);
    let f = find_col(t, "local_time"@);
    crate::table::lemma_find_col_from(t.cols, "local_time"@, 0);
    if f >= 0 {
        assert(t.cols[f].name == "local_time"@);
        assert(distinct_cols(u.cols)) by {
            assert(forall|k: int| 0 <= k < u.cols.len() ==> u.cols[k].name == #[trigger] t.cols[k].name);
        }
        assert forall|i: int, j: int|
            0 <= i < u.rows.len() && 0 <= j < u.cols.len() implies value_fits(
            #[trigger] u.rows[i][j],
            u.cols[j].dtype,
        ) by {
            if j != f {
                assert(u.rows[i][j] == t.rows[i][j]);
            }
        }
    } else {
        assert(distinct_cols(u.cols)) by {
            assert(forall|k: int| 0 <= k < t.cols.len() ==> t.cols[k].name != "local_time"@);
        }
        assert forall|i: int, j: int|
            0 <= i < u.rows.len() && 0 <= j < u.cols.len() implies value_fits(
            #[trigger] u.rows[i][j],
            u.cols[j].dtype,
        ) by {
            if j < t.cols.len() {
                assert(u.rows[i][j] == t.rows[i][j]);
            } else {
                assert(u.rows[i][j] == vals[i]);
            }
        }
    }
}

/// Derives the localized timestamp column `local_time` from the
/// epoch-seconds column `measure_time1970`, rendered in the given zone.
///
/// A table without the epoch column passes through unchanged. A null epoch
/// yields a null; any failure to convert — an unrepresentable instant, an
/// unknown zone or a non-integer value — fails the whole table.
pub fn add_local_datetime_column(dataframe: Table, timezone: &str) -> (r: Result<
    Table,
    ParseError,
>)
    requires
        wf(dataframe@),
    ensures
        match r {
            Ok(u) => derive_local(dataframe@, timezone@) == Some(u@) && wf(u@),
            Err(e) => derive_local(dataframe@, timezone@) is None && e matches
                ParseError::EpochToDatetime(_),
        },
{
    let f = match dataframe.find_column("measure_time1970") {
        None => {
            return Ok(dataframe);
        },
        Some(f) => f,
    };
    let ghost t0 = dataframe@;
    let ghost tz = timezone@;
    let n = dataframe.rows.len();
    let mut vals: Vec<Value> = Vec::new();
    let mut i: usize = 0;
    while i < n
        invariant
            0 <= i <= n,
            n == dataframe@.rows.len(),
            dataframe@ == t0,
            wf(t0),
            0 <= f < t0.cols.len(),
            find_col(t0, "measure_time1970"@) == f as int,
            tz == timezone@,
            vals@.len() == i,
            local_times(t0.rows.subrange(0, i as int), f as int, tz) == Some(
                vals@.map_values(|v: Value| v@),
            ),
            forall|k: int| 0 <= k < i ==> (#[trigger] vals@[k]@ is Str || vals@[k]@ is Null),
        decreases n - i,
    {
        let ghost pre = t0.rows.subrange(0, i as int);
        let ghost cur = t0.rows.subrange(0, i + 1);
        proof {
            assert(cur.drop_last() =~= pre);
            assert(cur.last() == t0.rows[i as int]);
            assert(t0.rows[i as int].len() == t0.cols.len());
            assert(dataframe.rows@[i as int]@.len() == t0.rows[i as int].len());
        }
        let cell = &dataframe.rows[i][f];
        let ghost prev_vals = vals@.map_values(|v: Value| v@);
        match cell {
            Value::Int(v) => {
                proof {
                    assert(cell@ == t0.rows[i as int][f as int]);
                }
                match v.checked_mul(1000) {
                    Some(ms) => {
                        match epoch_ms_to_local(ms, timezone) {
                            Some(s) => {
                                vals.push(Value::Str(s));
                                proof {
                                    assert(vals@.map_values(|v2: Value| v2@) =~= prev_vals.push(
                                        ValueView::Str(s@),
                                    ));
                                }
                            },
                            None => {
                                proof {
                                    assert(local_times(cur, f as int, tz) is None);
                                    lemma_local_times_none(t0.rows, f as int, tz, i + 1);
                                }
                                return Err(
                                    ParseError::EpochToDatetime(
                                        String::from_str(
                                            "timestamp out of range for the time zone",
                                        ),
                                    ),
                                );
                            },
                        }
                    },
                    None => {
                        proof {
                            assert(local_times(cur, f as int, tz) is None);
                            lemma_local_times_none(t0.rows, f as int, tz, i + 1);
                        }
                        return Err(
                            ParseError::EpochToDatetime(
                                String::from_str(
                                    "epoch seconds overflow when scaled to milliseconds",
                                ),
                            ),
                        );
                    },
                }
            },
            Value::Null => {
                vals.push(Value::Null);
                proof {
                    assert(cell@ == t0.rows[i as int][f as int]);
                    assert(vals@.map_values(|v2: Value| v2@) =~= prev_vals.push(ValueView::Null));
                }
            },
            _ => {
                proof {
                    assert(cell@ == t0.rows[i as int][f as int]);
                    assert(local_times(cur, f as int, tz) is None);
                    lemma_local_times_none(t0.rows, f as int, tz, i + 1);
                }
                return Err(
                    ParseError::EpochToDatetime(
                        String::from_str(
                            "the epoch column does not hold an integer",
                        ),
                    ),
                );
            },
        }
        i = i + 1;
    }
    proof {
        assert(t0.rows.subrange(0, n as int) =~= t0.rows);
    }
    let ghost valsv = vals@.map_values(|v: Value| v@);

    // install the column: replace an existing `local_time`, else append
    let mut out = dataframe;
    let lf_opt = out.find_column("local_time");
    let height = out.rows.len();
    let mut new_rows: Vec<Vec<Value>> = Vec::new();
    let mut ri: usize = 0;
    match lf_opt {
        Some(lf) => {
            while ri < height
                invariant
                    0 <= ri <= height,
                    out@ == t0,
                    height == t0.rows.len(),
                    wf(t0),
                    0 <= lf < t0.cols.len(),
                    vals@.len() == height,
                    valsv == vals@.map_values(|v: Value| v@),
                    new_rows@.len() == ri,
                    forall|x: int|
                        #![trigger new_rows@[x]]
                        0 <= x < ri ==> new_rows@[x]@.map_values(|v: Value| v@) =~= t0.rows[x].update(
                            lf as int,
                            valsv[x],
                        ),
                decreases height - ri,
            {
                let mut r2 = clone_row(&out.rows[ri]);
                proof {
                    assert(out.rows@[ri as int]@.len() == t0.rows[ri as int].len());
                    assert(t0.rows[ri as int].len() == t0.cols.len());
                }
                r2[lf] = clone_value(&vals[ri]);
                proof {
                    assert(r2@.map_values(|v: Value| v@) =~= t0.rows[ri as int].update(
                        lf as int,
                        valsv[ri as int],
                    ));
                }
                new_rows.push(r2);
                ri = ri + 1;
            }
            out.cols[lf] = Column {
                name: String::from_str("local_time"),
                dtype: DataType::Str,
            };
            out.rows = new_rows;
            proof {
                let u = with_local_time(t0, valsv);
                assert(out@.cols =~~= u.cols);
                assert(out@.rows =~~= u.rows) by {
                    assert forall|x: int| 0 <= x < u.rows.len() implies out@.rows[x] =~= u.rows[x] by {
                        assert(out@.rows[x] == new_rows@[x]@.map_values(|v: Value| v@));
                    }
                }
                assert(out@ =~~= u);
                lemma_with_local_time_wf(t0, valsv);
            }
        },
        None => {
            while ri < height
                invariant
                    0 <= ri <= height,
                    out@ == t0,
                    height == t0.rows.len(),
                    vals@.len() == height,
                    valsv == vals@.map_values(|v: Value| v@),
                    new_rows@.len() == ri,
                    forall|x: int|
                        #![trigger new_rows@[x]]
                        0 <= x < ri ==> new_rows@[x]@.map_values(|v: Value| v@) =~= t0.rows[x].push(
                            valsv[x],
                        ),
                decreases height - ri,
            {
                let mut r2 = clone_row(&out.rows[ri]);
                r2.push(clone_value(&vals[ri]));
                proof {
                    assert(r2@.map_values(|v: Value| v@) =~= t0.rows[ri as int].push(
                        valsv[ri as int],
                    ));
                }
                new_rows.push(r2);
                ri = ri + 1;
            }
            out.cols.push(
                Column {
                    name: String::from_str("local_time"),
                    dtype: DataType::Str,
                },
            );
            out.rows = new_rows;
            proof {
                let u = with_local_time(t0, valsv);
                assert(out@.cols =~~= u.cols);
                assert(out@.rows =~~= u.rows) by {
                    assert forall|x: int| 0 <= x < u.rows.len() implies out@.rows[x] =~= u.rows[x] by {
                        assert(out@.rows[x] == new_rows@[x]@.map_values(|v: Value| v@));
                    }
                }
                assert(out@ =~~= u);
                lemma_with_local_time_wf(t0, valsv);
            }
        },
    }
    Ok(out)
}

/// Builds the single-row table of one header/value pair.
///
/// The header and value strings are split on tabs; a count mismatch or a
/// repeated header name fails, and otherwise each value is parsed per its
/// column's declared type, a failed numeric parse yielding a null.
pub fn create_dataframe_from_columns_and_values(columns: &str, values: &str) -> (r: Result<
    Table,
    ParseError,
>)
    ensures
        ({
            let out = pair_parse(columns@, values@);
            match r {
                Ok(t) => out == PairOutcome::Row(t@) && wf(t@) && t@.rows.len() == 1
                    && lookup_typed(t@),
                Err(e) => match e {
                    ParseError::ColumnMismatchError => out is Mismatch,
                    ParseError::DuplicateColumns => out is Duplicate,
                    _ => false,
                },
            }
        }),
{
    let col_chars = str_to_chars(columns);
    let val_chars = str_to_chars(values);
    let col_toks = split_chars(col_chars.as_slice(), '\t');
    let val_toks = split_chars(val_chars.as_slice(), '\t');
    let ghost names = header_names(columns@);
    let ghost vals = split_char(values@, '\t');
    proof {
        assert(names.len() == col_toks@.len());
        assert(vals.len() == val_toks@.len());
    }
    if col_toks.len() != val_toks.len() {
        return Err(ParseError::ColumnMismatchError);
    }
    let n = col_toks.len();

    // clean the header tokens
    let mut cleaned: Vec<Vec<char>> = Vec::new();
    let mut i: usize = 0;
    while i < n
        invariant
            0 <= i <= n,
            n == col_toks@.len(),
            col_toks.deep_view() =~~= split_char(columns@, '\t'),
            names == header_names(columns@),
            cleaned@.len() == i,
            forall|k: int| 0 <= k < i ==> #[trigger] cleaned@[k]@ == names[k],
        decreases n - i,
    {
        let t1 = crate::text::trim_chars(col_toks[i].as_slice());
        let t2 = crate::text::trim_char_chars(t1.as_slice(), '"');
        proof {
            assert(col_toks@[i as int]@ == col_toks.deep_view()[i as int]);
            assert(t2@ == clean_header(split_char(columns@, '\t')[i as int]));
        }
        cleaned.push(t2);
        i = i + 1;
    }

    // refuse a repeated name
    let mut i: usize = 0;
    while i < n
        invariant
            0 <= i <= n,
            n == cleaned@.len(),
            forall|k: int| 0 <= k < n ==> #[trigger] cleaned@[k]@ == names[k],
            names.len() == n,
            vals.len() == n,
            pair_parse(columns@, values@) == (if distinct_names(names) {
                pair_parse(columns@, values@)
            } else {
                PairOutcome::Duplicate
            }),
            forall|a: int, b: int| 0 <= a < b < i ==> names[a] != names[b],
        decreases n - i,
    {
        let mut j: usize = 0;
        while j < i
            invariant
                0 <= j <= i < n,
                n == cleaned@.len(),
                forall|k: int| 0 <= k < n ==> #[trigger] cleaned@[k]@ == names[k],
                names.len() == n,
                vals.len() == n,
                pair_parse(columns@, values@) == (if distinct_names(names) {
                    pair_parse(columns@, values@)
                } else {
                    PairOutcome::Duplicate
                }),
                forall|b: int| 0 <= b < j ==> names[b] != names[i as int],
            decreases i - j,
        {
            if chars_eq(cleaned[j].as_slice(), cleaned[i].as_slice()) {
                proof {
                    assert(names[j as int] == names[i as int]);
                    assert(!distinct_names(names));
                }
                return Err(ParseError::DuplicateColumns);
            }
            j = j + 1;
        }
        i = i + 1;
    }
    proof {
        assert(distinct_names(names));
    }

    // build the columns and the row
    let mut cols: Vec<Column> = Vec::new();
    let mut row: Vec<Value> = Vec::new();
    let ghost speccols = names.map_values(
        |nm: Seq<char>| ColumnView { name: nm, dtype: spec_dtype_for(nm) },
    );
    let ghost specrow = Seq::new(names.len(), |j: int| parse_cell(names[j], vals[j]));
    let mut i: usize = 0;
    while i < n
        invariant
            0 <= i <= n,
            n == cleaned@.len(),
            n == val_toks@.len(),
            forall|k: int| 0 <= k < n ==> #[trigger] cleaned@[k]@ == names[k],
            val_toks.deep_view() =~~= vals,
            names.len() == n,
            vals.len() == n,
            speccols == names.map_values(
                |nm: Seq<char>| ColumnView { name: nm, dtype: spec_dtype_for(nm) },
            ),
            specrow == Seq::new(names.len(), |j: int| parse_cell(names[j], vals[j])),
            cols@.len() == i,
            row@.len() == i,
            forall|k: int| 0 <= k < i ==> #[trigger] cols@[k]@ == speccols[k],
            forall|k: int| 0 <= k < i ==> #[trigger] row@[k]@ == specrow[k],
        decreases n - i,
    {
        let name_str = chars_to_string(cleaned[i].as_slice());
        let dt = crate::table::dtype_for(name_str.as_str());
        let raw = &val_toks[i];
        proof {
            assert(val_toks@[i as int]@ == vals[i as int]);
        }
        let v: Value = parse_column(raw.as_slice(), dt);
        proof {
            assert(v@ == parse_cell(names[i as int], vals[i as int]));
        }
        proof {
            assert(ColumnView { name: name_str@, dtype: dt } == speccols[i as int]);
        }
        cols.push(Column { name: name_str, dtype: dt });
        row.push(v);
        i = i + 1;
    }
    let mut rows: Vec<Vec<Value>> = Vec::new();
    rows.push(row);
    let t = Table { cols, rows };
    proof {
        assert(t@.cols =~~= speccols);
        assert(t@.rows =~~= seq![specrow]);
        assert(t@ =~~= pair_parse(columns@, values@) ->Row_0);
        assert(wf(t@)) by {
            assert(forall|a: int, b: int|
                0 <= a < b < t@.cols.len() ==> t@.cols[a].name != t@.cols[b].name);
            assert(forall|j: int|
                0 <= j < t@.cols.len() ==> value_fits(#[trigger] t@.rows[0][j], t@.cols[j].dtype));
        }
        assert(lookup_typed(t@));
    }
    Ok(t)
}

/// A table built by the pair parser keeps every type in step with the
/// static lookup, so alignment with another such table cannot fail.
proof fn lemma_lookup_typed_align_ok(a: TableView, b: TableView)
    requires
        lookup_typed(a),
        lookup_typed(b),
    ensures
        align_ok(a, b),
{
    assert forall|j: int| #![trigger b.cols[j]] 0 <= j < b.cols.len() implies {
        let f = find_col_from(a.cols, b.cols[j].name, 0);
        if f >= 0 {
            a.cols[f].dtype == b.cols[j].dtype
        } else {
            b.cols[j].dtype == spec_dtype_for(b.cols[j].name)
        }
    } by {
        crate::table::lemma_find_col_from(a.cols, b.cols[j].name, 0);
        let f = find_col_from(a.cols, b.cols[j].name, 0);
        if f >= 0 {
            assert(a.cols[f].name == b.cols[j].name);
            assert(a.cols[f].dtype == spec_dtype_for(a.cols[f].name));
        }
    }
}

/// Reconciliation keeps every type in step with the static lookup.
proof fn lemma_reconcile_lookup_typed(a: TableView, b: TableView)
    requires
        lookup_typed(a),
    ensures
        lookup_typed(reconcile(a, b)),
{
    let u = reconcile(a, b);
    let m = missing_names(b.cols, a.cols, 0);
    assert forall|k: int|
        0 <= k < u.cols.len() implies #[trigger] u.cols[k].dtype == spec_dtype_for(
        u.cols[k].name,
    ) by {
        if k < a.cols.len() {
            assert(u.cols[k] == a.cols[k]);
        } else {
            assert(u.cols[k] == m.map_values(
                |n: Seq<char>| ColumnView { name: n, dtype: spec_dtype_for(n) },
            )[k - a.cols.len()]);
        }
    }
}

/// How parsing a measurement text can end.
pub enum MeasOutcome {
    /// The accumulated multi-row table, localized timestamps included.
    Parsed(TableView),
    /// A header line with no value line after it.
    MissingValueRow,
    /// A pair whose lines split into different numbers of tokens.
    Mismatch,
    /// The localized timestamp column could not be derived.
    TimeFail,
}

/// The final step of a measurement parse: derive the localized timestamps.
pub open spec fn meas_finish(acc: TableView, tz: Seq<char>) -> MeasOutcome {
    match derive_local(acc, tz) {
        Some(u) => MeasOutcome::Parsed(u),
        None => MeasOutcome::TimeFail,
    }
}

/// Folds header/value pairs from line `i` on into the accumulated table.
/// An empty header line ends the stream; a duplicate-name pair is skipped.
pub open spec fn meas_rows(acc: TableView, lines: Seq<Seq<char>>, i: int, tz: Seq<char>) -> MeasOutcome
    decreases lines.len() - i,
{
    if i < 0 || i >= lines.len() {
        meas_finish(acc, tz)
    } else if lines[i].len() == 0 {
        meas_finish(acc, tz)
    } else if i + 1 >= lines.len() {
        MeasOutcome::MissingValueRow
    } else {
        match pair_parse(lines[i], lines[i + 1]) {
            PairOutcome::Mismatch => MeasOutcome::Mismatch,
            PairOutcome::Duplicate => meas_rows(acc, lines, i + 2, tz),
            PairOutcome::Row(b) => meas_rows(reconcile(acc, b), lines, i + 2, tz),
        }
    }
}

/// What parsing a measurement text yields.
pub open spec fn meas_parse(lines: Seq<Seq<char>>, tz: Seq<char>) -> MeasOutcome {
    meas_rows(TableView { cols: Seq::empty(), rows: Seq::empty() }, lines, 0, tz)
}

/// Parses measurement entries from decoded lines into a multi-row table.
///
/// Lines pair up as a tab-separated header line and a tab-separated value
/// line. Each pair becomes one row; rows with differing column sets are
/// reconciled with the accumulated table. An empty header line ends the
/// stream; a pair with repeated header names is discarded; a header with no
/// value line, or a token-count mismatch, fails the whole parse, returning
/// no partial table. At the end the localized timestamp column is derived.
pub fn read_measurement_entries(lines: &Vec<String>, timezone: &str) -> (r: Result<
    Table,
    ParseError,
>)
    ensures
        ({
            let out = meas_parse(lines.deep_view(), timezone@);
            match r {
                Ok(t) => out == MeasOutcome::Parsed(t@) && wf(t@),
                Err(e) => match e {
                    ParseError::MalformedEntry(m) => out is MissingValueRow && m@
                        == "No value row after column row"@,
                    ParseError::ColumnMismatchError => out is Mismatch,
                    ParseError::EpochToDatetime(_) => out is TimeFail,
                    _ => false,
                },
            }
        }),
{
    let ghost ls = lines.deep_view();
    let ghost tz = timezone@;
    let n = lines.len();
    let mut dataframe = Table::new();
    proof {
        assert(dataframe@ =~~= (TableView { cols: Seq::empty(), rows: Seq::empty() }));
        assert(meas_parse(ls, tz) == meas_rows(dataframe@, ls, 0, tz));
    }
    let mut i: usize = 0;
    while i < n
        invariant_except_break
            0 <= i <= n,
            n == lines@.len(),
            ls == lines.deep_view(),
            ls.len() == n,
            tz == timezone@,
            wf(dataframe@),
            lookup_typed(dataframe@),
            meas_parse(ls, tz) == meas_rows(dataframe@, ls, i as int, tz),
        ensures
            wf(dataframe@),
            meas_parse(ls, tz) == meas_finish(dataframe@, tz),
            tz == timezone@,
        decreases n - i,
    {
        proof {
            assert(ls[i as int] == lines@[i as int]@);
        }
        if lines[i].as_str().is_empty() {
            proof {
                assert(meas_rows(dataframe@, ls, i as int, tz) == meas_finish(dataframe@, tz));
            }
            break ;
        }
        if i + 1 >= n {
            return Err(
                ParseError::MalformedEntry(String::from_str("No value row after column row")),
            );
        }
        proof {
            assert(ls[i + 1] == lines@[i + 1]@);
        }
        match create_dataframe_from_columns_and_values(
            lines[i].as_str(),
            lines[i + 1].as_str(),
        ) {
            Ok(new_row) => {
                let ghost acc0 = dataframe@;
                proof {
                    lemma_lookup_typed_align_ok(dataframe@, new_row@);
                }
                match align_dataframes_and_insert_row(&mut dataframe, &new_row) {
                    Ok(()) => {
                        proof {
                            assert(dataframe@ =~~= reconcile(acc0, new_row@));
                            assert(dataframe@ == reconcile(acc0, new_row@));
                            lemma_reconcile_lookup_typed(acc0, new_row@);
                        }
                    },
                    Err(_) => {
                        // cannot happen: both tables are lookup-typed, so
                        // alignment never fails
                        proof {
                            assert(false);
                        }
                        return Err(ParseError::DataAlignmentError);
                    },
                }
            },
            Err(e) => {
                match e {
                    ParseError::DuplicateColumns => {
                        // a pair with repeated header names is dropped
                    },
                    other => {
                        return Err(other);
                    },
                }
            },
        }
        i = i + 2;
    }
    let out = add_local_datetime_column(dataframe, timezone);
    out
}

/// Parses a whole measurement file's bytes: decode, cut into lines, parse.
pub fn parse_dat_text(bytes: &[u8], timezone: &str) -> (r: Result<Table, ParseError>)
    ensures
        ({
            let out = meas_parse(
                crate::text::lines_of(crate::text::iso_decoded(bytes@)),
                timezone@,
            );
            match r {
                Ok(t) => out == MeasOutcome::Parsed(t@) && wf(t@),
                Err(e) => match e {
                    ParseError::MalformedEntry(m) => out is MissingValueRow && m@
                        == "No value row after column row"@,
                    ParseError::ColumnMismatchError => out is Mismatch,
                    ParseError::EpochToDatetime(_) => out is TimeFail,
                    _ => false,
                },
            }
        }),
{
    let lines = crate::text::decode_lines(bytes);
    read_measurement_entries(&lines, timezone)
}

/// Folding from pair `j` on reaches the mismatch at pair `k` whatever the
/// accumulator holds, since every earlier pair is consumed or skipped.
proof fn lemma_meas_rows_mismatch(
    acc: TableView,
    lines: Seq<Seq<char>>,
    j: int,
    k: int,
    tz: Seq<char>,
)
    requires
        0 <= j <= k,
        2 * k + 1 < lines.len(),
        forall|x: int|
            j <= x < k ==> lines[2 * x].len() > 0 && !(#[trigger] pair_parse(
                lines[2 * x],
                lines[2 * x + 1],
            ) is Mismatch),
        lines[2 * k].len() > 0,
        pair_parse(lines[2 * k], lines[2 * k + 1]) is Mismatch,
    ensures
        meas_rows(acc, lines, 2 * j, tz) == MeasOutcome::Mismatch,
    decreases k - j,
{
    if j == k {
    } else {
        assert(lines[2 * j].len() > 0 && !(pair_parse(lines[2 * j], lines[2 * j + 1])
            is Mismatch));
        match pair_parse(lines[2 * j], lines[2 * j + 1]) {
            PairOutcome::Mismatch => {
                assert(false);
            },
            PairOutcome::Duplicate => {
                lemma_meas_rows_mismatch(acc, lines, j + 1, k, tz);
                assert(meas_rows(acc, lines, 2 * j, tz) == meas_rows(acc, lines, 2 * j + 2, tz));
                assert(2 * (j + 1) == 2 * j + 2);
            },
            PairOutcome::Row(b) => {
                lemma_meas_rows_mismatch(reconcile(acc, b), lines, j + 1, k, tz);
                assert(meas_rows(acc, lines, 2 * j, tz) == meas_rows(
                    reconcile(acc, b),
                    lines,
                    2 * j + 2,
                    tz,
                ));
                assert(2 * (j + 1) == 2 * j + 2);
            },
        }
    }
}

/// A header/value token-count mismatch at any pair fails the whole parse
/// with a column mismatch, whatever came before it: earlier well-formed
/// pairs are consumed, and the failure discards them all — the parse
/// returns no partial table.
pub proof fn lemma_measurement_mismatch_fails(lines: Seq<Seq<char>>, tz: Seq<char>, k: int)
    requires
        0 <= k,
        2 * k + 1 < lines.len(),
        forall|x: int|
            0 <= x < k ==> lines[2 * x].len() > 0 && !(#[trigger] pair_parse(
                lines[2 * x],
                lines[2 * x + 1],
            ) is Mismatch),
        lines[2 * k].len() > 0,
        pair_parse(lines[2 * k], lines[2 * k + 1]) is Mismatch,
    ensures
        meas_parse(lines, tz) == MeasOutcome::Mismatch,
{
    lemma_meas_rows_mismatch(
        TableView { cols: Seq::empty(), rows: Seq::empty() },
        lines,
        0,
        k,
        tz,
    );
}

} // verus!

//! Parser for article parameter files: a program-name line, a literal
//! `None` sentinel line, then `key = value` lines. The result is a table
//! with exactly one row and one text column per distinct key, plus the
//! synthetic `pgm_name` column.

use vstd::prelude::*;
use vstd::string::StringExecFns;
use crate::error::ParseError;
use crate::table::{
    col_name_set, upsert_single, wf, ColumnView, DataType, Table, TableView, Value, ValueView,
};
use crate::text::{chars_to_string, str_to_chars, subvec, trim_chars, trim_spec};

verus! {

/// The required sentinel text of the second line.
pub open spec fn none_word() -> Seq<char> {
    seq!['N', 'o', 'n', 'e']
}

/// How parsing an article text can end.
pub enum ArticleOutcome {
    /// The table: one row, `pgm_name` first, one text column per key.
    Parsed(TableView),
    /// No first line to read the program name from.
    MissingName,
    /// The input ends before the sentinel line.
    NoneEof,
    /// The second line is not the sentinel.
    MissingNone,
    /// A non-blank line without the ` = ` separator; carries the line.
    Malformed(Seq<char>),
}

/// Index of the first ` = ` separator at or after `i`, or -1.
pub open spec fn find_sep_from(l: Seq<char>, i: int) -> int
    decreases l.len() - i,
{
    if i < 0 || i + 3 > l.len() {
        -1
    } else if l[i] == ' ' && l[i + 1] == '=' && l[i + 2] == ' ' {
        i
    } else {
        find_sep_from(l, i + 1)
    }
}

pub proof fn lemma_find_sep_from(l: Seq<char>, i: int)
    requires
        0 <= i,
    ensures
        find_sep_from(l, i) == -1 ==> forall|k: int| #![trigger l[k]]
            i <= k && k + 3 <= l.len() ==> !(l[k] == ' ' && l[k + 1] == '=' && l[k + 2] == ' '),
        find_sep_from(l, i) != -1 ==> i <= find_sep_from(l, i) && find_sep_from(l, i) + 3
            <= l.len() && l[find_sep_from(l, i)] == ' ' && l[find_sep_from(l, i) + 1] == '=' && l[
            find_sep_from(l, i) + 2
        ] == ' ' && forall|k: int| #![trigger l[k]]
            i <= k < find_sep_from(l, i) ==> !(l[k] == ' ' && l[k + 1] == '=' && l[k + 2] == ' '),
    decreases l.len() - i,
{
    if i + 3 <= l.len() && !(l[i] == ' ' && l[i + 1] == '=' && l[i + 2] == ' ') {
        lemma_find_sep_from(l, i + 1);
    }
}

/// The one-column, one-row table the program-name line opens.
pub open spec fn article_init(name_line: Seq<char>) -> TableView {
    TableView {
        cols: seq![ColumnView { name: "pgm_name"@, dtype: DataType::Str }],
        rows: seq![seq![ValueView::Str(trim_spec(name_line))]],
    }
}

/// Folds the `key = value` lines from index `i` on into the table. Blank
/// lines are skipped; duplicate keys overwrite the earlier value.
pub open spec fn article_entries(t: TableView, lines: Seq<Seq<char>>, i: int) -> ArticleOutcome
    decreases lines.len() - i,
{
    if i < 0 || i >= lines.len() {
        ArticleOutcome::Parsed(t)
    } else {
        let l = lines[i];
        if trim_spec(l).len() == 0 {
            article_entries(t, lines, i + 1)
        } else {
            let p = find_sep_from(l, 0);
            if p < 0 {
                ArticleOutcome::Malformed(l)
            } else {
                let key = trim_spec(l.subrange(0, p));
                let val = trim_spec(l.subrange(p + 3, l.len() as int));
                article_entries(
                    upsert_single(t, key, DataType::Str, ValueView::Str(val)),
                    lines,
                    i + 1,
                )
            }
        }
    }
}

/// What parsing an article text yields: the program name, the sentinel,
/// then the key-value entries.
pub open spec fn article_parse(lines: Seq<Seq<char>>) -> ArticleOutcome {
    if lines.len() == 0 {
        ArticleOutcome::MissingName
    } else if lines.len() == 1 {
        ArticleOutcome::NoneEof
    } else if trim_spec(lines[1]) != none_word() {
        ArticleOutcome::MissingNone
    } else {
        article_entries(article_init(lines[0]), lines, 2)
    }
}

/// Every column of an article table holds text.
pub open spec fn all_str_cols(t: TableView) -> bool {
    forall|k: int| 0 <= k < t.cols.len() ==> #[trigger] t.cols[k].dtype == DataType::Str
}

/// Finds the first ` = ` separator of a line.
fn find_sep(l: &[char]) -> (r: Option<usize>)
    ensures
        match r {
            Some(p) => find_sep_from(l@, 0) == p,
            None => find_sep_from(l@, 0) == -1,
        },
{
    let n = l.len();
    if n < 3 {
        proof {
            lemma_find_sep_from(l@, 0);
            if find_sep_from(l@, 0) != -1 {
                assert(find_sep_from(l@, 0) + 3 <= l@.len());
            }
        }
        return None;
    }
    let mut i: usize = 0;
    while i < n - 2 && !(l[i] == ' ' && l[i + 1] == '=' && l[i + 2] == ' ')
        invariant
            0 <= i <= n - 2,
            3 <= n == l@.len(),
            forall|k: int| #![trigger l@[k]]
                0 <= k < i ==> !(l@[k] == ' ' && l@[k + 1] == '=' && l@[k + 2] == ' '),
        decreases n - i,
    {
        i = i + 1;
    }
    proof {
        lemma_find_sep_from(l@, 0);
    }
    if i < n - 2 {
        proof {
            let f = find_sep_from(l@, 0);
            assert(f == i) by {
                if f == -1 {
                    assert(!(l@[i as int] == ' ' && l@[i as int + 1] == '=' && l@[i as int + 2]
                        == ' '));
                } else if f < i {
                    assert(!(l@[f] == ' ' && l@[f + 1] == '=' && l@[f + 2] == ' '));
                }
            }
        }
        Some(i)
    } else {
        proof {
            let f = find_sep_from(l@, 0);
            if f != -1 {
                assert(!(l@[f] == ' ' && l@[f + 1] == '=' && l@[f + 2] == ' '));
            }
        }
        None
    }
}

/// Parses article parameters from decoded lines into a one-row table.
///
/// The first line becomes the `pgm_name` column; the second must read
/// `None` after trimming; each further non-blank line must split on ` = `
/// into a key and a value, both trimmed. Duplicate keys overwrite the
/// earlier value. The exact failure for each malformed input is pinned by
/// `article_parse`.
pub fn read_article_parameters(lines: &Vec<String>) -> (r: Result<Table, ParseError>)
    ensures
        ({
            let out = article_parse(lines.deep_view());
            match r {
                Ok(t) => out == ArticleOutcome::Parsed(t@) && wf(t@) && t@.rows.len() == 1
                    && all_str_cols(t@),
                Err(e) => match e {
                    ParseError::MissingField(f) => (out is MissingName && f@ == "pgm_name"@) || (
                    out is MissingNone && f@ == "None"@),
                    ParseError::IOError(m) => out is NoneEof && m@ == "Reading none line"@,
                    ParseError::MalformedEntry(l) => out matches ArticleOutcome::Malformed(l0)
                        && l@ == l0,
                    _ => false,
                },
            }
        }),
{
    let ghost ls = lines.deep_view();
    let n = lines.len();
    if n == 0 {
        return Err(ParseError::MissingField(String::from_str("pgm_name")));
    }
    if n == 1 {
        return Err(ParseError::IOError(String::from_str("Reading none line")));
    }
    proof {
        assert(ls[0] == lines@[0]@);
        assert(ls[1] == lines@[1]@);
    }

    let name_chars = str_to_chars(lines[0].as_str());
    let name_trimmed = trim_chars(name_chars.as_slice());
    let mut t = Table::new();
    t.cols.push(
        crate::table::Column { name: String::from_str("pgm_name"), dtype: DataType::Str },
    );
    let mut first_row: Vec<Value> = Vec::new();
    first_row.push(Value::Str(chars_to_string(name_trimmed.as_slice())));
    t.rows.push(first_row);
    proof {
        assert(t@ =~~= article_init(ls[0]));
        crate::table::lemma_find_col_from(t@.cols, "pgm_name"@, 0);
        assert(wf(t@));
    }

    let second = trim_chars(str_to_chars(lines[1].as_str()).as_slice());
    let sentinel_ok = second.len() == 4 && second[0] == 'N' && second[1] == 'o' && second[2]
        == 'n' && second[3] == 'e';
    proof {
        if sentinel_ok {
            assert(second@ =~= none_word());
        } else {
            assert(second@ != none_word());
        }
    }
    if !sentinel_ok {
        return Err(ParseError::MissingField(String::from_str("None")));
    }

    let mut i: usize = 2;
    while i < n
        invariant
            2 <= i <= n,
            n == lines@.len(),
            ls == lines.deep_view(),
            ls.len() == n,
            wf(t@),
            t@.rows.len() == 1,
            all_str_cols(t@),
            article_parse(ls) == article_entries(t@, ls, i as int),
        decreases n - i,
    {
        proof {
            assert(ls[i as int] == lines@[i as int]@);
        }
        let line_chars = str_to_chars(lines[i].as_str());
        let line_trimmed = trim_chars(line_chars.as_slice());
        if line_trimmed.len() == 0 {
            i = i + 1;
            continue ;
        }
        match find_sep(line_chars.as_slice()) {
            None => {
                return Err(ParseError::MalformedEntry(lines[i].clone()));
            },
            Some(p) => {
                let ll = line_chars.len();
                proof {
                    lemma_find_sep_from(line_chars@, 0);
                    assert(find_sep_from(line_chars@, 0) == p);
                    assert(p + 3 <= ll);
                }
                let key_chars = trim_chars(subvec(line_chars.as_slice(), 0, p).as_slice());
                let val_chars = trim_chars(subvec(line_chars.as_slice(), p + 3, ll).as_slice());
                let key = chars_to_string(key_chars.as_slice());
                let val = chars_to_string(val_chars.as_slice());
                let ghost t_before = t@;
                let ghost keyv = trim_spec(ls[i as int].subrange(0, p as int));
                let ghost valv = trim_spec(
                    ls[i as int].subrange(p + 3, ls[i as int].len() as int),
                );
                proof {
                    assert(key@ == keyv);
                    assert(val@ == valv);
                    crate::table::lemma_find_col_from(t@.cols, key@, 0);
                    crate::table::lemma_upsert_single_wf(
                        t@,
                        key@,
                        DataType::Str,
                        ValueView::Str(val@),
                    );
                }
                t.upsert_single_value(key, DataType::Str, Value::Str(val));
                proof {
                    assert(t@ =~~= upsert_single(
                        t_before,
                        keyv,
                        DataType::Str,
                        ValueView::Str(valv),
                    ));
                    assert(all_str_cols(t@)) by {
                        assert(forall|k: int|
                            0 <= k < t_before.cols.len() ==> #[trigger] t@.cols[k]
                                == t_before.cols[k]);
                    }
                }
            },
        }
        i = i + 1;
    }
    Ok(t)
}

/// Parses a whole article file's bytes: decode, cut into lines, parse.
pub fn parse_art_text(bytes: &[u8]) -> (r: Result<Table, ParseError>)
    ensures
        ({
            let out = article_parse(crate::text::lines_of(crate::text::iso_decoded(bytes@)));
            match r {
                Ok(t) => out == ArticleOutcome::Parsed(t@) && wf(t@) && t@.rows.len() == 1
                    && all_str_cols(t@),
                Err(e) => match e {
                    ParseError::MissingField(f) => (out is MissingName && f@ == "pgm_name"@) || (
                    out is MissingNone && f@ == "None"@),
                    ParseError::IOError(m) => out is NoneEof && m@ == "Reading none line"@,
                    ParseError::MalformedEntry(l) => out matches ArticleOutcome::Malformed(l0)
                        && l@ == l0,
                    _ => false,
                },
            }
        }),
{
    let lines = crate::text::decode_lines(bytes);
    read_article_parameters(&lines)
}

/// A line that is blank after trimming.
pub open spec fn line_is_blank(l: Seq<char>) -> bool {
    trim_spec(l).len() == 0
}

/// A line that holds the ` = ` separator.
pub open spec fn line_has_sep(l: Seq<char>) -> bool {
    find_sep_from(l, 0) >= 0
}

/// The trimmed key of a line with a separator.
pub open spec fn line_key(l: Seq<char>) -> Seq<char> {
    trim_spec(l.subrange(0, find_sep_from(l, 0)))
}

/// The trimmed value of a line with a separator.
pub open spec fn line_val(l: Seq<char>) -> Seq<char> {
    trim_spec(l.subrange(find_sep_from(l, 0) + 3, l.len() as int))
}

/// A well-formed article text: a name line, the sentinel line, and zero or
/// more lines that are blank or hold ` = `.
pub open spec fn well_formed_article(lines: Seq<Seq<char>>) -> bool {
    &&& lines.len() >= 2
    &&& trim_spec(lines[1]) == none_word()
    &&& forall|i: int|
        2 <= i < lines.len() ==> line_is_blank(#[trigger] lines[i]) || line_has_sep(lines[i])
}

/// The set of trimmed keys observed from line `i` on.
pub open spec fn article_keys(lines: Seq<Seq<char>>, i: int) -> Set<Seq<char>>
    decreases lines.len() - i,
{
    if i < 0 || i >= lines.len() {
        Set::empty()
    } else if line_is_blank(lines[i]) || !line_has_sep(lines[i]) {
        article_keys(lines, i + 1)
    } else {
        article_keys(lines, i + 1).insert(line_key(lines[i]))
    }
}

/// The trimmed value of the last line at or after `i` whose key is `k`.
pub open spec fn article_last_val(lines: Seq<Seq<char>>, i: int, k: Seq<char>) -> Option<
    Seq<char>,
>
    decreases lines.len() - i,
{
    if i < 0 || i >= lines.len() {
        None
    } else {
        let rest = article_last_val(lines, i + 1, k);
        if rest is Some {
            rest
        } else if !line_is_blank(lines[i]) && line_has_sep(lines[i]) && line_key(lines[i]) == k {
            Some(line_val(lines[i]))
        } else {
            None
        }
    }
}

/// Folding well-formed entry lines into a well-formed one-row table always
/// succeeds; the new column set is the old one plus the observed keys, a
/// key's cell holds the trimmed value of its last line, and columns never
/// touched keep their place and value.
proof fn lemma_article_entries_shape(t: TableView, lines: Seq<Seq<char>>, i: int)
    requires
        2 <= i <= lines.len(),
        forall|j: int|
            i <= j < lines.len() ==> line_is_blank(#[trigger] lines[j]) || line_has_sep(lines[j]),
        wf(t),
        t.rows.len() == 1,
        all_str_cols(t),
    ensures
        article_entries(t, lines, i) matches ArticleOutcome::Parsed(u) && u.rows.len() == 1 && wf(
            u,
        ) && col_name_set(u.cols) =~= col_name_set(t.cols).union(article_keys(lines, i)) && forall|
            j: int,
        |
            #![trigger u.cols[j]]
            0 <= j < u.cols.len() ==> match article_last_val(lines, i, u.cols[j].name) {
                Some(v) => u.rows[0][j] == ValueView::Str(v),
                None => j < t.cols.len() && u.cols[j] == t.cols[j] && u.rows[0][j] == t.rows[0][j],
            },
    decreases lines.len() - i,
{
    if i == lines.len() {
        assert(article_entries(t, lines, i) == ArticleOutcome::Parsed(t));
        assert(col_name_set(t.cols) =~= col_name_set(t.cols).union(article_keys(lines, i)));
    } else {
        let l = lines[i];
        if line_is_blank(l) {
            lemma_article_entries_shape(t, lines, i + 1);
        } else {
            assert(line_has_sep(l));
            let p = find_sep_from(l, 0);
            let k = line_key(l);
            let v = line_val(l);
            let t2 = upsert_single(t, k, DataType::Str, ValueView::Str(v));
            crate::table::lemma_find_col_from(t.cols, k, 0);
            crate::table::lemma_upsert_single_wf(t, k, DataType::Str, ValueView::Str(v));
            assert(all_str_cols(t2)) by {
                assert(forall|m: int|
                    0 <= m < t.cols.len() ==> #[trigger] t2.cols[m] == t.cols[m]);
            }
            lemma_article_entries_shape(t2, lines, i + 1);
            let u = article_entries(t2, lines, i + 1) ->Parsed_0;
            assert(article_entries(t, lines, i) == ArticleOutcome::Parsed(u));

            // the column set: t2 adds k to t's names, and the keys at i are
            // the keys after i plus k
            assert(col_name_set(t2.cols) =~= col_name_set(t.cols).insert(k)) by {
                let f = crate::table::find_col_from(t.cols, k, 0);
                if f >= 0 {
                    assert(t.cols.map_values(|c: ColumnView| c.name)[f] == k);
                    assert(col_name_set(t.cols).contains(k));
                    assert(t2.cols == t.cols);
                } else {
                    let m1 = t2.cols.map_values(|c: ColumnView| c.name);
                    let m0 = t.cols.map_values(|c: ColumnView| c.name);
                    assert(m1 =~= m0.push(k));
                    assert(forall|x: Seq<char>| m0.contains(x) ==> m1.contains(x)) by {
                        assert(forall|n: int|
                            0 <= n < m0.len() ==> m1[n] == #[trigger] m0[n]);
                    }
                    assert(m1.contains(k)) by {
                        assert(m1[m1.len() - 1] == k);
                    }
                    assert(forall|x: Seq<char>| m1.contains(x) && x != k ==> m0.contains(x))
                        by {
                        assert(forall|n: int|
                            0 <= n < m1.len() - 1 ==> m1[n] == #[trigger] m0[n]);
                    }
                }
            }
            assert(col_name_set(u.cols) =~= col_name_set(t.cols).union(article_keys(lines, i)));

            // the cells: a key's last value wins; untouched columns persist
            assert(forall|j: int|
                #![trigger u.cols[j]]
                0 <= j < u.cols.len() ==> match article_last_val(lines, i, u.cols[j].name) {
                    Some(vv) => u.rows[0][j] == ValueView::Str(vv),
                    None => j < t.cols.len() && u.cols[j] == t.cols[j] && u.rows[0][j]
                        == t.rows[0][j],
                }) by {
                assert forall|j: int| #![trigger u.cols[j]] 0 <= j
                    < u.cols.len() implies match article_last_val(lines, i, u.cols[j].name) {
                    Some(vv) => u.rows[0][j] == ValueView::Str(vv),
                    None => j < t.cols.len() && u.cols[j] == t.cols[j] && u.rows[0][j]
                        == t.rows[0][j],
                } by {
                    let name = u.cols[j].name;
                    let f = crate::table::find_col_from(t.cols, k, 0);
                    match article_last_val(lines, i, name) {
                        Some(vv) => {
                            if article_last_val(lines, i + 1, name) is Some {
                            } else {
                                // the winning line is line i itself
                                assert(name == k && vv == v);
                                assert(u.cols[j] == t2.cols[j] && u.rows[0][j] == t2.rows[0][j]);
                                if f >= 0 {
                                    assert(t2.cols[j].name == k);
                                    assert(j == f) by {
                                        if j != f {
                                            assert(t2.cols[j].name != t2.cols[f].name);
                                        }
                                    }
                                    assert(t2.rows[0][j] == ValueView::Str(v));
                                } else {
                                    assert(j == t.cols.len()) by {
                                        if j < t.cols.len() {
                                            assert(t.cols[j].name != k);
                                        }
                                    }
                                    assert(t2.rows[0][j] == ValueView::Str(v));
                                }
                            }
                        },
                        None => {
                            assert(article_last_val(lines, i + 1, name) is None);
                            assert(name != k);
                            assert(j < t2.cols.len() && u.cols[j] == t2.cols[j] && u.rows[0][j]
                                == t2.rows[0][j]);
                            if f >= 0 {
                                assert(t2.cols[j] == t.cols[j]);
                                assert(j != f) by {
                                    assert(t.cols[f].name == k);
                                }
                                assert(t2.rows[0][j] == t.rows[0][j]);
                            } else {
                                assert(j < t.cols.len()) by {
                                    if j == t.cols.len() {
                                        assert(t2.cols[j].name == k);
                                    }
                                }
                                assert(t2.cols[j] == t.cols[j]);
                                assert(t2.rows[0][j] == t.rows[0][j]);
                            }
                        },
                    }
                }
            }
        }
    }
}

/// For all well-formed article text, parsing succeeds with exactly one row
/// whose column set is `pgm_name` plus the observed keys; each key's cell
/// holds the trimmed value of its last `key = value` line, and `pgm_name`
/// holds the trimmed name line unless a key overwrote it.
pub proof fn lemma_article_well_formed(lines: Seq<Seq<char>>)
    requires
        well_formed_article(lines),
    ensures
        article_parse(lines) matches ArticleOutcome::Parsed(t) && t.rows.len() == 1 && wf(t)
            && col_name_set(t.cols) =~= article_keys(lines, 2).insert("pgm_name"@) && forall|
            j: int,
        |
            #![trigger t.cols[j]]
            0 <= j < t.cols.len() ==> match article_last_val(lines, 2, t.cols[j].name) {
                Some(v) => t.rows[0][j] == ValueView::Str(v),
                None => t.cols[j].name == "pgm_name"@ && t.rows[0][j] == ValueView::Str(
                    trim_spec(lines[0]),
                ),
            },
{
    let t0 = article_init(lines[0]);
    assert(wf(t0)) by {
        crate::table::lemma_find_col_from(t0.cols, "pgm_name"@, 0);
    }
    assert(all_str_cols(t0));
    lemma_article_entries_shape(t0, lines, 2);
    let t = article_entries(t0, lines, 2) ->Parsed_0;
    assert(col_name_set(t0.cols) =~= Set::<Seq<char>>::empty().insert("pgm_name"@)) by {
        let m = t0.cols.map_values(|c: ColumnView| c.name);
        assert(m[0] == "pgm_name"@);
        assert(forall|x: Seq<char>| m.contains(x) ==> x == "pgm_name"@);
    }
    assert(col_name_set(t.cols) =~= article_keys(lines, 2).insert("pgm_name"@));
}

/// Parsing article text whose second line is not the `None` sentinel fails
/// as a missing field, whatever the remaining lines hold.
pub proof fn lemma_article_missing_sentinel(lines: Seq<Seq<char>>)
    requires
        lines.len() >= 2,
        trim_spec(lines[1]) != none_word(),
    ensures
        article_parse(lines) is MissingNone,
{
}

} // verus!

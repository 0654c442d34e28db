//! Column extraction from delimited rows.
//!
//! A `ColumnParser` holds the requested column indices (duplicates collapse
//! to their first appearance, whose order fixes the binding order), the
//! delimiter, and the per-row policy for a missing column.  `parse_row`
//! splits one row into fields, looks up each requested column and validates
//! the field as numeric text; it reports per-row failures as values and
//! never ends the stream.  Columns are zero-indexed: the first field of a
//! row is column `0`.

use vstd::prelude::*;
use vstd::string::*;

use crate::numlit::{check_numeric_literal, is_numeric_literal};
use crate::text::{fields_of, split_fields};

verus! {

/// A per-row extraction failure.
#[derive(Debug, PartialEq, Eq)]
pub enum Error {
    /// The row (carried whole) has no field at the requested column index.
    MissingColumn(String, u32),
    /// The field at a requested column is not numeric text; carries the
    /// field and the name of the target numeric type.
    FailedParse(String, String),
}

/// `s` with duplicates dropped: each value keeps its first appearance only.
pub open spec fn dedup_first(s: Seq<u32>) -> Seq<u32>
    decreases s.len(),
{
    if s.len() == 0 {
        Seq::empty()
    } else {
        let prefix = dedup_first(s.drop_last());
        if prefix.contains(s.last()) {
            prefix
        } else {
            prefix.push(s.last())
        }
    }
}

/// Column `c` has a field in `fields` and that field is numeric text.
pub open spec fn col_ok(c: u32, fields: Seq<Seq<char>>) -> bool {
    c < fields.len() && is_numeric_literal(fields[c as int])
}

/// Every requested column has a numeric field.
pub open spec fn cols_ok(cols: Seq<u32>, fields: Seq<Seq<char>>) -> bool {
    forall|k: int| 0 <= k < cols.len() ==> col_ok(cols[k], fields)
}

/// The field of each requested column, in the parser's column order.
pub open spec fn row_values(cols: Seq<u32>, fields: Seq<Seq<char>>) -> Seq<Seq<char>> {
    cols.map_values(|c: u32| fields[c as int])
}

/// Position of the first requested column without a numeric field.
pub open spec fn first_bad_index(cols: Seq<u32>, fields: Seq<Seq<char>>) -> int
    decreases cols.len(),
{
    if cols.len() == 0 {
        0
    } else if !col_ok(cols[0], fields) {
        0
    } else {
        1 + first_bad_index(cols.drop_first(), fields)
    }
}

proof fn lemma_first_bad_at(cols: Seq<u32>, fields: Seq<Seq<char>>, k: int)
    requires
        0 <= k < cols.len(),
        forall|t: int| 0 <= t < k ==> col_ok(cols[t], fields),
        !col_ok(cols[k], fields),
    ensures
        first_bad_index(cols, fields) == k,
    decreases k,
{
    if k > 0 {
        lemma_first_bad_at(cols.drop_first(), fields, k - 1);
    }
}

/// A successful extraction: every column had a numeric field and the values
/// are those fields, in column order.
pub open spec fn row_outcome_ok(
    cols: Seq<u32>,
    fields: Seq<Seq<char>>,
    vals: Seq<Seq<char>>,
) -> bool {
    cols_ok(cols, fields) && vals == row_values(cols, fields)
}

/// A failed extraction: the first requested column without a numeric field
/// decides the error, `MissingColumn` when the row is too short there and
/// `FailedParse` when the field is not numeric text.
pub open spec fn row_outcome_err(
    cols: Seq<u32>,
    fields: Seq<Seq<char>>,
    row: Seq<char>,
    e: Error,
) -> bool {
    !cols_ok(cols, fields) && {
        let c = cols[first_bad_index(cols, fields)];
        match e {
            Error::MissingColumn(bad_row, bad_col) => {
                &&& c >= fields.len()
                &&& bad_row@ == row
                &&& bad_col == c
            },
            Error::FailedParse(bad_field, target_name) => {
                &&& c < fields.len()
                &&& !is_numeric_literal(fields[c as int])
                &&& bad_field@ == fields[c as int]
                &&& target_name@ == "f64"@
            },
        }
    }
}

/// Extracts the fields of a fixed set of columns from delimited rows.
pub struct ColumnParser {
    columns: Vec<u32>,
    delim: String,
    lenient: bool,
}

pub(crate) fn contains_u32(v: &Vec<u32>, x: u32) -> (b: bool)
    ensures
        b == v@.contains(x),
{
    let mut i: usize = 0;
    while i < v.len()
        invariant
            i <= v@.len(),
            forall|t: int| 0 <= t < i ==> v@[t] != x,
        decreases v@.len() - i,
    {
        if v[i] == x {
            return true;
        }
        i = i + 1;
    }
    false
}

impl ColumnParser {
    /// The requested column indices, first appearances in request order.
    pub closed spec fn columns_seq(&self) -> Seq<u32> {
        self.columns@
    }

    /// The delimiter the parser splits rows on.
    pub closed spec fn delim_seq(&self) -> Seq<char> {
        self.delim@
    }

    /// In lenient mode a missing column skips the row; in strict mode it is
    /// a per-row error.
    pub closed spec fn is_lenient(&self) -> bool {
        self.lenient
    }

    /// The parser splits on a non-empty delimiter.
    pub open spec fn wf(&self) -> bool {
        self.delim_seq().len() >= 1
    }

    /// Build a strict parser for the given column indices; duplicates
    /// collapse to their first appearance, whose order fixes the order of
    /// extracted values.
    pub fn new(columns: &[u32], delim: &str) -> (p: ColumnParser)
        requires
            delim@.len() >= 1,
        ensures
            p.columns_seq() == dedup_first(columns@),
            p.delim_seq() == delim@,
            !p.is_lenient(),
            p.wf(),
    {
        Self::with_mode(columns, delim, false)
    }

    /// Build a parser as `new` does, choosing the missing-column policy:
    /// lenient skips such rows, strict reports them.
    pub fn with_mode(columns: &[u32], delim: &str, lenient: bool) -> (p: ColumnParser)
        requires
            delim@.len() >= 1,
        ensures
            p.columns_seq() == dedup_first(columns@),
            p.delim_seq() == delim@,
            p.is_lenient() == lenient,
            p.wf(),
    {
        let mut cols: Vec<u32> = Vec::new();
        let mut i: usize = 0;
        proof {
            assert(columns@.take(0) =~= Seq::<u32>::empty());
        }
        while i < columns.len()
            invariant
                i <= columns@.len(),
                cols@ == dedup_first(columns@.take(i as int)),
            decreases columns@.len() - i,
        {
            let c = columns[i];
            let ghost prev = cols@;
            if !contains_u32(&cols, c) {
                cols.push(c);
            }
            proof {
                let taken = columns@.take(i as int + 1);
                assert(taken.drop_last() =~= columns@.take(i as int));
                assert(taken.last() == columns@[i as int]);
                if !prev.contains(c) {
                    assert(cols@ =~= prev.push(c));
                }
            }
            i = i + 1;
        }
        proof {
            assert(columns@.take(columns@.len() as int) =~= columns@);
        }
        ColumnParser { columns: cols, delim: String::from_str(delim), lenient }
    }

    /// Build a strict parser for one column.
    pub fn single(column: u32, delim: &str) -> (p: ColumnParser)
        requires
            delim@.len() >= 1,
        ensures
            p.columns_seq() == seq![column],
            p.delim_seq() == delim@,
            !p.is_lenient(),
            p.wf(),
    {
        let mut cols: Vec<u32> = Vec::new();
        cols.push(column);
        proof {
            assert(cols@ =~= seq![column]);
        }
        ColumnParser { columns: cols, delim: String::from_str(delim), lenient: false }
    }

    /// Extract the parser's columns from one row.
    ///
    /// The row splits into fields on the delimiter; the result carries one
    /// field per requested column, in the parser's column order, each
    /// guaranteed to be numeric text.  The first column in that order
    /// without a numeric field decides the error.
    pub fn parse_row(&self, row: &str) -> (r: Result<Vec<String>, Error>)
        requires
            self.wf(),
        ensures
            (match r {
                Ok(vals) => row_outcome_ok(
                    self.columns_seq(),
                    fields_of(row@, self.delim_seq()),
                    vals.deep_view(),
                ),
                Err(e) => row_outcome_err(
                    self.columns_seq(),
                    fields_of(row@, self.delim_seq()),
                    row@,
                    e,
                ),
            }),
    {
        let fields = split_fields(row, self.delim.as_str());
        let ghost fv = fields_of(row@, self.delim_seq());
        let ghost cols = self.columns_seq();
        let mut vals: Vec<String> = Vec::new();
        let mut k: usize = 0;
        proof {
            assert(cols.take(0) =~= Seq::<u32>::empty());
            assert(vals.deep_view() =~= row_values(cols.take(0), fv));
        }
        while k < self.columns.len()
            invariant
                self.wf(),
                cols == self.columns_seq(),
                fv == fields_of(row@, self.delim_seq()),
                fields.deep_view() == fv,
                k <= cols.len(),
                forall|t: int| 0 <= t < k ==> col_ok(cols[t], fields.deep_view()),
                vals.deep_view() == row_values(cols.take(k as int), fv),
            decreases cols.len() - k,
        {
            let c = self.columns[k];
            let cu = c as usize;
            if cu >= fields.len() {
                proof {
                    assert(!col_ok(cols[k as int], fv));
                    lemma_first_bad_at(cols, fv, k as int);
                    assert(!cols_ok(cols, fv)) by {
                        assert(0 <= k < cols.len() && !col_ok(cols[k as int], fv));
                    }
                }
                return Err(Error::MissingColumn(row.to_owned(), c));
            }
            let field = &fields[cu];
            proof {
                assert(field@ == fv[cu as int]);
            }
            if !check_numeric_literal(field.as_str()) {
                proof {
                    assert(!col_ok(cols[k as int], fv));
                    lemma_first_bad_at(cols, fv, k as int);
                    assert(!cols_ok(cols, fv)) by {
                        assert(0 <= k < cols.len() && !col_ok(cols[k as int], fv));
                    }
                }
                return Err(Error::FailedParse(field.clone(), String::from_str("f64")));
            }
            let ghost prev = vals.deep_view();
            vals.push(field.clone());
            proof {
                assert(cols.take(k as int + 1) =~= cols.take(k as int).push(cols[k as int]));
                assert(row_values(cols.take(k as int + 1), fv) =~= row_values(
                    cols.take(k as int),
                    fv,
                ).push(fv[cols[k as int] as int]));
                assert(vals.deep_view() =~= prev.push(fv[cols[k as int] as int]));
            }
            k = k + 1;
        }
        proof {
            assert(cols.take(cols.len() as int) =~= cols);
        }
        Ok(vals)
    }

    /// Extract the parser's columns from one row, applying the parser's
    /// missing-column policy: a lenient parser answers `None` for a row
    /// whose first offending column is missing (the row is skipped), while
    /// a field that is not numeric text surfaces as an error in either
    /// mode.
    pub fn parse_row_opt(&self, row: &str) -> (r: Option<Result<Vec<String>, Error>>)
        requires
            self.wf(),
        ensures
            (match r {
                Some(Ok(vals)) => row_outcome_ok(
                    self.columns_seq(),
                    fields_of(row@, self.delim_seq()),
                    vals.deep_view(),
                ),
                Some(Err(e)) => {
                    &&& row_outcome_err(
                        self.columns_seq(),
                        fields_of(row@, self.delim_seq()),
                        row@,
                        e,
                    )
                    &&& (self.is_lenient() ==> e is FailedParse)
                },
                None => {
                    let fields = fields_of(row@, self.delim_seq());
                    &&& self.is_lenient()
                    &&& !cols_ok(self.columns_seq(), fields)
                    &&& self.columns_seq()[first_bad_index(self.columns_seq(), fields)]
                        >= fields.len()
                },
            }),
    {
        let r = self.parse_row(row);
        if self.lenient {
            match r {
                Err(Error::MissingColumn(_, _)) => None,
                other => Some(other),
            }
        } else {
            Some(r)
        }
    }
}

} // verus!

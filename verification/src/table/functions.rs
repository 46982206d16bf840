//! Set algebra over row-compatible tables, truncation, and the standalone
//! type check.

use vstd::prelude::*;
use crate::errors::DbError;
use crate::table::data::{Table, Value, DataType, clone_row, clone_rows, Column};
use crate::table::model::ValModel;
use crate::table::validators::{compatible, msg3};
use crate::table::text::{row_key, row_key_string};
use crate::table::query::{distinct_rows, key_seen_in, dedup_rows};

verus! {

/// The rows of `rows` whose distinctness key occurs in `others` (kept), or
/// does not (dropped), depending on `keep_found`.
pub open spec fn rows_keyed_against(
    rows: Seq<Seq<ValModel>>,
    others: Seq<Seq<ValModel>>,
    keep_found: bool,
) -> Seq<Seq<ValModel>>
    decreases rows.len(),
{
    if rows.len() == 0 {
        Seq::empty()
    } else {
        let rest = rows_keyed_against(rows.drop_last(), others, keep_found);
        if key_seen_in(others, row_key(rows.last())) == keep_found {
            rest.push(rows.last())
        } else {
            rest
        }
    }
}

/// Pairwise name-and-type agreement of two column lists.
pub open spec fn schemas_match(a: Seq<crate::table::model::ColModel>, b: Seq<crate::table::model::ColModel>) -> bool {
    a.len() == b.len() && forall|i: int|
        0 <= i < a.len() ==> (#[trigger] a[i]).name == b[i].name && a[i].datatype == b[i].datatype
}

/// The surviving width of a keyed filter.
proof fn lemma_keyed_width(
    rows: Seq<Seq<ValModel>>,
    others: Seq<Seq<ValModel>>,
    keep_found: bool,
    w: int,
)
    requires
        forall|r: int| 0 <= r < rows.len() ==> (#[trigger] rows[r]).len() == w,
    ensures
        forall|r: int|
            0 <= r < rows_keyed_against(rows, others, keep_found).len() ==> (
            #[trigger] rows_keyed_against(rows, others, keep_found)[r]).len() == w,
    decreases rows.len(),
{
    if rows.len() > 0 {
        assert(forall|r: int|
            0 <= r < rows.drop_last().len() ==> (#[trigger] rows.drop_last()[r]).len() == w);
        lemma_keyed_width(rows.drop_last(), others, keep_found, w);
        let k = rows_keyed_against(rows, others, keep_found);
        let rest = rows_keyed_against(rows.drop_last(), others, keep_found);
        if key_seen_in(others, row_key(rows.last())) == keep_found {
            assert forall|r: int| 0 <= r < k.len() implies (#[trigger] k[r]).len() == w by {
                if r < rest.len() {
                } else {
                    assert(k[r] == rows.last());
                }
            }
        }
    }
}

/// Deduplication keeps row widths.
proof fn lemma_distinct_width(rows: Seq<Seq<ValModel>>, w: int)
    requires
        forall|r: int| 0 <= r < rows.len() ==> (#[trigger] rows[r]).len() == w,
    ensures
        forall|r: int|
            0 <= r < distinct_rows(rows).len() ==> (#[trigger] distinct_rows(rows)[r]).len() == w,
    decreases rows.len(),
{
    if rows.len() > 0 {
        assert(forall|r: int|
            0 <= r < rows.drop_last().len() ==> (#[trigger] rows.drop_last()[r]).len() == w);
        lemma_distinct_width(rows.drop_last(), w);
        let k = distinct_rows(rows);
        let rest = distinct_rows(rows.drop_last());
        if !key_seen_in(rows.drop_last(), row_key(rows.last())) {
            assert forall|r: int| 0 <= r < k.len() implies (#[trigger] k[r]).len() == w by {
                if r < rest.len() {
                } else {
                    assert(k[r] == rows.last());
                }
            }
        }
    }
}

impl Table {
    /// Removes every row and every index.
    pub fn truncate(&mut self)
        ensures
            final(self).wf(),
            final(self).rows@.len() == 0,
            final(self).indexes@.len() == 0,
            final(self).columns == old(self).columns,
            final(self).name == old(self).name,
            final(self).primary_key == old(self).primary_key,
            final(self).transaction_backup is None,
    {
        self.rows = Vec::new();
        self.indexes = Vec::new();
        self.transaction_backup = None;
    }

    /// Whether a value's runtime variant matches the declared type; a null
    /// matches every declared type.
    pub fn value_matches_type(val: &Value, dtype: &DataType) -> (r: bool)
        ensures
            r == compatible(val@, *dtype),
    {
        val.is_type_compatible_with(dtype)
    }

    /// The deduplicated concatenation of two schema-compatible tables'
    /// rows, first occurrence winning under the display-rendering key.
    /// Fails exactly when the column names or declared types differ.
    #[verifier::loop_isolation(false)]
    pub fn union(&self, other: &Table) -> (r: Result<Table, DbError>)
        requires
            self.rows_aligned(),
            other.rows_aligned(),
        ensures
            r is Ok <==> schemas_match(self.cols_model(), other.cols_model()),
            r is Err ==> r->Err_0 is SchemaError,
            r matches Ok(t) ==> t.rows_model() == distinct_rows(
                self.rows_model() + other.rows_model(),
            ) && t.cols_model() == self.cols_model() && t.wf() && t.primary_key is None
                && t.transaction_backup is None && t.indexes@.len() == 0,
    {
        if self.columns.len() != other.columns.len() {
            proof {
                assert(self.cols_model().len() == self.columns@.len());
                assert(other.cols_model().len() == other.columns@.len());
            }
            return Err(
                DbError::SchemaError("Tables have different number of columns".to_owned()),
            );
        }
        let mut i: usize = 0;
        while i < self.columns.len()
            invariant
                i <= self.columns@.len(),
                self.columns@.len() == other.columns@.len(),
                forall|j: int|
                    0 <= j < i ==> (#[trigger] self.cols_model()[j]).name
                        == other.cols_model()[j].name && self.cols_model()[j].datatype
                        == other.cols_model()[j].datatype,
            decreases self.columns@.len() - i,
        {
            if !(self.columns[i].name == other.columns[i].name) || !(self.columns[i].datatype
                == other.columns[i].datatype) {
                proof {
                    assert(self.cols_model()[i as int].name == self.columns@[i as int].name@);
                    assert(other.cols_model()[i as int].name == other.columns@[i as int].name@);
                    assert(self.cols_model()[i as int].datatype == self.columns@[
                        i as int
                    ].datatype);
                    assert(other.cols_model()[i as int].datatype == other.columns@[
                        i as int
                    ].datatype);
                    assert(!schemas_match(self.cols_model(), other.cols_model()));
                }
                return Err(DbError::SchemaError("Table schemas do not match".to_owned()));
            }
            i = i + 1;
        }
        let mut new_rows = clone_rows(&self.rows);
        let mut other_rows = clone_rows(&other.rows);
        new_rows.append(&mut other_rows);
        proof {
            assert(new_rows.deep_view() =~~= self.rows_model() + other.rows_model());
        }
        let deduped = dedup_rows(&new_rows);
        let mut name = msg3("union_", self.name.as_str(), "_");
        name.append(other.name.as_str());
        let result = Table {
            name,
            columns: clone_columns(&self.columns),
            rows: deduped,
            primary_key: None,
            indexes: Vec::new(),
            transaction_backup: None,
        };
        proof {
            lemma_distinct_width(
                self.rows_model() + other.rows_model(),
                self.cols_model().len() as int,
            );
            assert(result.cols_model() =~~= self.cols_model());
            assert forall|x: int| 0 <= x < result.rows_model().len() implies (
            #[trigger] result.rows_model()[x]).len() == result.cols_model().len() by {
                assert(result.rows_model()[x].len() == self.cols_model().len());
            }
        }
        Ok(result)
    }

    /// The rows of this table whose content (by the display-rendering key)
    /// also occurs in the other; fails exactly when the column counts
    /// differ.
    #[verifier::loop_isolation(false)]
    pub fn intersect(&self, other: &Table) -> (r: Result<Table, DbError>)
        requires
            self.rows_aligned(),
        ensures
            r is Ok <==> self.cols_model().len() == other.cols_model().len(),
            r is Err ==> r->Err_0 is SchemaError,
            r matches Ok(t) ==> t.rows_model() == rows_keyed_against(
                self.rows_model(),
                other.rows_model(),
                true,
            ) && t.cols_model() == self.cols_model() && t.wf() && t.primary_key is None
                && t.transaction_backup is None && t.indexes@.len() == 0,
    {
        self.keyed_filter(other, true, "intersect_")
    }

    /// The rows of this table whose content does not occur in the other;
    /// fails exactly when the column counts differ.
    #[verifier::loop_isolation(false)]
    pub fn except(&self, other: &Table) -> (r: Result<Table, DbError>)
        requires
            self.rows_aligned(),
        ensures
            r is Ok <==> self.cols_model().len() == other.cols_model().len(),
            r is Err ==> r->Err_0 is SchemaError,
            r matches Ok(t) ==> t.rows_model() == rows_keyed_against(
                self.rows_model(),
                other.rows_model(),
                false,
            ) && t.cols_model() == self.cols_model() && t.wf() && t.primary_key is None
                && t.transaction_backup is None && t.indexes@.len() == 0,
    {
        self.keyed_filter(other, false, "except_")
    }

    /// The shared body of `intersect` and `except`.
    #[verifier::loop_isolation(false)]
    fn keyed_filter(&self, other: &Table, keep_found: bool, prefix: &str) -> (r: Result<
        Table,
        DbError,
    >)
        requires
            self.rows_aligned(),
        ensures
            r is Ok <==> self.cols_model().len() == other.cols_model().len(),
            r is Err ==> r->Err_0 is SchemaError,
            r matches Ok(t) ==> t.rows_model() == rows_keyed_against(
                self.rows_model(),
                other.rows_model(),
                keep_found,
            ) && t.cols_model() == self.cols_model() && t.wf() && t.primary_key is None
                && t.transaction_backup is None && t.indexes@.len() == 0,
    {
        if self.columns.len() != other.columns.len() {
            proof {
                assert(self.cols_model().len() == self.columns@.len());
                assert(other.cols_model().len() == other.columns@.len());
            }
            return Err(
                DbError::SchemaError("Tables have different number of columns".to_owned()),
            );
        }
        let ghost rd = self.rows_model();
        let ghost od = other.rows_model();
        let mut kept: Vec<Vec<Value>> = Vec::new();
        let mut r: usize = 0;
        while r < self.rows.len()
            invariant
                r <= self.rows@.len(),
                kept.deep_view() == rows_keyed_against(rd.subrange(0, r as int), od, keep_found),
            decreases self.rows@.len() - r,
        {
            let key = row_key_string(&self.rows[r]);
            let mut found = false;
            let mut p: usize = 0;
            while p < other.rows.len()
                invariant
                    p <= other.rows@.len(),
                    found <==> exists|q: int| 0 <= q < p && row_key(#[trigger] od[q]) == key@,
                decreases other.rows@.len() - p,
            {
                let prior = row_key_string(&other.rows[p]);
                if prior == key {
                    proof {
                        assert(row_key(od[p as int]) == key@);
                    }
                    found = true;
                }
                p = p + 1;
            }
            proof {
                let prefix1 = rd.subrange(0, r as int + 1);
                assert(prefix1.drop_last() =~= rd.subrange(0, r as int));
                assert(prefix1.last() == rd[r as int]);
                assert(key@ == row_key(rd[r as int]));
                if found {
                    let q = choose|q: int| 0 <= q < od.len() && row_key(#[trigger] od[q]) == key@;
                    assert(key_seen_in(od, row_key(rd[r as int])));
                } else {
                    if key_seen_in(od, row_key(rd[r as int])) {
                        let q = choose|q: int|
                            0 <= q < od.len() && row_key(#[trigger] od[q]) == row_key(
                                rd[r as int],
                            );
                        assert(false);
                    }
                }
                assert(found == key_seen_in(od, row_key(rd[r as int])));
            }
            if found == keep_found {
                kept.push(clone_row(&self.rows[r]));
                proof {
                    assert(kept.deep_view() =~~= rows_keyed_against(
                        rd.subrange(0, r as int + 1),
                        od,
                        keep_found,
                    ));
                }
            } else {
                proof {
                    assert(kept.deep_view() =~~= rows_keyed_against(
                        rd.subrange(0, r as int + 1),
                        od,
                        keep_found,
                    ));
                }
            }
            r = r + 1;
        }
        proof {
            assert(rd.subrange(0, rd.len() as int) =~= rd);
        }
        let mut name = msg3(prefix, self.name.as_str(), "_");
        name.append(other.name.as_str());
        let result = Table {
            name,
            columns: clone_columns(&self.columns),
            rows: kept,
            primary_key: None,
            indexes: Vec::new(),
            transaction_backup: None,
        };
        proof {
            lemma_keyed_width(rd, od, keep_found, self.cols_model().len() as int);
            assert(result.cols_model() =~~= self.cols_model());
            assert forall|x: int| 0 <= x < result.rows_model().len() implies (
            #[trigger] result.rows_model()[x]).len() == result.cols_model().len() by {
                assert(result.rows_model()[x].len() == self.cols_model().len());
            }
        }
        Ok(result)
    }
}

/// A copy of a column list whose model is the original's.
pub fn clone_columns(v: &Vec<Column>) -> (r: Vec<Column>)
    ensures
        r.deep_view() == v.deep_view(),
        r@.len() == v@.len(),
{
    let mut r: Vec<Column> = Vec::new();
    let mut i: usize = 0;
    while i < v.len()
        invariant
            i <= v.len(),
            r@.len() == i,
            forall|j: int| 0 <= j < i ==> r@[j]@ == #[trigger] v@[j]@,
        decreases v.len() - i,
    {
        r.push(v[i].clone());
        i = i + 1;
    }
    proof {
        assert(r.deep_view() =~~= v.deep_view());
    }
    r
}

} // verus!

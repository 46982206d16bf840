//! Construction and row mutation: building a table, the validated insert
//! path, filtered update and delete, and aliased copies.
//!
//! Update and delete always fall back to a full scan of the rows; an index
//! never changes which rows an operation touches, only how fast candidates
//! are found.

use vstd::prelude::*;
use vstd::pervasive::VecAdditionalExecFns;
use crate::errors::DbError;
use crate::table::data::{
    Table, Column, Options, Value, FilterExpr, IndexType, clone_row, clone_rows, clone_strings,
    clone_options,
};
use crate::table::model::{ValModel, ColModel, val_eq, col_position};
use crate::table::validators::{
    valid_row, defaults_resolved, autoincrement_headroom, compatible, row_len_ok, row_types_ok,
    msg3,
};
use crate::table::filters::{expr_matches, expr_column};
use crate::table::indexing::{lemma_exact_rows_push, entries_exact, entries_of};

verus! {

/// The rows that survive deleting every match of the filter, in order.
pub open spec fn keep_rows(rows: Seq<Seq<ValModel>>, e: FilterExpr, ci: int) -> Seq<Seq<ValModel>>
    decreases rows.len(),
{
    if rows.len() == 0 {
        Seq::empty()
    } else {
        let rest = keep_rows(rows.drop_last(), e, ci);
        if expr_matches(e, ci, rows.last()) {
            rest
        } else {
            rest.push(rows.last())
        }
    }
}

/// One row with the per-position replacements applied: a `Some` in the
/// update list overwrites that position.
pub open spec fn updated_row(row: Seq<ValModel>, updates: Seq<Option<ValModel>>) -> Seq<ValModel> {
    Seq::new(
        row.len(),
        |j: int|
            if 0 <= j < updates.len() && updates[j] is Some {
                updates[j]->0
            } else {
                row[j]
            },
    )
}

/// The row list with every match of the filter rewritten by the updates.
pub open spec fn apply_updates(
    rows: Seq<Seq<ValModel>>,
    e: FilterExpr,
    ci: int,
    updates: Seq<Option<ValModel>>,
) -> Seq<Seq<ValModel>> {
    Seq::new(
        rows.len(),
        |r: int|
            if expr_matches(e, ci, rows[r]) {
                updated_row(rows[r], updates)
            } else {
                rows[r]
            },
    )
}

impl Table {
    /// A fresh table with the given schema and no rows; an empty hash
    /// index is built over each primary-key column that exists, and no
    /// other index.
    #[verifier::loop_isolation(false)]
    pub fn new(name: &str, columns: Vec<Column>, pk: Option<Vec<String>>) -> (r: Table)
        ensures
            r.wf(),
            r.name@ == name@,
            r.columns == columns,
            r.rows@.len() == 0,
            r.primary_key == pk,
            r.transaction_backup is None,
            r.primary_key matches Some(pks) ==> forall|k: int|
                0 <= k < pks.deep_view().len() && col_position(
                    r.cols_model(),
                    #[trigger] pks.deep_view()[k],
                ) is Some ==> r.has_index_on(pks.deep_view()[k]),
            r.primary_key is None ==> r.indexes@.len() == 0,
            forall|x: int|
                0 <= x < r.indexes@.len() ==> ((#[trigger] r.indexes@[x]).index matches
                    IndexType::Hash(es) && es@.len() == 0),
            forall|x: int|
                #![trigger r.indexes@[x]]
                0 <= x < r.indexes@.len() ==> (r.primary_key is Some && (exists|k: int|
                    0 <= k < r.primary_key->Some_0.deep_view().len()
                        && #[trigger] r.primary_key->Some_0.deep_view()[k] == r.indexes@[
                        x
                    ].column@)),
    {
        let mut table = Table {
            name: name.to_owned(),
            columns,
            rows: Vec::new(),
            primary_key: pk,
            indexes: Vec::new(),
            transaction_backup: None,
        };
        let pk_names: Vec<String> = match &table.primary_key {
            Some(p) => clone_strings(p),
            None => Vec::new(),
        };
        let ghost pks = pk_names.deep_view();
        let mut k: usize = 0;
        while k < pk_names.len()
            invariant
                k <= pk_names@.len(),
                table.wf(),
                table.name@ == name@,
                table.rows@.len() == 0,
                table.primary_key == pk,
                table.transaction_backup is None,
                table.columns == columns,
                pk_names@.len() == 0 ==> table.indexes@.len() == 0,
                forall|a: int|
                    0 <= a < k && col_position(table.cols_model(), #[trigger] pks[a]) is Some
                        ==> table.has_index_on(pks[a]),
                forall|x: int|
                    0 <= x < table.indexes@.len() ==> ((#[trigger] table.indexes@[x]).index matches
                        IndexType::Hash(es) && es@.len() == 0),
                forall|x: int|
                    #![trigger table.indexes@[x]]
                    0 <= x < table.indexes@.len() ==> (exists|k2: int|
                        0 <= k2 < pks.len() && #[trigger] pks[k2] == table.indexes@[x].column@),
            decreases pk_names@.len() - k,
        {
            let ghost before = table;
            let unused = table.create_index(pk_names[k].as_str(), false);
            proof {
                assert forall|a: int|
                    0 <= a < k + 1 && col_position(table.cols_model(), #[trigger] pks[a]) is Some
                        implies table.has_index_on(pks[a]) by {
                    if a < k {
                        assert(before.has_index_on(pks[a]));
                    }
                }
                assert forall|x: int|
                    0 <= x < table.indexes@.len() implies ((#[trigger] table.indexes@[x]).index
                    matches IndexType::Hash(es) && es@.len() == 0) by {
                    if !(x < before.indexes@.len() && table.indexes@[x] == before.indexes@[x]) {
                        assert(table.indexes@[x].column@ == pks[k as int]);
                        assert(entries_of(table.indexes@[x].index).len() == 0);
                    }
                }
                assert forall|x: int|
                    #![trigger table.indexes@[x]]
                    0 <= x < table.indexes@.len() implies (exists|k2: int|
                    0 <= k2 < pks.len() && #[trigger] pks[k2] == table.indexes@[x].column@) by {
                    if !(x < before.indexes@.len() && table.indexes@[x] == before.indexes@[x]) {
                        assert(pks[k as int] == table.indexes@[x].column@);
                    }
                }
            }
            k = k + 1;
        }
        proof {
            match table.primary_key {
                Some(ref stored) => {
                    assert(stored.deep_view() =~~= pks);
                },
                None => {
                    assert(pk_names@.len() == 0);
                },
            }
        }
        table
    }

    /// Inserts one row: the value list must have one entry per column and
    /// each raw value must match its column's declared type; defaults and
    /// autoincrement are then resolved and the resolved row must satisfy
    /// every constraint. A failed insert reports why and leaves the table
    /// untouched; a successful one appends the resolved row and extends
    /// every index with its position. The caller keeps every triggered
    /// autoincrement column below the greatest representable integer, as
    /// stepping past it has no representable successor.
    #[verifier::loop_isolation(false)]
    pub fn insert(&mut self, values: Vec<Value>) -> (r: Result<(), DbError>)
        requires
            old(self).wf(),
            autoincrement_headroom(
                old(self).cols_model(),
                old(self).rows_model(),
                values.deep_view(),
            ),
        ensures
            final(self).wf(),
            final(self).columns == old(self).columns,
            final(self).name == old(self).name,
            final(self).primary_key == old(self).primary_key,
            final(self).transaction_backup == old(self).transaction_backup,
            r is Ok <==> (values.deep_view().len() == old(self).cols_model().len() && (forall|
                i: int,
            |
                0 <= i < values.deep_view().len() ==> compatible(
                    #[trigger] values.deep_view()[i],
                    old(self).cols_model()[i].datatype,
                )) && valid_row(
                old(self).cols_model(),
                old(self).pk_model(),
                old(self).rows_model(),
                defaults_resolved(
                    old(self).cols_model(),
                    old(self).rows_model(),
                    values.deep_view(),
                ),
            )),
            r is Ok ==> final(self).rows_model() == old(self).rows_model().push(
                defaults_resolved(
                    old(self).cols_model(),
                    old(self).rows_model(),
                    values.deep_view(),
                ),
            ),
            r is Err ==> *final(self) == *old(self),
            r is Err ==> (r->Err_0 is TypeMismatch || r->Err_0 is ConstraintViolation),
            !(values.deep_view().len() == old(self).cols_model().len() && (forall|i: int|
                0 <= i < values.deep_view().len() ==> compatible(
                    #[trigger] values.deep_view()[i],
                    old(self).cols_model()[i].datatype,
                ))) ==> (r matches Err(e) && e is TypeMismatch),
    {
        let ghost cols = self.cols_model();
        let ghost vd = values.deep_view();
        if values.len() != self.columns.len() {
            return Err(DbError::TypeMismatch("Column count does not match".to_owned()));
        }
        let mut i: usize = 0;
        while i < values.len()
            invariant
                i <= values@.len(),
                forall|j: int| 0 <= j < i ==> compatible(#[trigger] vd[j], cols[j].datatype),
            decreases values@.len() - i,
        {
            proof {
                assert(vd[i as int] == values@[i as int]@);
            }
            if !values[i].is_type_compatible_with(&self.columns[i].datatype) {
                let mut m = msg3(
                    "Type mismatch at column ",
                    self.columns[i].name.as_str(),
                    ": expected ",
                );
                m.append(self.columns[i].datatype.kind_name());
                m.append(", got ");
                m.append(values[i].debug_string().as_str());
                return Err(DbError::TypeMismatch(m));
            }
            i = i + 1;
        }
        let full_row = match self.apply_defaults(&values) {
            Ok(f) => f,
            Err(e) => {
                return Err(e);
            },
        };
        match self.validate_row(&full_row) {
            Ok(()) => {},
            Err(e) => {
                return Err(e);
            },
        }
        let ghost old_rows = self.rows_model();
        let ghost fr = full_row.deep_view();
        self.rows.push(full_row);
        proof {
            assert(self.rows_model() =~~= old_rows.push(fr));
            assert(self.rows_aligned());
            assert forall|x: int| 0 <= x < self.indexes@.len() implies {
                let cp = col_position(self.cols_model(), (#[trigger] self.indexes@[x]).column@);
                cp is Some && entries_exact(
                    entries_of(self.indexes@[x].index),
                    self.rows_model(),
                    cp->0,
                    old_rows.len() as int,
                )
            } by {
                let cp = col_position(self.cols_model(), self.indexes@[x].column@);
                lemma_exact_rows_push(
                    entries_of(self.indexes@[x].index),
                    old_rows,
                    fr,
                    cp->0,
                    old_rows.len() as int,
                );
            }
        }
        let idx = self.rows.len() - 1;
        self.update_indexes_for_row(idx);
        Ok(())
    }

    /// Deletes every row the filter matches, scanning all rows, and
    /// rebuilds every index against the survivors.
    #[verifier::loop_isolation(false)]
    pub fn delete_where(&mut self, expr: &FilterExpr)
        requires
            old(self).wf(),
            col_position(old(self).cols_model(), expr_column(*expr)) is Some,
        ensures
            final(self).wf(),
            final(self).columns == old(self).columns,
            final(self).name == old(self).name,
            final(self).primary_key == old(self).primary_key,
            final(self).transaction_backup == old(self).transaction_backup,
            final(self).rows_model() == keep_rows(
                old(self).rows_model(),
                *expr,
                col_position(old(self).cols_model(), expr_column(*expr))->0,
            ),
    {
        let ghost old_rows = self.rows_model();
        let ci = match self.find_column(expr.column().as_str()) {
            Some(ci) => ci,
            None => {
                proof {
                    assert(false);
                }
                return ;
            },
        };
        let mut kept: Vec<Vec<Value>> = Vec::new();
        let mut r: usize = 0;
        while r < self.rows.len()
            invariant
                r <= self.rows@.len(),
                self == old(self),
                kept.deep_view() == keep_rows(old_rows.subrange(0, r as int), *expr, ci as int),
            decreases self.rows@.len() - r,
        {
            proof {
                assert(self.rows_model()[r as int].len() == self.rows@[r as int]@.len());
            }
            let ghost prefix = old_rows.subrange(0, r as int + 1);
            proof {
                assert(prefix.drop_last() =~= old_rows.subrange(0, r as int));
                assert(prefix.last() == old_rows[r as int]);
            }
            if !expr.matches_row(ci, &self.rows[r]) {
                let copy = clone_row(&self.rows[r]);
                kept.push(copy);
                proof {
                    assert(kept.deep_view() =~~= keep_rows(prefix, *expr, ci as int));
                }
            } else {
                proof {
                    assert(kept.deep_view() =~~= keep_rows(prefix, *expr, ci as int));
                }
            }
            r = r + 1;
        }
        proof {
            assert(old_rows.subrange(0, old_rows.len() as int) =~= old_rows);
            lemma_keep_rows_aligned(old_rows, *expr, ci as int, self.cols_model().len() as int);
        }
        self.rows = kept;
        self.rebuild_all_indexes();
    }

    /// Rewrites every row the filter matches by the update list (a `Some`
    /// overwrites that position), scanning all rows. Every rewritten row is
    /// validated against the table as it stood before the call; the first
    /// failure is reported and nothing changes. On success the rows are
    /// replaced and every index rebuilt.
    #[verifier::loop_isolation(false)]
    pub fn update_where(&mut self, expr: &FilterExpr, updates: Vec<Option<Value>>) -> (r: Result<
        (),
        DbError,
    >)
        requires
            old(self).wf(),
            col_position(old(self).cols_model(), expr_column(*expr)) is Some,
            updates.deep_view().len() <= old(self).cols_model().len(),
        ensures
            final(self).wf(),
            final(self).columns == old(self).columns,
            final(self).name == old(self).name,
            final(self).primary_key == old(self).primary_key,
            final(self).transaction_backup == old(self).transaction_backup,
            r is Ok <==> (forall|x: int|
                0 <= x < old(self).rows_model().len() && expr_matches(
                    *expr,
                    col_position(old(self).cols_model(), expr_column(*expr))->0,
                    #[trigger] old(self).rows_model()[x],
                ) ==> valid_row(
                    old(self).cols_model(),
                    old(self).pk_model(),
                    old(self).rows_model(),
                    updated_row(old(self).rows_model()[x], updates.deep_view()),
                )),
            r is Ok ==> final(self).rows_model() == apply_updates(
                old(self).rows_model(),
                *expr,
                col_position(old(self).cols_model(), expr_column(*expr))->0,
                updates.deep_view(),
            ),
            r is Err ==> *final(self) == *old(self),
            r is Err ==> (r->Err_0 is TypeMismatch || r->Err_0 is ConstraintViolation),
    {
        let ghost old_rows = self.rows_model();
        let ghost cols = self.cols_model();
        let ghost ud = updates.deep_view();
        let ci = match self.find_column(expr.column().as_str()) {
            Some(ci) => ci,
            None => {
                proof {
                    assert(false);
                }
                return Ok(());
            },
        };
        let mut new_rows: Vec<Vec<Value>> = Vec::new();
        let mut r: usize = 0;
        while r < self.rows.len()
            invariant
                r <= self.rows@.len(),
                self == old(self),
                ud.len() <= cols.len(),
                new_rows.deep_view().len() == r,
                forall|x: int|
                    0 <= x < r ==> new_rows.deep_view()[x] == (if expr_matches(
                        *expr,
                        ci as int,
                        #[trigger] old_rows[x],
                    ) {
                        updated_row(old_rows[x], ud)
                    } else {
                        old_rows[x]
                    }),
                forall|x: int|
                    0 <= x < r && expr_matches(*expr, ci as int, #[trigger] old_rows[x])
                        ==> valid_row(cols, self.pk_model(), old_rows, updated_row(old_rows[x], ud)),
            decreases self.rows@.len() - r,
        {
            proof {
                assert(self.rows_model()[r as int].len() == self.rows@[r as int]@.len());
            }
            let ghost prev = new_rows.deep_view();
            if expr.matches_row(ci, &self.rows[r]) {
                let mut new_row = clone_row(&self.rows[r]);
                let mut j: usize = 0;
                while j < updates.len()
                    invariant
                        j <= updates@.len(),
                        ud.len() <= cols.len(),
                        new_row@.len() == old_rows[r as int].len(),
                        r < old_rows.len(),
                        old_rows[r as int].len() == cols.len(),
                        forall|y: int|
                            0 <= y < new_row@.len() ==> (#[trigger] new_row.deep_view()[y]) == (if 0
                                <= y < j && ud[y] is Some {
                                ud[y]->0
                            } else {
                                old_rows[r as int][y]
                            }),
                    decreases updates@.len() - j,
                {
                    if let Some(val) = &updates[j] {
                        proof {
                            assert(ud[j as int] is Some);
                            assert(ud[j as int]->0 == updates@[j as int]->0@);
                        }
                        let ghost prevrow = new_row.deep_view();
                        let replacement = val.clone();
                        proof {
                            assert(replacement@ == ud[j as int]->0);
                        }
                        new_row.set(j, replacement);
                        proof {
                            assert(new_row.deep_view() =~~= prevrow.update(
                                j as int,
                                ud[j as int]->0,
                            ));
                        }
                    }
                    j = j + 1;
                }
                proof {
                    assert(new_row.deep_view() =~~= updated_row(old_rows[r as int], ud));
                }
                match self.validate_row(&new_row) {
                    Ok(()) => {},
                    Err(e) => {
                        return Err(e);
                    },
                }
                new_rows.push(new_row);
            } else {
                let copy = clone_row(&self.rows[r]);
                new_rows.push(copy);
            }
            r = r + 1;
        }
        proof {
            assert(new_rows.deep_view() =~~= apply_updates(old_rows, *expr, ci as int, ud));
            assert forall|x: int|
                0 <= x < new_rows.deep_view().len() implies (#[trigger] new_rows.deep_view()[
                x]).len() == cols.len() by {
                assert(old_rows[x].len() == cols.len());
            }
        }
        self.rows = new_rows;
        self.rebuild_all_indexes();
        Ok(())
    }

    /// A renamed copy for self-joins: every column name becomes
    /// `alias.name`, with underscores appended until the new names are
    /// pairwise distinct; the rows are copied, no index or snapshot comes
    /// along, and the table name gains an `_alias` suffix.
    #[verifier::loop_isolation(false)]
    pub fn with_alias(&self, alias: &str) -> (r: Table)
        requires
            self.rows_aligned(),
        ensures
            r.wf(),
            r.name@ == self.name@ + "_alias"@,
            r.rows_model() == self.rows_model(),
            r.columns@.len() == self.columns@.len(),
            forall|i: int, j: int|
                #![trigger r.cols_model()[i], r.cols_model()[j]]
                0 <= i < j < r.cols_model().len() ==> r.cols_model()[i].name != r.cols_model()[
                    j
                ].name,
            forall|i: int|
                0 <= i < r.cols_model().len() ==> (#[trigger] r.cols_model()[i]).datatype
                    == self.cols_model()[i].datatype && r.cols_model()[i].options == self.cols_model()[
                    i
                ].options && minimally_suffixed(
                    r.cols_model()[i].name,
                    alias@ + seq!['.'] + self.cols_model()[i].name,
                    r.cols_model().subrange(0, i),
                ),
            r.indexes@.len() == 0,
            r.transaction_backup is None,
    {
        let mut columns: Vec<Column> = Vec::new();
        let mut i: usize = 0;
        while i < self.columns.len()
            invariant
                i <= self.columns@.len(),
                columns.deep_view().len() == i,
                forall|a: int, b: int|
                    #![trigger columns.deep_view()[a], columns.deep_view()[b]]
                    0 <= a < b < i ==> columns.deep_view()[a].name != columns.deep_view()[b].name,
                forall|a: int|
                    0 <= a < i ==> (#[trigger] columns.deep_view()[a]).datatype
                        == self.cols_model()[a].datatype && columns.deep_view()[a].options
                        == self.cols_model()[a].options && minimally_suffixed(
                        columns.deep_view()[a].name,
                        alias@ + seq!['.'] + self.cols_model()[a].name,
                        columns.deep_view().subrange(0, a),
                    ),
            decreases self.columns@.len() - i,
        {
            let base_name = msg3(alias, ".", self.columns[i].name.as_str());
            proof {
                reveal_strlit(".");
                assert(base_name@ =~= alias@ + seq!['.'] + self.cols_model()[i as int].name);
            }
            let col_name = free_name(&columns, base_name);
            proof {
                assert(minimally_suffixed(
                    col_name@,
                    alias@ + seq!['.'] + self.cols_model()[i as int].name,
                    columns.deep_view(),
                ));
            }
            let ghost chosen = col_name@;
            let ghost prev_cols = columns.deep_view();
            columns.push(
                Column {
                    name: col_name,
                    datatype: self.columns[i].datatype,
                    options: clone_options(&self.columns[i].options),
                },
            );
            proof {
                assert(columns.deep_view()[i as int].name == chosen);
                assert(columns.deep_view()[i as int].options =~~= self.cols_model()[
                    i as int
                ].options);
                assert(columns.deep_view().subrange(0, i as int) =~= prev_cols);
                assert forall|a: int|
                    0 <= a < i implies minimally_suffixed(
                    (#[trigger] columns.deep_view()[a]).name,
                    alias@ + seq!['.'] + self.cols_model()[a].name,
                    columns.deep_view().subrange(0, a),
                ) by {
                    assert(columns.deep_view().subrange(0, a) =~= prev_cols.subrange(0, a));
                    assert(columns.deep_view()[a] == prev_cols[a]);
                }
                assert(forall|b: int|
                    0 <= b < i ==> (#[trigger] prev_cols[b]).name != chosen);
                assert forall|a: int, b: int|
                    #![trigger columns.deep_view()[a], columns.deep_view()[b]]
                    0 <= a < b < i + 1 implies columns.deep_view()[a].name
                    != columns.deep_view()[b].name by {
                    if b == i {
                        assert(columns.deep_view()[a] == prev_cols[a]);
                        assert(prev_cols[a].name != chosen);
                        assert(columns.deep_view()[i as int].name == chosen);
                    } else {
                        assert(columns.deep_view()[a] == prev_cols[a]);
                        assert(columns.deep_view()[b] == prev_cols[b]);
                    }
                }
                assert(columns.deep_view()[i as int].datatype == self.cols_model()[
                    i as int
                ].datatype);
                assert(minimally_suffixed(
                    columns.deep_view()[i as int].name,
                    alias@ + seq!['.'] + self.cols_model()[i as int].name,
                    columns.deep_view().subrange(0, i as int),
                ));
                assert(forall|a: int|
                    0 <= a < i ==> #[trigger] columns.deep_view()[a] == prev_cols[a]);
            }
            i = i + 1;
        }
        proof {
            reveal_strlit("");
        }
        let aliased = Table {
            name: msg3(self.name.as_str(), "_alias", ""),
            columns,
            rows: clone_rows(&self.rows),
            primary_key: match &self.primary_key {
                Some(p) => Some(clone_strings(p)),
                None => None,
            },
            indexes: Vec::new(),
            transaction_backup: None,
        };
        proof {
            assert forall|x: int| 0 <= x < aliased.rows_model().len() implies (
            #[trigger] aliased.rows_model()[x]).len() == aliased.cols_model().len() by {
                assert(aliased.rows_model()[x] == self.rows_model()[x]);
            }
            assert forall|i: int|
                0 <= i < aliased.cols_model().len() implies minimally_suffixed(
                (#[trigger] aliased.cols_model()[i]).name,
                alias@ + seq!['.'] + self.cols_model()[i].name,
                aliased.cols_model().subrange(0, i),
            ) by {
                assert(aliased.cols_model().subrange(0, i) =~= aliased.cols_model().subrange(
                    0,
                    i,
                ));
            }
        }
        aliased
    }
}

/// Whether some listed column already bears the name.
pub open spec fn taken_name(cols: Seq<ColModel>, n: Seq<char>) -> bool {
    exists|b: int| 0 <= b < cols.len() && (#[trigger] cols[b]).name == n
}

/// The chosen name is the base plus the fewest underscores that clear
/// every listed name: every shorter candidate is taken, the chosen one is
/// not.
pub open spec fn minimally_suffixed(name: Seq<char>, base: Seq<char>, prior: Seq<ColModel>) -> bool {
    &&& !taken_name(prior, name)
    &&& exists|k: int|
        0 <= k && name == base + #[trigger] underscores(k) && (forall|k2: int|
            0 <= k2 < k ==> taken_name(prior, base + #[trigger] underscores(k2)))
}

/// The candidate name with underscores appended until no existing column
/// name equals it, stopping at the first free form.
#[verifier::loop_isolation(false)]
pub(crate) fn free_name(columns: &Vec<Column>, cand: String) -> (r: String)
    ensures
        minimally_suffixed(r@, cand@, columns.deep_view()),
        forall|b: int|
            0 <= b < columns.deep_view().len() ==> (#[trigger] columns.deep_view()[b]).name != r@,
{
    let mut current = cand;
    let ghost k: int = 0;
    proof {
        assert(current@ =~= cand@ + underscores(0));
    }
    loop
        invariant
            current@ == cand@ + underscores(k),
            k >= 0,
            forall|k2: int|
                0 <= k2 < k ==> taken_name(columns.deep_view(), cand@ + #[trigger] underscores(
                    k2,
                )),
        decreases name_slack(columns.deep_view(), current@),
    {
        let mut taken = false;
        let mut a: usize = 0;
        while a < columns.len()
            invariant
                a <= columns@.len(),
                taken <==> exists|b: int|
                    0 <= b < a && (#[trigger] columns.deep_view()[b]).name == current@,
            decreases columns@.len() - a,
        {
            if columns[a].name == current {
                proof {
                    assert(columns.deep_view()[a as int].name == current@);
                }
                taken = true;
            }
            a = a + 1;
        }
        if !taken {
            proof {
                assert(!taken_name(columns.deep_view(), current@)) by {
                    if taken_name(columns.deep_view(), current@) {
                        let b = choose|b: int|
                            0 <= b < columns.deep_view().len() && (#[trigger] columns.deep_view()[
                                b
                            ]).name == current@;
                        assert(false);
                    }
                }
            }
            return current;
        }
        proof {
            lemma_name_slack_drops(columns.deep_view(), current@);
            assert(taken_name(columns.deep_view(), cand@ + underscores(k)));
        }
        current.append("_");
        proof {
            reveal_strlit("_");
            assert(current@ =~= cand@ + underscores(k + 1));
        }
        proof {
            k = k + 1;
        }
    }
}

/// `k` underscores.
pub open spec fn underscores(k: int) -> Seq<char>
    decreases k,
{
    if k <= 0 {
        Seq::empty()
    } else {
        underscores(k - 1) + seq!['_']
    }
}

/// How much longer a candidate name can grow before it clears every taken
/// name: the length it must exceed, minus what it has.
pub open spec fn name_slack(cols: Seq<ColModel>, name: Seq<char>) -> int {
    longest_name(cols) + 1 - name.len()
}

/// The longest column-name length.
pub open spec fn longest_name(cols: Seq<ColModel>) -> int
    decreases cols.len(),
{
    if cols.len() == 0 {
        0
    } else {
        let rest = longest_name(cols.drop_last());
        if cols.last().name.len() > rest {
            cols.last().name.len() as int
        } else {
            rest
        }
    }
}

/// A taken name is never longer than the longest, so a growing candidate
/// eventually clears them all.
pub proof fn lemma_name_slack_drops(cols: Seq<ColModel>, name: Seq<char>)
    requires
        exists|b: int| 0 <= b < cols.len() && (#[trigger] cols[b]).name == name,
    ensures
        name_slack(cols, name) >= 1,
{
    let b = choose|b: int| 0 <= b < cols.len() && (#[trigger] cols[b]).name == name;
    lemma_longest_name_bound(cols, b);
}

proof fn lemma_longest_name_bound(cols: Seq<ColModel>, b: int)
    requires
        0 <= b < cols.len(),
    ensures
        cols[b].name.len() <= longest_name(cols),
    decreases cols.len(),
{
    if b < cols.len() - 1 {
        assert(cols.drop_last()[b] == cols[b]);
        lemma_longest_name_bound(cols.drop_last(), b);
    }
}

/// Surviving rows keep their column count.
pub proof fn lemma_keep_rows_aligned(rows: Seq<Seq<ValModel>>, e: FilterExpr, ci: int, w: int)
    requires
        forall|r: int| 0 <= r < rows.len() ==> (#[trigger] rows[r]).len() == w,
    ensures
        forall|r: int|
            0 <= r < keep_rows(rows, e, ci).len() ==> (#[trigger] keep_rows(rows, e, ci)[r]).len()
                == w,
    decreases rows.len(),
{
    if rows.len() > 0 {
        assert(forall|r: int|
            0 <= r < rows.drop_last().len() ==> (#[trigger] rows.drop_last()[r]).len() == w);
        lemma_keep_rows_aligned(rows.drop_last(), e, ci, w);
        let kr = keep_rows(rows, e, ci);
        let rest = keep_rows(rows.drop_last(), e, ci);
        if !expr_matches(e, ci, rows.last()) {
            assert forall|r: int| 0 <= r < kr.len() implies (#[trigger] kr[r]).len() == w by {
                if r < rest.len() {
                } else {
                    assert(kr[r] == rows.last());
                }
            }
        }
    }
}

} // verus!

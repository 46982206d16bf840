//! Structural schema changes: adding, renaming and dropping columns. Any
//! change that moves or reshapes rows rebuilds every index afterwards, as
//! positional correctness cannot survive a structural mutation.

use vstd::prelude::*;
use vstd::pervasive::VecAdditionalExecFns;
use crate::errors::DbError;
use crate::table::data::{Table, Column, Value, clone_row, clone_options};
use crate::table::model::{ValModel, col_position};
use crate::table::validators::{
    column_valid, has_not_null, first_default, find_default, options_have_not_null,
    distinct_names, msg3,
};

verus! {

/// The value that backfills existing rows when a column is added: its
/// default, else null.
pub open spec fn backfill_value(c: crate::table::model::ColModel) -> ValModel {
    match first_default(c.options) {
        Some(d) => d,
        None => ValModel::Null,
    }
}

impl Table {
    /// Adds a column at the end: the name must be fresh, the declaration
    /// coherent, and a not-null column must bring a default; every
    /// existing row is backfilled with the default (or null) and every
    /// index is rebuilt. A failure leaves the table untouched.
    #[verifier::loop_isolation(false)]
    pub fn alter_add_column(&mut self, new_column: Column) -> (r: Result<(), DbError>)
        requires
            old(self).wf(),
            old(self).transaction_backup is None,
        ensures
            final(self).wf(),
            final(self).name == old(self).name,
            final(self).primary_key == old(self).primary_key,
            final(self).transaction_backup is None,
            r is Ok <==> (col_position(old(self).cols_model(), new_column@.name) is None
                && column_valid(new_column@) && (has_not_null(new_column@.options)
                ==> first_default(new_column@.options) is Some)),
            r is Err ==> *final(self) == *old(self) && (r->Err_0 is SchemaError),
            r is Ok ==> final(self).cols_model() == old(self).cols_model().push(new_column@),
            r is Ok ==> final(self).rows_model() == Seq::new(
                old(self).rows_model().len(),
                |x: int| old(self).rows_model()[x].push(backfill_value(new_column@)),
            ),
    {
        if let Some(_) = self.find_column(new_column.name.as_str()) {
            let mut m = msg3(
                "Column '",
                new_column.name.as_str(),
                "' already exists in table '",
            );
            m.append(self.name.as_str());
            m.append("'");
            return Err(DbError::SchemaError(m));
        }
        match new_column.validate() {
            Ok(()) => {},
            Err(e) => {
                return Err(e);
            },
        }
        let default_val = find_default(&new_column.options);
        let filler: Value = match default_val {
            Some(v) => v,
            None => {
                if options_have_not_null(&new_column.options) {
                    return Err(
                        DbError::SchemaError(
                            msg3(
                                "Cannot add NOT NULL column '",
                                new_column.name.as_str(),
                                "' without a default value",
                            ),
                        ),
                    );
                }
                Value::Null
            },
        };
        proof {
            assert(filler@ == backfill_value(new_column@));
        }
        let ghost old_rows = self.rows_model();
        let mut new_rows: Vec<Vec<Value>> = Vec::new();
        let mut x: usize = 0;
        while x < self.rows.len()
            invariant
                x <= self.rows@.len(),
                self == old(self),
                filler@ == backfill_value(new_column@),
                new_rows.deep_view().len() == x,
                forall|y: int|
                    0 <= y < x ==> #[trigger] new_rows.deep_view()[y] == old_rows[y].push(
                        backfill_value(new_column@),
                    ),
            decreases self.rows@.len() - x,
        {
            let mut row = clone_row(&self.rows[x]);
            row.push(filler.clone());
            proof {
                assert(row.deep_view() =~~= old_rows[x as int].push(backfill_value(new_column@)));
            }
            let ghost prev = new_rows.deep_view();
            let ghost rowd = row.deep_view();
            new_rows.push(row);
            proof {
                assert(new_rows.deep_view() =~~= prev.push(rowd));
            }
            x = x + 1;
        }
        self.rows = new_rows;
        self.columns.push(new_column);
        proof {
            assert(self.cols_model() =~~= old(self).cols_model().push(new_column@));
            assert(self.rows_model() =~~= Seq::new(
                old_rows.len(),
                |y: int| old_rows[y].push(backfill_value(new_column@)),
            ));
            assert forall|y: int| 0 <= y < self.rows_model().len() implies (
            #[trigger] self.rows_model()[y]).len() == self.cols_model().len() by {
                assert(self.rows_model()[y] == old_rows[y].push(backfill_value(new_column@)));
            }
        }
        self.rebuild_all_indexes();
        Ok(())
    }

    /// Renames a column: the new name must be fresh and the old one must
    /// exist; the index covering it and any primary-key reference follow,
    /// and every index is rebuilt. A failure leaves the table untouched.
    #[verifier::loop_isolation(false)]
    pub fn rename_column(&mut self, old_name: &str, new_name: &str) -> (r: Result<(), DbError>)
        requires
            old(self).wf(),
            distinct_names(old(self).cols_model()),
        ensures
            final(self).wf(),
            final(self).name == old(self).name,
            final(self).rows_model() == old(self).rows_model(),
            final(self).transaction_backup == old(self).transaction_backup,
            r is Ok <==> (col_position(old(self).cols_model(), new_name@) is None && col_position(
                old(self).cols_model(),
                old_name@,
            ) is Some),
            r is Err ==> *final(self) == *old(self) && (r->Err_0 is SchemaError || r->Err_0
                is ColumnNotFound),
            col_position(old(self).cols_model(), new_name@) is Some ==> (r matches Err(e) && e
                is SchemaError),
            r is Ok ==> final(self).cols_model().len() == old(self).cols_model().len()
                && (forall|j: int|
                0 <= j < final(self).cols_model().len()
                    ==> (#[trigger] final(self).cols_model()[j]) == (if j == col_position(
                    old(self).cols_model(),
                    old_name@,
                )->0 {
                    crate::table::model::ColModel { name: new_name@, ..old(self).cols_model()[j] }
                } else {
                    old(self).cols_model()[j]
                })),
            r is Ok ==> final(self).indexes@.len() == old(self).indexes@.len() && (forall|x: int|
                0 <= x < final(self).indexes@.len()
                    ==> (#[trigger] final(self).indexes@[x]).column@ == (if old(
                    self,
                ).indexes@[x].column@ == old_name@ {
                    new_name@
                } else {
                    old(self).indexes@[x].column@
                })),
            r is Ok ==> final(self).pk_model() == (match old(self).pk_model() {
                None => None::<Seq<Seq<char>>>,
                Some(pks) => Some(
                    Seq::new(
                        pks.len(),
                        |k: int| if pks[k] == old_name@ {
                            new_name@
                        } else {
                            pks[k]
                        },
                    ),
                ),
            }),
    {
        if let Some(_) = self.find_column(new_name) {
            return Err(
                DbError::SchemaError(msg3("Column '", new_name, "' already exists")),
            );
        }
        let idx = match self.find_column(old_name) {
            Some(i) => i,
            None => {
                return Err(
                    DbError::ColumnNotFound(msg3("Column '", old_name, "' does not exist")),
                );
            },
        };
        let ghost old_cols = self.cols_model();
        let renamed = Column {
            name: new_name.to_owned(),
            datatype: self.columns[idx].datatype,
            options: clone_options(&self.columns[idx].options),
        };
        let unused = self.columns.remove(idx);
        self.columns.insert(idx, renamed);
        proof {
            assert(self.cols_model() =~~= old_cols.update(
                idx as int,
                crate::table::model::ColModel { name: new_name@, ..old_cols[idx as int] },
            ));
        }
        let ghost new_cols = old_cols.update(
            idx as int,
            crate::table::model::ColModel { name: new_name@, ..old_cols[idx as int] },
        );
        let mut x: usize = 0;
        while x < self.indexes.len()
            invariant
                x <= self.indexes@.len(),
                self.rows == old(self).rows,
                self.name == old(self).name,
                self.primary_key == old(self).primary_key,
                self.transaction_backup == old(self).transaction_backup,
                self.cols_model() == new_cols,
                self.indexes@.len() == old(self).indexes@.len(),
                forall|y: int|
                    0 <= y < x ==> (#[trigger] self.indexes@[y]).column@ == (if old(
                        self,
                    ).indexes@[y].column@ == old_name@ {
                        new_name@
                    } else {
                        old(self).indexes@[y].column@
                    }),
                forall|y: int|
                    x <= y < self.indexes@.len() ==> #[trigger] self.indexes@[y] == old(
                        self,
                    ).indexes@[y],
            decreases self.indexes@.len() - x,
        {
            let is_old = crate::table::validators::str_eq_string(
                old_name,
                &self.indexes[x].column,
            );
            if is_old {
                let ghost before = self.indexes@;
                let entry = self.indexes.remove(x);
                self.indexes.insert(
                    x,
                    crate::table::data::ColumnIndex {
                        column: new_name.to_owned(),
                        index: entry.index,
                    },
                );
                proof {
                    assert(self.indexes@ =~= before.update(x as int, self.indexes@[x as int]));
                }
            }
            x = x + 1;
        }
        let ghost old_pk = self.pk_model();
        if let Some(pk) = &self.primary_key {
            let ghost pks = pk.deep_view();
            let mut new_pk: Vec<String> = Vec::new();
            let mut k: usize = 0;
            while k < pk.len()
                invariant
                    k <= pk@.len(),
                    pks == pk.deep_view(),
                    new_pk.deep_view().len() == k,
                    forall|k2: int|
                        0 <= k2 < k ==> #[trigger] new_pk.deep_view()[k2] == (if pks[k2]
                            == old_name@ {
                            new_name@
                        } else {
                            pks[k2]
                        }),
                decreases pk@.len() - k,
            {
                let ghost prev = new_pk.deep_view();
                let replacement: String = if crate::table::validators::str_eq_string(
                    old_name,
                    &pk[k],
                ) {
                    new_name.to_owned()
                } else {
                    pk[k].clone()
                };
                let ghost repd = replacement@;
                new_pk.push(replacement);
                proof {
                    assert(new_pk.deep_view() =~~= prev.push(repd));
                }
                k = k + 1;
            }
            self.primary_key = Some(new_pk);
            proof {
                assert(self.pk_model()->Some_0 =~~= Seq::new(
                    pks.len(),
                    |k2: int| if pks[k2] == old_name@ {
                        new_name@
                    } else {
                        pks[k2]
                    },
                ));
            }
        }
        proof {
            assert(self.cols_model() == new_cols);
            assert forall|j: int|
                0 <= j < self.cols_model().len() implies (#[trigger] self.cols_model()[j]) == (
            if j == col_position(old(self).cols_model(), old_name@)->0 {
                crate::table::model::ColModel { name: new_name@, ..old(self).cols_model()[j] }
            } else {
                old(self).cols_model()[j]
            }) by {
                assert(col_position(old(self).cols_model(), old_name@) == Some(idx as int));
            }
            assert forall|y: int| 0 <= y < self.rows_model().len() implies (
            #[trigger] self.rows_model()[y]).len() == self.cols_model().len() by {
                assert(self.rows_model()[y] == old(self).rows_model()[y]);
                assert(self.cols_model().len() == old(self).cols_model().len());
            }
            assert(self.backup_aligned()) by {
                match self.transaction_backup {
                    Some(ref b) => {
                        assert(forall|y: int|
                            0 <= y < b.deep_view().len() ==> (#[trigger] b.deep_view()[y]).len()
                                == old(self).cols_model().len());
                    },
                    None => {},
                }
            }
        }
        let ghost mid = self.indexes@;
        proof {
            // every intermediate index column exists in the renamed schema
            assert forall|x: int| 0 <= x < mid.len() implies col_position(
                self.cols_model(),
                (#[trigger] mid[x]).column@,
            ) is Some by {
                let oldcol = old(self).indexes@[x].column@;
                let op = col_position(old(self).cols_model(), oldcol);
                if oldcol == old_name@ {
                    assert(mid[x].column@ == new_name@);
                    assert(self.cols_model()[idx as int].name == new_name@);
                    lemma_col_position_from_exists(self.cols_model(), new_name@, 0, idx as int);
                } else {
                    assert(op is Some);
                    let p = op->0;
                    lemma_col_position_found(old(self).cols_model(), oldcol, 0);
                    assert(old(self).cols_model()[p].name == oldcol);
                    assert(p != idx as int) by {
                        if p == idx as int {
                            lemma_col_position_found(old(self).cols_model(), old_name@, 0);
                            assert(old(self).cols_model()[idx as int].name == old_name@);
                        }
                    }
                    assert(self.cols_model()[p].name == oldcol);
                    lemma_col_position_from_exists(self.cols_model(), oldcol, 0, p);
                }
            }
            // and they stay pairwise distinct
            assert forall|x1: int, x2: int|
                #![trigger mid[x1], mid[x2]]
                0 <= x1 < x2 < mid.len() implies mid[x1].column@ != mid[x2].column@ by {
                let c1 = old(self).indexes@[x1].column@;
                let c2 = old(self).indexes@[x2].column@;
                assert(c1 != c2);
                if c1 == old_name@ || c2 == old_name@ {
                    let other = if c1 == old_name@ {
                        c2
                    } else {
                        c1
                    };
                    if other != old_name@ {
                        // the untouched column keeps an existing old name,
                        // which cannot be the fresh one
                        let op = col_position(old(self).cols_model(), other);
                        assert(op is Some);
                        let p = op->0;
                        lemma_col_position_found(old(self).cols_model(), other, 0);
                        assert(old(self).cols_model()[p].name == other);
                        lemma_col_position_none(old(self).cols_model(), new_name@, 0, p);
                    }
                }
            }
        }
        self.rebuild_all_indexes();
        proof {
            assert(self.indexes@.len() == mid.len());
            assert forall|x: int|
                0 <= x < self.indexes@.len() implies (#[trigger] self.indexes@[x]).column@ == (
            if old(self).indexes@[x].column@ == old_name@ {
                new_name@
            } else {
                old(self).indexes@[x].column@
            }) by {
                assert(self.indexes@[x].column@ == mid[x].column@);
            }
        }
        Ok(())
    }

    /// Drops a column: it must exist and must not be part of the primary
    /// key; its value leaves every row, its index (if any) is dropped, and
    /// every index is rebuilt. A failure leaves the table untouched.
    #[verifier::loop_isolation(false)]
    pub fn drop_column(&mut self, name: &str) -> (r: Result<(), DbError>)
        requires
            old(self).wf(),
            old(self).transaction_backup is None,
        ensures
            final(self).wf(),
            final(self).name == old(self).name,
            final(self).primary_key == old(self).primary_key,
            final(self).transaction_backup is None,
            r is Ok <==> (col_position(old(self).cols_model(), name@) is Some && !(match old(
                self,
            ).pk_model() {
                Some(pks) => pks.contains(name@),
                None => false,
            })),
            r is Err ==> *final(self) == *old(self) && (r->Err_0 is ColumnNotFound || r->Err_0
                is SchemaError),
            r is Ok ==> final(self).cols_model() == old(self).cols_model().remove(
                col_position(old(self).cols_model(), name@)->0,
            ),
            r is Ok ==> final(self).rows_model() == Seq::new(
                old(self).rows_model().len(),
                |x: int| old(self).rows_model()[x].remove(
                    col_position(old(self).cols_model(), name@)->0,
                ),
            ),
    {
        let idx = match self.find_column(name) {
            Some(i) => i,
            None => {
                return Err(
                    DbError::ColumnNotFound(msg3("Column '", name, "' does not exist")),
                );
            },
        };
        if let Some(pk) = &self.primary_key {
            let mut k: usize = 0;
            while k < pk.len()
                invariant
                    k <= pk@.len(),
                    forall|a: int| 0 <= a < k ==> #[trigger] pk.deep_view()[a] != name@,
                decreases pk@.len() - k,
            {
                if crate::table::validators::str_eq_string(name, &pk[k]) {
                    proof {
                        assert(pk.deep_view()[k as int] == name@);
                        assert(self.pk_model()->Some_0.contains(name@));
                    }
                    return Err(
                        DbError::SchemaError(
                            msg3("Cannot drop primary key column '", name, "'"),
                        ),
                    );
                }
                k = k + 1;
            }
            proof {
                if self.pk_model()->Some_0.contains(name@) {
                    let a = choose|a: int|
                        0 <= a < pk.deep_view().len() && #[trigger] pk.deep_view()[a] == name@;
                    assert(false);
                }
            }
        }
        let ghost old_cols = self.cols_model();
        let ghost old_rows = self.rows_model();
        let unused = self.columns.remove(idx);
        proof {
            assert(self.cols_model() =~~= old_cols.remove(idx as int));
        }
        let mut new_rows: Vec<Vec<Value>> = Vec::new();
        let mut x: usize = 0;
        while x < self.rows.len()
            invariant
                x <= self.rows@.len(),
                idx < old_cols.len(),
                self.rows == old(self).rows,
                self.name == old(self).name,
                self.primary_key == old(self).primary_key,
                self.transaction_backup is None,
                self.cols_model() == old_cols.remove(idx as int),
                new_rows.deep_view().len() == x,
                forall|y: int|
                    0 <= y < x ==> #[trigger] new_rows.deep_view()[y] == old_rows[y].remove(
                        idx as int,
                    ),
            decreases self.rows@.len() - x,
        {
            let mut row = clone_row(&self.rows[x]);
            proof {
                assert(old_rows[x as int].len() == old_cols.len());
                assert(row@.len() == self.rows@[x as int]@.len());
            }
            let unused2 = row.remove(idx);
            proof {
                assert(row.deep_view() =~~= old_rows[x as int].remove(idx as int));
            }
            let ghost prev = new_rows.deep_view();
            let ghost rowd = row.deep_view();
            new_rows.push(row);
            proof {
                assert(new_rows.deep_view() =~~= prev.push(rowd));
            }
            x = x + 1;
        }
        self.rows = new_rows;
        let mut x: usize = 0;
        while x < self.indexes.len()
            invariant
                x <= self.indexes@.len(),
                self.rows.deep_view() == Seq::new(
                    old_rows.len(),
                    |y: int| old_rows[y].remove(idx as int),
                ),
                self.cols_model() == old_cols.remove(idx as int),
                self.name == old(self).name,
                self.primary_key == old(self).primary_key,
                self.transaction_backup is None,
            decreases self.indexes@.len() - x,
        {
            if crate::table::validators::str_eq_string(name, &self.indexes[x].column) {
                let unused3 = self.indexes.remove(x);
            } else {
                x = x + 1;
            }
        }
        proof {
            assert(self.rows_model() =~~= Seq::new(
                old_rows.len(),
                |y: int| old_rows[y].remove(idx as int),
            ));
            assert forall|y: int| 0 <= y < self.rows_model().len() implies (
            #[trigger] self.rows_model()[y]).len() == self.cols_model().len() by {
                assert(self.rows_model()[y] == old_rows[y].remove(idx as int));
                assert(old_rows[y].len() == old_cols.len());
            }
        }
        self.rebuild_all_indexes();
        Ok(())
    }
}

/// A successful column search names a column that really bears the name.
proof fn lemma_col_position_found(
    cols: Seq<crate::table::model::ColModel>,
    name: Seq<char>,
    i: int,
)
    requires
        0 <= i,
    ensures
        crate::table::model::col_position_from(cols, name, i) matches Some(p) ==> i <= p
            < cols.len() && cols[p].name == name,
    decreases cols.len() - i,
{
    if i < cols.len() {
        lemma_col_position_found(cols, name, i + 1);
    }
}

/// A name borne at some position is found.
proof fn lemma_col_position_from_exists(
    cols: Seq<crate::table::model::ColModel>,
    name: Seq<char>,
    i: int,
    j: int,
)
    requires
        0 <= i <= j < cols.len(),
        cols[j].name == name,
    ensures
        crate::table::model::col_position_from(cols, name, i) is Some,
    decreases j - i,
{
    if i < j && cols[i].name != name {
        lemma_col_position_from_exists(cols, name, i + 1, j);
    }
}

/// A fruitless column search means no column bears the name.
proof fn lemma_col_position_none(
    cols: Seq<crate::table::model::ColModel>,
    name: Seq<char>,
    i: int,
    j: int,
)
    requires
        crate::table::model::col_position_from(cols, name, i) is None,
        0 <= i <= j < cols.len(),
    ensures
        cols[j].name != name,
    decreases j - i,
{
    if i < j {
        lemma_col_position_none(cols, name, i + 1, j);
    }
}

} // verus!

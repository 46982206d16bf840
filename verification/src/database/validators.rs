//! The catalog: a collection of named tables, creation and dropping,
//! delegated column operations, and cross-table foreign-key validation.

use vstd::prelude::*;
use crate::errors::DbError;
use crate::table::data::{Table, Column};
use crate::table::model::{col_position, OptModel};
use crate::table::validators::{
    column_valid, has_not_null, first_default, distinct_names, str_eq_string, msg3,
};

verus! {

/// The position of the first table with the given name, searching from
/// `i`.
pub open spec fn table_position_from(tables: Seq<Table>, name: Seq<char>, i: int) -> Option<int>
    decreases tables.len() - i,
{
    if i < 0 || i >= tables.len() {
        None
    } else if tables[i].name@ == name {
        Some(i)
    } else {
        table_position_from(tables, name, i + 1)
    }
}

/// The position of the first table with the given name.
pub open spec fn table_position(tables: Seq<Table>, name: Seq<char>) -> Option<int> {
    table_position_from(tables, name, 0)
}

/// Whether some column of the table carries a foreign key whose target
/// table the catalog lacks.
pub open spec fn fk_dangling(tables: Seq<Table>, t: Table) -> bool {
    exists|c: int, o: int|
        #![trigger t.cols_model()[c].options[o]]
        0 <= c < t.cols_model().len() && 0 <= o < t.cols_model()[c].options.len()
            && (t.cols_model()[c].options[o] matches OptModel::FK(target) && table_position(
            tables,
            target,
        ) is None)
}

/// A mapping of table name to table.
#[derive(Debug)]
pub struct Database {
    pub tables: Vec<Table>,
}

impl Database {
    /// Pairwise distinct table names, every table internally coherent.
    pub open spec fn wf(&self) -> bool {
        &&& forall|i: int, j: int|
            #![trigger self.tables@[i], self.tables@[j]]
            0 <= i < j < self.tables@.len() ==> self.tables@[i].name@ != self.tables@[j].name@
        &&& forall|i: int| 0 <= i < self.tables@.len() ==> (#[trigger] self.tables@[i]).wf()
    }

    /// An empty catalog.
    pub fn new() -> (r: Database)
        ensures
            r.wf(),
            r.tables@.len() == 0,
    {
        Database { tables: Vec::new() }
    }

    /// The position of the table with the given name.
    #[verifier::loop_isolation(false)]
    pub fn find_table(&self, name: &str) -> (r: Option<usize>)
        ensures
            match r {
                Some(i) => table_position(self.tables@, name@) == Some(i as int) && i
                    < self.tables@.len(),
                None => table_position(self.tables@, name@) is None,
            },
    {
        let mut i: usize = 0;
        while i < self.tables.len()
            invariant
                i <= self.tables@.len(),
                table_position(self.tables@, name@) == table_position_from(
                    self.tables@,
                    name@,
                    i as int,
                ),
            decreases self.tables@.len() - i,
        {
            if str_eq_string(name, &self.tables[i].name) {
                return Some(i);
            }
            i = i + 1;
        }
        None
    }

    /// Registers a table; fails exactly when its name is taken.
    #[verifier::loop_isolation(false)]
    pub fn create_table(&mut self, table: Table) -> (r: Result<(), DbError>)
        requires
            old(self).wf(),
            table.wf(),
        ensures
            final(self).wf(),
            r is Ok <==> table_position(old(self).tables@, table.name@) is None,
            r is Err ==> *final(self) == *old(self) && r->Err_0 is SchemaError,
            r is Ok ==> final(self).tables@ == old(self).tables@.push(table),
    {
        if self.find_table(table.name.as_str()).is_some() {
            return Err(
                DbError::SchemaError(msg3("Table '", table.name.as_str(), "' already exists")),
            );
        }
        let ghost t = table;
        let ghost prev = self.tables@;
        self.tables.push(table);
        proof {
            assert forall|i: int, j: int|
                #![trigger self.tables@[i], self.tables@[j]]
                0 <= i < j < self.tables@.len() implies self.tables@[i].name@
                != self.tables@[j].name@ by {
                if j == prev.len() {
                    lemma_no_table_match(prev, t.name@, i);
                }
            }
        }
        Ok(())
    }

    /// Removes the named table; fails exactly when it does not exist.
    #[verifier::loop_isolation(false)]
    pub fn drop_table(&mut self, table_name: &str) -> (r: Result<(), DbError>)
        requires
            old(self).wf(),
        ensures
            final(self).wf(),
            r is Ok <==> table_position(old(self).tables@, table_name@) is Some,
            r is Err ==> *final(self) == *old(self) && r->Err_0 is TableNotFound,
            r is Ok ==> final(self).tables@ == old(self).tables@.remove(
                table_position(old(self).tables@, table_name@)->0,
            ),
    {
        match self.find_table(table_name) {
            Some(i) => {
                let unused = self.tables.remove(i);
                Ok(())
            },
            None => Err(
                DbError::TableNotFound(msg3("Table '", table_name, "' does not exist")),
            ),
        }
    }

    /// Delegates adding a column to the named table; fails with
    /// `TableNotFound` when it does not exist, else as the table-level
    /// operation does.
    #[verifier::loop_isolation(false)]
    pub fn alter_add_column(&mut self, table_name: &str, new_column: Column) -> (r: Result<
        (),
        DbError,
    >)
        requires
            old(self).wf(),
            forall|i: int|
                0 <= i < old(self).tables@.len() ==> (#[trigger] old(
                    self,
                ).tables@[i]).transaction_backup is None,
        ensures
            final(self).wf(),
            table_position(old(self).tables@, table_name@) is None ==> (r matches Err(e) && e
                is TableNotFound && *final(self) == *old(self)),
            table_position(old(self).tables@, table_name@) matches Some(i) ==> (r is Ok <==> (
            col_position(old(self).tables@[i].cols_model(), new_column@.name) is None
                && column_valid(new_column@) && (has_not_null(new_column@.options)
                ==> first_default(new_column@.options) is Some))),
            r is Err ==> (r->Err_0 is TableNotFound || r->Err_0 is SchemaError),
            final(self).tables@.len() == old(self).tables@.len(),
            forall|j: int|
                0 <= j < final(self).tables@.len() && Some(j) != table_position(
                    old(self).tables@,
                    table_name@,
                ) ==> (#[trigger] final(self).tables@[j]) == old(self).tables@[j],
    {
        let i = match self.find_table(table_name) {
            Some(i) => i,
            None => {
                return Err(
                    DbError::TableNotFound(msg3("Table '", table_name, "' does not exist")),
                );
            },
        };
        let ghost prev = self.tables@;
        let mut t = self.tables.remove(i);
        let res = t.alter_add_column(new_column);
        let ghost t2 = t;
        self.tables.insert(i, t);
        proof {
            assert(self.tables@ =~= prev.update(i as int, t2));
            assert(t2.name@ == prev[i as int].name@);
        }
        res
    }

    /// Delegates renaming a column in the named table.
    #[verifier::loop_isolation(false)]
    pub fn rename_column(&mut self, table_name: &str, old_name: &str, new_name: &str) -> (r:
        Result<(), DbError>)
        requires
            old(self).wf(),
            forall|i: int|
                0 <= i < old(self).tables@.len() ==> distinct_names(
                    (#[trigger] old(self).tables@[i]).cols_model(),
                ),
        ensures
            final(self).wf(),
            table_position(old(self).tables@, table_name@) is None ==> (r matches Err(e) && e
                is TableNotFound && *final(self) == *old(self)),
            table_position(old(self).tables@, table_name@) matches Some(i) ==> (r is Ok <==> (
            col_position(old(self).tables@[i].cols_model(), new_name@) is None && col_position(
                old(self).tables@[i].cols_model(),
                old_name@,
            ) is Some)),
            r is Err ==> (r->Err_0 is TableNotFound || r->Err_0 is SchemaError || r->Err_0
                is ColumnNotFound),
            final(self).tables@.len() == old(self).tables@.len(),
            forall|j: int|
                0 <= j < final(self).tables@.len() && Some(j) != table_position(
                    old(self).tables@,
                    table_name@,
                ) ==> (#[trigger] final(self).tables@[j]) == old(self).tables@[j],
    {
        let i = match self.find_table(table_name) {
            Some(i) => i,
            None => {
                return Err(
                    DbError::TableNotFound(msg3("Table '", table_name, "' does not exist")),
                );
            },
        };
        let ghost prev = self.tables@;
        let mut t = self.tables.remove(i);
        let res = t.rename_column(old_name, new_name);
        let ghost t2 = t;
        self.tables.insert(i, t);
        proof {
            assert(self.tables@ =~= prev.update(i as int, t2));
            assert(t2.name@ == prev[i as int].name@);
        }
        res
    }

    /// Delegates dropping a column from the named table.
    #[verifier::loop_isolation(false)]
    pub fn drop_column(&mut self, table_name: &str, col_name: &str) -> (r: Result<(), DbError>)
        requires
            old(self).wf(),
            forall|i: int|
                0 <= i < old(self).tables@.len() ==> (#[trigger] old(
                    self,
                ).tables@[i]).transaction_backup is None,
        ensures
            final(self).wf(),
            table_position(old(self).tables@, table_name@) is None ==> (r matches Err(e) && e
                is TableNotFound && *final(self) == *old(self)),
            table_position(old(self).tables@, table_name@) matches Some(i) ==> (r is Ok <==> (
            col_position(old(self).tables@[i].cols_model(), col_name@) is Some && !(match old(
                self,
            ).tables@[i].pk_model() {
                Some(pks) => pks.contains(col_name@),
                None => false,
            }))),
            r is Err ==> (r->Err_0 is TableNotFound || r->Err_0 is SchemaError || r->Err_0
                is ColumnNotFound),
            final(self).tables@.len() == old(self).tables@.len(),
            forall|j: int|
                0 <= j < final(self).tables@.len() && Some(j) != table_position(
                    old(self).tables@,
                    table_name@,
                ) ==> (#[trigger] final(self).tables@[j]) == old(self).tables@[j],
    {
        let i = match self.find_table(table_name) {
            Some(i) => i,
            None => {
                return Err(
                    DbError::TableNotFound(msg3("Table '", table_name, "' does not exist")),
                );
            },
        };
        let ghost prev = self.tables@;
        let mut t = self.tables.remove(i);
        let res = t.drop_column(col_name);
        let ghost t2 = t;
        self.tables.insert(i, t);
        proof {
            assert(self.tables@ =~= prev.update(i as int, t2));
            assert(t2.name@ == prev[i as int].name@);
        }
        res
    }

    /// Scans every column's options for foreign keys and fails on the
    /// first reference to a table name the catalog lacks; only table
    /// existence is checked, not row-level integrity.
    #[verifier::loop_isolation(false)]
    pub fn validate_foreign_keys(&self) -> (r: Result<(), DbError>)
        ensures
            r is Ok <==> !(exists|t: int|
                0 <= t < self.tables@.len() && fk_dangling(
                    self.tables@,
                    #[trigger] self.tables@[t],
                )),
            r is Err ==> r->Err_0 is ForeignKeyError,
    {
        let mut t: usize = 0;
        while t < self.tables.len()
            invariant
                t <= self.tables@.len(),
                forall|t2: int|
                    0 <= t2 < t ==> !fk_dangling(self.tables@, #[trigger] self.tables@[t2]),
            decreases self.tables@.len() - t,
        {
            let mut c: usize = 0;
            while c < self.tables[t].columns.len()
                invariant
                    t < self.tables@.len(),
                    c <= self.tables@[t as int].columns@.len(),
                    forall|c2: int, o2: int|
                        #![trigger self.tables@[t as int].cols_model()[c2].options[o2]]
                        0 <= c2 < c && 0 <= o2 < self.tables@[t as int].cols_model()[
                            c2
                        ].options.len() ==> !(self.tables@[t as int].cols_model()[c2].options[o2]
                            matches OptModel::FK(target) && table_position(
                            self.tables@,
                            target,
                        ) is None),
                decreases self.tables@[t as int].columns@.len() - c,
            {
                let mut o: usize = 0;
                while o < self.tables[t].columns[c].options.len()
                    invariant
                        t < self.tables@.len(),
                        c < self.tables@[t as int].columns@.len(),
                        o <= self.tables@[t as int].columns@[c as int].options@.len(),
                        forall|o2: int|
                            0 <= o2 < o ==> !(#[trigger] self.tables@[t as int].cols_model()[
                                c as int
                            ].options[o2] matches OptModel::FK(target) && table_position(
                                self.tables@,
                                target,
                            ) is None),
                    decreases self.tables@[t as int].columns@[c as int].options@.len() - o,
                {
                    if let crate::table::data::Options::FK(target) = &self.tables[t].columns[c].options[o] {
                        if self.find_table(target.as_str()).is_none() {
                            proof {
                                assert(self.tables@[t as int].cols_model()[c as int].options[
                                    o as int
                                ] matches OptModel::FK(tg) && table_position(
                                    self.tables@,
                                    tg,
                                ) is None);
                                assert(fk_dangling(self.tables@, self.tables@[t as int]));
                            }
                            let mut m = msg3(
                                "Table '",
                                self.tables[t].name.as_str(),
                                "' has a foreign key to missing table '",
                            );
                            m.append(target.as_str());
                            m.append("'.");
                            return Err(DbError::ForeignKeyError(m));
                        }
                    }
                    o = o + 1;
                }
                c = c + 1;
            }
            t = t + 1;
        }
        Ok(())
    }
}

/// A fruitless table search means no name matches.
proof fn lemma_no_table_match(tables: Seq<Table>, name: Seq<char>, i: int)
    requires
        table_position(tables, name) is None,
        0 <= i < tables.len(),
    ensures
        tables[i].name@ != name,
{
    lemma_no_table_match_from(tables, name, 0, i);
}

proof fn lemma_no_table_match_from(tables: Seq<Table>, name: Seq<char>, j: int, i: int)
    requires
        table_position_from(tables, name, j) is None,
        0 <= j <= i < tables.len(),
    ensures
        tables[i].name@ != name,
    decreases i - j,
{
    if j < i {
        lemma_no_table_match_from(tables, name, j + 1, i);
    }
}

} // verus!

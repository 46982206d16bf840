//! Single-level snapshot transactions: begin copies the full row list,
//! rollback restores it (and rebuilds every index against it), commit
//! discards it. Mutating operations never touch an open snapshot, so what
//! rollback restores is exactly the row list as it stood at begin.

use vstd::prelude::*;
use crate::errors::DbError;
use crate::table::data::{Table, clone_rows};

verus! {

impl Table {
    /// Opens a transaction by snapshotting the rows; fails when one is
    /// already open.
    pub fn begin_transaction(&mut self) -> (r: Result<(), DbError>)
        requires
            old(self).wf(),
        ensures
            final(self).wf(),
            r is Ok <==> old(self).transaction_backup is None,
            r is Err ==> *final(self) == *old(self) && r->Err_0 is TransactionStateError,
            final(self).rows == old(self).rows,
            final(self).columns == old(self).columns,
            final(self).name == old(self).name,
            final(self).primary_key == old(self).primary_key,
            final(self).indexes == old(self).indexes,
            r is Ok ==> (final(self).transaction_backup matches Some(b) && b.deep_view() == old(
                self,
            ).rows_model()),
    {
        if self.transaction_backup.is_some() {
            return Err(
                DbError::TransactionStateError("Transaction already in progress".to_owned()),
            );
        }
        self.transaction_backup = Some(clone_rows(&self.rows));
        Ok(())
    }

    /// Restores the rows from the snapshot, rebuilds every index against
    /// them, and closes the transaction; fails when none is open.
    pub fn rollback_transaction(&mut self) -> (r: Result<(), DbError>)
        requires
            old(self).wf(),
        ensures
            final(self).wf(),
            r is Ok <==> old(self).transaction_backup is Some,
            r is Err ==> *final(self) == *old(self) && r->Err_0 is TransactionStateError,
            final(self).columns == old(self).columns,
            final(self).name == old(self).name,
            final(self).primary_key == old(self).primary_key,
            r is Ok ==> final(self).rows_model() == old(
                self,
            ).transaction_backup->Some_0.deep_view(),
            final(self).transaction_backup is None <==> r is Ok || old(
                self,
            ).transaction_backup is None,
    {
        let restored = match &self.transaction_backup {
            Some(rows) => clone_rows(rows),
            None => {
                return Err(
                    DbError::TransactionStateError("No transaction to rollback".to_owned()),
                );
            },
        };
        proof {
            assert forall|x: int| 0 <= x < restored.deep_view().len() implies (
            #[trigger] restored.deep_view()[x]).len() == self.cols_model().len() by {
                let b = old(self).transaction_backup->Some_0;
                assert(restored.deep_view()[x] == b.deep_view()[x]);
            }
        }
        self.transaction_backup = None;
        self.rows = restored;
        self.rebuild_all_indexes();
        Ok(())
    }

    /// Discards the snapshot without touching the rows; fails when no
    /// transaction is open.
    pub fn commit_transaction(&mut self) -> (r: Result<(), DbError>)
        requires
            old(self).wf(),
        ensures
            final(self).wf(),
            r is Ok <==> old(self).transaction_backup is Some,
            r is Err ==> *final(self) == *old(self) && r->Err_0 is TransactionStateError,
            final(self).rows == old(self).rows,
            final(self).columns == old(self).columns,
            final(self).name == old(self).name,
            final(self).primary_key == old(self).primary_key,
            final(self).indexes == old(self).indexes,
            r is Ok ==> final(self).transaction_backup is None,
    {
        if self.transaction_backup.is_some() {
            self.transaction_backup = None;
            Ok(())
        } else {
            Err(DbError::TransactionStateError("No transaction to commit".to_owned()))
        }
    }
}

} // verus!

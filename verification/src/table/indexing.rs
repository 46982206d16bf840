//! Secondary indexes: association lists from a column's value to the
//! ascending positions of the rows holding it, kept exactly in step with
//! the row list.

use vstd::prelude::*;
use crate::errors::DbError;
use crate::table::data::{Table, Value, IndexEntry, IndexType, ColumnIndex};
use crate::table::model::{ValModel, val_eq, col_position};
use crate::table::validators::{msg3, str_eq_string};

verus! {

/// The entries of an index, whichever kind it is.
pub open spec fn entries_of(it: IndexType) -> Seq<IndexEntry> {
    match it {
        IndexType::Hash(v) => v@,
        IndexType::BTree(v) => v@,
    }
}

/// The position of the first entry whose key matches `k`, searching from
/// `i`.
pub open spec fn find_key_from(entries: Seq<IndexEntry>, k: ValModel, i: int) -> Option<int>
    decreases entries.len() - i,
{
    if i < 0 || i >= entries.len() {
        None
    } else if val_eq(entries[i].key@, k) {
        Some(i)
    } else {
        find_key_from(entries, k, i + 1)
    }
}

/// The position of the first entry whose key matches `k`.
pub open spec fn find_key(entries: Seq<IndexEntry>, k: ValModel) -> Option<int> {
    find_key_from(entries, k, 0)
}

/// The row positions the index lists under key `k`.
pub open spec fn positions_of(entries: Seq<IndexEntry>, k: ValModel) -> Seq<usize> {
    match find_key(entries, k) {
        Some(j) => entries[j].positions@,
        None => Seq::empty(),
    }
}

/// Whether the position list mentions row position `r`.
pub open spec fn lists_position(ps: Seq<usize>, r: int) -> bool {
    exists|p: int| 0 <= p < ps.len() && ps[p] == r
}

/// No two entries share a key.
pub open spec fn entries_distinct(entries: Seq<IndexEntry>) -> bool {
    forall|j1: int, j2: int|
        #![trigger entries[j1], entries[j2]]
        0 <= j1 < j2 < entries.len() ==> !val_eq(entries[j1].key@, entries[j2].key@)
}

/// Every entry's positions are strictly ascending.
pub open spec fn entries_ascending(entries: Seq<IndexEntry>) -> bool {
    forall|j: int, p: int|
        #![trigger entries[j].positions@[p]]
        0 <= j < entries.len() && 0 < p < entries[j].positions@.len() ==> entries[j].positions@[p
            - 1] < entries[j].positions@[p]
}

/// Every listed position is below `bound`.
pub open spec fn entries_below(entries: Seq<IndexEntry>, bound: int) -> bool {
    forall|j: int, p: int|
        #![trigger entries[j].positions@[p]]
        0 <= j < entries.len() && 0 <= p < entries[j].positions@.len() ==> (entries[j].positions@[p]
            as int) < bound
}

/// Every listed position holds the entry's key at column `ci`.
pub open spec fn entries_sound(
    entries: Seq<IndexEntry>,
    rows: Seq<Seq<ValModel>>,
    ci: int,
    n: int,
) -> bool {
    forall|j: int, p: int|
        #![trigger entries[j].positions@[p]]
        0 <= j < entries.len() && 0 <= p < entries[j].positions@.len() ==> (entries[j].positions@[p]
            as int) < n && val_eq(rows[entries[j].positions@[p] as int][ci], entries[j].key@)
}

/// Every row below `n` is listed under its own key.
pub open spec fn entries_complete(
    entries: Seq<IndexEntry>,
    rows: Seq<Seq<ValModel>>,
    ci: int,
    n: int,
) -> bool {
    forall|r: int|
        0 <= r < n ==> lists_position(positions_of(entries, (#[trigger] rows[r])[ci]), r)
}

/// The index is exactly the row set below `n`, grouped by key: distinct
/// keys, ascending in-range positions that hold the key, and every row
/// listed.
pub open spec fn entries_exact(
    entries: Seq<IndexEntry>,
    rows: Seq<Seq<ValModel>>,
    ci: int,
    n: int,
) -> bool {
    &&& entries_distinct(entries)
    &&& entries_ascending(entries)
    &&& entries_sound(entries, rows, ci, n)
    &&& entries_complete(entries, rows, ci, n)
}

impl Table {
    /// Every index names an existing column, no column carries two, and
    /// each is exact for the first `n` rows.
    pub open spec fn indexes_wf_upto(&self, n: int) -> bool {
        &&& forall|x1: int, x2: int|
            #![trigger self.indexes@[x1], self.indexes@[x2]]
            0 <= x1 < x2 < self.indexes@.len() ==> self.indexes@[x1].column@
                != self.indexes@[x2].column@
        &&& forall|x: int|
            0 <= x < self.indexes@.len() ==> {
                let cp = col_position(self.cols_model(), (#[trigger] self.indexes@[x]).column@);
                cp is Some && entries_exact(
                    entries_of(self.indexes@[x].index),
                    self.rows_model(),
                    cp->0,
                    n,
                )
            }
    }

    /// Every index reflects the full row list.
    pub open spec fn indexes_wf(&self) -> bool {
        self.indexes_wf_upto(self.rows_model().len() as int)
    }

    /// An open snapshot, if any, holds rows aligned with the columns.
    pub open spec fn backup_aligned(&self) -> bool {
        match self.transaction_backup {
            Some(ref b) => forall|r: int|
                0 <= r < b.deep_view().len() ==> (#[trigger] b.deep_view()[r]).len()
                    == self.cols_model().len(),
            None => true,
        }
    }

    /// The table invariant: rows (and any snapshot) aligned with the
    /// columns, indexes exact.
    pub open spec fn wf(&self) -> bool {
        &&& self.rows_aligned()
        &&& self.backup_aligned()
        &&& self.indexes_wf()
    }
}

/// After any operation that leaves a table well-formed (an insert above
/// all), every row has one value per column and every index's position
/// set lies inside `0..rows.len()`.
pub proof fn lemma_wf_bounds(t: Table)
    requires
        t.wf(),
    ensures
        forall|r: int|
            0 <= r < t.rows_model().len() ==> (#[trigger] t.rows_model()[r]).len()
                == t.cols_model().len(),
        forall|x: int, j: int, p: int|
            #![trigger entries_of(t.indexes@[x].index)[j].positions@[p]]
            0 <= x < t.indexes@.len() && 0 <= j < entries_of(t.indexes@[x].index).len() && 0 <= p
                < entries_of(t.indexes@[x].index)[j].positions@.len() ==> (entries_of(
                t.indexes@[x].index,
            )[j].positions@[p] as int) < t.rows_model().len(),
{
    assert forall|x: int, j: int, p: int|
        #![trigger entries_of(t.indexes@[x].index)[j].positions@[p]]
        0 <= x < t.indexes@.len() && 0 <= j < entries_of(t.indexes@[x].index).len() && 0 <= p
            < entries_of(t.indexes@[x].index)[j].positions@.len() implies (entries_of(
        t.indexes@[x].index,
    )[j].positions@[p] as int) < t.rows_model().len() by {
        let cp = col_position(t.cols_model(), t.indexes@[x].column@);
        assert(entries_exact(
            entries_of(t.indexes@[x].index),
            t.rows_model(),
            cp->0,
            t.rows_model().len() as int,
        ));
    }
}

/// In a well-formed table every index reflects the rows exactly: each row
/// position is listed under that row's value in the index's column, and
/// everything listed holds the key it is listed under. This is what
/// restoring a snapshot re-establishes by rebuilding.
pub proof fn lemma_wf_indexes_reflect_rows(t: Table, x: int, r: int)
    requires
        t.wf(),
        0 <= x < t.indexes@.len(),
        0 <= r < t.rows_model().len(),
    ensures
        ({
            let ci = col_position(t.cols_model(), t.indexes@[x].column@)->0;
            lists_position(
                positions_of(entries_of(t.indexes@[x].index), t.rows_model()[r][ci]),
                r,
            )
        }),
{
    let cp = col_position(t.cols_model(), t.indexes@[x].column@);
    assert(entries_exact(
        entries_of(t.indexes@[x].index),
        t.rows_model(),
        cp->0,
        t.rows_model().len() as int,
    ));
}

/// Matching keys see the same entry.
pub proof fn lemma_find_key_congruent(entries: Seq<IndexEntry>, k1: ValModel, k2: ValModel, i: int)
    requires
        val_eq(k1, k2),
    ensures
        find_key_from(entries, k1, i) == find_key_from(entries, k2, i),
    decreases entries.len() - i,
{
    if 0 <= i < entries.len() {
        lemma_find_key_congruent(entries, k1, k2, i + 1);
    }
}

/// Appending an entry leaves earlier lookups alone and serves exactly the
/// new key otherwise.
pub proof fn lemma_find_key_push(entries: Seq<IndexEntry>, e: IndexEntry, k: ValModel, i: int)
    requires
        0 <= i,
    ensures
        find_key_from(entries.push(e), k, i) == match find_key_from(entries, k, i) {
            Some(j) => Some(j),
            None => if i <= entries.len() && val_eq(e.key@, k) {
                Some(entries.len() as int)
            } else {
                None
            },
        },
    decreases entries.len() + 1 - i,
{
    let whole = entries.push(e);
    if i < whole.len() {
        assert(whole[i] == if i < entries.len() {
            entries[i]
        } else {
            e
        });
        lemma_find_key_push(entries, e, k, i + 1);
    }
}

/// Replacing one entry's positions (key kept) leaves every lookup position
/// alone.
pub proof fn lemma_find_key_update(
    entries: Seq<IndexEntry>,
    j: int,
    e: IndexEntry,
    k: ValModel,
    i: int,
)
    requires
        0 <= j < entries.len(),
        e.key@ == entries[j].key@,
    ensures
        find_key_from(entries.update(j, e), k, i) == find_key_from(entries, k, i),
    decreases entries.len() - i,
{
    if 0 <= i < entries.len() {
        lemma_find_key_update(entries, j, e, k, i + 1);
    }
}

/// In a distinct-key list, every entry is found under its own key.
pub proof fn lemma_find_key_self(entries: Seq<IndexEntry>, j: int)
    requires
        entries_distinct(entries),
        0 <= j < entries.len(),
    ensures
        find_key(entries, entries[j].key@) == Some(j),
{
    lemma_find_key_self_from(entries, j, 0);
}

proof fn lemma_find_key_self_from(entries: Seq<IndexEntry>, j: int, i: int)
    requires
        entries_distinct(entries),
        0 <= i <= j < entries.len(),
        forall|j2: int| i <= j2 < j ==> !val_eq((#[trigger] entries[j2]).key@, entries[j].key@),
    ensures
        find_key_from(entries, entries[j].key@, i) == Some(j),
    decreases j - i,
{
    if i < j {
        lemma_find_key_self_from(entries, j, i + 1);
    }
}

/// Appending row position `pos` under `key`: the entry matching `key` (or a
/// fresh one) gains `pos`; every other lookup is untouched.
#[verifier::loop_isolation(false)]
fn entry_list_add(entries: &mut Vec<IndexEntry>, key: &Value, pos: usize)
    requires
        entries_distinct(old(entries)@),
        entries_ascending(old(entries)@),
        entries_below(old(entries)@, pos as int),
    ensures
        entries_distinct(final(entries)@),
        entries_ascending(final(entries)@),
        entries_below(final(entries)@, pos as int + 1),
        final(entries)@.len() <= old(entries)@.len() + 1,
        forall|k: ValModel|
            #![trigger positions_of(final(entries)@, k)]
            positions_of(final(entries)@, k) == if val_eq(k, key@) {
                positions_of(old(entries)@, k).push(pos)
            } else {
                positions_of(old(entries)@, k)
            },
        forall|j: int|
            0 <= j < final(entries)@.len() ==> (#[trigger] final(entries)@[j]).key@ == key@ || (j
                < old(entries)@.len() && final(entries)@[j].key@ == old(entries)@[j].key@),
{
    let ghost orig = entries@;
    let mut j: usize = 0;
    while j < entries.len()
        invariant
            entries@ == orig,
            j <= orig.len(),
            find_key(orig, key@) == find_key_from(orig, key@, j as int),
        decreases orig.len() - j,
    {
        if entries[j].key.eq_val(key) {
            let mut e = entries.remove(j);
            e.positions.push(pos);
            let ghost updated = e;
            entries.insert(j, e);
            proof {
                assert(entries@ =~= orig.update(j as int, updated));
                assert(find_key(orig, key@) == Some(j as int));
                assert forall|k: ValModel| #[trigger]
                    positions_of(entries@, k) == (if val_eq(k, key@) {
                        positions_of(orig, k).push(pos)
                    } else {
                        positions_of(orig, k)
                    }) by {
                    lemma_find_key_update(orig, j as int, updated, k, 0);
                    lemma_find_key_some_matches(orig, k, 0);
                    if val_eq(k, key@) {
                        lemma_find_key_congruent(orig, k, key@, 0);
                        assert(find_key(orig, k) == Some(j as int));
                        assert(find_key(entries@, k) == Some(j as int));
                        assert(positions_of(entries@, k) == updated.positions@);
                        assert(updated.positions@ =~= orig[j as int].positions@.push(pos));
                    } else {
                        match find_key(orig, k) {
                            Some(j2) => {
                                assert(val_eq(orig[j2].key@, k));
                                assert(j2 != j as int);
                                assert(entries@[j2] == orig[j2]);
                            },
                            None => {},
                        }
                    }
                }
                assert forall|j1: int, j2: int|
                    0 <= j1 < j2 < entries@.len() implies !val_eq(
                    (#[trigger] entries@[j1]).key@,
                    (#[trigger] entries@[j2]).key@,
                ) by {
                    assert(entries@[j1].key@ == orig[j1].key@);
                    assert(entries@[j2].key@ == orig[j2].key@);
                }
            }
            return ;
        }
        j = j + 1;
    }
    let mut fresh_positions: Vec<usize> = Vec::new();
    fresh_positions.push(pos);
    let fresh = IndexEntry { key: key.clone(), positions: fresh_positions };
    let ghost fe = fresh;
    entries.push(fresh);
    proof {
        assert(find_key(orig, key@) is None);
        assert(fe.key@ == key@);
        assert(entries@ =~= orig.push(fe));
        assert forall|k: ValModel| #[trigger]
            positions_of(entries@, k) == (if val_eq(k, key@) {
                positions_of(orig, k).push(pos)
            } else {
                positions_of(orig, k)
            }) by {
            lemma_find_key_push(orig, fe, k, 0);
            lemma_find_key_some_matches(orig, k, 0);
            if val_eq(k, key@) {
                lemma_find_key_congruent(orig, k, key@, 0);
                assert(find_key(orig, k) is None);
                assert(find_key(entries@, k) == Some(orig.len() as int));
                assert(entries@[orig.len() as int] == fe);
                assert(positions_of(orig, k) =~= Seq::<usize>::empty());
                assert(fe.positions@ =~= Seq::<usize>::empty().push(pos));
            } else {
                match find_key(orig, k) {
                    Some(j2) => {
                        assert(entries@[j2] == orig[j2]);
                    },
                    None => {
                        assert(!val_eq(fe.key@, k));
                        assert(find_key(entries@, k) is None);
                    },
                }
            }
        }
        assert forall|j1: int, j2: int|
            0 <= j1 < j2 < entries@.len() implies !val_eq(
            (#[trigger] entries@[j1]).key@,
            (#[trigger] entries@[j2]).key@,
        ) by {
            if j2 == orig.len() {
                lemma_find_key_no_match(orig, key@, j1);
            }
        }
    }
}

/// A fruitless search means no entry's key matches.
proof fn lemma_find_key_no_match(entries: Seq<IndexEntry>, k: ValModel, j: int)
    requires
        find_key(entries, k) is None,
        0 <= j < entries.len(),
    ensures
        !val_eq(entries[j].key@, k),
{
    lemma_find_key_no_match_from(entries, k, 0, j);
}

proof fn lemma_find_key_no_match_from(entries: Seq<IndexEntry>, k: ValModel, i: int, j: int)
    requires
        find_key_from(entries, k, i) is None,
        0 <= i <= j < entries.len(),
    ensures
        !val_eq(entries[j].key@, k),
    decreases j - i,
{
    if i < j {
        lemma_find_key_no_match_from(entries, k, i + 1, j);
    }
}

/// One maintenance step: after row `n` (holding `rows[n][ci]`) is appended
/// under its key, an index exact below `n` is exact below `n + 1`.
pub proof fn lemma_exact_step(
    before: Seq<IndexEntry>,
    after: Seq<IndexEntry>,
    rows: Seq<Seq<ValModel>>,
    ci: int,
    n: int,
)
    requires
        0 <= n < rows.len(),
        n < usize::MAX as int,
        0 <= ci < rows[n].len(),
        entries_exact(before, rows, ci, n),
        entries_distinct(after),
        entries_ascending(after),
        entries_below(after, n + 1),
        forall|k: ValModel|
            #![trigger positions_of(after, k)]
            positions_of(after, k) == if val_eq(k, rows[n][ci]) {
                positions_of(before, k).push(n as usize)
            } else {
                positions_of(before, k)
            },
        forall|j: int|
            0 <= j < after.len() ==> (#[trigger] after[j]).key@ == rows[n][ci] || (j < before.len()
                && after[j].key@ == before[j].key@),
    ensures
        entries_exact(after, rows, ci, n + 1),
{
    let key = rows[n][ci];
    assert forall|j: int, p: int|
        #![trigger after[j].positions@[p]]
        0 <= j < after.len() && 0 <= p < after[j].positions@.len() implies (after[j].positions@[p]
        as int) < n + 1 && val_eq(rows[after[j].positions@[p] as int][ci], after[j].key@) by {
        lemma_find_key_self(after, j);
        assert(positions_of(after, after[j].key@) == after[j].positions@);
        if val_eq(after[j].key@, key) {
            lemma_find_key_congruent(after, after[j].key@, key, 0);
            assert(positions_of(after, key) == after[j].positions@);
            assert(after[j].positions@ == positions_of(before, key).push(n as usize));
            if p < after[j].positions@.len() - 1 {
                assert(after[j].positions@[p] == positions_of(before, key)[p]);
                lemma_positions_sound(before, rows, ci, n, key, p);
            } else {
                assert(after[j].positions@[p] == n as usize);
            }
        } else {
            assert(positions_of(after, after[j].key@) == positions_of(before, after[j].key@));
            lemma_positions_sound(before, rows, ci, n, after[j].key@, p);
            assert(val_eq(rows[after[j].positions@[p] as int][ci], after[j].key@));
        }
    }
    assert(entries_sound(after, rows, ci, n + 1));
    assert forall|r: int| 0 <= r < n + 1 implies lists_position(
        positions_of(after, (#[trigger] rows[r])[ci]),
        r,
    ) by {
        if r < n {
            let ps = positions_of(before, rows[r][ci]);
            assert(lists_position(ps, r));
            let p = choose|p: int| 0 <= p < ps.len() && ps[p] == r;
            if val_eq(rows[r][ci], key) {
                assert(positions_of(after, rows[r][ci]) == ps.push(n as usize));
                assert(positions_of(after, rows[r][ci])[p] == r);
            } else {
                assert(positions_of(after, rows[r][ci]) == ps);
            }
        } else {
            assert(val_eq(rows[n][ci], key));
            let ps = positions_of(before, key);
            assert(positions_of(after, rows[n][ci]) == ps.push(n as usize));
            assert(positions_of(after, rows[n][ci])[ps.len() as int] == n as usize);
        }
    }
    assert(entries_complete(after, rows, ci, n + 1));
}

/// What an exact index lists under any key is a sound position.
proof fn lemma_positions_sound(
    entries: Seq<IndexEntry>,
    rows: Seq<Seq<ValModel>>,
    ci: int,
    n: int,
    k: ValModel,
    p: int,
)
    requires
        entries_exact(entries, rows, ci, n),
        0 <= p < positions_of(entries, k).len(),
    ensures
        (positions_of(entries, k)[p] as int) < n,
        val_eq(rows[positions_of(entries, k)[p] as int][ci], k),
    decreases entries.len(),
{
    match find_key(entries, k) {
        Some(j) => {
            lemma_find_key_some_matches(entries, k, 0);
            assert(val_eq(entries[j].key@, k));
            assert(entries[j].positions@ == positions_of(entries, k));
        },
        None => {},
    }
}

/// A successful search really matches.
proof fn lemma_find_key_some_matches(entries: Seq<IndexEntry>, k: ValModel, i: int)
    requires
        0 <= i,
    ensures
        find_key_from(entries, k, i) matches Some(j) ==> i <= j < entries.len() && val_eq(
            entries[j].key@,
            k,
        ),
    decreases entries.len() - i,
{
    if i < entries.len() {
        lemma_find_key_some_matches(entries, k, i + 1);
    }
}

/// Appending a row beyond the covered prefix leaves exactness alone.
pub proof fn lemma_exact_rows_push(
    entries: Seq<IndexEntry>,
    rows: Seq<Seq<ValModel>>,
    x: Seq<ValModel>,
    ci: int,
    n: int,
)
    requires
        entries_exact(entries, rows, ci, n),
        n <= rows.len(),
    ensures
        entries_exact(entries, rows.push(x), ci, n),
{
    let grown = rows.push(x);
    assert forall|r: int| 0 <= r < n implies lists_position(
        positions_of(entries, (#[trigger] grown[r])[ci]),
        r,
    ) by {
        assert(grown[r] == rows[r]);
    }
}

/// The exact entry list for column `ci` over the whole row list.
#[verifier::loop_isolation(false)]
fn build_entries(rows: &Vec<Vec<Value>>, ci: usize) -> (r: Vec<IndexEntry>)
    requires
        forall|k: int| 0 <= k < rows@.len() ==> (ci as int) < (#[trigger] rows@[k])@.len(),
    ensures
        entries_exact(r@, rows.deep_view(), ci as int, rows.deep_view().len() as int),
        r@.len() <= rows@.len(),
{
    let ghost rd = rows.deep_view();
    let mut entries: Vec<IndexEntry> = Vec::new();
    let mut i: usize = 0;
    while i < rows.len()
        invariant
            i <= rows@.len(),
            entries@.len() <= i,
            entries_exact(entries@, rd, ci as int, i as int),
        decreases rows@.len() - i,
    {
        let ghost before = entries@;
        proof {
            assert(entries_below(entries@, i as int));
        }
        let key = &rows[i][ci];
        entry_list_add(&mut entries, key, i);
        proof {
            assert(rd[i as int][ci as int] == rows@[i as int]@[ci as int]@);
            assert(rd[i as int].len() == rows@[i as int]@.len());
            lemma_exact_step(before, entries@, rd, ci as int, i as int);
        }
        i = i + 1;
    }
    entries
}

impl Table {
    /// Whether some index covers the named column.
    pub open spec fn has_index_on(&self, name: Seq<char>) -> bool {
        exists|x: int| 0 <= x < self.indexes@.len() && (#[trigger] self.indexes@[x]).column@ == name
    }

    /// Builds (or replaces) the index over the named column by scanning all
    /// current rows: an ordered index when `use_btree` is set, a hash index
    /// otherwise. Fails exactly when no column has that name.
    #[verifier::loop_isolation(false)]
    pub fn create_index(&mut self, column_name: &str, use_btree: bool) -> (r: Result<(), DbError>)
        requires
            old(self).wf(),
        ensures
            final(self).wf(),
            final(self).rows == old(self).rows,
            final(self).columns == old(self).columns,
            final(self).name == old(self).name,
            final(self).primary_key == old(self).primary_key,
            final(self).transaction_backup == old(self).transaction_backup,
            r is Ok <==> col_position(old(self).cols_model(), column_name@) is Some,
            r is Err ==> r->Err_0 is ColumnNotFound && *final(self) == *old(self),
            r is Ok ==> final(self).has_index_on(column_name@),
            forall|nm: Seq<char>| #[trigger]
                old(self).has_index_on(nm) ==> final(self).has_index_on(nm),
            r is Ok ==> final(self).indexes@.len() == old(self).indexes@.len()
                || final(self).indexes@.len() == old(self).indexes@.len() + 1,
            r is Ok ==> forall|y: int|
                0 <= y < final(self).indexes@.len()
                    ==> (((#[trigger] final(self).indexes@[y]).column@ == column_name@
                    && (final(self).indexes@[y].index is BTree <==> use_btree)
                    && entries_of(final(self).indexes@[y].index).len() <= old(self).rows@.len())
                    || (y < old(self).indexes@.len()
                    && final(self).indexes@[y] == old(self).indexes@[y])),
    {
        let ci = match self.find_column(column_name) {
            Some(ci) => ci,
            None => {
                return Err(
                    DbError::ColumnNotFound(msg3("Column '", column_name, "' does not exist")),
                );
            },
        };
        proof {
            assert forall|k: int| 0 <= k < self.rows@.len() implies (ci as int) < (
            #[trigger] self.rows@[k])@.len() by {
                assert(self.rows_model()[k].len() == self.rows@[k]@.len());
            }
        }
        let entries = build_entries(&self.rows, ci);
        let new_index = if use_btree {
            IndexType::BTree(entries)
        } else {
            IndexType::Hash(entries)
        };
        let ghost old_indexes = self.indexes@;
        let mut x: usize = 0;
        while x < self.indexes.len()
            invariant
                x <= self.indexes@.len(),
                self.indexes@ == old_indexes,
                self.rows == old(self).rows,
                self.columns == old(self).columns,
                self.name == old(self).name,
                self.primary_key == old(self).primary_key,
                self.transaction_backup == old(self).transaction_backup,
                forall|y: int| 0 <= y < x ==> (#[trigger] old_indexes[y]).column@ != column_name@,
            decreases self.indexes@.len() - x,
        {
            if str_eq_string(column_name, &self.indexes[x].column) {
                let old_entry = self.indexes.remove(x);
                self.indexes.insert(
                    x,
                    ColumnIndex { column: old_entry.column, index: new_index },
                );
                proof {
                    assert(self.indexes@ =~= old_indexes.update(
                        x as int,
                        self.indexes@[x as int],
                    ));
                    assert(self.indexes@[x as int].column@ == column_name@);
                    assert forall|nm: Seq<char>| #[trigger]
                        old(self).has_index_on(nm) implies self.has_index_on(nm) by {
                        let y = choose|y: int|
                            0 <= y < old(self).indexes@.len() && (#[trigger] old(
                                self,
                            ).indexes@[y]).column@ == nm;
                        assert(self.indexes@[y].column@ == nm);
                    }
                }
                return Ok(());
            }
            x = x + 1;
        }
        self.indexes.push(ColumnIndex { column: column_name.to_owned(), index: new_index });
        proof {
            assert(self.indexes@ =~= old_indexes.push(self.indexes@[old_indexes.len() as int]));
            assert forall|nm: Seq<char>| #[trigger]
                old(self).has_index_on(nm) implies self.has_index_on(nm) by {
                let y = choose|y: int|
                    0 <= y < old(self).indexes@.len() && (#[trigger] old(
                        self,
                    ).indexes@[y]).column@ == nm;
                assert(self.indexes@[y].column@ == nm);
            }
        }
        Ok(())
    }

    /// After the row at `row_idx` has been appended, lists its position in
    /// every index under that row's value in the index's column.
    #[verifier::loop_isolation(false)]
    #[verifier::rlimit(50)]
    pub fn update_indexes_for_row(&mut self, row_idx: usize)
        requires
            old(self).rows_aligned(),
            old(self).backup_aligned(),
            row_idx as int + 1 == old(self).rows@.len(),
            old(self).indexes_wf_upto(row_idx as int),
        ensures
            final(self).wf(),
            final(self).rows == old(self).rows,
            final(self).columns == old(self).columns,
            final(self).name == old(self).name,
            final(self).primary_key == old(self).primary_key,
            final(self).transaction_backup == old(self).transaction_backup,
            final(self).indexes@.len() == old(self).indexes@.len(),
            forall|x: int|
                0 <= x < final(self).indexes@.len() ==> (#[trigger] final(self).indexes@[x]).column@
                    == old(self).indexes@[x].column@,
    {
        let ghost rd = self.rows_model();
        let mut x: usize = 0;
        while x < self.indexes.len()
            invariant
                x <= self.indexes@.len(),
                self.rows == old(self).rows,
                self.columns == old(self).columns,
                self.name == old(self).name,
                self.primary_key == old(self).primary_key,
                self.transaction_backup == old(self).transaction_backup,
                self.indexes@.len() == old(self).indexes@.len(),
                forall|y: int|
                    0 <= y < self.indexes@.len() ==> (#[trigger] self.indexes@[y]).column@ == old(
                        self,
                    ).indexes@[y].column@,
                forall|y: int|
                    0 <= y < self.indexes@.len() ==> {
                        let cp = col_position(
                            self.cols_model(),
                            (#[trigger] self.indexes@[y]).column@,
                        );
                        cp is Some && entries_exact(
                            entries_of(self.indexes@[y].index),
                            rd,
                            cp->0,
                            if y < x {
                                row_idx as int + 1
                            } else {
                                row_idx as int
                            },
                        )
                    },
            decreases self.indexes@.len() - x,
        {
            let name = self.indexes[x].column.clone();
            let ci = match self.find_column(name.as_str()) {
                Some(ci) => ci,
                None => {
                    proof {
                        assert(false);
                    }
                    return ;
                },
            };
            proof {
                assert(rd[row_idx as int].len() == self.rows@[row_idx as int]@.len());
            }
            let key = self.rows[row_idx][ci].clone();
            let mut cidx = self.indexes.remove(x);
            let ghost before = entries_of(cidx.index);
            proof {
                assert(entries_below(before, row_idx as int));
            }
            match &mut cidx.index {
                IndexType::Hash(v) => entry_list_add(v, &key, row_idx),
                IndexType::BTree(v) => entry_list_add(v, &key, row_idx),
            }
            proof {
                assert(key@ == rd[row_idx as int][ci as int]);
                assert(self.rows@.len() <= usize::MAX as int) by {
                    let n = self.rows.len();
                    assert(n as int == self.rows@.len());
                }
                lemma_exact_step(
                    before,
                    entries_of(cidx.index),
                    rd,
                    ci as int,
                    row_idx as int,
                );
            }
            self.indexes.insert(x, cidx);
            x = x + 1;
        }
    }

    /// Rebuilds every index from the current rows, as hash indexes, keyed
    /// by the same columns; an index whose column no longer exists is
    /// dropped, and of duplicate coverings only the first is kept.
    #[verifier::loop_isolation(false)]
    pub fn rebuild_all_indexes(&mut self)
        requires
            old(self).rows_aligned(),
            old(self).backup_aligned(),
        ensures
            final(self).wf(),
            final(self).rows == old(self).rows,
            final(self).columns == old(self).columns,
            final(self).name == old(self).name,
            final(self).primary_key == old(self).primary_key,
            final(self).transaction_backup == old(self).transaction_backup,
            ((forall|x: int|
                0 <= x < old(self).indexes@.len() ==> col_position(
                    old(self).cols_model(),
                    (#[trigger] old(self).indexes@[x]).column@,
                ) is Some) && (forall|x1: int, x2: int|
                #![trigger old(self).indexes@[x1], old(self).indexes@[x2]]
                0 <= x1 < x2 < old(self).indexes@.len() ==> old(self).indexes@[x1].column@ != old(
                    self,
                ).indexes@[x2].column@)) ==> (final(self).indexes@.len() == old(
                self,
            ).indexes@.len() && (forall|x: int|
                0 <= x < final(self).indexes@.len() ==> (#[trigger] final(self).indexes@[x]).column@
                    == old(self).indexes@[x].column@)),
    {
        let ghost old_indexes = old(self).indexes@;
        let ghost premise = (forall|x: int|
            0 <= x < old_indexes.len() ==> col_position(
                self.cols_model(),
                (#[trigger] old_indexes[x]).column@,
            ) is Some) && (forall|x1: int, x2: int|
            #![trigger old_indexes[x1], old_indexes[x2]]
            0 <= x1 < x2 < old_indexes.len() ==> old_indexes[x1].column@
                != old_indexes[x2].column@);
        let mut rebuilt: Vec<ColumnIndex> = Vec::new();
        let mut x: usize = 0;
        while x < self.indexes.len()
            invariant
                x <= self.indexes@.len(),
                self == old(self),
                forall|y1: int, y2: int|
                    #![trigger rebuilt@[y1], rebuilt@[y2]]
                    0 <= y1 < y2 < rebuilt@.len() ==> rebuilt@[y1].column@ != rebuilt@[y2].column@,
                forall|y: int|
                    0 <= y < rebuilt@.len() ==> {
                        let cp = col_position(
                            self.cols_model(),
                            (#[trigger] rebuilt@[y]).column@,
                        );
                        cp is Some && entries_exact(
                            entries_of(rebuilt@[y].index),
                            self.rows_model(),
                            cp->0,
                            self.rows_model().len() as int,
                        )
                    },
                premise ==> (rebuilt@.len() == x && (forall|y: int|
                    0 <= y < x ==> (#[trigger] rebuilt@[y]).column@ == old_indexes[y].column@)),
            decreases self.indexes@.len() - x,
        {
            let name = self.indexes[x].column.clone();
            match self.find_column(name.as_str()) {
                Some(ci) => {
                    proof {
                        assert forall|k: int| 0 <= k < self.rows@.len() implies (ci as int) < (
                        #[trigger] self.rows@[k])@.len() by {
                            assert(self.rows_model()[k].len() == self.rows@[k]@.len());
                        }
                    }
                    let mut dup = false;
                    let mut y: usize = 0;
                    while y < rebuilt.len()
                        invariant
                            y <= rebuilt@.len(),
                            dup <==> exists|z: int|
                                0 <= z < y && (#[trigger] rebuilt@[z]).column@ == name@,
                        decreases rebuilt@.len() - y,
                    {
                        if str_eq_string(name.as_str(), &rebuilt[y].column) {
                            proof {
                                assert(rebuilt@[y as int].column@ == name@);
                            }
                            dup = true;
                        }
                        y = y + 1;
                    }
                    if !dup {
                        let entries = build_entries(&self.rows, ci);
                        rebuilt.push(ColumnIndex { column: name, index: IndexType::Hash(entries) });
                    }
                },
                None => {
                    proof {
                        if premise {
                            assert(col_position(
                                self.cols_model(),
                                old_indexes[x as int].column@,
                            ) is Some);
                            assert(false);
                        }
                    }
                },
            }
            x = x + 1;
        }
        self.indexes = rebuilt;
    }
}

} // verus!

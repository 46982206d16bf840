//! The query engine: filtered selection (index-assisted where an index
//! applies, always equal to the full scan), ordering, distinctness,
//! grouping and aggregation.

use vstd::prelude::*;
use crate::errors::DbError;
use crate::table::data::{
    Table, Value, FilterExpr, IndexType, IndexEntry, AggregationResult, clone_row,
};
use crate::table::model::{
    ValModel, val_eq, val_lt, lemma_val_lt_asym, lemma_val_lt_trans, lemma_val_lt_total,
    col_position,
};
use crate::table::filters::{expr_matches, expr_column};
use crate::table::indexing::{
    entries_of, positions_of, find_key, find_key_from, lists_position, entries_exact,
    lemma_find_key_congruent,
};
use crate::table::text::{row_key, row_key_string};
use crate::table::validators::{msg3, str_eq_string};

verus! {

/// The rows the filter keeps, in row order.
pub open spec fn matching_rows(rows: Seq<Seq<ValModel>>, e: FilterExpr, ci: int) -> Seq<
    Seq<ValModel>,
>
    decreases rows.len(),
{
    if rows.len() == 0 {
        Seq::empty()
    } else {
        let rest = matching_rows(rows.drop_last(), e, ci);
        if expr_matches(e, ci, rows.last()) {
            rest.push(rows.last())
        } else {
            rest
        }
    }
}

/// Whether some earlier row renders to the same distinctness key.
pub open spec fn key_seen_in(rows: Seq<Seq<ValModel>>, key: Seq<char>) -> bool {
    exists|r: int| 0 <= r < rows.len() && row_key(#[trigger] rows[r]) == key
}

/// The first-occurrence rows under the display-rendering distinctness key.
pub open spec fn distinct_rows(rows: Seq<Seq<ValModel>>) -> Seq<Seq<ValModel>>
    decreases rows.len(),
{
    if rows.len() == 0 {
        Seq::empty()
    } else {
        let rest = distinct_rows(rows.drop_last());
        if key_seen_in(rows.drop_last(), row_key(rows.last())) {
            rest
        } else {
            rest.push(rows.last())
        }
    }
}

/// The picked row is a copy of some table row the predicate accepted.
pub open spec fn row_accepted<F: Fn(&Vec<Value>) -> bool>(
    predicate: F,
    rows: Seq<Vec<Value>>,
    picked: Vec<Value>,
) -> bool {
    exists|x: int|
        0 <= x < rows.len() && picked.deep_view() == (#[trigger] rows[x]).deep_view()
            && call_ensures(predicate, (&rows[x],), true)
}

/// The row was either rejected by its predicate run or a copy of it was
/// returned.
pub open spec fn row_accounted<F: Fn(&Vec<Value>) -> bool>(
    predicate: F,
    row: Vec<Value>,
    out: Seq<Vec<Value>>,
) -> bool {
    call_ensures(predicate, (&row,), false) || (exists|i: int|
        0 <= i < out.len() && (#[trigger] out[i]).deep_view() == row.deep_view())
}

impl Table {
    /// A copy of every row, in order.
    pub fn select_all(&self) -> (r: Vec<Vec<Value>>)
        ensures
            r.deep_view() == self.rows_model(),
    {
        crate::table::data::clone_rows(&self.rows)
    }

    /// The rows a caller-supplied predicate keeps, in row order: the
    /// predicate runs once on each row, every accepted row's copy comes
    /// back, and every row not returned was rejected by that run.
    #[verifier::loop_isolation(false)]
    pub fn select_where<F: Fn(&Vec<Value>) -> bool>(&self, predicate: F) -> (r: Vec<Vec<Value>>)
        requires
            forall|row: &Vec<Value>| #[trigger] call_requires(predicate, (row,)),
        ensures
            forall|i: int|
                0 <= i < r@.len() ==> row_accepted(predicate, self.rows@, #[trigger] r@[i]),
            forall|x: int|
                0 <= x < self.rows@.len() ==> row_accounted(
                    predicate,
                    #[trigger] self.rows@[x],
                    r@,
                ),
    {
        let mut out: Vec<Vec<Value>> = Vec::new();
        let mut x: usize = 0;
        while x < self.rows.len()
            invariant
                x <= self.rows@.len(),
                forall|i: int|
                    0 <= i < out@.len() ==> row_accepted(predicate, self.rows@, #[trigger] out@[i]),
                forall|x2: int|
                    0 <= x2 < x ==> row_accounted(predicate, #[trigger] self.rows@[x2], out@),
            decreases self.rows@.len() - x,
        {
            let ghost prev = out@;
            let keep = predicate(&self.rows[x]);
            if keep {
                let row = clone_row(&self.rows[x]);
                proof {
                    assert(row.deep_view() == self.rows@[x as int].deep_view());
                }
                out.push(row);
            }
            proof {
                assert forall|i: int|
                    0 <= i < out@.len() implies row_accepted(
                    predicate,
                    self.rows@,
                    #[trigger] out@[i],
                ) by {
                    if i < prev.len() {
                        assert(out@[i] == prev[i]);
                        assert(row_accepted(predicate, self.rows@, prev[i]));
                    } else {
                        assert(out@[i].deep_view() == self.rows@[x as int].deep_view());
                        assert(call_ensures(predicate, (&self.rows@[x as int],), true));
                    }
                }
                assert forall|x2: int|
                    0 <= x2 < x + 1 implies row_accounted(
                    predicate,
                    #[trigger] self.rows@[x2],
                    out@,
                ) by {
                    if x2 < x {
                        assert(row_accounted(predicate, self.rows@[x2], prev));
                        if !call_ensures(predicate, (&self.rows@[x2],), false) {
                            let i = choose|i: int|
                                0 <= i < prev.len() && (#[trigger] prev[i]).deep_view()
                                    == self.rows@[x2].deep_view();
                            assert(out@[i].deep_view() == self.rows@[x2].deep_view());
                        }
                    } else {
                        if keep {
                            assert(out@[out@.len() - 1].deep_view() == self.rows@[
                                x2
                            ].deep_view());
                        }
                    }
                }
            }
            x = x + 1;
        }
        out
    }

    /// The rows the filter keeps, in row order. When a hash index covers
    /// the column of an equality test, or an ordered index the column of a
    /// range test, candidates come from the index and are re-checked;
    /// otherwise every row is scanned. Either way the result equals the
    /// full scan.
    #[verifier::loop_isolation(false)]
    pub fn select_where_expr(&self, expr: &FilterExpr) -> (r: Vec<Vec<Value>>)
        requires
            self.wf(),
            col_position(self.cols_model(), expr_column(*expr)) is Some,
        ensures
            r.deep_view() == matching_rows(
                self.rows_model(),
                *expr,
                col_position(self.cols_model(), expr_column(*expr))->0,
            ),
    {
        let ghost rd = self.rows_model();
        let ci = match self.find_column(expr.column().as_str()) {
            Some(ci) => ci,
            None => {
                proof {
                    assert(false);
                }
                return Vec::new();
            },
        };
        // candidate marks; a row can only match the filter if marked
        let mut flags: Vec<bool> = Vec::new();
        let mut indexed = false;
        let mut x: usize = 0;
        let mut index_pos: Option<usize> = None;
        while x < self.indexes.len()
            invariant
                x <= self.indexes@.len(),
                match index_pos {
                    Some(p) => p < self.indexes@.len() && self.indexes@[p as int].column@
                        == expr_column(*expr),
                    None => true,
                },
            decreases self.indexes@.len() - x,
        {
            if str_eq_string(expr.column().as_str(), &self.indexes[x].column) {
                index_pos = Some(x);
            }
            x = x + 1;
        }
        if let Some(xp) = index_pos {
            proof {
                let cp = col_position(self.cols_model(), self.indexes@[xp as int].column@);
                assert(cp == Some(ci as int));
            }
            match (&self.indexes[xp].index, expr) {
                (IndexType::Hash(entries), FilterExpr::Eq(_, v)) => {
                    flags = mark_positions_eq(entries, v, self.rows.len());
                    indexed = true;
                    proof {
                        lemma_eq_candidates(
                            entries@,
                            rd,
                            ci as int,
                            v@,
                            flags.deep_view(),
                            *expr,
                        );
                    }
                },
                (IndexType::BTree(entries), FilterExpr::Lt(_, v)) => {
                    flags = mark_positions_lt(entries, v, self.rows.len(), false);
                    indexed = true;
                    proof {
                        lemma_range_candidates(
                            entries@,
                            rd,
                            ci as int,
                            v@,
                            flags.deep_view(),
                            *expr,
                            false,
                        );
                    }
                },
                (IndexType::BTree(entries), FilterExpr::Gt(_, v)) => {
                    flags = mark_positions_lt(entries, v, self.rows.len(), true);
                    indexed = true;
                    proof {
                        lemma_range_candidates(
                            entries@,
                            rd,
                            ci as int,
                            v@,
                            flags.deep_view(),
                            *expr,
                            true,
                        );
                    }
                },
                _ => {},
            }
        }
        if !indexed {
            flags = vec![true; self.rows.len()];
        }
        proof {
            assert(flags.deep_view().len() == self.rows@.len());
            assert(forall|p: int|
                0 <= p < rd.len() && expr_matches(*expr, ci as int, #[trigger] rd[p])
                    ==> flags.deep_view()[p]);
        }
        let mut out: Vec<Vec<Value>> = Vec::new();
        let mut r: usize = 0;
        while r < self.rows.len()
            invariant
                r <= self.rows@.len(),
                flags@.len() == self.rows@.len(),
                forall|p: int|
                    0 <= p < rd.len() && expr_matches(*expr, ci as int, #[trigger] rd[p])
                        ==> flags@[p],
                out.deep_view() == matching_rows(rd.subrange(0, r as int), *expr, ci as int),
            decreases self.rows@.len() - r,
        {
            proof {
                assert(rd[r as int].len() == self.rows@[r as int]@.len());
                assert(rd.subrange(0, r as int + 1).drop_last() =~= rd.subrange(0, r as int));
                assert(rd.subrange(0, r as int + 1).last() == rd[r as int]);
            }
            if flags[r] && expr.matches_row(ci, &self.rows[r]) {
                out.push(clone_row(&self.rows[r]));
                proof {
                    assert(out.deep_view() =~~= matching_rows(
                        rd.subrange(0, r as int + 1),
                        *expr,
                        ci as int,
                    ));
                }
            } else {
                proof {
                    assert(!expr_matches(*expr, ci as int, rd[r as int]));
                    assert(out.deep_view() =~~= matching_rows(
                        rd.subrange(0, r as int + 1),
                        *expr,
                        ci as int,
                    ));
                }
            }
            r = r + 1;
        }
        proof {
            assert(rd.subrange(0, rd.len() as int) =~= rd);
        }
        out
    }

    /// The first occurrence of each row under the display-rendering
    /// distinctness key: two rows count as duplicates exactly when their
    /// values render to the same comma-joined text.
    pub fn select_distinct(&self) -> (r: Vec<Vec<Value>>)
        ensures
            r.deep_view() == distinct_rows(self.rows_model()),
    {
        dedup_rows(&self.rows)
    }
}

/// The first occurrence of each row under the display-rendering key.
#[verifier::loop_isolation(false)]
pub fn dedup_rows(rows: &Vec<Vec<Value>>) -> (r: Vec<Vec<Value>>)
    ensures
        r.deep_view() == distinct_rows(rows.deep_view()),
{
    let ghost rd = rows.deep_view();
    let mut out: Vec<Vec<Value>> = Vec::new();
    let mut r: usize = 0;
    while r < rows.len()
        invariant
            r <= rows@.len(),
            out.deep_view() == distinct_rows(rd.subrange(0, r as int)),
        decreases rows@.len() - r,
    {
        let key = row_key_string(&rows[r]);
        let mut seen = false;
        let mut p: usize = 0;
        while p < r
            invariant
                p <= r <= rows@.len(),
                seen <==> exists|q: int| 0 <= q < p && row_key(#[trigger] rd[q]) == key@,
            decreases r - p,
        {
            let prior = row_key_string(&rows[p]);
            if prior == key {
                proof {
                    assert(row_key(rd[p as int]) == key@);
                }
                seen = true;
            }
            p = p + 1;
        }
        proof {
            let prefix = rd.subrange(0, r as int + 1);
            assert(prefix.drop_last() =~= rd.subrange(0, r as int));
            assert(prefix.last() == rd[r as int]);
            assert(rd[r as int] == rows@[r as int].deep_view());
            assert(key@ == row_key(rd[r as int]));
            let sub = rd.subrange(0, r as int);
            if seen {
                let q = choose|q: int| 0 <= q < r && row_key(#[trigger] rd[q]) == key@;
                assert(sub[q] == rd[q]);
                assert(key_seen_in(sub, row_key(rd[r as int])));
            } else {
                if key_seen_in(sub, row_key(rd[r as int])) {
                    let q = choose|q: int|
                        0 <= q < sub.len() && row_key(#[trigger] sub[q]) == row_key(
                            rd[r as int],
                        );
                    assert(sub[q] == rd[q]);
                    assert(false);
                }
            }
            assert(seen == key_seen_in(sub, row_key(rd[r as int])));
        }
        if !seen {
            out.push(clone_row(&rows[r]));
            proof {
                assert(out.deep_view() =~~= distinct_rows(rd.subrange(0, r as int + 1)));
            }
        } else {
            proof {
                assert(out.deep_view() =~~= distinct_rows(rd.subrange(0, r as int + 1)));
            }
        }
        r = r + 1;
    }
    proof {
        assert(rd.subrange(0, rd.len() as int) =~= rd);
    }
    out
}

/// The multi-key strict order: the first key column where two rows differ
/// decides.
pub open spec fn row_lt_keys(keys: Seq<int>, a: Seq<ValModel>, b: Seq<ValModel>) -> bool
    decreases keys.len(),
{
    if keys.len() == 0 {
        false
    } else if !val_eq(a[keys[0]], b[keys[0]]) {
        val_lt(a[keys[0]], b[keys[0]])
    } else {
        row_lt_keys(keys.drop_first(), a, b)
    }
}

/// Non-decreasing under the multi-key order.
pub open spec fn rows_sorted_by(keys: Seq<int>, rs: Seq<Seq<ValModel>>) -> bool {
    forall|i: int, j: int|
        #![trigger rs[i], rs[j]]
        0 <= i < j < rs.len() ==> !row_lt_keys(keys, rs[j], rs[i])
}

/// A row placed into an already-sorted list: after every entry it does
/// not precede, before the rest. Equal-key rows therefore keep their
/// order, which is what makes the sort stable.
pub open spec fn insert_sorted(
    keys: Seq<int>,
    sorted: Seq<Seq<ValModel>>,
    row: Seq<ValModel>,
) -> Seq<Seq<ValModel>>
    decreases sorted.len(),
{
    if sorted.len() == 0 {
        seq![row]
    } else if row_lt_keys(keys, row, sorted.last()) {
        insert_sorted(keys, sorted.drop_last(), row).push(sorted.last())
    } else {
        sorted.push(row)
    }
}

/// The stable multi-key sort: each row inserted, in order, into the
/// sorted list of its predecessors.
pub open spec fn sort_rows(keys: Seq<int>, rows: Seq<Seq<ValModel>>) -> Seq<Seq<ValModel>>
    decreases rows.len(),
{
    if rows.len() == 0 {
        Seq::empty()
    } else {
        insert_sorted(keys, sort_rows(keys, rows.drop_last()), rows.last())
    }
}

/// Inserting lands exactly at the first position from the end whose entry
/// the row does not precede.
proof fn lemma_insert_sorted_at(
    keys: Seq<int>,
    sorted: Seq<Seq<ValModel>>,
    row: Seq<ValModel>,
    p: int,
)
    requires
        0 <= p <= sorted.len(),
        forall|q: int| p <= q < sorted.len() ==> row_lt_keys(keys, row, #[trigger] sorted[q]),
        p > 0 ==> !row_lt_keys(keys, row, sorted[p - 1]),
    ensures
        insert_sorted(keys, sorted, row) == sorted.insert(p, row),
    decreases sorted.len() - p,
{
    if p == sorted.len() {
        if sorted.len() == 0 {
            assert(insert_sorted(keys, sorted, row) =~= sorted.insert(p, row));
        } else {
            assert(!row_lt_keys(keys, row, sorted.last()));
            assert(sorted.push(row) =~= sorted.insert(p, row));
        }
    } else {
        assert(row_lt_keys(keys, row, sorted.last()));
        let shorter = sorted.drop_last();
        assert(forall|q: int| p <= q < shorter.len() ==> row_lt_keys(keys, row, #[trigger] shorter[q]));
        assert(p > 0 ==> !row_lt_keys(keys, row, shorter[p - 1]));
        lemma_insert_sorted_at(keys, shorter, row, p);
        assert(insert_sorted(keys, sorted, row) == shorter.insert(p, row).push(sorted.last()));
        assert(shorter.insert(p, row).push(sorted.last()) =~= sorted.insert(p, row));
    }
}

pub proof fn lemma_row_lt_asym(keys: Seq<int>, a: Seq<ValModel>, b: Seq<ValModel>)
    ensures
        row_lt_keys(keys, a, b) ==> !row_lt_keys(keys, b, a),
    decreases keys.len(),
{
    if keys.len() > 0 {
        lemma_val_lt_asym(a[keys[0]], b[keys[0]]);
        lemma_row_lt_asym(keys.drop_first(), a, b);
    }
}

pub proof fn lemma_row_lt_trans(keys: Seq<int>, a: Seq<ValModel>, b: Seq<ValModel>, c: Seq<ValModel>)
    ensures
        row_lt_keys(keys, a, b) && row_lt_keys(keys, b, c) ==> row_lt_keys(keys, a, c),
    decreases keys.len(),
{
    if keys.len() > 0 {
        let k = keys[0];
        lemma_val_lt_trans(a[k], b[k], c[k]);
        lemma_val_lt_asym(a[k], b[k]);
        lemma_val_lt_asym(b[k], c[k]);
        lemma_val_lt_total(a[k], b[k]);
        lemma_val_lt_total(b[k], c[k]);
        lemma_row_lt_trans(keys.drop_first(), a, b, c);
    }
}

/// Rows neither of which precedes the other compare alike against
/// everything.
pub proof fn lemma_row_lt_total(keys: Seq<int>, a: Seq<ValModel>, b: Seq<ValModel>, c: Seq<ValModel>)
    ensures
        !row_lt_keys(keys, a, b) && !row_lt_keys(keys, b, a) ==> (row_lt_keys(keys, a, c)
            == row_lt_keys(keys, b, c) && row_lt_keys(keys, c, a) == row_lt_keys(keys, c, b)),
    decreases keys.len(),
{
    if keys.len() > 0 {
        let k = keys[0];
        lemma_val_lt_total(a[k], b[k]);
        lemma_row_lt_total(keys.drop_first(), a, b, c);
    }
}

/// One insertion-sort comparison.
#[verifier::loop_isolation(false)]
fn row_lt_exec(keys: &Vec<usize>, a: &Vec<Value>, b: &Vec<Value>) -> (r: bool)
    requires
        forall|k: int| 0 <= k < keys@.len() ==> (#[trigger] keys@[k] as int) < a.deep_view().len(),
        forall|k: int| 0 <= k < keys@.len() ==> (#[trigger] keys@[k] as int) < b.deep_view().len(),
    ensures
        r == row_lt_keys(keys@.map_values(|u: usize| u as int), a.deep_view(), b.deep_view()),
{
    let ghost ks = keys@.map_values(|u: usize| u as int);
    let mut k: usize = 0;
    proof {
        assert(ks.subrange(0, ks.len() as int) =~= ks);
    }
    while k < keys.len()
        invariant
            k <= keys@.len(),
            row_lt_keys(ks, a.deep_view(), b.deep_view()) == row_lt_keys(
                ks.subrange(k as int, ks.len() as int),
                a.deep_view(),
                b.deep_view(),
            ),
        decreases keys@.len() - k,
    {
        proof {
            let rest = ks.subrange(k as int, ks.len() as int);
            assert(rest[0] == keys@[k as int] as int);
            assert(rest.drop_first() =~= ks.subrange(k as int + 1, ks.len() as int));
            assert(a.deep_view()[keys@[k as int] as int] == a@[keys@[k as int] as int]@);
            assert(b.deep_view()[keys@[k as int] as int] == b@[keys@[k as int] as int]@);
        }
        let ki = keys[k];
        if !a[ki].eq_val(&b[ki]) {
            return a[ki].lt_val(&b[ki]);
        }
        k = k + 1;
    }
    false
}

impl Table {
    /// The rows sorted by the named columns, left to right, under the
    /// value algebra's total order: the result is a reordering of the rows
    /// that is non-decreasing in the multi-key order. Fails exactly when
    /// some named column does not exist.
    #[verifier::loop_isolation(false)]
    #[verifier::rlimit(50)]
    pub fn select_order_by(&self, order_cols: &Vec<String>) -> (r: Result<Vec<Vec<Value>>, DbError>)
        requires
            self.rows_aligned(),
        ensures
            r is Ok <==> (forall|k: int|
                0 <= k < order_cols.deep_view().len() ==> col_position(
                    self.cols_model(),
                    #[trigger] order_cols.deep_view()[k],
                ) is Some),
            r is Err ==> r->Err_0 is ColumnNotFound,
            r matches Ok(sorted) ==> {
                let ks = Seq::new(
                    order_cols.deep_view().len(),
                    |k: int| col_position(self.cols_model(), order_cols.deep_view()[k])->0,
                );
                &&& rows_sorted_by(ks, sorted.deep_view())
                &&& sorted.deep_view().to_multiset() == self.rows_model().to_multiset()
                &&& sorted.deep_view() == sort_rows(ks, self.rows_model())
            },
    {
        broadcast use vstd::seq_lib::group_to_multiset_ensures;

        let ghost rd = self.rows_model();
        let mut indices: Vec<usize> = Vec::new();
        let mut k: usize = 0;
        while k < order_cols.len()
            invariant
                k <= order_cols@.len(),
                indices@.len() == k,
                forall|a: int|
                    0 <= a < k ==> col_position(
                        self.cols_model(),
                        #[trigger] order_cols.deep_view()[a],
                    ) == Some(indices@[a] as int),
                forall|a: int|
                    0 <= a < k ==> (#[trigger] indices@[a] as int) < self.cols_model().len(),
            decreases order_cols@.len() - k,
        {
            match self.find_column(order_cols[k].as_str()) {
                Some(ci) => {
                    indices.push(ci);
                },
                None => {
                    proof {
                        assert(col_position(
                            self.cols_model(),
                            order_cols.deep_view()[k as int],
                        ) is None);
                    }
                    return Err(
                        DbError::ColumnNotFound(
                            msg3("Column ", order_cols[k].as_str(), " not found"),
                        ),
                    );
                },
            }
            k = k + 1;
        }
        let ghost ks = Seq::new(
            order_cols.deep_view().len(),
            |k: int| col_position(self.cols_model(), order_cols.deep_view()[k])->0,
        );
        proof {
            assert(indices@.map_values(|u: usize| u as int) =~= ks);
        }
        let mut out: Vec<Vec<Value>> = Vec::new();
        let mut r: usize = 0;
        while r < self.rows.len()
            invariant
                r <= self.rows@.len(),
                indices@.map_values(|u: usize| u as int) == ks,
                forall|a: int|
                    0 <= a < indices@.len() ==> (#[trigger] indices@[a] as int)
                        < self.cols_model().len(),
                forall|x: int|
                    0 <= x < out.deep_view().len() ==> (#[trigger] out.deep_view()[x]).len()
                        == self.cols_model().len(),
                rows_sorted_by(ks, out.deep_view()),
                out.deep_view().to_multiset() == rd.subrange(0, r as int).to_multiset(),
                out.deep_view() == sort_rows(ks, rd.subrange(0, r as int)),
            decreases self.rows@.len() - r,
        {
            proof {
                assert(rd[r as int].len() == self.rows@[r as int]@.len());
            }
            let new_row = clone_row(&self.rows[r]);
            let ghost nr = new_row.deep_view();
            proof {
                assert(nr.len() == self.cols_model().len());
            }
            let mut p: usize = out.len();
            loop
                invariant
                    p <= out.deep_view().len(),
                    nr == new_row.deep_view(),
                    nr.len() == self.cols_model().len(),
                    indices@.map_values(|u: usize| u as int) == ks,
                    forall|a: int|
                        0 <= a < indices@.len() ==> (#[trigger] indices@[a] as int)
                            < self.cols_model().len(),
                    forall|x: int|
                        0 <= x < out.deep_view().len() ==> (#[trigger] out.deep_view()[x]).len()
                            == self.cols_model().len(),
                    forall|q: int|
                        p <= q < out.deep_view().len() ==> row_lt_keys(
                            ks,
                            nr,
                            #[trigger] out.deep_view()[q],
                        ),
                decreases p,
            {
                if p == 0 {
                    break ;
                }
                proof {
                    assert(out.deep_view()[p - 1] == out@[p - 1].deep_view());
                }
                if !row_lt_exec(&indices, &new_row, &out[p - 1]) {
                    break ;
                }
                proof {
                    assert(row_lt_keys(ks, nr, out.deep_view()[p - 1]));
                }
                p = p - 1;
            }
            proof {
                assert(p > 0 ==> !row_lt_keys(ks, nr, out.deep_view()[p - 1]));
            }
            let ghost prev = out.deep_view();
            out.insert(p, new_row);
            proof {
                assert(out.deep_view() =~~= prev.insert(p as int, nr));
                let cur = out.deep_view();
                assert forall|i: int, j: int|
                    #![trigger cur[i], cur[j]]
                    0 <= i < j < cur.len() implies !row_lt_keys(ks, cur[j], cur[i]) by {
                    if j < p {
                        assert(cur[i] == prev[i] && cur[j] == prev[j]);
                    } else if i > p {
                        assert(cur[i] == prev[i - 1] && cur[j] == prev[j - 1]);
                    } else if i < p && j == p {
                        // the new row sits after everything it does not precede
                        assert(cur[i] == prev[i] && cur[j] == nr);
                        if row_lt_keys(ks, nr, prev[i]) {
                            if p as int - 1 > i {
                                assert(!row_lt_keys(ks, prev[p - 1], prev[i]));
                                lemma_row_lt_total(ks, nr, prev[p - 1], prev[i]);
                                lemma_row_lt_trans(ks, prev[p - 1], nr, prev[i]);
                                lemma_row_lt_asym(ks, nr, prev[p - 1]);
                                lemma_val_and_row_helper(ks, nr, prev[p - 1], prev[i]);
                            } else {
                                assert(p as int - 1 == i);
                                assert(!row_lt_keys(ks, nr, prev[i]));
                            }
                            assert(false);
                        }
                    } else if i == p && j > p {
                        assert(cur[i] == nr && cur[j] == prev[j - 1]);
                        assert(row_lt_keys(ks, nr, prev[j - 1]));
                        lemma_row_lt_asym(ks, nr, prev[j - 1]);
                    } else if i < p && j > p {
                        assert(cur[i] == prev[i] && cur[j] == prev[j - 1]);
                    }
                }
                let prefix1 = rd.subrange(0, r as int + 1);
                assert(prefix1.drop_last() =~= rd.subrange(0, r as int));
                assert(prefix1 =~= rd.subrange(0, r as int).push(rd[r as int]));
                assert(cur.remove(p as int) =~= prev);
                assert(cur.to_multiset().remove(nr) =~= prev.to_multiset());
                assert(cur.to_multiset().contains(nr)) by {
                    assert(cur[p as int] == nr);
                }
                assert(cur.to_multiset() =~= prev.to_multiset().insert(nr));
                assert(prefix1.to_multiset() =~= rd.subrange(0, r as int).to_multiset().insert(
                    rd[r as int],
                ));
                lemma_insert_sorted_at(ks, prev, nr, p as int);
                assert(sort_rows(ks, prefix1) == insert_sorted(ks, prev, nr));
                assert(cur =~~= sort_rows(ks, prefix1));
            }
            r = r + 1;
        }
        proof {
            assert(rd.subrange(0, rd.len() as int) =~= rd);
        }
        Ok(out)
    }
}

/// When `a` and `b` tie, `a` precedes `c` exactly when `b` does.
proof fn lemma_val_and_row_helper(
    keys: Seq<int>,
    a: Seq<ValModel>,
    b: Seq<ValModel>,
    c: Seq<ValModel>,
)
    ensures
        !row_lt_keys(keys, a, b) && !row_lt_keys(keys, b, a) ==> (row_lt_keys(keys, a, c)
            == row_lt_keys(keys, b, c)),
{
    lemma_row_lt_total(keys, a, b, c);
}

/// Whether a row passes the optional filter.
pub open spec fn passes(e: Option<FilterExpr>, fi: int, row: Seq<ValModel>) -> bool {
    match e {
        None => true,
        Some(f) => expr_matches(f, fi, row),
    }
}

/// Whether the key list holds a matching key.
pub open spec fn contains_key(ks: Seq<ValModel>, k: ValModel) -> bool {
    exists|j: int| 0 <= j < ks.len() && val_eq(#[trigger] ks[j], k)
}

/// The distinct group keys of the filtered rows, in first-occurrence order.
pub open spec fn group_keys(
    rows: Seq<Seq<ValModel>>,
    gi: int,
    e: Option<FilterExpr>,
    fi: int,
) -> Seq<ValModel>
    decreases rows.len(),
{
    if rows.len() == 0 {
        Seq::empty()
    } else {
        let rest = group_keys(rows.drop_last(), gi, e, fi);
        if passes(e, fi, rows.last()) && !contains_key(rest, rows.last()[gi]) {
            rest.push(rows.last()[gi])
        } else {
            rest
        }
    }
}

/// The filtered rows whose group column matches `k`, in row order.
pub open spec fn group_rows_for(
    rows: Seq<Seq<ValModel>>,
    gi: int,
    e: Option<FilterExpr>,
    fi: int,
    k: ValModel,
) -> Seq<Seq<ValModel>>
    decreases rows.len(),
{
    if rows.len() == 0 {
        Seq::empty()
    } else {
        let rest = group_rows_for(rows.drop_last(), gi, e, fi, k);
        if passes(e, fi, rows.last()) && val_eq(rows.last()[gi], k) {
            rest.push(rows.last())
        } else {
            rest
        }
    }
}

/// Matching keys select the same group rows.
proof fn lemma_group_rows_congruent(
    rows: Seq<Seq<ValModel>>,
    gi: int,
    e: Option<FilterExpr>,
    fi: int,
    k1: ValModel,
    k2: ValModel,
)
    requires
        val_eq(k1, k2),
    ensures
        group_rows_for(rows, gi, e, fi, k1) == group_rows_for(rows, gi, e, fi, k2),
    decreases rows.len(),
{
    if rows.len() > 0 {
        lemma_group_rows_congruent(rows.drop_last(), gi, e, fi, k1, k2);
    }
}

/// A key no filtered row carries selects no rows.
proof fn lemma_group_rows_empty(
    rows: Seq<Seq<ValModel>>,
    gi: int,
    e: Option<FilterExpr>,
    fi: int,
    k: ValModel,
)
    requires
        forall|r: int|
            0 <= r < rows.len() ==> !(passes(e, fi, #[trigger] rows[r]) && val_eq(rows[r][gi], k)),
    ensures
        group_rows_for(rows, gi, e, fi, k) == Seq::<Seq<ValModel>>::empty(),
    decreases rows.len(),
{
    if rows.len() > 0 {
        assert(forall|r: int|
            0 <= r < rows.drop_last().len() ==> !(passes(e, fi, #[trigger] rows.drop_last()[r])
                && val_eq(rows.drop_last()[r][gi], k)));
        lemma_group_rows_empty(rows.drop_last(), gi, e, fi, k);
    }
}

impl Table {
    /// Partitions the (optionally filtered) rows by their value in the
    /// named column: one group per distinct key in first-occurrence order,
    /// each holding its rows in row order. Fails exactly when the group
    /// column does not exist.
    #[verifier::loop_isolation(false)]
    #[verifier::rlimit(100)]
    #[verifier::spinoff_prover]
    pub fn group_by(&self, by_col: &str, filter: Option<&FilterExpr>) -> (r: Result<
        Vec<(Value, Vec<Vec<Value>>)>,
        DbError,
    >)
        requires
            self.rows_aligned(),
            filter matches Some(f) ==> col_position(self.cols_model(), expr_column(*f)) is Some,
        ensures
            r is Ok <==> col_position(self.cols_model(), by_col@) is Some,
            r is Err ==> r->Err_0 is ColumnNotFound,
            r matches Ok(groups) ==> groups@.len() == group_keys(
                self.rows_model(),
                col_position(self.cols_model(), by_col@)->0,
                filter_model(filter),
                filter_position(self.cols_model(), filter),
            ).len(),
            r matches Ok(groups) ==> forall|g: int|
                0 <= g < groups@.len() ==> (#[trigger] groups@[g].0)@ == group_keys(
                    self.rows_model(),
                    col_position(self.cols_model(), by_col@)->0,
                    filter_model(filter),
                    filter_position(self.cols_model(), filter),
                )[g] && groups@[g].1.deep_view() == group_rows_for(
                    self.rows_model(),
                    col_position(self.cols_model(), by_col@)->0,
                    filter_model(filter),
                    filter_position(self.cols_model(), filter),
                    groups@[g].0@,
                ),
    {
        let ghost rd = self.rows_model();
        let gi = match self.find_column(by_col) {
            Some(ci) => ci,
            None => {
                return Err(DbError::ColumnNotFound(msg3("Column '", by_col, "' not found")));
            },
        };
        let fi: usize = match filter {
            Some(f) => match self.find_column(f.column().as_str()) {
                Some(ci) => ci,
                None => {
                    proof {
                        assert(false);
                    }
                    0
                },
            },
            None => 0,
        };
        let ghost e = filter_model(filter);
        let ghost gfi = filter_position(self.cols_model(), filter);
        proof {
            assert(filter matches Some(_) ==> gfi == fi as int);
        }
        let mut groups: Vec<(Value, Vec<Vec<Value>>)> = Vec::new();
        let mut r: usize = 0;
        while r < self.rows.len()
            invariant
                r <= self.rows@.len(),
                gi < self.cols_model().len(),
                filter matches Some(_) ==> gfi == fi as int && (fi as int) < self.cols_model().len(),
                groups@.len() == group_keys(rd.subrange(0, r as int), gi as int, e, gfi).len(),
                forall|g1: int, g2: int|
                    #![trigger groups@[g1], groups@[g2]]
                    0 <= g1 < g2 < groups@.len() ==> !val_eq(groups@[g1].0@, groups@[g2].0@),
                forall|g: int|
                    0 <= g < groups@.len() ==> (#[trigger] groups@[g].0)@ == group_keys(
                        rd.subrange(0, r as int),
                        gi as int,
                        e,
                        gfi,
                    )[g] && groups@[g].1.deep_view() == group_rows_for(
                        rd.subrange(0, r as int),
                        gi as int,
                        e,
                        gfi,
                        groups@[g].0@,
                    ),
            decreases self.rows@.len() - r,
        {
            let ghost prefix = rd.subrange(0, r as int);
            let ghost prefix1 = rd.subrange(0, r as int + 1);
            let ghost keys_before = group_keys(prefix, gi as int, e, gfi);
            proof {
                assert(prefix1.drop_last() =~= prefix);
                assert(prefix1.last() == rd[r as int]);
                assert(rd[r as int].len() == self.rows@[r as int]@.len());
            }
            let included = match filter {
                Some(f) => f.matches_row(fi, &self.rows[r]),
                None => true,
            };
            proof {
                assert(included == passes(e, gfi, rd[r as int]));
            }
            if included {
                let mut g: usize = 0;
                let mut found: Option<usize> = None;
                while g < groups.len()
                    invariant
                        g <= groups@.len(),
                        match found {
                            Some(f0) => f0 < groups@.len() && val_eq(
                                groups@[f0 as int].0@,
                                rd[r as int][gi as int],
                            ),
                            None => forall|g2: int|
                                0 <= g2 < g ==> !val_eq(
                                    (#[trigger] groups@[g2].0)@,
                                    rd[r as int][gi as int],
                                ),
                        },
                    decreases groups@.len() - g,
                {
                    if matches!(found, None) && groups[g].0.eq_val(&self.rows[r][gi]) {
                        proof {
                            assert(rd[r as int][gi as int] == self.rows@[r as int]@[gi as int]@);
                        }
                        found = Some(g);
                    }
                    g = g + 1;
                }
                let ghost key = rd[r as int][gi as int];
                match found {
                    Some(g0) => {
                        proof {
                            assert(contains_key(keys_before, key));
                            assert(group_keys(prefix1, gi as int, e, gfi) == keys_before);
                        }
                        let mut entry = groups.remove(g0);
                        entry.1.push(clone_row(&self.rows[r]));
                        groups.insert(g0, entry);
                        proof {
                            assert(groups@.len() == keys_before.len());
                            assert forall|g2: int|
                                0 <= g2 < groups@.len() implies (#[trigger] groups@[g2].0)@
                                == group_keys(prefix1, gi as int, e, gfi)[g2] && groups@[g2
                            ].1.deep_view() == group_rows_for(
                                prefix1,
                                gi as int,
                                e,
                                gfi,
                                groups@[g2].0@,
                            ) by {
                                if g2 == g0 {
                                    assert(groups@[g2].0@ == keys_before[g2]);
                                    assert(val_eq(groups@[g2].0@, key));
                                    lemma_group_rows_congruent(
                                        prefix1,
                                        gi as int,
                                        e,
                                        gfi,
                                        groups@[g2].0@,
                                        key,
                                    );
                                    lemma_group_rows_congruent(
                                        prefix,
                                        gi as int,
                                        e,
                                        gfi,
                                        groups@[g2].0@,
                                        key,
                                    );
                                    assert(groups@[g2].1.deep_view() =~~= group_rows_for(
                                        prefix,
                                        gi as int,
                                        e,
                                        gfi,
                                        key,
                                    ).push(rd[r as int]));
                                } else {
                                    assert(groups@[g2].1.deep_view() == group_rows_for(
                                        prefix,
                                        gi as int,
                                        e,
                                        gfi,
                                        groups@[g2].0@,
                                    ));
                                    assert(!val_eq(groups@[g2].0@, key));
                                }
                            }
                        }
                    },
                    None => {
                        proof {
                            assert(!contains_key(keys_before, key)) by {
                                if contains_key(keys_before, key) {
                                    let j = choose|j: int|
                                        0 <= j < keys_before.len() && val_eq(
                                            #[trigger] keys_before[j],
                                            key,
                                        );
                                    assert(val_eq(groups@[j].0@, key));
                                    assert(false);
                                }
                            }
                            assert(group_keys(prefix1, gi as int, e, gfi) =~= keys_before.push(
                                key,
                            ));
                        }
                        let key_val = self.rows[r][gi].clone();
                        let mut grows: Vec<Vec<Value>> = Vec::new();
                        grows.push(clone_row(&self.rows[r]));
                        groups.push((key_val, grows));
                        proof {
                            let keys_after = group_keys(prefix1, gi as int, e, gfi);
                            assert forall|g2: int|
                                0 <= g2 < groups@.len() implies (#[trigger] groups@[g2].0)@
                                == keys_after[g2] && groups@[g2].1.deep_view() == group_rows_for(
                                prefix1,
                                gi as int,
                                e,
                                gfi,
                                groups@[g2].0@,
                            ) by {
                                if g2 < groups@.len() - 1 {
                                    assert(groups@[g2].1.deep_view() == group_rows_for(
                                        prefix,
                                        gi as int,
                                        e,
                                        gfi,
                                        groups@[g2].0@,
                                    ));
                                    assert(!val_eq(groups@[g2].0@, key));
                                } else {
                                    assert(groups@[g2].0@ == key);
                                    assert forall|r2: int| 0 <= r2 < prefix.len() implies !(
                                    passes(e, gfi, #[trigger] prefix[r2]) && val_eq(
                                        prefix[r2][gi as int],
                                        key,
                                    )) by {
                                        if passes(e, gfi, prefix[r2]) && val_eq(
                                            prefix[r2][gi as int],
                                            key,
                                        ) {
                                            lemma_group_keys_complete(
                                                prefix,
                                                gi as int,
                                                e,
                                                gfi,
                                                r2,
                                            );
                                            assert(false);
                                        }
                                    }
                                    lemma_group_rows_empty(prefix, gi as int, e, gfi, key);
                                    lemma_group_rows_congruent(
                                        prefix1,
                                        gi as int,
                                        e,
                                        gfi,
                                        groups@[g2].0@,
                                        key,
                                    );
                                    assert(groups@[g2].1.deep_view() =~~= group_rows_for(
                                        prefix1,
                                        gi as int,
                                        e,
                                        gfi,
                                        key,
                                    ));
                                }
                            }
                        }
                    },
                }
            } else {
                proof {
                    assert(group_keys(prefix1, gi as int, e, gfi) == keys_before);
                    assert forall|g2: int|
                        0 <= g2 < groups@.len() implies (#[trigger] groups@[g2].1).deep_view()
                        == group_rows_for(prefix1, gi as int, e, gfi, groups@[g2].0@) by {
                        assert(groups@[g2].1.deep_view() == group_rows_for(
                            prefix,
                            gi as int,
                            e,
                            gfi,
                            groups@[g2].0@,
                        ));
                    }
                }
            }
            r = r + 1;
        }
        proof {
            assert(rd.subrange(0, rd.len() as int) =~= rd);
            assert(rd.len() == self.rows@.len());
            let keys = group_keys(rd, gi as int, e, gfi);
            assert(groups@.len() == keys.len());
            assert forall|g: int| 0 <= g < keys.len() implies (#[trigger] groups@[g].0)@ == keys[g]
                && groups@[g].1.deep_view() == group_rows_for(rd, gi as int, e, gfi, keys[g]) by {
                assert(groups@[g].0@ == keys[g]);
                assert(groups@[g].1.deep_view() == group_rows_for(
                    rd,
                    gi as int,
                    e,
                    gfi,
                    groups@[g].0@,
                ));
            }
        }
        Ok(groups)
    }
}

/// The model of an optional borrowed filter.
pub open spec fn filter_model(filter: Option<&FilterExpr>) -> Option<FilterExpr> {
    match filter {
        Some(f) => Some(*f),
        None => None,
    }
}

/// The resolved column position an optional filter speaks of (zero when
/// there is none).
pub open spec fn filter_position(cols: Seq<crate::table::model::ColModel>, filter: Option<&FilterExpr>) -> int {
    match filter {
        Some(f) => col_position(cols, expr_column(*f))->0,
        None => 0,
    }
}

/// A passing row's key is among the group keys.
proof fn lemma_group_keys_complete(
    rows: Seq<Seq<ValModel>>,
    gi: int,
    e: Option<FilterExpr>,
    fi: int,
    r: int,
)
    requires
        0 <= r < rows.len(),
        passes(e, fi, rows[r]),
    ensures
        contains_key(group_keys(rows, gi, e, fi), rows[r][gi]),
    decreases rows.len(),
{
    let rest = group_keys(rows.drop_last(), gi, e, fi);
    if r < rows.len() - 1 {
        assert(rows.drop_last()[r] == rows[r]);
        lemma_group_keys_complete(rows.drop_last(), gi, e, fi, r);
        let j = choose|j: int|
            0 <= j < rest.len() && val_eq(#[trigger] rest[j], rows.drop_last()[r][gi]);
        if passes(e, fi, rows.last()) && !contains_key(rest, rows.last()[gi]) {
            assert(group_keys(rows, gi, e, fi)[j] == rest[j]);
        }
    } else {
        if !contains_key(rest, rows.last()[gi]) {
            let keys = group_keys(rows, gi, e, fi);
            assert(keys[keys.len() - 1] == rows.last()[gi]);
        }
    }
}

/// Whether a value contributes to a numeric aggregate.
pub open spec fn is_numeric(v: ValModel) -> bool {
    v is Int || v is BigInt
}

/// The integer a numeric value contributes.
pub open spec fn num_contrib(v: ValModel) -> int {
    match v {
        ValModel::Int(i) => i,
        ValModel::BigInt(i) => i,
        _ => 0,
    }
}

/// The exact sum of the numeric entries at column `ai`.
pub open spec fn int_sum(rows: Seq<Seq<ValModel>>, ai: int) -> int
    decreases rows.len(),
{
    if rows.len() == 0 {
        0
    } else {
        int_sum(rows.drop_last(), ai) + if is_numeric(rows.last()[ai]) {
            num_contrib(rows.last()[ai])
        } else {
            0
        }
    }
}

/// How many entries at column `ai` are numeric.
pub open spec fn int_count(rows: Seq<Seq<ValModel>>, ai: int) -> int
    decreases rows.len(),
{
    if rows.len() == 0 {
        0
    } else {
        int_count(rows.drop_last(), ai) + if is_numeric(rows.last()[ai]) {
            1int
        } else {
            0int
        }
    }
}

/// The least numeric value at column `ai` (the earliest among numeric
/// ties); null when no entry is numeric, as non-numeric values are
/// silently excluded from aggregation.
pub open spec fn min_col(rows: Seq<Seq<ValModel>>, ai: int) -> ValModel
    decreases rows.len(),
{
    if rows.len() == 0 {
        ValModel::Null
    } else {
        let m = min_col(rows.drop_last(), ai);
        let v = rows.last()[ai];
        if !is_numeric(v) {
            m
        } else if !is_numeric(m) {
            v
        } else if num_contrib(v) < num_contrib(m) {
            v
        } else {
            m
        }
    }
}

/// The greatest numeric value at column `ai` (the latest among numeric
/// ties); null when no entry is numeric.
pub open spec fn max_col(rows: Seq<Seq<ValModel>>, ai: int) -> ValModel
    decreases rows.len(),
{
    if rows.len() == 0 {
        ValModel::Null
    } else {
        let m = max_col(rows.drop_last(), ai);
        let v = rows.last()[ai];
        if !is_numeric(v) {
            m
        } else if !is_numeric(m) {
            v
        } else if num_contrib(v) >= num_contrib(m) {
            v
        } else {
            m
        }
    }
}

/// Whether the function name is one the engine computes.
pub open spec fn func_known(f: Seq<char>) -> bool {
    f == "sum"@ || f == "avg"@ || f == "count"@ || f == "min"@ || f == "max"@
}

/// What the named aggregation function yields over a group.
pub open spec fn agg_result_ok(
    a: AggregationResult,
    rows: Seq<Seq<ValModel>>,
    ai: int,
    f: Seq<char>,
) -> bool {
    if f == "sum"@ {
        a matches AggregationResult::Sum(s) && s as int == int_sum(rows, ai)
    } else if f == "avg"@ {
        a matches AggregationResult::Avg(s, c) && s as int == int_sum(rows, ai) && c as int
            == int_count(rows, ai)
    } else if f == "count"@ {
        a matches AggregationResult::Count(c) && c as int == rows.len()
    } else if f == "min"@ {
        a matches AggregationResult::Min(v) && v@ == min_col(rows, ai)
    } else if f == "max"@ {
        a matches AggregationResult::Max(v) && v@ == max_col(rows, ai)
    } else {
        false
    }
}

/// Every listed aggregation is the named function's exact result over the
/// group.
pub open spec fn agg_list_ok(
    aggs: Seq<AggregationResult>,
    grows: Seq<Seq<ValModel>>,
    cols: Seq<crate::table::model::ColModel>,
    agg_cols: Seq<(String, String)>,
) -> bool {
    aggs.len() == agg_cols.len() && forall|c: int|
        0 <= c < aggs.len() ==> agg_result_ok(
            #[trigger] aggs[c],
            grows,
            col_position(cols, agg_cols[c].0@)->0,
            agg_cols[c].1@,
        )
}

/// Whether the value contributes to a numeric aggregate.
fn is_numeric_value(v: &Value) -> (r: bool)
    ensures
        r == is_numeric(v@),
{
    match v {
        Value::Int(_) => true,
        Value::BigInt(_) => true,
        _ => false,
    }
}

/// The integer a numeric value contributes.
fn num_value(v: &Value) -> (r: i64)
    requires
        is_numeric(v@),
    ensures
        r as int == num_contrib(v@),
{
    match v {
        Value::Int(i) => *i as i64,
        Value::BigInt(i) => *i,
        _ => 0,
    }
}

/// Equality of a function name and a known literal.
fn str_is(f: &str, lit: &str) -> (r: bool)
    ensures
        r == (f@ == lit@),
{
    let a = crate::chars::chars_of(f);
    let b = crate::chars::chars_of(lit);
    crate::chars::chars_eq(&a, &b)
}

/// One aggregation over one group of rows at one column position.
#[verifier::loop_isolation(false)]
fn compute_agg(rows: &Vec<Vec<Value>>, ai: usize, func: &str) -> (r: Result<
    AggregationResult,
    DbError,
>)
    requires
        forall|x: int| 0 <= x < rows.deep_view().len() ==> (ai as int) < (
        #[trigger] rows.deep_view()[x]).len(),
    ensures
        r is Ok <==> func_known(func@),
        r is Err ==> r->Err_0 is ParseError,
        r matches Ok(a) ==> agg_result_ok(a, rows.deep_view(), ai as int, func@),
{
    let ghost rd = rows.deep_view();
    if str_is(func, "sum") || str_is(func, "avg") {
        let mut acc: i128 = 0;
        let mut cnt: usize = 0;
        let mut x: usize = 0;
        while x < rows.len()
            invariant
                x <= rows@.len(),
                cnt <= x,
                acc as int == int_sum(rd.subrange(0, x as int), ai as int),
                cnt as int == int_count(rd.subrange(0, x as int), ai as int),
                -(x as int) * 0x8000_0000_0000_0000 <= acc as int <= (x as int)
                    * 0x7FFF_FFFF_FFFF_FFFF,
            decreases rows@.len() - x,
        {
            proof {
                assert(rd[x as int].len() == rows@[x as int]@.len());
                assert(rd.subrange(0, x as int + 1).drop_last() =~= rd.subrange(0, x as int));
                assert(rd.subrange(0, x as int + 1).last() == rd[x as int]);
                assert(rd[x as int][ai as int] == rows@[x as int]@[ai as int]@);
            }
            match &rows[x][ai] {
                Value::Int(i) => {
                    acc = acc + (*i as i128);
                    cnt = cnt + 1;
                },
                Value::BigInt(i) => {
                    acc = acc + (*i as i128);
                    cnt = cnt + 1;
                },
                _ => {},
            }
            x = x + 1;
        }
        proof {
            assert(rd.subrange(0, rd.len() as int) =~= rd);
        }
        if str_is(func, "sum") {
            Ok(AggregationResult::Sum(acc))
        } else {
            Ok(AggregationResult::Avg(acc, cnt))
        }
    } else if str_is(func, "count") {
        Ok(AggregationResult::Count(rows.len()))
    } else if str_is(func, "min") {
        let mut best: Value = Value::Null;
        let mut x: usize = 0;
        while x < rows.len()
            invariant
                x <= rows@.len(),
                best@ == min_col(rd.subrange(0, x as int), ai as int),
            decreases rows@.len() - x,
        {
            proof {
                assert(rd[x as int].len() == rows@[x as int]@.len());
                assert(rd.subrange(0, x as int + 1).drop_last() =~= rd.subrange(0, x as int));
                assert(rd.subrange(0, x as int + 1).last() == rd[x as int]);
                assert(rd[x as int][ai as int] == rows@[x as int]@[ai as int]@);
            }
            let entry = &rows[x][ai];
            if is_numeric_value(entry) {
                if !is_numeric_value(&best) {
                    best = entry.clone();
                } else if num_value(entry) < num_value(&best) {
                    best = entry.clone();
                }
            }
            x = x + 1;
        }
        proof {
            assert(rd.subrange(0, rd.len() as int) =~= rd);
        }
        Ok(AggregationResult::Min(best))
    } else if str_is(func, "max") {
        let mut best: Value = Value::Null;
        let mut x: usize = 0;
        while x < rows.len()
            invariant
                x <= rows@.len(),
                best@ == max_col(rd.subrange(0, x as int), ai as int),
            decreases rows@.len() - x,
        {
            proof {
                assert(rd[x as int].len() == rows@[x as int]@.len());
                assert(rd.subrange(0, x as int + 1).drop_last() =~= rd.subrange(0, x as int));
                assert(rd.subrange(0, x as int + 1).last() == rd[x as int]);
                assert(rd[x as int][ai as int] == rows@[x as int]@[ai as int]@);
            }
            let entry = &rows[x][ai];
            if is_numeric_value(entry) {
                if !is_numeric_value(&best) {
                    best = entry.clone();
                } else if num_value(entry) >= num_value(&best) {
                    best = entry.clone();
                }
            }
            x = x + 1;
        }
        proof {
            assert(rd.subrange(0, rd.len() as int) =~= rd);
        }
        Ok(AggregationResult::Max(best))
    } else {
        Err(DbError::ParseError("Unknown aggregation function".to_owned()))
    }
}

/// Every group row of an aligned row list is aligned.
proof fn lemma_group_rows_width(
    rows: Seq<Seq<ValModel>>,
    gi: int,
    e: Option<FilterExpr>,
    fi: int,
    k: ValModel,
    w: int,
)
    requires
        forall|r: int| 0 <= r < rows.len() ==> (#[trigger] rows[r]).len() == w,
    ensures
        forall|r: int|
            0 <= r < group_rows_for(rows, gi, e, fi, k).len() ==> (#[trigger] group_rows_for(
                rows,
                gi,
                e,
                fi,
                k,
            )[r]).len() == w,
    decreases rows.len(),
{
    if rows.len() > 0 {
        assert(forall|r: int|
            0 <= r < rows.drop_last().len() ==> (#[trigger] rows.drop_last()[r]).len() == w);
        lemma_group_rows_width(rows.drop_last(), gi, e, fi, k, w);
        let g = group_rows_for(rows, gi, e, fi, k);
        let rest = group_rows_for(rows.drop_last(), gi, e, fi, k);
        if passes(e, fi, rows.last()) && val_eq(rows.last()[gi], k) {
            assert forall|r: int| 0 <= r < g.len() implies (#[trigger] g[r]).len() == w by {
                if r < rest.len() {
                } else {
                    assert(g[r] == rows.last());
                }
            }
        }
    }
}

impl Table {
    /// Groups the rows by one column and aggregates another with the named
    /// function over each group: `sum` and `avg` are exact over the
    /// integer entries, `count` counts all rows of the group, `min` and
    /// `max` take the least and greatest numeric entry (non-numeric values
    /// are silently excluded; a group without one yields null). Fails when
    /// either column is missing, or (with at least one group) when the
    /// function name is unknown.
    #[verifier::loop_isolation(false)]
    #[verifier::rlimit(100)]
    #[verifier::spinoff_prover]
    pub fn aggregate(&self, group_col: &str, agg_col: &str, func: &str) -> (r: Result<
        Vec<(Value, AggregationResult)>,
        DbError,
    >)
        requires
            self.rows_aligned(),
        ensures
            r is Ok <==> (col_position(self.cols_model(), group_col@) is Some && col_position(
                self.cols_model(),
                agg_col@,
            ) is Some && (group_keys(
                self.rows_model(),
                col_position(self.cols_model(), group_col@)->0,
                None,
                0,
            ).len() == 0 || func_known(func@))),
            r is Err ==> (r->Err_0 is ColumnNotFound || r->Err_0 is ParseError),
            r matches Ok(out) ==> out@.len() == group_keys(
                self.rows_model(),
                col_position(self.cols_model(), group_col@)->0,
                None,
                0,
            ).len(),
            r matches Ok(out) ==> forall|g: int|
                0 <= g < out@.len() ==> (#[trigger] out@[g].0)@ == group_keys(
                    self.rows_model(),
                    col_position(self.cols_model(), group_col@)->0,
                    None,
                    0,
                )[g] && agg_result_ok(
                    out@[g].1,
                    group_rows_for(
                        self.rows_model(),
                        col_position(self.cols_model(), group_col@)->0,
                        None,
                        0,
                        out@[g].0@,
                    ),
                    col_position(self.cols_model(), agg_col@)->0,
                    func@,
                ),
    {
        let groups = match self.group_by(group_col, None) {
            Ok(g) => g,
            Err(e) => {
                return Err(e);
            },
        };
        let ai = match self.find_column(agg_col) {
            Some(ci) => ci,
            None => {
                return Err(DbError::ColumnNotFound(msg3("Column '", agg_col, "' not found")));
            },
        };
        let ghost gi = col_position(self.cols_model(), group_col@)->0;
        let ghost keys = group_keys(self.rows_model(), gi, None, 0);
        proof {
            assert(filter_model(None::<&FilterExpr>) == None::<FilterExpr>);
            assert(filter_position(self.cols_model(), None::<&FilterExpr>) == 0);
        }
        let mut out: Vec<(Value, AggregationResult)> = Vec::new();
        let mut g: usize = 0;
        while g < groups.len()
            invariant
                g <= groups@.len(),
                ai < self.cols_model().len(),
                groups@.len() == keys.len(),
                out@.len() == g,
                forall|g2: int|
                    0 <= g2 < g ==> (#[trigger] out@[g2].0)@ == keys[g2] && agg_result_ok(
                        out@[g2].1,
                        group_rows_for(self.rows_model(), gi, None, 0, out@[g2].0@),
                        ai as int,
                        func@,
                    ),
            decreases groups@.len() - g,
        {
            proof {
                assert(groups@[g as int].0@ == keys[g as int]);
                assert(groups@[g as int].1.deep_view() == group_rows_for(
                    self.rows_model(),
                    gi,
                    None,
                    0,
                    groups@[g as int].0@,
                ));
                lemma_group_rows_width(
                    self.rows_model(),
                    gi,
                    None,
                    0,
                    keys[g as int],
                    self.cols_model().len() as int,
                );
            }
            let agg = match compute_agg(&groups[g].1, ai, func) {
                Ok(a) => a,
                Err(e) => {
                    proof {
                        assert(!func_known(func@));
                        assert(keys.len() > 0);
                    }
                    return Err(e);
                },
            };
            let key_copy = groups[g].0.clone();
            proof {
                assert(key_copy@ == keys[g as int]);
            }
            out.push((key_copy, agg));
            proof {
                assert forall|g2: int|
                    0 <= g2 < g + 1 implies (#[trigger] out@[g2].0)@ == keys[g2] && agg_result_ok(
                    out@[g2].1,
                    group_rows_for(self.rows_model(), gi, None, 0, out@[g2].0@),
                    ai as int,
                    func@,
                ) by {
                    if g2 == g {
                        lemma_group_rows_congruent2(
                            self.rows_model(),
                            gi,
                            0,
                            out@[g2].0@,
                            keys[g2],
                        );
                    }
                }
            }
            g = g + 1;
        }
        proof {
            if keys.len() > 0 {
                assert(func_known(func@)) by {
                    assert(agg_result_ok(
                        out@[0].1,
                        group_rows_for(self.rows_model(), gi, None, 0, out@[0].0@),
                        ai as int,
                        func@,
                    ));
                }
            }
        }
        Ok(out)
    }

    /// Groups by one column (optionally pre-filtered) and computes several
    /// (column, function) aggregations over each group. Fails when the
    /// group column or any aggregation column is missing, or (with at
    /// least one group) when a function name is unknown.
    #[verifier::loop_isolation(false)]
    #[verifier::rlimit(100)]
    #[verifier::spinoff_prover]
    pub fn aggregate_group(
        &self,
        group_col: &str,
        agg_cols: &Vec<(String, String)>,
        filter: Option<&FilterExpr>,
    ) -> (r: Result<Vec<(Value, Vec<AggregationResult>)>, DbError>)
        requires
            self.rows_aligned(),
            filter matches Some(f) ==> col_position(self.cols_model(), expr_column(*f)) is Some,
        ensures
            r is Err ==> (r->Err_0 is ColumnNotFound || r->Err_0 is ParseError),
            r is Ok ==> col_position(self.cols_model(), group_col@) is Some && (forall|c: int|
                0 <= c < agg_cols@.len() ==> col_position(
                    self.cols_model(),
                    (#[trigger] agg_cols@[c]).0@,
                ) is Some),
            r matches Ok(out) ==> out@.len() == group_keys(
                self.rows_model(),
                col_position(self.cols_model(), group_col@)->0,
                filter_model(filter),
                filter_position(self.cols_model(), filter),
            ).len(),
            r matches Ok(out) ==> forall|g: int|
                0 <= g < out@.len() ==> (#[trigger] out@[g]).0@ == group_keys(
                    self.rows_model(),
                    col_position(self.cols_model(), group_col@)->0,
                    filter_model(filter),
                    filter_position(self.cols_model(), filter),
                )[g] && agg_list_ok(
                    out@[g].1@,
                    group_rows_for(
                        self.rows_model(),
                        col_position(self.cols_model(), group_col@)->0,
                        filter_model(filter),
                        filter_position(self.cols_model(), filter),
                        out@[g].0@,
                    ),
                    self.cols_model(),
                    agg_cols@,
                ),
    {
        let groups = match self.group_by(group_col, filter) {
            Ok(g) => g,
            Err(e) => {
                return Err(e);
            },
        };
        let mut col_indices: Vec<usize> = Vec::new();
        let mut c: usize = 0;
        while c < agg_cols.len()
            invariant
                c <= agg_cols@.len(),
                col_indices@.len() == c,
                forall|c2: int|
                    0 <= c2 < c ==> col_position(
                        self.cols_model(),
                        (#[trigger] agg_cols@[c2]).0@,
                    ) == Some(col_indices@[c2] as int) && (col_indices@[c2] as int)
                        < self.cols_model().len(),
            decreases agg_cols@.len() - c,
        {
            match self.find_column(agg_cols[c].0.as_str()) {
                Some(ci) => {
                    col_indices.push(ci);
                },
                None => {
                    return Err(
                        DbError::ColumnNotFound(
                            msg3("Column '", agg_cols[c].0.as_str(), "' not found"),
                        ),
                    );
                },
            }
            c = c + 1;
        }
        let ghost gi = col_position(self.cols_model(), group_col@)->0;
        let ghost e = filter_model(filter);
        let ghost fi = filter_position(self.cols_model(), filter);
        let ghost keys = group_keys(self.rows_model(), gi, e, fi);
        let mut out: Vec<(Value, Vec<AggregationResult>)> = Vec::new();
        let mut g: usize = 0;
        while g < groups.len()
            invariant
                g <= groups@.len(),
                groups@.len() == keys.len(),
                col_indices@.len() == agg_cols@.len(),
                forall|c2: int|
                    0 <= c2 < agg_cols@.len() ==> col_position(
                        self.cols_model(),
                        (#[trigger] agg_cols@[c2]).0@,
                    ) == Some(col_indices@[c2] as int) && (col_indices@[c2] as int)
                        < self.cols_model().len(),
                out@.len() == g,
                forall|g2: int|
                    0 <= g2 < g ==> (#[trigger] out@[g2]).0@ == keys[g2] && agg_list_ok(
                        out@[g2].1@,
                        group_rows_for(self.rows_model(), gi, e, fi, out@[g2].0@),
                        self.cols_model(),
                        agg_cols@,
                    ),
            decreases groups@.len() - g,
        {
            proof {
                assert(groups@[g as int].0@ == keys[g as int]);
                assert(groups@[g as int].1.deep_view() == group_rows_for(
                    self.rows_model(),
                    gi,
                    e,
                    fi,
                    groups@[g as int].0@,
                ));
            }
            let mut aggs: Vec<AggregationResult> = Vec::new();
            let mut c: usize = 0;
            while c < agg_cols.len()
                invariant
                    c <= agg_cols@.len(),
                    g < groups@.len(),
                    groups@.len() == keys.len(),
                    col_indices@.len() == agg_cols@.len(),
                    forall|c2: int|
                        0 <= c2 < agg_cols@.len() ==> col_position(
                            self.cols_model(),
                            (#[trigger] agg_cols@[c2]).0@,
                        ) == Some(col_indices@[c2] as int) && (col_indices@[c2] as int)
                            < self.cols_model().len(),
                    aggs@.len() == c,
                    forall|c2: int|
                        0 <= c2 < c ==> agg_result_ok(
                            #[trigger] aggs@[c2],
                            group_rows_for(
                                self.rows_model(),
                                gi,
                                e,
                                fi,
                                groups@[g as int].0@,
                            ),
                            col_position(self.cols_model(), agg_cols@[c2].0@)->0,
                            agg_cols@[c2].1@,
                        ),
                decreases agg_cols@.len() - c,
            {
                proof {
                    assert(groups@[g as int].1.deep_view() == group_rows_for(
                        self.rows_model(),
                        gi,
                        e,
                        fi,
                        groups@[g as int].0@,
                    ));
                    lemma_group_rows_width(
                        self.rows_model(),
                        gi,
                        e,
                        fi,
                        groups@[g as int].0@,
                        self.cols_model().len() as int,
                    );
                }
                match compute_agg(&groups[g].1, col_indices[c], agg_cols[c].1.as_str()) {
                    Ok(a) => {
                        aggs.push(a);
                    },
                    Err(err) => {
                        return Err(err);
                    },
                }
                c = c + 1;
            }
            let key_copy = groups[g].0.clone();
            proof {
                assert(key_copy@ == keys[g as int]);
            }
            let ghost prev_out = out@;
            let ghost aggs_snapshot = aggs@;
            out.push((key_copy, aggs));
            proof {
                assert forall|g2: int|
                    0 <= g2 < g + 1 implies (#[trigger] out@[g2]).0@ == keys[g2] && agg_list_ok(
                    out@[g2].1@,
                    group_rows_for(self.rows_model(), gi, e, fi, out@[g2].0@),
                    self.cols_model(),
                    agg_cols@,
                ) by {
                    if g2 < g {
                        assert(out@[g2] == prev_out[g2]);
                    } else {
                        assert(out@[g2].1@ == aggs_snapshot);
                        assert(out@[g2].0@ == keys[g2]);
                        assert(agg_list_ok(
                            aggs_snapshot,
                            group_rows_for(
                                self.rows_model(),
                                gi,
                                e,
                                fi,
                                groups@[g as int].0@,
                            ),
                            self.cols_model(),
                            agg_cols@,
                        ));
                    }
                }
            }
            g = g + 1;
        }
        Ok(out)
    }
}

/// Equal keys select the same group rows (unfiltered form).
proof fn lemma_group_rows_congruent2(
    rows: Seq<Seq<ValModel>>,
    gi: int,
    fi: int,
    k1: ValModel,
    k2: ValModel,
)
    requires
        k1 == k2,
    ensures
        group_rows_for(rows, gi, None, fi, k1) == group_rows_for(rows, gi, None, fi, k2),
{
}

/// Marks the positions the hash index lists under the entry matching `v`.
#[verifier::loop_isolation(false)]
fn mark_positions_eq(entries: &Vec<IndexEntry>, v: &Value, n: usize) -> (flags: Vec<bool>)
    ensures
        flags.deep_view().len() == n,
        forall|p: int|
            0 <= p < positions_of(entries@, v@).len() && (positions_of(entries@, v@)[p] as int) < n
                ==> flags.deep_view()[#[trigger] positions_of(entries@, v@)[p] as int],
{
    let mut flags: Vec<bool> = vec![false; n];
    let mut j: usize = 0;
    while j < entries.len()
        invariant
            flags@.len() == n,
            j <= entries@.len(),
            find_key(entries@, v@) == find_key_from(entries@, v@, j as int),
        decreases entries@.len() - j,
    {
        if entries[j].key.eq_val(v) {
            proof {
                assert(find_key(entries@, v@) == Some(j as int));
            }
            let ps = &entries[j].positions;
            let mut p: usize = 0;
            while p < ps.len()
                invariant
                    flags@.len() == n,
                    p <= ps@.len(),
                    ps@ == positions_of(entries@, v@),
                    forall|q: int|
                        0 <= q < p && (ps@[q] as int) < n ==> flags@[#[trigger] ps@[q] as int],
                decreases ps@.len() - p,
            {
                let pos = ps[p];
                if pos < n {
                    flags.set(pos, true);
                }
                p = p + 1;
            }
            proof {
                assert(flags.deep_view() =~= flags@);
            }
            return flags;
        }
        j = j + 1;
    }
    proof {
        assert(find_key(entries@, v@) is None);
        assert(positions_of(entries@, v@) =~= Seq::<usize>::empty());
        assert(flags.deep_view() =~= flags@);
    }
    flags
}

/// Marks the positions listed under every entry whose key lies strictly
/// below `v` (or strictly above it, when `above` is set).
#[verifier::loop_isolation(false)]
fn mark_positions_lt(entries: &Vec<IndexEntry>, v: &Value, n: usize, above: bool) -> (flags: Vec<
    bool,
>)
    ensures
        flags.deep_view().len() == n,
        forall|j: int, p: int|
            #![trigger entries@[j].positions@[p]]
            0 <= j < entries@.len() && (if above {
                val_lt(v@, entries@[j].key@)
            } else {
                val_lt(entries@[j].key@, v@)
            }) && 0 <= p < entries@[j].positions@.len() && (entries@[j].positions@[p] as int) < n
                ==> flags.deep_view()[entries@[j].positions@[p] as int],
{
    let mut flags: Vec<bool> = vec![false; n];
    let mut j: usize = 0;
    while j < entries.len()
        invariant
            flags@.len() == n,
            j <= entries@.len(),
            forall|jj: int, p: int|
                #![trigger entries@[jj].positions@[p]]
                0 <= jj < j && (if above {
                    val_lt(v@, entries@[jj].key@)
                } else {
                    val_lt(entries@[jj].key@, v@)
                }) && 0 <= p < entries@[jj].positions@.len() && (entries@[jj].positions@[p] as int)
                    < n ==> flags@[entries@[jj].positions@[p] as int],
        decreases entries@.len() - j,
    {
        let included = if above {
            v.lt_val(&entries[j].key)
        } else {
            entries[j].key.lt_val(v)
        };
        if included {
            let ps = &entries[j].positions;
            let ghost before = flags@;
            let mut p: usize = 0;
            while p < ps.len()
                invariant
                    flags@.len() == n,
                    p <= ps@.len(),
                    ps@ == entries@[j as int].positions@,
                    forall|q: int|
                        0 <= q < p && (ps@[q] as int) < n ==> flags@[#[trigger] ps@[q] as int],
                    forall|q: int| 0 <= q < n && before[q] ==> flags@[q],
                decreases ps@.len() - p,
            {
                let pos = ps[p];
                if pos < n {
                    flags.set(pos, true);
                }
                p = p + 1;
            }
        }
        j = j + 1;
    }
    proof {
        assert(flags.deep_view() =~= flags@);
    }
    flags
}

/// An exact hash index's marks cover every row an equality filter matches.
proof fn lemma_eq_candidates(
    entries: Seq<IndexEntry>,
    rows: Seq<Seq<ValModel>>,
    ci: int,
    v: ValModel,
    flags: Seq<bool>,
    e: FilterExpr,
)
    requires
        entries_exact(entries, rows, ci, rows.len() as int),
        flags.len() == rows.len(),
        e matches FilterExpr::Eq(_, w) && w@ == v,
        forall|p: int|
            0 <= p < positions_of(entries, v).len() && (positions_of(entries, v)[p] as int)
                < rows.len() ==> flags[#[trigger] positions_of(entries, v)[p] as int],
    ensures
        forall|r: int|
            0 <= r < rows.len() && expr_matches(e, ci, #[trigger] rows[r]) ==> flags[r],
{
    assert forall|r: int|
        0 <= r < rows.len() && expr_matches(e, ci, #[trigger] rows[r]) implies flags[r] by {
        assert(val_eq(rows[r][ci], v));
        lemma_find_key_congruent(entries, rows[r][ci], v, 0);
        assert(lists_position(positions_of(entries, rows[r][ci]), r));
        let p = choose|p: int|
            0 <= p < positions_of(entries, rows[r][ci]).len() && positions_of(
                entries,
                rows[r][ci],
            )[p] == r;
        assert(positions_of(entries, v)[p] == r);
    }
}

/// An exact ordered index's marks cover every row a strict range filter
/// matches.
proof fn lemma_range_candidates(
    entries: Seq<IndexEntry>,
    rows: Seq<Seq<ValModel>>,
    ci: int,
    v: ValModel,
    flags: Seq<bool>,
    e: FilterExpr,
    above: bool,
)
    requires
        entries_exact(entries, rows, ci, rows.len() as int),
        flags.len() == rows.len(),
        if above {
            e matches FilterExpr::Gt(_, w) && w@ == v
        } else {
            e matches FilterExpr::Lt(_, w) && w@ == v
        },
        forall|j: int, p: int|
            #![trigger entries[j].positions@[p]]
            0 <= j < entries.len() && (if above {
                val_lt(v, entries[j].key@)
            } else {
                val_lt(entries[j].key@, v)
            }) && 0 <= p < entries[j].positions@.len() && (entries[j].positions@[p] as int)
                < rows.len() ==> flags[entries[j].positions@[p] as int],
    ensures
        forall|r: int|
            0 <= r < rows.len() && expr_matches(e, ci, #[trigger] rows[r]) ==> flags[r],
{
    assert forall|r: int|
        0 <= r < rows.len() && expr_matches(e, ci, #[trigger] rows[r]) implies flags[r] by {
        assert(lists_position(positions_of(entries, rows[r][ci]), r));
        let p = choose|p: int|
            0 <= p < positions_of(entries, rows[r][ci]).len() && positions_of(
                entries,
                rows[r][ci],
            )[p] == r;
        let j = find_key(entries, rows[r][ci])->0;
        lemma_find_key_matches_pub(entries, rows[r][ci]);
        assert(val_eq(entries[j].key@, rows[r][ci]));
        assert(entries[j].positions@[p] == r);
        if above {
            assert(val_lt(v, rows[r][ci]));
            assert(val_lt(v, entries[j].key@));
        } else {
            assert(val_lt(rows[r][ci], v));
            assert(val_lt(entries[j].key@, v));
        }
    }
}

/// A successful key search really matches.
proof fn lemma_find_key_matches_pub(entries: Seq<IndexEntry>, k: ValModel)
    ensures
        find_key(entries, k) matches Some(j) ==> 0 <= j < entries.len() && val_eq(
            entries[j].key@,
            k,
        ),
{
    lemma_find_key_matches_from(entries, k, 0);
}

proof fn lemma_find_key_matches_from(entries: Seq<IndexEntry>, k: ValModel, i: int)
    requires
        0 <= i,
    ensures
        find_key_from(entries, k, i) matches Some(j) ==> i <= j < entries.len() && val_eq(
            entries[j].key@,
            k,
        ),
    decreases entries.len() - i,
{
    if i < entries.len() {
        lemma_find_key_matches_from(entries, k, i + 1);
    }
}

} // verus!

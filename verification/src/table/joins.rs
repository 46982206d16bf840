//! The join engine: nested-loop equality joins over one or more column
//! pairs, filtered joins, and materialization of join results into tables.

use vstd::prelude::*;
use crate::errors::DbError;
use crate::table::data::{Table, Column, Value, clone_row};
use crate::table::model::{ValModel, val_eq, col_position};
use crate::table::validators::msg3;
use crate::table::crud::{free_name, minimally_suffixed};

verus! {

/// The right rows matching a left row on one column pair, in row order.
pub open spec fn matches_of(
    lrow: Seq<ValModel>,
    rrows: Seq<Seq<ValModel>>,
    li: int,
    ri: int,
) -> Seq<Seq<ValModel>>
    decreases rrows.len(),
{
    if rrows.len() == 0 {
        Seq::empty()
    } else {
        let rest = matches_of(lrow, rrows.drop_last(), li, ri);
        if val_eq(rrows.last()[ri], lrow[li]) {
            rest.push(rrows.last())
        } else {
            rest
        }
    }
}

/// A row wrapped value-by-value in `Some`.
pub open spec fn some_row(r: Seq<ValModel>) -> Seq<Option<ValModel>> {
    r.map_values(|v: ValModel| Some(v))
}

/// An all-null counterpart row of the given width.
pub open spec fn nulls(w: int) -> Seq<Option<ValModel>> {
    Seq::new(w as nat, |i: int| None::<ValModel>)
}

/// The matched pairs a left row contributes: one per matching right row.
pub open spec fn pairs_with(l: Seq<ValModel>, ms: Seq<Seq<ValModel>>) -> Seq<
    (Seq<ValModel>, Seq<Option<ValModel>>),
> {
    ms.map_values(|m: Seq<ValModel>| (l, some_row(m)))
}

/// The inner-join pair list: every left row with each of its matches.
pub open spec fn inner_pairs(
    lrows: Seq<Seq<ValModel>>,
    rrows: Seq<Seq<ValModel>>,
    li: int,
    ri: int,
) -> Seq<(Seq<ValModel>, Seq<Option<ValModel>>)>
    decreases lrows.len(),
{
    if lrows.len() == 0 {
        Seq::empty()
    } else {
        inner_pairs(lrows.drop_last(), rrows, li, ri) + pairs_with(
            lrows.last(),
            matches_of(lrows.last(), rrows, li, ri),
        )
    }
}

/// The left-join pair list: an unmatched left row pairs with an all-null
/// right counterpart.
pub open spec fn left_pairs(
    lrows: Seq<Seq<ValModel>>,
    rrows: Seq<Seq<ValModel>>,
    li: int,
    ri: int,
    rw: int,
) -> Seq<(Seq<ValModel>, Seq<Option<ValModel>>)>
    decreases lrows.len(),
{
    if lrows.len() == 0 {
        Seq::empty()
    } else {
        let ms = matches_of(lrows.last(), rrows, li, ri);
        left_pairs(lrows.drop_last(), rrows, li, ri, rw) + (if ms.len() == 0 {
            seq![(lrows.last(), nulls(rw))]
        } else {
            pairs_with(lrows.last(), ms)
        })
    }
}

/// The matched pairs one right row contributes in a right join.
pub open spec fn pairs_with_right(ms: Seq<Seq<ValModel>>, r: Seq<ValModel>) -> Seq<
    (Seq<Option<ValModel>>, Seq<ValModel>),
> {
    ms.map_values(|m: Seq<ValModel>| (some_row(m), r))
}

/// The left rows matching a right row.
pub open spec fn matches_of_left(
    rrow: Seq<ValModel>,
    lrows: Seq<Seq<ValModel>>,
    li: int,
    ri: int,
) -> Seq<Seq<ValModel>>
    decreases lrows.len(),
{
    if lrows.len() == 0 {
        Seq::empty()
    } else {
        let rest = matches_of_left(rrow, lrows.drop_last(), li, ri);
        if val_eq(lrows.last()[li], rrow[ri]) {
            rest.push(lrows.last())
        } else {
            rest
        }
    }
}

/// The right-join pair list: an unmatched right row pairs with an all-null
/// left counterpart.
pub open spec fn right_pairs(
    lrows: Seq<Seq<ValModel>>,
    rrows: Seq<Seq<ValModel>>,
    li: int,
    ri: int,
    lw: int,
) -> Seq<(Seq<Option<ValModel>>, Seq<ValModel>)>
    decreases rrows.len(),
{
    if rrows.len() == 0 {
        Seq::empty()
    } else {
        let ms = matches_of_left(rrows.last(), lrows, li, ri);
        right_pairs(lrows, rrows.drop_last(), li, ri, lw) + (if ms.len() == 0 {
            seq![(nulls(lw), rrows.last())]
        } else {
            pairs_with_right(ms, rrows.last())
        })
    }
}

/// The left half of a full outer join: like a left join, with both sides
/// optional.
pub open spec fn full_left_pairs(
    lrows: Seq<Seq<ValModel>>,
    rrows: Seq<Seq<ValModel>>,
    li: int,
    ri: int,
    rw: int,
) -> Seq<(Seq<Option<ValModel>>, Seq<Option<ValModel>>)>
    decreases lrows.len(),
{
    if lrows.len() == 0 {
        Seq::empty()
    } else {
        let ms = matches_of(lrows.last(), rrows, li, ri);
        full_left_pairs(lrows.drop_last(), rrows, li, ri, rw) + (if ms.len() == 0 {
            seq![(some_row(lrows.last()), nulls(rw))]
        } else {
            ms.map_values(|m: Seq<ValModel>| (some_row(lrows.last()), some_row(m)))
        })
    }
}

/// The trailing rows of a full outer join: every right row no left row
/// matches, padded on the left.
pub open spec fn full_right_leftovers(
    lrows: Seq<Seq<ValModel>>,
    rrows: Seq<Seq<ValModel>>,
    li: int,
    ri: int,
    lw: int,
) -> Seq<(Seq<Option<ValModel>>, Seq<Option<ValModel>>)>
    decreases rrows.len(),
{
    if rrows.len() == 0 {
        Seq::empty()
    } else {
        let rest = full_right_leftovers(lrows, rrows.drop_last(), li, ri, lw);
        if matches_of_left(rrows.last(), lrows, li, ri).len() == 0 {
            rest.push((nulls(lw), some_row(rrows.last())))
        } else {
            rest
        }
    }
}

/// A row cloned and wrapped value-by-value in `Some`.
#[verifier::loop_isolation(false)]
pub fn some_row_vec(r: &Vec<Value>) -> (out: Vec<Option<Value>>)
    ensures
        out.deep_view() == some_row(r.deep_view()),
{
    let mut out: Vec<Option<Value>> = Vec::new();
    let mut i: usize = 0;
    while i < r.len()
        invariant
            i <= r@.len(),
            out.deep_view().len() == i,
            forall|j: int|
                0 <= j < i ==> #[trigger] out.deep_view()[j] == Some(r.deep_view()[j]),
        decreases r@.len() - i,
    {
        let ghost prev = out.deep_view();
        out.push(Some(r[i].clone()));
        proof {
            assert(out.deep_view() =~~= prev.push(Some(r@[i as int]@)));
        }
        i = i + 1;
    }
    proof {
        assert(out.deep_view() =~~= some_row(r.deep_view()));
    }
    out
}

/// An all-null row of the given width.
#[verifier::loop_isolation(false)]
pub fn nulls_vec(w: usize) -> (out: Vec<Option<Value>>)
    ensures
        out.deep_view() == nulls(w as int),
{
    let mut out: Vec<Option<Value>> = Vec::new();
    let mut i: usize = 0;
    while i < w
        invariant
            i <= w,
            out.deep_view().len() == i,
            forall|j: int| 0 <= j < i ==> #[trigger] out.deep_view()[j] is None,
        decreases w - i,
    {
        let ghost prev = out.deep_view();
        out.push(None);
        proof {
            assert(out.deep_view() =~~= prev.push(None::<ValModel>));
        }
        i = i + 1;
    }
    proof {
        assert(out.deep_view() =~~= nulls(w as int));
    }
    out
}

impl Table {
    /// The inner join on one (left column, right column) pair: every pair
    /// of rows agreeing on the join columns, in left-major order. Fails
    /// exactly when either column is missing from its table.
    #[verifier::loop_isolation(false)]
    pub fn inner_join(&self, other: &Table, on: (&str, &str)) -> (r: Result<
        Vec<(Vec<Value>, Vec<Option<Value>>)>,
        DbError,
    >)
        requires
            self.rows_aligned(),
            other.rows_aligned(),
        ensures
            r is Ok <==> (col_position(self.cols_model(), on.0@) is Some && col_position(
                other.cols_model(),
                on.1@,
            ) is Some),
            r is Err ==> r->Err_0 is ColumnNotFound,
            r matches Ok(out) ==> out.deep_view() == inner_pairs(
                self.rows_model(),
                other.rows_model(),
                col_position(self.cols_model(), on.0@)->0,
                col_position(other.cols_model(), on.1@)->0,
            ),
    {
        let li = match self.find_column(on.0) {
            Some(i) => i,
            None => {
                return Err(
                    DbError::ColumnNotFound(msg3("Column '", on.0, "' not found")),
                );
            },
        };
        let ri = match other.find_column(on.1) {
            Some(i) => i,
            None => {
                return Err(
                    DbError::ColumnNotFound(msg3("Column '", on.1, "' not found")),
                );
            },
        };
        let ghost ld = self.rows_model();
        let ghost rd = other.rows_model();
        let mut out: Vec<(Vec<Value>, Vec<Option<Value>>)> = Vec::new();
        let mut a: usize = 0;
        while a < self.rows.len()
            invariant
                a <= self.rows@.len(),
                out.deep_view() == inner_pairs(
                    ld.subrange(0, a as int),
                    rd,
                    li as int,
                    ri as int,
                ),
            decreases self.rows@.len() - a,
        {
            proof {
                assert(ld[a as int].len() == self.rows@[a as int]@.len());
                assert(ld.subrange(0, a as int + 1).drop_last() =~= ld.subrange(0, a as int));
                assert(ld.subrange(0, a as int + 1).last() == ld[a as int]);
            }
            let mut b: usize = 0;
            while b < other.rows.len()
                invariant
                    a < self.rows@.len(),
                    b <= other.rows@.len(),
                    out.deep_view() == inner_pairs(
                        ld.subrange(0, a as int),
                        rd,
                        li as int,
                        ri as int,
                    ) + pairs_with(
                        ld[a as int],
                        matches_of(ld[a as int], rd.subrange(0, b as int), li as int, ri as int),
                    ),
                decreases other.rows@.len() - b,
            {
                proof {
                    assert(rd[b as int].len() == other.rows@[b as int]@.len());
                    assert(rd.subrange(0, b as int + 1).drop_last() =~= rd.subrange(0, b as int));
                    assert(rd.subrange(0, b as int + 1).last() == rd[b as int]);
                }
                let ghost prev = out.deep_view();
                let ghost hit = val_eq(rd[b as int][ri as int], ld[a as int][li as int]);
                if other.rows[b][ri].eq_val(&self.rows[a][li]) {
                    let pair = (clone_row(&self.rows[a]), some_row_vec(&other.rows[b]));
                    proof {
                        assert(pair.deep_view() == (ld[a as int], some_row(rd[b as int])));
                    }
                    out.push(pair);
                    proof {
                        assert(out.deep_view() =~~= prev.push(
                            (ld[a as int], some_row(rd[b as int])),
                        ));
                    }
                }
                proof {
                    let ms0 = matches_of(
                        ld[a as int],
                        rd.subrange(0, b as int),
                        li as int,
                        ri as int,
                    );
                    let ms1 = matches_of(
                        ld[a as int],
                        rd.subrange(0, b as int + 1),
                        li as int,
                        ri as int,
                    );
                    if hit {
                        assert(ms1 == ms0.push(rd[b as int]));
                        assert(pairs_with(ld[a as int], ms1) =~~= pairs_with(
                            ld[a as int],
                            ms0,
                        ).push((ld[a as int], some_row(rd[b as int]))));
                    } else {
                        assert(ms1 == ms0);
                    }
                    assert(out.deep_view() =~~= inner_pairs(
                        ld.subrange(0, a as int),
                        rd,
                        li as int,
                        ri as int,
                    ) + pairs_with(ld[a as int], ms1));
                }
                b = b + 1;
            }
            proof {
                assert(rd.subrange(0, rd.len() as int) =~= rd);
                assert(out.deep_view() =~~= inner_pairs(
                    ld.subrange(0, a as int + 1),
                    rd,
                    li as int,
                    ri as int,
                ));
            }
            a = a + 1;
        }
        proof {
            assert(ld.subrange(0, ld.len() as int) =~= ld);
        }
        Ok(out)
    }

    /// The left join on one column pair: like the inner join, except that a
    /// left row with no match pairs once with an all-null right
    /// counterpart.
    #[verifier::loop_isolation(false)]
    pub fn left_join(&self, other: &Table, on: (&str, &str)) -> (r: Result<
        Vec<(Vec<Value>, Vec<Option<Value>>)>,
        DbError,
    >)
        requires
            self.rows_aligned(),
            other.rows_aligned(),
        ensures
            r is Ok <==> (col_position(self.cols_model(), on.0@) is Some && col_position(
                other.cols_model(),
                on.1@,
            ) is Some),
            r is Err ==> r->Err_0 is ColumnNotFound,
            r matches Ok(out) ==> out.deep_view() == left_pairs(
                self.rows_model(),
                other.rows_model(),
                col_position(self.cols_model(), on.0@)->0,
                col_position(other.cols_model(), on.1@)->0,
                other.cols_model().len() as int,
            ),
    {
        let li = match self.find_column(on.0) {
            Some(i) => i,
            None => {
                return Err(
                    DbError::ColumnNotFound(msg3("Column '", on.0, "' not found")),
                );
            },
        };
        let ri = match other.find_column(on.1) {
            Some(i) => i,
            None => {
                return Err(
                    DbError::ColumnNotFound(msg3("Column '", on.1, "' not found")),
                );
            },
        };
        let ghost ld = self.rows_model();
        let ghost rd = other.rows_model();
        let ghost rw = other.cols_model().len() as int;
        let mut out: Vec<(Vec<Value>, Vec<Option<Value>>)> = Vec::new();
        let mut a: usize = 0;
        while a < self.rows.len()
            invariant
                a <= self.rows@.len(),
                out.deep_view() == left_pairs(
                    ld.subrange(0, a as int),
                    rd,
                    li as int,
                    ri as int,
                    rw,
                ),
            decreases self.rows@.len() - a,
        {
            proof {
                assert(ld[a as int].len() == self.rows@[a as int]@.len());
                assert(ld.subrange(0, a as int + 1).drop_last() =~= ld.subrange(0, a as int));
                assert(ld.subrange(0, a as int + 1).last() == ld[a as int]);
            }
            let mut matched = false;
            let mut b: usize = 0;
            while b < other.rows.len()
                invariant
                    a < self.rows@.len(),
                    b <= other.rows@.len(),
                    matched == (matches_of(
                        ld[a as int],
                        rd.subrange(0, b as int),
                        li as int,
                        ri as int,
                    ).len() > 0),
                    out.deep_view() == left_pairs(
                        ld.subrange(0, a as int),
                        rd,
                        li as int,
                        ri as int,
                        rw,
                    ) + pairs_with(
                        ld[a as int],
                        matches_of(ld[a as int], rd.subrange(0, b as int), li as int, ri as int),
                    ),
                decreases other.rows@.len() - b,
            {
                proof {
                    assert(rd[b as int].len() == other.rows@[b as int]@.len());
                    assert(rd.subrange(0, b as int + 1).drop_last() =~= rd.subrange(0, b as int));
                    assert(rd.subrange(0, b as int + 1).last() == rd[b as int]);
                }
                let ghost prev = out.deep_view();
                let ghost hit = val_eq(rd[b as int][ri as int], ld[a as int][li as int]);
                if other.rows[b][ri].eq_val(&self.rows[a][li]) {
                    let pair = (clone_row(&self.rows[a]), some_row_vec(&other.rows[b]));
                    proof {
                        assert(pair.deep_view() == (ld[a as int], some_row(rd[b as int])));
                    }
                    out.push(pair);
                    matched = true;
                    proof {
                        assert(out.deep_view() =~~= prev.push(
                            (ld[a as int], some_row(rd[b as int])),
                        ));
                    }
                }
                proof {
                    let ms0 = matches_of(
                        ld[a as int],
                        rd.subrange(0, b as int),
                        li as int,
                        ri as int,
                    );
                    let ms1 = matches_of(
                        ld[a as int],
                        rd.subrange(0, b as int + 1),
                        li as int,
                        ri as int,
                    );
                    if hit {
                        assert(ms1 == ms0.push(rd[b as int]));
                        assert(pairs_with(ld[a as int], ms1) =~~= pairs_with(
                            ld[a as int],
                            ms0,
                        ).push((ld[a as int], some_row(rd[b as int]))));
                    } else {
                        assert(ms1 == ms0);
                    }
                    assert(out.deep_view() =~~= left_pairs(
                        ld.subrange(0, a as int),
                        rd,
                        li as int,
                        ri as int,
                        rw,
                    ) + pairs_with(ld[a as int], ms1));
                }
                b = b + 1;
            }
            proof {
                assert(rd.subrange(0, rd.len() as int) =~= rd);
            }
            let ghost prev2 = out.deep_view();
            if !matched {
                let pair = (clone_row(&self.rows[a]), nulls_vec(other.columns.len()));
                proof {
                    assert(pair.deep_view() == (ld[a as int], nulls(rw)));
                }
                out.push(pair);
                proof {
                    assert(out.deep_view() =~~= prev2.push((ld[a as int], nulls(rw))));
                    assert(prev2.push((ld[a as int], nulls(rw))) =~~= prev2 + seq![
                        (ld[a as int], nulls(rw)),
                    ]);
                }
            }
            proof {
                assert(out.deep_view() =~~= left_pairs(
                    ld.subrange(0, a as int + 1),
                    rd,
                    li as int,
                    ri as int,
                    rw,
                ));
            }
            a = a + 1;
        }
        proof {
            assert(ld.subrange(0, ld.len() as int) =~= ld);
        }
        Ok(out)
    }

    /// The right join on one column pair: like the inner join in
    /// right-major order, except that a right row with no match pairs once
    /// with an all-null left counterpart.
    #[verifier::loop_isolation(false)]
    pub fn right_join(&self, other: &Table, on: (&str, &str)) -> (r: Result<
        Vec<(Vec<Option<Value>>, Vec<Value>)>,
        DbError,
    >)
        requires
            self.rows_aligned(),
            other.rows_aligned(),
        ensures
            r is Ok <==> (col_position(self.cols_model(), on.0@) is Some && col_position(
                other.cols_model(),
                on.1@,
            ) is Some),
            r is Err ==> r->Err_0 is ColumnNotFound,
            r matches Ok(out) ==> out.deep_view() == right_pairs(
                self.rows_model(),
                other.rows_model(),
                col_position(self.cols_model(), on.0@)->0,
                col_position(other.cols_model(), on.1@)->0,
                self.cols_model().len() as int,
            ),
    {
        let li = match self.find_column(on.0) {
            Some(i) => i,
            None => {
                return Err(
                    DbError::ColumnNotFound(msg3("Column '", on.0, "' not found")),
                );
            },
        };
        let ri = match other.find_column(on.1) {
            Some(i) => i,
            None => {
                return Err(
                    DbError::ColumnNotFound(msg3("Column '", on.1, "' not found")),
                );
            },
        };
        let ghost ld = self.rows_model();
        let ghost rd = other.rows_model();
        let ghost lw = self.cols_model().len() as int;
        let mut out: Vec<(Vec<Option<Value>>, Vec<Value>)> = Vec::new();
        let mut b: usize = 0;
        while b < other.rows.len()
            invariant
                b <= other.rows@.len(),
                out.deep_view() == right_pairs(
                    ld,
                    rd.subrange(0, b as int),
                    li as int,
                    ri as int,
                    lw,
                ),
            decreases other.rows@.len() - b,
        {
            proof {
                assert(rd[b as int].len() == other.rows@[b as int]@.len());
                assert(rd.subrange(0, b as int + 1).drop_last() =~= rd.subrange(0, b as int));
                assert(rd.subrange(0, b as int + 1).last() == rd[b as int]);
            }
            let mut matched = false;
            let mut a: usize = 0;
            while a < self.rows.len()
                invariant
                    b < other.rows@.len(),
                    a <= self.rows@.len(),
                    matched == (matches_of_left(
                        rd[b as int],
                        ld.subrange(0, a as int),
                        li as int,
                        ri as int,
                    ).len() > 0),
                    out.deep_view() == right_pairs(
                        ld,
                        rd.subrange(0, b as int),
                        li as int,
                        ri as int,
                        lw,
                    ) + pairs_with_right(
                        matches_of_left(
                            rd[b as int],
                            ld.subrange(0, a as int),
                            li as int,
                            ri as int,
                        ),
                        rd[b as int],
                    ),
                decreases self.rows@.len() - a,
            {
                proof {
                    assert(ld[a as int].len() == self.rows@[a as int]@.len());
                    assert(ld.subrange(0, a as int + 1).drop_last() =~= ld.subrange(0, a as int));
                    assert(ld.subrange(0, a as int + 1).last() == ld[a as int]);
                }
                let ghost prev = out.deep_view();
                let ghost hit = val_eq(ld[a as int][li as int], rd[b as int][ri as int]);
                if self.rows[a][li].eq_val(&other.rows[b][ri]) {
                    let pair = (some_row_vec(&self.rows[a]), clone_row(&other.rows[b]));
                    proof {
                        assert(pair.deep_view() == (some_row(ld[a as int]), rd[b as int]));
                    }
                    out.push(pair);
                    matched = true;
                    proof {
                        assert(out.deep_view() =~~= prev.push(
                            (some_row(ld[a as int]), rd[b as int]),
                        ));
                    }
                }
                proof {
                    let ms0 = matches_of_left(
                        rd[b as int],
                        ld.subrange(0, a as int),
                        li as int,
                        ri as int,
                    );
                    let ms1 = matches_of_left(
                        rd[b as int],
                        ld.subrange(0, a as int + 1),
                        li as int,
                        ri as int,
                    );
                    if hit {
                        assert(ms1 == ms0.push(ld[a as int]));
                        assert(pairs_with_right(ms1, rd[b as int]) =~~= pairs_with_right(
                            ms0,
                            rd[b as int],
                        ).push((some_row(ld[a as int]), rd[b as int])));
                    } else {
                        assert(ms1 == ms0);
                    }
                    assert(out.deep_view() =~~= right_pairs(
                        ld,
                        rd.subrange(0, b as int),
                        li as int,
                        ri as int,
                        lw,
                    ) + pairs_with_right(ms1, rd[b as int]));
                }
                a = a + 1;
            }
            proof {
                assert(ld.subrange(0, ld.len() as int) =~= ld);
            }
            let ghost prev2 = out.deep_view();
            if !matched {
                let pair = (nulls_vec(self.columns.len()), clone_row(&other.rows[b]));
                proof {
                    assert(pair.deep_view() == (nulls(lw), rd[b as int]));
                }
                out.push(pair);
                proof {
                    assert(out.deep_view() =~~= prev2.push((nulls(lw), rd[b as int])));
                    assert(prev2.push((nulls(lw), rd[b as int])) =~~= prev2 + seq![
                        (nulls(lw), rd[b as int]),
                    ]);
                }
            }
            proof {
                assert(out.deep_view() =~~= right_pairs(
                    ld,
                    rd.subrange(0, b as int + 1),
                    li as int,
                    ri as int,
                    lw,
                ));
            }
            b = b + 1;
        }
        proof {
            assert(rd.subrange(0, rd.len() as int) =~= rd);
        }
        Ok(out)
    }

    /// The full outer join on one column pair: every matched pair, every
    /// unmatched left row padded on the right, then every unmatched right
    /// row padded on the left.
    #[verifier::loop_isolation(false)]
    pub fn full_outer_join(&self, other: &Table, on: (&str, &str)) -> (r: Result<
        Vec<(Vec<Option<Value>>, Vec<Option<Value>>)>,
        DbError,
    >)
        requires
            self.rows_aligned(),
            other.rows_aligned(),
        ensures
            r is Ok <==> (col_position(self.cols_model(), on.0@) is Some && col_position(
                other.cols_model(),
                on.1@,
            ) is Some),
            r is Err ==> r->Err_0 is ColumnNotFound,
            r matches Ok(out) ==> out.deep_view() == full_left_pairs(
                self.rows_model(),
                other.rows_model(),
                col_position(self.cols_model(), on.0@)->0,
                col_position(other.cols_model(), on.1@)->0,
                other.cols_model().len() as int,
            ) + full_right_leftovers(
                self.rows_model(),
                other.rows_model(),
                col_position(self.cols_model(), on.0@)->0,
                col_position(other.cols_model(), on.1@)->0,
                self.cols_model().len() as int,
            ),
    {
        let li = match self.find_column(on.0) {
            Some(i) => i,
            None => {
                return Err(
                    DbError::ColumnNotFound(msg3("Column '", on.0, "' not found")),
                );
            },
        };
        let ri = match other.find_column(on.1) {
            Some(i) => i,
            None => {
                return Err(
                    DbError::ColumnNotFound(msg3("Column '", on.1, "' not found")),
                );
            },
        };
        let ghost ld = self.rows_model();
        let ghost rd = other.rows_model();
        let ghost rw = other.cols_model().len() as int;
        let ghost lw = self.cols_model().len() as int;
        let mut out: Vec<(Vec<Option<Value>>, Vec<Option<Value>>)> = Vec::new();
        let mut a: usize = 0;
        while a < self.rows.len()
            invariant
                a <= self.rows@.len(),
                out.deep_view() == full_left_pairs(
                    ld.subrange(0, a as int),
                    rd,
                    li as int,
                    ri as int,
                    rw,
                ),
            decreases self.rows@.len() - a,
        {
            proof {
                assert(ld[a as int].len() == self.rows@[a as int]@.len());
                assert(ld.subrange(0, a as int + 1).drop_last() =~= ld.subrange(0, a as int));
                assert(ld.subrange(0, a as int + 1).last() == ld[a as int]);
            }
            let mut matched = false;
            let mut b: usize = 0;
            while b < other.rows.len()
                invariant
                    a < self.rows@.len(),
                    b <= other.rows@.len(),
                    matched == (matches_of(
                        ld[a as int],
                        rd.subrange(0, b as int),
                        li as int,
                        ri as int,
                    ).len() > 0),
                    out.deep_view() == full_left_pairs(
                        ld.subrange(0, a as int),
                        rd,
                        li as int,
                        ri as int,
                        rw,
                    ) + matches_of(
                        ld[a as int],
                        rd.subrange(0, b as int),
                        li as int,
                        ri as int,
                    ).map_values(
                        |m: Seq<ValModel>| (some_row(ld[a as int]), some_row(m)),
                    ),
                decreases other.rows@.len() - b,
            {
                proof {
                    assert(rd[b as int].len() == other.rows@[b as int]@.len());
                    assert(rd.subrange(0, b as int + 1).drop_last() =~= rd.subrange(0, b as int));
                    assert(rd.subrange(0, b as int + 1).last() == rd[b as int]);
                }
                let ghost prev = out.deep_view();
                let ghost hit = val_eq(rd[b as int][ri as int], ld[a as int][li as int]);
                if other.rows[b][ri].eq_val(&self.rows[a][li]) {
                    let pair = (some_row_vec(&self.rows[a]), some_row_vec(&other.rows[b]));
                    proof {
                        assert(pair.deep_view() == (
                            some_row(ld[a as int]),
                            some_row(rd[b as int]),
                        ));
                    }
                    out.push(pair);
                    matched = true;
                    proof {
                        assert(out.deep_view() =~~= prev.push(
                            (some_row(ld[a as int]), some_row(rd[b as int])),
                        ));
                    }
                }
                proof {
                    let ms0 = matches_of(
                        ld[a as int],
                        rd.subrange(0, b as int),
                        li as int,
                        ri as int,
                    );
                    let ms1 = matches_of(
                        ld[a as int],
                        rd.subrange(0, b as int + 1),
                        li as int,
                        ri as int,
                    );
                    let f = |m: Seq<ValModel>| (some_row(ld[a as int]), some_row(m));
                    if hit {
                        assert(ms1 == ms0.push(rd[b as int]));
                        assert(ms1.map_values(f) =~~= ms0.map_values(f).push(
                            (some_row(ld[a as int]), some_row(rd[b as int])),
                        ));
                    } else {
                        assert(ms1 == ms0);
                    }
                    assert(out.deep_view() =~~= full_left_pairs(
                        ld.subrange(0, a as int),
                        rd,
                        li as int,
                        ri as int,
                        rw,
                    ) + ms1.map_values(f));
                }
                b = b + 1;
            }
            proof {
                assert(rd.subrange(0, rd.len() as int) =~= rd);
            }
            let ghost prev2 = out.deep_view();
            if !matched {
                let pair = (some_row_vec(&self.rows[a]), nulls_vec(other.columns.len()));
                proof {
                    assert(pair.deep_view() == (some_row(ld[a as int]), nulls(rw)));
                }
                out.push(pair);
                proof {
                    assert(out.deep_view() =~~= prev2.push(
                        (some_row(ld[a as int]), nulls(rw)),
                    ));
                    assert(prev2.push((some_row(ld[a as int]), nulls(rw))) =~~= prev2 + seq![
                        (some_row(ld[a as int]), nulls(rw)),
                    ]);
                }
            }
            proof {
                assert(out.deep_view() =~~= full_left_pairs(
                    ld.subrange(0, a as int + 1),
                    rd,
                    li as int,
                    ri as int,
                    rw,
                ));
            }
            a = a + 1;
        }
        proof {
            assert(ld.subrange(0, ld.len() as int) =~= ld);
        }
        let mut b: usize = 0;
        while b < other.rows.len()
            invariant
                b <= other.rows@.len(),
                out.deep_view() == full_left_pairs(ld, rd, li as int, ri as int, rw)
                    + full_right_leftovers(
                    ld,
                    rd.subrange(0, b as int),
                    li as int,
                    ri as int,
                    lw,
                ),
            decreases other.rows@.len() - b,
        {
            proof {
                assert(rd[b as int].len() == other.rows@[b as int]@.len());
                assert(rd.subrange(0, b as int + 1).drop_last() =~= rd.subrange(0, b as int));
                assert(rd.subrange(0, b as int + 1).last() == rd[b as int]);
            }
            let mut matched = false;
            let mut a2: usize = 0;
            while a2 < self.rows.len()
                invariant
                    b < other.rows@.len(),
                    a2 <= self.rows@.len(),
                    matched == (matches_of_left(
                        rd[b as int],
                        ld.subrange(0, a2 as int),
                        li as int,
                        ri as int,
                    ).len() > 0),
                decreases self.rows@.len() - a2,
            {
                proof {
                    assert(ld[a2 as int].len() == self.rows@[a2 as int]@.len());
                    assert(ld.subrange(0, a2 as int + 1).drop_last() =~= ld.subrange(
                        0,
                        a2 as int,
                    ));
                    assert(ld.subrange(0, a2 as int + 1).last() == ld[a2 as int]);
                }
                if self.rows[a2][li].eq_val(&other.rows[b][ri]) {
                    matched = true;
                }
                a2 = a2 + 1;
            }
            proof {
                assert(ld.subrange(0, ld.len() as int) =~= ld);
            }
            let ghost prev3 = out.deep_view();
            if !matched {
                let pair = (nulls_vec(self.columns.len()), some_row_vec(&other.rows[b]));
                proof {
                    assert(pair.deep_view() == (nulls(lw), some_row(rd[b as int])));
                }
                out.push(pair);
                proof {
                    assert(out.deep_view() =~~= prev3.push(
                        (nulls(lw), some_row(rd[b as int])),
                    ));
                }
            }
            proof {
                assert(out.deep_view() =~~= full_left_pairs(ld, rd, li as int, ri as int, rw)
                    + full_right_leftovers(
                    ld,
                    rd.subrange(0, b as int + 1),
                    li as int,
                    ri as int,
                    lw,
                ));
            }
            b = b + 1;
        }
        proof {
            assert(rd.subrange(0, rd.len() as int) =~= rd);
        }
        Ok(out)
    }
}

/// Every listed position pair lies inside the given widths.
pub open spec fn idxs_bounded(lis: Seq<usize>, ris: Seq<usize>, lw: int, rw: int) -> bool {
    forall|k: int|
        0 <= k < lis.len() ==> (#[trigger] lis[k] as int) < lw && k < ris.len() && (
        ris[k] as int) < rw
}

/// Whether two rows agree on every listed column pair.
pub open spec fn multi_match(
    lrow: Seq<ValModel>,
    rrow: Seq<ValModel>,
    lis: Seq<int>,
    ris: Seq<int>,
) -> bool {
    forall|k: int| 0 <= k < lis.len() ==> val_eq(lrow[#[trigger] lis[k]], rrow[ris[k]])
}

/// The right rows matching a left row on every column pair.
pub open spec fn matches_of_multi(
    lrow: Seq<ValModel>,
    rrows: Seq<Seq<ValModel>>,
    lis: Seq<int>,
    ris: Seq<int>,
) -> Seq<Seq<ValModel>>
    decreases rrows.len(),
{
    if rrows.len() == 0 {
        Seq::empty()
    } else {
        let rest = matches_of_multi(lrow, rrows.drop_last(), lis, ris);
        if multi_match(lrow, rrows.last(), lis, ris) {
            rest.push(rrows.last())
        } else {
            rest
        }
    }
}

/// The left rows matching a right row on every column pair.
pub open spec fn matches_of_left_multi(
    rrow: Seq<ValModel>,
    lrows: Seq<Seq<ValModel>>,
    lis: Seq<int>,
    ris: Seq<int>,
) -> Seq<Seq<ValModel>>
    decreases lrows.len(),
{
    if lrows.len() == 0 {
        Seq::empty()
    } else {
        let rest = matches_of_left_multi(rrow, lrows.drop_last(), lis, ris);
        if multi_match(lrows.last(), rrow, lis, ris) {
            rest.push(lrows.last())
        } else {
            rest
        }
    }
}

/// The multi-key inner-join pair list, both sides plain.
pub open spec fn inner_pairs_multi(
    lrows: Seq<Seq<ValModel>>,
    rrows: Seq<Seq<ValModel>>,
    lis: Seq<int>,
    ris: Seq<int>,
) -> Seq<(Seq<ValModel>, Seq<ValModel>)>
    decreases lrows.len(),
{
    if lrows.len() == 0 {
        Seq::empty()
    } else {
        inner_pairs_multi(lrows.drop_last(), rrows, lis, ris) + matches_of_multi(
            lrows.last(),
            rrows,
            lis,
            ris,
        ).map_values(|m: Seq<ValModel>| (lrows.last(), m))
    }
}

/// The multi-key left-join pair list.
pub open spec fn left_pairs_multi(
    lrows: Seq<Seq<ValModel>>,
    rrows: Seq<Seq<ValModel>>,
    lis: Seq<int>,
    ris: Seq<int>,
    rw: int,
) -> Seq<(Seq<ValModel>, Seq<Option<ValModel>>)>
    decreases lrows.len(),
{
    if lrows.len() == 0 {
        Seq::empty()
    } else {
        let ms = matches_of_multi(lrows.last(), rrows, lis, ris);
        left_pairs_multi(lrows.drop_last(), rrows, lis, ris, rw) + (if ms.len() == 0 {
            seq![(lrows.last(), nulls(rw))]
        } else {
            pairs_with(lrows.last(), ms)
        })
    }
}

/// The multi-key right-join pair list.
pub open spec fn right_pairs_multi(
    lrows: Seq<Seq<ValModel>>,
    rrows: Seq<Seq<ValModel>>,
    lis: Seq<int>,
    ris: Seq<int>,
    lw: int,
) -> Seq<(Seq<Option<ValModel>>, Seq<ValModel>)>
    decreases rrows.len(),
{
    if rrows.len() == 0 {
        Seq::empty()
    } else {
        let ms = matches_of_left_multi(rrows.last(), lrows, lis, ris);
        right_pairs_multi(lrows, rrows.drop_last(), lis, ris, lw) + (if ms.len() == 0 {
            seq![(nulls(lw), rrows.last())]
        } else {
            pairs_with_right(ms, rrows.last())
        })
    }
}

/// One multi-key comparison.
#[verifier::loop_isolation(false)]
fn multi_match_exec(
    lrow: &Vec<Value>,
    rrow: &Vec<Value>,
    lis: &Vec<usize>,
    ris: &Vec<usize>,
) -> (r: bool)
    requires
        lis@.len() == ris@.len(),
        idxs_bounded(lis@, ris@, lrow.deep_view().len() as int, rrow.deep_view().len() as int),
    ensures
        r == multi_match(
            lrow.deep_view(),
            rrow.deep_view(),
            lis@.map_values(|u: usize| u as int),
            ris@.map_values(|u: usize| u as int),
        ),
{
    let ghost lk = lis@.map_values(|u: usize| u as int);
    let ghost rk = ris@.map_values(|u: usize| u as int);
    let mut k: usize = 0;
    while k < lis.len()
        invariant
            k <= lis@.len(),
            forall|k2: int|
                0 <= k2 < k ==> val_eq(
                    lrow.deep_view()[#[trigger] lk[k2]],
                    rrow.deep_view()[rk[k2]],
                ),
        decreases lis@.len() - k,
    {
        let li = lis[k];
        let ri = ris[k];
        proof {
            assert(lrow.deep_view()[li as int] == lrow@[li as int]@);
            assert(rrow.deep_view()[ri as int] == rrow@[ri as int]@);
        }
        if !lrow[li].eq_val(&rrow[ri]) {
            proof {
                assert(!val_eq(lrow.deep_view()[lk[k as int]], rrow.deep_view()[rk[k as int]]));
            }
            return false;
        }
        k = k + 1;
    }
    true
}

impl Table {
    /// Resolves each (left, right) column-pair name to positions; fails on
    /// the first missing column.
    #[verifier::loop_isolation(false)]
    fn resolve_on(&self, other: &Table, on: &Vec<(String, String)>) -> (r: Result<
        (Vec<usize>, Vec<usize>),
        DbError,
    >)
        ensures
            r is Ok <==> (forall|k: int|
                0 <= k < on@.len() ==> col_position(
                    self.cols_model(),
                    (#[trigger] on@[k]).0@,
                ) is Some && col_position(other.cols_model(), on@[k].1@) is Some),
            r is Err ==> r->Err_0 is ColumnNotFound,
            r matches Ok(idxs) ==> idxs.0@.len() == on@.len() && idxs.1@.len() == on@.len() && (
            forall|k: int|
                0 <= k < on@.len() ==> col_position(self.cols_model(), (#[trigger] on@[k]).0@)
                    == Some(idxs.0@[k] as int) && col_position(other.cols_model(), on@[k].1@)
                    == Some(idxs.1@[k] as int) && (idxs.0@[k] as int) < self.cols_model().len()
                    && (idxs.1@[k] as int) < other.cols_model().len()),
    {
        let mut lis: Vec<usize> = Vec::new();
        let mut ris: Vec<usize> = Vec::new();
        let mut k: usize = 0;
        while k < on.len()
            invariant
                k <= on@.len(),
                lis@.len() == k,
                ris@.len() == k,
                forall|k2: int|
                    0 <= k2 < k ==> col_position(
                        self.cols_model(),
                        (#[trigger] on@[k2]).0@,
                    ) == Some(lis@[k2] as int) && col_position(other.cols_model(), on@[k2].1@)
                        == Some(ris@[k2] as int) && (lis@[k2] as int) < self.cols_model().len()
                        && (ris@[k2] as int) < other.cols_model().len(),
            decreases on@.len() - k,
        {
            match self.find_column(on[k].0.as_str()) {
                Some(i) => {
                    lis.push(i);
                },
                None => {
                    return Err(
                        DbError::ColumnNotFound(msg3("Column '", on[k].0.as_str(), "' not found")),
                    );
                },
            }
            match other.find_column(on[k].1.as_str()) {
                Some(i) => {
                    ris.push(i);
                },
                None => {
                    return Err(
                        DbError::ColumnNotFound(msg3("Column '", on[k].1.as_str(), "' not found")),
                    );
                },
            }
            k = k + 1;
        }
        Ok((lis, ris))
    }

    /// The inner join over an ordered list of column pairs: every pair of
    /// rows agreeing on all of them, in left-major order.
    #[verifier::loop_isolation(false)]
    pub fn inner_join_multi(&self, other: &Table, on: &Vec<(String, String)>) -> (r: Result<
        Vec<(Vec<Value>, Vec<Value>)>,
        DbError,
    >)
        requires
            self.rows_aligned(),
            other.rows_aligned(),
        ensures
            r is Ok <==> (forall|k: int|
                0 <= k < on@.len() ==> col_position(
                    self.cols_model(),
                    (#[trigger] on@[k]).0@,
                ) is Some && col_position(other.cols_model(), on@[k].1@) is Some),
            r is Err ==> r->Err_0 is ColumnNotFound,
            r matches Ok(out) ==> out.deep_view() == inner_pairs_multi(
                self.rows_model(),
                other.rows_model(),
                Seq::new(on@.len(), |k: int| col_position(self.cols_model(), on@[k].0@)->0),
                Seq::new(on@.len(), |k: int| col_position(other.cols_model(), on@[k].1@)->0),
            ),
    {
        let (lis, ris) = match self.resolve_on(other, on) {
            Ok(p) => p,
            Err(e) => {
                return Err(e);
            },
        };
        let ghost lk = Seq::new(on@.len(), |k: int| col_position(self.cols_model(), on@[k].0@)->0);
        let ghost rk = Seq::new(
            on@.len(),
            |k: int| col_position(other.cols_model(), on@[k].1@)->0,
        );
        proof {
            assert(lis@.map_values(|u: usize| u as int) =~= lk);
            assert(ris@.map_values(|u: usize| u as int) =~= rk);
            assert forall|k2: int|
                0 <= k2 < lis@.len() implies (#[trigger] lis@[k2] as int)
                < self.cols_model().len() && k2 < ris@.len() && (ris@[k2] as int)
                < other.cols_model().len() by {
                assert(col_position(self.cols_model(), on@[k2].0@) == Some(lis@[k2] as int));
                assert(col_position(other.cols_model(), on@[k2].1@) == Some(ris@[k2] as int));
            }
            assert(idxs_bounded(
                lis@,
                ris@,
                self.cols_model().len() as int,
                other.cols_model().len() as int,
            ));
        }
        let ghost ld = self.rows_model();
        let ghost rd = other.rows_model();
        let mut out: Vec<(Vec<Value>, Vec<Value>)> = Vec::new();
        let mut a: usize = 0;
        while a < self.rows.len()
            invariant
                a <= self.rows@.len(),
                lis@.map_values(|u: usize| u as int) == lk,
                ris@.map_values(|u: usize| u as int) == rk,
                lis@.len() == on@.len(),
                ris@.len() == on@.len(),
                idxs_bounded(
                    lis@,
                    ris@,
                    self.cols_model().len() as int,
                    other.cols_model().len() as int,
                ),
                out.deep_view() == inner_pairs_multi(ld.subrange(0, a as int), rd, lk, rk),
            decreases self.rows@.len() - a,
        {
            proof {
                assert(ld[a as int].len() == self.rows@[a as int]@.len());
                assert(ld.subrange(0, a as int + 1).drop_last() =~= ld.subrange(0, a as int));
                assert(ld.subrange(0, a as int + 1).last() == ld[a as int]);
            }
            let mut b: usize = 0;
            while b < other.rows.len()
                invariant
                    a < self.rows@.len(),
                    b <= other.rows@.len(),
                    out.deep_view() == inner_pairs_multi(ld.subrange(0, a as int), rd, lk, rk)
                        + matches_of_multi(
                        ld[a as int],
                        rd.subrange(0, b as int),
                        lk,
                        rk,
                    ).map_values(|m: Seq<ValModel>| (ld[a as int], m)),
                decreases other.rows@.len() - b,
            {
                proof {
                    assert(rd[b as int].len() == other.rows@[b as int]@.len());
                    assert(rd.subrange(0, b as int + 1).drop_last() =~= rd.subrange(0, b as int));
                    assert(rd.subrange(0, b as int + 1).last() == rd[b as int]);
                }
                let ghost prev = out.deep_view();
                let ghost hit = multi_match(ld[a as int], rd[b as int], lk, rk);
                proof {
                    assert(self.rows@[a as int].deep_view() == ld[a as int]);
                    assert(other.rows@[b as int].deep_view() == rd[b as int]);
                    assert(ld[a as int].len() == self.cols_model().len());
                    assert(rd[b as int].len() == other.cols_model().len());
                    assert(idxs_bounded(
                        lis@,
                        ris@,
                        ld[a as int].len() as int,
                        rd[b as int].len() as int,
                    ));
                }
                if multi_match_exec(&self.rows[a], &other.rows[b], &lis, &ris) {
                    let pair = (clone_row(&self.rows[a]), clone_row(&other.rows[b]));
                    proof {
                        assert(pair.deep_view() == (ld[a as int], rd[b as int]));
                    }
                    out.push(pair);
                    proof {
                        assert(out.deep_view() =~~= prev.push((ld[a as int], rd[b as int])));
                    }
                }
                proof {
                    let f = |m: Seq<ValModel>| (ld[a as int], m);
                    let ms0 = matches_of_multi(ld[a as int], rd.subrange(0, b as int), lk, rk);
                    let ms1 = matches_of_multi(
                        ld[a as int],
                        rd.subrange(0, b as int + 1),
                        lk,
                        rk,
                    );
                    if hit {
                        assert(ms1 == ms0.push(rd[b as int]));
                        assert(ms1.map_values(f) =~~= ms0.map_values(f).push(
                            (ld[a as int], rd[b as int]),
                        ));
                    } else {
                        assert(ms1 == ms0);
                    }
                    assert(out.deep_view() =~~= inner_pairs_multi(
                        ld.subrange(0, a as int),
                        rd,
                        lk,
                        rk,
                    ) + ms1.map_values(f));
                }
                b = b + 1;
            }
            proof {
                assert(rd.subrange(0, rd.len() as int) =~= rd);
                assert(out.deep_view() =~~= inner_pairs_multi(
                    ld.subrange(0, a as int + 1),
                    rd,
                    lk,
                    rk,
                ));
            }
            a = a + 1;
        }
        proof {
            assert(ld.subrange(0, ld.len() as int) =~= ld);
        }
        Ok(out)
    }

    /// The left join over an ordered list of column pairs.
    #[verifier::loop_isolation(false)]
    pub fn left_join_multi(&self, other: &Table, on: &Vec<(String, String)>) -> (r: Result<
        Vec<(Vec<Value>, Vec<Option<Value>>)>,
        DbError,
    >)
        requires
            self.rows_aligned(),
            other.rows_aligned(),
        ensures
            r is Ok <==> (forall|k: int|
                0 <= k < on@.len() ==> col_position(
                    self.cols_model(),
                    (#[trigger] on@[k]).0@,
                ) is Some && col_position(other.cols_model(), on@[k].1@) is Some),
            r is Err ==> r->Err_0 is ColumnNotFound,
            r matches Ok(out) ==> out.deep_view() == left_pairs_multi(
                self.rows_model(),
                other.rows_model(),
                Seq::new(on@.len(), |k: int| col_position(self.cols_model(), on@[k].0@)->0),
                Seq::new(on@.len(), |k: int| col_position(other.cols_model(), on@[k].1@)->0),
                other.cols_model().len() as int,
            ),
    {
        let (lis, ris) = match self.resolve_on(other, on) {
            Ok(p) => p,
            Err(e) => {
                return Err(e);
            },
        };
        let ghost lk = Seq::new(on@.len(), |k: int| col_position(self.cols_model(), on@[k].0@)->0);
        let ghost rk = Seq::new(
            on@.len(),
            |k: int| col_position(other.cols_model(), on@[k].1@)->0,
        );
        proof {
            assert(lis@.map_values(|u: usize| u as int) =~= lk);
            assert(ris@.map_values(|u: usize| u as int) =~= rk);
            assert forall|k2: int|
                0 <= k2 < lis@.len() implies (#[trigger] lis@[k2] as int)
                < self.cols_model().len() && k2 < ris@.len() && (ris@[k2] as int)
                < other.cols_model().len() by {
                assert(col_position(self.cols_model(), on@[k2].0@) == Some(lis@[k2] as int));
                assert(col_position(other.cols_model(), on@[k2].1@) == Some(ris@[k2] as int));
            }
            assert(idxs_bounded(
                lis@,
                ris@,
                self.cols_model().len() as int,
                other.cols_model().len() as int,
            ));
        }
        let ghost ld = self.rows_model();
        let ghost rd = other.rows_model();
        let ghost rw = other.cols_model().len() as int;
        let mut out: Vec<(Vec<Value>, Vec<Option<Value>>)> = Vec::new();
        let mut a: usize = 0;
        while a < self.rows.len()
            invariant
                a <= self.rows@.len(),
                lis@.map_values(|u: usize| u as int) == lk,
                ris@.map_values(|u: usize| u as int) == rk,
                lis@.len() == on@.len(),
                ris@.len() == on@.len(),
                idxs_bounded(
                    lis@,
                    ris@,
                    self.cols_model().len() as int,
                    other.cols_model().len() as int,
                ),
                out.deep_view() == left_pairs_multi(ld.subrange(0, a as int), rd, lk, rk, rw),
            decreases self.rows@.len() - a,
        {
            proof {
                assert(ld[a as int].len() == self.rows@[a as int]@.len());
                assert(ld.subrange(0, a as int + 1).drop_last() =~= ld.subrange(0, a as int));
                assert(ld.subrange(0, a as int + 1).last() == ld[a as int]);
            }
            let mut matched = false;
            let mut b: usize = 0;
            while b < other.rows.len()
                invariant
                    a < self.rows@.len(),
                    b <= other.rows@.len(),
                    matched == (matches_of_multi(
                        ld[a as int],
                        rd.subrange(0, b as int),
                        lk,
                        rk,
                    ).len() > 0),
                    out.deep_view() == left_pairs_multi(
                        ld.subrange(0, a as int),
                        rd,
                        lk,
                        rk,
                        rw,
                    ) + pairs_with(
                        ld[a as int],
                        matches_of_multi(ld[a as int], rd.subrange(0, b as int), lk, rk),
                    ),
                decreases other.rows@.len() - b,
            {
                proof {
                    assert(rd[b as int].len() == other.rows@[b as int]@.len());
                    assert(rd.subrange(0, b as int + 1).drop_last() =~= rd.subrange(0, b as int));
                    assert(rd.subrange(0, b as int + 1).last() == rd[b as int]);
                }
                let ghost prev = out.deep_view();
                let ghost hit = multi_match(ld[a as int], rd[b as int], lk, rk);
                proof {
                    assert(self.rows@[a as int].deep_view() == ld[a as int]);
                    assert(other.rows@[b as int].deep_view() == rd[b as int]);
                    assert(ld[a as int].len() == self.cols_model().len());
                    assert(rd[b as int].len() == other.cols_model().len());
                    assert(idxs_bounded(
                        lis@,
                        ris@,
                        ld[a as int].len() as int,
                        rd[b as int].len() as int,
                    ));
                }
                if multi_match_exec(&self.rows[a], &other.rows[b], &lis, &ris) {
                    let pair = (clone_row(&self.rows[a]), some_row_vec(&other.rows[b]));
                    proof {
                        assert(pair.deep_view() == (ld[a as int], some_row(rd[b as int])));
                    }
                    out.push(pair);
                    matched = true;
                    proof {
                        assert(out.deep_view() =~~= prev.push(
                            (ld[a as int], some_row(rd[b as int])),
                        ));
                    }
                }
                proof {
                    let ms0 = matches_of_multi(ld[a as int], rd.subrange(0, b as int), lk, rk);
                    let ms1 = matches_of_multi(
                        ld[a as int],
                        rd.subrange(0, b as int + 1),
                        lk,
                        rk,
                    );
                    if hit {
                        assert(ms1 == ms0.push(rd[b as int]));
                        assert(pairs_with(ld[a as int], ms1) =~~= pairs_with(
                            ld[a as int],
                            ms0,
                        ).push((ld[a as int], some_row(rd[b as int]))));
                    } else {
                        assert(ms1 == ms0);
                    }
                    assert(out.deep_view() =~~= left_pairs_multi(
                        ld.subrange(0, a as int),
                        rd,
                        lk,
                        rk,
                        rw,
                    ) + pairs_with(ld[a as int], ms1));
                }
                b = b + 1;
            }
            proof {
                assert(rd.subrange(0, rd.len() as int) =~= rd);
            }
            let ghost prev2 = out.deep_view();
            if !matched {
                let pair = (clone_row(&self.rows[a]), nulls_vec(other.columns.len()));
                proof {
                    assert(pair.deep_view() == (ld[a as int], nulls(rw)));
                }
                out.push(pair);
                proof {
                    assert(out.deep_view() =~~= prev2.push((ld[a as int], nulls(rw))));
                    assert(prev2.push((ld[a as int], nulls(rw))) =~~= prev2 + seq![
                        (ld[a as int], nulls(rw)),
                    ]);
                }
            }
            proof {
                assert(out.deep_view() =~~= left_pairs_multi(
                    ld.subrange(0, a as int + 1),
                    rd,
                    lk,
                    rk,
                    rw,
                ));
            }
            a = a + 1;
        }
        proof {
            assert(ld.subrange(0, ld.len() as int) =~= ld);
        }
        Ok(out)
    }

    /// The right join over an ordered list of column pairs.
    #[verifier::loop_isolation(false)]
    pub fn right_join_multi(&self, other: &Table, on: &Vec<(String, String)>) -> (r: Result<
        Vec<(Vec<Option<Value>>, Vec<Value>)>,
        DbError,
    >)
        requires
            self.rows_aligned(),
            other.rows_aligned(),
        ensures
            r is Ok <==> (forall|k: int|
                0 <= k < on@.len() ==> col_position(
                    self.cols_model(),
                    (#[trigger] on@[k]).0@,
                ) is Some && col_position(other.cols_model(), on@[k].1@) is Some),
            r is Err ==> r->Err_0 is ColumnNotFound,
            r matches Ok(out) ==> out.deep_view() == right_pairs_multi(
                self.rows_model(),
                other.rows_model(),
                Seq::new(on@.len(), |k: int| col_position(self.cols_model(), on@[k].0@)->0),
                Seq::new(on@.len(), |k: int| col_position(other.cols_model(), on@[k].1@)->0),
                self.cols_model().len() as int,
            ),
    {
        let (lis, ris) = match self.resolve_on(other, on) {
            Ok(p) => p,
            Err(e) => {
                return Err(e);
            },
        };
        let ghost lk = Seq::new(on@.len(), |k: int| col_position(self.cols_model(), on@[k].0@)->0);
        let ghost rk = Seq::new(
            on@.len(),
            |k: int| col_position(other.cols_model(), on@[k].1@)->0,
        );
        proof {
            assert(lis@.map_values(|u: usize| u as int) =~= lk);
            assert(ris@.map_values(|u: usize| u as int) =~= rk);
            assert forall|k2: int|
                0 <= k2 < lis@.len() implies (#[trigger] lis@[k2] as int)
                < self.cols_model().len() && k2 < ris@.len() && (ris@[k2] as int)
                < other.cols_model().len() by {
                assert(col_position(self.cols_model(), on@[k2].0@) == Some(lis@[k2] as int));
                assert(col_position(other.cols_model(), on@[k2].1@) == Some(ris@[k2] as int));
            }
            assert(idxs_bounded(
                lis@,
                ris@,
                self.cols_model().len() as int,
                other.cols_model().len() as int,
            ));
        }
        let ghost ld = self.rows_model();
        let ghost rd = other.rows_model();
        let ghost lw = self.cols_model().len() as int;
        let mut out: Vec<(Vec<Option<Value>>, Vec<Value>)> = Vec::new();
        let mut b: usize = 0;
        while b < other.rows.len()
            invariant
                b <= other.rows@.len(),
                lis@.map_values(|u: usize| u as int) == lk,
                ris@.map_values(|u: usize| u as int) == rk,
                lis@.len() == on@.len(),
                ris@.len() == on@.len(),
                idxs_bounded(
                    lis@,
                    ris@,
                    self.cols_model().len() as int,
                    other.cols_model().len() as int,
                ),
                out.deep_view() == right_pairs_multi(ld, rd.subrange(0, b as int), lk, rk, lw),
            decreases other.rows@.len() - b,
        {
            proof {
                assert(rd[b as int].len() == other.rows@[b as int]@.len());
                assert(rd.subrange(0, b as int + 1).drop_last() =~= rd.subrange(0, b as int));
                assert(rd.subrange(0, b as int + 1).last() == rd[b as int]);
            }
            let mut matched = false;
            let mut a: usize = 0;
            while a < self.rows.len()
                invariant
                    b < other.rows@.len(),
                    a <= self.rows@.len(),
                    matched == (matches_of_left_multi(
                        rd[b as int],
                        ld.subrange(0, a as int),
                        lk,
                        rk,
                    ).len() > 0),
                    out.deep_view() == right_pairs_multi(
                        ld,
                        rd.subrange(0, b as int),
                        lk,
                        rk,
                        lw,
                    ) + pairs_with_right(
                        matches_of_left_multi(rd[b as int], ld.subrange(0, a as int), lk, rk),
                        rd[b as int],
                    ),
                decreases self.rows@.len() - a,
            {
                proof {
                    assert(ld[a as int].len() == self.rows@[a as int]@.len());
                    assert(ld.subrange(0, a as int + 1).drop_last() =~= ld.subrange(0, a as int));
                    assert(ld.subrange(0, a as int + 1).last() == ld[a as int]);
                }
                let ghost prev = out.deep_view();
                let ghost hit = multi_match(ld[a as int], rd[b as int], lk, rk);
                proof {
                    assert(self.rows@[a as int].deep_view() == ld[a as int]);
                    assert(other.rows@[b as int].deep_view() == rd[b as int]);
                    assert(ld[a as int].len() == self.cols_model().len());
                    assert(rd[b as int].len() == other.cols_model().len());
                    assert(idxs_bounded(
                        lis@,
                        ris@,
                        ld[a as int].len() as int,
                        rd[b as int].len() as int,
                    ));
                }
                if multi_match_exec(&self.rows[a], &other.rows[b], &lis, &ris) {
                    let pair = (some_row_vec(&self.rows[a]), clone_row(&other.rows[b]));
                    proof {
                        assert(pair.deep_view() == (some_row(ld[a as int]), rd[b as int]));
                    }
                    out.push(pair);
                    matched = true;
                    proof {
                        assert(out.deep_view() =~~= prev.push(
                            (some_row(ld[a as int]), rd[b as int]),
                        ));
                    }
                }
                proof {
                    let ms0 = matches_of_left_multi(
                        rd[b as int],
                        ld.subrange(0, a as int),
                        lk,
                        rk,
                    );
                    let ms1 = matches_of_left_multi(
                        rd[b as int],
                        ld.subrange(0, a as int + 1),
                        lk,
                        rk,
                    );
                    if hit {
                        assert(ms1 == ms0.push(ld[a as int]));
                        assert(pairs_with_right(ms1, rd[b as int]) =~~= pairs_with_right(
                            ms0,
                            rd[b as int],
                        ).push((some_row(ld[a as int]), rd[b as int])));
                    } else {
                        assert(ms1 == ms0);
                    }
                    assert(out.deep_view() =~~= right_pairs_multi(
                        ld,
                        rd.subrange(0, b as int),
                        lk,
                        rk,
                        lw,
                    ) + pairs_with_right(ms1, rd[b as int]));
                }
                a = a + 1;
            }
            proof {
                assert(ld.subrange(0, ld.len() as int) =~= ld);
            }
            let ghost prev2 = out.deep_view();
            if !matched {
                let pair = (nulls_vec(self.columns.len()), clone_row(&other.rows[b]));
                proof {
                    assert(pair.deep_view() == (nulls(lw), rd[b as int]));
                }
                out.push(pair);
                proof {
                    assert(out.deep_view() =~~= prev2.push((nulls(lw), rd[b as int])));
                    assert(prev2.push((nulls(lw), rd[b as int])) =~~= prev2 + seq![
                        (nulls(lw), rd[b as int]),
                    ]);
                }
            }
            proof {
                assert(out.deep_view() =~~= right_pairs_multi(
                    ld,
                    rd.subrange(0, b as int + 1),
                    lk,
                    rk,
                    lw,
                ));
            }
            b = b + 1;
        }
        proof {
            assert(rd.subrange(0, rd.len() as int) =~= rd);
        }
        Ok(out)
    }
}

/// The picked pair is a copy of a matching (left, right) row pair the
/// filter accepted.
pub open spec fn join_pair_accepted<F: Fn(&Vec<Value>, &Vec<Value>) -> bool>(
    filter: F,
    lrows: Seq<Vec<Value>>,
    rrows: Seq<Vec<Value>>,
    li: int,
    ri: int,
    picked: (Vec<Value>, Vec<Value>),
) -> bool {
    exists|a: int, b: int|
        #![trigger lrows[a], rrows[b]]
        0 <= a < lrows.len() && 0 <= b < rrows.len() && picked.0.deep_view()
            == lrows[a].deep_view() && picked.1.deep_view() == rrows[b].deep_view() && val_eq(
            rrows[b].deep_view()[ri],
            lrows[a].deep_view()[li],
        ) && call_ensures(filter, (&lrows[a], &rrows[b]), true)
}

/// The matching pair was either rejected by its filter run or a copy of
/// it is listed.
pub open spec fn join_pair_accounted<F: Fn(&Vec<Value>, &Vec<Value>) -> bool>(
    filter: F,
    lrow: Vec<Value>,
    rrow: Vec<Value>,
    out: Seq<(Vec<Value>, Vec<Value>)>,
) -> bool {
    call_ensures(filter, (&lrow, &rrow), false) || (exists|i: int|
        0 <= i < out.len() && (#[trigger] out[i]).0.deep_view() == lrow.deep_view() && out[
            i
        ].1.deep_view() == rrow.deep_view())
}

/// The multi-key form of `join_pair_accepted`.
pub open spec fn join_pair_accepted_multi<F: Fn(&Vec<Value>, &Vec<Value>) -> bool>(
    filter: F,
    lrows: Seq<Vec<Value>>,
    rrows: Seq<Vec<Value>>,
    lis: Seq<int>,
    ris: Seq<int>,
    picked: (Vec<Value>, Vec<Value>),
) -> bool {
    exists|a: int, b: int|
        #![trigger lrows[a], rrows[b]]
        0 <= a < lrows.len() && 0 <= b < rrows.len() && picked.0.deep_view()
            == lrows[a].deep_view() && picked.1.deep_view() == rrows[b].deep_view()
            && multi_match(lrows[a].deep_view(), rrows[b].deep_view(), lis, ris) && call_ensures(
            filter,
            (&lrows[a], &rrows[b]),
            true,
        )
}

impl Table {
    /// The inner join on one column pair, kept only where the supplied
    /// predicate accepts the pair; both sides come back plain. The
    /// predicate runs once on each matching pair: every accepted pair's
    /// copy comes back, and every matching pair not returned was rejected
    /// by that run.
    #[verifier::loop_isolation(false)]
    pub fn select_join_where<F: Fn(&Vec<Value>, &Vec<Value>) -> bool>(
        &self,
        other: &Table,
        on: (&str, &str),
        filter: F,
    ) -> (r: Result<Vec<(Vec<Value>, Vec<Value>)>, DbError>)
        requires
            self.rows_aligned(),
            other.rows_aligned(),
            forall|a: &Vec<Value>, b: &Vec<Value>| #[trigger] call_requires(filter, (a, b)),
        ensures
            r is Ok <==> (col_position(self.cols_model(), on.0@) is Some && col_position(
                other.cols_model(),
                on.1@,
            ) is Some),
            r is Err ==> r->Err_0 is ColumnNotFound,
            r matches Ok(out) ==> forall|i: int|
                0 <= i < out@.len() ==> join_pair_accepted(
                    filter,
                    self.rows@,
                    other.rows@,
                    col_position(self.cols_model(), on.0@)->0,
                    col_position(other.cols_model(), on.1@)->0,
                    #[trigger] out@[i],
                ),
            r matches Ok(out) ==> forall|a: int, b: int|
                #![trigger self.rows@[a], other.rows@[b]]
                0 <= a < self.rows@.len() && 0 <= b < other.rows@.len() && val_eq(
                    other.rows@[b].deep_view()[col_position(other.cols_model(), on.1@)->0],
                    self.rows@[a].deep_view()[col_position(self.cols_model(), on.0@)->0],
                ) ==> join_pair_accounted(filter, self.rows@[a], other.rows@[b], out@),
    {
        let li = match self.find_column(on.0) {
            Some(i) => i,
            None => {
                return Err(
                    DbError::ColumnNotFound(msg3("Column '", on.0, "' not found")),
                );
            },
        };
        let ri = match other.find_column(on.1) {
            Some(i) => i,
            None => {
                return Err(
                    DbError::ColumnNotFound(msg3("Column '", on.1, "' not found")),
                );
            },
        };
        let mut out: Vec<(Vec<Value>, Vec<Value>)> = Vec::new();
        let mut a: usize = 0;
        while a < self.rows.len()
            invariant
                a <= self.rows@.len(),
                forall|i: int|
                    0 <= i < out@.len() ==> join_pair_accepted(
                        filter,
                        self.rows@,
                        other.rows@,
                        li as int,
                        ri as int,
                        #[trigger] out@[i],
                    ),
                forall|a2: int, b2: int|
                    #![trigger self.rows@[a2], other.rows@[b2]]
                    0 <= a2 < a && 0 <= b2 < other.rows@.len() && val_eq(
                        other.rows@[b2].deep_view()[ri as int],
                        self.rows@[a2].deep_view()[li as int],
                    ) ==> join_pair_accounted(filter, self.rows@[a2], other.rows@[b2], out@),
            decreases self.rows@.len() - a,
        {
            proof {
                assert(self.rows@[a as int].deep_view().len() == self.rows@[a as int]@.len());
                assert(self.rows_model()[a as int] == self.rows@[a as int].deep_view());
            }
            let mut b: usize = 0;
            while b < other.rows.len()
                invariant
                    a < self.rows@.len(),
                    b <= other.rows@.len(),
                    forall|i: int|
                        0 <= i < out@.len() ==> join_pair_accepted(
                            filter,
                            self.rows@,
                            other.rows@,
                            li as int,
                            ri as int,
                            #[trigger] out@[i],
                        ),
                    forall|a2: int, b2: int|
                        #![trigger self.rows@[a2], other.rows@[b2]]
                        0 <= a2 < a && 0 <= b2 < other.rows@.len() && val_eq(
                            other.rows@[b2].deep_view()[ri as int],
                            self.rows@[a2].deep_view()[li as int],
                        ) ==> join_pair_accounted(filter, self.rows@[a2], other.rows@[b2], out@),
                    forall|b2: int|
                        #![trigger other.rows@[b2]]
                        0 <= b2 < b && val_eq(
                            other.rows@[b2].deep_view()[ri as int],
                            self.rows@[a as int].deep_view()[li as int],
                        ) ==> join_pair_accounted(
                            filter,
                            self.rows@[a as int],
                            other.rows@[b2],
                            out@,
                        ),
                decreases other.rows@.len() - b,
            {
                proof {
                    assert(other.rows@[b as int].deep_view().len() == other.rows@[
                        b as int
                    ]@.len());
                    assert(other.rows_model()[b as int] == other.rows@[b as int].deep_view());
                }
                let ghost prev = out@;
                if other.rows[b][ri].eq_val(&self.rows[a][li]) {
                    let keep = filter(&self.rows[a], &other.rows[b]);
                    if keep {
                        let pair = (clone_row(&self.rows[a]), clone_row(&other.rows[b]));
                        proof {
                            assert(pair.0.deep_view() == self.rows@[a as int].deep_view());
                            assert(pair.1.deep_view() == other.rows@[b as int].deep_view());
                        }
                        out.push(pair);
                    }
                }
                proof {
                    assert forall|i: int|
                        0 <= i < out@.len() implies join_pair_accepted(
                        filter,
                        self.rows@,
                        other.rows@,
                        li as int,
                        ri as int,
                        #[trigger] out@[i],
                    ) by {
                        if i < prev.len() {
                            assert(out@[i] == prev[i]);
                            assert(join_pair_accepted(
                                filter,
                                self.rows@,
                                other.rows@,
                                li as int,
                                ri as int,
                                prev[i],
                            ));
                        } else {
                            assert(out@[i].0.deep_view() == self.rows@[a as int].deep_view()
                                && out@[i].1.deep_view() == other.rows@[b as int].deep_view()
                                && call_ensures(
                                filter,
                                (&self.rows@[a as int], &other.rows@[b as int]),
                                true,
                            ));
                        }
                    }
                    assert forall|a2: int, b2: int|
                        #![trigger self.rows@[a2], other.rows@[b2]]
                        0 <= a2 < a && 0 <= b2 < other.rows@.len() && val_eq(
                        other.rows@[b2].deep_view()[ri as int],
                        self.rows@[a2].deep_view()[li as int],
                    ) implies join_pair_accounted(
                        filter,
                        self.rows@[a2],
                        other.rows@[b2],
                        out@,
                    ) by {
                        lemma_accounted_push(filter, self.rows@[a2], other.rows@[b2], prev, out@);
                    }
                    assert forall|b2: int|
                        #![trigger other.rows@[b2]]
                        0 <= b2 < b + 1 && val_eq(
                        other.rows@[b2].deep_view()[ri as int],
                        self.rows@[a as int].deep_view()[li as int],
                    ) implies join_pair_accounted(
                        filter,
                        self.rows@[a as int],
                        other.rows@[b2],
                        out@,
                    ) by {
                        if b2 < b {
                            lemma_accounted_push(
                                filter,
                                self.rows@[a as int],
                                other.rows@[b2],
                                prev,
                                out@,
                            );
                        } else {
                            if !call_ensures(
                                filter,
                                (&self.rows@[a as int], &other.rows@[b as int]),
                                false,
                            ) {
                                assert(out@[out@.len() - 1].0.deep_view() == self.rows@[
                                    a as int
                                ].deep_view());
                            }
                        }
                    }
                }
                b = b + 1;
            }
            a = a + 1;
        }
        Ok(out)
    }

    /// The multi-key inner join, kept only where the supplied predicate
    /// accepts the pair: every accepted matching pair's copy comes back,
    /// and every matching pair not returned was rejected by its one
    /// predicate run.
    #[verifier::loop_isolation(false)]
    pub fn select_join_where_multi<F: Fn(&Vec<Value>, &Vec<Value>) -> bool>(
        &self,
        other: &Table,
        on: &Vec<(String, String)>,
        filter: F,
    ) -> (r: Result<Vec<(Vec<Value>, Vec<Value>)>, DbError>)
        requires
            self.rows_aligned(),
            other.rows_aligned(),
            forall|a: &Vec<Value>, b: &Vec<Value>| #[trigger] call_requires(filter, (a, b)),
        ensures
            r is Ok <==> (forall|k: int|
                0 <= k < on@.len() ==> col_position(
                    self.cols_model(),
                    (#[trigger] on@[k]).0@,
                ) is Some && col_position(other.cols_model(), on@[k].1@) is Some),
            r is Err ==> r->Err_0 is ColumnNotFound,
            r matches Ok(out) ==> forall|i: int|
                0 <= i < out@.len() ==> join_pair_accepted_multi(
                    filter,
                    self.rows@,
                    other.rows@,
                    Seq::new(on@.len(), |k: int| col_position(self.cols_model(), on@[k].0@)->0),
                    Seq::new(on@.len(), |k: int| col_position(other.cols_model(), on@[k].1@)->0),
                    #[trigger] out@[i],
                ),
            r matches Ok(out) ==> forall|a: int, b: int|
                #![trigger self.rows@[a], other.rows@[b]]
                0 <= a < self.rows@.len() && 0 <= b < other.rows@.len() && multi_match(
                    self.rows@[a].deep_view(),
                    other.rows@[b].deep_view(),
                    Seq::new(on@.len(), |k: int| col_position(self.cols_model(), on@[k].0@)->0),
                    Seq::new(on@.len(), |k: int| col_position(other.cols_model(), on@[k].1@)->0),
                ) ==> join_pair_accounted(filter, self.rows@[a], other.rows@[b], out@),
    {
        let (lis, ris) = match self.resolve_on(other, on) {
            Ok(p) => p,
            Err(e) => {
                return Err(e);
            },
        };
        let ghost lk = Seq::new(on@.len(), |k: int| col_position(self.cols_model(), on@[k].0@)->0);
        let ghost rk = Seq::new(
            on@.len(),
            |k: int| col_position(other.cols_model(), on@[k].1@)->0,
        );
        proof {
            assert(lis@.map_values(|u: usize| u as int) =~= lk);
            assert(ris@.map_values(|u: usize| u as int) =~= rk);
            assert forall|k2: int|
                0 <= k2 < lis@.len() implies (#[trigger] lis@[k2] as int)
                < self.cols_model().len() && k2 < ris@.len() && (ris@[k2] as int)
                < other.cols_model().len() by {
                assert(col_position(self.cols_model(), on@[k2].0@) == Some(lis@[k2] as int));
                assert(col_position(other.cols_model(), on@[k2].1@) == Some(ris@[k2] as int));
            }
            assert(idxs_bounded(
                lis@,
                ris@,
                self.cols_model().len() as int,
                other.cols_model().len() as int,
            ));
        }
        let mut out: Vec<(Vec<Value>, Vec<Value>)> = Vec::new();
        let mut a: usize = 0;
        while a < self.rows.len()
            invariant
                a <= self.rows@.len(),
                lis@.map_values(|u: usize| u as int) == lk,
                ris@.map_values(|u: usize| u as int) == rk,
                lis@.len() == ris@.len(),
                idxs_bounded(
                    lis@,
                    ris@,
                    self.cols_model().len() as int,
                    other.cols_model().len() as int,
                ),
                forall|i: int|
                    0 <= i < out@.len() ==> join_pair_accepted_multi(
                        filter,
                        self.rows@,
                        other.rows@,
                        lk,
                        rk,
                        #[trigger] out@[i],
                    ),
                forall|a2: int, b2: int|
                    #![trigger self.rows@[a2], other.rows@[b2]]
                    0 <= a2 < a && 0 <= b2 < other.rows@.len() && multi_match(
                        self.rows@[a2].deep_view(),
                        other.rows@[b2].deep_view(),
                        lk,
                        rk,
                    ) ==> join_pair_accounted(filter, self.rows@[a2], other.rows@[b2], out@),
            decreases self.rows@.len() - a,
        {
            proof {
                assert(self.rows_model()[a as int] == self.rows@[a as int].deep_view());
                assert(self.rows@[a as int].deep_view().len() == self.cols_model().len());
            }
            let mut b: usize = 0;
            while b < other.rows.len()
                invariant
                    a < self.rows@.len(),
                    b <= other.rows@.len(),
                    lis@.map_values(|u: usize| u as int) == lk,
                    ris@.map_values(|u: usize| u as int) == rk,
                    lis@.len() == ris@.len(),
                    idxs_bounded(
                        lis@,
                        ris@,
                        self.cols_model().len() as int,
                        other.cols_model().len() as int,
                    ),
                    forall|i: int|
                        0 <= i < out@.len() ==> join_pair_accepted_multi(
                            filter,
                            self.rows@,
                            other.rows@,
                            lk,
                            rk,
                            #[trigger] out@[i],
                        ),
                    forall|a2: int, b2: int|
                        #![trigger self.rows@[a2], other.rows@[b2]]
                        0 <= a2 < a && 0 <= b2 < other.rows@.len() && multi_match(
                            self.rows@[a2].deep_view(),
                            other.rows@[b2].deep_view(),
                            lk,
                            rk,
                        ) ==> join_pair_accounted(filter, self.rows@[a2], other.rows@[b2], out@),
                    forall|b2: int|
                        #![trigger other.rows@[b2]]
                        0 <= b2 < b && multi_match(
                            self.rows@[a as int].deep_view(),
                            other.rows@[b2].deep_view(),
                            lk,
                            rk,
                        ) ==> join_pair_accounted(
                            filter,
                            self.rows@[a as int],
                            other.rows@[b2],
                            out@,
                        ),
                decreases other.rows@.len() - b,
            {
                proof {
                    assert(other.rows_model()[b as int] == other.rows@[b as int].deep_view());
                    assert(other.rows@[b as int].deep_view().len() == other.cols_model().len());
                    assert(idxs_bounded(
                        lis@,
                        ris@,
                        self.rows@[a as int].deep_view().len() as int,
                        other.rows@[b as int].deep_view().len() as int,
                    ));
                }
                let ghost prev = out@;
                if multi_match_exec(&self.rows[a], &other.rows[b], &lis, &ris) {
                    let keep = filter(&self.rows[a], &other.rows[b]);
                    if keep {
                        let pair = (clone_row(&self.rows[a]), clone_row(&other.rows[b]));
                        proof {
                            assert(pair.0.deep_view() == self.rows@[a as int].deep_view());
                            assert(pair.1.deep_view() == other.rows@[b as int].deep_view());
                        }
                        out.push(pair);
                    }
                }
                proof {
                    assert forall|i: int|
                        0 <= i < out@.len() implies join_pair_accepted_multi(
                        filter,
                        self.rows@,
                        other.rows@,
                        lk,
                        rk,
                        #[trigger] out@[i],
                    ) by {
                        if i < prev.len() {
                            assert(out@[i] == prev[i]);
                            assert(join_pair_accepted_multi(
                                filter,
                                self.rows@,
                                other.rows@,
                                lk,
                                rk,
                                prev[i],
                            ));
                        } else {
                            assert(out@[i].0.deep_view() == self.rows@[a as int].deep_view()
                                && out@[i].1.deep_view() == other.rows@[b as int].deep_view()
                                && call_ensures(
                                filter,
                                (&self.rows@[a as int], &other.rows@[b as int]),
                                true,
                            ));
                        }
                    }
                    assert forall|a2: int, b2: int|
                        #![trigger self.rows@[a2], other.rows@[b2]]
                        0 <= a2 < a && 0 <= b2 < other.rows@.len() && multi_match(
                        self.rows@[a2].deep_view(),
                        other.rows@[b2].deep_view(),
                        lk,
                        rk,
                    ) implies join_pair_accounted(
                        filter,
                        self.rows@[a2],
                        other.rows@[b2],
                        out@,
                    ) by {
                        lemma_accounted_push(filter, self.rows@[a2], other.rows@[b2], prev, out@);
                    }
                    assert forall|b2: int|
                        #![trigger other.rows@[b2]]
                        0 <= b2 < b + 1 && multi_match(
                        self.rows@[a as int].deep_view(),
                        other.rows@[b2].deep_view(),
                        lk,
                        rk,
                    ) implies join_pair_accounted(
                        filter,
                        self.rows@[a as int],
                        other.rows@[b2],
                        out@,
                    ) by {
                        if b2 < b {
                            lemma_accounted_push(
                                filter,
                                self.rows@[a as int],
                                other.rows@[b2],
                                prev,
                                out@,
                            );
                        } else {
                            if !call_ensures(
                                filter,
                                (&self.rows@[a as int], &other.rows@[b as int]),
                                false,
                            ) {
                                assert(out@[out@.len() - 1].0.deep_view() == self.rows@[
                                    a as int
                                ].deep_view());
                            }
                        }
                    }
                }
                b = b + 1;
            }
            a = a + 1;
        }
        Ok(out)
    }
}

/// Appending to the listing keeps a pair accounted for.
proof fn lemma_accounted_push<F: Fn(&Vec<Value>, &Vec<Value>) -> bool>(
    filter: F,
    lrow: Vec<Value>,
    rrow: Vec<Value>,
    prev: Seq<(Vec<Value>, Vec<Value>)>,
    cur: Seq<(Vec<Value>, Vec<Value>)>,
)
    requires
        join_pair_accounted(filter, lrow, rrow, prev),
        prev.len() <= cur.len(),
        forall|i: int| 0 <= i < prev.len() ==> #[trigger] cur[i] == prev[i],
    ensures
        join_pair_accounted(filter, lrow, rrow, cur),
{
    if !call_ensures(filter, (&lrow, &rrow), false) {
        let i = choose|i: int|
            0 <= i < prev.len() && (#[trigger] prev[i]).0.deep_view() == lrow.deep_view() && prev[
                i
            ].1.deep_view() == rrow.deep_view();
        assert(cur[i].0.deep_view() == lrow.deep_view() && cur[i].1.deep_view()
            == rrow.deep_view());
    }
}

impl Table {
    /// Materializes plain join pairs as a table: left columns prefixed
    /// `left.`, right columns prefixed `right.`, constraints dropped, each
    /// pair's rows concatenated.
    #[verifier::loop_isolation(false)]
    pub fn join_to_table(
        name: &str,
        left_columns: &Vec<Column>,
        right_columns: &Vec<Column>,
        results: Vec<(Vec<Value>, Vec<Value>)>,
    ) -> (t: Table)
        requires
            forall|i: int|
                0 <= i < results@.len() ==> (#[trigger] results@[i]).0@.len()
                    == left_columns@.len() && results@[i].1@.len() == right_columns@.len(),
        ensures
            t.wf(),
            t.name@ == name@,
            t.primary_key is None,
            t.transaction_backup is None,
            t.indexes@.len() == 0,
            t.cols_model().len() == left_columns@.len() + right_columns@.len(),
            forall|j: int|
                0 <= j < left_columns@.len() ==> (#[trigger] t.cols_model()[j]).name == "left."@
                    + left_columns.deep_view()[j].name && t.cols_model()[j].datatype
                    == left_columns.deep_view()[j].datatype && t.cols_model()[j].options.len()
                    == 0,
            forall|j: int|
                left_columns@.len() <= j < t.cols_model().len() ==> (
                #[trigger] t.cols_model()[j]).name == "right."@ + right_columns.deep_view()[j
                    - left_columns@.len()].name && t.cols_model()[j].datatype
                    == right_columns.deep_view()[j - left_columns@.len()].datatype
                    && t.cols_model()[j].options.len() == 0,
            t.rows_model().len() == results@.len(),
            forall|i: int|
                0 <= i < results@.len() ==> #[trigger] t.rows_model()[i] == results@[
                i].0.deep_view() + results@[i].1.deep_view(),
    {
        proof {
            reveal_strlit("");
        }
        let mut columns: Vec<Column> = Vec::new();
        let mut j: usize = 0;
        while j < left_columns.len()
            invariant
                j <= left_columns@.len(),
                columns.deep_view().len() == j,
                forall|j2: int|
                    0 <= j2 < j ==> (#[trigger] columns.deep_view()[j2]).name == "left."@
                        + left_columns.deep_view()[j2].name && columns.deep_view()[j2].datatype
                        == left_columns.deep_view()[j2].datatype && columns.deep_view()[
                        j2
                    ].options.len() == 0,
            decreases left_columns@.len() - j,
        {
            let new_col = Column {
                name: msg3("left.", left_columns[j].name.as_str(), ""),
                datatype: left_columns[j].datatype,
                options: Vec::new(),
            };
            let ghost prev = columns.deep_view();
            let ghost ncd = new_col@;
            columns.push(new_col);
            proof {
                assert(columns.deep_view() =~~= prev.push(ncd));
                assert(columns.deep_view()[j as int].name =~= "left."@
                    + left_columns.deep_view()[j as int].name);
            }
            j = j + 1;
        }
        let mut j: usize = 0;
        while j < right_columns.len()
            invariant
                j <= right_columns@.len(),
                columns.deep_view().len() == left_columns@.len() + j,
                forall|j2: int|
                    0 <= j2 < left_columns@.len() ==> (#[trigger] columns.deep_view()[j2]).name
                        == "left."@ + left_columns.deep_view()[j2].name && columns.deep_view()[
                        j2
                    ].datatype == left_columns.deep_view()[j2].datatype && columns.deep_view()[
                        j2
                    ].options.len() == 0,
                forall|j2: int|
                    left_columns@.len() <= j2 < columns.deep_view().len() ==> (
                    #[trigger] columns.deep_view()[j2]).name == "right."@
                        + right_columns.deep_view()[j2 - left_columns@.len()].name
                        && columns.deep_view()[j2].datatype == right_columns.deep_view()[j2
                        - left_columns@.len()].datatype && columns.deep_view()[j2].options.len()
                        == 0,
            decreases right_columns@.len() - j,
        {
            let new_col = Column {
                name: msg3("right.", right_columns[j].name.as_str(), ""),
                datatype: right_columns[j].datatype,
                options: Vec::new(),
            };
            let ghost prev = columns.deep_view();
            let ghost ncd = new_col@;
            columns.push(new_col);
            proof {
                assert(columns.deep_view() =~~= prev.push(ncd));
                assert(columns.deep_view()[columns.deep_view().len() - 1].name =~= "right."@
                    + right_columns.deep_view()[j as int].name);
            }
            j = j + 1;
        }
        let mut rows: Vec<Vec<Value>> = Vec::new();
        let mut i: usize = 0;
        while i < results.len()
            invariant
                i <= results@.len(),
                columns.deep_view().len() == left_columns@.len() + right_columns@.len(),
                rows.deep_view().len() == i,
                forall|i2: int|
                    0 <= i2 < i ==> #[trigger] rows.deep_view()[i2] == results@[
                    i2].0.deep_view() + results@[i2].1.deep_view(),
            decreases results@.len() - i,
        {
            let mut merged = clone_row(&results[i].0);
            let mut right_part = clone_row(&results[i].1);
            merged.append(&mut right_part);
            proof {
                assert(merged.deep_view() =~~= results@[i as int].0.deep_view() + results@[
                    i as int
                ].1.deep_view());
            }
            let ghost prev = rows.deep_view();
            let ghost md = merged.deep_view();
            rows.push(merged);
            proof {
                assert(rows.deep_view() =~~= prev.push(md));
            }
            i = i + 1;
        }
        let t = Table {
            name: name.to_owned(),
            columns,
            rows,
            primary_key: None,
            indexes: Vec::new(),
            transaction_backup: None,
        };
        proof {
            assert forall|x: int| 0 <= x < t.rows_model().len() implies (
            #[trigger] t.rows_model()[x]).len() == t.cols_model().len() by {
                assert(t.rows_model()[x] == results@[x].0.deep_view() + results@[
                    x
                ].1.deep_view());
                assert(results@[x].0.deep_view().len() == results@[x].0@.len());
                assert(results@[x].1.deep_view().len() == results@[x].1@.len());
            }
        }
        t
    }

    /// Materializes plain join pairs with caller-supplied column prefixes,
    /// underscores appended until the combined names are pairwise
    /// distinct.
    #[verifier::loop_isolation(false)]
    pub fn join_to_table_with_aliases(
        name: &str,
        left_table: &Table,
        right_table: &Table,
        left_alias: &str,
        right_alias: &str,
        results: Vec<(Vec<Value>, Vec<Value>)>,
    ) -> (t: Table)
        requires
            forall|i: int|
                0 <= i < results@.len() ==> (#[trigger] results@[i]).0@.len()
                    == left_table.columns@.len() && results@[i].1@.len()
                    == right_table.columns@.len(),
        ensures
            t.wf(),
            t.name@ == name@,
            t.primary_key is None,
            t.transaction_backup is None,
            t.indexes@.len() == 0,
            t.cols_model().len() == left_table.cols_model().len()
                + right_table.cols_model().len(),
            forall|i: int, j: int|
                #![trigger t.cols_model()[i], t.cols_model()[j]]
                0 <= i < j < t.cols_model().len() ==> t.cols_model()[i].name != t.cols_model()[
                    j
                ].name,
            forall|j: int|
                0 <= j < left_table.cols_model().len() ==> (#[trigger] t.cols_model()[j]).datatype
                    == left_table.cols_model()[j].datatype && t.cols_model()[j].options.len() == 0
                    && minimally_suffixed(
                    t.cols_model()[j].name,
                    left_alias@ + seq!['.'] + left_table.cols_model()[j].name,
                    t.cols_model().subrange(0, j),
                ),
            forall|j: int|
                left_table.cols_model().len() <= j < t.cols_model().len() ==> (
                #[trigger] t.cols_model()[j]).datatype == right_table.cols_model()[j
                    - left_table.cols_model().len()].datatype && t.cols_model()[j].options.len()
                    == 0 && minimally_suffixed(
                    t.cols_model()[j].name,
                    right_alias@ + seq!['.'] + right_table.cols_model()[j
                        - left_table.cols_model().len()].name,
                    t.cols_model().subrange(0, j),
                ),
            t.rows_model().len() == results@.len(),
            forall|i: int|
                0 <= i < results@.len() ==> #[trigger] t.rows_model()[i] == results@[
                i].0.deep_view() + results@[i].1.deep_view(),
    {
        proof {
            reveal_strlit(".");
        }
        let mut columns: Vec<Column> = Vec::new();
        let mut j: usize = 0;
        while j < left_table.columns.len()
            invariant
                j <= left_table.columns@.len(),
                columns.deep_view().len() == j,
                forall|a: int, b: int|
                    #![trigger columns.deep_view()[a], columns.deep_view()[b]]
                    0 <= a < b < columns.deep_view().len() ==> columns.deep_view()[a].name
                        != columns.deep_view()[b].name,
                forall|a: int|
                    0 <= a < j ==> (#[trigger] columns.deep_view()[a]).datatype
                        == left_table.cols_model()[a].datatype && columns.deep_view()[
                        a
                    ].options.len() == 0 && minimally_suffixed(
                        columns.deep_view()[a].name,
                        left_alias@ + seq!['.'] + left_table.cols_model()[a].name,
                        columns.deep_view().subrange(0, a),
                    ),
            decreases left_table.columns@.len() - j,
        {
            let base = msg3(left_alias, ".", left_table.columns[j].name.as_str());
            proof {
                assert(base@ =~= left_alias@ + seq!['.'] + left_table.cols_model()[
                    j as int
                ].name);
            }
            let col_name = free_name(&columns, base);
            let ghost prev = columns.deep_view();
            let ghost chosen = col_name@;
            proof {
                assert(minimally_suffixed(
                    chosen,
                    left_alias@ + seq!['.'] + left_table.cols_model()[j as int].name,
                    prev,
                ));
            }
            columns.push(
                Column {
                    name: col_name,
                    datatype: left_table.columns[j].datatype,
                    options: Vec::new(),
                },
            );
            proof {
                assert forall|a: int, b: int|
                    #![trigger columns.deep_view()[a], columns.deep_view()[b]]
                    0 <= a < b < columns.deep_view().len() implies columns.deep_view()[a].name
                    != columns.deep_view()[b].name by {
                    if b == prev.len() {
                        assert(columns.deep_view()[a] == prev[a]);
                        assert(columns.deep_view()[b].name == chosen);
                        assert(prev[a].name != chosen);
                    } else {
                        assert(columns.deep_view()[a] == prev[a]);
                        assert(columns.deep_view()[b] == prev[b]);
                    }
                }
                assert(columns.deep_view().subrange(0, j as int) =~= prev);
                assert forall|a: int|
                    0 <= a < j + 1 implies (#[trigger] columns.deep_view()[a]).datatype
                    == left_table.cols_model()[a].datatype && columns.deep_view()[
                    a
                ].options.len() == 0 && minimally_suffixed(
                    columns.deep_view()[a].name,
                    left_alias@ + seq!['.'] + left_table.cols_model()[a].name,
                    columns.deep_view().subrange(0, a),
                ) by {
                    if a < j {
                        assert(columns.deep_view()[a] == prev[a]);
                        assert(columns.deep_view().subrange(0, a) =~= prev.subrange(0, a));
                    } else {
                        assert(columns.deep_view()[a].name == chosen);
                        assert(columns.deep_view()[a].options =~~= Seq::<
                            crate::table::model::OptModel,
                        >::empty());
                    }
                }
            }
            j = j + 1;
        }
        let ghost lw = left_table.cols_model().len() as int;
        let mut j: usize = 0;
        while j < right_table.columns.len()
            invariant
                j <= right_table.columns@.len(),
                columns.deep_view().len() == left_table.columns@.len() + j,
                forall|a: int, b: int|
                    #![trigger columns.deep_view()[a], columns.deep_view()[b]]
                    0 <= a < b < columns.deep_view().len() ==> columns.deep_view()[a].name
                        != columns.deep_view()[b].name,
                forall|a: int|
                    0 <= a < lw ==> (#[trigger] columns.deep_view()[a]).datatype
                        == left_table.cols_model()[a].datatype && columns.deep_view()[
                        a
                    ].options.len() == 0 && minimally_suffixed(
                        columns.deep_view()[a].name,
                        left_alias@ + seq!['.'] + left_table.cols_model()[a].name,
                        columns.deep_view().subrange(0, a),
                    ),
                forall|a: int|
                    lw <= a < columns.deep_view().len() ==> (
                    #[trigger] columns.deep_view()[a]).datatype == right_table.cols_model()[a
                        - lw].datatype && columns.deep_view()[a].options.len() == 0
                        && minimally_suffixed(
                        columns.deep_view()[a].name,
                        right_alias@ + seq!['.'] + right_table.cols_model()[a - lw].name,
                        columns.deep_view().subrange(0, a),
                    ),
            decreases right_table.columns@.len() - j,
        {
            let base = msg3(right_alias, ".", right_table.columns[j].name.as_str());
            proof {
                assert(base@ =~= right_alias@ + seq!['.'] + right_table.cols_model()[
                    j as int
                ].name);
            }
            let col_name = free_name(&columns, base);
            let ghost prev = columns.deep_view();
            let ghost chosen = col_name@;
            proof {
                assert(minimally_suffixed(
                    chosen,
                    right_alias@ + seq!['.'] + right_table.cols_model()[j as int].name,
                    prev,
                ));
            }
            columns.push(
                Column {
                    name: col_name,
                    datatype: right_table.columns[j].datatype,
                    options: Vec::new(),
                },
            );
            proof {
                assert forall|a: int, b: int|
                    #![trigger columns.deep_view()[a], columns.deep_view()[b]]
                    0 <= a < b < columns.deep_view().len() implies columns.deep_view()[a].name
                    != columns.deep_view()[b].name by {
                    if b == prev.len() {
                        assert(columns.deep_view()[a] == prev[a]);
                        assert(columns.deep_view()[b].name == chosen);
                        assert(prev[a].name != chosen);
                    } else {
                        assert(columns.deep_view()[a] == prev[a]);
                        assert(columns.deep_view()[b] == prev[b]);
                    }
                }
                assert(columns.deep_view().subrange(0, prev.len() as int) =~= prev);
                assert forall|a: int|
                    0 <= a < lw implies (#[trigger] columns.deep_view()[a]).datatype
                    == left_table.cols_model()[a].datatype && columns.deep_view()[
                    a
                ].options.len() == 0 && minimally_suffixed(
                    columns.deep_view()[a].name,
                    left_alias@ + seq!['.'] + left_table.cols_model()[a].name,
                    columns.deep_view().subrange(0, a),
                ) by {
                    assert(columns.deep_view()[a] == prev[a]);
                    assert(columns.deep_view().subrange(0, a) =~= prev.subrange(0, a));
                }
                assert forall|a: int|
                    lw <= a < columns.deep_view().len() implies (
                #[trigger] columns.deep_view()[a]).datatype == right_table.cols_model()[a
                    - lw].datatype && columns.deep_view()[a].options.len() == 0
                    && minimally_suffixed(
                    columns.deep_view()[a].name,
                    right_alias@ + seq!['.'] + right_table.cols_model()[a - lw].name,
                    columns.deep_view().subrange(0, a),
                ) by {
                    if a < prev.len() {
                        assert(columns.deep_view()[a] == prev[a]);
                        assert(columns.deep_view().subrange(0, a) =~= prev.subrange(0, a));
                    } else {
                        assert(columns.deep_view()[a].name == chosen);
                        assert(columns.deep_view()[a].options =~~= Seq::<
                            crate::table::model::OptModel,
                        >::empty());
                    }
                }
            }
            j = j + 1;
        }
        let mut rows: Vec<Vec<Value>> = Vec::new();
        let mut i: usize = 0;
        while i < results.len()
            invariant
                i <= results@.len(),
                columns.deep_view().len() == left_table.columns@.len()
                    + right_table.columns@.len(),
                forall|a: int, b: int|
                    #![trigger columns.deep_view()[a], columns.deep_view()[b]]
                    0 <= a < b < columns.deep_view().len() ==> columns.deep_view()[a].name
                        != columns.deep_view()[b].name,
                rows.deep_view().len() == i,
                forall|i2: int|
                    0 <= i2 < i ==> #[trigger] rows.deep_view()[i2] == results@[
                    i2].0.deep_view() + results@[i2].1.deep_view(),
            decreases results@.len() - i,
        {
            let mut merged = clone_row(&results[i].0);
            let mut right_part = clone_row(&results[i].1);
            merged.append(&mut right_part);
            proof {
                assert(merged.deep_view() =~~= results@[i as int].0.deep_view() + results@[
                    i as int
                ].1.deep_view());
            }
            let ghost prev = rows.deep_view();
            let ghost md = merged.deep_view();
            rows.push(merged);
            proof {
                assert(rows.deep_view() =~~= prev.push(md));
            }
            i = i + 1;
        }
        let t = Table {
            name: name.to_owned(),
            columns,
            rows,
            primary_key: None,
            indexes: Vec::new(),
            transaction_backup: None,
        };
        proof {
            assert forall|x: int| 0 <= x < t.rows_model().len() implies (
            #[trigger] t.rows_model()[x]).len() == t.cols_model().len() by {
                assert(t.rows_model()[x] == results@[x].0.deep_view() + results@[
                    x
                ].1.deep_view());
                assert(results@[x].0.deep_view().len() == results@[x].0@.len());
                assert(results@[x].1.deep_view().len() == results@[x].1@.len());
            }
        }
        t
    }

    /// Materializes join pairs against aliased copies of the two tables:
    /// the column names gain the aliases twice over, as each table is
    /// first renamed and then prefixed again.
    #[verifier::loop_isolation(false)]
    pub fn merge_tables_with_aliases(
        name: &str,
        left: &Table,
        right: &Table,
        left_alias: &str,
        right_alias: &str,
        results: Vec<(Vec<Value>, Vec<Value>)>,
    ) -> (t: Table)
        requires
            left.rows_aligned(),
            right.rows_aligned(),
            forall|i: int|
                0 <= i < results@.len() ==> (#[trigger] results@[i]).0@.len()
                    == left.columns@.len() && results@[i].1@.len() == right.columns@.len(),
        ensures
            t.wf(),
            t.name@ == name@,
            t.rows_model().len() == results@.len(),
            forall|i: int|
                0 <= i < results@.len() ==> #[trigger] t.rows_model()[i] == results@[
                i].0.deep_view() + results@[i].1.deep_view(),
    {
        let aliased_left = left.with_alias(left_alias);
        let aliased_right = right.with_alias(right_alias);
        Table::join_to_table_with_aliases(
            name,
            &aliased_left,
            &aliased_right,
            left_alias,
            right_alias,
            results,
        )
    }
}

} // verus!

//! Filter expressions compiled to row predicates, and the builders that
//! construct them from a column name, an operator and a value.

use vstd::prelude::*;
use crate::chars::{
    chars_of, chars_eq, find_sub, starts_with_chars, ends_with_chars, trim_chars_matching,
    contains_sub, starts_with_spec, ends_with_spec, trim_char_spec, trim_start_char_spec,
    trim_end_char_spec,
};
use crate::table::data::{FilterExpr, Value};
use crate::table::model::{ValModel, val_eq, val_lt};
use crate::table::text::val_display;

verus! {

/// The column name a filter expression speaks of.
pub open spec fn expr_column(e: FilterExpr) -> Seq<char> {
    match e {
        FilterExpr::Eq(c, _) => c@,
        FilterExpr::Gt(c, _) => c@,
        FilterExpr::Lt(c, _) => c@,
        FilterExpr::Ge(c, _) => c@,
        FilterExpr::Le(c, _) => c@,
        FilterExpr::Ne(c, _) => c@,
        FilterExpr::Like(c, _) => c@,
        FilterExpr::In(c, _) => c@,
        FilterExpr::Between(c, _, _) => c@,
        FilterExpr::IsNull(c) => c@,
        FilterExpr::IsNotNull(c) => c@,
    }
}

/// Whether some listed value matches `v`.
pub open spec fn in_list(v: ValModel, list: Seq<ValModel>) -> bool {
    exists|j: int| 0 <= j < list.len() && val_eq(v, #[trigger] list[j])
}

/// The `LIKE` pattern semantics: a leading and/or trailing `%` makes a
/// substring, suffix or prefix test of the display rendering; a bare
/// pattern must equal it.
pub open spec fn like_matches(pat: Seq<char>, s: Seq<char>) -> bool {
    if starts_with_spec(pat, seq!['%']) && ends_with_spec(pat, seq!['%']) {
        contains_sub(s, trim_char_spec(pat, '%'))
    } else if starts_with_spec(pat, seq!['%']) {
        ends_with_spec(s, trim_start_char_spec(pat, '%'))
    } else if ends_with_spec(pat, seq!['%']) {
        starts_with_spec(s, trim_end_char_spec(pat, '%'))
    } else {
        s == pat
    }
}

/// Whether the row at column position `ci` satisfies the filter. Order
/// comparisons use the value algebra's total order, so a float compares by
/// its bit pattern.
pub open spec fn expr_matches(e: FilterExpr, ci: int, row: Seq<ValModel>) -> bool {
    match e {
        FilterExpr::Eq(_, v) => val_eq(row[ci], v@),
        FilterExpr::Ne(_, v) => !val_eq(row[ci], v@),
        FilterExpr::Gt(_, v) => val_lt(v@, row[ci]),
        FilterExpr::Lt(_, v) => val_lt(row[ci], v@),
        FilterExpr::Ge(_, v) => !val_lt(row[ci], v@),
        FilterExpr::Le(_, v) => !val_lt(v@, row[ci]),
        FilterExpr::Like(_, pat) => like_matches(pat@, val_display(row[ci])),
        FilterExpr::In(_, list) => in_list(row[ci], list.deep_view()),
        FilterExpr::Between(_, lo, hi) => !val_lt(row[ci], lo@) && !val_lt(hi@, row[ci]),
        FilterExpr::IsNull(_) => row[ci] is Null,
        FilterExpr::IsNotNull(_) => !(row[ci] is Null),
    }
}

impl FilterExpr {
    /// The value an equality or order filter compares with; a pattern,
    /// list or null test has none.
    pub fn value(&self) -> (r: Option<&Value>)
        ensures
            match r {
                Some(v) => match self {
                    FilterExpr::Eq(_, w) => v == w,
                    FilterExpr::Ne(_, w) => v == w,
                    FilterExpr::Gt(_, w) => v == w,
                    FilterExpr::Lt(_, w) => v == w,
                    FilterExpr::Ge(_, w) => v == w,
                    FilterExpr::Le(_, w) => v == w,
                    _ => false,
                },
                None => !(self is Eq) && !(self is Ne) && !(self is Gt) && !(self is Lt) && !(self
                    is Ge) && !(self is Le),
            },
    {
        match self {
            FilterExpr::Eq(_, v) => Some(v),
            FilterExpr::Ne(_, v) => Some(v),
            FilterExpr::Gt(_, v) => Some(v),
            FilterExpr::Lt(_, v) => Some(v),
            FilterExpr::Ge(_, v) => Some(v),
            FilterExpr::Le(_, v) => Some(v),
            FilterExpr::Like(_, _) => None,
            FilterExpr::In(_, _) => None,
            FilterExpr::Between(_, _, _) => None,
            FilterExpr::IsNull(_) => None,
            FilterExpr::IsNotNull(_) => None,
        }
    }

    /// The column name the filter speaks of.
    pub fn column(&self) -> (r: &String)
        ensures
            r@ == expr_column(*self),
    {
        match self {
            FilterExpr::Eq(c, _) => c,
            FilterExpr::Gt(c, _) => c,
            FilterExpr::Lt(c, _) => c,
            FilterExpr::Ge(c, _) => c,
            FilterExpr::Le(c, _) => c,
            FilterExpr::Ne(c, _) => c,
            FilterExpr::Like(c, _) => c,
            FilterExpr::In(c, _) => c,
            FilterExpr::Between(c, _, _) => c,
            FilterExpr::IsNull(c) => c,
            FilterExpr::IsNotNull(c) => c,
        }
    }

    /// The compiled predicate, applied to one row at the resolved column
    /// position.
    #[verifier::loop_isolation(false)]
    pub fn matches_row(&self, ci: usize, row: &Vec<Value>) -> (r: bool)
        requires
            (ci as int) < row.deep_view().len(),
        ensures
            r == expr_matches(*self, ci as int, row.deep_view()),
    {
        proof {
            assert(row.deep_view()[ci as int] == row@[ci as int]@);
        }
        match self {
            FilterExpr::Eq(_, v) => row[ci].eq_val(v),
            FilterExpr::Ne(_, v) => !row[ci].eq_val(v),
            FilterExpr::Gt(_, v) => v.lt_val(&row[ci]),
            FilterExpr::Lt(_, v) => row[ci].lt_val(v),
            FilterExpr::Ge(_, v) => !row[ci].lt_val(v),
            FilterExpr::Le(_, v) => !v.lt_val(&row[ci]),
            FilterExpr::Like(_, pattern) => {
                let shown = row[ci].to_display_string();
                let sv = chars_of(shown.as_str());
                let pv = chars_of(pattern.as_str());
                let mut pct: Vec<char> = Vec::new();
                pct.push('%');
                proof {
                    assert(pct@ =~= seq!['%']);
                }
                let starts = starts_with_chars(&pv, &pct);
                let ends = ends_with_chars(&pv, &pct);
                if starts && ends {
                    let inner = trim_chars_matching(&pv, '%');
                    find_sub(&sv, &inner).is_some()
                } else if starts {
                    let mut i: usize = 0;
                    while i < pv.len() && pv[i] == '%'
                        invariant
                            i <= pv@.len(),
                            forall|k: int| 0 <= k < i ==> pv@[k] == '%',
                        decreases pv@.len() - i,
                    {
                        i = i + 1;
                    }
                    proof {
                        crate::chars::lemma_trim_start_char(pv@, '%', i as int);
                    }
                    let inner = crate::chars::sub_chars(&pv, i, pv.len());
                    ends_with_chars(&sv, &inner)
                } else if ends {
                    let mut j: usize = pv.len();
                    while j > 0 && pv[j - 1] == '%'
                        invariant
                            j <= pv@.len(),
                            forall|k: int| j <= k < pv@.len() ==> pv@[k] == '%',
                        decreases j,
                    {
                        j = j - 1;
                    }
                    proof {
                        crate::chars::lemma_trim_end_char(pv@, '%', j as int);
                    }
                    let inner = crate::chars::sub_chars(&pv, 0, j);
                    starts_with_chars(&sv, &inner)
                } else {
                    chars_eq(&sv, &pv)
                }
            },
            FilterExpr::In(_, list) => {
                let mut j: usize = 0;
                while j < list.len()
                    invariant
                        j <= list@.len(),
                        forall|k: int| 0 <= k < j ==> !val_eq(
                            row.deep_view()[ci as int],
                            #[trigger] list.deep_view()[k],
                        ),
                    decreases list@.len() - j,
                {
                    if row[ci].eq_val(&list[j]) {
                        proof {
                            assert(val_eq(row.deep_view()[ci as int], list.deep_view()[j as int]));
                        }
                        return true;
                    }
                    j = j + 1;
                }
                false
            },
            FilterExpr::Between(_, lo, hi) => !row[ci].lt_val(lo) && !hi.lt_val(&row[ci]),
            FilterExpr::IsNull(_) => matches!(&row[ci], Value::Null),
            FilterExpr::IsNotNull(_) => !matches!(&row[ci], Value::Null),
        }
    }

    /// Builds an equality filter from a column name and a value.
    pub fn eq_filter(col: &str, v: Value) -> (r: FilterExpr)
        ensures
            r matches FilterExpr::Eq(c, w) && c@ == col@ && w == v,
    {
        FilterExpr::Eq(col.to_owned(), v)
    }

    /// Builds an inequality filter.
    pub fn ne_filter(col: &str, v: Value) -> (r: FilterExpr)
        ensures
            r matches FilterExpr::Ne(c, w) && c@ == col@ && w == v,
    {
        FilterExpr::Ne(col.to_owned(), v)
    }

    /// Builds a greater-than filter.
    pub fn gt_filter(col: &str, v: Value) -> (r: FilterExpr)
        ensures
            r matches FilterExpr::Gt(c, w) && c@ == col@ && w == v,
    {
        FilterExpr::Gt(col.to_owned(), v)
    }

    /// Builds a less-than filter.
    pub fn lt_filter(col: &str, v: Value) -> (r: FilterExpr)
        ensures
            r matches FilterExpr::Lt(c, w) && c@ == col@ && w == v,
    {
        FilterExpr::Lt(col.to_owned(), v)
    }

    /// Builds a greater-or-equal filter.
    pub fn ge_filter(col: &str, v: Value) -> (r: FilterExpr)
        ensures
            r matches FilterExpr::Ge(c, w) && c@ == col@ && w == v,
    {
        FilterExpr::Ge(col.to_owned(), v)
    }

    /// Builds a less-or-equal filter.
    pub fn le_filter(col: &str, v: Value) -> (r: FilterExpr)
        ensures
            r matches FilterExpr::Le(c, w) && c@ == col@ && w == v,
    {
        FilterExpr::Le(col.to_owned(), v)
    }
}

} // verus!

//! The value algebra and the table, column and index types.
//!
//! A floating-point entry is held as its bit pattern together with the
//! textual rendering it had at the boundary: the engine itself never does
//! floating-point arithmetic, it only compares bit patterns and reuses the
//! rendering for display. A date, time or datetime is held as its calendar
//! fields.

use vstd::prelude::*;
use crate::table::model::{ValModel, ColModel, OptModel, rank, val_eq, val_lt, seqs_lt};

verus! {

/// The declared type of a column.
#[derive(Debug, Clone, Copy, PartialEq, Eq, Structural)]
pub enum DataType {
    Char,
    Varchar,
    Text,
    Enum,
    SetVal,
    Boolean,
    Int,
    BigInt,
    Float,
    Double,
    Date,
    Time,
    DateTime,
}

/// A single stored value. `Float`/`Double` carry (bit pattern, rendering);
/// `Enum` carries (selected, allowed list); `SetVal` carries
/// (selected list, allowed list); `Date` carries (year, month, day);
/// `Time` carries (hour, minute, second); `DateTime` carries both.
#[derive(Debug, PartialEq)]
pub enum Value {
    Char(char),
    Varchar(String),
    Text(String),
    Enum(String, Vec<String>),
    SetVal(Vec<String>, Vec<String>),
    Boolean(bool),
    Int(i32),
    BigInt(i64),
    Float(u32, String),
    Double(u64, String),
    Date(i32, u32, u32),
    Time(u32, u32, u32),
    DateTime(i32, u32, u32, u32, u32, u32),
    Null,
}

impl View for Value {
    type V = ValModel;

    open spec fn view(&self) -> ValModel {
        match self {
            Value::Char(c) => ValModel::Char(*c),
            Value::Varchar(s) => ValModel::Varchar(s@),
            Value::Text(s) => ValModel::Text(s@),
            Value::Enum(sel, allowed) => ValModel::Enum(sel@, allowed.deep_view()),
            Value::SetVal(sels, allowed) => ValModel::SetVal(sels.deep_view(), allowed.deep_view()),
            Value::Boolean(b) => ValModel::Boolean(*b),
            Value::Int(i) => ValModel::Int(*i as int),
            Value::BigInt(i) => ValModel::BigInt(*i as int),
            Value::Float(bits, text) => ValModel::Float(*bits, text@),
            Value::Double(bits, text) => ValModel::Double(*bits, text@),
            Value::Date(y, m, d) => ValModel::Date(*y as int, *m as int, *d as int),
            Value::Time(h, mi, s) => ValModel::Time(*h as int, *mi as int, *s as int),
            Value::DateTime(y, m, d, h, mi, s) => ValModel::DateTime(
                *y as int,
                *m as int,
                *d as int,
                *h as int,
                *mi as int,
                *s as int,
            ),
            Value::Null => ValModel::Null,
        }
    }
}

impl DeepView for Value {
    type V = ValModel;

    open spec fn deep_view(&self) -> ValModel {
        self.view()
    }
}

/// A constraint or annotation on a column.
#[derive(Debug, PartialEq)]
pub enum Options {
    Unique,
    NotNull,
    /// Foreign key to the named table.
    FK(String),
    /// A textual constraint restricted to the `"column = literal"` form.
    Check(String),
    Default(Value),
    Autoincrement,
}

impl View for Options {
    type V = OptModel;

    open spec fn view(&self) -> OptModel {
        match self {
            Options::Unique => OptModel::Unique,
            Options::NotNull => OptModel::NotNull,
            Options::FK(t) => OptModel::FK(t@),
            Options::Check(e) => OptModel::Check(e@),
            Options::Default(v) => OptModel::Default(v@),
            Options::Autoincrement => OptModel::Autoincrement,
        }
    }
}

impl DeepView for Options {
    type V = OptModel;

    open spec fn deep_view(&self) -> OptModel {
        self.view()
    }
}

/// A schema column: its name, declared type and constraint list.
#[derive(Debug, PartialEq)]
pub struct Column {
    pub name: String,
    pub datatype: DataType,
    pub options: Vec<Options>,
}

impl View for Column {
    type V = ColModel;

    open spec fn view(&self) -> ColModel {
        ColModel { name: self.name@, datatype: self.datatype, options: self.options.deep_view() }
    }
}

impl DeepView for Column {
    type V = ColModel;

    open spec fn deep_view(&self) -> ColModel {
        self.view()
    }
}

pub type DBRows = Vec<Value>;

/// One key of a secondary index: a value and the positions of the rows
/// holding it, kept in strictly ascending order.
#[derive(Debug)]
pub struct IndexEntry {
    pub key: Value,
    pub positions: Vec<usize>,
}

/// A secondary index over one column: an association list from value to row
/// positions. `Hash` answers equality lookups; `BTree` also answers range
/// lookups.
#[derive(Debug)]
pub enum IndexType {
    Hash(Vec<IndexEntry>),
    BTree(Vec<IndexEntry>),
}

/// A named index: the column it covers and its entries.
#[derive(Debug)]
pub struct ColumnIndex {
    pub column: String,
    pub index: IndexType,
}

/// A table: ordered columns, ordered rows (each positionally aligned with
/// the columns), an optional composite primary key, secondary indexes, and
/// an optional full-row snapshot held while a transaction is open.
#[derive(Debug)]
pub struct Table {
    pub name: String,
    pub columns: Vec<Column>,
    pub rows: Vec<Vec<Value>>,
    pub primary_key: Option<Vec<String>>,
    pub indexes: Vec<ColumnIndex>,
    pub transaction_backup: Option<Vec<Vec<Value>>>,
}

/// A filter predicate over (column name, value or values).
#[derive(Debug)]
pub enum FilterExpr {
    Eq(String, Value),
    Gt(String, Value),
    Lt(String, Value),
    Ge(String, Value),
    Le(String, Value),
    Ne(String, Value),
    /// A pattern with optional leading/trailing `%` wildcard.
    Like(String, String),
    In(String, Vec<Value>),
    Between(String, Value, Value),
    IsNull(String),
    IsNotNull(String),
}

/// The result of one aggregation. Sums and averages are exact: `Sum` is the
/// sum of the integer entries; `Avg` is (sum, number of contributing
/// entries), the quotient being left to the caller.
#[derive(Debug, PartialEq)]
pub enum AggregationResult {
    Sum(i128),
    Avg(i128, usize),
    Count(usize),
    Min(Value),
    Max(Value),
}

/// A copy of a string vector whose model is the original's.
pub fn clone_strings(v: &Vec<String>) -> (r: Vec<String>)
    ensures
        r.deep_view() == v.deep_view(),
        r@.len() == v@.len(),
{
    let mut r: Vec<String> = Vec::new();
    let mut i: usize = 0;
    while i < v.len()
        invariant
            i <= v.len(),
            r@.len() == i,
            forall|j: int| 0 <= j < i ==> r@[j]@ == #[trigger] v@[j]@,
        decreases v.len() - i,
    {
        r.push(v[i].clone());
        i = i + 1;
    }
    proof {
        assert(r.deep_view() =~~= v.deep_view());
    }
    r
}

/// Equality of two string vectors at the model level.
pub fn strings_eq(a: &Vec<String>, b: &Vec<String>) -> (r: bool)
    ensures
        r == (a.deep_view() == b.deep_view()),
{
    if a.len() != b.len() {
        proof {
            assert(a.deep_view().len() == a@.len());
            assert(b.deep_view().len() == b@.len());
        }
        return false;
    }
    let mut i: usize = 0;
    while i < a.len()
        invariant
            a@.len() == b@.len(),
            i <= a.len(),
            forall|j: int| 0 <= j < i ==> a@[j]@ == #[trigger] b@[j]@,
        decreases a.len() - i,
    {
        if !(a[i] == b[i]) {
            proof {
                assert(a.deep_view()[i as int] != b.deep_view()[i as int]);
            }
            return false;
        }
        i = i + 1;
    }
    proof {
        assert(a.deep_view() =~~= b.deep_view());
    }
    true
}

/// Lexicographic strict comparison of two string vectors at the model level.
pub fn strings_lt(a: &Vec<String>, b: &Vec<String>) -> (r: bool)
    ensures
        r == seqs_lt(a.deep_view(), b.deep_view()),
{
    let ghost ad = a.deep_view();
    let ghost bd = b.deep_view();
    let mut i: usize = 0;
    proof {
        assert(ad.subrange(0, ad.len() as int) =~= ad);
        assert(bd.subrange(0, bd.len() as int) =~= bd);
    }
    loop
        invariant
            ad == a.deep_view(),
            bd == b.deep_view(),
            ad.len() == a@.len(),
            bd.len() == b@.len(),
            i <= a.len(),
            i <= b.len(),
            seqs_lt(ad, bd) == seqs_lt(
                ad.subrange(i as int, ad.len() as int),
                bd.subrange(i as int, bd.len() as int),
            ),
        decreases a.len() - i,
    {
        proof {
            let ar = ad.subrange(i as int, ad.len() as int);
            let br = bd.subrange(i as int, bd.len() as int);
            if i < a.len() && i < b.len() && ad[i as int] == bd[i as int] {
                assert(ar.drop_first() =~= ad.subrange(i as int + 1, ad.len() as int));
                assert(br.drop_first() =~= bd.subrange(i as int + 1, bd.len() as int));
            }
        }
        if i >= b.len() {
            return false;
        }
        if i >= a.len() {
            return true;
        }
        if a[i] == b[i] {
            i = i + 1;
        } else {
            let ca = crate::chars::chars_of(a[i].as_str());
            let cb = crate::chars::chars_of(b[i].as_str());
            return crate::chars::chars_lt(&ca, &cb);
        }
    }
}

impl Value {
    /// The fixed variant order used when values of distinct variants are
    /// compared.
    pub fn variant_index(&self) -> (r: u8)
        ensures
            r as int == rank(self@),
    {
        match self {
            Value::Char(_) => 0,
            Value::Varchar(_) => 1,
            Value::Text(_) => 2,
            Value::Enum(_, _) => 3,
            Value::SetVal(_, _) => 4,
            Value::Boolean(_) => 5,
            Value::Int(_) => 6,
            Value::BigInt(_) => 7,
            Value::Float(_, _) => 8,
            Value::Double(_, _) => 9,
            Value::Date(_, _, _) => 10,
            Value::Time(_, _, _) => 11,
            Value::DateTime(_, _, _, _, _, _) => 12,
            Value::Null => 13,
        }
    }

    /// Semantic equality: a float by its bit pattern, everything else by
    /// content; values of distinct variants are never equal.
    pub fn eq_val(&self, other: &Value) -> (r: bool)
        ensures
            r == val_eq(self@, other@),
    {
        match (self, other) {
            (Value::Char(x), Value::Char(y)) => *x == *y,
            (Value::Varchar(x), Value::Varchar(y)) => *x == *y,
            (Value::Text(x), Value::Text(y)) => *x == *y,
            (Value::Enum(s1, a1), Value::Enum(s2, a2)) => *s1 == *s2 && strings_eq(a1, a2),
            (Value::SetVal(s1, a1), Value::SetVal(s2, a2)) => strings_eq(s1, s2) && strings_eq(
                a1,
                a2,
            ),
            (Value::Boolean(x), Value::Boolean(y)) => *x == *y,
            (Value::Int(x), Value::Int(y)) => *x == *y,
            (Value::BigInt(x), Value::BigInt(y)) => *x == *y,
            (Value::Float(x, _), Value::Float(y, _)) => *x == *y,
            (Value::Double(x, _), Value::Double(y, _)) => *x == *y,
            (Value::Date(y1, m1, d1), Value::Date(y2, m2, d2)) => *y1 == *y2 && *m1 == *m2 && *d1
                == *d2,
            (Value::Time(h1, m1, s1), Value::Time(h2, m2, s2)) => *h1 == *h2 && *m1 == *m2 && *s1
                == *s2,
            (
                Value::DateTime(y1, mo1, d1, h1, mi1, s1),
                Value::DateTime(y2, mo2, d2, h2, mi2, s2),
            ) => *y1 == *y2 && *mo1 == *mo2 && *d1 == *d2 && *h1 == *h2 && *mi1 == *mi2 && *s1
                == *s2,
            (Value::Null, Value::Null) => true,
            _ => false,
        }
    }

    /// The strict total order on values: the fixed variant order across
    /// variants, content order within one.
    pub fn lt_val(&self, other: &Value) -> (r: bool)
        ensures
            r == val_lt(self@, other@),
    {
        match (self, other) {
            (Value::Char(x), Value::Char(y)) => *x < *y,
            (Value::Varchar(x), Value::Varchar(y)) => {
                let cx = crate::chars::chars_of(x.as_str());
                let cy = crate::chars::chars_of(y.as_str());
                crate::chars::chars_lt(&cx, &cy)
            },
            (Value::Text(x), Value::Text(y)) => {
                let cx = crate::chars::chars_of(x.as_str());
                let cy = crate::chars::chars_of(y.as_str());
                crate::chars::chars_lt(&cx, &cy)
            },
            (Value::Enum(s1, a1), Value::Enum(s2, a2)) => {
                let c1 = crate::chars::chars_of(s1.as_str());
                let c2 = crate::chars::chars_of(s2.as_str());
                if crate::chars::chars_lt(&c1, &c2) {
                    true
                } else {
                    *s1 == *s2 && strings_lt(a1, a2)
                }
            },
            (Value::SetVal(s1, a1), Value::SetVal(s2, a2)) => {
                if strings_lt(s1, s2) {
                    true
                } else {
                    strings_eq(s1, s2) && strings_lt(a1, a2)
                }
            },
            (Value::Boolean(x), Value::Boolean(y)) => !*x && *y,
            (Value::Int(x), Value::Int(y)) => *x < *y,
            (Value::BigInt(x), Value::BigInt(y)) => *x < *y,
            (Value::Float(x, _), Value::Float(y, _)) => *x < *y,
            (Value::Double(x, _), Value::Double(y, _)) => *x < *y,
            (Value::Date(y1, m1, d1), Value::Date(y2, m2, d2)) => *y1 < *y2 || (*y1 == *y2 && (*m1
                < *m2 || (*m1 == *m2 && *d1 < *d2))),
            (Value::Time(h1, m1, s1), Value::Time(h2, m2, s2)) => *h1 < *h2 || (*h1 == *h2 && (*m1
                < *m2 || (*m1 == *m2 && *s1 < *s2))),
            (
                Value::DateTime(y1, mo1, d1, h1, mi1, s1),
                Value::DateTime(y2, mo2, d2, h2, mi2, s2),
            ) => *y1 < *y2 || (*y1 == *y2 && (*mo1 < *mo2 || (*mo1 == *mo2 && (*d1 < *d2 || (*d1
                == *d2 && (*h1 < *h2 || (*h1 == *h2 && (*mi1 < *mi2 || (*mi1 == *mi2 && *s1
                < *s2))))))))),
            (Value::Null, Value::Null) => false,
            _ => self.variant_index() < other.variant_index(),
        }
    }
}

impl Clone for Value {
    /// A copy whose model is the original's.
    fn clone(&self) -> (res: Self)
        ensures
            res@ == self@,
    {
        match self {
            Value::Char(c) => Value::Char(*c),
            Value::Varchar(s) => Value::Varchar(s.clone()),
            Value::Text(s) => Value::Text(s.clone()),
            Value::Enum(sel, allowed) => Value::Enum(sel.clone(), clone_strings(allowed)),
            Value::SetVal(sels, allowed) => Value::SetVal(
                clone_strings(sels),
                clone_strings(allowed),
            ),
            Value::Boolean(b) => Value::Boolean(*b),
            Value::Int(i) => Value::Int(*i),
            Value::BigInt(i) => Value::BigInt(*i),
            Value::Float(bits, text) => Value::Float(*bits, text.clone()),
            Value::Double(bits, text) => Value::Double(*bits, text.clone()),
            Value::Date(y, m, d) => Value::Date(*y, *m, *d),
            Value::Time(h, mi, s) => Value::Time(*h, *mi, *s),
            Value::DateTime(y, m, d, h, mi, s) => Value::DateTime(*y, *m, *d, *h, *mi, *s),
            Value::Null => Value::Null,
        }
    }
}

impl Clone for Options {
    /// A copy whose model is the original's.
    fn clone(&self) -> (res: Self)
        ensures
            res@ == self@,
    {
        match self {
            Options::Unique => Options::Unique,
            Options::NotNull => Options::NotNull,
            Options::FK(t) => Options::FK(t.clone()),
            Options::Check(e) => Options::Check(e.clone()),
            Options::Default(v) => Options::Default(v.clone()),
            Options::Autoincrement => Options::Autoincrement,
        }
    }
}

/// A copy of an option list whose model is the original's.
pub fn clone_options(v: &Vec<Options>) -> (r: Vec<Options>)
    ensures
        r.deep_view() == v.deep_view(),
        r@.len() == v@.len(),
{
    let mut r: Vec<Options> = Vec::new();
    let mut i: usize = 0;
    while i < v.len()
        invariant
            i <= v.len(),
            r@.len() == i,
            forall|j: int| 0 <= j < i ==> r@[j]@ == #[trigger] v@[j]@,
        decreases v.len() - i,
    {
        r.push(v[i].clone());
        i = i + 1;
    }
    proof {
        assert(r.deep_view() =~~= v.deep_view());
    }
    r
}

impl Clone for Column {
    /// A copy whose model is the original's.
    fn clone(&self) -> (res: Self)
        ensures
            res@ == self@,
    {
        let res = Column {
            name: self.name.clone(),
            datatype: self.datatype,
            options: clone_options(&self.options),
        };
        proof {
            assert(res@ =~~= self@);
        }
        res
    }
}

/// A copy of a row whose model is the original's.
pub fn clone_row(v: &Vec<Value>) -> (r: Vec<Value>)
    ensures
        r.deep_view() == v.deep_view(),
        r@.len() == v@.len(),
{
    let mut r: Vec<Value> = Vec::new();
    let mut i: usize = 0;
    while i < v.len()
        invariant
            i <= v.len(),
            r@.len() == i,
            forall|j: int| 0 <= j < i ==> r@[j]@ == #[trigger] v@[j]@,
        decreases v.len() - i,
    {
        r.push(v[i].clone());
        i = i + 1;
    }
    proof {
        assert(r.deep_view() =~~= v.deep_view());
    }
    r
}

/// A copy of a row list whose model is the original's.
pub fn clone_rows(v: &Vec<Vec<Value>>) -> (r: Vec<Vec<Value>>)
    ensures
        r.deep_view() == v.deep_view(),
        r@.len() == v@.len(),
{
    let mut r: Vec<Vec<Value>> = Vec::new();
    let mut i: usize = 0;
    while i < v.len()
        invariant
            i <= v.len(),
            r@.len() == i,
            forall|j: int| 0 <= j < i ==> r@[j].deep_view() == #[trigger] v@[j].deep_view(),
        decreases v.len() - i,
    {
        r.push(clone_row(&v[i]));
        i = i + 1;
    }
    proof {
        assert(r.deep_view() =~~= v.deep_view());
    }
    r
}

} // verus!

//! The mathematical model of values, columns and rows, with the total order
//! and the semantic equality that the engine's contracts are stated over.
//!
//! Two values are semantically equal (`val_eq`) when they agree on
//! everything the engine compares: a float by its bit pattern (its carried
//! rendering is ignored), every other variant by its content. The strict
//! total order `val_lt` ranks distinct variants by a fixed variant order and
//! compares within a variant: strings lexicographically by character, floats
//! by bit pattern, composites lexicographically by component.

use vstd::prelude::*;
use crate::table::data::DataType;

verus! {

/// The model of a stored value.
#[verifier::ext_equal]
pub enum ValModel {
    Char(char),
    Varchar(Seq<char>),
    Text(Seq<char>),
    Enum(Seq<char>, Seq<Seq<char>>),
    SetVal(Seq<Seq<char>>, Seq<Seq<char>>),
    Boolean(bool),
    Int(int),
    BigInt(int),
    Float(u32, Seq<char>),
    Double(u64, Seq<char>),
    Date(int, int, int),
    Time(int, int, int),
    DateTime(int, int, int, int, int, int),
    Null,
}

/// The model of a column option.
#[verifier::ext_equal]
pub enum OptModel {
    Unique,
    NotNull,
    FK(Seq<char>),
    Check(Seq<char>),
    Default(ValModel),
    Autoincrement,
}

/// The model of a schema column.
#[verifier::ext_equal]
pub struct ColModel {
    pub name: Seq<char>,
    pub datatype: DataType,
    pub options: Seq<OptModel>,
}

/// The fixed variant order used when values of distinct variants are
/// compared.
pub open spec fn rank(v: ValModel) -> int {
    match v {
        ValModel::Char(_) => 0,
        ValModel::Varchar(_) => 1,
        ValModel::Text(_) => 2,
        ValModel::Enum(_, _) => 3,
        ValModel::SetVal(_, _) => 4,
        ValModel::Boolean(_) => 5,
        ValModel::Int(_) => 6,
        ValModel::BigInt(_) => 7,
        ValModel::Float(_, _) => 8,
        ValModel::Double(_, _) => 9,
        ValModel::Date(_, _, _) => 10,
        ValModel::Time(_, _, _) => 11,
        ValModel::DateTime(_, _, _, _, _, _) => 12,
        ValModel::Null => 13,
    }
}

/// The comparison key of a value: the value itself with a float's carried
/// rendering erased, so that floats with equal bit patterns share a key.
pub open spec fn vkey(v: ValModel) -> ValModel {
    match v {
        ValModel::Float(bits, _) => ValModel::Float(bits, Seq::empty()),
        ValModel::Double(bits, _) => ValModel::Double(bits, Seq::empty()),
        _ => v,
    }
}

/// Semantic equality of two values: equality of their comparison keys.
pub open spec fn val_eq(a: ValModel, b: ValModel) -> bool {
    vkey(a) == vkey(b)
}

/// Strict lexicographic order on character sequences.
pub open spec fn seq_lt(a: Seq<char>, b: Seq<char>) -> bool
    decreases a.len(),
{
    if b.len() == 0 {
        false
    } else if a.len() == 0 {
        true
    } else if a[0] == b[0] {
        seq_lt(a.drop_first(), b.drop_first())
    } else {
        a[0] < b[0]
    }
}

/// Strict lexicographic order on sequences of character sequences.
pub open spec fn seqs_lt(a: Seq<Seq<char>>, b: Seq<Seq<char>>) -> bool
    decreases a.len(),
{
    if b.len() == 0 {
        false
    } else if a.len() == 0 {
        true
    } else if a[0] == b[0] {
        seqs_lt(a.drop_first(), b.drop_first())
    } else {
        seq_lt(a[0], b[0])
    }
}

/// The strict total order on values (modulo `val_eq`).
pub open spec fn val_lt(a: ValModel, b: ValModel) -> bool {
    if rank(a) != rank(b) {
        rank(a) < rank(b)
    } else {
        match (a, b) {
            (ValModel::Char(x), ValModel::Char(y)) => x < y,
            (ValModel::Varchar(x), ValModel::Varchar(y)) => seq_lt(x, y),
            (ValModel::Text(x), ValModel::Text(y)) => seq_lt(x, y),
            (ValModel::Enum(s1, a1), ValModel::Enum(s2, a2)) => seq_lt(s1, s2) || (s1 == s2
                && seqs_lt(a1, a2)),
            (ValModel::SetVal(s1, a1), ValModel::SetVal(s2, a2)) => seqs_lt(s1, s2) || (s1 == s2
                && seqs_lt(a1, a2)),
            (ValModel::Boolean(x), ValModel::Boolean(y)) => !x && y,
            (ValModel::Int(x), ValModel::Int(y)) => x < y,
            (ValModel::BigInt(x), ValModel::BigInt(y)) => x < y,
            (ValModel::Float(x, _), ValModel::Float(y, _)) => x < y,
            (ValModel::Double(x, _), ValModel::Double(y, _)) => x < y,
            (ValModel::Date(y1, m1, d1), ValModel::Date(y2, m2, d2)) => y1 < y2 || (y1 == y2 && (m1
                < m2 || (m1 == m2 && d1 < d2))),
            (ValModel::Time(h1, m1, s1), ValModel::Time(h2, m2, s2)) => h1 < h2 || (h1 == h2 && (m1
                < m2 || (m1 == m2 && s1 < s2))),
            (
                ValModel::DateTime(y1, mo1, d1, h1, mi1, s1),
                ValModel::DateTime(y2, mo2, d2, h2, mi2, s2),
            ) => y1 < y2 || (y1 == y2 && (mo1 < mo2 || (mo1 == mo2 && (d1 < d2 || (d1 == d2 && (h1
                < h2 || (h1 == h2 && (mi1 < mi2 || (mi1 == mi2 && s1 < s2))))))))),
            _ => false,
        }
    }
}

pub proof fn lemma_seq_lt_asym(a: Seq<char>, b: Seq<char>)
    ensures
        seq_lt(a, b) ==> !seq_lt(b, a),
    decreases a.len(),
{
    if a.len() > 0 && b.len() > 0 && a[0] == b[0] {
        lemma_seq_lt_asym(a.drop_first(), b.drop_first());
    }
}

pub proof fn lemma_seq_lt_trans(a: Seq<char>, b: Seq<char>, c: Seq<char>)
    ensures
        seq_lt(a, b) && seq_lt(b, c) ==> seq_lt(a, c),
    decreases a.len(),
{
    if a.len() > 0 && b.len() > 0 && c.len() > 0 {
        lemma_seq_lt_trans(a.drop_first(), b.drop_first(), c.drop_first());
    }
}

/// Totality: two character sequences neither of which precedes the other
/// are equal.
pub proof fn lemma_seq_lt_total(a: Seq<char>, b: Seq<char>)
    ensures
        !seq_lt(a, b) && !seq_lt(b, a) ==> a == b,
    decreases a.len(),
{
    if !seq_lt(a, b) && !seq_lt(b, a) {
        if a.len() > 0 && b.len() > 0 && a[0] == b[0] {
            lemma_seq_lt_total(a.drop_first(), b.drop_first());
            assert(a =~= seq![a[0]] + a.drop_first());
            assert(b =~= seq![b[0]] + b.drop_first());
        } else {
            assert(a =~= b);
        }
    }
}

pub proof fn lemma_seqs_lt_asym(a: Seq<Seq<char>>, b: Seq<Seq<char>>)
    ensures
        seqs_lt(a, b) ==> !seqs_lt(b, a),
    decreases a.len(),
{
    if a.len() > 0 && b.len() > 0 {
        if a[0] == b[0] {
            lemma_seqs_lt_asym(a.drop_first(), b.drop_first());
        } else {
            lemma_seq_lt_asym(a[0], b[0]);
        }
    }
}

pub proof fn lemma_seqs_lt_trans(a: Seq<Seq<char>>, b: Seq<Seq<char>>, c: Seq<Seq<char>>)
    ensures
        seqs_lt(a, b) && seqs_lt(b, c) ==> seqs_lt(a, c),
    decreases a.len(),
{
    if a.len() > 0 && b.len() > 0 && c.len() > 0 {
        lemma_seqs_lt_trans(a.drop_first(), b.drop_first(), c.drop_first());
        lemma_seq_lt_trans(a[0], b[0], c[0]);
        lemma_seq_lt_total(a[0], b[0]);
        lemma_seq_lt_total(b[0], c[0]);
        lemma_seq_lt_asym(a[0], b[0]);
        lemma_seq_lt_asym(b[0], c[0]);
    }
}

pub proof fn lemma_seqs_lt_total(a: Seq<Seq<char>>, b: Seq<Seq<char>>)
    ensures
        !seqs_lt(a, b) && !seqs_lt(b, a) ==> a == b,
    decreases a.len(),
{
    if !seqs_lt(a, b) && !seqs_lt(b, a) {
        if a.len() > 0 && b.len() > 0 {
            lemma_seq_lt_total(a[0], b[0]);
            lemma_seqs_lt_total(a.drop_first(), b.drop_first());
            assert(a =~= seq![a[0]] + a.drop_first());
            assert(b =~= seq![b[0]] + b.drop_first());
        } else {
            assert(a =~= b);
        }
    }
}

/// Asymmetry of the value order.
pub proof fn lemma_val_lt_asym(a: ValModel, b: ValModel)
    ensures
        val_lt(a, b) ==> !val_lt(b, a),
{
    match (a, b) {
        (ValModel::Varchar(x), ValModel::Varchar(y)) => lemma_seq_lt_asym(x, y),
        (ValModel::Text(x), ValModel::Text(y)) => lemma_seq_lt_asym(x, y),
        (ValModel::Enum(s1, a1), ValModel::Enum(s2, a2)) => {
            lemma_seq_lt_asym(s1, s2);
            lemma_seqs_lt_asym(a1, a2);
        },
        (ValModel::SetVal(s1, a1), ValModel::SetVal(s2, a2)) => {
            lemma_seqs_lt_asym(s1, s2);
            lemma_seqs_lt_asym(a1, a2);
        },
        _ => {},
    }
}

/// Transitivity of the value order.
pub proof fn lemma_val_lt_trans(a: ValModel, b: ValModel, c: ValModel)
    ensures
        val_lt(a, b) && val_lt(b, c) ==> val_lt(a, c),
{
    if val_lt(a, b) && val_lt(b, c) {
        match (a, b, c) {
            (ValModel::Varchar(x), ValModel::Varchar(y), ValModel::Varchar(z)) => lemma_seq_lt_trans(
                x,
                y,
                z,
            ),
            (ValModel::Text(x), ValModel::Text(y), ValModel::Text(z)) => lemma_seq_lt_trans(
                x,
                y,
                z,
            ),
            (ValModel::Enum(s1, a1), ValModel::Enum(s2, a2), ValModel::Enum(s3, a3)) => {
                lemma_seq_lt_trans(s1, s2, s3);
                lemma_seqs_lt_trans(a1, a2, a3);
                lemma_seq_lt_total(s1, s2);
                lemma_seq_lt_total(s2, s3);
                lemma_seq_lt_asym(s1, s2);
                lemma_seq_lt_asym(s2, s3);
            },
            (ValModel::SetVal(s1, a1), ValModel::SetVal(s2, a2), ValModel::SetVal(s3, a3)) => {
                lemma_seqs_lt_trans(s1, s2, s3);
                lemma_seqs_lt_trans(a1, a2, a3);
                lemma_seqs_lt_total(s1, s2);
                lemma_seqs_lt_total(s2, s3);
                lemma_seqs_lt_asym(s1, s2);
                lemma_seqs_lt_asym(s2, s3);
            },
            _ => {},
        }
    }
}

/// Totality: values neither of which precedes the other are semantically
/// equal.
pub proof fn lemma_val_lt_total(a: ValModel, b: ValModel)
    ensures
        !val_lt(a, b) && !val_lt(b, a) ==> val_eq(a, b),
{
    if !val_lt(a, b) && !val_lt(b, a) {
        match (a, b) {
            (ValModel::Varchar(x), ValModel::Varchar(y)) => lemma_seq_lt_total(x, y),
            (ValModel::Text(x), ValModel::Text(y)) => lemma_seq_lt_total(x, y),
            (ValModel::Enum(s1, a1), ValModel::Enum(s2, a2)) => {
                lemma_seq_lt_total(s1, s2);
                lemma_seqs_lt_total(a1, a2);
            },
            (ValModel::SetVal(s1, a1), ValModel::SetVal(s2, a2)) => {
                lemma_seqs_lt_total(s1, s2);
                lemma_seqs_lt_total(a1, a2);
            },
            _ => {},
        }
    }
}

/// The order only looks at the comparison key, so semantically equal values
/// compare alike against everything.
pub proof fn lemma_val_lt_congruence(a: ValModel, b: ValModel, c: ValModel)
    ensures
        val_eq(a, b) ==> (val_lt(a, c) == val_lt(b, c)),
        val_eq(a, b) ==> (val_lt(c, a) == val_lt(c, b)),
{
}

/// The position of the first column with the given name, searching from
/// position `i`.
pub open spec fn col_position_from(cols: Seq<ColModel>, name: Seq<char>, i: int) -> Option<int>
    decreases cols.len() - i,
{
    if i < 0 || i >= cols.len() {
        None
    } else if cols[i].name == name {
        Some(i)
    } else {
        col_position_from(cols, name, i + 1)
    }
}

/// The position of the first column with the given name.
pub open spec fn col_position(cols: Seq<ColModel>, name: Seq<char>) -> Option<int> {
    col_position_from(cols, name, 0)
}


} // verus!

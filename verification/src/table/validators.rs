//! Schema and row validation: column well-formedness, the per-row
//! constraint checks, and default/autoincrement resolution.

use vstd::prelude::*;
use vstd::string::StringExecFns;
use crate::chars::{chars_of, chars_eq, sub_chars, trim_chars, find_sub, first_match, match_at, trim_spec};
use crate::errors::DbError;
use crate::table::data::{Table, Column, Options, Value, DataType, DBRows};
use crate::table::model::{
    ValModel, ColModel, OptModel, val_eq, col_position, col_position_from,
};

verus! {

/// Whether the option list carries `Unique`.
pub open spec fn has_unique(opts: Seq<OptModel>) -> bool {
    exists|j: int| 0 <= j < opts.len() && opts[j] is Unique
}

/// Whether the option list carries `NotNull`.
pub open spec fn has_not_null(opts: Seq<OptModel>) -> bool {
    exists|j: int| 0 <= j < opts.len() && opts[j] is NotNull
}

/// Whether the option list carries `Autoincrement`.
pub open spec fn has_autoincrement(opts: Seq<OptModel>) -> bool {
    exists|j: int| 0 <= j < opts.len() && opts[j] is Autoincrement
}

/// Whether the option list carries `Default(Null)`.
pub open spec fn has_default_null(opts: Seq<OptModel>) -> bool {
    exists|j: int| 0 <= j < opts.len() && opts[j] == OptModel::Default(ValModel::Null)
}

/// The value of the first `Default` option, searching from position `i`.
pub open spec fn first_default_from(opts: Seq<OptModel>, i: int) -> Option<ValModel>
    decreases opts.len() - i,
{
    if i < 0 || i >= opts.len() {
        None
    } else if opts[i] is Default {
        Some(opts[i]->Default_0)
    } else {
        first_default_from(opts, i + 1)
    }
}

/// The value of the first `Default` option, if any.
pub open spec fn first_default(opts: Seq<OptModel>) -> Option<ValModel> {
    first_default_from(opts, 0)
}

/// Whether a value's runtime variant matches the declared type; a null is
/// type-compatible with every declared type.
pub open spec fn compatible(v: ValModel, dt: DataType) -> bool {
    match v {
        ValModel::Char(_) => dt == DataType::Char,
        ValModel::Varchar(_) => dt == DataType::Varchar,
        ValModel::Text(_) => dt == DataType::Text,
        ValModel::Enum(_, _) => dt == DataType::Enum,
        ValModel::SetVal(_, _) => dt == DataType::SetVal,
        ValModel::Boolean(_) => dt == DataType::Boolean,
        ValModel::Int(_) => dt == DataType::Int,
        ValModel::BigInt(_) => dt == DataType::BigInt,
        ValModel::Float(_, _) => dt == DataType::Float,
        ValModel::Double(_, _) => dt == DataType::Double,
        ValModel::Date(_, _, _) => dt == DataType::Date,
        ValModel::Time(_, _, _) => dt == DataType::Time,
        ValModel::DateTime(_, _, _, _, _, _) => dt == DataType::DateTime,
        ValModel::Null => true,
    }
}

/// Whether an enum's selected value, or each of a set's selected values,
/// lies in the value's own allowed list; every other variant passes.
/// Whether every listed selection lies in the allowed list.
pub open spec fn all_in(sels: Seq<Seq<char>>, allowed: Seq<Seq<char>>) -> bool {
    forall|j: int| 0 <= j < sels.len() ==> allowed.contains(#[trigger] sels[j])
}

pub open spec fn membership_ok(v: ValModel) -> bool {
    match v {
        ValModel::Enum(sel, allowed) => allowed.contains(sel),
        ValModel::SetVal(sels, allowed) => all_in(sels, allowed),
        _ => true,
    }
}

/// Whether a `Default` option's enum or set value respects its own allowed
/// list; every other option passes.
pub open spec fn default_ok(o: OptModel) -> bool {
    match o {
        OptModel::Default(v) => membership_ok(v),
        _ => true,
    }
}

/// A column declaration is valid when `Default(Null)` and `NotNull` do not
/// meet, `Autoincrement` only decorates a not-null integer column, and every
/// default respects its own allowed list.
pub open spec fn column_valid(c: ColModel) -> bool {
    &&& !(has_default_null(c.options) && has_not_null(c.options))
    &&& (has_autoincrement(c.options) ==> ((c.datatype == DataType::Int || c.datatype
        == DataType::BigInt) && has_not_null(c.options)))
    &&& forall|j: int| 0 <= j < c.options.len() ==> default_ok(#[trigger] c.options[j])
}

/// Pairwise distinct column names.
pub open spec fn distinct_names(cols: Seq<ColModel>) -> bool {
    forall|i: int, j: int| 0 <= i < j < cols.len() ==> cols[i].name != cols[j].name
}

/// Every primary-key name names an existing column.
pub open spec fn pk_exists(cols: Seq<ColModel>, pk: Option<Seq<Seq<char>>>) -> bool {
    match pk {
        None => true,
        Some(pks) => forall|k: int|
            0 <= k < pks.len() ==> col_position(cols, #[trigger] pks[k]) is Some,
    }
}

/// The whole-schema validity that `validate_schema` decides.
pub open spec fn schema_valid(cols: Seq<ColModel>, pk: Option<Seq<Seq<char>>>) -> bool {
    &&& distinct_names(cols)
    &&& pk_exists(cols, pk)
    &&& forall|i: int| 0 <= i < cols.len() ==> column_valid(#[trigger] cols[i])
}

/// The separator of the restricted `"column = literal"` check form.
pub open spec fn eq_sep() -> Seq<char> {
    seq![' ', '=', ' ']
}

/// Whether a stored value passes one textual check constraint: when the
/// constraint splits at its first `" = "` and its left side trims to this
/// column's name, a varchar value must equal the trimmed literal; anything
/// else passes.
pub open spec fn check_passes(expr: Seq<char>, name: Seq<char>, v: ValModel) -> bool {
    match first_match(expr, eq_sep()) {
        None => true,
        Some(i) => {
            let before = expr.subrange(0, i);
            let after = expr.subrange(i + 3, expr.len() as int);
            if trim_spec(before) == name {
                match v {
                    ValModel::Varchar(s) => s == trim_spec(after),
                    _ => true,
                }
            } else {
                true
            }
        },
    }
}

/// Every check constraint of the column passes for this value.
pub open spec fn checks_ok(c: ColModel, v: ValModel) -> bool {
    forall|j: int|
        0 <= j < c.options.len() ==> (#[trigger] c.options[j] matches OptModel::Check(e)
            ==> check_passes(e, c.name, v))
}

/// The positions of the primary-key columns that exist, in key order.
pub open spec fn pk_indices(cols: Seq<ColModel>, pks: Seq<Seq<char>>) -> Seq<int>
    decreases pks.len(),
{
    if pks.len() == 0 {
        Seq::empty()
    } else {
        let rest = pk_indices(cols, pks.drop_first());
        match col_position(cols, pks[0]) {
            Some(i) => seq![i] + rest,
            None => rest,
        }
    }
}

/// Whether some existing row agrees with the candidate on every primary-key
/// position. With an empty position list any existing row counts as a
/// duplicate, as the engine's key comparison is vacuous there.
/// Whether two rows agree (semantically) on every listed position.
pub open spec fn rows_match_on(idxs: Seq<int>, row: Seq<ValModel>, other: Seq<ValModel>) -> bool {
    forall|k: int| 0 <= k < idxs.len() ==> val_eq(row[#[trigger] idxs[k]], other[idxs[k]])
}

pub open spec fn pk_dup(
    cols: Seq<ColModel>,
    pks: Seq<Seq<char>>,
    rows: Seq<Seq<ValModel>>,
    row: Seq<ValModel>,
) -> bool {
    let idxs = pk_indices(cols, pks);
    exists|r: int| 0 <= r < rows.len() && rows_match_on(idxs, row, #[trigger] rows[r])
}

/// Whether some existing row holds a semantically equal value in a unique
/// column's position.
pub open spec fn unique_violated(
    cols: Seq<ColModel>,
    rows: Seq<Seq<ValModel>>,
    row: Seq<ValModel>,
) -> bool {
    exists|i: int, r: int|
        #![trigger cols[i], rows[r]]
        0 <= i < cols.len() && 0 <= r < rows.len() && has_unique(cols[i].options) && val_eq(
            rows[r][i],
            row[i],
        )
}

/// The row-level conditions, one per check the validator makes.
pub open spec fn row_len_ok(cols: Seq<ColModel>, row: Seq<ValModel>) -> bool {
    row.len() == cols.len()
}

pub open spec fn row_types_ok(cols: Seq<ColModel>, row: Seq<ValModel>) -> bool {
    forall|i: int| 0 <= i < row.len() ==> compatible(#[trigger] row[i], cols[i].datatype)
}

pub open spec fn row_not_null_ok(cols: Seq<ColModel>, row: Seq<ValModel>) -> bool {
    forall|i: int|
        0 <= i < row.len() && row[i] is Null ==> !has_not_null(#[trigger] cols[i].options)
}

pub open spec fn row_membership_ok(row: Seq<ValModel>) -> bool {
    forall|i: int| 0 <= i < row.len() ==> membership_ok(#[trigger] row[i])
}

pub open spec fn row_checks_ok(cols: Seq<ColModel>, row: Seq<ValModel>) -> bool {
    forall|i: int| 0 <= i < row.len() ==> checks_ok(#[trigger] cols[i], row[i])
}

pub open spec fn row_pk_ok(
    cols: Seq<ColModel>,
    pk: Option<Seq<Seq<char>>>,
    rows: Seq<Seq<ValModel>>,
    row: Seq<ValModel>,
) -> bool {
    match pk {
        None => true,
        Some(pks) => !pk_dup(cols, pks, rows, row),
    }
}

/// The full row validity that `validate_row` decides, against the table's
/// columns, primary key and current rows.
pub open spec fn valid_row(
    cols: Seq<ColModel>,
    pk: Option<Seq<Seq<char>>>,
    rows: Seq<Seq<ValModel>>,
    row: Seq<ValModel>,
) -> bool {
    &&& row_len_ok(cols, row)
    &&& row_types_ok(cols, row)
    &&& row_not_null_ok(cols, row)
    &&& row_membership_ok(row)
    &&& row_checks_ok(cols, row)
    &&& !unique_violated(cols, rows, row)
    &&& row_pk_ok(cols, pk, rows, row)
}

/// The greatest integer value among the first `k` rows' entries at column
/// `ci`, with floor zero.
pub open spec fn max_int_prefix(rows: Seq<Seq<ValModel>>, ci: int, k: int) -> int
    decreases k,
{
    if k <= 0 {
        0
    } else {
        let m = max_int_prefix(rows, ci, k - 1);
        let r = rows[k - 1];
        if 0 <= ci < r.len() && r[ci] is Int && r[ci]->Int_0 > m {
            r[ci]->Int_0
        } else {
            m
        }
    }
}

/// The greatest integer value in the column, with floor zero.
pub open spec fn max_int_in_col(rows: Seq<Seq<ValModel>>, ci: int) -> int {
    max_int_prefix(rows, ci, rows.len() as int)
}

/// The value that default resolution gives position `i`: a supplied
/// non-null value passes through; a missing or null one takes the column's
/// first default, else the next autoincrement value, else stays null.
pub open spec fn default_applied(
    cols: Seq<ColModel>,
    rows: Seq<Seq<ValModel>>,
    partial: Seq<ValModel>,
    i: int,
) -> ValModel {
    let v = if 0 <= i < partial.len() {
        partial[i]
    } else {
        ValModel::Null
    };
    if v is Null {
        match first_default(cols[i].options) {
            Some(d) => d,
            None => if has_autoincrement(cols[i].options) {
                ValModel::Int(max_int_in_col(rows, i) + 1)
            } else {
                v
            },
        }
    } else {
        v
    }
}

/// The row that default resolution yields for a partial row.
pub open spec fn defaults_resolved(
    cols: Seq<ColModel>,
    rows: Seq<Seq<ValModel>>,
    partial: Seq<ValModel>,
) -> Seq<ValModel> {
    Seq::new(cols.len(), |i: int| default_applied(cols, rows, partial, i))
}

/// Whether autoincrement resolution would be asked to step past the
/// greatest representable integer at some column.
pub open spec fn autoincrement_headroom(
    cols: Seq<ColModel>,
    rows: Seq<Seq<ValModel>>,
    partial: Seq<ValModel>,
) -> bool {
    forall|i: int|
        0 <= i < cols.len() && (i >= partial.len() || partial[i] is Null) && first_default(
            (#[trigger] cols[i]).options,
        ) is None && has_autoincrement(cols[i].options) ==> max_int_in_col(rows, i)
            < i32::MAX as int
}

/// Equality of a string slice and an owned string.
pub fn str_eq_string(a: &str, b: &String) -> (r: bool)
    ensures
        r == (a@ == b@),
{
    let ca = chars_of(a);
    let cb = chars_of(b.as_str());
    chars_eq(&ca, &cb)
}

/// Whether the list contains the string.
#[verifier::loop_isolation(false)]
pub fn strings_contain(list: &Vec<String>, x: &String) -> (r: bool)
    ensures
        r == list.deep_view().contains(x@),
{
    let mut i: usize = 0;
    while i < list.len()
        invariant
            i <= list.len(),
            forall|j: int| 0 <= j < i ==> list.deep_view()[j] != x@,
        decreases list.len() - i,
    {
        if list[i] == *x {
            proof {
                assert(list.deep_view()[i as int] == x@);
            }
            return true;
        }
        i = i + 1;
    }
    false
}

fn options_have_unique(opts: &Vec<Options>) -> (r: bool)
    ensures
        r == has_unique(opts.deep_view()),
{
    let mut i: usize = 0;
    while i < opts.len()
        invariant
            i <= opts.len(),
            forall|j: int| 0 <= j < i ==> !(opts.deep_view()[j] is Unique),
        decreases opts.len() - i,
    {
        if let Options::Unique = &opts[i] {
            proof {
                assert(opts.deep_view()[i as int] is Unique);
            }
            return true;
        }
        i = i + 1;
    }
    false
}

pub fn options_have_not_null(opts: &Vec<Options>) -> (r: bool)
    ensures
        r == has_not_null(opts.deep_view()),
{
    let mut i: usize = 0;
    while i < opts.len()
        invariant
            i <= opts.len(),
            forall|j: int| 0 <= j < i ==> !(opts.deep_view()[j] is NotNull),
        decreases opts.len() - i,
    {
        if let Options::NotNull = &opts[i] {
            proof {
                assert(opts.deep_view()[i as int] is NotNull);
            }
            return true;
        }
        i = i + 1;
    }
    false
}

fn options_have_autoincrement(opts: &Vec<Options>) -> (r: bool)
    ensures
        r == has_autoincrement(opts.deep_view()),
{
    let mut i: usize = 0;
    while i < opts.len()
        invariant
            i <= opts.len(),
            forall|j: int| 0 <= j < i ==> !(opts.deep_view()[j] is Autoincrement),
        decreases opts.len() - i,
    {
        if let Options::Autoincrement = &opts[i] {
            proof {
                assert(opts.deep_view()[i as int] is Autoincrement);
            }
            return true;
        }
        i = i + 1;
    }
    false
}

fn options_have_default_null(opts: &Vec<Options>) -> (r: bool)
    ensures
        r == has_default_null(opts.deep_view()),
{
    let mut i: usize = 0;
    while i < opts.len()
        invariant
            i <= opts.len(),
            forall|j: int| 0 <= j < i ==> opts.deep_view()[j] != OptModel::Default(ValModel::Null),
        decreases opts.len() - i,
    {
        if let Options::Default(Value::Null) = &opts[i] {
            proof {
                assert(opts.deep_view()[i as int] == OptModel::Default(ValModel::Null));
            }
            return true;
        }
        i = i + 1;
    }
    false
}

/// The first `Default` option's value, cloned.
pub fn find_default(opts: &Vec<Options>) -> (r: Option<Value>)
    ensures
        match r {
            Some(v) => first_default(opts.deep_view()) == Some(v@),
            None => first_default(opts.deep_view()) is None,
        },
{
    let mut i: usize = 0;
    while i < opts.len()
        invariant
            i <= opts.len(),
            first_default(opts.deep_view()) == first_default_from(opts.deep_view(), i as int),
        decreases opts.len() - i,
    {
        if let Options::Default(v) = &opts[i] {
            proof {
                assert(opts.deep_view()[i as int] is Default);
                assert(opts.deep_view()[i as int]->Default_0 == v@);
            }
            return Some(v.clone());
        }
        i = i + 1;
    }
    None
}

#[verifier::loop_isolation(false)]
fn default_option_ok(o: &Options) -> (r: bool)
    ensures
        r == default_ok(o@),
{
    match o {
        Options::Default(Value::Enum(sel, allowed)) => strings_contain(allowed, sel),
        Options::Default(Value::SetVal(sels, allowed)) => {
            let mut i: usize = 0;
            while i < sels.len()
                invariant
                    i <= sels.len(),
                    forall|j: int|
                        0 <= j < i ==> allowed.deep_view().contains(
                            #[trigger] sels.deep_view()[j],
                        ),
                decreases sels.len() - i,
            {
                if !strings_contain(allowed, &sels[i]) {
                    proof {
                        assert(!allowed.deep_view().contains(sels.deep_view()[i as int]));
                        assert(!all_in(sels.deep_view(), allowed.deep_view()));
                    }
                    return false;
                }
                i = i + 1;
            }
            true
        },
        _ => true,
    }
}

impl Value {
    /// Whether this value's runtime variant matches the declared type; a
    /// null is type-compatible with every declared type.
    pub fn is_type_compatible_with(&self, dtype: &DataType) -> (r: bool)
        ensures
            r == compatible(self@, *dtype),
    {
        match self {
            Value::Char(_) => *dtype == DataType::Char,
            Value::Varchar(_) => *dtype == DataType::Varchar,
            Value::Text(_) => *dtype == DataType::Text,
            Value::Enum(_, _) => *dtype == DataType::Enum,
            Value::SetVal(_, _) => *dtype == DataType::SetVal,
            Value::Boolean(_) => *dtype == DataType::Boolean,
            Value::Int(_) => *dtype == DataType::Int,
            Value::BigInt(_) => *dtype == DataType::BigInt,
            Value::Float(_, _) => *dtype == DataType::Float,
            Value::Double(_, _) => *dtype == DataType::Double,
            Value::Date(_, _, _) => *dtype == DataType::Date,
            Value::Time(_, _, _) => *dtype == DataType::Time,
            Value::DateTime(_, _, _, _, _, _) => *dtype == DataType::DateTime,
            Value::Null => true,
        }
    }

    /// Whether this value's enum or set selection lies in its own allowed
    /// list.
    #[verifier::loop_isolation(false)]
    pub fn membership_holds(&self) -> (r: bool)
        ensures
            r == membership_ok(self@),
    {
        match self {
            Value::Enum(sel, allowed) => strings_contain(allowed, sel),
            Value::SetVal(sels, allowed) => {
                let mut i: usize = 0;
                while i < sels.len()
                    invariant
                        i <= sels.len(),
                        forall|j: int|
                            0 <= j < i ==> allowed.deep_view().contains(
                                #[trigger] sels.deep_view()[j],
                            ),
                    decreases sels.len() - i,
                {
                    if !strings_contain(allowed, &sels[i]) {
                        proof {
                            assert(!allowed.deep_view().contains(sels.deep_view()[i as int]));
                            assert(!all_in(sels.deep_view(), allowed.deep_view()));
                        }
                        return false;
                    }
                    i = i + 1;
                }
                true
            },
            _ => true,
        }
    }
}

/// Whether the value passes the column's one textual check constraint.
#[verifier::loop_isolation(false)]
pub fn check_value(expr: &String, name: &String, v: &Value) -> (r: bool)
    ensures
        r == check_passes(expr@, name@, v@),
{
    let ev = chars_of(expr.as_str());
    let mut sep: Vec<char> = Vec::new();
    sep.push(' ');
    sep.push('=');
    sep.push(' ');
    proof {
        assert(sep@ =~= eq_sep());
    }
    match find_sub(&ev, &sep) {
        None => true,
        Some(i) => {
            proof {
                assert(match_at(ev@, sep@, i as int));
                assert(sep@.len() == 3);
                assert(ev@.len() == ev.len());
                assert(i as int + 3 <= ev@.len());
            }
            let before = sub_chars(&ev, 0, i);
            let after = sub_chars(&ev, i + 3, ev.len());
            let tb = trim_chars(&before);
            let nv = chars_of(name.as_str());
            if chars_eq(&tb, &nv) {
                match v {
                    Value::Varchar(s) => {
                        let sv = chars_of(s.as_str());
                        let ta = trim_chars(&after);
                        chars_eq(&sv, &ta)
                    },
                    _ => true,
                }
            } else {
                true
            }
        },
    }
}

/// The concatenation `prefix + name + suffix`, as error messages are built.
pub fn msg3(prefix: &str, name: &str, suffix: &str) -> (r: String)
    ensures
        r@ == prefix@ + name@ + suffix@,
{
    let mut s = prefix.to_owned();
    s.append(name);
    s.append(suffix);
    s
}

impl Column {
    /// Whether this column's declaration is coherent: `Default(Null)` and
    /// `NotNull` may not meet, `Autoincrement` needs a not-null integer
    /// column, and an enum or set default must respect its own allowed list.
    #[verifier::loop_isolation(false)]
    pub fn validate(&self) -> (r: Result<(), DbError>)
        ensures
            r is Ok <==> column_valid(self@),
            r is Err ==> r->Err_0 is SchemaError,
    {
        let has_nn = options_have_not_null(&self.options);
        let has_dn = options_have_default_null(&self.options);
        let has_ai = options_have_autoincrement(&self.options);
        if has_dn && has_nn {
            return Err(
                DbError::SchemaError(
                    msg3(
                        "Column '",
                        self.name.as_str(),
                        "' cannot have both DEFAULT NULL and NOT NULL",
                    ),
                ),
            );
        }
        if has_ai {
            if !(self.datatype == DataType::Int || self.datatype == DataType::BigInt) {
                return Err(
                    DbError::SchemaError(
                        msg3(
                            "Column '",
                            self.name.as_str(),
                            "' has AUTOINCREMENT but is not Int or BigInt.",
                        ),
                    ),
                );
            }
            if !has_nn {
                return Err(
                    DbError::SchemaError(
                        msg3(
                            "Column '",
                            self.name.as_str(),
                            "' has AUTOINCREMENT but is not marked NOT NULL.",
                        ),
                    ),
                );
            }
        }
        let mut i: usize = 0;
        while i < self.options.len()
            invariant
                i <= self.options@.len(),
                forall|j: int| 0 <= j < i ==> default_ok(#[trigger] self.options.deep_view()[j]),
            decreases self.options@.len() - i,
        {
            if !default_option_ok(&self.options[i]) {
                proof {
                    assert(self@.options == self.options.deep_view());
                    assert(!default_ok(self@.options[i as int]));
                }
                return Err(
                    DbError::SchemaError(
                        msg3(
                            "Default value not in allowed list for column '",
                            self.name.as_str(),
                            "'",
                        ),
                    ),
                );
            }
            i = i + 1;
        }
        Ok(())
    }
}

impl Table {
    /// The model of this table's columns.
    pub open spec fn cols_model(&self) -> Seq<ColModel> {
        self.columns.deep_view()
    }

    /// The model of this table's rows.
    pub open spec fn rows_model(&self) -> Seq<Seq<ValModel>> {
        self.rows.deep_view()
    }

    /// The model of this table's primary key.
    pub open spec fn pk_model(&self) -> Option<Seq<Seq<char>>> {
        match self.primary_key {
            Some(ref v) => Some(v.deep_view()),
            None => None,
        }
    }

    /// Every stored row is positionally aligned with the column list.
    pub open spec fn rows_aligned(&self) -> bool {
        forall|r: int|
            0 <= r < self.rows_model().len() ==> (#[trigger] self.rows_model()[r]).len()
                == self.cols_model().len()
    }

    /// The position of the first column with the given name.
    #[verifier::loop_isolation(false)]
    pub fn find_column(&self, name: &str) -> (r: Option<usize>)
        ensures
            match r {
                Some(i) => col_position(self.cols_model(), name@) == Some(i as int) && i
                    < self.columns@.len(),
                None => col_position(self.cols_model(), name@) is None,
            },
    {
        let mut i: usize = 0;
        while i < self.columns.len()
            invariant
                i <= self.columns@.len(),
                col_position(self.cols_model(), name@) == col_position_from(
                    self.cols_model(),
                    name@,
                    i as int,
                ),
            decreases self.columns@.len() - i,
    {
            if str_eq_string(name, &self.columns[i].name) {
                proof {
                    assert(self.cols_model()[i as int].name == name@);
                }
                return Some(i);
            }
            i = i + 1;
        }
        None
    }

    /// Whether the schema is coherent: pairwise distinct column names,
    /// every primary-key name naming a column, and every column valid.
    #[verifier::loop_isolation(false)]
    pub fn validate_schema(&self) -> (r: Result<(), DbError>)
        ensures
            r is Ok <==> schema_valid(self.cols_model(), self.pk_model()),
            r is Err ==> r->Err_0 is SchemaError,
    {
        let mut i: usize = 0;
        while i < self.columns.len()
            invariant
                i <= self.columns@.len(),
                forall|a: int, b: int|
                    0 <= a < b < i ==> self.cols_model()[a].name != self.cols_model()[b].name,
            decreases self.columns@.len() - i,
        {
            let mut j: usize = 0;
            while j < i
                invariant
                    j <= i < self.columns@.len(),
                    forall|a: int, b: int|
                        0 <= a < b < i ==> self.cols_model()[a].name != self.cols_model()[b].name,
                    forall|a: int| 0 <= a < j ==> self.cols_model()[a].name != self.cols_model()[i as int].name,
                decreases i - j,
            {
                if self.columns[j].name == self.columns[i].name {
                    proof {
                        assert(self.cols_model()[j as int].name == self.cols_model()[
                            i as int
                        ].name);
                        assert(!distinct_names(self.cols_model()));
                    }
                    return Err(
                        DbError::SchemaError(
                            msg3(
                                "Duplicate column name found: '",
                                self.columns[i].name.as_str(),
                                "'",
                            ),
                        ),
                    );
                }
                j = j + 1;
            }
            i = i + 1;
        }
        if let Some(pk_cols) = &self.primary_key {
            let mut k: usize = 0;
            while k < pk_cols.len()
                invariant
                    k <= pk_cols@.len(),
                    self.pk_model() == Some(pk_cols.deep_view()),
                    forall|a: int|
                        0 <= a < k ==> col_position(
                            self.cols_model(),
                            #[trigger] pk_cols.deep_view()[a],
                        ) is Some,
                decreases pk_cols@.len() - k,
            {
                if self.find_column(pk_cols[k].as_str()).is_none() {
                    proof {
                        assert(pk_cols.deep_view()[k as int] == pk_cols@[k as int]@);
                        assert(col_position(
                            self.cols_model(),
                            pk_cols.deep_view()[k as int],
                        ) is None);
                        assert(!pk_exists(self.cols_model(), self.pk_model()));
                    }
                    let mut m = msg3("Primary key column '", pk_cols[k].as_str(), "' not found in table '");
                    m.append(self.name.as_str());
                    m.append("'");
                    return Err(DbError::SchemaError(m));
                }
                k = k + 1;
            }
        }
        let mut i: usize = 0;
        while i < self.columns.len()
            invariant
                i <= self.columns@.len(),
                distinct_names(self.cols_model()),
                pk_exists(self.cols_model(), self.pk_model()),
                forall|a: int| 0 <= a < i ==> column_valid(#[trigger] self.cols_model()[a]),
            decreases self.columns@.len() - i,
        {
            match self.columns[i].validate() {
                Ok(()) => {},
                Err(e) => {
                    proof {
                        assert(!column_valid(self.cols_model()[i as int]));
                    }
                    return Err(e);
                },
            }
            i = i + 1;
        }
        Ok(())
    }

    /// Whether the candidate row may enter the table: right length, every
    /// value type-compatible, no null in a not-null column, enum/set
    /// selections allowed, every check constraint met, no unique-column
    /// duplicate among the existing rows, and no composite primary-key
    /// duplicate. A length or type failure reports `TypeMismatch`; every
    /// constraint failure reports `ConstraintViolation`.
    #[verifier::loop_isolation(false)]
    pub fn validate_row(&self, row: &DBRows) -> (r: Result<(), DbError>)
        requires
            self.rows_aligned(),
        ensures
            r is Ok <==> valid_row(
                self.cols_model(),
                self.pk_model(),
                self.rows_model(),
                row.deep_view(),
            ),
            r is Err ==> (r->Err_0 is TypeMismatch || r->Err_0 is ConstraintViolation),
            !(row_len_ok(self.cols_model(), row.deep_view()) && row_types_ok(
                self.cols_model(),
                row.deep_view(),
            )) && row_not_null_ok(self.cols_model(), row.deep_view()) && row_membership_ok(
                row.deep_view(),
            ) && row_checks_ok(self.cols_model(), row.deep_view()) ==> (r matches Err(e)
                && e is TypeMismatch),
            row_len_ok(self.cols_model(), row.deep_view()) && row_types_ok(
                self.cols_model(),
                row.deep_view(),
            ) && !valid_row(self.cols_model(), self.pk_model(), self.rows_model(), row.deep_view())
                ==> (r matches Err(e) && e is ConstraintViolation),
    {
        let ghost cols = self.cols_model();
        let ghost rd = row.deep_view();
        if row.len() != self.columns.len() {
            return Err(
                DbError::TypeMismatch("Row length does not match table column count".to_owned()),
            );
        }
        let mut i: usize = 0;
        while i < row.len()
            invariant
                i <= row@.len(),
                forall|j: int| 0 <= j < i ==> compatible(#[trigger] rd[j], cols[j].datatype),
                forall|j: int| 0 <= j < i && rd[j] is Null ==> !has_not_null(
                    (#[trigger] cols[j]).options,
                ),
                forall|j: int| 0 <= j < i ==> membership_ok(#[trigger] rd[j]),
                forall|j: int| 0 <= j < i ==> checks_ok(#[trigger] cols[j], rd[j]),
            decreases row@.len() - i,
        {
            let value = &row[i];
            let column = &self.columns[i];

            if !value.is_type_compatible_with(&column.datatype) {
                return Err(
                    DbError::TypeMismatch(
                        msg3(
                            "Value at column '",
                            column.name.as_str(),
                            "' does not match declared type",
                        ),
                    ),
                );
            }
            let mut is_null = false;
            if let Value::Null = value {
                is_null = true;
            }
            if is_null && options_have_not_null(&column.options) {
                return Err(
                    DbError::ConstraintViolation(
                        msg3("Column '", column.name.as_str(), "' is NOT NULL but received NULL"),
                    ),
                );
            }
            if !value.membership_holds() {
                return Err(
                    DbError::ConstraintViolation(
                        msg3("Invalid enum or set value in column '", column.name.as_str(), "'"),
                    ),
                );
            }
            let mut k: usize = 0;
            while k < column.options.len()
                invariant
                    k <= column.options@.len(),
                    column == &self.columns[i as int],
                    i < row@.len(),
                    forall|j: int|
                        0 <= j < k ==> (#[trigger] cols[i as int].options[j] matches
                            OptModel::Check(e) ==> check_passes(e, cols[i as int].name, rd[
                            i as int
                        ])),
                decreases column.options@.len() - k,
            {
                if let Options::Check(expr) = &column.options[k] {
                    if !check_value(expr, &column.name, value) {
                        proof {
                            assert(cols[i as int].options[k as int] matches OptModel::Check(e)
                                && !check_passes(e, cols[i as int].name, rd[i as int]));
                            assert(!checks_ok(cols[i as int], rd[i as int]));
                        }
                        return Err(
                            DbError::ConstraintViolation(
                                msg3("CHECK failed: column '", column.name.as_str(), "'"),
                            ),
                        );
                    }
                }
                k = k + 1;
            }
            i = i + 1;
        }
        let mut i: usize = 0;
        while i < self.columns.len()
            invariant
                i <= self.columns@.len(),
                row_len_ok(cols, rd),
                forall|a: int, b: int|
                    #![trigger cols[a], self.rows_model()[b]]
                    0 <= a < i && 0 <= b < self.rows_model().len() && has_unique(cols[a].options)
                        ==> !val_eq(self.rows_model()[b][a], rd[a]),
            decreases self.columns@.len() - i,
        {
            if options_have_unique(&self.columns[i].options) {
                let value = &row[i];
                let mut r: usize = 0;
                while r < self.rows.len()
                    invariant
                        r <= self.rows@.len(),
                        i < self.columns@.len(),
                        row_len_ok(cols, rd),
                        forall|b: int|
                            0 <= b < r ==> !val_eq(
                                (#[trigger] self.rows_model()[b])[i as int],
                                rd[i as int],
                            ),
                    decreases self.rows@.len() - r,
                {
                    proof {
                        assert(self.rows_model()[r as int].len() == self.rows@[r as int]@.len());
                    }
                    if self.rows[r][i].eq_val(value) {
                        let mut m = msg3(
                            "Unique constraint violated in column '",
                            self.columns[i].name.as_str(),
                            "' for value '",
                        );
                        m.append(value.to_display_string().as_str());
                        m.append("'");
                        proof {
                            assert(self.rows_model()[r as int][i as int] == self.rows@[
                                r as int
                            ]@[i as int]@);
                            assert(rd[i as int] == row@[i as int]@);
                            assert(has_unique(cols[i as int].options) && val_eq(
                                self.rows_model()[r as int][i as int],
                                rd[i as int],
                            ));
                            assert(unique_violated(cols, self.rows_model(), rd));
                        }
                        return Err(DbError::ConstraintViolation(m));
                    }
                    r = r + 1;
                }
            }
            i = i + 1;
        }
        if let Some(pk_cols) = &self.primary_key {
            let ghost pks = pk_cols.deep_view();
            let mut idxs: Vec<usize> = Vec::new();
            let mut k: usize = 0;
            while k < pk_cols.len()
                invariant
                    k <= pk_cols@.len(),
                    idxs@.map_values(|u: usize| u as int) == pk_indices(cols, pks.subrange(0, k as int)),
                    forall|a: int| 0 <= a < idxs@.len() ==> (#[trigger] idxs@[a]) < self.columns@.len(),
                decreases pk_cols@.len() - k,
            {
                proof {
                    lemma_pk_indices_snoc(cols, pks.subrange(0, k as int), pks[k as int]);
                    assert(pks.subrange(0, k as int).push(pks[k as int]) =~= pks.subrange(
                        0,
                        k as int + 1,
                    ));
                    assert(pks[k as int] == pk_cols@[k as int]@);
                }
                match self.find_column(pk_cols[k].as_str()) {
                    Some(ci) => {
                        idxs.push(ci);
                        proof {
                            assert(idxs@.map_values(|u: usize| u as int) =~= pk_indices(
                                cols,
                                pks.subrange(0, k as int + 1),
                            ));
                        }
                    },
                    None => {
                        proof {
                            assert(idxs@.map_values(|u: usize| u as int) =~= pk_indices(
                                cols,
                                pks.subrange(0, k as int + 1),
                            ));
                        }
                    },
                }
                k = k + 1;
            }
            proof {
                assert(pks.subrange(0, pks.len() as int) =~= pks);
            }
            let ghost spec_idxs = pk_indices(cols, pks);
            let mut r: usize = 0;
            while r < self.rows.len()
                invariant
                    r <= self.rows@.len(),
                    row_len_ok(cols, rd),
                    self.rows_aligned(),
                    spec_idxs == pk_indices(cols, pks),
                    self.pk_model() == Some(pks),
                    idxs@.map_values(|u: usize| u as int) == spec_idxs,
                    forall|a: int| 0 <= a < idxs@.len() ==> (#[trigger] idxs@[a]) < self.columns@.len(),
                    forall|b: int|
                        0 <= b < r ==> !rows_match_on(spec_idxs, rd, #[trigger] self.rows_model()[b]),
                decreases self.rows@.len() - r,
            {
                let mut all_match = true;
                let mut k: usize = 0;
                while k < idxs.len()
                    invariant
                        k <= idxs@.len(),
                        r < self.rows@.len(),
                        row_len_ok(cols, rd),
                        self.rows_aligned(),
                        idxs@.map_values(|u: usize| u as int) == spec_idxs,
                        forall|a: int| 0 <= a < idxs@.len() ==> (#[trigger] idxs@[a]) < self.columns@.len(),
                        all_match ==> forall|a: int|
                            0 <= a < k ==> val_eq(
                                rd[#[trigger] spec_idxs[a]],
                                self.rows_model()[r as int][spec_idxs[a]],
                            ),
                        !all_match ==> !rows_match_on(spec_idxs, rd, self.rows_model()[r as int]),
                    decreases idxs@.len() - k,
                {
                    let ci = idxs[k];
                    if !row[ci].eq_val(&self.rows[r][ci]) {
                        proof {
                            assert(spec_idxs[k as int] == ci as int);
                            assert(!rows_match_on(spec_idxs, rd, self.rows_model()[r as int]));
                        }
                        all_match = false;
                    }
                    k = k + 1;
                }
                if all_match {
                    proof {
                        assert(rows_match_on(spec_idxs, rd, self.rows_model()[r as int]));
                        assert(pk_dup(cols, pks, self.rows_model(), rd));
                    }
                    return Err(
                        DbError::ConstraintViolation(
                            "Primary key constraint violated: duplicate entry".to_owned(),
                        ),
                    );
                }
                r = r + 1;
            }
        }
        Ok(())
    }
}

impl Table {
    /// The next autoincrement value for the column: one past the greatest
    /// integer already stored there, and `1` over no rows.
    #[verifier::loop_isolation(false)]
    fn generate_next_autoincrement(&self, column_index: usize) -> (r: i32)
        requires
            max_int_in_col(self.rows_model(), column_index as int) < i32::MAX as int,
        ensures
            r as int == max_int_in_col(self.rows_model(), column_index as int) + 1,
    {
        let mut max_val: i32 = 0;
        let mut r: usize = 0;
        proof {
            lemma_max_int_prefix_mono(
                self.rows_model(),
                column_index as int,
                0,
                self.rows_model().len() as int,
            );
        }
        while r < self.rows.len()
            invariant
                r <= self.rows@.len(),
                max_val as int == max_int_prefix(self.rows_model(), column_index as int, r as int),
                max_int_prefix(self.rows_model(), column_index as int, r as int)
                    <= max_int_in_col(self.rows_model(), column_index as int),
            decreases self.rows@.len() - r,
        {
            proof {
                assert(self.rows_model()[r as int].len() == self.rows@[r as int]@.len());
                lemma_max_int_prefix_mono(
                    self.rows_model(),
                    column_index as int,
                    r as int + 1,
                    self.rows_model().len() as int,
                );
            }
            if column_index < self.rows[r].len() {
                if let Value::Int(v) = &self.rows[r][column_index] {
                    proof {
                        assert(self.rows_model()[r as int][column_index as int] == self.rows@[
                            r as int
                        ]@[column_index as int]@);
                    }
                    if *v > max_val {
                        max_val = *v;
                    }
                }
            }
            r = r + 1;
        }
        max_val + 1
    }

    /// The partial row with defaults and autoincrement resolved: a supplied
    /// non-null value passes through; a missing or null entry takes the
    /// column's first default, else the next autoincrement value, else
    /// stays null. Never fails.
    #[verifier::loop_isolation(false)]
    pub fn apply_defaults(&self, partial_row: &DBRows) -> (r: Result<DBRows, DbError>)
        requires
            autoincrement_headroom(self.cols_model(), self.rows_model(), partial_row.deep_view()),
        ensures
            r is Ok,
            r matches Ok(full) ==> full.deep_view() == defaults_resolved(
                self.cols_model(),
                self.rows_model(),
                partial_row.deep_view(),
            ),
    {
        let ghost cols = self.cols_model();
        let ghost pd = partial_row.deep_view();
        let mut full_row: Vec<Value> = Vec::new();
        let mut i: usize = 0;
        while i < self.columns.len()
            invariant
                i <= self.columns@.len(),
                full_row.deep_view().len() == i,
                forall|j: int|
                    0 <= j < i ==> full_row.deep_view()[j] == default_applied(
                        cols,
                        self.rows_model(),
                        pd,
                        j,
                    ),
            decreases self.columns@.len() - i,
        {
            let val: Value = if i < partial_row.len() {
                partial_row[i].clone()
            } else {
                Value::Null
            };
            proof {
                if i < partial_row@.len() {
                    assert(val@ == pd[i as int]);
                }
            }
            let mut is_null = false;
            if let Value::Null = &val {
                is_null = true;
            }
            let resolved: Value;
            if is_null {
                match find_default(&self.columns[i].options) {
                    Some(default) => {
                        resolved = default;
                    },
                    None => {
                        if options_have_autoincrement(&self.columns[i].options) {
                            proof {
                                assert(first_default(cols[i as int].options) is None
                                    && has_autoincrement(cols[i as int].options) && (
                                i >= pd.len() || pd[i as int] is Null));
                            }
                            let id = self.generate_next_autoincrement(i);
                            resolved = Value::Int(id);
                        } else {
                            resolved = val;
                        }
                    },
                }
            } else {
                resolved = val;
            }
            proof {
                assert(resolved@ == default_applied(cols, self.rows_model(), pd, i as int));
            }
            let ghost prev = full_row.deep_view();
            full_row.push(resolved);
            proof {
                assert(full_row.deep_view() =~~= prev.push(resolved@));
            }
            i = i + 1;
        }
        proof {
            assert(full_row.deep_view() =~~= defaults_resolved(cols, self.rows_model(), pd));
        }
        Ok(full_row)
    }
}

/// A longer prefix can only raise the column maximum.
pub proof fn lemma_max_int_prefix_mono(rows: Seq<Seq<ValModel>>, ci: int, k1: int, k2: int)
    requires
        k1 <= k2,
    ensures
        max_int_prefix(rows, ci, k1) <= max_int_prefix(rows, ci, k2),
    decreases k2 - k1,
{
    if k1 < k2 {
        lemma_max_int_prefix_mono(rows, ci, k1, k2 - 1);
    }
}

/// Appending one more name extends the found key positions by that name's
/// position, when it exists.
pub proof fn lemma_pk_indices_snoc(cols: Seq<ColModel>, xs: Seq<Seq<char>>, y: Seq<char>)
    ensures
        pk_indices(cols, xs.push(y)) == pk_indices(cols, xs) + (match col_position(cols, y) {
            Some(i) => seq![i],
            None => Seq::<int>::empty(),
        }),
    decreases xs.len(),
{
    let whole = xs.push(y);
    assert(pk_indices(cols, Seq::<Seq<char>>::empty()) =~= Seq::<int>::empty());
    if xs.len() == 0 {
        assert(whole[0] == y);
        assert(whole.drop_first() =~= Seq::<Seq<char>>::empty());
        match col_position(cols, y) {
            Some(i) => {
                assert(pk_indices(cols, whole) =~= seq![i]);
                assert(pk_indices(cols, xs) + seq![i] =~= seq![i]);
            },
            None => {
                assert(pk_indices(cols, whole) =~= Seq::<int>::empty());
                assert(pk_indices(cols, xs) + Seq::<int>::empty() =~= Seq::<int>::empty());
            },
        }
    } else {
        assert(whole[0] == xs[0]);
        assert(whole.drop_first() =~= xs.drop_first().push(y));
        lemma_pk_indices_snoc(cols, xs.drop_first(), y);
        match col_position(cols, xs[0]) {
            Some(i) => {
                assert(pk_indices(cols, whole) =~= pk_indices(cols, xs) + (match col_position(
                    cols,
                    y,
                ) {
                    Some(p) => seq![p],
                    None => Seq::<int>::empty(),
                }));
            },
            None => {
                assert(pk_indices(cols, whole) =~= pk_indices(cols, xs) + (match col_position(
                    cols,
                    y,
                ) {
                    Some(p) => seq![p],
                    None => Seq::<int>::empty(),
                }));
            },
        }
    }
}

} // verus!

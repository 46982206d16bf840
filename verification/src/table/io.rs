//! The persisted-text boundary: parsing stored fields back into values,
//! rendering tables as delimited text, and rebuilding a table from parsed
//! records. Reading and writing actual files is the caller's business;
//! this module only computes.
//!
//! Floating-point text cannot be parsed inside the verified engine, so
//! `from_str` (and record loading) is limited to the other declared types;
//! a caller converts float fields at the boundary.

use vstd::prelude::*;
use vstd::string::StringExecFns;
use crate::chars::{
    chars_of, chars_eq, string_from_chars, trim_chars, trim_chars_matching, trim_chars_braces,
    split_chars, trim_spec, trim_char_spec, trim_braces_spec, split_char_spec,
};
use crate::errors::DbError;
use crate::table::data::{Table, Column, Value, DataType};
use crate::table::model::ValModel;
use crate::table::text::{
    val_display, row_key, row_key_string, join_comma, int_literal_ok, int_literal_val,
    parse_i32_chars, parse_i64_chars,
};
use crate::table::validators::msg3;
use crate::table::functions::clone_columns;

verus! {

/// What `chrono` yields for a `YYYY-MM-DD` text: the outcome depends on
/// the text alone.
pub uninterp spec fn parsed_date(s: Seq<char>) -> Option<(i32, u32, u32)>;

/// What `chrono` yields for an `HH:MM:SS` text.
pub uninterp spec fn parsed_time(s: Seq<char>) -> Option<(u32, u32, u32)>;

/// What `chrono` yields for a `YYYY-MM-DD HH:MM:SS` text.
pub uninterp spec fn parsed_datetime(s: Seq<char>) -> Option<(i32, u32, u32, u32, u32, u32)>;

/// Relies on `chrono::NaiveDate::parse_from_str` with the `"%Y-%m-%d"`
/// format, and the `Datelike` accessors: a parsed date has its month in
/// 1..=12 and its day in 1..=31.
#[verifier::external_body]
fn chrono_parse_date(s: &str) -> (r: Result<(i32, u32, u32), String>)
    ensures
        r is Ok <==> parsed_date(s@) is Some,
        r matches Ok(d) ==> Some(d) == parsed_date(s@) && 1 <= d.1 <= 12 && 1 <= d.2 <= 31,
{
    match chrono::NaiveDate::parse_from_str(s, "%Y-%m-%d") {
        Ok(d) => Ok(
            (chrono::Datelike::year(&d), chrono::Datelike::month(&d), chrono::Datelike::day(&d)),
        ),
        Err(e) => Err(e.to_string()),
    }
}

/// Relies on `chrono::NaiveTime::parse_from_str` with the `"%H:%M:%S"`
/// format, and the `Timelike` accessors: hours below 24, minutes and
/// seconds below 60.
#[verifier::external_body]
fn chrono_parse_time(s: &str) -> (r: Result<(u32, u32, u32), String>)
    ensures
        r is Ok <==> parsed_time(s@) is Some,
        r matches Ok(t) ==> Some(t) == parsed_time(s@) && t.0 < 24 && t.1 < 60 && t.2 < 60,
{
    match chrono::NaiveTime::parse_from_str(s, "%H:%M:%S") {
        Ok(t) => Ok(
            (chrono::Timelike::hour(&t), chrono::Timelike::minute(&t), chrono::Timelike::second(
                &t,
            )),
        ),
        Err(e) => Err(e.to_string()),
    }
}

/// Relies on `chrono::NaiveDateTime::parse_from_str` with the
/// `"%Y-%m-%d %H:%M:%S"` format, and the `Datelike`/`Timelike` accessors.
#[verifier::external_body]
fn chrono_parse_datetime(s: &str) -> (r: Result<(i32, u32, u32, u32, u32, u32), String>)
    ensures
        r is Ok <==> parsed_datetime(s@) is Some,
        r matches Ok(t) ==> Some(t) == parsed_datetime(s@) && 1 <= t.1 <= 12 && 1 <= t.2 <= 31
            && t.3 < 24 && t.4 < 60 && t.5 < 60,
{
    match chrono::NaiveDateTime::parse_from_str(s, "%Y-%m-%d %H:%M:%S") {
        Ok(dt) => Ok(
            (
                chrono::Datelike::year(&dt),
                chrono::Datelike::month(&dt),
                chrono::Datelike::day(&dt),
                chrono::Timelike::hour(&dt),
                chrono::Timelike::minute(&dt),
                chrono::Timelike::second(&dt),
            ),
        ),
        Err(e) => Err(e.to_string()),
    }
}

/// What `csv` yields for a headed comma-separated text: the records after
/// the header line, one list of fields each; the outcome depends on the
/// text alone.
pub uninterp spec fn csv_records(s: Seq<char>) -> Option<Seq<Seq<Seq<char>>>>;

/// Relies on `csv::ReaderBuilder` / `csv::Reader::records` with headers
/// on: parses comma-separated text into one field list per record.
#[verifier::external_body]
fn csv_parse(text: &str) -> (r: Result<Vec<Vec<String>>, String>)
    ensures
        r is Ok <==> csv_records(text@) is Some,
        r matches Ok(v) ==> Some(v.deep_view()) == csv_records(text@),
{
    let mut rdr = csv::ReaderBuilder::new().has_headers(true).from_reader(text.as_bytes());
    let mut out: Vec<Vec<String>> = Vec::new();
    for rec in rdr.records() {
        match rec {
            Ok(record) => out.push(record.iter().map(|f| f.to_string()).collect()),
            Err(e) => {
                return Err(e.to_string());
            },
        }
    }
    Ok(out)
}

/// Parses a headed comma-separated text into records; a malformed text is
/// a parse failure.
pub fn parse_csv_records(text: &str) -> (r: Result<Vec<Vec<String>>, DbError>)
    ensures
        r is Ok <==> csv_records(text@) is Some,
        r matches Ok(v) ==> Some(v.deep_view()) == csv_records(text@),
        r is Err ==> r->Err_0 is ParseError,
{
    match csv_parse(text) {
        Ok(v) => Ok(v),
        Err(e) => Err(DbError::ParseError(msg3("CSV parse error: ", e.as_str(), ""))),
    }
}

/// The unwrapped form of a stored field: whitespace and then quotes
/// trimmed.
pub open spec fn unquoted(s: Seq<char>) -> Seq<char> {
    trim_char_spec(trim_spec(s), '"')
}

/// What parsing a stored field against a declared type yields. Enum and
/// set values come back with an empty allowed list, to be re-validated
/// against the live schema; a float field has no parse inside the engine.
pub open spec fn parsed_value(s: Seq<char>, dt: DataType) -> Option<ValModel> {
    let u = unquoted(s);
    match dt {
        DataType::Char => if u.len() == 1 {
            Some(ValModel::Char(u[0]))
        } else {
            None
        },
        DataType::Varchar => Some(ValModel::Varchar(u)),
        DataType::Text => Some(ValModel::Text(u)),
        DataType::Boolean => if u == "true"@ {
            Some(ValModel::Boolean(true))
        } else if u == "false"@ {
            Some(ValModel::Boolean(false))
        } else {
            None
        },
        DataType::Int => if int_literal_ok(u) && i32::MIN as int <= int_literal_val(u)
            <= i32::MAX as int {
            Some(ValModel::Int(int_literal_val(u)))
        } else {
            None
        },
        DataType::BigInt => if int_literal_ok(u) && i64::MIN as int <= int_literal_val(u)
            <= i64::MAX as int {
            Some(ValModel::BigInt(int_literal_val(u)))
        } else {
            None
        },
        DataType::Float => None,
        DataType::Double => None,
        DataType::Date => match parsed_date(u) {
            Some(d) => Some(ValModel::Date(d.0 as int, d.1 as int, d.2 as int)),
            None => None,
        },
        DataType::Time => match parsed_time(u) {
            Some(t) => Some(ValModel::Time(t.0 as int, t.1 as int, t.2 as int)),
            None => None,
        },
        DataType::DateTime => match parsed_datetime(u) {
            Some(t) => Some(
                ValModel::DateTime(
                    t.0 as int,
                    t.1 as int,
                    t.2 as int,
                    t.3 as int,
                    t.4 as int,
                    t.5 as int,
                ),
            ),
            None => None,
        },
        DataType::Enum => Some(ValModel::Enum(u, Seq::empty())),
        DataType::SetVal => {
            let inner = trim_braces_spec(u);
            if inner.len() == 0 {
                Some(ValModel::SetVal(Seq::empty(), Seq::empty()))
            } else {
                Some(
                    ValModel::SetVal(
                        split_char_spec(inner, ',').map_values(|p: Seq<char>| trim_spec(p)),
                        Seq::empty(),
                    ),
                )
            }
        },
    }
}

impl Value {
    /// Parses a `YYYY-MM-DD` text as a date value.
    pub fn from_date_str(s: &str) -> (r: Result<Value, DbError>)
        ensures
            r is Ok <==> parsed_date(s@) is Some,
            r matches Ok(v) ==> parsed_date(s@) matches Some(d) && v@ == ValModel::Date(
                d.0 as int,
                d.1 as int,
                d.2 as int,
            ),
            r is Err ==> r->Err_0 is ParseError,
    {
        match chrono_parse_date(s) {
            Ok(d) => Ok(Value::Date(d.0, d.1, d.2)),
            Err(e) => Err(DbError::ParseError(e)),
        }
    }

    /// Parses an `HH:MM:SS` text as a time value.
    pub fn from_time_str(s: &str) -> (r: Result<Value, DbError>)
        ensures
            r is Ok <==> parsed_time(s@) is Some,
            r matches Ok(v) ==> parsed_time(s@) matches Some(t) && v@ == ValModel::Time(
                t.0 as int,
                t.1 as int,
                t.2 as int,
            ),
            r is Err ==> r->Err_0 is ParseError,
    {
        match chrono_parse_time(s) {
            Ok(t) => Ok(Value::Time(t.0, t.1, t.2)),
            Err(e) => Err(DbError::ParseError(e)),
        }
    }

    /// Parses a `YYYY-MM-DD HH:MM:SS` text as a datetime value.
    pub fn from_datetime_str(s: &str) -> (r: Result<Value, DbError>)
        ensures
            r is Ok <==> parsed_datetime(s@) is Some,
            r matches Ok(v) ==> parsed_datetime(s@) matches Some(t) && v@ == ValModel::DateTime(
                t.0 as int,
                t.1 as int,
                t.2 as int,
                t.3 as int,
                t.4 as int,
                t.5 as int,
            ),
            r is Err ==> r->Err_0 is ParseError,
    {
        match chrono_parse_datetime(s) {
            Ok(t) => Ok(Value::DateTime(t.0, t.1, t.2, t.3, t.4, t.5)),
            Err(e) => Err(DbError::ParseError(e)),
        }
    }

    /// Parses one stored field against a declared type; float fields are
    /// parsed at the boundary instead.
    #[verifier::loop_isolation(false)]
    pub fn from_str(s: &str, dtype: &DataType) -> (r: Result<Value, DbError>)
        requires
            *dtype != DataType::Float,
            *dtype != DataType::Double,
        ensures
            r is Ok <==> parsed_value(s@, *dtype) is Some,
            r matches Ok(v) ==> parsed_value(s@, *dtype) == Some(v@),
            r is Err ==> r->Err_0 is ParseError,
    {
        let sv = chars_of(s);
        let t1 = trim_chars(&sv);
        let uv = trim_chars_matching(&t1, '"');
        let unq = string_from_chars(&uv);
        proof {
            assert(uv@ == unquoted(s@));
        }
        match dtype {
            DataType::Char => {
                if uv.len() == 1 {
                    Ok(Value::Char(uv[0]))
                } else {
                    Err(DbError::ParseError("Expected a single character".to_owned()))
                }
            },
            DataType::Varchar => Ok(Value::Varchar(unq)),
            DataType::Text => Ok(Value::Text(unq)),
            DataType::Boolean => {
                proof {
                    reveal_strlit("true");
                    reveal_strlit("false");
                }
                let tl = chars_of("true");
                let fl = chars_of("false");
                if chars_eq(&uv, &tl) {
                    Ok(Value::Boolean(true))
                } else if chars_eq(&uv, &fl) {
                    Ok(Value::Boolean(false))
                } else {
                    Err(DbError::ParseError("Invalid boolean value".to_owned()))
                }
            },
            DataType::Int => {
                match parse_i32_chars(&uv) {
                    Some(i) => Ok(Value::Int(i)),
                    None => Err(DbError::ParseError("Invalid int".to_owned())),
                }
            },
            DataType::BigInt => {
                match parse_i64_chars(&uv) {
                    Some(i) => Ok(Value::BigInt(i)),
                    None => Err(DbError::ParseError("Invalid bigint".to_owned())),
                }
            },
            DataType::Float => {
                proof {
                    assert(false);
                }
                Err(DbError::ParseError("Invalid float".to_owned()))
            },
            DataType::Double => {
                proof {
                    assert(false);
                }
                Err(DbError::ParseError("Invalid double".to_owned()))
            },
            DataType::Date => {
                match Value::from_date_str(unq.as_str()) {
                    Ok(v) => Ok(v),
                    Err(e) => Err(
                        DbError::ParseError(msg3("Invalid date: ", e.message().as_str(), "")),
                    ),
                }
            },
            DataType::Time => {
                match Value::from_time_str(unq.as_str()) {
                    Ok(v) => Ok(v),
                    Err(e) => Err(
                        DbError::ParseError(msg3("Invalid time: ", e.message().as_str(), "")),
                    ),
                }
            },
            DataType::DateTime => {
                match Value::from_datetime_str(unq.as_str()) {
                    Ok(v) => Ok(v),
                    Err(e) => Err(
                        DbError::ParseError(msg3("Invalid datetime: ", e.message().as_str(), "")),
                    ),
                }
            },
            DataType::Enum => Ok(Value::Enum(unq, Vec::new())),
            DataType::SetVal => {
                let inner = trim_chars_braces(&uv);
                if inner.len() == 0 {
                    let v = Value::SetVal(Vec::new(), Vec::new());
                    proof {
                        assert(v@ == parsed_value(s@, *dtype)->Some_0);
                    }
                    Ok(v)
                } else {
                    let pieces = split_chars(&inner, ',');
                    let mut items: Vec<String> = Vec::new();
                    let mut i: usize = 0;
                    while i < pieces.len()
                        invariant
                            i <= pieces@.len(),
                            items.deep_view().len() == i,
                            forall|j: int|
                                0 <= j < i ==> #[trigger] items.deep_view()[j] == trim_spec(
                                    pieces.deep_view()[j],
                                ),
                        decreases pieces@.len() - i,
                    {
                        let trimmed = trim_chars(&pieces[i]);
                        proof {
                            assert(pieces@[i as int]@ == pieces.deep_view()[i as int]);
                        }
                        let piece = string_from_chars(&trimmed);
                        let ghost prev = items.deep_view();
                        let ghost pd = piece@;
                        items.push(piece);
                        proof {
                            assert(items.deep_view() =~~= prev.push(pd));
                        }
                        i = i + 1;
                    }
                    let v = Value::SetVal(items, Vec::new());
                    proof {
                        assert(v@->SetVal_0 =~~= split_char_spec(inner@, ',').map_values(
                            |p: Seq<char>| trim_spec(p),
                        ));
                        assert(v@->SetVal_1 =~~= Seq::<Seq<char>>::empty());
                        assert(v@ == parsed_value(s@, *dtype)->Some_0);
                    }
                    Ok(v)
                }
            },
        }
    }
}

/// The quoted form of a field: the rendering wrapped in double quotes.
pub open spec fn quoted(s: Seq<char>) -> Seq<char> {
    seq!['"'] + s + seq!['"']
}

/// The delimited text a table persists as: a header line of column names,
/// then one line per row with every field quoted.
pub open spec fn csv_text(cols: Seq<crate::table::model::ColModel>, rows: Seq<Seq<ValModel>>) -> Seq<
    char,
> {
    join_comma(Seq::new(cols.len(), |j: int| cols[j].name)) + seq!['\n'] + csv_body(rows)
}

/// The row lines, each field quoted.
pub open spec fn csv_body(rows: Seq<Seq<ValModel>>) -> Seq<char>
    decreases rows.len(),
{
    if rows.len() == 0 {
        Seq::empty()
    } else {
        csv_body(rows.drop_last()) + join_comma(
            rows.last().map_values(|v: ValModel| quoted(val_display(v))),
        ) + seq!['\n']
    }
}

/// The undecorated view text: a header line, then one line per row with
/// the bare display renderings.
pub open spec fn view_text(cols: Seq<crate::table::model::ColModel>, rows: Seq<Seq<ValModel>>) -> Seq<
    char,
> {
    join_comma(Seq::new(cols.len(), |j: int| cols[j].name)) + seq!['\n'] + view_body(rows)
}

pub open spec fn view_body(rows: Seq<Seq<ValModel>>) -> Seq<char>
    decreases rows.len(),
{
    if rows.len() == 0 {
        Seq::empty()
    } else {
        view_body(rows.drop_last()) + row_key(rows.last()) + seq!['\n']
    }
}

impl Table {
    /// The header line: the column names joined with commas.
    #[verifier::loop_isolation(false)]
    fn header_line(&self) -> (r: String)
        ensures
            r@ == join_comma(
                Seq::new(self.cols_model().len(), |j: int| self.cols_model()[j].name),
            ),
    {
        proof {
            reveal_strlit(",");
        }
        let ghost names = Seq::new(self.cols_model().len(), |j: int| self.cols_model()[j].name);
        let mut s = String::new();
        let mut j: usize = 0;
        while j < self.columns.len()
            invariant
                j <= self.columns@.len(),
                s@ == join_comma(names.subrange(0, j as int)) + if j > 0 && j
                    < self.columns@.len() {
                    seq![',']
                } else {
                    Seq::empty()
                },
            decreases self.columns@.len() - j,
        {
            s.append(self.columns[j].name.as_str());
            if j + 1 < self.columns.len() {
                s.append(",");
            }
            proof {
                let prefix = names.subrange(0, j as int + 1);
                assert(prefix.drop_last() =~= names.subrange(0, j as int));
                assert(prefix.last() == self.cols_model()[j as int].name);
                if j > 0 {
                    assert(join_comma(prefix) == join_comma(prefix.drop_last()) + seq![',']
                        + prefix.last());
                }
                assert(s@ =~= join_comma(prefix) + if j + 1 > 0 && j + 1 < self.columns@.len() {
                    seq![',']
                } else {
                    Seq::<char>::empty()
                });
            }
            j = j + 1;
        }
        proof {
            assert(names.subrange(0, names.len() as int) =~= names);
        }
        s
    }

    /// The delimited text this table persists as.
    #[verifier::loop_isolation(false)]
    #[verifier::rlimit(100)]
    #[verifier::spinoff_prover]
    pub fn to_csv_text(&self) -> (r: String)
        ensures
            r@ == csv_text(self.cols_model(), self.rows_model()),
    {
        proof {
            reveal_strlit("\n");
            reveal_strlit(",");
            reveal_strlit("\"");
        }
        let ghost rd = self.rows_model();
        let mut s = self.header_line();
        s.append("\n");
        let mut x: usize = 0;
        while x < self.rows.len()
            invariant
                x <= self.rows@.len(),
                s@ == csv_text(self.cols_model(), rd.subrange(0, x as int)),
            decreases self.rows@.len() - x,
        {
            proof {
                assert(rd.subrange(0, x as int + 1).drop_last() =~= rd.subrange(0, x as int));
                assert(rd.subrange(0, x as int + 1).last() == rd[x as int]);
            }
            let row = &self.rows[x];
            let ghost fields = rd[x as int].map_values(|v: ValModel| quoted(val_display(v)));
            let mut j: usize = 0;
            while j < row.len()
                invariant
                    j <= row@.len(),
                    fields == rd[x as int].map_values(|v: ValModel| quoted(val_display(v))),
                    rd[x as int].len() == row@.len(),
                    x < self.rows@.len(),
                    s@ == csv_text(self.cols_model(), rd.subrange(0, x as int)) + join_comma(
                        fields.subrange(0, j as int),
                    ) + if j > 0 && j < row@.len() {
                        seq![',']
                    } else {
                        Seq::empty()
                    },
                decreases row@.len() - j,
            {
                proof {
                    assert(rd[x as int][j as int] == row@[j as int]@);
                }
                s.append("\"");
                let shown = row[j].to_display_string();
                s.append(shown.as_str());
                s.append("\"");
                if j + 1 < row.len() {
                    s.append(",");
                }
                proof {
                    let prefix = fields.subrange(0, j as int + 1);
                    assert(prefix.drop_last() =~= fields.subrange(0, j as int));
                    assert(prefix.last() == quoted(val_display(rd[x as int][j as int])));
                    if j > 0 {
                        assert(join_comma(prefix) == join_comma(prefix.drop_last()) + seq![',']
                            + prefix.last());
                    }
                    assert(s@ =~= csv_text(self.cols_model(), rd.subrange(0, x as int))
                        + join_comma(prefix) + if j + 1 > 0 && j + 1 < row@.len() {
                        seq![',']
                    } else {
                        Seq::<char>::empty()
                    });
                }
                j = j + 1;
            }
            s.append("\n");
            proof {
                assert(fields.subrange(0, fields.len() as int) =~= fields);
                assert(s@ =~= csv_text(self.cols_model(), rd.subrange(0, x as int + 1)));
            }
            x = x + 1;
        }
        proof {
            assert(rd.subrange(0, rd.len() as int) =~= rd);
        }
        s
    }

    /// The undecorated view text this table persists as.
    #[verifier::loop_isolation(false)]
    pub fn to_view_text(&self) -> (r: String)
        ensures
            r@ == view_text(self.cols_model(), self.rows_model()),
    {
        proof {
            reveal_strlit("\n");
        }
        let ghost rd = self.rows_model();
        let mut s = self.header_line();
        s.append("\n");
        let mut x: usize = 0;
        while x < self.rows.len()
            invariant
                x <= self.rows@.len(),
                s@ == view_text(self.cols_model(), rd.subrange(0, x as int)),
            decreases self.rows@.len() - x,
        {
            proof {
                assert(rd.subrange(0, x as int + 1).drop_last() =~= rd.subrange(0, x as int));
                assert(rd.subrange(0, x as int + 1).last() == rd[x as int]);
            }
            let line = row_key_string(&self.rows[x]);
            s.append(line.as_str());
            s.append("\n");
            proof {
                assert(s@ =~= view_text(self.cols_model(), rd.subrange(0, x as int + 1)));
            }
            x = x + 1;
        }
        proof {
            assert(rd.subrange(0, rd.len() as int) =~= rd);
        }
        s
    }

    /// Rebuilds a table from parsed records: each record must have one
    /// field per column and every field must parse against its column's
    /// type; the loaded rows bypass constraint validation, and a hash
    /// index is then built over every column. A record of the wrong width
    /// or an unparsable field is reported with its 1-based position.
    #[verifier::loop_isolation(false)]
    pub fn load_from_records(
        name: &str,
        columns: Vec<Column>,
        primary_key: Option<Vec<String>>,
        records: &Vec<Vec<String>>,
    ) -> (r: Result<Table, DbError>)
        requires
            forall|j: int|
                0 <= j < columns.deep_view().len() ==> (#[trigger] columns.deep_view()[j]).datatype
                    != DataType::Float && columns.deep_view()[j].datatype != DataType::Double,
        ensures
            r is Ok <==> (forall|i: int|
                0 <= i < records.deep_view().len() ==> (#[trigger] records.deep_view()[i]).len()
                    == columns.deep_view().len() && (forall|j: int|
                    0 <= j < columns.deep_view().len() ==> parsed_value(
                        records.deep_view()[i][j],
                        (#[trigger] columns.deep_view()[j]).datatype,
                    ) is Some)),
            r is Err ==> r->Err_0 is ParseError,
            r matches Ok(t) ==> t.wf() && t.name@ == name@ && t.cols_model()
                == columns.deep_view() && t.rows_model() == Seq::new(
                records.deep_view().len(),
                |i: int| Seq::new(
                    columns.deep_view().len(),
                    |j: int| parsed_value(
                        records.deep_view()[i][j],
                        columns.deep_view()[j].datatype,
                    )->Some_0,
                ),
            ),
    {
        let ghost cd = columns.deep_view();
        let ghost recd = records.deep_view();
        let mut rows: Vec<Vec<Value>> = Vec::new();
        let mut i: usize = 0;
        while i < records.len()
            invariant
                i <= records@.len(),
                rows.deep_view().len() == i,
                forall|i2: int|
                    0 <= i2 < i ==> (#[trigger] recd[i2]).len() == cd.len() && (forall|j: int|
                        0 <= j < cd.len() ==> parsed_value(
                            recd[i2][j],
                            (#[trigger] cd[j]).datatype,
                        ) is Some),
                forall|i2: int|
                    0 <= i2 < i ==> #[trigger] rows.deep_view()[i2] == Seq::new(
                        cd.len(),
                        |j: int| parsed_value(recd[i2][j], cd[j].datatype)->Some_0,
                    ),
            decreases records@.len() - i,
        {
            if records[i].len() != columns.len() {
                proof {
                    assert(recd[i as int].len() == records@[i as int]@.len());
                    assert(recd[i as int].len() != cd.len());
                }
                return Err(
                    DbError::ParseError(
                        msg3(
                            "Row ",
                            crate::table::text::fmt_u64((i + 1) as u64).as_str(),
                            " has wrong number of fields",
                        ),
                    ),
                );
            }
            let mut row: Vec<Value> = Vec::new();
            let mut j: usize = 0;
            while j < columns.len()
                invariant
                    i < records@.len(),
                    j <= columns@.len(),
                    recd[i as int].len() == cd.len(),
                    records@[i as int]@.len() == columns@.len(),
                    row.deep_view().len() == j,
                    forall|j2: int|
                        0 <= j2 < j ==> parsed_value(
                            recd[i as int][j2],
                            (#[trigger] cd[j2]).datatype,
                        ) is Some,
                    forall|j2: int|
                        0 <= j2 < j ==> #[trigger] row.deep_view()[j2] == parsed_value(
                            recd[i as int][j2],
                            cd[j2].datatype,
                        )->Some_0,
                decreases columns@.len() - j,
            {
                proof {
                    assert(recd[i as int][j as int] == records@[i as int]@[j as int]@);
                    assert(cd[j as int].datatype == columns@[j as int].datatype);
                }
                let value = match Value::from_str(records[i][j].as_str(), &columns[j].datatype) {
                    Ok(v) => v,
                    Err(_) => {
                        let mut m = msg3(
                            "Error parsing value for column '",
                            columns[j].name.as_str(),
                            "' in row ",
                        );
                        m.append(crate::table::text::fmt_u64((i + 1) as u64).as_str());
                        return Err(DbError::ParseError(m));
                    },
                };
                let ghost prev = row.deep_view();
                let ghost vd = value@;
                row.push(value);
                proof {
                    assert(row.deep_view() =~~= prev.push(vd));
                }
                j = j + 1;
            }
            proof {
                assert(row.deep_view() =~~= Seq::new(
                    cd.len(),
                    |j2: int| parsed_value(recd[i as int][j2], cd[j2].datatype)->Some_0,
                ));
            }
            let ghost prevr = rows.deep_view();
            let ghost rowd = row.deep_view();
            rows.push(row);
            proof {
                assert(rows.deep_view() =~~= prevr.push(rowd));
            }
            i = i + 1;
        }
        let mut table = Table {
            name: name.to_owned(),
            columns,
            rows,
            primary_key,
            indexes: Vec::new(),
            transaction_backup: None,
        };
        proof {
            assert(table.rows_model() =~~= Seq::new(
                recd.len(),
                |i2: int| Seq::new(
                    cd.len(),
                    |j: int| parsed_value(recd[i2][j], cd[j].datatype)->Some_0,
                ),
            ));
            assert forall|x: int| 0 <= x < table.rows_model().len() implies (
            #[trigger] table.rows_model()[x]).len() == table.cols_model().len() by {
                assert(table.rows_model()[x] == Seq::new(
                    cd.len(),
                    |j: int| parsed_value(recd[x][j], cd[j].datatype)->Some_0,
                ));
            }
        }
        let names: Vec<String> = collect_column_names(&table.columns);
        let mut k: usize = 0;
        while k < names.len()
            invariant
                k <= names@.len(),
                table.wf(),
                table.name@ == name@,
                table.cols_model() == cd,
                table.rows_model() == Seq::new(
                    recd.len(),
                    |i2: int| Seq::new(
                        cd.len(),
                        |j: int| parsed_value(recd[i2][j], cd[j].datatype)->Some_0,
                    ),
                ),
            decreases names@.len() - k,
        {
            let unused = table.create_index(names[k].as_str(), false);
            k = k + 1;
        }
        Ok(table)
    }

    /// Rebuilds a table from parsed view records: like record loading,
    /// without a primary key or any index.
    #[verifier::loop_isolation(false)]
    pub fn load_view_from_records(
        view_name: &str,
        columns: Vec<Column>,
        records: &Vec<Vec<String>>,
    ) -> (r: Result<Table, DbError>)
        requires
            forall|j: int|
                0 <= j < columns.deep_view().len() ==> (#[trigger] columns.deep_view()[j]).datatype
                    != DataType::Float && columns.deep_view()[j].datatype != DataType::Double,
        ensures
            r is Ok <==> (forall|i: int|
                0 <= i < records.deep_view().len() ==> (#[trigger] records.deep_view()[i]).len()
                    == columns.deep_view().len() && (forall|j: int|
                    0 <= j < columns.deep_view().len() ==> parsed_value(
                        records.deep_view()[i][j],
                        (#[trigger] columns.deep_view()[j]).datatype,
                    ) is Some)),
            r is Err ==> r->Err_0 is ParseError,
            r matches Ok(t) ==> t.wf() && t.name@ == view_name@ && t.cols_model()
                == columns.deep_view() && t.primary_key is None && t.indexes@.len() == 0
                && t.rows_model() == Seq::new(
                records.deep_view().len(),
                |i: int| Seq::new(
                    columns.deep_view().len(),
                    |j: int| parsed_value(
                        records.deep_view()[i][j],
                        columns.deep_view()[j].datatype,
                    )->Some_0,
                ),
            ),
    {
        let cols_copy = clone_columns(&columns);
        let loaded = Table::load_from_records(view_name, columns, None, records);
        match loaded {
            Ok(t) => {
                let stripped = Table {
                    name: t.name,
                    columns: t.columns,
                    rows: t.rows,
                    primary_key: None,
                    indexes: Vec::new(),
                    transaction_backup: None,
                };
                Ok(stripped)
            },
            Err(e) => Err(e),
        }
    }
}

/// The column names, cloned.
fn collect_column_names(columns: &Vec<Column>) -> (r: Vec<String>)
    ensures
        r@.len() == columns@.len(),
{
    let mut r: Vec<String> = Vec::new();
    let mut i: usize = 0;
    while i < columns.len()
        invariant
            i <= columns@.len(),
            r@.len() == i,
        decreases columns@.len() - i,
    {
        r.push(columns[i].name.clone());
        i = i + 1;
    }
    r
}

} // verus!

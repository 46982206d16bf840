//! Decimal formatting and parsing, and the display rendering of values:
//! the textual forms that persistence, distinctness keys and error messages
//! are built from.

use vstd::prelude::*;
use vstd::string::StringExecFns;
use crate::chars::{chars_of, string_from_chars};
use crate::table::data::Value;
use crate::table::model::ValModel;

verus! {

/// The character of one decimal digit.
pub open spec fn digit_char(d: int) -> char {
    if d == 0 {
        '0'
    } else if d == 1 {
        '1'
    } else if d == 2 {
        '2'
    } else if d == 3 {
        '3'
    } else if d == 4 {
        '4'
    } else if d == 5 {
        '5'
    } else if d == 6 {
        '6'
    } else if d == 7 {
        '7'
    } else if d == 8 {
        '8'
    } else {
        '9'
    }
}

/// The decimal digits of a non-negative number, most significant first.
pub open spec fn dec_digits(n: int) -> Seq<char>
    decreases n,
{
    if n < 10 {
        seq![digit_char(n)]
    } else {
        dec_digits(n / 10) + seq![digit_char(n % 10)]
    }
}

/// The decimal rendering of an integer, with a leading `-` when negative.
pub open spec fn int_text(n: int) -> Seq<char> {
    if n < 0 {
        seq!['-'] + dec_digits(-n)
    } else {
        dec_digits(n)
    }
}

/// A non-negative number rendered with at least two digits.
pub open spec fn pad2(n: int) -> Seq<char> {
    if 0 <= n < 10 {
        seq!['0'] + dec_digits(n)
    } else {
        int_text(n)
    }
}

/// A year rendered with at least four digits, signed when negative.
pub open spec fn year_text(y: int) -> Seq<char> {
    if y < 0 {
        seq!['-'] + pad4(-y)
    } else {
        pad4(y)
    }
}

/// A non-negative number rendered with at least four digits.
pub open spec fn pad4(n: int) -> Seq<char> {
    if 0 <= n < 10 {
        seq!['0', '0', '0'] + dec_digits(n)
    } else if 10 <= n < 100 {
        seq!['0', '0'] + dec_digits(n)
    } else if 100 <= n < 1000 {
        seq!['0'] + dec_digits(n)
    } else {
        int_text(n)
    }
}

/// The `YYYY-MM-DD` rendering of a date.
pub open spec fn date_text(y: int, m: int, d: int) -> Seq<char> {
    year_text(y) + seq!['-'] + pad2(m) + seq!['-'] + pad2(d)
}

/// The `HH:MM:SS` rendering of a time.
pub open spec fn time_text(h: int, mi: int, s: int) -> Seq<char> {
    pad2(h) + seq![':'] + pad2(mi) + seq![':'] + pad2(s)
}

/// The rendering of a boolean.
pub open spec fn bool_text(b: bool) -> Seq<char> {
    if b {
        seq!['t', 'r', 'u', 'e']
    } else {
        seq!['f', 'a', 'l', 's', 'e']
    }
}

/// The pieces joined with a comma between neighbours.
pub open spec fn join_comma(items: Seq<Seq<char>>) -> Seq<char>
    decreases items.len(),
{
    if items.len() == 0 {
        Seq::empty()
    } else if items.len() == 1 {
        items[0]
    } else {
        join_comma(items.drop_last()) + seq![','] + items.last()
    }
}

/// The display rendering of a value: the text its variant shows as, `NULL`
/// for a null, a float by its carried rendering.
pub open spec fn val_display(v: ValModel) -> Seq<char> {
    match v {
        ValModel::Char(c) => seq![c],
        ValModel::Varchar(s) => s,
        ValModel::Text(s) => s,
        ValModel::Enum(sel, _) => sel,
        ValModel::SetVal(items, _) => seq!['{'] + join_comma(items) + seq!['}'],
        ValModel::Boolean(b) => bool_text(b),
        ValModel::Int(i) => int_text(i),
        ValModel::BigInt(i) => int_text(i),
        ValModel::Float(_, text) => text,
        ValModel::Double(_, text) => text,
        ValModel::Date(y, m, d) => date_text(y, m, d),
        ValModel::Time(h, mi, s) => time_text(h, mi, s),
        ValModel::DateTime(y, m, d, h, mi, s) => date_text(y, m, d) + seq![' '] + time_text(
            h,
            mi,
            s,
        ),
        ValModel::Null => seq!['N', 'U', 'L', 'L'],
    }
}

/// The distinctness key of a row: the display renderings of its values
/// joined with commas.
pub open spec fn row_key(row: Seq<ValModel>) -> Seq<char> {
    join_comma(row.map_values(|v: ValModel| val_display(v)))
}

/// One digit as a string slice.
fn digit_str(d: u64) -> (r: &'static str)
    requires
        d < 10,
    ensures
        r@ == seq![digit_char(d as int)],
{
    proof {
        reveal_strlit("0");
        reveal_strlit("1");
        reveal_strlit("2");
        reveal_strlit("3");
        reveal_strlit("4");
        reveal_strlit("5");
        reveal_strlit("6");
        reveal_strlit("7");
        reveal_strlit("8");
        reveal_strlit("9");
    }
    match d {
        0 => "0",
        1 => "1",
        2 => "2",
        3 => "3",
        4 => "4",
        5 => "5",
        6 => "6",
        7 => "7",
        8 => "8",
        _ => "9",
    }
}

/// The decimal rendering of a non-negative number.
pub fn fmt_u64(n: u64) -> (r: String)
    ensures
        r@ == dec_digits(n as int),
    decreases n,
{
    if n < 10 {
        digit_str(n).to_owned()
    } else {
        let mut s = fmt_u64(n / 10);
        s.append(digit_str(n % 10));
        s
    }
}

/// The decimal rendering of a signed number.
pub fn fmt_i64(n: i64) -> (r: String)
    ensures
        r@ == int_text(n as int),
{
    if n >= 0 {
        fmt_u64(n as u64)
    } else {
        let mag: u64 = if n == i64::MIN {
            9223372036854775808u64
        } else {
            (-n) as u64
        };
        proof {
            reveal_strlit("-");
        }
        let mut s: String = "-".to_owned();
        s.append(fmt_u64(mag).as_str());
        proof {
            assert(s@ =~= int_text(n as int));
        }
        s
    }
}

pub fn fmt_i32(n: i32) -> (r: String)
    ensures
        r@ == int_text(n as int),
{
    fmt_i64(n as i64)
}

/// A number below 100 rendered with two digits.
fn fmt_pad2(n: u32) -> (r: String)
    ensures
        r@ == pad2(n as int),
{
    if n < 10 {
        proof {
            reveal_strlit("0");
        }
        let mut s: String = "0".to_owned();
        s.append(fmt_u64(n as u64).as_str());
        proof {
            assert(s@ =~= pad2(n as int));
        }
        s
    } else {
        fmt_u64(n as u64)
    }
}

/// A non-negative number rendered with at least four digits.
fn fmt_pad4(n: u64) -> (r: String)
    ensures
        r@ == pad4(n as int),
{
    proof {
        reveal_strlit("000");
        reveal_strlit("00");
        reveal_strlit("0");
    }
    if n < 10 {
        let mut s: String = "000".to_owned();
        s.append(fmt_u64(n).as_str());
        proof {
            assert(s@ =~= pad4(n as int));
        }
        s
    } else if n < 100 {
        let mut s: String = "00".to_owned();
        s.append(fmt_u64(n).as_str());
        proof {
            assert(s@ =~= pad4(n as int));
        }
        s
    } else if n < 1000 {
        let mut s: String = "0".to_owned();
        s.append(fmt_u64(n).as_str());
        proof {
            assert(s@ =~= pad4(n as int));
        }
        s
    } else {
        fmt_u64(n)
    }
}

/// A year rendered with at least four digits, signed when negative.
fn fmt_year(y: i32) -> (r: String)
    ensures
        r@ == year_text(y as int),
{
    if y >= 0 {
        fmt_pad4(y as u64)
    } else {
        let mag: u64 = if y == i32::MIN {
            2147483648u64
        } else {
            (-(y as i64)) as u64
        };
        proof {
            reveal_strlit("-");
        }
        let mut s: String = "-".to_owned();
        s.append(fmt_pad4(mag).as_str());
        proof {
            assert(s@ =~= year_text(y as int));
        }
        s
    }
}

/// The `YYYY-MM-DD` rendering of a date.
fn fmt_date(y: i32, m: u32, d: u32) -> (r: String)
    ensures
        r@ == date_text(y as int, m as int, d as int),
{
    proof {
        reveal_strlit("-");
    }
    let mut s = fmt_year(y);
    s.append("-");
    s.append(fmt_pad2(m).as_str());
    s.append("-");
    s.append(fmt_pad2(d).as_str());
    proof {
        assert(s@ =~= date_text(y as int, m as int, d as int));
    }
    s
}

/// The `HH:MM:SS` rendering of a time.
fn fmt_time(h: u32, mi: u32, sec: u32) -> (r: String)
    ensures
        r@ == time_text(h as int, mi as int, sec as int),
{
    proof {
        reveal_strlit(":");
    }
    let mut s = fmt_pad2(h);
    s.append(":");
    s.append(fmt_pad2(mi).as_str());
    s.append(":");
    s.append(fmt_pad2(sec).as_str());
    proof {
        assert(s@ =~= time_text(h as int, mi as int, sec as int));
    }
    s
}

impl Value {
    /// The display rendering of this value.
    #[verifier::loop_isolation(false)]
    pub fn to_display_string(&self) -> (r: String)
        ensures
            r@ == val_display(self@),
    {
        match self {
            Value::Char(c) => {
                let mut v: Vec<char> = Vec::new();
                v.push(*c);
                let s = string_from_chars(&v);
                proof {
                    assert(s@ =~= val_display(self@));
                }
                s
            },
            Value::Varchar(s) => s.clone(),
            Value::Text(s) => s.clone(),
            Value::Enum(sel, _) => sel.clone(),
            Value::SetVal(items, _) => {
                proof {
                    reveal_strlit("{");
                    reveal_strlit("}");
                    reveal_strlit(",");
                }
                let mut s: String = "{".to_owned();
                let mut i: usize = 0;
                while i < items.len()
                    invariant
                        i <= items.len(),
                        s@ == seq!['{'] + join_comma(
                            items.deep_view().subrange(0, i as int),
                        ) + if i > 0 && i < items.len() {
                            seq![',']
                        } else {
                            Seq::empty()
                        },
                    decreases items.len() - i,
                {
                    s.append(items[i].as_str());
                    if i + 1 < items.len() {
                        s.append(",");
                    }
                    proof {
                        let prefix = items.deep_view().subrange(0, i as int + 1);
                        assert(prefix.drop_last() =~= items.deep_view().subrange(0, i as int));
                        assert(prefix.last() == items@[i as int]@);
                        if i > 0 {
                            assert(join_comma(prefix) == join_comma(prefix.drop_last())
                                + seq![','] + prefix.last());
                        }
                        assert(s@ =~= seq!['{'] + join_comma(prefix) + if i + 1 > 0 && i + 1
                            < items.len() {
                            seq![',']
                        } else {
                            Seq::<char>::empty()
                        });
                    }
                    i = i + 1;
                }
                s.append("}");
                proof {
                    assert(items.deep_view().subrange(0, items@.len() as int) =~= items.deep_view());
                    assert(s@ =~= val_display(self@));
                }
                s
            },
            Value::Boolean(b) => {
                proof {
                    reveal_strlit("true");
                    reveal_strlit("false");
                }
                let s: String = if *b {
                    "true".to_owned()
                } else {
                    "false".to_owned()
                };
                proof {
                    assert(s@ =~= bool_text(*b));
                }
                s
            },
            Value::Int(i) => fmt_i32(*i),
            Value::BigInt(i) => fmt_i64(*i),
            Value::Float(_, text) => text.clone(),
            Value::Double(_, text) => text.clone(),
            Value::Date(y, m, d) => fmt_date(*y, *m, *d),
            Value::Time(h, mi, s) => fmt_time(*h, *mi, *s),
            Value::DateTime(y, m, d, h, mi, sec) => {
                proof {
                    reveal_strlit(" ");
                }
                let mut s = fmt_date(*y, *m, *d);
                s.append(" ");
                s.append(fmt_time(*h, *mi, *sec).as_str());
                proof {
                    assert(s@ =~= val_display(self@));
                }
                s
            },
            Value::Null => {
                proof {
                    reveal_strlit("NULL");
                }
                let s: String = "NULL".to_owned();
                proof {
                    assert(s@ =~= val_display(self@));
                }
                s
            },
        }
    }
}

impl crate::table::data::DataType {
    /// The declared type's name as error messages print it.
    pub fn kind_name(&self) -> (r: &'static str) {
        match self {
            crate::table::data::DataType::Char => "Char",
            crate::table::data::DataType::Varchar => "Varchar",
            crate::table::data::DataType::Text => "Text",
            crate::table::data::DataType::Enum => "Enum",
            crate::table::data::DataType::SetVal => "Set",
            crate::table::data::DataType::Boolean => "Boolean",
            crate::table::data::DataType::Int => "Int",
            crate::table::data::DataType::BigInt => "BigInt",
            crate::table::data::DataType::Float => "Float",
            crate::table::data::DataType::Double => "Double",
            crate::table::data::DataType::Date => "Date",
            crate::table::data::DataType::Time => "Time",
            crate::table::data::DataType::DateTime => "DateTime",
        }
    }
}

impl Value {
    /// A diagnostic rendering of this value: the variant's name and its
    /// content, a textual payload quoted.
    pub fn debug_string(&self) -> (r: String) {
        let shown = self.to_display_string();
        match self {
            Value::Char(_) => {
                let mut s: String = "Char('".to_owned();
                s.append(shown.as_str());
                s.append("')");
                s
            },
            Value::Varchar(_) => {
                let mut s: String = "Varchar(\"".to_owned();
                s.append(shown.as_str());
                s.append("\")");
                s
            },
            Value::Text(_) => {
                let mut s: String = "Text(\"".to_owned();
                s.append(shown.as_str());
                s.append("\")");
                s
            },
            Value::Enum(_, _) => {
                let mut s: String = "Enum(\"".to_owned();
                s.append(shown.as_str());
                s.append("\", ..)");
                s
            },
            Value::SetVal(_, _) => {
                let mut s: String = "Set(".to_owned();
                s.append(shown.as_str());
                s.append(")");
                s
            },
            Value::Boolean(_) => {
                let mut s: String = "Boolean(".to_owned();
                s.append(shown.as_str());
                s.append(")");
                s
            },
            Value::Int(_) => {
                let mut s: String = "Int(".to_owned();
                s.append(shown.as_str());
                s.append(")");
                s
            },
            Value::BigInt(_) => {
                let mut s: String = "BigInt(".to_owned();
                s.append(shown.as_str());
                s.append(")");
                s
            },
            Value::Float(_, _) => {
                let mut s: String = "Float(".to_owned();
                s.append(shown.as_str());
                s.append(")");
                s
            },
            Value::Double(_, _) => {
                let mut s: String = "Double(".to_owned();
                s.append(shown.as_str());
                s.append(")");
                s
            },
            Value::Date(_, _, _) => {
                let mut s: String = "Date(".to_owned();
                s.append(shown.as_str());
                s.append(")");
                s
            },
            Value::Time(_, _, _) => {
                let mut s: String = "Time(".to_owned();
                s.append(shown.as_str());
                s.append(")");
                s
            },
            Value::DateTime(_, _, _, _, _, _) => {
                let mut s: String = "DateTime(".to_owned();
                s.append(shown.as_str());
                s.append(")");
                s
            },
            Value::Null => "Null".to_owned(),
        }
    }
}

/// The distinctness key of a row: display renderings joined with commas.
#[verifier::loop_isolation(false)]
pub fn row_key_string(row: &Vec<Value>) -> (r: String)
    ensures
        r@ == row_key(row.deep_view()),
{
    proof {
        reveal_strlit(",");
    }
    let mut s: String = String::new();
    let mut i: usize = 0;
    while i < row.len()
        invariant
            i <= row.len(),
            s@ == join_comma(
                row.deep_view().subrange(0, i as int).map_values(|v: ValModel| val_display(v)),
            ) + if i > 0 && i < row.len() {
                seq![',']
            } else {
                Seq::empty()
            },

        decreases row.len() - i,
    {
        let d = row[i].to_display_string();
        s.append(d.as_str());
        if i + 1 < row.len() {
            s.append(",");
        }
        proof {
            let prefix = row.deep_view().subrange(0, i as int + 1).map_values(
                |v: ValModel| val_display(v),
            );
            assert(prefix.drop_last() =~= row.deep_view().subrange(0, i as int).map_values(
                |v: ValModel| val_display(v),
            ));
            assert(prefix.last() == val_display(row@[i as int]@));
            if i > 0 {
                assert(join_comma(prefix) == join_comma(prefix.drop_last()) + seq![',']
                    + prefix.last());
            }
            assert(s@ =~= join_comma(prefix) + if i + 1 > 0 && i + 1 < row.len() {
                seq![',']
            } else {
                Seq::<char>::empty()
            });
        }
        i = i + 1;
    }
    proof {
        assert(row.deep_view().subrange(0, row@.len() as int) =~= row.deep_view());
    }
    s
}

/// Whether a character is a decimal digit.
pub open spec fn is_digit(c: char) -> bool {
    '0' <= c && c <= '9'
}

/// The numeric value of a digit character.
pub open spec fn digit_val(c: char) -> int {
    c as int - '0' as int
}

/// Whether every character of `s` is a digit.
pub open spec fn all_digits(s: Seq<char>) -> bool {
    forall|i: int| 0 <= i < s.len() ==> is_digit(#[trigger] s[i])
}

/// The number the digit string denotes.
pub open spec fn digits_val(s: Seq<char>) -> int
    decreases s.len(),
{
    if s.len() == 0 {
        0
    } else {
        digits_val(s.drop_last()) * 10 + digit_val(s.last())
    }
}

/// Whether `s` is a well-formed integer literal: an optional single sign
/// followed by one or more digits.
pub open spec fn int_literal_ok(s: Seq<char>) -> bool {
    if s.len() == 0 {
        false
    } else if s[0] == '+' || s[0] == '-' {
        s.len() >= 2 && all_digits(s.drop_first())
    } else {
        all_digits(s)
    }
}

/// The value of a well-formed integer literal.
pub open spec fn int_literal_val(s: Seq<char>) -> int {
    if s.len() > 0 && s[0] == '-' {
        -digits_val(s.drop_first())
    } else if s.len() > 0 && s[0] == '+' {
        digits_val(s.drop_first())
    } else {
        digits_val(s)
    }
}

proof fn lemma_digits_val_nonneg(s: Seq<char>)
    requires
        all_digits(s),
    ensures
        digits_val(s) >= 0,
    decreases s.len(),
{
    if s.len() > 0 {
        assert(all_digits(s.drop_last()));
        lemma_digits_val_nonneg(s.drop_last());
    }
}

/// Extending a digit string cannot decrease its value.
proof fn lemma_digits_val_prefix(s: Seq<char>, k: int)
    requires
        all_digits(s),
        0 <= k <= s.len(),
    ensures
        digits_val(s) >= digits_val(s.subrange(0, k)),
    decreases s.len() - k,
{
    if k < s.len() {
        lemma_digits_val_prefix(s, k + 1);
        let p1 = s.subrange(0, k + 1);
        assert(p1.drop_last() =~= s.subrange(0, k));
        assert(all_digits(s.subrange(0, k)));
        lemma_digits_val_nonneg(s.subrange(0, k));
    } else {
        assert(s.subrange(0, s.len() as int) =~= s);
    }
}

/// The digits of `v` from position `from` parsed as a number, refusing an
/// empty digit string, a non-digit, or a value above `u64::MAX`.
fn parse_digits_u64(v: &Vec<char>, from: usize) -> (r: Option<u64>)
    requires
        from <= v@.len(),
    ensures
        ({
            let s = v@.subrange(from as int, v@.len() as int);
            match r {
                Some(m) => s.len() > 0 && all_digits(s) && m as int == digits_val(s),
                None => s.len() == 0 || !all_digits(s) || digits_val(s) > u64::MAX as int,
            }
        }),
{
    if from == v.len() {
        return None;
    }
    let mut acc: u64 = 0;
    let mut i: usize = from;
    let ghost s = v@.subrange(from as int, v@.len() as int);
    while i < v.len()
        invariant
            from <= i <= v@.len(),
            s == v@.subrange(from as int, v@.len() as int),
            all_digits(v@.subrange(from as int, i as int)),
            acc as int == digits_val(v@.subrange(from as int, i as int)),
        decreases v@.len() - i,
    {
        let c = v[i];
        if !(c >= '0' && c <= '9') {
            proof {
                assert(s[i - from] == v@[i as int]);
                assert(!is_digit(s[i - from]));
            }
            return None;
        }
        let d: u64 = (c as u32 as u64) - 48;
        proof {
            assert(is_digit(v@[i as int]));
            assert(d as int == digit_val(v@[i as int]));
        }
        if acc > (u64::MAX - d) / 10 {
            proof {
                let p1 = v@.subrange(from as int, i as int + 1);
                assert(p1.drop_last() =~= v@.subrange(from as int, i as int));
                assert(digits_val(p1) == acc as int * 10 + d);
                assert(acc as int * 10 + d > u64::MAX as int) by (nonlinear_arith)
                    requires
                        acc as int > ((u64::MAX as int - d) / 10 as int),
                        0 <= d < 10,
                        acc as int >= 0,
                ;
                assert(p1 =~= s.subrange(0, i + 1 - from));
                assert(all_digits(s) ==> digits_val(s) >= digits_val(s.subrange(0, i + 1 - from)))
                    by {
                    if all_digits(s) {
                        lemma_digits_val_prefix(s, i + 1 - from);
                    }
                };
            }
            return None;
        }
        proof {
            let p1 = v@.subrange(from as int, i as int + 1);
            assert(p1.drop_last() =~= v@.subrange(from as int, i as int));
            assert(acc as int * 10 + d <= u64::MAX as int) by (nonlinear_arith)
                requires
                    acc as int <= ((u64::MAX as int - d) / 10 as int),
                    0 <= d < 10,
                    acc as int >= 0,
            ;
        }
        acc = acc * 10 + d;
        i = i + 1;
    }
    proof {
        assert(v@.subrange(from as int, v@.len() as int) =~= s);
    }
    Some(acc)
}

/// An integer literal parsed as `i64`, exactly as the engine's integer
/// columns accept it: an optional sign, then digits, in range.
pub fn parse_i64_chars(v: &Vec<char>) -> (r: Option<i64>)
    ensures
        match r {
            Some(x) => int_literal_ok(v@) && x as int == int_literal_val(v@),
            None => !int_literal_ok(v@) || int_literal_val(v@) < i64::MIN as int
                || int_literal_val(v@) > i64::MAX as int,
        },
{
    if v.len() == 0 {
        return None;
    }
    let c0 = v[0];
    let negative = c0 == '-';
    let from: usize = if c0 == '-' || c0 == '+' {
        1
    } else {
        0
    };
    let ghost digits = v@.subrange(from as int, v@.len() as int);
    proof {
        if from == 0 {
            assert(digits =~= v@);
        } else {
            assert(digits =~= v@.drop_first());
        }
    }
    let mag = match parse_digits_u64(v, from) {
        Some(m) => m,
        None => {
            proof {
                if digits.len() == 0 || !all_digits(digits) {
                } else {
                    lemma_digits_val_nonneg(digits);
                }
            }
            return None;
        },
    };
    if negative {
        if mag > 9223372036854775808u64 {
            return None;
        }
        if mag == 9223372036854775808u64 {
            Some(i64::MIN)
        } else {
            Some(-(mag as i64))
        }
    } else {
        if mag > 9223372036854775807u64 {
            return None;
        }
        Some(mag as i64)
    }
}

/// An integer literal parsed as `i32`.
pub fn parse_i32_chars(v: &Vec<char>) -> (r: Option<i32>)
    ensures
        match r {
            Some(x) => int_literal_ok(v@) && x as int == int_literal_val(v@),
            None => !int_literal_ok(v@) || int_literal_val(v@) < i32::MIN as int
                || int_literal_val(v@) > i32::MAX as int,
        },
{
    match parse_i64_chars(v) {
        Some(x) => {
            if x >= -2147483648i64 && x <= 2147483647i64 {
                Some(x as i32)
            } else {
                None
            }
        },
        None => {
            proof {
                if int_literal_ok(v@) {
                    let digits = if v@[0] == '+' || v@[0] == '-' {
                        v@.drop_first()
                    } else {
                        v@
                    };
                    lemma_digits_val_nonneg(digits);
                }
            }
            None
        },
    }
}

} // verus!

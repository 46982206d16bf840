use database::table::data::{Table, Column, DataType, Options, Value, FilterExpr, AggregationResult};
use database::errors::DbError;
use database::database::validators::Database;

fn col(name: &str, dtype: DataType, options: Vec<Options>) -> Column {
    Column { name: name.to_string(), datatype: dtype, options }
}

fn people() -> Table {
    let columns = vec![
        col("id", DataType::Int, vec![]),
        col("name", DataType::Varchar, vec![]),
    ];
    Table::new("people", columns, None)
}

#[test]
fn insert_keeps_rows_aligned_and_indexes_in_range() {
    let columns = vec![
        col("id", DataType::Int, vec![Options::NotNull]),
        col("name", DataType::Varchar, vec![]),
    ];
    let mut t = Table::new("users", columns, Some(vec!["id".to_string()]));
    t.insert(vec![Value::Int(1), Value::Varchar("a".to_string())]).unwrap();
    t.insert(vec![Value::Int(2), Value::Varchar("b".to_string())]).unwrap();
    for row in &t.rows {
        assert_eq!(row.len(), t.columns.len());
    }
    for ci in &t.indexes {
        let entries = match &ci.index {
            database::table::data::IndexType::Hash(e) => e,
            database::table::data::IndexType::BTree(e) => e,
        };
        for e in entries {
            for p in &e.positions {
                assert!(*p < t.rows.len());
            }
        }
    }
}

#[test]
fn type_mismatch_reports_kind_and_changes_nothing() {
    let mut t = people();
    t.insert(vec![Value::Int(1), Value::Varchar("a".to_string())]).unwrap();
    let r = t.insert(vec![Value::Varchar("x".to_string()), Value::Varchar("y".to_string())]);
    assert!(matches!(r, Err(DbError::TypeMismatch(_))));
    assert_eq!(t.rows.len(), 1);
}

#[test]
fn unique_rejects_duplicates_and_plain_columns_accept_them() {
    let mut unique_table = Table::new(
        "u",
        vec![col("v", DataType::Int, vec![Options::Unique])],
        None,
    );
    unique_table.insert(vec![Value::Int(7)]).unwrap();
    let r = unique_table.insert(vec![Value::Int(7)]);
    assert!(matches!(r, Err(DbError::ConstraintViolation(_))));
    assert_eq!(unique_table.rows.len(), 1);

    let mut plain_table = Table::new("p", vec![col("v", DataType::Int, vec![])], None);
    plain_table.insert(vec![Value::Int(7)]).unwrap();
    plain_table.insert(vec![Value::Int(7)]).unwrap();
    assert_eq!(plain_table.rows.len(), 2);
}

#[test]
fn composite_primary_key_rejects_duplicate_tuple() {
    let mut t = Table::new(
        "t",
        vec![
            col("a", DataType::Int, vec![]),
            col("b", DataType::Int, vec![]),
            col("c", DataType::Int, vec![]),
        ],
        Some(vec!["a".to_string(), "b".to_string()]),
    );
    t.insert(vec![Value::Int(1), Value::Int(2), Value::Int(3)]).unwrap();
    let r = t.insert(vec![Value::Int(1), Value::Int(2), Value::Int(9)]);
    assert!(matches!(r, Err(DbError::ConstraintViolation(_))));
    t.insert(vec![Value::Int(1), Value::Int(3), Value::Int(3)]).unwrap();
    assert_eq!(t.rows.len(), 2);
}

#[test]
fn autoincrement_yields_one_then_two() {
    let mut t = Table::new(
        "acc",
        vec![
            col("id", DataType::Int, vec![Options::NotNull, Options::Autoincrement]),
            col("name", DataType::Varchar, vec![]),
        ],
        None,
    );
    t.insert(vec![Value::Null, Value::Varchar("a".to_string())]).unwrap();
    t.insert(vec![Value::Null, Value::Varchar("b".to_string())]).unwrap();
    assert_eq!(t.rows[0][0], Value::Int(1));
    assert_eq!(t.rows[1][0], Value::Int(2));
}

#[test]
fn rollback_restores_rows_and_indexes() {
    let mut t = Table::new(
        "txn",
        vec![
            col("id", DataType::Int, vec![Options::NotNull]),
            col("name", DataType::Varchar, vec![]),
        ],
        Some(vec!["id".to_string()]),
    );
    t.insert(vec![Value::Int(1), Value::Varchar("a".to_string())]).unwrap();
    let before = t.rows.clone();
    t.begin_transaction().unwrap();
    t.insert(vec![Value::Int(2), Value::Varchar("b".to_string())]).unwrap();
    t.delete_where(&FilterExpr::Eq("id".to_string(), Value::Int(1)));
    t.rollback_transaction().unwrap();
    assert_eq!(t.rows, before);
    // the primary-key index answers queries against the restored rows
    let hit = t.select_where_expr(&FilterExpr::Eq("id".to_string(), Value::Int(1)));
    assert_eq!(hit.len(), 1);
    let miss = t.select_where_expr(&FilterExpr::Eq("id".to_string(), Value::Int(2)));
    assert_eq!(miss.len(), 0);
    // double rollback fails
    assert!(matches!(
        t.rollback_transaction(),
        Err(DbError::TransactionStateError(_))
    ));
    // double begin fails
    t.begin_transaction().unwrap();
    assert!(matches!(
        t.begin_transaction(),
        Err(DbError::TransactionStateError(_))
    ));
    t.commit_transaction().unwrap();
}

#[test]
fn set_algebra_matches_row_content() {
    let cols = vec![col("v", DataType::Int, vec![])];
    let mut a = Table::new("a", cols.clone(), None);
    a.insert(vec![Value::Int(1)]).unwrap();
    a.insert(vec![Value::Int(2)]).unwrap();
    let mut b = Table::new("b", cols.clone(), None);
    b.insert(vec![Value::Int(2)]).unwrap();
    b.insert(vec![Value::Int(3)]).unwrap();

    let u = a.union(&b).unwrap();
    let uvals: Vec<&Value> = u.rows.iter().map(|r| &r[0]).collect();
    assert_eq!(uvals, vec![&Value::Int(1), &Value::Int(2), &Value::Int(3)]);

    let i = a.intersect(&b).unwrap();
    let ivals: Vec<&Value> = i.rows.iter().map(|r| &r[0]).collect();
    assert_eq!(ivals, vec![&Value::Int(2)]);

    let e = a.except(&b).unwrap();
    let evals: Vec<&Value> = e.rows.iter().map(|r| &r[0]).collect();
    assert_eq!(evals, vec![&Value::Int(1)]);

    // mismatched schemas are refused
    let other = Table::new("c", vec![col("w", DataType::Int, vec![])], None);
    assert!(matches!(a.union(&other), Err(DbError::SchemaError(_))));
}

#[test]
fn autoincrement_unique_scenario() {
    let mut t = Table::new(
        "T",
        vec![
            col(
                "id",
                DataType::Int,
                vec![Options::NotNull, Options::Autoincrement],
            ),
            col("name", DataType::Varchar, vec![Options::Unique]),
        ],
        Some(vec!["id".to_string()]),
    );
    t.insert(vec![Value::Null, Value::Varchar("Alice".to_string())]).unwrap();
    assert_eq!(t.rows[0], vec![Value::Int(1), Value::Varchar("Alice".to_string())]);
    let dup = t.insert(vec![Value::Null, Value::Varchar("Alice".to_string())]);
    assert!(matches!(dup, Err(DbError::ConstraintViolation(_))));
    t.insert(vec![Value::Null, Value::Varchar("Bob".to_string())]).unwrap();
    assert_eq!(t.rows[1], vec![Value::Int(2), Value::Varchar("Bob".to_string())]);
}

#[test]
fn left_join_pads_unmatched_orders_with_nulls() {
    let mut orders = Table::new(
        "orders",
        vec![
            col("order_id", DataType::Int, vec![]),
            col("cust_id", DataType::Int, vec![]),
        ],
        None,
    );
    orders.insert(vec![Value::Int(10), Value::Int(1)]).unwrap();
    orders.insert(vec![Value::Int(11), Value::Int(99)]).unwrap();
    let mut customers = Table::new(
        "customers",
        vec![
            col("id", DataType::Int, vec![]),
            col("name", DataType::Varchar, vec![]),
        ],
        None,
    );
    customers.insert(vec![Value::Int(1), Value::Varchar("Ann".to_string())]).unwrap();

    let joined = orders.left_join(&customers, ("cust_id", "id")).unwrap();
    assert_eq!(joined.len(), 2);
    assert_eq!(joined[0].0, vec![Value::Int(10), Value::Int(1)]);
    assert_eq!(
        joined[0].1,
        vec![Some(Value::Int(1)), Some(Value::Varchar("Ann".to_string()))]
    );
    assert_eq!(joined[1].0, vec![Value::Int(11), Value::Int(99)]);
    assert_eq!(joined[1].1, vec![None, None]);
}

#[test]
fn aggregate_avg_by_department() {
    let mut t = Table::new(
        "staff",
        vec![
            col("dept", DataType::Varchar, vec![]),
            col("salary", DataType::Int, vec![]),
        ],
        None,
    );
    t.insert(vec![Value::Varchar("eng".to_string()), Value::Int(100)]).unwrap();
    t.insert(vec![Value::Varchar("eng".to_string()), Value::Int(200)]).unwrap();
    t.insert(vec![Value::Varchar("sales".to_string()), Value::Int(50)]).unwrap();

    let out = t.aggregate("dept", "salary", "avg").unwrap();
    assert_eq!(out.len(), 2);
    assert_eq!(out[0].0, Value::Varchar("eng".to_string()));
    match out[0].1 {
        AggregationResult::Avg(sum, count) => {
            assert_eq!((sum, count), (300, 2));
            assert_eq!(sum as f64 / count as f64, 150.0);
        },
        _ => panic!("expected an average"),
    }
    assert_eq!(out[1].0, Value::Varchar("sales".to_string()));
    match out[1].1 {
        AggregationResult::Avg(sum, count) => {
            assert_eq!((sum, count), (50, 1));
            assert_eq!(sum as f64 / count as f64, 50.0);
        },
        _ => panic!("expected an average"),
    }

    let sums = t.aggregate("dept", "salary", "sum").unwrap();
    assert_eq!(sums[0].1, AggregationResult::Sum(300));
    let counts = t.aggregate("dept", "salary", "count").unwrap();
    assert_eq!(counts[0].1, AggregationResult::Count(2));
    let mins = t.aggregate("dept", "salary", "min").unwrap();
    assert_eq!(mins[0].1, AggregationResult::Min(Value::Int(100)));
    let maxs = t.aggregate("dept", "salary", "max").unwrap();
    assert_eq!(maxs[0].1, AggregationResult::Max(Value::Int(200)));
    let unknown = t.aggregate("dept", "salary", "median");
    assert!(matches!(unknown, Err(DbError::ParseError(_))));
}

#[test]
fn display_renders_each_variant() {
    assert_eq!(Value::Char('x').to_display_string(), "x");
    assert_eq!(Value::Varchar("hi".to_string()).to_display_string(), "hi");
    assert_eq!(Value::Boolean(true).to_display_string(), "true");
    assert_eq!(Value::Int(-5).to_display_string(), "-5");
    assert_eq!(Value::Int(0).to_display_string(), "0");
    assert_eq!(Value::BigInt(1_000_000_000_000).to_display_string(), "1000000000000");
    assert_eq!(
        Value::SetVal(
            vec!["a".to_string(), "b".to_string()],
            vec!["a".to_string(), "b".to_string(), "c".to_string()],
        )
        .to_display_string(),
        "{a,b}"
    );
    assert_eq!(
        Value::Enum("red".to_string(), vec!["red".to_string()]).to_display_string(),
        "red"
    );
    assert_eq!(Value::Date(2024, 4, 3).to_display_string(), "2024-04-03");
    assert_eq!(Value::Time(9, 5, 0).to_display_string(), "09:05:00");
    assert_eq!(
        Value::DateTime(2024, 4, 13, 14, 30, 0).to_display_string(),
        "2024-04-13 14:30:00"
    );
    assert_eq!(Value::Null.to_display_string(), "NULL");
    let f = 3.5f32;
    assert_eq!(
        Value::Float(f.to_bits(), f.to_string()).to_display_string(),
        "3.5"
    );
}

#[test]
fn from_str_parses_each_supported_kind() {
    assert_eq!(
        Value::from_str("42", &DataType::Int).unwrap(),
        Value::Int(42)
    );
    assert_eq!(
        Value::from_str("  \"7\"  ", &DataType::Int).unwrap(),
        Value::Int(7)
    );
    assert_eq!(
        Value::from_str("-2147483648", &DataType::Int).unwrap(),
        Value::Int(i32::MIN)
    );
    assert!(matches!(
        Value::from_str("2147483648", &DataType::Int),
        Err(DbError::ParseError(_))
    ));
    assert_eq!(
        Value::from_str("9223372036854775807", &DataType::BigInt).unwrap(),
        Value::BigInt(i64::MAX)
    );
    assert_eq!(
        Value::from_str("true", &DataType::Boolean).unwrap(),
        Value::Boolean(true)
    );
    assert!(matches!(
        Value::from_str("maybe", &DataType::Boolean),
        Err(DbError::ParseError(_))
    ));
    assert_eq!(
        Value::from_str("x", &DataType::Char).unwrap(),
        Value::Char('x')
    );
    assert!(matches!(
        Value::from_str("xy", &DataType::Char),
        Err(DbError::ParseError(_))
    ));
    assert_eq!(
        Value::from_str("hello", &DataType::Varchar).unwrap(),
        Value::Varchar("hello".to_string())
    );
    // chrono does the calendar work; an impossible date is refused
    assert_eq!(
        Value::from_str("2024-04-13", &DataType::Date).unwrap(),
        Value::Date(2024, 4, 13)
    );
    assert!(matches!(
        Value::from_str("2023-02-29", &DataType::Date),
        Err(DbError::ParseError(_))
    ));
    assert_eq!(
        Value::from_str("14:30:05", &DataType::Time).unwrap(),
        Value::Time(14, 30, 5)
    );
    assert_eq!(
        Value::from_str("2024-04-13 14:30:05", &DataType::DateTime).unwrap(),
        Value::DateTime(2024, 4, 13, 14, 30, 5)
    );
    assert_eq!(
        Value::from_str("{a, b}", &DataType::SetVal).unwrap(),
        Value::SetVal(vec!["a".to_string(), "b".to_string()], vec![])
    );
    assert_eq!(
        Value::from_str("red", &DataType::Enum).unwrap(),
        Value::Enum("red".to_string(), vec![])
    );
}

#[test]
fn csv_text_round_trips_through_the_parser() {
    let mut t = Table::new(
        "people",
        vec![
            col("id", DataType::Int, vec![]),
            col("name", DataType::Varchar, vec![]),
        ],
        None,
    );
    t.insert(vec![Value::Int(1), Value::Varchar("Alice".to_string())]).unwrap();
    t.insert(vec![Value::Int(2), Value::Varchar("Bob".to_string())]).unwrap();
    let text = t.to_csv_text();
    assert_eq!(text, "id,name\n\"1\",\"Alice\"\n\"2\",\"Bob\"\n");

    // the csv reader hands back the records behind the header
    let records = database::table::io::parse_csv_records(&text).unwrap();
    assert_eq!(records.len(), 2);
    assert_eq!(records[0], vec!["1".to_string(), "Alice".to_string()]);

    let loaded = Table::load_from_records(
        "people",
        t.columns.clone(),
        None,
        &records,
    )
    .unwrap();
    assert_eq!(loaded.rows.len(), 2);
    assert_eq!(loaded.rows[0][1], Value::Varchar("Alice".to_string()));
    assert_eq!(loaded.rows, t.rows);

    let view = t.to_view_text();
    assert_eq!(view, "id,name\n1,Alice\n2,Bob\n");
}

#[test]
fn select_where_uses_indexes_but_equals_the_full_scan() {
    let mut t = Table::new(
        "nums",
        vec![col("v", DataType::Int, vec![])],
        None,
    );
    for i in [5, 1, 9, 1, 7] {
        t.insert(vec![Value::Int(i)]).unwrap();
    }
    let unindexed = t.select_where_expr(&FilterExpr::Eq("v".to_string(), Value::Int(1)));
    t.create_index("v", false).unwrap();
    let hashed = t.select_where_expr(&FilterExpr::Eq("v".to_string(), Value::Int(1)));
    assert_eq!(unindexed, hashed);
    assert_eq!(hashed.len(), 2);

    t.create_index("v", true).unwrap();
    let below = t.select_where_expr(&FilterExpr::Lt("v".to_string(), Value::Int(7)));
    assert_eq!(below.len(), 3);
    let above = t.select_where_expr(&FilterExpr::Gt("v".to_string(), Value::Int(5)));
    assert_eq!(above.len(), 2);
    assert!(matches!(
        t.create_index("w", false),
        Err(DbError::ColumnNotFound(_))
    ));
}

#[test]
fn order_distinct_and_filters() {
    let mut t = Table::new(
        "rows",
        vec![
            col("a", DataType::Int, vec![]),
            col("b", DataType::Varchar, vec![]),
        ],
        None,
    );
    t.insert(vec![Value::Int(2), Value::Varchar("x".to_string())]).unwrap();
    t.insert(vec![Value::Int(1), Value::Varchar("y".to_string())]).unwrap();
    t.insert(vec![Value::Int(2), Value::Varchar("x".to_string())]).unwrap();
    t.insert(vec![Value::Int(1), Value::Varchar("z".to_string())]).unwrap();

    let sorted = t.select_order_by(&vec!["a".to_string(), "b".to_string()]).unwrap();
    assert_eq!(sorted[0], vec![Value::Int(1), Value::Varchar("y".to_string())]);
    assert_eq!(sorted[1], vec![Value::Int(1), Value::Varchar("z".to_string())]);
    assert_eq!(sorted[2], vec![Value::Int(2), Value::Varchar("x".to_string())]);
    assert!(t.select_order_by(&vec!["missing".to_string()]).is_err());

    let distinct = t.select_distinct();
    assert_eq!(distinct.len(), 3);

    let like = t.select_where_expr(&FilterExpr::Like("b".to_string(), "%x%".to_string()));
    assert_eq!(like.len(), 2);
    let among = t.select_where_expr(&FilterExpr::In(
        "a".to_string(),
        vec![Value::Int(1), Value::Int(5)],
    ));
    assert_eq!(among.len(), 2);
    let between = t.select_where_expr(&FilterExpr::Between(
        "a".to_string(),
        Value::Int(2),
        Value::Int(3),
    ));
    assert_eq!(between.len(), 2);
    let no_nulls = t.select_where_expr(&FilterExpr::IsNull("a".to_string()));
    assert_eq!(no_nulls.len(), 0);
}

#[test]
fn schema_changes_track_rows_and_catalog_errors() {
    let mut t = Table::new(
        "s",
        vec![col("id", DataType::Int, vec![])],
        Some(vec!["id".to_string()]),
    );
    t.insert(vec![Value::Int(1)]).unwrap();
    t.alter_add_column(col(
        "tag",
        DataType::Varchar,
        vec![Options::Default(Value::Varchar("none".to_string()))],
    ))
    .unwrap();
    assert_eq!(t.rows[0], vec![Value::Int(1), Value::Varchar("none".to_string())]);
    let nn = t.alter_add_column(col("must", DataType::Int, vec![Options::NotNull]));
    assert!(matches!(nn, Err(DbError::SchemaError(_))));

    t.rename_column("tag", "label").unwrap();
    assert_eq!(t.columns[1].name, "label");
    let pk_drop = t.drop_column("id");
    assert!(matches!(pk_drop, Err(DbError::SchemaError(_))));
    t.drop_column("label").unwrap();
    assert_eq!(t.rows[0], vec![Value::Int(1)]);
}

#[test]
fn column_validation_rules() {
    let bad_default = col(
        "c",
        DataType::Varchar,
        vec![Options::Default(Value::Null), Options::NotNull],
    );
    assert!(matches!(bad_default.validate(), Err(DbError::SchemaError(_))));

    let bad_auto = col("c", DataType::Varchar, vec![Options::Autoincrement, Options::NotNull]);
    assert!(bad_auto.validate().is_err());

    let auto_without_nn = col("c", DataType::Int, vec![Options::Autoincrement]);
    assert!(auto_without_nn.validate().is_err());

    let bad_enum_default = col(
        "c",
        DataType::Enum,
        vec![Options::Default(Value::Enum(
            "x".to_string(),
            vec!["a".to_string()],
        ))],
    );
    assert!(bad_enum_default.validate().is_err());

    let good = col("c", DataType::Int, vec![Options::NotNull, Options::Autoincrement]);
    assert!(good.validate().is_ok());
}

#[test]
fn joins_cover_inner_right_full_and_materialization() {
    let mut a = Table::new(
        "a",
        vec![col("k", DataType::Int, vec![]), col("x", DataType::Varchar, vec![])],
        None,
    );
    a.insert(vec![Value::Int(1), Value::Varchar("a1".to_string())]).unwrap();
    a.insert(vec![Value::Int(2), Value::Varchar("a2".to_string())]).unwrap();
    let mut b = Table::new(
        "b",
        vec![col("k", DataType::Int, vec![]), col("y", DataType::Varchar, vec![])],
        None,
    );
    b.insert(vec![Value::Int(2), Value::Varchar("b2".to_string())]).unwrap();
    b.insert(vec![Value::Int(3), Value::Varchar("b3".to_string())]).unwrap();

    let inner = a.inner_join(&b, ("k", "k")).unwrap();
    assert_eq!(inner.len(), 1);
    assert_eq!(inner[0].0[0], Value::Int(2));

    let right = a.right_join(&b, ("k", "k")).unwrap();
    assert_eq!(right.len(), 2);
    assert_eq!(right[1].0, vec![None, None]);

    let full = a.full_outer_join(&b, ("k", "k")).unwrap();
    assert_eq!(full.len(), 3);

    let on = vec![("k".to_string(), "k".to_string())];
    let inner_m = a.inner_join_multi(&b, &on).unwrap();
    assert_eq!(inner_m.len(), 1);
    let left_m = a.left_join_multi(&b, &on).unwrap();
    assert_eq!(left_m.len(), 2);
    let right_m = a.right_join_multi(&b, &on).unwrap();
    assert_eq!(right_m.len(), 2);

    let filtered = a
        .select_join_where(&b, ("k", "k"), |l: &Vec<Value>, _r: &Vec<Value>| {
            l[0] == Value::Int(2)
        })
        .unwrap();
    assert_eq!(filtered.len(), 1);
    let filtered_m = a
        .select_join_where_multi(&b, &on, |_l: &Vec<Value>, _r: &Vec<Value>| true)
        .unwrap();
    assert_eq!(filtered_m.len(), 1);

    let mat = Table::join_to_table("j", &a.columns, &b.columns, inner_m.clone());
    assert_eq!(mat.columns[0].name, "left.k");
    assert_eq!(mat.columns[2].name, "right.k");
    assert_eq!(mat.rows.len(), 1);
    assert_eq!(mat.rows[0].len(), 4);

    let mat2 = Table::join_to_table_with_aliases("j2", &a, &b, "l", "r", inner_m.clone());
    assert_eq!(mat2.columns[0].name, "l.k");
    assert_eq!(mat2.columns[2].name, "r.k");

    let merged = Table::merge_tables_with_aliases("j3", &a, &b, "l", "r", inner_m);
    assert_eq!(merged.rows.len(), 1);
}

#[test]
fn group_by_keeps_first_occurrence_order() {
    let mut t = Table::new(
        "g",
        vec![col("k", DataType::Varchar, vec![]), col("v", DataType::Int, vec![])],
        None,
    );
    t.insert(vec![Value::Varchar("b".to_string()), Value::Int(1)]).unwrap();
    t.insert(vec![Value::Varchar("a".to_string()), Value::Int(2)]).unwrap();
    t.insert(vec![Value::Varchar("b".to_string()), Value::Int(3)]).unwrap();
    let groups = t.group_by("k", None).unwrap();
    assert_eq!(groups.len(), 2);
    assert_eq!(groups[0].0, Value::Varchar("b".to_string()));
    assert_eq!(groups[0].1.len(), 2);
    assert_eq!(groups[1].0, Value::Varchar("a".to_string()));

    let filter = FilterExpr::Gt("v".to_string(), Value::Int(1));
    let some = t.group_by("k", Some(&filter)).unwrap();
    assert_eq!(some.len(), 2);
    assert_eq!(some[0].1.len(), 1);

    let multi = t
        .aggregate_group(
            "k",
            &vec![("v".to_string(), "sum".to_string()), ("v".to_string(), "count".to_string())],
            None,
        )
        .unwrap();
    assert_eq!(multi[0].1[0], AggregationResult::Sum(4));
    assert_eq!(multi[0].1[1], AggregationResult::Count(2));
}

#[test]
fn truncate_and_check_constraint() {
    let mut t = Table::new(
        "c",
        vec![col(
            "status",
            DataType::Varchar,
            vec![Options::Check("status = active".to_string())],
        )],
        None,
    );
    assert!(t.insert(vec![Value::Varchar("active".to_string())]).is_ok());
    assert!(t.insert(vec![Value::Varchar("idle".to_string())]).is_err());
    t.truncate();
    assert_eq!(t.rows.len(), 0);
    assert_eq!(t.indexes.len(), 0);
}

#[test]
fn catalog_round_trip() {
    let mut db = Database::new();
    let t = Table::new("users", vec![col("id", DataType::Int, vec![])], None);
    db.create_table(t).unwrap();
    assert!(matches!(
        db.drop_table("ghost"),
        Err(DbError::TableNotFound(_))
    ));
    db.drop_table("users").unwrap();
    assert!(db.tables.is_empty());
}

#[test]
fn select_where_takes_a_predicate() {
    let mut t = people();
    t.insert(vec![Value::Int(1), Value::Varchar("Alice".to_string())]).unwrap();
    t.insert(vec![Value::Int(2), Value::Varchar("Bob".to_string())]).unwrap();
    let picked = t.select_where(|row: &Vec<Value>| row[0] == Value::Int(2));
    assert_eq!(picked.len(), 1);
    assert_eq!(picked[0][1], Value::Varchar("Bob".to_string()));
}

#[test]
fn distinct_compares_floats_by_their_rendering() {
    // two NaN payloads differ bit-for-bit yet render alike, so distinctness
    // by display text folds them together
    let bits_a = f32::NAN.to_bits();
    let bits_b = bits_a ^ 1;
    assert_ne!(bits_a, bits_b);
    assert_eq!(f32::from_bits(bits_a).to_string(), f32::from_bits(bits_b).to_string());

    let mut t = Table::new(
        "f",
        vec![col("v", DataType::Float, vec![])],
        None,
    );
    t.insert(vec![Value::Float(bits_a, f32::from_bits(bits_a).to_string())]).unwrap();
    t.insert(vec![Value::Float(bits_b, f32::from_bits(bits_b).to_string())]).unwrap();
    assert_eq!(t.rows.len(), 2);
    let distinct = t.select_distinct();
    assert_eq!(distinct.len(), 1);
}

#[test]
fn empty_tables_behave() {
    let cols = vec![col("v", DataType::Int, vec![])];
    let a = Table::new("a", cols.clone(), None);
    let b = Table::new("b", cols.clone(), None);
    assert_eq!(a.union(&b).unwrap().rows.len(), 0);
    assert_eq!(a.intersect(&b).unwrap().rows.len(), 0);
    assert_eq!(a.select_distinct().len(), 0);
    assert_eq!(a.select_order_by(&vec!["v".to_string()]).unwrap().len(), 0);
    // with no groups even an unknown function name returns an empty result
    assert!(a.aggregate("v", "v", "median").unwrap().is_empty());
    assert_eq!(a.inner_join(&b, ("v", "v")).unwrap().len(), 0);
}

#[test]
fn index_rebuild_survives_delete() {
    let mut t = Table::new(
        "nums",
        vec![col("v", DataType::Int, vec![])],
        None,
    );
    for i in [1, 2, 3, 2] {
        t.insert(vec![Value::Int(i)]).unwrap();
    }
    t.create_index("v", false).unwrap();
    t.delete_where(&FilterExpr::Eq("v".to_string(), Value::Int(2)));
    assert_eq!(t.rows.len(), 2);
    // the rebuilt index still answers equality queries correctly
    let ones = t.select_where_expr(&FilterExpr::Eq("v".to_string(), Value::Int(1)));
    assert_eq!(ones.len(), 1);
    let twos = t.select_where_expr(&FilterExpr::Eq("v".to_string(), Value::Int(2)));
    assert_eq!(twos.len(), 0);
}

#[test]
fn text_fields_round_trip_as_text() {
    assert_eq!(
        Value::from_str("a longer note", &DataType::Text).unwrap(),
        Value::Text("a longer note".to_string())
    );
    let mut t = Table::new(
        "notes",
        vec![col("body", DataType::Text, vec![])],
        None,
    );
    t.insert(vec![Value::Text("hello".to_string())]).unwrap();
    let text = t.to_csv_text();
    let records = database::table::io::parse_csv_records(&text).unwrap();
    let loaded = Table::load_from_records("notes", t.columns.clone(), None, &records).unwrap();
    assert_eq!(loaded.rows, t.rows);
}

#[test]
fn min_and_max_skip_non_numeric_values() {
    let mut t = Table::new(
        "mixed",
        vec![
            col("k", DataType::Varchar, vec![]),
            col("v", DataType::Varchar, vec![]),
        ],
        None,
    );
    t.insert(vec![Value::Varchar("g".to_string()), Value::Varchar("abc".to_string())]).unwrap();
    let mins = t.aggregate("k", "v", "min").unwrap();
    assert_eq!(mins[0].1, AggregationResult::Min(Value::Null));
    let maxs = t.aggregate("k", "v", "max").unwrap();
    assert_eq!(maxs[0].1, AggregationResult::Max(Value::Null));
}

#[test]
fn order_by_is_stable_for_equal_keys() {
    let mut t = Table::new(
        "s",
        vec![
            col("k", DataType::Int, vec![]),
            col("tag", DataType::Varchar, vec![]),
        ],
        None,
    );
    t.insert(vec![Value::Int(2), Value::Varchar("first-two".to_string())]).unwrap();
    t.insert(vec![Value::Int(1), Value::Varchar("one".to_string())]).unwrap();
    t.insert(vec![Value::Int(2), Value::Varchar("second-two".to_string())]).unwrap();
    let sorted = t.select_order_by(&vec!["k".to_string()]).unwrap();
    assert_eq!(sorted[0][1], Value::Varchar("one".to_string()));
    // the two equal keys keep their original relative order
    assert_eq!(sorted[1][1], Value::Varchar("first-two".to_string()));
    assert_eq!(sorted[2][1], Value::Varchar("second-two".to_string()));
}

#[test]
fn alias_collisions_take_the_shortest_suffix() {
    let mut t = Table::new(
        "a",
        vec![col("k", DataType::Int, vec![])],
        None,
    );
    t.insert(vec![Value::Int(1)]).unwrap();
    let pairs = t.inner_join_multi(&t, &vec![("k".to_string(), "k".to_string())]).unwrap();
    let mat = Table::join_to_table_with_aliases("self", &t, &t, "x", "x", pairs);
    assert_eq!(mat.columns[0].name, "x.k");
    assert_eq!(mat.columns[1].name, "x.k_");
}

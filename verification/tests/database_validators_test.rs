use database::database::validators::Database;
use database::table::data::{Table, Column, DataType, Options};

#[test]
fn test_validate_foreign_keys_valid() {
    let referenced_table = Table {
        name: "users".to_string(),
        columns: vec![],
        rows: vec![],
        primary_key: None,
        indexes: vec![],
        transaction_backup: None,
    };

    let referencing_table = Table {
        name: "orders".to_string(),
        columns: vec![Column {
            name: "user_id".to_string(),
            datatype: DataType::Int,
            options: vec![Options::FK("users".to_string())],
        }],
        rows: vec![],
        primary_key: None,
        indexes: vec![],
        transaction_backup: None,
    };

    let db = Database { tables: vec![referenced_table, referencing_table] };

    assert!(db.validate_foreign_keys().is_ok());
}

#[test]
fn test_validate_foreign_keys_missing_table() {
    let referencing_table = Table {
        name: "orders".to_string(),
        columns: vec![Column {
            name: "user_id".to_string(),
            datatype: DataType::Int,
            options: vec![Options::FK("users".to_string())],
        }],
        rows: vec![],
        primary_key: None,
        indexes: vec![],
        transaction_backup: None,
    };

    let db = Database { tables: vec![referencing_table] };

    let result = db.validate_foreign_keys();

    assert!(result.is_err());
    assert_eq!(
        result.unwrap_err().message(),
        "Table 'orders' has a foreign key to missing table 'users'."
    );
}

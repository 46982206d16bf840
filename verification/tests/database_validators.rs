use database::database::validators::Database;
use database::table::data::{Table, Column, DataType, Options, Value};

fn create_dummy_table(name: &str, columns: Vec<Column>, rows: Vec<Vec<Value>>) -> Table {
    Table {
        name: name.to_string(),
        columns,
        rows,
        primary_key: None,
        indexes: vec![],
        transaction_backup: None,
    }
}

fn double_val(f: f64) -> Value {
    Value::Double(f.to_bits(), f.to_string())
}

#[test]
fn test_database_new() {
    let db = Database::new();
    assert!(db.tables.is_empty(), "Database should be initialized with no tables");
}

#[test]
fn test_create_table_success() {
    let mut db = Database::new();
    let table = create_dummy_table(
        "users",
        vec![
            Column { name: "id".to_string(), datatype: DataType::Int, options: vec![Options::NotNull, Options::Unique] },
            Column { name: "name".to_string(), datatype: DataType::Varchar, options: vec![] },
        ],
        vec![],
    );
    assert!(db.create_table(table).is_ok(), "Table creation should succeed");
    assert!(db.find_table("users").is_some(), "Database should contain the created table");
}

#[test]
fn test_create_table_duplicate() {
    let mut db = Database::new();
    let table1 = create_dummy_table("users", vec![], vec![]);
    let table2 = create_dummy_table("users", vec![], vec![]);
    assert!(db.create_table(table1).is_ok(), "First table creation should succeed");
    let result = db.create_table(table2);
    assert!(result.is_err(), "Creating duplicate table should return an error");
    if let Err(e) = result {
        assert!(e.message().contains("already exists"), "Error message should mention table already exists");
    }
}

#[test]
fn test_drop_table_success() {
    let mut db = Database::new();
    let table = create_dummy_table("orders", vec![], vec![]);
    db.create_table(table).unwrap();
    assert!(db.drop_table("orders").is_ok(), "Dropping existing table should succeed");
    assert!(db.find_table("orders").is_none(), "Table should be removed from database");
}

#[test]
fn test_drop_table_nonexistent() {
    let mut db = Database::new();
    let result = db.drop_table("nonexistent");
    assert!(result.is_err(), "Dropping a non-existent table should return an error");
    if let Err(e) = result {
        assert!(e.message().contains("does not exist"), "Error message should mention table does not exist");
    }
}

#[test]
fn test_alter_add_column_success() {
    let mut db = Database::new();
    let table = create_dummy_table(
        "products",
        vec![
            Column { name: "id".to_string(), datatype: DataType::Int, options: vec![Options::NotNull] },
            Column { name: "price".to_string(), datatype: DataType::Double, options: vec![] },
        ],
        vec![vec![Value::Int(1), double_val(10.0)]],
    );
    db.create_table(table).unwrap();

    let new_column = Column { name: "stock".to_string(), datatype: DataType::Int, options: vec![] };
    let result = db.alter_add_column("products", new_column.clone());
    assert!(result.is_ok(), "Altering table to add new column should succeed");

    let pos = db.find_table("products").unwrap();
    let updated_table = &db.tables[pos];
    assert_eq!(updated_table.columns.len(), 3, "There should be three columns after addition");
    assert_eq!(updated_table.columns.last().unwrap().name, "stock", "New column name should be 'stock'");
    for row in &updated_table.rows {
        assert_eq!(row.len(), 3, "Each row should have a new value (Null) for the added column");
        assert_eq!(row.last().unwrap(), &Value::Null, "New column value should be Null for existing rows");
    }
}

#[test]
fn test_alter_add_column_table_nonexistent() {
    let mut db = Database::new();
    let new_column = Column { name: "stock".to_string(), datatype: DataType::Int, options: vec![] };
    let result = db.alter_add_column("nonexistent", new_column);
    assert!(result.is_err(), "Adding column to non-existent table should return an error");
    if let Err(e) = result {
        assert!(e.message().contains("does not exist"), "Error message should mention table does not exist");
    }
}

#[test]
fn test_alter_add_column_duplicate() {
    let mut db = Database::new();
    let table = create_dummy_table(
        "inventory",
        vec![
            Column { name: "item_id".to_string(), datatype: DataType::Int, options: vec![] },
        ],
        vec![],
    );
    db.create_table(table).unwrap();
    let new_column = Column { name: "item_id".to_string(), datatype: DataType::Int, options: vec![] };
    let result = db.alter_add_column("inventory", new_column);
    assert!(result.is_err(), "Adding a duplicate column should return an error");
    if let Err(e) = result {
        assert!(e.message().contains("already exists"), "Error message should mention column already exists");
    }
}

#[test]
fn test_rename_column_success() {
    let mut db = Database::new();
    let table = create_dummy_table(
        "employees",
        vec![
            Column { name: "fname".to_string(), datatype: DataType::Varchar, options: vec![] },
            Column { name: "lname".to_string(), datatype: DataType::Varchar, options: vec![] },
        ],
        vec![],
    );
    db.create_table(table).unwrap();
    let result = db.rename_column("employees", "fname", "first_name");
    assert!(result.is_ok(), "Renaming an existing column should succeed");
    let pos = db.find_table("employees").unwrap();
    let updated_table = &db.tables[pos];
    let col_names: Vec<_> = updated_table.columns.iter().map(|c| c.name.clone()).collect();
    assert!(col_names.contains(&"first_name".to_string()), "New column name should be present");
    assert!(!col_names.contains(&"fname".to_string()), "Old column name should be absent");
}

#[test]
fn test_rename_column_nonexistent_table() {
    let mut db = Database::new();
    let result = db.rename_column("nonexistent", "old", "new");
    assert!(result.is_err(), "Renaming column in non-existent table should return an error");
    if let Err(e) = result {
        assert!(e.message().contains("does not exist"), "Error message should mention table does not exist");
    }
}

#[test]
fn test_rename_column_nonexistent_column() {
    let mut db = Database::new();
    let table = create_dummy_table(
        "departments",
        vec![Column { name: "dept_name".to_string(), datatype: DataType::Varchar, options: vec![] }],
        vec![],
    );
    db.create_table(table).unwrap();
    let result = db.rename_column("departments", "nonexistent", "new_name");
    assert!(result.is_err(), "Renaming non-existent column should return an error");
    if let Err(e) = result {
        assert!(e.message().contains("does not exist"), "Error message should mention column does not exist");
    }
}

#[test]
fn test_rename_column_duplicate_name() {
    let mut db = Database::new();
    let table = create_dummy_table(
        "projects",
        vec![
            Column { name: "project_id".to_string(), datatype: DataType::Int, options: vec![] },
            Column { name: "name".to_string(), datatype: DataType::Varchar, options: vec![] },
        ],
        vec![],
    );
    db.create_table(table).unwrap();
    let result = db.rename_column("projects", "project_id", "name");
    assert!(result.is_err(), "Renaming to an existing column name should return an error");
    if let Err(e) = result {
        assert!(e.message().contains("already exists"), "Error message should mention duplicate column name");
    }
}

#[test]
fn test_drop_column_success() {
    let mut db = Database::new();
    let table = create_dummy_table(
        "sales",
        vec![
            Column { name: "sale_id".to_string(), datatype: DataType::Int, options: vec![] },
            Column { name: "amount".to_string(), datatype: DataType::Double, options: vec![] },
        ],
        vec![
            vec![Value::Int(1), double_val(100.0)],
            vec![Value::Int(2), double_val(200.0)],
        ],
    );
    db.create_table(table).unwrap();
    let result = db.drop_column("sales", "amount");
    assert!(result.is_ok(), "Dropping an existing column should succeed");
    let pos = db.find_table("sales").unwrap();
    let updated_table = &db.tables[pos];
    assert_eq!(updated_table.columns.len(), 1, "Table should have one column after dropping one");
    for row in &updated_table.rows {
        assert_eq!(row.len(), 1, "Each row should have one less value after dropping a column");
    }
}

#[test]
fn test_drop_column_nonexistent_table() {
    let mut db = Database::new();
    let result = db.drop_column("nonexistent", "any");
    assert!(result.is_err(), "Dropping column from non-existent table should return an error");
    if let Err(e) = result {
        assert!(e.message().contains("does not exist"), "Error message should mention table does not exist");
    }
}

#[test]
fn test_drop_column_nonexistent_column() {
    let mut db = Database::new();
    let table = create_dummy_table(
        "inventory",
        vec![Column { name: "item".to_string(), datatype: DataType::Varchar, options: vec![] }],
        vec![],
    );
    db.create_table(table).unwrap();
    let result = db.drop_column("inventory", "price");
    assert!(result.is_err(), "Dropping a non-existent column should return an error");
    if let Err(e) = result {
        assert!(e.message().contains("does not exist"), "Error message should mention column does not exist");
    }
}

#[test]
fn test_validate_foreign_keys_success() {
    let mut db = Database::new();
    let parent_table = create_dummy_table(
        "parents",
        vec![Column { name: "id".to_string(), datatype: DataType::Int, options: vec![Options::NotNull] }],
        vec![],
    );
    let child_table = create_dummy_table(
        "children",
        vec![Column {
            name: "parent_id".to_string(),
            datatype: DataType::Int,
            options: vec![Options::FK("parents".to_string())],
        }],
        vec![],
    );
    db.create_table(parent_table).unwrap();
    db.create_table(child_table).unwrap();

    assert!(db.validate_foreign_keys().is_ok(), "Foreign keys should be valid when referenced table exists");
}

#[test]
fn test_validate_foreign_keys_failure() {
    let mut db = Database::new();
    let child_table = create_dummy_table(
        "children",
        vec![Column {
            name: "parent_id".to_string(),
            datatype: DataType::Int,
            options: vec![Options::FK("nonexistent".to_string())],
        }],
        vec![],
    );
    db.create_table(child_table).unwrap();

    let result = db.validate_foreign_keys();
    assert!(result.is_err(), "Foreign key validation should fail when referenced table does not exist");
    if let Err(e) = result {
        assert!(e.message().contains("foreign key to missing table"), "Error message should mention missing foreign table");
    }
}

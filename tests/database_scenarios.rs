use tabledb::column::{Column, ColumnDataType, Decimal, ForeignKeyInfo, Value};
use tabledb::condition::{evaluate_nested_conditions, NestedCondition, Operator};
use tabledb::database::Database;
use tabledb::db_errors::Error as DbError;
use tabledb::literal::{parse_decimal, parse_integer};
use tabledb::table::Table;
use tabledb::table_errors::Error;
use tabledb::text_format::{cell_text, export_lines, parse_table};

fn row(values: &[&str]) -> Vec<String> {
    values.iter().map(|v| v.to_string()).collect()
}

fn cond(column: &str, op: &str, value: &str) -> NestedCondition {
    NestedCondition::Condition(column.to_string(), op.to_string(), value.to_string())
}

fn users_db() -> Database {
    let mut db = Database::new("db".to_string());
    db.create_table(
        "users",
        vec![
            Column::new("id", ColumnDataType::Integer, None, true, None),
            Column::new("name", ColumnDataType::Text, None, false, None),
            Column::new("age", ColumnDataType::Integer, None, false, None),
        ],
    )
    .unwrap();
    db.insert_into_table("users", row(&["1", "Alice", "30"])).unwrap();
    db.insert_into_table("users", row(&["2", "Bob", "25"])).unwrap();
    db
}

/// A(id PK) <- B(id PK, a_id FK -> A.id) <- C(id PK, b_id FK -> B.id)
fn chain_db() -> Database {
    let mut db = Database::new("chain".to_string());
    db.create_table(
        "a",
        vec![
            Column::new("id", ColumnDataType::Integer, None, true, None),
            Column::new("label", ColumnDataType::Text, None, false, None),
        ],
    )
    .unwrap();
    db.create_table(
        "b",
        vec![
            Column::new("id", ColumnDataType::Integer, None, true, None),
            Column::new("a_id", ColumnDataType::Integer, None, false, Some(ForeignKeyInfo::new("a", "id"))),
        ],
    )
    .unwrap();
    db.create_table(
        "c",
        vec![
            Column::new("id", ColumnDataType::Integer, None, true, None),
            Column::new("b_id", ColumnDataType::Integer, None, false, Some(ForeignKeyInfo::new("b", "id"))),
        ],
    )
    .unwrap();
    for r in [["3", "three"], ["4", "four"]] {
        db.insert_into_table("a", row(&r)).unwrap();
    }
    for r in [["10", "3"], ["11", "3"], ["12", "4"]] {
        db.insert_into_table("b", row(&r)).unwrap();
    }
    for r in [["100", "10"], ["101", "11"], ["102", "12"]] {
        db.insert_into_table("c", row(&r)).unwrap();
    }
    db
}

fn ints(t: &Table, column: usize) -> Vec<i64> {
    t.columns()[column]
        .data
        .iter()
        .map(|v| match v {
            Value::Integer(i) => *i,
            _ => panic!("not an integer"),
        })
        .collect()
}

#[test]
fn duplicate_and_null_primary_keys_are_refused() {
    let mut db = users_db();
    let r = db.insert_into_table("users", row(&["1", "Carl", "40"]));
    assert!(matches!(r, Err(DbError::TableError(Error::DuplicatePrimaryKey))));
    let r = db.insert_into_table("users", row(&["null", "Dan", "22"]));
    assert!(matches!(r, Err(DbError::TableError(Error::NullPrimaryKey))));
    assert_eq!(ints(db.get_table("users").unwrap(), 0), vec![1, 2]);
}

#[test]
fn unparsable_update_leaves_table_unchanged() {
    let mut db = users_db();
    let t = db.get_table_mut("users").unwrap();
    let r = t.update_column("age", "notanumber");
    assert!(matches!(r, Err(Error::ParseError(0, ref s)) if s == "notanumber"));
    assert_eq!(ints(t, 2), vec![30, 25]);
}

#[test]
fn condition_matching_no_rows_changes_nothing() {
    let mut db = users_db();
    let t = db.get_table_mut("users").unwrap();
    assert!(t.delete_with_nested_conditions(&cond("age", ">", "200")).is_ok());
    assert_eq!(t.column_count(None).unwrap(), 2);
    assert!(t
        .update_with_nested_conditions(("name".to_string(), "Zed".to_string()), cond("age", ">", "200"))
        .is_ok());
    assert_eq!(t.columns()[1].data, vec![Value::Text("Alice".to_string()), Value::Text("Bob".to_string())]);
}

#[test]
fn unknown_operator_symbol_is_refused() {
    assert!(matches!(Operator::from_str("<>"), Err(ref s) if s == "<>"));
    assert_eq!(Operator::from_str("<="), Ok(Operator::LessThanOrEqual));
    let db = users_db();
    let t = db.get_table("users").unwrap();
    let r = evaluate_nested_conditions(&cond("age", "<>", "30"), t.columns(), 0);
    assert!(matches!(r, Err(Error::InvalidOperator(ref s)) if s == "<>"));
}

#[test]
fn and_or_combine_leaf_results() {
    let db = users_db();
    let t = db.get_table("users").unwrap();
    let a = || cond("age", ">=", "30");
    let b = || cond("name", "=", "Bob");
    for r in 0..2usize {
        let x = evaluate_nested_conditions(&a(), t.columns(), r).unwrap();
        let y = evaluate_nested_conditions(&b(), t.columns(), r).unwrap();
        let and = NestedCondition::And(Box::new(a()), Box::new(b()));
        let or = NestedCondition::Or(Box::new(a()), Box::new(b()));
        assert_eq!(evaluate_nested_conditions(&and, t.columns(), r).unwrap(), x && y);
        assert_eq!(evaluate_nested_conditions(&or, t.columns(), r).unwrap(), x || y);
    }
    assert_eq!(evaluate_nested_conditions(&a(), t.columns(), 5).unwrap(), false);
}

#[test]
fn delete_removes_exactly_matching_rows() {
    let mut t = Table::new(
        "t",
        vec![
            Column::new("id", ColumnDataType::Integer, None, true, None),
            Column::new("score", ColumnDataType::Float, None, false, None),
        ],
    )
    .unwrap();
    for r in [["1", "1.5"], ["2", "9.25"], ["3", "null"], ["4", "10"], ["5", "2"]] {
        t.insert(row(&r)).unwrap();
    }
    t.delete_with_nested_conditions(&NestedCondition::Or(
        Box::new(cond("score", ">", "9.2")),
        Box::new(cond("id", "=", "1")),
    ))
    .unwrap();
    assert_eq!(ints(&t, 0), vec![3, 5]);
    assert_eq!(t.columns()[1].data, vec![Value::Null, Value::Float(Decimal { nanos: 2_000_000_000 })]);
    assert_eq!(t.column_count(None).unwrap(), 2);
    assert_eq!(t.column_count(Some("score".to_string())).unwrap(), 1);
}

#[test]
fn failed_insert_keeps_every_column_length() {
    let mut t = Table::new(
        "t",
        vec![
            Column::new("id", ColumnDataType::Integer, None, true, None),
            Column::new("name", ColumnDataType::Text, None, false, None),
        ],
    )
    .unwrap();
    t.insert(row(&["1", "x"])).unwrap();
    assert!(t.insert(row(&["1", "y"])).is_err());
    assert!(t.insert(row(&["z", "y"])).is_err());
    assert!(t.insert(row(&["2"])).is_err());
    assert!(t.columns().iter().all(|c| c.data.len() == 1));
    let keys = &t.primary_key_column().unwrap().data;
    assert_eq!(keys, &vec![Value::Integer(1)]);
}

#[test]
fn foreign_key_violation_leaves_both_tables() {
    let mut db = chain_db();
    let r = db.insert_into_table("b", row(&["13", "9"]));
    assert!(matches!(r, Err(DbError::ForeignKeyViolation(ref v, ref c, ref t)) if v == "9" && c == "a_id" && t == "a"));
    assert_eq!(ints(db.get_table("a").unwrap(), 0), vec![3, 4]);
    assert_eq!(ints(db.get_table("b").unwrap(), 0), vec![10, 11, 12]);
    let r = db.insert_into_table("b", row(&["13", "NULL"]));
    assert!(matches!(r, Err(DbError::NullForeignKey(ref c)) if c == "a_id"));
    let r = db.insert_into_table("b", row(&["13", "x"]));
    assert!(matches!(r, Err(DbError::ParseError(1, ref s)) if s == "x"));
}

#[test]
fn delete_cascades_down_the_chain() {
    let mut db = chain_db();
    db.delete_with_nested_conditions_in_table("a", cond("id", "=", "3")).unwrap();
    assert_eq!(ints(db.get_table("a").unwrap(), 0), vec![4]);
    assert_eq!(ints(db.get_table("b").unwrap(), 0), vec![12]);
    assert_eq!(ints(db.get_table("c").unwrap(), 0), vec![102]);
}

#[test]
fn key_update_cascades_to_references() {
    let mut db = chain_db();
    db.update_with_nested_conditions_in_table(
        "a",
        ("id".to_string(), "7".to_string()),
        cond("id", "=", "3"),
    )
    .unwrap();
    assert_eq!(ints(db.get_table("a").unwrap(), 0), vec![7, 4]);
    assert_eq!(ints(db.get_table("b").unwrap(), 1), vec![7, 7, 4]);
    db.update_with_nested_conditions_in_table(
        "b",
        ("id".to_string(), "20".to_string()),
        cond("id", "=", "12"),
    )
    .unwrap();
    assert_eq!(ints(db.get_table("c").unwrap(), 1), vec![10, 11, 20]);
}

#[test]
fn key_update_of_several_rows_is_refused() {
    let mut db = chain_db();
    let r = db.update_with_nested_conditions_in_table(
        "a",
        ("id".to_string(), "9".to_string()),
        cond("id", ">", "0"),
    );
    assert!(matches!(r, Err(DbError::TableError(Error::DuplicatePrimaryKey))));
    assert_eq!(ints(db.get_table("a").unwrap(), 0), vec![3, 4]);
    let t = db.get_table_mut("a").unwrap();
    let r = t.update_with_nested_conditions(("id".to_string(), "4".to_string()), cond("id", "=", "3"));
    assert!(matches!(r, Err(Error::DuplicatePrimaryKey)));
    assert!(matches!(t.update_column("id", "5"), Err(Error::CannotBatchUpdatePrimaryKey)));
}

#[test]
fn schema_errors_of_create_table() {
    let mut db = chain_db();
    let col = |n: &str, pk: bool, fk: Option<ForeignKeyInfo>| Column::new(n, ColumnDataType::Integer, None, pk, fk);
    assert!(matches!(db.create_table("a", vec![col("x", false, None)]), Err(DbError::TableAlreadyExists(ref n)) if n == "a"));
    assert!(matches!(
        db.create_table("d", vec![col("x", false, Some(ForeignKeyInfo::new("zz", "id")))]),
        Err(DbError::ReferencedTableNotFound(ref n)) if n == "zz"
    ));
    assert!(matches!(
        db.create_table("d", vec![col("x", false, Some(ForeignKeyInfo::new("a", "nope")))]),
        Err(DbError::ReferencedColumnNotFound(_, ref c)) if c == "nope"
    ));
    assert!(matches!(
        db.create_table("d", vec![col("x", false, Some(ForeignKeyInfo::new("a", "label")))]),
        Err(DbError::ReferencedColumnNotPrimaryKey(_, ref c)) if c == "label"
    ));
    assert!(matches!(db.create_table("d", vec![col("x", true, None), col("y", true, None)]), Err(DbError::MultiplePrimaryKeys)));
    assert!(db.get_table("d").is_none());
    assert!(matches!(Table::new("d", vec![col("x", true, None), col("y", true, None)]), Err(Error::MultiplePrimaryKeys)));
    let refs = db.get_table("a").unwrap().referenced_as_foreign_key();
    assert_eq!(refs, &vec![("b".to_string(), "a_id".to_string())]);
}

#[test]
fn sparse_insert_needs_foreign_key_columns() {
    let mut db = chain_db();
    let r = db.insert_with_columns_into_table("b", row(&["id"]), row(&["30"]));
    assert!(matches!(r, Err(DbError::MissingForeignKeyColumns(ref v)) if v == &vec!["a_id".to_string()]));
    let r = db.insert_with_columns_into_table("b", row(&["a_id", "id"]), row(&["8", "30"]));
    assert!(matches!(r, Err(DbError::ForeignKeyViolation(..))));
    db.insert_with_columns_into_table("b", row(&["a_id", "id"]), row(&["4", "30"])).unwrap();
    assert_eq!(ints(db.get_table("b").unwrap(), 0), vec![10, 11, 12, 30]);
    assert!(matches!(db.insert_into_table("nope", row(&["1"])), Err(DbError::TableNotFound(_))));
    let r = db.update_column_in_table("b", "a_id", "5");
    assert!(matches!(r, Err(DbError::ForeignKeyViolation(..))));
    db.update_column_in_table("b", "a_id", "4").unwrap();
    assert_eq!(ints(db.get_table("b").unwrap(), 1), vec![4, 4, 4, 4]);
}

#[test]
fn literals_read_exactly() {
    assert_eq!(parse_integer("+42"), Some(42));
    assert_eq!(parse_integer("-9223372036854775808"), Some(i64::MIN));
    assert_eq!(parse_integer("9223372036854775808"), None);
    assert_eq!(parse_integer("-"), None);
    assert_eq!(parse_integer("1 "), None);
    assert_eq!(parse_decimal("85.5"), Some(85_500_000_000));
    assert_eq!(parse_decimal("-.25"), Some(-250_000_000));
    assert_eq!(parse_decimal("3."), Some(3_000_000_000));
    assert_eq!(parse_decimal("0.000000001"), Some(1));
    assert_eq!(parse_decimal("0.0000000001"), None);
    assert_eq!(parse_decimal("."), None);
    assert_eq!(parse_decimal("1.2.3"), None);
    assert_eq!(parse_decimal("abc"), None);
}

#[test]
fn null_word_in_any_case_gives_null() {
    let mut t = Table::new(
        "t",
        vec![
            Column::new("n", ColumnDataType::Integer, None, false, None),
            Column::new("s", ColumnDataType::Text, None, false, None),
        ],
    )
    .unwrap();
    t.insert(row(&["NuLl", "nULL"])).unwrap();
    t.insert_with_columns(row(&["s"]), row(&["x"])).unwrap();
    assert_eq!(t.columns()[0].data, vec![Value::Null, Value::Null]);
    assert_eq!(t.columns()[1].data, vec![Value::Null, Value::Text("x".to_string())]);
    let r = t.insert_with_columns(row(&["q", "n", "q"]), row(&["1", "2", "3"]));
    assert!(matches!(r, Err(Error::NonExistingColumns(ref v)) if v == &vec!["q".to_string()]));
}

#[test]
fn projection_and_filter_return_columns() {
    let db = users_db();
    let t = db.get_table("users").unwrap();
    let p = t.project(row(&["age", "id"])).unwrap();
    assert_eq!(p.len(), 2);
    assert_eq!(p[0].name, "age");
    assert_eq!(p[0].data, vec![Value::Integer(30), Value::Integer(25)]);
    let f = t.filter_and_project(row(&["name"]), cond("age", "<", "30")).unwrap();
    assert_eq!(f[0].data, vec![Value::Text("Bob".to_string())]);
    let all = t.filter_with_nested_conditions(cond("name", "!=", "Bob")).unwrap();
    assert_eq!(all.len(), 3);
    assert_eq!(all[2].data, vec![Value::Integer(30)]);
    let copy = t.copy();
    assert_eq!(copy.columns()[1].data, t.columns()[1].data);
    assert_eq!(copy.name(), t.name());
}

#[test]
fn key_update_follows_a_chain_of_keys() {
    let mut db = Database::new("keys".to_string());
    db.create_table("a", vec![Column::new("id", ColumnDataType::Integer, None, true, None)]).unwrap();
    db.create_table(
        "b",
        vec![Column::new("a_id", ColumnDataType::Integer, None, true, Some(ForeignKeyInfo::new("a", "id")))],
    )
    .unwrap();
    db.create_table(
        "c",
        vec![
            Column::new("id", ColumnDataType::Integer, None, true, None),
            Column::new("b_id", ColumnDataType::Integer, None, false, Some(ForeignKeyInfo::new("b", "a_id"))),
        ],
    )
    .unwrap();
    db.insert_into_table("a", row(&["3"])).unwrap();
    db.insert_into_table("a", row(&["5"])).unwrap();
    db.insert_into_table("b", row(&["3"])).unwrap();
    db.insert_into_table("b", row(&["5"])).unwrap();
    db.insert_into_table("c", row(&["1", "3"])).unwrap();
    db.insert_into_table("c", row(&["2", "5"])).unwrap();
    db.insert_into_table("c", row(&["4", "3"])).unwrap();
    db.update_with_nested_conditions_in_table("a", ("id".to_string(), "7".to_string()), cond("id", "=", "3"))
        .unwrap();
    assert_eq!(ints(db.get_table("a").unwrap(), 0), vec![7, 5]);
    assert_eq!(ints(db.get_table("b").unwrap(), 0), vec![7, 5]);
    assert_eq!(ints(db.get_table("c").unwrap(), 1), vec![7, 5, 7]);
    db.delete_with_nested_conditions_in_table("a", cond("id", "=", "5")).unwrap();
    assert_eq!(ints(db.get_table("b").unwrap(), 0), vec![7]);
    assert_eq!(ints(db.get_table("c").unwrap(), 0), vec![1, 4]);
}

#[test]
fn cells_are_written_as_text() {
    assert_eq!(cell_text(&Value::Integer(-120)), "-120");
    assert_eq!(cell_text(&Value::Integer(0)), "0");
    assert_eq!(cell_text(&Value::Float(Decimal { nanos: 85_500_000_000 })), "85.50");
    assert_eq!(cell_text(&Value::Float(Decimal { nanos: -1_005_000_000 })), "-1.01");
    assert_eq!(cell_text(&Value::Float(Decimal { nanos: -1_000_000 })), "0.00");
    assert_eq!(cell_text(&Value::Text("a b".to_string())), "a b");
    assert_eq!(cell_text(&Value::Null), "NULL");
}

#[test]
fn tables_round_trip_through_text() {
    let db = users_db();
    let t = db.get_table("users").unwrap();
    let csv = export_lines(t, true);
    assert_eq!(csv, row(&["id,name,age", "Integer,Text,Integer", "prim_key,nt_prim_key,nt_prim_key", "1,Alice,30", "2,Bob,25"]));
    let back = parse_table("users", &csv, true).unwrap();
    assert_eq!(back.columns()[1].data, t.columns()[1].data);
    assert!(back.columns()[0].is_primary_key);
    let txt = export_lines(t, false);
    assert_eq!(txt[3], "-".repeat("id name age".len()));
    assert_eq!(txt[4], "1 Alice 30");
    let back = parse_table("users", &txt, false).unwrap();
    assert_eq!(back.columns()[2].data, vec![Value::Integer(30), Value::Integer(25)]);
}

#[test]
fn malformed_files_are_refused() {
    assert!(matches!(parse_table("t", &vec![], true), Err(Error::InvalidFormat(_))));
    assert!(matches!(parse_table("t", &row(&["a,b"]), true), Err(Error::InvalidFormat(_))));
    assert!(matches!(parse_table("t", &row(&["a,b", "Integer,Real"]), true), Err(Error::InvalidFormat(_))));
    assert!(matches!(parse_table("t", &row(&["a,b", "Integer,Text"]), true), Err(Error::InvalidFormat(_))));
    assert!(matches!(
        parse_table("t", &row(&["a,b", "Integer,Text", "prim_key,key"]), true),
        Err(Error::InvalidFormat(_))
    ));
    let header = ["a,b", "Integer,Text", "prim_key,nt_prim_key"];
    assert!(matches!(parse_table("t", &row(&[header[0], header[1], header[2], "1"]), true), Err(Error::MismatchedColumnCount)));
    assert!(matches!(parse_table("t", &row(&[header[0], header[1], header[2], "x,y"]), true), Err(Error::ParseError(0, _))));
    assert!(matches!(
        parse_table("t", &row(&[header[0], header[1], header[2], "1,y", "1,z"]), true),
        Err(Error::DuplicatePrimaryKey)
    ));
}

#[test]
fn delete_matching_nothing_changes_no_table() {
    let mut db = chain_db();
    db.delete_with_nested_conditions_in_table("a", cond("id", ">", "200")).unwrap();
    assert_eq!(ints(db.get_table("a").unwrap(), 0), vec![3, 4]);
    assert_eq!(ints(db.get_table("b").unwrap(), 0), vec![10, 11, 12]);
    assert_eq!(ints(db.get_table("c").unwrap(), 0), vec![100, 101, 102]);
}

#[test]
fn key_update_stops_at_a_clashing_key() {
    let mut db = Database::new("keys".to_string());
    db.create_table("a", vec![Column::new("id", ColumnDataType::Integer, None, true, None)]).unwrap();
    db.create_table(
        "b",
        vec![Column::new("a_id", ColumnDataType::Integer, None, true, Some(ForeignKeyInfo::new("a", "id")))],
    )
    .unwrap();
    db.insert_into_table("a", row(&["3"])).unwrap();
    db.insert_into_table("b", row(&["3"])).unwrap();
    // a row written through the table alone, bypassing the foreign-key check
    db.get_table_mut("b").unwrap().insert(row(&["7"])).unwrap();
    let r = db.update_with_nested_conditions_in_table("a", ("id".to_string(), "7".to_string()), cond("id", "=", "3"));
    assert!(matches!(r, Err(DbError::TableError(Error::DuplicatePrimaryKey))));
    assert_eq!(ints(db.get_table("a").unwrap(), 0), vec![7]);
    assert_eq!(ints(db.get_table("b").unwrap(), 0), vec![3, 7]);
}

#[test]
fn null_word_may_carry_white_space() {
    let mut t = Table::new(
        "t",
        vec![
            Column::new("id", ColumnDataType::Integer, None, true, None),
            Column::new("n", ColumnDataType::Integer, None, false, None),
        ],
    )
    .unwrap();
    t.insert(row(&["1", " null "])).unwrap();
    assert_eq!(t.columns()[1].data, vec![Value::Null]);
    assert!(matches!(t.insert(row(&["\tNULL", "2"])), Err(Error::NullPrimaryKey)));
    assert!(matches!(t.insert(row(&["2", "nu ll"])), Err(Error::ParseError(1, _))));
    let mut db = chain_db();
    let r = db.insert_into_table("b", row(&["13", " null"]));
    assert!(matches!(r, Err(DbError::NullForeignKey(ref c)) if c == "a_id"));
}

#[test]
fn import_refuses_repeated_column_names() {
    let r = parse_table("t", &row(&["a,a", "Integer,Text", "prim_key,nt_prim_key"]), true);
    assert!(matches!(r, Err(Error::InvalidFormat(_))));
    let r = parse_table("t", &row(&["a,b", "Integer,Text", "prim_key,prim_key"]), true);
    assert!(matches!(r, Err(Error::MultiplePrimaryKeys)));
    let t = parse_table("t", &row(&["a b", "Integer Text", "prim_key nt_prim_key", "---", "1 x", "2 null"]), false).unwrap();
    assert_eq!(t.columns()[1].data, vec![Value::Text("x".to_string()), Value::Null]);
}

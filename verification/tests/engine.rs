use constelladb::engine::Engine;
use constelladb::model::{Attr, Condition, Data, Entity, Operator, Table, Type, Value};

fn users_table(name: &str) -> Table {
    Table {
        name: name.to_string(),
        attrs: vec![
            Attr { name: "id".to_string(), data_type: Type::Int },
            Attr { name: "name".to_string(), data_type: Type::VarChar(100) },
            Attr { name: "password".to_string(), data_type: Type::VarChar(8) },
        ],
    }
}

fn user(table: &str, id: i32, name: &str, password: &str) -> Entity {
    Entity {
        of: table.to_string(),
        data: vec![
            Data { name: "id".to_string(), value: Value::Int(id) },
            Data { name: "name".to_string(), value: Value::VarChar(name.to_string()) },
            Data { name: "password".to_string(), value: Value::VarChar(password.to_string()) },
        ],
    }
}

fn cmp(attr: &str, v: i32, op: Operator) -> Condition {
    Condition::Compare { attr: attr.to_string(), value: Value::Int(v), op }
}

/// (id, name) of each row, in order.
fn ids_names(rows: &[Entity]) -> Vec<(i32, String)> {
    rows.iter()
        .map(|e| {
            let id = match &e.data[0].value {
                Value::Int(v) => *v,
                _ => panic!("id is not an int"),
            };
            let name = match &e.data[1].value {
                Value::VarChar(s) => s.clone(),
                _ => panic!("name is not text"),
            };
            (id, name)
        })
        .collect()
}

fn filled_engine() -> Engine {
    let mut engine = Engine::new();
    engine.create_table(&users_table("user_table")).unwrap();
    for i in 0..10 {
        engine.insert(&user("user_table", i, &format!("user{}", i), "12345678")).unwrap();
    }
    engine
}

#[test]
fn demo_select_all_returns_every_inserted_row() {
    let mut engine = filled_engine();
    let rows = engine.select("user_table", vec!["id", "name", "password"], vec![]).unwrap();
    assert_eq!(rows.len(), 10);
    for (i, row) in rows.iter().enumerate() {
        assert_eq!(row.of, "user_table");
        assert_eq!(row.data.len(), 3);
        assert_eq!(row.data[0].name, "id");
        assert!(matches!(row.data[0].value, Value::Int(v) if v == i as i32));
        assert!(matches!(&row.data[1].value, Value::VarChar(s) if *s == format!("user{}", i)));
        assert!(matches!(&row.data[2].value, Value::VarChar(s) if s == "12345678"));
    }
}

#[test]
fn demo_select_where_id_equals() {
    let mut engine = filled_engine();
    let rows = engine.select("user_table", vec!["id", "name"], vec![cmp("id", 5, Operator::Eq)]).unwrap();
    assert_eq!(ids_names(&rows), vec![(5, "user5".to_string())]);
    assert_eq!(rows[0].data.len(), 2);
}

#[test]
fn demo_select_where_and() {
    let mut engine = filled_engine();
    let cond = Condition::And(Box::new(cmp("id", 3, Operator::Gt)), Box::new(cmp("id", 7, Operator::Lt)));
    let rows = engine.select("user_table", vec!["id", "name"], vec![cond]).unwrap();
    let ids: Vec<i32> = ids_names(&rows).into_iter().map(|r| r.0).collect();
    assert_eq!(ids, vec![4, 5, 6]);
}

#[test]
fn demo_select_where_or() {
    let mut engine = filled_engine();
    let cond = Condition::Or(Box::new(cmp("id", 4, Operator::Eq)), Box::new(cmp("id", 8, Operator::Eq)));
    let rows = engine.select("user_table", vec!["id", "name"], vec![cond]).unwrap();
    let ids: Vec<i32> = ids_names(&rows).into_iter().map(|r| r.0).collect();
    assert_eq!(ids, vec![4, 8]);
}

#[test]
fn demo_update_then_select() {
    let mut engine = filled_engine();
    let n = engine
        .update(
            "user_table",
            vec![Data { name: "name".to_string(), value: Value::VarChar("UPDATED".to_string()) }],
            vec![cmp("id", 5, Operator::Eq)],
        )
        .unwrap();
    assert_eq!(n, 1);
    let rows = engine.select("user_table", vec!["id", "name"], vec![cmp("id", 5, Operator::Eq)]).unwrap();
    assert_eq!(ids_names(&rows), vec![(5, "UPDATED".to_string())]);
    let others = engine.select("user_table", vec!["id", "name"], vec![cmp("id", 6, Operator::Eq)]).unwrap();
    assert_eq!(ids_names(&others), vec![(6, "user6".to_string())]);
}

#[test]
fn demo_delete_then_select() {
    let mut engine = filled_engine();
    let n = engine.delete("user_table", vec![cmp("id", 3, Operator::Lt)]).unwrap();
    assert_eq!(n, 3);
    let rows = engine.select("user_table", vec!["id", "name"], vec![]).unwrap();
    let ids: Vec<i32> = ids_names(&rows).into_iter().map(|r| r.0).collect();
    assert_eq!(ids, vec![3, 4, 5, 6, 7, 8, 9]);
}

#[test]
fn demo_drop_table() {
    let mut engine = filled_engine();
    engine.drop_table("user_table").unwrap();
    assert!(engine.tables().is_empty());
    assert!(engine.column_file("user_table", "id").is_none());
    let err = engine.select("user_table", vec!["id"], vec![]).unwrap_err();
    assert_eq!(err, "Table with name 'user_table' doesn't exists");
}

#[test]
fn create_twice_is_refused() {
    let mut engine = Engine::new();
    engine.create_table(&users_table("t")).unwrap();
    let err = engine.create_table(&users_table("t")).unwrap_err();
    assert_eq!(err, "Table with name 't' already exists");
    assert_eq!(engine.tables().len(), 1);
}

#[test]
fn new_table_is_empty_and_has_empty_files() {
    let mut engine = Engine::new();
    engine.create_table(&users_table("t")).unwrap();
    assert_eq!(engine.column_file("t", "id").unwrap().len(), 0);
    assert_eq!(engine.column_file("t", "password").unwrap().len(), 0);
    let rows = engine.select("t", vec!["id"], vec![]).unwrap();
    assert!(rows.is_empty());
}

#[test]
fn drop_missing_table_is_refused() {
    let mut engine = Engine::new();
    assert_eq!(engine.drop_table("nope").unwrap_err(), "Table with name 'nope' doesnt exists");
}

#[test]
fn insert_into_missing_table_is_refused() {
    let mut engine = Engine::new();
    let err = engine.insert(&user("nope", 1, "a", "b")).unwrap_err();
    assert_eq!(err, "Table with name 'nope' doesn't exists");
}

#[test]
fn insert_missing_attribute_is_refused() {
    let mut engine = Engine::new();
    engine.create_table(&users_table("t")).unwrap();
    let mut e = user("t", 1, "a", "b");
    e.data.remove(2);
    assert_eq!(engine.insert(&e).unwrap_err(), "Missing attribute 'password'");
    assert_eq!(engine.column_file("t", "id").unwrap().len(), 0);
}

#[test]
fn insert_type_mismatch_is_refused() {
    let mut engine = Engine::new();
    engine.create_table(&users_table("t")).unwrap();
    let mut e = user("t", 1, "a", "b");
    e.data[1].value = Value::Int(3);
    assert_eq!(
        engine.insert(&e).unwrap_err(),
        "Type mismatch for 'name', required 'VARCHAR(100)' got 'INT'"
    );
    let mut e = user("t", 1, "a", "b");
    e.data[0].value = Value::VarChar("x".to_string());
    assert_eq!(engine.insert(&e).unwrap_err(), "Type mismatch for 'id', required 'INT' got 'VARCHAR'");
}

#[test]
fn insert_unknown_attribute_is_refused() {
    let mut engine = Engine::new();
    engine.create_table(&users_table("t")).unwrap();
    let mut e = user("t", 1, "a", "b");
    e.data.push(Data { name: "age".to_string(), value: Value::Int(3) });
    assert_eq!(engine.insert(&e).unwrap_err(), "Unknown attribute 'age'");
}

#[test]
fn insert_duplicate_with_wrong_type_stops_midway() {
    let mut engine = Engine::new();
    engine.create_table(&users_table("t")).unwrap();
    let mut e = user("t", 7, "a", "b");
    e.data.push(Data { name: "id".to_string(), value: Value::VarChar("x".to_string()) });
    assert_eq!(engine.insert(&e).unwrap_err(), "Unreachable!");
    // the values before the faulty one were written
    assert_eq!(engine.column_file("t", "id").unwrap(), &vec![7, 0, 0, 0]);
    assert_eq!(engine.column_file("t", "password").unwrap().len(), 8);
}

#[test]
fn select_unknown_attribute_is_refused() {
    let mut engine = filled_engine();
    let err = engine.select("user_table", vec!["id", "age"], vec![]).unwrap_err();
    assert_eq!(err, "Attribute 'age' doesn't exists in table user_table");
}

#[test]
fn select_missing_file_is_an_error() {
    let mut engine = Engine::from_schema(vec![users_table("t")]);
    let err = engine.select("t", vec!["id"], vec![]).unwrap_err();
    assert_eq!(err, "No such file or directory (os error 2)");
}

#[test]
fn update_unknown_attribute_only_when_rows_match() {
    let mut engine = filled_engine();
    let upd = || vec![Data { name: "age".to_string(), value: Value::Int(1) }];
    let err = engine.update("user_table", upd(), vec![cmp("id", 1, Operator::Eq)]).unwrap_err();
    assert_eq!(err, "Unknown attribute 'age'");
    assert_eq!(engine.update("user_table", upd(), vec![cmp("id", 100, Operator::Eq)]).unwrap(), 0);
}

#[test]
fn update_with_wrong_type_is_a_write_error() {
    let mut engine = filled_engine();
    let err = engine
        .update(
            "user_table",
            vec![Data { name: "name".to_string(), value: Value::Int(1) }],
            vec![cmp("id", 2, Operator::Eq)],
        )
        .unwrap_err();
    assert_eq!(err, "Type mismatch while writing column");
    // the id column is rewritten whole, the name column keeps only the rows
    // before the faulty value, and the password column is not reached
    assert_eq!(engine.column_file("user_table", "id").unwrap().len(), 40);
    assert_eq!(engine.column_file("user_table", "name").unwrap().len(), 200);
    assert_eq!(engine.column_file("user_table", "password").unwrap().len(), 80);
}

#[test]
fn delete_with_no_condition_empties_table() {
    let mut engine = filled_engine();
    assert_eq!(engine.delete("user_table", vec![]).unwrap(), 10);
    assert!(engine.select("user_table", vec!["id"], vec![]).unwrap().is_empty());
}

#[test]
fn delete_and_update_on_missing_table_are_refused() {
    let mut engine = Engine::new();
    assert_eq!(engine.delete("x", vec![]).unwrap_err(), "Table with name 'x' doesn't exists");
    assert_eq!(engine.update("x", vec![], vec![]).unwrap_err(), "Table with name 'x' doesn't exists");
}

#[test]
fn varchar_is_cut_to_its_width() {
    let mut engine = filled_engine();
    engine.insert(&user("user_table", 42, "n", "abcdefghijkl")).unwrap();
    let rows = engine
        .select("user_table", vec!["password"], vec![cmp("id", 42, Operator::Eq)])
        .unwrap();
    assert!(matches!(&rows[0].data[0].value, Value::VarChar(s) if s == "abcdefgh"));
}

#[test]
fn text_comparisons_other_than_equality_never_match() {
    let mut engine = filled_engine();
    let lt = Condition::Compare {
        attr: "name".to_string(),
        value: Value::VarChar("zzz".to_string()),
        op: Operator::Lt,
    };
    assert!(engine.select("user_table", vec!["id"], vec![lt]).unwrap().is_empty());
    let eq = Condition::Compare {
        attr: "name".to_string(),
        value: Value::VarChar("user3".to_string()),
        op: Operator::Eq,
    };
    assert_eq!(engine.select("user_table", vec!["id"], vec![eq]).unwrap().len(), 1);
    let mixed = Condition::Compare { attr: "name".to_string(), value: Value::Int(3), op: Operator::Eq };
    assert!(engine.select("user_table", vec!["id"], vec![mixed]).unwrap().is_empty());
    let unknown = cmp("age", 3, Operator::Ne);
    assert!(engine.select("user_table", vec!["id"], vec![unknown]).unwrap().is_empty());
}

#[test]
fn every_int_operator() {
    let mut engine = filled_engine();
    let mut count = |op: Operator| engine.select("user_table", vec!["id"], vec![cmp("id", 5, op)]).unwrap().len();
    assert_eq!(count(Operator::Eq), 1);
    assert_eq!(count(Operator::Ne), 9);
    assert_eq!(count(Operator::Lt), 5);
    assert_eq!(count(Operator::Le), 6);
    assert_eq!(count(Operator::Gt), 4);
    assert_eq!(count(Operator::Ge), 5);
}

#[test]
fn int_cells_are_little_endian_and_negative_ints_roundtrip() {
    let mut engine = Engine::new();
    engine.create_table(&Table {
        name: "n".to_string(),
        attrs: vec![Attr { name: "v".to_string(), data_type: Type::Int }],
    }).unwrap();
    let e = |v| Entity { of: "n".to_string(), data: vec![Data { name: "v".to_string(), value: Value::Int(v) }] };
    engine.insert(&e(-2)).unwrap();
    engine.insert(&e(258)).unwrap();
    assert_eq!(engine.column_file("n", "v").unwrap(), &vec![0xfe, 0xff, 0xff, 0xff, 2, 1, 0, 0]);
    let rows = engine.select("n", vec!["v"], vec![]).unwrap();
    assert!(matches!(rows[0].data[0].value, Value::Int(-2)));
    assert!(matches!(rows[1].data[0].value, Value::Int(258)));
}

#[test]
fn invalid_utf8_reads_with_replacement_character() {
    let mut engine = Engine::new();
    engine.create_table(&Table {
        name: "s".to_string(),
        attrs: vec![Attr { name: "v".to_string(), data_type: Type::VarChar(3) }],
    }).unwrap();
    engine.load_file("s", "v", vec![b'a', 0xff, 0]);
    let rows = engine.select("s", vec!["v"], vec![]).unwrap();
    assert!(matches!(&rows[0].data[0].value, Value::VarChar(s) if s == "a\u{FFFD}"));
}

#[test]
fn trailing_partial_cell_is_ignored() {
    let mut engine = Engine::new();
    engine.create_table(&Table {
        name: "n".to_string(),
        attrs: vec![Attr { name: "v".to_string(), data_type: Type::Int }],
    }).unwrap();
    engine.load_file("n", "v", vec![1, 0, 0, 0, 9, 9]);
    let rows = engine.select("n", vec!["v"], vec![]).unwrap();
    assert_eq!(rows.len(), 1);
}

#[test]
fn table_without_columns_has_no_rows() {
    let mut engine = Engine::new();
    engine.create_table(&Table { name: "e".to_string(), attrs: vec![] }).unwrap();
    engine.insert(&Entity { of: "e".to_string(), data: vec![] }).unwrap();
    assert!(engine.select("e", vec![], vec![]).unwrap().is_empty());
    assert_eq!(engine.delete("e", vec![]).unwrap(), 0);
    assert_eq!(engine.update("e", vec![], vec![]).unwrap(), 0);
}

#[test]
fn attr_exists_finds_columns() {
    let t = users_table("t");
    assert!(t.attr_exists("id"));
    assert!(t.attr_exists("password"));
    assert!(!t.attr_exists("age"));
    assert!(!t.attr_exists(""));
}

#[test]
fn display_texts() {
    assert_eq!(Type::Int.display_text(), "INT");
    assert_eq!(Type::VarChar(50).display_text(), "VARCHAR(50)");
    assert_eq!(Type::VarChar(0).display_text(), "VARCHAR(0)");
    assert_eq!(Value::Int(3).display_text(), "INT");
    assert_eq!(Value::VarChar("x".to_string()).display_text(), "VARCHAR");
}

#[test]
fn readability_conditions() {
    let mut engine = Engine::new();
    engine.create_table(&Table {
        name: "z".to_string(),
        attrs: vec![Attr { name: "v".to_string(), data_type: Type::VarChar(0) }],
    }).unwrap();
    assert!(!engine.rows_readable("z"));
    assert!(!engine.select_readable("z", &vec!["v"]));
    // a select naming an unknown column is refused before any file is read
    assert!(engine.select_readable("z", &vec!["w"]));
    assert!(engine.rows_readable("missing"));

    let mut engine = filled_engine();
    assert!(engine.rows_readable("user_table"));
    // a short second column makes the rows unbuildable
    engine.load_file("user_table", "name", vec![]);
    assert!(!engine.rows_readable("user_table"));
    // a missing file is an error, not a fault
    let mut engine = Engine::from_schema(vec![users_table("t")]);
    assert!(engine.rows_readable("t"));
    assert_eq!(engine.delete("t", vec![]).unwrap_err(), "No such file or directory (os error 2)");
}

#[test]
fn update_last_update_of_a_column_wins() {
    let mut engine = filled_engine();
    let n = engine
        .update(
            "user_table",
            vec![
                Data { name: "name".to_string(), value: Value::VarChar("first".to_string()) },
                Data { name: "name".to_string(), value: Value::VarChar("second".to_string()) },
                Data { name: "id".to_string(), value: Value::Int(-1) },
            ],
            vec![cmp("id", 8, Operator::Ge)],
        )
        .unwrap();
    assert_eq!(n, 2);
    let rows = engine.select("user_table", vec!["id", "name"], vec![cmp("id", -1, Operator::Eq)]).unwrap();
    assert_eq!(ids_names(&rows), vec![(-1, "second".to_string()), (-1, "second".to_string())]);
}

fn debug_all<T: std::fmt::Debug>(items: &[T]) -> Vec<String> {
    items.iter().map(|x| format!("{:?}", x)).collect()
}

#[test]
fn write_column_then_load_column_gives_the_values_back() {
    let mut engine = filled_engine();
    let table = users_table("user_table");
    let attr = table.attrs[1].clone();
    let values = vec![Value::VarChar("a".to_string()), Value::VarChar("bc".to_string())];
    engine.write_column(&table, &attr, &values).unwrap();
    let back = engine.load_column(&table, &attr).unwrap();
    assert_eq!(debug_all(&back), debug_all(&values));
}

#[test]
fn load_column_refuses_unknown_table_and_column() {
    let engine = filled_engine();
    let table = users_table("user_table");
    let other = users_table("nowhere");
    let bad = Attr { name: "age".to_string(), data_type: Type::Int };
    assert_eq!(
        engine.load_column(&other, &table.attrs[0]).unwrap_err(),
        "Table with name 'nowhere' doesn't exists"
    );
    assert_eq!(
        engine.load_column(&table, &bad).unwrap_err(),
        "Attribute 'age' doesn't exists in table user_table"
    );
}

#[test]
fn second_identical_delete_removes_nothing() {
    let mut engine = filled_engine();
    let before = engine.select("user_table", vec![], vec![cmp("id", 5, Operator::Ge)]).unwrap();
    assert_eq!(engine.delete("user_table", vec![cmp("id", 5, Operator::Ge)]).unwrap(), before.len());
    assert_eq!(engine.select("user_table", vec![], vec![cmp("id", 5, Operator::Ge)]).unwrap().len(), 0);
    let after_first = engine.select("user_table", vec!["id", "name"], vec![]).unwrap();
    assert_eq!(engine.delete("user_table", vec![cmp("id", 5, Operator::Ge)]).unwrap(), 0);
    let after_second = engine.select("user_table", vec!["id", "name"], vec![]).unwrap();
    assert_eq!(ids_names(&after_second), ids_names(&after_first));
    assert_eq!(after_second.len(), 5);
}

#[test]
fn second_identical_update_leaves_rows_as_the_first() {
    let mut engine = filled_engine();
    let updates = || vec![Data { name: "name".to_string(), value: Value::VarChar("x".to_string()) }];
    assert_eq!(engine.update("user_table", updates(), vec![cmp("id", 3, Operator::Lt)]).unwrap(), 3);
    let after_first = engine.select("user_table", vec!["id", "name"], vec![]).unwrap();
    engine.update("user_table", updates(), vec![cmp("id", 3, Operator::Lt)]).unwrap();
    let after_second = engine.select("user_table", vec!["id", "name"], vec![]).unwrap();
    assert_eq!(ids_names(&after_second), ids_names(&after_first));
    assert_eq!(ids_names(&after_second)[0], (0, "x".to_string()));
    assert_eq!(ids_names(&after_second)[3], (3, "user3".to_string()));
}

#[test]
fn two_conditions_select_as_their_and() {
    let mut engine = filled_engine();
    let two = engine
        .select("user_table", vec!["id", "name"], vec![cmp("id", 2, Operator::Gt), cmp("id", 6, Operator::Le)])
        .unwrap();
    let and = engine
        .select(
            "user_table",
            vec!["id", "name"],
            vec![Condition::And(
                Box::new(cmp("id", 2, Operator::Gt)),
                Box::new(cmp("id", 6, Operator::Le)),
            )],
        )
        .unwrap();
    assert_eq!(ids_names(&two), ids_names(&and));
    let fewer = engine.select("user_table", vec!["id", "name"], vec![cmp("id", 2, Operator::Gt)]).unwrap();
    assert_eq!(ids_names(&two), vec![(3, "user3".to_string()), (4, "user4".to_string()), (5, "user5".to_string()), (6, "user6".to_string())]);
    assert_eq!(fewer.len(), 7);
    let all = engine.select("user_table", vec![], vec![]).unwrap();
    assert_eq!(all.len(), 10);
    assert!(all.iter().all(|e| e.of == "user_table" && e.data.is_empty()));
}

#[test]
fn delete_drops_a_trailing_partial_cell_and_repeats_as_nothing() {
    let mut engine = Engine::new();
    engine.create_table(&Table {
        name: "n".to_string(),
        attrs: vec![Attr { name: "v".to_string(), data_type: Type::Int }],
    }).unwrap();
    engine.load_file("n", "v", vec![1, 0, 0, 0, 2, 0, 0, 0, 9, 9]);
    assert_eq!(engine.select("n", vec!["v"], vec![cmp("v", 2, Operator::Eq)]).unwrap().len(), 1);
    assert_eq!(engine.delete("n", vec![cmp("v", 2, Operator::Eq)]).unwrap(), 1);
    assert_eq!(engine.column_file("n", "v").unwrap(), &vec![1u8, 0, 0, 0]);
    assert_eq!(engine.delete("n", vec![cmp("v", 2, Operator::Eq)]).unwrap(), 0);
    assert_eq!(engine.column_file("n", "v").unwrap(), &vec![1u8, 0, 0, 0]);
}

#[test]
fn delete_with_two_columns_of_one_name() {
    let mut engine = Engine::new();
    engine.create_table(&Table {
        name: "d".to_string(),
        attrs: vec![
            Attr { name: "v".to_string(), data_type: Type::Int },
            Attr { name: "v".to_string(), data_type: Type::Int },
        ],
    }).unwrap();
    engine.load_file("d", "v", vec![1, 0, 0, 0, 2, 0, 0, 0, 3, 0, 0, 0]);
    assert_eq!(engine.delete("d", vec![cmp("v", 2, Operator::Eq)]).unwrap(), 1);
    assert_eq!(engine.column_file("d", "v").unwrap(), &vec![1u8, 0, 0, 0, 3, 0, 0, 0]);
    assert_eq!(engine.delete("d", vec![cmp("v", 2, Operator::Eq)]).unwrap(), 0);
    assert_eq!(engine.select("d", vec!["v"], vec![]).unwrap().len(), 2);
}

#[test]
fn update_of_a_shared_column_name_does_not_last() {
    let mut engine = Engine::new();
    engine.create_table(&Table {
        name: "d".to_string(),
        attrs: vec![
            Attr { name: "v".to_string(), data_type: Type::Int },
            Attr { name: "v".to_string(), data_type: Type::Int },
        ],
    }).unwrap();
    engine.load_file("d", "v", vec![1, 0, 0, 0]);
    let n = engine
        .update("d", vec![Data { name: "v".to_string(), value: Value::Int(5) }], vec![])
        .unwrap();
    assert_eq!(n, 1);
    assert_eq!(engine.column_file("d", "v").unwrap(), &vec![1u8, 0, 0, 0]);
}

#[test]
fn insert_with_a_shared_column_name_appends_one_cell() {
    let mut engine = Engine::new();
    engine.create_table(&Table {
        name: "d".to_string(),
        attrs: vec![
            Attr { name: "v".to_string(), data_type: Type::Int },
            Attr { name: "v".to_string(), data_type: Type::Int },
        ],
    }).unwrap();
    engine
        .insert(&Entity { of: "d".to_string(), data: vec![Data { name: "v".to_string(), value: Value::Int(7) }] })
        .unwrap();
    let rows = engine.select("d", vec!["v"], vec![]).unwrap();
    assert_eq!(rows.len(), 1);
    assert_eq!(rows[0].data.len(), 2);
    assert_eq!(engine.column_file("d", "v").unwrap(), &vec![7u8, 0, 0, 0]);
}

#[test]
fn several_inserts_read_back_in_column_order() {
    let mut engine = Engine::new();
    engine.create_table(&users_table("t")).unwrap();
    engine.insert(&user("t", 1, "ann", "pw")).unwrap();
    engine
        .insert(&Entity {
            of: "t".to_string(),
            data: vec![
                Data { name: "password".to_string(), value: Value::VarChar("longpassword".to_string()) },
                Data { name: "id".to_string(), value: Value::Int(-2) },
                Data { name: "name".to_string(), value: Value::VarChar("bob".to_string()) },
            ],
        })
        .unwrap();
    let rows = engine.select("t", vec!["id", "name", "password"], vec![]).unwrap();
    assert_eq!(rows.len(), 2);
    let text: Vec<Vec<String>> = rows.iter().map(|e| debug_all(&e.data)).collect();
    assert_eq!(rows[1].of, "t");
    assert_eq!(rows[1].data[0].name, "id");
    assert_eq!(rows[1].data[2].name, "password");
    assert_eq!(ids_names(&rows), vec![(1, "ann".to_string()), (-2, "bob".to_string())]);
    assert!(text[1][2].contains("\"longpass\""));
    assert!(text[0][2].contains("\"pw\""));
}

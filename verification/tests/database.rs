use reedis::command::{CommandArg, MyCommand, Operation};
use reedis::data::{Data, MemTable};
use reedis::database::MemDatabase;
use reedis::error::MyError;
use reedis::events::ExecutionContext;

fn new_get(path: &str) -> MyCommand {
    MyCommand::new_with_vec(Operation::Get, Some(path.to_string()), vec![])
}

fn new_set(path: &str, data: Data) -> MyCommand {
    MyCommand::new_with_vec(Operation::Put, Some(path.to_string()), vec![CommandArg::Data(data)])
}

#[test]
fn get_non_existent_field() {
    let db = MemDatabase::new();
    let get_command = new_get("test");

    let result = db.run(get_command);
    assert_eq!(result.unwrap_err(), MyError::KeyNotFound);
}

#[test]
fn set_field() {
    let mut db = MemDatabase::new();
    let set_command = new_set("test", Data::Int(42));

    let result = db.run_mutable(&mut ExecutionContext::new(vec![]), set_command);

    let result = result.unwrap();

    assert_eq!(result.modified_row_count(), 1);
    assert_eq!(result.results().unwrap().len(), 0);
}

#[test]
fn set_get_basic_values() {
    let mut db = MemDatabase::new();

    let sets = vec![
        new_set("int", Data::Int(42)),
        new_set("float", Data::Float(0.1f32.to_bits())),
        new_set("bool", Data::Bool(true)),
        new_set("str", Data::Str("test".to_string())),
    ];

    let gets = vec![new_get("int"), new_get("float"), new_get("bool"), new_get("str")];

    for s in sets {
        let result = db.run_mutable(&mut ExecutionContext::new(vec![]), s).unwrap();
        assert_eq!(result.modified_row_count(), 1);
    }

    for (ind, g) in gets.into_iter().enumerate() {
        let result = db.run(g).unwrap();
        let mut results = result.results().unwrap().iter();
        match results.next().unwrap() {
            Data::Int(x) => {
                assert_eq!(x, &42);
                assert_eq!(ind, 0);
            }
            Data::Float(x) => {
                assert_eq!(f32::from_bits(*x), 0.1);
                assert_eq!(ind, 1);
            }
            Data::Bool(x) => {
                assert_eq!(x, &true);
                assert_eq!(ind, 2);
            }
            Data::Str(x) => {
                assert_eq!(x, &"test".to_string());
                assert_eq!(ind, 3);
            }
            _ => panic!("Impossible variants"),
        }
    }
}

#[test]
fn set_get_table() {
    let mut db = MemDatabase::new();

    let mut table_in = MemTable::new();
    table_in.insert_data("int", Data::Int(42)).unwrap();
    let table_compare = table_in.clone();

    let set = new_set("test", Data::Table(table_in));
    let get = new_get("test");
    let get_int = new_get("test/int");

    let result = db.run_mutable(&mut ExecutionContext::new(vec![]), set).unwrap();
    assert_eq!(result.modified_row_count(), 1);

    let get_result = db.run(get).unwrap();

    assert_eq!(
        get_result.results().unwrap().iter().next().unwrap().table().unwrap(),
        &table_compare
    );

    let get_result = db.run(get_int).unwrap();

    assert_eq!(
        get_result.results().unwrap().iter().next().unwrap().int_value().unwrap(),
        &42
    );
}

#[test]
fn set_nested_path_creates_tables() {
    let mut db = MemDatabase::new();
    let result = db.run_mutable(&mut ExecutionContext::new(vec![]), new_set("a/b/c", Data::Int(7))).unwrap();
    assert_eq!(result.modified_row_count(), 3);
    let got = db.run(new_get("a/b/c")).unwrap();
    assert_eq!(got.results().unwrap()[0], Data::Int(7));
    let again = db.run_mutable(&mut ExecutionContext::new(vec![]), new_set("a/b/c", Data::Int(8))).unwrap();
    assert_eq!(again.modified_row_count(), 0);
    let got = db.run(new_get("a/b/c")).unwrap();
    assert_eq!(got.results().unwrap()[0], Data::Int(8));
    let sibling = db.run_mutable(&mut ExecutionContext::new(vec![]), new_set("a/b/d", Data::Bool(false))).unwrap();
    assert_eq!(sibling.modified_row_count(), 1);
}

#[test]
fn get_through_primitive_value() {
    let mut db = MemDatabase::new();
    db.run_mutable(&mut ExecutionContext::new(vec![]), new_set("leaf", Data::Int(1))).unwrap();
    assert_eq!(db.run(new_get("leaf/x")).unwrap_err(), MyError::PathContainsPrimitiveValue);
    assert_eq!(db.run(new_get("missing/x")).unwrap_err(), MyError::KeyNotFound);
}

#[test]
fn malformed_commands() {
    let mut db = MemDatabase::new();
    let no_path = MyCommand::new_with_vec(Operation::Get, None, vec![]);
    assert_eq!(db.run(no_path).unwrap_err(), MyError::MalformedCommand);
    let no_arg = MyCommand::new_with_vec(Operation::Put, Some("k".to_string()), vec![]);
    assert_eq!(db.run_mutable(&mut ExecutionContext::new(vec![]), no_arg).unwrap_err(), MyError::MalformedCommand);
    let no_path_set = MyCommand::new_with_vec(Operation::Put, None, vec![CommandArg::Data(Data::Null)]);
    assert_eq!(db.run_mutable(&mut ExecutionContext::new(vec![]), no_path_set).unwrap_err(), MyError::MalformedCommand);
}

#[test]
fn insert_existing_key_is_refused() {
    let mut t = MemTable::new();
    assert!(t.insert_data("k", Data::Int(1)).is_ok());
    assert_eq!(t.insert_data("k", Data::Int(2)), Err(MyError::KeyAlreadyExists));
    assert_eq!(t.get_field("k"), Some(&Data::Int(1)));
    assert!(!t.table_exists("k"));
}

#[test]
fn set_keeps_other_keys() {
    let mut db = MemDatabase::new();
    db.run_mutable(&mut ExecutionContext::new(vec![]), new_set("a/b", Data::Int(1))).unwrap();
    db.run_mutable(&mut ExecutionContext::new(vec![]), new_set("c", Data::Int(2))).unwrap();
    db.run_mutable(&mut ExecutionContext::new(vec![]), new_set("a/d", Data::Int(3))).unwrap();
    let r = db.run(new_get("a/b")).unwrap();
    assert_eq!(r.results().unwrap(), &vec![Data::Int(1)]);
    let r = db.run(new_get("c")).unwrap();
    assert_eq!(r.results().unwrap(), &vec![Data::Int(2)]);
    assert!(db.table().table_exists("a"));
    assert!(!db.table().table_exists("c"));
}

use std::collections::VecDeque;

use reedis::error::AppError;
use reedis::executor::Executor;
use reedis::wire::into::{CommGen, CommandInto, DataInto};
use reedis::wire::serializer::Serializer;
use reedis::wire::table::{decimal_string, ValueArray};
use reedis::wire::types::{CommandTypes, DataTypes, Table, Value};
use reedis::wire::wrapper::{CommandWrapper, DataWrapper};

fn path(keys: &[&str]) -> VecDeque<String> {
    keys.iter().map(|k| k.to_string()).collect()
}

fn wire_bytes(v: Value) -> Vec<u8> {
    let d = DataInto::new_raw(v.data_type(), v);
    let mut buf = vec![0u8; d.size()];
    d.read_into(&mut buf).unwrap();
    buf
}

fn command_bytes(code: u16, args: &[Vec<u8>]) -> Vec<u8> {
    let mut out = code.to_le_bytes().to_vec();
    for a in args {
        out.extend_from_slice(&(a.len() as u64).to_le_bytes());
        out.extend_from_slice(a);
    }
    out
}

fn int_of(v: &Value) -> i64 {
    match v {
        Value::Int64(i) => *i,
        other => panic!("not an integer: {:?}", other),
    }
}

#[test]
fn command_codes() {
    assert!(matches!(CommandTypes::new(&[1, 0]), Ok(CommandTypes::Get)));
    assert!(matches!(CommandTypes::new(&[2, 0]), Ok(CommandTypes::Put)));
    assert!(matches!(CommandTypes::new(&[3, 0]), Ok(CommandTypes::Result)));
    assert!(matches!(CommandTypes::new(&[0xff, 0xff]), Ok(CommandTypes::Terminate)));
    assert!(matches!(CommandTypes::new(&[4, 0]), Err(AppError::InvalidCommandType)));
    assert_eq!(CommandTypes::Get.arg_count(), 1);
    assert_eq!(CommandTypes::Put.arg_count(), 2);
    assert_eq!(CommandTypes::Result.arg_count(), 1);
    assert_eq!(CommandTypes::Terminate.arg_count(), 0);
}

#[test]
fn data_type_codes() {
    let expected = [
        DataTypes::Null,
        DataTypes::String,
        DataTypes::Int64,
        DataTypes::Float64,
        DataTypes::Path,
        DataTypes::Table,
        DataTypes::Bool,
        DataTypes::Array,
    ];
    for (code, t) in expected.iter().enumerate() {
        let got = DataTypes::new(&(code as u16).to_le_bytes()).unwrap();
        assert_eq!(&got, t);
        assert_eq!(got.code(), code as u16);
    }
    assert!(matches!(DataTypes::new(&[8, 0]), Err(AppError::InvalidDataType)));
}

#[test]
fn scalar_values_round_trip() {
    let b = wire_bytes(Value::Int64(-5));
    assert_eq!(b, [vec![2u8, 0], (-5i64 as u64).to_le_bytes().to_vec()].concat());
    assert_eq!(int_of(&DataWrapper::new(&b).unwrap().data().unwrap()), -5);

    let b = wire_bytes(Value::Bool(true));
    assert_eq!(b, vec![6u8, 0, 1]);
    assert!(matches!(DataWrapper::new(&b).unwrap().data().unwrap(), Value::Bool(true)));

    let bits = 1.5f64.to_bits();
    let b = wire_bytes(Value::Float64(bits));
    match DataWrapper::new(&b).unwrap().data().unwrap() {
        Value::Float64(x) => assert_eq!(f64::from_bits(x), 1.5),
        other => panic!("{:?}", other),
    }

    let b = wire_bytes(Value::String("héllo".to_string()));
    assert_eq!(b.len(), 2 + "héllo".len());
    match DataWrapper::new(&b).unwrap().data().unwrap() {
        Value::String(s) => assert_eq!(s, "héllo"),
        other => panic!("{:?}", other),
    }

    let b = wire_bytes(Value::Null);
    assert_eq!(b, vec![0u8, 0]);
    assert!(matches!(DataWrapper::new(&b).unwrap().data().unwrap(), Value::Null));
}

#[test]
fn path_round_trip() {
    let v = Value::Path(path(&["users", "ada"]));
    assert_eq!(v.size(), 2 + 2 + 8 + 5 + 8 + 3);
    let b = wire_bytes(v);
    match DataWrapper::new(&b).unwrap().data().unwrap() {
        Value::Path(p) => assert_eq!(p, path(&["users", "ada"])),
        other => panic!("{:?}", other),
    }
}

#[test]
fn table_round_trip() {
    let mut t = Table::new(VecDeque::new());
    t.insert("a".to_string(), Value::Int64(1));
    t.insert("b".to_string(), Value::String("x".to_string()));
    let b = wire_bytes(Value::Table(Box::new(t)));
    match DataWrapper::new(&b).unwrap().data().unwrap() {
        Value::Table(t2) => {
            assert_eq!(t2.key_count(), 2);
            assert_eq!(int_of(t2.get(path(&["a"])).unwrap()), 1);
            assert!(matches!(t2.get(path(&["b"])), Some(Value::String(s)) if s == "x"));
        }
        other => panic!("{:?}", other),
    }
}

#[test]
fn bad_values_are_refused() {
    assert!(matches!(DataWrapper::new(&[9, 0]), Err(AppError::InvalidDataType)));
    let b = vec![1u8, 0, 0xff, 0xfe];
    assert!(matches!(DataWrapper::new(&b).unwrap().data(), Err(AppError::InvalidString)));
    let b = vec![7u8, 0, 0, 0, 0, 0];
    assert!(matches!(DataWrapper::new(&b).unwrap().data(), Err(AppError::InvalidDataType)));
}

#[test]
fn result_command_round_trip() {
    let cmd = CommGen::result(Value::Int64(7));
    assert_eq!(cmd.command_type(), &CommandTypes::Result);
    let bytes = Serializer::serialize(&cmd).unwrap();
    assert_eq!(bytes.len(), cmd.size());
    assert_eq!(bytes.len(), 2 + 8 + 10);
    let cw = CommandWrapper::new(&bytes).unwrap();
    assert_eq!(cw.command_type(), &CommandTypes::Result);
    assert_eq!(cw.raw_args().len(), 1);
    assert_eq!(int_of(&cw.raw_args()[0].data().unwrap()), 7);
    let mut copy = vec![0u8; cw.size()];
    cw.read_into(&mut copy).unwrap();
    assert_eq!(copy, bytes);
    let mut short = vec![0u8; 3];
    assert!(matches!(cw.read_into(&mut short), Err(AppError::SizeCalculationIsInvalid)));
}

#[test]
fn command_with_bad_code_is_refused() {
    let bytes = command_bytes(9, &[]);
    assert!(matches!(CommandWrapper::new(&bytes), Err(AppError::InvalidCommandType)));
    let bytes = command_bytes(1, &[vec![9, 0]]);
    assert!(matches!(CommandWrapper::new(&bytes), Err(AppError::InvalidDataType)));
}

#[test]
fn data_into_round_trip() {
    let d = DataInto::new_raw(DataTypes::Int64, Value::Int64(3));
    assert_eq!(d.data_type(), &DataTypes::Int64);
    assert_eq!(int_of(&d.data().unwrap()), 3);
    let mut buf = vec![0xaau8; 12];
    d.read_into(&mut buf).unwrap();
    assert_eq!(&buf[0..10], &[2, 0, 3, 0, 0, 0, 0, 0, 0, 0]);
    assert_eq!(&buf[10..12], &[0xaa, 0xaa]);
}

#[test]
fn two_argument_command_overlaps_its_arguments() {
    let cmd = CommandInto::new_raw(
        CommandTypes::Put,
        vec![
            DataInto::new_raw(DataTypes::Bool, Value::Bool(true)),
            DataInto::new_raw(DataTypes::Bool, Value::Bool(false)),
        ],
    );
    let bytes = Serializer::serialize(&cmd).unwrap();
    assert_eq!(bytes.len(), 2 + 2 * (8 + 3));
    // The second argument is written right after the first one's size.
    assert_eq!(&bytes[0..2], &[2, 0]);
    assert_eq!(&bytes[2..10], &3u64.to_le_bytes());
    assert_eq!(&bytes[10..18], &3u64.to_le_bytes());
    assert_eq!(&bytes[18..21], &[6, 0, 0]);
}

#[test]
fn table_set_then_get() {
    let mut t = Table::new(VecDeque::new());
    t.set(path(&["a", "b"]), &Value::Int64(1));
    assert_eq!(int_of(t.get(path(&["a", "b"])).unwrap()), 1);
    assert!(matches!(t.get(path(&["a"])), Some(Value::Table(_))));
    assert!(t.get(path(&[])).is_none());
    assert!(t.get(path(&["a", "c"])).is_none());
    assert!(t.get(path(&["a", "b", "c"])).is_none());
    assert_eq!(t.key_count(), 1);
}

#[test]
fn table_set_through_a_value_changes_nothing() {
    let mut t = Table::new(VecDeque::new());
    t.set(path(&["a"]), &Value::Int64(1));
    t.set(path(&["a", "b"]), &Value::Int64(2));
    assert_eq!(int_of(t.get(path(&["a"])).unwrap()), 1);
    assert!(t.get(path(&["a", "b"])).is_none());
}

#[test]
fn table_set_keeps_other_keys() {
    let mut t = Table::new(VecDeque::new());
    t.set(path(&["x"]), &Value::Int64(1));
    t.set(path(&["y", "z"]), &Value::Int64(2));
    t.set(path(&["y", "w"]), &Value::Int64(3));
    assert_eq!(int_of(t.get(path(&["x"])).unwrap()), 1);
    assert_eq!(int_of(t.get(path(&["y", "z"])).unwrap()), 2);
    assert_eq!(int_of(t.get(path(&["y", "w"])).unwrap()), 3);
    t.set(path(&["x"]), &Value::Int64(4));
    assert_eq!(int_of(t.get(path(&["x"])).unwrap()), 4);
    assert_eq!(t.key_count(), 2);
}

#[test]
fn stored_table_moves_below_its_key() {
    let mut inner = Table::new(VecDeque::new());
    inner.insert("n".to_string(), Value::Table(Box::new(Table::new(VecDeque::new()))));
    let mut t = Table::new(path(&["root"]));
    t.set(path(&["k"]), &Value::Table(Box::new(inner)));
    let shown = format!("{:?}", t.get(path(&["k", "n"])).unwrap());
    assert!(shown.contains(r#"path: ["root", "k", "n"]"#), "{}", shown);
    let shown = format!("{:?}", t.get(path(&["k"])).unwrap());
    assert!(shown.contains(r#"path: ["root", "k"]"#), "{}", shown);
}

#[test]
fn array_items_move_below_their_index() {
    let mut items = vec![
        Value::Int64(0),
        Value::Table(Box::new(Table::new(VecDeque::new()))),
    ];
    items.regen_path(path(&["p"]));
    let shown = format!("{:?}", items[1]);
    assert!(shown.contains(r#"path: ["p", "1"]"#), "{}", shown);
}

#[test]
fn regen_path_keeps_or_replaces_the_path() {
    let mut t = Table::new(path(&["a"]));
    t.insert("c".to_string(), Value::Table(Box::new(Table::new(VecDeque::new()))));
    t.regen_path(None);
    let shown = format!("{:?}", t.get(path(&["c"])).unwrap());
    assert!(shown.contains(r#"path: ["a", "c"]"#), "{}", shown);
    t.regen_path(Some(path(&["b"])));
    let shown = format!("{:?}", t.get(path(&["c"])).unwrap());
    assert!(shown.contains(r#"path: ["b", "c"]"#), "{}", shown);
}

#[test]
fn decimal_strings() {
    assert_eq!(decimal_string(0), "0");
    assert_eq!(decimal_string(7), "7");
    assert_eq!(decimal_string(42), "42");
    assert_eq!(decimal_string(1234567890), "1234567890");
}

#[test]
fn table_byte_size() {
    let mut t = Table::new(VecDeque::new());
    assert_eq!(t.byte_size(), 4);
    t.insert("ab".to_string(), Value::Bool(true));
    assert_eq!(t.byte_size(), 4 + 16 + 2 + 3);
}

#[test]
fn executor_put_then_get() {
    let mut t = Table::new(VecDeque::new());
    let key = wire_bytes(Value::Path(path(&["a", "b"])));
    let val = wire_bytes(Value::Int64(42));
    let put = command_bytes(2, &[key.clone(), val]);
    let cw = CommandWrapper::new(&put).unwrap();
    let (answer, events) = Executor::execute(&cw, &mut t).unwrap();
    assert!(events.is_empty());
    assert_eq!(answer.command_type(), &CommandTypes::Result);
    assert!(matches!(answer.args[0].content, Value::Bool(true)));

    let get = command_bytes(1, &[key]);
    let cw = CommandWrapper::new(&get).unwrap();
    let (answer, _) = Executor::execute(&cw, &mut t).unwrap();
    assert_eq!(answer.args.len(), 1);
    assert_eq!(answer.args[0].data_type, DataTypes::Int64);
    assert_eq!(int_of(&answer.args[0].content), 42);

    let missing = command_bytes(1, &[wire_bytes(Value::String("nope".to_string()))]);
    let cw = CommandWrapper::new(&missing).unwrap();
    let (answer, _) = Executor::execute(&cw, &mut t).unwrap();
    assert!(matches!(answer.args[0].content, Value::Null));
}

#[test]
fn executor_errors() {
    let mut t = Table::new(VecDeque::new());
    let get = command_bytes(1, &[]);
    let cw = CommandWrapper::new(&get).unwrap();
    assert!(matches!(Executor::execute(&cw, &mut t), Err(AppError::GetError)));

    let get = command_bytes(1, &[wire_bytes(Value::Int64(1))]);
    let cw = CommandWrapper::new(&get).unwrap();
    assert!(matches!(Executor::get(&cw, &t), Err(AppError::GetError)));

    let put = command_bytes(2, &[wire_bytes(Value::Int64(1))]);
    let cw = CommandWrapper::new(&put).unwrap();
    assert!(matches!(Executor::set(&cw, &mut t), Err(AppError::SetError)));

    let put = command_bytes(2, &[wire_bytes(Value::Bool(true)), wire_bytes(Value::Int64(1))]);
    let cw = CommandWrapper::new(&put).unwrap();
    assert!(matches!(Executor::set(&cw, &mut t), Err(AppError::SetError)));

    let bad = vec![1u8, 0, 0xff];
    let put = command_bytes(2, &[bad, wire_bytes(Value::Int64(1))]);
    let cw = CommandWrapper::new(&put).unwrap();
    assert!(matches!(Executor::set(&cw, &mut t), Err(AppError::InvalidString)));
    assert_eq!(t.key_count(), 0);

    let term = command_bytes(0xffff, &[]);
    let cw = CommandWrapper::new(&term).unwrap();
    assert!(matches!(Executor::execute(&cw, &mut t), Err(AppError::InvalidCaommdnForServer)));
}

#[test]
fn get_mut_reaches_the_value_before_the_last_key() {
    let mut t = Table::new(VecDeque::new());
    t.set(path(&["a"]), &Value::Int64(1));
    t.set(path(&["n", "m"]), &Value::Int64(2));
    assert!(t.get_mut(path(&["a"])).is_none());
    assert!(t.get_mut(path(&[])).is_none());
    match t.get_mut(path(&["a", "ignored"])) {
        Some(v) => *v = Value::Int64(5),
        None => panic!("nothing at a"),
    }
    assert_eq!(int_of(t.get(path(&["a"])).unwrap()), 5);
    match t.get_mut(path(&["n", "m", "ignored"])) {
        Some(v) => *v = Value::Int64(7),
        None => panic!("nothing at n/m"),
    }
    assert_eq!(int_of(t.get(path(&["n", "m"])).unwrap()), 7);
    assert!(t.get_mut(path(&["a", "b", "c"])).is_none());
    assert!(t.get_mut(path(&["zz", "b"])).is_none());
}

#[test]
fn arrays_in_a_moved_table_go_below_key_and_index() {
    let mut inner = Table::new(VecDeque::new());
    inner.insert(
        "arr".to_string(),
        Value::Array(Box::new(vec![Value::Table(Box::new(Table::new(VecDeque::new())))])),
    );
    let mut t = Table::new(path(&["p"]));
    t.insert("k".to_string(), Value::Table(Box::new(inner)));
    t.regen_path(None);
    let shown = format!("{:?}", t.get(path(&["k", "arr"])).unwrap());
    assert!(shown.contains(r#"path: ["p", "k", "arr", "0"]"#), "{}", shown);
}

#[test]
fn stored_table_reads_back_with_its_path_moved() {
    let mut inner = Table::new(path(&["elsewhere"]));
    inner.insert("v".to_string(), Value::Int64(3));
    let mut t = Table::new(VecDeque::new());
    t.set(path(&["a", "b"]), &Value::Table(Box::new(inner)));
    match t.get(path(&["a", "b"])) {
        Some(Value::Table(back)) => {
            assert_eq!(int_of(back.get(path(&["v"])).unwrap()), 3);
            let shown = format!("{:?}", back);
            assert!(shown.starts_with(r#"Table { path: ["a", "b"]"#), "{}", shown);
        }
        other => panic!("{:?}", other),
    }
}

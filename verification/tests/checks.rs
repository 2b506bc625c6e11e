use std::collections::VecDeque;

use reedis::executor::{handle_packet, Executor};
use reedis::wire::check::{check_value, command_readable};
use reedis::wire::into::{CommGen, CommandInto, DataInto};
use reedis::wire::serializer::Serializer;
use reedis::wire::types::{CommandTypes, DataTypes, Table, Value};
use reedis::wire::wrapper::{CommandWrapper, DataWrapper, Decoded};

fn path(keys: &[&str]) -> VecDeque<String> {
    keys.iter().map(|k| k.to_string()).collect()
}

fn wire_bytes(v: Value) -> Vec<u8> {
    let d = DataInto::new_raw(v.data_type(), v);
    let mut buf = vec![0u8; d.size()];
    d.read_into(&mut buf).unwrap();
    buf
}

fn command_bytes(code: u16, args: &[Vec<u8>]) -> Vec<u8> {
    let mut out = code.to_le_bytes().to_vec();
    for a in args {
        out.extend_from_slice(&(a.len() as u64).to_le_bytes());
        out.extend_from_slice(a);
    }
    out
}

#[test]
fn command_packets_that_end_early() {
    let whole = command_bytes(1, &[wire_bytes(Value::Int64(1))]);
    assert!(command_readable(&whole));
    assert!(!command_readable(&whole[..whole.len() - 1]));
    assert!(!command_readable(&[1]));
    assert!(command_readable(&[9, 0, 1, 2, 3]));
    let mut short_arg = 1u16.to_le_bytes().to_vec();
    short_arg.extend_from_slice(&1u64.to_le_bytes());
    short_arg.push(2);
    assert!(!command_readable(&short_arg));
    let bad_type = command_bytes(1, &[vec![9, 0]]);
    assert!(command_readable(&bad_type));
}

#[test]
fn values_that_end_early() {
    assert!(matches!(check_value(DataTypes::Int64, &[0; 8]), Decoded::Done(())));
    assert!(matches!(check_value(DataTypes::Int64, &[0; 4]), Decoded::Truncated));
    assert!(matches!(check_value(DataTypes::Bool, &[]), Decoded::Truncated));
    assert!(matches!(check_value(DataTypes::Null, &[]), Decoded::Done(())));
    assert!(matches!(check_value(DataTypes::String, &[0xff]), Decoded::Failed(_)));
    assert!(matches!(check_value(DataTypes::Array, &[0; 4]), Decoded::Failed(_)));

    let p = wire_bytes(Value::Path(path(&["ab", "c"])));
    assert!(DataWrapper::new(&p).unwrap().is_readable());
    assert!(!DataWrapper::new(&p[..p.len() - 1]).unwrap().is_readable());

    let mut t = Table::new(VecDeque::new());
    t.insert("k".to_string(), Value::String("v".to_string()));
    let tb = wire_bytes(Value::Table(Box::new(t)));
    assert!(DataWrapper::new(&tb).unwrap().is_readable());
    assert!(!DataWrapper::new(&tb[..tb.len() - 1]).unwrap().is_readable());
    assert!(!DataWrapper::new(&tb[..5]).unwrap().is_readable());
}

#[test]
fn readable_arguments_for_the_executor() {
    let key = wire_bytes(Value::String("a".to_string()));
    let val = wire_bytes(Value::Int64(1));
    let put = command_bytes(2, &[key.clone(), val[..5].to_vec()]);
    let cw = CommandWrapper::new(&put).unwrap();
    assert!(!Executor::readable(&cw));
    let put = command_bytes(2, &[key.clone(), val.clone()]);
    let cw = CommandWrapper::new(&put).unwrap();
    assert!(Executor::readable(&cw));
    let not_a_path = command_bytes(2, &[wire_bytes(Value::Bool(true)), val[..5].to_vec()]);
    let cw = CommandWrapper::new(&not_a_path).unwrap();
    assert!(Executor::readable(&cw));
    let get = command_bytes(1, &[val[..5].to_vec()]);
    let cw = CommandWrapper::new(&get).unwrap();
    assert!(!Executor::readable(&cw));
}

#[test]
fn checked_sizes_agree() {
    let mut t = Table::new(VecDeque::new());
    t.insert("k".to_string(), Value::Path(path(&["x", "yz"])));
    let values = vec![
        Value::Null,
        Value::Bool(false),
        Value::Int64(3),
        Value::String("abc".to_string()),
        Value::Path(path(&["a"])),
        Value::Array(Box::new(vec![Value::Int64(1), Value::Null])),
    ];
    for v in values {
        assert_eq!(v.size_checked(), Some(v.size()));
    }
    assert_eq!(t.byte_size_checked(), Some(t.byte_size()));
    let table_value = Value::Table(Box::new(t));
    assert_eq!(table_value.size_checked(), Some(table_value.size()));
    let cmd = CommGen::result(table_value);
    assert_eq!(cmd.size_checked(), Some(cmd.size()));
}

#[test]
fn table_pairs_in_key_order() {
    let mut t = Table::new(VecDeque::new());
    t.insert("b".to_string(), Value::Int64(1));
    t.insert("a".to_string(), Value::Int64(2));
    t.insert("b".to_string(), Value::Int64(3));
    let pairs = t.pairs();
    assert_eq!(pairs.len(), 2);
    assert_eq!(pairs[0].0, "b");
    assert!(matches!(pairs[0].1, Value::Int64(3)));
    assert_eq!(pairs[1].0, "a");
    assert!(matches!(pairs[1].1, Value::Int64(2)));
}

#[test]
fn nested_table_reads_back_without_paths() {
    let mut inner = Table::new(path(&["outer", "in"]));
    inner.insert("x".to_string(), Value::Bool(true));
    let mut outer = Table::new(path(&["outer"]));
    outer.insert("in".to_string(), Value::Table(Box::new(inner)));
    outer.insert("p".to_string(), Value::Path(path(&["a", "b"])));
    let bytes = wire_bytes(Value::Table(Box::new(outer)));
    match DataWrapper::new(&bytes).unwrap().data().unwrap() {
        Value::Table(t) => {
            let shown = format!("{:?}", t);
            assert!(shown.starts_with("Table { path: []"), "{}", shown);
            assert!(matches!(t.get(path(&["in", "x"])), Some(Value::Bool(true))));
            assert!(matches!(t.get(path(&["p"])), Some(Value::Path(p)) if *p == path(&["a", "b"])));
            let nested = format!("{:?}", t.get(path(&["in"])).unwrap());
            assert!(nested.contains("path: []"), "{}", nested);
        }
        other => panic!("{:?}", other),
    }
}

#[test]
fn one_argument_command_reads_back() {
    let cmd = CommandInto::new_raw(
        CommandTypes::Get,
        vec![DataInto::new_raw(DataTypes::Path, Value::Path(path(&["k"])))],
    );
    let bytes = Serializer::serialize(&cmd).unwrap();
    assert!(command_readable(&bytes));
    let cw = CommandWrapper::new(&bytes).unwrap();
    assert_eq!(cw.command_type(), &CommandTypes::Get);
    assert_eq!(cw.raw_args().len(), 1);
    let mut arg = vec![0u8; cw.raw_args()[0].size()];
    cw.raw_args()[0].read_into(&mut arg).unwrap();
    assert_eq!(arg, wire_bytes(Value::Path(path(&["k"]))));
}

#[test]
fn handle_packet_answers_and_stores() {
    let mut t = Table::new(VecDeque::new());
    let key = wire_bytes(Value::Path(path(&["a"])));
    let put = command_bytes(2, &[key.clone(), wire_bytes(Value::Int64(9))]);
    let (answer, events) = handle_packet(&put, &mut t).unwrap().unwrap();
    assert!(events.is_empty());
    assert_eq!(answer, [vec![3u8, 0], 3u64.to_le_bytes().to_vec(), vec![6, 0, 1]].concat());
    let get = command_bytes(1, &[key]);
    let (answer, _) = handle_packet(&get, &mut t).unwrap().unwrap();
    assert_eq!(answer, [vec![3u8, 0], 10u64.to_le_bytes().to_vec(), vec![2, 0], 9i64.to_le_bytes().to_vec()].concat());
    assert!(handle_packet(&put[..put.len() - 1], &mut t).is_none());
    assert!(matches!(handle_packet(&[9, 0], &mut t), Some(Err(reedis::error::AppError::InvalidCommandType))));
    assert!(matches!(
        handle_packet(&command_bytes(3, &[]), &mut t),
        Some(Err(reedis::error::AppError::InvalidCaommdnForServer))
    ));
}

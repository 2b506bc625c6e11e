use reedis::command::{CommandArg, CommandResult, MyCommand, Operation};
use reedis::data::{Data, DataType, MemTable};
use reedis::database::MemDatabase;
use reedis::error::MyError;
use reedis::events::{route, EventCommand, ExecutionContext};
use reedis::framing::{message_body_len, read_message, Message, Serializer};
use reedis::parser::{InvalidParser, Json, JsonParser, StreamIntent};
use reedis::path::next_path_key;
use reedis::session::{data_step, DataAction};
use reedis::wire::into::CommGen;
use reedis::wire::types::Value;

fn object(entries: Vec<(&str, Json)>) -> Json {
    Json::Object(entries.into_iter().map(|(k, v)| (k.to_string(), v)).collect())
}

#[test]
fn path_keys_split_at_slashes() {
    assert_eq!(next_path_key(("a/bc/d", 0)), ("a", Some(2)));
    assert_eq!(next_path_key(("a/bc/d", 2)), ("bc", Some(5)));
    assert_eq!(next_path_key(("a/bc/d", 5)), ("d", None));
    assert_eq!(next_path_key(("", 0)), ("", None));
    assert_eq!(next_path_key(("a/", 0)), ("a", Some(2)));
    assert_eq!(next_path_key(("é/x", 0)), ("é", Some(3)));
}

#[test]
fn json_scalars_convert() {
    assert!(matches!(JsonParser::json_to_data(Json::Null), Ok(Data::Null)));
    assert!(matches!(JsonParser::json_to_data(Json::Bool(true)), Ok(Data::Bool(true))));
    let bits = 2.5f32.to_bits();
    assert!(matches!(JsonParser::json_to_data(Json::Number(Some(bits))), Ok(Data::Float(b)) if b == bits));
    assert_eq!(
        JsonParser::json_to_data(Json::Number(None)).unwrap_err(),
        MyError::NumberCantBeParsed
    );
    assert!(matches!(JsonParser::json_to_data(Json::String("s".to_string())), Ok(Data::Str(s)) if s == "s"));
}

#[test]
fn json_arrays_convert_or_fail_whole() {
    let ok = Json::Array(vec![Json::Bool(false), Json::Null]);
    match JsonParser::json_to_data(ok).unwrap() {
        Data::Array(v) => {
            assert_eq!(v.len(), 2);
            assert_eq!(v[0], Data::Bool(false));
            assert_eq!(v[1], Data::Null);
        }
        other => panic!("{:?}", other),
    }
    let bad = Json::Array(vec![Json::Bool(false), Json::Number(None)]);
    assert_eq!(JsonParser::json_to_data(bad).unwrap_err(), MyError::ArrayParseError);
}

#[test]
fn json_objects_become_tables() {
    let obj = object(vec![("a", Json::Bool(true)), ("b", object(vec![("c", Json::Null)]))]);
    match JsonParser::json_to_data(obj).unwrap() {
        Data::Table(t) => {
            assert_eq!(t.get_field("a"), Some(&Data::Bool(true)));
            assert!(t.table_exists("b"));
            assert_eq!(t.get(("b/c", 0)).unwrap(), &Data::Null);
        }
        other => panic!("{:?}", other),
    }
    let twice = object(vec![("a", Json::Null), ("a", Json::Null)]);
    assert_eq!(JsonParser::json_to_data(twice).unwrap_err(), MyError::KeyAlreadyExists);
    let bad = object(vec![("a", Json::Number(None))]);
    assert_eq!(JsonParser::json_to_data(bad).unwrap_err(), MyError::NumberCantBeParsed);
}

#[test]
fn intent_of_first_message() {
    let data = object(vec![("intent", Json::String("data".to_string()))]);
    assert_eq!(JsonParser::intent_of(&data), Ok(StreamIntent::Data));
    let event = object(vec![("intent", Json::String("events".to_string()))]);
    assert_eq!(JsonParser::intent_of(&event), Ok(StreamIntent::Event));
    let number = object(vec![("intent", Json::Null)]);
    assert_eq!(JsonParser::intent_of(&number), Err(MyError::MalformedCommand));
    let missing = object(vec![("other", Json::String("data".to_string()))]);
    assert_eq!(JsonParser::intent_of(&missing), Err(MyError::MalformedCommand));
    assert_eq!(JsonParser::intent_of(&Json::Null), Err(MyError::MalformedCommand));
}

#[test]
fn invalid_parser_takes_nothing() {
    assert!(!InvalidParser::IS_IMPLEMENTED);
    assert_eq!(InvalidParser::is_correct_parser(b"{}"), None);
}

#[test]
fn event_commands() {
    let start = EventCommand::Start;
    assert!(start.is_start());
    assert_eq!(start.path(), None);
    assert_eq!(start.listener(), None);
    let listen = EventCommand::Listen("a/b".to_string(), 3);
    assert!(!listen.is_start());
    assert_eq!(listen.path(), Some("a/b"));
    assert_eq!(listen.listener(), Some(&3));
}

#[test]
fn operations() {
    assert!(Operation::Put.is_mutator());
    assert!(!Operation::Get.is_mutator());
    assert!(!Operation::Terminate.is_mutator());
    assert!(Operation::Terminate.is_terminate());
    assert!(!Operation::Get.is_terminate());
}

#[test]
fn data_session_steps() {
    let mut db = MemDatabase::new();
    let mut ctx = ExecutionContext::new(vec![("a/b".to_string(), 4), ("x".to_string(), 5), ("a/b".to_string(), 6)]);
    let put = MyCommand::new_with_vec(
        Operation::Put,
        Some("a/b".to_string()),
        vec![CommandArg::Data(Data::Int(5))],
    );
    assert!(db.accepts(&put));
    match data_step(&mut db, &mut ctx, put) {
        DataAction::Reply(CommandResult::Data(v, 2)) => assert!(v.is_empty()),
        other => panic!("{:?}", other),
    }
    let get = MyCommand::new_with_vec(Operation::Get, Some("a/b".to_string()), vec![]);
    match data_step(&mut db, &mut ctx, get) {
        DataAction::Reply(CommandResult::Data(v, 0)) => assert_eq!(v, vec![Data::Int(5)]),
        other => panic!("{:?}", other),
    }
    let missing = MyCommand::new_with_vec(Operation::Get, Some("zz".to_string()), vec![]);
    match data_step(&mut db, &mut ctx, missing) {
        DataAction::Reply(CommandResult::Error(MyError::KeyNotFound, 0)) => {}
        other => panic!("{:?}", other),
    }
    let through = MyCommand::new_with_vec(
        Operation::Put,
        Some("a/b/c".to_string()),
        vec![CommandArg::Data(Data::Int(1))],
    );
    assert!(!db.accepts(&through));
    let stop = MyCommand::new_with_vec(Operation::Terminate, None, vec![]);
    assert!(matches!(data_step(&mut db, &mut ctx, stop), DataAction::Finish));
    let sent: Vec<(String, Operation, usize)> =
        ctx.sent.iter().map(|e| (e.path.clone(), e.op, e.listener)).collect();
    assert_eq!(sent, vec![("a/b".to_string(), Operation::Put, 4), ("a/b".to_string(), Operation::Put, 6)]);
}

#[test]
fn set_reports_to_the_listeners_of_its_path() {
    let mut t = MemTable::new();
    let mut ctx = ExecutionContext::new(vec![("p/q".to_string(), 1), ("p".to_string(), 2), ("p/q".to_string(), 3)]);
    assert_eq!(ctx.lookup("p/q"), vec![1, 3]);
    assert_eq!(ctx.lookup("none"), Vec::<usize>::new());
    assert_eq!(t.set(&mut ctx, ("p/q", 0), Data::Int(1)), 2);
    assert_eq!(t.set(&mut ctx, ("p/q", 0), Data::Int(2)), 0);
    assert_eq!(ctx.sent.len(), 4);
    assert!(ctx.sent.iter().all(|e| e.path == "p/q" && e.op == Operation::Put));
    assert_eq!(ctx.sent.iter().map(|e| e.listener).collect::<Vec<_>>(), vec![1, 3, 1, 3]);
    t.set(&mut ctx, ("p", 0), Data::Null);
    assert_eq!(ctx.sent.last().unwrap().listener, 2);
}

#[test]
fn events_go_to_the_last_registration() {
    let registered = vec![(1usize, 'a'), (2, 'b'), (1, 'c')];
    assert_eq!(route(&registered, 1), Some(2));
    assert_eq!(route(&registered, 2), Some(1));
    assert_eq!(route(&registered, 3), None);
}

#[test]
fn data_kinds() {
    assert_eq!(Data::Int(1).data_type(), DataType::Int);
    assert_eq!(Data::Str("x".to_string()).str(), Some("x"));
    assert_eq!(Data::Int(1).str(), None);
    assert_eq!(Data::Bool(true).bool(), Some(&true));
    assert_eq!(Data::Int(3).int_value(), Some(&3));
}

#[test]
fn message_frames() {
    let mut input = 3u32.to_le_bytes().to_vec();
    input.extend(vec![7u8; 1024]);
    let (m, used) = read_message(&input).unwrap();
    assert_eq!(used, 1028);
    assert!(matches!(m, Message::Stack(_)));
    assert_eq!(m.as_slice().len(), 1024);
    assert_eq!(m.as_slice()[0], 7);

    let mut input = 2000u32.to_le_bytes().to_vec();
    input.extend(vec![1u8; 2000]);
    let (m, used) = read_message(&input).unwrap();
    assert_eq!(used, 2004);
    assert!(matches!(m, Message::Heap(_)));
    assert_eq!(m.as_slice().len(), 2000);

    assert_eq!(read_message(&[1, 0]).err(), Some(MyError::SocketReadError));
    assert_eq!(read_message(&input[0..100]).err(), Some(MyError::SocketReadError));
    assert_eq!(message_body_len(&5u32.to_le_bytes()), 1024);
    assert_eq!(message_body_len(&5000u32.to_le_bytes()), 5000);
}

#[test]
fn framed_serialization_prefixes_the_size() {
    let cmd = CommGen::result(Value::Bool(true));
    let bytes = Serializer::serialize(&cmd).unwrap();
    assert_eq!(&bytes[0..8], &(cmd.size() as u64).to_le_bytes());
    assert_eq!(bytes.len(), 8 + cmd.size());
    assert_eq!(&bytes[8..10], &[3, 0]);
}

#[test]
fn session_answers_in_order_until_terminate() {
    let mut db = MemDatabase::new();
    let mut ctx = ExecutionContext::new(vec![]);
    let commands = vec![
        MyCommand::new_with_vec(Operation::Put, Some("k".to_string()), vec![CommandArg::Data(Data::Int(1))]),
        MyCommand::new_with_vec(Operation::Get, Some("k".to_string()), vec![]),
        MyCommand::new_with_vec(Operation::Get, Some("zz".to_string()), vec![]),
        MyCommand::new_with_vec(Operation::Terminate, None, vec![]),
        MyCommand::new_with_vec(Operation::Put, Some("k".to_string()), vec![CommandArg::Data(Data::Int(2))]),
    ];
    let mut replies = Vec::new();
    for c in commands {
        match data_step(&mut db, &mut ctx, c) {
            DataAction::Finish => break,
            DataAction::Reply(r) => replies.push(r),
        }
    }
    assert_eq!(replies.len(), 3);
    assert!(matches!(&replies[0], CommandResult::Data(v, 1) if v.is_empty()));
    assert!(matches!(&replies[1], CommandResult::Data(v, 0) if v == &vec![Data::Int(1)]));
    assert!(matches!(&replies[2], CommandResult::Error(MyError::KeyNotFound, 0)));
    let get = MyCommand::new_with_vec(Operation::Get, Some("k".to_string()), vec![]);
    assert_eq!(db.run(get).unwrap().results().unwrap(), &vec![Data::Int(1)]);
}

#[test]
fn delete_events_cover_nested_tables() {
    let mut t = MemTable::new();
    let mut ctx = ExecutionContext::new(vec![
        ("root/a/b".to_string(), 3),
        ("root".to_string(), 1),
        ("root/a".to_string(), 2),
        ("root/x".to_string(), 4),
    ]);
    t.set(&mut ctx, ("a/b/c", 0), Data::Int(1));
    t.set(&mut ctx, ("x", 0), Data::Int(2));
    let mut ctx = ExecutionContext::new(ctx.listeners);
    MemTable::create_delete_events(&mut ctx, "root", Operation::Put, &t);
    let sent: Vec<(String, usize)> = ctx.sent.iter().map(|e| (e.path.clone(), e.listener)).collect();
    assert_eq!(
        sent,
        vec![("root".to_string(), 1), ("root/a".to_string(), 2), ("root/a/b".to_string(), 3)]
    );
}

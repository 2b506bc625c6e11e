//! Runs the commands of the binary protocol against a table.
use vstd::prelude::*;
use std::collections::VecDeque;
use crate::error::{AppError, AppResult};
use crate::wire::types::{
    CommandTypes, DataTypes, Table, TableV, Value, ValueV, command_code, enc, type_code, type_of_code, value_size,
    value_type, lemma_view_value,
};
use crate::wire::wrapper::{CommandWrapper, Decoded, decode_value, parse_command, wrappers_bytes};
use crate::wire::bytes::{le_u16, le_u64, u16_of};
use crate::wire::check::command_readable;
use crate::wire::into::{command_size, data_image};
use crate::wire::roundtrip::lemma_one_arg_writes;
use crate::wire::into::{CommandInto, DataInto, CommGen};
use crate::wire::table::{
    is_scalar, law_get_after_set, law_get_after_set_modulo_paths, lookup, set_blocked, table_get, table_set, wf_table,
};
use crate::wire::roundtrip::without_paths;

verus! {

broadcast use lemma_view_value;

/// A change to report to those who listen: the value now stored. `Empty` carries nothing.
#[derive(Debug)]
pub enum Event {
    Empty,
    Change(Value),
}

/// An event at a key path.
#[derive(Debug)]
pub struct EventObj {
    path: VecDeque<String>,
    event: Event,
}

impl EventObj {
    /// The key path of the event.
    pub closed spec fn spec_path(&self) -> VecDeque<String> {
        self.path
    }

    /// What happened there.
    pub closed spec fn spec_event(&self) -> Event {
        self.event
    }

    /// An event at `path`.
    pub fn new(path: VecDeque<String>, event: Event) -> (r: Self)
        ensures
            r.spec_path() == path,
            r.spec_event() == event,
    {
        EventObj { path, event }
    }
}

/// The key path that a value names: a path as it is, a string as a path of one key.
pub open spec fn path_of(v: ValueV) -> Option<Seq<Seq<char>>> {
    match v {
        ValueV::Path(p) => Some(p),
        ValueV::String(s) => Some(seq![s]),
        _ => None,
    }
}

/// What an argument reads as, from its bytes: its type code, then its content.
pub open spec fn packet_arg(a: Seq<u8>) -> Decoded<ValueV> {
    decode_value(type_of_code(u16_of(a))->Some_0, a.subrange(2, a.len() as int))
}

/// The bytes of each argument of a command.
pub open spec fn args_of<'a>(cw: CommandWrapper<'a>) -> Seq<Seq<u8>> {
    wrappers_bytes(cw.spec_args())
}

/// What argument `i` of a command with the argument bytes `args` reads as.
pub open spec fn arg_value(args: Seq<Seq<u8>>, i: int) -> Decoded<ValueV> {
    packet_arg(args[i])
}

/// Whether reading argument `i`, if there is one, stays inside its bytes.
pub open spec fn arg_readable(args: Seq<Seq<u8>>, i: int) -> bool {
    i >= args.len() || !(arg_value(args, i) is Truncated)
}

/// What a `Get` command with the argument bytes `args` answers on table `t`: the value at
/// the key path that its first argument names, or `Null` when there is none there.
pub open spec fn get_outcome(args: Seq<Seq<u8>>, t: TableV) -> Result<ValueV, AppError> {
    if args.len() == 0 {
        Err(AppError::GetError)
    } else {
        match arg_value(args, 0) {
            Decoded::Done(v) => match path_of(v) {
                Some(p) => Ok(
                    match table_get(t, p) {
                        Some(x) => x,
                        None => ValueV::Null,
                    },
                ),
                None => Err(AppError::GetError),
            },
            Decoded::Failed(e) => Err(e),
            Decoded::Truncated => Err(AppError::GetError),
        }
    }
}

/// What a `Put` command with the argument bytes `args` makes of table `t`: the value of
/// its second argument stored at the key path that its first argument names.
pub open spec fn set_outcome(args: Seq<Seq<u8>>, t: TableV) -> Result<TableV, AppError> {
    if args.len() < 2 {
        Err(AppError::SetError)
    } else {
        match arg_value(args, 0) {
            Decoded::Done(v) => match path_of(v) {
                Some(p) => match arg_value(args, 1) {
                    Decoded::Done(w) => Ok(table_set(t, p, w)),
                    Decoded::Failed(e) => Err(e),
                    Decoded::Truncated => Err(AppError::SetError),
                },
                None => Err(AppError::SetError),
            },
            Decoded::Failed(e) => Err(e),
            Decoded::Truncated => Err(AppError::SetError),
        }
    }
}

/// Whether the arguments that a `Put` command reads stay inside their bytes.
pub open spec fn set_readable(args: Seq<Seq<u8>>) -> bool {
    args.len() >= 2 ==> {
        &&& arg_readable(args, 0)
        &&& (arg_value(args, 0) matches Decoded::Done(v) && path_of(v) is Some ==> arg_readable(args, 1))
    }
}

/// Whether an answer carries `x`: a `Result` command with `x` as its one argument, sent
/// under its own type.
pub open spec fn answers(c: CommandInto, x: ValueV) -> bool {
    &&& c.command == CommandTypes::Result
    &&& c.args@.len() == 1
    &&& c.args@[0].content@ == x
    &&& c.args@[0].data_type == value_type(x)
}

/// Runs commands against a table.
pub struct Executor;

impl Executor {
    /// Reads the key path that an argument names.
    fn read_path<'a>(cw: &'a CommandWrapper<'a>, i: usize) -> (r: AppResult<Option<VecDeque<String>>>)
        requires
            usize::BITS == 64,
            i < cw.spec_args().len(),
            arg_readable(args_of(*cw), i as int),
        ensures
            match arg_value(args_of(*cw), i as int) {
                Decoded::Done(v) => r matches Ok(o) && match path_of(v) {
                    Some(p) => o matches Some(q) && crate::wire::types::strings_view(q@) == p,
                    None => o is None,
                },
                Decoded::Failed(e) => r == Err::<Option<VecDeque<String>>, AppError>(e),
                Decoded::Truncated => false,
            },
    {
        let arg = &cw.raw_args()[i];
        match arg.data() {
            Err(e) => Err(e),
            Ok(Value::Path(p)) => Ok(Some(p)),
            Ok(Value::String(s)) => {
                let mut v: VecDeque<String> = VecDeque::new();
                v.push_back(s);
                assert(crate::wire::types::strings_view(v@) =~= seq![s@]);
                Ok(Some(v))
            },
            Ok(_) => Ok(None),
        }
    }

    /// Answers a `Get` command: the value at the key path that its first argument names,
    /// or `Null` when there is none there.
    pub fn get<'a>(cw: &'a CommandWrapper<'a>, table: &Table) -> (r: AppResult<(CommandInto, Vec<EventObj>)>)
        requires
            usize::BITS == 64,
            arg_readable(args_of(*cw), 0),
        ensures
            match get_outcome(args_of(*cw), table@) {
                Ok(x) => r matches Ok((c, evs)) && answers(c, x) && evs@.len() == 0,
                Err(e) => r == Err::<(CommandInto, Vec<EventObj>), AppError>(e),
            },
    {
        if cw.raw_args().len() == 0 {
            return Err(AppError::GetError);
        }
        match Self::read_path(cw, 0) {
            Err(e) => Err(e),
            Ok(None) => Err(AppError::GetError),
            Ok(Some(path)) => {
                let val = match table.get(path) {
                    Some(v) => v.clone(),
                    None => Value::Null,
                };
                Ok((CommGen::result(val), Vec::with_capacity(0)))
            },
        }
    }

    /// Runs a `Put` command: stores the value of its second argument at the key path that
    /// its first argument names, and answers `true`.
    pub fn set<'a>(cw: &'a CommandWrapper<'a>, table: &mut Table) -> (r: AppResult<(CommandInto, Vec<EventObj>)>)
        requires
            usize::BITS == 64,
            set_readable(args_of(*cw)),
        ensures
            match set_outcome(args_of(*cw), old(table)@) {
                Ok(t) => r matches Ok((c, evs)) && answers(c, ValueV::Bool(true)) && evs@.len() == 0
                    && final(table)@ == t,
                Err(e) => r == Err::<(CommandInto, Vec<EventObj>), AppError>(e) && final(table)@ == old(table)@,
            },
    {
        if cw.raw_args().len() < 2 {
            return Err(AppError::SetError);
        }
        match Self::read_path(cw, 0) {
            Err(e) => Err(e),
            Ok(None) => Err(AppError::SetError),
            Ok(Some(path)) => {
                match cw.raw_args()[1].data() {
                    Err(e) => Err(e),
                    Ok(val) => {
                        table.set(path, &val);
                        let mut args: Vec<DataInto> = Vec::new();
                        args.push(DataInto::new_raw(DataTypes::Bool, Value::Bool(true)));
                        Ok((CommandInto::new_raw(CommandTypes::Result, args), Vec::with_capacity(0)))
                    },
                }
            },
        }
    }

    /// Whether the arguments that running the command reads hold all that they announce.
    pub fn readable<'a>(cw: &'a CommandWrapper<'a>) -> (r: bool)
        requires
            usize::BITS == 64,
        ensures
            r == ((cw.spec_command() == CommandTypes::Get ==> arg_readable(args_of(*cw), 0))
                && (cw.spec_command() == CommandTypes::Put ==> set_readable(args_of(*cw)))),
    {
        let args = cw.raw_args();
        match cw.command_type() {
            CommandTypes::Get => args.len() == 0 || args[0].is_readable(),
            CommandTypes::Put => {
                if args.len() < 2 {
                    true
                } else if !args[0].is_readable() {
                    false
                } else {
                    match Self::read_path(cw, 0) {
                        Ok(Some(_)) => args[1].is_readable(),
                        _ => true,
                    }
                }
            },
            _ => true,
        }
    }

    /// Runs a command: `Get` and `Put` as above; the server takes no other command.
    pub fn execute<'a>(cw: &'a CommandWrapper<'a>, table: &mut Table) -> (r: AppResult<(CommandInto, Vec<EventObj>)>)
        requires
            usize::BITS == 64,
            cw.spec_command() == CommandTypes::Get ==> arg_readable(args_of(*cw), 0),
            cw.spec_command() == CommandTypes::Put ==> set_readable(args_of(*cw)),
        ensures
            match cw.spec_command() {
                CommandTypes::Get => final(table)@ == old(table)@ && (match get_outcome(args_of(*cw), old(table)@) {
                    Ok(x) => r matches Ok((c, evs)) && answers(c, x) && evs@.len() == 0,
                    Err(e) => r == Err::<(CommandInto, Vec<EventObj>), AppError>(e),
                }),
                CommandTypes::Put => match set_outcome(args_of(*cw), old(table)@) {
                    Ok(t) => r matches Ok((c, evs)) && answers(c, ValueV::Bool(true)) && evs@.len() == 0
                        && final(table)@ == t,
                    Err(e) => r == Err::<(CommandInto, Vec<EventObj>), AppError>(e) && final(table)@ == old(table)@,
                },
                _ => r == Err::<(CommandInto, Vec<EventObj>), AppError>(AppError::InvalidCaommdnForServer)
                    && final(table)@ == old(table)@,
            },
    {
        match cw.command_type() {
            CommandTypes::Put => Self::set(cw, table),
            CommandTypes::Get => Self::get(cw, table),
            _ => Err(AppError::InvalidCaommdnForServer),
        }
    }
}


/// The bytes that answer a command with the value `x`: the `Result` code, the size of `x`
/// on the wire, its type code and its content.
pub open spec fn answer_bytes(x: ValueV) -> Seq<u8> {
    le_u16(command_code(CommandTypes::Result)) + le_u64(value_size(x) as u64) + le_u16(type_code(value_type(x)))
        + enc(x)
}

/// What a command with the argument bytes `args` gives on table `t`: the value it answers
/// and the table it leaves, or its error; `None` when reading an argument that it reads
/// would go past that argument's bytes.
pub open spec fn packet_outcome(cmd: CommandTypes, args: Seq<Seq<u8>>, t: TableV) -> Option<Result<(ValueV, TableV), AppError>> {
    match cmd {
        CommandTypes::Get => if !arg_readable(args, 0) {
            None
        } else {
            Some(
                match get_outcome(args, t) {
                    Ok(x) => Ok((x, t)),
                    Err(e) => Err(e),
                },
            )
        },
        CommandTypes::Put => if !set_readable(args) {
            None
        } else {
            Some(
                match set_outcome(args, t) {
                    Ok(t2) => Ok((ValueV::Bool(true), t2)),
                    Err(e) => Err(e),
                },
            )
        },
        _ => Some(Err(AppError::InvalidCaommdnForServer)),
    }
}

/// Handles one command packet: reads the command out of `packet`, runs it on `table`, and
/// gives the bytes of the answer and the events to send. `None` where the packet, one of
/// the arguments that the command reads, or the answer does not fit: a packet or argument
/// that ends before what it announces, or an answer larger than a `usize` can count.
pub fn handle_packet(packet: &[u8], table: &mut Table) -> (r: Option<AppResult<(Vec<u8>, Vec<EventObj>)>>)
    requires
        usize::BITS == 64,
    ensures
        match parse_command(packet@) {
            Decoded::Truncated => r is None && final(table)@ == old(table)@,
            Decoded::Failed(e) => r == Some(Err::<(Vec<u8>, Vec<EventObj>), AppError>(e)) && final(table)@ == old(table)@,
            Decoded::Done((cmd, args)) => match packet_outcome(cmd, args, old(table)@) {
                None => r is None && final(table)@ == old(table)@,
                Some(Err(e)) => r == Some(Err::<(Vec<u8>, Vec<EventObj>), AppError>(e)) && final(table)@ == old(table)@,
                Some(Ok((x, t2))) => final(table)@ == t2 && if 10 + value_size(x) <= usize::MAX {
                    r matches Some(Ok((b, evs))) && b@ == answer_bytes(x) && evs@.len() == 0
                } else {
                    r is None
                },
            },
        },
{
    if !command_readable(packet) {
        return None;
    }
    let cw = match CommandWrapper::new(packet) {
        Ok(cw) => cw,
        Err(e) => {
            return Some(Err(e));
        },
    };
    if !Executor::readable(&cw) {
        return None;
    }
    let (result, events) = match Executor::execute(&cw, table) {
        Ok(x) => x,
        Err(e) => {
            return Some(Err(e));
        },
    };
    proof {
        lemma_one_arg_writes(result);
    }
    if result.size_checked().is_none() {
        return None;
    }
    let bytes = match crate::wire::serializer::Serializer::serialize(&result) {
        Ok(b) => b,
        Err(e) => {
            return Some(Err(e));
        },
    };
    proof {
        let x = result.args@[0].content@;
        assert(data_image(result.args@[0]) == le_u16(type_code(value_type(x))) + enc(x));
        assert(bytes@ =~= answer_bytes(x));
    }
    Some(Ok((bytes, events)))
}

/// Read after write through the protocol: after a `Put` command stores a value `w` that is
/// neither a table nor an array at a key path `p`, a `Get` command naming the same path
/// answers `w`, unless the store was stopped by a key on the way that holds something other
/// than a table.
pub proof fn law_get_after_put(
    put: Seq<Seq<u8>>,
    get: Seq<Seq<u8>>,
    t: TableV,
    p: Seq<Seq<char>>,
    w: ValueV,
)
    requires
        wf_table(t),
        put.len() >= 2,
        get.len() > 0,
        arg_value(put, 0) is Done,
        path_of(arg_value(put, 0)->Done_0) == Some(p),
        arg_value(put, 1) == Decoded::Done(w),
        arg_value(get, 0) is Done,
        path_of(arg_value(get, 0)->Done_0) == Some(p),
        p.len() > 0,
        !set_blocked(t, p),
        is_scalar(w),
    ensures
        set_outcome(put, t) == Ok::<TableV, AppError>(table_set(t, p, w)),
        get_outcome(get, table_set(t, p, w)) == Ok::<ValueV, AppError>(w),
{
    law_get_after_set(t, p, w);
}


/// A string argument names the one key made of that string: after a `Put` whose first
/// argument is the string `s` stores `w`, the table has the key `s`, and a `Get` whose
/// first argument is the same string answers `w`, with only the paths of its tables changed
/// (a stored table or array is moved below `s`).
pub proof fn law_string_key_put_get(put: Seq<Seq<u8>>, get: Seq<Seq<u8>>, t: TableV, s: Seq<char>, w: ValueV)
    requires
        wf_table(t),
        put.len() >= 2,
        get.len() > 0,
        arg_value(put, 0) == Decoded::Done(ValueV::String(s)),
        arg_value(put, 1) == Decoded::Done(w),
        arg_value(get, 0) == Decoded::Done(ValueV::String(s)),
    ensures
        set_outcome(put, t) is Ok,
        lookup(set_outcome(put, t)->Ok_0, s) is Some,
        get_outcome(get, set_outcome(put, t)->Ok_0) is Ok,
        without_paths(get_outcome(get, set_outcome(put, t)->Ok_0)->Ok_0) == without_paths(w),
{
    let p = seq![s];
    assert(path_of(ValueV::String(s)) == Some(p));
    assert(!set_blocked(t, p));
    law_get_after_set_modulo_paths(t, p, w);
    let t2 = table_set(t, p, w);
    assert(table_get(t2, p) == lookup(t2, s));
}

} // verus!

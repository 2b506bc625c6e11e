//! Commands and values built to be sent: their sizes and their bytes.
use vstd::prelude::*;
use crate::error::AppResult;
use crate::wire::bytes::{le_u16, le_u64, put_u16, put_u64};
use crate::wire::types::{
    CommandTypes, DataTypes, Value, command_code, type_code, value_size, enc, value_type, write_at,
};

verus! {

/// A value to be sent, with the type code it is sent under.
#[derive(Debug)]
pub struct DataInto {
    pub content: Value,
    pub data_type: DataTypes,
}

/// A command to be sent: its command and its arguments.
#[derive(Debug)]
pub struct CommandInto {
    pub command: CommandTypes,
    pub args: Vec<DataInto>,
}

/// The bytes of an argument: its type code and the content of its value.
pub open spec fn data_image(d: DataInto) -> Seq<u8> {
    le_u16(type_code(d.data_type)) + enc(d.content@)
}

/// The room that the first `n` arguments take: each one's size and its bytes.
pub open spec fn args_size(args: Seq<DataInto>, n: int) -> nat
    decreases n,
{
    if n <= 0 || n > args.len() {
        0
    } else {
        args_size(args, n - 1) + 8 + value_size(args[n - 1].content@)
    }
}

/// The size of a command on the wire: its command code and its arguments.
pub open spec fn command_size(c: CommandInto) -> nat {
    2 + args_size(c.args@, c.args@.len() as int)
}

/// `buf` with `bytes` written over it from position `at` on.
pub open spec fn overwrite(buf: Seq<u8>, at: int, bytes: Seq<u8>) -> Seq<u8> {
    buf.take(at) + bytes + buf.skip(at + bytes.len())
}

/// What writing a command with code `code` into `buf` leaves there after its first `k`
/// arguments: the code at the start, then for argument `i` its size at `2 + 8 * i` and its
/// bytes right after. Each argument starts where the previous one's size ended, so a later
/// argument overwrites part of the earlier one.
pub open spec fn command_writes(buf: Seq<u8>, code: u16, args: Seq<DataInto>, k: int) -> Seq<u8>
    decreases k,
{
    if k <= 0 {
        overwrite(buf, 0, le_u16(code))
    } else {
        let b = command_writes(buf, code, args, k - 1);
        let at = 2 + 8 * (k - 1);
        overwrite(
            overwrite(b, at, le_u64(value_size(args[k - 1].content@) as u64)),
            at + 8,
            data_image(args[k - 1]),
        )
    }
}

/// A buffer of `n` bytes has room for every argument where the command writes it.
pub open spec fn command_fits(args: Seq<DataInto>, n: nat) -> bool {
    &&& n >= 2
    &&& forall|k: int| 0 <= k < args.len() ==> 2 + 8 * (k + 1) + value_size(#[trigger] args[k].content@) <= n
}

proof fn lemma_args_size_mono(args: Seq<DataInto>, k: int, n: int)
    requires
        0 <= k <= n <= args.len(),
    ensures
        args_size(args, k) <= args_size(args, n),
        k < n ==> args_size(args, k) + 8 + value_size(args[k].content@) <= args_size(args, n),
    decreases n - k,
{
    if k < n {
        lemma_args_size_mono(args, k, n - 1);
    }
}

proof fn lemma_args_size_lower(args: Seq<DataInto>, n: int)
    requires
        0 <= n <= args.len(),
    ensures
        args_size(args, n) >= 8 * n,
    decreases n,
{
    if n > 0 {
        lemma_args_size_lower(args, n - 1);
    }
}

/// A buffer of a command's own size has room for every argument where it is written.
pub proof fn lemma_command_fits(c: CommandInto)
    ensures
        command_fits(c.args@, command_size(c)),
{
    let args = c.args@;
    assert forall|k: int| 0 <= k < args.len() implies 2 + 8 * (k + 1) + value_size(#[trigger] args[k].content@) <= command_size(c) by {
        lemma_args_size_lower(args, k);
        lemma_args_size_mono(args, k, args.len() as int);
    }
}

impl DataInto {
    /// An argument with the given type code and value.
    pub fn new_raw(data_type: DataTypes, content: Value) -> (r: Self)
        ensures
            r.data_type == data_type,
            r.content == content,
    {
        DataInto { content, data_type }
    }

    /// The type code of the argument.
    pub fn data_type(&self) -> (r: &DataTypes)
        ensures
            *r == self.data_type,
    {
        &self.data_type
    }

    /// A copy of the argument's value.
    pub fn data(&self) -> (r: AppResult<Value>)
        ensures
            r matches Ok(v) && v@ == self.content@,
    {
        Ok(self.content.duplicate())
    }

    /// The size of the argument on the wire.
    pub fn size(&self) -> (r: usize)
        requires
            usize::BITS == 64,
            value_size(self.content@) <= usize::MAX,
        ensures
            r == value_size(self.content@),
    {
        self.content.size()
    }

    /// Writes the argument's type code and content at the start of `buf`.
    pub fn read_into(&self, buf: &mut [u8]) -> (r: AppResult<()>)
        requires
            usize::BITS == 64,
            value_size(self.content@) <= usize::MAX,
            old(buf)@.len() >= value_size(self.content@),
        ensures
            r is Ok,
            final(buf)@ == overwrite(old(buf)@, 0, data_image(*self)),
    {
        let mut bytes: Vec<u8> = Vec::new();
        put_u16(&mut bytes, self.data_type.code());
        self.content.encode_into(&mut bytes);
        write_at(buf, 0, bytes.as_slice());
        Ok(())
    }
}

impl CommandInto {
    /// A command with the given arguments.
    pub fn new_raw(command: CommandTypes, args: Vec<DataInto>) -> (r: Self)
        ensures
            r.command == command,
            r.args == args,
    {
        CommandInto { command, args }
    }

    /// The command.
    pub fn command_type(&self) -> (r: &CommandTypes)
        ensures
            *r == self.command,
    {
        &self.command
    }

    /// An iterator over the arguments, from the first one.
    pub fn args(&self) -> (r: ArgIterInto<'_>)
        ensures
            r.position() == 0,
            r.items() == self.args@,
    {
        ArgIterInto { index: 0, args: &self.args }
    }

    /// The size of the command on the wire.
    pub fn size(&self) -> (r: usize)
        requires
            usize::BITS == 64,
            command_size(*self) <= usize::MAX,
        ensures
            r == command_size(*self),
    {
        let ghost args = self.args@;
        let mut acc: usize = 2;
        let mut i: usize = 0;
        while i < self.args.len()
            invariant
                usize::BITS == 64,
                args == self.args@,
                i <= args.len(),
                acc == 2 + args_size(args, i as int),
                2 + args_size(args, args.len() as int) <= usize::MAX,
            decreases args.len() - i,
        {
            proof {
                lemma_args_size_mono(args, i as int, args.len() as int);
            }
            acc = acc + 8 + self.args[i].size();
            i = i + 1;
        }
        acc
    }

    /// The size of the command on the wire, or `None` when it does not fit in a `usize`.
    pub fn size_checked(&self) -> (r: Option<usize>)
        requires
            usize::BITS == 64,
        ensures
            r == if command_size(*self) <= usize::MAX {
                Some(command_size(*self) as usize)
            } else {
                None::<usize>
            },
    {
        let ghost args = self.args@;
        let mut acc: usize = 2;
        let mut i: usize = 0;
        while i < self.args.len()
            invariant
                usize::BITS == 64,
                args == self.args@,
                i <= args.len(),
                acc == 2 + args_size(args, i as int),
            decreases args.len() - i,
        {
            proof {
                lemma_args_size_mono(args, i as int, args.len() as int);
                lemma_args_size_mono(args, i + 1, args.len() as int);
            }
            let step = match self.args[i].content.size_checked() {
                Some(sz) => sz.checked_add(8),
                None => None,
            };
            match step {
                Some(x) => match acc.checked_add(x) {
                    Some(y) => {
                        acc = y;
                    },
                    None => {
                        return None;
                    },
                },
                None => {
                    return None;
                },
            }
            i = i + 1;
        }
        Some(acc)
    }

    /// Writes the command into `buf`: its code, then each argument's size and bytes (see
    /// [`command_writes`]).
    pub fn read_into(&self, buf: &mut [u8]) -> (r: AppResult<()>)
        requires
            usize::BITS == 64,
            command_size(*self) <= usize::MAX,
            command_fits(self.args@, old(buf)@.len()),
        ensures
            r is Ok,
            final(buf)@ == command_writes(old(buf)@, command_code(self.command), self.args@, self.args@.len() as int),
    {
        let ghost args = self.args@;
        let mut head: Vec<u8> = Vec::new();
        put_u16(&mut head, self.command.code());
        write_at(buf, 0, head.as_slice());
        let blen = buf.len();
        let mut ind: usize = 2;
        let mut i: usize = 0;
        while i < self.args.len()
            invariant
                usize::BITS == 64,
                args == self.args@,
                blen == old(buf)@.len(),
                i <= args.len(),
                ind == 2 + 8 * i,
                buf@.len() == old(buf)@.len(),
                command_fits(args, old(buf)@.len()),
                2 + args_size(args, args.len() as int) <= usize::MAX,
                buf@ == command_writes(old(buf)@, command_code(self.command), args, i as int),
            decreases args.len() - i,
        {
            proof {
                lemma_args_size_mono(args, i as int, args.len() as int);
            }
            let arg = &self.args[i];
            assert(2 + 8 * (i + 1) + value_size(args[i as int].content@) <= old(buf)@.len());
            let asize = arg.size();
            let mut len_bytes: Vec<u8> = Vec::new();
            put_u64(&mut len_bytes, asize as u64);
            let ghost b0 = buf@;
            write_at(buf, ind, len_bytes.as_slice());
            let ghost b1 = buf@;
            assert(b1 == overwrite(b0, ind as int, le_u64(value_size(args[i as int].content@) as u64)));
            ind = ind + 8;
            let mut image: Vec<u8> = Vec::new();
            put_u16(&mut image, arg.data_type.code());
            arg.content.encode_into(&mut image);
            assert(image@ == data_image(args[i as int]));
            write_at(buf, ind, image.as_slice());
            assert(buf@ == overwrite(b1, ind as int, data_image(args[i as int])));
            i = i + 1;
            assert(buf@ == command_writes(old(buf)@, command_code(self.command), args, i as int));
        }
        Ok(())
    }
}

/// Hands out the arguments of a command to be sent, one by one.
pub struct ArgIterInto<'a> {
    index: usize,
    args: &'a Vec<DataInto>,
}

impl<'a> ArgIterInto<'a> {
    /// How many arguments were asked for so far.
    pub closed spec fn position(&self) -> nat {
        self.index as nat
    }

    /// All the arguments.
    pub closed spec fn items(&self) -> Seq<DataInto> {
        self.args@
    }

    /// The next argument, if there is one.
    pub fn get(&mut self) -> (r: Option<&'a DataInto>)
        requires
            old(self).position() < usize::MAX,
        ensures
            final(self).position() == old(self).position() + 1,
            final(self).items() == old(self).items(),
            r == if old(self).position() < old(self).items().len() {
                Some(&old(self).items()[old(self).position() as int])
            } else {
                None::<&DataInto>
            },
    {
        let data = if self.index < self.args.len() {
            Some(&self.args[self.index])
        } else {
            None
        };
        self.index = self.index + 1;
        data
    }
}

/// Builds the commands that the server answers with.
pub struct CommGen;

impl CommGen {
    /// The answer that carries `val`: a `Result` command whose one argument is `val`, sent
    /// under its own type.
    pub fn result(val: Value) -> (r: CommandInto)
        ensures
            r.command == CommandTypes::Result,
            r.args@.len() == 1,
            r.args@[0].content == val,
            r.args@[0].data_type == value_type(val@),
    {
        let data_type = val.data_type();
        let mut args: Vec<DataInto> = Vec::new();
        args.push(DataInto { data_type, content: val });
        CommandInto { command: CommandTypes::Result, args }
    }
}

} // verus!

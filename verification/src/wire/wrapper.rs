//! Reading values and commands out of the bytes that arrive on the wire.
use vstd::prelude::*;
use vstd::utf8::{valid_utf8, decode_utf8, encode_utf8_decode_utf8};
use vstd::string::StringSliceAdditionalSpecFns;
use std::collections::VecDeque;
use crate::error::{AppError, AppResult};
use crate::wire::bytes::{u16_of, u32_of, u64_of, get_u16, get_u32, get_u64};
use crate::wire::types::{
    CommandTypes, DataTypes, Table, TableV, Value, ValueV, command_of_code, type_of_code,
    table_insert, strings_view, lemma_view_value,
};

verus! {

broadcast use lemma_view_value;

/// The outcome of reading something out of bytes: what was read, the error that the bytes
/// cause, or `Truncated` when the reading would go past their end.
pub enum Decoded<T> {
    Done(T),
    Failed(AppError),
    Truncated,
}

/// Reads the value of type `ty` out of its content `c` (the bytes after its type code).
pub open spec fn decode_value(ty: DataTypes, c: Seq<u8>) -> Decoded<ValueV>
    decreases c.len(), 1int, 0int,
{
    match ty {
        DataTypes::Null => Decoded::Done(ValueV::Null),
        DataTypes::Int64 => if c.len() < 8 {
            Decoded::Truncated
        } else {
            Decoded::Done(ValueV::Int64(u64_of(c) as i64))
        },
        DataTypes::Float64 => if c.len() < 8 {
            Decoded::Truncated
        } else {
            Decoded::Done(ValueV::Float64(u64_of(c)))
        },
        DataTypes::Bool => if c.len() < 1 {
            Decoded::Truncated
        } else {
            Decoded::Done(ValueV::Bool(c[0] == 1))
        },
        DataTypes::String => if valid_utf8(c) {
            Decoded::Done(ValueV::String(decode_utf8(c)))
        } else {
            Decoded::Failed(AppError::InvalidString)
        },
        DataTypes::Path => if c.len() < 2 {
            Decoded::Truncated
        } else {
            match decode_segments(c, 2, u16_of(c) as int) {
                Decoded::Done(segs) => Decoded::Done(ValueV::Path(segs)),
                Decoded::Failed(e) => Decoded::Failed(e),
                Decoded::Truncated => Decoded::Truncated,
            }
        },
        DataTypes::Table => if c.len() < 4 {
            Decoded::Truncated
        } else {
            match decode_entries(
                c,
                4,
                u32_of(c) as int,
                TableV { path: Seq::empty(), keys: Seq::empty(), vals: Seq::empty() },
            ) {
                Decoded::Done(t) => Decoded::Done(ValueV::Table(t)),
                Decoded::Failed(e) => Decoded::Failed(e),
                Decoded::Truncated => Decoded::Truncated,
            }
        },
        DataTypes::Array => Decoded::Failed(AppError::InvalidDataType),
    }
}

/// Reads `k` path segments out of `c` from byte `ind` on: each is an eight-byte length
/// and that many bytes of UTF-8.
pub open spec fn decode_segments(c: Seq<u8>, ind: int, k: int) -> Decoded<Seq<Seq<char>>>
    decreases k,
{
    if k <= 0 {
        Decoded::Done(Seq::empty())
    } else if ind + 8 > c.len() {
        Decoded::Truncated
    } else {
        let len = u64_of(c.subrange(ind, ind + 8)) as int;
        if ind + 8 + len > c.len() {
            Decoded::Truncated
        } else {
            let sb = c.subrange(ind + 8, ind + 8 + len);
            if !valid_utf8(sb) {
                Decoded::Failed(AppError::InvalidString)
            } else {
                match decode_segments(c, ind + 8 + len, k - 1) {
                    Decoded::Done(rest) => Decoded::Done(seq![decode_utf8(sb)] + rest),
                    Decoded::Failed(e) => Decoded::Failed(e),
                    Decoded::Truncated => Decoded::Truncated,
                }
            }
        }
    }
}

/// Reads `k` table entries out of `c` from byte `ind` on into the table `t`: each is the
/// key's eight-byte length, the key, the value's eight-byte length and the value (its type
/// code and content). A key read again replaces the earlier value.
pub open spec fn decode_entries(c: Seq<u8>, ind: int, k: int, t: TableV) -> Decoded<TableV>
    decreases c.len(), 0int, k,
{
    if k <= 0 {
        Decoded::Done(t)
    } else if ind < 0 || ind + 8 > c.len() {
        Decoded::Truncated
    } else {
        let key_len = u64_of(c.subrange(ind, ind + 8)) as int;
        let i1 = ind + 8;
        if i1 + key_len > c.len() {
            Decoded::Truncated
        } else {
            let kb = c.subrange(i1, i1 + key_len);
            if !valid_utf8(kb) {
                Decoded::Failed(AppError::InvalidString)
            } else {
                let i2 = i1 + key_len;
                if i2 + 8 > c.len() {
                    Decoded::Truncated
                } else {
                    let val_len = u64_of(c.subrange(i2, i2 + 8)) as int;
                    let i3 = i2 + 8;
                    if i3 + val_len > c.len() {
                        Decoded::Truncated
                    } else {
                        let vb = c.subrange(i3, i3 + val_len);
                        if vb.len() < 2 {
                            Decoded::Truncated
                        } else {
                            match type_of_code(u16_of(vb)) {
                                None => Decoded::Failed(AppError::InvalidDataType),
                                Some(ty) => match decode_value(ty, vb.subrange(2, vb.len() as int)) {
                                    Decoded::Done(v) => decode_entries(
                                        c,
                                        i3 + val_len,
                                        k - 1,
                                        table_insert(t, decode_utf8(kb), v),
                                    ),
                                    Decoded::Failed(e) => Decoded::Failed(e),
                                    Decoded::Truncated => Decoded::Truncated,
                                },
                            }
                        }
                    }
                }
            }
        }
    }
}

/// Reads the UTF-8 bytes as a string slice; `None` when they are not valid UTF-8.
///
/// Calls `std::str::from_utf8`; claims that it succeeds exactly on valid UTF-8 and that the
/// slice it gives holds the same bytes.
#[verifier::external_body]
pub(crate) fn str_from_utf8(v: &[u8]) -> (r: Option<&str>)
    ensures
        r is Some <==> valid_utf8(v@),
        r matches Some(s) ==> s.spec_bytes() == v@,
{
    std::str::from_utf8(v).ok()
}

/// Reads the bytes as a UTF-8 string.
pub fn string_from(v: &[u8]) -> (r: AppResult<String>)
    ensures
        match r {
            Ok(s) => valid_utf8(v@) && s@ == decode_utf8(v@),
            Err(e) => !valid_utf8(v@) && e == AppError::InvalidString,
        },
{
    match str_from_utf8(v) {
        Some(s) => {
            proof {
                encode_utf8_decode_utf8(s@);
            }
            Ok(s.to_owned())
        },
        None => Err(AppError::InvalidString),
    }
}

/// A value as it arrived: its type code and content, read when asked.
#[derive(Debug)]
pub struct DataWrapper<'a> {
    content: &'a [u8],
    data_type: DataTypes,
}

impl<'a> DataWrapper<'a> {
    #[verifier::type_invariant]
    spec fn inv(self) -> bool {
        self.content@.len() >= 2
    }

    /// The bytes of the value: its type code and its content.
    pub closed spec fn bytes(&self) -> Seq<u8> {
        self.content@
    }

    /// The type that the value's code names.
    pub closed spec fn spec_data_type(&self) -> DataTypes {
        self.data_type
    }

    /// The value's content, after its type code.
    pub open spec fn content_bytes(&self) -> Seq<u8> {
        self.bytes().subrange(2, self.bytes().len() as int)
    }

    /// Wraps the bytes of a value; refused when its type code names no type.
    pub fn new(buf: &'a [u8]) -> (r: AppResult<Self>)
        requires
            buf@.len() >= 2,
        ensures
            match type_of_code(u16_of(buf@)) {
                Some(t) => r matches Ok(w) && w.bytes() == buf@ && w.spec_data_type() == t,
                None => r == Err::<DataWrapper, AppError>(AppError::InvalidDataType),
            },
    {
        let data_type = DataTypes::new(buf)?;
        Ok(DataWrapper { data_type, content: buf })
    }

    /// The type of the value.
    pub fn data_type(&self) -> (r: &DataTypes)
        ensures
            *r == self.spec_data_type(),
    {
        &self.data_type
    }

    /// The size of the value on the wire.
    pub fn size(&self) -> (r: usize)
        ensures
            r == self.bytes().len(),
    {
        self.content.len()
    }

    /// Copies the value's bytes into `buf`, which must have their size.
    pub fn read_into(&self, buf: &mut [u8]) -> (r: AppResult<()>)
        ensures
            old(buf)@.len() == self.bytes().len() ==> r is Ok && final(buf)@ == self.bytes(),
            old(buf)@.len() != self.bytes().len() ==> r == Err::<(), AppError>(AppError::SizeCalculationIsInvalid)
                && final(buf)@ == old(buf)@,
    {
        if buf.len() == self.content.len() {
            crate::wire::types::write_at(buf, 0, self.content);
            assert(final(buf)@ =~= self.bytes());
            Ok(())
        } else {
            Err(AppError::SizeCalculationIsInvalid)
        }
    }

    /// Whether the value's bytes hold all that it announces, so that it can be read.
    pub fn is_readable(&self) -> (r: bool)
        requires
            usize::BITS == 64,
        ensures
            r == !(decode_value(self.spec_data_type(), self.content_bytes()) is Truncated),
    {
        proof {
            use_type_invariant(self);
        }
        let content = &self.content[2..self.content.len()];
        assert(content@ == self.content_bytes());
        match crate::wire::check::check_value(self.data_type, content) {
            Decoded::Truncated => false,
            _ => true,
        }
    }

    /// Reads the value out of its bytes.
    pub fn data(&self) -> (r: AppResult<Value>)
        requires
            usize::BITS == 64,
            !(decode_value(self.spec_data_type(), self.content_bytes()) is Truncated),
        ensures
            match decode_value(self.spec_data_type(), self.content_bytes()) {
                Decoded::Done(v) => r matches Ok(x) && x@ == v,
                Decoded::Failed(e) => r == Err::<Value, AppError>(e),
                Decoded::Truncated => false,
            },
        decreases self.bytes().len(),
    {
        proof {
            use_type_invariant(self);
        }
        let content = &self.content[2..self.content.len()];
        assert(content@ == self.content_bytes());
        match self.data_type {
            DataTypes::Null => Ok(Value::Null),
            DataTypes::Int64 => Ok(Value::Int64(get_u64(content, 0) as i64)),
            DataTypes::Float64 => Ok(Value::Float64(get_u64(content, 0))),
            DataTypes::Bool => Ok(Value::Bool(if content[0] == 1 { true } else { false })),
            DataTypes::String => Ok(Value::String(string_from(content)?)),
            DataTypes::Path => {
                let s_count = get_u16(content, 0);
                let clen = content.len();
                let ghost c = content@;
                let mut ind: usize = 2;
                let mut segments: VecDeque<String> = VecDeque::with_capacity(s_count as usize);
                let mut n: u16 = 0;
                while n < s_count
                    invariant
                        usize::BITS == 64,
                        c == content@,
                        c == self.content_bytes(),
                        self.spec_data_type() == DataTypes::Path,
                        clen == c.len(),
                        s_count == u16_of(c),
                        n <= s_count,
                        2 <= ind <= c.len(),
                        !(decode_segments(c, 2, s_count as int) is Truncated),
                        decode_segments(c, 2, s_count as int) == match decode_segments(c, ind as int, s_count - n) {
                            Decoded::Done(rest) => Decoded::Done(strings_view(segments@) + rest),
                            Decoded::Failed(e) => Decoded::Failed(e),
                            Decoded::Truncated => Decoded::Truncated,
                        },
                    decreases s_count - n,
                {
                    proof {
                        assert(!(decode_segments(c, ind as int, s_count - n) is Truncated));
                    }
                    let len = get_u64(content, ind);
                    assert(ind + 8 + len <= c.len());
                    let lenu = len as usize;
                    assert(content@.subrange(ind + 8, ind + 8 + lenu) == c.subrange(ind + 8, ind + 8 + len as int));
                    let val = string_from(&content[(ind + 8)..(ind + 8 + lenu)])?;
                    let ghost old_ind = ind as int;
                    let ghost old_segs = strings_view(segments@);
                    ind = ind + 8 + lenu;
                    segments.push_back(val);
                    n = n + 1;
                    proof {
                        let x = decode_utf8(c.subrange(old_ind + 8, old_ind + 8 + len as int));
                        assert(val@ == x);
                        assert(strings_view(segments@) =~= old_segs + seq![x]);
                        assert(decode_segments(c, old_ind, s_count - n + 1) == match decode_segments(c, ind as int, s_count - n) {
                            Decoded::Done(rest) => Decoded::Done(seq![x] + rest),
                            Decoded::Failed(e) => Decoded::Failed(e),
                            Decoded::Truncated => Decoded::Truncated,
                        });
                        assert forall|rest: Seq<Seq<char>>| old_segs + (seq![x] + rest) == strings_view(segments@) + rest by {
                            assert(old_segs + (seq![x] + rest) =~= strings_view(segments@) + rest);
                        }
                    }
                }
                proof {
                    assert(strings_view(segments@) + Seq::<Seq<char>>::empty() =~= strings_view(segments@));
                }
                Ok(Value::Path(segments))
            },
            DataTypes::Table => {
                let kv_count = get_u32(content, 0);
                let clen = content.len();
                let ghost c = content@;
                let mut ind: usize = 4;
                let root: VecDeque<String> = VecDeque::new();
                assert(strings_view(root@) =~= Seq::<Seq<char>>::empty());
                let mut table = Table::with_capacity(root, kv_count as usize);
                let ghost t0 = table@;
                assert(t0 == TableV { path: Seq::empty(), keys: Seq::empty(), vals: Seq::empty() });
                let mut n: u32 = 0;
                while n < kv_count
                    invariant
                        usize::BITS == 64,
                        c == content@,
                        c == self.content_bytes(),
                        self.spec_data_type() == DataTypes::Table,
                        t0 == (TableV { path: Seq::empty(), keys: Seq::empty(), vals: Seq::empty() }),
                        clen == c.len(),
                        c.len() < self.bytes().len(),
                        kv_count == u32_of(c),
                        n <= kv_count,
                        4 <= ind <= c.len(),
                        !(decode_entries(c, 4, kv_count as int, t0) is Truncated),
                        decode_entries(c, 4, kv_count as int, t0) == decode_entries(c, ind as int, kv_count - n, table@),
                    decreases kv_count - n,
                {
                    proof {
                        assert(!(decode_entries(c, ind as int, kv_count - n, table@) is Truncated));
                    }
                    let key_len64 = get_u64(content, ind);
                    assert(ind + 8 + key_len64 <= c.len());
                    let key_len = key_len64 as usize;
                    let ghost i0 = ind as int;
                    ind = ind + 8;
                    assert(content@.subrange(ind as int, ind + key_len) == c.subrange(i0 + 8, i0 + 8 + key_len64 as int));
                    let key = match string_from(&content[ind..(ind + key_len)]) {
                        Ok(k) => k,
                        Err(e) => {
                            assert(decode_entries(c, i0, kv_count - n, table@) == Decoded::<TableV>::Failed(AppError::InvalidString));
                            return Err(e);
                        },
                    };
                    ind = ind + key_len;
                    let val_len64 = get_u64(content, ind);
                    assert(ind + 8 + val_len64 <= c.len());
                    let val_len = val_len64 as usize;
                    ind = ind + 8;
                    let vb = &content[ind..(ind + val_len)];
                    assert(vb@ == c.subrange(i0 + 16 + key_len, i0 + 16 + key_len + val_len64 as int));
                    let val_wrapper = DataWrapper::new(vb)?;
                    ind = ind + val_len;
                    assert(val_wrapper.content_bytes() == vb@.subrange(2, vb@.len() as int));
                    let value = val_wrapper.data()?;
                    table.insert(key, value);
                    n = n + 1;
                }
                Ok(Value::Table(Box::new(table)))
            },
            DataTypes::Array => Err(AppError::InvalidDataType),
        }
    }
}

/// Splits the arguments of a command out of `c` from byte `ind` on: each is an eight-byte
/// length and that many bytes, which start with a type code.
pub open spec fn parse_args(c: Seq<u8>, ind: int) -> Decoded<Seq<Seq<u8>>>
    decreases c.len() - ind,
{
    if ind < 0 || ind >= c.len() {
        Decoded::Done(Seq::empty())
    } else if ind + 8 > c.len() {
        Decoded::Truncated
    } else {
        let len = u64_of(c.subrange(ind, ind + 8)) as int;
        if ind + 8 + len > c.len() {
            Decoded::Truncated
        } else {
            let arg = c.subrange(ind + 8, ind + 8 + len);
            if arg.len() < 2 {
                Decoded::Truncated
            } else if type_of_code(u16_of(arg)) is None {
                Decoded::Failed(AppError::InvalidDataType)
            } else {
                match parse_args(c, ind + 8 + len) {
                    Decoded::Done(rest) => Decoded::Done(seq![arg] + rest),
                    Decoded::Failed(e) => Decoded::Failed(e),
                    Decoded::Truncated => Decoded::Truncated,
                }
            }
        }
    }
}

/// Reads a command packet: its two-byte command code, then its arguments.
pub open spec fn parse_command(b: Seq<u8>) -> Decoded<(CommandTypes, Seq<Seq<u8>>)> {
    if b.len() < 2 {
        Decoded::Truncated
    } else {
        match command_of_code(u16_of(b)) {
            None => Decoded::Failed(AppError::InvalidCommandType),
            Some(cmd) => match parse_args(b.subrange(2, b.len() as int), 0) {
                Decoded::Done(args) => Decoded::Done((cmd, args)),
                Decoded::Failed(e) => Decoded::Failed(e),
                Decoded::Truncated => Decoded::Truncated,
            },
        }
    }
}

/// A command as it arrived: its bytes, its command, and its arguments, each read when asked.
#[derive(Debug)]
pub struct CommandWrapper<'a> {
    content: &'a [u8],
    command: CommandTypes,
    args: Vec<DataWrapper<'a>>,
}

/// The bytes of each argument.
pub open spec fn wrappers_bytes<'a>(args: Seq<DataWrapper<'a>>) -> Seq<Seq<u8>> {
    args.map_values(|w: DataWrapper<'a>| w.bytes())
}

impl<'a> CommandWrapper<'a> {
    /// Each argument's type is the one its code names.
    #[verifier::type_invariant]
    spec fn inv(self) -> bool {
        forall|a: int| 0 <= a < self.args@.len()
            ==> Some(#[trigger] self.args@[a].spec_data_type()) == type_of_code(u16_of(self.args@[a].bytes()))
    }

    /// The bytes of the command.
    pub closed spec fn bytes(&self) -> Seq<u8> {
        self.content@
    }

    /// The command.
    pub closed spec fn spec_command(&self) -> CommandTypes {
        self.command
    }

    /// The arguments.
    pub closed spec fn spec_args(&self) -> Seq<DataWrapper<'a>> {
        self.args@
    }

    /// Reads a command packet; refused when its command code or the type code of an
    /// argument names nothing.
    pub fn new(buf: &'a [u8]) -> (r: AppResult<Self>)
        requires
            usize::BITS == 64,
            !(parse_command(buf@) is Truncated),
        ensures
            match parse_command(buf@) {
                Decoded::Done((cmd, args)) => r matches Ok(w) && w.bytes() == buf@
                    && w.spec_command() == cmd && wrappers_bytes(w.spec_args()) == args
                    && forall|a: int| 0 <= a < args.len() ==> Some(#[trigger] w.spec_args()[a].spec_data_type()) == type_of_code(u16_of(args[a])),
                Decoded::Failed(e) => r == Err::<CommandWrapper, AppError>(e),
                Decoded::Truncated => false,
            },
    {
        let command = CommandTypes::new(buf)?;
        let content = &buf[2..buf.len()];
        let ghost c = content@;
        let clen = content.len();
        let mut args: Vec<DataWrapper<'a>> = Vec::with_capacity(command.arg_count() as usize);
        let mut ind: usize = 0;
        while ind < content.len()
            invariant
                usize::BITS == 64,
                c == content@,
                c == buf@.subrange(2, buf@.len() as int),
                clen == c.len(),
                buf@.len() >= 2,
                command_of_code(u16_of(buf@)) == Some(command),
                ind <= c.len(),
                !(parse_args(c, 0) is Truncated),
                forall|a: int| 0 <= a < args@.len() ==> Some(#[trigger] args@[a].spec_data_type()) == type_of_code(u16_of(args@[a].bytes())),
                parse_args(c, 0) == match parse_args(c, ind as int) {
                    Decoded::Done(rest) => Decoded::Done(wrappers_bytes(args@) + rest),
                    Decoded::Failed(e) => Decoded::Failed(e),
                    Decoded::Truncated => Decoded::Truncated,
                },
            decreases c.len() - ind,
        {
            let len64 = get_u64(content, ind);
            assert(ind + 8 + len64 <= c.len());
            let len = len64 as usize;
            let arg_content = &content[(ind + 8)..(ind + 8 + len)];
            assert(arg_content@ == c.subrange(ind + 8, ind + 8 + len64 as int));
            let w = DataWrapper::new(arg_content)?;
            let ghost old_args = wrappers_bytes(args@);
            args.push(w);
            ind = ind + 8 + len;
            proof {
                assert(wrappers_bytes(args@) =~= old_args + seq![arg_content@]);
                assert forall|rest: Seq<Seq<u8>>| old_args + (seq![arg_content@] + rest) == wrappers_bytes(args@) + rest by {
                    assert(old_args + (seq![arg_content@] + rest) =~= wrappers_bytes(args@) + rest);
                }
            }
        }
        assert(wrappers_bytes(args@) + Seq::<Seq<u8>>::empty() =~= wrappers_bytes(args@));
        Ok(CommandWrapper { args, command, content: buf })
    }

    /// The arguments.
    pub fn raw_args(&self) -> (r: &Vec<DataWrapper<'a>>)
        ensures
            r@ == self.spec_args(),
            forall|a: int| 0 <= a < r@.len() ==> Some(#[trigger] r@[a].spec_data_type()) == type_of_code(u16_of(r@[a].bytes())),
    {
        proof {
            use_type_invariant(self);
        }
        &self.args
    }

    /// An iterator over the arguments, from the first one.
    pub fn args(&'a self) -> (r: ArgIterWrapper<'a>)
        ensures
            r.position() == 0,
            r.items() == self.spec_args(),
    {
        ArgIterWrapper { index: 0, args: &self.args }
    }

    /// The command.
    pub fn command_type(&self) -> (r: &CommandTypes)
        ensures
            *r == self.spec_command(),
    {
        &self.command
    }

    /// The size of the command on the wire.
    pub fn size(&self) -> (r: usize)
        ensures
            r == self.bytes().len(),
    {
        self.content.len()
    }

    /// Copies the command's bytes into `buf`, which must have their size.
    pub fn read_into(&self, buf: &mut [u8]) -> (r: AppResult<()>)
        ensures
            old(buf)@.len() == self.bytes().len() ==> r is Ok && final(buf)@ == self.bytes(),
            old(buf)@.len() != self.bytes().len() ==> r == Err::<(), AppError>(AppError::SizeCalculationIsInvalid)
                && final(buf)@ == old(buf)@,
    {
        if buf.len() == self.content.len() {
            crate::wire::types::write_at(buf, 0, self.content);
            assert(final(buf)@ =~= self.bytes());
            Ok(())
        } else {
            Err(AppError::SizeCalculationIsInvalid)
        }
    }
}

/// Hands out the arguments of a command one by one.
pub struct ArgIterWrapper<'a> {
    index: usize,
    args: &'a Vec<DataWrapper<'a>>,
}

impl<'a> ArgIterWrapper<'a> {
    /// How many arguments were asked for so far.
    pub closed spec fn position(&self) -> nat {
        self.index as nat
    }

    /// All the arguments.
    pub closed spec fn items(&self) -> Seq<DataWrapper<'a>> {
        self.args@
    }

    /// The next argument, if there is one.
    pub fn get(&mut self) -> (r: Option<&'a DataWrapper<'a>>)
        requires
            old(self).position() < usize::MAX,
        ensures
            final(self).position() == old(self).position() + 1,
            final(self).items() == old(self).items(),
            r == if old(self).position() < old(self).items().len() {
                Some(&old(self).items()[old(self).position() as int])
            } else {
                None::<&DataWrapper>
            },
    {
        let data = if self.index < self.args.len() {
            Some(&self.args[self.index])
        } else {
            None
        };
        self.index = self.index + 1;
        data
    }
}

} // verus!

//! Command and data type codes, and the values that the binary protocol carries.
use vstd::prelude::*;
use vstd::utf8::encode_utf8;
use std::collections::VecDeque;
use crate::error::{AppError, AppResult};
use crate::wire::bytes::{le_u16, le_u32, le_u64, u16_of, get_u16, put_u16, put_u32, put_u64, put_bytes};

verus! {

broadcast use vstd::std_specs::vec::group_vec_axioms;

/// The commands of the binary protocol.
#[derive(Debug, PartialEq, Eq, Structural, Clone, Copy)]
pub enum CommandTypes {
    Get,
    Put,
    Result,
    Terminate,
}

/// The code that stands for a command on the wire.
pub open spec fn command_code(c: CommandTypes) -> u16 {
    match c {
        CommandTypes::Get => 0x0001,
        CommandTypes::Put => 0x0002,
        CommandTypes::Result => 0x0003,
        CommandTypes::Terminate => 0xffff,
    }
}

/// The command that a code stands for, if any.
pub open spec fn command_of_code(x: u16) -> Option<CommandTypes> {
    if x == 0x0001 {
        Some(CommandTypes::Get)
    } else if x == 0x0002 {
        Some(CommandTypes::Put)
    } else if x == 0x0003 {
        Some(CommandTypes::Result)
    } else if x == 0xffff {
        Some(CommandTypes::Terminate)
    } else {
        None
    }
}

/// The number of arguments that a command takes.
pub open spec fn command_arity(c: CommandTypes) -> u32 {
    match c {
        CommandTypes::Get => 1,
        CommandTypes::Put => 2,
        CommandTypes::Result => 1,
        CommandTypes::Terminate => 0,
    }
}

impl CommandTypes {
    /// Reads a command code from the first two bytes of `buf`.
    pub fn new(buf: &[u8]) -> (r: AppResult<CommandTypes>)
        requires
            buf@.len() >= 2,
        ensures
            r == match command_of_code(u16_of(buf@)) {
                Some(c) => Ok::<CommandTypes, AppError>(c),
                None => Err(AppError::InvalidCommandType),
            },
    {
        let x = get_u16(buf, 0);
        assert(buf@.subrange(0, 2) =~= seq![buf@[0], buf@[1]]);
        if x == 0x0001 {
            Ok(CommandTypes::Get)
        } else if x == 0x0002 {
            Ok(CommandTypes::Put)
        } else if x == 0x0003 {
            Ok(CommandTypes::Result)
        } else if x == 0xffff {
            Ok(CommandTypes::Terminate)
        } else {
            Err(AppError::InvalidCommandType)
        }
    }

    /// The number of arguments that the command takes.
    pub fn arg_count(&self) -> (r: u32)
        ensures
            r == command_arity(*self),
    {
        match self {
            CommandTypes::Get => 1,
            CommandTypes::Put => 2,
            CommandTypes::Result => 1,
            CommandTypes::Terminate => 0,
        }
    }

    /// The code of the command on the wire.
    pub fn code(&self) -> (r: u16)
        ensures
            r == command_code(*self),
    {
        match self {
            CommandTypes::Get => 0x0001,
            CommandTypes::Put => 0x0002,
            CommandTypes::Result => 0x0003,
            CommandTypes::Terminate => 0xffff,
        }
    }
}

/// The types of the values of the binary protocol.
#[derive(Debug, PartialEq, Eq, Structural, Clone, Copy)]
pub enum DataTypes {
    Null,
    String,
    Int64,
    Float64,
    Path,
    Table,
    Bool,
    Array,
}

/// The code that stands for a type on the wire.
pub open spec fn type_code(t: DataTypes) -> u16 {
    match t {
        DataTypes::Null => 0x0000,
        DataTypes::String => 0x0001,
        DataTypes::Int64 => 0x0002,
        DataTypes::Float64 => 0x0003,
        DataTypes::Path => 0x0004,
        DataTypes::Table => 0x0005,
        DataTypes::Bool => 0x0006,
        DataTypes::Array => 0x0007,
    }
}

/// The type that a code stands for, if any.
pub open spec fn type_of_code(x: u16) -> Option<DataTypes> {
    if x == 0 {
        Some(DataTypes::Null)
    } else if x == 1 {
        Some(DataTypes::String)
    } else if x == 2 {
        Some(DataTypes::Int64)
    } else if x == 3 {
        Some(DataTypes::Float64)
    } else if x == 4 {
        Some(DataTypes::Path)
    } else if x == 5 {
        Some(DataTypes::Table)
    } else if x == 6 {
        Some(DataTypes::Bool)
    } else if x == 7 {
        Some(DataTypes::Array)
    } else {
        None
    }
}

impl DataTypes {
    /// Reads a type code from the first two bytes of `buf`.
    pub fn new(buf: &[u8]) -> (r: AppResult<DataTypes>)
        requires
            buf@.len() >= 2,
        ensures
            r == match type_of_code(u16_of(buf@)) {
                Some(t) => Ok::<DataTypes, AppError>(t),
                None => Err(AppError::InvalidDataType),
            },
    {
        let x = get_u16(buf, 0);
        assert(buf@.subrange(0, 2) =~= seq![buf@[0], buf@[1]]);
        if x == 0 {
            Ok(DataTypes::Null)
        } else if x == 1 {
            Ok(DataTypes::String)
        } else if x == 2 {
            Ok(DataTypes::Int64)
        } else if x == 3 {
            Ok(DataTypes::Float64)
        } else if x == 4 {
            Ok(DataTypes::Path)
        } else if x == 5 {
            Ok(DataTypes::Table)
        } else if x == 6 {
            Ok(DataTypes::Bool)
        } else if x == 7 {
            Ok(DataTypes::Array)
        } else {
            Err(AppError::InvalidDataType)
        }
    }

    /// The code of the type on the wire.
    pub fn code(&self) -> (r: u16)
        ensures
            r == type_code(*self),
    {
        match self {
            DataTypes::Null => 0x0000,
            DataTypes::String => 0x0001,
            DataTypes::Int64 => 0x0002,
            DataTypes::Float64 => 0x0003,
            DataTypes::Path => 0x0004,
            DataTypes::Table => 0x0005,
            DataTypes::Bool => 0x0006,
            DataTypes::Array => 0x0007,
        }
    }
}

/// The kinds of packet.
#[derive(Debug, PartialEq, Eq, Structural, Clone, Copy)]
pub enum PacketTypes {
    Command,
    Data,
}

/// A value of the binary protocol. A float is held by its IEEE-754 bit pattern.
#[derive(Debug)]
pub enum Value {
    Null,
    String(String),
    Int64(i64),
    Float64(u64),
    Path(VecDeque<String>),
    Bool(bool),
    Table(Box<Table>),
    Array(Box<Vec<Value>>),
}

/// A table of the binary protocol: where it sits (its path from the root), and its keys,
/// each with its value. No key occurs twice; keys keep the order in which they came.
#[derive(Debug)]
pub struct Table {
    pub(crate) path: VecDeque<String>,
    pub(crate) keys: Vec<String>,
    pub(crate) vals: Vec<Value>,
}

/// The mathematical value of a [`Value`].
pub enum ValueV {
    Null,
    String(Seq<char>),
    Int64(i64),
    Float64(u64),
    Path(Seq<Seq<char>>),
    Bool(bool),
    Table(TableV),
    Array(Seq<ValueV>),
}

/// The mathematical value of a [`Table`].
pub struct TableV {
    pub path: Seq<Seq<char>>,
    pub keys: Seq<Seq<char>>,
    pub vals: Seq<ValueV>,
}

/// The characters of each string.
pub open spec fn strings_view(s: Seq<String>) -> Seq<Seq<char>> {
    s.map_values(|x: String| x@)
}

pub closed spec fn view_value(v: Value) -> ValueV
    decreases v, 0int,
{
    match v {
        Value::Null => ValueV::Null,
        Value::String(s) => ValueV::String(s@),
        Value::Int64(i) => ValueV::Int64(i),
        Value::Float64(f) => ValueV::Float64(f),
        Value::Path(p) => ValueV::Path(strings_view(p@)),
        Value::Bool(b) => ValueV::Bool(b),
        Value::Table(t) => ValueV::Table(
            TableV {
                path: strings_view(t.path@),
                keys: strings_view(t.keys@),
                vals: view_values(t.vals@, t.vals@.len() as int),
            },
        ),
        Value::Array(a) => ValueV::Array(view_values(a@, a@.len() as int)),
    }
}

/// The values of the first `n` of `vals`.
pub closed spec fn view_values(vals: Seq<Value>, n: int) -> Seq<ValueV>
    decreases vals, n,
{
    if n <= 0 || n > vals.len() {
        Seq::empty()
    } else {
        view_values(vals, n - 1).push(view_value(vals[n - 1]))
    }
}

/// The values of all of `vals`.
pub open spec fn values_view(vals: Seq<Value>) -> Seq<ValueV> {
    view_values(vals, vals.len() as int)
}

/// What each kind of value stands for.
pub broadcast proof fn lemma_view_value(v: Value)
    ensures
        #[trigger] v@ == match v {
            Value::Null => ValueV::Null,
            Value::String(s) => ValueV::String(s@),
            Value::Int64(i) => ValueV::Int64(i),
            Value::Float64(f) => ValueV::Float64(f),
            Value::Path(p) => ValueV::Path(strings_view(p@)),
            Value::Bool(b) => ValueV::Bool(b),
            Value::Table(t) => ValueV::Table(t@),
            Value::Array(a) => ValueV::Array(values_view(a@)),
        },
{
}

/// The values of the items, one by one.
pub proof fn lemma_values_view(vals: Seq<Value>)
    ensures
        values_view(vals).len() == vals.len(),
        forall|a: int| 0 <= a < vals.len() ==> #[trigger] values_view(vals)[a] == vals[a]@,
{
    lemma_values_prefix(vals, vals.len() as int);
}

impl View for Value {
    type V = ValueV;

    closed spec fn view(&self) -> ValueV {
        view_value(*self)
    }
}

impl Table {
    #[verifier::type_invariant]
    pub(crate) open spec fn inv(self) -> bool {
        &&& self.keys@.len() == self.vals@.len()
        &&& forall|a: int, c: int| 0 <= a < c < self.keys@.len() ==> self.keys@[a]@ != self.keys@[c]@
    }
}

impl View for Table {
    type V = TableV;

    closed spec fn view(&self) -> TableV {
        TableV {
            path: strings_view(self.path@),
            keys: strings_view(self.keys@),
            vals: view_values(self.vals@, self.vals@.len() as int),
        }
    }
}

/// What a table stands for, field by field.
pub(crate) proof fn lemma_table_view(t: Table)
    ensures
        t@ == (TableV { path: strings_view(t.path@), keys: strings_view(t.keys@), vals: values_view(t.vals@) }),
{
}

/// The UTF-8 bytes of a string.
pub open spec fn utf8(s: Seq<char>) -> Seq<u8> {
    encode_utf8(s)
}

/// The type of a value.
pub open spec fn value_type(v: ValueV) -> DataTypes {
    match v {
        ValueV::Null => DataTypes::Null,
        ValueV::String(_) => DataTypes::String,
        ValueV::Int64(_) => DataTypes::Int64,
        ValueV::Float64(_) => DataTypes::Float64,
        ValueV::Path(_) => DataTypes::Path,
        ValueV::Bool(_) => DataTypes::Bool,
        ValueV::Table(_) => DataTypes::Table,
        ValueV::Array(_) => DataTypes::Array,
    }
}

/// The segments of a path on the wire: each as its byte length (eight bytes) and its bytes.
pub open spec fn enc_segments(segs: Seq<Seq<char>>) -> Seq<u8>
    decreases segs.len(),
{
    if segs.len() == 0 {
        Seq::empty()
    } else {
        enc_segments(segs.drop_last()) + le_u64(utf8(segs.last()).len() as u64) + utf8(segs.last())
    }
}

/// The content of a value on the wire, after its two-byte type code.
///
/// Each length on the wire is a `usize` in its native width; the functions that write or
/// read lengths require `usize::BITS == 64`, where that width is the eight bytes written here.
pub open spec fn enc(v: ValueV) -> Seq<u8>
    decreases v, 0int,
{
    match v {
        ValueV::Null => Seq::empty(),
        ValueV::Bool(b) => seq![if b { 1u8 } else { 0u8 }],
        ValueV::Float64(x) => le_u64(x),
        ValueV::Int64(i) => le_u64(i as u64),
        ValueV::String(s) => utf8(s),
        ValueV::Path(segs) => le_u16(segs.len() as u16) + enc_segments(segs),
        ValueV::Table(t) => le_u32(t.keys.len() as u32) + enc_entries(t.keys, t.vals, t.vals.len() as int),
        ValueV::Array(items) => le_u32(items.len() as u32) + enc_items(items, items.len() as int),
    }
}

/// The first `n` entries of a table on the wire: the key's byte length, the key, the
/// value's size, its type code and its content.
pub open spec fn enc_entries(keys: Seq<Seq<char>>, vals: Seq<ValueV>, n: int) -> Seq<u8>
    decreases vals, n,
{
    if n <= 0 || n > vals.len() {
        Seq::empty()
    } else {
        enc_entries(keys, vals, n - 1) + le_u64(utf8(keys[n - 1]).len() as u64) + utf8(keys[n - 1])
            + le_u64((2 + enc(vals[n - 1]).len()) as u64) + le_u16(type_code(value_type(vals[n - 1])))
            + enc(vals[n - 1])
    }
}

/// The first `n` items of an array on the wire: each as its size, its type code and its content.
pub open spec fn enc_items(vals: Seq<ValueV>, n: int) -> Seq<u8>
    decreases vals, n,
{
    if n <= 0 || n > vals.len() {
        Seq::empty()
    } else {
        enc_items(vals, n - 1) + le_u64((2 + enc(vals[n - 1]).len()) as u64) + le_u16(
            type_code(value_type(vals[n - 1])),
        ) + enc(vals[n - 1])
    }
}

/// The size of a value on the wire: its type code and its content.
pub open spec fn value_size(v: ValueV) -> nat {
    2 + enc(v).len()
}

/// A buffer of `n` bytes takes the content of `v`: numbers and strings need the exact
/// size, the other values fit in any buffer that is large enough.
pub open spec fn buffer_fits(v: ValueV, n: nat) -> bool {
    match v {
        ValueV::Int64(_) | ValueV::Float64(_) | ValueV::String(_) => n == enc(v).len(),
        _ => n >= enc(v).len(),
    }
}

proof fn lemma_entries_len_mono(keys: Seq<Seq<char>>, vals: Seq<ValueV>, k: int, n: int)
    requires
        0 <= k <= n <= vals.len(),
    ensures
        enc_entries(keys, vals, k).len() <= enc_entries(keys, vals, n).len(),
    decreases n - k,
{
    if k < n {
        lemma_entries_len_mono(keys, vals, k, n - 1);
    }
}

proof fn lemma_items_len_mono(vals: Seq<ValueV>, k: int, n: int)
    requires
        0 <= k <= n <= vals.len(),
    ensures
        enc_items(vals, k).len() <= enc_items(vals, n).len(),
    decreases n - k,
{
    if k < n {
        lemma_items_len_mono(vals, k, n - 1);
    }
}

proof fn lemma_segments_prefix(segs: Seq<Seq<char>>, k: int, n: int)
    requires
        0 <= k <= n <= segs.len(),
    ensures
        enc_segments(segs.take(k)).len() <= enc_segments(segs.take(n)).len(),
    decreases n - k,
{
    if k < n {
        lemma_segments_prefix(segs, k, n - 1);
        assert(segs.take(n).drop_last() =~= segs.take(n - 1));
    }
}

pub(crate) proof fn lemma_values_prefix(vals: Seq<Value>, n: int)
    requires
        0 <= n <= vals.len(),
    ensures
        view_values(vals, n).len() == n,
        forall|a: int| 0 <= a < n ==> #[trigger] view_values(vals, n)[a] == view_value(vals[a]),
    decreases n,
{
    if n > 0 {
        lemma_values_prefix(vals, n - 1);
    }
}

impl Value {
    /// The type of the value.
    pub fn data_type(&self) -> (r: DataTypes)
        ensures
            r == value_type(self@),
    {
        match self {
            Value::Bool(_) => DataTypes::Bool,
            Value::Float64(_) => DataTypes::Float64,
            Value::Int64(_) => DataTypes::Int64,
            Value::Path(_) => DataTypes::Path,
            Value::String(_) => DataTypes::String,
            Value::Table(_) => DataTypes::Table,
            Value::Null => DataTypes::Null,
            Value::Array(_) => DataTypes::Array,
        }
    }
}

impl Value {
    /// The size of the value on the wire: its two-byte type code and its content.
    pub fn size(&self) -> (r: usize)
        requires
            usize::BITS == 64,
            value_size(self@) <= usize::MAX,
        ensures
            r == value_size(self@),
        decreases self, 1int,
    {
        match self {
            Value::Null => 2,
            Value::Bool(_) => 3,
            Value::Float64(_) => 10,
            Value::Int64(_) => 10,
            Value::Path(key) => {
                let ghost segs = strings_view(key@);
                let mut acc: usize = 0;
                let mut i: usize = 0;
                proof {
                    assert(segs.take(0) =~= Seq::<Seq<char>>::empty());
                    assert(segs.take(segs.len() as int) =~= segs);
                }
                while i < key.len()
                    invariant
                        usize::BITS == 64,
                        segs == strings_view(key@),
                        i <= key@.len(),
                        acc == enc_segments(segs.take(i as int)).len(),
                        4 + enc_segments(segs).len() <= usize::MAX,
                        segs.take(segs.len() as int) == segs,
                    decreases key@.len() - i,
                {
                    let l = key[i].as_str().as_bytes().len();
                    proof {
                        assert(segs.take(i + 1).drop_last() =~= segs.take(i as int));
                        assert(segs.take(i + 1).last() == key@[i as int]@);
                        lemma_segments_prefix(segs, i + 1, segs.len() as int);
                    }
                    acc = acc + 8 + l;
                    i = i + 1;
                }
                acc + 4
            },
            Value::String(s) => s.as_str().as_bytes().len() + 2,
            Value::Table(t) => t.byte_size() + 2,
            Value::Array(arr) => {
                let ghost vals = view_values(arr@, arr@.len() as int);
                let mut acc: usize = 0;
                let mut i: usize = 0;
                proof {
                    lemma_values_prefix(arr@, arr@.len() as int);
                }
                while i < arr.len()
                    invariant
                        usize::BITS == 64,
                        self is Array,
                        self->Array_0 == *arr,
                        vals == view_values(arr@, arr@.len() as int),
                        vals.len() == arr@.len(),
                        forall|a: int| 0 <= a < arr@.len() ==> #[trigger] vals[a] == view_value(arr@[a]),
                        i <= arr@.len(),
                        acc == enc_items(vals, i as int).len(),
                        6 + enc_items(vals, vals.len() as int).len() <= usize::MAX,
                    decreases arr@.len() - i,
                {
                    proof {
                        lemma_items_len_mono(vals, i + 1, vals.len() as int);
                        assert(decreases_to!(self => arr@[i as int]));
                    }
                    let sz = arr[i].size();
                    acc = acc + 8 + sz;
                    i = i + 1;
                }
                6 + acc
            },
        }
    }

    /// The size of the value on the wire, or `None` when it does not fit in a `usize`.
    pub fn size_checked(&self) -> (r: Option<usize>)
        requires
            usize::BITS == 64,
        ensures
            r == if value_size(self@) <= usize::MAX {
                Some(value_size(self@) as usize)
            } else {
                None::<usize>
            },
        decreases self, 1int,
    {
        match self {
            Value::Null => Some(2),
            Value::Bool(_) => Some(3),
            Value::Float64(_) => Some(10),
            Value::Int64(_) => Some(10),
            Value::Path(key) => {
                let ghost segs = strings_view(key@);
                let mut acc: usize = 0;
                let mut i: usize = 0;
                proof {
                    assert(segs.take(0) =~= Seq::<Seq<char>>::empty());
                    assert(segs.take(segs.len() as int) =~= segs);
                }
                while i < key.len()
                    invariant
                        usize::BITS == 64,
                        self is Path,
                        self->Path_0 == *key,
                        segs == strings_view(key@),
                        i <= key@.len(),
                        acc == enc_segments(segs.take(i as int)).len(),
                        segs.take(segs.len() as int) == segs,
                    decreases key@.len() - i,
                {
                    let l = key[i].as_str().as_bytes().len();
                    proof {
                        assert(segs.take(i + 1).drop_last() =~= segs.take(i as int));
                        assert(segs.take(i + 1).last() == key@[i as int]@);
                        lemma_segments_prefix(segs, i + 1, segs.len() as int);
                    }
                    match acc.checked_add(8) {
                        Some(a) => match a.checked_add(l) {
                            Some(b) => {
                                acc = b;
                            },
                            None => {
                                return None;
                            },
                        },
                        None => {
                            return None;
                        },
                    }
                    i = i + 1;
                }
                acc.checked_add(4)
            },
            Value::String(s) => s.as_str().as_bytes().len().checked_add(2),
            Value::Table(t) => match t.byte_size_checked() {
                Some(b) => b.checked_add(2),
                None => None,
            },
            Value::Array(arr) => {
                let ghost vals = view_values(arr@, arr@.len() as int);
                let mut acc: usize = 0;
                let mut i: usize = 0;
                proof {
                    lemma_values_prefix(arr@, arr@.len() as int);
                }
                while i < arr.len()
                    invariant
                        usize::BITS == 64,
                        self is Array,
                        self->Array_0 == *arr,
                        vals == view_values(arr@, arr@.len() as int),
                        vals.len() == arr@.len(),
                        forall|a: int| 0 <= a < arr@.len() ==> #[trigger] vals[a] == view_value(arr@[a]),
                        i <= arr@.len(),
                        acc == enc_items(vals, i as int).len(),
                    decreases arr@.len() - i,
                {
                    proof {
                        lemma_items_len_mono(vals, i + 1, vals.len() as int);
                        assert(decreases_to!(self => arr@[i as int]));
                    }
                    match arr[i].size_checked() {
                        Some(sz) => match acc.checked_add(8) {
                            Some(a) => match a.checked_add(sz) {
                                Some(b) => {
                                    acc = b;
                                },
                                None => {
                                    return None;
                                },
                            },
                            None => {
                                return None;
                            },
                        },
                        None => {
                            return None;
                        },
                    }
                    i = i + 1;
                }
                acc.checked_add(6)
            },
        }
    }

    /// Appends the content of the value on the wire (without its type code) to `out`.
    pub fn encode_into(&self, out: &mut Vec<u8>)
        requires
            usize::BITS == 64,
            value_size(self@) <= usize::MAX,
        ensures
            final(out)@ == old(out)@ + enc(self@),
        decreases self, 1int,
    {
        match self {
            Value::Null => {
                assert(old(out)@ + enc(self@) =~= old(out)@);
            },
            Value::Bool(v) => {
                out.push(if *v { 1u8 } else { 0u8 });
                assert(final(out)@ =~= old(out)@ + enc(self@));
            },
            Value::Float64(v) => {
                put_u64(out, *v);
            },
            Value::Int64(v) => {
                put_u64(out, *v as u64);
            },
            Value::String(s) => {
                put_bytes(out, s.as_str().as_bytes());
            },
            Value::Path(key) => {
                let ghost segs = strings_view(key@);
                put_u16(out, key.len() as u16);
                let ghost start = out@;
                let mut i: usize = 0;
                proof {
                    assert(segs.take(0) =~= Seq::<Seq<char>>::empty());
                    assert(start =~= start + enc_segments(segs.take(0)));
                }
                while i < key.len()
                    invariant
                        usize::BITS == 64,
                        segs == strings_view(key@),
                        i <= key@.len(),
                        out@ == start + enc_segments(segs.take(i as int)),
                    decreases key@.len() - i,
                {
                    let seg = key[i].as_str().as_bytes();
                    proof {
                        assert(segs.take(i + 1).drop_last() =~= segs.take(i as int));
                        assert(segs.take(i + 1).last() == key@[i as int]@);
                    }
                    put_u64(out, seg.len() as u64);
                    put_bytes(out, seg);
                    i = i + 1;
                    assert(out@ =~= start + enc_segments(segs.take(i as int)));
                }
                assert(segs.take(segs.len() as int) =~= segs);
                assert(final(out)@ =~= old(out)@ + enc(self@));
            },
            Value::Table(t) => {
                t.encode_entries(out);
            },
            Value::Array(arr) => {
                let ghost vals = view_values(arr@, arr@.len() as int);
                put_u32(out, arr.len() as u32);
                let ghost start = out@;
                proof {
                    lemma_values_prefix(arr@, arr@.len() as int);
                    assert(start =~= start + enc_items(vals, 0));
                }
                let mut i: usize = 0;
                while i < arr.len()
                    invariant
                        usize::BITS == 64,
                        self is Array,
                        self->Array_0 == *arr,
                        vals == view_values(arr@, arr@.len() as int),
                        vals.len() == arr@.len(),
                        forall|a: int| 0 <= a < arr@.len() ==> #[trigger] vals[a] == view_value(arr@[a]),
                        i <= arr@.len(),
                        out@ == start + enc_items(vals, i as int),
                        6 + enc_items(vals, vals.len() as int).len() <= usize::MAX,
                    decreases arr@.len() - i,
                {
                    proof {
                        lemma_items_len_mono(vals, i + 1, vals.len() as int);
                        assert(decreases_to!(self => arr@[i as int]));
                    }
                    let item = &arr[i];
                    let sz = item.size();
                    put_u64(out, sz as u64);
                    put_u16(out, item.data_type().code());
                    item.encode_into(out);
                    i = i + 1;
                    assert(out@ =~= start + enc_items(vals, i as int));
                }
                assert(final(out)@ =~= old(out)@ + enc(self@));
            },
        }
    }

    /// Writes the content of the value (without its type code) at the start of `buf`.
    pub fn read_into(&self, buf: &mut [u8]) -> (r: AppResult<()>)
        requires
            usize::BITS == 64,
            value_size(self@) <= usize::MAX,
            buffer_fits(self@, old(buf)@.len()),
        ensures
            r is Ok,
            final(buf)@ == enc(self@) + old(buf)@.skip(enc(self@).len() as int),
    {
        let mut bytes: Vec<u8> = Vec::new();
        self.encode_into(&mut bytes);
        write_at(buf, 0, bytes.as_slice());
        assert(old(buf)@.take(0) + bytes@ =~= bytes@);
        Ok(())
    }
}

/// Copies `bytes` into `buf` from position `at` on.
pub fn write_at(buf: &mut [u8], at: usize, bytes: &[u8])
    requires
        at + bytes@.len() <= old(buf)@.len(),
    ensures
        final(buf)@ == old(buf)@.take(at as int) + bytes@ + old(buf)@.skip(at + bytes@.len()),
{
    let n = buf.len();
    let mut a: usize = 0;
    while a < bytes.len()
        invariant
            a <= bytes@.len(),
            n == old(buf)@.len(),
            at + bytes@.len() <= old(buf)@.len(),
            buf@.len() == old(buf)@.len(),
            buf@ == old(buf)@.take(at as int) + bytes@.take(a as int) + old(buf)@.skip(at + a),
        decreases bytes@.len() - a,
    {
        buf[at + a] = bytes[a];
        a = a + 1;
        assert(buf@ =~= old(buf)@.take(at as int) + bytes@.take(a as int) + old(buf)@.skip(at + a));
    }
    assert(bytes@.take(a as int) =~= bytes@);
}

impl Table {
    /// The size of the table's content on the wire: its four-byte key count and its entries.
    pub fn byte_size(&self) -> (r: usize)
        requires
            usize::BITS == 64,
            4 + enc_entries(self@.keys, self@.vals, self@.vals.len() as int).len() <= usize::MAX,
        ensures
            r == 4 + enc_entries(self@.keys, self@.vals, self@.vals.len() as int).len(),
        decreases self, 0int,
    {
        proof {
            use_type_invariant(self);
            lemma_values_prefix(self.vals@, self.vals@.len() as int);
        }
        let ghost keys = self@.keys;
        let ghost vals = self@.vals;
        let mut acc: usize = 0;
        let mut i: usize = 0;
        while i < self.vals.len()
            invariant
                usize::BITS == 64,
                keys == self@.keys,
                vals == self@.vals,
                self.keys@.len() == self.vals@.len(),
                vals.len() == self.vals@.len(),
                forall|a: int| 0 <= a < self.vals@.len() ==> #[trigger] vals[a] == view_value(self.vals@[a]),
                i <= self.vals@.len(),
                acc == enc_entries(keys, vals, i as int).len(),
                4 + enc_entries(keys, vals, vals.len() as int).len() <= usize::MAX,
            decreases self.vals@.len() - i,
        {
            proof {
                lemma_entries_len_mono(keys, vals, i + 1, vals.len() as int);
                assert(decreases_to!(self => self.vals@[i as int]));
                assert(keys[i as int] == self.keys@[i as int]@);
            }
            let kl = self.keys[i].as_str().as_bytes().len();
            let vs = self.vals[i].size();
            acc = acc + 16 + kl + vs;
            i = i + 1;
        }
        4 + acc
    }

    /// The size of the table's content on the wire, or `None` when it does not fit in a
    /// `usize`.
    pub fn byte_size_checked(&self) -> (r: Option<usize>)
        requires
            usize::BITS == 64,
        ensures
            r == if 4 + enc_entries(self@.keys, self@.vals, self@.vals.len() as int).len() <= usize::MAX {
                Some((4 + enc_entries(self@.keys, self@.vals, self@.vals.len() as int).len()) as usize)
            } else {
                None::<usize>
            },
        decreases self, 0int,
    {
        proof {
            use_type_invariant(self);
            lemma_values_prefix(self.vals@, self.vals@.len() as int);
        }
        let ghost keys = self@.keys;
        let ghost vals = self@.vals;
        let mut acc: usize = 0;
        let mut i: usize = 0;
        while i < self.vals.len()
            invariant
                usize::BITS == 64,
                keys == self@.keys,
                vals == self@.vals,
                self.keys@.len() == self.vals@.len(),
                vals.len() == self.vals@.len(),
                forall|a: int| 0 <= a < self.vals@.len() ==> #[trigger] vals[a] == view_value(self.vals@[a]),
                i <= self.vals@.len(),
                acc == enc_entries(keys, vals, i as int).len(),
            decreases self.vals@.len() - i,
        {
            proof {
                lemma_entries_len_mono(keys, vals, i + 1, vals.len() as int);
                assert(decreases_to!(self => self.vals@[i as int]));
                assert(keys[i as int] == self.keys@[i as int]@);
            }
            let kl = self.keys[i].as_str().as_bytes().len();
            let step = match self.vals[i].size_checked() {
                Some(vs) => match kl.checked_add(vs) {
                    Some(x) => x.checked_add(16),
                    None => None,
                },
                None => None,
            };
            match step {
                Some(x) => match acc.checked_add(x) {
                    Some(y) => {
                        acc = y;
                    },
                    None => {
                        return None;
                    },
                },
                None => {
                    return None;
                },
            }
            i = i + 1;
        }
        acc.checked_add(4)
    }

    /// Appends the table's content on the wire: the key count and each entry.
    fn encode_entries(&self, out: &mut Vec<u8>)
        requires
            usize::BITS == 64,
            6 + enc_entries(self@.keys, self@.vals, self@.vals.len() as int).len() <= usize::MAX,
        ensures
            final(out)@ == old(out)@ + le_u32(self@.keys.len() as u32) + enc_entries(self@.keys, self@.vals, self@.vals.len() as int),
        decreases self, 0int,
    {
        proof {
            use_type_invariant(self);
            lemma_values_prefix(self.vals@, self.vals@.len() as int);
        }
        let ghost keys = self@.keys;
        let ghost vals = self@.vals;
        put_u32(out, self.keys.len() as u32);
        let ghost start = out@;
        assert(start =~= start + enc_entries(keys, vals, 0));
        let mut i: usize = 0;
        while i < self.vals.len()
            invariant
                usize::BITS == 64,
                keys == self@.keys,
                vals == self@.vals,
                self.keys@.len() == self.vals@.len(),
                vals.len() == self.vals@.len(),
                forall|a: int| 0 <= a < self.vals@.len() ==> #[trigger] vals[a] == view_value(self.vals@[a]),
                i <= self.vals@.len(),
                out@ == start + enc_entries(keys, vals, i as int),
                6 + enc_entries(keys, vals, vals.len() as int).len() <= usize::MAX,
            decreases self.vals@.len() - i,
        {
            proof {
                lemma_entries_len_mono(keys, vals, i + 1, vals.len() as int);
                assert(decreases_to!(self => self.vals@[i as int]));
                assert(keys[i as int] == self.keys@[i as int]@);
            }
            let key = self.keys[i].as_str().as_bytes();
            let item = &self.vals[i];
            put_u64(out, key.len() as u64);
            put_bytes(out, key);
            let sz = item.size();
            put_u64(out, sz as u64);
            put_u16(out, item.data_type().code());
            item.encode_into(out);
            i = i + 1;
            assert(out@ =~= start + enc_entries(keys, vals, i as int));
        }
    }
}

/// The position of the key `k` among `keys`, counting from `n - 1` down; `-1` when absent.
pub open spec fn key_index(keys: Seq<Seq<char>>, k: Seq<char>, n: int) -> int
    decreases n,
{
    if n <= 0 {
        -1
    } else if keys[n - 1] == k {
        n - 1
    } else {
        key_index(keys, k, n - 1)
    }
}

/// The table `t` with `v` stored under `k`: the value of an existing key is replaced,
/// a new key goes last.
pub open spec fn table_insert(t: TableV, k: Seq<char>, v: ValueV) -> TableV {
    let a = key_index(t.keys, k, t.keys.len() as int);
    if a >= 0 {
        TableV { vals: t.vals.update(a, v), ..t }
    } else {
        TableV { keys: t.keys.push(k), vals: t.vals.push(v), ..t }
    }
}

pub(crate) proof fn lemma_key_index(keys: Seq<Seq<char>>, k: Seq<char>, n: int)
    requires
        0 <= n <= keys.len(),
    ensures
        -1 <= key_index(keys, k, n) < n,
        key_index(keys, k, n) >= 0 ==> keys[key_index(keys, k, n)] == k,
        key_index(keys, k, n) < 0 ==> forall|a: int| 0 <= a < n ==> keys[a] != k,
    decreases n,
{
    if n > 0 {
        lemma_key_index(keys, k, n - 1);
    }
}

pub(crate) proof fn lemma_values_update(vals: Seq<Value>, a: int, v: Value)
    requires
        0 <= a < vals.len(),
    ensures
        view_values(vals.update(a, v), vals.len() as int) == view_values(vals, vals.len() as int).update(a, view_value(v)),
{
    lemma_values_prefix(vals, vals.len() as int);
    lemma_values_prefix(vals.update(a, v), vals.len() as int);
    assert(view_values(vals.update(a, v), vals.len() as int) =~= view_values(vals, vals.len() as int).update(a, view_value(v)));
}

proof fn lemma_values_push(vals: Seq<Value>, v: Value)
    ensures
        view_values(vals.push(v), (vals.len() + 1) as int) == view_values(vals, vals.len() as int).push(view_value(v)),
{
    lemma_values_prefix(vals, vals.len() as int);
    lemma_values_prefix(vals.push(v), (vals.len() + 1) as int);
    assert(view_values(vals.push(v), (vals.len() + 1) as int) =~= view_values(vals, vals.len() as int).push(view_value(v)));
}

impl Table {
    /// An empty table at `path`.
    pub fn new(path: VecDeque<String>) -> (t: Self)
        ensures
            t@ == (TableV { path: strings_view(path@), keys: Seq::empty(), vals: Seq::empty() }),
    {
        let t = Table { path, keys: Vec::new(), vals: Vec::new() };
        assert(t@.keys =~= Seq::<Seq<char>>::empty());
        assert(t@.vals =~= Seq::<ValueV>::empty());
        t
    }

    /// An empty table at `path`, with room for `capacity` keys.
    pub fn with_capacity(path: VecDeque<String>, capacity: usize) -> (t: Self)
        ensures
            t@ == (TableV { path: strings_view(path@), keys: Seq::empty(), vals: Seq::empty() }),
    {
        let t = Table { path, keys: Vec::with_capacity(capacity), vals: Vec::with_capacity(capacity) };
        assert(t@.keys =~= Seq::<Seq<char>>::empty());
        assert(t@.vals =~= Seq::<ValueV>::empty());
        t
    }

    /// The number of keys.
    pub fn key_count(&self) -> (r: usize)
        ensures
            r == self@.keys.len(),
            r == self@.vals.len(),
    {
        proof {
            use_type_invariant(self);
            lemma_values_prefix(self.vals@, self.vals@.len() as int);
        }
        self.keys.len()
    }

    /// Stores `value` under `key`: replaces the value of an existing key, or adds the key last.
    pub fn insert(&mut self, key: String, value: Value)
        ensures
            final(self)@ == table_insert(old(self)@, key@, value@),
    {
        proof {
            use_type_invariant(&*self);
            lemma_values_prefix(self.vals@, self.vals@.len() as int);
            lemma_key_index(self@.keys, key@, self@.keys.len() as int);
        }
        let ghost t0 = self@;
        let mut whole = Table { path: VecDeque::new(), keys: Vec::new(), vals: Vec::new() };
        std::mem::swap(self, &mut whole);
        proof {
            use_type_invariant(&whole);
        }
        let Table { path, mut keys, mut vals } = whole;
        let mut a: usize = keys.len();
        let mut found = false;
        while a > 0 && !found
            invariant
                a <= keys@.len(),
                keys@.len() == vals@.len(),
                strings_view(keys@) == t0.keys,
                key_index(t0.keys, key@, keys@.len() as int) == key_index(t0.keys, key@, a as int),
                found ==> 0 < a && t0.keys[a - 1] == key@,
            decreases a, if found { 0int } else { 1int },
        {
            if crate::path::str_eq(keys[a - 1].as_str(), key.as_str()) {
                found = true;
            } else {
                a = a - 1;
            }
        }
        if found {
            assert(key_index(t0.keys, key@, a as int) == a - 1);
            proof {
                lemma_values_update(vals@, a - 1, value);
            }
            vals.set(a - 1, value);
            *self = Table { path, keys, vals };
            assert(self@.keys =~= t0.keys);
        } else {
            assert(key_index(t0.keys, key@, 0) == -1);
            proof {
                lemma_values_push(vals@, value);
            }
            let ghost k0 = keys@;
            keys.push(key);
            vals.push(value);
            proof {
                assert forall|x: int, y: int| 0 <= x < y < keys@.len() implies keys@[x]@ != keys@[y]@ by {
                    if y == keys@.len() - 1 {
                        assert(t0.keys[x] == k0[x]@);
                    }
                }
            }
            *self = Table { path, keys, vals };
            assert(self@.keys =~= t0.keys.push(key@));
        }
    }
}

/// A copy of the strings of a path.
pub fn copy_path(p: &VecDeque<String>) -> (r: VecDeque<String>)
    ensures
        strings_view(r@) == strings_view(p@),
{
    let mut out: VecDeque<String> = VecDeque::new();
    let mut a: usize = 0;
    while a < p.len()
        invariant
            a <= p@.len(),
            out@.len() == a,
            forall|c: int| 0 <= c < a ==> #[trigger] out@[c] == p@[c],
        decreases p@.len() - a,
    {
        out.push_back(p[a].clone());
        a = a + 1;
    }
    assert(out@ =~= p@);
    out
}

impl Value {
    /// A copy of this value, tables and arrays included.
    pub fn duplicate(&self) -> (r: Value)
        ensures
            r@ == self@,
        decreases self, 1int,
    {
        match self {
            Value::Null => Value::Null,
            Value::String(x) => Value::String(x.clone()),
            Value::Int64(i) => Value::Int64(*i),
            Value::Float64(f) => Value::Float64(*f),
            Value::Path(p) => Value::Path(copy_path(p)),
            Value::Bool(b) => Value::Bool(*b),
            Value::Table(t) => Value::Table(Box::new(t.duplicate())),
            Value::Array(v) => {
                let mut out: Vec<Value> = Vec::new();
                let mut a: usize = 0;
                while a < v.len()
                    invariant
                        a <= v@.len(),
                        self is Array,
                        self->Array_0 == *v,
                        out@.len() == a,
                        forall|c: int| 0 <= c < a ==> view_value(#[trigger] out@[c]) == view_value(v@[c]),
                    decreases v@.len() - a,
                {
                    proof {
                        assert(decreases_to!(self => v@[a as int]));
                    }
                    out.push(v[a].duplicate());
                    a = a + 1;
                }
                proof {
                    lemma_values_prefix(out@, a as int);
                    lemma_values_prefix(v@, a as int);
                    assert(view_values(out@, a as int) =~= view_values(v@, a as int));
                }
                Value::Array(Box::new(out))
            },
        }
    }
}

impl Table {
    /// A copy of this table, nested tables included.
    pub fn duplicate(&self) -> (r: Table)
        ensures
            r@ == self@,
        decreases self, 0int,
    {
        proof {
            use_type_invariant(self);
        }
        let path = copy_path(&self.path);
        let mut keys: Vec<String> = Vec::new();
        let mut vals: Vec<Value> = Vec::new();
        let mut a: usize = 0;
        while a < self.keys.len()
            invariant
                a <= self.keys@.len(),
                self.keys@.len() == self.vals@.len(),
                keys@.len() == a,
                vals@.len() == a,
                forall|c: int| 0 <= c < a ==> #[trigger] keys@[c] == self.keys@[c],
                forall|c: int| 0 <= c < a ==> view_value(#[trigger] vals@[c]) == view_value(self.vals@[c]),
            decreases self.keys@.len() - a,
        {
            proof {
                assert(decreases_to!(self => self.vals@[a as int]));
            }
            keys.push(self.keys[a].clone());
            vals.push(self.vals[a].duplicate());
            a = a + 1;
        }
        proof {
            lemma_values_prefix(vals@, a as int);
            lemma_values_prefix(self.vals@, a as int);
            assert(view_values(vals@, a as int) =~= view_values(self.vals@, a as int));
            assert(keys@ =~= self.keys@);
        }
        Table { path, keys, vals }
    }
}

impl Clone for Value {
    fn clone(&self) -> (r: Self)
        ensures
            r@ == self@,
    {
        self.duplicate()
    }
}

impl Clone for Table {
    fn clone(&self) -> (r: Self)
        ensures
            r@ == self@,
    {
        self.duplicate()
    }
}

} // verus!

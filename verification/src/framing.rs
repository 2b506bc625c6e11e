//! Frames on a connection: a four-byte length, then the message.
use vstd::prelude::*;
use crate::error::{AppResult, MyError};
use crate::wire::bytes::{le_u64, put_u64, put_bytes, u32_of, get_u32};
use crate::wire::into::{CommandInto, command_size, command_writes};
use crate::wire::serializer::zeros;
use crate::wire::types::command_code;

verus! {

/// The largest message that is read into a buffer of fixed size.
pub const STACK_MESSAGE_SIZE: usize = 1024;

/// A message read from a connection: short ones sit in a buffer of fixed size (padded to
/// it), longer ones in a buffer of their own length.
pub enum Message {
    Stack([u8; 1024]),
    Heap(Vec<u8>),
}

impl Message {
    /// The bytes of the message.
    pub open spec fn bytes(&self) -> Seq<u8> {
        match *self {
            Message::Stack(s) => s@,
            Message::Heap(h) => h@,
        }
    }

    /// The bytes of the message.
    pub fn as_slice(&self) -> (r: &[u8])
        ensures
            r@ == self.bytes(),
    {
        match self {
            Message::Stack(s) => s.as_slice(),
            Message::Heap(h) => h.as_slice(),
        }
    }
}

/// The number of bytes that follow a frame header announcing `len`: the message itself
/// when it is longer than the fixed buffer, the whole fixed buffer otherwise.
pub open spec fn body_len(len: u32) -> nat {
    if len > 1024 {
        len as nat
    } else {
        1024
    }
}

/// The number of bytes to read after the four-byte frame header `header`.
pub fn message_body_len(header: &[u8]) -> (r: usize)
    requires
        header@.len() >= 4,
    ensures
        r == body_len(u32_of(header@)),
{
    let len = get_u32(header, 0);
    assert(header@.subrange(0, 4) =~= seq![header@[0], header@[1], header@[2], header@[3]]);
    if len > 1024 {
        len as usize
    } else {
        1024
    }
}

/// Reads one frame from the start of `input`: its four-byte length `len` (least significant
/// byte first), then `len` bytes when `len` is over 1024, else 1024 bytes. Returns the
/// message and the number of bytes the frame took; fails when `input` ends too early.
pub fn read_message(input: &[u8]) -> (r: Result<(Message, usize), MyError>)
    ensures
        input@.len() < 4 ==> r == Err::<(Message, usize), MyError>(MyError::SocketReadError),
        input@.len() >= 4 ==> {
            let n = body_len(u32_of(input@));
            if input@.len() < 4 + n {
                r == Err::<(Message, usize), MyError>(MyError::SocketReadError)
            } else {
                r matches Ok((m, used)) && used == 4 + n && m.bytes() == input@.subrange(4, 4 + n as int)
                    && (m is Heap <==> u32_of(input@) > 1024)
            }
        },
{
    let ilen = input.len();
    if ilen < 4 {
        return Err(MyError::SocketReadError);
    }
    let len = get_u32(input, 0);
    assert(input@.subrange(0, 4) =~= seq![input@[0], input@[1], input@[2], input@[3]]);
    if len > 1024 {
        let n = len as usize;
        if input.len() - 4 < n {
            return Err(MyError::SocketReadError);
        }
        let mut vec: Vec<u8> = Vec::with_capacity(n);
        let mut a: usize = 0;
        while a < n
            invariant
                a <= n,
                4 + n <= input@.len(),
                input@.len() <= usize::MAX,
                vec@ == input@.subrange(4, 4 + a),
            decreases n - a,
        {
            vec.push(input[4 + a]);
            a = a + 1;
            assert(vec@ =~= input@.subrange(4, 4 + a));
        }
        Ok((Message::Heap(vec), 4 + n))
    } else {
        if input.len() - 4 < 1024 {
            return Err(MyError::SocketReadError);
        }
        let mut buf = [0u8; 1024];
        let mut a: usize = 0;
        while a < 1024
            invariant
                a <= 1024,
                4 + 1024 <= input@.len(),
                buf@.len() == 1024,
                forall|c: int| 0 <= c < a ==> buf@[c] == input@[4 + c],
            decreases 1024 - a,
        {
            buf[a] = input[4 + a];
            a = a + 1;
        }
        assert(buf@ =~= input@.subrange(4, 1028int));
        Ok((Message::Stack(buf), 4 + 1024))
    }
}

/// Turns commands into frames.
pub struct Serializer;

impl Serializer {
    /// The frame of a command: its size in eight bytes (least significant first), then its
    /// bytes (see [`crate::wire::serializer::Serializer::serialize`]).
    pub fn serialize(cw: &CommandInto) -> (r: AppResult<Vec<u8>>)
        requires
            usize::BITS == 64,
            command_size(*cw) + 8 <= usize::MAX,
        ensures
            r matches Ok(v) && v@ == le_u64(command_size(*cw) as u64) + command_writes(
                zeros(command_size(*cw)),
                command_code(cw.command),
                cw.args@,
                cw.args@.len() as int,
            ),
    {
        let size = cw.size();
        let body = crate::wire::serializer::Serializer::serialize(cw)?;
        let mut heap: Vec<u8> = Vec::with_capacity(size + 8);
        put_u64(&mut heap, size as u64);
        put_bytes(&mut heap, body.as_slice());
        Ok(heap)
    }
}

} // verus!

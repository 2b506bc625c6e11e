//! The bytes of a command to be sent.
use vstd::prelude::*;
use crate::error::AppResult;
use crate::wire::into::{CommandInto, command_size, command_writes, lemma_command_fits};
use crate::wire::types::command_code;

verus! {

/// `n` zero bytes.
pub open spec fn zeros(n: nat) -> Seq<u8> {
    Seq::new(n, |i: int| 0u8)
}

/// A buffer of `n` zero bytes.
pub fn zeroed(n: usize) -> (r: Vec<u8>)
    ensures
        r@ == zeros(n as nat),
{
    let mut v: Vec<u8> = Vec::with_capacity(n);
    let mut a: usize = 0;
    while a < n
        invariant
            a <= n,
            v@ == zeros(a as nat),
        decreases n - a,
    {
        v.push(0u8);
        a = a + 1;
        assert(v@ =~= zeros(a as nat));
    }
    v
}

/// Turns commands into bytes.
pub struct Serializer;

impl Serializer {
    /// The bytes of the command: a zeroed buffer of its size with the command written in.
    pub fn serialize(cw: &CommandInto) -> (r: AppResult<Vec<u8>>)
        requires
            usize::BITS == 64,
            command_size(*cw) <= usize::MAX,
        ensures
            r matches Ok(v) && v@ == command_writes(
                zeros(command_size(*cw)),
                command_code(cw.command),
                cw.args@,
                cw.args@.len() as int,
            ),
    {
        let size = cw.size();
        let mut heap = zeroed(size);
        proof {
            lemma_command_fits(*cw);
        }
        cw.read_into(heap.as_mut_slice())?;
        Ok(heap)
    }
}

} // verus!

//! Telling, before reading, whether bytes hold all that a value or a command announces.
use vstd::prelude::*;
use vstd::utf8::valid_utf8;
use crate::error::AppError;
use crate::wire::bytes::{u16_of, u32_of, get_u16, get_u32, get_u64};
use crate::wire::types::{DataTypes, TableV, command_of_code};
use crate::wire::wrapper::{Decoded, decode_entries, decode_segments, decode_value, parse_args, parse_command, str_from_utf8};

verus! {

/// How a reading ends, without what it read.
pub open spec fn outcome<T>(d: Decoded<T>) -> Decoded<()> {
    match d {
        Decoded::Done(_) => Decoded::Done(()),
        Decoded::Failed(e) => Decoded::Failed(e),
        Decoded::Truncated => Decoded::Truncated,
    }
}

/// Whether the bytes are valid UTF-8.
fn is_utf8(b: &[u8]) -> (r: bool)
    ensures
        r == valid_utf8(b@),
{
    match str_from_utf8(b) {
        Some(_) => true,
        None => false,
    }
}

/// How reading a value of type `ty` out of its content `c` ends: whether it reads a
/// value, fails with an error, or would go past the end of `c`.
pub fn check_value(ty: DataTypes, c: &[u8]) -> (r: Decoded<()>)
    requires
        usize::BITS == 64,
    ensures
        r == outcome(decode_value(ty, c@)),
    decreases c@.len(),
{
    let clen = c.len();
    match ty {
        DataTypes::Null => Decoded::Done(()),
        DataTypes::Int64 | DataTypes::Float64 => if clen < 8 {
            Decoded::Truncated
        } else {
            Decoded::Done(())
        },
        DataTypes::Bool => if clen < 1 {
            Decoded::Truncated
        } else {
            Decoded::Done(())
        },
        DataTypes::String => if is_utf8(c) {
            Decoded::Done(())
        } else {
            Decoded::Failed(AppError::InvalidString)
        },
        DataTypes::Path => {
            if clen < 2 {
                return Decoded::Truncated;
            }
            let count = get_u16(c, 0);
            assert(c@.subrange(0, 2) =~= seq![c@[0], c@[1]]);
            let ghost cs = c@;
            let mut ind: usize = 2;
            let mut n: u16 = 0;
            while n < count
                invariant
                    usize::BITS == 64,
                    ty == DataTypes::Path,
                    cs == c@,
                    clen == cs.len(),
                    count == u16_of(cs),
                    n <= count,
                    2 <= ind <= clen,
                    outcome(decode_segments(cs, 2, count as int)) == outcome(decode_segments(cs, ind as int, count - n)),
                decreases count - n,
            {
                if clen - ind < 8 {
                    assert(decode_segments(cs, ind as int, count - n) is Truncated);
                    return Decoded::Truncated;
                }
                let len = get_u64(c, ind);
                if len > (clen - ind - 8) as u64 {
                    assert(decode_segments(cs, ind as int, count - n) is Truncated);
                    return Decoded::Truncated;
                }
                let lenu = len as usize;
                let sb = &c[(ind + 8)..(ind + 8 + lenu)];
                assert(sb@ == cs.subrange(ind + 8, ind + 8 + len as int));
                if !is_utf8(sb) {
                    return Decoded::Failed(AppError::InvalidString);
                }
                ind = ind + 8 + lenu;
                n = n + 1;
            }
            Decoded::Done(())
        },
        DataTypes::Table => {
            if clen < 4 {
                return Decoded::Truncated;
            }
            let count = get_u32(c, 0);
            assert(c@.subrange(0, 4) =~= seq![c@[0], c@[1], c@[2], c@[3]]);
            let ghost cs = c@;
            let ghost t0 = TableV { path: Seq::empty(), keys: Seq::empty(), vals: Seq::empty() };
            let ghost mut acc = t0;
            let mut ind: usize = 4;
            let mut n: u32 = 0;
            while n < count
                invariant
                    usize::BITS == 64,
                    ty == DataTypes::Table,
                    t0 == (TableV { path: Seq::empty(), keys: Seq::empty(), vals: Seq::empty() }),
                    cs == c@,
                    clen == cs.len(),
                    count == u32_of(cs),
                    n <= count,
                    4 <= ind <= clen,
                    outcome(decode_entries(cs, 4, count as int, t0)) == outcome(decode_entries(cs, ind as int, count - n, acc)),
                decreases count - n,
            {
                let ghost i0 = ind as int;
                if clen - ind < 8 {
                    assert(decode_entries(cs, i0, count - n, acc) is Truncated);
                    return Decoded::Truncated;
                }
                let key_len = get_u64(c, ind);
                if key_len > (clen - ind - 8) as u64 {
                    assert(decode_entries(cs, i0, count - n, acc) is Truncated);
                    return Decoded::Truncated;
                }
                let kl = key_len as usize;
                let kb = &c[(ind + 8)..(ind + 8 + kl)];
                assert(kb@ == cs.subrange(i0 + 8, i0 + 8 + kl));
                if !is_utf8(kb) {
                    return Decoded::Failed(AppError::InvalidString);
                }
                ind = ind + 8 + kl;
                if clen - ind < 8 {
                    assert(decode_entries(cs, i0, count - n, acc) is Truncated);
                    return Decoded::Truncated;
                }
                let val_len = get_u64(c, ind);
                if val_len > (clen - ind - 8) as u64 {
                    assert(decode_entries(cs, i0, count - n, acc) is Truncated);
                    return Decoded::Truncated;
                }
                let vl = val_len as usize;
                let vb = &c[(ind + 8)..(ind + 8 + vl)];
                let ghost i3 = ind + 8;
                assert(vb@ == cs.subrange(i3, i3 + vl));
                if vl < 2 {
                    return Decoded::Truncated;
                }
                let code = get_u16(vb, 0);
                assert(vb@.subrange(0, 2) =~= seq![vb@[0], vb@[1]]);
                let vty = match DataTypes::new(vb) {
                    Ok(t) => t,
                    Err(_) => {
                        return Decoded::Failed(AppError::InvalidDataType);
                    },
                };
                let inner = &vb[2..vl];
                assert(inner@ == vb@.subrange(2, vb@.len() as int));
                match check_value(vty, inner) {
                    Decoded::Done(()) => {},
                    Decoded::Failed(e) => {
                        return Decoded::Failed(e);
                    },
                    Decoded::Truncated => {
                        return Decoded::Truncated;
                    },
                }
                proof {
                    let v = decode_value(vty, inner@)->Done_0;
                    let kd = vstd::utf8::decode_utf8(kb@);
                    let next = crate::wire::types::table_insert(acc, kd, v);
                    assert(decode_entries(cs, i0, count - n, acc) == decode_entries(cs, i3 + vl, count - n - 1, next));
                    acc = next;
                }
                ind = ind + 8 + vl;
                n = n + 1;
            }
            Decoded::Done(())
        },
        DataTypes::Array => Decoded::Failed(AppError::InvalidDataType),
    }
}

/// Whether a command packet holds all that it announces: reading it either gives a command
/// or fails with an error, and never goes past its end.
pub fn command_readable(buf: &[u8]) -> (r: bool)
    requires
        usize::BITS == 64,
    ensures
        r == !(parse_command(buf@) is Truncated),
{
    let blen = buf.len();
    if blen < 2 {
        return false;
    }
    if crate::wire::types::CommandTypes::new(buf).is_err() {
        return true;
    }
    let c = &buf[2..blen];
    let ghost cs = c@;
    assert(cs == buf@.subrange(2, buf@.len() as int));
    let clen = c.len();
    let mut ind: usize = 0;
    while ind < clen
        invariant
            usize::BITS == 64,
            cs == c@,
            cs == buf@.subrange(2, buf@.len() as int),
            buf@.len() >= 2,
            command_of_code(u16_of(buf@)) is Some,
            clen == cs.len(),
            ind <= clen,
            outcome(parse_args(cs, 0)) == outcome(parse_args(cs, ind as int)),
        decreases clen - ind,
    {
        if clen - ind < 8 {
            assert(parse_args(cs, ind as int) is Truncated);
            return false;
        }
        let len = get_u64(c, ind);
        if len > (clen - ind - 8) as u64 {
            assert(parse_args(cs, ind as int) is Truncated);
            return false;
        }
        let lu = len as usize;
        if lu < 2 {
            return false;
        }
        let arg = &c[(ind + 8)..(ind + 8 + lu)];
        assert(arg@ == cs.subrange(ind + 8, ind + 8 + lu));
        assert(arg@.subrange(0, 2) =~= seq![arg@[0], arg@[1]]);
        if DataTypes::new(arg).is_err() {
            return true;
        }
        ind = ind + 8 + lu;
    }
    true
}

} // verus!

//! What the codec gives back of what it wrote: a value read out of its own bytes.
use vstd::prelude::*;
use vstd::utf8::{encode_utf8_valid_utf8, encode_utf8_decode_utf8};
use crate::wire::bytes::{
    le_u16, le_u32, le_u64, u16_of, u32_of, u64_of, lemma_u16_roundtrip, lemma_u32_roundtrip,
    lemma_u64_roundtrip, lemma_i64_roundtrip,
};
use crate::wire::types::{
    TableV, ValueV, command_code, command_of_code, enc, enc_entries, enc_items, enc_segments, key_index, table_insert, type_code,
    type_of_code, utf8, value_size, value_type, lemma_key_index,
};
use crate::wire::wrapper::{Decoded, decode_entries, decode_segments, decode_value, parse_args, parse_command};
use crate::wire::into::{CommandInto, args_size, command_size, command_writes, data_image, overwrite};
use crate::wire::serializer::zeros;

verus! {

/// The value with the path of each table in it emptied: the wire does not carry paths.
pub open spec fn without_paths(v: ValueV) -> ValueV
    decreases v, 0int,
{
    match v {
        ValueV::Table(t) => ValueV::Table(
            TableV { path: Seq::empty(), keys: t.keys, vals: without_paths_all(t.vals, t.vals.len() as int) },
        ),
        ValueV::Array(items) => ValueV::Array(without_paths_all(items, items.len() as int)),
        _ => v,
    }
}

/// The first `n` values, each with the paths of its tables emptied.
pub open spec fn without_paths_all(vals: Seq<ValueV>, n: int) -> Seq<ValueV>
    decreases vals, n,
{
    if n <= 0 || n > vals.len() {
        Seq::empty()
    } else {
        without_paths_all(vals, n - 1).push(without_paths(vals[n - 1]))
    }
}

/// Whether the codec carries a value back: it holds no array; a path has at most
/// `u16::MAX` segments and a table at most `u32::MAX` keys, no key twice and a value for
/// each key; and every length written fits in eight bytes.
pub open spec fn carried(v: ValueV) -> bool
    decreases v,
{
    match v {
        ValueV::Path(segs) => {
            &&& segs.len() <= u16::MAX
            &&& forall|i: int| 0 <= i < segs.len() ==> #[trigger] utf8(segs[i]).len() <= u64::MAX
        },
        ValueV::Table(t) => {
            &&& t.keys.len() == t.vals.len()
            &&& t.keys.len() <= u32::MAX
            &&& forall|a: int, b: int| 0 <= a < b < t.keys.len() ==> #[trigger] t.keys[a] != #[trigger] t.keys[b]
            &&& forall|i: int| 0 <= i < t.keys.len() ==> #[trigger] utf8(t.keys[i]).len() <= u64::MAX
            &&& forall|i: int| 0 <= i < t.vals.len() ==> carried(#[trigger] t.vals[i]) && value_size(t.vals[i]) <= u64::MAX
        },
        ValueV::Array(_) => false,
        _ => true,
    }
}

/// The values that `without_paths_all` gives, one by one.
pub(crate) proof fn lemma_without_paths_all(vals: Seq<ValueV>, n: int)
    requires
        0 <= n <= vals.len(),
    ensures
        without_paths_all(vals, n).len() == n,
        forall|i: int| 0 <= i < n ==> #[trigger] without_paths_all(vals, n)[i] == without_paths(vals[i]),
    decreases n,
{
    if n > 0 {
        lemma_without_paths_all(vals, n - 1);
    }
}

/// The bytes of the first `a` segments start the bytes of the first `b`.
proof fn lemma_segments_take(segs: Seq<Seq<char>>, a: int, b: int)
    requires
        0 <= a <= b <= segs.len(),
    ensures
        enc_segments(segs.take(a)).len() <= enc_segments(segs.take(b)).len(),
        enc_segments(segs.take(b)).subrange(0, enc_segments(segs.take(a)).len() as int) == enc_segments(segs.take(a)),
    decreases b - a,
{
    if a < b {
        lemma_segments_take(segs, a, b - 1);
        assert(segs.take(b).drop_last() =~= segs.take(b - 1));
        let eb = enc_segments(segs.take(b));
        let eb1 = enc_segments(segs.take(b - 1));
        let ea = enc_segments(segs.take(a));
        assert(eb.subrange(0, ea.len() as int) =~= eb1.subrange(0, ea.len() as int));
    } else {
        assert(enc_segments(segs.take(b)).subrange(0, enc_segments(segs.take(a)).len() as int) =~= enc_segments(segs.take(a)));
    }
}

/// Reading the segments of a path back from where their bytes sit in `c`.
proof fn lemma_decode_segments(c: Seq<u8>, base: int, segs: Seq<Seq<char>>, j: int)
    requires
        0 <= j <= segs.len(),
        0 <= base,
        base + enc_segments(segs).len() <= c.len(),
        c.subrange(base, base + enc_segments(segs).len()) == enc_segments(segs),
        forall|i: int| 0 <= i < segs.len() ==> #[trigger] utf8(segs[i]).len() <= u64::MAX,
    ensures
        decode_segments(c, base + enc_segments(segs.take(j)).len(), segs.len() - j) == Decoded::Done(segs.skip(j)),
    decreases segs.len() - j,
{
    let n = segs.len() as int;
    if j < n {
        let ej = enc_segments(segs.take(j));
        let u = utf8(segs[j]);
        let l = u.len() as u64;
        assert(segs.take(j + 1).drop_last() =~= segs.take(j));
        let ej1 = enc_segments(segs.take(j + 1));
        assert(ej1 == ej + le_u64(l) + u);
        lemma_segments_take(segs, j + 1, n);
        assert(segs.take(n) =~= segs);
        let e = enc_segments(segs);
        let ind = base + ej.len();
        lemma_u64_roundtrip(l);
        assert(c.subrange(base, base + ej1.len()) =~= ej1) by {
            assert(c.subrange(base, base + ej1.len()) =~= e.subrange(0, ej1.len() as int));
        }
        assert(c.subrange(ind, ind + 8) =~= le_u64(l)) by {
            assert(c.subrange(ind, ind + 8) =~= ej1.subrange(ej.len() as int, (ej.len() + 8) as int));
        }
        assert(c.subrange(ind + 8, ind + 8 + u.len()) =~= u) by {
            assert(c.subrange(ind + 8, ind + 8 + u.len()) =~= ej1.subrange((ej.len() + 8) as int, ej1.len() as int));
        }
        encode_utf8_valid_utf8(segs[j]);
        encode_utf8_decode_utf8(segs[j]);
        lemma_decode_segments(c, base, segs, j + 1);
        assert(seq![segs[j]] + segs.skip(j + 1) =~= segs.skip(j));
    } else {
        assert(segs.skip(j) =~= Seq::<Seq<char>>::empty());
    }
}


/// The bytes of the first `a` entries start the bytes of the first `b`.
proof fn lemma_entries_take(keys: Seq<Seq<char>>, vals: Seq<ValueV>, a: int, b: int)
    requires
        0 <= a <= b <= vals.len(),
    ensures
        enc_entries(keys, vals, a).len() <= enc_entries(keys, vals, b).len(),
        enc_entries(keys, vals, b).subrange(0, enc_entries(keys, vals, a).len() as int) == enc_entries(keys, vals, a),
    decreases b - a,
{
    if a < b {
        lemma_entries_take(keys, vals, a, b - 1);
        let eb = enc_entries(keys, vals, b);
        let eb1 = enc_entries(keys, vals, b - 1);
        let ea = enc_entries(keys, vals, a);
        assert(eb.subrange(0, ea.len() as int) =~= eb1.subrange(0, ea.len() as int));
    } else {
        assert(enc_entries(keys, vals, b).subrange(0, enc_entries(keys, vals, a).len() as int) =~= enc_entries(keys, vals, a));
    }
}

/// Where the parts of entry `j` of a table sit in `c`, when the bytes of all the entries
/// sit there from `base` on.
proof fn lemma_entry_at(c: Seq<u8>, base: int, t: TableV, j: int)
    requires
        0 <= j < t.vals.len(),
        0 <= base,
        base + enc_entries(t.keys, t.vals, t.vals.len() as int).len() <= c.len(),
        c.subrange(base, base + enc_entries(t.keys, t.vals, t.vals.len() as int).len())
            == enc_entries(t.keys, t.vals, t.vals.len() as int),
    ensures
        ({
            let ind = base + enc_entries(t.keys, t.vals, j).len();
            let kb = utf8(t.keys[j]);
            let v = t.vals[j];
            &&& c.subrange(ind, ind + 8) == le_u64(kb.len() as u64)
            &&& c.subrange(ind + 8, ind + 8 + kb.len()) == kb
            &&& c.subrange(ind + 8 + kb.len(), ind + 16 + kb.len()) == le_u64((2 + enc(v).len()) as u64)
            &&& c.subrange(ind + 16 + kb.len(), ind + 18 + kb.len() + enc(v).len())
                == le_u16(type_code(value_type(v))) + enc(v)
            &&& enc_entries(t.keys, t.vals, j + 1).len() == enc_entries(t.keys, t.vals, j).len() + 18 + kb.len() + enc(v).len()
        }),
{
    let n = t.vals.len() as int;
    let v = t.vals[j];
    let ej = enc_entries(t.keys, t.vals, j);
    let ej1 = enc_entries(t.keys, t.vals, j + 1);
    let kb = utf8(t.keys[j]);
    let kl = kb.len() as u64;
    let vl = (2 + enc(v).len()) as u64;
    let code = type_code(value_type(v));
    assert(ej1 == ej + le_u64(kl) + kb + le_u64(vl) + le_u16(code) + enc(v));
    lemma_entries_take(t.keys, t.vals, j + 1, n);
    let e = enc_entries(t.keys, t.vals, n);
    lemma_sub_of_sub(c, base, e, 0, ej1.len() as int);
    lemma_parts(c, base, ej, le_u64(kl), kb, le_u64(vl), le_u16(code), enc(v));
}

/// A piece of a piece of `c`.
proof fn lemma_sub_of_sub(c: Seq<u8>, base: int, x: Seq<u8>, lo: int, hi: int)
    requires
        0 <= base,
        base + x.len() <= c.len(),
        c.subrange(base, base + x.len()) == x,
        0 <= lo <= hi <= x.len(),
    ensures
        c.subrange(base + lo, base + hi) == x.subrange(lo, hi),
{
    assert(c.subrange(base + lo, base + hi) =~= x.subrange(lo, hi));
}

/// Where the parts of `a + b + d + f + g + h` sit in `c` when the whole sits there from
/// `base` on.
proof fn lemma_parts(c: Seq<u8>, base: int, a: Seq<u8>, b: Seq<u8>, d: Seq<u8>, f: Seq<u8>, g: Seq<u8>, h: Seq<u8>)
    requires
        0 <= base,
        base + (a + b + d + f + g + h).len() <= c.len(),
        c.subrange(base, base + (a + b + d + f + g + h).len()) == a + b + d + f + g + h,
    ensures
        c.subrange(base + a.len(), base + a.len() + b.len()) == b,
        c.subrange(base + a.len() + b.len(), base + a.len() + b.len() + d.len()) == d,
        c.subrange(base + a.len() + b.len() + d.len(), base + a.len() + b.len() + d.len() + f.len()) == f,
        c.subrange(
            base + a.len() + b.len() + d.len() + f.len(),
            base + a.len() + b.len() + d.len() + f.len() + g.len() + h.len(),
        ) == g + h,
{
    let x = a + b + d + f + g + h;
    let o1 = base + a.len();
    let o2 = o1 + b.len();
    let o3 = o2 + d.len();
    let o4 = o3 + f.len();
    assert forall|k: int| 0 <= k < b.len() implies #[trigger] c.subrange(o1, o2)[k] == b[k] by {
        let i = a.len() + k;
        assert(c[o1 + k] == c.subrange(base, base + x.len())[i]);
        assert(x[i] == (a + b + d + f + g)[i]);
        assert((a + b + d + f + g)[i] == (a + b + d + f)[i]);
        assert((a + b + d + f)[i] == (a + b + d)[i]);
        assert((a + b + d)[i] == (a + b)[i]);
    }
    assert(c.subrange(o1, o2) =~= b);
    assert forall|k: int| 0 <= k < d.len() implies #[trigger] c.subrange(o2, o3)[k] == d[k] by {
        let i = a.len() + b.len() + k;
        assert(c[o2 + k] == c.subrange(base, base + x.len())[i]);
        assert(x[i] == (a + b + d + f + g)[i]);
        assert((a + b + d + f + g)[i] == (a + b + d + f)[i]);
        assert((a + b + d + f)[i] == (a + b + d)[i]);
    }
    assert(c.subrange(o2, o3) =~= d);
    assert forall|k: int| 0 <= k < f.len() implies #[trigger] c.subrange(o3, o4)[k] == f[k] by {
        assert(c[o3 + k] == c.subrange(base, base + x.len())[a.len() + b.len() + d.len() + k]);
    }
    assert(c.subrange(o3, o4) =~= f);
    assert forall|k: int| 0 <= k < g.len() + h.len() implies #[trigger] c.subrange(o4, o4 + g.len() + h.len())[k] == (g + h)[k] by {
        assert(c[o4 + k] == c.subrange(base, base + x.len())[a.len() + b.len() + d.len() + f.len() + k]);
    }
    assert(c.subrange(o4, o4 + g.len() + h.len()) =~= g + h);
}

/// A key that comes first in a table goes in last when it is read.
proof fn lemma_insert_fresh(t: TableV, j: int)
    requires
        carried(ValueV::Table(t)),
        0 <= j < t.vals.len(),
    ensures
        table_insert(
            TableV { path: Seq::empty(), keys: t.keys.take(j), vals: without_paths_all(t.vals, j) },
            t.keys[j],
            without_paths(t.vals[j]),
        ) == (TableV { path: Seq::empty(), keys: t.keys.take(j + 1), vals: without_paths_all(t.vals, j + 1) }),
{
    let ks = t.keys.take(j);
    lemma_key_index(ks, t.keys[j], j);
    let a = key_index(ks, t.keys[j], j);
    if a >= 0 {
        assert(ks[a] == t.keys[a]);
        assert(t.keys[a] != t.keys[j]);
    }
    assert(ks.push(t.keys[j]) =~= t.keys.take(j + 1));
}

/// Reading the entries of a table back from where their bytes sit in `c`, into the table
/// made of the entries before.
#[verifier::spinoff_prover]
#[verifier::rlimit(50)]
proof fn lemma_decode_entries(c: Seq<u8>, base: int, t: TableV, j: int)
    requires
        carried(ValueV::Table(t)),
        0 <= j <= t.vals.len(),
        0 <= base,
        base + enc_entries(t.keys, t.vals, t.vals.len() as int).len() <= c.len(),
        c.subrange(base, base + enc_entries(t.keys, t.vals, t.vals.len() as int).len())
            == enc_entries(t.keys, t.vals, t.vals.len() as int),
    ensures
        decode_entries(
            c,
            base + enc_entries(t.keys, t.vals, j).len(),
            t.vals.len() - j,
            TableV { path: Seq::empty(), keys: t.keys.take(j), vals: without_paths_all(t.vals, j) },
        ) == Decoded::Done(
            TableV { path: Seq::empty(), keys: t.keys, vals: without_paths_all(t.vals, t.vals.len() as int) },
        ),
    decreases t, t.vals.len() - j,
{
    let n = t.vals.len() as int;
    if j < n {
        let v = t.vals[j];
        let kb = utf8(t.keys[j]);
        let code = type_code(value_type(v));
        let vb = le_u16(code) + enc(v);
        lemma_entry_at(c, base, t, j);
        lemma_u64_roundtrip(kb.len() as u64);
        lemma_u64_roundtrip((2 + enc(v).len()) as u64);
        lemma_u16_roundtrip(code);
        assert(vb.subrange(0, 2) =~= le_u16(code));
        assert(u16_of(vb) == code);
        assert(type_of_code(code) == Some(value_type(v)));
        assert(vb.subrange(2, vb.len() as int) =~= enc(v));
        encode_utf8_valid_utf8(t.keys[j]);
        encode_utf8_decode_utf8(t.keys[j]);
        assert(carried(v));
        law_decode_encode(v);
        lemma_insert_fresh(t, j);
        lemma_decode_entries(c, base, t, j + 1);
    } else {
        assert(t.keys.take(j) =~= t.keys);
    }
}

/// Read after write on the wire: the bytes that a value is written as read back as that
/// value, with the paths of its tables emptied, when the codec carries the value.
pub proof fn law_decode_encode(v: ValueV)
    requires
        carried(v),
    ensures
        decode_value(value_type(v), enc(v)) == Decoded::Done(without_paths(v)),
    decreases v, 0int,
{
    match v {
        ValueV::Int64(i) => {
            lemma_u64_roundtrip(i as u64);
            lemma_i64_roundtrip(i);
        },
        ValueV::Float64(x) => {
            lemma_u64_roundtrip(x);
        },
        ValueV::String(s) => {
            encode_utf8_valid_utf8(s);
            encode_utf8_decode_utf8(s);
        },
        ValueV::Path(segs) => {
            let n = segs.len() as u16;
            let e = enc_segments(segs);
            let c = le_u16(n) + e;
            lemma_u16_roundtrip(n);
            assert(c.subrange(0, 2) =~= le_u16(n));
            assert(u16_of(c) == n);
            assert(c.subrange(2, (2 + e.len()) as int) =~= e);
            assert(segs.take(0) =~= Seq::<Seq<char>>::empty());
            assert(segs.skip(0) =~= segs);
            lemma_decode_segments(c, 2, segs, 0);
        },
        ValueV::Table(t) => {
            let n = t.keys.len() as u32;
            let e = enc_entries(t.keys, t.vals, t.vals.len() as int);
            let c = le_u32(n) + e;
            lemma_u32_roundtrip(n);
            assert(c.subrange(0, 4) =~= le_u32(n));
            assert(u32_of(c) == n);
            assert(c.subrange(4, (4 + e.len()) as int) =~= e);
            assert(t.keys.take(0) =~= Seq::<Seq<char>>::empty());
            lemma_decode_entries(c, 4, t, 0);
        },
        _ => {},
    }
}


/// The bytes of a command with one argument, as the serializer writes it into a zeroed
/// buffer of its size: its code, the argument's size, the argument's type code and content.
pub proof fn lemma_one_arg_writes(c: CommandInto)
    requires
        c.args@.len() == 1,
    ensures
        command_size(c) == 10 + value_size(c.args@[0].content@),
        command_writes(zeros(command_size(c)), command_code(c.command), c.args@, 1)
            == le_u16(command_code(c.command)) + le_u64(value_size(c.args@[0].content@) as u64)
            + data_image(c.args@[0]),
{
    let d = c.args@[0];
    let vs = value_size(d.content@);
    let img = data_image(d);
    let code = command_code(c.command);
    assert(args_size(c.args@, 0) == 0);
    assert(args_size(c.args@, 1) == 8 + vs);
    let n = command_size(c);
    let b0 = zeros(n);
    let b1 = overwrite(b0, 0, le_u16(code));
    let b2 = overwrite(b1, 2, le_u64(vs as u64));
    let b3 = overwrite(b2, 10, img);
    assert(command_writes(b0, code, c.args@, 0) == b1);
    assert(command_writes(b0, code, c.args@, 1) == b3);
    lemma_u16_roundtrip(code);
    lemma_u64_roundtrip(vs as u64);
    lemma_u16_roundtrip(type_code(d.data_type));
    assert(img.len() == vs);
    assert(b3 =~= le_u16(code) + le_u64(vs as u64) + img);
}

/// Read after write for commands: a command with one argument, as the serializer writes
/// it into a zeroed buffer of its size, reads back as that command and that argument's
/// bytes. (With more arguments, each one is written over the one before.)
pub proof fn law_command_round_trip(c: CommandInto)
    requires
        c.args@.len() == 1,
        value_size(c.args@[0].content@) <= u64::MAX,
    ensures
        parse_command(command_writes(zeros(command_size(c)), command_code(c.command), c.args@, 1))
            == Decoded::Done((c.command, seq![data_image(c.args@[0])])),
{
    let d = c.args@[0];
    let vs = value_size(d.content@);
    let img = data_image(d);
    let code = command_code(c.command);
    lemma_one_arg_writes(c);
    let b3 = le_u16(code) + le_u64(vs as u64) + img;
    assert(img.len() == vs);
    lemma_u16_roundtrip(code);
    lemma_u64_roundtrip(vs as u64);
    lemma_u16_roundtrip(type_code(d.data_type));
    assert(b3.subrange(0, 2) =~= le_u16(code));
    assert(u16_of(b3) == code);
    assert(command_of_code(code) == Some(c.command));
    let rest = b3.subrange(2, b3.len() as int);
    assert(rest =~= le_u64(vs as u64) + img);
    assert(rest.subrange(0, 8) =~= le_u64(vs as u64));
    assert(rest.subrange(8, (8 + vs) as int) =~= img);
    assert(img.subrange(0, 2) =~= le_u16(type_code(d.data_type)));
    assert(type_of_code(type_code(d.data_type)) is Some);
    assert(parse_args(rest, (8 + vs) as int) == Decoded::<Seq<Seq<u8>>>::Done(Seq::empty()));
    assert(seq![img] + Seq::<Seq<u8>>::empty() =~= seq![img]);
}


/// Reads `k` framed pieces out of `c` from byte `ind` on, each an eight-byte size and that
/// many bytes, as a reader slices them by their sizes: the pieces and where the last one
/// ends, or `None` when a piece would go past the end of `c`.
pub open spec fn read_framed(c: Seq<u8>, ind: int, k: int) -> Option<(Seq<Seq<u8>>, int)>
    decreases k,
{
    if k <= 0 {
        Some((Seq::empty(), ind))
    } else if ind < 0 || ind + 8 > c.len() {
        None
    } else {
        let l = u64_of(c.subrange(ind, ind + 8)) as int;
        if ind + 8 + l > c.len() {
            None
        } else {
            match read_framed(c, ind + 8 + l, k - 1) {
                Some((rest, end)) => Some((seq![c.subrange(ind + 8, ind + 8 + l)] + rest, end)),
                None => None,
            }
        }
    }
}

/// A value as it sits inside a table or an array: its type code, then its content.
pub open spec fn framed_image(v: ValueV) -> Seq<u8> {
    le_u16(type_code(value_type(v))) + enc(v)
}

/// The bytes of the first `a` items start the bytes of the first `b`.
proof fn lemma_items_take(vals: Seq<ValueV>, a: int, b: int)
    requires
        0 <= a <= b <= vals.len(),
    ensures
        enc_items(vals, a).len() <= enc_items(vals, b).len(),
        enc_items(vals, b).subrange(0, enc_items(vals, a).len() as int) == enc_items(vals, a),
    decreases b - a,
{
    if a < b {
        lemma_items_take(vals, a, b - 1);
        let eb = enc_items(vals, b);
        let eb1 = enc_items(vals, b - 1);
        let ea = enc_items(vals, a);
        assert(eb.subrange(0, ea.len() as int) =~= eb1.subrange(0, ea.len() as int));
    } else {
        assert(enc_items(vals, b).subrange(0, enc_items(vals, a).len() as int) =~= enc_items(vals, a));
    }
}

/// Where the parts of `a + b + g + h` sit in `c` when the whole sits there from `base` on.
proof fn lemma_parts4(c: Seq<u8>, base: int, a: Seq<u8>, b: Seq<u8>, g: Seq<u8>, h: Seq<u8>)
    requires
        0 <= base,
        base + (a + b + g + h).len() <= c.len(),
        c.subrange(base, base + (a + b + g + h).len()) == a + b + g + h,
    ensures
        c.subrange(base + a.len(), base + a.len() + b.len()) == b,
        c.subrange(base + a.len() + b.len(), base + a.len() + b.len() + g.len() + h.len()) == g + h,
{
    let x = a + b + g + h;
    let o1 = base + a.len();
    let o2 = o1 + b.len();
    assert forall|k: int| 0 <= k < b.len() implies #[trigger] c.subrange(o1, o2)[k] == b[k] by {
        let i = a.len() + k;
        assert(c.subrange(o1, o2)[k] == c.subrange(base, base + x.len())[i]);
        assert(x[i] == (a + b + g)[i]);
        assert((a + b + g)[i] == (a + b)[i]);
    }
    assert(c.subrange(o1, o2) =~= b);
    assert forall|k: int| 0 <= k < g.len() + h.len() implies #[trigger] c.subrange(o2, o2 + g.len() + h.len())[k] == (g + h)[k] by {
        let i = a.len() + b.len() + k;
        assert(c.subrange(o2, o2 + g.len() + h.len())[k] == c.subrange(base, base + x.len())[i]);
        if k < g.len() {
            assert(x[i] == (a + b + g)[i]);
        }
    }
    assert(c.subrange(o2, o2 + g.len() + h.len()) =~= g + h);
}

/// Where the size and the bytes of item `j` of an array sit in `c`, when the bytes of all
/// the items sit there from `base` on.
proof fn lemma_item_at(c: Seq<u8>, base: int, items: Seq<ValueV>, j: int)
    requires
        0 <= j < items.len(),
        0 <= base,
        base + enc_items(items, items.len() as int).len() <= c.len(),
        c.subrange(base, base + enc_items(items, items.len() as int).len()) == enc_items(items, items.len() as int),
    ensures
        ({
            let ind = base + enc_items(items, j).len();
            let v = items[j];
            &&& c.subrange(ind, ind + 8) == le_u64((2 + enc(v).len()) as u64)
            &&& c.subrange(ind + 8, ind + 10 + enc(v).len()) == framed_image(v)
            &&& enc_items(items, j + 1).len() == enc_items(items, j).len() + 10 + enc(v).len()
        }),
{
    let n = items.len() as int;
    let v = items[j];
    let ej = enc_items(items, j);
    let ej1 = enc_items(items, j + 1);
    let vs = (2 + enc(v).len()) as u64;
    let code = type_code(value_type(v));
    assert(ej1 == ej + le_u64(vs) + le_u16(code) + enc(v));
    lemma_items_take(items, j + 1, n);
    let e = enc_items(items, n);
    lemma_sub_of_sub(c, base, e, 0, ej1.len() as int);
    lemma_parts4(c, base, ej, le_u64(vs), le_u16(code), enc(v));
}

/// Reading the items of an array back by their sizes from where their bytes sit in `c`.
proof fn lemma_read_items(c: Seq<u8>, base: int, items: Seq<ValueV>, j: int)
    requires
        0 <= j <= items.len(),
        0 <= base,
        base + enc_items(items, items.len() as int).len() <= c.len(),
        c.subrange(base, base + enc_items(items, items.len() as int).len()) == enc_items(items, items.len() as int),
        forall|i: int| 0 <= i < items.len() ==> value_size(#[trigger] items[i]) <= u64::MAX,
    ensures
        read_framed(c, base + enc_items(items, j).len(), items.len() - j) == Some(
            (items.skip(j).map_values(|v: ValueV| framed_image(v)), base + enc_items(items, items.len() as int).len()),
        ),
    decreases items.len() - j,
{
    let n = items.len() as int;
    if j < n {
        let v = items[j];
        assert(value_size(items[j]) <= u64::MAX);
        lemma_item_at(c, base, items, j);
        lemma_u64_roundtrip((2 + enc(v).len()) as u64);
        lemma_read_items(c, base, items, j + 1);
        assert(seq![framed_image(v)] + items.skip(j + 1).map_values(|v: ValueV| framed_image(v))
            =~= items.skip(j).map_values(|v: ValueV| framed_image(v)));
    } else {
        assert(items.skip(j).map_values(|v: ValueV| framed_image(v)) =~= Seq::<Seq<u8>>::empty());
    }
}

/// The items of an array on the wire are framed by their sizes: after the four-byte item
/// count, each item is its size in eight bytes, counting its type code, then its type code
/// and content; a reader that slices by those sizes gets each item back and ends at the
/// end of the array's bytes.
pub proof fn law_array_items_framed(items: Seq<ValueV>)
    requires
        items.len() <= u32::MAX,
        forall|i: int| 0 <= i < items.len() ==> value_size(#[trigger] items[i]) <= u64::MAX,
    ensures
        enc(ValueV::Array(items)).len() >= 4,
        u32_of(enc(ValueV::Array(items))) == items.len(),
        read_framed(enc(ValueV::Array(items)), 4, items.len() as int) == Some(
            (items.map_values(|v: ValueV| framed_image(v)), enc(ValueV::Array(items)).len() as int),
        ),
{
    let n = items.len() as u32;
    let e = enc_items(items, items.len() as int);
    let c = le_u32(n) + e;
    assert(enc(ValueV::Array(items)) == c);
    lemma_u32_roundtrip(n);
    assert(c.subrange(0, 4) =~= le_u32(n));
    assert(u32_of(c) == n);
    assert(c.subrange(4, (4 + e.len()) as int) =~= e);
    assert(enc_items(items, 0) == Seq::<u8>::empty());
    assert(items.skip(0) =~= items);
    lemma_read_items(c, 4, items, 0);
}

} // verus!

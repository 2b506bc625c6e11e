//! Slash separated key paths such as `table1/table2/field`.
use vstd::prelude::*;
use vstd::utf8::*;
use vstd::string::*;

verus! {

broadcast use vstd::string::group_string_axioms;

/// The byte `/` that separates the keys of a path.
pub const SEPARATOR: u8 = 47u8;

/// Index of the first separator at or after `i` in `b`, or `b.len()` when there is none.
pub open spec fn seg_end(b: Seq<u8>, i: int) -> int
    decreases b.len() - i,
{
    if i >= b.len() {
        b.len() as int
    } else if i >= 0 && b[i] == SEPARATOR {
        i
    } else {
        seg_end(b, i + 1)
    }
}

/// The key that starts at byte `i` of the UTF-8 path `b`.
pub open spec fn path_key(b: Seq<u8>, i: int) -> Seq<char> {
    decode_utf8(b.subrange(i, seg_end(b, i)))
}

/// Where the rest of the path starts after the key at `i`, if another key follows.
pub open spec fn path_next(b: Seq<u8>, i: int) -> Option<int> {
    if seg_end(b, i) < b.len() {
        Some(seg_end(b, i) + 1)
    } else {
        None
    }
}

/// `i` is a position at which a key of the path `b` may start.
pub open spec fn valid_start(b: Seq<u8>, i: int) -> bool {
    0 <= i <= b.len() && is_char_boundary(b, i)
}

pub proof fn lemma_seg_end_bounds(b: Seq<u8>, i: int)
    requires
        0 <= i,
    ensures
        i <= b.len() ==> i <= seg_end(b, i) <= b.len(),
        seg_end(b, i) < b.len() ==> b[seg_end(b, i)] == SEPARATOR,
        forall|k: int| i <= k < seg_end(b, i) ==> b[k] != SEPARATOR,
    decreases b.len() - i,
{
    if i < b.len() && b[i] != SEPARATOR {
        lemma_seg_end_bounds(b, i + 1);
    }
}

/// A one-byte character at a character boundary is followed by another boundary.
pub proof fn lemma_boundary_after_ascii(b: Seq<u8>, j: int)
    requires
        valid_utf8(b),
        0 <= j < b.len(),
        is_char_boundary(b, j),
        b[j] < 0x80,
    ensures
        is_char_boundary(b, j + 1),
{
    is_char_boundary_start_end_of_seq(b);
    if j + 1 < b.len() {
        valid_utf8_split(b, j);
        let s = b.subrange(j, b.len() as int);
        assert(s[0] == b[j]);
        assert(length_of_first_scalar(s) == 1);
        assert(pop_first_scalar(s) =~= s.subrange(1, s.len() as int));
        assert(is_char_boundary(s, 1)) by {
            reveal_with_fuel(is_char_boundary, 2);
        }
        is_char_boundary_iff_not_is_continuation_byte(s, 1);
        assert(s[1] == b[j + 1]);
        is_char_boundary_iff_not_is_continuation_byte(b, j + 1);
    }
}

/// Compares two string slices by their characters.
pub fn str_eq(a: &str, b: &str) -> (r: bool)
    ensures
        r == (a@ == b@),
{
    let x = a.as_bytes();
    let y = b.as_bytes();
    proof {
        encode_utf8_decode_utf8(a@);
        encode_utf8_decode_utf8(b@);
    }
    if x.len() != y.len() {
        return false;
    }
    let mut i: usize = 0;
    while i < x.len()
        invariant
            x@ == a.spec_bytes(),
            y@ == b.spec_bytes(),
            x@.len() == y@.len(),
            i <= x@.len(),
            forall|k: int| 0 <= k < i ==> x@[k] == y@[k],
        decreases x@.len() - i,
    {
        if x[i] != y[i] {
            return false;
        }
        i = i + 1;
    }
    assert(x@ =~= y@);
    true
}

/// Splits off the key that starts at byte `path.1` of the path `path.0`.
///
/// Returns the key and, when a `/` ends it, the byte index just after that `/`,
/// where the next key starts.
pub fn next_path_key<'a>(path: (&'a str, usize)) -> (r: (&'a str, Option<usize>))
    requires
        valid_start(path.0.spec_bytes(), path.1 as int),
    ensures
        r.0.spec_bytes() == path.0.spec_bytes().subrange(path.1 as int, seg_end(path.0.spec_bytes(), path.1 as int)),
        r.0@ == path_key(path.0.spec_bytes(), path.1 as int),
        match r.1 {
            Some(n) => path_next(path.0.spec_bytes(), path.1 as int) == Some(n as int)
                && valid_start(path.0.spec_bytes(), n as int),
            None => path_next(path.0.spec_bytes(), path.1 as int) is None,
        },
{
    let s = path.0;
    let start = path.1;
    let bytes = s.as_bytes();
    let ghost b = s.spec_bytes();
    proof {
        encode_utf8_valid_utf8(s@);
        lemma_seg_end_bounds(b, start as int);
    }
    let mut j: usize = start;
    while j < bytes.len() && bytes[j] != SEPARATOR
        invariant
            bytes@ == b,
            start <= j <= b.len(),
            seg_end(b, j as int) == seg_end(b, start as int),
        decreases b.len() - j,
    {
        j = j + 1;
    }
    assert(seg_end(b, j as int) == j);
    let (_, rest) = s.split_at(start);
    let ghost rb = rest.spec_bytes();
    assert(rb =~= b.subrange(start as int, b.len() as int));
    proof {
        encode_utf8_valid_utf8(rest@);
        is_char_boundary_start_end_of_seq(rb);
        if j < b.len() {
            assert(rb[j - start] == SEPARATOR);
            is_char_boundary_iff_not_is_continuation_byte(rb, j - start);
        }
    }
    let (key, _) = rest.split_at(j - start);
    assert(key.spec_bytes() =~= b.subrange(start as int, j as int));
    proof {
        encode_utf8_decode_utf8(key@);
    }
    if j < bytes.len() {
        proof {
            is_char_boundary_iff_not_is_continuation_byte(b, j as int);
            lemma_boundary_after_ascii(b, j as int);
        }
        (key, Some(j + 1))
    } else {
        (key, None)
    }
}

} // verus!

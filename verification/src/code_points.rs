//! Sorting by bytes is sorting by code points.
use crate::sort::{bytes_before, bytes_before_asymmetric};
use vstd::prelude::*;
use vstd::utf8::{char_is_scalar, char_u32_cast, encode_scalar, encode_utf8, is_scalar};

verus! {

/// Does `a` come before `b` in the order of their code points, as Python compares
/// strings?
pub open spec fn chars_before(a: Seq<char>, b: Seq<char>) -> bool
    decreases a.len(),
{
    if b.len() == 0 {
        false
    } else if a.len() == 0 {
        true
    } else if a[0] != b[0] {
        (a[0] as u32) < (b[0] as u32)
    } else {
        chars_before(a.drop_first(), b.drop_first())
    }
}

/// The first byte in which two texts differ decides.
proof fn before_at(a: Seq<u8>, b: Seq<u8>, k: int)
    requires
        0 <= k < a.len(),
        k < b.len(),
        forall|i: int| 0 <= i < k ==> a[i] == b[i],
        a[k] < b[k],
    ensures
        bytes_before(a, b),
    decreases k,
{
    if k > 0 {
        before_at(a.subrange(1, a.len() as int), b.subrange(1, b.len() as int), k - 1);
    }
}

/// What two texts have in common at their start does not matter.
proof fn common_prefix(p: Seq<u8>, s: Seq<u8>, t: Seq<u8>)
    ensures
        bytes_before(p + s, p + t) == bytes_before(s, t),
    decreases p.len(),
{
    if p.len() == 0 {
        assert(p + s =~= s);
        assert(p + t =~= t);
    } else {
        let q = p.subrange(1, p.len() as int);
        assert((p + s).subrange(1, (p + s).len() as int) =~= q + s);
        assert((p + t).subrange(1, (p + t).len() as int) =~= q + t);
        common_prefix(q, s, t);
    }
}

/// The bytes of a code point, as numbers.
pub open spec fn scalar_bytes(v: u32) -> Seq<int> {
    if v <= 0x7f {
        seq![v as int]
    } else if v <= 0x7ff {
        seq![0xc0 + v as int / 64, 0x80 + v as int % 64]
    } else if v <= 0xffff {
        seq![0xe0 + v as int / 4096, 0x80 + v as int / 64 % 64, 0x80 + v as int % 64]
    } else {
        seq![
            0xf0 + v as int / 262144,
            0x80 + v as int / 4096 % 64,
            0x80 + v as int / 64 % 64,
            0x80 + v as int % 64,
        ]
    }
}

proof fn encode_scalar_bytes(v: u32)
    requires
        is_scalar(v),
    ensures
        encode_scalar(v).len() == scalar_bytes(v).len(),
        forall|i: int|
            0 <= i < scalar_bytes(v).len() ==> encode_scalar(v)[i] == #[trigger] scalar_bytes(v)[i],
{
    assert(v <= 0x7f ==> (v & 0x7f) as u8 == v) by (bit_vector);
    assert(v <= 0x7ff ==> (0xc0u8 | ((v >> 6) & 0x1f) as u8) == 0xc0 + v / 64) by (bit_vector);
    assert((0x80u8 | (v & 0x3f) as u8) == 0x80 + v % 64) by (bit_vector);
    assert((0x80u8 | ((v >> 6) & 0x3f) as u8) == 0x80 + v / 64 % 64) by (bit_vector);
    assert((0x80u8 | ((v >> 12) & 0x3f) as u8) == 0x80 + v / 4096 % 64) by (bit_vector);
    assert(v <= 0xffff ==> (0xe0u8 | ((v >> 12) & 0x0f) as u8) == 0xe0 + v / 4096) by (bit_vector);
    assert(v <= 0x10ffff ==> (0xf0u8 | ((v >> 18) & 0x7) as u8) == 0xf0 + v / 262144)
        by (bit_vector);
}

/// Where the encodings of two code points differ first.
proof fn first_difference(x: u32, y: u32) -> (k: int)
    requires
        x < y <= 0x10ffff,
    ensures
        0 <= k < scalar_bytes(x).len(),
        k < scalar_bytes(y).len(),
        forall|i: int| 0 <= i < k ==> #[trigger] scalar_bytes(x)[i] == scalar_bytes(y)[i],
        scalar_bytes(x)[k] < scalar_bytes(y)[k],
{
    let a = scalar_bytes(x);
    let b = scalar_bytes(y);
    let u = x as int;
    let v = y as int;
    if a.len() != b.len() {
        0
    } else if y <= 0x7f {
        0
    } else if y <= 0x7ff {
        if u / 64 < v / 64 {
            0
        } else {
            assert(u / 64 == v / 64);
            1
        }
    } else if y <= 0xffff {
        assert(u / 64 / 64 == u / 4096 && v / 64 / 64 == v / 4096);
        if u / 4096 < v / 4096 {
            0
        } else if u / 64 < v / 64 {
            assert(u / 4096 == v / 4096);
            1
        } else {
            assert(u / 64 == v / 64);
            2
        }
    } else {
        assert(u / 4096 / 64 == u / 262144 && v / 4096 / 64 == v / 262144);
        assert(u / 64 / 64 == u / 4096 && v / 64 / 64 == v / 4096);
        if u / 262144 < v / 262144 {
            0
        } else if u / 4096 < v / 4096 {
            assert(u / 262144 == v / 262144);
            1
        } else if u / 64 < v / 64 {
            assert(u / 4096 == v / 4096);
            2
        } else {
            assert(u / 64 == v / 64);
            3
        }
    }
}

/// The encodings of two code points compare as they do, whatever follows them.
proof fn scalars_in_order(x: u32, y: u32, s: Seq<u8>, t: Seq<u8>)
    requires
        is_scalar(x),
        is_scalar(y),
        x < y,
    ensures
        bytes_before(encode_scalar(x) + s, encode_scalar(y) + t),
{
    encode_scalar_bytes(x);
    encode_scalar_bytes(y);
    let p = encode_scalar(x);
    let q = encode_scalar(y);
    let a = scalar_bytes(x);
    let b = scalar_bytes(y);
    let k = first_difference(x, y);
    assert forall|i: int| 0 <= i < k implies (p + s)[i] == (q + t)[i] by {
        assert(a[i] == b[i]);
        assert(p[i] == a[i] && q[i] == b[i]);
    }
    assert(p[k] == a[k] && q[k] == b[k]);
    before_at(p + s, q + t, k);
}

/// The order of the bytes of two texts is the order of their code points: sorted keys
/// come out as Python sorts them.
pub proof fn byte_order_is_code_point_order(a: Seq<char>, b: Seq<char>)
    ensures
        bytes_before(encode_utf8(a), encode_utf8(b)) == chars_before(a, b),
    decreases a.len(),
{
    if a.len() > 0 {
        char_is_scalar(a[0]);
        encode_scalar_bytes(a[0] as u32);
    }
    if b.len() > 0 {
        char_is_scalar(b[0]);
        encode_scalar_bytes(b[0] as u32);
    }
    if a.len() > 0 && b.len() > 0 {
        let x = a[0] as u32;
        let y = b[0] as u32;
        let s = encode_utf8(a.drop_first());
        let t = encode_utf8(b.drop_first());
        if x < y {
            scalars_in_order(x, y, s, t);
        } else if y < x {
            scalars_in_order(y, x, t, s);
            bytes_before_asymmetric(encode_utf8(a), encode_utf8(b));
        } else {
            common_prefix(encode_scalar(x), s, t);
            byte_order_is_code_point_order(a.drop_first(), b.drop_first());
            char_u32_cast(a[0], x);
            char_u32_cast(b[0], x);
            assert(a[0] == b[0]);
        }
    }
}

} // verus!

//! Numbers by their bytes, least significant first.
use vstd::prelude::*;

verus! {

/// The number that bytes hold, least significant first.
pub open spec fn le_value(s: Seq<u8>) -> nat
    decreases s.len(),
{
    if s.len() == 0 {
        0
    } else {
        s[0] as nat + 256 * le_value(s.subrange(1, s.len() as int))
    }
}

/// The number in the `n` bytes at `off`.
pub fn read_uint(data: &[u8], off: usize, n: usize) -> (r: u64)
    requires
        off + n <= data@.len(),
        n <= 8,
    ensures
        r == le_value(data@.subrange(off as int, off + n)),
        n == 1 ==> r < 0x100,
        n == 2 ==> r < 0x1_0000,
        n == 4 ==> r < 0x1_0000_0000,
    decreases n,
{
    let ghost s = data@.subrange(off as int, off + n);
    if n == 0 {
        0
    } else {
        assert(s.subrange(1, n as int) =~= data@.subrange(off + 1, off + n));
        assert(data.len() == data@.len());
        let high: u64 = read_uint(data, off + 1, n - 1);
        proof {
            le_value_bound(s.subrange(1, n as int));
            le_value_bound(s);
            reveal_with_fuel(pow256, 9);
            assert(s[0] == data@[off as int]);
        }
        data[off] as u64 + 256 * high
    }
}

/// 256 to the power `n`.
pub open spec fn pow256(n: nat) -> nat
    decreases n,
{
    if n == 0 {
        1
    } else {
        256 * pow256((n - 1) as nat)
    }
}

/// A number of `n` bytes is below `256^n`.
pub proof fn le_value_bound(s: Seq<u8>)
    ensures
        le_value(s) < pow256(s.len()),
    decreases s.len(),
{
    if s.len() > 0 {
        le_value_bound(s.subrange(1, s.len() as int));
    }
}

/// Each further byte counts 256 times as much as the one before: bytes are read least
/// significant first.
pub proof fn le_value_push(s: Seq<u8>, b: u8)
    ensures
        le_value(Seq::<u8>::empty()) == 0,
        le_value(s.push(b)) == le_value(s) + b * pow256(s.len()),
    decreases s.len(),
{
    let t = s.push(b);
    if s.len() == 0 {
        assert(t.subrange(1, 1).len() == 0);
        assert(le_value(t.subrange(1, 1)) == 0);
        assert(t[0] == b);
        assert(pow256(0) == 1);
        assert(b * pow256(s.len()) == b) by (nonlinear_arith)
            requires
                pow256(s.len()) == 1,
        ;
    } else {
        let u = s.subrange(1, s.len() as int);
        assert(t.subrange(1, t.len() as int) =~= u.push(b));
        le_value_push(u, b);
        assert(t[0] == s[0]);
        let p = pow256(u.len());
        assert(pow256(s.len()) == 256 * p);
        assert(256 * (b * p) == b * (256 * p)) by (nonlinear_arith);
    }
}

} // verus!

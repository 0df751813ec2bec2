//! The order of sorted keys.
use vstd::prelude::*;

verus! {

/// Does `a` come before `b` in the order of their bytes? For UTF-8 that is the
/// order of their code points.
pub open spec fn bytes_before(a: Seq<u8>, b: Seq<u8>) -> bool
    decreases a.len(),
{
    if b.len() == 0 {
        false
    } else if a.len() == 0 {
        true
    } else if a[0] != b[0] {
        a[0] < b[0]
    } else {
        bytes_before(a.subrange(1, a.len() as int), b.subrange(1, b.len() as int))
    }
}

pub proof fn bytes_before_asymmetric(a: Seq<u8>, b: Seq<u8>)
    ensures
        !(bytes_before(a, b) && bytes_before(b, a)),
    decreases a.len(),
{
    if a.len() > 0 && b.len() > 0 {
        bytes_before_asymmetric(a.subrange(1, a.len() as int), b.subrange(1, b.len() as int));
    }
}

pub proof fn bytes_before_total(a: Seq<u8>, b: Seq<u8>)
    ensures
        bytes_before(a, b) || bytes_before(b, a) || a == b,
    decreases a.len(),
{
    if a.len() > 0 && b.len() > 0 {
        let x = a.subrange(1, a.len() as int);
        let y = b.subrange(1, b.len() as int);
        bytes_before_total(x, y);
        if a[0] == b[0] && x == y {
            assert(a =~= seq![a[0]] + x);
            assert(b =~= seq![b[0]] + y);
        }
    } else if a.len() == 0 && b.len() == 0 {
        assert(a =~= b);
    }
}

pub proof fn bytes_before_transitive(a: Seq<u8>, b: Seq<u8>, c: Seq<u8>)
    requires
        bytes_before(a, b),
        bytes_before(b, c),
    ensures
        bytes_before(a, c),
    decreases a.len(),
{
    if a.len() > 0 && a[0] == b[0] && b[0] == c[0] {
        bytes_before_transitive(
            a.subrange(1, a.len() as int),
            b.subrange(1, b.len() as int),
            c.subrange(1, c.len() as int),
        );
    }
}

/// Does `a` come before `b`?
fn comes_before(a: &[u8], b: &[u8]) -> (r: bool)
    ensures
        r == bytes_before(a@, b@),
{
    let mut i: usize = 0;
    assert(a@.subrange(0, a@.len() as int) =~= a@);
    assert(b@.subrange(0, b@.len() as int) =~= b@);
    while i < a.len() && i < b.len()
        invariant
            i <= a@.len(),
            i <= b@.len(),
            bytes_before(a@, b@) == bytes_before(
                a@.subrange(i as int, a@.len() as int),
                b@.subrange(i as int, b@.len() as int),
            ),
        decreases a@.len() - i,
    {
        let ghost x = a@.subrange(i as int, a@.len() as int);
        let ghost y = b@.subrange(i as int, b@.len() as int);
        if a[i] != b[i] {
            return a[i] < b[i];
        }
        assert(x.subrange(1, x.len() as int) =~= a@.subrange(i + 1, a@.len() as int));
        assert(y.subrange(1, y.len() as int) =~= b@.subrange(i + 1, b@.len() as int));
        i += 1;
    }
    i < b.len()
}

/// Does entry `i` come before entry `j`? Equal keys stay in the order in which they
/// came.
pub open spec fn entry_before(keys: Seq<Seq<u8>>, i: int, j: int) -> bool {
    bytes_before(keys[i], keys[j]) || (keys[i] == keys[j] && i < j)
}

/// The entries `lo..hi`, each once, in order.
pub open spec fn range_in_order(keys: Seq<Seq<u8>>, lo: int, hi: int, order: Seq<usize>) -> bool {
    &&& order.len() == hi - lo
    &&& forall|p: int| 0 <= p < order.len() ==> lo <= #[trigger] order[p] < hi
    &&& forall|p: int, q: int|
        0 <= p < q < order.len() ==> entry_before(
            keys,
            #[trigger] order[p] as int,
            #[trigger] order[q] as int,
        )
    &&& forall|x: usize| lo <= x < hi ==> #[trigger] order.contains(x)
}

/// The entries of `keys`, each once, in the order of their keys.
pub open spec fn in_order(keys: Seq<Seq<u8>>, order: Seq<usize>) -> bool {
    range_in_order(keys, 0, keys.len() as int, order)
}

proof fn entry_before_asymmetric(keys: Seq<Seq<u8>>, i: int, j: int)
    requires
        entry_before(keys, i, j),
    ensures
        !entry_before(keys, j, i),
{
    bytes_before_asymmetric(keys[i], keys[j]);
    if keys[i] == keys[j] {
        bytes_before_asymmetric(keys[i], keys[i]);
    }
}

/// There is only one order: the keys decide it.
pub proof fn in_order_unique(keys: Seq<Seq<u8>>, a: Seq<usize>, b: Seq<usize>)
    requires
        in_order(keys, a),
        in_order(keys, b),
    ensures
        a == b,
{
    assert forall|i: int| 0 <= i < a.len() implies a[i] == b[i] by {
        same_until(keys, a, b, i);
    }
    assert(a =~= b);
}

proof fn same_until(keys: Seq<Seq<u8>>, a: Seq<usize>, b: Seq<usize>, i: int)
    requires
        in_order(keys, a),
        in_order(keys, b),
        0 <= i < a.len(),
    ensures
        forall|p: int| 0 <= p <= i ==> a[p] == b[p],
    decreases i,
{
    if i > 0 {
        same_until(keys, a, b, i - 1);
    }
    if a[i] != b[i] {
        assert(b.contains(a[i]));
        let j = choose|j: int| 0 <= j < b.len() && b[j] == a[i];
        assert(a.contains(b[i]));
        let m = choose|m: int| 0 <= m < a.len() && a[m] == b[i];
        // neither stands among the first entries, which are the same in both
        if j < i {
            assert(a[j] == b[j]);
            assert(entry_before(keys, a[j] as int, a[i] as int));
            entry_before_asymmetric(keys, a[j] as int, a[i] as int);
        }
        if m < i {
            assert(a[m] == b[m]);
            assert(entry_before(keys, b[m] as int, b[i] as int));
            entry_before_asymmetric(keys, b[m] as int, b[i] as int);
        }
        assert(entry_before(keys, b[i] as int, b[j] as int));
        assert(entry_before(keys, a[i] as int, a[m] as int));
        entry_before_asymmetric(keys, b[i] as int, a[i] as int);
    }
}

/// The order of the entries of a dict with these keys.
pub open spec fn sorted_order(keys: Seq<Seq<u8>>) -> Seq<usize> {
    choose|o: Seq<usize>| in_order(keys, o)
}

/// Keys by their bytes.
pub open spec fn key_bytes(keys: Seq<Vec<u8>>) -> Seq<Seq<u8>> {
    Seq::new(keys.len(), |i: int| keys[i]@)
}

proof fn entry_before_transitive(keys: Seq<Seq<u8>>, i: int, j: int, k: int)
    requires
        entry_before(keys, i, j),
        entry_before(keys, j, k),
    ensures
        entry_before(keys, i, k),
{
    if bytes_before(keys[i], keys[j]) && bytes_before(keys[j], keys[k]) {
        bytes_before_transitive(keys[i], keys[j], keys[k]);
    }
}

/// Is the run `out`, whose last entry came from before `a[i]` and `b[j]`, continued
/// in order by either of them?
spec fn merged(
    keys: Seq<Seq<u8>>,
    a: Seq<usize>,
    b: Seq<usize>,
    i: int,
    j: int,
    out: Seq<usize>,
) -> bool {
    &&& 0 <= i <= a.len() && 0 <= j <= b.len()
    &&& out.len() == i + j
    &&& forall|p: int, q: int|
        0 <= p < q < out.len() ==> entry_before(
            keys,
            #[trigger] out[p] as int,
            #[trigger] out[q] as int,
        )
    &&& forall|p: int, q: int|
        0 <= p < out.len() && i <= q < a.len() ==> entry_before(
            keys,
            #[trigger] out[p] as int,
            #[trigger] a[q] as int,
        )
    &&& forall|p: int, q: int|
        0 <= p < out.len() && j <= q < b.len() ==> entry_before(
            keys,
            #[trigger] out[p] as int,
            #[trigger] b[q] as int,
        )
    &&& forall|p: int| 0 <= p < i ==> out.contains(#[trigger] a[p])
    &&& forall|p: int| 0 <= p < j ==> out.contains(#[trigger] b[p])
}

proof fn merged_push(
    keys: Seq<Seq<u8>>,
    a: Seq<usize>,
    b: Seq<usize>,
    i: int,
    j: int,
    out: Seq<usize>,
)
    requires
        merged(keys, a, b, i, j, out),
        i < a.len(),
        forall|p: int, q: int|
            0 <= p < q < a.len() ==> entry_before(
                keys,
                #[trigger] a[p] as int,
                #[trigger] a[q] as int,
            ),
        forall|q: int| j <= q < b.len() ==> entry_before(keys, a[i] as int, #[trigger] b[q] as int),
    ensures
        merged(keys, a, b, i + 1, j, out.push(a[i])),
{
    let next = out.push(a[i]);
    assert forall|p: int| 0 <= p < i + 1 implies next.contains(#[trigger] a[p]) by {
        if p < i {
            assert(out.contains(a[p]));
            let m = choose|m: int| 0 <= m < out.len() && out[m] == a[p];
            assert(next[m] == a[p]);
        } else {
            assert(next[out.len() as int] == a[i]);
        }
    }
    assert forall|p: int| 0 <= p < j implies next.contains(#[trigger] b[p]) by {
        assert(out.contains(b[p]));
        let m = choose|m: int| 0 <= m < out.len() && out[m] == b[p];
        assert(next[m] == b[p]);
    }
}

proof fn merged_swap(
    keys: Seq<Seq<u8>>,
    a: Seq<usize>,
    b: Seq<usize>,
    i: int,
    j: int,
    out: Seq<usize>,
)
    requires
        merged(keys, a, b, i, j, out),
    ensures
        merged(keys, b, a, j, i, out),
{
}

/// Merges two runs in order into one.
fn merge(
    keys: &Vec<Vec<u8>>,
    a: &Vec<usize>,
    b: &Vec<usize>,
    Ghost(lo): Ghost<int>,
    Ghost(mid): Ghost<int>,
    Ghost(hi): Ghost<int>,
) -> (out: Vec<usize>)
    requires
        0 <= lo <= mid <= hi <= keys@.len(),
        range_in_order(key_bytes(keys@), lo, mid, a@),
        range_in_order(key_bytes(keys@), mid, hi, b@),
    ensures
        range_in_order(key_bytes(keys@), lo, hi, out@),
{
    let ghost kb = key_bytes(keys@);
    let mut out: Vec<usize> = Vec::new();
    let mut i: usize = 0;
    let mut j: usize = 0;
    while i < a.len() || j < b.len()
        invariant
            0 <= lo <= mid <= hi <= keys@.len(),
            kb == key_bytes(keys@),
            range_in_order(kb, lo, mid, a@),
            range_in_order(kb, mid, hi, b@),
            merged(kb, a@, b@, i as int, j as int, out@),
            forall|p: int| 0 <= p < out@.len() ==> lo <= #[trigger] out@[p] < hi,
        decreases a@.len() - i + b@.len() - j,
    {
        let ghost before = out@;
        // the left entry goes first unless the right key comes before it
        let left: bool = if i >= a.len() {
            false
        } else if j >= b.len() {
            true
        } else {
            assert(a@[i as int] < hi && b@[j as int] < hi);
            !comes_before(keys[b[j]].as_slice(), keys[a[i]].as_slice())
        };
        if left {
            let x: usize = a[i];
            proof {
                assert forall|q: int| j <= q < b@.len() implies entry_before(
                    kb,
                    x as int,
                    #[trigger] b@[q] as int,
                ) by {
                    bytes_before_total(kb[x as int], kb[b@[j as int] as int]);
                    assert(entry_before(kb, x as int, b@[j as int] as int));
                    if q > j {
                        entry_before_transitive(kb, x as int, b@[j as int] as int, b@[q] as int);
                    }
                }
                merged_push(kb, a@, b@, i as int, j as int, before);
            }
            out.push(x);
            i += 1;
        } else {
            let x: usize = b[j];
            proof {
                assert forall|q: int| i <= q < a@.len() implies entry_before(
                    kb,
                    x as int,
                    #[trigger] a@[q] as int,
                ) by {
                    assert(entry_before(kb, x as int, a@[i as int] as int));
                    if q > i {
                        entry_before_transitive(kb, x as int, a@[i as int] as int, a@[q] as int);
                    }
                }
                merged_swap(kb, a@, b@, i as int, j as int, before);
                merged_push(kb, b@, a@, j as int, i as int, before);
                merged_swap(kb, b@, a@, j + 1, i as int, before.push(x));
            }
            out.push(x);
            j += 1;
        }
    }
    proof {
        assert forall|x: usize| lo <= x < hi implies #[trigger] out@.contains(x) by {
            if x < mid {
                assert(a@.contains(x));
                let m = choose|m: int| 0 <= m < a@.len() && a@[m] == x;
                assert(out@.contains(a@[m]));
            } else {
                assert(b@.contains(x));
                let m = choose|m: int| 0 <= m < b@.len() && b@[m] == x;
                assert(out@.contains(b@[m]));
            }
        }
    }
    out
}

/// The entries `lo..hi` in order.
fn sort_range(keys: &Vec<Vec<u8>>, lo: usize, hi: usize) -> (out: Vec<usize>)
    requires
        lo <= hi <= keys@.len(),
    ensures
        range_in_order(key_bytes(keys@), lo as int, hi as int, out@),
    decreases hi - lo,
{
    if hi - lo <= 1 {
        let mut out: Vec<usize> = Vec::new();
        if lo < hi {
            out.push(lo);
            assert(out@[0] == lo);
        }
        return out;
    }
    let mid: usize = lo + (hi - lo) / 2;
    let a: Vec<usize> = sort_range(keys, lo, mid);
    let b: Vec<usize> = sort_range(keys, mid, hi);
    merge(keys, &a, &b, Ghost(lo as int), Ghost(mid as int), Ghost(hi as int))
}

/// The order in which the entries of a dict are written when its keys are sorted.
pub fn sort_keys(keys: &Vec<Vec<u8>>) -> (order: Vec<usize>)
    ensures
        in_order(key_bytes(keys@), order@),
        order@ == sorted_order(key_bytes(keys@)),
{
    let order: Vec<usize> = sort_range(keys, 0, keys.len());
    proof {
        in_order_unique(key_bytes(keys@), order@, sorted_order(key_bytes(keys@)));
    }
    order
}

/// An order with entry `x` put in its place.
spec fn with_entry(keys: Seq<Seq<u8>>, order: Seq<usize>, x: usize) -> Seq<usize>
    decreases order.len(),
{
    if order.len() == 0 {
        seq![x]
    } else if entry_before(keys, order.last() as int, x as int) {
        order.push(x)
    } else {
        with_entry(keys, order.drop_last(), x).push(order.last())
    }
}

/// Is every entry of `order` before the next?
spec fn ascending(keys: Seq<Seq<u8>>, order: Seq<usize>) -> bool {
    forall|p: int, q: int|
        0 <= p < q < order.len() ==> entry_before(
            keys,
            #[trigger] order[p] as int,
            #[trigger] order[q] as int,
        )
}

proof fn with_entry_ascending(keys: Seq<Seq<u8>>, order: Seq<usize>, x: usize)
    requires
        ascending(keys, order),
        forall|p: int| 0 <= p < order.len() ==> #[trigger] order[p] != x,
    ensures
        ascending(keys, with_entry(keys, order, x)),
        with_entry(keys, order, x).len() == order.len() + 1,
        forall|y: usize|
            #[trigger] with_entry(keys, order, x).contains(y) <==> order.contains(y) || y == x,
    decreases order.len(),
{
    let o = with_entry(keys, order, x);
    if order.len() == 0 {
        assert(o[0] == x);
        assert forall|y: usize| #[trigger] o.contains(y) <==> order.contains(y) || y == x by {
            if y == x {
                assert(o[0] == y);
            }
        }
    } else if entry_before(keys, order.last() as int, x as int) {
        assert forall|p: int, q: int| 0 <= p < q < o.len() implies entry_before(
            keys,
            #[trigger] o[p] as int,
            #[trigger] o[q] as int,
        ) by {
            if q == order.len() && p < order.len() - 1 {
                assert(entry_before(keys, order[p] as int, order[order.len() - 1] as int));
                entry_before_transitive(keys, order[p] as int, order.last() as int, x as int);
            }
        }
        assert forall|y: usize| #[trigger] o.contains(y) <==> order.contains(y) || y == x by {
            if order.contains(y) {
                let m = choose|m: int| 0 <= m < order.len() && order[m] == y;
                assert(o[m] == y);
            }
            if y == x {
                assert(o[order.len() as int] == y);
            }
        }
    } else {
        let init = order.drop_last();
        let last = order.last();
        let rest = with_entry(keys, init, x);
        assert forall|p: int| 0 <= p < init.len() implies #[trigger] init[p] != x by {
            assert(order[p] != x);
        }
        with_entry_ascending(keys, init, x);
        assert(order[order.len() - 1] != x);
        assert(entry_before(keys, x as int, last as int)) by {
            bytes_before_total(keys[x as int], keys[last as int]);
        }
        assert forall|p: int, q: int| 0 <= p < q < o.len() implies entry_before(
            keys,
            #[trigger] o[p] as int,
            #[trigger] o[q] as int,
        ) by {
            if q == rest.len() {
                assert(rest.contains(rest[p]));
                if rest[p] != x {
                    let m = choose|m: int| 0 <= m < init.len() && init[m] == rest[p];
                    assert(entry_before(keys, order[m] as int, order[order.len() - 1] as int));
                }
            }
        }
        assert forall|y: usize| #[trigger] o.contains(y) <==> order.contains(y) || y == x by {
            if o.contains(y) {
                let m = choose|m: int| 0 <= m < o.len() && o[m] == y;
                if m < rest.len() {
                    assert(rest.contains(y));
                    if init.contains(y) {
                        let k = choose|k: int| 0 <= k < init.len() && init[k] == y;
                        assert(order[k] == y);
                    }
                } else {
                    assert(order[order.len() - 1] == y);
                }
            }
            if order.contains(y) {
                let m = choose|m: int| 0 <= m < order.len() && order[m] == y;
                if m < init.len() {
                    assert(init[m] == y);
                    assert(rest.contains(y));
                    let k = choose|k: int| 0 <= k < rest.len() && rest[k] == y;
                    assert(o[k] == y);
                } else {
                    assert(o[rest.len() as int] == y);
                }
            }
            if y == x {
                assert(rest.contains(x));
                let k = choose|k: int| 0 <= k < rest.len() && rest[k] == x;
                assert(o[k] == x);
            }
        }
    }
}

proof fn order_exists(keys: Seq<Seq<u8>>, n: int) -> (o: Seq<usize>)
    requires
        0 <= n <= keys.len(),
        n <= usize::MAX,
    ensures
        range_in_order(keys, 0, n, o),
    decreases n,
{
    if n == 0 {
        Seq::empty()
    } else {
        let before = order_exists(keys, n - 1);
        let x = (n - 1) as usize;
        with_entry_ascending(keys, before, x);
        let o = with_entry(keys, before, x);
        assert forall|p: int| 0 <= p < o.len() implies 0 <= #[trigger] o[p] < n by {
            assert(o.contains(o[p]));
        }
        o
    }
}

/// Keys can always be put in order.
pub proof fn sorted_order_in_order(keys: Seq<Seq<u8>>)
    requires
        keys.len() <= usize::MAX,
    ensures
        in_order(keys, sorted_order(keys)),
{
    let o = order_exists(keys, keys.len() as int);
    assert(in_order(keys, o));
}

} // verus!

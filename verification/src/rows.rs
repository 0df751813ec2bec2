//! The order in which the elements of an array are written.
use crate::datetime::dt64_unit_of;
use crate::decline::{classified, elem_layout, elem_layout_injective, known_layout, Elem, Why};
use crate::document::{numpy_told, value_text, value_valid, Place, Value};
use crate::grammar::{read_doc, Doc};
use crate::meaning::{
    array_plan, dim_doc, element_doc, entries_doc, entries_split, entry_at, entry_doc, value_doc,
    value_spelled, value_stands,
};
use crate::numpy::{
    count, count_nonneg, dim_text, element_text, entries_text, entry_text, packed, Plan, Told,
};
use crate::opts::{on, OPT_SERIALIZE_NUMPY};
use vstd::prelude::*;

verus! {

/// What stands in nested arrays at these indices, the outermost first.
pub open spec fn doc_at(d: Doc, idx: Seq<int>) -> Doc
    decreases idx.len(),
{
    if idx.len() == 0 {
        d
    } else {
        doc_at(d->Array_0[idx[0]], idx.subrange(1, idx.len() as int))
    }
}

/// The number of the element with these indices when the last index moves first.
pub open spec fn row_major(shape: Seq<isize>, idx: Seq<int>) -> int
    decreases idx.len(),
{
    if idx.len() == 0 {
        0
    } else {
        row_major(shape, idx.drop_last()) * shape[idx.len() - 1] + idx.last()
    }
}

/// Are these the indices of an element, or of a part of the array?
pub open spec fn within(shape: Seq<isize>, idx: Seq<int>) -> bool {
    idx.len() <= shape.len() && forall|d: int| 0 <= d < idx.len() ==> 0 <= #[trigger] idx[d]
        < shape[d]
}

/// A dimension is a list of as many entries as its length.
proof fn dim_entries(p: Plan, dim: int, k: int)
    requires
        0 <= dim < p.shape.len(),
        p.shape[dim] >= 0,
        dim_text(p, dim, k) is Ok,
    ensures
        dim_doc(p, dim, k) == Doc::Array(entries_doc(p, dim, k, p.shape[dim] as int)),
        entries_doc(p, dim, k, p.shape[dim] as int).len() == p.shape[dim],
        forall|j: int|
            0 <= j < p.shape[dim] ==> #[trigger] entries_doc(p, dim, k, p.shape[dim] as int)[j]
                == entry_doc(p, dim, k + j * count(p.shape, dim + 1)) && (dim + 1
                < p.shape.len() ==> dim_text(
                p,
                dim + 1,
                k + j * count(p.shape, dim + 1),
            ) is Ok),
{
    let n = p.shape[dim] as int;
    if n > 0 {
        entries_split(p, dim, k, n);
        assert forall|j: int| 0 <= j < n implies #[trigger] entries_doc(p, dim, k, n)[j]
            == entry_doc(p, dim, k + j * count(p.shape, dim + 1)) && (dim + 1 < p.shape.len()
            ==> dim_text(p, dim + 1, k + j * count(p.shape, dim + 1)) is Ok) by {
            assert(entry_at(p, dim, k, j) is Ok);
        }
    }
}

/// Going down the dimensions from `dim` on leads to the element in row-major order. `idx`
/// are all indices, of which the first `dim` have been taken.
proof fn path(p: Plan, dim: int, idx: Seq<int>)
    requires
        0 <= dim < p.shape.len(),
        idx.len() == p.shape.len(),
        within(p.shape, idx),
        forall|d: int| 0 <= d < p.shape.len() ==> #[trigger] p.shape[d] >= 0,
        dim_text(
            p,
            dim,
            row_major(p.shape, idx.subrange(0, dim)) * count(p.shape, dim),
        ) is Ok,
    ensures
        doc_at(
            dim_doc(p, dim, row_major(p.shape, idx.subrange(0, dim)) * count(p.shape, dim)),
            idx.subrange(dim, idx.len() as int),
        ) == element_doc(p, row_major(p.shape, idx)),
    decreases p.shape.len() - dim,
{
    let h = row_major(p.shape, idx.subrange(0, dim));
    let c = count(p.shape, dim + 1);
    let k = h * count(p.shape, dim);
    let i = idx[dim];
    let n = p.shape[dim] as int;
    assert(0 <= i < n);
    dim_entries(p, dim, k);
    let rest = idx.subrange(dim, idx.len() as int);
    assert(rest[0] == i);
    assert(rest.subrange(1, rest.len() as int) =~= idx.subrange(dim + 1, idx.len() as int));
    let next = idx.subrange(0, dim + 1);
    assert(next.drop_last() =~= idx.subrange(0, dim));
    assert(next.last() == i);
    let h2 = row_major(p.shape, next);
    assert(h2 == h * n + i);
    assert(k == h * (n * c));
    assert(k + i * c == h2 * c) by (nonlinear_arith)
        requires
            k == h * (n * c),
            h2 == h * n + i,
    ;
    let e = entries_doc(p, dim, k, n)[i];
    assert(e == entry_doc(p, dim, h2 * c));
    if dim + 1 == p.shape.len() {
        assert(c == 1);
        assert(next =~= idx);
        assert(rest.subrange(1, rest.len() as int).len() == 0);
        assert(h2 * c == h2) by (nonlinear_arith)
            requires
                c == 1,
        ;
        assert(doc_at(dim_doc(p, dim, k), rest) == doc_at(e, rest.subrange(1, rest.len() as int)));
    } else {
        path(p, dim + 1, idx);
        assert(doc_at(dim_doc(p, dim, k), rest) == doc_at(e, rest.subrange(1, rest.len() as int)));
    }
}

/// An array that is written reads as nested lists with as many entries as its dimensions
/// say, and at the indices of an element stands what that element stands for: the last
/// index moves first, element by element through the data.
pub proof fn elements_stand_in_row_major_order(v: Value, at: Place, idx: Seq<int>)
    requires
        v.body is Array,
        v.exact,
        on(at.opts, OPT_SERIALIZE_NUMPY),
        value_valid(v),
        value_spelled(v),
        numpy_told(v, at) is Text,
        idx.len() == v.body->Array_info.shape@.len(),
        within(v.body->Array_info.shape@, idx),
    ensures
        value_text(v, at) matches Ok(t) && read_doc(t) matches Some((d, rest)) && rest.len() == 0
            && d is Array && d->Array_0.len() == v.body->Array_info.shape@[0] && doc_at(d, idx)
            == element_doc(array_plan(v, at), row_major(v.body->Array_info.shape@, idx)),
{
    let p = array_plan(v, at);
    let info = v.body->Array_info;
    value_stands(v, at);
    let t = value_text(v, at)->Ok_0;
    let d = value_doc(v, at);
    assert(read_doc(t + Seq::empty()) == Some((d, Seq::<u8>::empty())));
    assert(t + Seq::empty() =~= t);
    assert(packed(info, info.itemsize as int));
    assert(idx.subrange(0, 0).len() == 0);
    assert(row_major(p.shape, idx.subrange(0, 0)) * count(p.shape, 0) == 0);
    assert(dim_text(p, 0, 0) is Ok);
    dim_entries(p, 0, 0);
    path(p, 0, idx);
    assert(idx.subrange(0, idx.len() as int) =~= idx);
}

/// Have the elements from `lo` to before `hi` all a text?
pub open spec fn all_written(p: Plan, lo: int, hi: int) -> bool {
    forall|e: int| lo <= e < hi ==> #[trigger] element_text(p, e) is Ok
}

/// Is element `e` the first from `lo` on that has no text, for the reason `why`?
pub open spec fn first_fault(p: Plan, lo: int, hi: int, e: int, why: Why) -> bool {
    lo <= e < hi && element_text(p, e) == Err::<Seq<u8>, Why>(why) && all_written(p, lo, e)
}

/// Is this the outcome of writing the elements from `lo` to before `hi`: a text if they
/// all have one, else the reason of the first that has none?
pub open spec fn outcome(p: Plan, lo: int, hi: int, r: Result<Seq<u8>, Why>) -> bool {
    match r {
        Ok(_) => all_written(p, lo, hi),
        Err(why) => exists|e: int| first_fault(p, lo, hi, e, why),
    }
}

/// A part of an array has a text if all its elements have one, and else the reason of the
/// first of them that has none.
pub proof fn first_fault_decides(p: Plan, dim: int, k: int)
    requires
        0 <= dim < p.shape.len(),
        forall|d: int| 0 <= d < p.shape.len() ==> #[trigger] p.shape[d] >= 0,
    ensures
        outcome(p, k, k + count(p.shape, dim), dim_text(p, dim, k)),
    decreases p.shape.len() - dim, 1int, 0int,
{
    let n = p.shape[dim] as int;
    let c = count(p.shape, dim + 1);
    assert(p.shape[dim] >= 0);
    count_nonneg(p.shape, dim + 1);
    assert(count(p.shape, dim) == n * c);
    if n == 0 {
        assert(n * c == 0) by (nonlinear_arith)
            requires
                n == 0,
        ;
    } else {
        entries_outcome(p, dim, k, n);
        if let Err(why) = entries_text(p, dim, k, n) {
            assert(dim_text(p, dim, k) == Err::<Seq<u8>, Why>(why));
        }
    }
}

proof fn entries_outcome(p: Plan, dim: int, k: int, i: int)
    requires
        0 <= dim < p.shape.len(),
        0 <= i <= p.shape[dim],
        forall|d: int| 0 <= d < p.shape.len() ==> #[trigger] p.shape[d] >= 0,
    ensures
        outcome(p, k, k + i * count(p.shape, dim + 1), entries_text(p, dim, k, i)),
    decreases p.shape.len() - dim, 0int, i,
{
    let c = count(p.shape, dim + 1);
    count_nonneg(p.shape, dim + 1);
    if i == 0 {
        assert(i * c == 0) by (nonlinear_arith)
            requires
                i == 0,
        ;
    } else {
        entries_outcome(p, dim, k, i - 1);
        let mid = k + (i - 1) * c;
        assert(mid + c == k + i * c && mid >= k) by (nonlinear_arith)
            requires
                mid == k + (i - 1) * c,
                i >= 1,
                c >= 0,
        ;
        match entries_text(p, dim, k, i - 1) {
            Err(why) => {
                let e = choose|e: int| first_fault(p, k, mid, e, why);
                assert(first_fault(p, k, k + i * c, e, why));
            },
            Ok(_) => {
                let hi = mid + c;
                let r = entry_text(p, dim, mid);
                if dim + 1 == p.shape.len() {
                    assert(c == 1);
                    if let Err(why) = r {
                        assert(first_fault(p, mid, hi, mid, why));
                    }
                } else {
                    first_fault_decides(p, dim + 1, mid);
                }
                assert(outcome(p, mid, hi, r));
                match r {
                    Err(why) => {
                        let e = choose|e: int| first_fault(p, mid, hi, e, why);
                        assert(all_written(p, k, e));
                        assert(first_fault(p, k, k + i * c, e, why));
                    },
                    Ok(_) => {
                        assert(all_written(p, k, k + i * c));
                    },
                }
            },
        }
    }
}

/// A packed array in native order, of an element type that is written, is written if all
/// its elements have a text; else it is declined for the first that has none.
pub proof fn arrays_are_written_whole(v: Value, at: Place, elem: Elem)
    requires
        v.body is Array,
        v.exact,
        on(at.opts, OPT_SERIALIZE_NUMPY),
        0 <= at.depth <= 254,
        v.body->Array_info.two == 2,
        v.body->Array_info.flags & 1 != 0,
        v.body->Array_info.flags & 0x200 != 0,
        v.body->Array_info.nd >= 1,
        elem_layout(elem) == (
            v.body->Array_info.typekind,
            v.body->Array_info.itemsize as int,
        ),
        packed(v.body->Array_info, v.body->Array_info.itemsize as int),
        elem == Elem::Dt64 && count(v.body->Array_info.shape@, 0) != 0 ==> dt64_unit_of(
            v.body->Array_dtype@,
        ) is Some,
    ensures
        array_plan(v, at).elem == elem,
        all_written(array_plan(v, at), 0, count(v.body->Array_info.shape@, 0)) <==> numpy_told(
            v,
            at,
        ) is Text,
        numpy_told(v, at) is Text || exists|e: int, why: Why| #[trigger]
            first_fault(
                array_plan(v, at),
                0,
                count(v.body->Array_info.shape@, 0),
                e,
                why,
            ) && numpy_told(v, at) == Told::Declined(why),
{
    let info = v.body->Array_info;
    let p = array_plan(v, at);
    let n = count(info.shape@, 0);
    assert(known_layout(info.typekind, info.itemsize as int));
    let e = classified(info.flags, info.nd as int, info.typekind, info.itemsize as int)->Ok_0;
    elem_layout_injective(elem, e);
    first_fault_decides(p, 0, 0);
    match dim_text(p, 0, 0) {
        Ok(_) => {},
        Err(why) => {
            let e = choose|e: int| first_fault(p, 0, n, e, why);
            assert(first_fault(p, 0, n, e, why));
            assert(element_text(p, e) is Err);
        },
    }
}

} // verus!

//! What is written can be read: it nests no deeper than is read, its strings are UTF-8
//! and its numbers are within range, if those of the value are.
use crate::accept::{
    exponent, fraction_len, is_finite, is_whole, ordinary, parsable, significand, unsigned,
};
use crate::datetime::{digit_run_is, dt64_parts, dt64_unit_of, Dt64Unit};
use crate::decline::{classified, elem_layout, Elem, Why};
use crate::document::{
    default_text, dict_text, entries_of, entry_keys, items_of, list_text, numpy_told, parts_valid,
    value_text, value_valid, Body, Place, Value,
};
use crate::encode::{key_told, keys_told, shown_offset, IntRead, KeyRead, MAX_DEPTH};
use crate::double::rounds_to;
use crate::grammar::{is_number, pairs, Doc};
use crate::literal::null_text;
use crate::little_endian::{le_value, le_value_bound, pow256};
use crate::meaning::{
    array_plan, date_stands, datetime_stands, dict_doc, dim_doc, element_bytes, element_doc,
    entries_doc, entries_docs, entries_docs_are, entries_split, entry_at, entry_order,
    entry_within, float_text, items_doc, items_split, keys_told_each, leaf_doc, numpy_written_natively, ordered_keys,
    own_entries_split, plain, sorted_entries_split, time_stands, unquoted, value_doc,
};
use crate::number::{int_text, nat_text, nat_text_reads_back, pow10};
use crate::numpy::{
    count, count_nonneg, dim_text, element_text, floats_matter, is_float, leaf_text, packed, signed,
    Plan,
};
use crate::opts::{
    on, OPT_NAIVE_UTC, OPT_PASSTHROUGH_DATETIME, OPT_PASSTHROUGH_SUBCLASS, OPT_SORT_KEYS,
};
use crate::reading::doubles_below_infinity_are_digits;
use crate::sort::{sorted_order, sorted_order_in_order};
use crate::swar::digit;
use crate::utf8_text::{ascii_valid, utf8_doc};
use vstd::arithmetic::power2::{
    lemma2_to64, lemma2_to64_rest, lemma_pow2_adds, lemma_pow2_strictly_increases, pow2,
};
use vstd::prelude::*;
use vstd::utf8::valid_utf8;

verus! {

/// An array has this many dimensions at most.
pub const MAX_DIMS: u32 = 64;

/// Is this the text of a float that can be read?
pub open spec fn float_readable(t: Seq<u8>) -> bool {
    t == null_text() || (ordinary(t) && is_finite(t))
}

/// Is `digits` the decimal text of the double with these bits: a number with a fraction or
/// an exponent, and nearer to it than to any other?
pub open spec fn spells(digits: Seq<u8>, bits: u64) -> bool {
    is_number(digits) && !is_whole(digits) && ordinary(digits) && rounds_to(digits, bits)
}

/// Are the strings and keys in a value UTF-8, its floats spelled as themselves, the floats
/// of its numpy objects spelled as finite numbers, and the dimensions of its arrays as few
/// as numpy allows?
pub open spec fn value_readable(v: Value) -> bool
    decreases v,
{
    &&& match v.body {
        Body::Float { bits, digits } => bits % 0x8000_0000_0000_0000 < 0x7ff0_0000_0000_0000
            ==> spells(digits@, bits),
        Body::Str(Some(s)) => valid_utf8(s@),
        Body::Array { info, digits, .. } => info.nd <= MAX_DIMS && (floats_matter(info) ==> {
            let elem = classified(
                info.flags,
                info.nd as int,
                info.typekind,
                info.itemsize as int,
            )->Ok_0;
            let size = elem_layout(elem).1;
            forall|k: int|
                0 <= k < digits@.len() ==> float_readable(
                    float_text(
                        elem,
                        info.data@.subrange(k * size, k * size + size),
                        (#[trigger] digits@[k])@,
                    ),
                )
        }),
        Body::Scalar { elem, data, digits, .. } => is_float(elem) ==> float_readable(
            float_text(elem, data@, digits@),
        ),
        Body::List(items) => forall|i: int|
            0 <= i < items@.len() ==> value_readable(#[trigger] items@[i]),
        Body::Tuple(items) => forall|i: int|
            0 <= i < items@.len() ==> value_readable(#[trigger] items@[i]),
        Body::Dict(entries) => forall|i: int|
            0 <= i < entries@.len() ==> value_readable((#[trigger] entries@[i]).value)
                && key_readable(entries@[i].key),
        _ => true,
    }
    &&& v.reply@.len() > 0 ==> value_readable(v.reply@[0])
}

/// Is a key that has text UTF-8?
pub open spec fn key_readable(key: KeyRead) -> bool {
    key matches KeyRead::Utf8(k) ==> valid_utf8(k@)
}

/// What stands in such a value is so too.
pub proof fn parts_readable(v: Value)
    requires
        value_readable(v),
    ensures
        forall|i: int| 0 <= i < items_of(v).len() ==> value_readable(#[trigger] items_of(v)[i]),
        forall|i: int|
            0 <= i < entries_of(v).len() ==> value_readable((#[trigger] entries_of(v)[i]).value)
                && key_readable(entries_of(v)[i].key),
        v.reply@.len() > 0 ==> value_readable(v.reply@[0]),
{
}

/// Can the document be read where `n` more levels are allowed?
pub open spec fn readable(d: Doc, n: nat) -> bool {
    parsable(d, n) && utf8_doc(d)
}

/// What may be nested deeper may be nested deeper still.
pub proof fn parsable_more(d: Doc, m: nat, n: nat)
    requires
        parsable(d, m),
        m <= n,
    ensures
        parsable(d, n),
    decreases m,
{
    match d {
        Doc::Array(ds) => {
            assert forall|i: int| 0 <= i < ds.len() implies parsable(
                #[trigger] ds[i],
                (n - 1) as nat,
            ) by {
                parsable_more(ds[i], (m - 1) as nat, (n - 1) as nat);
            }
        },
        Doc::Object(ps) => {
            assert forall|i: int| 0 <= i < ps.len() implies parsable(
                (#[trigger] ps[i]).1,
                (n - 1) as nat,
            ) by {
                parsable_more(ps[i].1, (m - 1) as nat, (n - 1) as nat);
            }
        },
        _ => {},
    }
}

/// An integer within 64 bits is no infinity.
proof fn int_finite(v: int)
    requires
        i64::MIN <= v <= u64::MAX,
    ensures
        is_finite(int_text(v)),
        ordinary(int_text(v)),
{
    let t = int_text(v);
    let n = (if v < 0 {
        -v
    } else {
        v
    }) as nat;
    let u = nat_text(n);
    nat_text_reads_back(n);
    assert(digit(u[0]));
    assert(unsigned(t) =~= u);
    digit_run_is(u, u.len() as int);
    assert(fraction_len(t) == 0);
    assert(u.subrange(0, u.len() as int) =~= u);
    assert(pow10(0) == 1);
    assert(significand(t) == n);
    assert(exponent(t) == 0);
    assert(n < pow2(1024) - pow2(970)) by {
        lemma2_to64();
        lemma2_to64_rest();
        lemma_pow2_strictly_increases(64, 970);
        lemma_pow2_strictly_increases(970, 1023);
        lemma_pow2_adds(1, 1023);
    }
}

proof fn plain_readable(s: Seq<u8>, n: nat)
    requires
        plain(s),
    ensures
        readable(Doc::Text(s), n),
{
    ascii_valid(s);
}

proof fn leaf_readable(
    elem: Elem,
    b: Seq<u8>,
    unit: Option<Dt64Unit>,
    digits: Seq<u8>,
    opts: u32,
    t: Seq<u8>,
    n: nat,
)
    requires
        leaf_text(elem, b, unit, digits, opts) == Ok::<Seq<u8>, Why>(t),
        b.len() == elem_layout(elem).1,
        is_float(elem) ==> float_readable(t),
        elem == Elem::Dt64 ==> unit is Some,
    ensures
        readable(leaf_doc(elem, b, t), n),
{
    let v = le_value(b);
    le_value_bound(b);
    reveal_with_fuel(pow256, 9);
    match elem {
        Elem::Bool | Elem::F16 | Elem::F32 | Elem::F64 => {},
        Elem::Dt64 => {
            if let Ok(Some(parts)) = dt64_parts(signed(v, 8) as i64, unit->Some_0) {
                let offset: Option<i64> = if on(opts, OPT_NAIVE_UTC) {
                    Some(0)
                } else {
                    None
                };
                datetime_stands(parts, offset, opts);
                plain_readable(unquoted(t), n);
            }
        },
        Elem::I8 => int_finite(signed(v, 1)),
        Elem::I16 => int_finite(signed(v, 2)),
        Elem::I32 => int_finite(signed(v, 4)),
        Elem::I64 => int_finite(signed(v, 8)),
        _ => int_finite(v as int),
    }
}

/// Is a float element readable, has a `datetime64` element a unit, and is the element
/// within the data?
pub open spec fn element_readable(p: Plan, k: int) -> bool {
    &&& is_float(p.elem) ==> float_readable(element_text(p, k)->Ok_0)
    &&& p.elem == Elem::Dt64 ==> p.unit is Some
    &&& element_bytes(p, k).len() == elem_layout(p.elem).1
}

proof fn dim_readable(p: Plan, dim: int, k: int, n: nat)
    requires
        0 <= dim < p.shape.len(),
        p.shape.len() - dim <= n,
        forall|d: int| 0 <= d < p.shape.len() ==> #[trigger] p.shape[d] >= 0,
        0 <= k,
        k + count(p.shape, dim) <= count(p.shape, 0),
        forall|e: int|
            0 <= e < count(p.shape, 0) && element_text(p, e) is Ok ==> #[trigger] element_readable(
                p,
                e,
            ),
        dim_text(p, dim, k) is Ok,
    ensures
        readable(dim_doc(p, dim, k), n),
    decreases p.shape.len() - dim,
{
    let len = p.shape[dim] as int;
    assert(p.shape[dim] >= 0);
    if len > 0 {
        let docs = entries_doc(p, dim, k, len);
        entries_split(p, dim, k, len);
        assert forall|j: int| 0 <= j < docs.len() implies readable(
            #[trigger] docs[j],
            (n - 1) as nat,
        ) by {
            let at = k + j * count(p.shape, dim + 1);
            assert(entry_at(p, dim, k, j) is Ok);
            entry_within(p.shape, dim, k, j);
            if dim + 1 == p.shape.len() {
                assert(element_readable(p, at));
                leaf_readable(
                    p.elem,
                    element_bytes(p, at),
                    p.unit,
                    if is_float(p.elem) {
                        p.digits[at]@
                    } else {
                        Seq::empty()
                    },
                    p.opts,
                    element_text(p, at)->Ok_0,
                    (n - 1) as nat,
                );
                assert(docs[j] == element_doc(p, at));
            } else {
                dim_readable(p, dim + 1, at, (n - 1) as nat);
            }
        }
        array_readable(docs, n);
    } else {
        assert(entries_doc(p, dim, k, 0) =~= Seq::empty());
        array_readable(Seq::empty(), n);
    }
}

proof fn array_readable(ds: Seq<Doc>, n: nat)
    requires
        n > 0,
        forall|i: int| 0 <= i < ds.len() ==> readable(#[trigger] ds[i], (n - 1) as nat),
    ensures
        readable(Doc::Array(ds), n),
{
    let d = Doc::Array(ds);
    assert forall|i: int| 0 <= i < ds.len() implies parsable(#[trigger] ds[i], (n - 1) as nat)
        && utf8_doc(ds[i]) by {
        assert(readable(ds[i], (n - 1) as nat));
    }
}

proof fn object_readable(ps: Seq<(Seq<u8>, Doc)>, n: nat)
    requires
        n > 0,
        forall|i: int|
            0 <= i < ps.len() ==> valid_utf8((#[trigger] ps[i]).0) && readable(
                ps[i].1,
                (n - 1) as nat,
            ),
    ensures
        readable(Doc::Object(ps), n),
{
    let d = Doc::Object(ps);
    assert forall|i: int| 0 <= i < ps.len() implies parsable(
        (#[trigger] ps[i]).1,
        (n - 1) as nat,
    ) && valid_utf8(ps[i].0) && utf8_doc(ps[i].1) by {
        assert(readable(ps[i].1, (n - 1) as nat));
    }
}

/// How many levels may be nested in a value with `depth` containers around it.
pub open spec fn levels(depth: int) -> nat {
    (MAX_DEPTH - depth + MAX_DIMS) as nat
}

/// What a value that is written stands for can be read.
pub proof fn value_doc_readable(v: Value, at: Place)
    requires
        value_valid(v),
        value_readable(v),
        0 <= at.depth <= MAX_DEPTH,
        value_text(v, at) is Ok,
    ensures
        readable(value_doc(v, at), levels(at.depth)),
    decreases v, 2int, 0int,
{
    parts_readable(v);
    parts_valid(v);
    let native = v.exact || !on(at.opts, OPT_PASSTHROUGH_SUBCLASS);
    let n = levels(at.depth);
    if value_text(v, at) == default_text(v, false, at) || value_text(v, at) == default_text(
        v,
        true,
        at,
    ) {
        if v.reply@.len() > 0 {
            if value_text(v.reply@[0], at.replaced()) is Ok {
                value_doc_readable(v.reply@[0], at.replaced());
            }
        }
    }
    match v.body {
        Body::Null => {},
        Body::Bool(_) => {},
        Body::Int(k) => {
            if native {
                match k {
                    IntRead::Fits(i) => int_finite(i as int),
                    IntRead::Above(Some(i)) => int_finite(i as int),
                    _ => {},
                }
            }
        },
        Body::Float { bits, digits } => doubles_below_infinity_are_digits(bits, digits@),
        Body::Str(_) => {},
        Body::List(_) => {
            if native {
                list_readable(v, at);
            }
        },
        Body::Tuple(_) => {
            if v.exact {
                list_readable(v, at);
            }
        },
        Body::Dict(_) => {
            if native {
                dict_readable(v, at);
            }
        },
        Body::Datetime { parts, offset } => {
            if v.exact && !on(at.opts, OPT_PASSTHROUGH_DATETIME) {
                datetime_stands(parts, shown_offset(offset, at.opts), at.opts);
                plain_readable(value_doc(v, at)->Text_0, n);
            }
        },
        Body::Date { y, mo, d } => {
            if v.exact && !on(at.opts, OPT_PASSTHROUGH_DATETIME) {
                date_stands(y, mo, d);
                plain_readable(value_doc(v, at)->Text_0, n);
            }
        },
        Body::Time { h, mi, s, us, offset } => {
            if v.exact && !on(at.opts, OPT_PASSTHROUGH_DATETIME) {
                time_stands(h, mi, s, us, offset, at.opts);
                plain_readable(value_doc(v, at)->Text_0, n);
            }
        },
        Body::Array { .. } => {
            if numpy_written_natively(v, at) {
                array_value_readable(v, at);
            }
        },
        Body::Scalar { .. } => {
            if numpy_written_natively(v, at) {
                scalar_value_readable(v, at);
            }
        },
        Body::Opaque => {},
    }
}

proof fn scalar_value_readable(v: Value, at: Place)
    requires
        v.body is Scalar,
        value_valid(v),
        value_readable(v),
        numpy_told(v, at) is Text,
    ensures
        readable(
            leaf_doc(v.body->Scalar_elem, v.body->Scalar_data@, numpy_told(v, at)->Text_0),
            levels(at.depth),
        ),
{
    let elem = v.body->Scalar_elem;
    let unit = if elem == Elem::Dt64 {
        dt64_unit_of(v.body->Scalar_dtype@)
    } else {
        None
    };
    leaf_readable(
        elem,
        v.body->Scalar_data@,
        unit,
        v.body->Scalar_digits@,
        at.opts,
        numpy_told(v, at)->Text_0,
        levels(at.depth),
    );
}

proof fn array_value_readable(v: Value, at: Place)
    requires
        v.body is Array,
        value_valid(v),
        value_readable(v),
        0 <= at.depth <= MAX_DEPTH,
        numpy_told(v, at) is Text,
    ensures
        readable(dim_doc(array_plan(v, at), 0, 0), levels(at.depth)),
{
    let info = v.body->Array_info;
    let p = array_plan(v, at);
    let size = elem_layout(p.elem).1;
    let c = count(p.shape, 0);
    count_nonneg(p.shape, 0);
    assert(packed(info, info.itemsize as int));
    assert forall|e: int| 0 <= e < c && element_text(p, e) is Ok implies #[trigger] element_readable(
        p,
        e,
    ) by {
        assert(0 <= e * size && e * size + size <= c * size) by (nonlinear_arith)
            requires
                0 <= e < c,
                size >= 1,
        ;
        if is_float(p.elem) {
            assert(floats_matter(info));
            assert(element_text(p, e)->Ok_0 == float_text(
                p.elem,
                element_bytes(p, e),
                p.digits[e]@,
            ));
        }
    }
    dim_readable(p, 0, 0, levels(at.depth));
}

proof fn list_readable(v: Value, at: Place)
    requires
        value_valid(v),
        value_readable(v),
        0 <= at.depth <= MAX_DEPTH,
        list_text(v, at) is Ok,
    ensures
        readable(
            Doc::Array(items_doc(v, items_of(v).len() as int, at.inside())),
            levels(at.depth),
        ),
    decreases v, 1int, 0int,
{
    parts_readable(v);
    parts_valid(v);
    let n = items_of(v).len() as int;
    let inner = at.inside();
    let docs = items_doc(v, n, inner);
    if n > 0 {
        items_split(v, n, inner);
        assert forall|i: int| 0 <= i < docs.len() implies readable(
            #[trigger] docs[i],
            (levels(at.depth) - 1) as nat,
        ) by {
            assert(value_text(items_of(v)[i], inner) is Ok);
            value_doc_readable(items_of(v)[i], inner);
        }
    }
    array_readable(docs, levels(at.depth));
}

/// In a dict that is written, every key has text and every value is written.
pub proof fn entry_written(v: Value, at: Place, j: int)
    requires
        v.body is Dict,
        dict_text(v, at) is Ok,
        0 <= j < entries_of(v).len(),
    ensures
        key_told(entries_of(v)[j].key) is Ok,
        value_text(entries_of(v)[j].value, at.inside()) is Ok,
{
    let entries = entries_of(v);
    let n = entries.len() as int;
    assert(n == v.body->Dict_0.len() <= usize::MAX);
    if on(at.opts, OPT_SORT_KEYS) {
        let read = entry_keys(entries);
        let keys = keys_told(read)->Ok_0;
        let order = sorted_order(keys);
        keys_told_each(read);
        sorted_order_in_order(keys);
        sorted_entries_split(v, keys, order, n, at.inside());
        assert(key_told(read[j]) is Ok);
        assert(order.contains(j as usize));
        let i = choose|i: int| 0 <= i < order.len() && order[i] == j as usize;
        assert(order[i] as int == j);
    } else {
        own_entries_split(v, n, at.inside());
    }
}

/// The order of the entries of a dict that is written goes over all of them.
pub proof fn entry_order_within(v: Value, at: Place)
    requires
        v.body is Dict,
        dict_text(v, at) is Ok,
    ensures
        entry_order(v, at.opts).len() == entries_of(v).len() || entries_of(v).len() == 0,
        entries_of(v).len() > 0 ==> forall|i: int|
            0 <= i < entries_of(v).len() ==> #[trigger] entry_order(v, at.opts)[i] < entries_of(
                v,
            ).len(),
{
    let entries = entries_of(v);
    assert(entries.len() == v.body->Dict_0.len() <= usize::MAX);
    if entries.len() > 0 && on(at.opts, OPT_SORT_KEYS) {
        keys_told_each(entry_keys(entries));
        sorted_order_in_order(keys_told(entry_keys(entries))->Ok_0);
    }
}

/// An entry of a dict that is written can be read.
proof fn entry_readable(v: Value, at: Place, j: int)
    requires
        value_valid(v),
        value_readable(v),
        v.body is Dict,
        0 <= at.depth < MAX_DEPTH,
        dict_text(v, at) is Ok,
        0 <= j < entries_of(v).len(),
    ensures
        valid_utf8(key_told(entries_of(v)[j].key)->Ok_0),
        readable(
            value_doc(entries_of(v)[j].value, at.inside()),
            (levels(at.depth) - 1) as nat,
        ),
    decreases v, 1int, 0int,
{
    parts_readable(v);
    parts_valid(v);
    entry_written(v, at, j);
    let e = entries_of(v)[j];
    assert(value_readable(e.value) && key_readable(e.key) && value_valid(e.value));
    value_doc_readable(e.value, at.inside());
}

proof fn dict_readable(v: Value, at: Place)
    requires
        value_valid(v),
        value_readable(v),
        v.body is Dict,
        0 <= at.depth <= MAX_DEPTH,
        dict_text(v, at) is Ok,
    ensures
        readable(dict_doc(v, at), levels(at.depth)),
    decreases v, 1int, 1int,
{
    let n = entries_of(v).len() as int;
    let inner = at.inside();
    let order = entry_order(v, at.opts);
    let keys = ordered_keys(v, order);
    let docs = entries_docs(v, order, n, inner);
    let ps = pairs(keys, docs, 0);
    entry_order_within(v, at);
    if n > 0 {
        entries_docs_are(v, order, n, inner);
        assert forall|i: int| 0 <= i < ps.len() implies valid_utf8((#[trigger] ps[i]).0)
            && readable(ps[i].1, (levels(at.depth) - 1) as nat) by {
            assert(order[i] < n);
            entry_readable(v, at, order[i] as int);
            assert(ps[i] == (keys[i], docs[i]));
        }
    } else {
        assert(docs.len() == 0);
    }
    object_readable(ps, levels(at.depth));
}

} // verus!

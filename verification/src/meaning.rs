//! What the texts that are written stand for: every document that is written can be
//! read, and reads as the document that it was written for.
use crate::datetime::{
    datetime_text, dt64_parts, dt64_unit_of, hms_text, padded, padded_len, ymd_text, zone_text,
    Dt64Unit, Parts,
};
use crate::decline::{classified, elem_layout, Elem, Why};
use crate::document::{
    default_text, dict_text, document_text, entries_of, entries_text, entry_keys, items_of,
    items_text, list_text, numpy_told, parts_valid, sorted_text, value_text, value_valid, Body,
    Place, Value,
};
use crate::encode::{
    date_text, int_told, key_told, keys_told, shown_offset, time_opts, time_opts_flags, time_text,
    EncodeError, IntRead, KeyRead,
};
use crate::escape::{escaped_plain, quoted};
use crate::float::f64_text;
use crate::grammar::{
    all_white, array_stands, empty_stands, int_text_number, is_number, joined, joined_pairs,
    literals_stand, may_follow, number_stands, object_stands, pairs, quoted_stands, read_doc,
    stands, Doc,
};
use crate::indent::newline_text;
use crate::literal::null_text;
use crate::little_endian::le_value;
use crate::numpy::{
    count, count_nonneg, dim_text, entries_text as array_entries_text, element_text, entry_prefix,
    entry_text, floats_matter, is_float, leaf_text, packed, plan, signed, Plan, Told,
};
use crate::opts::{
    contents_kept, on, same_contents, OPT_APPEND_NEWLINE, OPT_INDENT_2, OPT_NAIVE_UTC,
    OPT_PASSTHROUGH_DATETIME, OPT_PASSTHROUGH_SUBCLASS, OPT_SERIALIZE_NUMPY, OPT_SORT_KEYS,
};
use crate::sort::{sorted_order, sorted_order_in_order};
use crate::swar::special;
use vstd::prelude::*;

verus! {

/// The texts before number `n`, each with its comma and the white space `w` in front.
pub open spec fn left_joined(texts: Seq<Seq<u8>>, w: Seq<u8>, n: int) -> Seq<u8>
    decreases n,
{
    if n <= 0 {
        Seq::empty()
    } else {
        left_joined(texts, w, n - 1) + ((if n == 1 {
            Seq::empty()
        } else {
            seq![0x2cu8]
        }) + w) + texts[n - 1]
    }
}

/// Joining from the left and from the right is the same.
pub proof fn left_joined_is(texts: Seq<Seq<u8>>, w: Seq<u8>, k: int)
    requires
        0 <= k < texts.len(),
    ensures
        left_joined(texts, w, texts.len() as int) == left_joined(texts, w, k) + ((if k == 0 {
            Seq::empty()
        } else {
            seq![0x2cu8]
        }) + w) + joined(texts, w, k),
    decreases texts.len() - k,
{
    if k + 1 < texts.len() {
        left_joined_is(texts, w, k + 1);
        assert(left_joined(texts, w, k + 1) + (seq![0x2cu8] + w) + joined(texts, w, k + 1)
            =~= left_joined(texts, w, k) + ((if k == 0 {
            Seq::empty()
        } else {
            seq![0x2cu8]
        }) + w) + joined(texts, w, k));
    }
}

/// Keys and values before number `n`, each pair with its comma and the white space `w`
/// in front.
pub open spec fn left_pairs(
    keys: Seq<Seq<u8>>,
    texts: Seq<Seq<u8>>,
    c: Seq<u8>,
    w: Seq<u8>,
    n: int,
) -> Seq<u8>
    decreases n,
{
    if n <= 0 {
        Seq::empty()
    } else {
        left_pairs(keys, texts, c, w, n - 1) + ((if n == 1 {
            Seq::empty()
        } else {
            seq![0x2cu8]
        }) + w) + quoted(keys[n - 1]) + (seq![0x3au8] + c) + texts[n - 1]
    }
}

pub proof fn left_pairs_is(keys: Seq<Seq<u8>>, texts: Seq<Seq<u8>>, c: Seq<u8>, w: Seq<u8>, k: int)
    requires
        0 <= k < texts.len(),
    ensures
        left_pairs(keys, texts, c, w, texts.len() as int) == left_pairs(keys, texts, c, w, k) + ((
        if k == 0 {
            Seq::empty()
        } else {
            seq![0x2cu8]
        }) + w) + joined_pairs(keys, texts, c, w, k),
    decreases texts.len() - k,
{
    let lead = (if k == 0 {
        Seq::empty()
    } else {
        seq![0x2cu8]
    }) + w;
    if k + 1 < texts.len() {
        left_pairs_is(keys, texts, c, w, k + 1);
        assert(left_pairs(keys, texts, c, w, k + 1) + (seq![0x2cu8] + w) + joined_pairs(
            keys,
            texts,
            c,
            w,
            k + 1,
        ) =~= left_pairs(keys, texts, c, w, k) + lead + joined_pairs(keys, texts, c, w, k));
    } else {
        assert(left_pairs(keys, texts, c, w, k + 1) =~= left_pairs(keys, texts, c, w, k) + lead
            + joined_pairs(keys, texts, c, w, k));
    }
}

/// A line break and an indent are white space.
proof fn newline_white(level: nat)
    ensures
        all_white(newline_text(level)),
{
}

/// Are the bytes ASCII, and none of them special in a string?
pub open spec fn plain(s: Seq<u8>) -> bool {
    forall|i: int| 0 <= i < s.len() ==> !special(#[trigger] s[i]) && s[i] < 0x80
}

proof fn padded_plain(v: nat, width: nat)
    ensures
        plain(padded(v, width)),
        padded(v, width).len() == width,
    decreases width,
{
    padded_len(v, width);
    if width > 0 {
        padded_plain(v / 10, (width - 1) as nat);
        let t = padded(v, width);
        let u = padded(v / 10, (width - 1) as nat);
        assert forall|i: int| 0 <= i < t.len() implies !special(#[trigger] t[i]) && t[i] < 0x80 by {
            if i < u.len() {
                assert(!special(u[i]));
            }
        }
    }
}

proof fn plain_concat(a: Seq<u8>, b: Seq<u8>)
    requires
        plain(a),
        plain(b),
    ensures
        plain(a + b),
{
    assert forall|i: int| 0 <= i < (a + b).len() implies !special(#[trigger] (a + b)[i]) && (a
        + b)[i] < 0x80 by {
        if i < a.len() {
            assert(!special(a[i]));
        } else {
            assert(!special(b[i - a.len()]));
        }
    }
}

proof fn ymd_plain(y: nat, mo: nat, d: nat)
    ensures
        plain(ymd_text(y, mo, d)),
{
    padded_plain(y, 4);
    padded_plain(mo, 2);
    padded_plain(d, 2);
    let dash = seq![0x2du8];
    plain_concat(padded(y, 4), dash);
    plain_concat(padded(y, 4) + dash, padded(mo, 2));
    plain_concat(padded(y, 4) + dash + padded(mo, 2), dash);
    plain_concat(padded(y, 4) + dash + padded(mo, 2) + dash, padded(d, 2));
}

proof fn hms_plain(h: nat, mi: nat, s: nat, us: nat, opts: u32)
    ensures
        plain(hms_text(h, mi, s, us, opts)),
{
    padded_plain(h, 2);
    padded_plain(mi, 2);
    padded_plain(s, 2);
    padded_plain(us, 6);
    let colon = seq![0x3au8];
    let dot = seq![0x2eu8];
    plain_concat(padded(h, 2), colon);
    plain_concat(padded(h, 2) + colon, padded(mi, 2));
    plain_concat(padded(h, 2) + colon + padded(mi, 2), colon);
    plain_concat(padded(h, 2) + colon + padded(mi, 2) + colon, padded(s, 2));
    let whole = padded(h, 2) + colon + padded(mi, 2) + colon + padded(s, 2);
    plain_concat(whole, dot);
    plain_concat(whole + dot, padded(us, 6));
}

proof fn zone_plain(offset: Option<i64>, opts: u32)
    ensures
        plain(zone_text(offset, opts)),
{
    if let Some(o) = offset {
        let total_us = o as int;
        if total_us != 0 {
            let m = (if total_us < 0 {
                -total_us
            } else {
                total_us
            }) as nat;
            let sign: u8 = if total_us < 0 {
                0x2d
            } else {
                0x2b
            };
            padded_plain(m / 3_600_000_000, 2);
            padded_plain(m / 60_000_000 % 60, 2);
            padded_plain(m / 1_000_000 % 60, 2);
            padded_plain(m % 1_000_000, 6);
            let colon = seq![0x3au8];
            let dot = seq![0x2eu8];
            let hh = padded(m / 3_600_000_000, 2);
            let mm = padded(m / 60_000_000 % 60, 2);
            let ss = padded(m / 1_000_000 % 60, 2);
            let us = padded(m % 1_000_000, 6);
            plain_concat(seq![sign], hh);
            plain_concat(seq![sign] + hh, colon);
            plain_concat(seq![sign] + hh + colon, mm);
            plain_concat(colon, ss);
            plain_concat(dot, us);
            let hhmm = seq![sign] + hh + colon + mm;
            plain_concat(hhmm, colon + ss);
            plain_concat(hhmm + (colon + ss), dot + us);
        }
    }
}

/// The text between the quotes.
pub open spec fn unquoted(t: Seq<u8>) -> Seq<u8> {
    t.subrange(1, t.len() - 1)
}

/// Plain text between quotes stands for itself.
proof fn plain_stands(body: Seq<u8>)
    requires
        plain(body),
    ensures
        ({
            let t = seq![0x22u8] + body + seq![0x22u8];
            stands(t, Doc::Text(unquoted(t))) && plain(unquoted(t))
        }),
{
    escaped_plain(body);
    quoted_stands(body);
    let t = seq![0x22u8] + body + seq![0x22u8];
    assert(unquoted(t) =~= body);
}

/// The text of a date and time stands for itself.
pub proof fn datetime_stands(p: Parts, offset: Option<i64>, opts: u32)
    ensures
        stands(
            datetime_text(p, offset, opts),
            Doc::Text(unquoted(datetime_text(p, offset, opts))),
        ),
        plain(unquoted(datetime_text(p, offset, opts))),
{
    let ymd = ymd_text(p.y as nat, p.mo as nat, p.d as nat);
    let hms = hms_text(p.h as nat, p.mi as nat, p.s as nat, p.us as nat, opts);
    let zone = zone_text(offset, opts);
    let sep = seq![0x54u8];
    ymd_plain(p.y as nat, p.mo as nat, p.d as nat);
    hms_plain(p.h as nat, p.mi as nat, p.s as nat, p.us as nat, opts);
    zone_plain(offset, opts);
    plain_concat(ymd, sep);
    plain_concat(ymd + sep, hms);
    plain_concat(ymd + sep + hms, zone);
    let body = ymd + sep + hms + zone;
    plain_stands(body);
    assert(datetime_text(p, offset, opts) =~= seq![0x22u8] + body + seq![0x22u8]);
}

/// The text of a date stands for itself.
pub proof fn date_stands(y: u16, mo: u8, d: u8)
    ensures
        stands(date_text(y, mo, d), Doc::Text(unquoted(date_text(y, mo, d)))),
        plain(unquoted(date_text(y, mo, d))),
{
    ymd_plain(y as nat, mo as nat, d as nat);
    plain_stands(ymd_text(y as nat, mo as nat, d as nat));
}

/// The text of a time stands for itself.
pub proof fn time_stands(h: u8, mi: u8, s: u8, us: u32, offset: Option<i64>, opts: u32)
    ensures
        stands(
            time_text(h, mi, s, us, offset, opts),
            Doc::Text(unquoted(time_text(h, mi, s, us, offset, opts))),
        ),
        plain(unquoted(time_text(h, mi, s, us, offset, opts))),
{
    let hms = hms_text(h as nat, mi as nat, s as nat, us as nat, time_opts(opts));
    let zone = zone_text(offset, time_opts(opts));
    hms_plain(h as nat, mi as nat, s as nat, us as nat, time_opts(opts));
    zone_plain(offset, time_opts(opts));
    plain_concat(hms, zone);
    plain_stands(hms + zone);
    assert(time_text(h, mi, s, us, offset, opts) =~= seq![0x22u8] + (hms + zone) + seq![0x22u8]);
}

/// What the text `t` of a float stands for: `null` for what is no number.
pub open spec fn float_doc(t: Seq<u8>) -> Doc {
    if t == null_text() {
        Doc::Null
    } else {
        Doc::Number(t)
    }
}

/// The text of a float element with the bytes `b`: no option changes it.
pub open spec fn float_text(elem: Elem, b: Seq<u8>, digits: Seq<u8>) -> Seq<u8> {
    leaf_text(elem, b, None, digits, 0)->Ok_0
}

/// Is this the text of a number, or `null`?
pub open spec fn float_spelled(t: Seq<u8>) -> bool {
    t == null_text() || is_number(t)
}

proof fn float_stands(t: Seq<u8>)
    requires
        float_spelled(t),
    ensures
        stands(t, float_doc(t)),
{
    if t == null_text() {
        literals_stand();
    } else {
        number_stands(t);
    }
}

/// What the element with the bytes `b` and the text `t` stands for.
pub open spec fn leaf_doc(elem: Elem, b: Seq<u8>, t: Seq<u8>) -> Doc {
    match elem {
        Elem::Bool => Doc::Bool(le_value(b) != 0),
        Elem::F16 | Elem::F32 | Elem::F64 => float_doc(t),
        Elem::Dt64 => if t == null_text() {
            Doc::Null
        } else {
            Doc::Text(unquoted(t))
        },
        _ => Doc::Number(t),
    }
}

proof fn leaf_stands(
    elem: Elem,
    b: Seq<u8>,
    unit: Option<Dt64Unit>,
    digits: Seq<u8>,
    opts: u32,
    t: Seq<u8>,
)
    requires
        leaf_text(elem, b, unit, digits, opts) == Ok::<Seq<u8>, Why>(t),
        is_float(elem) ==> float_spelled(t),
        elem == Elem::Dt64 ==> unit is Some,
    ensures
        stands(t, leaf_doc(elem, b, t)),
{
    let v = le_value(b);
    literals_stand();
    match elem {
        Elem::Bool => {},
        Elem::F16 | Elem::F32 | Elem::F64 => {
            float_stands(t);
        },
        Elem::Dt64 => {
            let u = unit->Some_0;
            if let Ok(Some(parts)) = dt64_parts(signed(v, 8) as i64, u) {
                let offset: Option<i64> = if on(opts, OPT_NAIVE_UTC) {
                    Some(0)
                } else {
                    None
                };
                datetime_stands(parts, offset, opts);
                assert(t[0] == 0x22);
                assert(null_text()[0] == 0x6e);
            }
        },
        Elem::I8 => {
            int_text_number(signed(v, 1));
            number_stands(t);
        },
        Elem::I16 => {
            int_text_number(signed(v, 2));
            number_stands(t);
        },
        Elem::I32 => {
            int_text_number(signed(v, 4));
            number_stands(t);
        },
        Elem::I64 => {
            int_text_number(signed(v, 8));
            number_stands(t);
        },
        _ => {
            int_text_number(v as int);
            number_stands(t);
        },
    }
}

/// The bytes of element `k`.
pub open spec fn element_bytes(p: Plan, k: int) -> Seq<u8> {
    let size = elem_layout(p.elem).1;
    p.data.subrange(k * size, k * size + size)
}

/// What element `k` of an array stands for.
pub open spec fn element_doc(p: Plan, k: int) -> Doc {
    leaf_doc(p.elem, element_bytes(p, k), element_text(p, k)->Ok_0)
}

/// Is a float element spelled as a number, and has a `datetime64` element a unit?
pub open spec fn element_spelled(p: Plan, k: int) -> bool {
    &&& is_float(p.elem) ==> float_spelled(element_text(p, k)->Ok_0)
    &&& p.elem == Elem::Dt64 ==> p.unit is Some
}

proof fn element_stands(p: Plan, k: int)
    requires
        element_text(p, k) is Ok,
        element_spelled(p, k),
    ensures
        stands(element_text(p, k)->Ok_0, element_doc(p, k)),
{
    leaf_stands(
        p.elem,
        element_bytes(p, k),
        p.unit,
        if is_float(p.elem) {
            p.digits[k]@
        } else {
            Seq::empty()
        },
        p.opts,
        element_text(p, k)->Ok_0,
    );
}

/// What an entry of dimension `dim` stands for, whose elements begin with element `at`.
pub open spec fn entry_doc(p: Plan, dim: int, at: int) -> Doc
    decreases p.shape.len() - dim - 1, 2int, 0int,
{
    if dim + 1 >= p.shape.len() {
        element_doc(p, at)
    } else {
        dim_doc(p, dim + 1, at)
    }
}

/// What the first `i` entries of dimension `dim` stand for.
pub open spec fn entries_doc(p: Plan, dim: int, k: int, i: int) -> Seq<Doc>
    decreases p.shape.len() - dim, 0int, i,
{
    if i <= 0 || dim < 0 || dim >= p.shape.len() {
        Seq::empty()
    } else {
        entries_doc(p, dim, k, i - 1).push(
            entry_doc(p, dim, k + (i - 1) * count(p.shape, dim + 1)),
        )
    }
}

/// What dimension `dim` stands for: the list of its entries.
pub open spec fn dim_doc(p: Plan, dim: int, k: int) -> Doc
    decreases p.shape.len() - dim, 1int, 0int,
{
    if dim < 0 || dim >= p.shape.len() {
        Doc::Array(Seq::empty())
    } else {
        Doc::Array(entries_doc(p, dim, k, p.shape[dim] as int))
    }
}

/// The line break between the entries of dimension `dim`.
pub open spec fn entry_line(p: Plan, dim: int) -> Seq<u8> {
    if on(p.opts, OPT_INDENT_2) {
        newline_text((p.depth + dim + 1) as nat)
    } else {
        Seq::empty()
    }
}

/// The text of entry `j` of dimension `dim`.
pub open spec fn entry_at(p: Plan, dim: int, k: int, j: int) -> Result<Seq<u8>, Why> {
    entry_text(p, dim, k + j * count(p.shape, dim + 1))
}

/// The texts of the entries of dimension `dim`.
pub open spec fn entry_texts(p: Plan, dim: int, k: int) -> Seq<Seq<u8>> {
    Seq::new(p.shape[dim] as nat, |j: int| entry_at(p, dim, k, j)->Ok_0)
}

/// The text of the entries of a dimension is their texts, joined.
pub proof fn entries_split(p: Plan, dim: int, k: int, i: int)
    requires
        0 <= dim < p.shape.len(),
        0 <= i <= p.shape[dim],
        array_entries_text(p, dim, k, i) is Ok,
    ensures
        array_entries_text(p, dim, k, i)->Ok_0 == left_joined(
            entry_texts(p, dim, k),
            entry_line(p, dim),
            i,
        ),
        forall|j: int| 0 <= j < i ==> #[trigger] entry_at(p, dim, k, j) is Ok,
        entries_doc(p, dim, k, i).len() == i,
        forall|j: int|
            0 <= j < i ==> #[trigger] entries_doc(p, dim, k, i)[j] == entry_doc(
                p,
                dim,
                k + j * count(p.shape, dim + 1),
            ),
    decreases i,
{
    if i > 0 {
        entries_split(p, dim, k, i - 1);
        assert(entry_at(p, dim, k, i - 1) is Ok);
        let texts = entry_texts(p, dim, k);
        assert(texts[i - 1] == entry_at(p, dim, k, i - 1)->Ok_0);
        assert(entry_prefix(p, dim, i - 1) =~= (if i == 1 {
            Seq::empty()
        } else {
            seq![0x2cu8]
        }) + entry_line(p, dim));
    }
}

/// The entries of an array are within its elements.
pub proof fn entry_within(shape: Seq<isize>, dim: int, k: int, j: int)
    requires
        0 <= dim < shape.len(),
        forall|d: int| 0 <= d < shape.len() ==> #[trigger] shape[d] >= 0,
        0 <= k,
        k + count(shape, dim) <= count(shape, 0),
        0 <= j < shape[dim],
    ensures
        0 <= k + j * count(shape, dim + 1),
        k + j * count(shape, dim + 1) + count(shape, dim + 1) <= count(shape, 0),
{
    count_nonneg(shape, dim + 1);
    let c = count(shape, dim + 1);
    let n = shape[dim] as int;
    assert(j * c >= 0 && j * c + c <= n * c) by (nonlinear_arith)
        requires
            0 <= j < n,
            c >= 0,
    ;
}

/// The text of a dimension stands for the list of its entries.
proof fn dim_stands(p: Plan, dim: int, k: int)
    requires
        0 <= dim < p.shape.len(),
        forall|d: int| 0 <= d < p.shape.len() ==> #[trigger] p.shape[d] >= 0,
        0 <= k,
        k + count(p.shape, dim) <= count(p.shape, 0),
        forall|e: int|
            0 <= e < count(p.shape, 0) && element_text(p, e) is Ok ==> #[trigger] element_spelled(
                p,
                e,
            ),
        dim_text(p, dim, k) is Ok,
    ensures
        stands(dim_text(p, dim, k)->Ok_0, dim_doc(p, dim, k)),
    decreases p.shape.len() - dim,
{
    let n = p.shape[dim] as int;
    assert(p.shape[dim] >= 0);
    if n == 0 {
        empty_stands();
        assert(entries_doc(p, dim, k, 0) =~= Seq::empty());
    } else {
        let texts = entry_texts(p, dim, k);
        let docs = entries_doc(p, dim, k, n);
        let w = entry_line(p, dim);
        let w2 = if on(p.opts, OPT_INDENT_2) {
            newline_text((p.depth + dim) as nat)
        } else {
            Seq::empty()
        };
        newline_white((p.depth + dim) as nat);
        newline_white((p.depth + dim + 1) as nat);
        entries_split(p, dim, k, n);
        assert forall|j: int| 0 <= j < texts.len() implies stands(#[trigger] texts[j], docs[j]) by {
            let at = k + j * count(p.shape, dim + 1);
            assert(entry_at(p, dim, k, j) is Ok);
            entry_within(p.shape, dim, k, j);
            if dim + 1 == p.shape.len() {
                assert(element_spelled(p, at));
                element_stands(p, at);
            } else {
                dim_stands(p, dim + 1, at);
            }
        }
        array_stands(texts, docs, w, w2);
        left_joined_is(texts, w, 0);
        assert(left_joined(texts, w, n) =~= w + joined(texts, w, 0));
        assert(dim_text(p, dim, k)->Ok_0 =~= seq![0x5bu8] + (w + joined(texts, w, 0)) + w2
            + seq![0x5du8]);
    }
}

/// The plan by which an array is written.
pub open spec fn array_plan(v: Value, at: Place) -> Plan {
    let info = v.body->Array_info;
    let elem = classified(info.flags, info.nd as int, info.typekind, info.itemsize as int)->Ok_0;
    let unit = if elem == Elem::Dt64 && count(info.shape@, 0) != 0 {
        dt64_unit_of(v.body->Array_dtype@)
    } else {
        None
    };
    plan(info, elem, unit, v.body->Array_digits@, at.opts, at.depth as u32)
}

/// Is a numpy object written, not left for `default`?
pub open spec fn numpy_written_natively(v: Value, at: Place) -> bool {
    v.exact && on(at.opts, OPT_SERIALIZE_NUMPY) && numpy_told(v, at) is Text
}

/// What a value stands for, as far as it is written.
pub open spec fn value_doc(v: Value, at: Place) -> Doc
    decreases v, 2int, 0int,
{
    let native = v.exact || !on(at.opts, OPT_PASSTHROUGH_SUBCLASS);
    match v.body {
        Body::Null => Doc::Null,
        Body::Bool(b) => Doc::Bool(b),
        Body::Int(n) => if native {
            Doc::Number(int_told(n, at.opts)->Ok_0)
        } else {
            default_doc(v, at)
        },
        Body::Float { bits, digits } => if v.exact {
            float_doc(f64_text(bits, digits@))
        } else {
            default_doc(v, at)
        },
        Body::Str(s) => if native {
            Doc::Text(s->Some_0@)
        } else {
            default_doc(v, at)
        },
        Body::List(_) => if native {
            Doc::Array(items_doc(v, items_of(v).len() as int, at.inside()))
        } else {
            default_doc(v, at)
        },
        Body::Tuple(_) => if v.exact {
            Doc::Array(items_doc(v, items_of(v).len() as int, at.inside()))
        } else {
            default_doc(v, at)
        },
        Body::Dict(_) => if native {
            dict_doc(v, at)
        } else {
            default_doc(v, at)
        },
        Body::Datetime { parts, offset } => if !v.exact || on(at.opts, OPT_PASSTHROUGH_DATETIME) {
            default_doc(v, at)
        } else {
            Doc::Text(unquoted(datetime_text(parts, shown_offset(offset, at.opts), at.opts)))
        },
        Body::Date { y, mo, d } => if !v.exact || on(at.opts, OPT_PASSTHROUGH_DATETIME) {
            default_doc(v, at)
        } else {
            Doc::Text(unquoted(date_text(y, mo, d)))
        },
        Body::Time { h, mi, s, us, offset } => if !v.exact || on(at.opts, OPT_PASSTHROUGH_DATETIME) {
            default_doc(v, at)
        } else {
            Doc::Text(unquoted(time_text(h, mi, s, us, offset, at.opts)))
        },
        Body::Array { .. } => if numpy_written_natively(v, at) {
            dim_doc(array_plan(v, at), 0, 0)
        } else {
            default_doc(v, at)
        },
        Body::Scalar { elem, data, .. } => if numpy_written_natively(v, at) {
            leaf_doc(elem, data@, numpy_told(v, at)->Text_0)
        } else {
            default_doc(v, at)
        },
        Body::Opaque => default_doc(v, at),
    }
}

/// What the result of `default` stands for.
pub open spec fn default_doc(v: Value, at: Place) -> Doc
    decreases v, 1int, 0int,
{
    if v.reply@.len() == 0 {
        Doc::Null
    } else {
        value_doc(v.reply@[0], at.replaced())
    }
}

/// What the first `n` items stand for.
pub open spec fn items_doc(v: Value, n: int, at: Place) -> Seq<Doc>
    decreases v, 0int, n,
{
    if n <= 0 || n > items_of(v).len() {
        Seq::empty()
    } else {
        items_doc(v, n - 1, at).push(value_doc(items_of(v)[n - 1], at))
    }
}

/// What the values of the first `n` entries stand for, in the given order.
pub open spec fn entries_docs(v: Value, order: Seq<usize>, n: int, at: Place) -> Seq<Doc>
    decreases v, 0int, n,
{
    if n <= 0 || n > order.len() || order[n - 1] >= entries_of(v).len() {
        Seq::empty()
    } else {
        entries_docs(v, order, n - 1, at).push(
            value_doc(entries_of(v)[order[n - 1] as int].value, at),
        )
    }
}

/// The entries of a dict in its own order.
pub open spec fn own_order(n: nat) -> Seq<usize> {
    Seq::new(n, |i: int| i as usize)
}

/// The order in which the entries of a dict are written.
pub open spec fn entry_order(v: Value, opts: u32) -> Seq<usize> {
    if on(opts, OPT_SORT_KEYS) {
        sorted_order(keys_told(entry_keys(entries_of(v)))->Ok_0)
    } else {
        own_order(entries_of(v).len())
    }
}

/// The keys of a dict in the given order.
pub open spec fn ordered_keys(v: Value, order: Seq<usize>) -> Seq<Seq<u8>> {
    Seq::new(order.len(), |i: int| key_told(entries_of(v)[order[i] as int].key)->Ok_0)
}

/// What a dict stands for: its keys with what their values stand for, in the order in
/// which they are written.
pub open spec fn dict_doc(v: Value, at: Place) -> Doc
    decreases v, 1int, 0int,
{
    let order = entry_order(v, at.opts);
    let n = entries_of(v).len() as int;
    Doc::Object(pairs(ordered_keys(v, order), entries_docs(v, order, n, at.inside()), 0))
}

/// Are the floats in a value spelled as numbers?
pub open spec fn value_spelled(v: Value) -> bool
    decreases v,
{
    &&& match v.body {
        Body::Float { bits, digits } => float_spelled(f64_text(bits, digits@)),
        Body::Array { info, digits, .. } => floats_matter(info) ==> {
            let elem = classified(
                info.flags,
                info.nd as int,
                info.typekind,
                info.itemsize as int,
            )->Ok_0;
            let size = elem_layout(elem).1;
            forall|k: int|
                0 <= k < digits@.len() ==> float_spelled(
                    float_text(
                        elem,
                        info.data@.subrange(k * size, k * size + size),
                        (#[trigger] digits@[k])@,
                    ),
                )
        },
        Body::Scalar { elem, data, digits, .. } => is_float(elem) ==> float_spelled(
            float_text(elem, data@, digits@),
        ),
        Body::List(items) => forall|i: int|
            0 <= i < items@.len() ==> value_spelled(#[trigger] items@[i]),
        Body::Tuple(items) => forall|i: int|
            0 <= i < items@.len() ==> value_spelled(#[trigger] items@[i]),
        Body::Dict(entries) => forall|i: int|
            0 <= i < entries@.len() ==> value_spelled((#[trigger] entries@[i]).value),
        _ => true,
    }
    &&& v.reply@.len() > 0 ==> value_spelled(v.reply@[0])
}

/// What stands in a value that is spelled as numbers is so too.
pub proof fn parts_spelled(v: Value)
    requires
        value_spelled(v),
    ensures
        forall|i: int| 0 <= i < items_of(v).len() ==> value_spelled(#[trigger] items_of(v)[i]),
        forall|i: int|
            0 <= i < entries_of(v).len() ==> value_spelled((#[trigger] entries_of(v)[i]).value),
        v.reply@.len() > 0 ==> value_spelled(v.reply@[0]),
{
}

/// The texts of the items of a list.
pub open spec fn item_texts(v: Value, at: Place) -> Seq<Seq<u8>> {
    Seq::new(items_of(v).len(), |i: int| value_text(items_of(v)[i], at)->Ok_0)
}

/// The text of a list is the texts of its items, joined.
pub proof fn items_split(v: Value, n: int, at: Place)
    requires
        0 <= n <= items_of(v).len(),
        items_text(v, n, at) is Ok,
    ensures
        items_text(v, n, at)->Ok_0 == left_joined(item_texts(v, at), at.line(at.depth), n),
        forall|i: int| 0 <= i < n ==> value_text(#[trigger] items_of(v)[i], at) is Ok,
        items_doc(v, n, at).len() == n,
        forall|i: int|
            0 <= i < n ==> #[trigger] items_doc(v, n, at)[i] == value_doc(items_of(v)[i], at),
    decreases n,
{
    if n > 0 {
        items_split(v, n - 1, at);
        assert(item_texts(v, at)[n - 1] == value_text(items_of(v)[n - 1], at)->Ok_0);
    }
}

/// The texts of the values of a dict, in the given order.
pub open spec fn ordered_texts(v: Value, order: Seq<usize>, at: Place) -> Seq<Seq<u8>> {
    Seq::new(order.len(), |i: int| value_text(entries_of(v)[order[i] as int].value, at)->Ok_0)
}

/// The white space behind a colon.
pub open spec fn colon_space(at: Place) -> Seq<u8> {
    if on(at.opts, OPT_INDENT_2) {
        seq![0x20u8]
    } else {
        Seq::empty()
    }
}

pub proof fn colon_is(at: Place)
    ensures
        at.colon() == seq![0x3au8] + colon_space(at),
        all_white(colon_space(at)),
{
    assert(at.colon() =~= seq![0x3au8] + colon_space(at));
}

/// What the entries stand for, one by one.
pub proof fn entries_docs_are(v: Value, order: Seq<usize>, n: int, at: Place)
    requires
        0 <= n <= order.len(),
        forall|i: int| 0 <= i < order.len() ==> #[trigger] order[i] < entries_of(v).len(),
    ensures
        entries_docs(v, order, n, at).len() == n,
        forall|i: int|
            0 <= i < n ==> #[trigger] entries_docs(v, order, n, at)[i] == value_doc(
                entries_of(v)[order[i] as int].value,
                at,
            ),
    decreases n,
{
    if n > 0 {
        assert(order[n - 1] < entries_of(v).len());
        entries_docs_are(v, order, n - 1, at);
    }
}

/// The text of a dict in its own order is the texts of its entries, joined.
pub proof fn own_entries_split(v: Value, n: int, at: Place)
    requires
        0 <= n <= entries_of(v).len() <= usize::MAX,
        entries_text(v, n, at) is Ok,
    ensures
        ({
            let order = own_order(entries_of(v).len());
            entries_text(v, n, at)->Ok_0 == left_pairs(
                ordered_keys(v, order),
                ordered_texts(v, order, at),
                colon_space(at),
                at.line(at.depth),
                n,
            )
        }),
        forall|i: int|
            0 <= i < n ==> value_text((#[trigger] entries_of(v)[i]).value, at) is Ok && key_told(
                entries_of(v)[i].key,
            ) is Ok,
    decreases n,
{
    let order = own_order(entries_of(v).len());
    if n > 0 {
        own_entries_split(v, n - 1, at);
        colon_is(at);
        assert(order[n - 1] == n - 1);
        assert(ordered_keys(v, order)[n - 1] == key_told(entries_of(v)[n - 1].key)->Ok_0);
        assert(ordered_texts(v, order, at)[n - 1] == value_text(
            entries_of(v)[n - 1].value,
            at,
        )->Ok_0);
    }
}

/// Keys that have text have it one by one.
pub proof fn keys_told_each(keys: Seq<KeyRead>)
    requires
        keys_told(keys) is Ok,
    ensures
        keys_told(keys)->Ok_0.len() == keys.len(),
        forall|i: int|
            0 <= i < keys.len() ==> key_told(#[trigger] keys[i]) == Ok::<Seq<u8>, EncodeError>(
                keys_told(keys)->Ok_0[i],
            ),
    decreases keys.len(),
{
    if keys.len() > 0 {
        let init = keys.drop_last();
        keys_told_each(init);
        assert forall|i: int| 0 <= i < keys.len() implies key_told(#[trigger] keys[i]) == Ok::<
            Seq<u8>,
            EncodeError,
        >(keys_told(keys)->Ok_0[i]) by {
            if i < init.len() {
                assert(key_told(init[i]) == Ok::<Seq<u8>, EncodeError>(keys_told(init)->Ok_0[i]));
            }
        }
    }
}

/// The text of a sorted dict is the texts of its entries, joined.
pub proof fn sorted_entries_split(
    v: Value,
    keys: Seq<Seq<u8>>,
    order: Seq<usize>,
    n: int,
    at: Place,
)
    requires
        0 <= n <= order.len(),
        keys_told(entry_keys(entries_of(v))) == Ok::<Seq<Seq<u8>>, EncodeError>(keys),
        forall|i: int| 0 <= i < order.len() ==> #[trigger] order[i] < entries_of(v).len(),
        sorted_text(v, keys, order, n, at) is Ok,
    ensures
        sorted_text(v, keys, order, n, at)->Ok_0 == left_pairs(
            ordered_keys(v, order),
            ordered_texts(v, order, at),
            colon_space(at),
            at.line(at.depth),
            n,
        ),
        forall|i: int|
            0 <= i < n ==> value_text(entries_of(v)[#[trigger] order[i] as int].value, at) is Ok,
    decreases n,
{
    if n > 0 {
        assert(order[n - 1] < entries_of(v).len());
        sorted_entries_split(v, keys, order, n - 1, at);
        colon_is(at);
        let j = order[n - 1] as int;
        let read = entry_keys(entries_of(v));
        keys_told_each(read);
        assert(key_told(read[j]) == Ok::<Seq<u8>, EncodeError>(keys[j]));
        assert(ordered_keys(v, order)[n - 1] == keys[j]);
        assert(ordered_texts(v, order, at)[n - 1] == value_text(entries_of(v)[j].value, at)->Ok_0);
    }
}

/// Every value that is written is well-formed JSON, and stands for the value: what it
/// reads as, wherever it stands, is the value itself, whatever the options make of its
/// white space.
pub proof fn value_stands(v: Value, at: Place)
    requires
        value_valid(v),
        value_spelled(v),
        value_text(v, at) is Ok,
    ensures
        stands(value_text(v, at)->Ok_0, value_doc(v, at)),
    decreases v, 2int, 0int,
{
    parts_spelled(v);
    parts_valid(v);
    let native = v.exact || !on(at.opts, OPT_PASSTHROUGH_SUBCLASS);
    let t = value_text(v, at)->Ok_0;
    if value_text(v, at) == default_text(v, false, at) || value_text(v, at) == default_text(
        v,
        true,
        at,
    ) {
        if v.reply@.len() > 0 {
            if value_text(v.reply@[0], at.replaced()) is Ok {
                value_stands(v.reply@[0], at.replaced());
            }
        }
    }
    match v.body {
        Body::Null => literals_stand(),
        Body::Bool(_) => literals_stand(),
        Body::Int(n) => {
            if native {
                int_stands(n, at.opts);
            }
        },
        Body::Float { bits, digits } => {
            if v.exact {
                float_stands(f64_text(bits, digits@));
            }
        },
        Body::Str(s) => {
            if native {
                quoted_stands(s->Some_0@);
            }
        },
        Body::List(_) => {
            if native {
                list_stands(v, at);
            }
        },
        Body::Tuple(_) => {
            if v.exact {
                list_stands(v, at);
            }
        },
        Body::Dict(_) => {
            if native {
                dict_stands(v, at);
            }
        },
        Body::Datetime { parts, offset } => {
            datetime_stands(parts, shown_offset(offset, at.opts), at.opts);
        },
        Body::Date { y, mo, d } => date_stands(y, mo, d),
        Body::Time { h, mi, s, us, offset } => time_stands(h, mi, s, us, offset, at.opts),
        Body::Array { .. } => {
            if numpy_written_natively(v, at) {
                array_value_stands(v, at);
            }
        },
        Body::Scalar { .. } => {
            if numpy_written_natively(v, at) {
                scalar_value_stands(v, at);
            }
        },
        Body::Opaque => {},
    }
}

proof fn int_stands(n: IntRead, opts: u32)
    requires
        int_told(n, opts) is Ok,
    ensures
        stands(int_told(n, opts)->Ok_0, Doc::Number(int_told(n, opts)->Ok_0)),
{
    match n {
        IntRead::Fits(v) => int_text_number(v as int),
        IntRead::Above(Some(v)) => int_text_number(v as int),
        _ => {},
    }
    number_stands(int_told(n, opts)->Ok_0);
}

proof fn scalar_value_stands(v: Value, at: Place)
    requires
        v.body is Scalar,
        value_spelled(v),
        numpy_told(v, at) is Text,
    ensures
        stands(
            numpy_told(v, at)->Text_0,
            leaf_doc(v.body->Scalar_elem, v.body->Scalar_data@, numpy_told(v, at)->Text_0),
        ),
{
    let elem = v.body->Scalar_elem;
    let data = v.body->Scalar_data@;
    let digits = v.body->Scalar_digits@;
    let unit = if elem == Elem::Dt64 {
        dt64_unit_of(v.body->Scalar_dtype@)
    } else {
        None
    };
    leaf_stands(elem, data, unit, digits, at.opts, numpy_told(v, at)->Text_0);
}

proof fn array_value_stands(v: Value, at: Place)
    requires
        v.body is Array,
        value_valid(v),
        value_spelled(v),
        numpy_told(v, at) is Text,
    ensures
        stands(numpy_told(v, at)->Text_0, dim_doc(array_plan(v, at), 0, 0)),
{
    let info = v.body->Array_info;
    let p = array_plan(v, at);
    count_nonneg(p.shape, 0);
    assert(packed(info, info.itemsize as int));
    assert forall|e: int|
        0 <= e < count(p.shape, 0) && element_text(p, e) is Ok implies #[trigger] element_spelled(
        p,
        e,
    ) by {
        if is_float(p.elem) {
            assert(floats_matter(info));
            assert(element_text(p, e)->Ok_0 == float_text(
                p.elem,
                element_bytes(p, e),
                p.digits[e]@,
            ));
        }
    }
    dim_stands(p, 0, 0);
}

proof fn list_stands(v: Value, at: Place)
    requires
        value_valid(v),
        value_spelled(v),
        list_text(v, at) is Ok,
    ensures
        stands(
            list_text(v, at)->Ok_0,
            Doc::Array(items_doc(v, items_of(v).len() as int, at.inside())),
        ),
    decreases v, 1int, 0int,
{
    parts_spelled(v);
    parts_valid(v);
    let n = items_of(v).len() as int;
    let inner = at.inside();
    if n == 0 {
        empty_stands();
        assert(items_doc(v, 0, inner) =~= Seq::empty());
    } else {
        let texts = item_texts(v, inner);
        let docs = items_doc(v, n, inner);
        let w = inner.line(inner.depth);
        let w2 = at.line(at.depth);
        newline_white(inner.depth as nat);
        newline_white(at.depth as nat);
        items_split(v, n, inner);
        assert forall|i: int| 0 <= i < texts.len() implies stands(#[trigger] texts[i], docs[i]) by {
            assert(value_text(items_of(v)[i], inner) is Ok);
            value_stands(items_of(v)[i], inner);
        }
        array_stands(texts, docs, w, w2);
        left_joined_is(texts, w, 0);
        assert(left_joined(texts, w, n) =~= w + joined(texts, w, 0));
        assert(list_text(v, at)->Ok_0 =~= seq![0x5bu8] + (w + joined(texts, w, 0)) + w2
            + seq![0x5du8]);
    }
}

proof fn dict_stands(v: Value, at: Place)
    requires
        value_valid(v),
        value_spelled(v),
        v.body is Dict,
        dict_text(v, at) is Ok,
    ensures
        stands(dict_text(v, at)->Ok_0, dict_doc(v, at)),
    decreases v, 1int, 0int,
{
    parts_spelled(v);
    parts_valid(v);
    let entries = entries_of(v);
    let n = entries.len() as int;
    let inner = at.inside();
    let order = entry_order(v, at.opts);
    assert(n == v.body->Dict_0.len() <= usize::MAX);
    if n == 0 {
        empty_stands();
        assert(pairs(ordered_keys(v, order), entries_docs(v, order, 0, inner), 0) =~= Seq::empty());
    } else {
        let keys = ordered_keys(v, order);
        let texts = ordered_texts(v, order, inner);
        let docs = entries_docs(v, order, n, inner);
        let c = colon_space(inner);
        let w = inner.line(inner.depth);
        let w2 = at.line(at.depth);
        newline_white(inner.depth as nat);
        newline_white(at.depth as nat);
        colon_is(inner);
        if on(at.opts, OPT_SORT_KEYS) {
            let read = entry_keys(entries);
            keys_told_each(read);
            sorted_order_in_order(keys_told(read)->Ok_0);
            sorted_entries_split(v, keys_told(read)->Ok_0, order, n, inner);
        } else {
            own_entries_split(v, n, inner);
            assert(order.len() == n);
        }
        assert forall|i: int| 0 <= i < order.len() implies #[trigger] order[i] < entries.len() by {}
        entries_docs_are(v, order, n, inner);
        assert forall|i: int| 0 <= i < texts.len() implies stands(#[trigger] texts[i], docs[i]) by {
            let j = order[i] as int;
            assert(order[i] < entries.len());
            assert(value_spelled(entries[j].value) && value_valid(entries[j].value));
            assert(value_text(entries[j].value, inner) is Ok);
            value_stands(entries[j].value, inner);
        }
        object_stands(keys, texts, docs, c, w, w2);
        left_pairs_is(keys, texts, c, w, 0);
        assert(left_pairs(keys, texts, c, w, n) =~= w + joined_pairs(keys, texts, c, w, 0));
        assert(dict_text(v, at)->Ok_0 =~= seq![0x7bu8] + (w + joined_pairs(keys, texts, c, w, 0))
            + w2 + seq![0x7du8]);
    }
}

/// A document that is written can be read, to its end but for the line break that may
/// have been asked for, and reads as the value that it was written for.
pub proof fn document_reads_back(v: Value, opts: u32, has_default: bool)
    requires
        value_valid(v),
        value_spelled(v),
        document_text(v, opts, has_default) is Ok,
    ensures
        read_doc(document_text(v, opts, has_default)->Ok_0) == Some(
            (
                value_doc(v, Place { opts, has_default, depth: 0, default_depth: 0 }),
                if on(opts, OPT_APPEND_NEWLINE) {
                    seq![0x0au8]
                } else {
                    Seq::empty()
                },
            ),
        ),
{
    let at = Place { opts, has_default, depth: 0, default_depth: 0 };
    value_stands(v, at);
    let rest = if on(opts, OPT_APPEND_NEWLINE) {
        seq![0x0au8]
    } else {
        Seq::empty()
    };
    assert(may_follow(rest));
}

/// Is what came of one attempt the same error as what came of another, or no error
/// either?
pub open spec fn same_success<E>(a: Result<Seq<u8>, E>, b: Result<Seq<u8>, E>) -> bool {
    match a {
        Ok(_) => b is Ok,
        Err(e) => b == Err::<Seq<u8>, E>(e),
    }
}

/// The layout does not matter to what an array stands for.
proof fn dim_layout(p: Plan, q: Plan, dim: int, k: int)
    requires
        same_contents(p.opts, q.opts),
        q == (Plan { opts: q.opts, depth: q.depth, ..p }),
        dim >= 0,
    ensures
        same_success(dim_text(p, dim, k), dim_text(q, dim, k)),
        dim_text(p, dim, k) is Ok ==> dim_doc(p, dim, k) == dim_doc(q, dim, k),
    decreases p.shape.len() - dim, 1int, 0int,
{
    if dim < p.shape.len() && p.shape[dim] != 0 {
        entries_layout(p, q, dim, k, p.shape[dim] as int);
    } else if dim < p.shape.len() {
        assert(entries_doc(p, dim, k, 0) =~= entries_doc(q, dim, k, 0));
    }
}

proof fn entries_layout(p: Plan, q: Plan, dim: int, k: int, i: int)
    requires
        same_contents(p.opts, q.opts),
        q == (Plan { opts: q.opts, depth: q.depth, ..p }),
        0 <= dim < p.shape.len(),
    ensures
        same_success(array_entries_text(p, dim, k, i), array_entries_text(q, dim, k, i)),
        array_entries_text(p, dim, k, i) is Ok ==> entries_doc(p, dim, k, i) == entries_doc(
            q,
            dim,
            k,
            i,
        ),
    decreases p.shape.len() - dim, 0int, i,
{
    if i > 0 {
        entries_layout(p, q, dim, k, i - 1);
        let at = k + (i - 1) * count(p.shape, dim + 1);
        if dim + 1 < p.shape.len() {
            dim_layout(p, q, dim + 1, at);
        } else {
            assert(element_text(p, at) == element_text(q, at));
        }
        assert(same_success(entry_text(p, dim, at), entry_text(q, dim, at)));
        assert(entry_text(p, dim, at) is Ok ==> entry_doc(p, dim, at) == entry_doc(q, dim, at));
    }
}

/// Are these the same place but for the layout?
pub open spec fn same_place(at: Place, bt: Place) -> bool {
    bt == (Place { opts: bt.opts, ..at }) && same_contents(at.opts, bt.opts)
}

/// The layout does not matter: with the same contents asked for, a value is written
/// under both sets of options or under neither, for the same reason, and stands for
/// the same.
pub proof fn layout_does_not_matter(v: Value, at: Place, bt: Place)
    requires
        same_place(at, bt),
    ensures
        same_success(value_text(v, at), value_text(v, bt)),
        value_text(v, at) is Ok ==> value_doc(v, at) == value_doc(v, bt),
    decreases v, 2int, 0int,
{
    if v.reply@.len() > 0 {
        layout_does_not_matter(v.reply@[0], at.replaced(), bt.replaced());
    }
    match v.body {
        Body::List(_) | Body::Tuple(_) => {
            items_layout(v, items_of(v).len() as int, at.inside(), bt.inside());
        },
        Body::Dict(entries) => {
            let n = entries_of(v).len() as int;
            assert(n == entries.len() <= usize::MAX);
            if on(at.opts, OPT_SORT_KEYS) {
                if let Ok(keys) = keys_told(entry_keys(entries_of(v))) {
                    sorted_layout(v, keys, sorted_order(keys), n, at.inside(), bt.inside());
                }
            } else {
                own_layout(v, n, at.inside(), bt.inside());
            }
        },
        Body::Time { .. } => {
            time_opts_flags(at.opts);
            time_opts_flags(bt.opts);
        },
        Body::Array { .. } => {
            array_layout(v, at, bt);
        },
        _ => {},
    }
}

proof fn array_layout(v: Value, at: Place, bt: Place)
    requires
        v.body is Array,
        same_place(at, bt),
    ensures
        match numpy_told(v, at) {
            Told::Text(_) => numpy_told(v, bt) is Text && dim_doc(array_plan(v, at), 0, 0)
                == dim_doc(array_plan(v, bt), 0, 0),
            Told::Declined(why) => numpy_told(v, bt) == Told::Declined(why),
            Told::Malformed => numpy_told(v, bt) is Malformed,
        },
{
    let p = array_plan(v, at);
    let q = array_plan(v, bt);
    dim_layout(p, q, 0, 0);
}

proof fn items_layout(v: Value, n: int, at: Place, bt: Place)
    requires
        same_place(at, bt),
    ensures
        same_success(items_text(v, n, at), items_text(v, n, bt)),
        items_text(v, n, at) is Ok ==> items_doc(v, n, at) == items_doc(v, n, bt),
    decreases v, 0int, n,
{
    if 0 < n <= items_of(v).len() {
        items_layout(v, n - 1, at, bt);
        layout_does_not_matter(items_of(v)[n - 1], at, bt);
    }
}

proof fn own_layout(v: Value, n: int, at: Place, bt: Place)
    requires
        same_place(at, bt),
        n <= entries_of(v).len() <= usize::MAX,
    ensures
        same_success(entries_text(v, n, at), entries_text(v, n, bt)),
        entries_text(v, n, at) is Ok ==> entries_docs(
            v,
            own_order(entries_of(v).len()),
            n,
            at,
        ) == entries_docs(v, own_order(entries_of(v).len()), n, bt),
    decreases v, 0int, n,
{
    if 0 < n {
        own_layout(v, n - 1, at, bt);
        layout_does_not_matter(entries_of(v)[n - 1].value, at, bt);
        assert(own_order(entries_of(v).len())[n - 1] == n - 1);
    }
}

proof fn sorted_layout(
    v: Value,
    keys: Seq<Seq<u8>>,
    order: Seq<usize>,
    n: int,
    at: Place,
    bt: Place,
)
    requires
        same_place(at, bt),
    ensures
        same_success(sorted_text(v, keys, order, n, at), sorted_text(v, keys, order, n, bt)),
        sorted_text(v, keys, order, n, at) is Ok ==> entries_docs(v, order, n, at) == entries_docs(
            v,
            order,
            n,
            bt,
        ),
    decreases v, 0int, n,
{
    if 0 < n <= order.len() && order[n - 1] < entries_of(v).len() {
        sorted_layout(v, keys, order, n - 1, at, bt);
        layout_does_not_matter(entries_of(v)[order[n - 1] as int].value, at, bt);
    }
}

/// The indented form of a document is written when the compact form is, and reads as
/// the same.
pub proof fn indent_changes_layout_only(v: Value, opts: u32, has_default: bool)
    requires
        value_valid(v),
        value_spelled(v),
    ensures
        match document_text(v, opts, has_default) {
            Err(e) => document_text(v, opts | OPT_INDENT_2, has_default) == Err::<
                Seq<u8>,
                EncodeError,
            >(e),
            Ok(t) => document_text(v, opts | OPT_INDENT_2, has_default) matches Ok(u) && read_doc(
                u,
            )->Some_0.0 == read_doc(t)->Some_0.0,
        },
{
    let at = Place { opts, has_default, depth: 0, default_depth: 0 };
    let bt = Place { opts: opts | OPT_INDENT_2, ..at };
    contents_kept(opts);
    layout_does_not_matter(v, at, bt);
    if value_text(v, at) is Ok {
        document_reads_back(v, opts, has_default);
        document_reads_back(v, opts | OPT_INDENT_2, has_default);
    }
}

} // verus!

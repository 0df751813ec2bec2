//! What `loads` makes of what `dumps` wrote.
use crate::accept::{accepted, parsable, read_json, says, unsigned, MAX_NESTING};
use crate::datetime::{digit_run, digit_run_is};
use crate::decode::{Json, JsonView};
use crate::document::{
    dict_text, document_text, entries_of, items_of, list_text, numpy_told, parts_valid,
    value_text, value_valid, Body, Place, Value,
};
use crate::double::rounds_to_one;
use crate::encode::{key_told, EncodeError, IntRead};
use crate::grammar::{pairs, skip_white, Doc};
use crate::literal::null_text;
use crate::loads::{blank, loaded, DecodeError};
use crate::meaning::{
    dict_doc, document_reads_back, entries_docs, entries_docs_are, entry_order, float_doc,
    items_doc, items_split, ordered_keys, value_doc, value_spelled,
};
use crate::number::{int_text, int_text_reads_back, nat_text, nat_text_reads_back};
use crate::opts::{on, OPT_APPEND_NEWLINE};
use crate::reading::{doubles_below_infinity_are_digits, left_for_default};
use crate::readable::{
    entry_order_within, entry_written, levels, parsable_more, parts_readable, spells,
    value_doc_readable, value_readable,
};
use crate::swar::digit;
use crate::utf8_text::text_is_utf8;
use vstd::prelude::*;
use vstd::utf8::valid_utf8;

verus! {

/// What a document stands for.
pub open spec fn document_doc(v: Value, opts: u32, has_default: bool) -> Doc {
    value_doc(v, Place { opts, has_default, depth: 0, default_depth: 0 })
}

/// A document that is written is a JSON text that stands for the value. It is UTF-8,
/// nests no deeper than is read and holds no number too large to be read, if the strings
/// and floats of the value are such and its arrays have no more dimensions than numpy
/// allows.
pub proof fn document_is_json(v: Value, opts: u32, has_default: bool)
    requires
        value_valid(v),
        value_spelled(v),
        document_text(v, opts, has_default) is Ok,
    ensures
        read_json(document_text(v, opts, has_default)->Ok_0) == Some(
            document_doc(v, opts, has_default),
        ),
        value_readable(v) ==> valid_utf8(document_text(v, opts, has_default)->Ok_0) && parsable(
            document_doc(v, opts, has_default),
            MAX_NESTING as nat,
        ),
{
    let t = document_text(v, opts, has_default)->Ok_0;
    let d = document_doc(v, opts, has_default);
    document_reads_back(v, opts, has_default);
    let rest = if on(opts, OPT_APPEND_NEWLINE) {
        seq![0x0au8]
    } else {
        Seq::empty()
    };
    assert(rest.len() == 1 ==> rest.subrange(1, 1).len() == 0);
    reveal_with_fuel(skip_white, 2);
    assert(skip_white(rest).len() == 0);
    if value_readable(v) {
        value_doc_readable(v, Place { opts, has_default, depth: 0, default_depth: 0 });
        text_is_utf8(t);
        parsable_more(d, levels(0), MAX_NESTING as nat);
    }
}

/// An integer that is written reads back as the same integer.
pub proof fn integers_read_back(v: int, j: JsonView)
    requires
        i64::MIN <= v <= u64::MAX,
        says(j, Doc::Number(int_text(v))),
    ensures
        j == if v < 0 {
            JsonView::I64(v as i64)
        } else {
            JsonView::U64(v as u64)
        },
{
    let t = int_text(v);
    int_text_reads_back(v);
    let n = (if v < 0 {
        -v
    } else {
        v
    }) as nat;
    nat_text_reads_back(n);
    assert(digit(nat_text(n)[0]));
    assert(unsigned(t) =~= nat_text(n));
    digit_run_is(nat_text(n), nat_text(n).len() as int);
}

/// A float that is written reads back as the same float.
pub proof fn floats_read_back(digits: Seq<u8>, bits: u64, j: JsonView)
    requires
        spells(digits, bits),
        says(j, float_doc(digits)),
    ensures
        j == JsonView::F64(bits),
{
    let u = unsigned(digits);
    assert(digit_run(u) > 0 ==> digit(u[0]));
    assert(digits[0] != null_text()[0]);
    rounds_to_one(digits, j->F64_0, bits);
}

/// Is `j` the value `v` as it stands at `at`? A list or a tuple is an array of its items;
/// a dict is an object of its entries, in the order in which they are written; an integer
/// is that integer, and a finite float that float. What `default` is asked about is what
/// it returned, and what has no counterpart in JSON is what its text stands for.
pub open spec fn gives_back(j: JsonView, v: Value, at: Place) -> bool
    decreases v,
{
    if left_for_default(v, at.opts) || ((v.body is Array || v.body is Scalar) && !(numpy_told(v, at)
        is Text)) {
        v.reply@.len() > 0 && gives_back(j, v.reply@[0], at.replaced())
    } else {
        match v.body {
            Body::Null => j == JsonView::Null,
            Body::Bool(b) => j == JsonView::Bool(b),
            Body::Int(IntRead::Fits(i)) => j == if i < 0 {
                JsonView::I64(i)
            } else {
                JsonView::U64(i as u64)
            },
            Body::Int(IntRead::Above(Some(i))) => j == JsonView::U64(i),
            Body::Int(_) => false,
            Body::Float { bits, .. } => j == if bits % 0x8000_0000_0000_0000
                < 0x7ff0_0000_0000_0000 {
                JsonView::F64(bits)
            } else {
                JsonView::Null
            },
            Body::Str(s) => s matches Some(s) && j == JsonView::Str(s@),
            Body::List(items) => j matches JsonView::Array(js) && js.len() == items@.len()
                && forall|i: int|
                0 <= i < items@.len() ==> gives_back(js[i], #[trigger] items@[i], at.inside()),
            Body::Tuple(items) => j matches JsonView::Array(js) && js.len() == items@.len()
                && forall|i: int|
                0 <= i < items@.len() ==> gives_back(js[i], #[trigger] items@[i], at.inside()),
            Body::Dict(entries) => j matches JsonView::Object(ms) && ms.len() == entries@.len()
                && forall|i: int|
                0 <= i < ms.len() ==> #[trigger] entry_order(v, at.opts)[i] < entries@.len()
                    && key_told(entries@[entry_order(v, at.opts)[i] as int].key) == Ok::<
                    Seq<u8>,
                    EncodeError,
                >(ms[i].0) && gives_back(
                    ms[i].1,
                    entries@[entry_order(v, at.opts)[i] as int].value,
                    at.inside(),
                ),
            _ => says(j, value_doc(v, at)),
        }
    }
}

/// What a text stands for is the value that it was written for.
proof fn value_given_back(j: JsonView, v: Value, at: Place)
    requires
        value_valid(v),
        value_readable(v),
        value_text(v, at) is Ok,
        says(j, value_doc(v, at)),
    ensures
        gives_back(j, v, at),
    decreases v, 3int,
{
    parts_valid(v);
    parts_readable(v);
    if left_for_default(v, at.opts) || ((v.body is Array || v.body is Scalar) && !(numpy_told(v, at)
        is Text)) {
        value_given_back(j, v.reply@[0], at.replaced());
    } else {
        match v.body {
            Body::Int(IntRead::Fits(i)) => integers_read_back(i as int, j),
            Body::Int(IntRead::Above(Some(i))) => integers_read_back(i as int, j),
            Body::Float { bits, digits } => {
                doubles_below_infinity_are_digits(bits, digits@);
                if bits % 0x8000_0000_0000_0000 < 0x7ff0_0000_0000_0000 {
                    floats_read_back(digits@, bits, j);
                }
            },
            Body::List(_) => items_given_back(j, v, at),
            Body::Tuple(_) => items_given_back(j, v, at),
            Body::Dict(_) => entries_given_back(j, v, at),
            _ => {},
        }
    }
}

proof fn items_given_back(j: JsonView, v: Value, at: Place)
    requires
        value_valid(v),
        value_readable(v),
        v.body is List || v.body is Tuple,
        list_text(v, at) is Ok,
        says(j, Doc::Array(items_doc(v, items_of(v).len() as int, at.inside()))),
    ensures
        j matches JsonView::Array(js) && js.len() == items_of(v).len() && forall|i: int|
            0 <= i < items_of(v).len() ==> gives_back(
                js[i],
                #[trigger] items_of(v)[i],
                at.inside(),
            ),
    decreases v, 1int,
{
    parts_valid(v);
    parts_readable(v);
    let n = items_of(v).len() as int;
    let docs = items_doc(v, n, at.inside());
    if n > 0 {
        items_split(v, n, at.inside());
    }
    let js = j->Array_0;
    assert forall|i: int| 0 <= i < n implies gives_back(
        js[i],
        #[trigger] items_of(v)[i],
        at.inside(),
    ) by {
        assert(says(js[i], docs[i]));
        value_given_back(js[i], items_of(v)[i], at.inside());
    }
}

proof fn entry_given_back(j: JsonView, v: Value, at: Place, i: int)
    requires
        value_valid(v),
        value_readable(v),
        v.body is Dict,
        dict_text(v, at) is Ok,
        says(j, dict_doc(v, at)),
        0 <= i < entries_of(v).len(),
    ensures
        j is Object,
        j->Object_0.len() == entries_of(v).len(),
        ({
            let k = entry_order(v, at.opts)[i] as int;
            let m = j->Object_0[i];
            &&& k < entries_of(v).len()
            &&& key_told(entries_of(v)[k].key) == Ok::<Seq<u8>, EncodeError>(m.0)
            &&& gives_back(m.1, entries_of(v)[k].value, at.inside())
        }),
    decreases v, 1int,
{
    parts_valid(v);
    parts_readable(v);
    let n = entries_of(v).len() as int;
    let order = entry_order(v, at.opts);
    let keys = ordered_keys(v, order);
    let docs = entries_docs(v, order, n, at.inside());
    let ps = pairs(keys, docs, 0);
    entry_order_within(v, at);
    entries_docs_are(v, order, n, at.inside());
    let m = j->Object_0[i];
    let k = order[i] as int;
    assert(order[i] < n);
    assert(ps[i] == (keys[i], docs[i]));
    assert(says(m.1, ps[i].1) && m.0 == ps[i].0);
    entry_written(v, at, k);
    assert(value_valid(entries_of(v)[k].value) && value_readable(entries_of(v)[k].value));
    value_given_back(m.1, entries_of(v)[k].value, at.inside());
}

proof fn entries_given_back(j: JsonView, v: Value, at: Place)
    requires
        value_valid(v),
        value_readable(v),
        v.body is Dict,
        !left_for_default(v, at.opts),
        dict_text(v, at) is Ok,
        says(j, dict_doc(v, at)),
    ensures
        gives_back(j, v, at),
    decreases v, 2int,
{
    let entries = v.body->Dict_0;
    let order = entry_order(v, at.opts);
    let ms = j->Object_0;
    if entries@.len() == 0 {
        assert(entries_docs(v, order, 0, at.inside()).len() == 0);
    } else {
        entry_given_back(j, v, at, 0);
    }
    assert forall|i: int| 0 <= i < ms.len() implies #[trigger] order[i] < entries@.len() && key_told(
        entries@[order[i] as int].key,
    ) == Ok::<Seq<u8>, EncodeError>(ms[i].0) && gives_back(
        ms[i].1,
        entries@[order[i] as int].value,
        at.inside(),
    ) by {
        entry_given_back(j, v, at, i);
    }
}

proof fn blank_is_no_json(t: Seq<u8>)
    requires
        blank(t),
    ensures
        skip_white(t).len() == 0,
    decreases t.len(),
{
    if t.len() > 0 {
        let u = t.subrange(1, t.len() as int);
        assert forall|i: int| 0 <= i < u.len() implies (#[trigger] u[i] == 0x20 || u[i] == 0x09
            || u[i] == 0x0a || u[i] == 0x0d) by {
            assert(u[i] == t[i + 1]);
        }
        blank_is_no_json(u);
    }
}

/// `loads` gives back what `dumps` wrote, if it is smaller than 4 GiB: the same strings,
/// integers, floats and keys, in the same order. `r` is whatever `loads` returns for it.
pub proof fn loads_gives_back_dumps(
    v: Value,
    opts: u32,
    has_default: bool,
    r: Result<Json, DecodeError>,
)
    requires
        value_valid(v),
        value_spelled(v),
        value_readable(v),
        document_text(v, opts, has_default) is Ok,
        document_text(v, opts, has_default)->Ok_0.len() <= u32::MAX,
        loaded(document_text(v, opts, has_default)->Ok_0, r),
    ensures
        r matches Ok(j) && gives_back(
            j@,
            v,
            Place { opts, has_default, depth: 0, default_depth: 0 },
        ) && says(j@, document_doc(v, opts, has_default)),
{
    let t = document_text(v, opts, has_default)->Ok_0;
    document_is_json(v, opts, has_default);
    assert(accepted(t));
    if blank(t) {
        blank_is_no_json(t);
    }
    value_given_back(
        r->Ok_0@,
        v,
        Place { opts, has_default, depth: 0, default_depth: 0 },
    );
}

/// The same text gives the same document, or none, however it is handed over.
pub proof fn loads_same_document(
    t: Seq<u8>,
    a: Result<Json, DecodeError>,
    b: Result<Json, DecodeError>,
)
    requires
        loaded(t, a),
        loaded(t, b),
    ensures
        a is Ok <==> b is Ok,
        a matches Ok(j) ==> b matches Ok(k) && j@ == k@,
{
}

} // verus!

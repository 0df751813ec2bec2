//! The layout of lists and dicts, compact or indented.
use crate::document::{
    entries_of, entries_text, entry_keys, items_of, items_text, list_text, numpy_told, sorted_text,
    value_text, Place, Value,
};
use crate::encode::{key_told, keys_told, EncodeError, KeyRead};
use crate::grammar::{joined, joined_pairs};
use crate::meaning::{
    array_plan, colon_is, colon_space, entries_split, entry_line, entry_texts, item_texts,
    items_split, keys_told_each, left_joined, left_joined_is, left_pairs, left_pairs_is,
    ordered_keys, ordered_texts, own_entries_split, own_order, sorted_entries_split,
};
use crate::numpy::{dim_text, packed, Plan};
use crate::opts::{on, OPT_INDENT_2, OPT_SERIALIZE_NUMPY, OPT_SORT_KEYS};
use crate::reading::left_for_default;
use crate::sort::{in_order, in_order_unique, sorted_order, sorted_order_in_order};
use vstd::prelude::*;

verus! {

/// What stands in front of each item of a container at `depth`, and of its closing
/// bracket: nothing in the compact form, else a line break and two spaces for each
/// container around it.
pub open spec fn break_at(opts: u32, depth: int) -> Seq<u8> {
    if on(opts, OPT_INDENT_2) {
        Seq::new((1 + 2 * depth) as nat, |i: int| if i == 0 {
            0x0au8
        } else {
            0x20u8
        })
    } else {
        Seq::empty()
    }
}

/// Texts of items between brackets, with commas between them.
pub open spec fn bracketed(texts: Seq<Seq<u8>>, at: Place) -> Seq<u8> {
    if texts.len() == 0 {
        seq![0x5bu8, 0x5d]
    } else {
        let w = break_at(at.opts, at.depth + 1);
        seq![0x5bu8] + w + joined(texts, w, 0) + break_at(at.opts, at.depth) + seq![0x5du8]
    }
}

/// Texts of keys and values between braces, with a colon after each key and commas
/// between the pairs. In the indented form a space follows the colon.
pub open spec fn braced(keys: Seq<Seq<u8>>, texts: Seq<Seq<u8>>, at: Place) -> Seq<u8> {
    if texts.len() == 0 {
        seq![0x7bu8, 0x7d]
    } else {
        let w = break_at(at.opts, at.depth + 1);
        let c = if on(at.opts, OPT_INDENT_2) {
            seq![0x20u8]
        } else {
            Seq::empty()
        };
        seq![0x7bu8] + w + joined_pairs(keys, texts, c, w, 0) + break_at(at.opts, at.depth)
            + seq![0x7du8]
    }
}

/// One container deeper.
pub open spec fn deeper(at: Place) -> Place {
    Place { depth: at.depth + 1, ..at }
}

proof fn line_is(at: Place, level: int)
    requires
        0 <= level,
    ensures
        at.line(level) == break_at(at.opts, level),
{
    assert(at.line(level) =~= break_at(at.opts, level));
}

/// A list or tuple is the texts of its items, one container deeper, between brackets; it
/// fails as the first of its items that fails, or because it is nested too deep.
pub proof fn list_is_its_items(v: Value, at: Place)
    requires
        v.body is List || v.body is Tuple,
        !left_for_default(v, at.opts),
        0 <= at.depth,
    ensures
        at.depth >= 254 ==> value_text(v, at) == Err::<Seq<u8>, EncodeError>(
            EncodeError::Recursion,
        ),
        at.depth < 254 && (forall|i: int|
            0 <= i < items_of(v).len() ==> value_text(#[trigger] items_of(v)[i], deeper(at)) is Ok)
            ==> value_text(v, at) == Ok::<Seq<u8>, EncodeError>(
            bracketed(
                Seq::new(
                    items_of(v).len(),
                    |i: int| value_text(items_of(v)[i], deeper(at))->Ok_0,
                ),
                at,
            ),
        ),
        at.depth < 254 ==> forall|i: int|
            0 <= i < items_of(v).len() && value_text(#[trigger] items_of(v)[i], deeper(at)) is Err
                && (forall|k: int|
                0 <= k < i ==> value_text(#[trigger] items_of(v)[k], deeper(at)) is Ok)
                ==> value_text(v, at) == value_text(items_of(v)[i], deeper(at)),
{
    let inner = at.inside();
    let items = items_of(v);
    let n = items.len() as int;
    assert(inner == deeper(at));
    assert(value_text(v, at) == list_text(v, at));
    line_is(at, at.depth + 1);
    line_is(at, at.depth);
    if at.depth < 254 {
        if forall|i: int| 0 <= i < n ==> value_text(#[trigger] items[i], inner) is Ok {
            let texts = Seq::new(items.len(), |i: int| value_text(items[i], deeper(at))->Ok_0);
            items_ok(v, n, inner);
            items_split(v, n, inner);
            assert(item_texts(v, inner) =~= texts);
            if n > 0 {
                let w = inner.line(inner.depth);
                left_joined_is(texts, w, 0);
                assert(left_joined(texts, w, n) =~= w + joined(texts, w, 0));
                assert(list_text(v, at)->Ok_0 =~= bracketed(texts, at));
            }
        }
        assert forall|i: int|
            0 <= i < n && value_text(#[trigger] items[i], inner) is Err && (forall|k: int|
                0 <= k < i ==> value_text(#[trigger] items[k], inner) is Ok) implies value_text(
            v,
            at,
        ) == value_text(items[i], inner) by {
            items_ok(v, i, inner);
            items_fail(v, i, n, inner);
        }
    }
}

proof fn items_ok(v: Value, n: int, at: Place)
    requires
        0 <= n <= items_of(v).len(),
        forall|i: int| 0 <= i < n ==> value_text(#[trigger] items_of(v)[i], at) is Ok,
    ensures
        items_text(v, n, at) is Ok,
    decreases n,
{
    if n > 0 {
        items_ok(v, n - 1, at);
        assert(value_text(items_of(v)[n - 1], at) is Ok);
    }
}

proof fn items_fail(v: Value, i: int, n: int, at: Place)
    requires
        0 <= i < n <= items_of(v).len(),
        items_text(v, i, at) is Ok,
        value_text(items_of(v)[i], at) is Err,
    ensures
        items_text(v, n, at) == Err::<Seq<u8>, EncodeError>(
            value_text(items_of(v)[i], at)->Err_0,
        ),
    decreases n,
{
    if n > i + 1 {
        items_fail(v, i, n - 1, at);
    }
}

/// A dict is the texts of its keys and values, one container deeper, between braces: in
/// its own order, or in the order of its keys where that is asked for.
pub proof fn dict_is_its_entries(v: Value, at: Place, order: Seq<usize>)
    requires
        v.body is Dict,
        !left_for_default(v, at.opts),
        0 <= at.depth < 254,
        forall|i: int|
            0 <= i < entries_of(v).len() ==> (#[trigger] entries_of(v)[i]).key is Utf8
                && value_text(entries_of(v)[i].value, deeper(at)) is Ok,
        if on(at.opts, OPT_SORT_KEYS) {
            in_order(Seq::new(entries_of(v).len(), |i: int| entries_of(v)[i].key->Utf8_0@), order)
        } else {
            order.len() == entries_of(v).len() && forall|i: int|
                0 <= i < order.len() ==> #[trigger] order[i] == i
        },
    ensures
        value_text(v, at) == Ok::<Seq<u8>, EncodeError>(
            braced(
                Seq::new(order.len(), |i: int| entries_of(v)[order[i] as int].key->Utf8_0@),
                Seq::new(
                    order.len(),
                    |i: int| value_text(entries_of(v)[order[i] as int].value, deeper(at))->Ok_0,
                ),
                at,
            ),
        ),
{
    let inner = at.inside();
    let entries = entries_of(v);
    let n = entries.len() as int;
    assert(n == v.body->Dict_0.len() <= usize::MAX);
    assert(inner == deeper(at));
    line_is(at, at.depth + 1);
    line_is(at, at.depth);
    let keys = Seq::new(order.len(), |i: int| entries[order[i] as int].key->Utf8_0@);
    let texts = Seq::new(
        order.len(),
        |i: int| value_text(entries[order[i] as int].value, deeper(at))->Ok_0,
    );
    let own = Seq::new(entries.len(), |i: int| entries[i].key->Utf8_0@);
    if n > 0 {
        let w = inner.line(inner.depth);
        let c = colon_space(inner);
        colon_is(inner);
        if on(at.opts, OPT_SORT_KEYS) {
            let read = entry_keys(entries);
            keys_ok(read);
            keys_told_each(read);
            let told = keys_told(read)->Ok_0;
            assert forall|i: int| 0 <= i < n implies #[trigger] told[i] == own[i] by {
                assert(key_told(read[i]) == Ok::<Seq<u8>, EncodeError>(told[i]));
                assert(entries[i].key is Utf8);
            }
            assert(told =~= own);
            sorted_order_in_order(told);
            in_order_unique(told, order, sorted_order(told));
            assert forall|i: int| 0 <= i < order.len() implies #[trigger] order[i]
                < entries.len() by {}
            sorted_ok(v, told, order, n, inner);
            sorted_entries_split(v, told, order, n, inner);
        } else {
            entries_ok(v, n, inner);
            own_entries_split(v, n, inner);
            assert(order =~= own_order(entries.len()));
        }
        assert forall|i: int| 0 <= i < order.len() implies #[trigger] order[i] < entries.len() by {}
        assert forall|i: int| 0 <= i < order.len() implies #[trigger] ordered_keys(v, order)[i]
            == keys[i] by {
            assert(order[i] < entries.len());
            assert(entries[order[i] as int].key is Utf8);
        }
        assert(ordered_keys(v, order) =~= keys);
        assert(ordered_texts(v, order, inner) =~= texts);
        left_pairs_is(keys, texts, c, w, 0);
        assert(left_pairs(keys, texts, c, w, n) =~= w + joined_pairs(keys, texts, c, w, 0));
        assert(value_text(v, at)->Ok_0 =~= braced(keys, texts, at));
    }
}

proof fn keys_ok(keys: Seq<KeyRead>)
    requires
        forall|i: int| 0 <= i < keys.len() ==> #[trigger] keys[i] is Utf8,
    ensures
        keys_told(keys) is Ok,
    decreases keys.len(),
{
    if keys.len() > 0 {
        let init = keys.drop_last();
        assert forall|i: int| 0 <= i < init.len() implies #[trigger] init[i] is Utf8 by {
            assert(keys[i] is Utf8);
        }
        keys_ok(init);
        assert(keys[keys.len() - 1] is Utf8);
    }
}

proof fn entries_ok(v: Value, n: int, at: Place)
    requires
        0 <= n <= entries_of(v).len(),
        forall|i: int|
            0 <= i < n ==> (#[trigger] entries_of(v)[i]).key is Utf8 && value_text(
                entries_of(v)[i].value,
                at,
            ) is Ok,
    ensures
        entries_text(v, n, at) is Ok,
    decreases n,
{
    if n > 0 {
        entries_ok(v, n - 1, at);
        assert(entries_of(v)[n - 1].key is Utf8);
    }
}

proof fn sorted_ok(v: Value, keys: Seq<Seq<u8>>, order: Seq<usize>, n: int, at: Place)
    requires
        0 <= n <= order.len(),
        forall|i: int| 0 <= i < order.len() ==> #[trigger] order[i] < entries_of(v).len(),
        forall|i: int|
            0 <= i < entries_of(v).len() ==> value_text(
                (#[trigger] entries_of(v)[i]).value,
                at,
            ) is Ok,
    ensures
        sorted_text(v, keys, order, n, at) is Ok,
    decreases n,
{
    if n > 0 {
        sorted_ok(v, keys, order, n - 1, at);
        assert(order[n - 1] < entries_of(v).len());
        assert(value_text(entries_of(v)[order[n - 1] as int].value, at) is Ok);
    }
}

/// What is wrong with a key that has no text.
pub open spec fn key_fault(key: KeyRead) -> Option<EncodeError> {
    match key {
        KeyRead::NotStr => Some(EncodeError::KeyNotStr),
        KeyRead::NotUtf8 => Some(EncodeError::StrNotUtf8),
        KeyRead::Utf8(_) => None,
    }
}

/// A dict fails because it is nested too deep; or, in its own order, as the first of its
/// entries that fails, by its key before its value; or, in the order of its keys, by the
/// first of its keys that has no text, before any value.
pub proof fn dict_fails_as_its_first_fault(v: Value, at: Place, i: int)
    requires
        v.body is Dict,
        !left_for_default(v, at.opts),
        0 <= at.depth,
        0 <= i < entries_of(v).len(),
    ensures
        at.depth >= 254 ==> value_text(v, at) == Err::<Seq<u8>, EncodeError>(
            EncodeError::Recursion,
        ),
        at.depth < 254 && key_fault(entries_of(v)[i].key) is Some && (forall|k: int|
            0 <= k < i ==> (#[trigger] entries_of(v)[k]).key is Utf8 && (on(at.opts, OPT_SORT_KEYS)
                || value_text(entries_of(v)[k].value, deeper(at)) is Ok)) ==> value_text(v, at)
            == Err::<Seq<u8>, EncodeError>(key_fault(entries_of(v)[i].key)->Some_0),
        at.depth < 254 && !on(at.opts, OPT_SORT_KEYS) && entries_of(v)[i].key is Utf8 && value_text(
            entries_of(v)[i].value,
            deeper(at),
        ) is Err && (forall|k: int|
            0 <= k < i ==> (#[trigger] entries_of(v)[k]).key is Utf8 && value_text(
                entries_of(v)[k].value,
                deeper(at),
            ) is Ok) ==> value_text(v, at) == value_text(entries_of(v)[i].value, deeper(at)),
{
    let inner = at.inside();
    let entries = entries_of(v);
    let n = entries.len() as int;
    assert(inner == deeper(at));
    if at.depth < 254 {
        if on(at.opts, OPT_SORT_KEYS) {
            if key_fault(entries[i].key) is Some && forall|k: int|
                0 <= k < i ==> (#[trigger] entries[k]).key is Utf8 {
                keys_fail(entry_keys(entries), i, n);
            }
        } else if forall|k: int|
            0 <= k < i ==> (#[trigger] entries[k]).key is Utf8 && value_text(
                entries[k].value,
                inner,
            ) is Ok {
            entries_ok(v, i, inner);
            if key_fault(entries[i].key) is Some || value_text(entries[i].value, inner) is Err {
                entries_fail(v, i, n, inner);
            }
        }
    }
}

proof fn keys_fail(keys: Seq<KeyRead>, i: int, n: int)
    requires
        0 <= i < n <= keys.len(),
        key_fault(keys[i]) is Some,
        forall|k: int| 0 <= k < i ==> #[trigger] keys[k] is Utf8,
    ensures
        keys_told(keys.subrange(0, n)) == Err::<Seq<Seq<u8>>, EncodeError>(
            key_fault(keys[i])->Some_0,
        ),
        n == keys.len() ==> keys.subrange(0, n) == keys,
    decreases n,
{
    let t = keys.subrange(0, n);
    assert(t.drop_last() =~= keys.subrange(0, n - 1));
    if n == i + 1 {
        let init = keys.subrange(0, i);
        assert forall|k: int| 0 <= k < init.len() implies #[trigger] init[k] is Utf8 by {
            assert(keys[k] is Utf8);
        }
        keys_ok(init);
        assert(t.last() == keys[i]);
    } else {
        keys_fail(keys, i, n - 1);
    }
    if n == keys.len() {
        assert(t =~= keys);
    }
}

proof fn entries_fail(v: Value, i: int, n: int, at: Place)
    requires
        0 <= i < n <= entries_of(v).len(),
        entries_text(v, i, at) is Ok,
        key_fault(entries_of(v)[i].key) is Some || value_text(entries_of(v)[i].value, at) is Err,
    ensures
        entries_text(v, n, at) == Err::<Seq<u8>, EncodeError>(
            match key_fault(entries_of(v)[i].key) {
                Some(e) => e,
                None => value_text(entries_of(v)[i].value, at)->Err_0,
            },
        ),
    decreases n,
{
    if n > i + 1 {
        entries_fail(v, i, n - 1, at);
    }
}

/// A dimension of an array is the texts of its entries between brackets, as a list at its
/// depth is.
pub proof fn dimension_is_its_entries(p: Plan, dim: int, k: int, at: Place)
    requires
        0 <= dim < p.shape.len(),
        p.shape[dim] >= 0,
        dim_text(p, dim, k) is Ok,
        at.opts == p.opts,
        at.depth == p.depth + dim,
    ensures
        dim_text(p, dim, k)->Ok_0 == bracketed(entry_texts(p, dim, k), at),
{
    let n = p.shape[dim] as int;
    let texts = entry_texts(p, dim, k);
    line_is(at, at.depth + 1);
    line_is(at, at.depth);
    if n > 0 {
        let w = entry_line(p, dim);
        entries_split(p, dim, k, n);
        left_joined_is(texts, w, 0);
        assert(left_joined(texts, w, n) =~= w + joined(texts, w, 0));
        assert(w =~= break_at(at.opts, at.depth + 1));
        assert(dim_text(p, dim, k)->Ok_0 =~= bracketed(texts, at));
    }
}

/// An array that is written is laid out as a list is where it stands.
pub proof fn array_is_laid_out_as_a_list(v: Value, at: Place)
    requires
        v.body is Array,
        v.exact,
        on(at.opts, OPT_SERIALIZE_NUMPY),
        numpy_told(v, at) is Text,
        0 <= at.depth <= 254,
    ensures
        value_text(v, at) == Ok::<Seq<u8>, EncodeError>(
            bracketed(entry_texts(array_plan(v, at), 0, 0), at),
        ),
{
    let p = array_plan(v, at);
    let info = v.body->Array_info;
    assert(packed(info, info.itemsize as int));
    assert(dim_text(p, 0, 0) is Ok);
    assert(p.shape[0] >= 0);
    dimension_is_its_entries(p, 0, 0, at);
}

} // verus!

//! A JSON text whose strings are UTF-8 is UTF-8.
use crate::escape::{hex4_value, hex_value, read_escape, read_string, read_string_rest};
use crate::grammar::{
    from, numeric, numeric_run, read_doc, read_elements, read_pairs, skip_white, starts, white, Doc,
};
use crate::literal::{bool_text, null_text};
use vstd::prelude::*;
use vstd::utf8::{
    encode_scalar, is_continuation_byte, is_leading_byte_width_1, is_leading_byte_width_2,
    is_leading_byte_width_3, is_leading_byte_width_4, is_scalar, length_of_first_scalar,
    pop_first_scalar, valid_first_scalar, valid_utf8, valid_utf8_concat,
};

verus! {

/// Are the strings and keys of a document UTF-8?
pub open spec fn utf8_doc(d: Doc) -> bool
    decreases d,
{
    match d {
        Doc::Text(s) => valid_utf8(s),
        Doc::Array(ds) => forall|i: int| 0 <= i < ds.len() ==> utf8_doc(#[trigger] ds[i]),
        Doc::Object(ps) => forall|i: int|
            0 <= i < ps.len() ==> valid_utf8((#[trigger] ps[i]).0) && utf8_doc(ps[i].1),
        _ => true,
    }
}

/// What stands in such a document is UTF-8 too.
proof fn parts_utf8(d: Doc)
    requires
        utf8_doc(d),
    ensures
        d matches Doc::Array(ds) ==> forall|i: int|
            0 <= i < ds.len() ==> utf8_doc(#[trigger] ds[i]),
        d matches Doc::Object(ps) ==> forall|i: int|
            0 <= i < ps.len() ==> valid_utf8((#[trigger] ps[i]).0) && utf8_doc(ps[i].1),
{
}

/// Is `rest` the end of `t`, and what stands in front of it UTF-8?
#[verifier::opaque]
pub open spec fn consumed(t: Seq<u8>, rest: Seq<u8>) -> bool {
    &&& rest.len() <= t.len()
    &&& from(t, t.len() - rest.len()) == rest
    &&& valid_utf8(t.subrange(0, t.len() - rest.len()))
}

pub open spec fn ascii(s: Seq<u8>) -> bool {
    forall|i: int| 0 <= i < s.len() ==> #[trigger] s[i] < 0x80
}

/// ASCII is UTF-8.
pub proof fn ascii_valid(s: Seq<u8>)
    requires
        ascii(s),
    ensures
        valid_utf8(s),
    decreases s.len(),
{
    if s.len() > 0 {
        let b = s[0];
        assert(b < 0x80);
        assert((b & 0x7f) as u32 <= 0x7f) by (bit_vector);
        assert(valid_first_scalar(s));
        let rest = pop_first_scalar(s);
        assert forall|i: int| 0 <= i < rest.len() implies #[trigger] rest[i] < 0x80 by {
            assert(s[i + 1] < 0x80);
        }
        ascii_valid(rest);
    }
}

proof fn consumed_trans(a: Seq<u8>, b: Seq<u8>, c: Seq<u8>)
    requires
        consumed(a, b),
        consumed(b, c),
    ensures
        consumed(a, c),
{
    reveal(consumed);
    let p = a.subrange(0, a.len() - b.len());
    let q = b.subrange(0, b.len() - c.len());
    valid_utf8_concat(p, q);
    assert(a =~= p + b);
    assert(b =~= q + c);
    assert(a.subrange(0, a.len() - c.len()) =~= p + q);
    assert(from(a, a.len() - c.len()) =~= c);
}

/// The first `n` bytes are ASCII, so what is behind them is what is left.
proof fn ascii_consumed(t: Seq<u8>, n: int)
    requires
        0 <= n <= t.len(),
        ascii(t.subrange(0, n)),
    ensures
        consumed(t, from(t, n)),
        from(t, n).len() == t.len() - n,
{
    reveal(consumed);
    ascii_valid(t.subrange(0, n));
}

proof fn white_consumed(t: Seq<u8>)
    ensures
        consumed(t, skip_white(t)),
        skip_white(t).len() <= t.len(),
    decreases t.len(),
{
    if t.len() > 0 && white(t[0]) {
        let u = t.subrange(1, t.len() as int);
        white_consumed(u);
        ascii_consumed(t, 1);
        assert(from(t, 1) == u);
        consumed_trans(t, u, skip_white(u));
    } else {
        ascii_consumed(t, 0);
        assert(from(t, 0) =~= t);
    }
}

/// Is this the encoding of a character by its length and first byte?
pub open spec fn leads(e: Seq<u8>) -> bool {
    ||| e.len() == 1 && is_leading_byte_width_1(e[0])
    ||| e.len() == 2 && is_leading_byte_width_2(e[0])
    ||| e.len() == 3 && is_leading_byte_width_3(e[0])
    ||| e.len() == 4 && is_leading_byte_width_4(e[0])
}

proof fn scalar_leads(c: u32)
    requires
        is_scalar(c),
    ensures
        leads(encode_scalar(c)),
{
    assert((c & 0x7f) as u8 <= 0x7f && 0xc0 <= (0xc0u8 | ((c >> 6) & 0x1f) as u8) <= 0xdf && 0xe0
        <= (0xe0u8 | ((c >> 12) & 0x0f) as u8) <= 0xef && 0xf0 <= (0xf0u8 | ((c >> 18) & 0x7) as u8)
        <= 0xf7) by (bit_vector);
}

/// An escape is ASCII and stands for one character.
proof fn escape_leads(t: Seq<u8>)
    ensures
        read_escape(t) matches Some((e, n)) ==> 2 <= n <= t.len() && ascii(t.subrange(0, n))
            && leads(e),
{
    reveal(read_escape);
    if let Some((e, n)) = read_escape(t) {
        if t[1] == 0x75 {
            let c = hex4_value(t, 2)->Some_0;
            assert(hex_value(t[2]) is Some && hex_value(t[3]) is Some && hex_value(t[4]) is Some
                && hex_value(t[5]) is Some);
            if 0xd800 <= c < 0xdc00 {
                let l = hex4_value(t, 8)->Some_0;
                assert(hex_value(t[8]) is Some && hex_value(t[9]) is Some && hex_value(t[10])
                    is Some && hex_value(t[11]) is Some);
                scalar_leads((0x10000 + 0x400 * (c - 0xd800) + l - 0xdc00) as u32);
            } else {
                scalar_leads(c as u32);
            }
        }
        assert(ascii(t.subrange(0, n)));
    }
}

/// What follows a character in UTF-8 is UTF-8.
proof fn valid_behind(e: Seq<u8>, s: Seq<u8>)
    requires
        leads(e),
        valid_utf8(e + s),
    ensures
        valid_utf8(s),
{
    assert((e + s)[0] == e[0]);
    assert(pop_first_scalar(e + s) =~= s);
}

/// A continuation byte in a string that was read stood in the text itself.
proof fn continuation_is_raw(t: Seq<u8>)
    requires
        read_string_rest(t) is Some,
        read_string_rest(t)->Some_0.0.len() > 0,
        is_continuation_byte(read_string_rest(t)->Some_0.0[0]),
    ensures
        ({
            let (s, rest) = read_string_rest(t)->Some_0;
            &&& t.len() > 0 && t[0] == s[0]
            &&& read_string_rest(from(t, 1)) == Some((from(s, 1), rest))
        }),
{
    escape_leads(t);
    let (s, rest) = read_string_rest(t)->Some_0;
    if t[0] == 0x5c {
        let (e, n) = read_escape(t)->Some_0;
        let u = read_string_rest(t.subrange(n, t.len() as int))->Some_0.0;
        assert(s[0] == (e + u)[0]);
    } else {
        let u = read_string_rest(t.subrange(1, t.len() as int))->Some_0.0;
        assert(from(s, 1) =~= u);
    }
}

/// The first character of UTF-8 is UTF-8.
proof fn first_valid(s: Seq<u8>)
    requires
        valid_first_scalar(s),
    ensures
        valid_utf8(s.subrange(0, length_of_first_scalar(s))),
{
    let k = length_of_first_scalar(s);
    let f = s.subrange(0, k);
    assert(f[0] == s[0]);
    assert(k >= 2 ==> f[1] == s[1]);
    assert(k >= 3 ==> f[2] == s[2]);
    assert(k >= 4 ==> f[3] == s[3]);
    assert(valid_first_scalar(f));
    let rest = pop_first_scalar(f);
    assert(rest.len() == 0);
    assert(valid_utf8(rest));
}

/// A character in a string that does not begin with an escape stood in the text itself.
proof fn raw_character(t: Seq<u8>)
    requires
        read_string_rest(t) is Some,
        t[0] != 0x22 && t[0] != 0x5c,
        valid_first_scalar(read_string_rest(t)->Some_0.0),
    ensures
        ({
            let (s, rest) = read_string_rest(t)->Some_0;
            let k = length_of_first_scalar(s);
            &&& k <= t.len()
            &&& t.subrange(0, k) == s.subrange(0, k)
            &&& read_string_rest(from(t, k)) == Some((from(s, k), rest))
        }),
{
    let s = read_string_rest(t)->Some_0.0;
    let k = length_of_first_scalar(s);
    let u = from(t, 1);
    let s2 = read_string_rest(u)->Some_0.0;
    assert(s == seq![t[0]] + s2);
    assert(from(s, 1) =~= s2);
    if k >= 2 {
        assert(s2[0] == s[1]);
        continuation_is_raw(u);
        assert(from(u, 1) =~= from(t, 2));
        assert(from(s2, 1) =~= from(s, 2));
    }
    if k >= 3 {
        assert(from(s, 2)[0] == s[2]);
        continuation_is_raw(from(t, 2));
        assert(from(from(t, 2), 1) =~= from(t, 3));
        assert(from(from(s, 2), 1) =~= from(s, 3));
    }
    if k >= 4 {
        assert(from(s, 3)[0] == s[3]);
        continuation_is_raw(from(t, 3));
        assert(from(from(t, 3), 1) =~= from(t, 4));
        assert(from(from(s, 3), 1) =~= from(s, 4));
    }
    assert(t.subrange(0, k) =~= s.subrange(0, k));
}

/// The rest of a string whose contents are UTF-8 is UTF-8.
proof fn string_rest_consumed(t: Seq<u8>)
    requires
        read_string_rest(t) is Some,
        valid_utf8(read_string_rest(t)->Some_0.0),
    ensures
        consumed(t, read_string_rest(t)->Some_0.1),
        read_string_rest(t)->Some_0.1.len() < t.len(),
    decreases t.len(),
{
    let (s, rest) = read_string_rest(t)->Some_0;
    if t[0] == 0x22 {
        ascii_consumed(t, 1);
    } else if t[0] == 0x5c {
        escape_leads(t);
        let (e, n) = read_escape(t)->Some_0;
        let u = from(t, n);
        let s2 = read_string_rest(u)->Some_0.0;
        assert(s == e + s2);
        valid_behind(e, s2);
        string_rest_consumed(u);
        ascii_consumed(t, n);
        consumed_trans(t, u, rest);
    } else {
        assert(s.len() > 0);
        let k = length_of_first_scalar(s);
        raw_character(t);
        let w = from(t, k);
        assert(pop_first_scalar(s) == from(s, k));
        string_rest_consumed(w);
        first_valid(s);
        assert(consumed(t, w)) by {
            reveal(consumed);
        }
        consumed_trans(t, w, rest);
    }
}

proof fn string_consumed(t: Seq<u8>)
    requires
        read_string(t) is Some,
        valid_utf8(read_string(t)->Some_0.0),
    ensures
        consumed(t, read_string(t)->Some_0.1),
        read_string(t)->Some_0.1.len() < t.len(),
{
    string_rest_consumed(from(t, 1));
    ascii_consumed(t, 1);
    consumed_trans(t, from(t, 1), read_string(t)->Some_0.1);
}

proof fn numeric_run_consumed(t: Seq<u8>)
    ensures
        numeric_run(t) <= t.len(),
        consumed(t, from(t, numeric_run(t) as int)),
    decreases t.len(),
{
    if t.len() > 0 && numeric(t[0]) {
        let u = from(t, 1);
        numeric_run_consumed(u);
        ascii_consumed(t, 1);
        assert(from(u, numeric_run(u) as int) =~= from(t, numeric_run(t) as int));
        consumed_trans(t, u, from(u, numeric_run(u) as int));
    } else {
        ascii_consumed(t, 0);
    }
}

proof fn word_consumed(t: Seq<u8>, word: Seq<u8>)
    requires
        starts(t, word),
        ascii(word),
    ensures
        consumed(t, from(t, word.len() as int)),
        from(t, word.len() as int).len() <= t.len(),
{
    ascii_consumed(t, word.len() as int);
}

/// The text of a value whose strings are UTF-8 is UTF-8.
pub proof fn doc_consumed(t: Seq<u8>)
    requires
        read_doc(t) is Some,
        utf8_doc(read_doc(t)->Some_0.0),
    ensures
        consumed(t, read_doc(t)->Some_0.1),
        read_doc(t)->Some_0.1.len() <= t.len(),
    decreases t.len(), 1int,
{
    let (d, rest) = read_doc(t)->Some_0;
    let u = skip_white(t);
    white_consumed(t);
    if u[0] == 0x22 {
        string_consumed(u);
        consumed_trans(t, u, rest);
    } else if u[0] == 0x5b || u[0] == 0x7b {
        let v = from(u, 1);
        let inner = skip_white(v);
        ascii_consumed(u, 1);
        consumed_trans(t, u, v);
        white_consumed(v);
        if inner.len() > 0 && (u[0] == 0x5b && inner[0] == 0x5d || u[0] == 0x7b && inner[0] == 0x7d) {
            ascii_consumed(inner, 1);
            consumed_trans(v, inner, rest);
        } else if u[0] == 0x5b {
            let ds = read_elements(v)->Some_0.0;
            assert(d == Doc::Array(ds));
            parts_utf8(d);
            elements_consumed(v);
        } else {
            let ps = read_pairs(v)->Some_0.0;
            assert(d == Doc::Object(ps));
            parts_utf8(d);
            pairs_consumed(v);
        }
        consumed_trans(t, v, rest);
    } else if starts(u, null_text()) {
        word_consumed(u, null_text());
        consumed_trans(t, u, rest);
    } else if starts(u, bool_text(true)) {
        word_consumed(u, bool_text(true));
        consumed_trans(t, u, rest);
    } else if starts(u, bool_text(false)) {
        word_consumed(u, bool_text(false));
        consumed_trans(t, u, rest);
    } else {
        numeric_run_consumed(u);
        consumed_trans(t, u, rest);
    }
}

proof fn elements_consumed(t: Seq<u8>)
    requires
        read_elements(t) is Some,
        forall|i: int|
            0 <= i < read_elements(t)->Some_0.0.len() ==> utf8_doc(
                #[trigger] read_elements(t)->Some_0.0[i],
            ),
    ensures
        consumed(t, read_elements(t)->Some_0.1),
        read_elements(t)->Some_0.1.len() <= t.len(),
    decreases t.len(), 2int,
{
    let (ds, rest) = read_elements(t)->Some_0;
    let (d, r) = read_doc(t)->Some_0;
    let s = skip_white(r);
    assert(ds[0] == d);
    doc_consumed(t);
    white_consumed(r);
    ascii_consumed(s, 1);
    consumed_trans(t, r, s);
    consumed_trans(t, s, from(s, 1));
    if s[0] == 0x2c {
        let more = read_elements(from(s, 1))->Some_0.0;
        assert forall|i: int| 0 <= i < more.len() implies utf8_doc(#[trigger] more[i]) by {
            assert(ds[i + 1] == more[i]);
        }
        elements_consumed(from(s, 1));
        consumed_trans(t, from(s, 1), rest);
    }
}

proof fn pairs_consumed(t: Seq<u8>)
    requires
        read_pairs(t) is Some,
        forall|i: int|
            0 <= i < read_pairs(t)->Some_0.0.len() ==> valid_utf8(
                (#[trigger] read_pairs(t)->Some_0.0[i]).0,
            ) && utf8_doc(read_pairs(t)->Some_0.0[i].1),
    ensures
        consumed(t, read_pairs(t)->Some_0.1),
        read_pairs(t)->Some_0.1.len() <= t.len(),
    decreases t.len(), 2int,
{
    let (ps, rest) = read_pairs(t)->Some_0;
    let u = skip_white(t);
    let (key, r) = read_string(u)->Some_0;
    let c = skip_white(r);
    let v = from(c, 1);
    let (d, r2) = read_doc(v)->Some_0;
    let s = skip_white(r2);
    assert(ps[0] == (key, d));
    white_consumed(t);
    string_consumed(u);
    consumed_trans(t, u, r);
    white_consumed(r);
    consumed_trans(t, r, c);
    ascii_consumed(c, 1);
    consumed_trans(t, c, v);
    doc_consumed(v);
    consumed_trans(t, v, r2);
    white_consumed(r2);
    consumed_trans(t, r2, s);
    ascii_consumed(s, 1);
    consumed_trans(t, s, from(s, 1));
    if s[0] == 0x2c {
        let more = read_pairs(from(s, 1))->Some_0.0;
        assert forall|i: int| 0 <= i < more.len() implies valid_utf8((#[trigger] more[i]).0)
            && utf8_doc(more[i].1) by {
            assert(ps[i + 1] == more[i]);
        }
        pairs_consumed(from(s, 1));
        consumed_trans(t, from(s, 1), rest);
    }
}

/// A JSON text whose strings and keys are UTF-8, with white space behind it, is UTF-8.
pub proof fn text_is_utf8(t: Seq<u8>)
    requires
        read_doc(t) is Some,
        utf8_doc(read_doc(t)->Some_0.0),
        skip_white(read_doc(t)->Some_0.1).len() == 0,
    ensures
        valid_utf8(t),
{
    let rest = read_doc(t)->Some_0.1;
    doc_consumed(t);
    white_consumed(rest);
    consumed_trans(t, rest, skip_white(rest));
    reveal(consumed);
    assert(t.subrange(0, t.len() as int) =~= t);
}

} // verus!

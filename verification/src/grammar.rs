//! JSON text, as it is read: what a text stands for, whatever white space it has.
use crate::datetime::digit_run;
use crate::escape::{quoted, quoted_reads_back, read_string};
use crate::literal::{bool_text, null_text};
use crate::number::{int_text, nat_text, nat_text_reads_back};
use crate::swar::digit;
use vstd::prelude::*;

verus! {

/// What a JSON text stands for. Numbers are kept as they are spelled.
pub enum Doc {
    Null,
    Bool(bool),
    Number(Seq<u8>),
    Text(Seq<u8>),
    Array(Seq<Doc>),
    Object(Seq<(Seq<u8>, Doc)>),
}

pub open spec fn white(b: u8) -> bool {
    b == 0x20 || b == 0x09 || b == 0x0a || b == 0x0d
}

/// `t` without the white space in front.
pub open spec fn skip_white(t: Seq<u8>) -> Seq<u8>
    decreases t.len(),
{
    if t.len() > 0 && white(t[0]) {
        skip_white(t.subrange(1, t.len() as int))
    } else {
        t
    }
}

/// A byte that a number can hold.
pub open spec fn numeric(b: u8) -> bool {
    digit(b) || b == 0x2d || b == 0x2b || b == 0x2e || b == 0x65 || b == 0x45
}

/// How many bytes that a number can hold `t` starts with.
pub open spec fn numeric_run(t: Seq<u8>) -> nat
    decreases t.len(),
{
    if t.len() > 0 && numeric(t[0]) {
        1 + numeric_run(t.subrange(1, t.len() as int))
    } else {
        0
    }
}

/// `t` from `i` on.
pub open spec fn from(t: Seq<u8>, i: int) -> Seq<u8> {
    t.subrange(i, t.len() as int)
}

/// Is this an exponent part of a number, or none: `e`, a sign if any, and digits?
pub open spec fn is_exponent(t: Seq<u8>) -> bool {
    t.len() == 0 || (t[0] == 0x65 || t[0] == 0x45) && {
        let u = if t.len() > 1 && (t[1] == 0x2b || t[1] == 0x2d) {
            from(t, 2)
        } else {
            from(t, 1)
        };
        u.len() > 0 && digit_run(u) == u.len()
    }
}

/// Is this a fraction, or none, followed by an exponent, or none?
pub open spec fn is_fraction(t: Seq<u8>) -> bool {
    if t.len() > 0 && t[0] == 0x2e {
        let u = from(t, 1);
        digit_run(u) > 0 && is_exponent(from(u, digit_run(u) as int))
    } else {
        is_exponent(t)
    }
}

/// Is this a JSON number: a sign if any, digits without a superfluous zero, a fraction
/// if any, an exponent if any?
pub open spec fn is_number(t: Seq<u8>) -> bool {
    let u = if t.len() > 0 && t[0] == 0x2d {
        from(t, 1)
    } else {
        t
    };
    let n = digit_run(u) as int;
    n > 0 && (u[0] != 0x30 || n == 1) && is_fraction(from(u, n))
}

/// Does `t` start with `word`?
pub open spec fn starts(t: Seq<u8>, word: Seq<u8>) -> bool {
    t.len() >= word.len() && t.subrange(0, word.len() as int) == word
}

/// Reads a JSON value at the start of `t`, past white space: what it stands for, and
/// the text behind it.
pub open spec fn read_doc(t: Seq<u8>) -> Option<(Doc, Seq<u8>)>
    decreases t.len(), 1int,
{
    let u = skip_white(t);
    if u.len() == 0 || u.len() > t.len() {
        None
    } else if u[0] == 0x22 {
        match read_string(u) {
            Some((s, rest)) => Some((Doc::Text(s), rest)),
            None => None,
        }
    } else if u[0] == 0x5b {
        let inner = skip_white(from(u, 1));
        if inner.len() > 0 && inner[0] == 0x5d {
            Some((Doc::Array(Seq::empty()), from(inner, 1)))
        } else {
            match read_elements(from(u, 1)) {
                Some((ds, rest)) => Some((Doc::Array(ds), rest)),
                None => None,
            }
        }
    } else if u[0] == 0x7b {
        let inner = skip_white(from(u, 1));
        if inner.len() > 0 && inner[0] == 0x7d {
            Some((Doc::Object(Seq::empty()), from(inner, 1)))
        } else {
            match read_pairs(from(u, 1)) {
                Some((ds, rest)) => Some((Doc::Object(ds), rest)),
                None => None,
            }
        }
    } else if starts(u, null_text()) {
        Some((Doc::Null, from(u, 4)))
    } else if starts(u, bool_text(true)) {
        Some((Doc::Bool(true), from(u, 4)))
    } else if starts(u, bool_text(false)) {
        Some((Doc::Bool(false), from(u, 5)))
    } else {
        let n = numeric_run(u) as int;
        if 0 <= n <= u.len() && is_number(u.subrange(0, n)) {
            Some((Doc::Number(u.subrange(0, n)), from(u, n)))
        } else {
            None
        }
    }
}

/// Reads elements, separated by commas, up to the bracket that ends them.
pub open spec fn read_elements(t: Seq<u8>) -> Option<(Seq<Doc>, Seq<u8>)>
    decreases t.len(), 2int,
{
    match read_doc(t) {
        Some((d, r)) => {
            let s = skip_white(r);
            if s.len() >= t.len() || s.len() == 0 {
                None
            } else if s[0] == 0x5d {
                Some((seq![d], from(s, 1)))
            } else if s[0] == 0x2c {
                match read_elements(from(s, 1)) {
                    Some((ds, rest)) => Some((seq![d] + ds, rest)),
                    None => None,
                }
            } else {
                None
            }
        },
        None => None,
    }
}

/// Reads keys and values, separated by commas, up to the brace that ends them.
pub open spec fn read_pairs(t: Seq<u8>) -> Option<(Seq<(Seq<u8>, Doc)>, Seq<u8>)>
    decreases t.len(), 2int,
{
    match read_string(skip_white(t)) {
        Some((key, r)) => {
            let c = skip_white(r);
            if c.len() > t.len() || c.len() == 0 || c[0] != 0x3a {
                None
            } else {
                match read_doc(from(c, 1)) {
                    Some((d, r2)) => {
                        let s = skip_white(r2);
                        if s.len() >= t.len() || s.len() == 0 {
                            None
                        } else if s[0] == 0x7d {
                            Some((seq![(key, d)], from(s, 1)))
                        } else if s[0] == 0x2c {
                            match read_pairs(from(s, 1)) {
                                Some((ds, rest)) => Some((seq![(key, d)] + ds, rest)),
                                None => None,
                            }
                        } else {
                            None
                        }
                    },
                    None => None,
                }
            }
        },
        None => None,
    }
}

/// May `rest` follow a value: does it not look like more of a number?
pub open spec fn may_follow(rest: Seq<u8>) -> bool {
    rest.len() == 0 || !numeric(rest[0])
}

/// Is `t` a JSON text that stands for `d`, wherever it stands?
pub open spec fn stands(t: Seq<u8>, d: Doc) -> bool {
    forall|rest: Seq<u8>| may_follow(rest) ==> #[trigger] read_doc(t + rest) == Some((d, rest))
}

/// Is `w` nothing but white space?
pub open spec fn all_white(w: Seq<u8>) -> bool {
    forall|i: int| 0 <= i < w.len() ==> white(#[trigger] w[i])
}

/// White space in front is skipped, however much there is.
proof fn skip_white_prefix(w: Seq<u8>, t: Seq<u8>)
    requires
        all_white(w),
    ensures
        skip_white(w + t) == skip_white(t),
    decreases w.len(),
{
    if w.len() == 0 {
        assert(w + t =~= t);
    } else {
        let v = from(w, 1);
        assert((w + t).subrange(1, (w + t).len() as int) =~= v + t);
        assert(white(w[0]));
        assert forall|i: int| 0 <= i < v.len() implies white(#[trigger] v[i]) by {
            assert(white(w[i + 1]));
        }
        skip_white_prefix(v, t);
    }
}

proof fn skip_white_len(t: Seq<u8>)
    ensures
        skip_white(t).len() <= t.len(),
    decreases t.len(),
{
    if t.len() > 0 && white(t[0]) {
        skip_white_len(t.subrange(1, t.len() as int));
    }
}

/// White space in front of a value does not matter.
proof fn read_doc_past_white(w: Seq<u8>, t: Seq<u8>)
    requires
        all_white(w),
    ensures
        read_doc(w + t) == read_doc(t),
{
    skip_white_prefix(w, t);
    skip_white_len(t);
    skip_white_len(w + t);
}

proof fn numeric_run_is(t: Seq<u8>, rest: Seq<u8>)
    requires
        forall|i: int| 0 <= i < t.len() ==> numeric(#[trigger] t[i]),
        may_follow(rest),
    ensures
        numeric_run(t + rest) == t.len(),
    decreases t.len(),
{
    if t.len() == 0 {
        assert(t + rest =~= rest);
    } else {
        let u = from(t, 1);
        assert((t + rest).subrange(1, (t + rest).len() as int) =~= u + rest);
        assert(numeric(t[0]));
        assert forall|i: int| 0 <= i < u.len() implies numeric(#[trigger] u[i]) by {
            assert(numeric(t[i + 1]));
        }
        numeric_run_is(u, rest);
    }
}

/// The first bytes that `digit_run` counts are digits.
proof fn digit_run_digits(t: Seq<u8>)
    ensures
        digit_run(t) <= t.len(),
        forall|i: int| 0 <= i < digit_run(t) ==> digit(#[trigger] t[i]),
    decreases t.len(),
{
    if t.len() > 0 && digit(t[0]) {
        let u = t.subrange(1, t.len() as int);
        digit_run_digits(u);
        assert forall|i: int| 0 <= i < digit_run(t) implies digit(#[trigger] t[i]) by {
            if i > 0 {
                assert(digit(u[i - 1]));
            }
        }
    }
}

proof fn exponent_numeric(t: Seq<u8>)
    requires
        is_exponent(t),
    ensures
        forall|i: int| 0 <= i < t.len() ==> numeric(#[trigger] t[i]),
{
    if t.len() > 0 {
        let signed = t.len() > 1 && (t[1] == 0x2b || t[1] == 0x2d);
        let k: int = if signed {
            2
        } else {
            1
        };
        let u = from(t, k);
        digit_run_digits(u);
        assert forall|i: int| 0 <= i < t.len() implies numeric(#[trigger] t[i]) by {
            if i >= k {
                assert(digit(u[i - k]));
            }
        }
    }
}

proof fn fraction_numeric(t: Seq<u8>)
    requires
        is_fraction(t),
    ensures
        forall|i: int| 0 <= i < t.len() ==> numeric(#[trigger] t[i]),
{
    if t.len() > 0 && t[0] == 0x2e {
        let u = from(t, 1);
        let n = digit_run(u) as int;
        let e = from(u, n);
        digit_run_digits(u);
        exponent_numeric(e);
        assert forall|i: int| 0 <= i < t.len() implies numeric(#[trigger] t[i]) by {
            if 1 <= i < 1 + n {
                assert(digit(u[i - 1]));
            } else if i >= 1 + n {
                assert(numeric(e[i - 1 - n]));
            }
        }
    } else {
        exponent_numeric(t);
    }
}

/// A number holds only what a number can hold, and starts with a digit or a sign.
proof fn number_numeric(t: Seq<u8>)
    requires
        is_number(t),
    ensures
        t.len() > 0,
        digit(t[0]) || t[0] == 0x2d,
        forall|i: int| 0 <= i < t.len() ==> numeric(#[trigger] t[i]),
{
    let k: int = if t.len() > 0 && t[0] == 0x2d {
        1
    } else {
        0
    };
    let u = from(t, k);
    assert(k == 0 ==> u =~= t);
    let n = digit_run(u) as int;
    let f = from(u, n);
    digit_run_digits(u);
    fraction_numeric(f);
    assert(digit(u[0]));
    assert(t[k] == u[0]);
    assert forall|i: int| 0 <= i < t.len() implies numeric(#[trigger] t[i]) by {
        if k <= i < k + n {
            assert(digit(u[i - k]));
        } else if i >= k + n {
            assert(numeric(f[i - k - n]));
        }
    }
}

/// A number stands for itself.
pub proof fn number_stands(t: Seq<u8>)
    requires
        is_number(t),
    ensures
        stands(t, Doc::Number(t)),
{
    number_numeric(t);
    assert forall|rest: Seq<u8>| may_follow(rest) implies #[trigger] read_doc(t + rest) == Some(
        (Doc::Number(t), rest),
    ) by {
        let u = t + rest;
        assert(u[0] == t[0]);
        numeric_run_is(t, rest);
        assert(u.subrange(0, t.len() as int) =~= t);
        assert(from(u, t.len() as int) =~= rest);
        assert(null_text()[0] == 0x6e && bool_text(true)[0] == 0x74 && bool_text(false)[0] == 0x66);
        if u.len() >= 4 {
            assert(u.subrange(0, 4)[0] == u[0]);
        }
        if u.len() >= 5 {
            assert(u.subrange(0, 5)[0] == u[0]);
        }
    }
}

/// The decimal text of an integer is a number.
pub proof fn int_text_number(v: int)
    ensures
        is_number(int_text(v)),
{
    let n = if v < 0 {
        (-v) as nat
    } else {
        v as nat
    };
    let t = int_text(v);
    let u = nat_text(n);
    nat_text_reads_back(n);
    crate::datetime::digit_run_is(u, u.len() as int);
    assert(digit(u[0]));
    if v < 0 {
        assert(from(t, 1) =~= u);
    }
    assert(from(u, u.len() as int) =~= Seq::empty());
    if u[0] == 0x30 {
        assert(n == 0);
    }
}

/// The literals stand for themselves.
pub proof fn literals_stand()
    ensures
        stands(null_text(), Doc::Null),
        stands(bool_text(true), Doc::Bool(true)),
        stands(bool_text(false), Doc::Bool(false)),
{
    assert forall|rest: Seq<u8>| may_follow(rest) implies #[trigger] read_doc(null_text() + rest)
        == Some((Doc::Null, rest)) by {
        let u = null_text() + rest;
        assert(u.subrange(0, 4) =~= null_text());
        assert(from(u, 4) =~= rest);
    }
    assert forall|rest: Seq<u8>| may_follow(rest) implies #[trigger] read_doc(
        bool_text(true) + rest,
    ) == Some((Doc::Bool(true), rest)) by {
        let u = bool_text(true) + rest;
        assert(u.subrange(0, 4) =~= bool_text(true));
        assert(u.subrange(0, 4)[0] == 0x74);
        assert(from(u, 4) =~= rest);
    }
    assert forall|rest: Seq<u8>| may_follow(rest) implies #[trigger] read_doc(
        bool_text(false) + rest,
    ) == Some((Doc::Bool(false), rest)) by {
        let u = bool_text(false) + rest;
        assert(u.subrange(0, 5) =~= bool_text(false));
        assert(u.subrange(0, 4)[0] == 0x66);
        assert(from(u, 5) =~= rest);
    }
}

/// A quoted string stands for the string.
pub proof fn quoted_stands(s: Seq<u8>)
    ensures
        stands(quoted(s), Doc::Text(s)),
{
    assert forall|rest: Seq<u8>| may_follow(rest) implies #[trigger] read_doc(quoted(s) + rest)
        == Some((Doc::Text(s), rest)) by {
        quoted_reads_back(s, rest);
        assert((quoted(s) + rest)[0] == 0x22);
    }
}

/// A text that stands for something is not empty, and does not begin as the end of a
/// list or an object does.
proof fn stands_begins(t: Seq<u8>, d: Doc, rest: Seq<u8>)
    requires
        stands(t, d),
        may_follow(rest),
    ensures
        t.len() > 0,
        ({
            let u = skip_white(t + rest);
            u.len() > 0 && u[0] != 0x5d && u[0] != 0x7d
        }),
{
    let none = Seq::<u8>::empty();
    assert(read_doc(t + none) == Some((d, none)));
    if t.len() == 0 {
        assert(t + none =~= none);
    }
    assert(read_doc(t + rest) == Some((d, rest)));
    let u = skip_white(t + rest);
    if u.len() > 0 && (u[0] == 0x5d || u[0] == 0x7d) {
        assert(numeric_run(u) == 0);
        assert(u.subrange(0, 0) =~= none);
        assert(!is_number(none));
        if u.len() >= 4 {
            assert(u.subrange(0, 4)[0] == u[0]);
        }
        if u.len() >= 5 {
            assert(u.subrange(0, 5)[0] == u[0]);
        }
        assert(null_text()[0] == 0x6e && bool_text(true)[0] == 0x74 && bool_text(false)[0] == 0x66);
    }
}

/// The texts from `k` on, separated by commas and the white space `w`.
pub open spec fn joined(texts: Seq<Seq<u8>>, w: Seq<u8>, k: int) -> Seq<u8>
    decreases texts.len() - k,
{
    if k < 0 || k >= texts.len() {
        Seq::empty()
    } else if k + 1 == texts.len() {
        texts[k]
    } else {
        texts[k] + (seq![0x2cu8] + (w + joined(texts, w, k + 1)))
    }
}

proof fn elements_read(
    texts: Seq<Seq<u8>>,
    docs: Seq<Doc>,
    w: Seq<u8>,
    w2: Seq<u8>,
    k: int,
    rest: Seq<u8>,
)
    requires
        texts.len() == docs.len(),
        0 <= k < texts.len(),
        forall|i: int| 0 <= i < texts.len() ==> stands(#[trigger] texts[i], docs[i]),
        all_white(w),
        all_white(w2),
    ensures
        read_elements(w + joined(texts, w, k) + w2 + seq![0x5du8] + rest) == Some(
            (docs.subrange(k, docs.len() as int), rest),
        ),
    decreases texts.len() - k,
{
    let end = w2 + (seq![0x5du8] + rest);
    let all = w + joined(texts, w, k) + w2 + seq![0x5du8] + rest;
    assert(stands(texts[k], docs[k]));
    if k + 1 == texts.len() {
        assert(all =~= w + (texts[k] + end));
        assert(may_follow(end)) by {
            if w2.len() > 0 {
                assert(white(w2[0]));
            }
        }
        read_doc_past_white(w, texts[k] + end);
        stands_begins(texts[k], docs[k], end);
        skip_white_prefix(w2, seq![0x5du8] + rest);
        assert(skip_white(end) =~= seq![0x5du8] + rest);
        assert(from(seq![0x5du8] + rest, 1) =~= rest);
        assert(docs.subrange(k, docs.len() as int) =~= seq![docs[k]]);
    } else {
        let next = w + joined(texts, w, k + 1) + w2 + seq![0x5du8] + rest;
        let tail = seq![0x2cu8] + next;
        assert(all =~= w + (texts[k] + tail));
        read_doc_past_white(w, texts[k] + tail);
        stands_begins(texts[k], docs[k], tail);
        assert(skip_white(tail) =~= tail);
        assert(from(tail, 1) =~= next);
        elements_read(texts, docs, w, w2, k + 1, rest);
        assert(docs.subrange(k, docs.len() as int) =~= seq![docs[k]] + docs.subrange(
            k + 1,
            docs.len() as int,
        ));
    }
}

/// Texts in brackets, separated by commas, stand for the list of what they stand for.
pub proof fn array_stands(texts: Seq<Seq<u8>>, docs: Seq<Doc>, w: Seq<u8>, w2: Seq<u8>)
    requires
        texts.len() == docs.len(),
        texts.len() > 0,
        forall|i: int| 0 <= i < texts.len() ==> stands(#[trigger] texts[i], docs[i]),
        all_white(w),
        all_white(w2),
    ensures
        stands(
            seq![0x5bu8] + (w + joined(texts, w, 0)) + w2 + seq![0x5du8],
            Doc::Array(docs),
        ),
{
    let t = seq![0x5bu8] + (w + joined(texts, w, 0)) + w2 + seq![0x5du8];
    assert forall|rest: Seq<u8>| may_follow(rest) implies #[trigger] read_doc(t + rest) == Some(
        (Doc::Array(docs), rest),
    ) by {
        let u = t + rest;
        let inside = w + joined(texts, w, 0) + w2 + seq![0x5du8] + rest;
        assert(from(u, 1) =~= inside);
        elements_read(texts, docs, w, w2, 0, rest);
        assert(docs.subrange(0, docs.len() as int) =~= docs);
        assert(stands(texts[0], docs[0]));
        let after = if texts.len() == 1 {
            w2 + (seq![0x5du8] + rest)
        } else {
            seq![0x2cu8] + (w + joined(texts, w, 1) + w2 + seq![0x5du8] + rest)
        };
        assert(inside =~= w + (texts[0] + after));
        assert(may_follow(after)) by {
            if texts.len() == 1 && w2.len() > 0 {
                assert(white(w2[0]));
            }
        }
        skip_white_prefix(w, texts[0] + after);
        stands_begins(texts[0], docs[0], after);
    }
}

/// Brackets with nothing in them stand for the empty list, and braces for the empty
/// object.
pub proof fn empty_stands()
    ensures
        stands(seq![0x5bu8, 0x5d], Doc::Array(Seq::empty())),
        stands(seq![0x7bu8, 0x7d], Doc::Object(Seq::empty())),
{
    let list = seq![0x5bu8, 0x5d];
    let object = seq![0x7bu8, 0x7d];
    assert forall|rest: Seq<u8>| may_follow(rest) implies #[trigger] read_doc(list + rest) == Some(
        (Doc::Array(Seq::empty()), rest),
    ) by {
        assert(from(list + rest, 1) =~= seq![0x5du8] + rest);
        assert(from(seq![0x5du8] + rest, 1) =~= rest);
    }
    assert forall|rest: Seq<u8>| may_follow(rest) implies #[trigger] read_doc(object + rest)
        == Some((Doc::Object(Seq::empty()), rest)) by {
        assert(from(object + rest, 1) =~= seq![0x7du8] + rest);
        assert(from(seq![0x7du8] + rest, 1) =~= rest);
    }
}

/// A key, a colon, the white space `c` and the text of a value.
pub open spec fn pair_text(key: Seq<u8>, c: Seq<u8>, t: Seq<u8>) -> Seq<u8> {
    quoted(key) + (seq![0x3au8] + (c + t))
}

/// Keys and values, from `k` on, separated by commas and the white space `w`.
pub open spec fn joined_pairs(
    keys: Seq<Seq<u8>>,
    texts: Seq<Seq<u8>>,
    c: Seq<u8>,
    w: Seq<u8>,
    k: int,
) -> Seq<u8>
    decreases texts.len() - k,
{
    if k < 0 || k >= texts.len() {
        Seq::empty()
    } else if k + 1 == texts.len() {
        pair_text(keys[k], c, texts[k])
    } else {
        pair_text(keys[k], c, texts[k]) + (seq![0x2cu8] + (w + joined_pairs(
            keys,
            texts,
            c,
            w,
            k + 1,
        )))
    }
}

/// The pairs of keys and documents, from `k` on.
pub open spec fn pairs(keys: Seq<Seq<u8>>, docs: Seq<Doc>, k: int) -> Seq<(Seq<u8>, Doc)> {
    Seq::new((docs.len() - k) as nat, |i: int| (keys[k + i], docs[k + i]))
}

/// A pair is read up to what follows it.
proof fn pair_read(
    key: Seq<u8>,
    c: Seq<u8>,
    t: Seq<u8>,
    d: Doc,
    w: Seq<u8>,
    after: Seq<u8>,
)
    requires
        stands(t, d),
        all_white(c),
        all_white(w),
        may_follow(after),
    ensures
        ({
            let all = w + (pair_text(key, c, t) + after);
            let colon = seq![0x3au8] + (c + (t + after));
            &&& skip_white(all) == pair_text(key, c, t) + after
            &&& read_string(skip_white(all)) == Some((key, colon))
            &&& skip_white(colon) == colon
            &&& colon.len() <= all.len()
            &&& from(colon, 1) == c + (t + after)
            &&& read_doc(from(colon, 1)) == Some((d, after))
            &&& after.len() < all.len()
        }),
{
    let all = w + (pair_text(key, c, t) + after);
    let colon = seq![0x3au8] + (c + (t + after));
    let p = pair_text(key, c, t) + after;
    skip_white_prefix(w, p);
    assert(p[0] == 0x22);
    assert(skip_white(p) == p);
    assert(p =~= quoted(key) + colon);
    quoted_reads_back(key, colon);
    assert(from(colon, 1) =~= c + (t + after));
    read_doc_past_white(c, t + after);
    assert(read_doc(t + after) == Some((d, after)));
}

proof fn pairs_read(
    keys: Seq<Seq<u8>>,
    texts: Seq<Seq<u8>>,
    docs: Seq<Doc>,
    c: Seq<u8>,
    w: Seq<u8>,
    w2: Seq<u8>,
    k: int,
    rest: Seq<u8>,
)
    requires
        texts.len() == docs.len(),
        keys.len() == docs.len(),
        0 <= k < texts.len(),
        forall|i: int| 0 <= i < texts.len() ==> stands(#[trigger] texts[i], docs[i]),
        all_white(c),
        all_white(w),
        all_white(w2),
    ensures
        read_pairs(w + joined_pairs(keys, texts, c, w, k) + w2 + seq![0x7du8] + rest) == Some(
            (pairs(keys, docs, k), rest),
        ),
    decreases texts.len() - k,
{
    let end = w2 + (seq![0x7du8] + rest);
    let all = w + joined_pairs(keys, texts, c, w, k) + w2 + seq![0x7du8] + rest;
    assert(stands(texts[k], docs[k]));
    if k + 1 == texts.len() {
        assert(all =~= w + (pair_text(keys[k], c, texts[k]) + end));
        assert(may_follow(end)) by {
            if w2.len() > 0 {
                assert(white(w2[0]));
            }
        }
        pair_read(keys[k], c, texts[k], docs[k], w, end);
        skip_white_prefix(w2, seq![0x7du8] + rest);
        assert(skip_white(end) =~= seq![0x7du8] + rest);
        assert(from(seq![0x7du8] + rest, 1) =~= rest);
        assert(pairs(keys, docs, k) =~= seq![(keys[k], docs[k])]);
    } else {
        let next = w + joined_pairs(keys, texts, c, w, k + 1) + w2 + seq![0x7du8] + rest;
        let tail = seq![0x2cu8] + next;
        assert(all =~= w + (pair_text(keys[k], c, texts[k]) + tail));
        pair_read(keys[k], c, texts[k], docs[k], w, tail);
        assert(skip_white(tail) =~= tail);
        assert(from(tail, 1) =~= next);
        pairs_read(keys, texts, docs, c, w, w2, k + 1, rest);
        assert(pairs(keys, docs, k) =~= seq![(keys[k], docs[k])] + pairs(keys, docs, k + 1));
    }
}

/// Keys and values in braces, separated by commas, stand for the object that maps the
/// keys to what the values stand for.
pub proof fn object_stands(
    keys: Seq<Seq<u8>>,
    texts: Seq<Seq<u8>>,
    docs: Seq<Doc>,
    c: Seq<u8>,
    w: Seq<u8>,
    w2: Seq<u8>,
)
    requires
        texts.len() == docs.len(),
        keys.len() == docs.len(),
        texts.len() > 0,
        forall|i: int| 0 <= i < texts.len() ==> stands(#[trigger] texts[i], docs[i]),
        all_white(c),
        all_white(w),
        all_white(w2),
    ensures
        stands(
            seq![0x7bu8] + (w + joined_pairs(keys, texts, c, w, 0)) + w2 + seq![0x7du8],
            Doc::Object(pairs(keys, docs, 0)),
        ),
{
    let t = seq![0x7bu8] + (w + joined_pairs(keys, texts, c, w, 0)) + w2 + seq![0x7du8];
    assert forall|rest: Seq<u8>| may_follow(rest) implies #[trigger] read_doc(t + rest) == Some(
        (Doc::Object(pairs(keys, docs, 0)), rest),
    ) by {
        let u = t + rest;
        let inside = w + joined_pairs(keys, texts, c, w, 0) + w2 + seq![0x7du8] + rest;
        assert(from(u, 1) =~= inside);
        pairs_read(keys, texts, docs, c, w, w2, 0, rest);
        assert(stands(texts[0], docs[0]));
        let after = if texts.len() == 1 {
            w2 + (seq![0x7du8] + rest)
        } else {
            seq![0x2cu8] + (w + joined_pairs(keys, texts, c, w, 1) + w2 + seq![0x7du8] + rest)
        };
        assert(inside =~= w + (pair_text(keys[0], c, texts[0]) + after));
        assert(may_follow(after)) by {
            if texts.len() == 1 && w2.len() > 0 {
                assert(white(w2[0]));
            }
        }
        pair_read(keys[0], c, texts[0], docs[0], w, after);
        assert((pair_text(keys[0], c, texts[0]) + after)[0] == 0x22);
    }
}

} // verus!

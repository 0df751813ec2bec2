//! Which JSON texts a parser accepts, and what it reads in them.
use crate::datetime::digit_run;
use crate::decode::{read_value, JsonView};
use crate::double::rounds_to;
use crate::grammar::{from, read_doc, skip_white, Doc};
use crate::number::{pow10, text_value};
use crate::swar::digits_value;
use crate::tape::NodeView;
use vstd::arithmetic::power2::pow2;
use vstd::prelude::*;
use vstd::utf8::valid_utf8;

verus! {

/// Containers of a text that is read nest this deep at most.
pub const MAX_NESTING: u32 = 1024;

/// What a JSON text stands for: one value, and nothing behind it but white space.
pub open spec fn read_json(t: Seq<u8>) -> Option<Doc> {
    match read_doc(t) {
        Some((d, rest)) => if skip_white(rest).len() == 0 {
            Some(d)
        } else {
            None
        },
        None => None,
    }
}

/// A number without its sign.
pub open spec fn unsigned(t: Seq<u8>) -> Seq<u8> {
    if t.len() > 0 && t[0] == 0x2d {
        from(t, 1)
    } else {
        t
    }
}

/// Is the number spelled without a fraction and an exponent?
pub open spec fn is_whole(t: Seq<u8>) -> bool {
    digit_run(unsigned(t)) == unsigned(t).len()
}

/// How many digits stand behind the point of a number.
pub open spec fn fraction_len(t: Seq<u8>) -> nat {
    let u = unsigned(t);
    let v = from(u, digit_run(u) as int);
    if v.len() > 0 && v[0] == 0x2e {
        digit_run(from(v, 1))
    } else {
        0
    }
}

/// The value of the digits of a number, those behind the point included.
pub open spec fn significand(t: Seq<u8>) -> nat {
    let u = unsigned(t);
    let n = digit_run(u) as int;
    let f = fraction_len(t);
    digits_value(u.subrange(0, n)) * pow10(f) + if f > 0 {
        digits_value(u.subrange(n + 1, n + 1 + f))
    } else {
        0
    }
}

/// The exponent of a number as it is spelled.
pub open spec fn spelled_exponent(t: Seq<u8>) -> int {
    let u = unsigned(t);
    let n = digit_run(u) as int;
    let f = fraction_len(t);
    let e = from(
        u,
        if f > 0 {
            n + 1 + f
        } else {
            n
        },
    );
    if e.len() == 0 {
        0
    } else if e.len() > 1 && e[1] == 0x2d {
        -(digits_value(from(e, 2)) as int)
    } else if e.len() > 1 && e[1] == 0x2b {
        digits_value(from(e, 2)) as int
    } else {
        digits_value(from(e, 1)) as int
    }
}

/// The power of ten that the significand is multiplied by.
pub open spec fn exponent(t: Seq<u8>) -> int {
    spelled_exponent(t) - fraction_len(t)
}

/// Is the number zero, short, or spelled with a moderate exponent? What a long number with
/// a long exponent comes to depends on whether both are counted in full.
pub open spec fn ordinary(t: Seq<u8>) -> bool {
    significand(t) == 0 || t.len() <= 0x8000 || -0x1_0000 < spelled_exponent(t) < 0x1_0000
}

/// Is the number rounded to a finite double? What lies halfway between the largest
/// double and the next power of two is not.
pub open spec fn is_finite(t: Seq<u8>) -> bool {
    let limit = pow2(1024) - pow2(970);
    let e = exponent(t);
    if e >= 0 {
        significand(t) * pow10(e as nat) < limit
    } else {
        significand(t) < limit * pow10((-e) as nat)
    }
}

/// Do containers nest at most `n` deep, and are all numbers ordinary and rounded to
/// finite doubles?
pub open spec fn parsable(d: Doc, n: nat) -> bool
    decreases n,
{
    match d {
        Doc::Number(t) => ordinary(t) && is_finite(t),
        Doc::Array(ds) => n > 0 && forall|i: int|
            0 <= i < ds.len() ==> parsable(#[trigger] ds[i], (n - 1) as nat),
        Doc::Object(ps) => n > 0 && forall|i: int|
            0 <= i < ps.len() ==> parsable((#[trigger] ps[i]).1, (n - 1) as nat),
        _ => true,
    }
}

/// Do containers nest at most `n` deep, and are all numbers that are ordinary rounded to
/// finite doubles?
pub open spec fn maybe_parsable(d: Doc, n: nat) -> bool
    decreases n,
{
    match d {
        Doc::Number(t) => ordinary(t) ==> is_finite(t),
        Doc::Array(ds) => n > 0 && forall|i: int|
            0 <= i < ds.len() ==> maybe_parsable(#[trigger] ds[i], (n - 1) as nat),
        Doc::Object(ps) => n > 0 && forall|i: int|
            0 <= i < ps.len() ==> maybe_parsable((#[trigger] ps[i]).1, (n - 1) as nat),
        _ => true,
    }
}

/// Is the text read: is it UTF-8, JSON, nested no deeper than allowed, with ordinary
/// numbers that are not too large, and smaller than 4 GiB?
pub open spec fn accepted(s: Seq<u8>) -> bool {
    &&& s.len() <= u32::MAX
    &&& valid_utf8(s)
    &&& read_json(s) matches Some(d) && parsable(d, MAX_NESTING as nat)
}

/// Can the text be read, if its numbers that are not ordinary are?
pub open spec fn acceptable(s: Seq<u8>) -> bool {
    &&& s.len() <= u32::MAX
    &&& valid_utf8(s)
    &&& read_json(s) matches Some(d) && maybe_parsable(d, MAX_NESTING as nat)
}

/// Is `j` what a number is read as? An integer within 64 bits is that integer; any
/// other number is a float, the nearest to it if it is ordinary.
pub open spec fn number_says(j: JsonView, t: Seq<u8>) -> bool {
    if is_whole(t) && t[0] == 0x2d && text_value(t) >= i64::MIN {
        j == JsonView::I64(text_value(t) as i64)
    } else if is_whole(t) && t[0] != 0x2d && text_value(t) <= u64::MAX {
        j == JsonView::U64(text_value(t) as u64)
    } else {
        j matches JsonView::F64(bits) && (ordinary(t) ==> rounds_to(t, bits))
    }
}

/// Is `j` the document that `d` stands for?
pub open spec fn says(j: JsonView, d: Doc) -> bool
    decreases d,
{
    match d {
        Doc::Null => j == JsonView::Null,
        Doc::Bool(b) => j == JsonView::Bool(b),
        Doc::Number(t) => number_says(j, t),
        Doc::Text(s) => j == JsonView::Str(s),
        Doc::Array(ds) => j matches JsonView::Array(js) && js.len() == ds.len() && forall|i: int|
            0 <= i < ds.len() ==> says(js[i], #[trigger] ds[i]),
        Doc::Object(ps) => j matches JsonView::Object(ms) && ms.len() == ps.len() && forall|i: int|
            0 <= i < ps.len() ==> ms[i].0 == (#[trigger] ps[i]).0 && says(ms[i].1, ps[i].1),
    }
}

/// Is this the tape of the document that the text stands for?
pub open spec fn tape_says(tape: Seq<NodeView>, s: Seq<u8>) -> bool {
    match (read_json(s), read_value(tape, 0)) {
        (Some(d), Some((j, n))) => n == tape.len() && says(j, d),
        _ => false,
    }
}

} // verus!

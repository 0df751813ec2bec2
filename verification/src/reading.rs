//! What the text of a value says about the value.
use crate::accept::{is_whole, unsigned};
use crate::datetime::{
    digit_run_is, dt64_parts, dt64_unit_of, reading, representable, stands_for, Dt64Unit, Parts, Unit,
};
use crate::decline::{Elem, Why};
use crate::document::{
    entries_of, entries_text, entry_keys, items_of, items_text, sorted_text, value_text,
    value_valid, Body, Place, Value,
};
use crate::encode::{int_told, keys_told, EncodeError, IntRead};
use crate::escape::{quoted, quoted_reads_back, read_string};
use crate::float::{f32_text, f64_text, finite32, finite64};
use crate::form::{
    date_says, datetime_keeps_its_offset, datetime_says, says_date, says_datetime, says_time,
    time_says,
};
use crate::grammar::{int_text_number, is_number};
use crate::little_endian::{le_value, le_value_bound, pow256};
use crate::number::{int_text, int_text_reads_back, nat_text, nat_text_reads_back, text_value};
use crate::numpy::{dt64_text, leaf_text, signed};
use crate::opts::{
    on, OPT_NAIVE_UTC, OPT_PASSTHROUGH_DATETIME, OPT_PASSTHROUGH_SUBCLASS, OPT_SERIALIZE_NUMPY,
    OPT_SORT_KEYS, OPT_STRICT_INTEGER,
};
use crate::sort::sorted_order;
use crate::swar::digit;
use vstd::arithmetic::div_mod::lemma_fundamental_div_mod;
use vstd::prelude::*;

verus! {

/// A double is written as its digits exactly if it lies below infinity, whatever its
/// sign; an infinity or a NaN is written as `null`.
pub proof fn doubles_below_infinity_are_digits(bits: u64, digits: Seq<u8>)
    ensures
        bits % 0x8000_0000_0000_0000 < 0x7ff0_0000_0000_0000 ==> f64_text(bits, digits) == digits,
        bits % 0x8000_0000_0000_0000 >= 0x7ff0_0000_0000_0000 ==> f64_text(bits, digits)
            == seq![0x6eu8, 0x75, 0x6c, 0x6c],
        finite64(bits) <==> bits % 0x8000_0000_0000_0000 < 0x7ff0_0000_0000_0000,
{
}

/// The sign does not matter for whether a double is written as its digits.
pub proof fn doubles_of_either_sign(a: u64, b: u64, digits: Seq<u8>)
    requires
        a % 0x8000_0000_0000_0000 == b % 0x8000_0000_0000_0000,
    ensures
        f64_text(a, digits) == f64_text(b, digits),
{
    doubles_below_infinity_are_digits(a, digits);
    doubles_below_infinity_are_digits(b, digits);
}

/// A single is written as its digits exactly if it lies below infinity, whatever its
/// sign; an infinity or a NaN is written as `null`.
pub proof fn singles_below_infinity_are_digits(bits: u32, digits: Seq<u8>)
    ensures
        bits % 0x8000_0000 < 0x7f80_0000 ==> f32_text(bits, digits) == digits,
        bits % 0x8000_0000 >= 0x7f80_0000 ==> f32_text(bits, digits) == seq![
            0x6eu8,
            0x75,
            0x6c,
            0x6c,
        ],
        finite32(bits) <==> bits % 0x8000_0000 < 0x7f80_0000,
{
}

/// Is `t` the decimal text of the integer `n`: digits without a superfluous zero, and a
/// sign only in front of a negative one?
pub open spec fn says_int(t: Seq<u8>, n: int) -> bool {
    is_number(t) && is_whole(t) && text_value(t) == n && (t[0] == 0x2d <==> n < 0)
}

/// The text of an integer says it.
pub proof fn int_text_says(n: int)
    ensures
        says_int(int_text(n), n),
{
    int_text_number(n);
    int_text_reads_back(n);
    let m = (if n < 0 {
        -n
    } else {
        n
    }) as nat;
    nat_text_reads_back(m);
    let u = nat_text(m);
    assert(digit(u[0]));
    assert(unsigned(int_text(n)) =~= u);
    digit_run_is(u, u.len() as int);
}

/// An integer is written as itself, and only within its range: 64 bits, or less than
/// `2^53` either way where that is asked for.
pub proof fn integers_are_written_in_range(n: IntRead, opts: u32)
    ensures
        match n {
            IntRead::Fits(v) => if on(opts, OPT_STRICT_INTEGER) && !(-0x20_0000_0000_0000 < v
                < 0x20_0000_0000_0000) {
                int_told(n, opts) == Err::<Seq<u8>, EncodeError>(EncodeError::Int53)
            } else {
                int_told(n, opts) is Ok && says_int(int_told(n, opts)->Ok_0, v as int)
            },
            IntRead::Above(Some(v)) => if on(opts, OPT_STRICT_INTEGER) {
                int_told(n, opts) == Err::<Seq<u8>, EncodeError>(EncodeError::Int53)
            } else {
                int_told(n, opts) is Ok && says_int(int_told(n, opts)->Ok_0, v as int)
            },
            IntRead::Raised => int_told(n, opts) == Err::<Seq<u8>, EncodeError>(
                EncodeError::Raised,
            ),
            _ => int_told(n, opts) == Err::<Seq<u8>, EncodeError>(
                if on(opts, OPT_STRICT_INTEGER) {
                    EncodeError::Int53
                } else {
                    EncodeError::Int64
                },
            ),
        },
{
    match n {
        IntRead::Fits(v) => int_text_says(v as int),
        IntRead::Above(Some(v)) => int_text_says(v as int),
        _ => {},
    }
}

/// How many values the elements of an integer type have; zero for other types.
pub open spec fn value_count(elem: Elem) -> int {
    match elem {
        Elem::I8 | Elem::U8 => 0x100,
        Elem::I16 | Elem::U16 => 0x1_0000,
        Elem::I32 | Elem::U32 => 0x1_0000_0000,
        Elem::I64 | Elem::U64 => 0x1_0000_0000_0000_0000,
        _ => 0,
    }
}

pub open spec fn is_signed(elem: Elem) -> bool {
    elem == Elem::I8 || elem == Elem::I16 || elem == Elem::I32 || elem == Elem::I64
}

/// Is `n` the number of a type with `c` values that bytes with the value `v` hold: in the
/// range of the type, and the same as `v` up to a multiple of `c`?
pub open spec fn holds(n: int, v: int, c: int, two_sided: bool) -> bool {
    &&& (n - v) % c == 0
    &&& if two_sided {
        -c <= 2 * n < c
    } else {
        0 <= n < c
    }
}

/// Bytes hold one number of a type.
pub proof fn holds_one(m: int, n: int, v: int, c: int, two_sided: bool)
    requires
        c > 0,
        holds(m, v, c, two_sided),
        holds(n, v, c, two_sided),
    ensures
        m == n,
{
    let a = (m - v) / c;
    let b = (n - v) / c;
    lemma_fundamental_div_mod(m - v, c);
    lemma_fundamental_div_mod(n - v, c);
    assert(m - n == c * a - c * b);
    assert(c * a - c * b == c * (a - b)) by (nonlinear_arith);
    assert(-c < m - n < c);
    assert(a == b) by (nonlinear_arith)
        requires
            c > 0,
            -c < c * (a - b) < c,
    ;
}

/// The two's complement reading is the number that the bytes hold.
proof fn signed_holds(v: nat, n: nat, c: int)
    requires
        n == 1 && c == 0x100 || n == 2 && c == 0x1_0000 || n == 4 && c == 0x1_0000_0000 || n == 8
            && c == 0x1_0000_0000_0000_0000,
        v < c,
    ensures
        holds(signed(v, n), v as int, c, true),
{
}

/// The text of an integer element is that of the number its bytes hold: the one in the
/// range of its type that is the same, up to a multiple of the number of its values, as
/// its bytes read least significant first.
pub proof fn integer_elements_say_what_they_hold(
    elem: Elem,
    b: Seq<u8>,
    unit: Option<Dt64Unit>,
    digits: Seq<u8>,
    opts: u32,
)
    requires
        value_count(elem) > 0,
        pow256(b.len()) == value_count(elem),
    ensures
        leaf_text(elem, b, unit, digits, opts) is Ok,
        ({
            let t = leaf_text(elem, b, unit, digits, opts)->Ok_0;
            let n = text_value(t);
            says_int(t, n) && holds(n, le_value(b) as int, value_count(elem), is_signed(elem))
        }),
{
    let v = le_value(b);
    le_value_bound(b);
    match elem {
        Elem::I8 => {
            signed_holds(v, 1, 0x100);
            int_text_says(signed(v, 1));
        },
        Elem::I16 => {
            signed_holds(v, 2, 0x1_0000);
            int_text_says(signed(v, 2));
        },
        Elem::I32 => {
            signed_holds(v, 4, 0x1_0000_0000);
            int_text_says(signed(v, 4));
        },
        Elem::I64 => {
            signed_holds(v, 8, 0x1_0000_0000_0000_0000);
            int_text_says(signed(v, 8));
        },
        _ => int_text_says(v as int),
    }
}

/// A bool element is `false` exactly if its byte is zero.
pub proof fn bool_elements(b: u8, unit: Option<Dt64Unit>, digits: Seq<u8>, opts: u32)
    ensures
        leaf_text(Elem::Bool, seq![b], unit, digits, opts) == Ok::<Seq<u8>, Why>(
            if b == 0 {
                seq![0x66u8, 0x61, 0x6c, 0x73, 0x65]
            } else {
                seq![0x74u8, 0x72, 0x75, 0x65]
            },
        ),
{
    reveal_with_fuel(le_value, 2);
    assert(seq![b].subrange(1, 1).len() == 0);
}

/// A float element is its digits exactly if it lies below infinity, whatever its sign and
/// its size, and `null` otherwise.
pub proof fn float_elements(
    elem: Elem,
    b: Seq<u8>,
    unit: Option<Dt64Unit>,
    digits: Seq<u8>,
    opts: u32,
)
    requires
        elem == Elem::F16 && b.len() == 2 || elem == Elem::F32 && b.len() == 4 || elem == Elem::F64
            && b.len() == 8,
    ensures
        ({
            let v = le_value(b) as int;
            let below = match elem {
                Elem::F16 => v % 0x8000 < 0x7c00,
                Elem::F32 => v % 0x8000_0000 < 0x7f80_0000,
                _ => v % 0x8000_0000_0000_0000 < 0x7ff0_0000_0000_0000,
            };
            leaf_text(elem, b, unit, digits, opts) == Ok::<Seq<u8>, Why>(
                if below {
                    digits
                } else {
                    seq![0x6eu8, 0x75, 0x6c, 0x6c]
                },
            )
        }),
{
    le_value_bound(b);
    reveal_with_fuel(pow256, 9);
    let v = le_value(b);
    match elem {
        Elem::F16 => {},
        Elem::F32 => singles_below_infinity_are_digits(v as u32, digits),
        _ => doubles_below_infinity_are_digits(v as u64, digits),
    }
}

/// Is `p` the moment that lies `v` times the unit after 1970?
pub open spec fn is_moment(p: Parts, v: i64, unit: Dt64Unit) -> bool {
    stands_for(p, v * unit.mult, unit.base)
}

/// The text of a `datetime64` value says the moment that the value stands for: its
/// multiple of base units since 1970, without an offset, or with that of UTC where naive
/// times are taken for it. NaT is `null`, and a value without such a moment has no text.
pub proof fn dt64_text_says_its_moment(v: i64, unit: Dt64Unit, opts: u32)
    ensures
        v == i64::MIN ==> dt64_text(v, unit, opts) == Ok::<Seq<u8>, Why>(
            seq![0x6eu8, 0x75, 0x6c, 0x6c],
        ),
        v != i64::MIN ==> match dt64_text(v, unit, opts) {
            Ok(t) => exists|p: Parts| #[trigger]
                is_moment(p, v, unit) && says_datetime(
                    t,
                    p,
                    if on(opts, OPT_NAIVE_UTC) {
                        Some(0i64)
                    } else {
                        None
                    },
                    opts,
                ),
            Err(why) => (forall|p: Parts| !is_moment(p, v, unit)) && why == if unit.base
                == Unit::Generic {
                Why::GenericValue { v }
            } else {
                Why::Unrepresentable { v, unit }
            },
        },
{
    if v != i64::MIN {
        let n = v * unit.mult;
        if unit.base != Unit::Generic && representable(n, unit.base) {
            let p = reading(n, unit.base);
            assert(is_moment(p, v, unit));
            let offset: Option<i64> = if on(opts, OPT_NAIVE_UTC) {
                Some(0)
            } else {
                None
            };
            let q = dt64_parts(v, unit)->Ok_0->Some_0;
            assert(q == p);
            datetime_says(p, offset, opts);
            assert(says_datetime(dt64_text(v, unit, opts)->Ok_0, p, offset, opts));
        } else {
            assert forall|p: Parts| !is_moment(p, v, unit) by {
                assert(!stands_for(p, n, unit.base));
            }
        }
    }
}

/// A `datetime64` element has the text of the number that its bytes hold.
pub proof fn dt64_elements(b: Seq<u8>, unit: Dt64Unit, digits: Seq<u8>, opts: u32)
    requires
        b.len() == 8,
    ensures
        exists|n: int| #[trigger]
            holds(n, le_value(b) as int, 0x1_0000_0000_0000_0000, true) && leaf_text(
                Elem::Dt64,
                b,
                Some(unit),
                digits,
                opts,
            ) == dt64_text(n as i64, unit, opts),
{
    le_value_bound(b);
    reveal_with_fuel(pow256, 9);
    signed_holds(le_value(b), 8, 0x1_0000_0000_0000_0000);
}

/// Are the fields of a `datetime`, `date` or `time` those of one?
pub open spec fn fields_valid(v: Value) -> bool {
    match v.body {
        Body::Datetime { parts, .. } => parts.mo <= 12 && parts.d <= 31 && parts.h < 24 && parts.mi
            < 60 && parts.s < 60 && parts.us < 1_000_000,
        Body::Date { mo, d, .. } => mo <= 12 && d <= 31,
        Body::Time { h, mi, s, us, .. } => h < 24 && mi < 60 && s < 60 && us < 1_000_000,
        _ => true,
    }
}

/// The text of a value that holds no other says the value: a literal is itself, an
/// integer and a float are their digits, a string is read back as it was, and a date or
/// time says its fields and its offset.
pub proof fn values_say_themselves(v: Value, at: Place)
    requires
        value_valid(v),
        fields_valid(v),
        v.exact,
    ensures
        match v.body {
            Body::Null => value_text(v, at) == Ok::<Seq<u8>, EncodeError>(
                seq![0x6eu8, 0x75, 0x6c, 0x6c],
            ),
            Body::Bool(true) => value_text(v, at) == Ok::<Seq<u8>, EncodeError>(
                seq![0x74u8, 0x72, 0x75, 0x65],
            ),
            Body::Bool(false) => value_text(v, at) == Ok::<Seq<u8>, EncodeError>(
                seq![0x66u8, 0x61, 0x6c, 0x73, 0x65],
            ),
            Body::Int(IntRead::Fits(n)) => if on(at.opts, OPT_STRICT_INTEGER) && !(
            -0x20_0000_0000_0000 < n < 0x20_0000_0000_0000) {
                value_text(v, at) == Err::<Seq<u8>, EncodeError>(EncodeError::Int53)
            } else {
                value_text(v, at) matches Ok(t) && says_int(t, n as int)
            },
            Body::Int(IntRead::Above(Some(n))) => if on(at.opts, OPT_STRICT_INTEGER) {
                value_text(v, at) == Err::<Seq<u8>, EncodeError>(EncodeError::Int53)
            } else {
                value_text(v, at) matches Ok(t) && says_int(t, n as int)
            },
            Body::Float { bits, digits } => value_text(v, at) == Ok::<Seq<u8>, EncodeError>(
                if bits % 0x8000_0000_0000_0000 < 0x7ff0_0000_0000_0000 {
                    digits@
                } else {
                    seq![0x6eu8, 0x75, 0x6c, 0x6c]
                },
            ),
            Body::Str(Some(s)) => value_text(v, at) matches Ok(t) && read_string(t) == Some(
                (s@, Seq::<u8>::empty()),
            ),
            Body::Str(None) => value_text(v, at) == Err::<Seq<u8>, EncodeError>(
                EncodeError::StrNotUtf8,
            ),
            Body::Datetime { parts, offset } => !on(at.opts, OPT_PASSTHROUGH_DATETIME) ==> (
            value_text(v, at) matches Ok(t) && match offset {
                Some(o) => says_datetime(t, parts, Some(o), at.opts),
                None => says_datetime(
                    t,
                    parts,
                    if on(at.opts, OPT_NAIVE_UTC) {
                        Some(0i64)
                    } else {
                        None
                    },
                    at.opts,
                ),
            }),
            Body::Date { y, mo, d } => !on(at.opts, OPT_PASSTHROUGH_DATETIME) ==> (value_text(
                v,
                at,
            ) matches Ok(t) && says_date(t, y, mo, d)),
            Body::Time { h, mi, s, us, offset } => !on(at.opts, OPT_PASSTHROUGH_DATETIME) ==> (
            value_text(v, at) matches Ok(t) && says_time(t, h, mi, s, us, offset, at.opts)),
            _ => true,
        },
{
    match v.body {
        Body::Int(n) => integers_are_written_in_range(n, at.opts),
        Body::Float { bits, digits } => doubles_below_infinity_are_digits(bits, digits@),
        Body::Str(Some(s)) => {
            quoted_reads_back(s@, Seq::empty());
            assert(quoted(s@) + Seq::empty() =~= quoted(s@));
        },
        Body::Datetime { parts, offset } => datetime_keeps_its_offset(parts, offset, at.opts),
        Body::Date { y, mo, d } => date_says(y, mo, d),
        Body::Time { h, mi, s, us, offset } => time_says(h, mi, s, us, offset, at.opts),
        _ => {},
    }
}

/// Is the value left for `default`: is it neither of a type that is written, nor of a
/// subclass of one where subclasses are, nor asked to be passed through?
pub open spec fn left_for_default(v: Value, opts: u32) -> bool {
    match v.body {
        Body::Null => false,
        Body::Bool(_) => false,
        Body::Float { .. } => !v.exact,
        Body::Tuple(_) => !v.exact,
        Body::Int(_) => !v.exact && on(opts, OPT_PASSTHROUGH_SUBCLASS),
        Body::Str(_) => !v.exact && on(opts, OPT_PASSTHROUGH_SUBCLASS),
        Body::List(_) => !v.exact && on(opts, OPT_PASSTHROUGH_SUBCLASS),
        Body::Dict(_) => !v.exact && on(opts, OPT_PASSTHROUGH_SUBCLASS),
        Body::Datetime { .. } => !v.exact || on(opts, OPT_PASSTHROUGH_DATETIME),
        Body::Date { .. } => !v.exact || on(opts, OPT_PASSTHROUGH_DATETIME),
        Body::Time { .. } => !v.exact || on(opts, OPT_PASSTHROUGH_DATETIME),
        Body::Array { .. } => !v.exact || !on(opts, OPT_SERIALIZE_NUMPY),
        Body::Scalar { .. } => !v.exact || !on(opts, OPT_SERIALIZE_NUMPY),
        Body::Opaque => true,
    }
}

/// A value that is left for `default` is treated as any object that nothing writes: what
/// it holds does not matter, only what `default` makes of it. Without a `default` that is
/// an error; with one it is written as the result.
pub proof fn what_is_left_for_default(v: Value, w: Value, at: Place)
    requires
        left_for_default(v, at.opts),
        left_for_default(w, at.opts),
        v.reply == w.reply,
    ensures
        value_text(v, at) == value_text(w, at),
        !at.has_default ==> value_text(v, at) == Err::<Seq<u8>, EncodeError>(
            EncodeError::NotSerializable,
        ),
        at.has_default && at.default_depth >= 255 ==> value_text(v, at) == Err::<
            Seq<u8>,
            EncodeError,
        >(EncodeError::DefaultDepth),
        at.has_default && at.default_depth < 255 && v.reply@.len() == 0 ==> value_text(v, at)
            == Err::<Seq<u8>, EncodeError>(EncodeError::DefaultRaised),
        at.has_default && at.default_depth < 255 && v.reply@.len() > 0 ==> value_text(v, at)
            == value_text(v.reply@[0], Place { default_depth: at.default_depth + 1, ..at }),
{
}

/// An instance of a subclass of `str`, `int`, `list` or `dict` is written as one of the
/// type itself, unless such are passed through.
pub proof fn subclasses_are_written_as_their_base(v: Value, w: Value, at: Place)
    requires
        v.body is Str || v.body is Int || v.body is List || v.body is Dict,
        v.body == w.body,
        w.exact,
        !on(at.opts, OPT_PASSTHROUGH_SUBCLASS),
    ensures
        value_text(v, at) == value_text(w, at),
{
    match v.body {
        Body::List(_) => {
            same_items(v, w, items_of(v).len() as int, at.inside());
        },
        Body::Dict(_) => {
            same_entries(v, w, entries_of(v).len() as int, at.inside());
            if on(at.opts, OPT_SORT_KEYS) && keys_told(entry_keys(entries_of(v))) is Ok {
                let keys = keys_told(entry_keys(entries_of(v)))->Ok_0;
                same_sorted(v, w, keys, sorted_order(keys), entries_of(v).len() as int, at.inside());
            }
        },
        _ => {},
    }
}

proof fn same_items(v: Value, w: Value, n: int, at: Place)
    requires
        v.body == w.body,
    ensures
        items_text(v, n, at) == items_text(w, n, at),
    decreases n,
{
    if n > 0 && n <= items_of(v).len() {
        same_items(v, w, n - 1, at);
    }
}

proof fn same_entries(v: Value, w: Value, n: int, at: Place)
    requires
        v.body == w.body,
    ensures
        entries_text(v, n, at) == entries_text(w, n, at),
    decreases n,
{
    if n > 0 && n <= entries_of(v).len() {
        same_entries(v, w, n - 1, at);
    }
}

proof fn same_sorted(
    v: Value,
    w: Value,
    keys: Seq<Seq<u8>>,
    order: Seq<usize>,
    n: int,
    at: Place,
)
    requires
        v.body == w.body,
    ensures
        sorted_text(v, keys, order, n, at) == sorted_text(w, keys, order, n, at),
    decreases n,
{
    if 0 < n <= order.len() {
        same_sorted(v, w, keys, order, n - 1, at);
    }
}

/// A numpy scalar has the text of its one element: an integer says the number that its
/// bytes hold, a float is its digits or `null`, a bool a literal, and a `datetime64` says
/// its moment, in the unit that its dtype string says.
pub proof fn scalars_say_what_they_hold(v: Value, at: Place)
    requires
        value_valid(v),
        v.body is Scalar,
        v.exact,
        on(at.opts, OPT_SERIALIZE_NUMPY),
    ensures
        ({
            let elem = v.body->Scalar_elem;
            let b = v.body->Scalar_data@;
            let digits = v.body->Scalar_digits@;
            let value = le_value(b) as int;
            let r = value_text(v, at);
            &&& value_count(elem) > 0 ==> (r matches Ok(t) && says_int(t, text_value(t)) && holds(
                text_value(t),
                value,
                value_count(elem),
                is_signed(elem),
            ))
            &&& elem == Elem::Bool ==> r == Ok::<Seq<u8>, EncodeError>(
                if value == 0 {
                    seq![0x66u8, 0x61, 0x6c, 0x73, 0x65]
                } else {
                    seq![0x74u8, 0x72, 0x75, 0x65]
                },
            )
            &&& elem == Elem::F64 ==> r == Ok::<Seq<u8>, EncodeError>(
                if value % 0x8000_0000_0000_0000 < 0x7ff0_0000_0000_0000 {
                    digits
                } else {
                    seq![0x6eu8, 0x75, 0x6c, 0x6c]
                },
            )
            &&& elem == Elem::F32 ==> r == Ok::<Seq<u8>, EncodeError>(
                if value % 0x8000_0000 < 0x7f80_0000 {
                    digits
                } else {
                    seq![0x6eu8, 0x75, 0x6c, 0x6c]
                },
            )
            &&& elem == Elem::F16 ==> r == Ok::<Seq<u8>, EncodeError>(
                if value % 0x8000 < 0x7c00 {
                    digits
                } else {
                    seq![0x6eu8, 0x75, 0x6c, 0x6c]
                },
            )
            &&& elem == Elem::Dt64 ==> (dt64_unit_of(v.body->Scalar_dtype@) matches Some(unit)
                ==> exists|n: int| #[trigger]
                holds(n, value, 0x1_0000_0000_0000_0000, true) && (dt64_text(
                    n as i64,
                    unit,
                    at.opts,
                ) matches Ok(t) ==> r == Ok::<Seq<u8>, EncodeError>(t)))
        }),
{
    let elem = v.body->Scalar_elem;
    let b = v.body->Scalar_data@;
    let digits = v.body->Scalar_digits@;
    reveal_with_fuel(pow256, 9);
    le_value_bound(b);
    if value_count(elem) > 0 {
        integer_elements_say_what_they_hold(elem, b, None, digits, at.opts);
    }
    if elem == Elem::F16 || elem == Elem::F32 || elem == Elem::F64 {
        float_elements(elem, b, None, digits, at.opts);
    }
    if elem == Elem::Dt64 {
        if let Some(unit) = dt64_unit_of(v.body->Scalar_dtype@) {
            dt64_elements(b, unit, digits, at.opts);
        }
    }
}

} // verus!

//! Which numpy objects are not written, and what is said about them.
use crate::datetime::{Dt64Unit, Unit};
use crate::escape::{hex_digit, hex_value};
use crate::number::{ascii_chars, int_text, itoa_format};
use vstd::prelude::*;
use vstd::string::*;
use vstd::utf8::{decode_utf8, valid_utf8};

verus! {

/// numpy's flag for C-contiguous data.
pub const C_CONTIGUOUS: i32 = 0x1;

/// numpy's flag for data in native byte order.
pub const NOTSWAPPED: i32 = 0x200;

/// The checks made on an array interface.
#[derive(Clone, Copy, Debug, PartialEq, Eq, Structural)]
pub enum Check {
    NotContiguous,
    NotNative,
    ZeroDim,
    Dtype,
}

/// The element types that are written.
#[derive(Clone, Copy, Debug, PartialEq, Eq, Structural)]
pub enum Elem {
    Bool,
    F16,
    F32,
    F64,
    I8,
    I16,
    I32,
    I64,
    U8,
    U16,
    U32,
    U64,
    Dt64,
}

/// Why a numpy object is not written, with what that was decided on.
#[derive(Clone, Debug, PartialEq, Eq)]
pub enum Reason {
    NotContiguous { flags: i32, shape: Vec<isize> },
    NotNative { dtype: Vec<u8> },
    ZeroDim { dtype: Vec<u8> },
    Dtype { dtype: Vec<u8> },
    GenericValue { v: i64 },
    UnparseableDtype { dtype: Vec<u8> },
    Unrepresentable { v: i64, unit: Dt64Unit },
}

/// A `Reason` by its contents.
pub enum Why {
    NotContiguous { flags: i32, shape: Seq<isize> },
    NotNative { dtype: Seq<u8> },
    ZeroDim { dtype: Seq<u8> },
    Dtype { dtype: Seq<u8> },
    GenericValue { v: i64 },
    UnparseableDtype { dtype: Seq<u8> },
    Unrepresentable { v: i64, unit: Dt64Unit },
}

impl View for Reason {
    type V = Why;

    open spec fn view(&self) -> Why {
        match *self {
            Reason::NotContiguous { flags, shape } => Why::NotContiguous { flags, shape: shape@ },
            Reason::NotNative { dtype } => Why::NotNative { dtype: dtype@ },
            Reason::ZeroDim { dtype } => Why::ZeroDim { dtype: dtype@ },
            Reason::Dtype { dtype } => Why::Dtype { dtype: dtype@ },
            Reason::GenericValue { v } => Why::GenericValue { v },
            Reason::UnparseableDtype { dtype } => Why::UnparseableDtype { dtype: dtype@ },
            Reason::Unrepresentable { v, unit } => Why::Unrepresentable { v, unit },
        }
    }
}

/// The kind character and the item size of each element type.
pub open spec fn elem_layout(e: Elem) -> (u8, int) {
    match e {
        Elem::Bool => (0x62, 1),
        Elem::F16 => (0x66, 2),
        Elem::F32 => (0x66, 4),
        Elem::F64 => (0x66, 8),
        Elem::I8 => (0x69, 1),
        Elem::I16 => (0x69, 2),
        Elem::I32 => (0x69, 4),
        Elem::I64 => (0x69, 8),
        Elem::U8 => (0x75, 1),
        Elem::U16 => (0x75, 2),
        Elem::U32 => (0x75, 4),
        Elem::U64 => (0x75, 8),
        Elem::Dt64 => (0x4d, 8),
    }
}

/// Is there an element type of this kind and size?
pub open spec fn known_layout(kind: u8, itemsize: int) -> bool {
    exists|e: Elem| #[trigger] elem_layout(e) == (kind, itemsize)
}

/// What the checks say of an array: the first that fails, in this order, or the
/// element type. A negative number of dimensions counts as none.
pub open spec fn classified(flags: i32, nd: int, kind: u8, itemsize: int) -> Result<Elem, Check> {
    if flags & C_CONTIGUOUS == 0 {
        Err(Check::NotContiguous)
    } else if flags & NOTSWAPPED == 0 {
        Err(Check::NotNative)
    } else if nd <= 0 {
        Err(Check::ZeroDim)
    } else if known_layout(kind, itemsize) {
        Ok(choose|e: Elem| #[trigger] elem_layout(e) == (kind, itemsize))
    } else {
        Err(Check::Dtype)
    }
}

/// Different element types differ in kind or size.
pub proof fn elem_layout_injective(a: Elem, b: Elem)
    requires
        elem_layout(a) == elem_layout(b),
    ensures
        a == b,
{
}

/// Checks an array interface: the element type, or the first check that fails.
pub fn classify(flags: i32, nd: i32, kind: u8, itemsize: i32) -> (r: Result<Elem, Check>)
    ensures
        r == classified(flags, nd as int, kind, itemsize as int),
        r matches Ok(e) ==> elem_layout(e) == (kind, itemsize as int),
{
    if flags & C_CONTIGUOUS == 0 {
        return Err(Check::NotContiguous);
    }
    if flags & NOTSWAPPED == 0 {
        return Err(Check::NotNative);
    }
    if nd <= 0 {
        return Err(Check::ZeroDim);
    }
    let elem: Option<Elem> = if kind == 0x62 && itemsize == 1 {
        Some(Elem::Bool)
    } else if kind == 0x66 && itemsize == 2 {
        Some(Elem::F16)
    } else if kind == 0x66 && itemsize == 4 {
        Some(Elem::F32)
    } else if kind == 0x66 && itemsize == 8 {
        Some(Elem::F64)
    } else if kind == 0x69 && itemsize == 1 {
        Some(Elem::I8)
    } else if kind == 0x69 && itemsize == 2 {
        Some(Elem::I16)
    } else if kind == 0x69 && itemsize == 4 {
        Some(Elem::I32)
    } else if kind == 0x69 && itemsize == 8 {
        Some(Elem::I64)
    } else if kind == 0x75 && itemsize == 1 {
        Some(Elem::U8)
    } else if kind == 0x75 && itemsize == 2 {
        Some(Elem::U16)
    } else if kind == 0x75 && itemsize == 4 {
        Some(Elem::U32)
    } else if kind == 0x75 && itemsize == 8 {
        Some(Elem::U64)
    } else if kind == 0x4d && itemsize == 8 {
        Some(Elem::Dt64)
    } else {
        None
    };
    match elem {
        Some(e) => {
            proof {
                assert(elem_layout(e) == (kind, itemsize as int));
                elem_layout_injective(
                    e,
                    choose|e: Elem| #[trigger] elem_layout(e) == (kind, itemsize as int),
                );
            }
            Ok(e)
        },
        None => {
            assert(forall|e: Elem| #[trigger] elem_layout(e) != (kind, itemsize as int));
            Err(Check::Dtype)
        },
    }
}

/// The word for a unit in a message.
pub open spec fn unit_name(base: Unit) -> Seq<char> {
    match base {
        Unit::Year => "years"@,
        Unit::Month => "months"@,
        Unit::Week => "weeks"@,
        Unit::Day => "days"@,
        Unit::Hour => "hours"@,
        Unit::Minute => "minutes"@,
        Unit::Second => "seconds"@,
        Unit::Milli => "milliseconds"@,
        Unit::Micro => "microseconds"@,
        Unit::Nano => "nanoseconds"@,
        Unit::Pico => "picoseconds"@,
        Unit::Femto => "femtoseconds"@,
        Unit::Atto => "attoseconds"@,
        Unit::Generic => "generic"@,
    }
}

/// The word for a unit in a message.
pub fn unit_word(base: Unit) -> (r: &'static str)
    ensures
        r@ == unit_name(base),
{
    match base {
        Unit::Year => "years",
        Unit::Month => "months",
        Unit::Week => "weeks",
        Unit::Day => "days",
        Unit::Hour => "hours",
        Unit::Minute => "minutes",
        Unit::Second => "seconds",
        Unit::Milli => "milliseconds",
        Unit::Micro => "microseconds",
        Unit::Nano => "nanoseconds",
        Unit::Pico => "picoseconds",
        Unit::Femto => "femtoseconds",
        Unit::Atto => "attoseconds",
        Unit::Generic => "generic",
    }
}

/// What `String::from_utf8_lossy` makes of bytes.
pub uninterp spec fn utf8_lossy(s: Seq<u8>) -> Seq<char>;

/// `String::from_utf8_lossy`: the text of bytes, with U+FFFD in place of what is not
/// UTF-8. Claimed: the text depends on the bytes alone, and valid UTF-8 is decoded
/// unchanged.
#[verifier::external_body]
pub(crate) fn from_utf8_lossy(s: &[u8]) -> (r: String)
    ensures
        r@ == utf8_lossy(s@),
        valid_utf8(s@) ==> r@ == decode_utf8(s@),
{
    String::from_utf8_lossy(s).into_owned()
}

/// Bytes as they are shown: the text that they encode, or what is made of them where
/// they are not UTF-8.
pub open spec fn shown(s: Seq<u8>) -> Seq<char> {
    if valid_utf8(s) {
        decode_utf8(s)
    } else {
        utf8_lossy(s)
    }
}

/// The text in which bytes are shown.
pub fn show(s: &[u8]) -> (r: String)
    ensures
        r@ == shown(s@),
{
    from_utf8_lossy(s)
}

/// The error text for a reason.
pub open spec fn message_text(r: Why) -> Seq<char> {
    match r {
        Why::NotContiguous { .. } =>
            "numpy array is not C contiguous; use ndarray.tolist() in default"@,
        Why::NotNative { .. } => "numpy array is not native-endianness"@,
        Why::ZeroDim { .. } => "unsupported datatype in numpy array"@,
        Why::Dtype { .. } => "unsupported datatype in numpy array"@,
        Why::GenericValue { .. } => "unsupported numpy.datetime64 unit: generic"@,
        Why::UnparseableDtype { dtype } => "unsupported numpy.datetime64 dtype: "@ + shown(
            dtype,
        ),
        Why::Unrepresentable { v, unit } => "unrepresentable numpy.datetime64: "@ + ascii_chars(
            int_text(v as int),
        ) + " "@ + unit_name(unit.base) + if unit.mult != 1 {
            " × "@ + ascii_chars(int_text(unit.mult as int))
        } else {
            Seq::empty()
        },
    }
}

/// The error text when nothing else takes the object.
pub fn reason_message(r: &Reason) -> (m: String)
    ensures
        m@ == message_text(r@),
{
    match r {
        Reason::NotContiguous { .. } =>
            "numpy array is not C contiguous; use ndarray.tolist() in default".to_owned(),
        Reason::NotNative { .. } => "numpy array is not native-endianness".to_owned(),
        Reason::ZeroDim { .. } => "unsupported datatype in numpy array".to_owned(),
        Reason::Dtype { .. } => "unsupported datatype in numpy array".to_owned(),
        Reason::GenericValue { .. } => "unsupported numpy.datetime64 unit: generic".to_owned(),
        Reason::UnparseableDtype { dtype } => {
            let mut m: String = "unsupported numpy.datetime64 dtype: ".to_owned();
            m.append(show(dtype.as_slice()).as_str());
            m
        },
        Reason::Unrepresentable { v, unit } => {
            let mut m: String = "unrepresentable numpy.datetime64: ".to_owned();
            m.append(itoa_format(*v as i128).as_str());
            m.append(" ");
            m.append(unit_word(unit.base));
            if unit.mult != 1 {
                m.append(" × ");
                m.append(itoa_format(unit.mult as i128).as_str());
            }
            assert(m@ == message_text(r@));
            m
        },
    }
}

/// A number in lower-case hexadecimal, without leading zeros.
pub open spec fn hex_text(n: nat) -> Seq<u8>
    decreases n,
{
    if n < 16 {
        seq![hex_digit(n as int)]
    } else {
        hex_text(n / 16).push(hex_digit(n as int % 16))
    }
}

/// A hexadecimal digit as text.
fn hex_str(n: u32) -> (r: &'static str)
    requires
        n < 16,
    ensures
        r@ == seq![hex_digit(n as int) as char],
{
    proof {
        reveal_strlit("0");
        reveal_strlit("1");
        reveal_strlit("2");
        reveal_strlit("3");
        reveal_strlit("4");
        reveal_strlit("5");
        reveal_strlit("6");
        reveal_strlit("7");
        reveal_strlit("8");
        reveal_strlit("9");
        reveal_strlit("a");
        reveal_strlit("b");
        reveal_strlit("c");
        reveal_strlit("d");
        reveal_strlit("e");
        reveal_strlit("f");
    }
    match n {
        0 => "0",
        1 => "1",
        2 => "2",
        3 => "3",
        4 => "4",
        5 => "5",
        6 => "6",
        7 => "7",
        8 => "8",
        9 => "9",
        10 => "a",
        11 => "b",
        12 => "c",
        13 => "d",
        14 => "e",
        _ => "f",
    }
}

/// A number in hexadecimal.
fn hex_string(n: u32) -> (r: String)
    ensures
        r@ == ascii_chars(hex_text(n as nat)),
    decreases n,
{
    let mut r: String = if n < 16 {
        String::new()
    } else {
        hex_string(n / 16)
    };
    r.append(hex_str(n % 16));
    r
}

/// The dimensions of a shape, separated by commas.
pub open spec fn dims_text(shape: Seq<isize>) -> Seq<char>
    decreases shape.len(),
{
    if shape.len() == 0 {
        Seq::empty()
    } else if shape.len() == 1 {
        ascii_chars(int_text(shape[0] as int))
    } else {
        dims_text(shape.drop_last()) + ", "@ + ascii_chars(int_text(shape.last() as int))
    }
}

/// A shape as Python writes a tuple.
pub open spec fn shape_text(shape: Seq<isize>) -> Seq<char> {
    if shape.len() == 1 {
        "("@ + dims_text(shape) + ",)"@
    } else {
        "("@ + dims_text(shape) + ")"@
    }
}

fn shape_string(shape: &Vec<isize>) -> (r: String)
    ensures
        r@ == shape_text(shape@),
{
    let mut dims: String = String::new();
    let mut i: usize = 0;
    while i < shape.len()
        invariant
            i <= shape@.len(),
            dims@ == dims_text(shape@.subrange(0, i as int)),
        decreases shape@.len() - i,
    {
        if i > 0 {
            dims.append(", ");
        }
        dims.append(itoa_format(shape[i] as i128).as_str());
        proof {
            assert(shape@.subrange(0, i + 1).drop_last() == shape@.subrange(0, i as int));
            assert(dims@ =~= dims_text(shape@.subrange(0, i + 1)));
        }
        i += 1;
    }
    assert(shape@.subrange(0, i as int) == shape@);
    let mut r: String = "(".to_owned();
    r.append(dims.as_str());
    if shape.len() == 1 {
        r.append(",)");
    } else {
        r.append(")");
    }
    r
}

/// A dtype string, quoted as evidence.
pub open spec fn dtype_text(dtype: Seq<u8>) -> Seq<char> {
    "dtype.str='"@ + shown(dtype) + "'"@
}

fn dtype_string(dtype: &Vec<u8>) -> (r: String)
    ensures
        r@ == dtype_text(dtype@),
{
    let mut r: String = "dtype.str='".to_owned();
    r.append(show(dtype.as_slice()).as_str());
    r.append("'");
    r
}

/// What a reason was decided on, where the message does not say it already.
pub open spec fn evidence_text(r: Why) -> Option<Seq<char>> {
    match r {
        Why::NotContiguous { flags, shape } => Some(
            "flags=0x"@ + ascii_chars(hex_text((flags as u32) as nat)) + ", shape="@ + shape_text(
                shape,
            ),
        ),
        Why::NotNative { dtype } => Some(dtype_text(dtype)),
        Why::Dtype { dtype } => Some(dtype_text(dtype)),
        Why::ZeroDim { dtype } => Some("0-d array, "@ + dtype_text(dtype)),
        Why::GenericValue { v } => Some(
            "value="@ + ascii_chars(int_text(v as int))
                + "; a generic-unit datetime64 has no unit, so its value has no meaning"@,
        ),
        Why::UnparseableDtype { .. } => None,
        Why::Unrepresentable { .. } => Some(
            "outside 0000-01-01T00:00:00 … 9999-12-31T23:59:59.999999"@,
        ),
    }
}

fn evidence(r: &Reason) -> (e: Option<String>)
    ensures
        match e {
            Some(e) => evidence_text(r@) == Some(e@),
            None => evidence_text(r@) is None,
        },
{
    match r {
        Reason::NotContiguous { flags, shape } => {
            let mut e: String = "flags=0x".to_owned();
            e.append(hex_string(*flags as u32).as_str());
            e.append(", shape=");
            e.append(shape_string(shape).as_str());
            Some(e)
        },
        Reason::NotNative { dtype } => Some(dtype_string(dtype)),
        Reason::Dtype { dtype } => Some(dtype_string(dtype)),
        Reason::ZeroDim { dtype } => {
            let mut e: String = "0-d array, ".to_owned();
            e.append(dtype_string(dtype).as_str());
            Some(e)
        },
        Reason::GenericValue { v } => {
            let mut e: String = "value=".to_owned();
            e.append(itoa_format(*v as i128).as_str());
            e.append("; a generic-unit datetime64 has no unit, so its value has no meaning");
            Some(e)
        },
        Reason::UnparseableDtype { .. } => None,
        Reason::Unrepresentable { .. } => Some(
            "outside 0000-01-01T00:00:00 … 9999-12-31T23:59:59.999999".to_owned(),
        ),
    }
}

/// The note for a reason: its message, and in brackets what it was decided on.
pub open spec fn note_text(r: Why) -> Seq<char> {
    "isojson can't write this numpy object natively: "@ + message_text(r) + match evidence_text(r) {
        Some(e) => " ("@ + e + ")"@,
        None => Seq::empty(),
    }
}

/// The note that is attached to an error: the message and its evidence.
pub fn reason_note(r: &Reason) -> (m: String)
    ensures
        m@ == note_text(r@),
{
    let mut m: String = "isojson can't write this numpy object natively: ".to_owned();
    m.append(reason_message(r).as_str());
    match evidence(r) {
        Some(e) => {
            m.append(" (");
            m.append(e.as_str());
            m.append(")");
        },
        None => {},
    }
    assert(m@ =~= note_text(r@));
    m
}

/// The number that hexadecimal digits stand for.
pub open spec fn hex_number(t: Seq<u8>) -> int
    decreases t.len(),
{
    if t.len() == 0 {
        0
    } else {
        16 * hex_number(t.drop_last()) + match hex_value(t.last()) {
            Some(d) => d,
            None => 0,
        }
    }
}

/// The hexadecimal text of a number stands for it, in lower case and without a superfluous
/// zero.
pub proof fn hex_text_reads_back(n: nat)
    ensures
        hex_number(hex_text(n)) == n,
        hex_text(n).len() >= 1,
        hex_text(n)[0] == 0x30 ==> n == 0,
        forall|i: int|
            0 <= i < hex_text(n).len() ==> hex_value(#[trigger] hex_text(n)[i]) is Some
                && !(0x41 <= hex_text(n)[i] <= 0x5a),
    decreases n,
{
    let t = hex_text(n);
    if n >= 16 {
        hex_text_reads_back(n / 16);
        let u = hex_text(n / 16);
        assert(t.drop_last() =~= u);
        assert(t[0] == u[0]);
        assert forall|i: int| 0 <= i < t.len() implies hex_value(#[trigger] t[i]) is Some && !(0x41
            <= t[i] <= 0x5a) by {
            if i < u.len() {
                assert(t[i] == u[i]);
            }
        }
    } else {
        assert(hex_number(t.drop_last()) == 0);
    }
}

} // verus!

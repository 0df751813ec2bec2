//! numpy arrays and scalars, by the bytes that they hold.
use crate::datetime::{
    datetime_text, dt64_parts, dt64_to_parts, dt64_unit_of, padded_len, parse_dt64, write_datetime,
    Dt64Err, Dt64Unit,
};
use crate::decline::{classified, classify, elem_layout, Check, Elem, Reason, Why};
use crate::float::{
    f16_to_f32, f32_text, f64_text, half_fields, widened, write_f32, write_f64,
};
use crate::indent::{newline_indent, newline_text};
use crate::little_endian::{le_value, le_value_bound, pow256, read_uint};
use crate::literal::{bool_text, null_text, write_bool, write_null};
use crate::number::{int_text, nat_text_len, pow10, write_int};
use crate::opts::{on, same_form, OPT_INDENT_2, OPT_NAIVE_UTC};
use crate::out::{reserved_cap, Out};
use vstd::prelude::*;

verus! {

/// An array interface: the layout of an array and its data. Numbers in the data
/// are little-endian.
pub struct ArrayInfo {
    pub two: i32,
    pub nd: i32,
    pub typekind: u8,
    pub itemsize: i32,
    pub flags: i32,
    pub shape: Vec<isize>,
    pub strides: Vec<isize>,
    pub data: Vec<u8>,
}

/// What became of a numpy object.
pub enum Outcome {
    Written,
    Declined(Reason),
    Malformed,
}

/// The two's complement reading of a number of `n` bytes.
pub open spec fn signed(v: nat, n: nat) -> int {
    if n == 1 {
        if v < 0x80 { v as int } else { v - 0x100 }
    } else if n == 2 {
        if v < 0x8000 { v as int } else { v - 0x1_0000 }
    } else if n == 4 {
        if v < 0x8000_0000 { v as int } else { v - 0x1_0000_0000 }
    } else {
        if v < 0x8000_0000_0000_0000 { v as int } else { v - 0x1_0000_0000_0000_0000 }
    }
}

/// A `datetime64` value: `null` for NaT, its date and time, or why it has none.
pub open spec fn dt64_text(v: i64, unit: Dt64Unit, opts: u32) -> Result<Seq<u8>, Why> {
    match dt64_parts(v, unit) {
        Ok(None) => Ok(null_text()),
        Ok(Some(p)) => Ok(
            datetime_text(
                p,
                if on(opts, OPT_NAIVE_UTC) {
                    Some(0)
                } else {
                    None
                },
                opts,
            ),
        ),
        Err(Dt64Err::GenericValue) => Err(Why::GenericValue { v }),
        Err(Dt64Err::Unrepresentable) => Err(Why::Unrepresentable { v, unit }),
    }
}

/// Writes a `datetime64` value. Nothing is written where it has no text.
pub fn write_dt64(out: &mut Out, v: i64, unit: Dt64Unit, opts: u32) -> (r: Result<(), Reason>)
    ensures
        match dt64_text(v, unit, opts) {
            Ok(t) => r is Ok && final(out)@ == old(out)@ + t,
            Err(why) => r matches Err(e) && e@ == why && final(out)@ == old(out)@,
        },
{
    match dt64_to_parts(v, unit) {
        Ok(None) => {
            write_null(out);
            Ok(())
        },
        Ok(Some(p)) => {
            let offset: Option<i64> = if opts & OPT_NAIVE_UTC != 0 { Some(0) } else { None };
            write_datetime(out, &p, offset, opts);
            Ok(())
        },
        Err(Dt64Err::GenericValue) => Err(Reason::GenericValue { v }),
        Err(Dt64Err::Unrepresentable) => Err(Reason::Unrepresentable { v, unit }),
    }
}

/// The text of one element, from its bytes. `digits` is the decimal text of a
/// finite float; `unit` is the unit of a `datetime64`.
pub open spec fn leaf_text(
    elem: Elem,
    b: Seq<u8>,
    unit: Option<Dt64Unit>,
    digits: Seq<u8>,
    opts: u32,
) -> Result<Seq<u8>, Why> {
    let v = le_value(b);
    match elem {
        Elem::Bool => Ok(bool_text(v != 0)),
        Elem::F16 => Ok(
            if half_fields(v as u16).1 == 0x1f {
                null_text()
            } else {
                digits
            },
        ),
        Elem::F32 => Ok(f32_text(v as u32, digits)),
        Elem::F64 => Ok(f64_text(v as u64, digits)),
        Elem::I8 => Ok(int_text(signed(v, 1))),
        Elem::I16 => Ok(int_text(signed(v, 2))),
        Elem::I32 => Ok(int_text(signed(v, 4))),
        Elem::I64 => Ok(int_text(signed(v, 8))),
        Elem::U8 => Ok(int_text(v as int)),
        Elem::U16 => Ok(int_text(v as int)),
        Elem::U32 => Ok(int_text(v as int)),
        Elem::U64 => Ok(int_text(v as int)),
        Elem::Dt64 => match unit {
            Some(u) => dt64_text(signed(v, 8) as i64, u, opts),
            None => Ok(Seq::empty()),
        },
    }
}

/// The size of an element in bytes.
pub fn elem_size(elem: Elem) -> (n: usize)
    ensures
        n == elem_layout(elem).1,
        n == 1 || n == 2 || n == 4 || n == 8,
{
    match elem {
        Elem::Bool | Elem::I8 | Elem::U8 => 1,
        Elem::F16 | Elem::I16 | Elem::U16 => 2,
        Elem::F32 | Elem::I32 | Elem::U32 => 4,
        Elem::F64 | Elem::I64 | Elem::U64 | Elem::Dt64 => 8,
    }
}

/// The two's complement reading of a number of `n` bytes.
fn to_signed(v: u64, n: usize) -> (r: i64)
    requires
        n == 1 || n == 2 || n == 4 || n == 8,
        n == 1 ==> v < 0x100,
        n == 2 ==> v < 0x1_0000,
        n == 4 ==> v < 0x1_0000_0000,
    ensures
        r == signed(v as nat, n as nat),
{
    let r: i128 = if n == 1 {
        if v < 0x80 { v as i128 } else { v as i128 - 0x100 }
    } else if n == 2 {
        if v < 0x8000 { v as i128 } else { v as i128 - 0x1_0000 }
    } else if n == 4 {
        if v < 0x8000_0000 { v as i128 } else { v as i128 - 0x1_0000_0000 }
    } else {
        if v < 0x8000_0000_0000_0000 { v as i128 } else { v as i128 - 0x1_0000_0000_0000_0000 }
    };
    r as i64
}

/// Writes the element at `off`. Nothing is written where it has no text.
pub fn write_leaf(
    out: &mut Out,
    elem: Elem,
    data: &[u8],
    off: usize,
    unit: Option<Dt64Unit>,
    digits: &[u8],
    opts: u32,
) -> (r: Result<(), Reason>)
    requires
        off + elem_layout(elem).1 <= data@.len(),
    ensures
        match leaf_text(
            elem,
            data@.subrange(off as int, off + elem_layout(elem).1),
            unit,
            digits@,
            opts,
        ) {
            Ok(t) => r is Ok && final(out)@ == old(out)@ + t,
            Err(why) => r matches Err(e) && e@ == why && final(out)@ == old(out)@,
        },
{
    let n: usize = elem_size(elem);
    let v: u64 = read_uint(data, off, n);
    match elem {
        Elem::Bool => write_bool(out, v != 0),
        Elem::F16 => {
            let bits: u32 = f16_to_f32(v as u16);
            write_f32(out, bits, digits);
        },
        Elem::F32 => write_f32(out, v as u32, digits),
        Elem::F64 => write_f64(out, v, digits),
        Elem::I8 | Elem::I16 | Elem::I32 | Elem::I64 => write_int(out, to_signed(v, n) as i128),
        Elem::U8 | Elem::U16 | Elem::U32 | Elem::U64 => write_int(out, v as i128),
        Elem::Dt64 => {
            match unit {
                Some(u) => return write_dt64(out, to_signed(v, n), u, opts),
                None => {
                    assert(out@ + Seq::empty() =~= out@);
                },
            }
        },
    }
    Ok(())
}

/// How many elements the dimensions from `dim` on hold.
pub open spec fn count(shape: Seq<isize>, dim: int) -> int
    decreases shape.len() - dim,
{
    if dim < 0 || dim >= shape.len() {
        1
    } else {
        shape[dim] * count(shape, dim + 1)
    }
}

/// Does the interface describe elements of `size` bytes that lie in C order, one
/// behind the other, and fill the data? A stride matters only where there is more
/// than one step to take.
pub open spec fn packed(a: ArrayInfo, size: int) -> bool {
    &&& a.nd == a.shape@.len() == a.strides@.len()
    &&& forall|d: int| 0 <= d < a.nd ==> #[trigger] a.shape@[d] >= 0
    &&& a.data@.len() == count(a.shape@, 0) * size
    &&& count(a.shape@, 0) > 0 ==> forall|d: int|
        0 <= d < a.nd && #[trigger] a.shape@[d] > 1 ==> a.strides@[d] == count(a.shape@, d + 1)
            * size
}

pub proof fn count_nonneg(shape: Seq<isize>, dim: int)
    requires
        forall|d: int| 0 <= d < shape.len() ==> #[trigger] shape[d] >= 0,
    ensures
        count(shape, dim) >= 0,
    decreases shape.len() - dim,
{
    if 0 <= dim < shape.len() {
        count_nonneg(shape, dim + 1);
        assert(shape[dim] >= 0);
        assert(shape[dim] * count(shape, dim + 1) >= 0) by (nonlinear_arith)
            requires
                shape[dim] >= 0,
                count(shape, dim + 1) >= 0,
        ;
    }
}

/// A dimension without steps leaves no elements.
proof fn count_zero(shape: Seq<isize>, from: int, dim: int)
    requires
        0 <= from <= dim < shape.len(),
        shape[dim] == 0,
    ensures
        count(shape, from) == 0,
    decreases dim - from,
{
    if from == dim {
        assert(0 * count(shape, dim + 1) == 0);
    } else {
        count_zero(shape, from + 1, dim);
    }
}

/// Where every dimension has a step, the outer dimensions hold at least as many
/// elements as the inner ones.
proof fn count_grows(shape: Seq<isize>, from: int, dim: int)
    requires
        0 <= from <= dim <= shape.len(),
        forall|d: int| 0 <= d < shape.len() ==> #[trigger] shape[d] >= 1,
    ensures
        count(shape, from) >= count(shape, dim) >= 1,
    decreases shape.len() - from,
{
    if from == dim {
        if dim < shape.len() {
            count_grows(shape, dim + 1, dim + 1);
            assert(shape[dim] >= 1);
            assert(shape[dim] * count(shape, dim + 1) >= 1) by (nonlinear_arith)
                requires
                    shape[dim] >= 1,
                    count(shape, dim + 1) >= 1,
            ;
        }
    } else {
        count_grows(shape, from + 1, dim);
        assert(shape[from] >= 1);
        assert(shape[from] * count(shape, from + 1) >= count(shape, from + 1)) by (nonlinear_arith)
            requires
                shape[from] >= 1,
                count(shape, from + 1) >= 1,
        ;
    }
}

/// Does the interface describe packed elements of `size` bytes?
pub fn is_packed(a: &ArrayInfo, size: usize) -> (r: bool)
    requires
        1 <= size <= 8,
    ensures
        r == packed(*a, size as int),
{
    if a.nd < 0 || a.shape.len() != a.nd as usize || a.strides.len() != a.nd as usize {
        return false;
    }
    let nd: usize = a.nd as usize;
    let mut empty: bool = false;
    let mut d: usize = 0;
    while d < nd
        invariant
            nd == a.nd == a.shape@.len(),
            d <= nd,
            forall|e: int| 0 <= e < d ==> #[trigger] a.shape@[e] >= 0,
            empty <==> exists|e: int| 0 <= e < d && #[trigger] a.shape@[e] == 0,
        decreases nd - d,
    {
        if a.shape[d] < 0 {
            assert(a.shape@[d as int] < 0);
            return false;
        }
        if a.shape[d] == 0 {
            empty = true;
        }
        d += 1;
    }
    if empty {
        proof {
            let e = choose|e: int| 0 <= e < d && #[trigger] a.shape@[e] == 0;
            count_zero(a.shape@, 0, e);
        }
        return a.data.len() == 0;
    }
    let len: i128 = a.data.len() as i128;
    let mut elems: i128 = 1;
    let mut good: bool = true;
    proof {
        assert forall|e: int| 0 <= e < nd implies #[trigger] a.shape@[e] >= 1 by {
            assert(a.shape@[e] != 0);
        }
    }
    while d > 0
        invariant
            1 <= size <= 8,
            nd == a.nd == a.shape@.len() == a.strides@.len(),
            d <= nd,
            len == a.data@.len() <= usize::MAX,
            forall|e: int| 0 <= e < nd ==> #[trigger] a.shape@[e] >= 1,
            1 <= elems <= len || d == nd,
            elems == count(a.shape@, d as int),
            good <==> forall|e: int|
                d <= e < nd && #[trigger] a.shape@[e] > 1 ==> a.strides@[e] == count(
                    a.shape@,
                    e + 1,
                ) * size,
        decreases d,
    {
        d -= 1;
        let n: isize = a.shape[d];
        proof {
            assert(a.shape@[d as int] >= 1);
            count_grows(a.shape@, 0, d as int);
            count_grows(a.shape@, d as int + 1, d as int + 1);
            assert(n * elems <= 0x7fff_ffff_ffff_ffff * 0x1_0000_0000_0000_0000)
                by (nonlinear_arith)
                requires
                    1 <= n <= 0x7fff_ffff_ffff_ffff,
                    1 <= elems <= 0x1_0000_0000_0000_0000,
            ;
            assert(1 <= elems * size <= 8 * elems) by (nonlinear_arith)
                requires
                    1 <= elems,
                    1 <= size <= 8,
            ;
            assert(n * elems == count(a.shape@, d as int));
            assert(n * elems >= 1);
            assert(count(a.shape@, 0) <= count(a.shape@, 0) * size) by (nonlinear_arith)
                requires
                    count(a.shape@, 0) >= 1,
                    size >= 1,
            ;
        }
        if n > 1 && a.strides[d] as i128 != elems * (size as i128) {
            good = false;
        }
        if n as i128 * elems > len {
            return false;
        }
        elems = n as i128 * elems;
    }
    proof {
        count_grows(a.shape@, 0, 0);
        assert(elems * size <= 8 * elems) by (nonlinear_arith)
            requires
                1 <= elems,
                1 <= size <= 8,
        ;
    }
    good && elems * (size as i128) == len
}

/// An array as it is written: its elements in C order, and how.
pub struct Plan {
    pub shape: Seq<isize>,
    pub elem: Elem,
    pub data: Seq<u8>,
    pub unit: Option<Dt64Unit>,
    pub digits: Seq<Vec<u8>>,
    pub opts: u32,
    pub depth: nat,
}

/// Is this a floating-point type?
pub open spec fn is_float(elem: Elem) -> bool {
    elem == Elem::F16 || elem == Elem::F32 || elem == Elem::F64
}

/// The text of element `k`.
pub open spec fn element_text(p: Plan, k: int) -> Result<Seq<u8>, Why> {
    let size = elem_layout(p.elem).1;
    leaf_text(
        p.elem,
        p.data.subrange(k * size, k * size + size),
        p.unit,
        if is_float(p.elem) {
            p.digits[k]@
        } else {
            Seq::empty()
        },
        p.opts,
    )
}

/// What stands in front of entry `i` of a dimension.
pub open spec fn entry_prefix(p: Plan, dim: int, i: int) -> Seq<u8> {
    (if i > 0 {
        seq![0x2cu8]
    } else {
        Seq::empty()
    }) + if on(p.opts, OPT_INDENT_2) {
        newline_text((p.depth + dim + 1) as nat)
    } else {
        Seq::empty()
    }
}

/// The first `i` entries of dimension `dim` whose elements begin with element `k`,
/// or why the first that has no text has none.
pub open spec fn entries_text(p: Plan, dim: int, k: int, i: int) -> Result<Seq<u8>, Why>
    decreases p.shape.len() - dim, 0int, i,
{
    if i <= 0 || dim < 0 || dim >= p.shape.len() {
        Ok(Seq::empty())
    } else {
        match entries_text(p, dim, k, i - 1) {
            Err(why) => Err(why),
            Ok(t) => {
                match entry_text(p, dim, k + (i - 1) * count(p.shape, dim + 1)) {
                    Err(why) => Err(why),
                    Ok(u) => Ok(t + entry_prefix(p, dim, i - 1) + u),
                }
            },
        }
    }
}

/// An entry of dimension `dim` whose elements begin with element `at`.
pub open spec fn entry_text(p: Plan, dim: int, at: int) -> Result<Seq<u8>, Why>
    decreases p.shape.len() - dim - 1, 2int, 0int,
{
    if dim + 1 >= p.shape.len() {
        element_text(p, at)
    } else {
        dim_text(p, dim + 1, at)
    }
}

/// Dimension `dim` of the elements that begin with element `k`: its entries in
/// brackets. A dimension without entries is `[]` in the indented form too.
pub open spec fn dim_text(p: Plan, dim: int, k: int) -> Result<Seq<u8>, Why>
    decreases p.shape.len() - dim, 1int, 0int,
{
    if dim < 0 || dim >= p.shape.len() || p.shape[dim] == 0 {
        Ok(seq![0x5bu8, 0x5d])
    } else {
        match entries_text(p, dim, k, p.shape[dim] as int) {
            Err(why) => Err(why),
            Ok(t) => Ok(
                seq![0x5bu8] + t + (if on(p.opts, OPT_INDENT_2) {
                    newline_text((p.depth + dim) as nat)
                } else {
                    Seq::empty()
                }) + seq![0x5du8],
            ),
        }
    }
}

/// The longest text that an element which is no float can have.
pub fn max_text(elem: Elem) -> (n: usize)
    ensures
        n == longest_text(elem),
{
    match elem {
        Elem::Bool => 5,
        Elem::I8 | Elem::U8 => 4,
        Elem::I16 | Elem::U16 => 6,
        Elem::I32 | Elem::U32 => 11,
        Elem::I64 | Elem::U64 => 20,
        Elem::F16 | Elem::F32 => 16,
        Elem::F64 => 24,
        Elem::Dt64 => 34,
    }
}

pub open spec fn longest_text(elem: Elem) -> int {
    match elem {
        Elem::Bool => 5,
        Elem::I8 => 4,
        Elem::U8 => 4,
        Elem::I16 => 6,
        Elem::U16 => 6,
        Elem::I32 => 11,
        Elem::U32 => 11,
        Elem::I64 => 20,
        Elem::U64 => 20,
        Elem::F16 => 16,
        Elem::F32 => 16,
        Elem::F64 => 24,
        Elem::Dt64 => 34,
    }
}

/// Elements per reservation of space in a compact row.
pub const ROW_CHUNK: usize = 1024;

/// The plan for writing an array.
pub open spec fn plan(
    a: ArrayInfo,
    elem: Elem,
    unit: Option<Dt64Unit>,
    digits: Seq<Vec<u8>>,
    opts: u32,
    depth: u32,
) -> Plan {
    Plan { shape: a.shape@, elem, data: a.data@, unit, digits, opts, depth: depth as nat }
}

/// The place of entry `i` within packed data: `i` times the size of an entry behind
/// the first, which is where its stride leads.
proof fn entry_place(a: ArrayInfo, size: int, dim: int, k: int, i: int)
    requires
        size >= 1,
        packed(a, size),
        0 <= dim < a.nd,
        0 <= k,
        0 <= i < a.shape@[dim],
        k + count(a.shape@, dim) <= count(a.shape@, 0),
    ensures
        count(a.shape@, dim + 1) >= 0,
        0 <= k + i * count(a.shape@, dim + 1),
        k + i * count(a.shape@, dim + 1) + count(a.shape@, dim + 1) <= count(a.shape@, 0),
        count(a.shape@, 0) == 0 ==> k + i * count(a.shape@, dim + 1) == 0,
        count(a.shape@, 0) > 0 && i > 0 ==> a.strides@[dim] == count(a.shape@, dim + 1) * size,
        (k + i * count(a.shape@, dim + 1)) * size == k * size + i * (count(a.shape@, dim + 1)
            * size),
        (k + i * count(a.shape@, dim + 1)) * size + count(a.shape@, dim + 1) * size
            <= a.data@.len(),
{
    let c = count(a.shape@, dim + 1);
    let n = a.shape@[dim] as int;
    let total = count(a.shape@, 0);
    count_nonneg(a.shape@, dim + 1);
    assert(i * c >= 0 && i * c + c <= n * c) by (nonlinear_arith)
        requires
            0 <= i < n,
            c >= 0,
    ;
    assert((k + i * c) * size == k * size + i * (c * size)) by (nonlinear_arith);
    assert((k + i * c) * size + c * size <= total * size) by (nonlinear_arith)
        requires
            k + i * c + c <= total,
            size >= 1,
    ;
}

/// What keeps an entry from having a text keeps the longer runs of entries from it.
proof fn entries_err(p: Plan, dim: int, k: int, i: int, n: int)
    requires
        0 <= i <= n,
        entries_text(p, dim, k, i) is Err,
    ensures
        entries_text(p, dim, k, n) == entries_text(p, dim, k, i),
    decreases n - i,
{
    if i < n {
        entries_err(p, dim, k, i, n - 1);
    }
}

/// How many bytes the next chunk of a compact row with `rest` elements to go takes at
/// most: each element with its comma, and the bracket behind the last.
pub open spec fn chunk_room(rest: int, elem: Elem) -> int {
    (if rest < ROW_CHUNK {
        rest
    } else {
        ROW_CHUNK as int
    }) * (longest_text(elem) + 1) + 1
}

/// Makes room for the next chunk of a compact row with `rest` elements to go, so
/// that a very long row does not reserve all of it at once.
fn reserve_chunk(out: &mut Out, rest: usize, elem: Elem)
    ensures
        final(out)@ == old(out)@,
        final(out).capacity() == reserved_cap(
            old(out)@.len() as int,
            old(out).capacity(),
            chunk_room(rest as int, elem),
        ),
{
    let elems: usize = if rest < ROW_CHUNK { rest } else { ROW_CHUNK };
    let row_bytes: usize = max_text(elem) + 1;
    proof {
        assert(elems * row_bytes <= 1024 * 35) by (nonlinear_arith)
            requires
                0 <= elems <= 1024,
                0 <= row_bytes <= 35,
        ;
    }
    out.reserve(elems * row_bytes + 1);
}

/// Writes what stands in front of an entry.
fn write_prefix(out: &mut Out, first: bool, indent: bool, level: u32)
    ensures
        final(out)@ == old(out)@ + ((if first {
            Seq::empty()
        } else {
            seq![0x2cu8]
        }) + if indent {
            newline_text(level as nat)
        } else {
            Seq::empty()
        }),
{
    if !first {
        out.push(0x2c);
    }
    if indent {
        newline_indent(out, level);
    }
}

/// Writes an entry of dimension `dim` whose elements begin at `q`: an element, or
/// the dimension inside.
fn write_entry(
    out: &mut Out,
    a: &ArrayInfo,
    elem: Elem,
    unit: Option<Dt64Unit>,
    digits: &Vec<Vec<u8>>,
    opts: u32,
    depth: u32,
    empty: bool,
    dim: usize,
    q: usize,
    Ghost(at): Ghost<int>,
) -> (r: Result<(), Reason>)
    requires
        packed(*a, elem_layout(elem).1),
        is_float(elem) ==> digits@.len() >= count(a.shape@, 0),
        depth + a.nd < u32::MAX,
        empty == (count(a.shape@, 0) == 0),
        dim < a.nd,
        0 <= at,
        at + count(a.shape@, dim + 1) <= count(a.shape@, 0),
        q == at * elem_layout(elem).1,
    ensures
        match entry_text(plan(*a, elem, unit, digits@, opts, depth), dim as int, at) {
            Ok(t) => r is Ok && final(out)@ == old(out)@ + t,
            Err(why) => r matches Err(e) && e@ == why && old(out)@.is_prefix_of(final(out)@),
        },
    decreases a.nd - dim, 0int,
{
    if dim + 1 < a.nd as usize {
        return walk(out, a, elem, unit, digits, opts, depth, empty, dim + 1, q, Ghost(at));
    }
    let size: usize = elem_size(elem);
    proof {
        assert(at * size + size <= count(a.shape@, 0) * size) by (nonlinear_arith)
            requires
                at + 1 <= count(a.shape@, 0),
                size >= 1,
        ;
        assert(at * size / size as int == at) by (nonlinear_arith)
            requires
                size >= 1,
        ;
    }
    if elem == Elem::F16 || elem == Elem::F32 || elem == Elem::F64 {
        let digits: &Vec<u8> = &digits[q / size];
        write_leaf(out, elem, a.data.as_slice(), q, unit, digits.as_slice(), opts)
    } else {
        let none: Vec<u8> = Vec::new();
        write_leaf(out, elem, a.data.as_slice(), q, unit, none.as_slice(), opts)
    }
}

/// Writes dimension `dim` of the elements that begin at `off`: nested dimensions
/// become nested lists. Where an element has no text, what was written stays, to be
/// taken back by the caller.
#[verifier::spinoff_prover]
#[verifier::rlimit(40)]
fn walk(
    out: &mut Out,
    a: &ArrayInfo,
    elem: Elem,
    unit: Option<Dt64Unit>,
    digits: &Vec<Vec<u8>>,
    opts: u32,
    depth: u32,
    empty: bool,
    dim: usize,
    off: usize,
    Ghost(k): Ghost<int>,
) -> (r: Result<(), Reason>)
    requires
        packed(*a, elem_layout(elem).1),
        is_float(elem) ==> digits@.len() >= count(a.shape@, 0),
        depth + a.nd < u32::MAX,
        empty == (count(a.shape@, 0) == 0),
        dim < a.nd,
        0 <= k,
        k + count(a.shape@, dim as int) <= count(a.shape@, 0),
        off == k * elem_layout(elem).1,
    ensures
        match dim_text(plan(*a, elem, unit, digits@, opts, depth), dim as int, k) {
            Ok(t) => r is Ok && final(out)@ == old(out)@ + t,
            Err(why) => r matches Err(e) && e@ == why && old(out)@.is_prefix_of(final(out)@),
        },
    decreases a.nd - dim, 1int,
{
    let ghost before = out@;
    let ghost p = plan(*a, elem, unit, digits@, opts, depth);
    let ghost size = elem_layout(elem).1;
    assert(a.shape@[dim as int] >= 0);
    let n: usize = a.shape[dim] as usize;
    if n == 0 {
        out.push(0x5b);
        out.push(0x5d);
        return Ok(());
    }
    let stride: isize = a.strides[dim];
    let last: bool = dim + 1 == a.nd as usize;
    let indent: bool = opts & OPT_INDENT_2 != 0;
    out.push(0x5b);
    let mut i: usize = 0;
    let ghost mut written: Seq<u8> = Seq::empty();
    while i < n
        invariant
            p == plan(*a, elem, unit, digits@, opts, depth),
            size == elem_layout(elem).1,
            size >= 1,
            packed(*a, size),
            is_float(elem) ==> digits@.len() >= count(a.shape@, 0),
            depth + a.nd < u32::MAX,
            empty == (count(a.shape@, 0) == 0),
            dim < a.nd,
            0 <= k,
            k + count(a.shape@, dim as int) <= count(a.shape@, 0),
            off == k * size,
            n == a.shape@[dim as int],
            n > 0,
            stride == a.strides@[dim as int],
            last == (dim + 1 == a.nd),
            indent == on(opts, OPT_INDENT_2),
            i <= n,
            entries_text(p, dim as int, k, i as int) == Ok::<Seq<u8>, Why>(written),
            before == old(out)@,
            out@ == before + (seq![0x5bu8] + written),
        decreases n - i,
    {
        let ghost at = k + i * count(a.shape@, dim + 1);
        proof {
            entry_place(*a, size, dim as int, k, i as int);
        }
        if last && !indent && i % ROW_CHUNK == 0 {
            reserve_chunk(out, n - i, elem);
        }
        write_prefix(out, i == 0, indent, depth + dim as u32 + 1);
        let ghost prefix = entry_prefix(p, dim as int, i as int);
        let ghost lead = out@;
        assert(lead =~= before + (seq![0x5bu8] + (written + prefix)));
        proof {
            stride_leads(*a, size, dim as int, k, i as int, stride as int);
        }
        let q: usize = if empty || i == 0 { off } else { off + i * (stride as usize) };
        match write_entry(
            out,
            a,
            elem,
            unit,
            digits,
            opts,
            depth,
            empty,
            dim,
            q,
            Ghost(at),
        ) {
            Ok(()) => {},
            Err(e) => {
                proof {
                    entries_err(p, dim as int, k, i + 1, n as int);
                    assert(before =~= lead.subrange(0, before.len() as int));
                    assert(before =~= out@.subrange(0, before.len() as int));
                }
                return Err(e);
            },
        }
        proof {
            let text = entry_text(p, dim as int, at)->Ok_0;
            assert(out@ =~= before + (seq![0x5bu8] + (written + prefix + text)));
            written = written + prefix + text;
        }
        i += 1;
    }
    if indent {
        newline_indent(out, depth + dim as u32);
    }
    out.push(0x5d);
    assert(out@ =~= before + dim_text(p, dim as int, k)->Ok_0);
    Ok(())
}

/// A stride leads to the place of an entry, without leaving the data.
proof fn stride_leads(a: ArrayInfo, size: int, dim: int, k: int, i: int, stride: int)
    requires
        size >= 1,
        packed(a, size),
        0 <= dim < a.nd,
        0 <= k,
        0 <= i < a.shape@[dim],
        k + count(a.shape@, dim) <= count(a.shape@, 0),
        stride == a.strides@[dim],
    ensures
        count(a.shape@, 0) > 0 && i > 0 ==> 0 <= stride && 0 <= i * stride && k * size + i * stride
            <= usize::MAX && k * size + i * stride == (k + i * count(a.shape@, dim + 1)) * size,
        count(a.shape@, 0) == 0 || i == 0 ==> k * size == (k + i * count(a.shape@, dim + 1)) * size,
{
    entry_place(a, size, dim, k, i);
    let c = count(a.shape@, dim + 1);
    assert(c * size >= 0) by (nonlinear_arith)
        requires
            c >= 0,
            size >= 1,
    ;
    assert(a.data@.len() == a.data.len() <= usize::MAX);
    if count(a.shape@, 0) > 0 && i > 0 {
        assert(i * stride >= 0) by (nonlinear_arith)
            requires
                i >= 0,
                stride >= 0,
        ;
    }
}

/// An `Outcome` by its contents, with the text where one is written.
pub enum Told {
    Text(Seq<u8>),
    Declined(Why),
    Malformed,
}

/// What is written for an array, or why nothing is. `dtype` is its dtype string,
/// and `digits` holds the decimal texts of its elements if they are floats.
pub open spec fn array_told(
    a: ArrayInfo,
    dtype: Seq<u8>,
    digits: Seq<Vec<u8>>,
    opts: u32,
    depth: u32,
) -> Told {
    if a.two != 2 {
        Told::Malformed
    } else {
        match classified(a.flags, a.nd as int, a.typekind, a.itemsize as int) {
            Err(Check::NotContiguous) => Told::Declined(
                Why::NotContiguous { flags: a.flags, shape: a.shape@ },
            ),
            Err(Check::NotNative) => Told::Declined(Why::NotNative { dtype }),
            Err(Check::ZeroDim) => Told::Declined(Why::ZeroDim { dtype }),
            Err(Check::Dtype) => Told::Declined(Why::Dtype { dtype }),
            Ok(elem) => if !packed(a, a.itemsize as int) {
                Told::Malformed
            } else if elem == Elem::Dt64 && count(a.shape@, 0) != 0 {
                match dt64_unit_of(dtype) {
                    Some(u) => text_told(dim_text(plan(a, elem, Some(u), digits, opts, depth), 0, 0)),
                    None => Told::Declined(Why::UnparseableDtype { dtype }),
                }
            } else {
                text_told(dim_text(plan(a, elem, None, digits, opts, depth), 0, 0))
            },
        }
    }
}

pub open spec fn text_told(r: Result<Seq<u8>, Why>) -> Told {
    match r {
        Ok(t) => Told::Text(t),
        Err(why) => Told::Declined(why),
    }
}

/// Does `array_told` look at the dtype string?
pub open spec fn dtype_matters(a: ArrayInfo) -> bool {
    a.two == 2 && match classified(a.flags, a.nd as int, a.typekind, a.itemsize as int) {
        Err(check) => check != Check::NotContiguous,
        Ok(elem) => elem == Elem::Dt64 && packed(a, a.itemsize as int) && count(a.shape@, 0) != 0,
    }
}

/// Is the array written as floats, so that it takes their decimal texts?
pub open spec fn floats_matter(a: ArrayInfo) -> bool {
    a.two == 2 && match classified(a.flags, a.nd as int, a.typekind, a.itemsize as int) {
        Ok(elem) => is_float(elem) && packed(a, a.itemsize as int),
        Err(_) => false,
    }
}

/// Has a packed array no elements?
fn is_empty(a: &ArrayInfo) -> (r: bool)
    requires
        packed(*a, a.itemsize as int),
        a.itemsize >= 1,
    ensures
        r == (count(a.shape@, 0) == 0),
{
    proof {
        let c = count(a.shape@, 0);
        let size = a.itemsize as int;
        count_nonneg(a.shape@, 0);
        assert(c >= 1 ==> c * size >= 1) by (nonlinear_arith)
            requires
                size >= 1,
        ;
        assert(c == 0 ==> c * size == 0) by (nonlinear_arith);
    }
    a.data.len() == 0
}

fn copy_bytes(s: &[u8]) -> (r: Vec<u8>)
    ensures
        r@ == s@,
{
    let mut r: Vec<u8> = Vec::new();
    r.extend_from_slice(s);
    r
}

fn copy_shape(s: &Vec<isize>) -> (r: Vec<isize>)
    ensures
        r@ == s@,
{
    let mut r: Vec<isize> = Vec::new();
    let mut i: usize = 0;
    while i < s.len()
        invariant
            i <= s@.len(),
            r@ == s@.subrange(0, i as int),
        decreases s@.len() - i,
    {
        r.push(s[i]);
        i += 1;
    }
    r
}

/// Must the dtype string be read before the array can be written or declined?
pub fn needs_dtype(a: &ArrayInfo) -> (r: bool)
    ensures
        r == dtype_matters(*a),
{
    if a.two != 2 {
        return false;
    }
    match classify(a.flags, a.nd, a.typekind, a.itemsize) {
        Err(Check::NotContiguous) => false,
        Err(_) => true,
        Ok(elem) => elem == Elem::Dt64 && is_packed(a, elem_size(elem)) && !is_empty(a),
    }
}

/// The bits of element `k`: those of a single for a half, which is widened.
pub open spec fn float_bits(elem: Elem, b: Seq<u8>, bits: u64) -> bool {
    if elem == Elem::F16 {
        bits <= u32::MAX && widened(le_value(b) as u16, bits as u32)
    } else {
        bits == le_value(b)
    }
}

/// The bits of the floats of an array, in the order in which they are written.
/// Their decimal texts in the same order are what `serialize_array` takes.
pub fn float_leaves(a: &ArrayInfo) -> (r: Vec<u64>)
    ensures
        !floats_matter(*a) ==> r@.len() == 0,
        floats_matter(*a) ==> {
            let elem = classified(a.flags, a.nd as int, a.typekind, a.itemsize as int)->Ok_0;
            let size = a.itemsize as int;
            &&& r@.len() == count(a.shape@, 0)
            &&& forall|k: int|
                0 <= k < r@.len() ==> float_bits(
                    elem,
                    a.data@.subrange(k * size, k * size + size),
                    #[trigger] r@[k],
                )
        },
{
    let mut r: Vec<u64> = Vec::new();
    if a.two != 2 {
        return r;
    }
    let elem: Elem = match classify(a.flags, a.nd, a.typekind, a.itemsize) {
        Ok(elem) => elem,
        Err(_) => return r,
    };
    if !(elem == Elem::F16 || elem == Elem::F32 || elem == Elem::F64) {
        return r;
    }
    let size: usize = elem_size(elem);
    if !is_packed(a, size) {
        return r;
    }
    let ghost total = count(a.shape@, 0);
    proof {
        count_nonneg(a.shape@, 0);
        assert(total * size / size as int == total) by (nonlinear_arith)
            requires
                size >= 1,
        ;
    }
    let n: usize = a.data.len() / size;
    let mut k: usize = 0;
    while k < n
        invariant
            k <= n,
            n == total == count(a.shape@, 0),
            a.data@.len() == total * size,
            size == elem_layout(elem).1,
            size >= 1,
            is_float(elem),
            r@.len() == k,
            forall|j: int|
                0 <= j < k ==> float_bits(
                    elem,
                    a.data@.subrange(j * size, j * size + size),
                    #[trigger] r@[j],
                ),
        decreases n - k,
    {
        proof {
            assert(k * size + size <= total * size) by (nonlinear_arith)
                requires
                    k + 1 <= total,
                    size >= 1,
            ;
            assert(k * size >= 0) by (nonlinear_arith)
                requires
                    size >= 1,
            ;
            assert(a.data@.len() == a.data.len() <= usize::MAX);
        }
        let v: u64 = read_uint(a.data.as_slice(), k * size, size);
        let bits: u64 = if elem == Elem::F16 { f16_to_f32(v as u16) as u64 } else { v };
        r.push(bits);
        k += 1;
    }
    r
}

/// Writes an array, or says why it is declined; the output of one that is
/// declined is as it was before. `dtype` is its dtype string, which is not looked at
/// unless `needs_dtype` asks for it; `digits` holds the decimal texts of what
/// `float_leaves` gives.
pub fn serialize_array(
    out: &mut Out,
    a: &ArrayInfo,
    dtype: &[u8],
    digits: &Vec<Vec<u8>>,
    opts: u32,
    depth: u32,
) -> (r: Outcome)
    requires
        depth <= 0x7fff_fffe,
        floats_matter(*a) ==> digits@.len() == count(a.shape@, 0),
    ensures
        match array_told(*a, dtype@, digits@, opts, depth) {
            Told::Text(t) => r is Written && final(out)@ == old(out)@ + t,
            Told::Declined(why) => r matches Outcome::Declined(e) && e@ == why && final(out)@
                == old(out)@,
            Told::Malformed => r is Malformed && final(out)@ == old(out)@,
        },
{
    if a.two != 2 {
        return Outcome::Malformed;
    }
    let elem: Elem = match classify(a.flags, a.nd, a.typekind, a.itemsize) {
        Ok(elem) => elem,
        Err(check) => {
            return Outcome::Declined(
                match check {
                    Check::NotContiguous => Reason::NotContiguous {
                        flags: a.flags,
                        shape: copy_shape(&a.shape),
                    },
                    Check::NotNative => Reason::NotNative { dtype: copy_bytes(dtype) },
                    Check::ZeroDim => Reason::ZeroDim { dtype: copy_bytes(dtype) },
                    Check::Dtype => Reason::Dtype { dtype: copy_bytes(dtype) },
                },
            );
        },
    };
    if !is_packed(a, elem_size(elem)) {
        return Outcome::Malformed;
    }
    let empty: bool = is_empty(a);
    // the unit of an array without elements is not looked at
    let unit: Option<Dt64Unit> = if elem == Elem::Dt64 && !empty {
        match parse_dt64(dtype) {
            Some(u) => Some(u),
            None => return Outcome::Declined(
                Reason::UnparseableDtype { dtype: copy_bytes(dtype) },
            ),
        }
    } else {
        None
    };
    let start: usize = out.len();
    match walk(out, a, elem, unit, digits, opts, depth, empty, 0, 0, Ghost(0)) {
        Ok(()) => Outcome::Written,
        Err(reason) => {
            out.set_len(start);
            Outcome::Declined(reason)
        },
    }
}

/// What is written for a numpy scalar of an element type, from its bytes.
pub open spec fn scalar_told(
    elem: Elem,
    b: Seq<u8>,
    dtype: Seq<u8>,
    digits: Seq<u8>,
    opts: u32,
) -> Told {
    if elem == Elem::Dt64 {
        match dt64_unit_of(dtype) {
            Some(u) => text_told(leaf_text(elem, b, Some(u), digits, opts)),
            None => Told::Declined(Why::UnparseableDtype { dtype }),
        }
    } else {
        text_told(leaf_text(elem, b, None, digits, opts))
    }
}

/// Writes a numpy scalar, or says why it is declined. `dtype` is its dtype string,
/// which is looked at for a `datetime64` only; `digits` is the decimal text of a
/// float.
pub fn serialize_scalar(
    out: &mut Out,
    elem: Elem,
    data: &[u8],
    dtype: &[u8],
    digits: &[u8],
    opts: u32,
) -> (r: Outcome)
    requires
        data@.len() == elem_layout(elem).1,
    ensures
        match scalar_told(elem, data@, dtype@, digits@, opts) {
            Told::Text(t) => r is Written && final(out)@ == old(out)@ + t,
            Told::Declined(why) => r matches Outcome::Declined(e) && e@ == why && final(out)@
                == old(out)@,
            Told::Malformed => false,
        },
{
    let unit: Option<Dt64Unit> = if elem == Elem::Dt64 {
        match parse_dt64(dtype) {
            Some(u) => Some(u),
            None => return Outcome::Declined(
                Reason::UnparseableDtype { dtype: copy_bytes(dtype) },
            ),
        }
    } else {
        None
    };
    assert(data@.subrange(0, elem_layout(elem).1) =~= data@);
    match write_leaf(out, elem, data, 0, unit, digits, opts) {
        Ok(()) => Outcome::Written,
        Err(reason) => Outcome::Declined(reason),
    }
}

/// NaT is `null` in every unit, the generic one too, whatever the options.
pub proof fn nat_is_null(unit: Dt64Unit, opts: u32)
    ensures
        dt64_text(i64::MIN, unit, opts) == Ok::<Seq<u8>, Why>(null_text()),
{
}

/// No element that is not a float has a text longer than `max_text` says, so that
/// a reserved chunk holds the elements that it was reserved for.
pub proof fn leaf_text_fits(
    elem: Elem,
    b: Seq<u8>,
    unit: Option<Dt64Unit>,
    digits: Seq<u8>,
    opts: u32,
)
    requires
        !is_float(elem),
        b.len() == elem_layout(elem).1,
    ensures
        leaf_text(elem, b, unit, digits, opts) matches Ok(t) ==> t.len() <= longest_text(elem),
{
    let v = le_value(b);
    le_value_bound(b);
    reveal_with_fuel(pow256, 9);
    reveal_with_fuel(pow10, 21);
    match elem {
        Elem::I8 => nat_text_len(abs_nat(signed(v, 1)), 3),
        Elem::I16 => nat_text_len(abs_nat(signed(v, 2)), 5),
        Elem::I32 => nat_text_len(abs_nat(signed(v, 4)), 10),
        Elem::I64 => nat_text_len(abs_nat(signed(v, 8)), 19),
        Elem::U8 => nat_text_len(v, 3),
        Elem::U16 => nat_text_len(v, 5),
        Elem::U32 => nat_text_len(v, 10),
        Elem::U64 => nat_text_len(v, 20),
        Elem::Dt64 => {
            if let Some(u) = unit {
                if let Ok(Some(p)) = dt64_parts(signed(v, 8) as i64, u) {
                    padded_len(p.y as nat, 4);
                    padded_len(p.mo as nat, 2);
                    padded_len(p.d as nat, 2);
                    padded_len(p.h as nat, 2);
                    padded_len(p.mi as nat, 2);
                    padded_len(p.s as nat, 2);
                    padded_len(p.us as nat, 6);
                }
            }
        },
        _ => {},
    }
}

spec fn abs_nat(v: int) -> nat {
    (if v < 0 {
        -v
    } else {
        v
    }) as nat
}

/// An array has the same text, or the same reason for having none, under options that
/// agree on the form of texts.
pub proof fn dim_text_form(p: Plan, opts: u32, dim: int, k: int)
    requires
        same_form(p.opts, opts),
    ensures
        dim_text(p, dim, k) == dim_text(Plan { opts, ..p }, dim, k),
    decreases p.shape.len() - dim, 1int, 0int,
{
    if 0 <= dim < p.shape.len() && p.shape[dim] != 0 {
        entries_text_form(p, opts, dim, k, p.shape[dim] as int);
    }
}

proof fn entries_text_form(p: Plan, opts: u32, dim: int, k: int, i: int)
    requires
        same_form(p.opts, opts),
    ensures
        entries_text(p, dim, k, i) == entries_text(Plan { opts, ..p }, dim, k, i),
    decreases p.shape.len() - dim, 0int, i,
{
    if i > 0 && 0 <= dim < p.shape.len() {
        entries_text_form(p, opts, dim, k, i - 1);
        let at = k + (i - 1) * count(p.shape, dim + 1);
        if dim + 1 < p.shape.len() {
            dim_text_form(p, opts, dim + 1, at);
        }
        assert(entry_text(p, dim, at) == entry_text(Plan { opts, ..p }, dim, at));
    }
}

} // verus!

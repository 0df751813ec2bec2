//! Documents in memory: values together with what Python would answer about them,
//! and the text that `dumps` gives for them.
use crate::datetime::{datetime_text, dt64_unit_of, offset_in_day, Parts};
use crate::decline::{classified, elem_layout, Elem};
use crate::encode::{
    completed, date_text, dict_begun, int_told, key_told, keys_told, list_begun, numpy_written,
    object, ok, push_valid, shown_offset, time_opts_flags, time_text, to_default, top_valid, written, Answer, EncodeError,
    Encoder, FrameView, IntRead, KeyRead, Kind, OtherType, State, Step, MAX_DEFAULT_DEPTH,
    MAX_DEPTH,
};
use crate::escape::quoted;
use crate::float::f64_text;
use crate::indent::newline_text;
use crate::literal::{bool_text, null_text};
use crate::numpy::{
    array_told, count, dim_text_form, floats_matter, plan, scalar_told, ArrayInfo, Told,
};
use crate::opts::{
    form_kept, on, same_form, OPT_APPEND_NEWLINE, OPT_INDENT_2, OPT_PASSTHROUGH_DATACLASS,
    OPT_PASSTHROUGH_DATETIME, OPT_PASSTHROUGH_SUBCLASS, OPT_SERIALIZE_NUMPY, OPT_SORT_KEYS,
};
use crate::sort::{in_order, sorted_order};
use crate::types::{group_is_arrays_and_scalars, scalar_type, DtTypes, NumpyTypes, TypeCache};
use vstd::prelude::*;

verus! {

/// A value to write.
pub struct Value {
    /// Is it of the type that its contents say, not of a subclass? (`bool` and `None`
    /// have no subclasses.)
    pub exact: bool,
    pub body: Body,
    /// What `default` returns for it; nothing, if it raises.
    pub reply: Vec<Value>,
}

/// The contents of a value.
#[allow(inconsistent_fields)]
pub enum Body {
    Null,
    Bool(bool),
    Int(IntRead),
    /// The bits of a float, and its decimal text.
    Float { bits: u64, digits: Vec<u8> },
    /// The text of a string, unless it holds surrogates.
    Str(Option<Vec<u8>>),
    List(Vec<Value>),
    Tuple(Vec<Value>),
    Dict(Vec<DictEntry>),
    Datetime { parts: Parts, offset: Option<i64> },
    Date { y: u16, mo: u8, d: u8 },
    Time { h: u8, mi: u8, s: u8, us: u32, offset: Option<i64> },
    /// An array, its dtype string and the decimal texts of its floats.
    Array { info: ArrayInfo, dtype: Vec<u8>, digits: Vec<Vec<u8>> },
    /// A numpy scalar, its dtype string and the decimal text of a float.
    Scalar { elem: Elem, data: Vec<u8>, dtype: Vec<u8>, digits: Vec<u8> },
    /// Anything else.
    Opaque,
}

/// An entry of a dict.
pub struct DictEntry {
    pub key: KeyRead,
    pub value: Value,
}

/// Where a value stands, and how it is written.
pub struct Place {
    pub opts: u32,
    pub has_default: bool,
    /// How many containers it stands in.
    pub depth: int,
    /// How many results of `default` it stands in.
    pub default_depth: int,
}

impl Place {
    pub open spec fn inside(self) -> Place {
        Place { depth: self.depth + 1, ..self }
    }

    pub open spec fn replaced(self) -> Place {
        Place { default_depth: self.default_depth + 1, ..self }
    }

    /// The line break at `level`, in the indented form.
    pub open spec fn line(self, level: int) -> Seq<u8> {
        if on(self.opts, OPT_INDENT_2) {
            newline_text(level as nat)
        } else {
            Seq::empty()
        }
    }

    /// What stands in front of a value or key of a container whose contents stand
    /// here.
    pub open spec fn lead(self, first: bool) -> Seq<u8> {
        (if first {
            Seq::empty()
        } else {
            seq![0x2cu8]
        }) + self.line(self.depth)
    }

    pub open spec fn colon(self) -> Seq<u8> {
        if on(self.opts, OPT_INDENT_2) {
            seq![0x3au8, 0x20]
        } else {
            seq![0x3au8]
        }
    }
}

/// The keys of a dict as they were read.
pub open spec fn entry_keys(entries: Seq<DictEntry>) -> Seq<KeyRead> {
    Seq::new(entries.len(), |i: int| entries[i].key)
}

/// The text of a value, or why it has none.
pub open spec fn value_text(v: Value, at: Place) -> Result<Seq<u8>, EncodeError>
    decreases v, 2int, 0int,
{
    let native = v.exact || !on(at.opts, OPT_PASSTHROUGH_SUBCLASS);
    match v.body {
        Body::Null => Ok(null_text()),
        Body::Bool(b) => Ok(bool_text(b)),
        Body::Int(n) => if native {
            int_told(n, at.opts)
        } else {
            default_text(v, false, at)
        },
        Body::Float { bits, digits } => if v.exact {
            Ok(f64_text(bits, digits@))
        } else {
            default_text(v, false, at)
        },
        Body::Str(s) => if native {
            match s {
                Some(s) => Ok(quoted(s@)),
                None => Err(EncodeError::StrNotUtf8),
            }
        } else {
            default_text(v, false, at)
        },
        Body::List(_) => if native {
            list_text(v, at)
        } else {
            default_text(v, false, at)
        },
        Body::Tuple(_) => if v.exact {
            list_text(v, at)
        } else {
            default_text(v, false, at)
        },
        Body::Dict(_) => if native {
            dict_text(v, at)
        } else {
            default_text(v, false, at)
        },
        Body::Datetime { parts, offset } => if !v.exact || on(at.opts, OPT_PASSTHROUGH_DATETIME) {
            default_text(v, false, at)
        } else {
            Ok(datetime_text(parts, shown_offset(offset, at.opts), at.opts))
        },
        Body::Date { y, mo, d } => if !v.exact || on(at.opts, OPT_PASSTHROUGH_DATETIME) {
            default_text(v, false, at)
        } else {
            Ok(date_text(y, mo, d))
        },
        Body::Time { h, mi, s, us, offset } => if !v.exact || on(at.opts, OPT_PASSTHROUGH_DATETIME) {
            default_text(v, false, at)
        } else {
            Ok(time_text(h, mi, s, us, offset, at.opts))
        },
        Body::Array { .. } | Body::Scalar { .. } => if v.exact && on(
            at.opts,
            OPT_SERIALIZE_NUMPY,
        ) {
            match numpy_told(v, at) {
                Told::Text(t) => Ok(t),
                Told::Declined(_) => default_text(v, true, at),
                Told::Malformed => Err(EncodeError::Malformed),
            }
        } else {
            default_text(v, false, at)
        },
        Body::Opaque => default_text(v, false, at),
    }
}

/// The text of what `default` returns for a value; `declined` if it is asked because
/// the value is a numpy object that is not written.
pub open spec fn default_text(v: Value, declined: bool, at: Place) -> Result<Seq<u8>, EncodeError>
    decreases v, 1int, 0int,
{
    if !at.has_default {
        Err(
            if declined {
                EncodeError::Declined
            } else {
                EncodeError::NotSerializable
            },
        )
    } else if at.default_depth >= MAX_DEFAULT_DEPTH {
        Err(EncodeError::DefaultDepth)
    } else if v.reply@.len() == 0 {
        Err(EncodeError::DefaultRaised)
    } else {
        value_text(v.reply@[0], at.replaced())
    }
}

/// The items of a list or tuple.
pub open spec fn items_of(v: Value) -> Seq<Value> {
    match v.body {
        Body::List(items) => items@,
        Body::Tuple(items) => items@,
        _ => Seq::empty(),
    }
}

/// The first `n` items of a list or tuple, whose contents stand at `at`.
pub open spec fn items_text(v: Value, n: int, at: Place) -> Result<Seq<u8>, EncodeError>
    decreases v, 0int, n,
{
    if n <= 0 || n > items_of(v).len() {
        Ok(Seq::empty())
    } else {
        match items_text(v, n - 1, at) {
            Err(e) => Err(e),
            Ok(t) => match value_text(items_of(v)[n - 1], at) {
                Err(e) => Err(e),
                Ok(u) => Ok(t + at.lead(n == 1) + u),
            },
        }
    }
}

/// A list or tuple: its items in brackets.
pub open spec fn list_text(v: Value, at: Place) -> Result<Seq<u8>, EncodeError>
    decreases v, 1int, 0int,
{
    let n = items_of(v).len();
    if at.depth >= MAX_DEPTH {
        Err(EncodeError::Recursion)
    } else if n == 0 {
        Ok(seq![0x5bu8, 0x5d])
    } else {
        match items_text(v, n as int, at.inside()) {
            Err(e) => Err(e),
            Ok(t) => Ok(seq![0x5bu8] + t + at.line(at.depth) + seq![0x5du8]),
        }
    }
}

/// The entries of a dict.
pub open spec fn entries_of(v: Value) -> Seq<DictEntry> {
    match v.body {
        Body::Dict(entries) => entries@,
        _ => Seq::empty(),
    }
}

/// The first `n` entries of a dict in its own order, whose contents stand at `at`.
pub open spec fn entries_text(v: Value, n: int, at: Place) -> Result<Seq<u8>, EncodeError>
    decreases v, 0int, n,
{
    if n <= 0 || n > entries_of(v).len() {
        Ok(Seq::empty())
    } else {
        match entries_text(v, n - 1, at) {
            Err(e) => Err(e),
            Ok(t) => match key_told(entries_of(v)[n - 1].key) {
                Err(e) => Err(e),
                Ok(k) => match value_text(entries_of(v)[n - 1].value, at) {
                    Err(e) => Err(e),
                    Ok(u) => Ok(t + at.lead(n == 1) + quoted(k) + at.colon() + u),
                },
            },
        }
    }
}

/// The first `n` entries of a dict in the order of its sorted keys, whose contents
/// stand at `at`.
pub open spec fn sorted_text(
    v: Value,
    keys: Seq<Seq<u8>>,
    order: Seq<usize>,
    n: int,
    at: Place,
) -> Result<Seq<u8>, EncodeError>
    decreases v, 0int, n,
{
    if n <= 0 || n > order.len() || order[n - 1] >= entries_of(v).len() {
        Ok(Seq::empty())
    } else {
        match sorted_text(v, keys, order, n - 1, at) {
            Err(e) => Err(e),
            Ok(t) => match value_text(entries_of(v)[order[n - 1] as int].value, at) {
                Err(e) => Err(e),
                Ok(u) => Ok(
                    t + at.lead(n == 1) + quoted(keys[order[n - 1] as int]) + at.colon() + u,
                ),
            },
        }
    }
}

/// A dict: its entries in braces, sorted by their keys where that is asked for.
pub open spec fn dict_text(v: Value, at: Place) -> Result<Seq<u8>, EncodeError>
    decreases v, 1int, 0int,
{
    let n = entries_of(v).len();
    if at.depth >= MAX_DEPTH {
        Err(EncodeError::Recursion)
    } else if n == 0 {
        Ok(seq![0x7bu8, 0x7d])
    } else {
        let inner = if on(at.opts, OPT_SORT_KEYS) {
            match keys_told(entry_keys(entries_of(v))) {
                Err(e) => Err(e),
                Ok(keys) => sorted_text(v, keys, sorted_order(keys), n as int, at.inside()),
            }
        } else {
            entries_text(v, n as int, at.inside())
        };
        match inner {
            Err(e) => Err(e),
            Ok(t) => Ok(seq![0x7bu8] + t + at.line(at.depth) + seq![0x7du8]),
        }
    }
}

/// What `dumps` gives for a document.
pub open spec fn document_text(v: Value, opts: u32, has_default: bool) -> Result<
    Seq<u8>,
    EncodeError,
> {
    match value_text(v, Place { opts, has_default, depth: 0, default_depth: 0 }) {
        Ok(t) => Ok(
            t + if on(opts, OPT_APPEND_NEWLINE) {
                seq![0x0au8]
            } else {
                Seq::empty()
            },
        ),
        Err(e) => Err(e),
    }
}

/// The types of the values in a document. Any addresses that differ will do.
pub const DATETIME_TYPE: usize = 1;

pub const DATE_TYPE: usize = 2;

pub const TIME_TYPE: usize = 3;

pub const DELTA_TYPE: usize = 4;

pub const OPAQUE_TYPE: usize = 5;

pub const NUMPY_MODULE: usize = 6;

pub const NDARRAY_TYPE: usize = 7;

/// The type of a numpy scalar.
pub open spec fn scalar_address(elem: Elem) -> usize {
    match elem {
        Elem::F64 => 8,
        Elem::F32 => 9,
        Elem::F16 => 10,
        Elem::I64 => 11,
        Elem::I32 => 12,
        Elem::I16 => 13,
        Elem::I8 => 14,
        Elem::U64 => 15,
        Elem::U32 => 16,
        Elem::U16 => 17,
        Elem::U8 => 18,
        Elem::Bool => 19,
        Elem::Dt64 => 20,
    }
}

fn scalar_ty(elem: Elem) -> (r: usize)
    ensures
        r == scalar_address(elem),
{
    match elem {
        Elem::F64 => 8,
        Elem::F32 => 9,
        Elem::F16 => 10,
        Elem::I64 => 11,
        Elem::I32 => 12,
        Elem::I16 => 13,
        Elem::I8 => 14,
        Elem::U64 => 15,
        Elem::U32 => 16,
        Elem::U16 => 17,
        Elem::U8 => 18,
        Elem::Bool => 19,
        Elem::Dt64 => 20,
    }
}

pub open spec fn document_dt() -> DtTypes {
    DtTypes { datetime: DATETIME_TYPE, date: DATE_TYPE, time: TIME_TYPE, delta: DELTA_TYPE }
}

pub open spec fn document_np() -> NumpyTypes {
    NumpyTypes {
        ndarray: NDARRAY_TYPE,
        float64: 8,
        float32: 9,
        float16: 10,
        int64: 11,
        int32: 12,
        int16: 13,
        int8: 14,
        uint64: 15,
        uint32: 16,
        uint16: 17,
        uint8: 18,
        bool_: 19,
        datetime64: 20,
    }
}

/// The type cache of a document: both groups are loaded.
pub open spec fn document_cache() -> TypeCache {
    TypeCache {
        dt_capsule: DATETIME_TYPE,
        dt: document_dt(),
        np_module: NUMPY_MODULE,
        np: document_np(),
        ..TypeCache::zeros()
    }
}

fn make_cache() -> (r: TypeCache)
    ensures
        r == document_cache(),
{
    let mut c: TypeCache = TypeCache::zeroed();
    c.dt_capsule = DATETIME_TYPE;
    c.dt = DtTypes {
        datetime: DATETIME_TYPE,
        date: DATE_TYPE,
        time: TIME_TYPE,
        delta: DELTA_TYPE,
    };
    c.np_module = NUMPY_MODULE;
    c.np = NumpyTypes {
        ndarray: NDARRAY_TYPE,
        float64: 8,
        float32: 9,
        float16: 10,
        int64: 11,
        int32: 12,
        int16: 13,
        int8: 14,
        uint64: 15,
        uint32: 16,
        uint16: 17,
        uint8: 18,
        bool_: 19,
        datetime64: 20,
    };
    c
}

/// The type of a value that is not of a builtin type, by its address. A subclass of any
/// type is another type.
pub open spec fn address_of(v: Value) -> usize {
    if !v.exact {
        OPAQUE_TYPE
    } else {
        match v.body {
            Body::Datetime { .. } => DATETIME_TYPE,
            Body::Date { .. } => DATE_TYPE,
            Body::Time { .. } => TIME_TYPE,
            Body::Array { .. } => NDARRAY_TYPE,
            Body::Scalar { elem, .. } => scalar_address(elem),
            _ => OPAQUE_TYPE,
        }
    }
}

/// The kind of a value.
pub open spec fn kind_of(v: Value) -> Kind {
    match v.body {
        Body::Null => Kind::Null,
        Body::Bool(b) => Kind::Bool(b),
        Body::Int(_) if v.exact => Kind::Int,
        Body::Float { .. } if v.exact => Kind::Float,
        Body::Str(_) if v.exact => Kind::Str,
        Body::List(_) if v.exact => Kind::List,
        Body::Tuple(_) if v.exact => Kind::Tuple,
        Body::Dict(_) if v.exact => Kind::Dict,
        _ => Kind::Other(
            OtherType {
                ty: address_of(v),
                is_str: v.body is Str,
                is_int: v.body is Int,
                is_dict: v.body is Dict,
                is_list: v.body is List,
            },
        ),
    }
}

fn kind(v: &Value) -> (r: Kind)
    ensures
        r == kind_of(*v),
{
    let mut o: OtherType = OtherType {
        ty: OPAQUE_TYPE,
        is_str: false,
        is_int: false,
        is_dict: false,
        is_list: false,
    };
    match &v.body {
        Body::Null => return Kind::Null,
        Body::Bool(b) => return Kind::Bool(*b),
        Body::Int(_) => {
            if v.exact {
                return Kind::Int;
            }
            o.is_int = true;
        },
        Body::Float { .. } => {
            if v.exact {
                return Kind::Float;
            }
        },
        Body::Str(_) => {
            if v.exact {
                return Kind::Str;
            }
            o.is_str = true;
        },
        Body::List(_) => {
            if v.exact {
                return Kind::List;
            }
            o.is_list = true;
        },
        Body::Tuple(_) => {
            if v.exact {
                return Kind::Tuple;
            }
        },
        Body::Dict(_) => {
            if v.exact {
                return Kind::Dict;
            }
            o.is_dict = true;
        },
        Body::Datetime { .. } => o.ty = DATETIME_TYPE,
        Body::Date { .. } => o.ty = DATE_TYPE,
        Body::Time { .. } => o.ty = TIME_TYPE,
        Body::Array { .. } => o.ty = NDARRAY_TYPE,
        Body::Scalar { elem, .. } => o.ty = scalar_ty(*elem),
        Body::Opaque => {},
    }
    if !v.exact {
        o.ty = OPAQUE_TYPE;
    }
    Kind::Other(o)
}

/// Are the years, offsets and numpy data of a value, and of all in it, within their
/// bounds?
pub open spec fn value_valid(v: Value) -> bool
    decreases v,
{
    &&& match v.body {
        Body::Datetime { parts, offset } => parts.y <= 9999 && offset_in_day(offset),
        Body::Date { y, .. } => y <= 9999,
        Body::Time { offset, .. } => offset_in_day(offset),
        Body::Array { info, digits, .. } => floats_matter(info) ==> digits@.len() == count(
            info.shape@,
            0,
        ),
        Body::Scalar { elem, data, .. } => data@.len() == elem_layout(elem).1,
        Body::List(items) => forall|i: int|
            0 <= i < items@.len() ==> value_valid(#[trigger] items@[i]),
        Body::Tuple(items) => forall|i: int|
            0 <= i < items@.len() ==> value_valid(#[trigger] items@[i]),
        Body::Dict(entries) => forall|i: int|
            0 <= i < entries@.len() ==> value_valid((#[trigger] entries@[i]).value),
        _ => true,
    }
    &&& v.reply@.len() > 0 ==> value_valid(v.reply@[0])
}

/// What stands in a value within its bounds is within its own.
pub proof fn parts_valid(v: Value)
    requires
        value_valid(v),
    ensures
        forall|i: int| 0 <= i < items_of(v).len() ==> value_valid(#[trigger] items_of(v)[i]),
        forall|i: int|
            0 <= i < entries_of(v).len() ==> value_valid((#[trigger] entries_of(v)[i]).value),
        v.reply@.len() > 0 ==> value_valid(v.reply@[0]),
{
}

/// A state without what writing a value may change besides the output.
pub open spec fn settled(st: State) -> State {
    State { np_rechecked: false, declined: None, ..st }
}

/// Where the value stands that is written next.
pub open spec fn place_of(st: State) -> Place {
    Place {
        opts: st.opts,
        has_default: st.has_default,
        depth: st.depth,
        default_depth: st.default_depth,
    }
}

/// What closes when a value is written does not depend on the rest of the state.
proof fn completed_settled(a: State, b: State)
    requires
        settled(a) == settled(b),
    ensures
        settled(completed(a).0) == settled(completed(b).0),
        completed(a).1 == completed(b).1,
    decreases a.frames.len(),
{
    assert(a.frames == settled(a).frames && b.frames == settled(b).frames);
    assert(a.out == settled(a).out && b.out == settled(b).out);
    assert(a.opts == settled(a).opts && b.opts == settled(b).opts);
    assert(a.depth == settled(a).depth && b.depth == settled(b).depth);
    assert(a.default_depth == settled(a).default_depth && b.default_depth == settled(
        b,
    ).default_depth);
    assert(a.has_default == settled(a).has_default && b.has_default == settled(b).has_default);
    assert(a.guard == settled(a).guard && b.guard == settled(b).guard);
    assert(a.dt == settled(a).dt && b.dt == settled(b).dt);
    if a.frames.len() > 0 {
        if a.frames.last() is Default {
            completed_settled(a.popped(), b.popped());
        } else if a.frames.last() is Sorted {
            completed_settled(a.closed(0x7d), b.closed(0x7d));
        }
    }
}

/// Is the value written, and with it what it completes?
pub open spec fn value_done(
    text: Result<Seq<u8>, EncodeError>,
    st: State,
    after: State,
    r: Result<Step, EncodeError>,
) -> bool {
    match text {
        Ok(t) => {
            let done = completed(st.wrote(t));
            r == Ok::<Step, EncodeError>(done.1) && settled(after) == settled(done.0)
                && after.valid()
        },
        Err(e) => r == Err::<Step, EncodeError>(e),
    }
}

/// The fields of a state that `settled` keeps.
proof fn settled_fields(a: State, b: State)
    requires
        settled(a) == settled(b),
    ensures
        a.out == b.out,
        a.opts == b.opts,
        a.has_default == b.has_default,
        a.guard == b.guard,
        a.depth == b.depth,
        a.default_depth == b.default_depth,
        a.dt == b.dt,
        a.frames == b.frames,
{
    let x = settled(a);
    let y = settled(b);
    assert(x.out == a.out && y.out == b.out);
    assert(x.frames == a.frames && y.frames == b.frames);
    assert(x.opts == a.opts && y.opts == b.opts);
    assert(x.dt == a.dt && y.dt == b.dt);
    assert(x.depth == a.depth && y.depth == b.depth);
    assert(x.default_depth == a.default_depth && y.default_depth == b.default_depth);
    assert(x.has_default == a.has_default && y.has_default == b.has_default);
    assert(x.guard == a.guard && y.guard == b.guard);
}

/// Is the encoder ready to write a value of a document?
pub open spec fn ready(st: State, cache: TypeCache) -> bool {
    st.valid() && st.dt == Some(document_dt()) && cache == document_cache()
}

/// Which types of the numpy group a value can have.
proof fn numpy_hits(v: Value)
    ensures
        v.exact && v.body is Array ==> document_cache().numpy_hit_spec(address_of(v)) == Some(document_np()),
        v.exact && v.body is Scalar ==> document_cache().numpy_hit_spec(address_of(v)) == Some(
            document_np(),
        )
            && address_of(v) != NDARRAY_TYPE && scalar_type(document_np(), address_of(v)) == Some(
            v.body->Scalar_elem,
        ),
        !v.exact || !(v.body is Array || v.body is Scalar) ==> document_cache().numpy_hit_spec(
            address_of(v),
        ) is None,
{
    group_is_arrays_and_scalars(document_np(), address_of(v));
}

/// Is a value written without `default`, as far as its kind and the options say?
pub open spec fn is_native(v: Value, opts: u32) -> bool {
    match v.body {
        Body::Null => true,
        Body::Bool(_) => true,
        Body::Float { .. } => v.exact,
        Body::Tuple(_) => v.exact,
        Body::Int(_) => v.exact || !on(opts, OPT_PASSTHROUGH_SUBCLASS),
        Body::Str(_) => v.exact || !on(opts, OPT_PASSTHROUGH_SUBCLASS),
        Body::List(_) => v.exact || !on(opts, OPT_PASSTHROUGH_SUBCLASS),
        Body::Dict(_) => v.exact || !on(opts, OPT_PASSTHROUGH_SUBCLASS),
        Body::Datetime { .. } => v.exact && !on(opts, OPT_PASSTHROUGH_DATETIME),
        Body::Date { .. } => v.exact && !on(opts, OPT_PASSTHROUGH_DATETIME),
        Body::Time { .. } => v.exact && !on(opts, OPT_PASSTHROUGH_DATETIME),
        Body::Array { .. } => v.exact && on(opts, OPT_SERIALIZE_NUMPY),
        Body::Scalar { .. } => v.exact && on(opts, OPT_SERIALIZE_NUMPY),
        Body::Opaque => false,
    }
}

/// What the encoder answers when it is told the kind of a value.
proof fn first_answer(v: Value, st: State)
    requires
        ready(st, document_cache()),
    ensures
        ({
            let a = object(st, kind_of(v), document_cache());
            if is_native(v, st.opts) {
                match v.body {
                    Body::Null => a == written(st, null_text()),
                    Body::Bool(b) => a == written(st, bool_text(b)),
                    Body::Int(_) => a == ok(st, Step::ReadInt),
                    Body::Float { .. } => a == ok(st, Step::ReadFloat),
                    Body::Str(_) => a == ok(st, Step::ReadStr),
                    Body::List(_) => a == list_begun(st),
                    Body::Tuple(_) => a == list_begun(st),
                    Body::Dict(_) => a == dict_begun(st),
                    Body::Datetime { .. } => a == ok(st, Step::ReadDatetime),
                    Body::Date { .. } => a == ok(st, Step::ReadDate),
                    Body::Time { .. } => a == ok(st, Step::ReadTime),
                    Body::Array { .. } => a == ok(st, Step::ReadArray),
                    Body::Scalar { elem, .. } => a == ok(st, Step::ReadScalar(elem)),
                    Body::Opaque => false,
                }
            } else {
                a == to_default(st, None) || a == ok(
                    State { np_rechecked: true, ..st },
                    Step::LookUpNumpy,
                )
            }
        }),
{
    numpy_hits(v);
}

/// Writes the value whose kind the encoder was told, in answer to which it said `r`.
fn follow(
    enc: &mut Encoder,
    cache: &TypeCache,
    v: &Value,
    r: Result<Step, EncodeError>,
    Ghost(st): Ghost<State>,
) -> (r2: Result<Step, EncodeError>)
    requires
        ready(st, *cache),
        value_valid(*v),
        old(enc)@.valid(),
        old(enc)@ == object(st, kind_of(*v), *cache).st,
        r == object(st, kind_of(*v), *cache).r,
    ensures
        value_done(value_text(*v, place_of(st)), st, final(enc)@, r2),
    decreases *v, 3int,
{
    proof {
        first_answer(*v, st);
    }
    match &v.body {
        Body::Null => r,
        Body::Bool(_) => r,
        Body::List(items) => match r {
            Ok(Step::Item) => follow_list(enc, cache, v, items, Ghost(st)),
            Err(EncodeError::Recursion) => r,
            _ => follow_otherwise(enc, cache, v, r, Ghost(st)),
        },
        Body::Tuple(items) => match r {
            Ok(Step::Item) => follow_list(enc, cache, v, items, Ghost(st)),
            Err(EncodeError::Recursion) => r,
            _ => follow_otherwise(enc, cache, v, r, Ghost(st)),
        },
        Body::Dict(entries) => match r {
            Ok(Step::Entry) => follow_dict(enc, cache, v, entries, Ghost(st)),
            Ok(Step::AllKeys) => follow_sorted(enc, cache, v, entries, Ghost(st)),
            Err(EncodeError::Recursion) => r,
            _ => follow_otherwise(enc, cache, v, r, Ghost(st)),
        },
        Body::Array { info, dtype, digits } => match r {
            Ok(Step::ReadArray) => {
                let r: Result<Step, EncodeError> = enc.array(info, dtype.as_slice(), digits);
                follow_numpy(enc, cache, v, r, Ghost(st))
            },
            _ => follow_otherwise(enc, cache, v, r, Ghost(st)),
        },
        Body::Scalar { elem, data, dtype, digits } => match r {
            Ok(Step::ReadScalar(_)) => {
                let r: Result<Step, EncodeError> = enc.scalar(
                    *elem,
                    data.as_slice(),
                    dtype.as_slice(),
                    digits.as_slice(),
                );
                follow_numpy(enc, cache, v, r, Ghost(st))
            },
            _ => follow_otherwise(enc, cache, v, r, Ghost(st)),
        },
        _ => match r {
            Ok(Step::ReadStr) => answer_leaf(enc, v, Ghost(st)),
            Ok(Step::ReadInt) => answer_leaf(enc, v, Ghost(st)),
            Ok(Step::ReadFloat) => answer_leaf(enc, v, Ghost(st)),
            Ok(Step::ReadDatetime) => answer_leaf(enc, v, Ghost(st)),
            Ok(Step::ReadDate) => answer_leaf(enc, v, Ghost(st)),
            Ok(Step::ReadTime) => answer_leaf(enc, v, Ghost(st)),
            _ => follow_otherwise(enc, cache, v, r, Ghost(st)),
        },
    }
}

/// Hands over the contents of a value that holds no other.
fn answer_leaf(enc: &mut Encoder, v: &Value, Ghost(st): Ghost<State>) -> (r2: Result<
    Step,
    EncodeError,
>)
    requires
        value_valid(*v),
        st.valid(),
        old(enc)@ == st,
        is_native(*v, st.opts),
        v.body is Str || v.body is Int || v.body is Float || v.body is Datetime || v.body is Date
            || v.body is Time,
    ensures
        value_done(value_text(*v, place_of(st)), st, final(enc)@, r2),
{
    match &v.body {
        Body::Str(s) => match s {
            Some(s) => enc.str(Some(s.as_slice())),
            None => enc.str(None),
        },
        Body::Int(n) => enc.integer(*n),
        Body::Float { bits, digits } => enc.float(*bits, digits.as_slice()),
        Body::Datetime { parts, offset } => enc.datetime(parts, *offset),
        Body::Date { y, mo, d } => enc.date(*y, *mo, *d),
        Body::Time { h, mi, s, us, offset } => enc.time(*h, *mi, *s, *us, *offset),
        _ => Err(EncodeError::Raised),
    }
}

/// Writes a value that is left for `default`, as the encoder answered.
fn follow_otherwise(
    enc: &mut Encoder,
    cache: &TypeCache,
    v: &Value,
    r: Result<Step, EncodeError>,
    Ghost(st): Ghost<State>,
) -> (r2: Result<Step, EncodeError>)
    requires
        ready(st, *cache),
        value_valid(*v),
        old(enc)@.valid(),
        !is_native(*v, st.opts),
        ({
            let a = Answer { st: old(enc)@, r };
            a == to_default(st, None) || a == ok(
                State { np_rechecked: true, ..st },
                Step::LookUpNumpy,
            )
        }),
    ensures
        value_done(value_text(*v, place_of(st)), st, final(enc)@, r2),
    decreases *v, 2int,
{
    assert(value_text(*v, place_of(st)) == default_text(*v, false, place_of(st)));
    let r: Result<Step, EncodeError> = match r {
        // the group is loaded, so that there is no more to find
        Ok(Step::LookUpNumpy) => enc.numpy_found(OPAQUE_TYPE, None),
        _ => r,
    };
    assert(settled(enc@) =~= settled(st));
    match r {
        Ok(_) => follow_default(enc, cache, v, Ghost(false), Ghost(st)),
        Err(e) => Err(e),
    }
}

/// What is written for a numpy object.
pub open spec fn numpy_told(v: Value, at: Place) -> Told {
    match v.body {
        Body::Array { info, dtype, digits } => array_told(
            info,
            dtype@,
            digits@,
            at.opts,
            at.depth as u32,
        ),
        Body::Scalar { elem, data, dtype, digits } => scalar_told(
            elem,
            data@,
            dtype@,
            digits@,
            at.opts,
        ),
        _ => Told::Malformed,
    }
}

/// Writes a numpy object about which the encoder said `r`.
fn follow_numpy(
    enc: &mut Encoder,
    cache: &TypeCache,
    v: &Value,
    r: Result<Step, EncodeError>,
    Ghost(st): Ghost<State>,
) -> (r2: Result<Step, EncodeError>)
    requires
        ready(st, *cache),
        value_valid(*v),
        old(enc)@.valid(),
        v.exact,
        on(st.opts, OPT_SERIALIZE_NUMPY),
        old(enc)@ == numpy_written(st, numpy_told(*v, place_of(st))).st,
        r == numpy_written(st, numpy_told(*v, place_of(st))).r,
        v.body is Array || v.body is Scalar,
    ensures
        value_done(value_text(*v, place_of(st)), st, final(enc)@, r2),
    decreases *v, 1int,
{
    proof {
        if let Told::Text(t) = numpy_told(*v, place_of(st)) {
            completed_never_asks(st.wrote(t));
        }
    }
    match r {
        Ok(Step::CallDefault) => follow_default(enc, cache, v, Ghost(true), Ghost(st)),
        _ => r,
    }
}

/// A value that is written does not make for a call of `default`.
proof fn completed_never_asks(st: State)
    ensures
        completed(st).1 != Step::CallDefault,
    decreases st.frames.len(),
{
    if st.frames.len() > 0 {
        if st.frames.last() is Default {
            completed_never_asks(st.popped());
        } else if st.frames.last() is Sorted {
            completed_never_asks(st.closed(0x7d));
        }
    }
}

/// Writes what `default` returns for a value.
fn follow_default(
    enc: &mut Encoder,
    cache: &TypeCache,
    v: &Value,
    Ghost(declined): Ghost<bool>,
    Ghost(st): Ghost<State>,
) -> (r2: Result<Step, EncodeError>)
    requires
        ready(st, *cache),
        value_valid(*v),
        old(enc)@.valid(),
        settled(old(enc)@) == settled(st),
        st.has_default,
        st.default_depth < MAX_DEFAULT_DEPTH,
    ensures
        value_done(default_text(*v, declined, place_of(st)), st, final(enc)@, r2),
    decreases *v, 0int,
{
    let ghost before = enc@;
    proof {
        settled_fields(before, st);
    }
    if v.reply.len() == 0 {
        return Err(EncodeError::DefaultRaised);
    }
    let reply: &Value = &v.reply[0];
    let r: Result<Step, EncodeError> = enc.serialize_default_result(kind(reply), cache);
    let ghost inner = State {
        default_depth: before.default_depth + 1,
        frames: before.frames.push(FrameView::Default),
        ..before
    };
    proof {
        push_valid(before, inner, FrameView::Default);
    }
    let r2: Result<Step, EncodeError> = follow(enc, cache, reply, r, Ghost(inner));
    proof {
        if let Ok(t) = value_text(*reply, place_of(inner)) {
            let written = inner.wrote(t);
            assert(written.frames.drop_last() =~= before.frames);
            assert(written.popped() =~= before.wrote(t));
            assert(settled(before.wrote(t)) =~= settled(st.wrote(t)));
            completed_settled(before.wrote(t), st.wrote(t));
        }
    }
    r2
}

/// What keeps one of the first items from having a text keeps the list from it.
proof fn items_err(v: Value, i: int, n: int, at: Place)
    requires
        0 <= i <= n <= items_of(v).len(),
        items_text(v, i, at) is Err,
    ensures
        items_text(v, n, at) == items_text(v, i, at),
    decreases n - i,
{
    if i < n {
        items_err(v, i, n - 1, at);
    }
}

/// Writes a list or tuple that the encoder has begun.
#[verifier::spinoff_prover]
#[verifier::rlimit(40)]
fn follow_list(
    enc: &mut Encoder,
    cache: &TypeCache,
    v: &Value,
    items: &Vec<Value>,
    Ghost(st): Ghost<State>,
) -> (r2: Result<Step, EncodeError>)
    requires
        ready(st, *cache),
        value_valid(*v),
        v.body == Body::List(*items) || v.body == Body::Tuple(*items),
        is_native(*v, st.opts),
        st.depth < MAX_DEPTH,
        old(enc)@ == list_begun(st).st,
        old(enc)@.valid(),
    ensures
        value_done(value_text(*v, place_of(st)), st, final(enc)@, r2),
    decreases *v, 1int,
{
    let ghost at = place_of(st).inside();
    let ghost mut t: Seq<u8> = Seq::empty();
    let mut i: usize = 0;
    assert(items_of(*v) == items@);
    assert(value_text(*v, place_of(st)) == list_text(*v, place_of(st)));
    while i < items.len()
        invariant
            ready(st, *cache),
            value_valid(*v),
            v.body == Body::List(*items) || v.body == Body::Tuple(*items),
            items_of(*v) == items@,
            value_text(*v, place_of(st)) == list_text(*v, place_of(st)),
            st.depth < MAX_DEPTH,
            at == place_of(st).inside(),
            i <= items@.len(),
            enc@.valid(),
            items_text(*v, i as int, at) == Ok::<Seq<u8>, EncodeError>(t),
            settled(enc@) == settled(list_state(st, i == 0, t)),
        decreases items@.len() - i,
    {
        let ghost before = enc@;
        proof {
            settled_fields(before, list_state(st, i == 0, t));
            parts_valid(*v);
            assert(value_valid(items_of(*v)[i as int]));
        }
        let item: &Value = &items[i];
        let r: Result<Step, EncodeError> = enc.item(kind(item), cache);
        let ghost first = i == 0;
        let ghost lead = (if first {
            seq![0x5bu8]
        } else {
            Seq::empty()
        }) + before.lead(first);
        let ghost inner = before.wrote(lead).with_top(FrameView::Items { first: false });
        proof {
            top_valid(before.wrote(lead), FrameView::Items { first: false });
            assert(before.lead(first) == at.lead(first));
            assert(place_of(inner) == at);
            assert(decreases_to!(*v => items@[i as int]));
        }
        let r: Result<Step, EncodeError> = follow(enc, cache, item, r, Ghost(inner));
        match r {
            Ok(_) => {},
            Err(e) => {
                proof {
                    items_err(*v, i + 1, items@.len() as int, at);
                }
                return Err(e);
            },
        }
        proof {
            let u = value_text(*item, at)->Ok_0;
            assert(inner.wrote(u).frames.last() == FrameView::Items { first: false });
            let t2 = t + at.lead(first) + u;
            settled_fields(enc@, inner.wrote(u));
            assert(inner.frames =~= list_state(st, false, t2).frames);
            assert(inner.wrote(u).out =~= list_state(st, false, t2).out);
            assert(settled(enc@) =~= settled(list_state(st, false, t2)));
            t = t2;
        }
        i += 1;
    }
    let ghost before = enc@;
    proof {
        settled_fields(before, list_state(st, i == 0, t));
    }
    let r: Result<Step, EncodeError> = enc.end();
    proof {
        let text = list_text(*v, place_of(st))->Ok_0;
        let closed = if i == 0 {
            before.popped().wrote(seq![0x5bu8, 0x5d])
        } else {
            before.closed(0x5d)
        };
        assert(closed.frames =~= st.frames);
        assert(closed.out =~= st.wrote(text).out);
        assert(settled(closed) =~= settled(st.wrote(text)));
        completed_settled(closed, st.wrote(text));
    }
    r
}

/// The state while a list is written: its first items have the text `t`.
pub open spec fn list_state(st: State, first: bool, t: Seq<u8>) -> State {
    State {
        out: if first {
            st.out
        } else {
            st.out + (seq![0x5bu8] + t)
        },
        depth: st.depth + 1,
        frames: st.frames.push(FrameView::Items { first }),
        ..st
    }
}

/// What keeps one of the first entries from having a text keeps the dict from it.
proof fn entries_err(v: Value, i: int, n: int, at: Place)
    requires
        0 <= i <= n <= entries_of(v).len(),
        entries_text(v, i, at) is Err,
    ensures
        entries_text(v, n, at) == entries_text(v, i, at),
    decreases n - i,
{
    if i < n {
        entries_err(v, i, n - 1, at);
    }
}

/// The state while a dict is written in its own order: its first entries have the
/// text `t`.
pub open spec fn dict_state(st: State, first: bool, t: Seq<u8>) -> State {
    State {
        out: if first {
            st.out
        } else {
            st.out + (seq![0x7bu8] + t)
        },
        depth: st.depth + 1,
        frames: st.frames.push(FrameView::Entries { first }),
        ..st
    }
}

/// Writes a dict, in its own order, that the encoder has begun.
#[verifier::spinoff_prover]
#[verifier::rlimit(40)]
fn follow_dict(
    enc: &mut Encoder,
    cache: &TypeCache,
    v: &Value,
    entries: &Vec<DictEntry>,
    Ghost(st): Ghost<State>,
) -> (r2: Result<Step, EncodeError>)
    requires
        ready(st, *cache),
        value_valid(*v),
        v.body == Body::Dict(*entries),
        is_native(*v, st.opts),
        st.depth < MAX_DEPTH,
        !on(st.opts, OPT_SORT_KEYS),
        old(enc)@ == dict_begun(st).st,
        old(enc)@.valid(),
    ensures
        value_done(value_text(*v, place_of(st)), st, final(enc)@, r2),
    decreases *v, 1int,
{
    let ghost at = place_of(st).inside();
    let ghost mut t: Seq<u8> = Seq::empty();
    let mut i: usize = 0;
    assert(entries_of(*v) == entries@);
    assert(value_text(*v, place_of(st)) == dict_text(*v, place_of(st)));
    while i < entries.len()
        invariant
            ready(st, *cache),
            value_valid(*v),
            v.body == Body::Dict(*entries),
            entries_of(*v) == entries@,
            value_text(*v, place_of(st)) == dict_text(*v, place_of(st)),
            st.depth < MAX_DEPTH,
            !on(st.opts, OPT_SORT_KEYS),
            at == place_of(st).inside(),
            i <= entries@.len(),
            enc@.valid(),
            entries_text(*v, i as int, at) == Ok::<Seq<u8>, EncodeError>(t),
            settled(enc@) == settled(dict_state(st, i == 0, t)),
        decreases entries@.len() - i,
    {
        let ghost before = enc@;
        proof {
            settled_fields(before, dict_state(st, i == 0, t));
            parts_valid(*v);
            assert(value_valid(entries_of(*v)[i as int].value));
            if key_told(entries@[i as int].key) is Err {
                entries_err(*v, i + 1, entries@.len() as int, at);
            }
        }
        let entry: &DictEntry = &entries[i];
        let r: Result<Step, EncodeError> = enc.dict_in_order(
            &entry.key,
            kind(&entry.value),
            cache,
        );
        let ghost first = i == 0;
        match &entry.key {
            KeyRead::Utf8(_) => {},
            _ => return r,
        }
        let ghost key = key_told(entry.key)->Ok_0;
        let ghost lead = (if first {
            seq![0x7bu8]
        } else {
            Seq::empty()
        }) + before.key_text(key, first);
        let ghost inner = before.wrote(lead).with_top(FrameView::Entries { first: false });
        proof {
            top_valid(before.wrote(lead), FrameView::Entries { first: false });
            assert(before.lead(first) == at.lead(first));
            assert(place_of(inner) == at);
            assert(decreases_to!(*v => entries@[i as int].value));
        }
        let r: Result<Step, EncodeError> = follow(enc, cache, &entry.value, r, Ghost(inner));
        match r {
            Ok(_) => {},
            Err(e) => {
                proof {
                    entries_err(*v, i + 1, entries@.len() as int, at);
                }
                return Err(e);
            },
        }
        proof {
            let u = value_text(entry.value, at)->Ok_0;
            assert(inner.wrote(u).frames.last() == FrameView::Entries { first: false });
            let t2 = t + at.lead(first) + quoted(key) + at.colon() + u;
            settled_fields(enc@, inner.wrote(u));
            assert(inner.frames =~= dict_state(st, false, t2).frames);
            assert(inner.wrote(u).out =~= dict_state(st, false, t2).out);
            assert(settled(enc@) =~= settled(dict_state(st, false, t2)));
            t = t2;
        }
        i += 1;
    }
    let ghost before = enc@;
    proof {
        settled_fields(before, dict_state(st, i == 0, t));
    }
    let r: Result<Step, EncodeError> = enc.end();
    proof {
        let text = dict_text(*v, place_of(st))->Ok_0;
        let closed = if i == 0 {
            before.popped().wrote(seq![0x7bu8, 0x7d])
        } else {
            before.closed(0x7d)
        };
        assert(closed.frames =~= st.frames);
        assert(closed.out =~= st.wrote(text).out);
        assert(settled(closed) =~= settled(st.wrote(text)));
        completed_settled(closed, st.wrote(text));
    }
    r
}

/// What keeps one of the first entries in order from having a text keeps the dict
/// from it.
proof fn sorted_err(v: Value, keys: Seq<Seq<u8>>, order: Seq<usize>, i: int, n: int, at: Place)
    requires
        0 <= i <= n <= order.len(),
        forall|k: int| 0 <= k < order.len() ==> #[trigger] order[k] < entries_of(v).len(),
        sorted_text(v, keys, order, i, at) is Err,
    ensures
        sorted_text(v, keys, order, n, at) == sorted_text(v, keys, order, i, at),
    decreases n - i,
{
    if i < n {
        sorted_err(v, keys, order, i, n - 1, at);
        assert(order[n - 1] < entries_of(v).len());
    }
}

/// The state while a dict is written in the order of its keys: its first `n` entries
/// have the text `t`.
pub open spec fn sorted_state(
    st: State,
    keys: Seq<Seq<u8>>,
    order: Seq<usize>,
    n: int,
    t: Seq<u8>,
) -> State {
    State {
        out: st.out + (seq![0x7bu8] + t),
        depth: st.depth + 1,
        frames: st.frames.push(FrameView::Sorted { keys, order, next: n }),
        ..st
    }
}

/// Equal keys are read the same.
proof fn keys_told_same(a: Seq<KeyRead>, b: Seq<KeyRead>)
    requires
        a.len() == b.len(),
        forall|i: int| 0 <= i < a.len() ==> key_told(#[trigger] a[i]) == key_told(b[i]),
    ensures
        keys_told(a) == keys_told(b),
    decreases a.len(),
{
    if a.len() > 0 {
        keys_told_same(a.drop_last(), b.drop_last());
        assert(key_told(a[a.len() - 1]) == key_told(b[b.len() - 1]));
    }
}

proof fn keys_told_len(keys: Seq<KeyRead>)
    ensures
        keys_told(keys) matches Ok(ks) ==> ks.len() == keys.len(),
    decreases keys.len(),
{
    if keys.len() > 0 {
        keys_told_len(keys.drop_last());
    }
}

/// The keys of a dict.
fn copy_keys(entries: &Vec<DictEntry>) -> (r: Vec<KeyRead>)
    ensures
        keys_told(r@) == keys_told(entry_keys(entries@)),
        r@.len() == entries@.len(),
{
    let mut r: Vec<KeyRead> = Vec::new();
    let mut i: usize = 0;
    while i < entries.len()
        invariant
            i <= entries@.len(),
            r@.len() == i,
            forall|k: int| 0 <= k < i ==> key_told(#[trigger] r@[k]) == key_told(entries@[k].key),
        decreases entries@.len() - i,
    {
        let key: KeyRead = match &entries[i].key {
            KeyRead::NotStr => KeyRead::NotStr,
            KeyRead::NotUtf8 => KeyRead::NotUtf8,
            KeyRead::Utf8(k) => {
                let mut copy: Vec<u8> = Vec::new();
                copy.extend_from_slice(k.as_slice());
                assert(copy@ =~= k@);
                KeyRead::Utf8(copy)
            },
        };
        r.push(key);
        i += 1;
    }
    proof {
        keys_told_same(r@, entry_keys(entries@));
    }
    r
}

/// Writes a dict, in the order of its keys, that the encoder has begun.
#[verifier::spinoff_prover]
#[verifier::rlimit(40)]
fn follow_sorted(
    enc: &mut Encoder,
    cache: &TypeCache,
    v: &Value,
    entries: &Vec<DictEntry>,
    Ghost(st): Ghost<State>,
) -> (r2: Result<Step, EncodeError>)
    requires
        ready(st, *cache),
        value_valid(*v),
        v.body == Body::Dict(*entries),
        is_native(*v, st.opts),
        st.depth < MAX_DEPTH,
        on(st.opts, OPT_SORT_KEYS),
        old(enc)@ == dict_begun(st).st,
        old(enc)@.valid(),
    ensures
        value_done(value_text(*v, place_of(st)), st, final(enc)@, r2),
    decreases *v, 1int,
{
    let ghost at = place_of(st).inside();
    assert(entries_of(*v) == entries@);
    assert(value_text(*v, place_of(st)) == dict_text(*v, place_of(st)));
    let read: Vec<KeyRead> = copy_keys(entries);
    let ghost begun = enc@;
    let mut r: Result<Step, EncodeError> = enc.dict_sorted(&read);
    if entries.len() == 0 {
        proof {
            assert(begun.frames.drop_last() =~= st.frames);
            assert(begun.popped().wrote(seq![0x7bu8, 0x7d]) =~= st.wrote(seq![0x7bu8, 0x7d]));
        }
        return r;
    }
    let ghost told = keys_told(read@);
    if r.is_err() {
        return r;
    }
    let ghost keys = told->Ok_0;
    let ghost order = sorted_order(keys);
    let ghost mut t: Seq<u8> = Seq::empty();
    proof {
        keys_told_len(read@);
        assert(begun.frames.update(begun.frames.len() - 1, FrameView::Sorted { keys, order, next: 0 })
            =~= sorted_state(st, keys, order, 0, t).frames);
        assert(settled(begun.wrote(seq![0x7bu8]).with_top(FrameView::Sorted { keys, order, next: 0 }))
            =~= settled(sorted_state(st, keys, order, 0, t)));
        completed_settled(
            begun.wrote(seq![0x7bu8]).with_top(FrameView::Sorted { keys, order, next: 0 }),
            sorted_state(st, keys, order, 0, t),
        );
    }
    let mut i: usize = 0;
    while i < entries.len()
        invariant
            ready(st, *cache),
            value_valid(*v),
            v.body == Body::Dict(*entries),
            entries_of(*v) == entries@,
            value_text(*v, place_of(st)) == dict_text(*v, place_of(st)),
            st.depth < MAX_DEPTH,
            on(st.opts, OPT_SORT_KEYS),
            at == place_of(st).inside(),
            keys_told(entry_keys(entries@)) == Ok::<Seq<Seq<u8>>, EncodeError>(keys),
            keys.len() == entries@.len(),
            order == sorted_order(keys),
            in_order(keys, order),
            i <= entries@.len(),
            enc@.valid(),
            sorted_text(*v, keys, order, i as int, at) == Ok::<Seq<u8>, EncodeError>(t),
            settled(enc@) == settled(completed(sorted_state(st, keys, order, i as int, t)).0),
            r == Ok::<Step, EncodeError>(completed(sorted_state(st, keys, order, i as int, t)).1),
        decreases entries@.len() - i,
    {
        let ghost here = sorted_state(st, keys, order, i as int, t);
        let ghost first = i == 0;
        proof {
            assert(here.frames.last() == FrameView::Sorted { keys, order, next: i as int });
            assert(order[i as int] < keys.len());
        }
        let index: usize = match r {
            Ok(Step::Value(index)) => index,
            _ => 0,
        };
        let ghost before = enc@;
        let ghost key = keys[index as int];
        proof {
            assert(index == order[i as int]);
            settled_fields(before, completed(here).0);
            parts_valid(*v);
            assert(value_valid(entries_of(*v)[index as int].value));
            assert(decreases_to!(*v => entries@[index as int].value));
            assert(place_of(before) == at);
        }
        let value: &Value = &entries[index].value;
        let answer: Result<Step, EncodeError> = enc.serialize(kind(value), cache);
        r = follow(enc, cache, value, answer, Ghost(before));
        if r.is_err() {
            proof {
                sorted_err(*v, keys, order, i + 1, entries@.len() as int, at);
            }
            return r;
        }
        proof {
            let u = value_text(*value, at)->Ok_0;
            let t2 = t + at.lead(first) + quoted(key) + at.colon() + u;
            let next = sorted_state(st, keys, order, i + 1, t2);
            assert(here.lead(first) == at.lead(first));
            assert(before.wrote(u).out =~= next.out);
            assert(before.wrote(u).frames =~= next.frames);
            assert(settled(before.wrote(u)) =~= settled(next));
            completed_settled(before.wrote(u), next);
            t = t2;
        }
        i += 1;
    }
    proof {
        let text = dict_text(*v, place_of(st))->Ok_0;
        let here = sorted_state(st, keys, order, i as int, t);
        assert(here.frames.last() == FrameView::Sorted { keys, order, next: i as int });
        let closed = here.closed(0x7d);
        assert(closed.frames =~= st.frames);
        assert(closed.out =~= st.wrote(text).out);
        assert(settled(closed) =~= settled(st.wrote(text)));
        completed_settled(closed, st.wrote(text));
    }
    r
}

/// The bytes of a document, or why it has none: what `dumps` gives for a value that
/// is in memory.
pub fn dumps_value(v: &Value, opts: u32, has_default: bool) -> (r: Result<Vec<u8>, EncodeError>)
    requires
        value_valid(*v),
    ensures
        match document_text(*v, opts, has_default) {
            Ok(t) => r matches Ok(b) && b@ == t,
            Err(e) => r matches Err(x) && x == e,
        },
{
    let cache: TypeCache = make_cache();
    let mut enc: Encoder = Encoder::new(0, opts, has_default, Some(cache.dt));
    let ghost st = enc@;
    let r: Result<Step, EncodeError> = enc.serialize(kind(v), &cache);
    match follow(&mut enc, &cache, v, r, Ghost(st)) {
        Ok(_) => {
            proof {
                let t = value_text(*v, place_of(st))->Ok_0;
                settled_fields(enc@, st.wrote(t));
                assert(st.out + t =~= t);
            }
            Ok(enc.finish())
        },
        Err(e) => Err(e),
    }
}

/// Is `bt` the same place as `at` but for fewer results of `default` around it?
pub open spec fn fewer_results(at: Place, bt: Place) -> bool {
    bt == (Place { default_depth: bt.default_depth, ..at }) && bt.default_depth
        <= at.default_depth
}

/// A value that is written inside results of `default` is written the same outside of
/// them: what `default` returns for an object stands in the document as if it had
/// stood there in its place.
pub proof fn results_stand_in_place(v: Value, at: Place, bt: Place)
    requires
        fewer_results(at, bt),
    ensures
        value_text(v, at) is Ok ==> value_text(v, bt) == value_text(v, at),
    decreases v, 2int, 0int,
{
    if v.reply@.len() > 0 {
        results_stand_in_place(v.reply@[0], at.replaced(), bt.replaced());
    }
    match v.body {
        Body::List(_) | Body::Tuple(_) => {
            items_in_place(v, items_of(v).len() as int, at.inside(), bt.inside());
        },
        Body::Dict(_) => {
            let n = entries_of(v).len() as int;
            entries_in_place(v, n, at.inside(), bt.inside());
            if let Ok(keys) = keys_told(entry_keys(entries_of(v))) {
                sorted_in_place(v, keys, sorted_order(keys), n, at.inside(), bt.inside());
            }
        },
        _ => {},
    }
}

proof fn items_in_place(v: Value, n: int, at: Place, bt: Place)
    requires
        fewer_results(at, bt),
    ensures
        items_text(v, n, at) is Ok ==> items_text(v, n, bt) == items_text(v, n, at),
    decreases v, 0int, n,
{
    if 0 < n <= items_of(v).len() {
        items_in_place(v, n - 1, at, bt);
        results_stand_in_place(items_of(v)[n - 1], at, bt);
    }
}

proof fn entries_in_place(v: Value, n: int, at: Place, bt: Place)
    requires
        fewer_results(at, bt),
    ensures
        entries_text(v, n, at) is Ok ==> entries_text(v, n, bt) == entries_text(v, n, at),
    decreases v, 0int, n,
{
    if 0 < n <= entries_of(v).len() {
        entries_in_place(v, n - 1, at, bt);
        results_stand_in_place(entries_of(v)[n - 1].value, at, bt);
    }
}

proof fn sorted_in_place(
    v: Value,
    keys: Seq<Seq<u8>>,
    order: Seq<usize>,
    n: int,
    at: Place,
    bt: Place,
)
    requires
        fewer_results(at, bt),
    ensures
        sorted_text(v, keys, order, n, at) is Ok ==> sorted_text(v, keys, order, n, bt)
            == sorted_text(v, keys, order, n, at),
    decreases v, 0int, n,
{
    if 0 < n <= order.len() && order[n - 1] < entries_of(v).len() {
        sorted_in_place(v, keys, order, n - 1, at, bt);
        results_stand_in_place(entries_of(v)[order[n - 1] as int].value, at, bt);
    }
}

/// A numpy object that is declined is written as what `default` returns for it, whole,
/// as if that had stood in its place.
pub proof fn declined_is_replaced(v: Value, at: Place)
    requires
        v.body is Array || v.body is Scalar,
        on(at.opts, OPT_SERIALIZE_NUMPY),
        numpy_told(v, at) is Declined,
        at.has_default,
        at.default_depth < MAX_DEFAULT_DEPTH,
        v.reply@.len() > 0,
        value_text(v.reply@[0], at.replaced()) is Ok,
    ensures
        value_text(v, at) == value_text(v.reply@[0], at),
{
    results_stand_in_place(v.reply@[0], at.replaced(), at);
}

/// A value has the same text, or the same reason for having none, under options that
/// agree on the form of texts.
pub proof fn value_text_form(v: Value, at: Place, opts: u32)
    requires
        same_form(at.opts, opts),
    ensures
        value_text(v, at) == value_text(v, Place { opts, ..at }),
    decreases v, 2int, 0int,
{
    let bt = Place { opts, ..at };
    if v.reply@.len() > 0 {
        value_text_form(v.reply@[0], at.replaced(), opts);
        assert(bt.replaced() == Place { opts, ..at.replaced() });
    }
    assert(bt.inside() == Place { opts, ..at.inside() });
    match v.body {
        Body::List(_) | Body::Tuple(_) => {
            items_text_form(v, items_of(v).len() as int, at.inside(), opts);
        },
        Body::Dict(_) => {
            let n = entries_of(v).len() as int;
            entries_text_form(v, n, at.inside(), opts);
            if let Ok(keys) = keys_told(entry_keys(entries_of(v))) {
                sorted_text_form(v, keys, sorted_order(keys), n, at.inside(), opts);
            }
        },
        Body::Time { .. } => {
            time_opts_flags(at.opts);
            time_opts_flags(opts);
        },
        Body::Array { info, dtype, digits } => {
            array_form(info, dtype@, digits@, at.opts, opts, at.depth as u32);
        },
        _ => {},
    }
}

proof fn array_form(
    a: ArrayInfo,
    dtype: Seq<u8>,
    digits: Seq<Vec<u8>>,
    opts: u32,
    opts2: u32,
    depth: u32,
)
    requires
        same_form(opts, opts2),
    ensures
        array_told(a, dtype, digits, opts, depth) == array_told(a, dtype, digits, opts2, depth),
{
    if let Ok(elem) = classified(a.flags, a.nd as int, a.typekind, a.itemsize as int) {
        dim_text_form(plan(a, elem, None, digits, opts, depth), opts2, 0, 0);
        if let Some(u) = dt64_unit_of(dtype) {
            dim_text_form(plan(a, elem, Some(u), digits, opts, depth), opts2, 0, 0);
        }
    }
}

proof fn items_text_form(v: Value, n: int, at: Place, opts: u32)
    requires
        same_form(at.opts, opts),
    ensures
        items_text(v, n, at) == items_text(v, n, Place { opts, ..at }),
    decreases v, 0int, n,
{
    if 0 < n <= items_of(v).len() {
        items_text_form(v, n - 1, at, opts);
        value_text_form(items_of(v)[n - 1], at, opts);
    }
}

proof fn entries_text_form(v: Value, n: int, at: Place, opts: u32)
    requires
        same_form(at.opts, opts),
    ensures
        entries_text(v, n, at) == entries_text(v, n, Place { opts, ..at }),
    decreases v, 0int, n,
{
    if 0 < n <= entries_of(v).len() {
        entries_text_form(v, n - 1, at, opts);
        value_text_form(entries_of(v)[n - 1].value, at, opts);
    }
}

proof fn sorted_text_form(
    v: Value,
    keys: Seq<Seq<u8>>,
    order: Seq<usize>,
    n: int,
    at: Place,
    opts: u32,
)
    requires
        same_form(at.opts, opts),
    ensures
        sorted_text(v, keys, order, n, at) == sorted_text(
            v,
            keys,
            order,
            n,
            Place { opts, ..at },
        ),
    decreases v, 0int, n,
{
    if 0 < n <= order.len() && order[n - 1] < entries_of(v).len() {
        sorted_text_form(v, keys, order, n - 1, at, opts);
        value_text_form(entries_of(v)[order[n - 1] as int].value, at, opts);
    }
}

/// Asking for a line break at the end adds that line break and changes nothing else;
/// asking for dataclasses to be passed through changes nothing.
pub proof fn newline_and_dataclass_options(v: Value, opts: u32, has_default: bool)
    requires
        !on(opts, OPT_APPEND_NEWLINE),
    ensures
        document_text(v, opts | OPT_APPEND_NEWLINE, has_default) == match document_text(
            v,
            opts,
            has_default,
        ) {
            Ok(t) => Ok::<Seq<u8>, EncodeError>(t + seq![0x0au8]),
            Err(e) => Err(e),
        },
        document_text(v, opts | OPT_PASSTHROUGH_DATACLASS, has_default) == document_text(
            v,
            opts,
            has_default,
        ),
{
    form_kept(opts);
    let at = Place { opts, has_default, depth: 0, default_depth: 0 };
    let newline = opts | OPT_APPEND_NEWLINE;
    let dataclass = opts | OPT_PASSTHROUGH_DATACLASS;
    value_text_form(v, Place { opts: newline, ..at }, opts);
    value_text_form(v, Place { opts: dataclass, ..at }, opts);
    if let Ok(t) = value_text(v, at) {
        assert(t + Seq::empty() =~= t);
    }
}

} // verus!

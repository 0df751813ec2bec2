//! The encoder: decides, object by object, what is written and what has to be read
//! from Python next.
//!
//! The caller tells the encoder the kind of the object to write; the encoder
//! answers with the next `Step`, the caller takes it and hands over what it read.
//! Containers, and what `default` returned, are kept on a stack of frames until
//! they are complete.
use crate::datetime::{
    datetime_text, hms_text, offset_in_day, write_datetime, write_hms, write_offset, write_ymd,
    ymd_text, zone_text, Parts,
};
use crate::decline::{
    elem_layout, message_text, note_text, reason_message, reason_note, Elem, Reason, Why,
};
use crate::escape::{quoted, write_escaped};
use crate::float::{f64_text, write_f64};
use crate::indent::{newline_indent, newline_text};
use crate::literal::{bool_text, null_text, write_bool, write_null};
use crate::messages::{not_serializable, not_serializable_text, plain_error, plain_message};
use crate::number::{int_text, write_int};
use crate::numpy::{
    array_told, count, floats_matter, scalar_told, serialize_array, serialize_scalar, ArrayInfo,
    Outcome, Told,
};
use crate::opts::{
    on, OPT_APPEND_NEWLINE, OPT_INDENT_2, OPT_NAIVE_UTC, OPT_OMIT_MICROSECONDS,
    OPT_PASSTHROUGH_DATETIME, OPT_PASSTHROUGH_SUBCLASS, OPT_SERIALIZE_NUMPY, OPT_SORT_KEYS,
    OPT_STRICT_INTEGER, OPT_UTC_Z,
};
use crate::out::{initial_cap, Out};
use crate::sort::{in_order, key_bytes, sort_keys, sorted_order};
use crate::types::{scalar_elem, scalar_type, DtTypes, NumpyTypes, TypeCache};
use vstd::prelude::*;

verus! {

/// Containers nest this deep at most.
pub const MAX_DEPTH: u32 = 254;

/// Calls of `default` chain this long at most.
pub const MAX_DEFAULT_DEPTH: u32 = 255;

/// What is known of an object before any of its contents is read.
#[derive(Clone, Copy, Debug, PartialEq, Eq, Structural)]
pub enum Kind {
    Str,
    Int,
    Float,
    Bool(bool),
    Null,
    Dict,
    List,
    Tuple,
    /// Not of a builtin type itself.
    Other(OtherType),
}

/// The type of an object, by its address, and the builtin types that it derives
/// from.
#[derive(Clone, Copy, Debug, PartialEq, Eq, Structural)]
pub struct OtherType {
    pub ty: usize,
    pub is_str: bool,
    pub is_int: bool,
    pub is_dict: bool,
    pub is_list: bool,
}

/// What the caller does next.
#[derive(Clone, Copy, Debug, PartialEq, Eq, Structural)]
pub enum Step {
    /// Read the text of the object.
    ReadStr,
    /// Read the number.
    ReadInt,
    /// Read the float.
    ReadFloat,
    /// Read the fields of the `datetime` and ask for its offset.
    ReadDatetime,
    /// Read the fields of the `date`.
    ReadDate,
    /// Read the fields of the `time` and ask for its offset.
    ReadTime,
    /// Look the datetime group up.
    LookUpDatetime,
    /// Look the numpy group up.
    LookUpNumpy,
    /// Read the array interface.
    ReadArray,
    /// Read the value of the numpy scalar.
    ReadScalar(Elem),
    /// Call `default` on the object.
    CallDefault,
    /// Take the next item of the innermost list or tuple.
    Item,
    /// Take the next entry of the innermost dict.
    Entry,
    /// Take all keys of the innermost dict.
    AllKeys,
    /// Take the value of the entry with this index of the innermost dict.
    Value(usize),
    /// The document is complete.
    Finished,
}

/// Why nothing is written.
#[derive(Clone, Copy, Debug, PartialEq, Eq, Structural)]
pub enum EncodeError {
    /// Containers nest too deep.
    Recursion,
    /// A string holds surrogates.
    StrNotUtf8,
    /// A dict key is not a string.
    KeyNotStr,
    /// An integer is outside the 53-bit range that was asked for.
    Int53,
    /// An integer is outside the 64-bit range.
    Int64,
    /// Nothing writes the object, and there is no `default`.
    NotSerializable,
    /// Calls of `default` chain too long.
    DefaultDepth,
    /// `default` raised.
    DefaultRaised,
    /// A numpy object is declined, and there is no `default`.
    Declined,
    /// The array interface is not one.
    Malformed,
    /// Python raised.
    Raised,
}

/// What was read of an integer.
#[derive(Clone, Copy, Debug, PartialEq, Eq, Structural)]
pub enum IntRead {
    /// Reading it raised.
    Raised,
    Fits(i64),
    /// Above the range of `i64`: its value, if it fits `u64`.
    Above(Option<u64>),
    /// Below the range of `i64`.
    Below,
}

/// What was read of a dict key.
pub enum KeyRead {
    NotStr,
    /// A string that holds surrogates.
    NotUtf8,
    Utf8(Vec<u8>),
}

/// Something that is written in parts.
pub enum Frame {
    /// A list or a tuple; `first` until an item was written.
    Items { first: bool },
    /// A dict in its own order; `first` until an entry was written.
    Entries { first: bool },
    /// A dict with sorted keys: the order of its entries, and how many were begun.
    Sorted { keys: Vec<Vec<u8>>, order: Vec<usize>, next: usize },
    /// What `default` returned.
    Default,
}

/// A `Frame` by its contents.
pub enum FrameView {
    Items { first: bool },
    Entries { first: bool },
    Sorted { keys: Seq<Seq<u8>>, order: Seq<usize>, next: int },
    Default,
}

impl View for Frame {
    type V = FrameView;

    open spec fn view(&self) -> FrameView {
        match *self {
            Frame::Items { first } => FrameView::Items { first },
            Frame::Entries { first } => FrameView::Entries { first },
            Frame::Sorted { keys, order, next } => FrameView::Sorted {
                keys: key_bytes(keys@),
                order: order@,
                next: next as int,
            },
            Frame::Default => FrameView::Default,
        }
    }
}

/// Writes one document.
pub struct Encoder {
    out: Out,
    opts: u32,
    has_default: bool,
    /// Python code can run while the document is written.
    guard: bool,
    depth: u32,
    default_depth: u32,
    dt: Option<DtTypes>,
    np_rechecked: bool,
    declined: Option<Reason>,
    frames: Vec<Frame>,
}

/// The state of an encoder.
#[verifier::ext_equal]
pub struct State {
    pub out: Seq<u8>,
    pub opts: u32,
    pub has_default: bool,
    pub guard: bool,
    pub depth: int,
    pub default_depth: int,
    pub dt: Option<DtTypes>,
    pub np_rechecked: bool,
    pub declined: Option<Why>,
    pub frames: Seq<FrameView>,
}

/// Frames by their contents.
pub open spec fn frame_views(frames: Seq<Frame>) -> Seq<FrameView> {
    Seq::new(frames.len(), |i: int| frames[i]@)
}

impl View for Encoder {
    type V = State;

    closed spec fn view(&self) -> State {
        State {
            out: self.out@,
            opts: self.opts,
            has_default: self.has_default,
            guard: self.guard,
            depth: self.depth as int,
            default_depth: self.default_depth as int,
            dt: self.dt,
            np_rechecked: self.np_rechecked,
            declined: match self.declined {
                Some(r) => Some(r@),
                None => None,
            },
            frames: frame_views(self.frames@),
        }
    }
}

/// How many of the frames are containers.
pub open spec fn containers(frames: Seq<FrameView>) -> int
    decreases frames.len(),
{
    if frames.len() == 0 {
        0
    } else {
        containers(frames.drop_last()) + if frames.last() is Default {
            0int
        } else {
            1int
        }
    }
}

/// How many of the frames are results of `default`.
pub open spec fn defaults(frames: Seq<FrameView>) -> int
    decreases frames.len(),
{
    if frames.len() == 0 {
        0
    } else {
        defaults(frames.drop_last()) + if frames.last() is Default {
            1int
        } else {
            0int
        }
    }
}

pub open spec fn frame_valid(f: FrameView) -> bool {
    f matches FrameView::Sorted { keys, order, next } ==> {
        &&& 0 <= next <= order.len()
        &&& order.len() == keys.len()
        &&& forall|i: int| 0 <= i < order.len() ==> #[trigger] order[i] < keys.len()
    }
}

impl State {
    /// The depths count the frames and keep to their limits.
    pub open spec fn valid(self) -> bool {
        &&& self.depth == containers(self.frames)
        &&& self.default_depth == defaults(self.frames)
        &&& 0 <= self.depth <= MAX_DEPTH
        &&& 0 <= self.default_depth <= MAX_DEFAULT_DEPTH
        &&& forall|i: int| 0 <= i < self.frames.len() ==> frame_valid(#[trigger] self.frames[i])
    }

    pub open spec fn wrote(self, t: Seq<u8>) -> State {
        State { out: self.out + t, ..self }
    }

    pub open spec fn indents(self) -> bool {
        on(self.opts, OPT_INDENT_2)
    }

    /// The line break at `level`, in the indented form.
    pub open spec fn line(self, level: int) -> Seq<u8> {
        if self.indents() {
            newline_text(level as nat)
        } else {
            Seq::empty()
        }
    }

    /// What stands in front of an item or a key of a container at `level`.
    pub open spec fn lead_at(self, level: int, first: bool) -> Seq<u8> {
        (if first {
            Seq::empty()
        } else {
            seq![0x2cu8]
        }) + self.line(level)
    }

    /// What stands in front of an item of the innermost container.
    pub open spec fn lead(self, first: bool) -> Seq<u8> {
        self.lead_at(self.depth, first)
    }

    /// A key of a container at `level`, up to its value.
    pub open spec fn key_at(self, level: int, key: Seq<u8>, first: bool) -> Seq<u8> {
        self.lead_at(level, first) + quoted(key) + if self.indents() {
            seq![0x3au8, 0x20]
        } else {
            seq![0x3au8]
        }
    }

    /// A key of the innermost container, up to its value.
    pub open spec fn key_text(self, key: Seq<u8>, first: bool) -> Seq<u8> {
        self.key_at(self.depth, key, first)
    }

    /// The innermost frame is done.
    pub open spec fn popped(self) -> State {
        if self.frames.last() is Default {
            State {
                frames: self.frames.drop_last(),
                default_depth: self.default_depth - 1,
                ..self
            }
        } else {
            State { frames: self.frames.drop_last(), depth: self.depth - 1, ..self }
        }
    }

    /// The innermost container is closed by `bracket`.
    pub open spec fn closed(self, bracket: u8) -> State {
        self.popped().wrote(self.line(self.depth - 1) + seq![bracket])
    }

    pub open spec fn with_top(self, f: FrameView) -> State {
        State { frames: self.frames.update(self.frames.len() - 1, f), ..self }
    }
}

/// A value has been written: what is complete with it is closed, and the next step
/// is that of the innermost frame that is not.
pub open spec fn completed(st: State) -> (State, Step)
    decreases st.frames.len(),
{
    if st.frames.len() == 0 {
        (st, Step::Finished)
    } else {
        match st.frames.last() {
            FrameView::Items { .. } => (st, Step::Item),
            FrameView::Entries { .. } => (st, Step::Entry),
            FrameView::Default => completed(st.popped()),
            FrameView::Sorted { keys, order, next } => if next < order.len() {
                (
                    st.wrote(st.key_text(keys[order[next] as int], next == 0)).with_top(
                        FrameView::Sorted { keys, order, next: next + 1 },
                    ),
                    Step::Value(order[next]),
                )
            } else {
                completed(st.closed(0x7d))
            },
        }
    }
}

/// The state after a step, and what comes next or why nothing does.
pub struct Answer {
    pub st: State,
    pub r: Result<Step, EncodeError>,
}

pub open spec fn ok(st: State, step: Step) -> Answer {
    Answer { st, r: Ok(step) }
}

pub open spec fn fail(st: State, e: EncodeError) -> Answer {
    Answer { st, r: Err(e) }
}

/// A value with the text `t` is written.
pub open spec fn written(st: State, t: Seq<u8>) -> Answer {
    let (st2, step) = completed(st.wrote(t));
    ok(st2, step)
}

/// A list or a tuple is begun.
pub open spec fn list_begun(st: State) -> Answer {
    if st.depth >= MAX_DEPTH {
        fail(st, EncodeError::Recursion)
    } else {
        ok(
            State {
                depth: st.depth + 1,
                frames: st.frames.push(FrameView::Items { first: true }),
                ..st
            },
            Step::Item,
        )
    }
}

/// A dict is begun.
pub open spec fn dict_begun(st: State) -> Answer {
    if st.depth >= MAX_DEPTH {
        fail(st, EncodeError::Recursion)
    } else if on(st.opts, OPT_SORT_KEYS) {
        ok(
            State {
                depth: st.depth + 1,
                frames: st.frames.push(
                    FrameView::Sorted { keys: Seq::empty(), order: Seq::empty(), next: 0 },
                ),
                ..st
            },
            Step::AllKeys,
        )
    } else {
        ok(
            State {
                depth: st.depth + 1,
                frames: st.frames.push(FrameView::Entries { first: true }),
                ..st
            },
            Step::Entry,
        )
    }
}

/// The object goes to `default`, because of `why` if it was declined.
pub open spec fn to_default(st: State, why: Option<Why>) -> Answer {
    let st = State { declined: why, ..st };
    if !st.has_default {
        fail(
            st,
            if why is Some {
                EncodeError::Declined
            } else {
                EncodeError::NotSerializable
            },
        )
    } else if st.default_depth >= MAX_DEFAULT_DEPTH {
        fail(st, EncodeError::DefaultDepth)
    } else {
        ok(st, Step::CallDefault)
    }
}

/// How an object of a datetime type is read, unless such objects go to `default`.
pub open spec fn datetime_step(opts: u32, dt: DtTypes, ty: usize) -> Option<Step> {
    if on(opts, OPT_PASSTHROUGH_DATETIME) {
        None
    } else if ty == dt.datetime {
        Some(Step::ReadDatetime)
    } else if ty == dt.date {
        Some(Step::ReadDate)
    } else if ty == dt.time {
        Some(Step::ReadTime)
    } else {
        None
    }
}

/// How an object is read whose type is in the numpy group.
pub open spec fn numpy_typed(st: State, np: NumpyTypes, ty: usize) -> Answer {
    if ty == np.ndarray {
        ok(st, Step::ReadArray)
    } else {
        match scalar_type(np, ty) {
            Some(elem) => ok(st, Step::ReadScalar(elem)),
            None => to_default(st, None),
        }
    }
}

/// How an object is written that is no builtin and no datetime.
pub open spec fn numpy_or_default(st: State, o: OtherType, cache: TypeCache) -> Answer {
    if on(st.opts, OPT_SERIALIZE_NUMPY) {
        match cache.numpy_hit_spec(o.ty) {
            Some(np) => numpy_typed(st, np, o.ty),
            None => if st.np_rechecked {
                to_default(st, None)
            } else {
                ok(State { np_rechecked: true, ..st }, Step::LookUpNumpy)
            },
        }
    } else {
        to_default(st, None)
    }
}

/// How an object is written that is not of a builtin type itself: a datetime, an
/// instance of a subclass, a numpy object, or what is left for `default`.
pub open spec fn other(st: State, o: OtherType, cache: TypeCache) -> Answer {
    let dt_step = match st.dt {
        Some(dt) => datetime_step(st.opts, dt, o.ty),
        None => None,
    };
    if dt_step is Some {
        ok(st, dt_step->Some_0)
    } else if !on(st.opts, OPT_PASSTHROUGH_SUBCLASS) && o.is_str {
        ok(st, Step::ReadStr)
    } else if !on(st.opts, OPT_PASSTHROUGH_SUBCLASS) && o.is_int {
        ok(st, Step::ReadInt)
    } else if !on(st.opts, OPT_PASSTHROUGH_SUBCLASS) && o.is_dict {
        dict_begun(st)
    } else if !on(st.opts, OPT_PASSTHROUGH_SUBCLASS) && o.is_list {
        list_begun(st)
    } else if st.dt is None && st.guard && !on(st.opts, OPT_PASSTHROUGH_DATETIME) {
        ok(st, Step::LookUpDatetime)
    } else {
        numpy_or_default(st, o, cache)
    }
}

/// How an object of this kind is written.
pub open spec fn object(st: State, kind: Kind, cache: TypeCache) -> Answer {
    match kind {
        Kind::Str => ok(st, Step::ReadStr),
        Kind::Int => ok(st, Step::ReadInt),
        Kind::Float => ok(st, Step::ReadFloat),
        Kind::Bool(b) => written(st, bool_text(b)),
        Kind::Null => written(st, null_text()),
        Kind::Dict => dict_begun(st),
        Kind::List => list_begun(st),
        Kind::Tuple => list_begun(st),
        Kind::Other(o) => other(st, o, cache),
    }
}

/// How an object is written after the datetime group was looked up.
pub open spec fn other_again(
    st: State,
    o: OtherType,
    found: Option<DtTypes>,
    cache: TypeCache,
) -> Answer {
    let st = State { dt: found, ..st };
    let dt_step = match found {
        Some(dt) => datetime_step(st.opts, dt, o.ty),
        None => None,
    };
    if dt_step is Some {
        ok(st, dt_step->Some_0)
    } else {
        numpy_or_default(st, o, cache)
    }
}

/// The text of an integer, or why it has none.
pub open spec fn int_told(v: IntRead, opts: u32) -> Result<Seq<u8>, EncodeError> {
    let strict = on(opts, OPT_STRICT_INTEGER);
    match v {
        IntRead::Raised => Err(EncodeError::Raised),
        IntRead::Fits(v) => if strict && !(-9007199254740991 <= v <= 9007199254740991) {
            Err(EncodeError::Int53)
        } else {
            Ok(int_text(v as int))
        },
        IntRead::Above(Some(v)) => if strict {
            Err(EncodeError::Int53)
        } else {
            Ok(int_text(v as int))
        },
        _ => Err(
            if strict {
                EncodeError::Int53
            } else {
                EncodeError::Int64
            },
        ),
    }
}

/// A value with this text is written, or the reason for having none is given.
pub open spec fn written_or(st: State, t: Result<Seq<u8>, EncodeError>) -> Answer {
    match t {
        Ok(t) => written(st, t),
        Err(e) => fail(st, e),
    }
}

/// The next item of the innermost list is begun.
pub open spec fn item_begun(st: State, kind: Kind, cache: TypeCache) -> Answer {
    let first = st.frames.last()->Items_first;
    object(
        st.wrote(
            (if first {
                seq![0x5bu8]
            } else {
                Seq::empty()
            }) + st.lead(first),
        ).with_top(FrameView::Items { first: false }),
        kind,
        cache,
    )
}

/// The bytes of a key, or why it is none.
pub open spec fn key_told(key: KeyRead) -> Result<Seq<u8>, EncodeError> {
    match key {
        KeyRead::NotStr => Err(EncodeError::KeyNotStr),
        KeyRead::NotUtf8 => Err(EncodeError::StrNotUtf8),
        KeyRead::Utf8(k) => Ok(k@),
    }
}

/// The next entry of the innermost dict is begun.
pub open spec fn entry_begun(st: State, key: KeyRead, kind: Kind, cache: TypeCache) -> Answer {
    let first = st.frames.last()->Entries_first;
    match key_told(key) {
        Err(e) => fail(st, e),
        Ok(k) => object(
            st.wrote(
                (if first {
                    seq![0x7bu8]
                } else {
                    Seq::empty()
                }) + st.key_text(k, first),
            ).with_top(FrameView::Entries { first: false }),
            kind,
            cache,
        ),
    }
}

/// The innermost list or dict has no more items.
pub open spec fn ended(st: State) -> Answer {
    let st2 = match st.frames.last() {
        FrameView::Items { first } => if first {
            st.popped().wrote(seq![0x5bu8, 0x5d])
        } else {
            st.closed(0x5d)
        },
        FrameView::Entries { first } => if first {
            st.popped().wrote(seq![0x7bu8, 0x7d])
        } else {
            st.closed(0x7d)
        },
        _ => st,
    };
    let (st3, step) = completed(st2);
    ok(st3, step)
}

/// The keys of a dict by their bytes, or what is wrong with the first that has none.
pub open spec fn keys_told(keys: Seq<KeyRead>) -> Result<Seq<Seq<u8>>, EncodeError>
    decreases keys.len(),
{
    if keys.len() == 0 {
        Ok(Seq::empty())
    } else {
        match keys_told(keys.drop_last()) {
            Err(e) => Err(e),
            Ok(ks) => match key_told(keys.last()) {
                Err(e) => Err(e),
                Ok(k) => Ok(ks.push(k)),
            },
        }
    }
}

/// The entries of the innermost dict are put in order, and the first is begun.
pub open spec fn keys_sorted(st: State, keys: Seq<KeyRead>) -> Answer {
    match keys_told(keys) {
        Err(e) => fail(st, e),
        Ok(ks) => {
            let st2 = if ks.len() == 0 {
                st.popped().wrote(seq![0x7bu8, 0x7d])
            } else {
                st.wrote(seq![0x7bu8]).with_top(
                    FrameView::Sorted { keys: ks, order: sorted_order(ks), next: 0 },
                )
            };
            let (st3, step) = completed(st2);
            ok(st3, step)
        },
    }
}

/// What `default` returned is begun.
pub open spec fn result_begun(st: State, kind: Kind, cache: TypeCache) -> Answer {
    object(
        State {
            default_depth: st.default_depth + 1,
            frames: st.frames.push(FrameView::Default),
            ..st
        },
        kind,
        cache,
    )
}

/// A numpy object is written, or declined and handed to `default`.
pub open spec fn numpy_written(st: State, told: Told) -> Answer {
    match told {
        Told::Text(t) => written(st, t),
        Told::Declined(why) => to_default(st, Some(why)),
        Told::Malformed => fail(st, EncodeError::Malformed),
    }
}

/// The options that count for a `time`.
pub open spec fn time_opts(opts: u32) -> u32 {
    opts & !(OPT_NAIVE_UTC | OPT_UTC_Z)
}

/// A quoted `HH:MM:SS[.ffffff][offset]`.
pub open spec fn time_text(h: u8, mi: u8, s: u8, us: u32, offset: Option<i64>, opts: u32) -> Seq<
    u8,
> {
    seq![0x22u8] + hms_text(h as nat, mi as nat, s as nat, us as nat, time_opts(opts)) + zone_text(
        offset,
        time_opts(opts),
    ) + seq![0x22u8]
}

/// A quoted `YYYY-MM-DD`.
pub open spec fn date_text(y: u16, mo: u8, d: u8) -> Seq<u8> {
    seq![0x22u8] + ymd_text(y as nat, mo as nat, d as nat) + seq![0x22u8]
}

/// The offset that is written for a `datetime`: a naive one is taken for UTC where
/// that is asked for.
pub open spec fn shown_offset(offset: Option<i64>, opts: u32) -> Option<i64> {
    if offset is None && on(opts, OPT_NAIVE_UTC) {
        Some(0)
    } else {
        offset
    }
}

/// Pushing a frame pushes its contents.
proof fn frame_views_push(frames: Seq<Frame>, f: Frame)
    ensures
        frame_views(frames.push(f)) == frame_views(frames).push(f@),
        frame_views(frames.push(f)).drop_last() == frame_views(frames),
        frames.len() > 0 ==> frame_views(frames.drop_last()) == frame_views(frames).drop_last(),
{
    assert(frame_views(frames.push(f)) =~= frame_views(frames).push(f@));
    assert(frame_views(frames.push(f)).drop_last() =~= frame_views(frames));
    if frames.len() > 0 {
        assert(frame_views(frames.drop_last()) =~= frame_views(frames).drop_last());
    }
}

/// A valid state stays valid when a valid frame is pushed and counted.
pub proof fn push_valid(st: State, st2: State, f: FrameView)
    requires
        st.valid(),
        frame_valid(f),
        st2.frames == st.frames.push(f),
        f is Default ==> st2.default_depth == st.default_depth + 1 <= MAX_DEFAULT_DEPTH && st2.depth
            == st.depth,
        !(f is Default) ==> st2.depth == st.depth + 1 <= MAX_DEPTH && st2.default_depth
            == st.default_depth,
    ensures
        st2.valid(),
{
    assert(st2.frames.drop_last() =~= st.frames);
}

/// A valid state stays valid when its innermost frame is done.
pub proof fn pop_valid(st: State)
    requires
        st.valid(),
        st.frames.len() > 0,
    ensures
        st.popped().valid(),
{
    containers_nonneg(st.frames.drop_last());
    assert forall|i: int| 0 <= i < st.popped().frames.len() implies frame_valid(
        #[trigger] st.popped().frames[i],
    ) by {
        assert(frame_valid(st.frames[i]));
    }
}

proof fn containers_nonneg(frames: Seq<FrameView>)
    ensures
        containers(frames) >= 0,
        defaults(frames) >= 0,
    decreases frames.len(),
{
    if frames.len() > 0 {
        containers_nonneg(frames.drop_last());
    }
}

/// A valid state stays valid when its innermost frame is exchanged for a valid one
/// of the same sort.
pub proof fn top_valid(st: State, f: FrameView)
    requires
        st.valid(),
        st.frames.len() > 0,
        frame_valid(f),
        f is Default <==> st.frames.last() is Default,
    ensures
        st.with_top(f).valid(),
{
    let st2 = st.with_top(f);
    assert(st2.frames.drop_last() =~= st.frames.drop_last());
    assert forall|i: int| 0 <= i < st2.frames.len() implies frame_valid(#[trigger] st2.frames[i]) by {
        if i < st.frames.len() - 1 {
            assert(frame_valid(st.frames[i]));
        }
    }
}

impl Encoder {
    /// An encoder that has written nothing. `hint` is the size of the output that is
    /// expected, `has_default` whether there is a `default`, and `dt` the datetime
    /// group, if it is loaded.
    pub fn new(hint: usize, opts: u32, has_default: bool, dt: Option<DtTypes>) -> (r: Encoder)
        requires
            initial_cap(hint as int) <= usize::MAX,
        ensures
            r@.valid(),
            r@ == (State {
                out: Seq::empty(),
                opts,
                has_default,
                guard: has_default || on(opts, OPT_SERIALIZE_NUMPY) || dt is Some,
                depth: 0,
                default_depth: 0,
                dt,
                np_rechecked: false,
                declined: None,
                frames: Seq::empty(),
            }),
    {
        let guard: bool = has_default || opts & OPT_SERIALIZE_NUMPY != 0 || dt.is_some();
        let frames: Vec<Frame> = Vec::new();
        assert(frame_views(frames@) =~= Seq::empty());
        Encoder {
            out: Out::new(hint),
            opts,
            has_default,
            guard,
            depth: 0,
            default_depth: 0,
            dt,
            np_rechecked: false,
            declined: None,
            frames,
        }
    }

    /// How many containers and results of `default` are being written.
    pub fn open_frames(&self) -> (n: usize)
        ensures
            n == self@.frames.len(),
    {
        self.frames.len()
    }

    fn indent(&self) -> (r: bool)
        ensures
            r == self@.indents(),
    {
        self.opts & OPT_INDENT_2 != 0
    }

    /// Writes the line break at `level`, in the indented form.
    fn line(&mut self, level: u32)
        ensures
            final(self)@ == old(self)@.wrote(old(self)@.line(level as int)),
    {
        if self.indent() {
            newline_indent(&mut self.out, level);
        }
        assert(self@ =~= old(self)@.wrote(old(self)@.line(level as int)));
    }

    /// Writes what stands in front of an item or a key of a container at `level`.
    fn write_lead(&mut self, level: u32, first: bool)
        ensures
            final(self)@ == old(self)@.wrote(old(self)@.lead_at(level as int, first)),
    {
        if !first {
            self.out.push(0x2c);
        }
        self.line(level);
        assert(self@ =~= old(self)@.wrote(old(self)@.lead_at(level as int, first)));
    }

    /// Writes a key of a container at `level`, up to its value.
    fn write_key(&mut self, level: u32, key: &[u8], first: bool)
        ensures
            final(self)@ == old(self)@.wrote(old(self)@.key_at(level as int, key@, first)),
    {
        self.write_lead(level, first);
        write_escaped(&mut self.out, key);
        self.out.push(0x3a);
        if self.indent() {
            self.out.push(0x20);
        }
        assert(self@ =~= old(self)@.wrote(old(self)@.key_at(level as int, key@, first)));
    }

    /// Takes the innermost frame off.
    fn pop(&mut self) -> (f: Frame)
        requires
            old(self)@.valid(),
            old(self)@.frames.len() > 0,
        ensures
            f@ == old(self)@.frames.last(),
            final(self)@ == old(self)@.popped(),
            final(self)@.valid(),
    {
        proof {
            pop_valid(self@);
            frame_views_push(self.frames@, Frame::Default);
            containers_nonneg(self@.frames.drop_last());
            assert(frame_views(self.frames@)[self.frames@.len() - 1] == self.frames@.last()@);
        }
        let f: Frame = match self.frames.pop() {
            Some(f) => f,
            None => Frame::Default,
        };
        match &f {
            Frame::Default => self.default_depth = self.default_depth - 1,
            _ => self.depth = self.depth - 1,
        }
        assert(self@ =~= old(self)@.popped());
        f
    }

    /// Puts a frame on.
    fn push(&mut self, f: Frame)
        requires
            old(self)@.valid(),
            frame_valid(f@),
            f is Default ==> old(self)@.default_depth < MAX_DEFAULT_DEPTH,
            !(f is Default) ==> old(self)@.depth < MAX_DEPTH,
        ensures
            final(self)@.valid(),
            f is Default ==> final(self)@ == (State {
                default_depth: old(self)@.default_depth + 1,
                frames: old(self)@.frames.push(f@),
                ..old(self)@
            }),
            !(f is Default) ==> final(self)@ == (State {
                depth: old(self)@.depth + 1,
                frames: old(self)@.frames.push(f@),
                ..old(self)@
            }),
    {
        match &f {
            Frame::Default => self.default_depth = self.default_depth + 1,
            _ => self.depth = self.depth + 1,
        }
        proof {
            frame_views_push(self.frames@, f);
        }
        self.frames.push(f);
        proof {
            push_valid(old(self)@, self@, f@);
        }
    }

    /// A value has been written: closes what is complete with it, and says what
    /// comes next.
    fn complete(&mut self) -> (step: Step)
        requires
            old(self)@.valid(),
        ensures
            final(self)@.valid(),
            (final(self)@, step) == completed(old(self)@),
    {
        loop
            invariant
                self@.valid(),
                completed(self@) == completed(old(self)@),
            decreases self@.frames.len(),
        {
            let ghost before = self@;
            if self.frames.len() == 0 {
                return Step::Finished;
            }
            let f: Frame = self.pop();
            match f {
                Frame::Default => {},
                Frame::Items { first } => {
                    self.push(Frame::Items { first });
                    assert(self@ =~= before);
                    return Step::Item;
                },
                Frame::Entries { first } => {
                    self.push(Frame::Entries { first });
                    assert(self@ =~= before);
                    return Step::Entry;
                },
                Frame::Sorted { keys, order, next } => {
                    if next < order.len() {
                        proof {
                            assert(frame_valid(before.frames[before.frames.len() - 1]));
                            assert(key_bytes(keys@).len() == keys@.len());
                        }
                        let index: usize = order[next];
                        self.write_key(self.depth + 1, keys[index].as_slice(), next == 0);
                        self.push(Frame::Sorted { keys, order, next: next + 1 });
                        proof {
                            let top = FrameView::Sorted {
                                keys: key_bytes(keys@),
                                order: order@,
                                next: next + 1,
                            };
                            assert(self@.frames =~= before.with_top(top).frames);
                        }
                        return Step::Value(index);
                    }
                    self.line(self.depth);
                    self.out.push(0x7d);
                    assert(self@ =~= before.closed(0x7d));
                },
            }
        }
    }

    /// The object to write is of this kind: writes it if that is all there is to know
    /// of it, and says what comes next.
    pub fn serialize(&mut self, kind: Kind, cache: &TypeCache) -> (r: Result<Step, EncodeError>)
        requires
            old(self)@.valid(),
        ensures
            final(self)@.valid(),
            final(self)@ == object(old(self)@, kind, *cache).st,
            r == object(old(self)@, kind, *cache).r,
    {
        match kind {
            Kind::Str => Ok(Step::ReadStr),
            Kind::Int => Ok(Step::ReadInt),
            Kind::Float => Ok(Step::ReadFloat),
            Kind::Bool(b) => {
                write_bool(&mut self.out, b);
                assert(self@ =~= old(self)@.wrote(bool_text(b)));
                Ok(self.complete())
            },
            Kind::Null => {
                write_null(&mut self.out);
                assert(self@ =~= old(self)@.wrote(null_text()));
                Ok(self.complete())
            },
            Kind::Dict => self.dict(),
            Kind::List => self.list(),
            Kind::Tuple => self.tuple(),
            Kind::Other(o) => self.serialize_other(o, cache),
        }
    }

    /// An object that is not of a builtin type itself.
    fn serialize_other(&mut self, o: OtherType, cache: &TypeCache) -> (r: Result<Step, EncodeError>)
        requires
            old(self)@.valid(),
        ensures
            final(self)@.valid(),
            final(self)@ == other(old(self)@, o, *cache).st,
            r == other(old(self)@, o, *cache).r,
    {
        if let Some(dt) = self.dt {
            if let Some(step) = self.datetime_like(o.ty, &dt) {
                return Ok(step);
            }
        }
        if self.opts & OPT_PASSTHROUGH_SUBCLASS == 0 {
            if o.is_str {
                return Ok(Step::ReadStr);
            }
            if o.is_int {
                return Ok(Step::ReadInt);
            }
            if o.is_dict {
                return self.dict();
            }
            if o.is_list {
                return self.list();
            }
        }
        // the datetime module may have been loaded since the document was begun
        if self.dt.is_none() && self.guard && self.opts & OPT_PASSTHROUGH_DATETIME == 0 {
            return Ok(Step::LookUpDatetime);
        }
        self.numpy_or_default(o, cache)
    }

    /// An object for which the datetime group was looked up, and `found` or not.
    pub fn serialize_again(
        &mut self,
        o: OtherType,
        found: Option<DtTypes>,
        cache: &TypeCache,
    ) -> (r: Result<Step, EncodeError>)
        requires
            old(self)@.valid(),
        ensures
            final(self)@.valid(),
            final(self)@ == other_again(old(self)@, o, found, *cache).st,
            r == other_again(old(self)@, o, found, *cache).r,
    {
        self.dt = found;
        assert(self@ =~= (State { dt: found, ..old(self)@ }));
        if let Some(dt) = found {
            if let Some(step) = self.datetime_like(o.ty, &dt) {
                return Ok(step);
            }
        }
        self.numpy_or_default(o, cache)
    }

    /// How an exact `datetime`, `date` or `time` is read; nothing if `ty` is none of
    /// them, or if they go to `default`.
    fn datetime_like(&self, ty: usize, dt: &DtTypes) -> (r: Option<Step>)
        ensures
            r == datetime_step(self@.opts, *dt, ty),
    {
        if self.opts & OPT_PASSTHROUGH_DATETIME != 0 {
            return None;
        }
        if ty == dt.datetime {
            Some(Step::ReadDatetime)
        } else if ty == dt.date {
            Some(Step::ReadDate)
        } else if ty == dt.time {
            Some(Step::ReadTime)
        } else {
            None
        }
    }

    /// A numpy object, or one for `default`. A miss has the numpy group looked up
    /// once in a document.
    fn numpy_or_default(&mut self, o: OtherType, cache: &TypeCache) -> (r: Result<
        Step,
        EncodeError,
    >)
        requires
            old(self)@.valid(),
        ensures
            final(self)@.valid(),
            final(self)@ == numpy_or_default(old(self)@, o, *cache).st,
            r == numpy_or_default(old(self)@, o, *cache).r,
    {
        if self.opts & OPT_SERIALIZE_NUMPY != 0 {
            match cache.numpy_hit(o.ty) {
                Some(np) => return self.numpy_type(np, o.ty),
                None => {
                    if !self.np_rechecked {
                        self.np_rechecked = true;
                        assert(self@ =~= (State { np_rechecked: true, ..old(self)@ }));
                        return Ok(Step::LookUpNumpy);
                    }
                },
            }
        }
        self.call_default()
    }

    /// An object of type `ty` for which the numpy group was looked up: `found` if the
    /// type is in the group.
    pub fn numpy_found(&mut self, ty: usize, found: Option<NumpyTypes>) -> (r: Result<
        Step,
        EncodeError,
    >)
        requires
            old(self)@.valid(),
        ensures
            final(self)@.valid(),
            match found {
                Some(np) => final(self)@ == numpy_typed(old(self)@, np, ty).st && r == numpy_typed(
                    old(self)@,
                    np,
                    ty,
                ).r,
                None => final(self)@ == to_default(old(self)@, None).st && r == to_default(
                    old(self)@,
                    None,
                ).r,
            },
    {
        match found {
            Some(np) => self.numpy_type(np, ty),
            None => self.call_default(),
        }
    }

    /// An object of a type of the numpy group.
    fn numpy_type(&mut self, np: NumpyTypes, ty: usize) -> (r: Result<Step, EncodeError>)
        requires
            old(self)@.valid(),
        ensures
            final(self)@.valid(),
            final(self)@ == numpy_typed(old(self)@, np, ty).st,
            r == numpy_typed(old(self)@, np, ty).r,
    {
        if ty == np.ndarray {
            return Ok(Step::ReadArray);
        }
        match scalar_elem(&np, ty) {
            Some(elem) => Ok(Step::ReadScalar(elem)),
            // another numpy type takes the ordinary path
            None => self.call_default(),
        }
    }

    /// Must the caller hold a reference to an item of this kind while it is written?
    /// Python code may drop it from its container; but an exact `str`, `int`,
    /// `float`, `bool` or `None` runs none.
    pub fn must_hold(&self, kind: Kind) -> (r: bool)
        ensures
            r == (self@.guard && !runs_no_python(kind)),
    {
        self.guard && match kind {
            Kind::Str => false,
            Kind::Int => false,
            Kind::Float => false,
            Kind::Bool(_) => false,
            Kind::Null => false,
            _ => true,
        }
    }

    /// The object goes to `default`.
    fn call_default(&mut self) -> (r: Result<Step, EncodeError>)
        requires
            old(self)@.valid(),
        ensures
            final(self)@.valid(),
            final(self)@ == to_default(old(self)@, None).st,
            r == to_default(old(self)@, None).r,
    {
        self.declined = None;
        assert(self@ =~= (State { declined: None, ..old(self)@ }));
        if !self.has_default {
            return Err(EncodeError::NotSerializable);
        }
        self.invoke_default()
    }

    /// A numpy object was declined: the whole object goes to `default`.
    fn call_default_declined(&mut self, reason: Reason) -> (r: Result<Step, EncodeError>)
        requires
            old(self)@.valid(),
        ensures
            final(self)@.valid(),
            final(self)@ == to_default(old(self)@, Some(reason@)).st,
            r == to_default(old(self)@, Some(reason@)).r,
    {
        self.declined = Some(reason);
        assert(self@ =~= (State { declined: Some(reason@), ..old(self)@ }));
        if !self.has_default {
            return Err(EncodeError::Declined);
        }
        self.invoke_default()
    }

    /// May `default` be called once more?
    fn invoke_default(&self) -> (r: Result<Step, EncodeError>)
        ensures
            r == if self@.default_depth >= MAX_DEFAULT_DEPTH {
                Err::<Step, EncodeError>(EncodeError::DefaultDepth)
            } else {
                Ok(Step::CallDefault)
            },
    {
        if self.default_depth >= MAX_DEFAULT_DEPTH {
            return Err(EncodeError::DefaultDepth);
        }
        Ok(Step::CallDefault)
    }

    /// `default` returned an object of this kind, which is written in place of the
    /// one it was called on.
    pub fn serialize_default_result(&mut self, kind: Kind, cache: &TypeCache) -> (r: Result<
        Step,
        EncodeError,
    >)
        requires
            old(self)@.valid(),
            old(self)@.default_depth < MAX_DEFAULT_DEPTH,
        ensures
            final(self)@.valid(),
            final(self)@ == result_begun(old(self)@, kind, *cache).st,
            r == result_begun(old(self)@, kind, *cache).r,
    {
        self.push(Frame::Default);
        self.serialize(kind, cache)
    }

    /// Counts a container that is begun.
    fn enter(&mut self, f: Frame) -> (r: bool)
        requires
            old(self)@.valid(),
            frame_valid(f@),
            !(f is Default),
        ensures
            final(self)@.valid(),
            r == (old(self)@.depth < MAX_DEPTH),
            r ==> final(self)@ == (State {
                depth: old(self)@.depth + 1,
                frames: old(self)@.frames.push(f@),
                ..old(self)@
            }),
            !r ==> final(self)@ == old(self)@,
    {
        if self.depth >= MAX_DEPTH {
            return false;
        }
        self.push(f);
        true
    }

    fn list(&mut self) -> (r: Result<Step, EncodeError>)
        requires
            old(self)@.valid(),
        ensures
            final(self)@.valid(),
            final(self)@ == list_begun(old(self)@).st,
            r == list_begun(old(self)@).r,
    {
        if !self.enter(Frame::Items { first: true }) {
            return Err(EncodeError::Recursion);
        }
        Ok(Step::Item)
    }

    /// A tuple is written as a list is.
    fn tuple(&mut self) -> (r: Result<Step, EncodeError>)
        requires
            old(self)@.valid(),
        ensures
            final(self)@.valid(),
            final(self)@ == list_begun(old(self)@).st,
            r == list_begun(old(self)@).r,
    {
        self.list()
    }

    fn dict(&mut self) -> (r: Result<Step, EncodeError>)
        requires
            old(self)@.valid(),
        ensures
            final(self)@.valid(),
            final(self)@ == dict_begun(old(self)@).st,
            r == dict_begun(old(self)@).r,
    {
        if self.opts & OPT_SORT_KEYS != 0 {
            let keys: Vec<Vec<u8>> = Vec::new();
            let order: Vec<usize> = Vec::new();
            assert(key_bytes(keys@) =~= Seq::empty());
            assert(order@ =~= Seq::empty());
            if !self.enter(Frame::Sorted { keys, order, next: 0 }) {
                return Err(EncodeError::Recursion);
            }
            Ok(Step::AllKeys)
        } else {
            if !self.enter(Frame::Entries { first: true }) {
                return Err(EncodeError::Recursion);
            }
            Ok(Step::Entry)
        }
    }
}

/// Does writing an object of this kind run no Python code?
pub open spec fn runs_no_python(kind: Kind) -> bool {
    match kind {
        Kind::Str => true,
        Kind::Int => true,
        Kind::Float => true,
        Kind::Bool(_) => true,
        Kind::Null => true,
        _ => false,
    }
}

impl Encoder {
    /// The innermost list or tuple has another item, of this kind.
    pub fn item(&mut self, kind: Kind, cache: &TypeCache) -> (r: Result<Step, EncodeError>)
        requires
            old(self)@.valid(),
            old(self)@.frames.len() > 0,
            old(self)@.frames.last() is Items,
        ensures
            final(self)@.valid(),
            final(self)@ == item_begun(old(self)@, kind, *cache).st,
            r == item_begun(old(self)@, kind, *cache).r,
    {
        let first: bool = match self.pop() {
            Frame::Items { first } => first,
            _ => true,
        };
        self.push(Frame::Items { first: false });
        let ghost st = old(self)@;
        if first {
            self.out.push(0x5b);
        }
        self.write_lead(self.depth, first);
        proof {
            let lead = (if first {
                seq![0x5bu8]
            } else {
                Seq::empty()
            }) + st.lead(first);
            assert(self@.out =~= st.out + lead);
            assert(self@ =~= st.wrote(lead).with_top(FrameView::Items { first: false }));
        }
        self.serialize(kind, cache)
    }

    /// The innermost dict has another entry, with this key and a value of this kind.
    pub fn dict_in_order(&mut self, key: &KeyRead, kind: Kind, cache: &TypeCache) -> (r: Result<
        Step,
        EncodeError,
    >)
        requires
            old(self)@.valid(),
            old(self)@.frames.len() > 0,
            old(self)@.frames.last() is Entries,
        ensures
            final(self)@.valid(),
            final(self)@ == entry_begun(old(self)@, *key, kind, *cache).st,
            r == entry_begun(old(self)@, *key, kind, *cache).r,
    {
        let k: &Vec<u8> = match key {
            KeyRead::NotStr => return Err(EncodeError::KeyNotStr),
            KeyRead::NotUtf8 => return Err(EncodeError::StrNotUtf8),
            KeyRead::Utf8(k) => k,
        };
        let first: bool = match self.pop() {
            Frame::Entries { first } => first,
            _ => true,
        };
        self.push(Frame::Entries { first: false });
        let ghost st = old(self)@;
        if first {
            self.out.push(0x7b);
        }
        self.write_key(self.depth, k.as_slice(), first);
        proof {
            let lead = (if first {
                seq![0x7bu8]
            } else {
                Seq::empty()
            }) + st.key_text(k@, first);
            assert(self@.out =~= st.out + lead);
            assert(self@ =~= st.wrote(lead).with_top(FrameView::Entries { first: false }));
        }
        self.serialize(kind, cache)
    }

    /// The innermost list, tuple or dict has no more items.
    pub fn end(&mut self) -> (r: Result<Step, EncodeError>)
        requires
            old(self)@.valid(),
            old(self)@.frames.len() > 0,
            old(self)@.frames.last() is Items || old(self)@.frames.last() is Entries,
        ensures
            final(self)@.valid(),
            final(self)@ == ended(old(self)@).st,
            r == ended(old(self)@).r,
    {
        let ghost st = old(self)@;
        let (first, open, close): (bool, u8, u8) = match self.pop() {
            Frame::Entries { first } => (first, 0x7b, 0x7d),
            Frame::Items { first } => (first, 0x5b, 0x5d),
            _ => (true, 0x5b, 0x5d),
        };
        if first {
            self.out.push(open);
            self.out.push(close);
            assert(self@ =~= st.popped().wrote(seq![open, close]));
        } else {
            self.line(self.depth);
            self.out.push(close);
            assert(self@ =~= st.closed(close));
        }
        Ok(self.complete())
    }

    /// The innermost dict has entries with these keys, which are to be sorted. The
    /// first key without text is the error, before any value is written.
    pub fn dict_sorted(&mut self, keys: &Vec<KeyRead>) -> (r: Result<Step, EncodeError>)
        requires
            old(self)@.valid(),
            old(self)@.frames.len() > 0,
            old(self)@.frames.last() is Sorted,
        ensures
            final(self)@.valid(),
            final(self)@ == keys_sorted(old(self)@, keys@).st,
            r == keys_sorted(old(self)@, keys@).r,
            keys_told(keys@) matches Ok(ks) ==> ks.len() > 0 ==> in_order(ks, sorted_order(ks)),
    {
        let ghost st = old(self)@;
        let mut ks: Vec<Vec<u8>> = Vec::new();
        let mut i: usize = 0;
        assert(keys@.subrange(0, 0) =~= Seq::empty());
        assert(key_bytes(ks@) =~= Seq::empty());
        while i < keys.len()
            invariant
                i <= keys@.len(),
                self@ == st,
                st == old(self)@,
                st.valid(),
                keys_told(keys@.subrange(0, i as int)) == Ok::<Seq<Seq<u8>>, EncodeError>(
                    key_bytes(ks@),
                ),
            decreases keys@.len() - i,
        {
            proof {
                let t = keys@.subrange(0, i + 1);
                assert(t.drop_last() =~= keys@.subrange(0, i as int));
                assert(t.last() == keys@[i as int]);
                if key_told(keys@[i as int]) is Err {
                    keys_err(keys@, i + 1);
                }
            }
            match &keys[i] {
                KeyRead::NotStr => return Err(EncodeError::KeyNotStr),
                KeyRead::NotUtf8 => return Err(EncodeError::StrNotUtf8),
                KeyRead::Utf8(k) => {
                    let mut copy: Vec<u8> = Vec::new();
                    copy.extend_from_slice(k.as_slice());
                    assert(copy@ =~= k@);
                    let ghost before = ks@;
                    ks.push(copy);
                    assert(key_bytes(ks@) =~= key_bytes(before).push(k@));
                },
            }
            i += 1;
        }
        assert(keys@.subrange(0, i as int) =~= keys@);
        let _ = self.pop();
        if ks.len() == 0 {
            self.out.push(0x7b);
            self.out.push(0x7d);
            assert(self@ =~= st.popped().wrote(seq![0x7bu8, 0x7d]));
            return Ok(self.complete());
        }
        let order: Vec<usize> = sort_keys(&ks);
        self.push(Frame::Sorted { keys: ks, order, next: 0 });
        self.out.push(0x7b);
        proof {
            let top = FrameView::Sorted {
                keys: key_bytes(ks@),
                order: sorted_order(key_bytes(ks@)),
                next: 0,
            };
            assert(self@ =~= st.wrote(seq![0x7bu8]).with_top(top));
        }
        Ok(self.complete())
    }

    /// The text of the object, or `None` if it holds surrogates.
    pub fn str(&mut self, utf8: Option<&[u8]>) -> (r: Result<Step, EncodeError>)
        requires
            old(self)@.valid(),
        ensures
            final(self)@.valid(),
            match utf8 {
                Some(b) => final(self)@ == written(old(self)@, quoted(b@)).st && r == written(
                    old(self)@,
                    quoted(b@),
                ).r,
                None => final(self)@ == old(self)@ && r == Err::<Step, EncodeError>(
                    EncodeError::StrNotUtf8,
                ),
            },
    {
        match utf8 {
            Some(b) => {
                write_escaped(&mut self.out, b);
                assert(self@ =~= old(self)@.wrote(quoted(b@)));
                Ok(self.complete())
            },
            None => Err(EncodeError::StrNotUtf8),
        }
    }

    /// The number that was read.
    pub fn integer(&mut self, v: IntRead) -> (r: Result<Step, EncodeError>)
        requires
            old(self)@.valid(),
        ensures
            final(self)@.valid(),
            final(self)@ == written_or(old(self)@, int_told(v, old(self)@.opts)).st,
            r == written_or(old(self)@, int_told(v, old(self)@.opts)).r,
    {
        let strict: bool = self.opts & OPT_STRICT_INTEGER != 0;
        let n: i128 = match v {
            IntRead::Raised => return Err(EncodeError::Raised),
            IntRead::Fits(v) => {
                if strict && !(-9007199254740991 <= v && v <= 9007199254740991) {
                    return Err(EncodeError::Int53);
                }
                v as i128
            },
            IntRead::Above(Some(v)) => {
                if strict {
                    return Err(EncodeError::Int53);
                }
                v as i128
            },
            _ => return Err(if strict { EncodeError::Int53 } else { EncodeError::Int64 }),
        };
        write_int(&mut self.out, n);
        assert(self@ =~= old(self)@.wrote(int_text(n as int)));
        Ok(self.complete())
    }

    /// The bits of the float, and its decimal text if it is finite.
    pub fn float(&mut self, bits: u64, digits: &[u8]) -> (r: Result<Step, EncodeError>)
        requires
            old(self)@.valid(),
        ensures
            final(self)@.valid(),
            final(self)@ == written(old(self)@, f64_text(bits, digits@)).st,
            r == written(old(self)@, f64_text(bits, digits@)).r,
    {
        write_f64(&mut self.out, bits, digits);
        assert(self@ =~= old(self)@.wrote(f64_text(bits, digits@)));
        Ok(self.complete())
    }

    /// The fields of a `datetime`, and its offset unless it is naive.
    pub fn datetime(&mut self, p: &Parts, offset: Option<i64>) -> (r: Result<Step, EncodeError>)
        requires
            old(self)@.valid(),
            p.y <= 9999,
            offset_in_day(offset),
        ensures
            final(self)@.valid(),
            ({
                let opts = old(self)@.opts;
                let t = datetime_text(*p, shown_offset(offset, opts), opts);
                final(self)@ == written(old(self)@, t).st && r == written(old(self)@, t).r
            }),
    {
        let opts: u32 = self.opts;
        let shown: Option<i64> = match offset {
            Some(o) => Some(o),
            None => if opts & OPT_NAIVE_UTC != 0 {
                Some(0)
            } else {
                None
            },
        };
        write_datetime(&mut self.out, p, shown, opts);
        assert(self@ =~= old(self)@.wrote(datetime_text(*p, shown_offset(offset, opts), opts)));
        Ok(self.complete())
    }

    /// The fields of a `date`. No options apply.
    pub fn date(&mut self, y: u16, mo: u8, d: u8) -> (r: Result<Step, EncodeError>)
        requires
            old(self)@.valid(),
            y <= 9999,
        ensures
            final(self)@.valid(),
            final(self)@ == written(old(self)@, date_text(y, mo, d)).st,
            r == written(old(self)@, date_text(y, mo, d)).r,
    {
        self.out.push(0x22);
        write_ymd(&mut self.out, y, mo, d);
        self.out.push(0x22);
        assert(self@.out =~= old(self)@.out + date_text(y, mo, d));
        assert(self@ =~= old(self)@.wrote(date_text(y, mo, d)));
        Ok(self.complete())
    }

    /// The fields of a `time`, and its offset unless it is naive.
    pub fn time(&mut self, h: u8, mi: u8, s: u8, us: u32, offset: Option<i64>) -> (r: Result<
        Step,
        EncodeError,
    >)
        requires
            old(self)@.valid(),
            offset_in_day(offset),
        ensures
            final(self)@.valid(),
            ({
                let t = time_text(h, mi, s, us, offset, old(self)@.opts);
                final(self)@ == written(old(self)@, t).st && r == written(old(self)@, t).r
            }),
    {
        let opts: u32 = self.opts & !(OPT_NAIVE_UTC | OPT_UTC_Z);
        self.out.push(0x22);
        write_hms(&mut self.out, h, mi, s, us, opts);
        write_offset(&mut self.out, offset, opts);
        self.out.push(0x22);
        assert(self@.out =~= old(self)@.out + time_text(h, mi, s, us, offset, old(self)@.opts));
        assert(self@ =~= old(self)@.wrote(time_text(h, mi, s, us, offset, old(self)@.opts)));
        Ok(self.complete())
    }

    /// The interface of an array; its dtype string, if `needs_dtype` asks for it; and
    /// the decimal texts of what `float_leaves` gives.
    pub fn array(&mut self, a: &ArrayInfo, dtype: &[u8], digits: &Vec<Vec<u8>>) -> (r: Result<
        Step,
        EncodeError,
    >)
        requires
            old(self)@.valid(),
            floats_matter(*a) ==> digits@.len() == count(a.shape@, 0),
        ensures
            final(self)@.valid(),
            ({
                let told = array_told(
                    *a,
                    dtype@,
                    digits@,
                    old(self)@.opts,
                    old(self)@.depth as u32,
                );
                final(self)@ == numpy_written(old(self)@, told).st && r == numpy_written(
                    old(self)@,
                    told,
                ).r
            }),
    {
        let opts: u32 = self.opts;
        let depth: u32 = self.depth;
        match serialize_array(&mut self.out, a, dtype, digits, opts, depth) {
            Outcome::Written => {
                proof {
                    let told = array_told(*a, dtype@, digits@, opts, depth);
                    assert(self@ =~= old(self)@.wrote(told->Text_0));
                }
                Ok(self.complete())
            },
            Outcome::Declined(reason) => {
                assert(self@ =~= old(self)@);
                self.call_default_declined(reason)
            },
            Outcome::Malformed => {
                assert(self@ =~= old(self)@);
                Err(EncodeError::Malformed)
            },
        }
    }

    /// The bytes of a numpy scalar; its dtype string, for a `datetime64`; and the
    /// decimal text of a float.
    pub fn scalar(&mut self, elem: Elem, data: &[u8], dtype: &[u8], digits: &[u8]) -> (r: Result<
        Step,
        EncodeError,
    >)
        requires
            old(self)@.valid(),
            data@.len() == elem_layout(elem).1,
        ensures
            final(self)@.valid(),
            ({
                let told = scalar_told(elem, data@, dtype@, digits@, old(self)@.opts);
                final(self)@ == numpy_written(old(self)@, told).st && r == numpy_written(
                    old(self)@,
                    told,
                ).r
            }),
    {
        let opts: u32 = self.opts;
        match serialize_scalar(&mut self.out, elem, data, dtype, digits, opts) {
            Outcome::Written => {
                proof {
                    let told = scalar_told(elem, data@, dtype@, digits@, opts);
                    assert(self@ =~= old(self)@.wrote(told->Text_0));
                }
                Ok(self.complete())
            },
            Outcome::Declined(reason) => {
                assert(self@ =~= old(self)@);
                self.call_default_declined(reason)
            },
            Outcome::Malformed => Err(EncodeError::Malformed),
        }
    }

    /// What is said of an error on an object of the type with this name. Nothing,
    /// where Python has raised already.
    pub fn error_message(&self, e: EncodeError, class_name: &[u8]) -> (r: Option<String>)
        ensures
            match error_text(e, self@.declined, class_name@) {
                Some(t) => r matches Some(m) && m@ == t,
                None => r is None,
            },
    {
        match plain_error(e) {
            Some(m) => return Some(m.to_owned()),
            None => {},
        }
        match e {
            EncodeError::NotSerializable => Some(not_serializable(class_name)),
            EncodeError::DefaultRaised => Some(not_serializable(class_name)),
            EncodeError::Declined => match &self.declined {
                Some(reason) => Some(reason_message(reason)),
                None => None,
            },
            _ => None,
        }
    }

    /// The note that is attached to an error: the evidence for declining a numpy
    /// object, when that or the call of `default` after it is the error.
    pub fn error_note(&self, e: EncodeError) -> (r: Option<String>)
        ensures
            match error_note_text(e, self@.declined) {
                Some(t) => r matches Some(m) && m@ == t,
                None => r is None,
            },
    {
        match e {
            EncodeError::DefaultRaised => {},
            EncodeError::Declined => {},
            _ => return None,
        }
        match &self.declined {
            Some(reason) => Some(reason_note(reason)),
            None => None,
        }
    }

    /// The document, with a line break behind it where that is asked for.
    pub fn finish(self) -> (r: Vec<u8>)
        ensures
            r@ == self@.out + if on(self@.opts, OPT_APPEND_NEWLINE) {
                seq![0x0au8]
            } else {
                Seq::empty()
            },
    {
        let mut out: Out = self.out;
        if self.opts & OPT_APPEND_NEWLINE != 0 {
            out.push(0x0a);
        }
        out.finish()
    }
}

/// What is said of an error.
pub open spec fn error_text(e: EncodeError, declined: Option<Why>, class_name: Seq<u8>) -> Option<
    Seq<char>,
> {
    match e {
        EncodeError::NotSerializable => Some(not_serializable_text(class_name)),
        EncodeError::DefaultRaised => Some(not_serializable_text(class_name)),
        EncodeError::Declined => match declined {
            Some(why) => Some(message_text(why)),
            None => None,
        },
        _ => plain_message(e),
    }
}

/// The note to an error.
pub open spec fn error_note_text(e: EncodeError, declined: Option<Why>) -> Option<Seq<char>> {
    if e == EncodeError::DefaultRaised || e == EncodeError::Declined {
        match declined {
            Some(why) => Some(note_text(why)),
            None => None,
        }
    } else {
        None
    }
}

/// What is wrong with the first keys is wrong with all.
proof fn keys_err(keys: Seq<KeyRead>, n: int)
    requires
        0 <= n <= keys.len(),
        keys_told(keys.subrange(0, n)) is Err,
    ensures
        keys_told(keys) == keys_told(keys.subrange(0, n)),
    decreases keys.len() - n,
{
    if n == keys.len() {
        assert(keys.subrange(0, n) =~= keys);
    } else {
        let t = keys.subrange(0, n + 1);
        assert(t.drop_last() =~= keys.subrange(0, n));
        keys_err(keys, n + 1);
    }
}

/// A `time` is written the same whether naive times are to be taken for UTC and
/// whether UTC is to be shortened.
pub proof fn time_ignores_utc_options(
    h: u8,
    mi: u8,
    s: u8,
    us: u32,
    offset: Option<i64>,
    opts: u32,
)
    ensures
        time_text(h, mi, s, us, offset, opts | OPT_NAIVE_UTC) == time_text(
            h,
            mi,
            s,
            us,
            offset,
            opts,
        ),
        time_text(h, mi, s, us, offset, opts | OPT_UTC_Z) == time_text(h, mi, s, us, offset, opts),
{
    assert((opts | 2u32) & !(2u32 | 128u32) == opts & !(2u32 | 128u32)) by (bit_vector);
    assert((opts | 128u32) & !(2u32 | 128u32) == opts & !(2u32 | 128u32)) by (bit_vector);
}

/// Of the options that count for a `time`, the shortening of UTC is none.
pub proof fn time_opts_flags(opts: u32)
    ensures
        on(time_opts(opts), OPT_OMIT_MICROSECONDS) == on(opts, OPT_OMIT_MICROSECONDS),
        !on(time_opts(opts), OPT_UTC_Z),
{
    assert((opts & !(2u32 | 128u32)) & 8 == opts & 8) by (bit_vector);
    assert((opts & !(2u32 | 128u32)) & 128 == 0) by (bit_vector);
}

/// Does this step run Python code, or look at what only an object that can run some
/// has?
pub open spec fn runs_python(step: Step) -> bool {
    match step {
        Step::CallDefault => true,
        Step::ReadDatetime => true,
        Step::ReadTime => true,
        Step::ReadArray => true,
        Step::ReadScalar(_) => true,
        Step::LookUpDatetime => true,
        Step::LookUpNumpy => true,
        _ => false,
    }
}

/// Is the guard off only where nothing can run Python code?
pub open spec fn guarded(st: State) -> bool {
    !st.guard ==> !st.has_default && !on(st.opts, OPT_SERIALIZE_NUMPY) && st.dt is None
}

/// Closing what is complete does not run Python code and does not touch the guard.
proof fn completed_guarded(st: State)
    requires
        guarded(st),
    ensures
        guarded(completed(st).0),
        completed(st).0.guard == st.guard,
        !runs_python(completed(st).1),
    decreases st.frames.len(),
{
    if st.frames.len() > 0 {
        if st.frames.last() is Default {
            completed_guarded(st.popped());
        } else if st.frames.last() is Sorted {
            completed_guarded(st.closed(0x7d));
        }
    }
}

/// With the guard off, no object makes for a step that runs Python code, so that
/// nothing can change a container while it is written.
pub proof fn guard_off_runs_no_python(st: State, kind: Kind, cache: TypeCache)
    requires
        guarded(st),
    ensures
        guarded(object(st, kind, cache).st),
        object(st, kind, cache).st.guard == st.guard,
        !st.guard ==> (object(st, kind, cache).r matches Ok(step) ==> !runs_python(step)),
{
    match kind {
        Kind::Bool(b) => completed_guarded(st.wrote(bool_text(b))),
        Kind::Null => completed_guarded(st.wrote(null_text())),
        _ => {},
    }
}

/// An object that missed everything else is written, after the datetime group was looked
/// up, as it would have been had the group been known; and if there is none, as if no look
/// could have found one.
pub proof fn a_look_is_as_good_as_knowing(st: State, o: OtherType, dt: DtTypes, cache: TypeCache)
    requires
        !o.is_str && !o.is_int && !o.is_dict && !o.is_list,
    ensures
        other_again(st, o, Some(dt), cache) == other(State { dt: Some(dt), ..st }, o, cache),
        other_again(st, o, None, cache).r == other(
            State { dt: None, guard: false, ..st },
            o,
            cache,
        ).r,
{
}

/// An object whose type a look at numpy found is read as if the group had been known; and
/// one that it did not find goes where it would go if numpy objects were not written.
pub proof fn a_look_at_numpy_is_as_good_as_knowing(
    st: State,
    o: OtherType,
    np: NumpyTypes,
    cache: TypeCache,
    opts: u32,
)
    requires
        on(st.opts, OPT_SERIALIZE_NUMPY),
        cache.numpy_hit_spec(o.ty) == Some(np),
        !on(opts, OPT_SERIALIZE_NUMPY),
    ensures
        numpy_typed(st, np, o.ty) == numpy_or_default(st, o, cache),
        to_default(st, None).r == numpy_or_default(State { opts, ..st }, o, cache).r,
{
}

} // verus!

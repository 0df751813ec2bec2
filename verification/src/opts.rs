//! Option flags of `dumps`.
use vstd::prelude::*;

verus! {

pub const OPT_INDENT_2: u32 = 1;
pub const OPT_NAIVE_UTC: u32 = 2;
pub const OPT_NON_STR_KEYS: u32 = 4;
pub const OPT_OMIT_MICROSECONDS: u32 = 8;
pub const OPT_SERIALIZE_NUMPY: u32 = 16;
pub const OPT_SORT_KEYS: u32 = 32;
pub const OPT_STRICT_INTEGER: u32 = 64;
pub const OPT_UTC_Z: u32 = 128;
pub const OPT_PASSTHROUGH_SUBCLASS: u32 = 256;
pub const OPT_PASSTHROUGH_DATETIME: u32 = 512;
pub const OPT_APPEND_NEWLINE: u32 = 1024;
pub const OPT_PASSTHROUGH_DATACLASS: u32 = 2048;

/// Is `flag` set in `opts`?
pub open spec fn on(opts: u32, flag: u32) -> bool {
    opts & flag != 0
}

/// Do two sets of options agree on those that a text depends on? They may differ on
/// the line break at the end, which is no part of a value; on dataclasses, which are
/// never written; and on keys that are not strings, which are never accepted.
pub open spec fn same_form(a: u32, b: u32) -> bool {
    &&& on(a, OPT_INDENT_2) == on(b, OPT_INDENT_2)
    &&& on(a, OPT_NAIVE_UTC) == on(b, OPT_NAIVE_UTC)
    &&& on(a, OPT_OMIT_MICROSECONDS) == on(b, OPT_OMIT_MICROSECONDS)
    &&& on(a, OPT_SERIALIZE_NUMPY) == on(b, OPT_SERIALIZE_NUMPY)
    &&& on(a, OPT_SORT_KEYS) == on(b, OPT_SORT_KEYS)
    &&& on(a, OPT_STRICT_INTEGER) == on(b, OPT_STRICT_INTEGER)
    &&& on(a, OPT_UTC_Z) == on(b, OPT_UTC_Z)
    &&& on(a, OPT_PASSTHROUGH_SUBCLASS) == on(b, OPT_PASSTHROUGH_SUBCLASS)
    &&& on(a, OPT_PASSTHROUGH_DATETIME) == on(b, OPT_PASSTHROUGH_DATETIME)
}

/// Do two sets of options agree on those that decide what is written, though not on
/// how it is laid out?
pub open spec fn same_contents(a: u32, b: u32) -> bool {
    &&& on(a, OPT_NAIVE_UTC) == on(b, OPT_NAIVE_UTC)
    &&& on(a, OPT_OMIT_MICROSECONDS) == on(b, OPT_OMIT_MICROSECONDS)
    &&& on(a, OPT_SERIALIZE_NUMPY) == on(b, OPT_SERIALIZE_NUMPY)
    &&& on(a, OPT_SORT_KEYS) == on(b, OPT_SORT_KEYS)
    &&& on(a, OPT_STRICT_INTEGER) == on(b, OPT_STRICT_INTEGER)
    &&& on(a, OPT_UTC_Z) == on(b, OPT_UTC_Z)
    &&& on(a, OPT_PASSTHROUGH_SUBCLASS) == on(b, OPT_PASSTHROUGH_SUBCLASS)
    &&& on(a, OPT_PASSTHROUGH_DATETIME) == on(b, OPT_PASSTHROUGH_DATETIME)
}

/// Asking for the indented form keeps the contents.
pub proof fn contents_kept(opts: u32)
    ensures
        same_contents(opts | OPT_INDENT_2, opts),
{
    assert(forall|f: u32|
        f == 2 || f == 8 || f == 16 || f == 32 || f == 64 || f == 128 || f == 256 || f == 512
            ==> #[trigger] ((opts | 1) & f) == opts & f) by (bit_vector);
}

/// Asking for a line break at the end, or for dataclasses, keeps the form.
pub proof fn form_kept(opts: u32)
    ensures
        same_form(opts | OPT_APPEND_NEWLINE, opts),
        same_form(opts | OPT_PASSTHROUGH_DATACLASS, opts),
        on(opts | OPT_APPEND_NEWLINE, OPT_APPEND_NEWLINE),
        on(opts | OPT_PASSTHROUGH_DATACLASS, OPT_APPEND_NEWLINE) == on(opts, OPT_APPEND_NEWLINE),
{
    assert(forall|f: u32|
        f == 1 || f == 2 || f == 8 || f == 16 || f == 32 || f == 64 || f == 128 || f == 256 || f
            == 512 ==> #[trigger] ((opts | 1024) & f) == opts & f) by (bit_vector);
    assert(forall|f: u32|
        f == 1 || f == 2 || f == 8 || f == 16 || f == 32 || f == 64 || f == 128 || f == 256 || f
            == 512 || f == 1024 ==> #[trigger] ((opts | 2048) & f) == opts & f) by (bit_vector);
    assert((opts | 1024) & 1024 != 0) by (bit_vector);
}

} // verus!

//! What the module exports, and what it keeps for one interpreter.
use crate::key_cache::{KeyCache, CACHE_SLOTS};
use crate::opts::{
    OPT_APPEND_NEWLINE, OPT_INDENT_2, OPT_NAIVE_UTC, OPT_NON_STR_KEYS, OPT_OMIT_MICROSECONDS,
    OPT_PASSTHROUGH_DATACLASS, OPT_PASSTHROUGH_DATETIME, OPT_PASSTHROUGH_SUBCLASS,
    OPT_SERIALIZE_NUMPY, OPT_SORT_KEYS, OPT_STRICT_INTEGER, OPT_UTC_Z,
};
use crate::types::{nonzero, TypeCache};
use vstd::prelude::*;

verus! {

/// The exported constants. Those that are zero are names for what needs no option.
pub open spec fn constants() -> Seq<(Seq<char>, u32)> {
    seq![
        ("OPT_APPEND_NEWLINE"@, OPT_APPEND_NEWLINE),
        ("OPT_INDENT_2"@, OPT_INDENT_2),
        ("OPT_NAIVE_UTC"@, OPT_NAIVE_UTC),
        ("OPT_NON_STR_KEYS"@, OPT_NON_STR_KEYS),
        ("OPT_OMIT_MICROSECONDS"@, OPT_OMIT_MICROSECONDS),
        ("OPT_PASSTHROUGH_DATACLASS"@, OPT_PASSTHROUGH_DATACLASS),
        ("OPT_PASSTHROUGH_DATETIME"@, OPT_PASSTHROUGH_DATETIME),
        ("OPT_PASSTHROUGH_SUBCLASS"@, OPT_PASSTHROUGH_SUBCLASS),
        ("OPT_SERIALIZE_DATACLASS"@, 0),
        ("OPT_SERIALIZE_NUMPY"@, OPT_SERIALIZE_NUMPY),
        ("OPT_SERIALIZE_UUID"@, 0),
        ("OPT_SORT_KEYS"@, OPT_SORT_KEYS),
        ("OPT_STRICT_INTEGER"@, OPT_STRICT_INTEGER),
        ("OPT_UTC_Z"@, OPT_UTC_Z),
    ]
}

/// How many there are.
pub const CONSTANTS: usize = 14;

/// The name and the value of an exported constant.
pub fn constant(i: usize) -> (r: (&'static str, u32))
    requires
        i < CONSTANTS,
    ensures
        (r.0@, r.1) == constants()[i as int],
{
    match i {
        0 => ("OPT_APPEND_NEWLINE", OPT_APPEND_NEWLINE),
        1 => ("OPT_INDENT_2", OPT_INDENT_2),
        2 => ("OPT_NAIVE_UTC", OPT_NAIVE_UTC),
        3 => ("OPT_NON_STR_KEYS", OPT_NON_STR_KEYS),
        4 => ("OPT_OMIT_MICROSECONDS", OPT_OMIT_MICROSECONDS),
        5 => ("OPT_PASSTHROUGH_DATACLASS", OPT_PASSTHROUGH_DATACLASS),
        6 => ("OPT_PASSTHROUGH_DATETIME", OPT_PASSTHROUGH_DATETIME),
        7 => ("OPT_PASSTHROUGH_SUBCLASS", OPT_PASSTHROUGH_SUBCLASS),
        8 => ("OPT_SERIALIZE_DATACLASS", 0),
        9 => ("OPT_SERIALIZE_NUMPY", OPT_SERIALIZE_NUMPY),
        10 => ("OPT_SERIALIZE_UUID", 0),
        11 => ("OPT_SORT_KEYS", OPT_SORT_KEYS),
        12 => ("OPT_STRICT_INTEGER", OPT_STRICT_INTEGER),
        _ => ("OPT_UTC_Z", OPT_UTC_Z),
    }
}

/// What is kept for one interpreter: everything that outlives a call.
pub struct ModState {
    /// The address of the exception type, or zero.
    pub decode_error: usize,
    pub key_cache: KeyCache,
    pub types: TypeCache,
}

impl ModState {
    /// What can be part of a reference cycle. The keys are strings, which cannot.
    pub open spec fn visible(&self) -> Seq<usize> {
        nonzero(seq![self.decode_error]) + nonzero(self.types.addresses())
    }

    /// Nothing is kept yet.
    pub fn new() -> (r: ModState)
        ensures
            r.decode_error == 0,
            r.types == TypeCache::zeros(),
            r.key_cache.valid(),
            forall|i: int| 0 <= i < CACHE_SLOTS ==> r.key_cache.entry(i) is None,
    {
        ModState { decode_error: 0, key_cache: KeyCache::new(), types: TypeCache::zeroed() }
    }

    /// What the collector of cycles is shown.
    pub fn traverse(&self) -> (r: Vec<usize>)
        ensures
            r@ == self.visible(),
    {
        proof {
            one_nonzero(self.decode_error);
        }
        let mut r: Vec<usize> = Vec::new();
        if self.decode_error != 0 {
            r.push(self.decode_error);
        }
        let mut held: Vec<usize> = self.types.held();
        r.append(&mut held);
        r
    }

    /// Lets go of everything. Returns it, to be released.
    pub fn clear(&mut self) -> (r: Vec<usize>)
        requires
            old(self).key_cache.valid(),
        ensures
            r@ == old(self).visible() + old(self).key_cache.objects(CACHE_SLOTS as int),
            final(self).decode_error == 0,
            final(self).types == TypeCache::zeros(),
            final(self).key_cache.valid(),
            forall|i: int| 0 <= i < CACHE_SLOTS ==> final(self).key_cache.entry(i) is None,
    {
        let mut r: Vec<usize> = self.traverse();
        self.decode_error = 0;
        let _ = self.types.clear();
        let mut keys: Vec<usize> = self.key_cache.clear();
        r.append(&mut keys);
        r
    }
}

proof fn one_nonzero(a: usize)
    ensures
        nonzero(seq![a]) == if a == 0 {
            Seq::empty()
        } else {
            seq![a]
        },
{
    assert(seq![a].drop_last() =~= Seq::empty());
    assert(nonzero(seq![a].drop_last()) =~= Seq::empty());
    assert(Seq::empty().push(a) =~= seq![a]);
}

} // verus!

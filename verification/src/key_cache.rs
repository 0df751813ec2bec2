//! A cache of dict keys that were seen lately, one per interpreter.
use crate::little_endian::{le_value, read_uint};
use crate::swar::{is_ascii, same_bytes};
use vstd::prelude::*;

verus! {

/// How many keys the cache holds at most.
pub const CACHE_SLOTS: usize = 2048;

/// The longest key that it holds.
pub const CACHE_MAX_KEY: usize = 64;

/// A cached key: its bytes, its hash and the address of its object.
pub struct Slot {
    pub hash: u64,
    pub key: Vec<u8>,
    pub object: usize,
}

/// A direct-mapped cache: a key can be in one slot only, which its hash decides, and
/// takes that slot from whatever key was in it.
pub struct KeyCache {
    slots: Vec<Option<Slot>>,
}

/// One round of the hash.
pub open spec fn mixed(h: u64, w: u64) -> u64 {
    vstd::wrapping::u64_specs::wrapping_mul(((h << 5) | (h >> 59)) ^ w, 0x517c_c1b7_2722_0a95)
}

/// The hash of the bytes from `i` on, eight at a time, into `h`. The last bytes count
/// as a word that zeros fill up.
pub open spec fn hash_from(s: Seq<u8>, i: int, h: u64) -> u64
    decreases s.len() - i,
{
    if 0 <= i && i + 8 <= s.len() {
        hash_from(s, i + 8, mixed(h, le_value(s.subrange(i, i + 8)) as u64))
    } else {
        mixed(h, le_value(s.subrange(i, s.len() as int)) as u64)
    }
}

/// The hash of a key.
pub open spec fn key_hash(s: Seq<u8>) -> u64 {
    hash_from(s, 0, s.len() as u64)
}

/// The slot of a key.
pub open spec fn slot_of(s: Seq<u8>) -> int {
    key_hash(s) as int % CACHE_SLOTS as int
}

fn mix(h: u64, w: u64) -> (r: u64)
    ensures
        r == mixed(h, w),
{
    let x: u64 = ((h << 5) | (h >> 59)) ^ w;
    x.wrapping_mul(0x517c_c1b7_2722_0a95)
}

/// The hash of a key.
fn hash(b: &[u8]) -> (r: u64)
    ensures
        r == key_hash(b@),
{
    let mut h: u64 = b.len() as u64;
    let mut i: usize = 0;
    while b.len() - i >= 8
        invariant
            i <= b@.len(),
            hash_from(b@, i as int, h) == key_hash(b@),
        decreases b@.len() - i,
    {
        h = mix(h, read_uint(b, i, 8));
        i += 8;
    }
    mix(h, read_uint(b, i, b.len() - i))
}

/// Is this a key that the cache takes: ASCII, and not too long?
pub open spec fn cacheable(s: Seq<u8>) -> bool {
    s.len() <= CACHE_MAX_KEY && forall|i: int| 0 <= i < s.len() ==> #[trigger] s[i] < 0x80
}

/// Is this a key that the cache takes?
pub fn is_cacheable(b: &[u8]) -> (r: bool)
    ensures
        r == cacheable(b@),
{
    b.len() <= CACHE_MAX_KEY && is_ascii(b)
}

impl KeyCache {
    /// The key in a slot and its object.
    pub closed spec fn entry(&self, i: int) -> Option<(Seq<u8>, usize)> {
        match self.slots@[i] {
            Some(s) => Some((s.key@, s.object)),
            None => None,
        }
    }

    /// Every key is in its slot, with its hash.
    pub closed spec fn valid(&self) -> bool {
        &&& self.slots@.len() == CACHE_SLOTS
        &&& forall|i: int|
            0 <= i < self.slots@.len() ==> (#[trigger] self.slots@[i] matches Some(s)
                ==> s.hash == key_hash(s.key@) && slot_of(s.key@) == i)
    }

    /// The object of a key, if it is cached.
    pub open spec fn found(&self, key: Seq<u8>) -> Option<usize> {
        match self.entry(slot_of(key)) {
            Some((k, object)) => if k == key {
                Some(object)
            } else {
                None
            },
            None => None,
        }
    }

    /// A cache without keys.
    pub fn new() -> (r: KeyCache)
        ensures
            r.valid(),
            forall|i: int| 0 <= i < CACHE_SLOTS ==> r.entry(i) is None,
    {
        let mut slots: Vec<Option<Slot>> = Vec::new();
        while slots.len() < CACHE_SLOTS
            invariant
                slots@.len() <= CACHE_SLOTS,
                forall|i: int| 0 <= i < slots@.len() ==> #[trigger] slots@[i] is None,
            decreases CACHE_SLOTS - slots@.len(),
        {
            slots.push(None);
        }
        KeyCache { slots }
    }

    /// The object of the key `b`, if it is cached.
    pub fn get(&self, b: &[u8]) -> (r: Option<usize>)
        requires
            self.valid(),
        ensures
            r == self.found(b@),
    {
        let h: u64 = hash(b);
        let i: usize = (h % 2048) as usize;
        match &self.slots[i] {
            Some(s) => {
                if s.hash == h && same_bytes(s.key.as_slice(), b) {
                    Some(s.object)
                } else {
                    None
                }
            },
            None => None,
        }
    }

    /// Puts the key `b` with its object into its slot. Returns the object of the key
    /// that was in the slot, to be released.
    pub fn put(&mut self, b: &[u8], object: usize) -> (r: Option<usize>)
        requires
            old(self).valid(),
        ensures
            final(self).valid(),
            final(self).entry(slot_of(b@)) == Some((b@, object)),
            forall|i: int|
                0 <= i < CACHE_SLOTS && i != slot_of(b@) ==> final(self).entry(i) == old(
                    self,
                ).entry(i),
            r == match old(self).entry(slot_of(b@)) {
                Some((_, o)) => Some(o),
                None => None,
            },
    {
        let h: u64 = hash(b);
        let i: usize = (h % 2048) as usize;
        let mut key: Vec<u8> = Vec::new();
        key.extend_from_slice(b);
        assert(key@ =~= b@);
        let r: Option<usize> = match &self.slots[i] {
            Some(s) => Some(s.object),
            None => None,
        };
        self.slots[i] = Some(Slot { hash: h, key, object });
        r
    }

    /// Empties the cache. Returns the objects of its keys, to be released.
    pub fn clear(&mut self) -> (r: Vec<usize>)
        requires
            old(self).valid(),
        ensures
            final(self).valid(),
            forall|i: int| 0 <= i < CACHE_SLOTS ==> final(self).entry(i) is None,
            r@ == old(self).objects(CACHE_SLOTS as int),
    {
        let mut r: Vec<usize> = Vec::new();
        let mut i: usize = 0;
        while i < CACHE_SLOTS
            invariant
                self.valid(),
                *self == *old(self),
                i <= CACHE_SLOTS,
                r@ == self.objects(i as int),
            decreases CACHE_SLOTS - i,
        {
            match &self.slots[i] {
                Some(s) => r.push(s.object),
                None => {},
            }
            i += 1;
        }
        *self = KeyCache::new();
        r
    }

    /// The objects in the first `n` slots.
    pub open spec fn objects(&self, n: int) -> Seq<usize>
        decreases n,
    {
        if n <= 0 {
            Seq::empty()
        } else {
            match self.entry(n - 1) {
                Some((_, o)) => self.objects(n - 1).push(o),
                None => self.objects(n - 1),
            }
        }
    }
}

/// A key that was put into the cache is found with its object until another key takes
/// its slot, and no key is ever found with the object of another.
pub proof fn put_then_get(before: KeyCache, after: KeyCache, key: Seq<u8>, object: usize, k: Seq<u8>)
    requires
        before.valid(),
        after.entry(slot_of(key)) == Some((key, object)),
        forall|i: int|
            0 <= i < CACHE_SLOTS && i != slot_of(key) ==> after.entry(i) == before.entry(i),
    ensures
        after.found(k) == if k == key {
            Some(object)
        } else if slot_of(k) == slot_of(key) {
            None
        } else {
            before.found(k)
        },
{
}

} // verus!

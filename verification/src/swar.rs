//! Word-at-a-time byte scanning: eight bytes per step, no intrinsics.
use vstd::arithmetic::div_mod::lemma_fundamental_div_mod_converse;
use vstd::prelude::*;

verus! {

/// A word with the low bit of every byte set.
pub const LO: u64 = 0x0101_0101_0101_0101;

/// A word with the high bit of every byte set.
pub const HI: u64 = 0x8080_8080_8080_8080;

/// A word of eight spaces, the first byte that is not a control character.
pub const SPACES: u64 = 0x2020_2020_2020_2020;

/// A word of eight `"` characters.
pub const QUOTES: u64 = 0x2222_2222_2222_2222;

/// A word of eight `\` characters.
pub const BACKSLASHES: u64 = 0x5c5c_5c5c_5c5c_5c5c;

/// Byte `k` of a word, counted from the least significant end.
pub open spec fn byte_of(w: u64, k: int) -> u8 {
    ((w >> ((8 * k) as u64)) & 0xff) as u8
}

/// Is this byte special inside a JSON string: a control character, `"` or `\`?
pub open spec fn special(b: u8) -> bool {
    b < 0x20 || b == 0x22 || b == 0x5c
}

/// Does some byte of the word satisfy `p`?
pub open spec fn any_byte(w: u64, p: spec_fn(u8) -> bool) -> bool {
    exists|k: int| 0 <= k < 8 && p(#[trigger] byte_of(w, k))
}

/// The eight bytes of a word, spelled out.
proof fn bytes_of_word(w: u64)
    ensures
        byte_of(w, 0) == (w & 0xff) as u8,
        byte_of(w, 1) == ((w >> 8) & 0xff) as u8,
        byte_of(w, 2) == ((w >> 16) & 0xff) as u8,
        byte_of(w, 3) == ((w >> 24) & 0xff) as u8,
        byte_of(w, 4) == ((w >> 32) & 0xff) as u8,
        byte_of(w, 5) == ((w >> 40) & 0xff) as u8,
        byte_of(w, 6) == ((w >> 48) & 0xff) as u8,
        byte_of(w, 7) == ((w >> 56) & 0xff) as u8,
{
    assert(w >> 0u64 == w) by (bit_vector);
}

/// Marks the zero bytes of `w`: the result is zero exactly when no byte is, and
/// its lowest set bit is the high bit of the first zero byte.
pub fn has_zero(w: u64) -> (r: u64)
    ensures
        r == (vstd::wrapping::u64_specs::wrapping_sub(w, LO) & !w & HI),
        r != 0 <==> any_byte(w, |b: u8| b == 0),
        forall|k: int|
            0 <= k < 8 && (forall|j: int| 0 <= j < k ==> #[trigger] byte_of(w, j) != 0) ==> (
            #[trigger] byte_of(r, k) == if byte_of(w, k) == 0 { 0x80u8 } else { 0u8 }),
{
    let d: u64 = w.wrapping_sub(LO);
    let r: u64 = d & !w & HI;
    proof {
        bytes_of_word(w);
        bytes_of_word(r);
        assert(d == w - 0x0101_0101_0101_0101 || d == w - 0x0101_0101_0101_0101
            + 0x1_0000_0000_0000_0000);
        let b0 = (w & 0xff) as u8;
        let b1 = ((w >> 8) & 0xff) as u8;
        let b2 = ((w >> 16) & 0xff) as u8;
        let b3 = ((w >> 24) & 0xff) as u8;
        let b4 = ((w >> 32) & 0xff) as u8;
        let b5 = ((w >> 40) & 0xff) as u8;
        let b6 = ((w >> 48) & 0xff) as u8;
        let b7 = ((w >> 56) & 0xff) as u8;
        assert((r != 0 <==> (b0 == 0 || b1 == 0 || b2 == 0 || b3 == 0 || b4 == 0 || b5 == 0 || b6
            == 0 || b7 == 0)) && (r & 0xff) as u8 == (if b0 == 0 { 0x80u8 } else { 0u8 })
            && (b0 != 0 ==> ((r >> 8) & 0xff) as u8 == (if b1 == 0 { 0x80u8 } else { 0u8 }))
            && (b0 != 0 && b1 != 0 ==> ((r >> 16) & 0xff) as u8 == (if b2 == 0 { 0x80u8 } else {
            0u8 })) && (b0 != 0 && b1 != 0 && b2 != 0 ==> ((r >> 24) & 0xff) as u8 == (if b3 == 0 {
            0x80u8 } else { 0u8 })) && (b0 != 0 && b1 != 0 && b2 != 0 && b3 != 0 ==> ((r >> 32)
            & 0xff) as u8 == (if b4 == 0 { 0x80u8 } else { 0u8 })) && (b0 != 0 && b1 != 0 && b2 != 0
            && b3 != 0 && b4 != 0 ==> ((r >> 40) & 0xff) as u8 == (if b5 == 0 { 0x80u8 } else {
            0u8 })) && (b0 != 0 && b1 != 0 && b2 != 0 && b3 != 0 && b4 != 0 && b5 != 0 ==> ((r
            >> 48) & 0xff) as u8 == (if b6 == 0 { 0x80u8 } else { 0u8 })) && (b0 != 0 && b1 != 0
            && b2 != 0 && b3 != 0 && b4 != 0 && b5 != 0 && b6 != 0 ==> ((r >> 56) & 0xff) as u8 == (
        if b7 == 0 { 0x80u8 } else { 0u8 }))) by (bit_vector)
            requires
                d == w - 0x0101_0101_0101_0101 || d == w - 0x0101_0101_0101_0101
                    + 0x1_0000_0000_0000_0000,
                r == d & !w & 0x8080_8080_8080_8080,
                b0 == (w & 0xff) as u8,
                b1 == ((w >> 8) & 0xff) as u8,
                b2 == ((w >> 16) & 0xff) as u8,
                b3 == ((w >> 24) & 0xff) as u8,
                b4 == ((w >> 32) & 0xff) as u8,
                b5 == ((w >> 40) & 0xff) as u8,
                b6 == ((w >> 48) & 0xff) as u8,
                b7 == ((w >> 56) & 0xff) as u8,
        ;
        any_byte_cases(w, |b: u8| b == 0);
    }
    r
}

/// `any_byte` as a disjunction over the eight bytes.
proof fn any_byte_cases(w: u64, p: spec_fn(u8) -> bool)
    ensures
        any_byte(w, p) <==> (p(byte_of(w, 0)) || p(byte_of(w, 1)) || p(byte_of(w, 2)) || p(
            byte_of(w, 3),
        ) || p(byte_of(w, 4)) || p(byte_of(w, 5)) || p(byte_of(w, 6)) || p(byte_of(w, 7))),
{
    if any_byte(w, p) {
        let k = choose|k: int| 0 <= k < 8 && p(#[trigger] byte_of(w, k));
        assert(k == 0 || k == 1 || k == 2 || k == 3 || k == 4 || k == 5 || k == 6 || k == 7);
    }
}

/// Does this word contain a byte that is special inside a JSON string? Exact on
/// the "any" question: no word is misjudged either way.
pub fn has_special(w: u64) -> (r: bool)
    ensures
        r == any_byte(w, |b: u8| special(b)),
{
    let ctrl: u64 = w.wrapping_sub(SPACES) & !w & HI;
    let quote: u64 = has_zero(w ^ QUOTES);
    let backslash: u64 = has_zero(w ^ BACKSLASHES);
    proof {
        let d: u64 = vstd::wrapping::u64_specs::wrapping_sub(w, SPACES);
        let q: u64 = w ^ QUOTES;
        let s: u64 = w ^ BACKSLASHES;
        bytes_of_word(w);
        bytes_of_word(q);
        bytes_of_word(s);
        any_byte_cases(w, |b: u8| special(b));
        any_byte_cases(q, |b: u8| b == 0);
        any_byte_cases(s, |b: u8| b == 0);
        assert(quote != 0 <==> word_holds(w, 0x22)) by {
            assert(((q & 0xff) as u8 == 0 || ((q >> 8) & 0xff) as u8 == 0 || ((q >> 16) & 0xff) as u8
                == 0 || ((q >> 24) & 0xff) as u8 == 0 || ((q >> 32) & 0xff) as u8 == 0 || ((q >> 40)
                & 0xff) as u8 == 0 || ((q >> 48) & 0xff) as u8 == 0 || ((q >> 56) & 0xff) as u8 == 0)
                <==> word_holds(w, 0x22)) by (bit_vector)
                requires
                    q == w ^ 0x2222_2222_2222_2222,
            ;
        }
        assert(backslash != 0 <==> word_holds(w, 0x5c)) by {
            assert(((s & 0xff) as u8 == 0 || ((s >> 8) & 0xff) as u8 == 0 || ((s >> 16) & 0xff) as u8
                == 0 || ((s >> 24) & 0xff) as u8 == 0 || ((s >> 32) & 0xff) as u8 == 0 || ((s >> 40)
                & 0xff) as u8 == 0 || ((s >> 48) & 0xff) as u8 == 0 || ((s >> 56) & 0xff) as u8 == 0)
                <==> word_holds(w, 0x5c)) by (bit_vector)
                requires
                    s == w ^ 0x5c5c_5c5c_5c5c_5c5c,
            ;
        }
        assert(d == w - 0x2020_2020_2020_2020 || d == w - 0x2020_2020_2020_2020
            + 0x1_0000_0000_0000_0000);
        assert(ctrl != 0 <==> word_below(w, 0x20)) by (bit_vector)
            requires
                d == w - 0x2020_2020_2020_2020 || d == w - 0x2020_2020_2020_2020
                    + 0x1_0000_0000_0000_0000,
                ctrl == d & !w & 0x8080_8080_8080_8080,
        ;
        assert((ctrl | quote | backslash) != 0 <==> (ctrl != 0 || quote != 0 || backslash != 0))
            by (bit_vector);
    }
    (ctrl | quote | backslash) != 0
}

/// Some byte of the word equals `c`.
spec fn word_holds(w: u64, c: u8) -> bool {
    (w & 0xff) as u8 == c || ((w >> 8) & 0xff) as u8 == c || ((w >> 16) & 0xff) as u8 == c || ((w
        >> 24) & 0xff) as u8 == c || ((w >> 32) & 0xff) as u8 == c || ((w >> 40) & 0xff) as u8 == c
        || ((w >> 48) & 0xff) as u8 == c || ((w >> 56) & 0xff) as u8 == c
}

/// Some byte of the word is below `c`.
spec fn word_below(w: u64, c: u8) -> bool {
    ((w & 0xff) as u8) < c || (((w >> 8) & 0xff) as u8) < c || (((w >> 16) & 0xff) as u8) < c || (((
    w >> 24) & 0xff) as u8) < c || (((w >> 32) & 0xff) as u8) < c || (((w >> 40) & 0xff) as u8) < c
        || (((w >> 48) & 0xff) as u8) < c || (((w >> 56) & 0xff) as u8) < c
}

/// The eight bytes at `at`, as a little-endian word.
pub fn load(s: &[u8], at: usize) -> (r: u64)
    requires
        at + 8 <= s@.len(),
    ensures
        forall|k: int| 0 <= k < 8 ==> #[trigger] byte_of(r, k) == s@[at + k],
{
    let b0: u64 = s[at] as u64;
    let b1: u64 = s[at + 1] as u64;
    let b2: u64 = s[at + 2] as u64;
    let b3: u64 = s[at + 3] as u64;
    let b4: u64 = s[at + 4] as u64;
    let b5: u64 = s[at + 5] as u64;
    let b6: u64 = s[at + 6] as u64;
    let b7: u64 = s[at + 7] as u64;
    let r: u64 = b0 | (b1 << 8) | (b2 << 16) | (b3 << 24) | (b4 << 32) | (b5 << 40) | (b6 << 48) | (
    b7 << 56);
    proof {
        bytes_of_word(r);
        assert((r & 0xff) as u8 == b0 && ((r >> 8) & 0xff) as u8 == b1 && ((r >> 16) & 0xff) as u8
            == b2 && ((r >> 24) & 0xff) as u8 == b3 && ((r >> 32) & 0xff) as u8 == b4 && ((r >> 40)
            & 0xff) as u8 == b5 && ((r >> 48) & 0xff) as u8 == b6 && ((r >> 56) & 0xff) as u8 == b7)
            by (bit_vector)
            requires
                b0 < 256 && b1 < 256 && b2 < 256 && b3 < 256 && b4 < 256 && b5 < 256 && b6 < 256
                    && b7 < 256,
                r == b0 | (b1 << 8) | (b2 << 16) | (b3 << 24) | (b4 << 32) | (b5 << 40) | (b6 << 48)
                    | (b7 << 56),
        ;
    }
    r
}

/// Does a loaded word hold a byte that satisfies `p`? Then `s` does, within the
/// eight bytes that were loaded, and the other way round.
proof fn loaded_any(s: Seq<u8>, at: int, w: u64, p: spec_fn(u8) -> bool)
    requires
        0 <= at,
        at + 8 <= s.len(),
        forall|k: int| 0 <= k < 8 ==> #[trigger] byte_of(w, k) == s[at + k],
    ensures
        any_byte(w, p) <==> exists|i: int| at <= i < at + 8 && p(#[trigger] s[i]),
{
    if any_byte(w, p) {
        let k = choose|k: int| 0 <= k < 8 && p(#[trigger] byte_of(w, k));
        assert(p(s[at + k]));
    }
    if exists|i: int| at <= i < at + 8 && p(#[trigger] s[i]) {
        let i = choose|i: int| at <= i < at + 8 && p(#[trigger] s[i]);
        assert(p(byte_of(w, i - at)));
    }
}

/// Index of the first byte at or after `from` that is `"`, `\` or a control
/// character.
pub fn find_special(s: &[u8], from: usize) -> (r: Option<usize>)
    ensures
        match r {
            Some(at) => from <= at < s@.len() && special(s@[at as int]) && forall|i: int|
                from <= i < at ==> !special(#[trigger] s@[i]),
            None => forall|i: int| from <= i < s@.len() ==> !special(#[trigger] s@[i]),
        },
{
    let mut i: usize = from;
    while i < s.len() && s.len() - i >= 8
        invariant_except_break
            from == i || from <= i <= s@.len(),
            forall|j: int| from <= j < i ==> !special(#[trigger] s@[j]),
        ensures
            from == i || from <= i <= s@.len(),
            forall|j: int| from <= j < i ==> !special(#[trigger] s@[j]),
        decreases s@.len() - i,
    {
        let w: u64 = load(s, i);
        proof {
            loaded_any(s@, i as int, w, |b: u8| special(b));
        }
        if has_special(w) {
            break;
        }
        proof {
            assert forall|j: int| from <= j < i + 8 implies !special(#[trigger] s@[j]) by {
                if j >= i {
                    assert(!(|b: u8| special(b))(s@[j]));
                }
            }
        }
        i += 8;
    }
    while i < s.len()
        invariant
            from == i || from <= i <= s@.len(),
            forall|j: int| from <= j < i ==> !special(#[trigger] s@[j]),
        decreases s@.len() - i,
    {
        let b: u8 = s[i];
        if b < 0x20 || b == 0x22 || b == 0x5c {
            return Some(i);
        }
        i += 1;
    }
    None
}

/// Are all bytes ASCII?
pub fn is_ascii(s: &[u8]) -> (r: bool)
    ensures
        r <==> forall|i: int| 0 <= i < s@.len() ==> #[trigger] s@[i] < 0x80,
{
    let mut i: usize = 0;
    while s.len() - i >= 8
        invariant
            i <= s@.len(),
            forall|j: int| 0 <= j < i ==> #[trigger] s@[j] < 0x80,
        decreases s@.len() - i,
    {
        let w: u64 = load(s, i);
        proof {
            let p = |b: u8| b >= 0x80;
            loaded_any(s@, i as int, w, p);
            any_byte_cases(w, p);
            bytes_of_word(w);
            assert(w & HI != 0 <==> ((w & 0xff) as u8 >= 0x80 || ((w >> 8) & 0xff) as u8 >= 0x80
                || ((w >> 16) & 0xff) as u8 >= 0x80 || ((w >> 24) & 0xff) as u8 >= 0x80 || ((w
                >> 32) & 0xff) as u8 >= 0x80 || ((w >> 40) & 0xff) as u8 >= 0x80 || ((w >> 48)
                & 0xff) as u8 >= 0x80 || ((w >> 56) & 0xff) as u8 >= 0x80)) by (bit_vector);
            assert(w & HI != 0 <==> any_byte(w, p));
        }
        if w & HI != 0 {
            return false;
        }
        proof {
            assert forall|j: int| 0 <= j < i + 8 implies #[trigger] s@[j] < 0x80 by {
                if j >= i {
                    assert(!(|b: u8| b >= 0x80)(s@[j]));
                }
            }
        }
        i += 8;
    }
    while i < s.len()
        invariant
            i <= s@.len(),
            forall|j: int| 0 <= j < i ==> #[trigger] s@[j] < 0x80,
        decreases s@.len() - i,
    {
        if s[i] >= 0x80 {
            return false;
        }
        i += 1;
    }
    true
}

/// Is this byte an ASCII digit?
pub open spec fn digit(b: u8) -> bool {
    0x30 <= b <= 0x39
}

/// The value of a run of ASCII digits, most significant first.
pub open spec fn digits_value(s: Seq<u8>) -> nat
    decreases s.len(),
{
    if s.len() == 0 {
        0
    } else {
        digits_value(s.drop_last()) * 10 + (s.last() - 0x30) as nat
    }
}

/// The bytes of a word in the order in which `load` reads them.
pub open spec fn word_bytes(w: u64) -> Seq<u8> {
    Seq::new(8, |k: int| byte_of(w, k))
}

/// Are all 8 bytes ASCII digits?
pub fn is_8digits(v: u64) -> (r: bool)
    ensures
        r <==> forall|k: int| 0 <= k < 8 ==> digit(#[trigger] byte_of(v, k)),
{
    let a: u64 = v.wrapping_add(0x4646_4646_4646_4646);
    let b: u64 = v.wrapping_sub(0x3030_3030_3030_3030);
    proof {
        let p = |b: u8| !digit(b);
        any_byte_cases(v, p);
        bytes_of_word(v);
        assert(((a | b) & 0x8080_8080_8080_8080 == 0) <==> !(word_below(v, 0x30) || word_above(
            v,
            0x39,
        ))) by (bit_vector)
            requires
                a == v + 0x4646_4646_4646_4646 || a == v + 0x4646_4646_4646_4646
                    - 0x1_0000_0000_0000_0000,
                b == v - 0x3030_3030_3030_3030 || b == v - 0x3030_3030_3030_3030
                    + 0x1_0000_0000_0000_0000,
        ;
        assert(any_byte(v, p) <==> (word_below(v, 0x30) || word_above(v, 0x39)));
        if !any_byte(v, p) {
            assert forall|k: int| 0 <= k < 8 implies digit(#[trigger] byte_of(v, k)) by {
                assert(!p(byte_of(v, k)));
            }
        }
    }
    (a | b) & HI == 0
}

/// Some byte of the word is above `c`.
spec fn word_above(w: u64, c: u8) -> bool {
    ((w & 0xff) as u8) > c || (((w >> 8) & 0xff) as u8) > c || (((w >> 16) & 0xff) as u8) > c || (((
    w >> 24) & 0xff) as u8) > c || (((w >> 32) & 0xff) as u8) > c || (((w >> 40) & 0xff) as u8) > c
        || (((w >> 48) & 0xff) as u8) > c || (((w >> 56) & 0xff) as u8) > c
}

/// Value of 8 ASCII digits loaded little-endian.
pub fn parse_8digits(v: u64) -> (r: u64)
    requires
        forall|k: int| 0 <= k < 8 ==> digit(#[trigger] byte_of(v, k)),
    ensures
        r == digits_value(word_bytes(v)),
{
    let mask: u64 = 0x0000_00FF_0000_00FF;
    let mul1: u64 = 0x000F_4240_0000_0064;
    let mul2: u64 = 0x0000_2710_0000_0001;
    let ghost d0 = (v & 0xff) as u8;
    let ghost d1 = ((v >> 8) & 0xff) as u8;
    let ghost d2 = ((v >> 16) & 0xff) as u8;
    let ghost d3 = ((v >> 24) & 0xff) as u8;
    let ghost d4 = ((v >> 32) & 0xff) as u8;
    let ghost d5 = ((v >> 40) & 0xff) as u8;
    let ghost d6 = ((v >> 48) & 0xff) as u8;
    let ghost d7 = ((v >> 56) & 0xff) as u8;
    proof {
        bytes_of_word(v);
        assert(digit(byte_of(v, 0)) && digit(byte_of(v, 1)) && digit(byte_of(v, 2)) && digit(
            byte_of(v, 3),
        ) && digit(byte_of(v, 4)) && digit(byte_of(v, 5)) && digit(byte_of(v, 6)) && digit(
            byte_of(v, 7),
        ));
        assert(0x3030_3030_3030_3030 <= v <= 0x3939_3939_3939_3939) by (bit_vector)
            requires
                d0 == (v & 0xff) as u8 && d1 == ((v >> 8) & 0xff) as u8 && d2 == ((v >> 16) & 0xff)
                    as u8 && d3 == ((v >> 24) & 0xff) as u8 && d4 == ((v >> 32) & 0xff) as u8 && d5
                    == ((v >> 40) & 0xff) as u8 && d6 == ((v >> 48) & 0xff) as u8 && d7 == ((v
                    >> 56) & 0xff) as u8,
                0x30 <= d0 <= 0x39 && 0x30 <= d1 <= 0x39 && 0x30 <= d2 <= 0x39 && 0x30 <= d3
                    <= 0x39 && 0x30 <= d4 <= 0x39 && 0x30 <= d5 <= 0x39 && 0x30 <= d6 <= 0x39
                    && 0x30 <= d7 <= 0x39,
        ;
    }
    let p: u64 = v - 0x3030_3030_3030_3030;
    proof {
        assert((p >> 8) <= p) by (bit_vector);
    }
    let q: u64 = (p * 10) + (p >> 8);
    let m1: u64 = q & mask;
    let m2: u64 = (q >> 16) & mask;
    let v1: u64 = m1.wrapping_mul(mul1);
    let v2: u64 = m2.wrapping_mul(mul2);
    let t: u64 = v1.wrapping_add(v2);
    let r: u64 = ((t >> 32) as u32) as u64;
    proof {
        pair_digits(v, p, q, m1, m2, d0, d1, d2, d3, d4, d5, d6, d7);
        let a: int = 10 * (d0 - 0x30) + (d1 - 0x30);
        let b: int = 10 * (d4 - 0x30) + (d5 - 0x30);
        let c: int = 10 * (d2 - 0x30) + (d3 - 0x30);
        let e: int = 10 * (d6 - 0x30) + (d7 - 0x30);
        let value: int = 1000000 * a + 100 * b + 10000 * c + e;
        combine_pairs(m1, m2, v1, v2, t, a, b, c, e);
        assert(t >> 32 == t / 0x1_0000_0000) by (bit_vector);
        assert(r == value);
        let s = word_bytes(v);
        digits_value_8(s);
    }
    r
}

/// Two masks of `parse_8digits` pick the four two-digit values.
proof fn pair_digits(
    v: u64,
    p: u64,
    q: u64,
    m1: u64,
    m2: u64,
    d0: u8,
    d1: u8,
    d2: u8,
    d3: u8,
    d4: u8,
    d5: u8,
    d6: u8,
    d7: u8,
)
    requires
        p == v - 0x3030_3030_3030_3030,
        q == p * 10 + (p >> 8),
        m1 == q & 0x0000_00FF_0000_00FF,
        m2 == (q >> 16) & 0x0000_00FF_0000_00FF,
        d0 == (v & 0xff) as u8 && d1 == ((v >> 8) & 0xff) as u8,
        d2 == ((v >> 16) & 0xff) as u8 && d3 == ((v >> 24) & 0xff) as u8,
        d4 == ((v >> 32) & 0xff) as u8 && d5 == ((v >> 40) & 0xff) as u8,
        d6 == ((v >> 48) & 0xff) as u8 && d7 == ((v >> 56) & 0xff) as u8,
        0x30 <= d0 <= 0x39 && 0x30 <= d1 <= 0x39 && 0x30 <= d2 <= 0x39 && 0x30 <= d3 <= 0x39,
        0x30 <= d4 <= 0x39 && 0x30 <= d5 <= 0x39 && 0x30 <= d6 <= 0x39 && 0x30 <= d7 <= 0x39,
    ensures
        m1 == (10 * (d0 - 0x30) + (d1 - 0x30)) + (10 * (d4 - 0x30) + (d5 - 0x30)) * 0x1_0000_0000,
        m2 == (10 * (d2 - 0x30) + (d3 - 0x30)) + (10 * (d6 - 0x30) + (d7 - 0x30)) * 0x1_0000_0000,
{
    assert(m1 == (10 * (d0 - 0x30) + (d1 - 0x30)) + (10 * (d4 - 0x30) + (d5 - 0x30))
        * 0x1_0000_0000 && m2 == (10 * (d2 - 0x30) + (d3 - 0x30)) + (10 * (d6 - 0x30) + (d7
        - 0x30)) * 0x1_0000_0000) by (bit_vector)
        requires
            p == v - 0x3030_3030_3030_3030,
            q == p * 10 + (p >> 8),
            m1 == q & 0x0000_00FF_0000_00FF,
            m2 == (q >> 16) & 0x0000_00FF_0000_00FF,
            d0 == (v & 0xff) as u8 && d1 == ((v >> 8) & 0xff) as u8 && d2 == ((v >> 16) & 0xff)
                as u8 && d3 == ((v >> 24) & 0xff) as u8 && d4 == ((v >> 32) & 0xff) as u8 && d5
                == ((v >> 40) & 0xff) as u8 && d6 == ((v >> 48) & 0xff) as u8 && d7 == ((v
                >> 56) & 0xff) as u8,
            0x30 <= d0 <= 0x39 && 0x30 <= d1 <= 0x39 && 0x30 <= d2 <= 0x39 && 0x30 <= d3
                <= 0x39 && 0x30 <= d4 <= 0x39 && 0x30 <= d5 <= 0x39 && 0x30 <= d6 <= 0x39
                && 0x30 <= d7 <= 0x39,
    ;
}

/// The two multiplications of `parse_8digits` gather four two-digit values.
proof fn combine_pairs(m1: u64, m2: u64, v1: u64, v2: u64, t: u64, a: int, b: int, c: int, e: int)
    requires
        0 <= a <= 99 && 0 <= b <= 99 && 0 <= c <= 99 && 0 <= e <= 99,
        m1 == a + b * 0x1_0000_0000,
        m2 == c + e * 0x1_0000_0000,
        v1 == (m1 * 0x000F_4240_0000_0064) % 0x1_0000_0000_0000_0000,
        v2 == (m2 * 0x0000_2710_0000_0001) % 0x1_0000_0000_0000_0000,
        t == v1 + v2 || t == v1 + v2 - 0x1_0000_0000_0000_0000,
    ensures
        t / 0x1_0000_0000 == 1000000 * a + 100 * b + 10000 * c + e,
{
    let range: int = 0x1_0000_0000_0000_0000;
    let r1: int = 100 * a + (1000000 * a + 100 * b) * 0x1_0000_0000;
    let r2: int = c + (10000 * c + e) * 0x1_0000_0000;
    lemma_fundamental_div_mod_converse(m1 * 0x000F_4240_0000_0064, range, 1000000 * b, r1);
    lemma_fundamental_div_mod_converse(m2 * 0x0000_2710_0000_0001, range, 10000 * e, r2);
    let value: int = 1000000 * a + 100 * b + 10000 * c + e;
    lemma_fundamental_div_mod_converse(t as int, 0x1_0000_0000, value, 100 * a + c);
}

/// The value of eight digits, expanded.
proof fn digits_value_8(s: Seq<u8>)
    requires
        s.len() == 8,
        forall|k: int| 0 <= k < 8 ==> digit(#[trigger] s[k]),
    ensures
        digits_value(s) == (s[0] - 0x30) * 10000000 + (s[1] - 0x30) * 1000000 + (s[2] - 0x30)
            * 100000 + (s[3] - 0x30) * 10000 + (s[4] - 0x30) * 1000 + (s[5] - 0x30) * 100 + (s[6]
            - 0x30) * 10 + (s[7] - 0x30),
{
    reveal_with_fuel(digits_value, 9);
    assert(digit(s[0]) && digit(s[1]) && digit(s[2]) && digit(s[3]) && digit(s[4]) && digit(s[5])
        && digit(s[6]) && digit(s[7]));
}

/// The value of four digits, expanded.
proof fn digits_value_4(s: Seq<u8>)
    requires
        s.len() == 4,
        forall|k: int| 0 <= k < 4 ==> digit(#[trigger] s[k]),
    ensures
        digits_value(s) == (s[0] - 0x30) * 1000 + (s[1] - 0x30) * 100 + (s[2] - 0x30) * 10 + (s[3]
            - 0x30),
{
    reveal_with_fuel(digits_value, 5);
    assert(digit(s[0]) && digit(s[1]) && digit(s[2]) && digit(s[3]));
}

/// Byte `k` of a half word, counted from the least significant end.
pub open spec fn byte_of4(w: u32, k: int) -> u8 {
    ((w >> ((8 * k) as u32)) & 0xff) as u8
}

/// The bytes of a half word in the order in which `load4` reads them.
pub open spec fn word_bytes4(w: u32) -> Seq<u8> {
    Seq::new(4, |k: int| byte_of4(w, k))
}

/// The four bytes of a half word, spelled out.
proof fn bytes_of_word4(w: u32)
    ensures
        byte_of4(w, 0) == (w & 0xff) as u8,
        byte_of4(w, 1) == ((w >> 8) & 0xff) as u8,
        byte_of4(w, 2) == ((w >> 16) & 0xff) as u8,
        byte_of4(w, 3) == ((w >> 24) & 0xff) as u8,
{
    assert(w >> 0u32 == w) by (bit_vector);
}

/// The four bytes at `at`, as a little-endian half word.
pub fn load4(s: &[u8], at: usize) -> (r: u32)
    requires
        at + 4 <= s@.len(),
    ensures
        forall|k: int| 0 <= k < 4 ==> #[trigger] byte_of4(r, k) == s@[at + k],
{
    let b0: u32 = s[at] as u32;
    let b1: u32 = s[at + 1] as u32;
    let b2: u32 = s[at + 2] as u32;
    let b3: u32 = s[at + 3] as u32;
    let r: u32 = b0 | (b1 << 8) | (b2 << 16) | (b3 << 24);
    proof {
        bytes_of_word4(r);
        assert((r & 0xff) as u8 == b0 && ((r >> 8) & 0xff) as u8 == b1 && ((r >> 16) & 0xff) as u8
            == b2 && ((r >> 24) & 0xff) as u8 == b3) by (bit_vector)
            requires
                b0 < 256 && b1 < 256 && b2 < 256 && b3 < 256,
                r == b0 | (b1 << 8) | (b2 << 16) | (b3 << 24),
        ;
    }
    r
}

/// Are all 4 bytes ASCII digits?
pub fn is_4digits(v: u32) -> (r: bool)
    ensures
        r <==> forall|k: int| 0 <= k < 4 ==> digit(#[trigger] byte_of4(v, k)),
{
    let a: u32 = v.wrapping_add(0x4646_4646);
    let b: u32 = v.wrapping_sub(0x3030_3030);
    proof {
        bytes_of_word4(v);
        assert(((a | b) & 0x8080_8080 == 0) <==> (0x30 <= (v & 0xff) <= 0x39 && 0x30 <= ((v >> 8)
            & 0xff) <= 0x39 && 0x30 <= ((v >> 16) & 0xff) <= 0x39 && 0x30 <= ((v >> 24) & 0xff)
            <= 0x39)) by (bit_vector)
            requires
                a == v + 0x4646_4646 || a == v + 0x4646_4646 - 0x1_0000_0000,
                b == v - 0x3030_3030 || b == v - 0x3030_3030 + 0x1_0000_0000,
        ;
        assert((v & 0xff) < 256 && ((v >> 8) & 0xff) < 256 && ((v >> 16) & 0xff) < 256 && ((v
            >> 24) & 0xff) < 256) by (bit_vector);
        if (a | b) & 0x8080_8080 == 0 {
            assert forall|k: int| 0 <= k < 4 implies digit(#[trigger] byte_of4(v, k)) by {
                assert(k == 0 || k == 1 || k == 2 || k == 3);
            }
        } else {
            assert(!digit(byte_of4(v, 0)) || !digit(byte_of4(v, 1)) || !digit(byte_of4(v, 2))
                || !digit(byte_of4(v, 3)));
        }
    }
    (a | b) & 0x8080_8080 == 0
}

/// Value of 4 ASCII digits loaded little-endian.
pub fn parse_4digits(v: u32) -> (r: u64)
    requires
        forall|k: int| 0 <= k < 4 ==> digit(#[trigger] byte_of4(v, k)),
    ensures
        r == digits_value(word_bytes4(v)),
{
    let ghost d0 = (v & 0xff) as u8;
    let ghost d1 = ((v >> 8) & 0xff) as u8;
    let ghost d2 = ((v >> 16) & 0xff) as u8;
    let ghost d3 = ((v >> 24) & 0xff) as u8;
    proof {
        bytes_of_word4(v);
        assert(digit(byte_of4(v, 0)) && digit(byte_of4(v, 1)) && digit(byte_of4(v, 2)) && digit(
            byte_of4(v, 3),
        ));
        assert(0x3030_3030 <= v <= 0x3939_3939) by (bit_vector)
            requires
                d0 == (v & 0xff) as u8 && d1 == ((v >> 8) & 0xff) as u8 && d2 == ((v >> 16) & 0xff)
                    as u8 && d3 == ((v >> 24) & 0xff) as u8,
                0x30 <= d0 <= 0x39 && 0x30 <= d1 <= 0x39 && 0x30 <= d2 <= 0x39 && 0x30 <= d3
                    <= 0x39,
        ;
    }
    let p: u32 = v - 0x3030_3030;
    proof {
        assert(p >> 8 <= p) by (bit_vector);
    }
    // bytes 0 and 2 hold the two-digit values
    let q: u32 = p.wrapping_mul(10).wrapping_add(p >> 8);
    let m: u32 = q & 0x00FF_00FF;
    let t: u32 = m.wrapping_mul(0x0064_0001);
    let r: u64 = ((t >> 16) & 0xFFFF) as u64;
    proof {
        assert(q == p * 10 + (p >> 8));
        assert(m == (10 * (d0 - 0x30) + (d1 - 0x30)) + (10 * (d2 - 0x30) + (d3 - 0x30)) * 0x1_0000)
            by (bit_vector)
            requires
                p == v - 0x3030_3030,
                q == p * 10 + (p >> 8),
                m == q & 0x00FF_00FF,
                d0 == (v & 0xff) as u8 && d1 == ((v >> 8) & 0xff) as u8 && d2 == ((v >> 16) & 0xff)
                    as u8 && d3 == ((v >> 24) & 0xff) as u8,
                0x30 <= d0 <= 0x39 && 0x30 <= d1 <= 0x39 && 0x30 <= d2 <= 0x39 && 0x30 <= d3
                    <= 0x39,
        ;
        let a: int = 10 * (d0 - 0x30) + (d1 - 0x30);
        let b: int = 10 * (d2 - 0x30) + (d3 - 0x30);
        lemma_fundamental_div_mod_converse(
            m * 0x0064_0001,
            0x1_0000_0000,
            (100 * b) as int,
            a + (100 * a + b) * 0x1_0000,
        );
        lemma_fundamental_div_mod_converse(t as int, 0x1_0000, 100 * a + b, a);
        assert((t >> 16) & 0xFFFF == t / 0x1_0000) by (bit_vector);
        digits_value_4(word_bytes4(v));
    }
    r
}

/// Are two runs of bytes the same?
pub fn same_bytes(a: &[u8], b: &[u8]) -> (r: bool)
    ensures
        r == (a@ == b@),
{
    if a.len() != b.len() {
        return false;
    }
    let mut i: usize = 0;
    while i < a.len()
        invariant
            i <= a@.len() == b@.len(),
            forall|k: int| 0 <= k < i ==> a@[k] == b@[k],
        decreases a@.len() - i,
    {
        if a[i] != b[i] {
            return false;
        }
        i += 1;
    }
    assert(a@ =~= b@);
    true
}

} // verus!

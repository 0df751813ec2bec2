//! JSON string text.
use crate::out::Out;
use crate::swar::{find_special, special};
use vstd::prelude::*;
use vstd::utf8::encode_scalar;

verus! {

/// A lower-case hexadecimal digit.
pub open spec fn hex_digit(n: int) -> u8 {
    if n < 10 {
        (0x30 + n) as u8
    } else {
        (0x61 + n - 10) as u8
    }
}

/// The letter of a two-character escape, for the bytes that have one.
pub open spec fn escape_letter(b: u8) -> Option<u8> {
    if b == 0x22 || b == 0x5c {
        Some(b)
    } else if b == 0x08 {
        Some(0x62)
    } else if b == 0x09 {
        Some(0x74)
    } else if b == 0x0a {
        Some(0x6e)
    } else if b == 0x0c {
        Some(0x66)
    } else if b == 0x0d {
        Some(0x72)
    } else {
        None
    }
}

/// What one byte of a string becomes.
pub open spec fn escaped_byte(b: u8) -> Seq<u8> {
    if !special(b) {
        seq![b]
    } else {
        match escape_letter(b) {
            Some(letter) => seq![0x5cu8, letter],
            None => seq![
                0x5cu8,
                0x75,
                0x30,
                0x30,
                hex_digit(b as int / 16),
                hex_digit(b as int % 16),
            ],
        }
    }
}

/// What the bytes of a string become.
pub open spec fn escaped(s: Seq<u8>) -> Seq<u8>
    decreases s.len(),
{
    if s.len() == 0 {
        Seq::empty()
    } else {
        escaped(s.drop_last()) + escaped_byte(s.last())
    }
}

/// A string in JSON: its escaped bytes between quotes.
pub open spec fn quoted(s: Seq<u8>) -> Seq<u8> {
    seq![0x22u8] + escaped(s) + seq![0x22u8]
}

/// Escaping goes byte by byte: it can be done in two parts.
pub proof fn escaped_concat(a: Seq<u8>, b: Seq<u8>)
    ensures
        escaped(a + b) == escaped(a) + escaped(b),
    decreases b.len(),
{
    if b.len() == 0 {
        assert(a + b == a);
        assert(escaped(a) + escaped(b) == escaped(a));
    } else {
        assert((a + b).drop_last() == a + b.drop_last());
        escaped_concat(a, b.drop_last());
        assert(escaped(a + b) == escaped(a) + escaped(b));
    }
}

/// A run of bytes that are not special stays as it is.
pub proof fn escaped_plain(s: Seq<u8>)
    requires
        forall|i: int| 0 <= i < s.len() ==> !special(#[trigger] s[i]),
    ensures
        escaped(s) == s,
    decreases s.len(),
{
    if s.len() > 0 {
        assert forall|i: int| 0 <= i < s.drop_last().len() implies !special(
            #[trigger] s.drop_last()[i],
        ) by {
            assert(!special(s[i]));
        }
        escaped_plain(s.drop_last());
        assert(!special(s[s.len() - 1]));
        assert(s.drop_last() + seq![s.last()] == s);
    }
}

fn hex(n: u8) -> (r: u8)
    requires
        n < 16,
    ensures
        r == hex_digit(n as int),
{
    if n < 10 {
        0x30 + n
    } else {
        0x61 + (n - 10)
    }
}

/// Copies the bytes of `s` from `i` on, up to the first that needs escaping or to
/// the end. Returns where it stopped.
pub fn copy_plain(s: &[u8], i: usize, out: &mut Out) -> (r: usize)
    requires
        i <= s@.len(),
    ensures
        i <= r <= s@.len(),
        final(out)@ == old(out)@ + s@.subrange(i as int, r as int),
        forall|k: int| i <= k < r ==> !special(#[trigger] s@[k]),
        r == s@.len() || special(s@[r as int]),
{
    let end: usize = match find_special(s, i) {
        Some(at) => at,
        None => s.len(),
    };
    out.extend_from_slice(&s[i..end]);
    end
}

/// Writes the escape of a special byte.
fn write_escape(out: &mut Out, b: u8)
    requires
        special(b),
    ensures
        final(out)@ == old(out)@ + escaped_byte(b),
{
    let letter: u8 = if b == 0x22 || b == 0x5c {
        b
    } else if b == 0x08 {
        0x62
    } else if b == 0x09 {
        0x74
    } else if b == 0x0a {
        0x6e
    } else if b == 0x0c {
        0x66
    } else if b == 0x0d {
        0x72
    } else {
        0x75
    };
    if letter == 0x75 {
        out.push(0x5c);
        out.push(0x75);
        out.push(0x30);
        out.push(0x30);
        out.push(hex(b / 16));
        out.push(hex(b % 16));
    } else {
        out.push(0x5c);
        out.push(letter);
    }
}

/// Writes `s` as a JSON string.
pub fn write_escaped(out: &mut Out, s: &[u8])
    ensures
        final(out)@ == old(out)@ + quoted(s@),
{
    let n: usize = s.len();
    out.reserve(n);
    out.push(0x22);
    let ghost start = out@;
    let mut i: usize = copy_plain(s, 0, out);
    proof {
        escaped_plain(s@.subrange(0, i as int));
    }
    while i < n
        invariant
            n == s@.len(),
            i <= n,
            i == n || special(s@[i as int]),
            out@ == start + escaped(s@.subrange(0, i as int)),
        decreases n - i,
    {
        write_escape(out, s[i]);
        proof {
            assert(s@.subrange(0, i + 1).drop_last() == s@.subrange(0, i as int));
        }
        i += 1;
        let ghost mid = i;
        i = copy_plain(s, i, out);
        proof {
            let plain = s@.subrange(mid as int, i as int);
            escaped_plain(plain);
            escaped_concat(s@.subrange(0, mid as int), plain);
            assert(s@.subrange(0, mid as int) + plain == s@.subrange(0, i as int));
        }
    }
    out.push(0x22);
    assert(s@.subrange(0, n as int) == s@);
}

/// The value of a hexadecimal digit of either case.
pub open spec fn hex_value(c: u8) -> Option<int> {
    if 0x30 <= c <= 0x39 {
        Some(c - 0x30)
    } else if 0x61 <= c <= 0x66 {
        Some(c - 0x61 + 10)
    } else if 0x41 <= c <= 0x46 {
        Some(c - 0x41 + 10)
    } else {
        None
    }
}

/// The value of the four hexadecimal digits at `i`.
pub open spec fn hex4_value(t: Seq<u8>, i: int) -> Option<int> {
    if t.len() < i + 4 {
        None
    } else {
        match (hex_value(t[i]), hex_value(t[i + 1]), hex_value(t[i + 2]), hex_value(t[i + 3])) {
            (Some(a), Some(b), Some(c), Some(d)) => Some(0x1000 * a + 0x100 * b + 0x10 * c + d),
            _ => None,
        }
    }
}

/// What the escape at the start of `t` stands for, in UTF-8, and how long it is. A
/// character beyond U+FFFF is escaped as two surrogates; a surrogate alone is no escape.
#[verifier::opaque]
pub open spec fn read_escape(t: Seq<u8>) -> Option<(Seq<u8>, int)> {
    if t.len() < 2 || t[0] != 0x5c {
        None
    } else if t[1] == 0x22 || t[1] == 0x5c || t[1] == 0x2f {
        Some((seq![t[1]], 2))
    } else if t[1] == 0x62 {
        Some((seq![0x08u8], 2))
    } else if t[1] == 0x74 {
        Some((seq![0x09u8], 2))
    } else if t[1] == 0x6e {
        Some((seq![0x0au8], 2))
    } else if t[1] == 0x66 {
        Some((seq![0x0cu8], 2))
    } else if t[1] == 0x72 {
        Some((seq![0x0du8], 2))
    } else if t[1] == 0x75 {
        match hex4_value(t, 2) {
            Some(c) => if 0xd800 <= c < 0xdc00 {
                if t.len() >= 12 && t[6] == 0x5c && t[7] == 0x75 {
                    match hex4_value(t, 8) {
                        Some(l) => if 0xdc00 <= l < 0xe000 {
                            let high = c - 0xd800;
                            Some((encode_scalar((0x10000 + 0x400 * high + l - 0xdc00) as u32), 12))
                        } else {
                            None
                        },
                        None => None,
                    }
                } else {
                    None
                }
            } else if 0xdc00 <= c < 0xe000 {
                None
            } else {
                Some((encode_scalar(c as u32), 6))
            },
            None => None,
        }
    } else {
        None
    }
}

/// Reads the rest of a JSON string, up to the quote that ends it: the bytes it
/// stands for and what follows the quote. Control characters may not stand in it.
pub open spec fn read_string_rest(t: Seq<u8>) -> Option<(Seq<u8>, Seq<u8>)>
    decreases t.len(),
{
    if t.len() == 0 {
        None
    } else if t[0] == 0x22 {
        Some((Seq::empty(), t.subrange(1, t.len() as int)))
    } else if t[0] == 0x5c {
        match read_escape(t) {
            Some((b, n)) => if 0 < n <= t.len() {
                match read_string_rest(t.subrange(n, t.len() as int)) {
                    Some((s, rest)) => Some((b + s, rest)),
                    None => None,
                }
            } else {
                None
            },
            None => None,
        }
    } else if t[0] < 0x20 {
        None
    } else {
        match read_string_rest(t.subrange(1, t.len() as int)) {
            Some((s, rest)) => Some((seq![t[0]] + s, rest)),
            None => None,
        }
    }
}

/// Reads a JSON string at the start of `t`.
pub open spec fn read_string(t: Seq<u8>) -> Option<(Seq<u8>, Seq<u8>)> {
    if t.len() > 0 && t[0] == 0x22 {
        read_string_rest(t.subrange(1, t.len() as int))
    } else {
        None
    }
}

/// The escape of a byte is read back as the byte.
proof fn escape_reads_back(b: u8, after: Seq<u8>)
    requires
        special(b),
    ensures
        read_escape(escaped_byte(b) + after) == Some((seq![b], escaped_byte(b).len() as int)),
        (escaped_byte(b) + after)[0] == 0x5c,
{
    reveal(read_escape);
    let e = escaped_byte(b);
    let t = e + after;
    assert(t[0] == e[0] && t[1] == e[1]);
    if escape_letter(b) is None {
        assert(t[2] == e[2] && t[3] == e[3]);
        assert(t[4] == hex_digit(b as int / 16));
        assert(t[5] == hex_digit(b as int % 16));
        assert(hex4_value(t, 2) == Some(b as int));
        let c = b as u32;
        assert(c & 0x7f == c) by (bit_vector)
            requires
                c < 0x80,
        ;
        assert(encode_scalar(c) =~= seq![b]);
    }
}

proof fn escaped_reads_back(s: Seq<u8>, rest: Seq<u8>)
    ensures
        read_string_rest(escaped(s) + seq![0x22u8] + rest) == Some((s, rest)),
    decreases s.len(),
{
    let quote = seq![0x22u8];
    let t = escaped(s) + quote + rest;
    if s.len() == 0 {
        assert(t.subrange(1, t.len() as int) == rest);
        assert(s =~= Seq::empty());
    } else {
        let b = s[0];
        let tail = s.subrange(1, s.len() as int);
        assert(s == seq![b] + tail);
        escaped_concat(seq![b], tail);
        assert(escaped(seq![b]) == escaped_byte(b)) by {
            assert(seq![b].drop_last() =~= Seq::empty());
            assert(escaped(seq![b].drop_last()) =~= Seq::empty());
            assert(escaped(seq![b]) =~= escaped_byte(b));
        }
        let e = escaped_byte(b);
        let after = escaped(tail) + quote + rest;
        assert(t == e + after);
        escaped_reads_back(tail, rest);
        assert(t.subrange(e.len() as int, t.len() as int) == after);
        if special(b) {
            escape_reads_back(b, after);
        } else {
            assert(t[0] == b);
        }
        assert(s == seq![b] + tail);
    }
}

/// A string that was written is read back as it was, wherever it stands: the
/// reader stops at the quote that ends it, and nothing in it is mistaken for that
/// quote, for an escape or for a control character.
pub proof fn quoted_reads_back(s: Seq<u8>, rest: Seq<u8>)
    ensures
        read_string(quoted(s) + rest) == Some((s, rest)),
{
    let t = quoted(s) + rest;
    escaped_reads_back(s, rest);
    assert(t.subrange(1, t.len() as int) == escaped(s) + seq![0x22u8] + rest);
}

/// A string without control characters, quotes and backslashes stands between quotes as it
/// is, whatever else it holds.
pub proof fn other_characters_stay(s: Seq<u8>)
    requires
        forall|i: int| 0 <= i < s.len() ==> #[trigger] s[i] >= 0x20 && s[i] != 0x22 && s[i] != 0x5c,
    ensures
        quoted(s) == seq![0x22u8] + s + seq![0x22u8],
{
    assert forall|i: int| 0 <= i < s.len() implies !special(#[trigger] s[i]) by {
        assert(s[i] >= 0x20);
    }
    escaped_plain(s);
}

/// An escape has two characters, or six, or twelve; one of two is that of its letter.
proof fn escape_lengths(t: Seq<u8>)
    ensures
        read_escape(t) matches Some((e, n)) ==> (n == 2 || n == 6 || n == 12) && (n == 2
            ==> t.len() >= 2 && t[0] == 0x5c && e.len() == 1 && (t[1] == 0x2f && e[0] == 0x2f
            || escape_letter(e[0]) == Some(t[1]))),
{
    reveal(read_escape);
}

/// A control character, a quote or a backslash becomes the shortest escape that stands for
/// it, in lower case: no other escape of it is shorter, and no other one is as short where
/// it has one of two characters.
pub proof fn escapes_are_shortest(b: u8, t: Seq<u8>)
    requires
        b < 0x20 || b == 0x22 || b == 0x5c,
    ensures
        escaped(seq![b]) == escaped_byte(b),
        read_escape(escaped_byte(b)) == Some((seq![b], escaped_byte(b).len() as int)),
        read_escape(t) matches Some((e, n)) ==> (e == seq![b] ==> n >= escaped_byte(b).len() && (n
            == 2 ==> t.subrange(0, 2) == escaped_byte(b))),
        forall|i: int|
            0 <= i < escaped_byte(b).len() ==> !(0x41 <= #[trigger] escaped_byte(b)[i] <= 0x5a),
{
    let e = escaped_byte(b);
    assert(seq![b].drop_last() =~= Seq::empty());
    assert(escaped(seq![b].drop_last()) =~= Seq::empty());
    assert(escaped(seq![b]) =~= e);
    escape_reads_back(b, Seq::empty());
    assert(e + Seq::empty() =~= e);
    escape_lengths(t);
    if let Some((x, n)) = read_escape(t) {
        if x == seq![b] {
            assert(x[0] == b);
            if n == 2 {
                assert(t.subrange(0, 2) =~= e);
            }
        }
    }
    assert forall|i: int| 0 <= i < e.len() implies !(0x41 <= #[trigger] e[i] <= 0x5a) by {
        if escape_letter(b) is None {
            assert(e[4] == hex_digit(b as int / 16) && e[5] == hex_digit(b as int % 16));
        }
    }
}

} // verus!

//! Decimal text of integers.
use crate::out::Out;
use crate::swar::{digit, digits_value};
use vstd::prelude::*;
use vstd::utf8::{encode_utf8, is_ascii_chars, is_ascii_chars_encode_utf8};

verus! {

/// A natural number in decimal, without leading zeros.
pub open spec fn nat_text(n: nat) -> Seq<u8>
    decreases n,
{
    if n < 10 {
        seq![(0x30 + n) as u8]
    } else {
        nat_text(n / 10).push((0x30 + n % 10) as u8)
    }
}

/// An integer in decimal, with `-` in front of a negative one.
pub open spec fn int_text(v: int) -> Seq<u8> {
    if v < 0 {
        seq![0x2du8] + nat_text((-v) as nat)
    } else {
        nat_text(v as nat)
    }
}

/// ASCII bytes as characters.
pub open spec fn ascii_chars(s: Seq<u8>) -> Seq<char> {
    Seq::new(s.len(), |i: int| s[i] as char)
}

/// The characters of ASCII bytes are encoded in UTF-8 by these bytes.
pub proof fn ascii_chars_encode(s: Seq<u8>)
    requires
        forall|i: int| 0 <= i < s.len() ==> #[trigger] s[i] < 0x80,
    ensures
        encode_utf8(ascii_chars(s)) == s,
{
    let c = ascii_chars(s);
    assert(is_ascii_chars(c));
    is_ascii_chars_encode_utf8(c);
    assert forall|i: int| 0 <= i < s.len() implies #[trigger] encode_utf8(c)[i] == s[i] by {
        assert(s[i] < 0x80);
    }
}

/// The text of an integer is ASCII.
pub proof fn int_text_ascii(v: int)
    ensures
        forall|i: int| 0 <= i < int_text(v).len() ==> #[trigger] int_text(v)[i] < 0x80,
{
    let n = if v < 0 {
        (-v) as nat
    } else {
        v as nat
    };
    nat_text_reads_back(n);
    assert forall|i: int| 0 <= i < int_text(v).len() implies #[trigger] int_text(v)[i] < 0x80 by {
        if v < 0 {
            if i > 0 {
                assert(digit(nat_text(n)[i - 1]));
            }
        } else {
            assert(digit(nat_text(n)[i]));
        }
    }
}

/// `itoa::Buffer::format`: prints an integer in decimal. Claimed: the text is the
/// shortest decimal text of `v`, with `-` in front where `v` is negative.
#[verifier::external_body]
pub(crate) fn itoa_format(v: i128) -> (r: String)
    ensures
        r@ == ascii_chars(int_text(v as int)),
{
    itoa::Buffer::new().format(v).to_owned()
}

/// Writes `v` in decimal.
pub fn write_int(out: &mut Out, v: i128)
    ensures
        final(out)@ == old(out)@ + int_text(v as int),
{
    let text: String = itoa_format(v);
    proof {
        int_text_ascii(v as int);
        ascii_chars_encode(int_text(v as int));
    }
    out.extend_from_slice(text.as_str().as_bytes());
}

/// Reading the decimal text of a number gives the number back.
pub proof fn nat_text_reads_back(n: nat)
    ensures
        digits_value(nat_text(n)) == n,
        nat_text(n).len() >= 1,
        forall|i: int| 0 <= i < nat_text(n).len() ==> digit(#[trigger] nat_text(n)[i]),
        nat_text(n)[0] == 0x30 ==> n == 0,
    decreases n,
{
    let t = nat_text(n);
    if n >= 10 {
        nat_text_reads_back(n / 10);
        assert(t.drop_last() == nat_text(n / 10));
        assert forall|i: int| 0 <= i < t.len() implies digit(#[trigger] t[i]) by {
            if i < t.len() - 1 {
                assert(digit(nat_text(n / 10)[i]));
            }
        }
        assert(t[0] == nat_text(n / 10)[0]);
    } else {
        assert(digits_value(t.drop_last()) == 0);
    }
}

/// The value that a decimal text of an integer stands for.
pub open spec fn text_value(t: Seq<u8>) -> int {
    if t.len() > 0 && t[0] == 0x2d {
        -(digits_value(t.subrange(1, t.len() as int)) as int)
    } else {
        digits_value(t) as int
    }
}

/// Reading the text of an integer gives the integer back, so that different
/// integers have different texts.
pub proof fn int_text_reads_back(v: int)
    ensures
        text_value(int_text(v)) == v,
{
    if v < 0 {
        nat_text_reads_back((-v) as nat);
        let t = int_text(v);
        assert(t.subrange(1, t.len() as int) == nat_text((-v) as nat));
    } else {
        nat_text_reads_back(v as nat);
        assert(digit(nat_text(v as nat)[0]));
    }
}

/// Ten to the power `k`.
pub open spec fn pow10(k: nat) -> nat
    decreases k,
{
    if k == 0 {
        1
    } else {
        10 * pow10((k - 1) as nat)
    }
}

/// A number below `10^k` has at most `k` digits.
pub proof fn nat_text_len(n: nat, k: nat)
    requires
        k >= 1,
        n < pow10(k),
    ensures
        nat_text(n).len() <= k,
    decreases k,
{
    if n >= 10 {
        if k == 1 {
            assert(pow10(1) == 10 * pow10(0));
        } else {
            assert(n / 10 < pow10((k - 1) as nat));
            nat_text_len(n / 10, (k - 1) as nat);
        }
    }
}

} // verus!

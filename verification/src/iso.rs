//! Reading date and time text back.
use crate::datetime::{
    datetime_text, offset_in_day, offset_text, padded, padded_len, zone_text, Parts,
};
use crate::number::pow10;
use crate::opts::{on, OPT_OMIT_MICROSECONDS};
use crate::swar::digits_value;
use vstd::prelude::*;

verus! {

/// Padded digits stand for the number, if it has no more digits than that.
pub proof fn padded_reads_back(v: nat, width: nat)
    requires
        v < pow10(width),
    ensures
        digits_value(padded(v, width)) == v,
        padded(v, width).len() == width,
    decreases width,
{
    padded_len(v, width);
    if width > 0 {
        padded_reads_back(v / 10, (width - 1) as nat);
        let t = padded(v, width);
        assert(t.drop_last() =~= padded(v / 10, (width - 1) as nat));
    }
}

/// The number in the digits `t[from..to]`.
pub open spec fn field(t: Seq<u8>, from: int, to: int) -> nat {
    digits_value(t.subrange(from, to))
}

/// The offset in microseconds that a text `±HH:MM[:SS[.ffffff]]` or `Z` stands for.
pub open spec fn read_offset(t: Seq<u8>) -> int {
    if t.len() == 1 {
        0
    } else {
        let minutes = field(t, 1, 3) * 60 + field(t, 4, 6);
        let seconds = if t.len() > 6 {
            field(t, 7, 9)
        } else {
            0
        };
        let us = if t.len() > 9 {
            field(t, 10, 16)
        } else {
            0
        };
        let m = (minutes * 60 + seconds) * 1_000_000 + us;
        if t[0] == 0x2d {
            -m
        } else {
            m as int
        }
    }
}

/// The text of an offset is exact: seconds, microseconds and the sign are kept, so
/// that the offset can be read back.
pub proof fn offset_reads_back(total_us: int, opts: u32)
    requires
        -86_400_000_000 < total_us < 86_400_000_000,
    ensures
        read_offset(offset_text(total_us, opts)) == total_us,
{
    let t = offset_text(total_us, opts);
    reveal_with_fuel(pow10, 7);
    if total_us == 0 {
        reveal_with_fuel(digits_value, 3);
        if t.len() != 1 {
            assert(t.subrange(1, 3) =~= seq![0x30u8, 0x30]);
            assert(t.subrange(4, 6) =~= seq![0x30u8, 0x30]);
            assert(seq![0x30u8, 0x30].drop_last() =~= seq![0x30u8]);
            assert(seq![0x30u8].drop_last() =~= Seq::empty());
        }
    } else {
        let m = (if total_us < 0 {
            -total_us
        } else {
            total_us
        }) as nat;
        let hh = m / 3_600_000_000;
        let mm = m / 60_000_000 % 60;
        let ss = m / 1_000_000 % 60;
        let us = m % 1_000_000;
        padded_reads_back(hh, 2);
        padded_reads_back(mm, 2);
        padded_reads_back(ss, 2);
        padded_reads_back(us, 6);
        assert(t.subrange(1, 3) =~= padded(hh, 2));
        assert(t.subrange(4, 6) =~= padded(mm, 2));
        if t.len() > 6 {
            assert(t.subrange(7, 9) =~= padded(ss, 2));
        }
        if t.len() > 9 {
            assert(t.subrange(10, 16) =~= padded(us, 6));
        }
        assert(m == ((hh * 60 + mm) * 60 + ss) * 1_000_000 + us);
    }
}

/// What a quoted `YYYY-MM-DDTHH:MM:SS[.ffffff][offset]` stands for.
pub open spec fn read_datetime(t: Seq<u8>) -> (Parts, Option<int>) {
    let fraction = t[20] == 0x2e;
    let zone = t.subrange(
        if fraction {
            27
        } else {
            20
        },
        t.len() - 1,
    );
    (
        Parts {
            y: field(t, 1, 5) as u16,
            mo: field(t, 6, 8) as u8,
            d: field(t, 9, 11) as u8,
            h: field(t, 12, 14) as u8,
            mi: field(t, 15, 17) as u8,
            s: field(t, 18, 20) as u8,
            us: if fraction {
                field(t, 21, 27) as u32
            } else {
                0
            },
        },
        if zone.len() == 0 {
            None
        } else {
            Some(read_offset(zone))
        },
    )
}

/// The text of a date and time can be read back: it stands for the fields that were
/// written, without the microseconds where they are to be omitted, and for the offset
/// that was written, if one was.
pub proof fn datetime_reads_back(p: Parts, offset: Option<i64>, opts: u32)
    requires
        p.y <= 9999 && p.mo <= 12 && p.d <= 31 && p.h < 24 && p.mi < 60 && p.s < 60 && p.us
            < 1_000_000,
        offset_in_day(offset),
    ensures
        read_datetime(datetime_text(p, offset, opts)) == (
            Parts {
                us: if on(opts, OPT_OMIT_MICROSECONDS) {
                    0
                } else {
                    p.us
                },
                ..p
            },
            match offset {
                Some(o) => Some(o as int),
                None => None,
            },
        ),
{
    let t = datetime_text(p, offset, opts);
    reveal_with_fuel(pow10, 7);
    padded_reads_back(p.y as nat, 4);
    padded_reads_back(p.mo as nat, 2);
    padded_reads_back(p.d as nat, 2);
    padded_reads_back(p.h as nat, 2);
    padded_reads_back(p.mi as nat, 2);
    padded_reads_back(p.s as nat, 2);
    padded_reads_back(p.us as nat, 6);
    assert(t.subrange(1, 5) =~= padded(p.y as nat, 4));
    assert(t.subrange(6, 8) =~= padded(p.mo as nat, 2));
    assert(t.subrange(9, 11) =~= padded(p.d as nat, 2));
    assert(t.subrange(12, 14) =~= padded(p.h as nat, 2));
    assert(t.subrange(15, 17) =~= padded(p.mi as nat, 2));
    assert(t.subrange(18, 20) =~= padded(p.s as nat, 2));
    let fraction = p.us != 0 && !on(opts, OPT_OMIT_MICROSECONDS);
    let zone = zone_text(offset, opts);
    if let Some(o) = offset {
        offset_reads_back(o as int, opts);
        assert(zone.len() >= 1);
        assert(zone[0] == 0x5a || zone[0] == 0x2b || zone[0] == 0x2d);
    }
    if fraction {
        assert(t.subrange(21, 27) =~= padded(p.us as nat, 6));
        assert(t.subrange(27, t.len() - 1) =~= zone);
    } else {
        assert(t.subrange(20, t.len() - 1) =~= zone);
        if offset is Some {
            assert(t[20] == zone[0]);
        } else {
            assert(t[20] == 0x22);
        }
    }
}

} // verus!

//! The form of date and time text, character by character, and what it says.
use crate::datetime::{
    datetime_text, hms_text, offset_in_day, offset_text, padded, padded_len, ymd_text, zone_text,
    Parts,
};
use crate::encode::{date_text, shown_offset, time_opts, time_opts_flags, time_text};
use crate::iso::{field, padded_reads_back};
use crate::number::pow10;
use crate::opts::{on, OPT_NAIVE_UTC, OPT_OMIT_MICROSECONDS, OPT_UTC_Z};
use crate::swar::digit;
use vstd::prelude::*;

verus! {

/// Do the `w` characters at `i` show the number `n` in decimal digits?
pub open spec fn shows(t: Seq<u8>, i: int, w: int, n: int) -> bool {
    &&& 0 <= i && i + w <= t.len()
    &&& forall|k: int| i <= k < i + w ==> digit(#[trigger] t[k])
    &&& field(t, i, i + w) == n
}

/// Does `YYYY-MM-DD` stand at `i`?
pub open spec fn date_form(t: Seq<u8>, i: int, y: int, mo: int, d: int) -> bool {
    &&& shows(t, i, 4, y)
    &&& t[i + 4] == 0x2d
    &&& shows(t, i + 5, 2, mo)
    &&& t[i + 7] == 0x2d
    &&& shows(t, i + 8, 2, d)
}

/// Does `HH:MM:SS[.ffffff]` stand at `i`, and end before `end`? There is a fraction
/// unless it is zero.
pub open spec fn clock_form(
    t: Seq<u8>,
    i: int,
    end: int,
    h: int,
    mi: int,
    s: int,
    us: int,
) -> bool {
    &&& shows(t, i, 2, h)
    &&& t[i + 2] == 0x3a
    &&& shows(t, i + 3, 2, mi)
    &&& t[i + 5] == 0x3a
    &&& shows(t, i + 6, 2, s)
    &&& if us == 0 {
        end == i + 8
    } else {
        end == i + 15 && t[i + 8] == 0x2e && shows(t, i + 9, 6, us)
    }
}

/// Is `t` the zone of an offset: nothing for none, `Z` for zero where that is asked for,
/// else `±HH:MM`, with `:SS` and then `.ffffff` only where they are needed?
pub open spec fn zone_form(t: Seq<u8>, offset: Option<i64>, z: bool) -> bool {
    match offset {
        None => t.len() == 0,
        Some(o) => if o == 0 && z {
            t == seq![0x5au8]
        } else {
            exists|hh: int, mm: int, ss: int, us: int| #[trigger]
                clock_offset(t, o as int, hh, mm, ss, us)
        },
    }
}

/// Is `t` the text of this many hours, minutes, seconds and microseconds, and are they
/// the offset `o`?
pub open spec fn clock_offset(t: Seq<u8>, o: int, hh: int, mm: int, ss: int, us: int) -> bool {
    &&& 0 <= hh < 24 && 0 <= mm < 60 && 0 <= ss < 60 && 0 <= us < 1_000_000
    &&& ((hh * 60 + mm) * 60 + ss) * 1_000_000 + us == if o < 0 {
        -o
    } else {
        o
    }
    &&& t.len() == if us != 0 {
        16
    } else if ss != 0 {
        9int
    } else {
        6
    }
    &&& t[0] == if o < 0 {
        0x2du8
    } else {
        0x2b
    }
    &&& shows(t, 1, 2, hh)
    &&& t[3] == 0x3a
    &&& shows(t, 4, 2, mm)
    &&& ss != 0 || us != 0 ==> t[6] == 0x3a && shows(t, 7, 2, ss)
    &&& us != 0 ==> t[9] == 0x2e && shows(t, 10, 6, us)
}

/// The microseconds that are shown.
pub open spec fn shown_us(us: u32, opts: u32) -> int {
    if on(opts, OPT_OMIT_MICROSECONDS) {
        0
    } else {
        us as int
    }
}

/// Is `t` a quoted `YYYY-MM-DDTHH:MM:SS[.ffffff][zone]` that says these fields and this
/// offset?
pub open spec fn says_datetime(t: Seq<u8>, p: Parts, offset: Option<i64>, opts: u32) -> bool {
    let us = shown_us(p.us, opts);
    let end: int = if us == 0 {
        20
    } else {
        27
    };
    &&& t.len() >= end + 1
    &&& t[0] == 0x22 && t[t.len() - 1] == 0x22
    &&& date_form(t, 1, p.y as int, p.mo as int, p.d as int)
    &&& t[11] == 0x54
    &&& clock_form(t, 12, end, p.h as int, p.mi as int, p.s as int, us)
    &&& zone_form(t.subrange(end, t.len() - 1), offset, on(opts, OPT_UTC_Z))
}

/// Is `t` a quoted `HH:MM:SS[.ffffff][zone]` that says these fields and this offset?
pub open spec fn says_time(
    t: Seq<u8>,
    h: u8,
    mi: u8,
    s: u8,
    us: u32,
    offset: Option<i64>,
    opts: u32,
) -> bool {
    let us = shown_us(us, opts);
    let end: int = if us == 0 {
        9
    } else {
        16
    };
    &&& t.len() >= end + 1
    &&& t[0] == 0x22 && t[t.len() - 1] == 0x22
    &&& clock_form(t, 1, end, h as int, mi as int, s as int, us)
    &&& zone_form(t.subrange(end, t.len() - 1), offset, false)
}

/// Is `t` a quoted `YYYY-MM-DD` that says these fields?
pub open spec fn says_date(t: Seq<u8>, y: u16, mo: u8, d: u8) -> bool {
    t.len() == 12 && t[0] == 0x22 && t[11] == 0x22 && date_form(
        t,
        1,
        y as int,
        mo as int,
        d as int,
    )
}

proof fn padded_digits(v: nat, width: nat)
    ensures
        padded(v, width).len() == width,
        forall|k: int| 0 <= k < width ==> digit(#[trigger] padded(v, width)[k]),
    decreases width,
{
    if width > 0 {
        padded_digits(v / 10, (width - 1) as nat);
        let u = padded(v / 10, (width - 1) as nat);
        let t = padded(v, width);
        assert forall|k: int| 0 <= k < width implies digit(#[trigger] t[k]) by {
            if k < width - 1 {
                assert(t[k] == u[k]);
            }
        }
    }
}

/// A number padded into the text at `i` is shown there.
proof fn padded_shows(t: Seq<u8>, i: int, v: nat, width: nat)
    requires
        0 <= i,
        i + width <= t.len(),
        t.subrange(i, i + width) == padded(v, width),
        v < pow10(width),
    ensures
        shows(t, i, width as int, v as int),
{
    padded_reads_back(v, width);
    padded_digits(v, width);
    assert forall|k: int| i <= k < i + width implies digit(#[trigger] t[k]) by {
        assert(t[k] == padded(v, width)[k - i]);
    }
}

/// The text of a date has the form of one, wherever it stands.
proof fn ymd_form(t: Seq<u8>, i: int, y: nat, mo: nat, d: nat)
    requires
        y <= 9999 && mo <= 99 && d <= 99,
        0 <= i,
        i + 10 <= t.len(),
        t.subrange(i, i + 10) == ymd_text(y, mo, d),
    ensures
        date_form(t, i, y as int, mo as int, d as int),
{
    reveal_with_fuel(pow10, 7);
    padded_len(y, 4);
    padded_len(mo, 2);
    padded_len(d, 2);
    let u = ymd_text(y, mo, d);
    assert(t[i + 4] == u[4] && t[i + 7] == u[7]);
    assert(t.subrange(i, i + 4) =~= u.subrange(0, 4));
    assert(u.subrange(0, 4) =~= padded(y, 4));
    assert(t.subrange(i + 5, i + 7) =~= u.subrange(5, 7));
    assert(u.subrange(5, 7) =~= padded(mo, 2));
    assert(t.subrange(i + 8, i + 10) =~= u.subrange(8, 10));
    assert(u.subrange(8, 10) =~= padded(d, 2));
    padded_shows(t, i, y, 4);
    padded_shows(t, i + 5, mo, 2);
    padded_shows(t, i + 8, d, 2);
}

/// The text of a time of day has the form of one, wherever it stands.
proof fn hms_form(t: Seq<u8>, i: int, h: nat, mi: nat, s: nat, us: nat, opts: u32)
    requires
        h <= 99 && mi <= 99 && s <= 99 && us < 1_000_000,
        0 <= i,
        i + hms_text(h, mi, s, us, opts).len() <= t.len(),
        t.subrange(i, i + hms_text(h, mi, s, us, opts).len()) == hms_text(h, mi, s, us, opts),
    ensures
        clock_form(
            t,
            i,
            i + hms_text(h, mi, s, us, opts).len(),
            h as int,
            mi as int,
            s as int,
            if on(opts, OPT_OMIT_MICROSECONDS) {
                0
            } else {
                us as int
            },
        ),
{
    reveal_with_fuel(pow10, 7);
    padded_len(h, 2);
    padded_len(mi, 2);
    padded_len(s, 2);
    padded_len(us, 6);
    let u = hms_text(h, mi, s, us, opts);
    assert(t[i + 2] == u[2] && t[i + 5] == u[5]);
    assert(t.subrange(i, i + 2) =~= u.subrange(0, 2));
    assert(u.subrange(0, 2) =~= padded(h, 2));
    assert(t.subrange(i + 3, i + 5) =~= u.subrange(3, 5));
    assert(u.subrange(3, 5) =~= padded(mi, 2));
    assert(t.subrange(i + 6, i + 8) =~= u.subrange(6, 8));
    assert(u.subrange(6, 8) =~= padded(s, 2));
    padded_shows(t, i, h, 2);
    padded_shows(t, i + 3, mi, 2);
    padded_shows(t, i + 6, s, 2);
    if !(us == 0 || on(opts, OPT_OMIT_MICROSECONDS)) {
        assert(t[i + 8] == u[8]);
        assert(t.subrange(i + 9, i + 15) =~= u.subrange(9, 15));
        assert(u.subrange(9, 15) =~= padded(us, 6));
        padded_shows(t, i + 9, us, 6);
    }
}

/// An amount of microseconds in hours, minutes, seconds and microseconds.
proof fn clock_split(m: int)
    requires
        0 <= m < 86_400_000_000,
    ensures
        ({
            let hh = m / 3_600_000_000;
            let mm = m / 60_000_000 % 60;
            let ss = m / 1_000_000 % 60;
            let us = m % 1_000_000;
            &&& 0 <= hh < 24 && 0 <= mm < 60 && 0 <= ss < 60 && 0 <= us < 1_000_000
            &&& ((hh * 60 + mm) * 60 + ss) * 1_000_000 + us == m
            &&& m % 60_000_000 == 0 <==> ss == 0 && us == 0
        }),
{
}

/// The text of zero, where `Z` is not asked for.
proof fn utc_form(t: Seq<u8>)
    requires
        t == seq![0x2bu8, 0x30, 0x30, 0x3a, 0x30, 0x30],
    ensures
        clock_offset(t, 0, 0, 0, 0, 0),
{
    reveal_with_fuel(pow10, 3);
    reveal_with_fuel(padded, 3);
    assert(t.subrange(1, 3) =~= padded(0, 2));
    assert(t.subrange(4, 6) =~= padded(0, 2));
    padded_shows(t, 1, 0, 2);
    padded_shows(t, 4, 0, 2);
}

/// The text of another offset.
proof fn other_offset_form(o: int, opts: u32)
    requires
        -86_400_000_000 < o < 86_400_000_000,
        o != 0,
    ensures
        ({
            let m = if o < 0 {
                -o
            } else {
                o
            };
            clock_offset(
                offset_text(o, opts),
                o,
                m / 3_600_000_000,
                m / 60_000_000 % 60,
                m / 1_000_000 % 60,
                m % 1_000_000,
            )
        }),
{
    let t = offset_text(o, opts);
    let m = (if o < 0 {
        -o
    } else {
        o
    }) as nat;
    let hh = m / 3_600_000_000;
    let mm = m / 60_000_000 % 60;
    let ss = m / 1_000_000 % 60;
    let us = m % 1_000_000;
    clock_split(m as int);
    assert(pow10(2) == 100 && pow10(6) == 1_000_000) by {
        reveal_with_fuel(pow10, 7);
    }
    padded_len(hh, 2);
    padded_len(mm, 2);
    padded_len(ss, 2);
    padded_len(us, 6);
    assert(t.subrange(1, 3) =~= padded(hh, 2));
    assert(t.subrange(4, 6) =~= padded(mm, 2));
    padded_shows(t, 1, hh, 2);
    padded_shows(t, 4, mm, 2);
    if m % 60_000_000 != 0 {
        assert(t.subrange(7, 9) =~= padded(ss, 2));
        padded_shows(t, 7, ss, 2);
        if m % 1_000_000 != 0 {
            assert(t.subrange(10, 16) =~= padded(us, 6));
            padded_shows(t, 10, us, 6);
        }
    }
}

/// The text of an offset has the form of a zone.
proof fn offset_form(offset: Option<i64>, opts: u32)
    requires
        offset_in_day(offset),
    ensures
        zone_form(zone_text(offset, opts), offset, on(opts, OPT_UTC_Z)),
{
    if let Some(o) = offset {
        if o == 0 {
            if !on(opts, OPT_UTC_Z) {
                utc_form(zone_text(offset, opts));
            }
        } else {
            other_offset_form(o as int, opts);
        }
    }
}

/// The text of a date and time says its fields and its offset, character by character.
pub proof fn datetime_says(p: Parts, offset: Option<i64>, opts: u32)
    requires
        p.y <= 9999 && p.mo <= 99 && p.d <= 99 && p.h <= 99 && p.mi <= 99 && p.s <= 99 && p.us
            < 1_000_000,
        offset_in_day(offset),
    ensures
        says_datetime(datetime_text(p, offset, opts), p, offset, opts),
{
    let t = datetime_text(p, offset, opts);
    let ymd = ymd_text(p.y as nat, p.mo as nat, p.d as nat);
    let hms = hms_text(p.h as nat, p.mi as nat, p.s as nat, p.us as nat, opts);
    let zone = zone_text(offset, opts);
    padded_len(p.y as nat, 4);
    padded_len(p.mo as nat, 2);
    padded_len(p.d as nat, 2);
    padded_len(p.h as nat, 2);
    padded_len(p.mi as nat, 2);
    padded_len(p.s as nat, 2);
    padded_len(p.us as nat, 6);
    assert(ymd.len() == 10);
    assert(t.subrange(1, 11) =~= ymd);
    ymd_form(t, 1, p.y as nat, p.mo as nat, p.d as nat);
    assert(t.subrange(12, 12 + hms.len() as int) =~= hms);
    hms_form(t, 12, p.h as nat, p.mi as nat, p.s as nat, p.us as nat, opts);
    offset_form(offset, opts);
    let us = shown_us(p.us, opts);
    let end: int = if us == 0 {
        20
    } else {
        27
    };
    assert(end == 12 + hms.len());
    assert(t.subrange(end, t.len() - 1) =~= zone);
}

/// What is written for a `datetime` says its fields. One with an offset is written with
/// that offset, whatever the options; a naive one is taken for UTC where that is asked
/// for, and has no zone otherwise.
pub proof fn datetime_keeps_its_offset(p: Parts, offset: Option<i64>, opts: u32)
    requires
        p.y <= 9999 && p.mo <= 99 && p.d <= 99 && p.h <= 99 && p.mi <= 99 && p.s <= 99 && p.us
            < 1_000_000,
        offset_in_day(offset),
    ensures
        ({
            let t = datetime_text(p, shown_offset(offset, opts), opts);
            match offset {
                Some(o) => says_datetime(t, p, Some(o), opts),
                None => says_datetime(
                    t,
                    p,
                    if on(opts, OPT_NAIVE_UTC) {
                        Some(0i64)
                    } else {
                        None
                    },
                    opts,
                ),
            }
        }),
{
    datetime_says(p, shown_offset(offset, opts), opts);
}

/// What is written for a `date` says its fields.
pub proof fn date_says(y: u16, mo: u8, d: u8)
    requires
        y <= 9999 && mo <= 99 && d <= 99,
    ensures
        says_date(date_text(y, mo, d), y, mo, d),
{
    let t = date_text(y, mo, d);
    padded_len(y as nat, 4);
    padded_len(mo as nat, 2);
    padded_len(d as nat, 2);
    assert(t.subrange(1, 11) =~= ymd_text(y as nat, mo as nat, d as nat));
    ymd_form(t, 1, y as nat, mo as nat, d as nat);
}

/// What is written for a `time` says its fields and its own offset, and never `Z`.
pub proof fn time_says(h: u8, mi: u8, s: u8, us: u32, offset: Option<i64>, opts: u32)
    requires
        h <= 99 && mi <= 99 && s <= 99 && us < 1_000_000,
        offset_in_day(offset),
    ensures
        says_time(time_text(h, mi, s, us, offset, opts), h, mi, s, us, offset, opts),
{
    let t = time_text(h, mi, s, us, offset, opts);
    let o = time_opts(opts);
    let hms = hms_text(h as nat, mi as nat, s as nat, us as nat, o);
    let zone = zone_text(offset, o);
    time_opts_flags(opts);
    padded_len(h as nat, 2);
    padded_len(mi as nat, 2);
    padded_len(s as nat, 2);
    padded_len(us as nat, 6);
    assert(t.subrange(1, 1 + hms.len() as int) =~= hms);
    hms_form(t, 1, h as nat, mi as nat, s as nat, us as nat, o);
    offset_form(offset, o);
    let end: int = if shown_us(us, opts) == 0 {
        9
    } else {
        16
    };
    assert(end == 1 + hms.len());
    assert(t.subrange(end, t.len() - 1) =~= zone);
}

} // verus!

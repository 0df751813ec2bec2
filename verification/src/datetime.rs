//! Date and time text, and calendar arithmetic.
use crate::calendar::{
    cycle_date, cycle_year, cycle_year_correct, day_number, day_number_injective, valid_date,
    year_in_range,
};
use crate::number::{nat_text, nat_text_reads_back};
use crate::opts::{on, OPT_OMIT_MICROSECONDS, OPT_UTC_Z};
use crate::out::Out;
use crate::swar::{digit, digits_value};
use vstd::arithmetic::div_mod::lemma_fundamental_div_mod_converse;
use vstd::prelude::*;

verus! {

/// `v` in decimal, zero-padded on the left to `width` digits; higher digits are
/// dropped.
pub open spec fn padded(v: nat, width: nat) -> Seq<u8>
    decreases width,
{
    if width == 0 {
        Seq::empty()
    } else {
        padded(v / 10, (width - 1) as nat).push((0x30 + v % 10) as u8)
    }
}

pub proof fn padded_len(v: nat, width: nat)
    ensures
        padded(v, width).len() == width,
    decreases width,
{
    if width > 0 {
        padded_len(v / 10, (width - 1) as nat);
    }
}

/// `s` with the bytes from `at` on replaced by `t`.
pub open spec fn splice(s: Seq<u8>, at: int, t: Seq<u8>) -> Seq<u8> {
    s.subrange(0, at) + t + s.subrange(at + t.len(), s.len() as int)
}

/// Writes the last two decimal digits of `v` at `at`.
pub fn two(buf: &mut [u8], at: usize, v: u32)
    requires
        at + 2 <= old(buf)@.len(),
    ensures
        final(buf)@ == splice(old(buf)@, at as int, padded(v as nat, 2)),
{
    proof {
        reveal_with_fuel(padded, 3);
    }
    buf[at] = 0x30 + (v / 10 % 10) as u8;
    buf[at + 1] = 0x30 + (v % 10) as u8;
}

/// Writes the last six decimal digits of `v` at `at`.
pub fn six(buf: &mut [u8], at: usize, v: u32)
    requires
        at + 6 <= old(buf)@.len(),
    ensures
        final(buf)@ == splice(old(buf)@, at as int, padded(v as nat, 6)),
{
    proof {
        reveal_with_fuel(padded, 7);
        assert(buf.len() == buf@.len());
    }
    let mut v: u32 = v;
    buf[at + 5] = 0x30 + (v % 10) as u8;
    v = v / 10;
    buf[at + 4] = 0x30 + (v % 10) as u8;
    v = v / 10;
    buf[at + 3] = 0x30 + (v % 10) as u8;
    v = v / 10;
    buf[at + 2] = 0x30 + (v % 10) as u8;
    v = v / 10;
    buf[at + 1] = 0x30 + (v % 10) as u8;
    v = v / 10;
    buf[at] = 0x30 + (v % 10) as u8;
}

/// `YYYY-MM-DD`.
pub open spec fn ymd_text(y: nat, mo: nat, d: nat) -> Seq<u8> {
    padded(y, 4) + seq![0x2du8] + padded(mo, 2) + seq![0x2du8] + padded(d, 2)
}

/// Writes `YYYY-MM-DD`, the year zero-padded to four digits.
pub fn fmt_ymd(buf: &mut [u8; 10], y: u16, mo: u8, d: u8) -> (n: usize)
    requires
        y <= 9999,
    ensures
        n == 10,
        final(buf)@ == ymd_text(y as nat, mo as nat, d as nat),
{
    two(buf, 0, y as u32 / 100);
    two(buf, 2, y as u32 % 100);
    buf[4] = 0x2d;
    two(buf, 5, mo as u32);
    buf[7] = 0x2d;
    two(buf, 8, d as u32);
    proof {
        reveal_with_fuel(padded, 5);
    }
    10
}

/// `HH:MM:SS`, followed by `.ffffff` when there are microseconds to show.
pub open spec fn hms_text(h: nat, mi: nat, s: nat, us: nat, opts: u32) -> Seq<u8> {
    let whole = padded(h, 2) + seq![0x3au8] + padded(mi, 2) + seq![0x3au8] + padded(s, 2);
    if us == 0 || on(opts, OPT_OMIT_MICROSECONDS) {
        whole
    } else {
        whole + seq![0x2eu8] + padded(us, 6)
    }
}

/// Writes `HH:MM:SS[.ffffff]`: the fraction only when `us` is non-zero and
/// `OPT_OMIT_MICROSECONDS` is not set. Returns the length; what follows it in
/// `buf` is left as it was.
pub fn fmt_hms(buf: &mut [u8; 15], h: u8, mi: u8, s: u8, us: u32, opts: u32) -> (n: usize)
    ensures
        n == hms_text(h as nat, mi as nat, s as nat, us as nat, opts).len(),
        n == 8 || n == 15,
        final(buf)@ == splice(
            old(buf)@,
            0,
            hms_text(h as nat, mi as nat, s as nat, us as nat, opts),
        ),
{
    proof {
        padded_len(h as nat, 2);
        padded_len(mi as nat, 2);
        padded_len(s as nat, 2);
        padded_len(us as nat, 6);
    }
    two(buf, 0, h as u32);
    buf[2] = 0x3a;
    two(buf, 3, mi as u32);
    buf[5] = 0x3a;
    two(buf, 6, s as u32);
    if us == 0 || opts & OPT_OMIT_MICROSECONDS != 0 {
        return 8;
    }
    buf[8] = 0x2e;
    six(buf, 9, us);
    15
}

/// `+00:00`.
pub open spec fn utc_text() -> Seq<u8> {
    seq![0x2bu8, 0x30, 0x30, 0x3a, 0x30, 0x30]
}

/// The text of a UTC offset of `total_us` microseconds:
/// `±HH:MM[:SS[.ffffff]]`, with `+00:00` or `Z` for zero.
pub open spec fn offset_text(total_us: int, opts: u32) -> Seq<u8> {
    if total_us == 0 {
        if on(opts, OPT_UTC_Z) {
            seq![0x5au8]
        } else {
            utc_text()
        }
    } else {
        let m = (if total_us < 0 { -total_us } else { total_us }) as nat;
        let sign: u8 = if total_us < 0 { 0x2d } else { 0x2b };
        let hhmm = seq![sign] + padded(m / 3_600_000_000, 2) + seq![0x3au8] + padded(
            m / 60_000_000 % 60,
            2,
        );
        let sec = seq![0x3au8] + padded(m / 1_000_000 % 60, 2);
        let frac = seq![0x2eu8] + padded(m % 1_000_000, 6);
        if m % 60_000_000 == 0 {
            hhmm
        } else if m % 1_000_000 == 0 {
            hhmm + sec
        } else {
            hhmm + sec + frac
        }
    }
}

/// Writes the text of a UTC offset of `total_us`, which is under 24 hours either
/// way. Returns the length; what follows it in `buf` is left as it was.
pub fn fmt_offset(buf: &mut [u8; 16], total_us: i64, opts: u32) -> (n: usize)
    requires
        -86_400_000_000 < total_us < 86_400_000_000,
    ensures
        n == offset_text(total_us as int, opts).len(),
        1 <= n <= 16,
        final(buf)@ == splice(old(buf)@, 0, offset_text(total_us as int, opts)),
{
    if total_us == 0 {
        if opts & OPT_UTC_Z != 0 {
            buf[0] = 0x5a;
            return 1;
        }
        buf[0] = 0x2b;
        two(buf, 1, 0);
        buf[3] = 0x3a;
        two(buf, 4, 0);
        proof {
            reveal_with_fuel(padded, 3);
        }
        return 6;
    }
    buf[0] = if total_us < 0 { 0x2d } else { 0x2b };
    let m: u64 = if total_us < 0 { (-total_us) as u64 } else { total_us as u64 };
    let hh: u64 = m / 3_600_000_000;
    let r: u64 = m % 3_600_000_000;
    let mm: u64 = r / 60_000_000;
    let r: u64 = r % 60_000_000;
    let ss: u64 = r / 1_000_000;
    let us: u64 = r % 1_000_000;
    proof {
        padded_len(hh as nat, 2);
        padded_len(mm as nat, 2);
        padded_len(ss as nat, 2);
        padded_len(us as nat, 6);
        clock_split(m as nat);
    }
    two(buf, 1, hh as u32);
    buf[3] = 0x3a;
    two(buf, 4, mm as u32);
    if ss == 0 && us == 0 {
        return 6;
    }
    buf[6] = 0x3a;
    two(buf, 7, ss as u32);
    if us == 0 {
        return 9;
    }
    buf[9] = 0x2e;
    six(buf, 10, us as u32);
    16
}

/// Splitting off the hours first gives the same minutes, seconds and
/// microseconds as reading each of them off the whole.
proof fn clock_split(m: nat)
    ensures
        m % 3_600_000_000 / 60_000_000 == m / 60_000_000 % 60,
        m % 3_600_000_000 % 60_000_000 == m % 60_000_000,
        m % 60_000_000 / 1_000_000 == m / 1_000_000 % 60,
        m % 60_000_000 % 1_000_000 == m % 1_000_000,
        m % 60_000_000 == 0 <==> (m / 1_000_000 % 60 == 0 && m % 1_000_000 == 0),
{
}

/// The day numbers of 0000-01-01 and 9999-12-31.
pub const MIN_DAYS: i64 = -719_528;

pub const MAX_DAYS: i64 = 2_932_896;

pub const US_PER_DAY: i128 = 86_400_000_000;

/// Floor division by a positive number.
fn floor_div(n: i128, by: i128) -> (q: i128)
    requires
        by > 0,
    ensures
        q == n / by,
{
    proof {
        assert(n >= 0 ==> 0 <= n / by <= n) by (nonlinear_arith)
            requires
                by > 0,
        ;
        assert(n < 0 ==> n <= n / by <= 0) by (nonlinear_arith)
            requires
                by > 0,
        ;
    }
    match n.checked_div_euclid(by) {
        Some(q) => q,
        None => 0,
    }
}

/// The non-negative remainder of a division by a positive number.
fn floor_rem(n: i128, by: i128) -> (r: i128)
    requires
        by > 0,
    ensures
        r == n % by,
{
    match n.checked_rem_euclid(by) {
        Some(r) => r,
        None => 0,
    }
}

/// The date whose day number is `days`.
pub fn civil_from_days(days: i64) -> (r: (i32, u8, u8))
    requires
        MIN_DAYS <= days <= MAX_DAYS,
    ensures
        valid_date(r.0 as int, r.1 as int, r.2 as int),
        day_number(r.0 as int, r.1 as int, r.2 as int) == days,
        0 <= r.0 <= 9999,
{
    // days since 0000-03-01
    let z: i64 = days + 719_468;
    let era: i64 = floor_div(z as i128, 146_097) as i64;
    let doe: i64 = z - era * 146_097;
    let yoe: i64 = (doe - doe / 1_460 + doe / 36_524 - doe / 146_096) / 365;
    proof {
        cycle_year_correct(doe as int);
        assert(yoe == cycle_year(doe as int));
    }
    let doy: i64 = doe - (365 * yoe + yoe / 4 - yoe / 100);
    proof {
        cycle_date(era as int, yoe as int, doy as int);
    }
    // March is month 0
    let mp: i64 = (5 * doy + 2) / 153;
    let d: i64 = doy - (153 * mp + 2) / 5 + 1;
    let mo: i64 = if mp < 10 { mp + 3 } else { mp - 9 };
    let y: i64 = yoe + era * 400 + if mo <= 2 { 1 } else { 0 };
    proof {
        assert(era == -1 || era >= 0);
        assert(day_number(y as int, mo as int, d as int) == days);
        year_in_range(y as int, mo as int, d as int);
    }
    (y as i32, mo as u8, d as u8)
}

/// The base unit of a `datetime64` value.
#[derive(Clone, Copy, Debug, PartialEq, Eq, Structural)]
pub enum Unit {
    Year,
    Month,
    Week,
    Day,
    Hour,
    Minute,
    Second,
    Milli,
    Micro,
    Nano,
    Pico,
    Femto,
    Atto,
    Generic,
}

/// A `datetime64` unit: `mult` base units to the step.
#[derive(Clone, Copy, Debug, PartialEq, Eq, Structural)]
pub struct Dt64Unit {
    pub base: Unit,
    pub mult: i64,
}

/// A date and a time of day.
#[derive(Clone, Copy, Debug, PartialEq, Eq, Structural)]
pub struct Parts {
    pub y: u16,
    pub mo: u8,
    pub d: u8,
    pub h: u8,
    pub mi: u8,
    pub s: u8,
    pub us: u32,
}

/// Why a `datetime64` value has no date.
#[derive(Clone, Copy, Debug, PartialEq, Eq, Structural)]
pub enum Dt64Err {
    /// Its year is outside 0000–9999.
    Unrepresentable,
    /// Its unit is generic and it is not NaT.
    GenericValue,
}

/// The letters that name a unit in a dtype string.
pub open spec fn unit_code(u: Unit) -> Seq<u8> {
    match u {
        Unit::Year => seq![0x59u8],
        Unit::Month => seq![0x4du8],
        Unit::Week => seq![0x57u8],
        Unit::Day => seq![0x44u8],
        Unit::Hour => seq![0x68u8],
        Unit::Minute => seq![0x6du8],
        Unit::Second => seq![0x73u8],
        Unit::Milli => seq![0x6du8, 0x73],
        Unit::Micro => seq![0x75u8, 0x73],
        Unit::Nano => seq![0x6eu8, 0x73],
        Unit::Pico => seq![0x70u8, 0x73],
        Unit::Femto => seq![0x66u8, 0x73],
        Unit::Atto => seq![0x61u8, 0x73],
        Unit::Generic => Seq::empty(),
    }
}

/// How many digits `s` starts with.
pub open spec fn digit_run(s: Seq<u8>) -> nat
    decreases s.len(),
{
    if s.len() > 0 && digit(s[0]) {
        1 + digit_run(s.subrange(1, s.len() as int))
    } else {
        0
    }
}

/// `digit_run` stops at the first byte that is no digit.
pub proof fn digit_run_is(s: Seq<u8>, n: int)
    requires
        0 <= n <= s.len(),
        forall|i: int| 0 <= i < n ==> digit(#[trigger] s[i]),
        n == s.len() || !digit(s[n]),
    ensures
        digit_run(s) == n,
    decreases s.len(),
{
    if n > 0 {
        let t = s.subrange(1, s.len() as int);
        assert forall|i: int| 0 <= i < n - 1 implies digit(#[trigger] t[i]) by {
            assert(digit(s[i + 1]));
        }
        digit_run_is(t, n - 1);
        assert(digit(s[0]));
    }
}

/// Is `s` a dtype string of the `datetime64` family: a byte order, then `M8`?
pub open spec fn dt64_head(s: Seq<u8>) -> bool {
    s.len() >= 3 && (s[0] == 0x3c || s[0] == 0x3e || s[0] == 0x3d || s[0] == 0x7c) && s[1] == 0x4d
        && s[2] == 0x38
}

/// Does `inner` name the unit `u`: an optional multiplier from 1 on, then the
/// letters of its base unit?
pub open spec fn names_unit(inner: Seq<u8>, u: Dt64Unit) -> bool {
    let k = digit_run(inner) as int;
    &&& u.base != Unit::Generic
    &&& inner.subrange(k, inner.len() as int) == unit_code(u.base)
    &&& u.mult == if k == 0 {
        1
    } else {
        digits_value(inner.subrange(0, k)) as int
    }
    &&& u.mult >= 1
}

/// Is `u` the unit that the dtype string `s` says? Nothing after `M8` is the
/// generic unit, `[..]` any other.
pub open spec fn dt64_says(s: Seq<u8>, u: Dt64Unit) -> bool {
    &&& dt64_head(s)
    &&& if s.len() == 3 {
        u == (Dt64Unit { base: Unit::Generic, mult: 1 })
    } else {
        &&& s.len() >= 5
        &&& s[3] == 0x5b
        &&& s.last() == 0x5d
        &&& names_unit(s.subrange(4, s.len() - 1), u)
    }
}

/// The value of a longer run of digits is not smaller.
proof fn digits_value_monotone(s: Seq<u8>, n: int)
    requires
        0 <= n <= s.len(),
        forall|i: int| 0 <= i < s.len() ==> digit(#[trigger] s[i]),
    ensures
        digits_value(s.subrange(0, n)) <= digits_value(s),
    decreases s.len() - n,
{
    if n == s.len() {
        assert(s.subrange(0, n) == s);
    } else {
        digits_value_monotone(s, n + 1);
        let t = s.subrange(0, n + 1);
        assert(t.drop_last() == s.subrange(0, n));
        assert(digit(s[n]));
    }
}

/// The value of the digits `s[from..to]`, where it is at least 1 and fits.
fn parse_mult(s: &[u8], from: usize, to: usize) -> (r: Option<i64>)
    requires
        from <= to <= s@.len(),
        forall|i: int| from <= i < to ==> digit(#[trigger] s@[i]),
    ensures
        match r {
            Some(m) => m >= 1 && m == digits_value(s@.subrange(from as int, to as int)),
            None => ({
                let m = digits_value(s@.subrange(from as int, to as int));
                m == 0 || m > i64::MAX
            }),
        },
{
    let ghost num = s@.subrange(from as int, to as int);
    let mut m: i64 = 0;
    let mut i: usize = from;
    assert(num.subrange(0, 0) =~= Seq::empty());
    while i < to
        invariant
            from <= i <= to <= s@.len(),
            forall|i: int| from <= i < to ==> digit(#[trigger] s@[i]),
            num == s@.subrange(from as int, to as int),
            m >= 0,
            m == digits_value(num.subrange(0, i - from)),
        decreases to - i,
    {
        let c: u8 = s[i];
        proof {
            let t = num.subrange(0, i - from + 1);
            assert(t.drop_last() == num.subrange(0, i - from));
            assert(t.last() == c);
            assert forall|k: int| 0 <= k < num.len() implies digit(#[trigger] num[k]) by {
                assert(digit(s@[from + k]));
            }
            digits_value_monotone(num, i - from + 1);
        }
        let ten: i64 = match m.checked_mul(10) {
            Some(t) => t,
            None => return None,
        };
        m = match ten.checked_add((c - 0x30) as i64) {
            Some(t) => t,
            None => return None,
        };
        i += 1;
    }
    assert(num.subrange(0, to - from) == num);
    if m == 0 {
        None
    } else {
        Some(m)
    }
}

/// The base unit that the letters `s[from..to]` name.
fn parse_base(s: &[u8], from: usize, to: usize) -> (r: Option<Unit>)
    requires
        from <= to <= s@.len(),
    ensures
        match r {
            Some(u) => u != Unit::Generic && unit_code(u) == s@.subrange(from as int, to as int),
            None => forall|u: Unit|
                u != Unit::Generic ==> #[trigger] unit_code(u) != s@.subrange(
                    from as int,
                    to as int,
                ),
        },
{
    let ghost code = s@.subrange(from as int, to as int);
    let r: Option<Unit> = if to - from == 1 {
        let c: u8 = s[from];
        if c == 0x59 {
            Some(Unit::Year)
        } else if c == 0x4d {
            Some(Unit::Month)
        } else if c == 0x57 {
            Some(Unit::Week)
        } else if c == 0x44 {
            Some(Unit::Day)
        } else if c == 0x68 {
            Some(Unit::Hour)
        } else if c == 0x6d {
            Some(Unit::Minute)
        } else if c == 0x73 {
            Some(Unit::Second)
        } else {
            None
        }
    } else if to - from == 2 {
        let c: u8 = s[from];
        if s[from + 1] != 0x73 {
            None
        } else if c == 0x6d {
            Some(Unit::Milli)
        } else if c == 0x75 {
            Some(Unit::Micro)
        } else if c == 0x6e {
            Some(Unit::Nano)
        } else if c == 0x70 {
            Some(Unit::Pico)
        } else if c == 0x66 {
            Some(Unit::Femto)
        } else if c == 0x61 {
            Some(Unit::Atto)
        } else {
            None
        }
    } else {
        None
    };
    proof {
        if let Some(u) = r {
            assert(code[0] == s@[from as int]);
            if to - from == 2 {
                assert(code[1] == s@[from + 1]);
            }
            assert(unit_code(u) =~= code);
        } else {
            assert forall|u: Unit| u != Unit::Generic implies #[trigger] unit_code(u) != code by {
                if unit_code(u) == code {
                    assert(unit_code(u).len() >= 1);
                    assert(code[0] == s@[from as int]);
                    if code.len() == 2 {
                        assert(code[1] == s@[from + 1]);
                    }
                }
            }
        }
    }
    r
}

/// The unit and multiplier of a `datetime64` dtype from its `dtype.str`.
pub fn parse_dt64(s: &[u8]) -> (r: Option<Dt64Unit>)
    ensures
        match r {
            Some(u) => dt64_says(s@, u),
            None => forall|u: Dt64Unit| !#[trigger] dt64_says(s@, u),
        },
        r == dt64_unit_of(s@),
{
    if s.len() < 3 {
        return None;
    }
    let order: u8 = s[0];
    if !(order == 0x3c || order == 0x3e || order == 0x3d || order == 0x7c) || s[1] != 0x4d || s[2]
        != 0x38 {
        return None;
    }
    if s.len() == 3 {
        let u: Dt64Unit = Dt64Unit { base: Unit::Generic, mult: 1 };
        assert(dt64_says(s@, u));
        return Some(u);
    }
    if s.len() < 5 || s[3] != 0x5b || s[s.len() - 1] != 0x5d {
        return None;
    }
    let end: usize = s.len() - 1;
    let ghost inner = s@.subrange(4, end as int);
    let mut i: usize = 4;
    while i < end && 0x30 <= s[i] && s[i] <= 0x39
        invariant
            4 <= i <= end < s@.len(),
            forall|k: int| 4 <= k < i ==> digit(#[trigger] s@[k]),
        decreases end - i,
    {
        i += 1;
    }
    proof {
        assert forall|k: int| 0 <= k < i - 4 implies digit(#[trigger] inner[k]) by {
            assert(digit(s@[k + 4]));
        }
        digit_run_is(inner, i - 4);
        assert(inner.subrange(0, i - 4) == s@.subrange(4, i as int));
        assert(inner.subrange(i - 4, inner.len() as int) == s@.subrange(i as int, end as int));
    }
    let mult: i64 = if i == 4 {
        1
    } else {
        match parse_mult(s, 4, i) {
            Some(m) => m,
            None => return None,
        }
    };
    match parse_base(s, i, end) {
        Some(base) => {
            let u: Dt64Unit = Dt64Unit { base, mult };
            proof {
                assert(dt64_says(s@, u));
                dt64_says_unique(s@, u, choose|u: Dt64Unit| dt64_says(s@, u));
            }
            Some(u)
        },
        None => None,
    }
}

/// A unit is said in one way only: a dtype string names at most one.
pub proof fn dt64_says_unique(s: Seq<u8>, u: Dt64Unit, v: Dt64Unit)
    requires
        dt64_says(s, u),
        dt64_says(s, v),
    ensures
        u == v,
{
    if s.len() > 3 {
        assert(unit_code(u.base) == unit_code(v.base));
        assert(unit_code(u.base)[0] == unit_code(v.base)[0]);
        assert(unit_code(u.base).last() == unit_code(v.base).last());
    }
}

/// Is the time of day of `p` within a day, and its date one of the calendar up to
/// year 9999?
pub open spec fn valid_parts(p: Parts) -> bool {
    valid_date(p.y as int, p.mo as int, p.d as int) && p.y <= 9999 && p.h < 24 && p.mi < 60 && p.s
        < 60 && p.us < 1_000_000
}

/// Microseconds from 1970-01-01T00:00:00 to `p`.
pub open spec fn instant(p: Parts) -> int {
    day_number(p.y as int, p.mo as int, p.d as int) * 86_400_000_000 + p.h * 3_600_000_000 + p.mi
        * 60_000_000 + p.s * 1_000_000 + p.us
}

/// `n` base units in microseconds, for the units that have a fixed length; units
/// finer than a microsecond are rounded down to it.
pub open spec fn units_us(n: int, base: Unit) -> int {
    match base {
        Unit::Week => n * 604_800_000_000,
        Unit::Day => n * 86_400_000_000,
        Unit::Hour => n * 3_600_000_000,
        Unit::Minute => n * 60_000_000,
        Unit::Second => n * 1_000_000,
        Unit::Milli => n * 1_000,
        Unit::Nano => n / 1_000,
        Unit::Pico => n / 1_000_000,
        Unit::Femto => n / 1_000_000_000,
        Unit::Atto => n / 1_000_000_000_000,
        _ => n,
    }
}

/// Does `p` stand for `n` base units since 1970? Years and months count on the
/// calendar; the others in microseconds, finer units rounded down to them.
pub open spec fn stands_for(p: Parts, n: int, base: Unit) -> bool {
    &&& valid_parts(p)
    &&& match base {
        Unit::Generic => false,
        Unit::Year => p.y == 1970 + n && p.mo == 1 && p.d == 1 && midnight(p),
        Unit::Month => p.y * 12 + (p.mo - 1) == 1970 * 12 + n && p.d == 1 && midnight(p),
        _ => instant(p) == units_us(n, base),
    }
}

pub open spec fn midnight(p: Parts) -> bool {
    p.h == 0 && p.mi == 0 && p.s == 0 && p.us == 0
}

/// Is there a date of the years 0 to 9999 for `n` base units since 1970?
pub open spec fn representable(n: int, base: Unit) -> bool {
    exists|p: Parts| stands_for(p, n, base)
}

/// The date for `n` base units since 1970.
pub open spec fn reading(n: int, base: Unit) -> Parts {
    choose|p: Parts| stands_for(p, n, base)
}

/// The calendar parts of the `datetime64` value `v` in unit `u`: none for NaT, and
/// an error when no date of the years 0 to 9999 stands for the value.
pub open spec fn dt64_parts(v: i64, u: Dt64Unit) -> Result<Option<Parts>, Dt64Err> {
    if v == i64::MIN {
        Ok(None)
    } else if u.base == Unit::Generic {
        Err(Dt64Err::GenericValue)
    } else if representable(v * u.mult, u.base) {
        Ok(Some(reading(v * u.mult, u.base)))
    } else {
        Err(Dt64Err::Unrepresentable)
    }
}

/// A count of units has one reading on the calendar.
pub proof fn stands_for_unique(p: Parts, q: Parts, n: int, base: Unit)
    requires
        stands_for(p, n, base),
        stands_for(q, n, base),
    ensures
        p == q,
{
    if base != Unit::Year && base != Unit::Month {
        instant_split(p);
        instant_split(q);
        day_number_injective(
            p.y as int,
            p.mo as int,
            p.d as int,
            q.y as int,
            q.mo as int,
            q.d as int,
        );
    }
}

/// The day and the time of day of an instant.
proof fn instant_split(p: Parts)
    requires
        valid_parts(p),
    ensures
        instant(p) / 86_400_000_000 == day_number(p.y as int, p.mo as int, p.d as int),
        ({
            let rem = instant(p) % 86_400_000_000;
            p.h == rem / 3_600_000_000 && p.mi == rem / 60_000_000 % 60 && p.s == rem / 1_000_000
                % 60 && p.us == rem % 1_000_000
        }),
{
    let date = day_number(p.y as int, p.mo as int, p.d as int);
    let rem = p.h * 3_600_000_000 + p.mi * 60_000_000 + p.s * 1_000_000 + p.us;
    lemma_fundamental_div_mod_converse(instant(p), 86_400_000_000, date, rem);
    lemma_fundamental_div_mod_converse(
        rem,
        3_600_000_000,
        p.h as int,
        p.mi * 60_000_000 + p.s * 1_000_000 + p.us,
    );
    lemma_fundamental_div_mod_converse(
        rem,
        60_000_000,
        p.h * 60 + p.mi,
        p.s * 1_000_000 + p.us,
    );
    lemma_fundamental_div_mod_converse(
        rem,
        1_000_000,
        (p.h * 60 + p.mi) * 60 + p.s,
        p.us as int,
    );
}

/// The date and time that is `us` microseconds after 1970-01-01T00:00:00, where it
/// lies in the years 0 to 9999.
fn parts_from_us(us: i128) -> (r: Option<Parts>)
    ensures
        match r {
            Some(p) => valid_parts(p) && instant(p) == us,
            None => forall|p: Parts| valid_parts(p) ==> #[trigger] instant(p) != us,
        },
{
    let days: i128 = floor_div(us, US_PER_DAY);
    if !(MIN_DAYS as i128 <= days && days <= MAX_DAYS as i128) {
        proof {
            assert forall|p: Parts| valid_parts(p) implies #[trigger] instant(p) != us by {
                instant_split(p);
                year_in_range(p.y as int, p.mo as int, p.d as int);
            }
        }
        return None;
    }
    let (y, mo, d): (i32, u8, u8) = civil_from_days(days as i64);
    let rem: u64 = floor_rem(us, US_PER_DAY) as u64;
    Some(
        Parts {
            y: y as u16,
            mo,
            d,
            h: (rem / 3_600_000_000) as u8,
            mi: (rem / 60_000_000 % 60) as u8,
            s: (rem / 1_000_000 % 60) as u8,
            us: (rem % 1_000_000) as u32,
        },
    )
}

/// The first day of a month at midnight, where the year is from 0 to 9999.
fn date_only(y: i128, mo: u8) -> (r: Result<Option<Parts>, Dt64Err>)
    requires
        1 <= mo <= 12,
    ensures
        match r {
            Ok(p) => 0 <= y <= 9999 && p == Some(
                Parts { y: y as u16, mo, d: 1, h: 0, mi: 0, s: 0, us: 0 },
            ),
            Err(e) => !(0 <= y <= 9999) && e == Dt64Err::Unrepresentable,
        },
{
    if 0 <= y && y <= 9999 {
        Ok(Some(Parts { y: y as u16, mo, d: 1, h: 0, mi: 0, s: 0, us: 0 }))
    } else {
        Err(Dt64Err::Unrepresentable)
    }
}

/// The calendar parts of the `datetime64` value `v` in unit `u`: `Ok(None)` for
/// NaT, `Err` when the value has no representation.
pub fn dt64_to_parts(v: i64, u: Dt64Unit) -> (r: Result<Option<Parts>, Dt64Err>)
    ensures
        r == dt64_parts(v, u),
        r matches Ok(Some(p)) ==> stands_for(p, v * u.mult, u.base),
{
    if v == i64::MIN {
        return Ok(None);
    }
    let ghost prod: int = v * u.mult;
    proof {
        assert(-0x4000_0000_0000_0000_0000_0000_0000_0000 <= v * u.mult
            <= 0x4000_0000_0000_0000_0000_0000_0000_0000) by (nonlinear_arith)
            requires
                -0x8000_0000_0000_0000 <= v <= 0x8000_0000_0000_0000,
                -0x8000_0000_0000_0000 <= u.mult <= 0x8000_0000_0000_0000,
        ;
    }
    let n: i128 = match (v as i128).checked_mul(u.mult as i128) {
        Some(n) => n,
        None => return Err(Dt64Err::Unrepresentable),
    };
    if u.base == Unit::Generic {
        return Err(Dt64Err::GenericValue);
    }
    if u.base == Unit::Year || u.base == Unit::Month {
        let (y, mo): (i128, u8) = if u.base == Unit::Year {
            (1970 + n, 1)
        } else {
            (1970 + floor_div(n, 12), (floor_rem(n, 12) + 1) as u8)
        };
        let r: Result<Option<Parts>, Dt64Err> = date_only(y, mo);
        proof {
            if let Ok(Some(p)) = r {
                assert(stands_for(p, n as int, u.base));
                stands_for_unique(p, reading(n as int, u.base), n as int, u.base);
            } else {
                assert forall|p: Parts| !stands_for(p, n as int, u.base) by {}
            }
        }
        return r;
    }
    let us: Option<i128> = match u.base {
        Unit::Week => n.checked_mul(604_800_000_000),
        Unit::Day => n.checked_mul(US_PER_DAY),
        Unit::Hour => n.checked_mul(3_600_000_000),
        Unit::Minute => n.checked_mul(60_000_000),
        Unit::Second => n.checked_mul(1_000_000),
        Unit::Milli => n.checked_mul(1_000),
        // units finer than a microsecond are floored to it
        Unit::Nano => Some(floor_div(n, 1_000)),
        Unit::Pico => Some(floor_div(n, 1_000_000)),
        Unit::Femto => Some(floor_div(n, 1_000_000_000)),
        Unit::Atto => Some(floor_div(n, 1_000_000_000_000)),
        _ => Some(n),
    };
    let p: Option<Parts> = match us {
        Some(us) => parts_from_us(us),
        None => None,
    };
    proof {
        let scaled = units_us(n as int, u.base);
        assert(us matches Some(x) ==> x == scaled);
        assert(us is None ==> !(-0x1000_0000_0000_0000 < scaled < 0x1000_0000_0000_0000));
        assert forall|q: Parts| valid_parts(q) implies -0x1000_0000_0000_0000 < #[trigger] instant(q)
            < 0x1000_0000_0000_0000 by {
            year_in_range(q.y as int, q.mo as int, q.d as int);
        }
        match p {
            Some(p) => {
                assert(stands_for(p, n as int, u.base));
                stands_for_unique(p, reading(n as int, u.base), n as int, u.base);
            },
            None => {
                assert forall|q: Parts| !stands_for(q, n as int, u.base) by {
                    if valid_parts(q) {
                        assert(instant(q) != scaled);
                    }
                }
            },
        }
    }
    match p {
        Some(p) => Ok(Some(p)),
        None => Err(Dt64Err::Unrepresentable),
    }
}

/// The unit that a dtype string says, if it says one.
pub open spec fn dt64_unit_of(s: Seq<u8>) -> Option<Dt64Unit> {
    if exists|u: Dt64Unit| dt64_says(s, u) {
        Some(choose|u: Dt64Unit| dt64_says(s, u))
    } else {
        None
    }
}

/// A quoted `YYYY-MM-DDTHH:MM:SS[.ffffff][offset]`.
pub open spec fn datetime_text(p: Parts, offset: Option<i64>, opts: u32) -> Seq<u8> {
    seq![0x22u8] + ymd_text(p.y as nat, p.mo as nat, p.d as nat) + seq![0x54u8] + hms_text(
        p.h as nat,
        p.mi as nat,
        p.s as nat,
        p.us as nat,
        opts,
    ) + zone_text(offset, opts) + seq![0x22u8]
}

/// The text of an offset, where there is one.
pub open spec fn zone_text(offset: Option<i64>, opts: u32) -> Seq<u8> {
    match offset {
        Some(o) => offset_text(o as int, opts),
        None => Seq::empty(),
    }
}

/// Is an offset, where there is one, under 24 hours either way?
pub open spec fn offset_in_day(offset: Option<i64>) -> bool {
    offset matches Some(o) ==> -86_400_000_000 < o < 86_400_000_000
}

/// Writes `YYYY-MM-DD`.
pub fn write_ymd(out: &mut Out, y: u16, mo: u8, d: u8)
    requires
        y <= 9999,
    ensures
        final(out)@ == old(out)@ + ymd_text(y as nat, mo as nat, d as nat),
{
    let mut b: [u8; 10] = [0; 10];
    let n: usize = fmt_ymd(&mut b, y, mo, d);
    out.extend_from_slice(&b[0..n]);
    assert(b@.subrange(0, 10) =~= b@);
}

/// Writes `HH:MM:SS[.ffffff]`.
pub fn write_hms(out: &mut Out, h: u8, mi: u8, s: u8, us: u32, opts: u32)
    ensures
        final(out)@ == old(out)@ + hms_text(h as nat, mi as nat, s as nat, us as nat, opts),
{
    let mut b: [u8; 15] = [0; 15];
    let n: usize = fmt_hms(&mut b, h, mi, s, us, opts);
    out.extend_from_slice(&b[0..n]);
    assert(b@.subrange(0, n as int) =~= hms_text(h as nat, mi as nat, s as nat, us as nat, opts));
}

/// Writes the text of an offset, where there is one.
pub fn write_offset(out: &mut Out, offset: Option<i64>, opts: u32)
    requires
        offset_in_day(offset),
    ensures
        final(out)@ == old(out)@ + zone_text(offset, opts),
{
    match offset {
        Some(total_us) => {
            let mut b: [u8; 16] = [0; 16];
            let n: usize = fmt_offset(&mut b, total_us, opts);
            out.extend_from_slice(&b[0..n]);
            assert(b@.subrange(0, n as int) =~= offset_text(total_us as int, opts));
        },
        None => {},
    }
}

/// Writes a quoted date and time, the same text for `datetime` and `datetime64`.
pub fn write_datetime(out: &mut Out, p: &Parts, offset: Option<i64>, opts: u32)
    requires
        p.y <= 9999,
        offset_in_day(offset),
    ensures
        final(out)@ == old(out)@ + datetime_text(*p, offset, opts),
{
    out.push(0x22);
    write_ymd(out, p.y, p.mo, p.d);
    out.push(0x54);
    write_hms(out, p.h, p.mi, p.s, p.us, opts);
    write_offset(out, offset, opts);
    out.push(0x22);
}

/// A value in a multiplied unit is the multiplied value in the unit itself.
pub proof fn multiplier_scales(v: i64, w: i64, base: Unit, mult: i64)
    requires
        w == v * mult,
        v != i64::MIN,
        w != i64::MIN,
    ensures
        dt64_parts(v, Dt64Unit { base, mult }) == dt64_parts(w, Dt64Unit { base, mult: 1 }),
{
    assert(w * 1 == v * mult);
}

/// The units agree with each other: a year is twelve months, a week seven days, a day 24
/// hours, an hour sixty minutes, a minute sixty seconds and a second a thousand
/// milliseconds; and each finer unit is a thousandth of the one before. `r` is what is
/// rounded away.
pub proof fn units_agree(p: Parts, n: int, r: int)
    requires
        0 <= r < 1_000,
    ensures
        stands_for(p, n, Unit::Year) <==> stands_for(p, 12 * n, Unit::Month),
        stands_for(p, n, Unit::Week) <==> stands_for(p, 7 * n, Unit::Day),
        stands_for(p, n, Unit::Day) <==> stands_for(p, 24 * n, Unit::Hour),
        stands_for(p, n, Unit::Hour) <==> stands_for(p, 60 * n, Unit::Minute),
        stands_for(p, n, Unit::Minute) <==> stands_for(p, 60 * n, Unit::Second),
        stands_for(p, n, Unit::Second) <==> stands_for(p, 1_000 * n, Unit::Milli),
        stands_for(p, n, Unit::Milli) <==> stands_for(p, 1_000 * n, Unit::Micro),
        stands_for(p, n, Unit::Micro) <==> stands_for(p, 1_000 * n + r, Unit::Nano),
        stands_for(p, n, Unit::Nano) <==> stands_for(p, 1_000 * n + r, Unit::Pico),
        stands_for(p, n, Unit::Pico) <==> stands_for(p, 1_000 * n + r, Unit::Femto),
        stands_for(p, n, Unit::Femto) <==> stands_for(p, 1_000 * n + r, Unit::Atto),
{
    assert((1_000 * n + r) / 1_000 == n);
    assert((1_000 * n + r) / 1_000_000 == n / 1_000);
    assert((1_000 * n + r) / 1_000_000_000 == n / 1_000_000);
    assert((1_000 * n + r) / 1_000_000_000_000 == n / 1_000_000_000);
}

/// A count of days stands for midnight of the day with that number; a count of
/// microseconds for the time of day that has passed since then.
pub proof fn days_and_microseconds(p: Parts, n: int, us: int)
    requires
        valid_parts(p),
        0 <= us < 86_400_000_000,
    ensures
        stands_for(p, n, Unit::Day) <==> day_number(p.y as int, p.mo as int, p.d as int) == n
            && midnight(p),
        stands_for(p, n * 86_400_000_000 + us, Unit::Micro) <==> day_number(
            p.y as int,
            p.mo as int,
            p.d as int,
        ) == n && ((p.h * 60 + p.mi) * 60 + p.s) * 1_000_000 + p.us == us,
{
    instant_split(p);
    let date = day_number(p.y as int, p.mo as int, p.d as int);
    let rem = p.h * 3_600_000_000 + p.mi * 60_000_000 + p.s * 1_000_000 + p.us;
    assert(instant(p) == date * 86_400_000_000 + rem);
    if instant(p) == n * 86_400_000_000 + us {
        lemma_fundamental_div_mod_converse(instant(p), 86_400_000_000, n, us);
        lemma_fundamental_div_mod_converse(instant(p), 86_400_000_000, date, rem);
    }
    if instant(p) == n * 86_400_000_000 {
        lemma_fundamental_div_mod_converse(instant(p), 86_400_000_000, n, 0);
        lemma_fundamental_div_mod_converse(instant(p), 86_400_000_000, date, rem);
    }
}

/// The letters that numpy gives a unit.
pub open spec fn numpy_letters(u: Unit) -> Seq<char> {
    match u {
        Unit::Year => "Y"@,
        Unit::Month => "M"@,
        Unit::Week => "W"@,
        Unit::Day => "D"@,
        Unit::Hour => "h"@,
        Unit::Minute => "m"@,
        Unit::Second => "s"@,
        Unit::Milli => "ms"@,
        Unit::Micro => "us"@,
        Unit::Nano => "ns"@,
        Unit::Pico => "ps"@,
        Unit::Femto => "fs"@,
        Unit::Atto => "as"@,
        Unit::Generic => ""@,
    }
}

/// Is this the text of `chars`, each a single byte?
pub open spec fn spelled_as(s: Seq<u8>, chars: Seq<char>) -> bool {
    s.len() == chars.len() && forall|i: int| 0 <= i < s.len() ==> #[trigger] s[i] as char
        == chars[i]
}

proof fn unit_code_letters(u: Unit)
    ensures
        spelled_as(unit_code(u), numpy_letters(u)),
{
    reveal_strlit("Y");
    reveal_strlit("M");
    reveal_strlit("W");
    reveal_strlit("D");
    reveal_strlit("h");
    reveal_strlit("m");
    reveal_strlit("s");
    reveal_strlit("ms");
    reveal_strlit("us");
    reveal_strlit("ns");
    reveal_strlit("ps");
    reveal_strlit("fs");
    reveal_strlit("as");
    reveal_strlit("");
}

/// A dtype string that names a unit with its multiplier, or without one for the unit
/// itself, says that unit; one that names none says the generic unit.
pub proof fn dtype_strings_say_their_unit(order: u8, mult: i64, base: Unit, letters: Seq<u8>)
    requires
        order == 0x3c || order == 0x3e || order == 0x3d || order == 0x7c,
        base != Unit::Generic,
        1 <= mult,
        spelled_as(letters, numpy_letters(base)),
    ensures
        dt64_unit_of(seq![order, 0x4d, 0x38]) == Some(Dt64Unit { base: Unit::Generic, mult: 1 }),
        dt64_unit_of(seq![order, 0x4d, 0x38, 0x5b] + letters + seq![0x5du8]) == Some(
            Dt64Unit { base, mult: 1 },
        ),
        dt64_unit_of(
            seq![order, 0x4d, 0x38, 0x5b] + (nat_text(mult as nat) + letters) + seq![0x5du8],
        ) == Some(Dt64Unit { base, mult }),
{
    unit_code_letters(base);
    assert(letters =~= unit_code(base)) by {
        assert forall|i: int| 0 <= i < letters.len() implies #[trigger] letters[i] == unit_code(
            base,
        )[i] by {
            assert(letters[i] as char == numpy_letters(base)[i]);
            assert(unit_code(base)[i] as char == numpy_letters(base)[i]);
        }
    }
    let head = seq![order, 0x4d, 0x38, 0x5b];
    let generic = Dt64Unit { base: Unit::Generic, mult: 1 };
    says_one(seq![order, 0x4d, 0x38], generic);
    let s = head + letters + seq![0x5du8];
    assert(s.subrange(4, s.len() - 1) =~= letters);
    digit_run_is(letters, 0);
    assert(letters.subrange(0, letters.len() as int) =~= letters);
    says_one(s, Dt64Unit { base, mult: 1 });
    let n = nat_text(mult as nat);
    let inner = n + letters;
    let t = head + inner + seq![0x5du8];
    nat_text_reads_back(mult as nat);
    assert(t.subrange(4, t.len() - 1) =~= inner);
    assert forall|i: int| 0 <= i < n.len() implies digit(#[trigger] inner[i]) by {
        assert(inner[i] == n[i]);
    }
    assert(inner[n.len() as int] == letters[0]);
    digit_run_is(inner, n.len() as int);
    assert(inner.subrange(0, n.len() as int) =~= n);
    assert(inner.subrange(n.len() as int, inner.len() as int) =~= letters);
    says_one(t, Dt64Unit { base, mult });
}

proof fn says_one(s: Seq<u8>, u: Dt64Unit)
    requires
        dt64_says(s, u),
    ensures
        dt64_unit_of(s) == Some(u),
{
    dt64_says_unique(s, u, choose|u: Dt64Unit| dt64_says(s, u));
}

/// A dtype string that says a unit has its letters, in brackets, behind nothing but the
/// digits of its multiplier.
pub proof fn dtype_strings_with_a_unit(s: Seq<u8>)
    ensures
        dt64_unit_of(s) matches Some(u) ==> {
            let n = s.len() as int;
            let l = numpy_letters(u.base).len() as int;
            &&& n >= 3 && s[1] as char == 'M' && s[2] as char == '8'
            &&& u.base == Unit::Generic <==> n == 3
            &&& n > 3 ==> {
                &&& n >= 5 + l && s[3] as char == '[' && s[n - 1] as char == ']'
                &&& spelled_as(s.subrange(n - 1 - l, n - 1), numpy_letters(u.base))
                &&& forall|i: int| 4 <= i < n - 1 - l ==> digit(#[trigger] s[i])
                &&& u.mult >= 1 && u.mult == if n == 5 + l {
                    1
                } else {
                    digits_value(s.subrange(4, n - 1 - l)) as int
                }
            }
        },
{
    if let Some(u) = dt64_unit_of(s) {
        assert(dt64_says(s, u));
        unit_code_letters(u.base);
        if s.len() > 3 {
            let n = s.len() as int;
            let inner = s.subrange(4, n - 1);
            let k = digit_run(inner) as int;
            let l = unit_code(u.base).len() as int;
            digit_run_counts(inner);
            assert(inner.subrange(k, inner.len() as int).len() == inner.len() - k);
            assert(k == n - 5 - l);
            assert(s.subrange(n - 1 - l, n - 1) =~= inner.subrange(k, inner.len() as int));
            assert forall|i: int| 4 <= i < n - 1 - l implies digit(#[trigger] s[i]) by {
                assert(s[i] == inner[i - 4]);
            }
            assert(inner.subrange(0, k) =~= s.subrange(4, n - 1 - l));
        }
    }
}

proof fn digit_run_counts(s: Seq<u8>)
    ensures
        digit_run(s) <= s.len(),
        forall|i: int| 0 <= i < digit_run(s) ==> digit(#[trigger] s[i]),
    decreases s.len(),
{
    if s.len() > 0 && digit(s[0]) {
        let t = s.subrange(1, s.len() as int);
        digit_run_counts(t);
        assert forall|i: int| 0 <= i < digit_run(s) implies digit(#[trigger] s[i]) by {
            if i > 0 {
                assert(digit(t[i - 1]));
            }
        }
    }
}

} // verus!

//! The offset of a `datetime` or a `time`, from what its `tzinfo` answers.
use crate::datetime::offset_in_day;
use vstd::prelude::*;

verus! {

/// What a call of `utcoffset` gave.
#[derive(Clone, Copy, Debug, PartialEq, Eq, Structural)]
pub enum OffsetReply {
    /// It raised.
    Raised,
    /// It returned `None`.
    NoOffset,
    /// It returned a `timedelta` with these fields.
    Delta { days: i32, secs: i32, us: i32 },
    /// It returned something else.
    NotDelta,
}

/// What is known after the `tzinfo` answered.
#[derive(Clone, Copy, Debug, PartialEq, Eq, Structural)]
pub enum OffsetStep {
    /// The offset in microseconds, or none: the object is naive.
    Offset(Option<i64>),
    /// The answer is invalid: the object itself is to be asked, whose error says how.
    AskObject,
    /// The error is to be reported.
    Raised,
}

/// The length of a `timedelta` in microseconds.
pub open spec fn delta_total(days: int, secs: int, us: int) -> int {
    (days * 86_400 + secs) * 1_000_000 + us
}

/// Are the fields those of a `timedelta`, in which only the days are negative?
pub open spec fn delta_fields(secs: int, us: int) -> bool {
    0 <= secs < 86_400 && 0 <= us < 1_000_000
}

/// Do the fields say strictly less than a day, either way?
pub open spec fn in_day(days: int, secs: int, us: int) -> bool {
    days == 0 || (days == -1 && (secs != 0 || us != 0))
}

/// Reading the bound off the days is the same as comparing the whole with a day.
pub proof fn in_day_is_under_24_hours(days: int, secs: int, us: int)
    requires
        delta_fields(secs, us),
    ensures
        in_day(days, secs, us) <==> -86_400_000_000 < delta_total(days, secs, us) < 86_400_000_000,
{
}

/// The length in microseconds of a `timedelta` under a day.
pub fn delta_us(days: i32, secs: i32, us: i32) -> (r: i64)
    requires
        -1 <= days <= 0,
    ensures
        r == delta_total(days as int, secs as int, us as int),
{
    (days as i64 * 86_400 + secs as i64) * 1_000_000 + us as i64
}

/// What the answer of the `tzinfo` says: `None` is naive, and a `timedelta` under a
/// day is the offset.
pub fn utcoffset_of(reply: OffsetReply) -> (r: OffsetStep)
    ensures
        r == match reply {
            OffsetReply::Raised => OffsetStep::Raised,
            OffsetReply::NoOffset => OffsetStep::Offset(None),
            OffsetReply::Delta { days, secs, us } => if in_day(
                days as int,
                secs as int,
                us as int,
            ) {
                OffsetStep::Offset(Some(delta_total(days as int, secs as int, us as int) as i64))
            } else {
                OffsetStep::AskObject
            },
            OffsetReply::NotDelta => OffsetStep::AskObject,
        },
        reply matches OffsetReply::Delta { days, secs, us } && delta_fields(secs as int, us as int)
            ==> (r matches OffsetStep::Offset(o) ==> offset_in_day(o)),
{
    match reply {
        OffsetReply::Raised => OffsetStep::Raised,
        OffsetReply::NoOffset => OffsetStep::Offset(None),
        OffsetReply::NotDelta => OffsetStep::AskObject,
        OffsetReply::Delta { days, secs, us } => {
            if days == 0 || (days == -1 && (secs != 0 || us != 0)) {
                OffsetStep::Offset(Some(delta_us(days, secs, us)))
            } else {
                OffsetStep::AskObject
            }
        },
    }
}

/// What the answer of the object itself says. Python has checked a `timedelta` that
/// comes this way, so that it is under a day.
pub fn utcoffset_asked(reply: OffsetReply) -> (r: OffsetStep)
    requires
        reply matches OffsetReply::Delta { days, secs, us } ==> in_day(
            days as int,
            secs as int,
            us as int,
        ),
    ensures
        r == match reply {
            OffsetReply::NoOffset => OffsetStep::Offset(None),
            OffsetReply::Delta { days, secs, us } => OffsetStep::Offset(
                Some(delta_total(days as int, secs as int, us as int) as i64),
            ),
            _ => OffsetStep::Raised,
        },
{
    match reply {
        OffsetReply::NoOffset => OffsetStep::Offset(None),
        OffsetReply::Delta { days, secs, us } => OffsetStep::Offset(Some(delta_us(days, secs, us))),
        _ => OffsetStep::Raised,
    }
}

/// The length of a `timedelta` counts days of 24 hours, and its sign turns with it: what is
/// `secs` and `us` short of midnight the day before is as far from it as they are after.
pub proof fn delta_counts_days(days: int, secs: int, us: int)
    ensures
        delta_total(days + 1, secs, us) == delta_total(days, secs + 24 * 60 * 60, us),
        delta_total(days, secs + 1, us) == delta_total(days, secs, us + 1_000_000),
        delta_total(-days, -secs, -us) == -delta_total(days, secs, us),
        delta_total(0, 0, us) == us,
{
}

} // verus!

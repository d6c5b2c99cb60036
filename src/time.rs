use crate::color::{append_decimal, decimal};
use vstd::prelude::*;
use vstd::string::*;

verus! {

/// How finely short durations are told apart.
#[derive(Clone, Copy, Debug, PartialEq, Eq, Structural)]
pub enum TimeGranularity {
    /// Milliseconds under a second, seconds under a minute.
    Fine,
    /// "just now" under a minute.
    Coarse,
}

/// The plural suffix for a count.
pub open spec fn plural(n: int) -> Seq<char> {
    if n == 1 {
        seq![]
    } else {
        "s"@
    }
}

/// A count with its unit, in the plural where the count is not one.
pub open spec fn counted(n: int, unit: Seq<char>) -> Seq<char> {
    decimal(n as nat) + " "@ + unit + plural(n)
}

pub const MILLIS_PER_SECOND: i64 = 1000;

pub const MILLIS_PER_MINUTE: i64 = 60_000;

pub const MILLIS_PER_HOUR: i64 = 3_600_000;

pub const MILLIS_PER_DAY: i64 = 86_400_000;

/// A duration in words, rounded down to its largest unit; a duration of a
/// second or more into the future reads "in the future".
pub open spec fn timedelta_text(ms: int, g: TimeGranularity) -> Seq<char> {
    if ms <= -1000 {
        "in the future"@
    } else if ms < 1000 && g == TimeGranularity::Fine {
        if ms < 0 {
            "-"@ + decimal((-ms) as nat) + " ms"@
        } else {
            decimal(ms as nat) + " ms"@
        }
    } else if ms < 60_000 {
        if g == TimeGranularity::Fine {
            decimal((ms / 1000) as nat) + " sec"@ + plural(ms / 1000)
        } else {
            "just now"@
        }
    } else if ms < 3_600_000 {
        decimal((ms / 60_000) as nat) + " min"@ + plural(ms / 60_000)
    } else if ms < 86_400_000 {
        counted(ms / 3_600_000, "hour"@)
    } else if ms / 86_400_000 < 30 {
        counted(ms / 86_400_000, "day"@)
    } else if ms / 86_400_000 < 365 {
        counted(ms / 86_400_000 / 30, "month"@)
    } else {
        counted(ms / 86_400_000 / 365, "year"@)
    }
}

fn append_plural(s: &mut String, n: i64)
    ensures
        final(s)@ == old(s)@ + plural(n as int),
{
    if n != 1 {
        s.append("s");
    } else {
        proof {
            assert(old(s)@ + plural(n as int) =~= old(s)@);
        }
    }
}

fn append_counted(s: &mut String, n: i64, unit: &str)
    requires
        n >= 0,
    ensures
        final(s)@ == old(s)@ + counted(n as int, unit@),
{
    append_decimal(s, n as u64);
    s.append(" ");
    s.append(unit);
    append_plural(s, n);
    proof {
        assert(final(s)@ =~= old(s)@ + counted(n as int, unit@));
    }
}

/// Tells a duration, given in milliseconds, in words.
pub fn human_formatted_timedelta(duration_millis: i64, granularity: TimeGranularity) -> (r: String)
    ensures
        r@ == timedelta_text(duration_millis as int, granularity),
{
    let ms = duration_millis;
    let mut out = String::new();
    if ms <= -1000 {
        out.append("in the future");
    } else if ms < 1000 && granularity == TimeGranularity::Fine {
        if ms < 0 {
            out.append("-");
            append_decimal(&mut out, (-ms) as u64);
        } else {
            append_decimal(&mut out, ms as u64);
        }
        out.append(" ms");
    } else if ms < MILLIS_PER_MINUTE {
        if granularity == TimeGranularity::Fine {
            let secs = ms / MILLIS_PER_SECOND;
            append_decimal(&mut out, secs as u64);
            out.append(" sec");
            append_plural(&mut out, secs);
        } else {
            out.append("just now");
        }
    } else if ms < MILLIS_PER_HOUR {
        let minutes = ms / MILLIS_PER_MINUTE;
        append_decimal(&mut out, minutes as u64);
        out.append(" min");
        append_plural(&mut out, minutes);
    } else if ms < MILLIS_PER_DAY {
        append_counted(&mut out, ms / MILLIS_PER_HOUR, "hour");
    } else {
        let days = ms / MILLIS_PER_DAY;
        if days < 30 {
            append_counted(&mut out, days, "day");
        } else if days < 365 {
            append_counted(&mut out, days / 30, "month");
        } else {
            append_counted(&mut out, days / 365, "year");
        }
    }
    proof {
        reveal_strlit("in the future");
        reveal_strlit("-");
        reveal_strlit(" ms");
        reveal_strlit(" sec");
        reveal_strlit("just now");
        reveal_strlit(" min");
        reveal_strlit("hour");
        reveal_strlit("day");
        reveal_strlit("month");
        reveal_strlit("year");
        assert(out@ =~= timedelta_text(duration_millis as int, granularity));
    }
    out
}

/// `x`, held within the range of `i64`.
pub open spec fn clamp_to_i64(x: int) -> int {
    if x > i64::MAX {
        i64::MAX as int
    } else if x < i64::MIN {
        i64::MIN as int
    } else {
        x
    }
}

/// How long ago `old` was, seen from `new`, both in milliseconds since the
/// epoch, coarsely.
pub fn relative_time(old: i64, new: i64) -> (r: String)
    ensures
        r@ == timedelta_text(clamp_to_i64(new as int - old as int), TimeGranularity::Coarse),
{
    let diff: i64 = if old < 0 && new > i64::MAX + old {
        i64::MAX
    } else if old > 0 && new < i64::MIN + old {
        i64::MIN
    } else {
        new - old
    };
    human_formatted_timedelta(diff, TimeGranularity::Coarse)
}

} // verus!

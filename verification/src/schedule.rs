//! When the daily batch runs next, as the status page reports it.
use vstd::prelude::*;

use crate::format::{decimal, push_two_digits, zero_padded};
use crate::quota::{div_toward_zero, whole_seconds_between};
use crate::text::{push_char, string_of};

verus! {

/// The offset of Japan Standard Time from UTC, in seconds.
pub const JST_OFFSET_SECS: i64 = 32400;

/// The earliest Unix second from which the next run is looked for: one day
/// after the first moment chrono can represent (1 January of the year
/// -262143), so that a moment shifted into any time zone stays in range.
pub const MIN_CLOCK_SECS: i64 = -8_334_601_228_800;

/// The latest Unix second from which the next run is looked for: one day
/// before the last moment chrono can represent (31 December of the year
/// 262142).
pub const MAX_CLOCK_SECS: i64 = 8_210_266_790_399;

/// The next occurrence of a cron pattern after a moment, as
/// `croner::Cron::from_str` and `Cron::find_next_occurrence` (not inclusive)
/// compute it in the time zone `offset_secs` seconds east of UTC: the Unix
/// seconds and nanoseconds of the occurrence and its local month and day;
/// none when the offset or the moment is out of chrono's range, the pattern
/// does not parse or no occurrence is found.
pub uninterp spec fn spec_cron_next(pattern: Seq<char>, now_secs: i64, now_nanos: u32, offset_secs: i32) -> Option<(i64, u32, u32, u32)>;

/// The next occurrence of `pattern` after the moment given, in the time
/// zone `offset_secs` east of UTC, with the local month and day of that
/// occurrence. chrono's month and day lie in their calendar ranges, and its
/// sub-second nanoseconds stay below two seconds (a leap second). The moment
/// is kept a day inside chrono's range: `DateTime::naive_local`, which the
/// search starts from, panics when the local time leaves it.
#[verifier::external_body]
fn cron_next_occurrence(pattern: &str, now_secs: i64, now_nanos: u32, offset_secs: i32) -> (r: Option<(i64, u32, u32, u32)>)
    requires
        MIN_CLOCK_SECS <= now_secs <= MAX_CLOCK_SECS,
        -86_400 < offset_secs < 86_400,
    ensures
        r == spec_cron_next(pattern@, now_secs, now_nanos, offset_secs),
        r matches Some(t) ==> 1 <= t.2 <= 12 && 1 <= t.3 <= 31 && t.1 < 2_000_000_000,
{
    let zone = chrono::FixedOffset::east_opt(offset_secs)?;
    let now = chrono::DateTime::from_timestamp(now_secs, now_nanos)?.with_timezone(&zone);
    let cron = <croner::Cron as std::str::FromStr>::from_str(pattern).ok()?;
    let next = cron.find_next_occurrence(&now, false).ok()?;
    Some((
        next.timestamp(),
        next.timestamp_subsec_nanos(),
        chrono::Datelike::month(&next),
        chrono::Datelike::day(&next),
    ))
}

/// The system clock's time, `std::time::SystemTime`.
#[verifier::external_type_specification]
#[verifier::external_body]
pub struct ExSystemTime(std::time::SystemTime);

/// Reads the system clock with `SystemTime::now`; nothing is known of what
/// it reads.
#[verifier::external_body]
fn system_now() -> std::time::SystemTime {
    std::time::SystemTime::now()
}

/// The time from the Unix epoch to `t`, by `SystemTime::duration_since`, as
/// the whole seconds and the nanoseconds of the last second of the
/// `Duration`, which stay below a second; none when `t` lies before the
/// epoch. What the clock time is, `SystemTime` does not show as a plain
/// value, so the seconds are left unsaid.
#[verifier::external_body]
fn since_unix_epoch(t: &std::time::SystemTime) -> (r: Option<(u64, u32)>)
    ensures
        r matches Some(p) ==> p.1 < 1_000_000_000,
{
    match t.duration_since(std::time::UNIX_EPOCH) {
        Ok(d) => Some((d.as_secs(), d.subsec_nanos())),
        Err(_) => None,
    }
}

/// The JST day number of a moment.
pub open spec fn jst_day(secs: int) -> int {
    (secs + JST_OFFSET_SECS) / 86400
}

/// The JST hour of a moment.
pub open spec fn jst_hour(secs: int) -> int {
    ((secs + JST_OFFSET_SECS) % 86400) / 3600
}

/// The JST minute of a moment.
pub open spec fn jst_minute(secs: int) -> int {
    ((secs + JST_OFFSET_SECS) % 3600) / 60
}

/// `HH:MM` of a moment in JST.
pub open spec fn clock_text(secs: int) -> Seq<char> {
    zero_padded(decimal(jst_hour(secs) as nat), 2) + seq![':'] + zero_padded(
        decimal(jst_minute(secs) as nat),
        2,
    )
}

/// The summary of a next run `next` (seconds, nanoseconds, JST month and
/// day) seen from the moment `now_secs`, `now_nanos`: unknown when there is
/// none, else the time of day when it falls on the same JST day, else
/// `MM月DD日 HH:MM`; and the minutes until then, rounded up.
pub open spec fn run_summary(next: Option<(i64, u32, u32, u32)>, now_secs: i64, now_nanos: u32) -> (Seq<char>, int) {
    match next {
        None => (seq!['不', '明'], 0),
        Some(t) => {
            let s = whole_seconds_between(t.0, t.1, now_secs, now_nanos);
            let seconds = if s > 0 { s } else { 0 };
            let minutes = (seconds + 59) / 60;
            let text = if jst_day(t.0 as int) == jst_day(now_secs as int) {
                clock_text(t.0 as int)
            } else {
                zero_padded(decimal(t.2 as nat), 2) + seq!['月'] + zero_padded(decimal(t.3 as nat), 2)
                    + seq!['日', ' '] + clock_text(t.0 as int)
            };
            (text, minutes)
        },
    }
}

/// The summary of the next run of `pattern` after the given moment.
pub open spec fn next_run_summary(pattern: Seq<char>, now_secs: i64, now_nanos: u32) -> (Seq<char>, int) {
    run_summary(spec_cron_next(pattern, now_secs, now_nanos, JST_OFFSET_SECS as i32), now_secs, now_nanos)
}

fn floor_div_mod(a: i128, b: i128) -> (r: (i128, i128))
    requires
        b > 0,
        a > i128::MIN,
    ensures
        r.0 == a / b,
        r.1 == a % b,
        0 <= r.1 < b,
{
    if a >= 0 {
        (a / b, a % b)
    } else {
        let p = -a;
        let q = p / b;
        let m = p % b;
        assert(p == q * b + m && 0 <= m < b && q >= 0) by (nonlinear_arith)
            requires
                p > 0,
                b > 0,
                q == p / b,
                m == p % b,
        ;
        if m == 0 {
            proof {
                assert(a == (-q) * b + 0) by (nonlinear_arith)
                    requires
                        a == -p,
                        p == q * b,
                ;
                lemma_floor_parts(a as int, b as int, -q as int, 0);
            }
            (-q, 0)
        } else {
            proof {
                assert(a == (-q - 1) * b + (b - m)) by (nonlinear_arith)
                    requires
                        a == -p,
                        p == q * b + m,
                ;
                lemma_floor_parts(a as int, b as int, -q - 1, b - m);
            }
            (-q - 1, b - m)
        }
    }
}

proof fn lemma_floor_parts(a: int, b: int, q: int, m: int)
    requires
        b > 0,
        a == q * b + m,
        0 <= m < b,
    ensures
        q == a / b,
        m == a % b,
{
    vstd::arithmetic::div_mod::lemma_fundamental_div_mod_converse(a, b, q, m);
}

fn push_clock(out: &mut String, secs: i64)
    ensures
        final(out)@ == old(out)@ + clock_text(secs as int),
{
    let local = secs as i128 + JST_OFFSET_SECS as i128;
    let (_d, in_day) = floor_div_mod(local, 86400);
    let (_h, in_hour) = floor_div_mod(local, 3600);
    let hour = (in_day / 3600) as u32;
    let minute = (in_hour / 60) as u32;
    push_two_digits(out, hour);
    push_char(out, ':');
    push_two_digits(out, minute);
    assert(final(out)@ =~= old(out)@ + clock_text(secs as int)) by {
        assert(hour as int == jst_hour(secs as int));
        assert(minute as int == jst_minute(secs as int));
    }
}

proof fn lemma_two_digits_len(n: nat)
    requires
        n < 100,
    ensures
        zero_padded(decimal(n), 2).len() == 2,
{
    reveal_with_fuel(decimal, 2);
    if n >= 10 {
        assert(decimal(n / 10).len() == 1);
    }
}

/// The text of a summary is a bare `HH:MM` exactly when the next run falls
/// on the same JST calendar day as the moment it is seen from; otherwise it
/// is `MM月DD日 HH:MM`.
pub proof fn lemma_date_shown_only_for_other_days(next: Option<(i64, u32, u32, u32)>, now_secs: i64, now_nanos: u32)
    requires
        next matches Some(t) ==> 1 <= t.2 <= 12 && 1 <= t.3 <= 31,
    ensures
        next is None ==> run_summary(next, now_secs, now_nanos).0 == seq!['不', '明'],
        next matches Some(t) ==> {
            let text = run_summary(next, now_secs, now_nanos).0;
            if (t.0 + 32400) / 86400 == (now_secs + 32400) / 86400 {
                text.len() == 5 && text[2] == ':'
            } else {
                &&& text.len() == 12
                &&& text[2] == '月'
                &&& text[5] == '日'
                &&& text[6] == ' '
                &&& text[9] == ':'
            }
        },
{
    if let Some(t) = next {
        let h = jst_hour(t.0 as int);
        let m = jst_minute(t.0 as int);
        assert(0 <= h < 24);
        assert(0 <= m < 60);
        lemma_two_digits_len(h as nat);
        lemma_two_digits_len(m as nat);
        lemma_two_digits_len(t.2 as nat);
        lemma_two_digits_len(t.3 as nat);
        let c = clock_text(t.0 as int);
        assert(c.len() == 5 && c[2] == ':');
    }
}

fn unknown_run() -> (r: (String, i64))
    ensures
        r.0@ == seq!['不', '明'],
        r.1 == 0,
{
    let unknown = vec!['不', '明'];
    assert(unknown@ =~= seq!['不', '明']);
    (string_of(&unknown), 0)
}

/// Summarizes the next run `next` that the cron search found (seconds,
/// nanoseconds, JST month and day), seen from the given moment.
pub fn summarize_next_run(next: Option<(i64, u32, u32, u32)>, now_secs: i64, now_nanos: u32) -> (r: (
    String,
    i64,
))
    requires
        now_nanos < 1_000_000_000,
        next matches Some(t) ==> 1 <= t.2 <= 12 && 1 <= t.3 <= 31 && t.1 < 2_000_000_000,
    ensures
        (r.0@, r.1 as int) == run_summary(next, now_secs, now_nanos),
        next is None ==> r.0@ == seq!['不', '明'] && r.1 == 0,
        next matches Some(t) ==> if (t.0 + 32400) / 86400 == (now_secs + 32400) / 86400 {
            r.0@.len() == 5 && r.0@[2] == ':'
        } else {
            &&& r.0@.len() == 12
            &&& r.0@[2] == '月'
            &&& r.0@[5] == '日'
            &&& r.0@[9] == ':'
        },
{
    proof {
        lemma_date_shown_only_for_other_days(next, now_secs, now_nanos);
    }
    match next {
        None => unknown_run(),
        Some((next_secs, next_nanos, month, day)) => {
            let diff: i128 = (next_secs as i128 - now_secs as i128) * 1_000_000_000 + next_nanos as i128
                - now_nanos as i128;
            let seconds0 = if diff >= 0 {
                diff / 1_000_000_000
            } else {
                -((-diff) / 1_000_000_000)
            };
            assert(seconds0 == whole_seconds_between(next_secs, next_nanos, now_secs, now_nanos));
            let seconds = if seconds0 > 0 {
                seconds0
            } else {
                0
            };
            assert(seconds <= 0x2_0000_0000_0000_0000) by (nonlinear_arith)
                requires
                    seconds == (if seconds0 > 0 { seconds0 } else { 0 }),
                    diff >= 0 ==> seconds0 == diff / 1_000_000_000,
                    diff < 0 ==> seconds0 <= 0,
                    diff <= 0x1_0000_0000_0000_0000 * 1_000_000_000 + 2_000_000_000,
            ;
            let minutes = (seconds + 59) / 60;
            let local_next = next_secs as i128 + JST_OFFSET_SECS as i128;
            let local_now = now_secs as i128 + JST_OFFSET_SECS as i128;
            let (day_next, _) = floor_div_mod(local_next, 86400);
            let (day_now, _) = floor_div_mod(local_now, 86400);
            let mut text = String::new();
            if day_next == day_now {
                push_clock(&mut text, next_secs);
            } else {
                push_two_digits(&mut text, month);
                push_char(&mut text, '月');
                push_two_digits(&mut text, day);
                push_char(&mut text, '日');
                push_char(&mut text, ' ');
                push_clock(&mut text, next_secs);
            }
            assert(text@ =~= run_summary(next, now_secs, now_nanos).0);
            (text, minutes as i64)
        },
    }
}

/// When the batch of `pattern` runs next after the given moment, and in how
/// many minutes.
pub fn calculate_next_cron_execution_at(pattern: &str, now_secs: i64, now_nanos: u32) -> (r: (
    String,
    i64,
))
    requires
        MIN_CLOCK_SECS <= now_secs <= MAX_CLOCK_SECS,
        now_nanos < 1_000_000_000,
    ensures
        (r.0@, r.1 as int) == next_run_summary(pattern@, now_secs, now_nanos),
{
    let next = cron_next_occurrence(pattern, now_secs, now_nanos, JST_OFFSET_SECS as i32);
    summarize_next_run(next, now_secs, now_nanos)
}

/// When the batch of `pattern` runs next, seen from a reading of the system
/// clock (whole seconds and nanoseconds since 1970, none for a clock set
/// before 1970): the unknown summary when there is no reading or it lies
/// beyond the range the search covers.
pub fn next_run_from_clock(pattern: &str, reading: Option<(u64, u32)>) -> (r: (String, i64))
    requires
        reading matches Some(p) ==> p.1 < 1_000_000_000,
    ensures
        (r.0@, r.1 as int) == match reading {
            Some(p) => if p.0 <= MAX_CLOCK_SECS {
                next_run_summary(pattern@, p.0 as i64, p.1)
            } else {
                (seq!['不', '明'], 0int)
            },
            None => (seq!['不', '明'], 0int),
        },
{
    match reading {
        Some((secs, nanos)) => {
            if secs <= MAX_CLOCK_SECS as u64 {
                calculate_next_cron_execution_at(pattern, secs as i64, nanos)
            } else {
                unknown_run()
            }
        },
        None => unknown_run(),
    }
}

/// When the batch of `pattern` runs next, seen from the system clock; the
/// unknown summary when the clock reads a time before 1970 or beyond the
/// range the search covers.
pub fn calculate_next_cron_execution(pattern: &str) -> (r: (String, i64))
    ensures
        (r.0@ == seq!['不', '明'] && r.1 == 0) || exists|s: i64, n: u32|
            MIN_CLOCK_SECS <= s <= MAX_CLOCK_SECS && n < 1_000_000_000 && (r.0@, r.1 as int)
                == next_run_summary(pattern@, s, n),
{
    let now = system_now();
    let reading = since_unix_epoch(&now);
    next_run_from_clock(pattern, reading)
}

} // verus!

//! The daily quota of requests to the market-data service.
use vstd::prelude::*;

use crate::format::{decimal, push_decimal};
use crate::text::owned;

verus! {

/// The least time between two requests, in minutes (a day spread over the
/// daily allowance).
pub const MIN_INTERVAL_MINUTES: i64 = 96;

/// How many requests a day allows.
pub const MAX_REQUESTS_PER_DAY: i64 = 15;

/// Integer division rounding toward zero, as Rust's `/` on signed integers.
pub open spec fn div_toward_zero(a: int, b: int) -> int {
    if a >= 0 {
        a / b
    } else {
        -((-a) / b)
    }
}

/// The whole seconds from one moment to another (each in seconds and
/// nanoseconds), rounded toward zero, as `TimeDelta::num_seconds` gives them.
pub open spec fn whole_seconds_between(to_secs: i64, to_nanos: u32, from_secs: i64, from_nanos: u32) -> int {
    div_toward_zero((to_secs - from_secs) * 1_000_000_000 + to_nanos - from_nanos, 1_000_000_000)
}

/// Whether a request may be made now, and otherwise how many minutes remain
/// before one may (zero when the day's allowance is used up).
pub open spec fn allowance(count: i64, last: Option<i64>, now_secs: i64, now_nanos: u32) -> (bool, int) {
    if count >= MAX_REQUESTS_PER_DAY {
        (false, 0)
    } else {
        match last {
            None => (true, 0),
            Some(l) => {
                let elapsed = div_toward_zero(whole_seconds_between(now_secs, now_nanos, l, 0), 60);
                let remaining = MIN_INTERVAL_MINUTES - elapsed;
                if remaining <= 0 {
                    (true, 0)
                } else {
                    (false, remaining)
                }
            },
        }
    }
}

proof fn lemma_div_toward_zero_bound(a: int, b: int, m: int)
    requires
        b > 0,
        m > 0,
        -(m * b) < a < m * b,
    ensures
        -m < div_toward_zero(a, b) < m,
        -m <= div_toward_zero(a, b) <= m,
        a >= 0 ==> 0 <= div_toward_zero(a, b) <= a,
        a < 0 ==> a <= div_toward_zero(a, b) <= 0,
{
    if a >= 0 {
        assert(a / b < m) by (nonlinear_arith)
            requires
                b > 0,
                0 <= a < m * b,
        ;
        assert(0 <= a / b <= a) by (nonlinear_arith)
            requires
                b > 0,
                0 <= a,
        ;
    } else {
        assert((-a) / b < m) by (nonlinear_arith)
            requires
                b > 0,
                0 < -a < m * b,
        ;
        assert(0 <= (-a) / b <= -a) by (nonlinear_arith)
            requires
                b > 0,
                0 <= -a,
        ;
    }
}

fn div_zero_i128(a: i128, b: i128) -> (q: i128)
    requires
        b > 0,
        a > i128::MIN,
    ensures
        q == div_toward_zero(a as int, b as int),
{
    if a >= 0 {
        a / b
    } else {
        -((-a) / b)
    }
}

/// Decides whether a request to the market-data service may be made now:
/// `count` requests were made today, the last at `last` (Unix seconds), and
/// it is now `now_secs` seconds and `now_nanos` nanoseconds.
pub fn request_allowance(count: i64, last: Option<i64>, now_secs: i64, now_nanos: u32) -> (r: (bool, i64))
    requires
        now_nanos < 1_000_000_000,
    ensures
        (r.0, r.1 as int) == allowance(count, last, now_secs, now_nanos),
{
    if count >= MAX_REQUESTS_PER_DAY {
        return (false, 0);
    }
    match last {
        None => (true, 0),
        Some(l) => {
            let diff: i128 = (now_secs as i128 - l as i128) * 1_000_000_000 + now_nanos as i128;
            let seconds = div_zero_i128(diff, 1_000_000_000);
            let elapsed = div_zero_i128(seconds, 60);
            proof {
                lemma_div_toward_zero_bound(diff as int, 1_000_000_000, 0x1_0000_0000_0000_0001);
                lemma_div_toward_zero_bound(seconds as int, 60, 0x1_0000_0000_0000_0001);
            }
            let remaining = MIN_INTERVAL_MINUTES as i128 - elapsed;
            if remaining <= 0 {
                (true, 0)
            } else {
                (false, remaining as i64)
            }
        },
    }
}

/// The requests left today.
pub fn requests_remaining(count: i64) -> (r: i64)
    requires
        MAX_REQUESTS_PER_DAY - count <= i64::MAX,
    ensures
        r == if MAX_REQUESTS_PER_DAY - count > 0 {
            MAX_REQUESTS_PER_DAY - count
        } else {
            0
        },
{
    let left = MAX_REQUESTS_PER_DAY - count;
    if left > 0 {
        left
    } else {
        0
    }
}

/// A day's allowance never goes negative nor above its size.
pub proof fn lemma_remaining_in_range(count: i64)
    requires
        count >= 0,
    ensures
        0 <= (if MAX_REQUESTS_PER_DAY - count > 0 {
            MAX_REQUESTS_PER_DAY - count
        } else {
            0
        }) <= MAX_REQUESTS_PER_DAY,
{
}


/// Once the day's allowance is used up, no request is allowed, whenever it
/// is asked.
pub proof fn lemma_used_up_day_refuses(count: i64, last: Option<i64>, now_secs: i64, now_nanos: u32)
    requires
        count >= MAX_REQUESTS_PER_DAY,
    ensures
        allowance(count, last, now_secs, now_nanos) == (false, 0int),
{
}

/// Within the least interval after a request, no other request is allowed,
/// and the minutes to wait are between one and the whole interval.
pub proof fn lemma_requests_are_spaced(count: i64, last: i64, now_secs: i64, now_nanos: u32)
    requires
        last <= now_secs < last + MIN_INTERVAL_MINUTES * 60,
        now_nanos < 1_000_000_000,
    ensures
        !allowance(count, Some(last), now_secs, now_nanos).0,
        count < MAX_REQUESTS_PER_DAY ==> 1 <= allowance(count, Some(last), now_secs, now_nanos).1
            <= MIN_INTERVAL_MINUTES,
{
    let d = now_secs - last;
    let total = d * 1_000_000_000 + now_nanos;
    assert(total / 1_000_000_000 == d) by (nonlinear_arith)
        requires
            total == d * 1_000_000_000 + now_nanos,
            0 <= d,
            0 <= now_nanos < 1_000_000_000,
    ;
    assert(0 <= d / 60 < MIN_INTERVAL_MINUTES) by (nonlinear_arith)
        requires
            0 <= d < MIN_INTERVAL_MINUTES * 60,
    ;
}

/// Once the least interval has passed since the last request, a request is
/// allowed while the day's allowance lasts.
pub proof fn lemma_interval_passed_allows(count: i64, last: i64, now_secs: i64, now_nanos: u32)
    requires
        count < MAX_REQUESTS_PER_DAY,
        now_secs >= last + MIN_INTERVAL_MINUTES * 60,
        now_nanos < 1_000_000_000,
    ensures
        allowance(count, Some(last), now_secs, now_nanos) == (true, 0int),
{
    let d = now_secs - last;
    let total = d * 1_000_000_000 + now_nanos;
    assert(total / 1_000_000_000 == d) by (nonlinear_arith)
        requires
            total == d * 1_000_000_000 + now_nanos,
            0 <= d,
            0 <= now_nanos < 1_000_000_000,
    ;
    assert(d / 60 >= MIN_INTERVAL_MINUTES) by (nonlinear_arith)
        requires
            d >= MIN_INTERVAL_MINUTES * 60,
    ;
}

/// The least time between two share cards, in milliseconds.
pub const MIN_CARD_INTERVAL_MILLIS: u64 = 2000;

/// Whether a share card may be issued, given the whole milliseconds since
/// the last one was, if one was.
pub fn may_issue_card(since_last_millis: Option<u64>) -> (ok: bool)
    ensures
        ok == match since_last_millis {
            None => true,
            Some(ms) => ms >= MIN_CARD_INTERVAL_MILLIS,
        },
{
    match since_last_millis {
        None => true,
        Some(ms) => ms >= MIN_CARD_INTERVAL_MILLIS,
    }
}

/// The sentence the status page shows about the quota: requests are
/// possible; or how many minutes to wait; or the day's allowance is used up.
pub open spec fn status_message_of(can_request: bool, minutes_remaining: i64) -> Seq<char> {
    if can_request {
        "外部APIリクエスト可能"@
    } else if minutes_remaining > 0 {
        "次回リクエストまで "@ + decimal(minutes_remaining as nat) + " 分待機中"@
    } else {
        "本日のリクエスト上限に達しました"@
    }
}

/// The sentence about the quota.
pub fn api_status_message(can_request: bool, minutes_remaining: i64) -> (r: String)
    ensures
        r@ == status_message_of(can_request, minutes_remaining),
{
    if can_request {
        owned("外部APIリクエスト可能")
    } else if minutes_remaining > 0 {
        let mut s = owned("次回リクエストまで ");
        push_decimal(&mut s, minutes_remaining as u64);
        let tail = crate::text::chars_of(" 分待機中");
        let ghost start = s@;
        let mut k: usize = 0;
        while k < tail.len()
            invariant
                k <= tail.len(),
                s@ == start + tail@.take(k as int),
            decreases tail.len() - k,
        {
            crate::text::push_char(&mut s, tail[k]);
            k = k + 1;
            assert(s@ =~= start + tail@.take(k as int));
        }
        assert(tail@.take(tail.len() as int) =~= tail@);
        s
    } else {
        owned("本日のリクエスト上限に達しました")
    }
}

} // verus!

use vstd::prelude::*;

use crate::timer::NANOS_PER_SEC;

verus! {

pub const NANOS_PER_MICRO: u32 = 1_000;

pub const MICROS_PER_SEC: u32 = 1_000_000;

/// The nanoseconds a `timespec` of the sleep family asks for.  The POSIX
/// contract bounds the fields: a negative or overlong request is rejected
/// by the caller before this arithmetic runs.
pub fn nanosleep_request_ns(tv_sec: i64, tv_nsec: i64) -> (r: u64)
    requires
        0 <= tv_sec,
        0 <= tv_nsec < NANOS_PER_SEC,
        tv_sec * NANOS_PER_SEC + tv_nsec <= i64::MAX,
    ensures
        r == tv_sec * NANOS_PER_SEC + tv_nsec,
{
    proof {
        vstd::arithmetic::mul::lemma_mul_nonnegative(tv_sec as int, NANOS_PER_SEC as int);
    }
    (tv_sec * (NANOS_PER_SEC as i64) + tv_nsec) as u64
}

/// What is left of a sleep that should end at `deadline` when the clock
/// reads `now`: `None` once the deadline has passed, so the hook reports a
/// zero residual and returns success; else the remainder, split into the
/// `timespec` handed to the original `nanosleep` for the tail of the
/// interval.
pub fn nanosleep_remainder(deadline: u64, now: u64) -> (r: Option<(i64, i64)>)
    requires
        deadline <= i64::MAX,
    ensures
        deadline <= now ==> r is None,
        now < deadline ==> {
            &&& r matches Some(ts)
            &&& ts.0 == (deadline - now) as int / NANOS_PER_SEC as int
            &&& ts.1 == (deadline - now) as int % NANOS_PER_SEC as int
            &&& ts.0 * NANOS_PER_SEC + ts.1 == deadline - now
            &&& 0 <= ts.1 < NANOS_PER_SEC
        },
{
    if deadline <= now {
        return None;
    }
    let left = deadline - now;
    let sec = left / NANOS_PER_SEC;
    let nsec = left % NANOS_PER_SEC;
    proof {
        vstd::arithmetic::div_mod::lemma_fundamental_div_mod(left as int, NANOS_PER_SEC as int);
    }
    Some((sec as i64, nsec as i64))
}

/// The `timespec` a `sleep(secs)` call asks the hooked `nanosleep` for.
pub fn sleep_request(secs: u32) -> (r: (i64, i64))
    ensures
        r.0 == secs,
        r.1 == 0,
{
    (secs as i64, 0)
}

/// The seconds `sleep` reports unslept, from the residual `nanosleep` wrote
/// back.
pub fn sleep_result(rem_sec: i64) -> (r: u32)
    requires
        0 <= rem_sec <= u32::MAX,
    ensures
        r == rem_sec,
{
    rem_sec as u32
}

/// The `timespec` a `usleep(micros)` call asks the hooked `nanosleep` for.
pub fn usleep_request(micros: u32) -> (r: (i64, i64))
    ensures
        r.0 == micros as int / MICROS_PER_SEC as int,
        r.1 == (micros as int % MICROS_PER_SEC as int) * NANOS_PER_MICRO,
        r.0 * NANOS_PER_SEC + r.1 == micros as int * NANOS_PER_MICRO,
        0 <= r.1 < NANOS_PER_SEC,
{
    let sec = micros / MICROS_PER_SEC;
    let sub = micros % MICROS_PER_SEC;
    let nsec = sub * NANOS_PER_MICRO;
    proof {
        vstd::arithmetic::div_mod::lemma_fundamental_div_mod(micros as int, MICROS_PER_SEC as int);
    }
    (sec as i64, nsec as i64)
}

} // verus!

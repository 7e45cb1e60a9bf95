use vstd::prelude::*;

verus! {

/// A point in time, counted in ticks of a timer that makes `TIMER_HZ` ticks a
/// second. The counter is 32 bits wide and starts again at zero when it
/// overflows.
///
/// `TIMER_HZ` must not be zero: a socket for such a timer does not build.
#[derive(Debug, Clone, Copy, PartialEq, Eq)]
pub struct Instant<const TIMER_HZ: u32> {
    pub ticks: u32,
}

impl<const TIMER_HZ: u32> Instant<TIMER_HZ> {
    /// The instant at which the timer shows `ticks`.
    pub fn from_ticks(ticks: u32) -> (r: Self)
        ensures
            r.ticks == ticks,
    {
        Instant { ticks }
    }

    /// What the timer shows at this instant.
    pub fn ticks(&self) -> (r: u32)
        ensures
            r == self.ticks,
    {
        self.ticks
    }
}

/// The ticks that lie between the counter value `earlier` and the later
/// counter value `now`, where the counter may have overflowed once in
/// between. Two values that are more than half the counter's range apart are
/// taken to be in the other order, and then there is no answer.
pub open spec fn ticks_between(now: u32, earlier: u32) -> Option<u32> {
    let gap = if now >= earlier {
        now - earlier
    } else {
        now + 0x1_0000_0000 - earlier
    };
    if gap <= u32::MAX / 2 {
        Some(gap as u32)
    } else {
        None
    }
}

/// Whether `ticks` ticks of a timer at `timer_hz` ticks a second last at
/// least `seconds` seconds. A number of seconds that cannot be counted in 32
/// bits of ticks is never reached.
pub open spec fn covers_seconds(timer_hz: u32, ticks: u32, seconds: u32) -> bool {
    seconds * timer_hz <= u32::MAX && ticks >= seconds * timer_hz
}

/// Whether at `now` at least `seconds` seconds have passed since `since`.
pub open spec fn has_elapsed<const TIMER_HZ: u32>(
    now: Instant<TIMER_HZ>,
    since: Instant<TIMER_HZ>,
    seconds: u32,
) -> bool {
    match ticks_between(now.ticks, since.ticks) {
        Some(gap) => covers_seconds(TIMER_HZ, gap, seconds),
        None => false,
    }
}

/// The instant `ticks` ticks after `instant`, or before it where `ticks` is
/// negative, on a counter that starts again at zero when it overflows.
pub open spec fn shifted<const TIMER_HZ: u32>(instant: Instant<TIMER_HZ>, ticks: int) -> Instant<
    TIMER_HZ,
> {
    Instant { ticks: ((instant.ticks + ticks) % 0x1_0000_0000) as u32 }
}

/// A timeout that can be counted in half the counter's range is reached
/// exactly when it has passed: at `seconds` seconds after `since` the time
/// has elapsed, and one tick earlier it has not.
pub proof fn lemma_elapsed_threshold<const TIMER_HZ: u32>(since: Instant<TIMER_HZ>, seconds: u32)
    requires
        seconds * TIMER_HZ <= u32::MAX / 2,
    ensures
        has_elapsed(shifted(since, seconds * TIMER_HZ), since, seconds),
        !has_elapsed(shifted(since, seconds * TIMER_HZ - 1), since, seconds),
{
    let d: int = seconds * TIMER_HZ;
    assert(0 <= d) by (nonlinear_arith)
        requires
            d == seconds * TIMER_HZ,
    ;
    let at = shifted(since, d);
    assert(ticks_between(at.ticks, since.ticks) == Some(d as u32));
    let before = shifted(since, d - 1);
    if d == 0 {
        assert(ticks_between(before.ticks, since.ticks) is None);
    } else {
        assert(ticks_between(before.ticks, since.ticks) == Some((d - 1) as u32));
    }
}

/// Calls `checked_duration_since` of `fugit::Instant`, on 32-bit instants of
/// a timer at `TIMER_HZ`. The contract restates the method: it subtracts the
/// tick counts with wrap-around and gives no duration where the result is
/// more than half the counter's range.
#[verifier::external_body]
pub(crate) fn checked_duration_since<const TIMER_HZ: u32>(
    now: Instant<TIMER_HZ>,
    earlier: Instant<TIMER_HZ>,
) -> (r: Option<u32>)
    ensures
        r == ticks_between(now.ticks, earlier.ticks),
{
    let now = fugit::TimerInstantU32::<TIMER_HZ>::from_ticks(now.ticks);
    let earlier = fugit::TimerInstantU32::<TIMER_HZ>::from_ticks(earlier.ticks);
    match now.checked_duration_since(earlier) {
        Some(gap) => Some(gap.ticks()),
        None => None,
    }
}

/// Compares, with `>=` of `fugit::Duration`, a duration in ticks of a timer
/// at `TIMER_HZ` with a duration in whole seconds. The contract restates the
/// comparison: fugit scales the seconds to ticks in 32 bits and, where that
/// overflows, finds the two incomparable, so that `>=` is false.
#[verifier::external_body]
pub(crate) fn duration_at_least<const TIMER_HZ: u32>(ticks: u32, seconds: u32) -> (r: bool)
    ensures
        r == covers_seconds(TIMER_HZ, ticks, seconds),
{
    fugit::TimerDurationU32::<TIMER_HZ>::from_ticks(ticks) >= fugit::SecsDurationU32::from_ticks(
        seconds,
    )
}

/// Whether at `now` at least `seconds` seconds have passed since `since`.
pub fn elapsed_at_least<const TIMER_HZ: u32>(
    now: Instant<TIMER_HZ>,
    since: Instant<TIMER_HZ>,
    seconds: u32,
) -> (r: bool)
    ensures
        r == has_elapsed(now, since, seconds),
{
    match checked_duration_since(now, since) {
        Some(gap) => duration_at_least::<TIMER_HZ>(gap, seconds),
        None => false,
    }
}

} // verus!

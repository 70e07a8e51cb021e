//! The conversion rate over the swap window: it moves linearly from the
//! start rate to the end rate and holds at the ends.
use vstd::prelude::*;
use crate::math::{
    DECIMAL_FRACTIONAL, Decimal, lemma_mul_div_at_most, lemma_mul_div_mono, lemma_mul_div_nonneg,
    mul_div,
};

verus! {

/// Why a schedule cannot be built.
#[derive(Clone, Copy, Debug, PartialEq, Eq, Structural)]
pub enum ScheduleError {
    /// The window has no length.
    ZeroDuration,
    /// The end of the window does not fit in a timestamp.
    EndTimeOverflow,
}

/// A swap window `[start_time, end_time)` in seconds and the rates at its
/// two ends.
#[derive(Clone, Copy, Debug, PartialEq, Eq, Structural)]
pub struct RateSchedule {
    pub start_time: u64,
    pub end_time: u64,
    pub start_rate: Decimal,
    pub end_rate: Decimal,
}

/// Seconds of the window that have passed at time `t`, between zero and
/// the window's length.
pub open spec fn elapsed_at(s: RateSchedule, t: u64) -> int {
    if t <= s.start_time {
        0
    } else if t >= s.end_time {
        s.end_time - s.start_time
    } else {
        t - s.start_time
    }
}

/// The share of the window passed at `t`, in atomics of a decimal.
pub open spec fn progress_at(s: RateSchedule, t: u64) -> int {
    mul_div(elapsed_at(s, t), DECIMAL_FRACTIONAL as int, s.end_time - s.start_time)
}

/// The rate at time `t`, in atomics: the start rate plus the rate change
/// times the progress, each product rounded down.
pub open spec fn rate_at(s: RateSchedule, t: u64) -> int {
    let p = progress_at(s, t);
    if s.end_rate.atomics >= s.start_rate.atomics {
        s.start_rate.atomics + mul_div(
            s.end_rate.atomics - s.start_rate.atomics,
            p,
            DECIMAL_FRACTIONAL as int,
        )
    } else {
        s.start_rate.atomics - mul_div(
            s.start_rate.atomics - s.end_rate.atomics,
            p,
            DECIMAL_FRACTIONAL as int,
        )
    }
}

/// The progress lies between none and all of the window.
proof fn lemma_progress_bounds(s: RateSchedule, t: u64)
    requires
        s.wf(),
    ensures
        0 <= progress_at(s, t) <= DECIMAL_FRACTIONAL,
        t <= s.start_time ==> progress_at(s, t) == 0,
        t >= s.end_time ==> progress_at(s, t) == DECIMAL_FRACTIONAL,
{
    let d = s.end_time - s.start_time;
    lemma_mul_div_nonneg(elapsed_at(s, t), DECIMAL_FRACTIONAL as int, d);
    lemma_mul_div_mono(elapsed_at(s, t), d, DECIMAL_FRACTIONAL as int, d);
    assert(mul_div(d, DECIMAL_FRACTIONAL as int, d) == DECIMAL_FRACTIONAL) by {
        assert(d * DECIMAL_FRACTIONAL == DECIMAL_FRACTIONAL * d) by (nonlinear_arith);
        lemma_mul_div_at_most(DECIMAL_FRACTIONAL as int, d, d);
    }
    if t <= s.start_time {
        assert(mul_div(0, DECIMAL_FRACTIONAL as int, d) == 0);
    }
}

/// The rate at the start of the window is the start rate and the rate at
/// its end is the end rate, exactly.
pub proof fn lemma_rate_endpoints(s: RateSchedule)
    requires
        s.wf(),
    ensures
        rate_at(s, s.start_time) == s.start_rate.atomics,
        rate_at(s, s.end_time) == s.end_rate.atomics,
{
    lemma_progress_bounds(s, s.start_time);
    lemma_progress_bounds(s, s.end_time);
    let f = DECIMAL_FRACTIONAL as int;
    let up = s.end_rate.atomics - s.start_rate.atomics;
    let down = s.start_rate.atomics - s.end_rate.atomics;
    if up >= 0 {
        assert(mul_div(up, 0, f) == 0);
        lemma_mul_div_at_most(up, f, f);
    } else {
        assert(mul_div(down, 0, f) == 0);
        lemma_mul_div_at_most(down, f, f);
    }
}

/// When the end rate is at least the start rate, the rate never decreases
/// over time.
pub proof fn lemma_rate_monotonic(s: RateSchedule, t1: u64, t2: u64)
    requires
        s.wf(),
        t1 <= t2,
        s.start_rate.atomics <= s.end_rate.atomics,
    ensures
        rate_at(s, t1) <= rate_at(s, t2),
{
    let d = s.end_time - s.start_time;
    let f = DECIMAL_FRACTIONAL as int;
    lemma_progress_bounds(s, t1);
    lemma_progress_bounds(s, t2);
    lemma_mul_div_mono(elapsed_at(s, t1), elapsed_at(s, t2), f, d);
    let up = s.end_rate.atomics - s.start_rate.atomics;
    assert(up * progress_at(s, t1) <= up * progress_at(s, t2)) by (nonlinear_arith)
        requires
            0 <= up,
            progress_at(s, t1) <= progress_at(s, t2),
    ;
    vstd::arithmetic::div_mod::lemma_div_is_ordered(
        up * progress_at(s, t1),
        up * progress_at(s, t2),
        f,
    );
}

impl RateSchedule {
    /// The window is not empty.
    pub open spec fn wf(&self) -> bool {
        self.start_time < self.end_time
    }

    /// The schedule for a window of `duration_seconds` from `start_time`.
    pub fn new(start_time: u64, duration_seconds: u64, start_rate: Decimal, end_rate: Decimal) -> (r:
        Result<RateSchedule, ScheduleError>)
        ensures
            duration_seconds == 0 ==> r == Err::<RateSchedule, ScheduleError>(
                ScheduleError::ZeroDuration,
            ),
            duration_seconds > 0 && start_time + duration_seconds > u64::MAX ==> r == Err::<
                RateSchedule,
                ScheduleError,
            >(ScheduleError::EndTimeOverflow),
            duration_seconds > 0 && start_time + duration_seconds <= u64::MAX ==> r == Ok::<
                RateSchedule,
                ScheduleError,
            >(
                RateSchedule {
                    start_time,
                    end_time: (start_time + duration_seconds) as u64,
                    start_rate,
                    end_rate,
                },
            ),
            r matches Ok(s) ==> s.wf(),
    {
        if duration_seconds == 0 {
            return Err(ScheduleError::ZeroDuration);
        }
        match start_time.checked_add(duration_seconds) {
            Some(end_time) => Ok(RateSchedule { start_time, end_time, start_rate, end_rate }),
            None => Err(ScheduleError::EndTimeOverflow),
        }
    }

    /// Length of the window in seconds.
    pub fn total_seconds(&self) -> (r: u64)
        requires
            self.wf(),
        ensures
            r == self.end_time - self.start_time,
    {
        self.end_time - self.start_time
    }

    /// Seconds of the window passed at `now`, clamped to the window.
    pub fn elapsed_seconds(&self, now: u64) -> (r: u64)
        requires
            self.wf(),
        ensures
            r == elapsed_at(*self, now),
    {
        let total = self.end_time - self.start_time;
        let elapsed = if now <= self.start_time {
            0
        } else {
            now - self.start_time
        };
        if elapsed < total {
            elapsed
        } else {
            total
        }
    }

    /// The rate at time `now`.
    pub fn current_rate(&self, now: u64) -> (r: Decimal)
        requires
            self.wf(),
        ensures
            r.atomics == rate_at(*self, now),
    {
        let total = self.total_seconds();
        let elapsed = self.elapsed_seconds(now);
        proof {
            lemma_progress_bounds(*self, now);
        }
        let progress = Decimal::checked_from_ratio(elapsed as u128, total as u128).unwrap();
        let ghost f = DECIMAL_FRACTIONAL as int;
        if self.end_rate.atomics >= self.start_rate.atomics {
            let diff = Decimal::raw(self.end_rate.atomics - self.start_rate.atomics);
            proof {
                lemma_mul_div_at_most(diff.atomics as int, progress.atomics as int, f);
                lemma_mul_div_nonneg(diff.atomics as int, progress.atomics as int, f);
            }
            let step = diff.checked_mul(progress).unwrap();
            Decimal::raw(self.start_rate.atomics + step.atomics)
        } else {
            let diff = Decimal::raw(self.start_rate.atomics - self.end_rate.atomics);
            proof {
                lemma_mul_div_at_most(diff.atomics as int, progress.atomics as int, f);
                lemma_mul_div_nonneg(diff.atomics as int, progress.atomics as int, f);
            }
            let step = diff.checked_mul(progress).unwrap();
            Decimal::raw(self.start_rate.atomics - step.atomics)
        }
    }
}

} // verus!

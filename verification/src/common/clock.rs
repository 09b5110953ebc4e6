//! Injectable wall-clock time.

use vstd::prelude::*;

verus! {

/// A source of wall-clock time, as epoch microseconds in UTC.
pub trait Clock {
    /// The current time as epoch microseconds, UTC.
    fn now_micros(&self) -> i64;
}

/// The real system clock.
#[derive(Debug, Default, Clone, Copy)]
pub struct SystemClock;

#[verifier::external_type_specification]
#[verifier::external_body]
pub struct ExSystemTime(std::time::SystemTime);

/// `std::time::SystemTime::now`: the host's current time. Nothing is claimed
/// of it.
#[verifier::external_body]
fn system_time() -> (t: std::time::SystemTime) {
    std::time::SystemTime::now()
}

/// `std::time::SystemTime::duration_since` the Unix epoch, in microseconds:
/// `Ok` with the distance after the epoch, `Err` with the distance before it.
/// The distance depends on what the host's clock read, so nothing is claimed of
/// it.
#[verifier::external_body]
fn epoch_distance(t: std::time::SystemTime) -> (d: Result<u128, u128>) {
    match t.duration_since(std::time::UNIX_EPOCH) {
        Ok(d) => Ok(d.as_micros()),
        Err(e) => Err(e.duration().as_micros()),
    }
}

/// The signed microsecond count of a distance after (`Ok`) or before (`Err`)
/// the epoch: clamped to the largest, or to the smallest, representable time
/// where it does not fit.
pub open spec fn signed_micros(distance: Result<u128, u128>) -> int {
    match distance {
        Ok(d) => if d <= i64::MAX {
            d as int
        } else {
            i64::MAX as int
        },
        Err(d) => if d <= i64::MAX {
            -(d as int)
        } else {
            i64::MIN as int
        },
    }
}

/// The epoch microseconds of a distance from the epoch, saturating.
pub fn micros_from_distance(distance: Result<u128, u128>) -> (r: i64)
    ensures
        r == signed_micros(distance),
{
    let limit: u128 = 0x7fff_ffff_ffff_ffff;
    match distance {
        Ok(d) => if d <= limit {
            d as i64
        } else {
            i64::MAX
        },
        Err(d) => if d <= limit {
            -(d as i64)
        } else {
            i64::MIN
        },
    }
}

impl Clock for SystemClock {
    fn now_micros(&self) -> (r: i64)
        ensures
            exists|d: Result<u128, u128>| r == #[trigger] signed_micros(d),
    {
        let t = system_time();
        let d = epoch_distance(t);
        micros_from_distance(d)
    }
}

/// A manually advanced clock for tests and deterministic simulation.
#[derive(Debug)]
pub struct ManualClock {
    micros: i64,
}

/// `a + b`, clamped to the range of `i64`.
pub open spec fn saturating_sum(a: int, b: int) -> int {
    if a + b > i64::MAX {
        i64::MAX as int
    } else if a + b < i64::MIN {
        i64::MIN as int
    } else {
        a + b
    }
}

/// A time is its distance from the epoch, before it or after it, held within the times
/// there are; and so is a clock's time after it was advanced.
pub proof fn times_stay_within_their_range(d: u128, a: i64, b: i64)
    ensures
        signed_micros(Ok(d)) >= 0 && signed_micros(Err(d)) <= 0,
        d <= i64::MAX ==> signed_micros(Ok(d)) == d && signed_micros(Err(d)) == -d,
        d > i64::MAX ==> signed_micros(Ok(d)) == i64::MAX && signed_micros(Err(d)) == i64::MIN,
        i64::MIN <= saturating_sum(a as int, b as int) <= i64::MAX,
        i64::MIN <= a + b <= i64::MAX ==> saturating_sum(a as int, b as int) == a + b,
        b >= 0 ==> saturating_sum(a as int, b as int) >= a,
        b <= 0 ==> saturating_sum(a as int, b as int) <= a,
        a + b > i64::MAX ==> saturating_sum(a as int, b as int) == i64::MAX,
        a + b < i64::MIN ==> saturating_sum(a as int, b as int) == i64::MIN,
{
}

impl View for ManualClock {
    type V = int;

    closed spec fn view(&self) -> int {
        self.micros as int
    }
}

impl ManualClock {
    /// Create a clock fixed at `start_micros`.
    pub fn new(start_micros: i64) -> (clock: Self)
        ensures
            clock@ == start_micros,
    {
        ManualClock { micros: start_micros }
    }

    /// Advance the clock by `delta_micros` (saturating).
    pub fn advance(&mut self, delta_micros: i64)
        ensures
            final(self)@ == saturating_sum(old(self)@, delta_micros as int),
    {
        self.micros =
        match self.micros.checked_add(delta_micros) {
            Some(next) => next,
            None => if delta_micros > 0 {
                i64::MAX
            } else {
                i64::MIN
            },
        };
    }

    /// Set the clock to an absolute value.
    pub fn set(&mut self, micros: i64)
        ensures
            final(self)@ == micros,
    {
        self.micros = micros;
    }
}

impl Clock for ManualClock {
    fn now_micros(&self) -> (r: i64)
        ensures
            r == self@,
    {
        self.micros
    }
}

} // verus!

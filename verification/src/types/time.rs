//! Timestamps: nanoseconds since the Unix epoch, carried as plain data.
use vstd::prelude::*;

verus! {

/// Nanoseconds since the Unix epoch.
#[derive(Debug, Clone, Copy, PartialEq, Eq, PartialOrd, Ord, Hash, Structural)]
pub struct Timestamp(pub i64);

/// `std::time::SystemTime`: an opaque reading of the system clock.
#[verifier::external_type_specification]
#[verifier::external_body]
pub struct ExSystemTime(std::time::SystemTime);

/// `SystemTime::now`: the present reading of the system clock, of which nothing can
/// be promised.
#[verifier::external_body]
fn clock_reading() -> std::time::SystemTime {
    std::time::SystemTime::now()
}

/// `SystemTime::duration_since` against the Unix epoch, in nanoseconds: `None` where
/// the reading lies before the epoch. Nothing is promised of the number.
#[verifier::external_body]
fn nanos_since_epoch(reading: std::time::SystemTime) -> Option<u128> {
    match reading.duration_since(std::time::UNIX_EPOCH) {
        Ok(elapsed) => Some(elapsed.as_nanos()),
        Err(_) => None,
    }
}

impl Timestamp {
    /// The present time. A clock before the epoch reads as the epoch and one beyond
    /// the range of `i64` as its end; it never panics.
    pub fn now() -> (r: Timestamp)
        ensures
            r.0 >= 0,
    {
        Timestamp::from_clock(nanos_since_epoch(clock_reading()))
    }

    /// The timestamp of a clock that read `nanos` since the epoch, or a time before
    /// the epoch.
    pub fn from_clock(nanos: Option<u128>) -> (r: Timestamp)
        ensures
            r.0 == (match nanos {
                Some(n) => if n <= i64::MAX {
                    n as int
                } else {
                    i64::MAX as int
                },
                None => 0,
            }),
    {
        match nanos {
            Some(n) => if n <= i64::MAX as u128 {
                Timestamp(n as i64)
            } else {
                Timestamp(i64::MAX)
            },
            None => Timestamp(0),
        }
    }

    /// The timestamp `nanos` after the epoch.
    #[verifier::allow_in_spec]
    pub fn from_nanos(nanos: i64) -> Timestamp
        returns
            Timestamp(nanos),
    {
        Timestamp(nanos)
    }

    /// Nanoseconds since the epoch.
    #[verifier::allow_in_spec]
    pub fn as_nanos(self) -> i64
        returns
            self.0,
    {
        self.0
    }

    /// The distance from `earlier` in nanoseconds, cut to the range of `i64`.
    pub open spec fn age(self, earlier: Timestamp) -> int {
        let d = self.0 - earlier.0;
        if d > i64::MAX {
            i64::MAX as int
        } else if d < i64::MIN {
            i64::MIN as int
        } else {
            d
        }
    }

    /// The age of `self` over `earlier`. It saturates: a corrupt timestamp must not
    /// wrap into a small, falsely fresh age.
    pub fn since(self, earlier: Timestamp) -> (r: i64)
        ensures
            r == self.age(earlier),
    {
        let d: i128 = self.0 as i128 - earlier.0 as i128;
        if d > i64::MAX as i128 {
            i64::MAX
        } else if d < i64::MIN as i128 {
            i64::MIN
        } else {
            d as i64
        }
    }
}

/// An age never wraps: it has the sign of the true distance and is never nearer to
/// zero than a distance that fits.
pub proof fn law_age_never_wraps(later: Timestamp, earlier: Timestamp)
    ensures
        later.age(earlier) > 0 <==> later.0 > earlier.0,
        later.age(earlier) < 0 <==> later.0 < earlier.0,
        i64::MIN <= later.0 - earlier.0 <= i64::MAX ==> later.age(earlier) == later.0 - earlier.0,
        later.0 - earlier.0 > i64::MAX ==> later.age(earlier) == i64::MAX,
        later.0 - earlier.0 < i64::MIN ==> later.age(earlier) == i64::MIN,
{
}

} // verus!

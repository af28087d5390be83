use std::time::{Duration, SystemTime};
use vstd::prelude::*;

verus! {

#[verifier::external_type_specification]
#[verifier::external_body]
pub struct ExSystemTime(SystemTime);

/// Nanoseconds in one second.
pub const NANOS_PER_SEC: u32 = 1_000_000_000;

/// `std::time::SystemTime::now`: the current wall-clock time. Nothing is
/// promised of it: it depends on the machine's clock.
#[verifier::external_body]
fn system_now() -> SystemTime {
    SystemTime::now()
}

/// `std::time::SystemTime::duration_since` against the Unix epoch: `Ok` with
/// how far the time lies after the epoch, or, where it lies before the epoch,
/// `Err` with how far before (std's `SystemTimeError::duration`). Nothing is
/// promised of the value: it depends on a time that the library cannot see
/// into.
#[verifier::external_body]
fn offset_from_unix_epoch(t: &SystemTime) -> Result<Duration, Duration> {
    t.duration_since(SystemTime::UNIX_EPOCH).map_err(|e| e.duration())
}

/// `std::time::Duration::as_secs`: the whole seconds of a duration. Nothing
/// is promised of the value: a duration is opaque here.
#[verifier::external_body]
fn duration_whole_secs(d: &Duration) -> u64 {
    d.as_secs()
}

/// `std::time::Duration::subsec_nanos`: the fractional part of a duration in
/// nanoseconds, which std documents to be less than one billion.
#[verifier::external_body]
fn duration_subsec_nanos(d: &Duration) -> (n: u32)
    ensures
        n < NANOS_PER_SEC,
{
    d.subsec_nanos()
}

/// A point in time, as whole seconds relative to the Unix epoch (negative
/// before it) and the nanoseconds past that second.
#[derive(Clone, Copy, Debug, PartialEq, Eq, Structural)]
pub struct Timestamp {
    secs: i64,
    nanos: u32,
}

impl Timestamp {
    #[verifier::type_invariant]
    pub open spec fn inv(self) -> bool {
        self.valid()
    }

    /// Whole seconds relative to the epoch, rounded down.
    pub closed spec fn spec_secs(self) -> i64 {
        self.secs
    }

    /// Nanoseconds past the whole second.
    pub closed spec fn spec_subsec_nanos(self) -> u32 {
        self.nanos
    }

    /// The nanoseconds past the second are under one second, as they are in
    /// every timestamp that the library makes.
    pub open spec fn valid(self) -> bool {
        self.spec_subsec_nanos() < NANOS_PER_SEC
    }

    /// The time relative to the epoch in nanoseconds.
    pub open spec fn total_nanos(self) -> int {
        self.spec_secs() * NANOS_PER_SEC + self.spec_subsec_nanos()
    }

    /// The timestamp `secs` seconds and `nanos` nanoseconds after the epoch
    /// (`secs` negative for times before it); `None` where `nanos` is a whole
    /// second or more.
    pub fn new(secs: i64, nanos: u32) -> (t: Option<Timestamp>)
        ensures
            nanos < NANOS_PER_SEC <==> t is Some,
            t matches Some(t) ==> t.spec_secs() == secs && t.spec_subsec_nanos() == nanos,
    {
        if nanos < NANOS_PER_SEC {
            Some(Timestamp { secs, nanos })
        } else {
            None
        }
    }

    /// The timestamp `secs` whole seconds after the epoch.
    pub fn from_secs(secs: i64) -> (t: Timestamp)
        ensures
            t.spec_secs() == secs,
            t.spec_subsec_nanos() == 0,
    {
        Timestamp { secs, nanos: 0 }
    }

    pub fn secs(&self) -> (s: i64)
        ensures
            s == self.spec_secs(),
    {
        self.secs
    }

    pub fn subsec_nanos(&self) -> (n: u32)
        ensures
            n == self.spec_subsec_nanos(),
            n < NANOS_PER_SEC,
    {
        proof {
            use_type_invariant(self);
        }
        self.nanos
    }

    /// The timestamp `secs` seconds and `nanos` nanoseconds after the epoch,
    /// or before it where `before_epoch`. An offset beyond the range of `i64`
    /// seconds is clamped to the nearest representable second.
    pub fn from_epoch_offset(before_epoch: bool, secs: u64, nanos: u32) -> (t: Timestamp)
        requires
            nanos < NANOS_PER_SEC,
        ensures
            t.valid(),
            !before_epoch && secs <= i64::MAX ==> t.total_nanos() == secs * NANOS_PER_SEC + nanos,
            !before_epoch && secs > i64::MAX ==> t.spec_secs() == i64::MAX && t.spec_subsec_nanos()
                == 0,
            before_epoch && secs <= i64::MAX ==> t.total_nanos() == -(secs * NANOS_PER_SEC + nanos),
            before_epoch && secs > i64::MAX ==> t.spec_secs() == i64::MIN && t.spec_subsec_nanos()
                == 0,
    {
        if !before_epoch {
            if secs <= i64::MAX as u64 {
                Timestamp { secs: secs as i64, nanos }
            } else {
                Timestamp { secs: i64::MAX, nanos: 0 }
            }
        } else if secs <= i64::MAX as u64 {
            if nanos == 0 {
                Timestamp { secs: -(secs as i64), nanos: 0 }
            } else {
                Timestamp { secs: -(secs as i64) - 1, nanos: NANOS_PER_SEC - nanos }
            }
        } else {
            Timestamp { secs: i64::MIN, nanos: 0 }
        }
    }

    /// The current time of the system clock.
    pub fn now() -> (t: Timestamp)
        ensures
            t.valid(),
    {
        let st = system_now();
        match offset_from_unix_epoch(&st) {
            Ok(d) => {
                let secs = duration_whole_secs(&d);
                let nanos = duration_subsec_nanos(&d);
                Timestamp::from_epoch_offset(false, secs, nanos)
            },
            Err(d) => {
                let secs = duration_whole_secs(&d);
                let nanos = duration_subsec_nanos(&d);
                Timestamp::from_epoch_offset(true, secs, nanos)
            },
        }
    }

    /// Whole seconds elapsed from `self` to `now`; `None` where `now` is
    /// earlier than `self`.
    pub fn elapsed_secs_at(&self, now: Timestamp) -> (r: Option<u64>)
        ensures
            r == seconds_between(*self, now),
    {
        proof {
            use_type_invariant(self);
            use_type_invariant(&now);
        }
        let later_or_same = now.secs > self.secs || (now.secs == self.secs && now.nanos
            >= self.nanos);
        if !later_or_same {
            return None;
        }
        let diff: i128 = now.secs as i128 - self.secs as i128;
        let whole_wide: i128 = if now.nanos >= self.nanos {
            diff
        } else {
            diff - 1
        };
        let whole: u64 = whole_wide as u64;
        proof {
            let d = now.total_nanos() - self.total_nanos();
            assert(d == (now.secs - self.secs) * 1_000_000_000int + (now.nanos - self.nanos));
            if now.nanos >= self.nanos {
                assert(d / 1_000_000_000int == whole_wide) by (nonlinear_arith)
                    requires
                        d == (now.secs - self.secs) * 1_000_000_000int + (now.nanos - self.nanos),
                        0 <= now.nanos - self.nanos < 1_000_000_000int,
                        whole_wide == now.secs - self.secs,
                ;
            } else {
                assert(d / 1_000_000_000int == whole_wide) by (nonlinear_arith)
                    requires
                        d == (now.secs - self.secs) * 1_000_000_000int + (now.nanos - self.nanos),
                        -1_000_000_000int < now.nanos - self.nanos < 0,
                        whole_wide == now.secs - self.secs - 1,
                ;
            }
            assert(0 <= whole_wide <= u64::MAX);
        }
        Some(whole)
    }
}

/// Whole seconds from `from` to `to`, as `SystemTime::elapsed` would report
/// them at `to`; `None` where `to` is earlier than `from`.
pub open spec fn seconds_between(from: Timestamp, to: Timestamp) -> Option<u64> {
    if to.total_nanos() >= from.total_nanos() {
        Some(((to.total_nanos() - from.total_nanos()) / NANOS_PER_SEC as int) as u64)
    } else {
        None
    }
}

} // verus!

use vstd::prelude::*;

verus! {

/// Relies on chrono's `Utc::now`: a reading of the wall clock, as whole
/// seconds since the Unix epoch. Nothing is promised of a clock reading;
/// every function of the library whose outcome depends on the time takes the
/// reading as an argument instead.
#[verifier::external_body]
pub fn now_seconds() -> i64 {
    chrono::Utc::now().timestamp()
}

/// Adding an offset to a time, pinned to the representable range.
pub open spec fn sat_add(a: int, b: int) -> int {
    if a + b > i64::MAX {
        i64::MAX as int
    } else if a + b < i64::MIN {
        i64::MIN as int
    } else {
        a + b
    }
}

/// Adds an offset to a time, pinned to the representable range.
pub fn i64_sat_add(a: i64, b: i64) -> (r: i64)
    ensures
        r as int == sat_add(a as int, b as int),
{
    if b >= 0 {
        if a > i64::MAX - b {
            i64::MAX
        } else {
            a + b
        }
    } else {
        if a < i64::MIN - b {
            i64::MIN
        } else {
            a + b
        }
    }
}

} // verus!

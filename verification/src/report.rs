//! Devices, rooms and homes describe themselves in a report. A report of
//! several parts asks each part in turn and stops at the first part that
//! fails, naming it in the error.
use vstd::prelude::*;

use crate::error::{DeviceError, DeviceResult};

verus! {

/// Something that can describe its current state as text. A device asks
/// the hardware behind it, so what it reports is its own affair.
pub trait Report {
    fn report(&self) -> DeviceResult<String>;
}

/// The text of a successful report; nothing for a failed one.
pub open spec fn ok_text(outcome: DeviceResult<String>) -> Seq<char> {
    match outcome {
        Ok(text) => text@,
        Err(_) => Seq::empty(),
    }
}

/// Whether the first `n` reports all succeeded.
pub open spec fn all_ok(outcomes: Seq<DeviceResult<String>>, n: int) -> bool {
    forall|i: int| 0 <= i < n ==> (#[trigger] outcomes[i]) is Ok
}

/// Whether the report at `k` is the first that failed.
pub open spec fn fails_first_at(outcomes: Seq<DeviceResult<String>>, k: int) -> bool {
    &&& 0 <= k < outcomes.len()
    &&& outcomes[k] is Err
    &&& all_ok(outcomes, k)
}

/// Whether `r` is the failure `outcome` of the part named by `target`.
pub open spec fn wraps_failure(
    r: DeviceResult<String>,
    target: Seq<char>,
    outcome: DeviceResult<String>,
) -> bool {
    r matches Err(DeviceError::Report { target: t, source }) && t@ == target && outcome == Err::<
        String,
        DeviceError,
    >(*source)
}

} // verus!

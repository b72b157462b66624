//! Visit-history records and the lookback-window cutoff.

use vstd::prelude::*;

verus! {

/// A URL seen in the visit history, with the count of its visit events
/// inside the lookback window.
#[derive(Debug, PartialEq, Clone)]
pub struct VisitedSite {
    pub url: String,
    pub visits: u64,
}

/// Model of a visited site.
pub struct VisitedModel {
    pub url: Seq<char>,
    pub visits: u64,
}

impl View for VisitedSite {
    type V = VisitedModel;

    open spec fn view(&self) -> VisitedModel {
        VisitedModel { url: self.url@, visits: self.visits }
    }
}

impl DeepView for VisitedSite {
    type V = VisitedModel;

    open spec fn deep_view(&self) -> VisitedModel {
        self@
    }
}

/// Relies on `std::time::SystemTime::now` and `duration_since`: the seconds
/// from the Unix epoch to now, or 0 should the clock stand before the epoch.
#[verifier::external_body]
fn unix_now_secs() -> u64 {
    std::time::SystemTime::now()
        .duration_since(std::time::SystemTime::UNIX_EPOCH)
        .map(|d| d.as_secs())
        .unwrap_or(0)
}

/// The visit-time cutoff of a lookback window of `days` days before the
/// clock reading `now_secs`, in the history store's scale of microseconds
/// since the Unix epoch; clamped at 0 for a window reaching past the epoch
/// and at `u64::MAX` against overflow.
pub open spec fn spec_cutoff(now_secs: u64, days: u16) -> int {
    let secs: int = if days as int * 86400 <= now_secs as int {
        now_secs as int - days as int * 86400
    } else {
        0
    };
    if secs * 1000000 <= u64::MAX as int {
        secs * 1000000
    } else {
        u64::MAX as int
    }
}

/// The cutoff of a lookback window of `days` days before `now_secs`.
pub fn cutoff_micros(now_secs: u64, days: u16) -> (r: u64)
    ensures
        r as int == spec_cutoff(now_secs, days),
{
    let day_secs: u64 = (days as u64) * 86400;
    let base: u64 = if day_secs <= now_secs {
        now_secs - day_secs
    } else {
        0
    };
    if base <= u64::MAX / 1000000 {
        base * 1000000
    } else {
        u64::MAX
    }
}

/// The visit-time cutoff of a lookback window of `days` days before now, in
/// the history store's scale of microseconds since the Unix epoch.
pub fn days_ago_in_nanos(days: u16) -> (r: u64)
    ensures
        exists|now_secs: u64| r as int == spec_cutoff(now_secs, days),
{
    let now = unix_now_secs();
    let r = cutoff_micros(now, days);
    proof {
        assert(exists|now_secs: u64| r as int == spec_cutoff(now_secs, days)) by {
            assert(r as int == spec_cutoff(now, days));
        }
    }
    r
}

} // verus!

//! How fresh a reader node's copy of the catalogue is.

use vstd::prelude::*;
use vstd::string::*;

use crate::flux::now_ms;
use crate::graph_index;
use crate::graph_index::copy_opt;

verus! {

/// The health of a reader's refreshes.
#[derive(Debug, Clone, PartialEq)]
pub struct ReaderStaleness {
    pub last_success_ms: u64,
    pub consecutive_failures: u64,
    pub last_error: Option<String>,
}

/// Whether a reader that last succeeded at `last` (0 for never) with this many
/// failures since is stale at `now`.
pub open spec fn stale_at(last: u64, failures: u64, max_age_ms: u64, now: u64) -> bool {
    ||| failures > 0
    ||| last != 0 && now - last > max_age_ms
}

/// The next count.
pub open spec fn one_more(n: u64) -> u64 {
    if n == u64::MAX {
        0
    } else {
        (n + 1) as u64
    }
}

/// The age of a success at `last` (0 for never) in whole seconds at `now`.
pub open spec fn age_at(last: u64, now: u64) -> u64 {
    if last == 0 || now <= last {
        0
    } else {
        ((now - last) / 1000) as u64
    }
}

/// What is published of a reader's health.
#[derive(Debug, Clone, Copy, PartialEq, Eq)]
pub struct ReaderMetrics {
    pub manifest_stale: bool,
    pub last_refresh_age_seconds: u64,
}

impl Default for ReaderStaleness {
    fn default() -> (s: ReaderStaleness)
        ensures
            s.last_success_ms == 0,
            s.consecutive_failures == 0,
            s.last_error is None,
    {
        ReaderStaleness { last_success_ms: 0, consecutive_failures: 0, last_error: None }
    }
}

/// The clock as an unsigned number; 0 for a time before the epoch.
fn clock() -> (now: u64) {
    let now: i64 = now_ms();
    if now < 0 {
        0
    } else {
        now as u64
    }
}

impl ReaderStaleness {
    /// Notes a refresh that succeeded at `now`.
    pub fn record_success_at(&mut self, now: u64)
        ensures
            final(self).last_success_ms == now,
            final(self).consecutive_failures == 0,
            final(self).last_error is None,
    {
        self.last_success_ms = now;
        self.consecutive_failures = 0;
        self.last_error = None;
    }

    /// Notes a refresh that succeeded just now.
    pub fn record_success(&mut self)
        ensures
            final(self).consecutive_failures == 0,
            final(self).last_error is None,
    {
        self.record_success_at(clock())
    }

    /// Notes a refresh that failed. The count wraps around at its limit.
    pub fn record_failure(&mut self, msg: String)
        ensures
            final(self).last_success_ms == old(self).last_success_ms,
            final(self).consecutive_failures == one_more(old(self).consecutive_failures),
            final(self).last_error matches Some(e) && e@ == msg@,
    {
        self.consecutive_failures = self.consecutive_failures.wrapping_add(1);
        self.last_error = Some(msg);
    }

    /// How many refreshes failed since the last that did not.
    pub fn consecutive_failures(&self) -> (n: u64)
        ensures
            n == self.consecutive_failures,
    {
        self.consecutive_failures
    }

    /// When the last refresh succeeded.
    pub fn last_success_ms(&self) -> (t: u64)
        ensures
            t == self.last_success_ms,
    {
        self.last_success_ms
    }

    /// Why the latest refresh failed.
    pub fn last_error(&self) -> (e: Option<String>)
        ensures
            graph_index::opt_text(e) == graph_index::opt_text(self.last_error),
    {
        copy_opt(&self.last_error)
    }

    /// Whether the copy is stale at `now`: a refresh is failing, or the last
    /// success is longer ago than `max_age_ms`.
    pub fn is_stale_at(&self, max_age_ms: u64, now: u64) -> (r: bool)
        ensures
            r == stale_at(self.last_success_ms, self.consecutive_failures, max_age_ms, now),
    {
        if self.consecutive_failures > 0 {
            return true;
        }
        let last: u64 = self.last_success_ms;
        last != 0 && now > last && now - last > max_age_ms
    }

    /// Whether the copy is stale now.
    pub fn is_stale(&self, max_age_ms: u64) -> (r: bool)
        ensures
            self.consecutive_failures > 0 ==> r,
            self.consecutive_failures == 0 && self.last_success_ms == 0 ==> !r,
            exists|now: u64|
                r == stale_at(self.last_success_ms, self.consecutive_failures, max_age_ms, now),
    {
        let now: u64 = clock();
        let r = self.is_stale_at(max_age_ms, now);
        assert(r == stale_at(self.last_success_ms, self.consecutive_failures, max_age_ms, now));
        r
    }

    /// What is published at `now`: whether the copy is stale, and the age of
    /// the last success.
    pub fn metrics_at(&self, max_age_ms: u64, now: u64) -> (m: ReaderMetrics)
        ensures
            m.manifest_stale == stale_at(
                self.last_success_ms,
                self.consecutive_failures,
                max_age_ms,
                now,
            ),
            m.last_refresh_age_seconds == age_at(self.last_success_ms, now),
    {
        let last: u64 = self.last_success_ms;
        let age: u64 = if last == 0 || now <= last {
            0
        } else {
            (now - last) / 1000
        };
        ReaderMetrics {
            manifest_stale: self.is_stale_at(max_age_ms, now),
            last_refresh_age_seconds: age,
        }
    }

    /// What is published now.
    pub fn publish_metrics(&self, max_age_ms: u64) -> (m: ReaderMetrics)
        ensures
            self.consecutive_failures > 0 ==> m.manifest_stale,
            self.last_success_ms == 0 ==> m.last_refresh_age_seconds == 0,
            exists|now: u64|
                m.manifest_stale == #[trigger] stale_at(
                    self.last_success_ms,
                    self.consecutive_failures,
                    max_age_ms,
                    now,
                ) && m.last_refresh_age_seconds == age_at(self.last_success_ms, now),
    {
        let now: u64 = clock();
        let m = self.metrics_at(max_age_ms, now);
        assert(m.manifest_stale == stale_at(
            self.last_success_ms,
            self.consecutive_failures,
            max_age_ms,
            now,
        ));
        m
    }
}

/// A reader is stale after a failed refresh, and once its last success is longer
/// ago than allowed; one that never refreshed is not.
pub proof fn law_reader_is_stale_after_its_time(
    s: ReaderStaleness,
    max_age_ms: u64,
    now: u64,
    r: bool,
)
    requires
        call_ensures(ReaderStaleness::is_stale_at, (&s, max_age_ms, now), r),
    ensures
        s.consecutive_failures > 0 ==> r,
        s.consecutive_failures == 0 && s.last_success_ms == 0 ==> !r,
        s.consecutive_failures == 0 && s.last_success_ms != 0 ==> (r <==> now > s.last_success_ms
            + max_age_ms),
{
}

/// The age of the last success is told in whole seconds.
pub proof fn law_age_is_told_in_seconds(
    s: ReaderStaleness,
    max_age_ms: u64,
    now: u64,
    m: ReaderMetrics,
)
    requires
        call_ensures(ReaderStaleness::metrics_at, (&s, max_age_ms, now), m),
    ensures
        s.last_success_ms == 0 || now <= s.last_success_ms ==> m.last_refresh_age_seconds == 0,
        s.last_success_ms != 0 && now > s.last_success_ms ==> m.last_refresh_age_seconds * 1000
            <= now - s.last_success_ms < m.last_refresh_age_seconds * 1000 + 1000,
{
}

} // verus!

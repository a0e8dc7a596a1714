//! The decisions of the long-running `watch` mode: which snapshots to emit,
//! how long to wait, and whether to notify.

use vstd::prelude::*;
use vstd::string::StringExecFns;

use crate::config::{Config, ConfigError};
use crate::notify::{
    next_seen, planned, snapshot_notices, toast_of, toast_views, NoticeView, Notifier, Toast,
};
use crate::status::Status;
use crate::text::opt_view;

verus! {

/// Retry delay when the config cannot be loaded, in seconds.
pub const CONFIG_RETRY_SECS: u64 = 5;

/// The last snapshot line written to the consumer.
pub struct WatchState {
    last: Option<String>,
}

impl WatchState {
    /// The last line emitted, if any.
    pub closed spec fn last(self) -> Option<Seq<char>> {
        opt_view(self.last)
    }

    pub fn new() -> (r: WatchState)
        ensures
            r.last() is None,
    {
        WatchState { last: None }
    }

    /// The line differs from the last one emitted (or none was emitted).
    pub fn is_new(&self, line: &str) -> (r: bool)
        ensures
            r == (self.last() != Some(line@)),
    {
        match &self.last {
            Some(prev) => !(*prev == String::from_str(line)),
            None => true,
        }
    }

    /// Records the line just emitted.
    pub fn remember(&mut self, line: String)
        ensures
            final(self).last() == Some(line@),
    {
        self.last = Some(line);
    }
}

impl Default for WatchState {
    fn default() -> (r: WatchState)
        ensures
            r.last() is None,
    {
        WatchState::new()
    }
}

/// The poll interval and the notification switch of one cycle: those of the
/// config when it loaded, otherwise the retry delay and no notifications.
pub fn cycle_settings(loaded: &Result<Config, ConfigError>) -> (r: (u64, bool))
    ensures
        match loaded {
            Ok(config) => r == (config.poll_interval_secs, config.notifications),
            Err(_) => r == (CONFIG_RETRY_SECS, false),
        },
{
    match loaded {
        Ok(config) => (config.poll_interval_secs, config.notifications),
        Err(_) => (CONFIG_RETRY_SECS, false),
    }
}

/// How long to sleep after a cycle that took `elapsed_ms`, in milliseconds:
/// what is left of the `interval_secs` period (at least nothing), the
/// period saturating at `u64::MAX` milliseconds.
pub open spec fn cycle_delay(interval_secs: u64, elapsed_ms: u64) -> int {
    let period = if interval_secs * 1000 <= u64::MAX {
        interval_secs * 1000
    } else {
        u64::MAX as int
    };
    if elapsed_ms >= period {
        0
    } else {
        period - elapsed_ms
    }
}

/// How long to sleep after a cycle that took `elapsed_ms`, so that cycles
/// start every `interval_secs` seconds (or at once when the cycle overran).
pub fn remaining_delay_ms(interval_secs: u64, elapsed_ms: u64) -> (r: u64)
    ensures
        r == cycle_delay(interval_secs, elapsed_ms),
{
    let period = match interval_secs.checked_mul(1000) {
        Some(p) => p,
        None => u64::MAX,
    };
    period.saturating_sub(elapsed_ms)
}

/// Cycles are scheduled from each cycle's start: a cycle that took less than
/// the interval is followed by the rest of it, so consecutive cycles start
/// exactly `interval_secs` apart; one that overran is followed at once.
pub proof fn law_cycles_start_on_schedule(interval_secs: u64, elapsed_ms: u64)
    requires
        interval_secs * 1000 <= u64::MAX,
    ensures
        elapsed_ms <= interval_secs * 1000 ==> elapsed_ms + cycle_delay(interval_secs, elapsed_ms)
            == interval_secs * 1000,
        elapsed_ms > interval_secs * 1000 ==> cycle_delay(interval_secs, elapsed_ms) == 0,
{
}

/// The rest of a cycle once its changed line was offered to the consumer:
/// when the write failed, nothing changes and the watch stops (`None`);
/// otherwise the line becomes the last one emitted, the notifier takes in
/// the snapshot, and the toasts to send come back (none when notifications
/// are off).
pub fn after_write(
    state: &mut WatchState,
    notifier: &mut Notifier,
    line: String,
    snapshot: &Status,
    notify: bool,
    written: bool,
) -> (r: Option<Vec<Toast>>)
    ensures
        !written ==> r is None && final(state).last() == old(state).last() && final(notifier).seen()
            == old(notifier).seen(),
        written ==> r is Some && final(state).last() == Some(line@) && final(notifier).seen()
            == next_seen(old(notifier).seen(), *snapshot),
        written && notify ==> toast_views(r->Some_0@) == planned(
            snapshot_notices(old(notifier).seen(), *snapshot),
        ).map_values(|n: NoticeView| toast_of(n)),
        written && !notify ==> r->Some_0@.len() == 0,
{
    if !written {
        return None;
    }
    state.remember(line);
    Some(notifier.process(snapshot, notify))
}

} // verus!

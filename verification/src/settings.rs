use vstd::prelude::*;
use vstd::string::*;

verus! {

/// Feed timing settings of the bot's configuration file.
pub struct FeedCfg {
    pub message_timeout_secs: u64,
    pub poll_interval_ms: u64,
    pub reconnect_base_ms: u64,
    pub reconnect_max_ms: u64,
}

impl Default for FeedCfg {
    /// Ten seconds of message timeout, a 50 ms poll, reconnects from 250 ms up to 30 s.
    fn default() -> (c: FeedCfg)
        ensures
            c.message_timeout_secs == 10,
            c.poll_interval_ms == 50,
            c.reconnect_base_ms == 250,
            c.reconnect_max_ms == 30_000,
    {
        FeedCfg { message_timeout_secs: 10, poll_interval_ms: 50, reconnect_base_ms: 250, reconnect_max_ms: 30_000 }
    }
}

/// `v * m`, or `u64::MAX` where the product does not fit.
pub open spec fn saturating_scale(v: u64, m: u64) -> u64 {
    if v * m <= u64::MAX {
        (v * m) as u64
    } else {
        u64::MAX
    }
}

impl FeedCfg {
    /// Longest silence before the feed counts as stale, in nanoseconds
    /// (saturating at `u64::MAX`).
    pub fn message_timeout_ns(&self) -> (r: u64)
        ensures
            r == saturating_scale(self.message_timeout_secs, 1_000_000_000),
    {
        match self.message_timeout_secs.checked_mul(1_000_000_000) {
            Some(v) => v,
            None => u64::MAX,
        }
    }

    /// Interval between polls, in nanoseconds (saturating at `u64::MAX`).
    pub fn poll_interval_ns(&self) -> (r: u64)
        ensures
            r == saturating_scale(self.poll_interval_ms, 1_000_000),
    {
        match self.poll_interval_ms.checked_mul(1_000_000) {
            Some(v) => v,
            None => u64::MAX,
        }
    }
}

/// Logging settings: an optional log directory, a level filter and a format.
pub struct LoggingCfg {
    pub directory: Option<String>,
    pub level: String,
    pub format: String,
}

impl Default for LoggingCfg {
    /// No directory, level `info`, format `json`.
    fn default() -> (c: LoggingCfg)
        ensures
            c.directory is None,
            c.level@ == "info"@,
            c.format@ == "json"@,
    {
        LoggingCfg { directory: None, level: "info".to_owned(), format: "json".to_owned() }
    }
}

/// How a backtest symbol maps to a venue and its currency pair.
pub struct SymbolToml {
    pub venue: String,
    pub base: String,
    pub quote: String,
}

} // verus!

//! Decisions of the live dashboard loop: when to resample and when to stop.

use vstd::prelude::*;

verus! {

/// A key the dashboard reacts to.
#[derive(Clone, Copy, Debug, PartialEq, Eq, Structural)]
pub enum KeyInput {
    Char(char),
    Esc,
    Other,
}

/// State of the live dashboard. Times are milliseconds on a monotonic clock
/// that the caller reads.
pub struct TuiApp {
    should_quit: bool,
    last_update_ms: u64,
    update_interval_secs: u64,
}

/// Milliseconds from `last` to `now`, 0 if the clock reads earlier.
pub open spec fn elapsed_ms(last: u64, now: u64) -> int {
    if now >= last {
        now - last
    } else {
        0
    }
}

impl TuiApp {
    /// Whether the user asked to quit.
    pub closed spec fn quitting(self) -> bool {
        self.should_quit
    }

    /// When the last sample was taken.
    pub closed spec fn last_update(self) -> u64 {
        self.last_update_ms
    }

    /// Seconds between samples.
    pub closed spec fn interval(self) -> u64 {
        self.update_interval_secs
    }

    /// A dashboard sampling every `interval_secs` seconds whose last sample
    /// was taken at `now_ms`.
    pub fn new(interval_secs: u64, now_ms: u64) -> (r: TuiApp)
        ensures
            !r.quitting(),
            r.last_update() == now_ms,
            r.interval() == interval_secs,
    {
        TuiApp { should_quit: false, last_update_ms: now_ms, update_interval_secs: interval_secs }
    }

    /// Whether a full interval has passed since the last sample.
    pub fn should_update(&self, now_ms: u64) -> (r: bool)
        ensures
            r == (elapsed_ms(self.last_update(), now_ms) >= self.interval() * 1000),
    {
        let elapsed = if now_ms >= self.last_update_ms {
            now_ms - self.last_update_ms
        } else {
            0
        };
        elapsed / 1000 >= self.update_interval_secs
    }

    /// Records that a sample was taken at `now_ms`.
    pub fn mark_updated(&mut self, now_ms: u64)
        ensures
            final(self).last_update() == now_ms,
            final(self).interval() == old(self).interval(),
            final(self).quitting() == old(self).quitting(),
    {
        self.last_update_ms = now_ms;
    }

    /// Reacts to a key: 'q' or Esc asks to quit; other keys change nothing.
    pub fn handle_key(&mut self, key: KeyInput)
        ensures
            final(self).quitting() == (old(self).quitting() || key == KeyInput::Char('q') || key
                == KeyInput::Esc),
            final(self).last_update() == old(self).last_update(),
            final(self).interval() == old(self).interval(),
    {
        match key {
            KeyInput::Char('q') | KeyInput::Esc => {
                self.should_quit = true;
            },
            _ => {},
        }
    }

    /// Whether the user asked to quit.
    pub fn should_quit(&self) -> (r: bool)
        ensures
            r == self.quitting(),
    {
        self.should_quit
    }
}

} // verus!

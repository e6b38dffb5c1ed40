//! The persisted sync state. Reading and writing `state.json` is done outside
//! the library; this module holds the state and how a sync cycle updates it.

use vstd::prelude::*;

verus! {

/// Persisted state written to disk after every successful sync cycle.
pub struct State {
    /// The end-timestamp (epoch milliseconds) of the last event we
    /// successfully pushed to Kimai. On the next cycle we query AW for events
    /// strictly after this point.
    pub last_synced_at: Option<i64>,
    /// How many entries we've pushed in total (for diagnostics)
    pub total_entries_pushed: u64,
    /// When the daemon first started (informational), epoch milliseconds
    pub daemon_started_at: Option<i64>,
}

impl State {
    /// The state of a daemon that has never synced, started at `now`.
    pub fn fresh(now: i64) -> (r: State)
        ensures
            r.last_synced_at is None,
            r.total_entries_pushed == 0,
            r.daemon_started_at == Some(now),
    {
        State { last_synced_at: None, total_entries_pushed: 0, daemon_started_at: Some(now) }
    }
}

/// The state together with the file it is kept in.
pub struct StateManager {
    pub path: String,
    pub state: State,
}

impl StateManager {
    /// A manager for `state`, kept at `path`.
    pub fn new(path: String, state: State) -> (r: StateManager)
        ensures
            r.path == path,
            r.state == state,
    {
        StateManager { path, state }
    }

    /// Where the state is kept.
    pub fn path(&self) -> (r: &str)
        ensures
            r@ == self.path@,
    {
        self.path.as_str()
    }

    /// Update cursor after a successful batch push: the cursor moves to
    /// `synced_until` and the pushed entries are added to the total. The
    /// caller then saves the state.
    pub fn record_sync(&mut self, synced_until: i64, entries_pushed: u64)
        requires
            old(self).state.total_entries_pushed + entries_pushed <= u64::MAX,
        ensures
            final(self).state.last_synced_at == Some(synced_until),
            final(self).state.total_entries_pushed == old(self).state.total_entries_pushed
                + entries_pushed,
            final(self).state.daemon_started_at == old(self).state.daemon_started_at,
            final(self).path == old(self).path,
    {
        self.state.last_synced_at = Some(synced_until);
        self.state.total_entries_pushed = self.state.total_entries_pushed + entries_pushed;
    }
}

} // verus!

//! The desktop client's session state and its transitions.
use vstd::prelude::*;

verus! {

/// The round-trip time reported when a ping of the relay fails.
pub const LATENCY_UNREACHABLE_MS: u64 = 999;

/// The client's session: the room it is in (name and password), whether a
/// session runs, and the last measured latency to the relay.
#[derive(Debug)]
pub struct AppState {
    pub current_room: Option<(String, String)>,
    pub is_running: bool,
    pub latency_ms: u64,
}

impl AppState {
    /// No session, no room, latency 0.
    pub fn new() -> (s: AppState)
        ensures
            s.current_room is None,
            !s.is_running,
            s.latency_ms == 0,
    {
        AppState { current_room: None, is_running: false, latency_ms: 0 }
    }

    /// Whether a new session may start: none may run already.
    pub fn can_start(&self) -> (ok: bool)
        ensures
            ok == !self.is_running,
    {
        !self.is_running
    }

    /// A session for `room` started.
    pub fn mark_online(&mut self, room: String, password: String)
        ensures
            final(self).is_running,
            final(self).current_room == Some((room, password)),
            final(self).latency_ms == old(self).latency_ms,
    {
        self.is_running = true;
        self.current_room = Some((room, password));
    }

    /// The session's worker ended: no session, no room.
    pub fn worker_finished(&mut self)
        ensures
            !final(self).is_running,
            final(self).current_room is None,
            final(self).latency_ms == old(self).latency_ms,
    {
        self.is_running = false;
        self.current_room = None;
    }

    /// The user stopped the session: no session, no room, latency 0. The name
    /// of the room that was current comes back, to be deleted at the central
    /// server.
    pub fn stop(&mut self) -> (room: Option<String>)
        ensures
            !final(self).is_running,
            final(self).current_room is None,
            final(self).latency_ms == 0,
            match old(self).current_room {
                Some((name, _)) => room == Some(name),
                None => room is None,
            },
    {
        self.is_running = false;
        let room = match self.current_room.take() {
            Some((name, _)) => Some(name),
            None => None,
        };
        self.latency_ms = 0;
        room
    }

    /// Records a ping of the relay: its round-trip time, or 999 when it failed.
    /// The recorded value comes back.
    pub fn record_ping(&mut self, rtt_ms: Option<u64>) -> (shown: u64)
        ensures
            shown == (match rtt_ms {
                Some(ms) => ms,
                None => LATENCY_UNREACHABLE_MS,
            }),
            final(self).latency_ms == shown,
            final(self).is_running == old(self).is_running,
            final(self).current_room == old(self).current_room,
    {
        let shown = match rtt_ms {
            Some(ms) => ms,
            None => LATENCY_UNREACHABLE_MS,
        };
        self.latency_ms = shown;
        shown
    }

    /// The latency monitor stopped: latency 0.
    pub fn monitor_stopped(&mut self)
        ensures
            final(self).latency_ms == 0,
            final(self).is_running == old(self).is_running,
            final(self).current_room == old(self).current_room,
    {
        self.latency_ms = 0;
    }
}

} // verus!

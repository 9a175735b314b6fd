//! How the connection to the exchange is doing.

use crate::text::same_text;
use vstd::prelude::*;
use vstd::string::*;

verus! {

pub const WS_IDLE_TIMEOUT_SECS: u64 = 60;

pub const HEALTH_STALE_MESSAGE_MS: i64 = 60_000;

/// The state of the stream. Times are milliseconds since the epoch.
#[derive(Debug)]
pub struct WebSocketHealth {
    pub connected: bool,
    pub last_message_at: Option<i64>,
    pub last_message_ago_ms: Option<i64>,
    pub reconnect_count: u64,
    pub last_error: Option<String>,
    pub ok: bool,
    pub reason: Option<&'static str>,
    pub enabled: bool,
}

impl Default for WebSocketHealth {
    fn default() -> (r: Self)
        ensures
            r.unused(),
    {
        WebSocketHealth {
            connected: false,
            last_message_at: None,
            last_message_ago_ms: None,
            reconnect_count: 0,
            last_error: None,
            ok: true,
            reason: None,
            enabled: false,
        }
    }
}

/// How long ago, at `now_ms`, the last message came, in 64 bits.
pub open spec fn age_of(last_ms: i64, now_ms: i64) -> i64 {
    let age = now_ms - last_ms;
    if age < i64::MIN {
        i64::MIN
    } else if age > i64::MAX {
        i64::MAX
    } else {
        age as i64
    }
}

impl WebSocketHealth {
    /// Nothing has happened yet.
    pub open spec fn unused(self) -> bool {
        &&& !self.connected
        &&& self.last_message_at is None
        &&& self.last_message_ago_ms is None
        &&& self.reconnect_count == 0
        &&& self.last_error is None
        &&& self.ok
        &&& self.reason is None
        &&& !self.enabled
    }

    /// The last message came too long ago.
    pub open spec fn stale(self, now_ms: i64) -> bool {
        self.last_message_at matches Some(last_ms) && age_of(last_ms, now_ms)
            > HEALTH_STALE_MESSAGE_MS
    }

    /// The connection was given up because no message came.
    pub open spec fn went_quiet(self) -> bool {
        self.last_error matches Some(error) && error@ == "websocket idle timeout"@
    }

    /// The stream is not in use, or connected and fresh.
    pub open spec fn sound(self, now_ms: i64) -> bool {
        !self.enabled || (self.connected && !self.stale(now_ms))
    }
}

/// The health of the running service.
#[derive(Debug)]
pub struct RuntimeHealth {
    pub websocket: WebSocketHealth,
}

impl Default for RuntimeHealth {
    fn default() -> (r: Self)
        ensures
            r.websocket.unused(),
    {
        RuntimeHealth { websocket: WebSocketHealth::default() }
    }
}

impl RuntimeHealth {
    pub fn mark_connected(&mut self)
        ensures
            final(self).websocket == (WebSocketHealth {
                enabled: true,
                connected: true,
                last_error: None,
                ..old(self).websocket
            }),
    {
        self.websocket.enabled = true;
        self.websocket.connected = true;
        self.websocket.last_error = None;
    }

    pub fn mark_disconnected(&mut self, error: String)
        ensures
            final(self).websocket == (WebSocketHealth {
                enabled: true,
                connected: false,
                last_error: Some(error),
                ..old(self).websocket
            }),
    {
        self.websocket.enabled = true;
        self.websocket.connected = false;
        self.websocket.last_error = Some(error);
    }

    pub fn mark_reconnecting(&mut self, error: String)
        requires
            old(self).websocket.reconnect_count < u64::MAX,
        ensures
            final(self).websocket == (WebSocketHealth {
                enabled: true,
                connected: false,
                reconnect_count: (old(self).websocket.reconnect_count + 1) as u64,
                last_error: Some(error),
                ..old(self).websocket
            }),
    {
        self.websocket.enabled = true;
        self.websocket.connected = false;
        self.websocket.reconnect_count = self.websocket.reconnect_count + 1;
        self.websocket.last_error = Some(error);
    }

    pub fn mark_message_at(&mut self, timestamp_ms: i64)
        ensures
            final(self).websocket == (WebSocketHealth {
                enabled: true,
                last_message_at: Some(timestamp_ms),
                last_error: None,
                ..old(self).websocket
            }),
    {
        self.websocket.enabled = true;
        self.websocket.last_message_at = Some(timestamp_ms);
        self.websocket.last_error = None;
    }

    /// The health at an instant. A stream that went quiet counts as stale, not
    /// as disconnected, until the next attempt to connect fails.
    pub fn websocket_snapshot(&self, now_ms: i64) -> (r: WebSocketHealth)
        ensures
            r.connected == self.websocket.connected,
            r.last_message_at == self.websocket.last_message_at,
            r.last_message_ago_ms == match self.websocket.last_message_at {
                Some(last_ms) => Some(age_of(last_ms, now_ms)),
                None => None,
            },
            r.reconnect_count == self.websocket.reconnect_count,
            r.last_error == self.websocket.last_error,
            r.enabled == self.websocket.enabled,
            r.ok == self.websocket.sound(now_ms),
            match r.reason {
                None => r.ok,
                Some(reason) => !r.ok && reason@ == if !self.websocket.connected
                    && !self.websocket.went_quiet() {
                    "websocket is disconnected"@
                } else {
                    "websocket message stream is stale"@
                },
            },
    {
        let ago: Option<i64> = match self.websocket.last_message_at {
            Some(last_ms) => match now_ms.checked_sub(last_ms) {
                Some(age_ms) => Some(age_ms),
                None => if last_ms < 0 {
                    Some(i64::MAX)
                } else {
                    Some(i64::MIN)
                },
            },
            None => None,
        };
        let stale = match ago {
            Some(age_ms) => age_ms > HEALTH_STALE_MESSAGE_MS,
            None => false,
        };
        let went_quiet = match &self.websocket.last_error {
            Some(error) => same_text(error.as_str(), "websocket idle timeout"),
            None => false,
        };
        let ok = !self.websocket.enabled || (self.websocket.connected && !stale);
        let reason: Option<&'static str> = if ok {
            None
        } else if !self.websocket.connected && !went_quiet {
            Some("websocket is disconnected")
        } else {
            Some("websocket message stream is stale")
        };
        let last_error = match &self.websocket.last_error {
            Some(error) => Some(error.clone()),
            None => None,
        };
        WebSocketHealth {
            connected: self.websocket.connected,
            last_message_at: self.websocket.last_message_at,
            last_message_ago_ms: ago,
            reconnect_count: self.websocket.reconnect_count,
            last_error,
            ok,
            reason,
            enabled: self.websocket.enabled,
        }
    }
}

impl WebSocketHealth {
    /// The stream is sound exactly if it is not in use, or is connected and has
    /// had no message yet, or one not more than a minute ago.
    pub proof fn sound_while_messages_come(self, now_ms: i64)
        ensures
            self.sound(now_ms) <==> !self.enabled || (self.connected && (
            self.last_message_at is None || now_ms - self.last_message_at->0 <= 60_000)),
    {
    }

    /// The age of a message is the time since, as far as it can be told.
    pub proof fn ages_are_the_time_since(last_ms: i64, now_ms: i64)
        ensures
            i64::MIN <= now_ms - last_ms <= i64::MAX ==> age_of(last_ms, now_ms) == now_ms
                - last_ms,
            now_ms - last_ms > i64::MAX ==> age_of(last_ms, now_ms) == i64::MAX,
            now_ms - last_ms < i64::MIN ==> age_of(last_ms, now_ms) == i64::MIN,
    {
    }
}

/// A snapshot is well exactly if the stream is not in use, or is connected and
/// its last message, if there was one, came at most a minute ago. Otherwise it
/// says why: a stream that is connected, or fell silent, is stale; any other is
/// disconnected.
pub proof fn snapshots_tell_what_is_wrong(health: RuntimeHealth, now_ms: i64, r: WebSocketHealth)
    requires
        call_ensures(RuntimeHealth::websocket_snapshot, (&health, now_ms), r),
    ensures
        r.ok <==> !r.enabled || (r.connected && (r.last_message_at is None || now_ms
            - r.last_message_at->0 <= 60_000)),
        r.ok <==> r.reason is None,
        r.reason matches Some(reason) ==> {
            let silent = r.last_error matches Some(error) && error@ == "websocket idle timeout"@;
            &&& r.connected || silent <==> reason@ == "websocket message stream is stale"@
            &&& !r.connected && !silent <==> reason@ == "websocket is disconnected"@
        },
        r.last_message_at is None <==> r.last_message_ago_ms is None,
        r.last_message_at matches Some(last) ==> i64::MIN <= now_ms - last <= i64::MAX
            ==> r.last_message_ago_ms == Some((now_ms - last) as i64),
{
    reveal_strlit("websocket message stream is stale");
    reveal_strlit("websocket is disconnected");
    assert("websocket message stream is stale"@.len() == 33);
    assert("websocket is disconnected"@.len() == 25);
}

} // verus!

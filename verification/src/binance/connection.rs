//! The life of the connection to the exchange: when to catch up, what a
//! message means for it, and how long to wait before the next attempt.

use crate::binance::plan::{no_streams_without_subscriptions, SubscriptionPlan};
use vstd::prelude::*;
use vstd::string::*;

verus! {

pub const MAX_BACKOFF_SECS: u64 = 30;

/// What came out of waiting for a message.
#[derive(Debug, PartialEq, Eq)]
pub enum Incoming {
    /// A text.
    Text,
    /// A sign of life without content.
    Heartbeat,
    /// The other side closes the connection.
    Close,
    /// Anything else that is a message.
    Other,
    /// Reading failed.
    ReadFailed(String),
    /// The stream is over.
    Ended,
    /// No message came for too long.
    Idle,
}

/// What a message leads to.
#[derive(Debug, PartialEq, Eq)]
pub struct Reaction {
    /// The time of the last message moves on.
    pub alive: bool,
    /// The text is to be read as an event.
    pub decode: bool,
    /// The connection is given up, for this reason.
    pub reconnect: Option<String>,
}

/// Why the connection is given up.
pub open spec fn reconnect_reason(incoming: Incoming) -> Option<Seq<char>> {
    match incoming {
        Incoming::Close => Some("websocket closed"@),
        Incoming::ReadFailed(reason) => Some("websocket read failed: "@ + reason@),
        Incoming::Ended => Some("websocket stream ended"@),
        Incoming::Idle => Some("websocket idle timeout"@),
        _ => None,
    }
}

pub fn react(incoming: &Incoming) -> (r: Reaction)
    ensures
        r.alive == (incoming is Text || incoming is Heartbeat),
        r.decode == (incoming is Text),
        match r.reconnect {
            Some(reason) => reconnect_reason(*incoming) == Some(reason@),
            None => reconnect_reason(*incoming) is None,
        },
{
    match incoming {
        Incoming::Text => Reaction { alive: true, decode: true, reconnect: None },
        Incoming::Heartbeat => Reaction { alive: true, decode: false, reconnect: None },
        Incoming::Close => Reaction {
            alive: false,
            decode: false,
            reconnect: Some("websocket closed".to_owned()),
        },
        Incoming::Other => Reaction { alive: false, decode: false, reconnect: None },
        Incoming::ReadFailed(reason) => Reaction {
            alive: false,
            decode: false,
            reconnect: Some("websocket read failed: ".to_owned().concat(reason.as_str())),
        },
        Incoming::Ended => Reaction {
            alive: false,
            decode: false,
            reconnect: Some("websocket stream ended".to_owned()),
        },
        Incoming::Idle => Reaction {
            alive: false,
            decode: false,
            reconnect: Some("websocket idle timeout".to_owned()),
        },
    }
}

/// What is recorded when no connection comes about.
pub fn connect_failure(reason: &str) -> (r: String)
    ensures
        r@ == "connect failed: "@ + reason@,
{
    "connect failed: ".to_owned().concat(reason)
}

/// The state between connections.
#[derive(Debug, Clone, Copy, PartialEq, Eq, Structural)]
pub struct Reconnect {
    pub backoff_secs: u64,
    pub catch_up_on_connect: bool,
}

pub open spec fn longer(backoff_secs: u64) -> u64 {
    if backoff_secs * 2 < MAX_BACKOFF_SECS {
        (backoff_secs * 2) as u64
    } else {
        MAX_BACKOFF_SECS
    }
}

impl Reconnect {
    pub open spec fn wf(self) -> bool {
        1 <= self.backoff_secs <= MAX_BACKOFF_SECS
    }

    /// The waits start anew.
    pub open spec fn rested(self) -> bool {
        self.backoff_secs == 1
    }

    /// Waiting for `pause_secs` leads to `after`: the wait is the one that is
    /// due, and the next one is longer.
    pub open spec fn pauses(self, pause_secs: u64, after: Reconnect) -> bool {
        &&& pause_secs == self.backoff_secs
        &&& after.backoff_secs == longer(self.backoff_secs)
        &&& after.catch_up_on_connect == self.catch_up_on_connect
    }

    pub fn new(catch_up_on_first_connect: bool) -> (r: Self)
        ensures
            r.wf(),
            r.rested(),
            r.catch_up_on_connect == catch_up_on_first_connect,
    {
        Reconnect { backoff_secs: 1, catch_up_on_connect: catch_up_on_first_connect }
    }

    /// A connection has come about. The result tells whether the history is to
    /// be caught up; from the second connection on it always is.
    pub fn connected(&mut self) -> (r: bool)
        ensures
            final(self).wf(),
            r == old(self).catch_up_on_connect,
            final(self).rested(),
            final(self).catch_up_on_connect,
    {
        let catch_up = self.catch_up_on_connect;
        self.backoff_secs = 1;
        self.catch_up_on_connect = true;
        catch_up
    }

    /// How many seconds to wait before the next attempt.
    pub fn wait_secs(&mut self) -> (r: u64)
        requires
            old(self).wf(),
        ensures
            final(self).wf(),
            old(self).pauses(r, *final(self)),
    {
        let wait: u64 = self.backoff_secs;
        self.backoff_secs = if wait * 2 < MAX_BACKOFF_SECS {
            wait * 2
        } else {
            MAX_BACKOFF_SECS
        };
        wait
    }
}

/// The wait after `failures` attempts that failed since the last connection.
pub open spec fn wait_after(failures: nat) -> u64
    decreases failures,
{
    if failures == 0 {
        1
    } else {
        longer(wait_after((failures - 1) as nat))
    }
}

/// The waits double from one second on and never exceed half a minute.
pub proof fn waits_double_up_to_the_limit(failures: nat)
    ensures
        1 <= wait_after(failures) <= MAX_BACKOFF_SECS,
        failures < 5 ==> wait_after(failures) == vstd::arithmetic::power2::pow2(failures),
        failures >= 5 ==> wait_after(failures) == MAX_BACKOFF_SECS,
    decreases failures,
{
    vstd::arithmetic::power2::lemma2_to64();
    if failures > 0 {
        waits_double_up_to_the_limit((failures - 1) as nat);
    }
}

/// `states` are the states in turn while nothing but waits happens, and
/// `pauses` are those waits.
pub open spec fn pausing(states: Seq<Reconnect>, pauses: Seq<u64>) -> bool {
    &&& states.len() == pauses.len() + 1
    &&& forall|i: int, j: int|
        0 <= i && j == i + 1 && j < states.len() ==> (#[trigger] states[i]).pauses(
            pauses[i],
            #[trigger] states[j],
        )
}

/// From the start, or from a connection, on the waits are one second, then
/// twice as long each time, up to half a minute.
pub proof fn pauses_double_since_the_last_connection(
    states: Seq<Reconnect>,
    pauses: Seq<u64>,
    k: int,
)
    requires
        pausing(states, pauses),
        states[0].rested(),
        0 <= k < pauses.len(),
    ensures
        pauses[k] == wait_after(k as nat),
        k < 5 ==> pauses[k] == vstd::arithmetic::power2::pow2(k as nat),
        k >= 5 ==> pauses[k] == MAX_BACKOFF_SECS,
    decreases k,
{
    if k > 0 {
        pauses_double_since_the_last_connection(states, pauses, k - 1);
        assert(states[k - 1].pauses(pauses[k - 1], states[k]));
    }
    assert(states[k].pauses(pauses[k], states[k + 1]));
    waits_double_up_to_the_limit(k as nat);
}

/// Following a plan: the address that every attempt goes to, and the state
/// between attempts.
#[derive(Debug)]
pub struct Following {
    pub url: String,
    pub reconnect: Reconnect,
}

impl Following {
    /// Starts to follow a plan. A plan without streams is not followed.
    pub fn start(plan: &SubscriptionPlan, catch_up_on_first_connect: bool) -> (r: Option<Self>)
        ensures
            match r {
                Some(following) => {
                    &&& plan@.len() > 0
                    &&& plan.has_url(following.url@)
                    &&& following.reconnect.wf()
                    &&& following.reconnect.rested()
                    &&& following.reconnect.catch_up_on_connect == catch_up_on_first_connect
                },
                None => plan@.len() == 0,
            },
    {
        let streams = plan.streams();
        proof {
            no_streams_without_subscriptions(plan@, streams@);
        }
        if streams.len() == 0 {
            return None;
        }
        Some(
            Following {
                url: plan.stream_url(),
                reconnect: Reconnect::new(catch_up_on_first_connect),
            },
        )
    }

    /// A connection has come about; see `Reconnect::connected`.
    pub fn connected(&mut self) -> (r: bool)
        ensures
            final(self).url == old(self).url,
            r == old(self).reconnect.catch_up_on_connect,
            final(self).reconnect.wf(),
            final(self).reconnect.rested(),
            final(self).reconnect.catch_up_on_connect,
    {
        self.reconnect.connected()
    }

    /// How many seconds to wait before the next attempt.
    pub fn wait_secs(&mut self) -> (r: u64)
        requires
            old(self).reconnect.wf(),
        ensures
            final(self).url == old(self).url,
            final(self).reconnect.wf(),
            old(self).reconnect.pauses(r, final(self).reconnect),
    {
        self.reconnect.wait_secs()
    }
}

/// A connection is left exactly if it was closed, could not be read, ended or
/// fell silent; each has its own reason.
pub proof fn connections_are_left_for_a_reason(a: Incoming, b: Incoming)
    ensures
        reconnect_reason(a) is Some <==> a is Close || a is ReadFailed || a is Ended || a is Idle,
        reconnect_reason(a) is Some && reconnect_reason(a) == reconnect_reason(b) && !(
        a is ReadFailed) && !(b is ReadFailed) ==> a == b,
{
    reveal_strlit("websocket closed");
    reveal_strlit("websocket stream ended");
    reveal_strlit("websocket idle timeout");
    assert("websocket closed"@.len() == 16);
    assert("websocket stream ended"@.len() == 22 && "websocket stream ended"@[10] == 's');
    assert("websocket idle timeout"@.len() == 22 && "websocket idle timeout"@[10] == 'i');
}

/// A wait is twice the one before, up to half a minute.
pub proof fn each_wait_is_twice_the_last(
    before: Reconnect,
    first: u64,
    between: Reconnect,
    second: u64,
    after: Reconnect,
)
    requires
        before.wf(),
        before.pauses(first, between),
        between.pauses(second, after),
    ensures
        first <= 30 && second <= 30,
        2 * first <= 30 ==> second == 2 * first,
        2 * first > 30 ==> second == 30,
        before.rested() ==> first == 1 && second == 2,
        after.catch_up_on_connect == before.catch_up_on_connect,
{
}

/// A message that is read as an event keeps the connection alive, and what
/// keeps it alive does not end it.
pub proof fn what_is_read_keeps_the_connection(incoming: Incoming, r: Reaction)
    requires
        call_ensures(react, (&incoming,), r),
    ensures
        r.decode ==> r.alive,
        r.alive ==> r.reconnect is None,
        r.decode <==> incoming is Text,
        incoming is Heartbeat ==> r.alive && !r.decode,
        r.reconnect is Some <==> incoming is Close || incoming is ReadFailed || incoming is Ended
            || incoming is Idle,
{
}

} // verus!

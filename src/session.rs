//! The tracker session as a state machine: the caller owns the socket and
//! the clock, hands each event to the session, and carries out the action
//! that comes back.
use vstd::prelude::*;
use crate::tracker::{
    announce_reply_ok, connect_bytes, connect_reply_ok, connect_request, parse_connect_response,
    request_bytes, response_of, response_readable, IpV4AnnounceRequest, IpV4AnnounceResponse,
    ACTION_ANNOUNCE,
};
use crate::wire::{be64, copy_bytes, read_u32};

verus! {

/// How long a connection id stays valid, in seconds.
pub const CONNECTION_ID_LIFETIME_SECS: u64 = 60;

/// How many times one request is sent before the exchange gives up.
pub const MAX_ATTEMPTS: u32 = 8;

/// How long to wait for the reply to the first sending, in seconds.
pub const BASE_TIMEOUT_SECS: u64 = 15;

/// Why an exchange with the tracker failed.
#[derive(Clone, Copy, Debug, PartialEq, Eq)]
pub enum TrackerError {
    /// A datagram or a bencoded value is structurally invalid.
    MalformedInput,
    /// The socket failed.
    Io,
    /// No valid reply came within the retry budget.
    Timeout,
    /// Replies came, but none matched the outstanding request.
    ProtocolMismatch,
    /// The tracker's host name did not resolve.
    ResolutionFailed,
}

/// Whether the session holds a connection id, and since when.
#[derive(Clone, Copy, Debug, PartialEq, Eq)]
pub enum ConnectionState {
    Disconnected,
    Connected { connection_id: u64, obtained_at: u64 },
}

/// Which exchange a request belongs to.
#[derive(Clone, Copy, Debug, PartialEq, Eq)]
pub enum Exchange {
    Connect,
    Announce,
}

/// The request that awaits its reply.
#[derive(Clone, Debug, PartialEq, Eq)]
pub struct Pending {
    pub exchange: Exchange,
    pub transaction_id: u32,
    /// How many times the request was sent before the last sending.
    pub attempt: u32,
    pub payload: Vec<u8>,
    /// Whether a datagram that did not match the request was received.
    pub mismatched: bool,
}

/// What the caller is to do next.
#[derive(Clone, Debug, PartialEq, Eq)]
pub enum Action {
    /// Send `payload` and wait at most `timeout_secs` for a reply.
    Send { payload: Vec<u8>, timeout_secs: u64 },
    /// Keep waiting for the reply.
    Wait,
    /// The connect exchange succeeded.
    Connected,
    /// The announce exchange succeeded.
    Announced(IpV4AnnounceResponse),
    /// The exchange failed; the connection state is as it was before it.
    Failed(TrackerError),
}

/// A session with one tracker.
#[derive(Clone, Debug, PartialEq, Eq)]
pub struct TrackerSession {
    pub state: ConnectionState,
    pub pending: Option<Pending>,
    /// An announce that waits for a fresh connection id.
    pub queued: Option<IpV4AnnounceRequest>,
}

/// The wait after the `n`-th sending (from 0): 15 seconds, doubled each time.
pub open spec fn backoff(n: nat) -> nat
    decreases n,
{
    if n == 0 {
        15
    } else {
        2 * backoff((n - 1) as nat)
    }
}

/// Whether the session holds a connection id younger than its lifetime at `now`.
pub open spec fn id_fresh(state: ConnectionState, now: u64) -> bool {
    match state {
        ConnectionState::Connected { obtained_at, .. } => obtained_at <= now && now - obtained_at
            < CONNECTION_ID_LIFETIME_SECS,
        ConnectionState::Disconnected => false,
    }
}

/// `q` with the session's connection id, the announce action, and a transaction id.
pub open spec fn stamped(q: IpV4AnnounceRequest, connection_id: u64, transaction_id: u32) -> IpV4AnnounceRequest {
    IpV4AnnounceRequest {
        connection_id,
        action: 1,
        transaction_id,
        info_hash: q.info_hash,
        peer_id: q.peer_id,
        downloaded: q.downloaded,
        left: q.left,
        uploaded: q.uploaded,
        event: q.event,
        ip_address: q.ip_address,
        key: q.key,
        num_want: q.num_want,
        port: q.port,
    }
}

/// Whether `p` is a request just sent for the first time.
pub open spec fn fresh_pending(p: Option<Pending>, exchange: Exchange, transaction_id: u32, payload: Seq<u8>) -> bool {
    &&& p is Some
    &&& p->0.exchange == exchange
    &&& p->0.transaction_id == transaction_id
    &&& p->0.attempt == 0
    &&& p->0.payload@ == payload
    &&& !p->0.mismatched
}

/// Whether `a` sends `payload` with the given timeout.
pub open spec fn sends(a: Action, payload: Seq<u8>, timeout: nat) -> bool {
    &&& a is Send
    &&& a->payload@ == payload
    &&& a->timeout_secs == timeout
}

/// `p` after a datagram that did not match it.
pub open spec fn marked(p: Pending) -> Pending {
    Pending {
        exchange: p.exchange,
        transaction_id: p.transaction_id,
        attempt: p.attempt,
        payload: p.payload,
        mismatched: true,
    }
}

/// `p` sent once more.
pub open spec fn retried(p: Pending) -> Pending {
    Pending {
        exchange: p.exchange,
        transaction_id: p.transaction_id,
        attempt: (p.attempt + 1) as u32,
        payload: p.payload,
        mismatched: p.mismatched,
    }
}

/// The waits of the first seven sendings stay under 1000 seconds.
proof fn lemma_backoff_small(n: nat)
    requires
        n < 7,
    ensures
        backoff(n) <= 960,
{
    reveal_with_fuel(backoff, 8);
    assert(n == 0 || n == 1 || n == 2 || n == 3 || n == 4 || n == 5 || n == 6);
}

/// The wait after the sending numbered `attempt` (from 0).
pub fn retry_timeout(attempt: u32) -> (r: u64)
    requires
        attempt < MAX_ATTEMPTS,
    ensures
        r as nat == backoff(attempt as nat),
{
    let mut t: u64 = BASE_TIMEOUT_SECS;
    let mut k: u32 = 0;
    while k < attempt
        invariant
            k <= attempt < 8,
            t as nat == backoff(k as nat),
        decreases attempt - k,
    {
        proof {
            lemma_backoff_small(k as nat);
        }
        t = t * 2;
        k = k + 1;
    }
    t
}

impl TrackerSession {
    /// A session without a connection id and with nothing outstanding.
    pub fn new() -> (r: Self)
        ensures
            r.state == ConnectionState::Disconnected,
            r.pending is None,
            r.queued is None,
    {
        TrackerSession { state: ConnectionState::Disconnected, pending: None, queued: None }
    }

    /// Whether the connection id is still valid at `now` (in seconds).
    pub fn is_fresh(&self, now: u64) -> (r: bool)
        ensures
            r == id_fresh(self.state, now),
    {
        match self.state {
            ConnectionState::Connected { obtained_at, .. } => obtained_at <= now && now
                - obtained_at < CONNECTION_ID_LIFETIME_SECS,
            ConnectionState::Disconnected => false,
        }
    }

    /// Starts a connect exchange: the request to send, and its wait.
    pub fn connect(&mut self, transaction_id: u32) -> (a: Action)
        ensures
            final(self).state == old(self).state,
            final(self).queued is None,
            fresh_pending(final(self).pending, Exchange::Connect, transaction_id, connect_bytes(transaction_id)),
            sends(a, connect_bytes(transaction_id), backoff(0)),
    {
        let payload = connect_request(transaction_id);
        self.pending = Some(
            Pending {
                exchange: Exchange::Connect,
                transaction_id,
                attempt: 0,
                payload: copy_bytes(&payload),
                mismatched: false,
            },
        );
        self.queued = None;
        Action::Send { payload, timeout_secs: BASE_TIMEOUT_SECS }
    }

    /// Sends `request` under the given connection id.
    fn start_announce(&mut self, request: IpV4AnnounceRequest, connection_id: u64, transaction_id: u32) -> (a: Action)
        ensures
            final(self).state == old(self).state,
            final(self).queued is None,
            fresh_pending(
                final(self).pending,
                Exchange::Announce,
                transaction_id,
                request_bytes(stamped(request, connection_id, transaction_id)),
            ),
            sends(a, request_bytes(stamped(request, connection_id, transaction_id)), backoff(0)),
    {
        let full = IpV4AnnounceRequest {
            connection_id,
            action: ACTION_ANNOUNCE,
            transaction_id,
            info_hash: request.info_hash,
            peer_id: request.peer_id,
            downloaded: request.downloaded,
            left: request.left,
            uploaded: request.uploaded,
            event: request.event,
            ip_address: request.ip_address,
            key: request.key,
            num_want: request.num_want,
            port: request.port,
        };
        let payload = full.to_bytes();
        self.pending = Some(
            Pending {
                exchange: Exchange::Announce,
                transaction_id,
                attempt: 0,
                payload: copy_bytes(&payload),
                mismatched: false,
            },
        );
        self.queued = None;
        Action::Send { payload, timeout_secs: BASE_TIMEOUT_SECS }
    }

    /// Starts an announce at `now` (in seconds). With a valid connection id
    /// the announce is sent at once; otherwise a connect exchange goes
    /// first and the announce waits for its reply.
    pub fn announce(&mut self, request: IpV4AnnounceRequest, transaction_id: u32, now: u64) -> (a: Action)
        ensures
            final(self).state == old(self).state,
            id_fresh(old(self).state, now) ==> {
                let payload = request_bytes(
                    stamped(request, old(self).state->connection_id, transaction_id),
                );
                &&& final(self).queued is None
                &&& fresh_pending(final(self).pending, Exchange::Announce, transaction_id, payload)
                &&& sends(a, payload, backoff(0))
            },
            !id_fresh(old(self).state, now) ==> {
                &&& final(self).queued == Some(request)
                &&& fresh_pending(final(self).pending, Exchange::Connect, transaction_id, connect_bytes(transaction_id))
                &&& sends(a, connect_bytes(transaction_id), backoff(0))
            },
    {
        if self.is_fresh(now) {
            match self.state {
                ConnectionState::Connected { connection_id, .. } => {
                    self.start_announce(request, connection_id, transaction_id)
                },
                ConnectionState::Disconnected => Action::Wait,
            }
        } else {
            let a = self.connect(transaction_id);
            self.queued = Some(request);
            a
        }
    }

    /// Handles a datagram received at `now` (in seconds). A datagram that
    /// does not answer the outstanding request is ignored. A connect reply
    /// stores the connection id and, if an announce waits for it, sends that
    /// announce under `fresh_transaction_id`.
    pub fn on_datagram(&mut self, bytes: &[u8], now: u64, fresh_transaction_id: u32) -> (a: Action)
        ensures
            old(self).pending is None ==> *final(self) == *old(self) && a is Wait,
            old(self).pending is Some && old(self).pending->0.exchange == Exchange::Connect ==> {
                let p = old(self).pending->0;
                let id = be64(bytes@, 8) as u64;
                &&& connect_reply_ok(bytes@, p.transaction_id) ==> {
                    &&& final(self).state == (ConnectionState::Connected { connection_id: id, obtained_at: now })
                    &&& final(self).queued is None
                    &&& old(self).queued is None ==> final(self).pending is None && a is Connected
                    &&& old(self).queued is Some ==> {
                        let payload = request_bytes(
                            stamped(old(self).queued->0, id, fresh_transaction_id),
                        );
                        &&& fresh_pending(final(self).pending, Exchange::Announce, fresh_transaction_id, payload)
                        &&& sends(a, payload, backoff(0))
                    }
                }
                &&& !connect_reply_ok(bytes@, p.transaction_id) ==> {
                    &&& final(self).state == old(self).state
                    &&& final(self).queued == old(self).queued
                    &&& final(self).pending == Some(marked(p))
                    &&& a is Wait
                }
            },
            old(self).pending is Some && old(self).pending->0.exchange == Exchange::Announce ==> {
                let p = old(self).pending->0;
                &&& final(self).state == old(self).state
                &&& final(self).queued == old(self).queued
                &&& announce_reply_ok(bytes@, p.transaction_id) ==> {
                    &&& final(self).pending is None
                    &&& response_readable(bytes@) ==> a is Announced && response_of(a->Announced_0, bytes@)
                    &&& !response_readable(bytes@) ==> a == Action::Failed(TrackerError::MalformedInput)
                }
                &&& !announce_reply_ok(bytes@, p.transaction_id) ==> {
                    &&& final(self).pending == Some(marked(p))
                    &&& a is Wait
                }
            },
    {
        let p = match self.pending.take() {
            Some(p) => p,
            None => return Action::Wait,
        };
        match p.exchange {
            Exchange::Connect => {
                match parse_connect_response(bytes, p.transaction_id) {
                    Some(connection_id) => {
                        self.state = ConnectionState::Connected { connection_id, obtained_at: now };
                        match self.queued.take() {
                            Some(q) => self.start_announce(q, connection_id, fresh_transaction_id),
                            None => Action::Connected,
                        }
                    },
                    None => {
                        self.pending = Some(
                            Pending {
                                exchange: p.exchange,
                                transaction_id: p.transaction_id,
                                attempt: p.attempt,
                                payload: p.payload,
                                mismatched: true,
                            },
                        );
                        Action::Wait
                    },
                }
            },
            Exchange::Announce => {
                if bytes.len() >= 20 && read_u32(bytes, 0) == ACTION_ANNOUNCE && read_u32(bytes, 4)
                    == p.transaction_id {
                    match IpV4AnnounceResponse::from_bytes(bytes) {
                        Some(r) => Action::Announced(r),
                        None => Action::Failed(TrackerError::MalformedInput),
                    }
                } else {
                    self.pending = Some(
                        Pending {
                            exchange: p.exchange,
                            transaction_id: p.transaction_id,
                            attempt: p.attempt,
                            payload: p.payload,
                            mismatched: true,
                        },
                    );
                    Action::Wait
                }
            },
        }
    }

    /// Handles the end of a wait without a matching reply, or a failed send
    /// or receive (`transport_failed`). The request goes out again, with
    /// the same transaction id and a doubled wait, until it has been sent
    /// eight times; then the exchange fails and the connection state stays as
    /// it was.
    pub fn on_timeout(&mut self, transport_failed: bool) -> (a: Action)
        ensures
            old(self).pending is None ==> *final(self) == *old(self) && a is Wait,
            old(self).pending is Some ==> {
                let p = old(self).pending->0;
                &&& final(self).state == old(self).state
                &&& p.attempt + 1 >= MAX_ATTEMPTS ==> {
                    &&& final(self).pending is None
                    &&& final(self).queued is None
                    &&& a == Action::Failed(
                        if transport_failed {
                            TrackerError::Io
                        } else if p.mismatched {
                            TrackerError::ProtocolMismatch
                        } else {
                            TrackerError::Timeout
                        },
                    )
                }
                &&& p.attempt + 1 < MAX_ATTEMPTS ==> {
                    &&& final(self).queued == old(self).queued
                    &&& final(self).pending == Some(retried(p))
                    &&& sends(a, p.payload@, backoff((p.attempt + 1) as nat))
                }
            },
    {
        let p = match self.pending.take() {
            Some(p) => p,
            None => return Action::Wait,
        };
        if p.attempt >= MAX_ATTEMPTS - 1 {
            self.queued = None;
            let e = if transport_failed {
                TrackerError::Io
            } else if p.mismatched {
                TrackerError::ProtocolMismatch
            } else {
                TrackerError::Timeout
            };
            return Action::Failed(e);
        }
        let attempt = p.attempt + 1;
        let timeout_secs = retry_timeout(attempt);
        let payload = copy_bytes(&p.payload);
        self.pending = Some(
            Pending {
                exchange: p.exchange,
                transaction_id: p.transaction_id,
                attempt,
                payload: p.payload,
                mismatched: p.mismatched,
            },
        );
        Action::Send { payload, timeout_secs }
    }
}

} // verus!

//! What the library's state is, and what each operation makes of it, stated
//! over maps and sequences.
use crate::encoding::{candid_service_message, cbor_websocket_message};
use crate::errors::{
    anonymous_principal_text, client_key_already_connected_text, client_key_message_mismatch_text,
    client_key_not_connected_text, client_not_registered_to_gateway_text, client_principal_not_connected_text,
    decode_service_message_content_text, expected_incoming_not_initialized_text, gateway_not_registered_text,
    incoming_sequence_number_wrong_text, invalid_service_message_text, outgoing_not_initialized_text,
};
use crate::external::sha256_of;
use crate::gateway::{expired_prefix_len, is_expired, GatewayModel};
use crate::principal::anonymous_bytes;
use crate::text::{message_key, seq_lt};
use crate::types::{CallbackV, ClientV, CloseMessageReason, KeyV, OutputMessageV, ServiceMessageV, MessageV};
use crate::{DEFAULT_CLIENT_KEEP_ALIVE_TIMEOUT_MS, DEFAULT_MAX_NUMBER_OF_RETURNED_MESSAGES, DEFAULT_SEND_ACK_INTERVAL_MS, INITIAL_CANISTER_SEQUENCE_NUM, INITIAL_CLIENT_SEQUENCE_NUM, MESSAGES_TO_DELETE_COUNT};
use vstd::prelude::*;

verus! {

/// `s` with `k` added at the end, unless it is there already.
pub open spec fn with_key(s: Seq<KeyV>, k: KeyV) -> Seq<KeyV> {
    if s.contains(k) {
        s
    } else {
        s.push(k)
    }
}

/// `s` without `k`, the other elements in their order.
pub open spec fn without_key(s: Seq<KeyV>, k: KeyV) -> Seq<KeyV> {
    if s.contains(k) {
        s.remove(s.index_of(k))
    } else {
        s
    }
}

/// The bound below which the library's counters are kept, far from overflowing.
pub const COUNTER_LIMIT: u64 = 0x4000_0000_0000_0000;

/// The keys of the messages queued for the gateways of `gws` among `gateways`.
pub open spec fn keys_of_gateways(gateways: Map<Seq<u8>, GatewayModel>, gws: Set<Seq<u8>>) -> Set<Seq<char>> {
    Set::new(|key: Seq<char>| exists|gw: Seq<u8>|
        #[trigger] gws.contains(gw) && gateways.dom().contains(gw) && gateways[gw].keys().contains(key))
}

/// The queue of the gateway `gw` holds messages of consecutive nonces, the last
/// one just before the gateway's next nonce: the message at position `i` has the
/// key of the nonce `nonce - len + i`.
pub open spec fn queue_contiguous(gw: Seq<u8>, g: GatewayModel) -> bool {
    &&& g.queue.len() <= g.nonce
    &&& forall|i: int| 0 <= i < g.queue.len()
        ==> #[trigger] g.queue[i].1 == message_key(gw, (g.nonce - g.queue.len() + i) as nat)
}

/// The state of the library.
#[verifier::ext_equal]
pub struct WsModel {
    /// The registered clients: the time of their last keep alive and their gateway.
    pub clients: Map<KeyV, ClientV>,
    /// The registered clients, in the order of their registration.
    pub client_order: Seq<KeyV>,
    /// The key of the current connection of each client principal.
    pub current_keys: Map<Seq<u8>, KeyV>,
    /// The clients from which a keep alive is awaited, in the order in which they were added.
    pub waiting: Seq<KeyV>,
    /// The sequence number of the last message sent to each client.
    pub outgoing: Map<KeyV, u64>,
    /// The sequence number expected in the next message from each client.
    pub incoming: Map<KeyV, u64>,
    /// The certification tree: message keys mapped to the SHA-256 of the message bytes.
    pub cert: Map<Seq<char>, Seq<u8>>,
    /// The registered gateways.
    pub gateways: Map<Seq<u8>, GatewayModel>,
    /// The gateways left without clients, and since when.
    pub expiring: Map<Seq<u8>, u64>,
    /// The maximum number of messages returned by a poll.
    pub max_returned: usize,
    /// The interval at which acknowledgements are sent, in milliseconds.
    pub ack_interval_ms: u64,
    /// The time a client has to send a keep alive after an acknowledgement, in milliseconds.
    pub keep_alive_timeout_ms: u64,
    /// The handler calls that are due, in order.
    pub callbacks: Seq<CallbackV>,
}

/// Where a poll starts, where it ends, and whether that is the end of the queue.
pub struct PollRange {
    pub start: int,
    pub end: int,
    pub is_end_of_queue: bool,
}

/// Counting from position `i`, the position of the first key that does not come
/// before `smallest`, or the length.
pub open spec fn first_not_before(keys: Seq<Seq<char>>, smallest: Seq<char>, i: nat) -> nat
    decreases keys.len() - i,
{
    if i >= keys.len() {
        keys.len()
    } else if !seq_lt(keys[i as int], smallest) {
        i
    } else {
        first_not_before(keys, smallest, i + 1)
    }
}

/// The position that [`first_not_before`] finds is between `i` and the length.
pub proof fn lemma_first_not_before_bounds(keys: Seq<Seq<char>>, smallest: Seq<char>, i: nat)
    requires
        i <= keys.len(),
    ensures
        i <= first_not_before(keys, smallest, i) <= keys.len(),
    decreases keys.len() - i,
{
    if i < keys.len() && seq_lt(keys[i as int], smallest) {
        lemma_first_not_before_bounds(keys, smallest, i + 1);
    }
}

impl WsModel {
    /// The state before any operation.
    pub open spec fn initial(max_returned: usize, ack_interval_ms: u64, keep_alive_timeout_ms: u64) -> WsModel {
        WsModel {
            clients: Map::empty(),
            client_order: Seq::empty(),
            current_keys: Map::empty(),
            waiting: Seq::empty(),
            outgoing: Map::empty(),
            incoming: Map::empty(),
            cert: Map::empty(),
            gateways: Map::empty(),
            expiring: Map::empty(),
            max_returned,
            ack_interval_ms,
            keep_alive_timeout_ms,
            callbacks: Seq::empty(),
        }
    }

    /// What every state of the library satisfies.
    pub open spec fn inv(self) -> bool {
        &&& forall|gw: Seq<u8>| #[trigger] self.gateways.dom().contains(gw) ==> self.gateways[gw].wf()
        &&& forall|gw: Seq<u8>, i: int| #![trigger self.gateways[gw].queue[i]]
            self.gateways.dom().contains(gw) && 0 <= i < self.gateways[gw].queue.len()
                ==> vstd::utf8::is_ascii_chars(self.gateways[gw].queue[i].1)
        &&& forall|k: KeyV| #[trigger] self.incoming.dom().contains(k) ==> self.incoming[k] >= 1
        &&& self.client_order.no_duplicates()
        &&& forall|k: KeyV| #[trigger] self.clients.dom().contains(k) <==> self.client_order.contains(k)
        &&& self.waiting.no_duplicates()
    }

    /// No stored time is after `now`, and no counter is above `b`.
    pub open spec fn bounded(self, now: u64, b: int) -> bool {
        &&& forall|k: KeyV| #[trigger] self.clients.dom().contains(k) ==> self.clients[k].0 <= now
        &&& forall|gw: Seq<u8>, i: int| #![trigger self.gateways[gw].timestamps[i]]
            self.gateways.dom().contains(gw) && 0 <= i < self.gateways[gw].timestamps.len()
                ==> self.gateways[gw].timestamps[i] <= now
        &&& forall|gw: Seq<u8>| #[trigger] self.gateways.dom().contains(gw)
            ==> self.gateways[gw].nonce <= b && self.gateways[gw].clients_count <= b
        &&& forall|gw: Seq<u8>| #[trigger] self.expiring.dom().contains(gw) ==> self.expiring[gw] <= now
        &&& forall|k: KeyV| #[trigger] self.outgoing.dom().contains(k) ==> self.outgoing[k] <= b
        &&& forall|k: KeyV| #[trigger] self.incoming.dom().contains(k) ==> self.incoming[k] <= b
    }

    /// Whether an operation at time `now` keeps every counter clear of overflow and
    /// finds no stored time after `now`: the counters, the number of clients and
    /// the number of awaited clients are at most [`COUNTER_LIMIT`].
    pub open spec fn admits(self, now: u64) -> bool {
        &&& self.bounded(now, COUNTER_LIMIT as int)
        &&& self.client_order.len() <= COUNTER_LIMIT
        &&& self.waiting.len() <= COUNTER_LIMIT
    }

    /// Each principal with a connection has the connection that it opened last,
    /// and it is registered with its sequence numbers; each registered client is
    /// the connection of its principal.
    pub open spec fn connections_consistent(self) -> bool {
        &&& forall|p: Seq<u8>| #[trigger] self.current_keys.dom().contains(p)
            ==> self.current_keys[p].0 == p && self.clients.dom().contains(self.current_keys[p])
        &&& forall|k: KeyV| #[trigger] self.clients.dom().contains(k) ==> {
            &&& self.current_keys.dom().contains(k.0)
            &&& self.current_keys[k.0] == k
            &&& self.outgoing.dom().contains(k)
            &&& self.incoming.dom().contains(k)
        }
    }

    /// Every gateway's queue holds messages of consecutive nonces up to its next one.
    pub open spec fn queues_contiguous(self) -> bool {
        forall|gw: Seq<u8>| #[trigger] self.gateways.dom().contains(gw) ==> queue_contiguous(gw, self.gateways[gw])
    }

    /// Every queued message is certified: its key maps to the SHA-256 of its bytes.
    pub open spec fn messages_certified(self) -> bool {
        forall|gw: Seq<u8>, i: int| #![trigger self.gateways[gw].queue[i]]
            self.gateways.dom().contains(gw) && 0 <= i < self.gateways[gw].queue.len() ==> {
                &&& self.cert.dom().contains(self.gateways[gw].queue[i].1)
                &&& self.cert[self.gateways[gw].queue[i].1] == sha256_of(self.gateways[gw].queue[i].2)
            }
    }

    /// Every registered gateway's principal has at most 29 bytes.
    pub open spec fn gateway_principals_fit(self) -> bool {
        forall|gw: Seq<u8>| #[trigger] self.gateways.dom().contains(gw) ==> gw.len() <= 29
    }

    /// Every gateway's queue and timestamps have the same length.
    pub open spec fn gateways_wf(self) -> bool {
        forall|gw: Seq<u8>| #[trigger] self.gateways.dom().contains(gw) ==> self.gateways[gw].wf()
    }

    /// The registered clients connected through the gateway `gw`.
    pub open spec fn clients_of(self, gw: Seq<u8>) -> Set<KeyV> {
        self.clients.dom().filter(|k: KeyV| self.clients[k].1 == gw)
    }

    /// Each registered client's gateway is registered and not among those left
    /// without clients, and each registered gateway counts exactly the clients
    /// connected through it.
    pub open spec fn gateways_tracked(self) -> bool {
        &&& self.clients.dom().finite()
        &&& forall|k: KeyV| #[trigger] self.clients.dom().contains(k) ==> {
            &&& self.gateways.dom().contains(self.clients[k].1)
            &&& !self.expiring.dom().contains(self.clients[k].1)
        }
        &&& forall|gw: Seq<u8>| #[trigger] self.gateways.dom().contains(gw)
            ==> self.gateways[gw].clients_count == self.clients_of(gw).len()
    }

    /// Every gateway's next nonce is at most `b`.
    pub open spec fn nonces_at_most(self, b: int) -> bool {
        forall|gw: Seq<u8>| #[trigger] self.gateways.dom().contains(gw) ==> self.gateways[gw].nonce <= b
    }

    /// The state with the gateway `gw` set to `g`.
    pub open spec fn set_gateway(self, gw: Seq<u8>, g: GatewayModel) -> WsModel {
        WsModel { gateways: self.gateways.insert(gw, g), ..self }
    }

    /// Removes the expired oldest messages of the registered gateway `gw`, at most
    /// [`MESSAGES_TO_DELETE_COUNT`] of them, from its queue and from the certification tree.
    pub open spec fn delete_old_messages(self, gw: Seq<u8>, now: u64) -> WsModel {
        let g = self.gateways[gw];
        let m = expired_prefix_len(g.timestamps, MESSAGES_TO_DELETE_COUNT as nat, self.ack_interval_ms, now) as int;
        WsModel {
            cert: self.cert.remove_keys(g.keys().take(m).to_set()),
            ..self.set_gateway(gw, GatewayModel { queue: g.queue.skip(m), timestamps: g.timestamps.skip(m), ..g })
        }
    }

    /// Sends `content` to the client `k`: the message gets the gateway's next nonce,
    /// the client's next sequence number and the time `now`; the expired oldest
    /// messages of the gateway are dropped; the message is certified under its key
    /// with the SHA-256 of its CBOR and queued for the gateway.
    pub open spec fn send(self, k: KeyV, content: Seq<u8>, is_service: bool, now: u64) -> (WsModel, Result<(), Seq<char>>) {
        if !self.clients.dom().contains(k) {
            (self, Err(client_key_not_connected_text(k)))
        } else {
            let gw = self.clients[k].1;
            if !self.gateways.dom().contains(gw) {
                (self, Err(gateway_not_registered_text(gw)))
            } else {
                let g = self.gateways[gw];
                let key = message_key(gw, g.nonce as nat);
                let s1 = self.set_gateway(gw, GatewayModel { nonce: (g.nonce + 1) as u64, ..g });
                if !s1.outgoing.dom().contains(k) {
                    (s1, Err(outgoing_not_initialized_text(k)))
                } else {
                    let seq = (s1.outgoing[k] + 1) as u64;
                    let bytes = cbor_websocket_message((k, seq, now, is_service, content));
                    let s2 = WsModel { outgoing: s1.outgoing.insert(k, seq), ..s1 }.delete_old_messages(gw, now);
                    let s3 = WsModel { cert: s2.cert.insert(key, sha256_of(bytes)), ..s2 };
                    let g3 = s3.gateways[gw];
                    (
                        s3.set_gateway(gw, GatewayModel { queue: g3.queue.push((k, key, bytes)), timestamps: g3.timestamps.push(now), ..g3 }),
                        Ok(()),
                    )
                }
            }
        }
    }

    /// Adds one client to the gateway `gw`, registering the gateway if it is new, and
    /// takes it off the gateways left without clients.
    pub open spec fn increment_gateway_clients_count(self, gw: Seq<u8>) -> WsModel {
        let g = if self.gateways.dom().contains(gw) { self.gateways[gw] } else { GatewayModel::fresh() };
        WsModel {
            expiring: self.expiring.remove(gw),
            ..self.set_gateway(gw, GatewayModel { clients_count: (g.clients_count + 1) as u64, ..g })
        }
    }

    /// Takes one client off the gateway `gw`, if it is registered; a gateway left
    /// without clients is marked with the time `now`.
    pub open spec fn decrement_gateway_clients_count(self, gw: Seq<u8>, now: u64) -> WsModel {
        if self.gateways.dom().contains(gw) {
            let g = self.gateways[gw];
            let c: u64 = if g.clients_count == 0 { 0 } else { (g.clients_count - 1) as u64 };
            let s1 = self.set_gateway(gw, GatewayModel { clients_count: c, ..g });
            if c == 0 {
                WsModel { expiring: s1.expiring.insert(gw, now), ..s1 }
            } else {
                s1
            }
        } else {
            self
        }
    }

    /// Registers the client `k` with metadata `c`, with fresh sequence numbers.
    pub open spec fn add_client(self, k: KeyV, c: ClientV) -> WsModel {
        WsModel {
            current_keys: self.current_keys.insert(k.0, k),
            clients: self.clients.insert(k, c),
            client_order: with_key(self.client_order, k),
            incoming: self.incoming.insert(k, INITIAL_CLIENT_SEQUENCE_NUM),
            outgoing: self.outgoing.insert(k, INITIAL_CANISTER_SEQUENCE_NUM),
            ..self
        }.increment_gateway_clients_count(c.1)
    }

    /// Forgets the client `k`; with a reason, a close message is sent to it first.
    /// A client that was registered is taken off its gateway and its `on_close` is due.
    pub open spec fn remove_client(self, k: KeyV, reason: Option<CloseMessageReason>, now: u64) -> WsModel {
        let s1 = match reason {
            Some(r) => self.send(k, candid_service_message(ServiceMessageV::Close(r)), true, now).0,
            None => self,
        };
        let s2 = WsModel {
            waiting: without_key(s1.waiting, k),
            current_keys: s1.current_keys.remove(k.0),
            outgoing: s1.outgoing.remove(k),
            incoming: s1.incoming.remove(k),
            ..s1
        };
        if s2.clients.dom().contains(k) {
            let gw = s2.clients[k].1;
            let s3 = WsModel { clients: s2.clients.remove(k), client_order: without_key(s2.client_order, k), ..s2 }
                .decrement_gateway_clients_count(gw, now);
            WsModel { callbacks: s3.callbacks.push(CallbackV::Close(k.0)), ..s3 }
        } else {
            s2
        }
    }

    /// Removes the clients of `keys`, in order, each with the same reason.
    pub open spec fn remove_clients(self, keys: Seq<KeyV>, reason: Option<CloseMessageReason>, now: u64) -> WsModel
        decreases keys.len(),
    {
        if keys.len() == 0 {
            self
        } else {
            self.remove_client(keys[0], reason, now).remove_clients(keys.drop_first(), reason, now)
        }
    }

    /// A client opens a connection with the nonce `nonce` through the gateway `gw`.
    pub open spec fn ws_open(self, caller: Seq<u8>, nonce: u64, gw: Seq<u8>, now: u64) -> (WsModel, Result<(), Seq<char>>) {
        let k = (caller, nonce);
        if caller == anonymous_bytes() {
            (self, Err(anonymous_principal_text()))
        } else if self.clients.dom().contains(k) {
            (self, Err(client_key_already_connected_text(k)))
        } else {
            let s1 = if self.current_keys.dom().contains(caller) {
                self.remove_client(self.current_keys[caller], None, now)
            } else {
                self
            };
            let s2 = s1.add_client(k, (now, gw));
            let (s3, r) = s2.send(k, candid_service_message(ServiceMessageV::Open(k)), true, now);
            match r {
                Ok(()) => (WsModel { callbacks: s3.callbacks.push(CallbackV::Open(caller)), ..s3 }, Ok(())),
                Err(e) => (s3, Err(e)),
            }
        }
    }

    /// The gateway `caller` closes the connection of the client `k`.
    pub open spec fn ws_close(self, caller: Seq<u8>, k: KeyV, now: u64) -> (WsModel, Result<(), Seq<char>>) {
        if !self.gateways.dom().contains(caller) {
            (self, Err(gateway_not_registered_text(caller)))
        } else if !self.clients.dom().contains(k) {
            (self, Err(client_key_not_connected_text(k)))
        } else if self.clients[k].1 != caller {
            (self, Err(client_not_registered_to_gateway_text(k, caller)))
        } else {
            (self.remove_client(k, None, now), Ok(()))
        }
    }

    /// The client `caller` sends the message `m`; `decoded` is what its content
    /// decodes to as a service message, or the decoding error.
    pub open spec fn ws_message(
        self,
        caller: Seq<u8>,
        m: MessageV,
        decoded: Option<Result<ServiceMessageV, Seq<char>>>,
        now: u64,
    ) -> (WsModel, Result<(), Seq<char>>) {
        let k = m.0;
        if !self.current_keys.dom().contains(caller) {
            (self, Err(client_principal_not_connected_text(caller)))
        } else if k != self.current_keys[caller] {
            (self, Err(client_key_message_mismatch_text(k)))
        } else if !self.incoming.dom().contains(k) {
            (self, Err(expected_incoming_not_initialized_text(k)))
        } else if m.1 != self.incoming[k] {
            (
                self.remove_client(k, Some(CloseMessageReason::WrongSequenceNumber), now),
                Err(incoming_sequence_number_wrong_text(self.incoming[k], m.1)),
            )
        } else {
            let s1 = WsModel { incoming: self.incoming.insert(k, (self.incoming[k] + 1) as u64), ..self };
            if m.3 {
                match decoded {
                    Some(Ok(ServiceMessageV::KeepAlive(_))) => (
                        if s1.clients.dom().contains(k) {
                            WsModel { clients: s1.clients.insert(k, (now, s1.clients[k].1)), ..s1 }
                        } else {
                            s1
                        },
                        Ok(()),
                    ),
                    Some(Ok(_)) => (s1, Err(invalid_service_message_text())),
                    Some(Err(e)) => (s1, Err(decode_service_message_content_text(e))),
                    None => (s1, Err(invalid_service_message_text())),
                }
            } else {
                (WsModel { callbacks: s1.callbacks.push(CallbackV::Message(caller, m.4)), ..s1 }, Ok(()))
            }
        }
    }

    /// The application sends `content` to the client with principal `p`.
    pub open spec fn send_to_principal(self, p: Seq<u8>, content: Seq<u8>, now: u64) -> (WsModel, Result<(), Seq<char>>) {
        if !self.current_keys.dom().contains(p) {
            (self, Err(client_principal_not_connected_text(p)))
        } else {
            self.send(self.current_keys[p], content, false, now)
        }
    }

    /// The application closes the connection of the client with principal `p`.
    pub open spec fn close(self, p: Seq<u8>, now: u64) -> (WsModel, Result<(), Seq<char>>) {
        if !self.current_keys.dom().contains(p) {
            (self, Err(client_principal_not_connected_text(p)))
        } else {
            (self.remove_client(self.current_keys[p], Some(CloseMessageReason::ClosedByApplication), now), Ok(()))
        }
    }

    /// Every client is forgotten, with its `on_close` due, and everything but the
    /// due handler calls is back to its initial value, the parameters to their defaults.
    pub open spec fn wipe(self) -> WsModel {
        WsModel {
            callbacks: self.callbacks + self.client_order.map_values(|k: KeyV| CallbackV::Close(k.0)),
            ..WsModel::initial(
                DEFAULT_MAX_NUMBER_OF_RETURNED_MESSAGES,
                DEFAULT_SEND_ACK_INTERVAL_MS,
                DEFAULT_CLIENT_KEEP_ALIVE_TIMEOUT_MS,
            )
        }
    }

    /// Sends an acknowledgement to each client of `keys`, in order, with the last
    /// sequence number received from it; each client reached is awaited for a keep alive.
    pub open spec fn send_acks(self, keys: Seq<KeyV>, now: u64) -> WsModel
        decreases keys.len(),
    {
        if keys.len() == 0 {
            self
        } else {
            let k = keys[0];
            let s1 = if self.incoming.dom().contains(k) {
                let (s, r) = self.send(k, candid_service_message(ServiceMessageV::Ack((self.incoming[k] - 1) as u64)), true, now);
                if r is Ok {
                    WsModel { waiting: with_key(s.waiting, k), ..s }
                } else {
                    s
                }
            } else {
                self
            };
            s1.send_acks(keys.drop_first(), now)
        }
    }

    /// The periodic acknowledgement to all registered clients.
    pub open spec fn send_ack_to_clients(self, now: u64) -> WsModel {
        self.send_acks(self.client_order, now)
    }

    /// The gateways that have been without clients for longer than the acknowledgement interval.
    pub open spec fn expired_gateways(self, now: u64) -> Set<Seq<u8>> {
        Set::new(|gw: Seq<u8>| self.expiring.dom().contains(gw) && is_expired(self.expiring[gw], self.ack_interval_ms, now))
    }

    /// Forgets the expired gateways, with their queues and their messages' certification.
    pub open spec fn remove_empty_expired_gateways(self, now: u64) -> WsModel {
        let expired = self.expired_gateways(now);
        WsModel {
            expiring: self.expiring.remove_keys(expired),
            gateways: self.gateways.remove_keys(expired),
            cert: self.cert.remove_keys(keys_of_gateways(self.gateways, expired)),
            ..self
        }
    }

    /// The awaited clients whose last keep alive is older than the keep-alive timeout.
    pub open spec fn timed_out_clients(self, now: u64) -> Seq<KeyV> {
        self.waiting.filter(self.timed_out(now))
    }

    /// Whether a client is registered and its last keep alive is older than the
    /// keep-alive timeout at `now`.
    pub open spec fn timed_out(self, now: u64) -> spec_fn(KeyV) -> bool {
        |k: KeyV| self.clients.dom().contains(k) && now - self.clients[k].0 > self.keep_alive_timeout_ms * 1_000_000
    }

    /// The keep-alive check: expired gateways are forgotten, then the awaited
    /// clients that timed out are closed.
    pub open spec fn check_keep_alive(self, now: u64) -> WsModel {
        let s = self.remove_empty_expired_gateways(now);
        s.remove_clients(s.timed_out_clients(now), Some(CloseMessageReason::KeepAliveTimeout), now)
    }

    /// The part of the queue of the registered gateway `gw` that a poll from
    /// `nonce` returns.
    pub open spec fn poll_range(self, gw: Seq<u8>, nonce: u64) -> PollRange {
        let q = self.gateways[gw];
        let start = first_not_before(q.keys(), message_key(gw, nonce as nat), 0) as int;
        if q.queue.len() - start > self.max_returned {
            PollRange { start, end: start + self.max_returned, is_end_of_queue: false }
        } else {
            PollRange { start, end: q.queue.len() as int, is_end_of_queue: true }
        }
    }

    /// The messages that the gateway `caller` gets when it polls from `nonce`.
    pub open spec fn polled_messages(self, caller: Seq<u8>, nonce: u64) -> Seq<OutputMessageV> {
        if !self.gateways.dom().contains(caller) {
            Seq::empty()
        } else {
            let r = self.poll_range(caller, nonce);
            self.gateways[caller].queue.subrange(r.start, r.end)
        }
    }

    /// Whether that poll reaches the end of the queue.
    pub open spec fn polled_to_end(self, caller: Seq<u8>, nonce: u64) -> bool {
        self.polled_messages(caller, nonce).len() == 0 || self.poll_range(caller, nonce).is_end_of_queue
    }
}

/// A bound that holds for the counters holds for every larger bound.
pub proof fn lemma_bounded_mono(s: WsModel, now: u64, b1: int, b2: int)
    requires
        s.bounded(now, b1),
        b1 <= b2,
    ensures
        s.bounded(now, b2),
{
}

/// A send changes no registration, raises the counters by at most one, and adds
/// no time after `now`.
pub proof fn lemma_send_frame(s: WsModel, k: KeyV, content: Seq<u8>, is_service: bool, now: u64, b: int)
    requires
        s.inv(),
        s.bounded(now, b),
    ensures
        ({
            let r = s.send(k, content, is_service, now).0;
            &&& r.bounded(now, b + 1)
            &&& r.clients == s.clients
            &&& r.client_order == s.client_order
            &&& r.current_keys == s.current_keys
            &&& r.waiting == s.waiting
            &&& r.incoming == s.incoming
            &&& r.expiring == s.expiring
            &&& r.callbacks == s.callbacks
            &&& r.max_returned == s.max_returned
            &&& r.ack_interval_ms == s.ack_interval_ms
            &&& r.keep_alive_timeout_ms == s.keep_alive_timeout_ms
            &&& r.outgoing.dom() == s.outgoing.dom()
            &&& r.gateways.dom() == s.gateways.dom()
        }),
{
    if s.clients.dom().contains(k) {
        let gw = s.clients[k].1;
        if s.gateways.dom().contains(gw) {
            let g = s.gateways[gw];
            let s1 = s.set_gateway(gw, GatewayModel { nonce: (g.nonce + 1) as u64, ..g });
            if s1.outgoing.dom().contains(k) {
                let seq = (s1.outgoing[k] + 1) as u64;
                let s2a = WsModel { outgoing: s1.outgoing.insert(k, seq), ..s1 };
                let s2 = s2a.delete_old_messages(gw, now);
                let m = expired_prefix_len(g.timestamps, MESSAGES_TO_DELETE_COUNT as nat, s.ack_interval_ms, now) as int;
                crate::gateway::lemma_expired_prefix_bounds(g.timestamps, 0, MESSAGES_TO_DELETE_COUNT as nat, s.ack_interval_ms, now);
                let r = s.send(k, content, is_service, now).0;
                assert(r.gateways.dom() =~= s.gateways.dom());
                assert(r.outgoing.dom() =~= s.outgoing.dom());
                assert forall|x: Seq<u8>, i: int| #![trigger r.gateways[x].timestamps[i]]
                    r.gateways.dom().contains(x) && 0 <= i < r.gateways[x].timestamps.len()
                    implies r.gateways[x].timestamps[i] <= now by {
                    if x == gw {
                        if i < r.gateways[x].timestamps.len() - 1 {
                            assert(r.gateways[x].timestamps[i] == g.timestamps[i + m]);
                        }
                    }
                }
            } else {
                let r = s.send(k, content, is_service, now).0;
                assert(r.gateways.dom() =~= s.gateways.dom());
            }
        }
    }
}

/// A send changes no registration and no sequence number but the client's last
/// outgoing one, and registers or forgets no gateway.
pub proof fn lemma_send_registrations(s: WsModel, k: KeyV, content: Seq<u8>, is_service: bool, now: u64)
    ensures
        ({
            let r = s.send(k, content, is_service, now).0;
            &&& r.clients == s.clients
            &&& r.client_order == s.client_order
            &&& r.current_keys == s.current_keys
            &&& r.waiting == s.waiting
            &&& r.incoming == s.incoming
            &&& r.expiring == s.expiring
            &&& r.callbacks == s.callbacks
            &&& r.max_returned == s.max_returned
            &&& r.ack_interval_ms == s.ack_interval_ms
            &&& r.keep_alive_timeout_ms == s.keep_alive_timeout_ms
            &&& r.outgoing.dom() == s.outgoing.dom()
            &&& r.gateways.dom() == s.gateways.dom()
        }),
{
    let r = s.send(k, content, is_service, now).0;
    if s.clients.dom().contains(k) && s.gateways.dom().contains(s.clients[k].1) {
        assert(r.gateways.dom() =~= s.gateways.dom());
        assert(r.outgoing.dom() =~= s.outgoing.dom());
    }
}

/// Removing a client raises the counters by at most one, adds no time after
/// `now`, and forgets exactly that client.
pub proof fn lemma_remove_client_frame(s: WsModel, k: KeyV, reason: Option<CloseMessageReason>, now: u64, b: int)
    requires
        s.inv(),
        s.bounded(now, b),
    ensures
        ({
            let r = s.remove_client(k, reason, now);
            &&& r.bounded(now, b + 1)
            &&& r.clients == s.clients.remove(k)
            &&& r.client_order == without_key(s.client_order, k)
            &&& r.incoming == s.incoming.remove(k)
            &&& r.waiting == without_key(s.waiting, k)
            &&& r.max_returned == s.max_returned
            &&& r.ack_interval_ms == s.ack_interval_ms
            &&& r.keep_alive_timeout_ms == s.keep_alive_timeout_ms
        }),
{
    let s1 = match reason {
        Some(rs) => s.send(k, candid_service_message(ServiceMessageV::Close(rs)), true, now).0,
        None => s,
    };
    match reason {
        Some(rs) => {
            lemma_send_frame(s, k, candid_service_message(ServiceMessageV::Close(rs)), true, now, b);
        },
        None => {
            lemma_bounded_mono(s, now, b, b + 1);
        },
    }
    let r = s.remove_client(k, reason, now);
    if !s1.clients.dom().contains(k) {
        assert(s1.clients.remove(k) =~= s1.clients);
        assert(!s1.client_order.contains(k));
    }
    assert(r.expiring.dom().subset_of(s1.expiring.dom().insert(s1.clients[k].1)));
}

/// Registering a client raises the counters by at most one and adds no time after
/// `now` when the client's time is `now`.
pub proof fn lemma_add_client_frame(s: WsModel, k: KeyV, c: ClientV, now: u64, b: int)
    requires
        s.bounded(now, b),
        c.0 <= now,
        b >= 1,
    ensures
        ({
            let r = s.add_client(k, c);
            &&& r.bounded(now, b + 1)
            &&& r.clients == s.clients.insert(k, c)
            &&& r.client_order == with_key(s.client_order, k)
            &&& r.incoming == s.incoming.insert(k, INITIAL_CLIENT_SEQUENCE_NUM)
            &&& r.outgoing == s.outgoing.insert(k, INITIAL_CANISTER_SEQUENCE_NUM)
            &&& r.current_keys == s.current_keys.insert(k.0, k)
            &&& r.waiting == s.waiting
            &&& r.callbacks == s.callbacks
            &&& r.max_returned == s.max_returned
            &&& r.ack_interval_ms == s.ack_interval_ms
            &&& r.keep_alive_timeout_ms == s.keep_alive_timeout_ms
        }),
{
}

} // verus!

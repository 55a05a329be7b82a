//! What holds of the library across its operations: the connections stay
//! consistent, sent messages are sequenced and certified, every client's gateway
//! stays registered with an exact count of its clients, clients that stop
//! answering are closed, and a poll returns a bounded slice of the queue.
use crate::encoding::{candid_service_message, cbor_websocket_message};
use crate::errors::incoming_sequence_number_wrong_text;
use crate::external::sha256_of;
use crate::{DEFAULT_CLIENT_KEEP_ALIVE_TIMEOUT_MS, DEFAULT_MAX_NUMBER_OF_RETURNED_MESSAGES, DEFAULT_SEND_ACK_INTERVAL_MS};
use crate::principal::anonymous_bytes;
use crate::external::principal_text;
use crate::text::{lemma_message_key_injective, lemma_message_key_order, message_key, seq_lt};
use crate::gateway::is_expired;
use crate::gateway::{expired_prefix_len, lemma_expired_prefix_bounds, lemma_expired_prefix_expired};
use crate::MESSAGES_TO_DELETE_COUNT;
use crate::gateway::GatewayModel;
use crate::model::{COUNTER_LIMIT, queue_contiguous, first_not_before, keys_of_gateways, lemma_first_not_before_bounds, lemma_send_registrations, with_key, without_key, WsModel};
use crate::types::{CallbackV, ClientV, CloseMessageReason, KeyV, MessageV, ServiceMessageV};
use vstd::prelude::*;

verus! {

/// Whether removing the client `k` leaves the other connections alone: it is
/// registered, or its principal has no connection.
pub open spec fn removable(s: WsModel, k: KeyV) -> bool {
    s.clients.dom().contains(k) || !s.current_keys.dom().contains(k.0)
}

/// Removing a client that is registered, or whose principal has no connection,
/// keeps the connections consistent, and keeps removable every key that was.
pub proof fn lemma_remove_client_consistent(s: WsModel, k: KeyV, reason: Option<CloseMessageReason>, now: u64)
    requires
        s.connections_consistent(),
        removable(s, k),
    ensures
        s.remove_client(k, reason, now).connections_consistent(),
        forall|k2: KeyV| removable(s, k2) ==> #[trigger] removable(s.remove_client(k, reason, now), k2),
        s.remove_client(k, reason, now).clients == s.clients.remove(k),
{
    let s1 = match reason {
        Some(r) => s.send(k, candid_service_message(ServiceMessageV::Close(r)), true, now).0,
        None => s,
    };
    match reason {
        Some(r) => lemma_send_registrations(s, k, candid_service_message(ServiceMessageV::Close(r)), true, now),
        None => {},
    }
    let r = s.remove_client(k, reason, now);
    if !s1.clients.dom().contains(k) {
        assert(s1.clients.remove(k) =~= s1.clients);
    }
    assert(r.clients == s.clients.remove(k));
    assert(r.current_keys == s.current_keys.remove(k.0));
    assert forall|p: Seq<u8>| #[trigger] r.current_keys.dom().contains(p)
        implies r.current_keys[p].0 == p && r.clients.dom().contains(r.current_keys[p]) by {
        assert(s.current_keys.dom().contains(p));
        assert(s.current_keys[p] != k);
    }
    assert forall|k2: KeyV| #[trigger] r.clients.dom().contains(k2) implies {
        &&& r.current_keys.dom().contains(k2.0)
        &&& r.current_keys[k2.0] == k2
        &&& r.outgoing.dom().contains(k2)
        &&& r.incoming.dom().contains(k2)
    } by {
        assert(s.clients.dom().contains(k2));
        assert(s.current_keys[k2.0] == k2);
        if k2.0 == k.0 {
            assert(s.current_keys.dom().contains(k.0));
            assert(s.clients.dom().contains(k));
            assert(s.current_keys[k.0] == k);
        }
    }
    assert forall|k2: KeyV| removable(s, k2) implies #[trigger] removable(r, k2) by {
        if s.clients.dom().contains(k2) && k2 != k {
            assert(r.clients.dom().contains(k2));
        }
    }
}

/// Removing, in order, clients that are each registered or without a connection
/// of their principal keeps the connections consistent and forgets exactly them.
pub proof fn lemma_remove_clients_consistent(s: WsModel, keys: Seq<KeyV>, reason: Option<CloseMessageReason>, now: u64)
    requires
        s.connections_consistent(),
        forall|i: int| 0 <= i < keys.len() ==> removable(s, #[trigger] keys[i]),
    ensures
        s.remove_clients(keys, reason, now).connections_consistent(),
        s.remove_clients(keys, reason, now).clients == s.clients.remove_keys(keys.to_set()),
    decreases keys.len(),
{
    if keys.len() == 0 {
        assert(s.clients.remove_keys(keys.to_set()) =~= s.clients);
    } else {
        let k = keys[0];
        lemma_remove_client_consistent(s, k, reason, now);
        let r = s.remove_client(k, reason, now);
        let rest = keys.drop_first();
        assert forall|i: int| 0 <= i < rest.len() implies removable(r, #[trigger] rest[i]) by {
            assert(rest[i] == keys[i + 1]);
            assert(removable(s, keys[i + 1]));
        }
        lemma_remove_clients_consistent(r, rest, reason, now);
        assert(keys.to_set() =~= rest.to_set().insert(k)) by {
            assert forall|x: KeyV| keys.to_set().contains(x) <==> #[trigger] rest.to_set().insert(k).contains(x) by {
                if keys.contains(x) && x != k {
                    let j = keys.index_of(x);
                    assert(rest[j - 1] == x);
                }
                if rest.contains(x) {
                    let j = rest.index_of(x);
                    assert(keys[j + 1] == x);
                }
                assert(keys[0] == k);
            }
        }
        assert(s.clients.remove(k).remove_keys(rest.to_set()) =~= s.clients.remove_keys(keys.to_set()));
    }
}

/// Registering a client whose principal has no connection keeps the connections
/// consistent.
pub proof fn lemma_add_client_consistent(s: WsModel, k: KeyV, c: ClientV)
    requires
        s.connections_consistent(),
        !s.current_keys.dom().contains(k.0),
    ensures
        s.add_client(k, c).connections_consistent(),
{
    let r = s.add_client(k, c);
    assert forall|k2: KeyV| #[trigger] r.clients.dom().contains(k2) implies {
        &&& r.current_keys.dom().contains(k2.0)
        &&& r.current_keys[k2.0] == k2
        &&& r.outgoing.dom().contains(k2)
        &&& r.incoming.dom().contains(k2)
    } by {
        if k2 != k {
            assert(s.clients.dom().contains(k2));
            assert(s.current_keys.dom().contains(k2.0));
        }
    }
}

/// The state before any operation has consistent connections, contiguous queues
/// and every queued message certified, having none.
pub proof fn lemma_initial_consistent(max_returned: usize, ack_interval_ms: u64, keep_alive_timeout_ms: u64)
    ensures
        WsModel::initial(max_returned, ack_interval_ms, keep_alive_timeout_ms).connections_consistent(),
        WsModel::initial(max_returned, ack_interval_ms, keep_alive_timeout_ms).queues_contiguous(),
        WsModel::initial(max_returned, ack_interval_ms, keep_alive_timeout_ms).messages_certified(),
        WsModel::initial(max_returned, ack_interval_ms, keep_alive_timeout_ms).gateway_principals_fit(),
{
}

/// Opening a connection keeps the connections consistent: the new connection
/// replaces the one that its principal had.
pub proof fn lemma_ws_open_consistent(s: WsModel, caller: Seq<u8>, nonce: u64, gw: Seq<u8>, now: u64)
    requires
        s.connections_consistent(),
    ensures
        s.ws_open(caller, nonce, gw, now).0.connections_consistent(),
{
    let k = (caller, nonce);
    if caller != crate::principal::anonymous_bytes() && !s.clients.dom().contains(k) {
        let s1 = if s.current_keys.dom().contains(caller) {
            s.remove_client(s.current_keys[caller], None, now)
        } else {
            s
        };
        if s.current_keys.dom().contains(caller) {
            lemma_remove_client_consistent(s, s.current_keys[caller], None, now);
        }
        lemma_add_client_consistent(s1, k, (now, gw));
        let s2 = s1.add_client(k, (now, gw));
        lemma_send_registrations(s2, k, candid_service_message(ServiceMessageV::Open(k)), true, now);
    }
}

/// A gateway closing a connection keeps the connections consistent.
pub proof fn lemma_ws_close_consistent(s: WsModel, caller: Seq<u8>, k: KeyV, now: u64)
    requires
        s.connections_consistent(),
    ensures
        s.ws_close(caller, k, now).0.connections_consistent(),
{
    if s.clients.dom().contains(k) {
        lemma_remove_client_consistent(s, k, None, now);
    }
}

/// A client's message keeps the connections consistent, whether it is accepted
/// or its wrong sequence number closes the connection.
pub proof fn lemma_ws_message_consistent(
    s: WsModel,
    caller: Seq<u8>,
    m: MessageV,
    decoded: Option<Result<ServiceMessageV, Seq<char>>>,
    now: u64,
)
    requires
        s.connections_consistent(),
    ensures
        s.ws_message(caller, m, decoded, now).0.connections_consistent(),
{
    let k = m.0;
    if s.current_keys.dom().contains(caller) && k == s.current_keys[caller] && s.incoming.dom().contains(k) {
        if m.1 != s.incoming[k] {
            lemma_remove_client_consistent(s, k, Some(CloseMessageReason::WrongSequenceNumber), now);
        } else {
            let r = s.ws_message(caller, m, decoded, now).0;
            assert(r.incoming.dom() =~= s.incoming.dom());
            assert(r.clients.dom() =~= s.clients.dom());
        }
    }
}

/// Sending to a principal keeps the connections consistent.
pub proof fn lemma_send_to_principal_consistent(s: WsModel, p: Seq<u8>, content: Seq<u8>, now: u64)
    requires
        s.connections_consistent(),
    ensures
        s.send_to_principal(p, content, now).0.connections_consistent(),
{
    if s.current_keys.dom().contains(p) {
        lemma_send_registrations(s, s.current_keys[p], content, false, now);
    }
}

/// The application closing a connection keeps the connections consistent.
pub proof fn lemma_close_consistent(s: WsModel, p: Seq<u8>, now: u64)
    requires
        s.connections_consistent(),
    ensures
        s.close(p, now).0.connections_consistent(),
{
    if s.current_keys.dom().contains(p) {
        lemma_remove_client_consistent(s, s.current_keys[p], Some(CloseMessageReason::ClosedByApplication), now);
    }
}

/// Wiping leaves no connection, so the connections are consistent.
pub proof fn lemma_wipe_consistent(s: WsModel)
    ensures
        s.wipe().connections_consistent(),
{
}

/// Acknowledging clients keeps the connections consistent.
pub proof fn lemma_send_acks_consistent(s: WsModel, keys: Seq<KeyV>, now: u64)
    requires
        s.connections_consistent(),
    ensures
        s.send_acks(keys, now).connections_consistent(),
    decreases keys.len(),
{
    if keys.len() > 0 {
        let k = keys[0];
        if s.incoming.dom().contains(k) {
            lemma_send_registrations(s, k, candid_service_message(ServiceMessageV::Ack((s.incoming[k] - 1) as u64)), true, now);
        }
        let s1 = if s.incoming.dom().contains(k) {
            let (s2, r) = s.send(k, candid_service_message(ServiceMessageV::Ack((s.incoming[k] - 1) as u64)), true, now);
            if r is Ok {
                WsModel { waiting: with_key(s2.waiting, k), ..s2 }
            } else {
                s2
            }
        } else {
            s
        };
        lemma_send_acks_consistent(s1, keys.drop_first(), now);
    }
}

/// The periodic acknowledgement keeps the connections consistent.
pub proof fn lemma_send_ack_to_clients_consistent(s: WsModel, now: u64)
    requires
        s.connections_consistent(),
    ensures
        s.send_ack_to_clients(now).connections_consistent(),
{
    lemma_send_acks_consistent(s, s.client_order, now);
}

/// The keep-alive check keeps the connections consistent.
pub proof fn lemma_check_keep_alive_consistent(s: WsModel, now: u64)
    requires
        s.connections_consistent(),
    ensures
        s.check_keep_alive(now).connections_consistent(),
{
    let s1 = s.remove_empty_expired_gateways(now);
    let keys = s1.timed_out_clients(now);
    assert forall|i: int| 0 <= i < keys.len() implies removable(s1, #[trigger] keys[i]) by {
        s1.waiting.lemma_filter_pred(s1.timed_out(now), i);
    }
    lemma_remove_clients_consistent(s1, keys, Some(CloseMessageReason::KeepAliveTimeout), now);
}

/// A send to a registered client whose gateway is registered succeeds: it gives
/// the message the client's next sequence number and the gateway's next nonce,
/// queues it last for the gateway under the key of that nonce, and certifies the
/// key with the SHA-256 of the message's bytes.
pub proof fn lemma_send_certifies(s: WsModel, k: KeyV, content: Seq<u8>, is_service: bool, now: u64)
    requires
        s.clients.dom().contains(k),
        s.gateways.dom().contains(s.clients[k].1),
        s.outgoing.dom().contains(k),
        s.gateways[s.clients[k].1].nonce < u64::MAX,
        s.outgoing[k] < u64::MAX,
    ensures
        ({
            let gw = s.clients[k].1;
            let (r, res) = s.send(k, content, is_service, now);
            let seq = (s.outgoing[k] + 1) as u64;
            let key = message_key(gw, s.gateways[gw].nonce as nat);
            let bytes = cbor_websocket_message((k, seq, now, is_service, content));
            &&& res is Ok
            &&& r.outgoing[k] == seq
            &&& r.gateways[gw].nonce == s.gateways[gw].nonce + 1
            &&& r.gateways[gw].queue.len() > 0
            &&& r.gateways[gw].queue.last() == (k, key, bytes)
            &&& r.cert.dom().contains(key)
            &&& r.cert[key] == sha256_of(bytes)
        }),
{
}

/// Opening a connection succeeds exactly when the caller is not anonymous and the
/// key is not registered yet. Then the client is registered through the gateway
/// as the connection of its principal, the open message is queued last for the
/// gateway with sequence number 1 and certified, and `on_open` is due last.
pub proof fn lemma_ws_open_result(s: WsModel, caller: Seq<u8>, nonce: u64, gw: Seq<u8>, now: u64)
    requires
        s.gateways.dom().contains(gw) ==> s.gateways[gw].nonce < u64::MAX,
    ensures
        ({
            let k = (caller, nonce);
            let (r, res) = s.ws_open(caller, nonce, gw, now);
            &&& res is Ok <==> caller != anonymous_bytes() && !s.clients.dom().contains(k)
            &&& res is Ok ==> {
                let bytes = cbor_websocket_message((k, 1, now, true, candid_service_message(ServiceMessageV::Open(k))));
                let key = r.gateways[gw].queue.last().1;
                &&& r.clients.dom().contains(k)
                &&& r.clients[k] == (now, gw)
                &&& r.current_keys[caller] == k
                &&& r.gateways.dom().contains(gw)
                &&& r.gateways[gw].queue.len() > 0
                &&& r.gateways[gw].queue.last() == (k, key, bytes)
                &&& r.cert[key] == sha256_of(bytes)
                &&& r.callbacks.last() == CallbackV::Open(caller)
            }
        }),
{
    let k = (caller, nonce);
    if caller != anonymous_bytes() && !s.clients.dom().contains(k) {
        let s1 = if s.current_keys.dom().contains(caller) {
            s.remove_client(s.current_keys[caller], None, now)
        } else {
            s
        };
        let s2 = s1.add_client(k, (now, gw));
        lemma_send_certifies(s2, k, candid_service_message(ServiceMessageV::Open(k)), true, now);
        lemma_send_registrations(s2, k, candid_service_message(ServiceMessageV::Open(k)), true, now);
    }
}

/// A message from the current connection of its principal is checked against the
/// sequence number expected from it. With another number the connection is
/// closed, with `on_close` due, and the error names both numbers. With that number
/// the next one is expected; an application message is handed to `on_message`, and
/// a service message is accepted exactly when it is a keep alive, which records
/// the time of the client's last keep alive.
pub proof fn lemma_ws_message_sequence(
    s: WsModel,
    caller: Seq<u8>,
    m: MessageV,
    decoded: Option<Result<ServiceMessageV, Seq<char>>>,
    now: u64,
)
    requires
        s.connections_consistent(),
        s.current_keys.dom().contains(caller),
        m.0 == s.current_keys[caller],
        s.incoming[m.0] < u64::MAX,
    ensures
        ({
            let k = m.0;
            let expected = s.incoming[k];
            let (r, res) = s.ws_message(caller, m, decoded, now);
            &&& m.1 != expected ==> {
                &&& res == Err::<(), Seq<char>>(incoming_sequence_number_wrong_text(expected, m.1))
                &&& !r.clients.dom().contains(k)
                &&& !r.current_keys.dom().contains(caller)
                &&& r.callbacks.last() == CallbackV::Close(caller)
            }
            &&& m.1 == expected ==> {
                &&& r.incoming[k] == expected + 1
                &&& r.clients.dom().contains(k)
                &&& !m.3 ==> res is Ok && r.callbacks.last() == CallbackV::Message(caller, m.4)
                &&& m.3 ==> (res is Ok <==> decoded matches Some(Ok(ServiceMessageV::KeepAlive(_))))
                &&& m.3 && res is Ok ==> r.clients[k].0 == now
            }
        }),
{
    let k = m.0;
    assert(s.clients.dom().contains(k));
    if m.1 != s.incoming[k] {
        lemma_remove_client_consistent(s, k, Some(CloseMessageReason::WrongSequenceNumber), now);
        lemma_send_registrations(s, k, candid_service_message(ServiceMessageV::Close(CloseMessageReason::WrongSequenceNumber)), true, now);
    }
}

/// An element is in a filtered sequence exactly when it is in the sequence and
/// satisfies the predicate.
proof fn lemma_filter_membership(s: Seq<KeyV>, p: spec_fn(KeyV) -> bool, x: KeyV)
    ensures
        s.filter(p).contains(x) <==> s.contains(x) && p(x),
{
    if s.filter(p).contains(x) {
        s.lemma_filter_contains_rev(p, x);
        let i = s.filter(p).index_of(x);
        s.lemma_filter_pred(p, i);
    }
    if s.contains(x) && p(x) {
        let i = s.index_of(x);
        s.lemma_filter_contains(p, i);
    }
}

/// Removing a client forgets exactly that client among the registered ones.
proof fn lemma_remove_client_clients(s: WsModel, k: KeyV, reason: Option<CloseMessageReason>, now: u64)
    ensures
        s.remove_client(k, reason, now).clients == s.clients.remove(k),
{
    match reason {
        Some(r) => lemma_send_registrations(s, k, candid_service_message(ServiceMessageV::Close(r)), true, now),
        None => {},
    }
    if !s.clients.dom().contains(k) {
        assert(s.clients.remove(k) =~= s.clients);
    }
}

/// Removing clients in order forgets exactly them among the registered ones.
proof fn lemma_remove_clients_clients(s: WsModel, keys: Seq<KeyV>, reason: Option<CloseMessageReason>, now: u64)
    ensures
        s.remove_clients(keys, reason, now).clients == s.clients.remove_keys(keys.to_set()),
    decreases keys.len(),
{
    if keys.len() == 0 {
        assert(s.clients.remove_keys(keys.to_set()) =~= s.clients);
    } else {
        let k = keys[0];
        let rest = keys.drop_first();
        lemma_remove_client_clients(s, k, reason, now);
        lemma_remove_clients_clients(s.remove_client(k, reason, now), rest, reason, now);
        assert(keys.to_set() =~= rest.to_set().insert(k)) by {
            assert forall|x: KeyV| keys.to_set().contains(x) <==> #[trigger] rest.to_set().insert(k).contains(x) by {
                if keys.contains(x) && x != k {
                    let j = keys.index_of(x);
                    assert(rest[j - 1] == x);
                }
                if rest.contains(x) {
                    let j = rest.index_of(x);
                    assert(keys[j + 1] == x);
                }
                assert(keys[0] == k);
            }
        }
        assert(s.clients.remove(k).remove_keys(rest.to_set()) =~= s.clients.remove_keys(keys.to_set()));
    }
}

/// The keep-alive check closes exactly the awaited clients whose last keep alive
/// is older than the keep-alive timeout; every other client stays as it was.
pub proof fn lemma_check_keep_alive_closes_timed_out(s: WsModel, now: u64)
    ensures
        forall|k: KeyV| #[trigger] s.check_keep_alive(now).clients.dom().contains(k) <==> {
            &&& s.clients.dom().contains(k)
            &&& !(s.waiting.contains(k) && now - s.clients[k].0 > s.keep_alive_timeout_ms * 1_000_000)
        },
        forall|k: KeyV| #[trigger] s.check_keep_alive(now).clients.dom().contains(k)
            ==> s.check_keep_alive(now).clients[k] == s.clients[k],
{
    let s1 = s.remove_empty_expired_gateways(now);
    let keys = s1.timed_out_clients(now);
    let reason = Some(CloseMessageReason::KeepAliveTimeout);
    lemma_remove_clients_clients(s1, keys, reason, now);
    let r = s.check_keep_alive(now);
    assert forall|k: KeyV| #[trigger] r.clients.dom().contains(k) <==> {
        &&& s.clients.dom().contains(k)
        &&& !(s.waiting.contains(k) && now - s.clients[k].0 > s.keep_alive_timeout_ms * 1_000_000)
    } by {
        lemma_filter_membership(s1.waiting, s1.timed_out(now), k);
    }
}

/// Whether a message can be sent to the client `k`: it is registered, its gateway
/// is registered, and its sequence numbers are initialized.
pub open spec fn sendable(s: WsModel, k: KeyV) -> bool {
    &&& s.clients.dom().contains(k)
    &&& s.gateways.dom().contains(s.clients[k].1)
    &&& s.outgoing.dom().contains(k)
    &&& s.incoming.dom().contains(k)
}

/// `with_key` keeps every key and adds `k`.
proof fn lemma_with_key_contains(s: Seq<KeyV>, k: KeyV, x: KeyV)
    ensures
        with_key(s, k).contains(x) <==> s.contains(x) || x == k,
{
    if !s.contains(k) {
        if s.contains(x) {
            let i = s.index_of(x);
            assert(s.push(k)[i] == x);
        }
        if x == k {
            assert(s.push(k)[s.len() as int] == k);
        }
        if s.push(k).contains(x) && x != k {
            let i = s.push(k).index_of(x);
            assert(s[i] == x);
        }
    }
}

/// Acknowledging the clients of `keys` awaits each of them that a message can be
/// sent to, keeps awaiting those that were awaited, and changes no registration.
proof fn lemma_send_acks_awaits(s: WsModel, keys: Seq<KeyV>, now: u64)
    ensures
        ({
            let r = s.send_acks(keys, now);
            &&& r.clients == s.clients
            &&& r.incoming == s.incoming
            &&& r.outgoing.dom() == s.outgoing.dom()
            &&& r.gateways.dom() == s.gateways.dom()
            &&& forall|k: KeyV| #[trigger] s.waiting.contains(k) ==> r.waiting.contains(k)
            &&& forall|k: KeyV| keys.contains(k) && sendable(s, k) ==> #[trigger] r.waiting.contains(k)
        }),
    decreases keys.len(),
{
    if keys.len() > 0 {
        let k0 = keys[0];
        let rest = keys.drop_first();
        let s1 = if s.incoming.dom().contains(k0) {
            let (s2, res) = s.send(k0, candid_service_message(ServiceMessageV::Ack((s.incoming[k0] - 1) as u64)), true, now);
            if res is Ok {
                WsModel { waiting: with_key(s2.waiting, k0), ..s2 }
            } else {
                s2
            }
        } else {
            s
        };
        if s.incoming.dom().contains(k0) {
            lemma_send_registrations(s, k0, candid_service_message(ServiceMessageV::Ack((s.incoming[k0] - 1) as u64)), true, now);
        }
        assert forall|k: KeyV| #[trigger] s.waiting.contains(k) implies s1.waiting.contains(k) by {
            lemma_with_key_contains(s.waiting, k0, k);
        }
        if sendable(s, k0) {
            lemma_with_key_contains(s.waiting, k0, k0);
            assert(s1.waiting.contains(k0));
        }
        lemma_send_acks_awaits(s1, rest, now);
        let r = s.send_acks(keys, now);
        assert forall|k: KeyV| keys.contains(k) && sendable(s, k) implies #[trigger] r.waiting.contains(k) by {
            if k != k0 {
                let j = keys.index_of(k);
                assert(rest[j - 1] == k);
                assert(sendable(s1, k));
            }
        }
    }
}

/// After the periodic acknowledgement, every registered client that a message
/// can be sent to is awaited for a keep alive, the awaited clients stay awaited,
/// and the registered clients stay as they were.
pub proof fn lemma_send_ack_to_clients_awaits(s: WsModel, now: u64)
    requires
        s.inv(),
    ensures
        ({
            let r = s.send_ack_to_clients(now);
            &&& r.clients == s.clients
            &&& forall|k: KeyV| #[trigger] s.waiting.contains(k) ==> r.waiting.contains(k)
            &&& forall|k: KeyV| sendable(s, k) ==> #[trigger] r.waiting.contains(k)
        }),
{
    lemma_send_acks_awaits(s, s.client_order, now);
}

/// [`first_not_before`] stops at the first key that does not come before
/// `smallest`: every key before it comes before `smallest`.
proof fn lemma_first_not_before_stops(keys: Seq<Seq<char>>, smallest: Seq<char>, i: nat)
    requires
        i <= keys.len(),
    ensures
        forall|j: int| i <= j < first_not_before(keys, smallest, i) ==> seq_lt(#[trigger] keys[j], smallest),
        first_not_before(keys, smallest, i) < keys.len() ==> !seq_lt(keys[first_not_before(keys, smallest, i) as int], smallest),
    decreases keys.len() - i,
{
    if i < keys.len() && seq_lt(keys[i as int], smallest) {
        lemma_first_not_before_stops(keys, smallest, i + 1);
    }
}

/// A poll of a registered gateway returns a contiguous part of its queue, in
/// order: it skips the messages whose keys come before the key of the requested
/// nonce, starts at the first one that does not, and returns at most the maximum
/// number of messages, exactly that many when it does not reach the end of the
/// queue. A caller that is not a registered gateway gets no message.
pub proof fn lemma_poll_slice(s: WsModel, gw: Seq<u8>, nonce: u64)
    ensures
        s.polled_messages(gw, nonce).len() <= s.max_returned,
        !s.gateways.dom().contains(gw) ==> s.polled_messages(gw, nonce).len() == 0 && s.polled_to_end(gw, nonce),
        s.gateways.dom().contains(gw) ==> {
            let q = s.gateways[gw];
            let r = s.poll_range(gw, nonce);
            let smallest = message_key(gw, nonce as nat);
            &&& 0 <= r.start <= r.end <= q.queue.len()
            &&& s.polled_messages(gw, nonce) == q.queue.subrange(r.start, r.end)
            &&& forall|j: int| 0 <= j < r.start ==> seq_lt(#[trigger] q.keys()[j], smallest)
            &&& r.start < q.queue.len() ==> !seq_lt(q.keys()[r.start], smallest)
            &&& !s.polled_to_end(gw, nonce) ==> s.polled_messages(gw, nonce).len() == s.max_returned
            &&& r.end < q.queue.len() ==> s.polled_messages(gw, nonce).len() == s.max_returned
            &&& s.polled_to_end(gw, nonce) <==> s.polled_messages(gw, nonce).len() == 0 || r.end == q.queue.len()
        },
{
    if s.gateways.dom().contains(gw) {
        let q = s.gateways[gw];
        let smallest = message_key(gw, nonce as nat);
        lemma_first_not_before_bounds(q.keys(), smallest, 0);
        lemma_first_not_before_stops(q.keys(), smallest, 0);
    }
}

/// Removing a client registers or forgets no gateway.
proof fn lemma_remove_client_gateways(s: WsModel, k: KeyV, reason: Option<CloseMessageReason>, now: u64)
    ensures
        s.remove_client(k, reason, now).gateways.dom() == s.gateways.dom(),
{
    let s1 = match reason {
        Some(r) => s.send(k, candid_service_message(ServiceMessageV::Close(r)), true, now).0,
        None => s,
    };
    match reason {
        Some(r) => lemma_send_registrations(s, k, candid_service_message(ServiceMessageV::Close(r)), true, now),
        None => {},
    }
    let r = s.remove_client(k, reason, now);
    if s1.clients.dom().contains(k) {
        let gw = s1.clients[k].1;
        if s1.gateways.dom().contains(gw) {
            assert(r.gateways.dom() =~= s1.gateways.dom());
        }
    }
}

/// Removing clients registers or forgets no gateway.
proof fn lemma_remove_clients_gateways(s: WsModel, keys: Seq<KeyV>, reason: Option<CloseMessageReason>, now: u64)
    ensures
        s.remove_clients(keys, reason, now).gateways.dom() == s.gateways.dom(),
    decreases keys.len(),
{
    if keys.len() > 0 {
        lemma_remove_client_gateways(s, keys[0], reason, now);
        lemma_remove_clients_gateways(s.remove_client(keys[0], reason, now), keys.drop_first(), reason, now);
    }
}

/// The keep-alive check forgets exactly the gateways that have been left without
/// clients for longer than the acknowledgement interval, and the certification
/// of the messages that they had queued.
pub proof fn lemma_check_keep_alive_forgets_expired_gateways(s: WsModel, now: u64)
    ensures
        forall|gw: Seq<u8>| #[trigger] s.check_keep_alive(now).gateways.dom().contains(gw) <==> {
            &&& s.gateways.dom().contains(gw)
            &&& !(s.expiring.dom().contains(gw) && now - s.expiring[gw] > s.ack_interval_ms * 1_000_000)
        },
        forall|key: Seq<char>| #[trigger] keys_of_gateways(s.gateways, s.expired_gateways(now)).contains(key)
            ==> !s.remove_empty_expired_gateways(now).cert.dom().contains(key),
{
    let s1 = s.remove_empty_expired_gateways(now);
    lemma_remove_clients_gateways(s1, s1.timed_out_clients(now), Some(CloseMessageReason::KeepAliveTimeout), now);
}

/// A gateway closes a connection exactly when it is registered and the client is
/// registered through it; the client is then forgotten, with `on_close` due.
pub proof fn lemma_ws_close_result(s: WsModel, caller: Seq<u8>, k: KeyV, now: u64)
    requires
        s.connections_consistent(),
    ensures
        ({
            let (r, res) = s.ws_close(caller, k, now);
            &&& res is Ok <==> {
                &&& s.gateways.dom().contains(caller)
                &&& s.clients.dom().contains(k)
                &&& s.clients[k].1 == caller
            }
            &&& res is Ok ==> {
                &&& !r.clients.dom().contains(k)
                &&& !r.current_keys.dom().contains(k.0)
                &&& r.gateways.dom().contains(caller)
                &&& r.callbacks == s.callbacks.push(CallbackV::Close(k.0))
            }
            &&& res is Err ==> r == s
        }),
{
    if s.gateways.dom().contains(caller) && s.clients.dom().contains(k) && s.clients[k].1 == caller {
        lemma_remove_client_consistent(s, k, None, now);
        lemma_remove_client_gateways(s, k, None, now);
        lemma_remove_client_callbacks_exact(s, k, None, now);
    }
}

/// The application closes the connection of a principal exactly when it has one;
/// the client is then forgotten, with `on_close` due, after a close message is
/// queued for it whenever a message can be sent to it.
pub proof fn lemma_close_result(s: WsModel, p: Seq<u8>, now: u64)
    requires
        s.connections_consistent(),
    ensures
        ({
            let (r, res) = s.close(p, now);
            &&& res is Ok <==> s.current_keys.dom().contains(p)
            &&& res is Ok ==> {
                let k = s.current_keys[p];
                let sent = s.send(k, candid_service_message(ServiceMessageV::Close(CloseMessageReason::ClosedByApplication)), true, now);
                &&& sendable(s, k) ==> sent.1 is Ok
                &&& !r.clients.dom().contains(k)
                &&& !r.current_keys.dom().contains(p)
                &&& r.callbacks == s.callbacks.push(CallbackV::Close(p))
                &&& r.gateways.dom() == s.gateways.dom()
            }
            &&& res is Err ==> r == s
        }),
{
    if s.current_keys.dom().contains(p) {
        let k = s.current_keys[p];
        lemma_remove_client_consistent(s, k, Some(CloseMessageReason::ClosedByApplication), now);
        lemma_remove_client_gateways(s, k, Some(CloseMessageReason::ClosedByApplication), now);
        lemma_send_registrations(s, k, candid_service_message(ServiceMessageV::Close(CloseMessageReason::ClosedByApplication)), true, now);
        lemma_remove_client_callbacks_exact(s, k, Some(CloseMessageReason::ClosedByApplication), now);
    }
}

/// Wiping forgets every client, gateway and certified message, asks for the
/// `on_close` of every registered client in the order of their registration, and
/// sets the parameters back to their defaults.
pub proof fn lemma_wipe_empties(s: WsModel)
    ensures
        ({
            let r = s.wipe();
            &&& r.clients.dom().is_empty()
            &&& r.current_keys.dom().is_empty()
            &&& r.gateways.dom().is_empty()
            &&& r.cert.dom().is_empty()
            &&& r.waiting.len() == 0
            &&& r.max_returned == DEFAULT_MAX_NUMBER_OF_RETURNED_MESSAGES
            &&& r.ack_interval_ms == DEFAULT_SEND_ACK_INTERVAL_MS
            &&& r.keep_alive_timeout_ms == DEFAULT_CLIENT_KEEP_ALIVE_TIMEOUT_MS
            &&& r.max_returned == 50 && r.ack_interval_ms == 300_000 && r.keep_alive_timeout_ms == 60_000
            &&& r.callbacks.len() == s.callbacks.len() + s.client_order.len()
            &&& forall|i: int| 0 <= i < s.client_order.len()
                ==> r.callbacks[s.callbacks.len() + i] == CallbackV::Close(#[trigger] s.client_order[i].0)
        }),
{
}

/// With consistent connections, a send keeps every queue contiguous and well
/// formed, and raises the next nonce of at most one gateway, by one.
pub proof fn lemma_send_contiguous(s: WsModel, k: KeyV, content: Seq<u8>, is_service: bool, now: u64, b: int)
    requires
        s.connections_consistent(),
        s.queues_contiguous(),
        s.gateways_wf(),
        s.nonces_at_most(b),
        b < u64::MAX,
    ensures
        ({
            let r = s.send(k, content, is_service, now).0;
            &&& r.queues_contiguous()
            &&& r.gateways_wf()
            &&& r.nonces_at_most(b + 1)
            &&& r.gateways.dom() == s.gateways.dom()
        }),
{
    let r = s.send(k, content, is_service, now).0;
    lemma_send_registrations(s, k, content, is_service, now);
    if s.clients.dom().contains(k) && s.gateways.dom().contains(s.clients[k].1) {
        let gw = s.clients[k].1;
        let g = s.gateways[gw];
        let m = expired_prefix_len(g.timestamps, MESSAGES_TO_DELETE_COUNT as nat, s.ack_interval_ms, now) as int;
        lemma_expired_prefix_bounds(g.timestamps, 0, MESSAGES_TO_DELETE_COUNT as nat, s.ack_interval_ms, now);
        assert(g.wf());
        assert(queue_contiguous(gw, g));
        assert(s.outgoing.dom().contains(k));
        {
            let rg = r.gateways[gw];
            let n = g.nonce;
            let l = g.queue.len();
            assert(rg.nonce == n + 1);
            assert(rg.queue.len() == l - m + 1);
            assert forall|i: int| 0 <= i < rg.queue.len()
                implies #[trigger] rg.queue[i].1 == message_key(gw, (rg.nonce - rg.queue.len() + i) as nat) by {
                if i < l - m {
                    assert(rg.queue[i] == g.queue[m + i]);
                    assert(g.queue[m + i].1 == message_key(gw, (n - l + m + i) as nat));
                }
            }
            assert(queue_contiguous(gw, rg));
            assert forall|x: Seq<u8>| #[trigger] r.gateways.dom().contains(x) implies queue_contiguous(x, r.gateways[x]) by {
                if x != gw {
                    assert(s.gateways.dom().contains(x));
                }
            }
            assert forall|x: Seq<u8>| #[trigger] r.gateways.dom().contains(x) implies r.gateways[x].wf() by {
                if x != gw {
                    assert(s.gateways.dom().contains(x));
                }
            }
            assert forall|x: Seq<u8>| #[trigger] r.gateways.dom().contains(x) implies r.gateways[x].nonce <= b + 1 by {
                if x != gw {
                    assert(s.gateways.dom().contains(x));
                }
            }
        }
    }
}

/// With consistent connections, removing a client keeps every queue contiguous
/// and well formed, and raises the next nonce of at most one gateway, by one.
proof fn lemma_remove_client_contiguous(s: WsModel, k: KeyV, reason: Option<CloseMessageReason>, now: u64, b: int)
    requires
        s.connections_consistent(),
        s.queues_contiguous(),
        s.gateways_wf(),
        s.nonces_at_most(b),
        b < u64::MAX,
    ensures
        ({
            let r = s.remove_client(k, reason, now);
            &&& r.queues_contiguous()
            &&& r.gateways_wf()
            &&& r.nonces_at_most(b + 1)
        }),
{
    let s1 = match reason {
        Some(rs) => s.send(k, candid_service_message(ServiceMessageV::Close(rs)), true, now).0,
        None => s,
    };
    match reason {
        Some(rs) => lemma_send_contiguous(s, k, candid_service_message(ServiceMessageV::Close(rs)), true, now, b),
        None => {},
    }
    lemma_remove_client_gateways(s, k, reason, now);
    let r = s.remove_client(k, reason, now);
    assert forall|x: Seq<u8>| #[trigger] r.gateways.dom().contains(x) implies {
        &&& queue_contiguous(x, r.gateways[x])
        &&& r.gateways[x].wf()
        &&& r.gateways[x].nonce <= b + 1
    } by {
        assert(s1.gateways.dom().contains(x));
        assert(r.gateways[x].queue == s1.gateways[x].queue);
        assert(r.gateways[x].timestamps == s1.gateways[x].timestamps);
        assert(r.gateways[x].nonce == s1.gateways[x].nonce);
    }
}

/// With consistent connections, removing clients that are each registered or
/// without a connection of their principal keeps every queue contiguous and well
/// formed, raising next nonces by at most the number of clients.
proof fn lemma_remove_clients_contiguous(s: WsModel, keys: Seq<KeyV>, reason: Option<CloseMessageReason>, now: u64, b: int)
    requires
        s.connections_consistent(),
        forall|i: int| 0 <= i < keys.len() ==> removable(s, #[trigger] keys[i]),
        s.queues_contiguous(),
        s.gateways_wf(),
        s.nonces_at_most(b),
        b + keys.len() < u64::MAX,
    ensures
        ({
            let r = s.remove_clients(keys, reason, now);
            &&& r.queues_contiguous()
            &&& r.gateways_wf()
            &&& r.nonces_at_most(b + keys.len())
        }),
    decreases keys.len(),
{
    if keys.len() > 0 {
        let k = keys[0];
        lemma_remove_client_consistent(s, k, reason, now);
        lemma_remove_client_contiguous(s, k, reason, now, b);
        let r = s.remove_client(k, reason, now);
        let rest = keys.drop_first();
        assert forall|i: int| 0 <= i < rest.len() implies removable(r, #[trigger] rest[i]) by {
            assert(rest[i] == keys[i + 1]);
            assert(removable(s, keys[i + 1]));
        }
        lemma_remove_clients_contiguous(r, rest, reason, now, b + 1);
    }
}

/// Registering a client keeps every queue contiguous and well formed: a new
/// gateway starts with an empty queue and nonce 0.
proof fn lemma_add_client_contiguous(s: WsModel, k: KeyV, c: ClientV, b: int)
    requires
        s.queues_contiguous(),
        s.gateways_wf(),
        s.nonces_at_most(b),
        b >= 0,
    ensures
        ({
            let r = s.add_client(k, c);
            &&& r.queues_contiguous()
            &&& r.gateways_wf()
            &&& r.nonces_at_most(b)
        }),
{
    let r = s.add_client(k, c);
    assert forall|x: Seq<u8>| #[trigger] r.gateways.dom().contains(x) implies {
        &&& queue_contiguous(x, r.gateways[x])
        &&& r.gateways[x].wf()
        &&& r.gateways[x].nonce <= b
    } by {
        if s.gateways.dom().contains(x) {
            assert(queue_contiguous(x, s.gateways[x]));
        }
    }
}

/// Acknowledging clients, with consistent connections, keeps every queue
/// contiguous and well formed, raising next nonces by at most the number of clients.
proof fn lemma_send_acks_contiguous(s: WsModel, keys: Seq<KeyV>, now: u64, b: int)
    requires
        s.connections_consistent(),
        s.queues_contiguous(),
        s.gateways_wf(),
        s.nonces_at_most(b),
        b + keys.len() < u64::MAX,
    ensures
        ({
            let r = s.send_acks(keys, now);
            &&& r.queues_contiguous()
            &&& r.gateways_wf()
            &&& r.nonces_at_most(b + keys.len())
        }),
    decreases keys.len(),
{
    if keys.len() > 0 {
        let k = keys[0];
        let s1 = if s.incoming.dom().contains(k) {
            let (s2, res) = s.send(k, candid_service_message(ServiceMessageV::Ack((s.incoming[k] - 1) as u64)), true, now);
            if res is Ok {
                WsModel { waiting: with_key(s2.waiting, k), ..s2 }
            } else {
                s2
            }
        } else {
            s
        };
        if s.incoming.dom().contains(k) {
            let content = candid_service_message(ServiceMessageV::Ack((s.incoming[k] - 1) as u64));
            lemma_send_contiguous(s, k, content, true, now, b);
            lemma_send_registrations(s, k, content, true, now);
        } else {
            assert(s1.nonces_at_most(b + 1));
        }
        lemma_send_acks_contiguous(s1, keys.drop_first(), now, b + 1);
    }
}

/// Opening a connection keeps every queue contiguous.
pub proof fn lemma_ws_open_contiguous(s: WsModel, caller: Seq<u8>, nonce: u64, gw: Seq<u8>, now: u64)
    requires
        s.inv(),
        s.admits(now),
        s.connections_consistent(),
        s.queues_contiguous(),
    ensures
        s.ws_open(caller, nonce, gw, now).0.queues_contiguous(),
{
    let k = (caller, nonce);
    let b = COUNTER_LIMIT as int;
    if caller != anonymous_bytes() && !s.clients.dom().contains(k) {
        let s1 = if s.current_keys.dom().contains(caller) {
            s.remove_client(s.current_keys[caller], None, now)
        } else {
            s
        };
        if s.current_keys.dom().contains(caller) {
            lemma_remove_client_consistent(s, s.current_keys[caller], None, now);
            lemma_remove_client_contiguous(s, s.current_keys[caller], None, now, b);
        } else {
            assert(s1.nonces_at_most(b + 1));
        }
        lemma_add_client_consistent(s1, k, (now, gw));
        lemma_add_client_contiguous(s1, k, (now, gw), b + 1);
        let s2 = s1.add_client(k, (now, gw));
        lemma_send_contiguous(s2, k, candid_service_message(ServiceMessageV::Open(k)), true, now, b + 1);
    }
}

/// A gateway closing a connection keeps every queue contiguous.
pub proof fn lemma_ws_close_contiguous(s: WsModel, caller: Seq<u8>, k: KeyV, now: u64)
    requires
        s.inv(),
        s.admits(now),
        s.connections_consistent(),
        s.queues_contiguous(),
    ensures
        s.ws_close(caller, k, now).0.queues_contiguous(),
{
    lemma_remove_client_contiguous(s, k, None, now, COUNTER_LIMIT as int);
}

/// A client's message keeps every queue contiguous.
pub proof fn lemma_ws_message_contiguous(
    s: WsModel,
    caller: Seq<u8>,
    m: MessageV,
    decoded: Option<Result<ServiceMessageV, Seq<char>>>,
    now: u64,
)
    requires
        s.inv(),
        s.admits(now),
        s.connections_consistent(),
        s.queues_contiguous(),
    ensures
        s.ws_message(caller, m, decoded, now).0.queues_contiguous(),
{
    lemma_remove_client_contiguous(s, m.0, Some(CloseMessageReason::WrongSequenceNumber), now, COUNTER_LIMIT as int);
}

/// Sending to a principal keeps every queue contiguous.
pub proof fn lemma_send_to_principal_contiguous(s: WsModel, p: Seq<u8>, content: Seq<u8>, now: u64)
    requires
        s.inv(),
        s.admits(now),
        s.connections_consistent(),
        s.queues_contiguous(),
    ensures
        s.send_to_principal(p, content, now).0.queues_contiguous(),
{
    if s.current_keys.dom().contains(p) {
        lemma_send_contiguous(s, s.current_keys[p], content, false, now, COUNTER_LIMIT as int);
    }
}

/// The application closing a connection keeps every queue contiguous.
pub proof fn lemma_close_contiguous(s: WsModel, p: Seq<u8>, now: u64)
    requires
        s.inv(),
        s.admits(now),
        s.connections_consistent(),
        s.queues_contiguous(),
    ensures
        s.close(p, now).0.queues_contiguous(),
{
    if s.current_keys.dom().contains(p) {
        lemma_remove_client_contiguous(s, s.current_keys[p], Some(CloseMessageReason::ClosedByApplication), now, COUNTER_LIMIT as int);
    }
}

/// The periodic acknowledgement keeps every queue contiguous.
pub proof fn lemma_send_ack_to_clients_contiguous(s: WsModel, now: u64)
    requires
        s.inv(),
        s.admits(now),
        s.connections_consistent(),
        s.queues_contiguous(),
    ensures
        s.send_ack_to_clients(now).queues_contiguous(),
{
    lemma_send_acks_contiguous(s, s.client_order, now, COUNTER_LIMIT as int);
}

/// The keep-alive check keeps every queue contiguous.
pub proof fn lemma_check_keep_alive_contiguous(s: WsModel, now: u64)
    requires
        s.inv(),
        s.admits(now),
        s.connections_consistent(),
        s.queues_contiguous(),
    ensures
        s.check_keep_alive(now).queues_contiguous(),
{
    let s1 = s.remove_empty_expired_gateways(now);
    let keys = s1.timed_out_clients(now);
    assert forall|i: int| 0 <= i < keys.len() implies removable(s1, #[trigger] keys[i]) by {
        s1.waiting.lemma_filter_pred(s1.timed_out(now), i);
    }
    s1.waiting.lemma_filter_len(s1.timed_out(now));
    assert(s1.queues_contiguous() && s1.gateways_wf() && s1.nonces_at_most(COUNTER_LIMIT as int)) by {
        assert forall|gw: Seq<u8>| #[trigger] s1.gateways.dom().contains(gw) implies s.gateways.dom().contains(gw) by {}
    }
    lemma_remove_clients_contiguous(s1, keys, Some(CloseMessageReason::KeepAliveTimeout), now, COUNTER_LIMIT as int);
}

/// Wiping leaves no gateway, so every queue is contiguous.
pub proof fn lemma_wipe_contiguous(s: WsModel)
    ensures
        s.wipe().queues_contiguous(),
{
}

/// When exactly the keys before position `t` come before `smallest`,
/// [`first_not_before`] from `i` finds `t`, kept between `i` and the length.
proof fn lemma_first_not_before_value(keys: Seq<Seq<char>>, smallest: Seq<char>, i: nat, t: int)
    requires
        i <= keys.len(),
        forall|j: int| 0 <= j < keys.len() ==> (seq_lt(#[trigger] keys[j], smallest) <==> j < t),
    ensures
        first_not_before(keys, smallest, i) == (if t <= i { i as int } else if t >= keys.len() { keys.len() as int } else { t }),
    decreases keys.len() - i,
{
    if i < keys.len() && seq_lt(keys[i as int], smallest) {
        lemma_first_not_before_value(keys, smallest, i + 1, t);
    }
}

/// With contiguous queues, a poll from `nonce` returns, in order, the queued
/// messages whose nonces are `nonce` and on (from the oldest queued one when
/// `nonce` is older), at most the maximum number of them; it reaches the end of
/// the queue when that is all of them, or when the maximum is 0 and it returns none.
pub proof fn lemma_poll_from_nonce(s: WsModel, gw: Seq<u8>, nonce: u64)
    requires
        s.queues_contiguous(),
        s.gateways.dom().contains(gw),
    ensures
        ({
            let g = s.gateways[gw];
            let oldest = g.nonce - g.queue.len();
            let first = if nonce <= oldest { oldest } else { nonce as int };
            let available = if first >= g.nonce { 0 } else { g.nonce - first };
            let msgs = s.polled_messages(gw, nonce);
            &&& msgs.len() == (if available > s.max_returned { s.max_returned as int } else { available })
            &&& forall|j: int| 0 <= j < msgs.len() ==> #[trigger] msgs[j].1 == message_key(gw, (first + j) as nat)
            &&& s.polled_to_end(gw, nonce) == (available <= s.max_returned || s.max_returned == 0)
        }),
{
    let g = s.gateways[gw];
    let keys = g.keys();
    let l = g.queue.len() as int;
    let oldest = g.nonce - l;
    let smallest = message_key(gw, nonce as nat);
    assert(queue_contiguous(gw, g));
    let t = nonce - oldest;
    assert forall|j: int| 0 <= j < keys.len() implies (seq_lt(#[trigger] keys[j], smallest) <==> j < t) by {
        assert(keys[j] == g.queue[j].1);
        assert(g.queue[j].1 == message_key(gw, (oldest + j) as nat));
        lemma_message_key_order(gw, (oldest + j) as u64, nonce);
    }
    lemma_first_not_before_value(keys, smallest, 0, t);
    lemma_poll_slice(s, gw, nonce);
    let msgs = s.polled_messages(gw, nonce);
    let r = s.poll_range(gw, nonce);
    let first = if nonce <= oldest { oldest } else { nonce as int };
    assert forall|j: int| 0 <= j < msgs.len() implies #[trigger] msgs[j].1 == message_key(gw, (first + j) as nat) by {
        assert(msgs[j] == g.queue[r.start + j]);
        assert(g.queue[r.start + j].1 == message_key(gw, (oldest + r.start + j) as nat));
    }
}

/// Principals of at most 29 bytes with the same text are the same principal, as
/// the textual form of a principal holds its bytes.
pub open spec fn principal_texts_distinct() -> bool {
    forall|a: Seq<u8>, b: Seq<u8>|
        a.len() <= 29 && b.len() <= 29 && #[trigger] principal_text(a) == #[trigger] principal_text(b) ==> a == b
}

/// Messages queued for different gateways have different keys.
proof fn lemma_keys_of_different_gateways(a: Seq<u8>, b: Seq<u8>, n: nat, m: nat)
    requires
        principal_texts_distinct(),
        a.len() <= 29,
        b.len() <= 29,
        a != b,
        n <= u64::MAX,
        m <= u64::MAX,
    ensures
        message_key(a, n) != message_key(b, m),
{
    if message_key(a, n) == message_key(b, m) {
        lemma_message_key_injective(a, b, n as u64, m as u64);
    }
}

/// With consistent connections, contiguous queues and distinct principal texts,
/// a send keeps every queued message certified.
proof fn lemma_send_certified(s: WsModel, k: KeyV, content: Seq<u8>, is_service: bool, now: u64, b: int)
    requires
        principal_texts_distinct(),
        s.connections_consistent(),
        s.queues_contiguous(),
        s.gateways_wf(),
        s.nonces_at_most(b),
        b < u64::MAX,
        s.messages_certified(),
        s.gateway_principals_fit(),
    ensures
        s.send(k, content, is_service, now).0.messages_certified(),
        s.send(k, content, is_service, now).0.gateway_principals_fit(),
{
    let r = s.send(k, content, is_service, now).0;
    lemma_send_registrations(s, k, content, is_service, now);
    lemma_send_contiguous(s, k, content, is_service, now, b);
    if s.clients.dom().contains(k) && s.gateways.dom().contains(s.clients[k].1) {
        let gw = s.clients[k].1;
        let g = s.gateways[gw];
        let n = g.nonce;
        let l = g.queue.len() as int;
        let m = expired_prefix_len(g.timestamps, MESSAGES_TO_DELETE_COUNT as nat, s.ack_interval_ms, now) as int;
        lemma_expired_prefix_bounds(g.timestamps, 0, MESSAGES_TO_DELETE_COUNT as nat, s.ack_interval_ms, now);
        assert(g.wf());
        assert(queue_contiguous(gw, g));
        assert(s.outgoing.dom().contains(k));
        let deleted = g.keys().take(m).to_set();
        let key = message_key(gw, n as nat);
        assert forall|x: Seq<u8>, i: int| #![trigger r.gateways[x].queue[i]]
            r.gateways.dom().contains(x) && 0 <= i < r.gateways[x].queue.len() implies {
                &&& r.cert.dom().contains(r.gateways[x].queue[i].1)
                &&& r.cert[r.gateways[x].queue[i].1] == sha256_of(r.gateways[x].queue[i].2)
            } by {
            assert(s.gateways.dom().contains(x));
            if x == gw {
                if i < l - m {
                    let q = g.queue[m + i];
                    assert(r.gateways[x].queue[i] == q);
                    assert(q.1 == message_key(gw, (n - l + m + i) as nat));
                    assert(s.cert.dom().contains(q.1) && s.cert[q.1] == sha256_of(q.2));
                    if deleted.contains(q.1) {
                        let j = g.keys().take(m).index_of(q.1);
                        assert(g.keys().take(m)[j] == q.1);
                        assert(g.keys()[j] == g.queue[j].1);
                        assert(g.queue[j].1 == message_key(gw, (n - l + j) as nat));
                        lemma_message_key_order(gw, (n - l + m + i) as u64, (n - l + j) as u64);
                    }
                    lemma_message_key_order(gw, (n - l + m + i) as u64, n);
                }
            } else {
                let q = s.gateways[x].queue[i];
                assert(r.gateways[x].queue[i] == q);
                assert(queue_contiguous(x, s.gateways[x]));
                let nx = s.gateways[x].nonce - s.gateways[x].queue.len() + i;
                assert(q.1 == message_key(x, nx as nat));
                assert(s.cert.dom().contains(q.1) && s.cert[q.1] == sha256_of(q.2));
                if deleted.contains(q.1) {
                    let j = g.keys().take(m).index_of(q.1);
                    assert(g.keys().take(m)[j] == q.1);
                    assert(g.keys()[j] == g.queue[j].1);
                    assert(g.queue[j].1 == message_key(gw, (n - l + j) as nat));
                    lemma_keys_of_different_gateways(x, gw, nx as nat, (n - l + j) as nat);
                }
                lemma_keys_of_different_gateways(x, gw, nx as nat, n as nat);
            }
        }
    }
}

/// Everything the certification of queued messages rests on, with a bound `b` on
/// the gateways' next nonces.
pub open spec fn certification_kept(s: WsModel, b: int) -> bool {
    &&& s.connections_consistent()
    &&& s.queues_contiguous()
    &&& s.gateways_wf()
    &&& s.nonces_at_most(b)
    &&& s.messages_certified()
    &&& s.gateway_principals_fit()
}

/// Removing a client keeps every queued message certified.
proof fn lemma_remove_client_certified(s: WsModel, k: KeyV, reason: Option<CloseMessageReason>, now: u64, b: int)
    requires
        principal_texts_distinct(),
        certification_kept(s, b),
        b < u64::MAX,
        removable(s, k),
    ensures
        certification_kept(s.remove_client(k, reason, now), b + 1),
        forall|k2: KeyV| removable(s, k2) ==> #[trigger] removable(s.remove_client(k, reason, now), k2),
{
    let s1 = match reason {
        Some(rs) => s.send(k, candid_service_message(ServiceMessageV::Close(rs)), true, now).0,
        None => s,
    };
    match reason {
        Some(rs) => lemma_send_certified(s, k, candid_service_message(ServiceMessageV::Close(rs)), true, now, b),
        None => {},
    }
    lemma_remove_client_consistent(s, k, reason, now);
    lemma_remove_client_contiguous(s, k, reason, now, b);
    lemma_remove_client_gateways(s, k, reason, now);
    let r = s.remove_client(k, reason, now);
    assert(r.cert == s1.cert);
    assert forall|x: Seq<u8>, i: int| #![trigger r.gateways[x].queue[i]]
        r.gateways.dom().contains(x) && 0 <= i < r.gateways[x].queue.len() implies {
            &&& r.cert.dom().contains(r.gateways[x].queue[i].1)
            &&& r.cert[r.gateways[x].queue[i].1] == sha256_of(r.gateways[x].queue[i].2)
        } by {
        assert(s1.gateways.dom().contains(x));
        assert(r.gateways[x].queue == s1.gateways[x].queue);
        assert(s1.gateways[x].queue[i] == r.gateways[x].queue[i]);
    }
    assert forall|x: Seq<u8>| #[trigger] r.gateways.dom().contains(x) implies x.len() <= 29 by {
        assert(s1.gateways.dom().contains(x));
    }
}

/// Removing clients that are each registered or without a connection of their
/// principal keeps every queued message certified.
proof fn lemma_remove_clients_certified(s: WsModel, keys: Seq<KeyV>, reason: Option<CloseMessageReason>, now: u64, b: int)
    requires
        principal_texts_distinct(),
        certification_kept(s, b),
        forall|i: int| 0 <= i < keys.len() ==> removable(s, #[trigger] keys[i]),
        b + keys.len() < u64::MAX,
    ensures
        certification_kept(s.remove_clients(keys, reason, now), b + keys.len()),
    decreases keys.len(),
{
    if keys.len() > 0 {
        let k = keys[0];
        lemma_remove_client_certified(s, k, reason, now, b);
        let r = s.remove_client(k, reason, now);
        let rest = keys.drop_first();
        assert forall|i: int| 0 <= i < rest.len() implies removable(r, #[trigger] rest[i]) by {
            assert(rest[i] == keys[i + 1]);
            assert(removable(s, keys[i + 1]));
        }
        lemma_remove_clients_certified(r, rest, reason, now, b + 1);
    }
}

/// Registering a client through a gateway whose principal has at most 29 bytes,
/// when its principal has no connection, keeps every queued message certified.
proof fn lemma_add_client_certified(s: WsModel, k: KeyV, c: ClientV, b: int)
    requires
        certification_kept(s, b),
        b >= 0,
        !s.current_keys.dom().contains(k.0),
        c.1.len() <= 29,
    ensures
        certification_kept(s.add_client(k, c), b),
{
    lemma_add_client_consistent(s, k, c);
    lemma_add_client_contiguous(s, k, c, b);
    let r = s.add_client(k, c);
    assert forall|x: Seq<u8>, i: int| #![trigger r.gateways[x].queue[i]]
        r.gateways.dom().contains(x) && 0 <= i < r.gateways[x].queue.len() implies {
            &&& r.cert.dom().contains(r.gateways[x].queue[i].1)
            &&& r.cert[r.gateways[x].queue[i].1] == sha256_of(r.gateways[x].queue[i].2)
        } by {
        assert(s.gateways.dom().contains(x));
        assert(r.gateways[x].queue[i] == s.gateways[x].queue[i]);
    }
}

/// Acknowledging clients keeps every queued message certified.
proof fn lemma_send_acks_certified(s: WsModel, keys: Seq<KeyV>, now: u64, b: int)
    requires
        principal_texts_distinct(),
        certification_kept(s, b),
        b + keys.len() < u64::MAX,
    ensures
        certification_kept(s.send_acks(keys, now), b + keys.len()),
    decreases keys.len(),
{
    if keys.len() > 0 {
        let k = keys[0];
        let s1 = if s.incoming.dom().contains(k) {
            let (s2, res) = s.send(k, candid_service_message(ServiceMessageV::Ack((s.incoming[k] - 1) as u64)), true, now);
            if res is Ok {
                WsModel { waiting: with_key(s2.waiting, k), ..s2 }
            } else {
                s2
            }
        } else {
            s
        };
        if s.incoming.dom().contains(k) {
            let content = candid_service_message(ServiceMessageV::Ack((s.incoming[k] - 1) as u64));
            lemma_send_contiguous(s, k, content, true, now, b);
            lemma_send_certified(s, k, content, true, now, b);
            lemma_send_registrations(s, k, content, true, now);
        } else {
            assert(s1.nonces_at_most(b + 1));
        }
        lemma_send_acks_certified(s1, keys.drop_first(), now, b + 1);
    }
}

/// Opening a connection through a gateway whose principal has at most 29 bytes
/// keeps every queued message certified.
pub proof fn lemma_ws_open_certified(s: WsModel, caller: Seq<u8>, nonce: u64, gw: Seq<u8>, now: u64)
    requires
        principal_texts_distinct(),
        s.admits(now),
        certification_kept(s, COUNTER_LIMIT as int),
        gw.len() <= 29,
    ensures
        s.ws_open(caller, nonce, gw, now).0.messages_certified(),
        s.ws_open(caller, nonce, gw, now).0.gateway_principals_fit(),
{
    let k = (caller, nonce);
    let b = COUNTER_LIMIT as int;
    if caller != anonymous_bytes() && !s.clients.dom().contains(k) {
        let s1 = if s.current_keys.dom().contains(caller) {
            s.remove_client(s.current_keys[caller], None, now)
        } else {
            s
        };
        if s.current_keys.dom().contains(caller) {
            lemma_remove_client_certified(s, s.current_keys[caller], None, now, b);
        } else {
            assert(s1.nonces_at_most(b + 1));
        }
        lemma_add_client_certified(s1, k, (now, gw), b + 1);
        let s2 = s1.add_client(k, (now, gw));
        lemma_send_certified(s2, k, candid_service_message(ServiceMessageV::Open(k)), true, now, b + 1);
    }
}

/// A gateway closing a connection keeps every queued message certified.
pub proof fn lemma_ws_close_certified(s: WsModel, caller: Seq<u8>, k: KeyV, now: u64)
    requires
        principal_texts_distinct(),
        s.admits(now),
        certification_kept(s, COUNTER_LIMIT as int),
    ensures
        s.ws_close(caller, k, now).0.messages_certified(),
        s.ws_close(caller, k, now).0.gateway_principals_fit(),
{
    if s.clients.dom().contains(k) {
        lemma_remove_client_certified(s, k, None, now, COUNTER_LIMIT as int);
    }
}

/// A client's message keeps every queued message certified.
pub proof fn lemma_ws_message_certified(
    s: WsModel,
    caller: Seq<u8>,
    m: MessageV,
    decoded: Option<Result<ServiceMessageV, Seq<char>>>,
    now: u64,
)
    requires
        principal_texts_distinct(),
        s.admits(now),
        certification_kept(s, COUNTER_LIMIT as int),
    ensures
        s.ws_message(caller, m, decoded, now).0.messages_certified(),
        s.ws_message(caller, m, decoded, now).0.gateway_principals_fit(),
{
    let k = m.0;
    if s.current_keys.dom().contains(caller) && k == s.current_keys[caller] {
        lemma_remove_client_certified(s, k, Some(CloseMessageReason::WrongSequenceNumber), now, COUNTER_LIMIT as int);
    }
}

/// Sending to a principal keeps every queued message certified.
pub proof fn lemma_send_to_principal_certified(s: WsModel, p: Seq<u8>, content: Seq<u8>, now: u64)
    requires
        principal_texts_distinct(),
        s.admits(now),
        certification_kept(s, COUNTER_LIMIT as int),
    ensures
        s.send_to_principal(p, content, now).0.messages_certified(),
        s.send_to_principal(p, content, now).0.gateway_principals_fit(),
{
    if s.current_keys.dom().contains(p) {
        lemma_send_certified(s, s.current_keys[p], content, false, now, COUNTER_LIMIT as int);
    }
}

/// The application closing a connection keeps every queued message certified.
pub proof fn lemma_close_certified(s: WsModel, p: Seq<u8>, now: u64)
    requires
        principal_texts_distinct(),
        s.admits(now),
        certification_kept(s, COUNTER_LIMIT as int),
    ensures
        s.close(p, now).0.messages_certified(),
        s.close(p, now).0.gateway_principals_fit(),
{
    if s.current_keys.dom().contains(p) {
        lemma_remove_client_certified(s, s.current_keys[p], Some(CloseMessageReason::ClosedByApplication), now, COUNTER_LIMIT as int);
    }
}

/// The periodic acknowledgement keeps every queued message certified.
pub proof fn lemma_send_ack_to_clients_certified(s: WsModel, now: u64)
    requires
        principal_texts_distinct(),
        s.admits(now),
        certification_kept(s, COUNTER_LIMIT as int),
    ensures
        s.send_ack_to_clients(now).messages_certified(),
        s.send_ack_to_clients(now).gateway_principals_fit(),
{
    lemma_send_acks_certified(s, s.client_order, now, COUNTER_LIMIT as int);
}

/// The keep-alive check keeps every queued message certified: the messages of the
/// forgotten gateways lose their certification, the others keep it.
pub proof fn lemma_check_keep_alive_certified(s: WsModel, now: u64)
    requires
        principal_texts_distinct(),
        s.admits(now),
        certification_kept(s, COUNTER_LIMIT as int),
    ensures
        s.check_keep_alive(now).messages_certified(),
        s.check_keep_alive(now).gateway_principals_fit(),
{
    let b = COUNTER_LIMIT as int;
    let s1 = s.remove_empty_expired_gateways(now);
    let expired = s.expired_gateways(now);
    assert forall|gw: Seq<u8>| #[trigger] s1.gateways.dom().contains(gw) implies s.gateways.dom().contains(gw) by {}
    assert forall|x: Seq<u8>, i: int| #![trigger s1.gateways[x].queue[i]]
        s1.gateways.dom().contains(x) && 0 <= i < s1.gateways[x].queue.len() implies {
            &&& s1.cert.dom().contains(s1.gateways[x].queue[i].1)
            &&& s1.cert[s1.gateways[x].queue[i].1] == sha256_of(s1.gateways[x].queue[i].2)
        } by {
        let q = s.gateways[x].queue[i];
        assert(s1.gateways[x].queue[i] == q);
        assert(queue_contiguous(x, s.gateways[x]));
        let nx = s.gateways[x].nonce - s.gateways[x].queue.len() + i;
        assert(q.1 == message_key(x, nx as nat));
        if keys_of_gateways(s.gateways, expired).contains(q.1) {
            let w = choose|w: Seq<u8>| #[trigger] expired.contains(w) && s.gateways.dom().contains(w) && s.gateways[w].keys().contains(q.1);
            let j = s.gateways[w].keys().index_of(q.1);
            assert(s.gateways[w].keys()[j] == s.gateways[w].queue[j].1);
            assert(queue_contiguous(w, s.gateways[w]));
            let nw = s.gateways[w].nonce - s.gateways[w].queue.len() + j;
            assert(s.gateways[w].queue[j].1 == message_key(w, nw as nat));
            assert(w != x);
            lemma_keys_of_different_gateways(x, w, nx as nat, nw as nat);
        }
    }
    assert(certification_kept(s1, b));
    let keys = s1.timed_out_clients(now);
    assert forall|i: int| 0 <= i < keys.len() implies removable(s1, #[trigger] keys[i]) by {
        s1.waiting.lemma_filter_pred(s1.timed_out(now), i);
    }
    s1.waiting.lemma_filter_len(s1.timed_out(now));
    lemma_remove_clients_certified(s1, keys, Some(CloseMessageReason::KeepAliveTimeout), now, b);
}

/// Wiping leaves no queued message, so every queued message is certified.
pub proof fn lemma_wipe_certified(s: WsModel)
    ensures
        s.wipe().messages_certified(),
        s.wipe().gateway_principals_fit(),
{
}

/// A send to a client whose gateway is registered deletes from the gateway's
/// queue, before queueing the new message, only its oldest messages that are older
/// than the acknowledgement interval, at most [`MESSAGES_TO_DELETE_COUNT`] of
/// them, stopping at the first that is not; the certification of the deleted
/// messages goes with them.
pub proof fn lemma_send_deletes_only_expired(s: WsModel, k: KeyV, content: Seq<u8>, is_service: bool, now: u64)
    requires
        s.clients.dom().contains(k),
        s.gateways.dom().contains(s.clients[k].1),
        s.outgoing.dom().contains(k),
        s.gateways[s.clients[k].1].wf(),
    ensures
        ({
            let gw = s.clients[k].1;
            let g = s.gateways[gw];
            let r = s.send(k, content, is_service, now).0;
            let m = expired_prefix_len(g.timestamps, MESSAGES_TO_DELETE_COUNT as nat, s.ack_interval_ms, now) as int;
            &&& m <= MESSAGES_TO_DELETE_COUNT
            &&& m <= 5
            &&& m <= g.queue.len()
            &&& forall|j: int| 0 <= j < m ==> now - #[trigger] g.timestamps[j] > s.ack_interval_ms * 1_000_000
            &&& m < 5 && m < g.queue.len() ==> now - g.timestamps[m] <= s.ack_interval_ms * 1_000_000
            &&& r.gateways[gw].queue == g.queue.skip(m).push(r.gateways[gw].queue.last())
            &&& r.gateways[gw].timestamps == g.timestamps.skip(m).push(now)
            &&& forall|j: int| 0 <= j < m ==> !r.cert.dom().contains(#[trigger] g.queue[j].1)
                || g.queue[j].1 == message_key(gw, g.nonce as nat)
        }),
{
    let gw = s.clients[k].1;
    let g = s.gateways[gw];
    let m = expired_prefix_len(g.timestamps, MESSAGES_TO_DELETE_COUNT as nat, s.ack_interval_ms, now) as int;
    lemma_expired_prefix_bounds(g.timestamps, 0, MESSAGES_TO_DELETE_COUNT as nat, s.ack_interval_ms, now);
    lemma_expired_prefix_expired(g.timestamps, 0, MESSAGES_TO_DELETE_COUNT as nat, s.ack_interval_ms, now);
    let r = s.send(k, content, is_service, now).0;
    assert(r.gateways[gw].queue =~= g.queue.skip(m).push(r.gateways[gw].queue.last()));
    assert forall|j: int| 0 <= j < m implies !r.cert.dom().contains(#[trigger] g.queue[j].1)
        || g.queue[j].1 == message_key(gw, g.nonce as nat) by {
        assert(g.keys().take(m)[j] == g.queue[j].1);
        assert(g.keys().take(m).to_set().contains(g.queue[j].1));
    }
}

/// A contiguous queue is sorted by key: its keys strictly increase from front to
/// back, and each is the key of a nonce below the gateway's next nonce.
pub proof fn lemma_contiguous_queue_sorted(gw: Seq<u8>, g: GatewayModel)
    requires
        queue_contiguous(gw, g),
    ensures
        forall|i: int, j: int| 0 <= i < j < g.queue.len() ==> seq_lt(#[trigger] g.queue[i].1, #[trigger] g.queue[j].1),
        forall|i: int| 0 <= i < g.queue.len() ==> {
            &&& 0 <= g.nonce - g.queue.len() + i < g.nonce
            &&& #[trigger] g.queue[i].1 == message_key(gw, (g.nonce - g.queue.len() + i) as nat)
        },
{
    let l = g.queue.len() as int;
    assert forall|i: int, j: int| 0 <= i < j < g.queue.len() implies seq_lt(#[trigger] g.queue[i].1, #[trigger] g.queue[j].1) by {
        assert(g.queue[i].1 == message_key(gw, (g.nonce - l + i) as nat));
        assert(g.queue[j].1 == message_key(gw, (g.nonce - l + j) as nat));
        lemma_message_key_order(gw, (g.nonce - l + i) as u64, (g.nonce - l + j) as u64);
    }
}

/// Forgetting the client `k` takes it off the clients of every gateway.
proof fn lemma_clients_of_remove(s: WsModel, r: WsModel, k: KeyV)
    requires
        r.clients == s.clients.remove(k),
    ensures
        forall|gw: Seq<u8>| #[trigger] r.clients_of(gw) == s.clients_of(gw).remove(k),
{
    assert forall|gw: Seq<u8>| #[trigger] r.clients_of(gw) == s.clients_of(gw).remove(k) by {
        assert(r.clients_of(gw) =~= s.clients_of(gw).remove(k));
    }
}

/// Registering the client `k` through the gateway `c.1` adds it to the clients
/// of that gateway and takes it off those of every other.
proof fn lemma_clients_of_insert(s: WsModel, r: WsModel, k: KeyV, c: ClientV)
    requires
        r.clients == s.clients.insert(k, c),
    ensures
        forall|gw: Seq<u8>| #[trigger] r.clients_of(gw)
            == if gw == c.1 { s.clients_of(gw).insert(k) } else { s.clients_of(gw).remove(k) },
{
    assert forall|gw: Seq<u8>| #[trigger] r.clients_of(gw)
        == if gw == c.1 { s.clients_of(gw).insert(k) } else { s.clients_of(gw).remove(k) } by {
        if gw == c.1 {
            assert(r.clients_of(gw) =~= s.clients_of(gw).insert(k));
        } else {
            assert(r.clients_of(gw) =~= s.clients_of(gw).remove(k));
        }
    }
}

/// Two states with the same clients, gateways and gateways left without clients
/// agree on whether the gateways are tracked.
proof fn lemma_tracked_same_registrations(s: WsModel, r: WsModel)
    requires
        s.gateways_tracked(),
        r.clients == s.clients,
        r.expiring == s.expiring,
        r.gateways.dom() == s.gateways.dom(),
        forall|gw: Seq<u8>| #[trigger] r.gateways.dom().contains(gw)
            ==> r.gateways[gw].clients_count == s.gateways[gw].clients_count,
    ensures
        r.gateways_tracked(),
{
    assert forall|gw: Seq<u8>| #[trigger] r.gateways.dom().contains(gw)
        implies r.gateways[gw].clients_count == r.clients_of(gw).len() by {
        assert(r.clients_of(gw) =~= s.clients_of(gw));
    }
}

/// A send keeps the number of clients of every gateway.
proof fn lemma_send_keeps_counts(s: WsModel, k: KeyV, content: Seq<u8>, is_service: bool, now: u64)
    ensures
        forall|gw: Seq<u8>| #[trigger] s.send(k, content, is_service, now).0.gateways.dom().contains(gw)
            ==> s.send(k, content, is_service, now).0.gateways[gw].clients_count == s.gateways[gw].clients_count,
{
    lemma_send_registrations(s, k, content, is_service, now);
}

/// A send keeps the gateways tracked.
proof fn lemma_send_tracked(s: WsModel, k: KeyV, content: Seq<u8>, is_service: bool, now: u64)
    requires
        s.gateways_tracked(),
    ensures
        s.send(k, content, is_service, now).0.gateways_tracked(),
{
    lemma_send_registrations(s, k, content, is_service, now);
    lemma_send_keeps_counts(s, k, content, is_service, now);
    lemma_tracked_same_registrations(s, s.send(k, content, is_service, now).0);
}

/// Taking a client off the gateway `gw`, when the gateway counts it and the
/// client is already forgotten, keeps the gateways tracked.
proof fn lemma_decrement_tracked(s: WsModel, gw: Seq<u8>, k: KeyV, now: u64)
    requires
        s.clients.dom().finite(),
        !s.clients.dom().contains(k),
        forall|k2: KeyV| #[trigger] s.clients.dom().contains(k2) ==> {
            &&& s.gateways.dom().contains(s.clients[k2].1)
            &&& !s.expiring.dom().contains(s.clients[k2].1)
        },
        s.gateways.dom().contains(gw),
        s.gateways[gw].clients_count == s.clients_of(gw).len() + 1,
        forall|x: Seq<u8>| #[trigger] s.gateways.dom().contains(x) && x != gw
            ==> s.gateways[x].clients_count == s.clients_of(x).len(),
    ensures
        s.decrement_gateway_clients_count(gw, now).gateways_tracked(),
        s.decrement_gateway_clients_count(gw, now).clients == s.clients,
        s.decrement_gateway_clients_count(gw, now).gateways.dom() == s.gateways.dom(),
        s.decrement_gateway_clients_count(gw, now).gateways[gw].clients_count < s.gateways[gw].clients_count,
        forall|x: Seq<u8>| #[trigger] s.gateways.dom().contains(x) && x != gw
            ==> s.decrement_gateway_clients_count(gw, now).gateways[x].clients_count == s.gateways[x].clients_count,
{
    let r = s.decrement_gateway_clients_count(gw, now);
    assert(r.gateways.dom() =~= s.gateways.dom());
    s.clients.dom().lemma_len_filter(|k2: KeyV| s.clients[k2].1 == gw);
    if s.clients_of(gw).len() == 0 {
        vstd::set_lib::lemma_set_empty_equivalency_len(s.clients_of(gw));
        assert forall|k2: KeyV| #[trigger] r.clients.dom().contains(k2) implies {
            &&& r.gateways.dom().contains(r.clients[k2].1)
            &&& !r.expiring.dom().contains(r.clients[k2].1)
        } by {
            if s.clients[k2].1 == gw {
                assert(s.clients_of(gw).contains(k2));
            }
        }
    }
    assert forall|x: Seq<u8>| #[trigger] r.gateways.dom().contains(x)
        implies r.gateways[x].clients_count == r.clients_of(x).len() by {
        assert(r.clients_of(x) =~= s.clients_of(x));
    }
}

/// Removing a client keeps the gateways tracked, forgets exactly that client,
/// registers or forgets no gateway, and raises no gateway's number of clients.
proof fn lemma_remove_client_tracked(s: WsModel, k: KeyV, reason: Option<CloseMessageReason>, now: u64)
    requires
        s.gateways_tracked(),
    ensures
        s.remove_client(k, reason, now).gateways_tracked(),
        s.remove_client(k, reason, now).clients == s.clients.remove(k),
        s.remove_client(k, reason, now).gateways.dom() == s.gateways.dom(),
        forall|gw: Seq<u8>| #[trigger] s.gateways.dom().contains(gw)
            ==> s.remove_client(k, reason, now).gateways[gw].clients_count <= s.gateways[gw].clients_count,
{
    let s1 = match reason {
        Some(rs) => s.send(k, candid_service_message(ServiceMessageV::Close(rs)), true, now).0,
        None => s,
    };
    match reason {
        Some(rs) => {
            lemma_send_registrations(s, k, candid_service_message(ServiceMessageV::Close(rs)), true, now);
            lemma_send_keeps_counts(s, k, candid_service_message(ServiceMessageV::Close(rs)), true, now);
        },
        None => {},
    }
    let s2 = WsModel {
        waiting: without_key(s1.waiting, k),
        current_keys: s1.current_keys.remove(k.0),
        outgoing: s1.outgoing.remove(k),
        incoming: s1.incoming.remove(k),
        ..s1
    };
    lemma_tracked_same_registrations(s, s2);
    let r = s.remove_client(k, reason, now);
    if s2.clients.dom().contains(k) {
        let gw = s2.clients[k].1;
        let s3a = WsModel { clients: s2.clients.remove(k), client_order: without_key(s2.client_order, k), ..s2 };
        lemma_clients_of_remove(s2, s3a, k);
        assert(s2.clients_of(gw).contains(k));
        s2.clients.dom().lemma_len_filter(|k2: KeyV| s2.clients[k2].1 == gw);
        assert forall|x: Seq<u8>| #[trigger] s3a.gateways.dom().contains(x) && x != gw
            implies s3a.gateways[x].clients_count == s3a.clients_of(x).len() by {
            assert(!s2.clients_of(x).contains(k));
            assert(s2.clients_of(x).remove(k) =~= s2.clients_of(x));
        }
        lemma_decrement_tracked(s3a, gw, k, now);
        let s3 = s3a.decrement_gateway_clients_count(gw, now);
        lemma_tracked_same_registrations(s3, r);
    } else {
        assert(s2.clients.remove(k) =~= s2.clients);
    }
}

/// Removing clients in order keeps the gateways tracked, registers or forgets no
/// gateway, and raises no gateway's number of clients.
proof fn lemma_remove_clients_tracked(s: WsModel, keys: Seq<KeyV>, reason: Option<CloseMessageReason>, now: u64)
    requires
        s.gateways_tracked(),
    ensures
        s.remove_clients(keys, reason, now).gateways_tracked(),
        s.remove_clients(keys, reason, now).gateways.dom() == s.gateways.dom(),
        forall|gw: Seq<u8>| #[trigger] s.gateways.dom().contains(gw)
            ==> s.remove_clients(keys, reason, now).gateways[gw].clients_count <= s.gateways[gw].clients_count,
    decreases keys.len(),
{
    if keys.len() > 0 {
        lemma_remove_client_tracked(s, keys[0], reason, now);
        lemma_remove_clients_tracked(s.remove_client(keys[0], reason, now), keys.drop_first(), reason, now);
    }
}

/// Registering a client that is not registered yet keeps the gateways tracked,
/// when its gateway can count one more client.
proof fn lemma_add_client_tracked(s: WsModel, k: KeyV, c: ClientV)
    requires
        s.gateways_tracked(),
        !s.clients.dom().contains(k),
        s.gateways.dom().contains(c.1) ==> s.gateways[c.1].clients_count < u64::MAX,
    ensures
        s.add_client(k, c).gateways_tracked(),
{
    let s1 = WsModel {
        current_keys: s.current_keys.insert(k.0, k),
        clients: s.clients.insert(k, c),
        client_order: with_key(s.client_order, k),
        incoming: s.incoming.insert(k, crate::INITIAL_CLIENT_SEQUENCE_NUM),
        outgoing: s.outgoing.insert(k, crate::INITIAL_CANISTER_SEQUENCE_NUM),
        ..s
    };
    let gw = c.1;
    let r = s.add_client(k, c);
    lemma_clients_of_insert(s, s1, k, c);
    s.clients.dom().lemma_len_filter(|k2: KeyV| s.clients[k2].1 == gw);
    if !s.gateways.dom().contains(gw) {
        assert(s.clients_of(gw) =~= Set::<KeyV>::empty()) by {
            assert forall|k2: KeyV| !s.clients_of(gw).contains(k2) by {
                if s.clients.dom().contains(k2) {
                    assert(s.gateways.dom().contains(s.clients[k2].1));
                }
            }
        }
    }
    assert(!s.clients_of(gw).contains(k));
    assert forall|x: Seq<u8>| #[trigger] r.gateways.dom().contains(x)
        implies r.gateways[x].clients_count == r.clients_of(x).len() by {
        if x != gw {
            assert(!s.clients_of(x).contains(k));
            assert(s.clients_of(x).remove(k) =~= s.clients_of(x));
            assert(r.clients_of(x) =~= s1.clients_of(x));
        } else {
            assert(r.clients_of(x) =~= s1.clients_of(x));
        }
    }
    assert forall|k2: KeyV| #[trigger] r.clients.dom().contains(k2) implies {
        &&& r.gateways.dom().contains(r.clients[k2].1)
        &&& !r.expiring.dom().contains(r.clients[k2].1)
    } by {
        if k2 != k {
            assert(s.clients.dom().contains(k2));
        }
    }
}

/// Forgetting the expired gateways keeps the gateways tracked: a gateway that
/// has clients is not among those left without clients.
proof fn lemma_remove_expired_tracked(s: WsModel, now: u64)
    requires
        s.gateways_tracked(),
    ensures
        s.remove_empty_expired_gateways(now).gateways_tracked(),
        s.remove_empty_expired_gateways(now).clients == s.clients,
{
    let r = s.remove_empty_expired_gateways(now);
    assert forall|x: Seq<u8>| #[trigger] r.gateways.dom().contains(x)
        implies r.gateways[x].clients_count == r.clients_of(x).len() by {
        assert(r.clients_of(x) =~= s.clients_of(x));
    }
}

/// Acknowledging clients keeps the gateways tracked.
proof fn lemma_send_acks_tracked(s: WsModel, keys: Seq<KeyV>, now: u64)
    requires
        s.gateways_tracked(),
    ensures
        s.send_acks(keys, now).gateways_tracked(),
    decreases keys.len(),
{
    if keys.len() > 0 {
        let k = keys[0];
        let s1 = if s.incoming.dom().contains(k) {
            let (s2, r) = s.send(k, candid_service_message(ServiceMessageV::Ack((s.incoming[k] - 1) as u64)), true, now);
            if r is Ok {
                WsModel { waiting: with_key(s2.waiting, k), ..s2 }
            } else {
                s2
            }
        } else {
            s
        };
        if s.incoming.dom().contains(k) {
            let s2 = s.send(k, candid_service_message(ServiceMessageV::Ack((s.incoming[k] - 1) as u64)), true, now).0;
            lemma_send_tracked(s, k, candid_service_message(ServiceMessageV::Ack((s.incoming[k] - 1) as u64)), true, now);
            lemma_tracked_same_registrations(s2, s1);
        }
        lemma_send_acks_tracked(s1, keys.drop_first(), now);
    }
}

/// The state before any operation has its gateways tracked, having no client
/// and no gateway.
pub proof fn lemma_initial_tracks_gateways(max_returned: usize, ack_interval_ms: u64, keep_alive_timeout_ms: u64)
    ensures
        WsModel::initial(max_returned, ack_interval_ms, keep_alive_timeout_ms).gateways_tracked(),
{
}

/// Wiping leaves no client and no gateway, so the gateways are tracked.
pub proof fn lemma_wipe_tracks_gateways(s: WsModel)
    ensures
        s.wipe().gateways_tracked(),
{
}

/// Opening a connection keeps every client's gateway registered, with the count
/// of its clients exact: the new client's gateway is registered if it was not,
/// counts one more client, and is no longer among those left without clients.
pub proof fn lemma_ws_open_tracks_gateways(s: WsModel, caller: Seq<u8>, nonce: u64, gw: Seq<u8>, now: u64)
    requires
        s.admits(now),
        s.gateways_tracked(),
    ensures
        s.ws_open(caller, nonce, gw, now).0.gateways_tracked(),
{
    let k = (caller, nonce);
    if caller != anonymous_bytes() && !s.clients.dom().contains(k) {
        let s1 = if s.current_keys.dom().contains(caller) {
            s.remove_client(s.current_keys[caller], None, now)
        } else {
            s
        };
        if s.current_keys.dom().contains(caller) {
            lemma_remove_client_tracked(s, s.current_keys[caller], None, now);
        }
        assert(s1.gateways.dom().contains(gw) ==> s1.gateways[gw].clients_count <= COUNTER_LIMIT);
        lemma_add_client_tracked(s1, k, (now, gw));
        let s2 = s1.add_client(k, (now, gw));
        lemma_send_tracked(s2, k, candid_service_message(ServiceMessageV::Open(k)), true, now);
        let (s3, r) = s2.send(k, candid_service_message(ServiceMessageV::Open(k)), true, now);
        lemma_tracked_same_registrations(s3, WsModel { callbacks: s3.callbacks.push(CallbackV::Open(caller)), ..s3 });
    }
}

/// A gateway closing a connection keeps every client's gateway registered, with
/// the count of its clients exact.
pub proof fn lemma_ws_close_tracks_gateways(s: WsModel, caller: Seq<u8>, k: KeyV, now: u64)
    requires
        s.gateways_tracked(),
    ensures
        s.ws_close(caller, k, now).0.gateways_tracked(),
{
    lemma_remove_client_tracked(s, k, None, now);
}

/// A client's message keeps every client's gateway registered, with the count of
/// its clients exact, whether it is accepted, records a keep alive, or closes the
/// connection for a wrong sequence number.
pub proof fn lemma_ws_message_tracks_gateways(
    s: WsModel,
    caller: Seq<u8>,
    m: MessageV,
    decoded: Option<Result<ServiceMessageV, Seq<char>>>,
    now: u64,
)
    requires
        s.gateways_tracked(),
    ensures
        s.ws_message(caller, m, decoded, now).0.gateways_tracked(),
{
    let k = m.0;
    if s.current_keys.dom().contains(caller) && k == s.current_keys[caller] && s.incoming.dom().contains(k) {
        if m.1 != s.incoming[k] {
            lemma_remove_client_tracked(s, k, Some(CloseMessageReason::WrongSequenceNumber), now);
        } else {
            let s1 = WsModel { incoming: s.incoming.insert(k, (s.incoming[k] + 1) as u64), ..s };
            lemma_tracked_same_registrations(s, s1);
            let r = s.ws_message(caller, m, decoded, now).0;
            if r.clients != s1.clients {
                let c = (now, s1.clients[k].1);
                lemma_clients_of_insert(s1, r, k, c);
                assert(r.clients.dom() =~= s1.clients.dom());
                assert forall|x: Seq<u8>| #[trigger] r.gateways.dom().contains(x)
                    implies r.gateways[x].clients_count == r.clients_of(x).len() by {
                    if x == c.1 {
                        assert(s1.clients_of(x).contains(k));
                        assert(s1.clients_of(x).insert(k) =~= s1.clients_of(x));
                    } else {
                        assert(!s1.clients_of(x).contains(k));
                        assert(s1.clients_of(x).remove(k) =~= s1.clients_of(x));
                    }
                }
            } else {
                lemma_tracked_same_registrations(s1, r);
            }
        }
    }
}

/// Sending to a principal keeps every client's gateway registered, with the
/// count of its clients exact.
pub proof fn lemma_send_to_principal_tracks_gateways(s: WsModel, p: Seq<u8>, content: Seq<u8>, now: u64)
    requires
        s.gateways_tracked(),
    ensures
        s.send_to_principal(p, content, now).0.gateways_tracked(),
{
    if s.current_keys.dom().contains(p) {
        lemma_send_tracked(s, s.current_keys[p], content, false, now);
    }
}

/// The application closing a connection keeps every client's gateway
/// registered, with the count of its clients exact.
pub proof fn lemma_close_tracks_gateways(s: WsModel, p: Seq<u8>, now: u64)
    requires
        s.gateways_tracked(),
    ensures
        s.close(p, now).0.gateways_tracked(),
{
    if s.current_keys.dom().contains(p) {
        lemma_remove_client_tracked(s, s.current_keys[p], Some(CloseMessageReason::ClosedByApplication), now);
    }
}

/// The periodic acknowledgement keeps every client's gateway registered, with
/// the count of its clients exact.
pub proof fn lemma_send_ack_to_clients_tracks_gateways(s: WsModel, now: u64)
    requires
        s.gateways_tracked(),
    ensures
        s.send_ack_to_clients(now).gateways_tracked(),
{
    lemma_send_acks_tracked(s, s.client_order, now);
}

/// The keep-alive check keeps every client's gateway registered, with the count
/// of its clients exact: the gateways it forgets have no client.
pub proof fn lemma_check_keep_alive_tracks_gateways(s: WsModel, now: u64)
    requires
        s.gateways_tracked(),
    ensures
        s.check_keep_alive(now).gateways_tracked(),
{
    lemma_remove_expired_tracked(s, now);
    let s1 = s.remove_empty_expired_gateways(now);
    lemma_remove_clients_tracked(s1, s1.timed_out_clients(now), Some(CloseMessageReason::KeepAliveTimeout), now);
}

/// Removing a client leaves the due handler calls as they were, or adds the
/// `on_close` of that client's principal; it never hands a message to `on_message`.
proof fn lemma_remove_client_callbacks(s: WsModel, k: KeyV, reason: Option<CloseMessageReason>, now: u64)
    ensures
        s.remove_client(k, reason, now).callbacks == s.callbacks
            || s.remove_client(k, reason, now).callbacks == s.callbacks.push(CallbackV::Close(k.0)),
{
    match reason {
        Some(r) => lemma_send_registrations(s, k, candid_service_message(ServiceMessageV::Close(r)), true, now),
        None => {},
    }
}

/// A service message is handled by the library alone: whatever its outcome, it
/// hands nothing to `on_message`, and the only handler call it can make due is
/// the `on_close` of the connection that it closes for a wrong sequence number;
/// an accepted service message makes no handler call due. An application message
/// that is accepted makes exactly one call due, `on_message` with the caller and
/// the message's content; one that is refused hands nothing to `on_message`.
pub proof fn lemma_ws_message_callbacks(
    s: WsModel,
    caller: Seq<u8>,
    m: MessageV,
    decoded: Option<Result<ServiceMessageV, Seq<char>>>,
    now: u64,
)
    ensures
        ({
            let (r, res) = s.ws_message(caller, m, decoded, now);
            &&& m.3 ==> r.callbacks == s.callbacks || r.callbacks == s.callbacks.push(CallbackV::Close(m.0.0))
            &&& m.3 && res is Ok ==> r.callbacks == s.callbacks
            &&& !m.3 && res is Ok ==> r.callbacks == s.callbacks.push(CallbackV::Message(caller, m.4))
            &&& !m.3 && res is Err ==> r.callbacks == s.callbacks || r.callbacks == s.callbacks.push(CallbackV::Close(m.0.0))
        }),
{
    let k = m.0;
    if s.current_keys.dom().contains(caller) && k == s.current_keys[caller] && s.incoming.dom().contains(k) {
        if m.1 != s.incoming[k] {
            lemma_remove_client_callbacks(s, k, Some(CloseMessageReason::WrongSequenceNumber), now);
        }
    }
}

/// A refused open changes nothing: the connection that the key already has, if
/// any, stays registered as it was, and no handler call is made due.
pub proof fn lemma_ws_open_refused_changes_nothing(s: WsModel, caller: Seq<u8>, nonce: u64, gw: Seq<u8>, now: u64)
    ensures
        s.ws_open(caller, nonce, gw, now).1 is Err ==> s.ws_open(caller, nonce, gw, now).0 == s,
        s.ws_open(caller, nonce, gw, now).1 is Err <==> caller == anonymous_bytes() || s.clients.dom().contains((caller, nonce)),
{
    let k = (caller, nonce);
    if caller != anonymous_bytes() && !s.clients.dom().contains(k) {
        let s1 = if s.current_keys.dom().contains(caller) {
            s.remove_client(s.current_keys[caller], None, now)
        } else {
            s
        };
        let s2 = s1.add_client(k, (now, gw));
        assert(s2.clients.dom().contains(k) && s2.gateways.dom().contains(gw) && s2.outgoing.dom().contains(k));
    }
}

/// Parameters are accepted exactly when the acknowledgement interval is longer
/// than the keep-alive timeout, so that the keep-alive check that follows an
/// acknowledgement runs before the next acknowledgement; an interval equal to or
/// shorter than the timeout is refused.
pub proof fn lemma_params_valid_iff_ack_interval_exceeds_timeout<H>(p: crate::types::WsInitParams<H>)
    ensures
        p.is_valid() <==> p.keep_alive_timeout_ms < p.send_ack_interval_ms,
        p.send_ack_interval_ms <= p.keep_alive_timeout_ms ==> !p.is_valid(),
{
}

/// A gateway's close that is refused changes nothing: the caller is not a
/// registered gateway, the client is not registered, or it is registered through
/// another gateway, and its connection stays as it was.
pub proof fn lemma_ws_close_refused_changes_nothing(s: WsModel, caller: Seq<u8>, k: KeyV, now: u64)
    ensures
        s.ws_close(caller, k, now).1 is Err <==> !s.gateways.dom().contains(caller)
            || !s.clients.dom().contains(k) || s.clients[k].1 != caller,
        s.ws_close(caller, k, now).1 is Err ==> s.ws_close(caller, k, now).0 == s,
{
}

/// The application's close of a principal without a connection is refused and
/// changes nothing.
pub proof fn lemma_close_refused_changes_nothing(s: WsModel, p: Seq<u8>, now: u64)
    ensures
        s.close(p, now).1 is Err <==> !s.current_keys.dom().contains(p),
        s.close(p, now).1 is Err ==> s.close(p, now).0 == s,
{
}

/// With consistent connections, a send to a principal is refused exactly when it
/// has no connection or the connection's gateway is not registered, and a refused
/// send changes nothing: no nonce is used and no message is queued or certified.
pub proof fn lemma_send_to_principal_refused_changes_nothing(s: WsModel, p: Seq<u8>, content: Seq<u8>, now: u64)
    requires
        s.connections_consistent(),
    ensures
        s.send_to_principal(p, content, now).1 is Err <==> !s.current_keys.dom().contains(p)
            || !s.gateways.dom().contains(s.clients[s.current_keys[p]].1),
        s.send_to_principal(p, content, now).1 is Err ==> s.send_to_principal(p, content, now).0 == s,
{
}

/// A message from a principal without a connection, or from another key than
/// the principal's current one, is refused and changes nothing.
pub proof fn lemma_ws_message_from_stranger_changes_nothing(
    s: WsModel,
    caller: Seq<u8>,
    m: MessageV,
    decoded: Option<Result<ServiceMessageV, Seq<char>>>,
    now: u64,
)
    requires
        !s.current_keys.dom().contains(caller) || m.0 != s.current_keys[caller],
    ensures
        s.ws_message(caller, m, decoded, now).1 is Err,
        s.ws_message(caller, m, decoded, now).0 == s,
{
}

/// Removing a registered client makes its principal's `on_close` due, and only
/// that; removing one that is not registered makes no handler call due.
proof fn lemma_remove_client_callbacks_exact(s: WsModel, k: KeyV, reason: Option<CloseMessageReason>, now: u64)
    ensures
        s.remove_client(k, reason, now).callbacks
            == if s.clients.dom().contains(k) { s.callbacks.push(CallbackV::Close(k.0)) } else { s.callbacks },
{
    match reason {
        Some(r) => lemma_send_registrations(s, k, candid_service_message(ServiceMessageV::Close(r)), true, now),
        None => {},
    }
}

/// An accepted open makes exactly these handler calls due, in order: the
/// `on_close` of the connection that the principal had, if it had one, then its
/// `on_open`. A send to a principal makes no handler call due.
pub proof fn lemma_open_and_send_handler_calls(
    s: WsModel,
    caller: Seq<u8>,
    nonce: u64,
    gw: Seq<u8>,
    p: Seq<u8>,
    content: Seq<u8>,
    now: u64,
)
    requires
        s.connections_consistent(),
    ensures
        s.ws_open(caller, nonce, gw, now).1 is Ok ==> s.ws_open(caller, nonce, gw, now).0.callbacks == if s.current_keys.dom().contains(caller) {
            s.callbacks.push(CallbackV::Close(caller)).push(CallbackV::Open(caller))
        } else {
            s.callbacks.push(CallbackV::Open(caller))
        },
        s.send_to_principal(p, content, now).0.callbacks == s.callbacks,
{
    let k = (caller, nonce);
    if caller != anonymous_bytes() && !s.clients.dom().contains(k) {
        let s1 = if s.current_keys.dom().contains(caller) {
            s.remove_client(s.current_keys[caller], None, now)
        } else {
            s
        };
        if s.current_keys.dom().contains(caller) {
            lemma_remove_client_callbacks_exact(s, s.current_keys[caller], None, now);
        }
        let s2 = s1.add_client(k, (now, gw));
        lemma_send_registrations(s2, k, candid_service_message(ServiceMessageV::Open(k)), true, now);
    }
    if s.current_keys.dom().contains(p) {
        lemma_send_registrations(s, s.current_keys[p], content, false, now);
    }
}

/// Position `i` of the gateway `g`'s queue holds, queued at `now`, the service
/// message to `k` with sequence number `seq` and content `content`.
pub open spec fn service_at(g: GatewayModel, i: int, k: KeyV, seq: u64, content: Seq<u8>, now: u64) -> bool {
    &&& 0 <= i < g.queue.len()
    &&& i < g.timestamps.len()
    &&& g.timestamps[i] == now
    &&& g.queue[i].2 == cbor_websocket_message((k, seq, now, true, content))
}

/// The registered gateway `gw` has queued, at `now`, a service message to `k`
/// with content `content`.
pub open spec fn service_queued(r: WsModel, gw: Seq<u8>, k: KeyV, content: Seq<u8>, now: u64) -> bool {
    &&& r.gateways.dom().contains(gw)
    &&& exists|i: int, seq: u64| #[trigger] service_at(r.gateways[gw], i, k, seq, content, now)
}

/// The gateway of the registered client `k` has queued, at `now`, a service
/// message to `k` that acknowledges the sequence number `n`.
pub open spec fn ack_queued(r: WsModel, k: KeyV, n: u64, now: u64) -> bool {
    &&& r.clients.dom().contains(k)
    &&& service_queued(r, r.clients[k].1, k, candid_service_message(ServiceMessageV::Ack(n)), now)
}

/// A send keeps every gateway's queue and timestamps of the same length, and
/// keeps in every queue the service messages queued at `now`, which are not
/// expired.
proof fn lemma_send_keeps_recent(s: WsModel, k: KeyV, content: Seq<u8>, is_service: bool, now: u64)
    requires
        s.gateways_wf(),
    ensures
        s.send(k, content, is_service, now).0.gateways_wf(),
        forall|gx: Seq<u8>, x: KeyV, c: Seq<u8>| service_queued(s, gx, x, c, now)
            ==> #[trigger] service_queued(s.send(k, content, is_service, now).0, gx, x, c, now),
{
    lemma_send_registrations(s, k, content, is_service, now);
    let r = s.send(k, content, is_service, now).0;
    if sendable_for_send(s, k) {
        let gw = s.clients[k].1;
        let g = s.gateways[gw];
        lemma_send_deletes_only_expired(s, k, content, is_service, now);
        let m = expired_prefix_len(g.timestamps, MESSAGES_TO_DELETE_COUNT as nat, s.ack_interval_ms, now) as int;
        lemma_expired_prefix_bounds(g.timestamps, 0, MESSAGES_TO_DELETE_COUNT as nat, s.ack_interval_ms, now);
        assert forall|x: Seq<u8>| x != gw && #[trigger] r.gateways.dom().contains(x) implies r.gateways[x] == s.gateways[x] by {}
        assert forall|gx: Seq<u8>, x: KeyV, c: Seq<u8>| service_queued(s, gx, x, c, now)
            implies #[trigger] service_queued(r, gx, x, c, now) by {
            let (i, sq) = choose|i: int, sq: u64| #[trigger] service_at(s.gateways[gx], i, x, sq, c, now);
            if gx == gw {
                assert(i >= m) by {
                    if i < m {
                        assert(now - g.timestamps[i] > s.ack_interval_ms * 1_000_000);
                    }
                }
                let g3 = r.gateways[gw];
                assert(g3.queue[i - m] == g.queue[i]);
                assert(g3.timestamps[i - m] == g.timestamps[i]);
                assert(service_at(g3, i - m, x, sq, c, now));
            } else {
                assert(service_at(r.gateways[gx], i, x, sq, c, now));
            }
        }
    } else {
        assert forall|x: Seq<u8>| #[trigger] r.gateways.dom().contains(x) implies r.gateways[x].queue == s.gateways[x].queue
            && r.gateways[x].timestamps == s.gateways[x].timestamps by {}
        assert forall|gx: Seq<u8>, x: KeyV, c: Seq<u8>| service_queued(s, gx, x, c, now)
            implies #[trigger] service_queued(r, gx, x, c, now) by {
            let (i, sq) = choose|i: int, sq: u64| #[trigger] service_at(s.gateways[gx], i, x, sq, c, now);
            assert(service_at(r.gateways[gx], i, x, sq, c, now));
        }
    }
}

/// Whether a send to `k` goes through: `k` is registered, its gateway too, and
/// its outgoing sequence number is initialized.
pub open spec fn sendable_for_send(s: WsModel, k: KeyV) -> bool {
    &&& s.clients.dom().contains(k)
    &&& s.gateways.dom().contains(s.clients[k].1)
    &&& s.outgoing.dom().contains(k)
}

/// A send of an acknowledgement of `n` to a client that a message can be sent to
/// queues it for the client's gateway at `now`.
proof fn lemma_send_ack_queues(s: WsModel, k: KeyV, n: u64, now: u64)
    requires
        s.gateways_wf(),
        sendable_for_send(s, k),
    ensures
        ack_queued(s.send(k, candid_service_message(ServiceMessageV::Ack(n)), true, now).0, k, n, now),
{
    let content = candid_service_message(ServiceMessageV::Ack(n));
    lemma_send_registrations(s, k, content, true, now);
    lemma_send_deletes_only_expired(s, k, content, true, now);
    let r = s.send(k, content, true, now).0;
    let gw = s.clients[k].1;
    let g3 = r.gateways[gw];
    let seq = (s.outgoing[k] + 1) as u64;
    let i = g3.queue.len() - 1;
    assert(g3.timestamps[i] == now);
    assert(g3.queue[i].2 == cbor_websocket_message((k, seq, now, true, content)));
    assert(service_at(g3, i, k, seq, content, now));
}

/// Acknowledging the clients of `keys` in order queues, for each of them that a
/// message can be sent to, an acknowledgement of the last sequence number
/// received from it, and keeps the acknowledgements queued before.
proof fn lemma_send_acks_queue_acks(s: WsModel, keys: Seq<KeyV>, now: u64)
    requires
        s.gateways_wf(),
    ensures
        s.send_acks(keys, now).gateways_wf(),
        s.send_acks(keys, now).incoming == s.incoming,
        forall|k: KeyV| (keys.contains(k) && sendable(s, k)) || ack_queued(s, k, (s.incoming[k] - 1) as u64, now)
            ==> #[trigger] ack_queued(s.send_acks(keys, now), k, (s.incoming[k] - 1) as u64, now),
    decreases keys.len(),
{
    lemma_send_acks_awaits(s, keys, now);
    if keys.len() > 0 {
        let k0 = keys[0];
        let rest = keys.drop_first();
        let s1 = if s.incoming.dom().contains(k0) {
            let (s2, res) = s.send(k0, candid_service_message(ServiceMessageV::Ack((s.incoming[k0] - 1) as u64)), true, now);
            if res is Ok {
                WsModel { waiting: with_key(s2.waiting, k0), ..s2 }
            } else {
                s2
            }
        } else {
            s
        };
        if s.incoming.dom().contains(k0) {
            let content = candid_service_message(ServiceMessageV::Ack((s.incoming[k0] - 1) as u64));
            lemma_send_registrations(s, k0, content, true, now);
            lemma_send_keeps_recent(s, k0, content, true, now);
            if sendable(s, k0) {
                lemma_send_ack_queues(s, k0, (s.incoming[k0] - 1) as u64, now);
            }
            let s2 = s.send(k0, content, true, now).0;
            assert forall|x: KeyV, n: u64| ack_queued(s, x, n, now) implies #[trigger] ack_queued(s1, x, n, now) by {
                assert(s1.clients == s2.clients && s1.gateways == s2.gateways);
                assert(service_queued(s2, s.clients[x].1, x, candid_service_message(ServiceMessageV::Ack(n)), now));
            }
        }
        assert(s1.gateways_wf());
        assert(s1.incoming == s.incoming);
        lemma_send_acks_queue_acks(s1, rest, now);
        lemma_send_acks_awaits(s1, rest, now);
        let r = s.send_acks(keys, now);
        assert forall|k: KeyV| (keys.contains(k) && sendable(s, k)) || ack_queued(s, k, (s.incoming[k] - 1) as u64, now)
            implies #[trigger] ack_queued(r, k, (s.incoming[k] - 1) as u64, now) by {
            if keys.contains(k) && sendable(s, k) && k != k0 && !ack_queued(s, k, (s.incoming[k] - 1) as u64, now) {
                let j = keys.index_of(k);
                assert(rest[j - 1] == k);
                assert(rest.contains(k));
                assert(sendable(s1, k));
            }
        }
    }
}

/// The periodic acknowledgement tells every client that a message can be sent to
/// the last sequence number received from it: the client's gateway then holds,
/// queued at that time, a service message to the client whose content is the
/// acknowledgement of the sequence number it is expected to send next, minus one.
pub proof fn lemma_send_ack_to_clients_acknowledges(s: WsModel, now: u64)
    requires
        s.inv(),
    ensures
        forall|k: KeyV| #[trigger] sendable(s, k) ==> {
            &&& s.send_ack_to_clients(now).gateways.dom().contains(s.clients[k].1)
            &&& exists|i: int, seq: u64| 0 <= i < s.send_ack_to_clients(now).gateways[s.clients[k].1].queue.len()
                && #[trigger] s.send_ack_to_clients(now).gateways[s.clients[k].1].queue[i].2 == #[trigger] cbor_websocket_message(
                (k, seq, now, true, candid_service_message(ServiceMessageV::Ack((s.incoming[k] - 1) as u64))),
            )
        },
{
    lemma_send_acks_queue_acks(s, s.client_order, now);
    lemma_send_acks_awaits(s, s.client_order, now);
    let r = s.send_ack_to_clients(now);
    assert forall|k: KeyV| #[trigger] sendable(s, k) implies {
        &&& r.gateways.dom().contains(s.clients[k].1)
        &&& exists|i: int, seq: u64| 0 <= i < r.gateways[s.clients[k].1].queue.len()
            && #[trigger] r.gateways[s.clients[k].1].queue[i].2 == #[trigger] cbor_websocket_message(
            (k, seq, now, true, candid_service_message(ServiceMessageV::Ack((s.incoming[k] - 1) as u64))),
        )
    } by {
        assert(s.client_order.contains(k));
        assert(ack_queued(r, k, (s.incoming[k] - 1) as u64, now));
        let (i, seq) = choose|i: int, seq: u64| #[trigger] service_at(r.gateways[r.clients[k].1], i, k, seq,
            candid_service_message(ServiceMessageV::Ack((s.incoming[k] - 1) as u64)), now);
        assert(r.gateways[s.clients[k].1].queue[i].2 == cbor_websocket_message(
            (k, seq, now, true, candid_service_message(ServiceMessageV::Ack((s.incoming[k] - 1) as u64))),
        ));
    }
}

/// Removing, with a reason, a client that a message can be sent to queues last
/// for its gateway the close message with that reason, sent to the client with
/// its next sequence number at `now`.
proof fn lemma_remove_client_queues_close(s: WsModel, k: KeyV, reason: CloseMessageReason, now: u64)
    requires
        sendable_for_send(s, k),
    ensures
        ({
            let gw = s.clients[k].1;
            let r = s.remove_client(k, Some(reason), now);
            let bytes = cbor_websocket_message(
                (k, (s.outgoing[k] + 1) as u64, now, true, candid_service_message(ServiceMessageV::Close(reason))),
            );
            &&& r.gateways.dom().contains(gw)
            &&& r.gateways[gw].queue.len() > 0
            &&& r.gateways[gw].queue.last() == (k, message_key(gw, s.gateways[gw].nonce as nat), bytes)
        }),
{
    let content = candid_service_message(ServiceMessageV::Close(reason));
    lemma_send_registrations(s, k, content, true, now);
    let gw = s.clients[k].1;
    let s1 = s.send(k, content, true, now).0;
    assert(s1.gateways.dom().contains(gw));
    assert(s1.gateways[gw].queue.last() == (k, message_key(gw, s.gateways[gw].nonce as nat), cbor_websocket_message(
        (k, (s.outgoing[k] + 1) as u64, now, true, content),
    )));
}

/// The application's close of a connection that a message can be sent to queues
/// last for the client's gateway the close message, with the reason that the
/// application closed it and the client's next sequence number.
pub proof fn lemma_close_queues_close_message(s: WsModel, p: Seq<u8>, now: u64)
    requires
        s.current_keys.dom().contains(p),
        sendable_for_send(s, s.current_keys[p]),
    ensures
        ({
            let k = s.current_keys[p];
            let gw = s.clients[k].1;
            let r = s.close(p, now).0;
            &&& r.gateways.dom().contains(gw)
            &&& r.gateways[gw].queue.len() > 0
            &&& r.gateways[gw].queue.last() == (
                k,
                message_key(gw, s.gateways[gw].nonce as nat),
                cbor_websocket_message((k, (s.outgoing[k] + 1) as u64, now, true,
                    candid_service_message(ServiceMessageV::Close(CloseMessageReason::ClosedByApplication)))),
            )
        }),
{
    lemma_remove_client_queues_close(s, s.current_keys[p], CloseMessageReason::ClosedByApplication, now);
}

/// A message with a wrong sequence number, from a connection that a message can
/// be sent to, closes it after queueing last for its gateway the close message
/// that gives the wrong sequence number as the reason.
pub proof fn lemma_ws_message_wrong_sequence_queues_close(
    s: WsModel,
    caller: Seq<u8>,
    m: MessageV,
    decoded: Option<Result<ServiceMessageV, Seq<char>>>,
    now: u64,
)
    requires
        s.current_keys.dom().contains(caller),
        m.0 == s.current_keys[caller],
        s.incoming.dom().contains(m.0),
        m.1 != s.incoming[m.0],
        sendable_for_send(s, m.0),
    ensures
        ({
            let k = m.0;
            let gw = s.clients[k].1;
            let r = s.ws_message(caller, m, decoded, now).0;
            &&& r.gateways.dom().contains(gw)
            &&& r.gateways[gw].queue.len() > 0
            &&& r.gateways[gw].queue.last() == (
                k,
                message_key(gw, s.gateways[gw].nonce as nat),
                cbor_websocket_message((k, (s.outgoing[k] + 1) as u64, now, true,
                    candid_service_message(ServiceMessageV::Close(CloseMessageReason::WrongSequenceNumber)))),
            )
        }),
{
    lemma_remove_client_queues_close(s, m.0, CloseMessageReason::WrongSequenceNumber, now);
}

/// Removing a client forgets exactly that client and its outgoing sequence
/// number, registers or forgets no gateway, keeps every gateway's queue and
/// timestamps of the same length, and keeps in every queue the service messages
/// queued at `now`.
proof fn lemma_remove_client_keeps_recent(s: WsModel, k: KeyV, reason: Option<CloseMessageReason>, now: u64)
    requires
        s.gateways_wf(),
    ensures
        ({
            let r = s.remove_client(k, reason, now);
            &&& r.gateways_wf()
            &&& r.clients == s.clients.remove(k)
            &&& r.gateways.dom() == s.gateways.dom()
            &&& r.outgoing.dom() == s.outgoing.dom().remove(k)
            &&& forall|gx: Seq<u8>, x: KeyV, c: Seq<u8>| service_queued(s, gx, x, c, now)
                ==> #[trigger] service_queued(r, gx, x, c, now)
        }),
{
    let s1 = match reason {
        Some(rs) => s.send(k, candid_service_message(ServiceMessageV::Close(rs)), true, now).0,
        None => s,
    };
    match reason {
        Some(rs) => {
            lemma_send_registrations(s, k, candid_service_message(ServiceMessageV::Close(rs)), true, now);
            lemma_send_keeps_recent(s, k, candid_service_message(ServiceMessageV::Close(rs)), true, now);
        },
        None => {},
    }
    lemma_remove_client_gateways(s, k, reason, now);
    let r = s.remove_client(k, reason, now);
    assert forall|x: Seq<u8>| #[trigger] r.gateways.dom().contains(x) implies r.gateways[x].queue == s1.gateways[x].queue
        && r.gateways[x].timestamps == s1.gateways[x].timestamps by {}
    assert forall|gx: Seq<u8>, x: KeyV, c: Seq<u8>| service_queued(s, gx, x, c, now)
        implies #[trigger] service_queued(r, gx, x, c, now) by {
        assert(service_queued(s1, gx, x, c, now));
        let (i, sq) = choose|i: int, sq: u64| #[trigger] service_at(s1.gateways[gx], i, x, sq, c, now);
        assert(service_at(r.gateways[gx], i, x, sq, c, now));
    }
    if !s1.clients.dom().contains(k) {
        assert(s1.clients.remove(k) =~= s1.clients);
    }
    assert(r.clients =~= s.clients.remove(k));
    assert(r.outgoing.dom() =~= s.outgoing.dom().remove(k));
}

/// Removing, with a reason, a client that a message can be sent to leaves its
/// gateway holding, queued at `now`, the close message to it with that reason.
proof fn lemma_remove_client_queues_close_now(s: WsModel, k: KeyV, reason: CloseMessageReason, now: u64)
    requires
        s.gateways_wf(),
        sendable_for_send(s, k),
    ensures
        service_queued(s.remove_client(k, Some(reason), now), s.clients[k].1, k,
            candid_service_message(ServiceMessageV::Close(reason)), now),
{
    let content = candid_service_message(ServiceMessageV::Close(reason));
    let gw = s.clients[k].1;
    lemma_send_registrations(s, k, content, true, now);
    lemma_send_deletes_only_expired(s, k, content, true, now);
    let s1 = s.send(k, content, true, now).0;
    let g1 = s1.gateways[gw];
    let i = g1.queue.len() - 1;
    let seq = (s.outgoing[k] + 1) as u64;
    assert(service_at(g1, i, k, seq, content, now));
    let r = s.remove_client(k, Some(reason), now);
    lemma_remove_client_gateways(s, k, Some(reason), now);
    assert(r.gateways[gw].queue == g1.queue && r.gateways[gw].timestamps == g1.timestamps);
    assert(service_at(r.gateways[gw], i, k, seq, content, now));
}

/// Removing clients in order with a reason leaves the gateway of each of them
/// that a message could be sent to holding, queued at `now`, the close message to
/// it with that reason.
proof fn lemma_remove_clients_queue_closes(s: WsModel, keys: Seq<KeyV>, reason: CloseMessageReason, now: u64)
    requires
        s.gateways_wf(),
    ensures
        s.remove_clients(keys, Some(reason), now).gateways_wf(),
        forall|gx: Seq<u8>, x: KeyV, c: Seq<u8>| service_queued(s, gx, x, c, now)
            ==> #[trigger] service_queued(s.remove_clients(keys, Some(reason), now), gx, x, c, now),
        forall|k: KeyV| keys.contains(k) && sendable_for_send(s, k) ==> #[trigger] service_queued(
            s.remove_clients(keys, Some(reason), now), s.clients[k].1, k,
            candid_service_message(ServiceMessageV::Close(reason)), now),
    decreases keys.len(),
{
    if keys.len() > 0 {
        let k0 = keys[0];
        let rest = keys.drop_first();
        lemma_remove_client_keeps_recent(s, k0, Some(reason), now);
        if sendable_for_send(s, k0) {
            lemma_remove_client_queues_close_now(s, k0, reason, now);
        }
        let s1 = s.remove_client(k0, Some(reason), now);
        lemma_remove_clients_queue_closes(s1, rest, reason, now);
        let r = s.remove_clients(keys, Some(reason), now);
        assert forall|k: KeyV| keys.contains(k) && sendable_for_send(s, k) implies #[trigger] service_queued(
            r, s.clients[k].1, k, candid_service_message(ServiceMessageV::Close(reason)), now) by {
            if k != k0 {
                let j = keys.index_of(k);
                assert(rest[j - 1] == k);
                assert(rest.contains(k));
                assert(sendable_for_send(s1, k));
            }
        }
    }
}

/// The keep-alive check sends to every awaited client whose last keep alive is
/// older than the keep-alive timeout, and that a message can be sent to, a close
/// message giving the keep-alive timeout as the reason: the client's gateway then
/// holds it, queued at that time.
pub proof fn lemma_check_keep_alive_sends_close(s: WsModel, now: u64)
    requires
        s.inv(),
        s.gateways_tracked(),
    ensures
        forall|k: KeyV| #[trigger] s.waiting.contains(k) && sendable_for_send(s, k)
            && now - s.clients[k].0 > s.keep_alive_timeout_ms * 1_000_000
            ==> service_queued(s.check_keep_alive(now), s.clients[k].1, k,
                candid_service_message(ServiceMessageV::Close(CloseMessageReason::KeepAliveTimeout)), now),
{
    let s1 = s.remove_empty_expired_gateways(now);
    assert(s1.gateways_wf());
    let keys = s1.timed_out_clients(now);
    lemma_remove_clients_queue_closes(s1, keys, CloseMessageReason::KeepAliveTimeout, now);
    assert forall|k: KeyV| #[trigger] s.waiting.contains(k) && sendable_for_send(s, k)
        && now - s.clients[k].0 > s.keep_alive_timeout_ms * 1_000_000
        implies service_queued(s.check_keep_alive(now), s.clients[k].1, k,
            candid_service_message(ServiceMessageV::Close(CloseMessageReason::KeepAliveTimeout)), now) by {
        lemma_filter_membership(s1.waiting, s1.timed_out(now), k);
        assert(keys.contains(k));
        assert(sendable_for_send(s1, k));
    }
}

/// Sending to a principal whose connection a message can be sent to succeeds and
/// queues last for the connection's gateway, under the key of the gateway's next
/// nonce, an application message (not a service message) to that connection
/// with its next sequence number, the time `now` and the content unchanged; the
/// key is certified with the SHA-256 of those bytes.
pub proof fn lemma_send_to_principal_queues_message(s: WsModel, p: Seq<u8>, content: Seq<u8>, now: u64)
    requires
        s.current_keys.dom().contains(p),
        sendable_for_send(s, s.current_keys[p]),
    ensures
        ({
            let k = s.current_keys[p];
            let gw = s.clients[k].1;
            let (r, res) = s.send_to_principal(p, content, now);
            let key = message_key(gw, s.gateways[gw].nonce as nat);
            let bytes = cbor_websocket_message((k, (s.outgoing[k] + 1) as u64, now, false, content));
            &&& res is Ok
            &&& r.gateways[gw].queue.len() > 0
            &&& r.gateways[gw].queue.last() == (k, key, bytes)
            &&& r.cert.dom().contains(key)
            &&& r.cert[key] == sha256_of(bytes)
        }),
{
}

} // verus!

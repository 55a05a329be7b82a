//! The library's state and the operations that change it.
use crate::encoding::candid_service_message;
use crate::errors::{
    client_key_not_connected_text, client_not_registered_to_gateway_text, client_principal_not_connected_text,
    decode_service_message_content_text, expected_incoming_not_initialized_text, gateway_not_registered_text,
    invalid_service_message_text, outgoing_not_initialized_text, WsError,
};
use crate::external::{cbor_self_describe_tag, cert_tree_range_witness, cert_tree_root, cert_tree_witness, cert_tree_root_hash, labeled_hash, labeled_hash_prefix, cert_tree_contents, cert_tree_delete, cert_tree_insert, cert_tree_new, sha256_digest, sha256_of, CertTree};
use crate::gateway::{is_expired, GatewayModel, RegisteredGateway};
use crate::model::{lemma_bounded_mono, lemma_remove_client_frame, lemma_send_frame, keys_of_gateways, first_not_before, lemma_first_not_before_bounds, with_key, without_key, WsModel, COUNTER_LIMIT};
use crate::principal::{principal_views, Principal};
use crate::text::{format_message_for_gateway_key, message_key, string_lt};
use crate::types::{
    CallbackV, CanisterCloseMessageContent, CanisterWsMessageResult, ClientKeepAliveMessageContent, CanisterOutputMessage, CloseMessageReason, WebsocketServiceMessageContent, CanisterSendResult, ClientKey, KeyV, OnCloseCallbackArgs, RegisteredClient,
    WebsocketMessage, WsCallback, outcome, client_key_views, CanisterAckMessageContent, messages_view, CanisterOutputCertifiedMessages, CanisterWsGetMessagesResult,
};
use crate::vec_map::VecMap;
use crate::{DEFAULT_CLIENT_KEEP_ALIVE_TIMEOUT_MS, LABEL_WEBSOCKET, DEFAULT_MAX_NUMBER_OF_RETURNED_MESSAGES, DEFAULT_SEND_ACK_INTERVAL_MS, INITIAL_CANISTER_SEQUENCE_NUM, INITIAL_CLIENT_SEQUENCE_NUM, MESSAGES_TO_DELETE_COUNT};
use vstd::prelude::*;

verus! {

/// The state of the library: clients, gateways, message queues, the
/// certification tree, the parameters, and the handler calls that are due.
pub struct WsState {
    registered_clients: VecMap<ClientKey, RegisteredClient>,
    current_client_key_map: VecMap<Principal, ClientKey>,
    clients_waiting_for_keep_alive: VecMap<ClientKey, ()>,
    outgoing_message_to_client_num_map: VecMap<ClientKey, u64>,
    incoming_message_from_client_num_map: VecMap<ClientKey, u64>,
    cert_tree: CertTree,
    registered_gateways: VecMap<Principal, RegisteredGateway>,
    gateways_to_remove: VecMap<Principal, u64>,
    max_number_of_returned_messages: usize,
    send_ack_interval_ms: u64,
    keep_alive_timeout_ms: u64,
    pending_callbacks: Vec<WsCallback>,
}

/// Where the messages that a poll returns start and end in a gateway's queue, and
/// whether that is the end of the queue.
pub struct MessagesForGatewayRange {
    pub start_index: usize,
    pub end_index: usize,
    pub is_end_of_queue: bool,
}

/// The bytes of the data certificate that a poll hands on: none when there is none.
pub open spec fn certificate_bytes(certificate: Option<Vec<u8>>) -> Seq<u8> {
    match certificate {
        Some(c) => c@,
        None => Seq::empty(),
    }
}

/// The answer to a poll that returns nothing: no messages and the end of the queue.
pub fn get_cert_messages_empty() -> (res: CanisterWsGetMessagesResult)
    ensures
        res matches Ok(m) && m.messages@.len() == 0 && m.cert@.len() == 0 && m.tree@.len() == 0 && m.is_end_of_queue,
{
    Ok(CanisterOutputCertifiedMessages::empty())
}

/// The gateway's counters are at most [`COUNTER_LIMIT`] and none of its messages
/// was queued after `now`.
pub open spec fn gateway_within(g: GatewayModel, now: u64) -> bool {
    &&& g.nonce <= COUNTER_LIMIT
    &&& g.clients_count <= COUNTER_LIMIT
    &&& forall|i: int| 0 <= i < g.timestamps.len() ==> g.timestamps[i] <= now
}

impl View for WsState {
    type V = WsModel;

    closed spec fn view(&self) -> WsModel {
        WsModel {
            clients: self.registered_clients@,
            client_order: self.registered_clients.keys(),
            current_keys: self.current_client_key_map@,
            waiting: self.clients_waiting_for_keep_alive.keys(),
            outgoing: self.outgoing_message_to_client_num_map@,
            incoming: self.incoming_message_from_client_num_map@,
            cert: cert_tree_contents(self.cert_tree),
            gateways: self.registered_gateways@,
            expiring: self.gateways_to_remove@,
            max_returned: self.max_number_of_returned_messages,
            ack_interval_ms: self.send_ack_interval_ms,
            keep_alive_timeout_ms: self.keep_alive_timeout_ms,
            callbacks: self.pending_callbacks@.map_values(|c: WsCallback| c@),
        }
    }
}

impl WsState {
    /// The certification tree, whose entries are the view's `cert` and whose shape
    /// decides its root hash and its witnesses.
    pub closed spec fn certification_tree(&self) -> CertTree {
        self.cert_tree
    }

    /// The entries of the certification tree are the view's `cert`.
    pub proof fn lemma_certification_tree(&self)
        ensures
            cert_tree_contents(self.certification_tree()) == self@.cert,
    {
    }

    /// The maps of the state are well formed.
    pub closed spec fn wf(&self) -> bool {
        &&& self.registered_clients.wf()
        &&& self.current_client_key_map.wf()
        &&& self.clients_waiting_for_keep_alive.wf()
        &&& self.outgoing_message_to_client_num_map.wf()
        &&& self.incoming_message_from_client_num_map.wf()
        &&& self.registered_gateways.wf()
        &&& self.gateways_to_remove.wf()
    }

    /// What every state of the library satisfies.
    pub open spec fn inv(&self) -> bool {
        self.wf() && self@.inv()
    }

    proof fn lemma_orders(&self)
        requires
            self.wf(),
        ensures
            self@.client_order.no_duplicates(),
            forall|k: KeyV| #[trigger] self@.clients.dom().contains(k) <==> self@.client_order.contains(k),
            self@.waiting.no_duplicates(),
            forall|k: KeyV| #[trigger] self.clients_waiting_for_keep_alive@.dom().contains(k) <==> self@.waiting.contains(k),
    {
        self.registered_clients.lemma_keys_match();
        self.clients_waiting_for_keep_alive.lemma_keys_match();
    }

    /// The state before any operation, with the default parameters.
    pub fn new() -> (s: WsState)
        ensures
            s.inv(),
            s@ == WsModel::initial(DEFAULT_MAX_NUMBER_OF_RETURNED_MESSAGES, DEFAULT_SEND_ACK_INTERVAL_MS, DEFAULT_CLIENT_KEEP_ALIVE_TIMEOUT_MS),
    {
        let s = WsState {
            registered_clients: VecMap::new(),
            current_client_key_map: VecMap::new(),
            clients_waiting_for_keep_alive: VecMap::new(),
            outgoing_message_to_client_num_map: VecMap::new(),
            incoming_message_from_client_num_map: VecMap::new(),
            cert_tree: cert_tree_new(),
            registered_gateways: VecMap::new(),
            gateways_to_remove: VecMap::new(),
            max_number_of_returned_messages: DEFAULT_MAX_NUMBER_OF_RETURNED_MESSAGES,
            send_ack_interval_ms: DEFAULT_SEND_ACK_INTERVAL_MS,
            keep_alive_timeout_ms: DEFAULT_CLIENT_KEEP_ALIVE_TIMEOUT_MS,
            pending_callbacks: Vec::new(),
        };
        assert(s@.callbacks =~= Seq::<CallbackV>::empty());
        assert(s@.cert =~= Map::<Seq<char>, Seq<u8>>::empty());
        assert(s@ =~= WsModel::initial(DEFAULT_MAX_NUMBER_OF_RETURNED_MESSAGES, DEFAULT_SEND_ACK_INTERVAL_MS, DEFAULT_CLIENT_KEEP_ALIVE_TIMEOUT_MS));
        s
    }

    /// Sets the maximum number of messages returned by a poll, the acknowledgement
    /// interval and the keep-alive timeout.
    pub fn set_params(&mut self, max_number_of_returned_messages: usize, send_ack_interval_ms: u64, keep_alive_timeout_ms: u64)
        requires
            old(self).inv(),
        ensures
            final(self).inv(),
            final(self)@ == (WsModel {
                max_returned: max_number_of_returned_messages,
                ack_interval_ms: send_ack_interval_ms,
                keep_alive_timeout_ms,
                ..old(self)@
            }),
    {
        self.max_number_of_returned_messages = max_number_of_returned_messages;
        self.send_ack_interval_ms = send_ack_interval_ms;
        self.keep_alive_timeout_ms = keep_alive_timeout_ms;
        assert(self@ =~= (WsModel {
            max_returned: max_number_of_returned_messages,
            ack_interval_ms: send_ack_interval_ms,
            keep_alive_timeout_ms,
            ..old(self)@
        }));
    }

    /// The maximum number of messages returned by a poll.
    pub fn max_number_of_returned_messages(&self) -> (n: usize)
        ensures
            n == self@.max_returned,
    {
        self.max_number_of_returned_messages
    }

    /// The interval at which acknowledgements are sent, in milliseconds.
    pub fn send_ack_interval_ms(&self) -> (ms: u64)
        ensures
            ms == self@.ack_interval_ms,
    {
        self.send_ack_interval_ms
    }

    /// The time a client has to send a keep alive after an acknowledgement, in milliseconds.
    pub fn keep_alive_timeout_ms(&self) -> (ms: u64)
        ensures
            ms == self@.keep_alive_timeout_ms,
    {
        self.keep_alive_timeout_ms
    }

    /// Hands out the handler calls that are due, in order, and forgets them.
    pub fn take_callbacks(&mut self) -> (calls: Vec<WsCallback>)
        requires
            old(self).inv(),
        ensures
            final(self).inv(),
            calls@.map_values(|c: WsCallback| c@) == old(self)@.callbacks,
            final(self)@ == (WsModel { callbacks: Seq::empty(), ..old(self)@ }),
    {
        let mut calls: Vec<WsCallback> = Vec::new();
        std::mem::swap(&mut calls, &mut self.pending_callbacks);
        assert(self@ =~= (WsModel { callbacks: Seq::empty(), ..old(self)@ }));
        calls
    }

    /// The certification tree, for the root hash and the witnesses.
    pub(crate) fn cert_tree(&self) -> (t: &CertTree)
        ensures
            cert_tree_contents(*t) == self@.cert,
    {
        &self.cert_tree
    }

    pub(crate) fn push_callback(&mut self, call: WsCallback)
        requires
            old(self).inv(),
        ensures
            final(self).inv(),
            final(self)@ == (WsModel { callbacks: old(self)@.callbacks.push(call@), ..old(self)@ }),
    {
        self.pending_callbacks.push(call);
        assert(self@ =~= (WsModel { callbacks: old(self)@.callbacks.push(call@), ..old(self)@ }));
    }

    /// Removes the given keys from the certification tree.
    pub(crate) fn delete_keys_from_cert_tree(&mut self, keys: Vec<String>)
        requires
            old(self).inv(),
        ensures
            final(self).inv(),
            final(self)@ == (WsModel {
                cert: old(self)@.cert.remove_keys(keys@.map_values(|k: String| k@).to_set()),
                ..old(self)@
            }),
    {
        let ghost ks = keys@.map_values(|k: String| k@);
        let mut i: usize = 0;
        while i < keys.len()
            invariant
                old(self).inv(),
                self.inv(),
                i <= keys@.len(),
                ks == keys@.map_values(|k: String| k@),
                self@ == (WsModel { cert: old(self)@.cert.remove_keys(ks.take(i as int).to_set()), ..old(self)@ }),
            decreases keys@.len() - i,
        {
            cert_tree_delete(&mut self.cert_tree, &keys[i]);
            proof {
                assert(ks[i as int] == keys@[i as int]@);
                assert(ks.take(i + 1) =~= ks.take(i as int).push(ks[i as int]));
                ks.take(i as int).lemma_push_to_set_commute(ks[i as int]);
                assert(ks.take(i + 1).to_set() =~= ks.take(i as int).to_set().insert(keys@[i as int]@));
                assert(old(self)@.cert.remove_keys(ks.take(i + 1).to_set()) =~= old(self)@.cert.remove_keys(ks.take(i as int).to_set()).remove(keys@[i as int]@));
            }
            i = i + 1;
            assert(self@ =~= (WsModel { cert: old(self)@.cert.remove_keys(ks.take(i as int).to_set()), ..old(self)@ }));
        }
        assert(ks.take(keys@.len() as int) =~= ks);
    }

    /// Certifies `value` under `key`: the tree maps the key to the SHA-256 of the value.
    pub(crate) fn put_cert_for_message(&mut self, key: String, value: &Vec<u8>)
        requires
            old(self).inv(),
        ensures
            final(self).inv(),
            final(self)@ == (WsModel { cert: old(self)@.cert.insert(key@, sha256_of(value@)), ..old(self)@ }),
    {
        let ghost k = key@;
        let hash = sha256_digest(value.as_slice());
        cert_tree_insert(&mut self.cert_tree, key, hash);
        assert(self@ =~= (WsModel { cert: old(self)@.cert.insert(k, sha256_of(value@)), ..old(self)@ }));
    }

    /// Adds one client to the gateway `gw`, registering the gateway if it is new.
    fn increment_gateway_clients_count(&mut self, gw: Principal)
        requires
            old(self).inv(),
            old(self)@.gateways.dom().contains(gw@) ==> old(self)@.gateways[gw@].clients_count < u64::MAX,
        ensures
            final(self).inv(),
            final(self)@ == old(self)@.increment_gateway_clients_count(gw@),
    {
        let _ = self.gateways_to_remove.remove(&gw);
        let mut g = match self.registered_gateways.remove(&gw) {
            Some(g) => g,
            None => RegisteredGateway::new(),
        };
        g.increment_clients_count();
        self.registered_gateways.insert(gw, g);
        proof {
            let m = old(self)@.increment_gateway_clients_count(gw@);
            assert(self@.gateways =~= m.gateways);
            assert(self@ =~= m);
            assert forall|x: Seq<u8>| #[trigger] self@.gateways.dom().contains(x) implies self@.gateways[x].wf() by {
                if x != gw@ {
                    assert(old(self)@.gateways.dom().contains(x));
                }
            }
        }
    }

    /// Takes one client off the gateway `gw`, if it is registered.
    fn decrement_gateway_clients_count(&mut self, gw: &Principal, now: u64)
        requires
            old(self).inv(),
        ensures
            final(self).inv(),
            final(self)@ == old(self)@.decrement_gateway_clients_count(gw@, now),
    {
        match self.registered_gateways.remove(gw) {
            None => {
                assert(self@ =~= old(self)@);
            },
            Some(mut g) => {
                let c = g.decrement_clients_count();
                self.registered_gateways.insert(gw.clone(), g);
                if c == 0 {
                    self.gateways_to_remove.insert(gw.clone(), now);
                }
                proof {
                    let m = old(self)@.decrement_gateway_clients_count(gw@, now);
                    assert(self@.gateways =~= m.gateways);
                    assert(self@ =~= m);
                    assert forall|x: Seq<u8>| #[trigger] self@.gateways.dom().contains(x) implies self@.gateways[x].wf() by {
                        if x != gw@ {
                            assert(old(self)@.gateways.dom().contains(x));
                        }
                    }
                }
            },
        }
    }

    /// The metadata of the client, or the error that it has no open connection.
    pub fn get_registered_client(&self, client_key: &ClientKey) -> (res: Result<RegisteredClient, String>)
        requires
            self.inv(),
        ensures
            self@.clients.dom().contains(client_key@) ==> (res matches Ok(c) && c@ == self@.clients[client_key@]),
            !self@.clients.dom().contains(client_key@)
                ==> (res matches Err(e) && e@ == client_key_not_connected_text(client_key@)),
    {
        match self.registered_clients.get(client_key) {
            Some(c) => Ok(c.clone()),
            None => Err(WsError::ClientKeyNotConnected { client_key: client_key.clone() }.to_string()),
        }
    }

    /// Whether the client has an open connection, as a result.
    pub fn check_registered_client_exists(&self, client_key: &ClientKey) -> (res: Result<(), String>)
        requires
            self.inv(),
        ensures
            outcome(res) == (if self@.clients.dom().contains(client_key@) {
                Ok(())
            } else {
                Err(client_key_not_connected_text(client_key@))
            }),
    {
        match self.get_registered_client(client_key) {
            Ok(_) => Ok(()),
            Err(e) => Err(e),
        }
    }

    /// The key of the current connection of the client principal.
    pub fn get_client_key_from_principal(&self, client_principal: &Principal) -> (res: Result<ClientKey, String>)
        requires
            self.inv(),
        ensures
            self@.current_keys.dom().contains(client_principal@)
                ==> (res matches Ok(k) && k@ == self@.current_keys[client_principal@]),
            !self@.current_keys.dom().contains(client_principal@)
                ==> (res matches Err(e) && e@ == client_principal_not_connected_text(client_principal@)),
    {
        match self.current_client_key_map.get(client_principal) {
            Some(k) => Ok(k.clone()),
            None => Err(WsError::ClientPrincipalNotConnected { client_principal: client_principal.clone() }.to_string()),
        }
    }

    /// Whether the client is registered to the gateway, as a result.
    pub fn check_client_registered_to_gateway(&self, client_key: &ClientKey, gateway_principal: &Principal) -> (res: Result<(), String>)
        requires
            self.inv(),
        ensures
            outcome(res) == (if !self@.clients.dom().contains(client_key@) {
                Err(client_key_not_connected_text(client_key@))
            } else if self@.clients[client_key@].1 != gateway_principal@ {
                Err(client_not_registered_to_gateway_text(client_key@, gateway_principal@))
            } else {
                Ok(())
            }),
    {
        let registered_client = match self.get_registered_client(client_key) {
            Ok(c) => c,
            Err(e) => return Err(e),
        };
        if registered_client.gateway_principal.same_as(gateway_principal) {
            Ok(())
        } else {
            Err(WsError::ClientNotRegisteredToGateway {
                client_key: client_key.clone(),
                gateway_principal: gateway_principal.clone(),
            }.to_string())
        }
    }

    /// The registered gateway, or the error that it is not registered.
    pub fn get_registered_gateway(&self, gateway_principal: &Principal) -> (res: Result<&RegisteredGateway, String>)
        requires
            self.inv(),
        ensures
            self@.gateways.dom().contains(gateway_principal@)
                ==> (res matches Ok(g) && g@ == self@.gateways[gateway_principal@]),
            !self@.gateways.dom().contains(gateway_principal@)
                ==> (res matches Err(e) && e@ == gateway_not_registered_text(gateway_principal@)),
    {
        match self.registered_gateways.get(gateway_principal) {
            Some(g) => Ok(g),
            None => Err(WsError::GatewayNotRegistered { gateway_principal: gateway_principal.clone() }.to_string()),
        }
    }

    /// Whether the gateway is registered, as a result.
    pub fn check_is_gateway_registered(&self, gateway_principal: &Principal) -> (res: Result<(), String>)
        requires
            self.inv(),
        ensures
            outcome(res) == (if self@.gateways.dom().contains(gateway_principal@) {
                Ok(())
            } else {
                Err(gateway_not_registered_text(gateway_principal@))
            }),
    {
        match self.get_registered_gateway(gateway_principal) {
            Ok(_) => Ok(()),
            Err(e) => Err(e),
        }
    }

    /// Whether the principal is a registered gateway.
    pub fn is_registered_gateway(&self, principal: &Principal) -> (registered: bool)
        requires
            self.inv(),
        ensures
            registered == self@.gateways.dom().contains(principal@),
    {
        self.get_registered_gateway(principal).is_ok()
    }

    /// The nonce of the next message for the gateway.
    pub fn get_outgoing_message_nonce(&self, gateway_principal: &Principal) -> (res: Result<u64, String>)
        requires
            self.inv(),
        ensures
            self@.gateways.dom().contains(gateway_principal@)
                ==> (res matches Ok(n) && n == self@.gateways[gateway_principal@].nonce),
            !self@.gateways.dom().contains(gateway_principal@)
                ==> (res matches Err(e) && e@ == gateway_not_registered_text(gateway_principal@)),
    {
        match self.get_registered_gateway(gateway_principal) {
            Ok(g) => Ok(g.outgoing_message_nonce),
            Err(e) => Err(e),
        }
    }

    /// Increments the nonce of the gateway's next message.
    pub(crate) fn increment_outgoing_message_nonce(&mut self, gateway_principal: &Principal) -> (res: Result<(), String>)
        requires
            old(self).inv(),
            old(self)@.gateways.dom().contains(gateway_principal@)
                ==> old(self)@.gateways[gateway_principal@].nonce < u64::MAX,
        ensures
            final(self).inv(),
            old(self)@.gateways.dom().contains(gateway_principal@) ==> {
                &&& res is Ok
                &&& final(self)@ == old(self)@.set_gateway(
                    gateway_principal@,
                    GatewayModel { nonce: (old(self)@.gateways[gateway_principal@].nonce + 1) as u64, ..old(self)@.gateways[gateway_principal@] },
                )
            },
            !old(self)@.gateways.dom().contains(gateway_principal@) ==> {
                &&& (res matches Err(e) && e@ == gateway_not_registered_text(gateway_principal@))
                &&& final(self)@ == old(self)@
            },
    {
        match self.registered_gateways.remove(gateway_principal) {
            Some(mut g) => {
                g.increment_nonce();
                self.registered_gateways.insert(gateway_principal.clone(), g);
                proof {
                    let gw = gateway_principal@;
                    let m = old(self)@.set_gateway(gw, GatewayModel { nonce: (old(self)@.gateways[gw].nonce + 1) as u64, ..old(self)@.gateways[gw] });
                    assert(self@.gateways =~= m.gateways);
                    assert(self@ =~= m);
                    assert forall|x: Seq<u8>| #[trigger] self@.gateways.dom().contains(x) implies self@.gateways[x].wf() by {
                        if x != gw {
                            assert(old(self)@.gateways.dom().contains(x));
                        }
                    }
                }
                Ok(())
            },
            None => {
                assert(self@ =~= old(self)@);
                Err(WsError::GatewayNotRegistered { gateway_principal: gateway_principal.clone() }.to_string())
            },
        }
    }

    /// Records `client_key` as the current connection of its principal and registers the client.
    pub(crate) fn insert_client(&mut self, client_key: ClientKey, new_client: RegisteredClient)
        requires
            old(self).inv(),
        ensures
            final(self).inv(),
            final(self)@ == (WsModel {
                current_keys: old(self)@.current_keys.insert(client_key@.0, client_key@),
                clients: old(self)@.clients.insert(client_key@, new_client@),
                client_order: with_key(old(self)@.client_order, client_key@),
                ..old(self)@
            }),
    {
        proof {
            self.lemma_orders();
        }
        let ghost k = client_key@;
        self.current_client_key_map.insert(client_key.client_principal.clone(), client_key.clone());
        self.registered_clients.insert(client_key, new_client);
        proof {
            self.lemma_orders();
            assert(old(self)@.clients.dom().contains(k) == old(self)@.client_order.contains(k));
        }
    }

    /// Awaits a keep alive from the client.
    pub(crate) fn add_client_to_wait_for_keep_alive(&mut self, client_key: &ClientKey)
        requires
            old(self).inv(),
        ensures
            final(self).inv(),
            final(self)@ == (WsModel { waiting: with_key(old(self)@.waiting, client_key@), ..old(self)@ }),
    {
        proof {
            self.lemma_orders();
        }
        self.clients_waiting_for_keep_alive.insert(client_key.clone(), ());
        proof {
            self.lemma_orders();
            assert(old(self).clients_waiting_for_keep_alive@.dom().contains(client_key@) == old(self)@.waiting.contains(client_key@));
        }
    }

    /// Sets the sequence number of the last message sent to the client to the initial one.
    pub(crate) fn init_outgoing_message_to_client_num(&mut self, client_key: ClientKey)
        requires
            old(self).inv(),
        ensures
            final(self).inv(),
            final(self)@ == (WsModel {
                outgoing: old(self)@.outgoing.insert(client_key@, INITIAL_CANISTER_SEQUENCE_NUM),
                ..old(self)@
            }),
    {
        self.outgoing_message_to_client_num_map.insert(client_key, INITIAL_CANISTER_SEQUENCE_NUM);
    }

    /// The sequence number of the last message sent to the client.
    pub fn get_outgoing_message_to_client_num(&self, client_key: &ClientKey) -> (res: Result<u64, String>)
        requires
            self.inv(),
        ensures
            self@.outgoing.dom().contains(client_key@) ==> (res matches Ok(n) && n == self@.outgoing[client_key@]),
            !self@.outgoing.dom().contains(client_key@)
                ==> (res matches Err(e) && e@ == outgoing_not_initialized_text(client_key@)),
    {
        match self.outgoing_message_to_client_num_map.get(client_key) {
            Some(n) => Ok(*n),
            None => Err(WsError::OutgoingMessageToClientNumNotInitialized { client_key: client_key.clone() }.to_string()),
        }
    }

    /// Increments the sequence number of the last message sent to the client.
    pub(crate) fn increment_outgoing_message_to_client_num(&mut self, client_key: &ClientKey) -> (res: Result<(), String>)
        requires
            old(self).inv(),
            old(self)@.outgoing.dom().contains(client_key@) ==> old(self)@.outgoing[client_key@] < u64::MAX,
        ensures
            final(self).inv(),
            old(self)@.outgoing.dom().contains(client_key@) ==> {
                &&& res is Ok
                &&& final(self)@ == (WsModel {
                    outgoing: old(self)@.outgoing.insert(client_key@, (old(self)@.outgoing[client_key@] + 1) as u64),
                    ..old(self)@
                })
            },
            !old(self)@.outgoing.dom().contains(client_key@) ==> {
                &&& (res matches Err(e) && e@ == outgoing_not_initialized_text(client_key@))
                &&& final(self)@ == old(self)@
            },
    {
        match self.outgoing_message_to_client_num_map.get(client_key) {
            Some(n) => {
                let next = *n + 1;
                self.outgoing_message_to_client_num_map.insert(client_key.clone(), next);
                Ok(())
            },
            None => Err(WsError::OutgoingMessageToClientNumNotInitialized { client_key: client_key.clone() }.to_string()),
        }
    }

    /// Sets the sequence number expected in the next message from the client to the initial one.
    pub(crate) fn init_expected_incoming_message_from_client_num(&mut self, client_key: ClientKey)
        requires
            old(self).inv(),
        ensures
            final(self).inv(),
            final(self)@ == (WsModel {
                incoming: old(self)@.incoming.insert(client_key@, INITIAL_CLIENT_SEQUENCE_NUM),
                ..old(self)@
            }),
    {
        let ghost k = client_key@;
        self.incoming_message_from_client_num_map.insert(client_key, INITIAL_CLIENT_SEQUENCE_NUM);
        proof {
            assert forall|x: KeyV| #[trigger] self@.incoming.dom().contains(x) implies self@.incoming[x] >= 1 by {
                if x != k {
                    assert(old(self)@.incoming.dom().contains(x));
                }
            }
        }
    }

    /// The sequence number expected in the next message from the client.
    pub fn get_expected_incoming_message_from_client_num(&self, client_key: &ClientKey) -> (res: Result<u64, String>)
        requires
            self.inv(),
        ensures
            self@.incoming.dom().contains(client_key@) ==> (res matches Ok(n) && n == self@.incoming[client_key@]),
            !self@.incoming.dom().contains(client_key@)
                ==> (res matches Err(e) && e@ == expected_incoming_not_initialized_text(client_key@)),
    {
        match self.incoming_message_from_client_num_map.get(client_key) {
            Some(n) => Ok(*n),
            None => Err(WsError::ExpectedIncomingMessageToClientNumNotInitialized { client_key: client_key.clone() }.to_string()),
        }
    }

    /// Increments the sequence number expected in the next message from the client.
    pub(crate) fn increment_expected_incoming_message_from_client_num(&mut self, client_key: &ClientKey) -> (res: Result<(), String>)
        requires
            old(self).inv(),
            old(self)@.incoming.dom().contains(client_key@) ==> old(self)@.incoming[client_key@] < u64::MAX,
        ensures
            final(self).inv(),
            old(self)@.incoming.dom().contains(client_key@) ==> {
                &&& res is Ok
                &&& final(self)@ == (WsModel {
                    incoming: old(self)@.incoming.insert(client_key@, (old(self)@.incoming[client_key@] + 1) as u64),
                    ..old(self)@
                })
            },
            !old(self)@.incoming.dom().contains(client_key@) ==> {
                &&& (res matches Err(e) && e@ == expected_incoming_not_initialized_text(client_key@))
                &&& final(self)@ == old(self)@
            },
    {
        let ghost k = client_key@;
        match self.incoming_message_from_client_num_map.get(client_key) {
            Some(n) => {
                let next = *n + 1;
                self.incoming_message_from_client_num_map.insert(client_key.clone(), next);
                proof {
                    assert forall|x: KeyV| #[trigger] self@.incoming.dom().contains(x) implies self@.incoming[x] >= 1 by {
                        if x != k {
                            assert(old(self)@.incoming.dom().contains(x));
                        }
                    }
                }
                Ok(())
            },
            None => Err(WsError::ExpectedIncomingMessageToClientNumNotInitialized { client_key: client_key.clone() }.to_string()),
        }
    }

    /// Registers the client `client_key` with the metadata `new_client`, with fresh
    /// sequence numbers, and adds it to its gateway.
    pub(crate) fn add_client(&mut self, client_key: ClientKey, new_client: RegisteredClient)
        requires
            old(self).inv(),
            old(self)@.gateways.dom().contains(new_client@.1) ==> old(self)@.gateways[new_client@.1].clients_count < u64::MAX,
        ensures
            final(self).inv(),
            final(self)@ == old(self)@.add_client(client_key@, new_client@),
    {
        let gw = new_client.gateway_principal.clone();
        self.insert_client(client_key.clone(), new_client);
        self.init_expected_incoming_message_from_client_num(client_key.clone());
        self.init_outgoing_message_to_client_num(client_key);
        self.increment_gateway_clients_count(gw);
    }

    /// Removes the expired oldest messages of the gateway from its queue and from
    /// the certification tree.
    pub(crate) fn delete_old_messages_for_gateway(&mut self, gateway_principal: &Principal, now: u64) -> (res: Result<(), String>)
        requires
            old(self).inv(),
            old(self)@.gateways.dom().contains(gateway_principal@) ==> forall|i: int|
                0 <= i < old(self)@.gateways[gateway_principal@].timestamps.len()
                    ==> old(self)@.gateways[gateway_principal@].timestamps[i] <= now,
        ensures
            final(self).inv(),
            old(self)@.gateways.dom().contains(gateway_principal@) ==> {
                &&& res is Ok
                &&& final(self)@ == old(self)@.delete_old_messages(gateway_principal@, now)
            },
            !old(self)@.gateways.dom().contains(gateway_principal@) ==> {
                &&& (res matches Err(e) && e@ == gateway_not_registered_text(gateway_principal@))
                &&& final(self)@ == old(self)@
            },
    {
        let gw = gateway_principal;
        let ghost g0 = old(self)@.gateways[gw@];
        match self.registered_gateways.remove(gw) {
            Some(mut g) => {
                let deleted = g.delete_old_messages(MESSAGES_TO_DELETE_COUNT, self.send_ack_interval_ms, now);
                let ghost g2 = g@;
                let ghost dm = crate::gateway::expired_prefix_len(g0.timestamps, MESSAGES_TO_DELETE_COUNT as nat, old(self)@.ack_interval_ms, now) as int;
                proof {
                    crate::gateway::lemma_expired_prefix_bounds(g0.timestamps, 0, MESSAGES_TO_DELETE_COUNT as nat, old(self)@.ack_interval_ms, now);
                }
                self.registered_gateways.insert(gw.clone(), g);
                proof {
                    assert forall|x: Seq<u8>| #[trigger] self@.gateways.dom().contains(x) implies self@.gateways[x].wf() by {
                        if x != gw@ {
                            assert(old(self)@.gateways.dom().contains(x));
                        }
                    }
                    assert forall|x: Seq<u8>, i: int| #![trigger self@.gateways[x].queue[i]]
                        self@.gateways.dom().contains(x) && 0 <= i < self@.gateways[x].queue.len()
                        implies vstd::utf8::is_ascii_chars(self@.gateways[x].queue[i].1) by {
                        if x != gw@ {
                            assert(old(self)@.gateways.dom().contains(x));
                            assert(self@.gateways[x] == old(self)@.gateways[x]);
                        } else {
                            assert(g2.queue[i] == g0.queue[i + dm]);
                            assert(old(self)@.gateways[gw@].queue[i + dm] == g0.queue[i + dm]);
                        }
                    }
                    assert forall|x: KeyV| #[trigger] self@.incoming.dom().contains(x) implies self@.incoming[x] >= 1 by {
                        assert(old(self)@.incoming.dom().contains(x));
                    }
                    assert(self@.client_order == old(self)@.client_order);
                    assert(self@.clients == old(self)@.clients);
                    assert(self@.waiting == old(self)@.waiting);
                }
                self.delete_keys_from_cert_tree(deleted);
                proof {
                    let m = old(self)@.delete_old_messages(gw@, now);
                    assert(self@.gateways =~= m.gateways);
                    assert(self@ =~= m);
                }
                Ok(())
            },
            None => {
                assert(self@ =~= old(self)@);
                Err(WsError::GatewayNotRegistered { gateway_principal: gateway_principal.clone() }.to_string())
            },
        }
    }

    /// Adds the message to the queue of the gateway, with the time `message_timestamp`.
    pub(crate) fn push_message_in_gateway_queue(
        &mut self,
        gateway_principal: &Principal,
        message: CanisterOutputMessage,
        message_timestamp: u64,
    ) -> (res: Result<(), String>)
        requires
            old(self).inv(),
            vstd::utf8::is_ascii_chars(message.key@),
        ensures
            final(self).inv(),
            old(self)@.gateways.dom().contains(gateway_principal@) ==> {
                &&& res is Ok
                &&& final(self)@ == old(self)@.set_gateway(gateway_principal@, GatewayModel {
                    queue: old(self)@.gateways[gateway_principal@].queue.push(message@),
                    timestamps: old(self)@.gateways[gateway_principal@].timestamps.push(message_timestamp),
                    ..old(self)@.gateways[gateway_principal@]
                })
            },
            !old(self)@.gateways.dom().contains(gateway_principal@) ==> {
                &&& (res matches Err(e) && e@ == gateway_not_registered_text(gateway_principal@))
                &&& final(self)@ == old(self)@
            },
    {
        let gw = gateway_principal;
        let ghost msg = message@;
        let ghost g0 = old(self)@.gateways[gw@];
        match self.registered_gateways.remove(gw) {
            Some(mut g) => {
                g.add_message_to_queue(message, message_timestamp);
                self.registered_gateways.insert(gw.clone(), g);
                proof {
                    let m = old(self)@.set_gateway(gw@, GatewayModel {
                        queue: g0.queue.push(msg),
                        timestamps: g0.timestamps.push(message_timestamp),
                        ..g0
                    });
                    assert(self@.gateways =~= m.gateways);
                    assert(self@ =~= m);
                    assert forall|x: Seq<u8>| #[trigger] self@.gateways.dom().contains(x) implies self@.gateways[x].wf() by {
                        if x != gw@ {
                            assert(old(self)@.gateways.dom().contains(x));
                        }
                    }
                    assert forall|x: Seq<u8>, i: int| #![trigger self@.gateways[x].queue[i]]
                        self@.gateways.dom().contains(x) && 0 <= i < self@.gateways[x].queue.len()
                        implies vstd::utf8::is_ascii_chars(self@.gateways[x].queue[i].1) by {
                        if x != gw@ {
                            assert(old(self)@.gateways.dom().contains(x));
                            assert(self@.gateways[x] == old(self)@.gateways[x]);
                        } else if i < g0.queue.len() {
                            assert(old(self)@.gateways[gw@].queue[i] == g0.queue[i]);
                        }
                    }
                }
                Ok(())
            },
            None => {
                assert(self@ =~= old(self)@);
                Err(WsError::GatewayNotRegistered { gateway_principal: gateway_principal.clone() }.to_string())
            },
        }
    }

    /// Puts the message in the queue of the client's gateway and certifies it.
    pub(crate) fn send_message(&mut self, client_key: &ClientKey, msg_bytes: Vec<u8>, is_service_message: bool, now: u64) -> (res: CanisterSendResult)
        requires
            old(self).inv(),
            old(self)@.bounded(now, u64::MAX - 1),
        ensures
            final(self).inv(),
            (final(self)@, outcome(res)) == old(self)@.send(client_key@, msg_bytes@, is_service_message, now),
    {
        let ghost k = client_key@;
        let registered_client = match self.get_registered_client(client_key) {
            Ok(c) => c,
            Err(e) => return Err(e),
        };
        let gw = registered_client.gateway_principal;
        let outgoing_message_nonce = match self.get_outgoing_message_nonce(&gw) {
            Ok(n) => n,
            Err(e) => return Err(e),
        };
        let gw_text = gw.to_text();
        let message_key = format_message_for_gateway_key(&gw_text, outgoing_message_nonce);
        if let Err(e) = self.increment_outgoing_message_nonce(&gw) {
            return Err(e);
        }
        let ghost s1 = self@;
        if let Err(e) = self.increment_outgoing_message_to_client_num(client_key) {
            return Err(e);
        }
        let sequence_num = match self.get_outgoing_message_to_client_num(client_key) {
            Ok(n) => n,
            Err(e) => return Err(e),
        };
        let websocket_message = WebsocketMessage {
            client_key: client_key.clone(),
            sequence_num,
            timestamp: now,
            is_service_message,
            content: msg_bytes,
        };
        let message_content = match websocket_message.cbor_serialize() {
            Ok(bytes) => bytes,
            Err(e) => return Err(e),
        };
        if let Err(e) = self.delete_old_messages_for_gateway(&gw, now) {
            return Err(e);
        }
        self.put_cert_for_message(message_key.clone(), &message_content);
        self.push_message_in_gateway_queue(
            &gw,
            CanisterOutputMessage { client_key: client_key.clone(), key: message_key, content: message_content },
            now,
        )
    }

    /// Forgets the client `client_key`; with a reason, sends it a close message first.
    pub(crate) fn remove_client(&mut self, client_key: &ClientKey, close_reason: Option<CloseMessageReason>, now: u64)
        requires
            old(self).inv(),
            old(self)@.bounded(now, u64::MAX - 1),
        ensures
            final(self).inv(),
            final(self)@ == old(self)@.remove_client(client_key@, close_reason, now),
    {
        let ghost k = client_key@;
        if let Some(reason) = close_reason {
            let message = WebsocketServiceMessageContent::CloseMessage(CanisterCloseMessageContent { reason });
            let _ = self.send_message(client_key, message.candid_encode(), true, now);
        }
        let ghost s1 = self@;
        proof {
            self.lemma_orders();
            assert(s1.waiting.contains(k) == self.clients_waiting_for_keep_alive@.dom().contains(k));
        }
        let _ = self.clients_waiting_for_keep_alive.remove(client_key);
        let _ = self.current_client_key_map.remove(&client_key.client_principal);
        let _ = self.outgoing_message_to_client_num_map.remove(client_key);
        let _ = self.incoming_message_from_client_num_map.remove(client_key);
        proof {
            assert(self@.waiting == without_key(s1.waiting, k));
            assert forall|x: KeyV| #[trigger] self@.incoming.dom().contains(x) implies self@.incoming[x] >= 1 by {
                assert(s1.incoming.dom().contains(x));
            }
            self.lemma_orders();
            assert(self@ =~= (WsModel {
                waiting: without_key(s1.waiting, k),
                current_keys: s1.current_keys.remove(k.0),
                outgoing: s1.outgoing.remove(k),
                incoming: s1.incoming.remove(k),
                ..s1
            }));
            assert(s1.clients.dom().contains(k) == s1.client_order.contains(k));
        }
        match self.registered_clients.remove(client_key) {
            Some(registered_client) => {
                proof {
                    self.lemma_orders();
                    assert(self@.client_order == without_key(s1.client_order, k));
                }
                self.decrement_gateway_clients_count(&registered_client.gateway_principal, now);
                self.push_callback(WsCallback::OnClose(OnCloseCallbackArgs { client_principal: client_key.client_principal.clone() }));
            },
            None => {},
        }
    }

    /// Sends the service message to the client, serialized in Candid.
    pub(crate) fn send_service_message_to_client(
        &mut self,
        client_key: &ClientKey,
        message: &WebsocketServiceMessageContent,
        now: u64,
    ) -> (res: Result<(), String>)
        requires
            old(self).inv(),
            old(self)@.bounded(now, u64::MAX - 1),
        ensures
            final(self).inv(),
            (final(self)@, outcome(res)) == old(self)@.send(client_key@, candid_service_message(message@), true, now),
    {
        self.send_message(client_key, message.candid_encode(), true, now)
    }

    /// Records a keep alive from the client: its last keep alive is now.
    fn handle_keep_alive_client_message(
        &mut self,
        client_key: &ClientKey,
        _keep_alive_message: ClientKeepAliveMessageContent,
        now: u64,
    )
        requires
            old(self).inv(),
        ensures
            final(self).inv(),
            final(self)@ == (if old(self)@.clients.dom().contains(client_key@) {
                WsModel {
                    clients: old(self)@.clients.insert(client_key@, (now, old(self)@.clients[client_key@].1)),
                    ..old(self)@
                }
            } else {
                old(self)@
            }),
    {
        let updated = match self.registered_clients.get(client_key) {
            Some(c) => {
                let mut c2 = c.clone();
                c2.update_last_keep_alive_timestamp(now);
                Some(c2)
            },
            None => None,
        };
        match updated {
            Some(c) => {
                self.registered_clients.insert(client_key.clone(), c);
                proof {
                    self.lemma_orders();
                }
            },
            None => {},
        }
    }

    /// Handles a service message from the client, given as what its content
    /// decodes to, or the decoding error: only a keep alive is accepted.
    pub(crate) fn handle_received_service_message(
        &mut self,
        client_key: &ClientKey,
        decoded: Result<WebsocketServiceMessageContent, String>,
        now: u64,
    ) -> (res: CanisterWsMessageResult)
        requires
            old(self).inv(),
        ensures
            final(self).inv(),
            ({
                let s = old(self)@;
                let k = client_key@;
                (final(self)@, outcome(res)) == match decoded {
                    Ok(WebsocketServiceMessageContent::KeepAliveMessage(_)) => (
                        if s.clients.dom().contains(k) {
                            WsModel { clients: s.clients.insert(k, (now, s.clients[k].1)), ..s }
                        } else {
                            s
                        },
                        Ok(()),
                    ),
                    Ok(_) => (s, Err(invalid_service_message_text())),
                    Err(e) => (s, Err(decode_service_message_content_text(e@))),
                }
            }),
    {
        match decoded {
            Err(err) => WsError::DecodeServiceMessageContent { err }.to_string_result(),
            Ok(WebsocketServiceMessageContent::KeepAliveMessage(keep_alive_message)) => {
                self.handle_keep_alive_client_message(client_key, keep_alive_message, now);
                Ok(())
            },
            Ok(_) => WsError::InvalidServiceMessage.to_string_result(),
        }
    }

    /// Where the messages that the gateway gets when it polls from `nonce` start
    /// and end in its queue: from the first message whose key does not come before
    /// the key of `nonce`, at most as many as a poll returns.
    pub fn get_messages_for_gateway_range(&self, gateway_principal: &Principal, nonce: u64) -> (r: MessagesForGatewayRange)
        requires
            self.inv(),
            self@.gateways.dom().contains(gateway_principal@),
        ensures
            r.start_index == self@.poll_range(gateway_principal@, nonce).start,
            r.end_index == self@.poll_range(gateway_principal@, nonce).end,
            r.is_end_of_queue == self@.poll_range(gateway_principal@, nonce).is_end_of_queue,
    {
        let max_number_of_returned_messages = self.max_number_of_returned_messages;
        let g = self.registered_gateways.get(gateway_principal).unwrap();
        let queue_len = g.messages_queue.len();
        let gw_text = gateway_principal.to_text();
        let smallest_key = format_message_for_gateway_key(&gw_text, nonce);
        let ghost keys = g@.keys();
        let ghost smallest = smallest_key@;
        proof {
            assert(smallest == message_key(gateway_principal@, nonce as nat));
            assert forall|i: int| 0 <= i < keys.len() implies vstd::utf8::is_ascii_chars(#[trigger] keys[i]) by {
                assert(self@.gateways[gateway_principal@].queue[i] == g@.queue[i]);
            }
        }
        let mut start_index: usize = 0;
        let mut found = false;
        while start_index < queue_len && !found
            invariant
                g@ == self@.gateways[gateway_principal@],
                keys == g@.keys(),
                queue_len == keys.len(),
                queue_len == g.messages_queue@.len(),
                start_index <= queue_len,
                vstd::utf8::is_ascii_chars(smallest_key@),
                smallest == smallest_key@,
                forall|i: int| 0 <= i < keys.len() ==> vstd::utf8::is_ascii_chars(#[trigger] keys[i]),
                first_not_before(keys, smallest, 0) == first_not_before(keys, smallest, start_index as nat),
                found ==> first_not_before(keys, smallest, start_index as nat) == start_index,
            decreases queue_len - start_index, if found { 0int } else { 1int },
        {
            let key = &g.messages_queue[start_index as usize].key;
            assert(key@ == keys[start_index as int]);
            if string_lt(key, &smallest_key) {
                start_index = start_index + 1;
            } else {
                found = true;
            }
        }
        let (end_index, is_end_of_queue) = if queue_len - start_index > max_number_of_returned_messages {
            (start_index + max_number_of_returned_messages, false)
        } else {
            (queue_len, true)
        };
        MessagesForGatewayRange { start_index, end_index, is_end_of_queue }
    }

    /// Copies of the messages from `start_index` to `end_index` (excluded) of the
    /// queue of the gateway.
    pub fn get_messages_for_gateway(&self, gateway_principal: &Principal, start_index: usize, end_index: usize) -> (messages: Vec<CanisterOutputMessage>)
        requires
            self.inv(),
            self@.gateways.dom().contains(gateway_principal@),
            start_index <= end_index <= self@.gateways[gateway_principal@].queue.len(),
        ensures
            messages_view(messages@) == self@.gateways[gateway_principal@].queue.subrange(start_index as int, end_index as int),
    {
        let g = self.registered_gateways.get(gateway_principal).unwrap();
        let ghost q = g@.queue;
        let mut messages: Vec<CanisterOutputMessage> = Vec::new();
        let mut index = start_index;
        while index < end_index
            invariant
                q == g@.queue,
                q == self@.gateways[gateway_principal@].queue,
                q.len() == g.messages_queue@.len(),
                start_index <= index <= end_index,
                end_index <= q.len(),
                messages_view(messages@) == q.subrange(start_index as int, index as int),
            decreases end_index - index,
        {
            let m = g.messages_queue[index].clone();
            proof {
                assert(m@ == q[index as int]);
            }
            let ghost before = messages@;
            messages.push(m);
            proof {
                assert(messages_view(messages@) =~= messages_view(before).push(m@));
                assert(q.subrange(start_index as int, index + 1) =~= q.subrange(start_index as int, index as int).push(q[index as int]));
            }
            index = index + 1;
        }
        messages
    }

    /// The messages that the gateway gets when it polls from `nonce`, with the
    /// witness of their certification and, when there is any message, the
    /// system's data certificate `certificate` (empty when there is none).
    pub fn get_cert_messages(&self, gateway_principal: &Principal, nonce: u64, certificate: Option<Vec<u8>>) -> (res: CanisterWsGetMessagesResult)
        requires
            self.inv(),
            self@.gateways.dom().contains(gateway_principal@),
        ensures
            res matches Ok(m) && {
                &&& messages_view(m.messages@) == self@.polled_messages(gateway_principal@, nonce)
                &&& m.is_end_of_queue == self@.polled_to_end(gateway_principal@, nonce)
                &&& m.messages@.len() == 0 ==> m.cert@.len() == 0 && m.tree@.len() == 0
                &&& m.messages@.len() > 0 ==> {
                    let polled = self@.polled_messages(gateway_principal@, nonce);
                    &&& m.cert@ == certificate_bytes(certificate)
                    &&& m.tree@ == cert_tree_witness(self.certification_tree(), LABEL_WEBSOCKET@, polled[0].1, polled.last().1)
                    &&& m.tree@.take(3) == cbor_self_describe_tag()
                }
            },
    {
        let r = self.get_messages_for_gateway_range(gateway_principal, nonce);
        proof {
            lemma_first_not_before_bounds(self@.gateways[gateway_principal@].keys(), message_key(gateway_principal@, nonce as nat), 0);
        }
        let messages = self.get_messages_for_gateway(gateway_principal, r.start_index, r.end_index);
        if messages.len() == 0 {
            return get_cert_messages_empty();
        }
        let first_key = &messages[0].key;
        let last_key = &messages[messages.len() - 1].key;
        proof {
            let mv = messages_view(messages@);
            assert(mv[0] == messages@[0]@);
            assert(mv[mv.len() - 1] == messages@[messages@.len() - 1]@);
        }
        let tree = self.get_cert_for_range(first_key, last_key);
        let cert = match certificate {
            Some(c) => c,
            None => Vec::new(),
        };
        Ok(CanisterOutputCertifiedMessages { messages, cert, tree, is_end_of_queue: r.is_end_of_queue })
    }

    /// The witness, in the certification tree under the `websocket` label, of the
    /// keys from `first` to `last`, as self-describing CBOR.
    fn get_cert_for_range(&self, first: &String, last: &String) -> (tree: Vec<u8>)
        ensures
            tree@ == cert_tree_witness(self.certification_tree(), LABEL_WEBSOCKET@, first@, last@),
            tree@.len() >= 3,
            tree@.take(3) == cbor_self_describe_tag(),
    {
        cert_tree_range_witness(&self.cert_tree, LABEL_WEBSOCKET.as_slice(), first, last)
    }

    /// The data that certifies the state of the certification tree: the labeled
    /// hash of its root under the `websocket` label.
    pub fn certified_data(&self) -> (hash: [u8; 32])
        ensures
            hash@ == sha256_of(labeled_hash_prefix() + LABEL_WEBSOCKET@ + cert_tree_root(self.certification_tree())),
    {
        let root = cert_tree_root_hash(&self.cert_tree);
        let hash = labeled_hash(LABEL_WEBSOCKET.as_slice(), &root);
        assert(hash@ == sha256_of(labeled_hash_prefix() + LABEL_WEBSOCKET@ + root@));
        hash
    }

    /// The gateways that have been without clients for longer than the
    /// acknowledgement interval, in the order in which they were left empty.
    fn expired_gateway_principals(&self, now: u64) -> (gws: Vec<Principal>)
        requires
            self.inv(),
            self@.bounded(now, u64::MAX as int),
        ensures
            forall|gw: Seq<u8>| #[trigger] self@.expired_gateways(now).contains(gw)
                <==> principal_views(gws@).contains(gw),
    {
        let ghost keys = self.gateways_to_remove.keys();
        proof {
            self.gateways_to_remove.lemma_keys_match();
        }
        let mut gws: Vec<Principal> = Vec::new();
        let mut i: usize = 0;
        while i < self.gateways_to_remove.len()
            invariant
                self.inv(),
                self@.bounded(now, u64::MAX as int),
                keys == self.gateways_to_remove.keys(),
                keys.no_duplicates(),
                forall|gw: Seq<u8>| #[trigger] self@.expiring.dom().contains(gw) <==> keys.contains(gw),
                i <= keys.len(),
                forall|gw: Seq<u8>| #[trigger] principal_views(gws@).contains(gw)
                    <==> (keys.take(i as int).contains(gw) && is_expired(self@.expiring[gw], self@.ack_interval_ms, now)),
            decreases keys.len() - i,
        {
            let gw = self.gateways_to_remove.key_at(i);
            let added_at = *self.gateways_to_remove.value_at(i);
            let ghost before = principal_views(gws@);
            proof {
                assert(keys.contains(keys[i as int]));
                assert(self@.expiring.dom().contains(gw@));
            }
            let expired = (now - added_at) as u128 > (self.send_ack_interval_ms as u128) * 1_000_000u128;
            assert(expired == is_expired(self@.expiring[gw@], self@.ack_interval_ms, now));
            if expired {
                gws.push(gw.clone());
                assert(principal_views(gws@) =~= before.push(gw@));
            }
            proof {
                assert(keys.take(i + 1) =~= keys.take(i as int).push(keys[i as int]));
                assert forall|x: Seq<u8>| #[trigger] principal_views(gws@).contains(x)
                    <==> (keys.take(i + 1).contains(x) && is_expired(self@.expiring[x], self@.ack_interval_ms, now)) by {
                    assert(keys.take(i + 1).contains(x) <==> (keys.take(i as int).contains(x) || x == keys[i as int])) by {
                        if keys.take(i + 1).contains(x) && x != keys[i as int] {
                            let j = keys.take(i + 1).index_of(x);
                            assert(keys.take(i as int)[j] == x);
                        }
                        if keys.take(i as int).contains(x) {
                            let j = keys.take(i as int).index_of(x);
                            assert(keys.take(i + 1)[j] == x);
                        }
                        if x == keys[i as int] {
                            assert(keys.take(i + 1)[i as int] == x);
                        }
                    }
                    assert(principal_views(gws@).contains(x) <==> (before.contains(x) || (expired && x == gw@))) by {
                        if expired {
                            assert(principal_views(gws@) == before.push(gw@));
                            if before.contains(x) {
                                let j = before.index_of(x);
                                assert(principal_views(gws@)[j] == x);
                            }
                            if x == gw@ {
                                assert(principal_views(gws@)[before.len() as int] == x);
                            }
                            if principal_views(gws@).contains(x) && x != gw@ {
                                let j = principal_views(gws@).index_of(x);
                                assert(before[j] == x);
                            }
                        }
                    }
                }
            }
            i = i + 1;
        }
        proof {
            assert(keys.take(i as int) =~= keys);
        }
        gws
    }

    /// Forgets the gateways that have been without clients for longer than the
    /// acknowledgement interval, with their queues and the certification of their
    /// messages.
    pub fn remove_empty_expired_gateways(&mut self, now: u64)
        requires
            old(self).inv(),
            old(self)@.bounded(now, u64::MAX as int),
        ensures
            final(self).inv(),
            final(self)@ == old(self)@.remove_empty_expired_gateways(now),
    {
        let gws = self.expired_gateway_principals(now);
        let ghost l = principal_views(gws@);
        let ghost s0 = old(self)@;
        let mut j: usize = 0;
        while j < gws.len()
            invariant
                old(self).inv(),
                self.inv(),
                s0 == old(self)@,
                l == principal_views(gws@),
                j <= gws@.len(),
                self@ == (WsModel {
                    expiring: s0.expiring.remove_keys(l.take(j as int).to_set()),
                    gateways: s0.gateways.remove_keys(l.take(j as int).to_set()),
                    cert: s0.cert.remove_keys(keys_of_gateways(s0.gateways, l.take(j as int).to_set())),
                    ..s0
                }),
            decreases gws@.len() - j,
        {
            let gw = &gws[j];
            let ghost t = l.take(j as int).to_set();
            let ghost t2 = l.take(j + 1).to_set();
            proof {
                assert(l[j as int] == gw@);
                assert(l.take(j + 1) =~= l.take(j as int).push(gw@));
                l.take(j as int).lemma_push_to_set_commute(gw@);
                assert(t2 =~= t.insert(gw@));
            }
            let _ = self.gateways_to_remove.remove(gw);
            let ghost s1 = self@;
            match self.registered_gateways.remove(gw) {
                Some(g) => {
                    let keys = g.message_keys();
                    proof {
                        assert(s1.gateways.dom().contains(gw@));
                        assert(!t.contains(gw@));
                        assert(g@ == s0.gateways[gw@]);
                        assert forall|x: Seq<u8>| #[trigger] self@.gateways.dom().contains(x) implies self@.gateways[x].wf() by {
                            assert(s1.gateways.dom().contains(x));
                        }
                        assert forall|x: Seq<u8>, i: int| #![trigger self@.gateways[x].queue[i]]
                            self@.gateways.dom().contains(x) && 0 <= i < self@.gateways[x].queue.len()
                            implies vstd::utf8::is_ascii_chars(self@.gateways[x].queue[i].1) by {
                            assert(s1.gateways.dom().contains(x));
                            assert(s1.gateways[x] == self@.gateways[x]);
                        }
                    }
                    self.delete_keys_from_cert_tree(keys);
                    proof {
                        let ks = g@.keys();
                        assert forall|key: Seq<char>| keys_of_gateways(s0.gateways, t2).contains(key)
                            <==> #[trigger] keys_of_gateways(s0.gateways, t).union(ks.to_set()).contains(key) by {
                            if ks.to_set().contains(key) {
                                assert(t2.contains(gw@));
                            }
                            if keys_of_gateways(s0.gateways, t).contains(key) {
                                let w = choose|w: Seq<u8>| #[trigger] t.contains(w) && s0.gateways.dom().contains(w) && s0.gateways[w].keys().contains(key);
                                assert(t2.contains(w));
                            }
                            if keys_of_gateways(s0.gateways, t2).contains(key) {
                                let w = choose|w: Seq<u8>| #[trigger] t2.contains(w) && s0.gateways.dom().contains(w) && s0.gateways[w].keys().contains(key);
                                if w != gw@ {
                                    assert(t.contains(w));
                                }
                            }
                        }
                        assert(keys_of_gateways(s0.gateways, t2) =~= keys_of_gateways(s0.gateways, t).union(ks.to_set()));
                        assert(s0.cert.remove_keys(keys_of_gateways(s0.gateways, t2))
                            =~= s0.cert.remove_keys(keys_of_gateways(s0.gateways, t)).remove_keys(ks.to_set()));
                    }
                },
                None => {
                    proof {
                        assert forall|key: Seq<char>| keys_of_gateways(s0.gateways, t2).contains(key)
                            <==> #[trigger] keys_of_gateways(s0.gateways, t).contains(key) by {
                            if keys_of_gateways(s0.gateways, t).contains(key) {
                                let w = choose|w: Seq<u8>| #[trigger] t.contains(w) && s0.gateways.dom().contains(w) && s0.gateways[w].keys().contains(key);
                                assert(t2.contains(w));
                            }
                            if keys_of_gateways(s0.gateways, t2).contains(key) {
                                let w = choose|w: Seq<u8>| #[trigger] t2.contains(w) && s0.gateways.dom().contains(w) && s0.gateways[w].keys().contains(key);
                                if w != gw@ {
                                    assert(t.contains(w));
                                } else {
                                    assert(!s1.gateways.dom().contains(gw@));
                                    assert(t.contains(w));
                                }
                            }
                        }
                        assert(keys_of_gateways(s0.gateways, t2) =~= keys_of_gateways(s0.gateways, t));
                    }
                },
            }
            proof {
                assert(self@.expiring =~= s0.expiring.remove_keys(t2));
                assert(self@.gateways =~= s0.gateways.remove_keys(t2));
            }
            j = j + 1;
        }
        proof {
            assert(l.take(j as int) =~= l);
            assert(l.to_set() =~= s0.expired_gateways(now));
        }
    }

    /// Copies of the keys of the registered clients, in the order of their registration.
    fn registered_client_keys(&self) -> (keys: Vec<ClientKey>)
        requires
            self.inv(),
        ensures
            client_key_views(keys@) == self@.client_order,
    {
        let ghost order = self@.client_order;
        let mut keys: Vec<ClientKey> = Vec::new();
        let mut i: usize = 0;
        while i < self.registered_clients.len()
            invariant
                order == self.registered_clients.keys(),
                i <= order.len(),
                client_key_views(keys@) == order.take(i as int),
            decreases order.len() - i,
        {
            let ghost before = keys@;
            keys.push(self.registered_clients.key_at(i).clone());
            proof {
                assert(client_key_views(keys@) =~= client_key_views(before).push(order[i as int]));
                assert(order.take(i + 1) =~= order.take(i as int).push(order[i as int]));
            }
            i = i + 1;
        }
        assert(order.take(i as int) =~= order);
        keys
    }

    /// The awaited clients whose last keep alive is older than the keep-alive
    /// timeout, in the order in which they were awaited.
    fn timed_out_client_keys(&self, now: u64) -> (keys: Vec<ClientKey>)
        requires
            self.inv(),
            self@.bounded(now, u64::MAX as int),
        ensures
            client_key_views(keys@) == self@.timed_out_clients(now),
    {
        let ghost waiting = self@.waiting;
        let ghost pred = self@.timed_out(now);
        let mut keys: Vec<ClientKey> = Vec::new();
        let mut i: usize = 0;
        while i < self.clients_waiting_for_keep_alive.len()
            invariant
                self.inv(),
                self@.bounded(now, u64::MAX as int),
                waiting == self@.waiting,
                waiting == self.clients_waiting_for_keep_alive.keys(),
                pred == self@.timed_out(now),
                i <= waiting.len(),
                client_key_views(keys@) == waiting.take(i as int).filter(pred),
            decreases waiting.len() - i,
        {
            let client_key = self.clients_waiting_for_keep_alive.key_at(i);
            let ghost k = client_key@;
            let ghost before = keys@;
            proof {
                assert(waiting.take(i + 1) =~= waiting.take(i as int).push(k));
                waiting.take(i as int).lemma_filter_push(k, pred);
            }
            match self.registered_clients.get(client_key) {
                Some(c) => {
                    if (now - c.last_keep_alive_timestamp) as u128 > (self.keep_alive_timeout_ms as u128) * 1_000_000u128 {
                        keys.push(client_key.clone());
                        assert(client_key_views(keys@) =~= client_key_views(before).push(k));
                    }
                },
                None => {},
            }
            i = i + 1;
        }
        assert(waiting.take(i as int) =~= waiting);
        keys
    }

    /// Sends each registered client an acknowledgement with the last sequence
    /// number received from it, and awaits a keep alive from each client reached.
    pub fn send_ack_to_clients_timer_callback(&mut self, now: u64)
        requires
            old(self).inv(),
            old(self)@.admits(now),
        ensures
            final(self).inv(),
            final(self)@ == old(self)@.send_ack_to_clients(now),
    {
        let client_keys = self.registered_client_keys();
        let ghost keys = client_key_views(client_keys@);
        assert(keys.skip(0) =~= keys);
        let mut i: usize = 0;
        while i < client_keys.len()
            invariant
                self.inv(),
                keys == client_key_views(client_keys@),
                keys == old(self)@.client_order,
                keys.len() <= COUNTER_LIMIT,
                i <= keys.len(),
                self@.bounded(now, COUNTER_LIMIT + i),
                self@.send_acks(keys.skip(i as int), now) == old(self)@.send_ack_to_clients(now),
            decreases keys.len() - i,
        {
            let client_key = &client_keys[i];
            let ghost s = self@;
            let ghost k = client_key@;
            proof {
                assert(k == keys[i as int]);
                assert(keys.skip(i as int)[0] == k);
                assert(keys.skip(i as int).drop_first() =~= keys.skip(i + 1));
            }
            match self.get_expected_incoming_message_from_client_num(client_key) {
                Ok(expected_incoming_sequence_num) => {
                    let message = WebsocketServiceMessageContent::AckMessage(CanisterAckMessageContent {
                        last_incoming_sequence_num: expected_incoming_sequence_num - 1,
                    });
                    proof {
                        lemma_send_frame(s, k, candid_service_message(message@), true, now, COUNTER_LIMIT + i);
                    }
                    match self.send_service_message_to_client(client_key, &message, now) {
                        Ok(()) => {
                            self.add_client_to_wait_for_keep_alive(client_key);
                        },
                        Err(_) => {},
                    }
                },
                Err(_) => {
                    proof {
                        lemma_bounded_mono(s, now, COUNTER_LIMIT + i, COUNTER_LIMIT + i + 1);
                    }
                },
            }
            i = i + 1;
        }
    }

    /// Forgets the expired gateways, then closes the connection of each awaited
    /// client whose last keep alive is older than the keep-alive timeout.
    pub fn check_keep_alive_timer_callback(&mut self, now: u64)
        requires
            old(self).inv(),
            old(self)@.admits(now),
        ensures
            final(self).inv(),
            final(self)@ == old(self)@.check_keep_alive(now),
    {
        proof {
            lemma_bounded_mono(old(self)@, now, COUNTER_LIMIT as int, u64::MAX as int);
        }
        self.remove_empty_expired_gateways(now);
        let ghost s1 = self@;
        proof {
            assert(s1.bounded(now, COUNTER_LIMIT as int)) by {
                assert forall|gw: Seq<u8>| #[trigger] s1.gateways.dom().contains(gw) implies old(self)@.gateways.dom().contains(gw) by {}
                assert forall|gw: Seq<u8>| #[trigger] s1.expiring.dom().contains(gw) implies old(self)@.expiring.dom().contains(gw) by {}
            }
            lemma_bounded_mono(s1, now, COUNTER_LIMIT as int, u64::MAX as int);
        }
        let client_keys = self.timed_out_client_keys(now);
        let ghost keys = client_key_views(client_keys@);
        let ghost reason = Some(CloseMessageReason::KeepAliveTimeout);
        proof {
            s1.waiting.lemma_filter_len(s1.timed_out(now));
            assert(keys.skip(0) =~= keys);
        }
        let mut i: usize = 0;
        while i < client_keys.len()
            invariant
                self.inv(),
                keys == client_key_views(client_keys@),
                keys.len() <= COUNTER_LIMIT,
                i <= keys.len(),
                reason == Some(CloseMessageReason::KeepAliveTimeout),
                self@.bounded(now, COUNTER_LIMIT + i),
                self@.remove_clients(keys.skip(i as int), reason, now) == s1.remove_clients(keys, reason, now),
            decreases keys.len() - i,
        {
            let client_key = &client_keys[i];
            proof {
                assert(client_key@ == keys[i as int]);
                assert(keys.skip(i as int)[0] == client_key@);
                assert(keys.skip(i as int).drop_first() =~= keys.skip(i + 1));
                lemma_remove_client_frame(self@, client_key@, reason, now, COUNTER_LIMIT + i);
            }
            self.remove_client(client_key, Some(CloseMessageReason::KeepAliveTimeout), now);
            i = i + 1;
        }
        assert(keys.skip(i as int) =~= Seq::<KeyV>::empty());
    }

    /// Forgets every client, asking for its `on_close`, empties every map and the
    /// certification tree, and sets the parameters back to their defaults.
    pub fn reset_internal_state(&mut self)
        requires
            old(self).inv(),
        ensures
            final(self).inv(),
            final(self)@ == old(self)@.wipe(),
    {
        let client_keys = self.registered_client_keys();
        let ghost keys = client_key_views(client_keys@);
        let ghost closes = keys.map_values(|k: KeyV| CallbackV::Close(k.0));
        let mut i: usize = 0;
        while i < client_keys.len()
            invariant
                self.inv(),
                keys == client_key_views(client_keys@),
                closes == keys.map_values(|k: KeyV| CallbackV::Close(k.0)),
                i <= keys.len(),
                self@ == (WsModel { callbacks: old(self)@.callbacks + closes.take(i as int), ..old(self)@ }),
            decreases keys.len() - i,
        {
            let ghost before = self@;
            let call = WsCallback::OnClose(OnCloseCallbackArgs { client_principal: client_keys[i].client_principal.clone() });
            proof {
                assert(client_keys@[i as int]@ == keys[i as int]);
                assert(call@ == closes[i as int]);
                assert(closes.take(i + 1) =~= closes.take(i as int).push(closes[i as int]));
            }
            self.push_callback(call);
            assert(self@.callbacks =~= old(self)@.callbacks + closes.take(i + 1));
            i = i + 1;
        }
        self.registered_clients.clear();
        self.current_client_key_map.clear();
        self.clients_waiting_for_keep_alive.clear();
        self.outgoing_message_to_client_num_map.clear();
        self.incoming_message_from_client_num_map.clear();
        self.cert_tree = cert_tree_new();
        self.registered_gateways.clear();
        self.gateways_to_remove.clear();
        self.max_number_of_returned_messages = DEFAULT_MAX_NUMBER_OF_RETURNED_MESSAGES;
        self.send_ack_interval_ms = DEFAULT_SEND_ACK_INTERVAL_MS;
        self.keep_alive_timeout_ms = DEFAULT_CLIENT_KEEP_ALIVE_TIMEOUT_MS;
        proof {
            assert(closes.take(i as int) =~= closes);
            assert(cert_tree_contents(self.cert_tree) =~= Map::<Seq<char>, Seq<u8>>::empty());
            assert(keys =~= old(self)@.client_order);
            assert(self@ =~= old(self)@.wipe());
        }
    }

    /// Whether an operation at time `now` is admitted: no stored time is after
    /// `now`, and the counters, the number of clients and the number of awaited
    /// clients are at most [`COUNTER_LIMIT`].
    pub fn admits(&self, now: u64) -> (ok: bool)
        requires
            self.inv(),
        ensures
            ok == self@.admits(now),
    {
        if self.registered_clients.len() as u64 > COUNTER_LIMIT || self.clients_waiting_for_keep_alive.len() as u64 > COUNTER_LIMIT {
            return false;
        }
        let b = self.gateways_to_remove.values_at_most(now);
        assert(self.gateways_to_remove@ == self@.expiring);
        assert(b == (forall|gw: Seq<u8>| #[trigger] self.gateways_to_remove@.dom().contains(gw) ==> self.gateways_to_remove@[gw] <= now));
        if !b {
            assert(!(forall|gw: Seq<u8>| #[trigger] self@.expiring.dom().contains(gw) ==> self@.expiring[gw] <= now));
            return false;
        }
        let b = self.outgoing_message_to_client_num_map.values_at_most(COUNTER_LIMIT);
        assert(self.outgoing_message_to_client_num_map@ == self@.outgoing);
        assert(b == (forall|k: KeyV| #[trigger] self.outgoing_message_to_client_num_map@.dom().contains(k) ==> self.outgoing_message_to_client_num_map@[k] <= COUNTER_LIMIT));
        if !b {
            assert(!(forall|k: KeyV| #[trigger] self@.outgoing.dom().contains(k) ==> self@.outgoing[k] <= COUNTER_LIMIT));
            return false;
        }
        let b = self.incoming_message_from_client_num_map.values_at_most(COUNTER_LIMIT);
        assert(self.incoming_message_from_client_num_map@ == self@.incoming);
        assert(b == (forall|k: KeyV| #[trigger] self.incoming_message_from_client_num_map@.dom().contains(k) ==> self.incoming_message_from_client_num_map@[k] <= COUNTER_LIMIT));
        if !b {
            assert(!(forall|k: KeyV| #[trigger] self@.incoming.dom().contains(k) ==> self@.incoming[k] <= COUNTER_LIMIT));
            return false;
        }
        self.clients_before(now) && self.gateways_within(now)
    }

    /// Whether no client's last keep alive is after `now`.
    fn clients_before(&self, now: u64) -> (ok: bool)
        requires
            self.inv(),
        ensures
            ok == (forall|k: KeyV| #[trigger] self@.clients.dom().contains(k) ==> self@.clients[k].0 <= now),
    {
        let ghost keys = self.registered_clients.keys();
        proof {
            self.registered_clients.lemma_keys_match();
        }
        let mut i: usize = 0;
        while i < self.registered_clients.len()
            invariant
                self.inv(),
                keys == self.registered_clients.keys(),
                forall|k: KeyV| #[trigger] self@.clients.dom().contains(k) <==> keys.contains(k),
                i <= keys.len(),
                forall|j: int| 0 <= j < i ==> #[trigger] self@.clients[keys[j]].0 <= now,
            decreases keys.len() - i,
        {
            let c = self.registered_clients.value_at(i);
            if c.last_keep_alive_timestamp > now {
                proof {
                    assert(keys.contains(keys[i as int]));
                    assert(self@.clients.dom().contains(keys[i as int]));
                    assert(self@.clients[keys[i as int]].0 > now);
                }
                return false;
            }
            i = i + 1;
        }
        proof {
            assert forall|k: KeyV| #[trigger] self@.clients.dom().contains(k) implies self@.clients[k].0 <= now by {
                let j = keys.index_of(k);
                assert(self@.clients[keys[j]].0 <= now);
            }
        }
        true
    }

    /// Whether every gateway's counters are at most [`COUNTER_LIMIT`] and none of
    /// its messages was queued after `now`.
    fn gateways_within(&self, now: u64) -> (ok: bool)
        requires
            self.inv(),
        ensures
            ok == ({
                &&& forall|gw: Seq<u8>, i: int| #![trigger self@.gateways[gw].timestamps[i]]
                    self@.gateways.dom().contains(gw) && 0 <= i < self@.gateways[gw].timestamps.len()
                        ==> self@.gateways[gw].timestamps[i] <= now
                &&& forall|gw: Seq<u8>| #[trigger] self@.gateways.dom().contains(gw)
                    ==> self@.gateways[gw].nonce <= COUNTER_LIMIT && self@.gateways[gw].clients_count <= COUNTER_LIMIT
            }),
    {
        let ghost keys = self.registered_gateways.keys();
        proof {
            self.registered_gateways.lemma_keys_match();
        }
        let mut i: usize = 0;
        while i < self.registered_gateways.len()
            invariant
                self.inv(),
                keys == self.registered_gateways.keys(),
                forall|gw: Seq<u8>| #[trigger] self@.gateways.dom().contains(gw) <==> keys.contains(gw),
                i <= keys.len(),
                forall|j: int| 0 <= j < i ==> gateway_within(#[trigger] self@.gateways[keys[j]], now),
            decreases keys.len() - i,
        {
            let g = self.registered_gateways.value_at(i);
            proof {
                assert(keys.contains(keys[i as int]));
            }
            if g.outgoing_message_nonce > COUNTER_LIMIT || g.connected_clients_count > COUNTER_LIMIT {
                assert(self@.gateways.dom().contains(keys[i as int]));
                return false;
            }
            let mut t: usize = 0;
            while t < g.messages_to_delete.len()
                invariant
                    keys == self.registered_gateways.keys(),
                    i < keys.len(),
                    self@.gateways.dom().contains(keys[i as int]),
                    g@ == self@.gateways[keys[i as int]],
                    t <= g.messages_to_delete@.len(),
                    forall|m: int| 0 <= m < t ==> g.messages_to_delete@[m] <= now,
                decreases g.messages_to_delete@.len() - t,
            {
                if g.messages_to_delete[t] > now {
                    assert(self@.gateways.dom().contains(keys[i as int]));
                    assert(self@.gateways[keys[i as int]].timestamps[t as int] > now);
                    return false;
                }
                t = t + 1;
            }
            assert(gateway_within(g@, now));
            i = i + 1;
        }
        proof {
            assert forall|gw: Seq<u8>| #[trigger] self@.gateways.dom().contains(gw) implies gateway_within(self@.gateways[gw], now) by {
                let j = keys.index_of(gw);
                assert(gateway_within(self@.gateways[keys[j]], now));
            }
        }
        true
    }
}

} // verus!

//! A verified core for IC WebSocket canisters: the state machine that registers
//! clients and gateways, sequences and certifies the messages a canister sends,
//! and checks the messages and keep-alives that clients send back.
use vstd::prelude::*;

pub mod decoding;
pub mod encoding;
pub mod errors;
pub mod external;
pub mod gateway;
pub mod laws;
pub mod model;
pub mod principal;
pub mod state;
pub mod text;
pub mod types;
pub mod vec_map;

use crate::errors::WsError;
use crate::model::WsModel;
use crate::state::{certificate_bytes, get_cert_messages_empty};
use crate::external::{cbor_self_describe_tag, cert_tree_witness};
pub use crate::principal::Principal;
pub use crate::state::WsState;
pub use crate::types::{
    CanisterCloseResult, CanisterSendResult, CanisterWsCloseArguments, CanisterWsCloseResult,
    CanisterWsGetMessagesArguments, CanisterWsGetMessagesResult, CanisterWsMessageArguments,
    CanisterWsMessageResult, CanisterWsOpenArguments, CanisterWsOpenResult, CanisterWsSendResult, ClientPrincipal,
    OnCloseCallbackArgs, OnMessageCallbackArgs, OnOpenCallbackArgs, WsInitParams,
};
use crate::types::{
    messages_view, outcome, CanisterOpenMessageContent, ClientKey, CloseMessageReason, RegisteredClient,
    ServiceMessageV, WebsocketMessage, WebsocketServiceMessageContent, WsCallback,
};

verus! {

/// The label used when constructing the certification tree: the bytes of `websocket`.
pub const LABEL_WEBSOCKET: [u8; 9] = [119, 101, 98, 115, 111, 99, 107, 101, 116];

/// The default maximum number of messages returned by `ws_get_messages` at each poll.
pub const DEFAULT_MAX_NUMBER_OF_RETURNED_MESSAGES: usize = 50;

/// The default interval at which to send acknowledgements to the client.
pub const DEFAULT_SEND_ACK_INTERVAL_MS: u64 = 300_000;

/// The default time a client has to send a keep alive after receiving an acknowledgement.
pub const DEFAULT_CLIENT_KEEP_ALIVE_TIMEOUT_MS: u64 = 60_000;

/// The keep-alive timeout that the default parameters give, in milliseconds.
pub const CLIENT_KEEP_ALIVE_TIMEOUT_MS: u64 = 60_000;

/// [`CLIENT_KEEP_ALIVE_TIMEOUT_MS`] in nanoseconds.
pub const CLIENT_KEEP_ALIVE_TIMEOUT_NS: u64 = 60_000_000_000;

/// The initial nonce for outgoing messages.
pub const INITIAL_OUTGOING_MESSAGE_NONCE: u64 = 0;

/// The sequence number expected in the first message coming from a client
/// (clients increment their counter before sending).
pub const INITIAL_CLIENT_SEQUENCE_NUM: u64 = 1;

/// The initial sequence number for outgoing messages.
pub const INITIAL_CANISTER_SEQUENCE_NUM: u64 = 0;

/// The number of messages to delete from a gateway's queue every time a new message is added.
pub const MESSAGES_TO_DELETE_COUNT: usize = 5;

/// What a decoded service message reads as in contracts.
pub open spec fn decoded_view(decoded: Option<Result<WebsocketServiceMessageContent, String>>) -> Option<Result<ServiceMessageV, Seq<char>>> {
    match decoded {
        Some(Ok(m)) => Some(Ok(m@)),
        Some(Err(e)) => Some(Err(e@)),
        None => None,
    }
}

/// Initializes the library with the given parameters, which must be valid (the
/// acknowledgement interval longer than the keep-alive timeout).
pub fn init<H>(state: &mut WsState, params: &WsInitParams<H>)
    requires
        old(state).inv(),
        params.is_valid(),
    ensures
        final(state).inv(),
        final(state)@ == (WsModel {
            max_returned: params.max_number_of_returned_messages,
            ack_interval_ms: params.send_ack_interval_ms,
            keep_alive_timeout_ms: params.keep_alive_timeout_ms,
            ..old(state)@
        }),
{
    state.set_params(params.max_number_of_returned_messages, params.send_ack_interval_ms, params.keep_alive_timeout_ms);
}

/// Handles the opening of a connection by the client `caller`, relayed by a gateway.
pub fn ws_open(state: &mut WsState, caller: &Principal, args: CanisterWsOpenArguments, now: u64) -> (res: CanisterWsOpenResult)
    requires
        old(state).inv(),
        old(state)@.admits(now),
    ensures
        final(state).inv(),
        (final(state)@, outcome(res)) == old(state)@.ws_open(caller@, args.client_nonce, args.gateway_principal@, now),
        res is Err ==> final(state)@ == old(state)@,
{
    proof {
        crate::laws::lemma_ws_open_refused_changes_nothing(state@, caller@, args.client_nonce, args.gateway_principal@, now);
    }
    if caller.is_anonymous() {
        return WsError::AnonymousPrincipalNotAllowed.to_string_result();
    }
    let client_key = ClientKey::new(caller.clone(), args.client_nonce);
    if state.check_registered_client_exists(&client_key).is_ok() {
        return WsError::ClientKeyAlreadyConnected { client_key }.to_string_result();
    }
    let ghost s0 = state@;
    match state.get_client_key_from_principal(&client_key.client_principal) {
        Err(_) => {
            proof {
                crate::model::lemma_bounded_mono(s0, now, crate::model::COUNTER_LIMIT as int, crate::model::COUNTER_LIMIT + 1);
            }
        },
        Ok(old_client_key) => {
            proof {
                crate::model::lemma_remove_client_frame(s0, old_client_key@, None, now, crate::model::COUNTER_LIMIT as int);
            }
            state.remove_client(&old_client_key, None, now);
        },
    }
    let new_client = RegisteredClient::new(args.gateway_principal, now);
    proof {
        crate::model::lemma_add_client_frame(state@, client_key@, new_client@, now, crate::model::COUNTER_LIMIT + 1);
    }
    state.add_client(client_key.clone(), new_client);
    let message = WebsocketServiceMessageContent::OpenMessage(CanisterOpenMessageContent { client_key: client_key.clone() });
    match state.send_service_message_to_client(&client_key, &message, now) {
        Ok(()) => {},
        Err(e) => return Err(e),
    }
    state.push_callback(WsCallback::OnOpen(OnOpenCallbackArgs { client_principal: client_key.client_principal }));
    Ok(())
}

/// Handles the closing of the connection of a client, reported by the gateway
/// `caller`. To close a connection from the application, use [`close`].
pub fn ws_close(state: &mut WsState, caller: &Principal, args: CanisterWsCloseArguments, now: u64) -> (res: CanisterWsCloseResult)
    requires
        old(state).inv(),
        old(state)@.admits(now),
    ensures
        final(state).inv(),
        (final(state)@, outcome(res)) == old(state)@.ws_close(caller@, args.client_key@, now),
{
    match state.check_is_gateway_registered(caller) {
        Ok(()) => {},
        Err(e) => return Err(e),
    }
    match state.check_registered_client_exists(&args.client_key) {
        Ok(()) => {},
        Err(e) => return Err(e),
    }
    match state.check_client_registered_to_gateway(&args.client_key, caller) {
        Ok(()) => {},
        Err(e) => return Err(e),
    }
    state.remove_client(&args.client_key, None, now);
    Ok(())
}

/// Handles a message from the client `caller`, sent directly or relayed by a
/// gateway. For a service message, `decoded` is what its content decodes to from
/// Candid, or the decoding error.
pub fn ws_message(
    state: &mut WsState,
    caller: &Principal,
    args: CanisterWsMessageArguments,
    decoded: Option<Result<WebsocketServiceMessageContent, String>>,
    now: u64,
) -> (res: CanisterWsMessageResult)
    requires
        old(state).inv(),
        old(state)@.admits(now),
    ensures
        final(state).inv(),
        (final(state)@, outcome(res)) == old(state)@.ws_message(caller@, args.msg@, decoded_view(decoded), now),
        args.msg.is_service_message ==> final(state)@.callbacks == old(state)@.callbacks
            || final(state)@.callbacks == old(state)@.callbacks.push(crate::types::CallbackV::Close(args.msg.client_key.client_principal@)),
        args.msg.is_service_message && res is Ok ==> final(state)@.callbacks == old(state)@.callbacks,
        !args.msg.is_service_message && res is Ok
            ==> final(state)@.callbacks == old(state)@.callbacks.push(crate::types::CallbackV::Message(caller@, args.msg.content@)),
{
    proof {
        crate::laws::lemma_ws_message_callbacks(state@, caller@, args.msg@, decoded_view(decoded), now);
    }
    let registered_client_key = match state.get_client_key_from_principal(caller) {
        Ok(k) => k,
        Err(e) => return Err(e),
    };
    let WebsocketMessage { client_key, sequence_num, timestamp: _, is_service_message, content } = args.msg;
    if !(client_key.client_nonce == registered_client_key.client_nonce
        && client_key.client_principal.same_as(&registered_client_key.client_principal)) {
        return Err(WsError::ClientKeyMessageMismatch { client_key }.to_string());
    }
    let expected_sequence_num = match state.get_expected_incoming_message_from_client_num(&client_key) {
        Ok(n) => n,
        Err(e) => return Err(e),
    };
    if sequence_num != expected_sequence_num {
        state.remove_client(&client_key, Some(CloseMessageReason::WrongSequenceNumber), now);
        return Err(WsError::IncomingSequenceNumberWrong {
            expected_sequence_num,
            actual_sequence_num: sequence_num,
        }.to_string());
    }
    match state.increment_expected_incoming_message_from_client_num(&client_key) {
        Ok(()) => {},
        Err(e) => return Err(e),
    }
    if is_service_message {
        return match decoded {
            Some(d) => state.handle_received_service_message(&client_key, d, now),
            None => WsError::InvalidServiceMessage.to_string_result(),
        };
    }
    state.push_callback(WsCallback::OnMessage(OnMessageCallbackArgs { client_principal: caller.clone(), message: content }));
    Ok(())
}

/// Returns to the gateway `caller` the messages queued for it from the nonce of
/// `args`, with the witness of their certification and the system's data
/// certificate `certificate`; a caller that is not a registered gateway gets none.
pub fn ws_get_messages(
    state: &WsState,
    caller: &Principal,
    args: CanisterWsGetMessagesArguments,
    certificate: Option<Vec<u8>>,
) -> (res: CanisterWsGetMessagesResult)
    requires
        state.inv(),
    ensures
        res matches Ok(m) && {
            &&& messages_view(m.messages@) == state@.polled_messages(caller@, args.nonce)
            &&& m.is_end_of_queue == state@.polled_to_end(caller@, args.nonce)
            &&& m.messages@.len() == 0 ==> m.cert@.len() == 0 && m.tree@.len() == 0
            &&& m.messages@.len() > 0 ==> {
                let polled = state@.polled_messages(caller@, args.nonce);
                &&& m.cert@ == certificate_bytes(certificate)
                &&& m.tree@ == cert_tree_witness(state.certification_tree(), LABEL_WEBSOCKET@, polled[0].1, polled.last().1)
                &&& m.tree@.take(3) == cbor_self_describe_tag()
            }
        },
{
    if !state.is_registered_gateway(caller) {
        return get_cert_messages_empty();
    }
    state.get_cert_messages(caller, args.nonce, certificate)
}

/// Sends a message, already serialized in Candid, to the client with principal
/// `client_principal`: it is certified and queued for the client's gateway.
pub fn send(state: &mut WsState, client_principal: &ClientPrincipal, msg_bytes: Vec<u8>, now: u64) -> (res: CanisterSendResult)
    requires
        old(state).inv(),
        old(state)@.admits(now),
    ensures
        final(state).inv(),
        (final(state)@, outcome(res)) == old(state)@.send_to_principal(client_principal@, msg_bytes@, now),
{
    let client_key = match state.get_client_key_from_principal(client_principal) {
        Ok(k) => k,
        Err(e) => return Err(e),
    };
    state.send_message(&client_key, msg_bytes, false, now)
}

/// The former name of [`send`].
pub fn ws_send(state: &mut WsState, client_principal: &ClientPrincipal, msg_bytes: Vec<u8>, now: u64) -> (res: CanisterWsSendResult)
    requires
        old(state).inv(),
        old(state)@.admits(now),
    ensures
        final(state).inv(),
        (final(state)@, outcome(res)) == old(state)@.send_to_principal(client_principal@, msg_bytes@, now),
{
    send(state, client_principal, msg_bytes, now)
}

/// Closes the connection with the client with principal `client_principal`,
/// sending it a close message.
pub fn close(state: &mut WsState, client_principal: &ClientPrincipal, now: u64) -> (res: CanisterCloseResult)
    requires
        old(state).inv(),
        old(state)@.admits(now),
    ensures
        final(state).inv(),
        (final(state)@, outcome(res)) == old(state)@.close(client_principal@, now),
{
    let client_key = match state.get_client_key_from_principal(client_principal) {
        Ok(k) => k,
        Err(e) => return Err(e),
    };
    state.remove_client(&client_key, Some(CloseMessageReason::ClosedByApplication), now);
    Ok(())
}

/// Resets the state of the library: every client is forgotten, with its
/// `on_close` due, every map and the certification tree are emptied, and the
/// parameters are back to their defaults.
pub fn wipe(state: &mut WsState)
    requires
        old(state).inv(),
    ensures
        final(state).inv(),
        final(state)@ == old(state)@.wipe(),
{
    state.reset_internal_state();
}

} // verus!

//! The values that the library exchanges with clients, gateways and the canister.
use crate::external::principal_text;
use crate::principal::Principal;
use crate::text::{decimal, push_decimal};
use crate::vec_map::MapKey;
use crate::{DEFAULT_CLIENT_KEEP_ALIVE_TIMEOUT_MS, DEFAULT_MAX_NUMBER_OF_RETURNED_MESSAGES, DEFAULT_SEND_ACK_INTERVAL_MS};
use vstd::prelude::*;

verus! {

/// The principal of a client.
pub type ClientPrincipal = Principal;

/// The principal of a gateway.
pub type GatewayPrincipal = Principal;

/// A timestamp in nanoseconds.
pub type TimestampNs = u64;

/// A client key as the contracts see it: the principal's bytes and the nonce.
pub type KeyV = (Seq<u8>, u64);

/// The key of a client connection: the client's principal and a nonce that the
/// client picks for the connection.
#[derive(Debug, PartialEq, Eq, Hash)]
pub struct ClientKey {
    pub client_principal: ClientPrincipal,
    pub client_nonce: u64,
}

impl View for ClientKey {
    type V = KeyV;

    open spec fn view(&self) -> KeyV {
        (self.client_principal@, self.client_nonce)
    }
}

/// The text of a client key: the principal's text, `_` and the nonce.
pub open spec fn key_text(k: KeyV) -> Seq<char> {
    principal_text(k.0) + seq!['_'] + decimal(k.1 as nat)
}

impl ClientKey {
    /// Creates a new instance of ClientKey.
    pub fn new(client_principal: ClientPrincipal, client_nonce: u64) -> (k: Self)
        ensures
            k@ == (client_principal@, client_nonce),
    {
        ClientKey { client_principal, client_nonce }
    }

    /// The text of the key, as `{principal}_{nonce}`.
    pub fn to_string(&self) -> (s: String)
        ensures
            s@ == key_text(self@),
    {
        proof {
            reveal_strlit("_");
        }
        let mut s = self.client_principal.to_text();
        s.append("_");
        push_decimal(&mut s, self.client_nonce);
        s
    }
}

/// The views of a list of client keys.
pub open spec fn client_key_views(keys: Seq<ClientKey>) -> Seq<KeyV> {
    keys.map_values(|k: ClientKey| k@)
}

impl Clone for ClientKey {
    fn clone(&self) -> (res: Self)
        ensures
            res@ == self@,
    {
        ClientKey { client_principal: self.client_principal.clone(), client_nonce: self.client_nonce }
    }
}

impl MapKey for ClientKey {
    fn same_key(&self, other: &Self) -> (same: bool) {
        self.client_nonce == other.client_nonce && self.client_principal.same_as(&other.client_principal)
    }

    fn copy_key(&self) -> (copy: Self) {
        self.clone()
    }
}

impl MapKey for Principal {
    fn same_key(&self, other: &Self) -> (same: bool) {
        self.same_as(other)
    }

    fn copy_key(&self) -> (copy: Self) {
        self.clone()
    }
}

/// The result of `ws_open`.
pub type CanisterWsOpenResult = Result<(), String>;

/// The result of `ws_close`.
pub type CanisterWsCloseResult = Result<(), String>;

/// The result of `ws_message`.
pub type CanisterWsMessageResult = Result<(), String>;

/// The result of `ws_get_messages`.
pub type CanisterWsGetMessagesResult = Result<CanisterOutputCertifiedMessages, String>;

/// The result of `send`.
pub type CanisterSendResult = Result<(), String>;

/// The result of `ws_send`, which `send` replaces.
pub type CanisterWsSendResult = Result<(), String>;

/// The result of `close`.
pub type CanisterCloseResult = Result<(), String>;

/// How a result of the library reads in contracts: success, or the error's text.
pub open spec fn outcome(res: Result<(), String>) -> Result<(), Seq<char>> {
    match res {
        Ok(()) => Ok(()),
        Err(e) => Err(e@),
    }
}

/// The arguments for `ws_open`.
#[derive(Debug, PartialEq, Eq)]
pub struct CanisterWsOpenArguments {
    pub client_nonce: u64,
    pub gateway_principal: GatewayPrincipal,
}

impl CanisterWsOpenArguments {
    pub fn new(client_nonce: u64, gateway_principal: GatewayPrincipal) -> (args: Self)
        ensures
            args.client_nonce == client_nonce,
            args.gateway_principal@ == gateway_principal@,
    {
        CanisterWsOpenArguments { client_nonce, gateway_principal }
    }
}

/// The arguments for `ws_close`.
#[derive(Debug, PartialEq, Eq)]
pub struct CanisterWsCloseArguments {
    pub client_key: ClientKey,
}

impl CanisterWsCloseArguments {
    pub fn new(client_key: ClientKey) -> (args: Self)
        ensures
            args.client_key@ == client_key@,
    {
        CanisterWsCloseArguments { client_key }
    }
}

/// The arguments for `ws_message`.
#[derive(Debug, PartialEq, Eq)]
pub struct CanisterWsMessageArguments {
    pub msg: WebsocketMessage,
}

impl CanisterWsMessageArguments {
    pub fn new(msg: WebsocketMessage) -> (args: Self)
        ensures
            args.msg@ == msg@,
    {
        CanisterWsMessageArguments { msg }
    }
}

/// The arguments for `ws_get_messages`.
#[derive(Debug, PartialEq, Eq, Clone, Copy)]
pub struct CanisterWsGetMessagesArguments {
    pub nonce: u64,
}

impl CanisterWsGetMessagesArguments {
    pub fn new(nonce: u64) -> (args: Self)
        ensures
            args.nonce == nonce,
    {
        CanisterWsGetMessagesArguments { nonce }
    }
}

/// A websocket message as the contracts see it: the client key, the sequence
/// number, the timestamp, whether it is a service message, and the content.
pub type MessageV = (KeyV, u64, u64, bool, Seq<u8>);

/// Messages exchanged through the WebSocket.
#[derive(Debug, PartialEq, Eq)]
pub struct WebsocketMessage {
    /// The client that the gateway forwards the message to, or that sent it.
    pub client_key: ClientKey,
    /// Both ways, messages should arrive with sequence numbers 0, 1, 2...
    pub sequence_num: u64,
    /// When the message was made, for the recipient to inspect.
    pub timestamp: TimestampNs,
    /// Whether the message is a service message of the library rather than one of the application.
    pub is_service_message: bool,
    /// The application message, encoded in binary.
    pub content: Vec<u8>,
}

impl View for WebsocketMessage {
    type V = MessageV;

    open spec fn view(&self) -> MessageV {
        (self.client_key@, self.sequence_num, self.timestamp, self.is_service_message, self.content@)
    }
}

impl WebsocketMessage {
    pub fn new(
        client_key: ClientKey,
        sequence_num: u64,
        timestamp: TimestampNs,
        is_service_message: bool,
        content: Vec<u8>,
    ) -> (m: Self)
        ensures
            m@ == (client_key@, sequence_num, timestamp, is_service_message, content@),
    {
        WebsocketMessage { client_key, sequence_num, timestamp, is_service_message, content }
    }
}

/// A queued message as the contracts see it: the client key, the key under which
/// it is certified, and its bytes.
pub type OutputMessageV = (KeyV, Seq<char>, Seq<u8>);

/// Element of the list of messages returned to the WS Gateway after polling.
#[derive(Debug, PartialEq, Eq)]
pub struct CanisterOutputMessage {
    /// The client that the gateway forwards the message to.
    pub client_key: ClientKey,
    /// The key for certificate verification.
    pub key: String,
    /// The message to relay, which holds the application message.
    pub content: Vec<u8>,
}

impl View for CanisterOutputMessage {
    type V = OutputMessageV;

    open spec fn view(&self) -> OutputMessageV {
        (self.client_key@, self.key@, self.content@)
    }
}

impl Clone for CanisterOutputMessage {
    fn clone(&self) -> (res: Self)
        ensures
            res@ == self@,
    {
        CanisterOutputMessage { client_key: self.client_key.clone(), key: self.key.clone(), content: self.content.clone() }
    }
}

/// The views of a list of output messages.
pub open spec fn messages_view(messages: Seq<CanisterOutputMessage>) -> Seq<OutputMessageV> {
    messages.map_values(|m: CanisterOutputMessage| m@)
}

/// List of messages returned to the WS Gateway after polling.
#[derive(Debug, PartialEq, Eq)]
pub struct CanisterOutputCertifiedMessages {
    /// The messages.
    pub messages: Vec<CanisterOutputMessage>,
    /// With `tree`, the certificate of all returned messages.
    pub cert: Vec<u8>,
    /// With `cert`, the certificate of all returned messages.
    pub tree: Vec<u8>,
    /// Whether the end of the messages queue has been reached.
    pub is_end_of_queue: bool,
}

impl CanisterOutputCertifiedMessages {
    /// No messages, no certificate, and the end of the queue.
    pub fn empty() -> (m: Self)
        ensures
            m.messages@.len() == 0,
            m.cert@.len() == 0,
            m.tree@.len() == 0,
            m.is_end_of_queue,
    {
        CanisterOutputCertifiedMessages { messages: Vec::new(), cert: Vec::new(), tree: Vec::new(), is_end_of_queue: true }
    }
}

/// The content of the service message sent when a client opens a connection.
#[derive(Debug, PartialEq, Eq)]
pub struct CanisterOpenMessageContent {
    pub client_key: ClientKey,
}

/// The content of the acknowledgement that the canister sends periodically.
#[derive(Debug, PartialEq, Eq, Clone, Copy)]
pub struct CanisterAckMessageContent {
    pub last_incoming_sequence_num: u64,
}

/// The content of the keep alive that a client sends in reply to an acknowledgement.
#[derive(Debug, PartialEq, Eq, Clone, Copy)]
pub struct ClientKeepAliveMessageContent {
    pub last_incoming_sequence_num: u64,
}

/// Why the canister closes a connection.
#[derive(Debug, PartialEq, Eq, Clone, Copy, Structural)]
pub enum CloseMessageReason {
    /// The canister received a wrong sequence number from the client.
    WrongSequenceNumber,
    /// The canister received an invalid service message from the client.
    InvalidServiceMessage,
    /// The client did not send the keep alive message in time.
    KeepAliveTimeout,
    /// The application called `close`.
    ClosedByApplication,
}

/// The content of the service message sent when the canister closes a connection.
#[derive(Debug, PartialEq, Eq, Clone, Copy)]
pub struct CanisterCloseMessageContent {
    pub reason: CloseMessageReason,
}

/// A service message as the contracts see it.
pub enum ServiceMessageV {
    Open(KeyV),
    Ack(u64),
    KeepAlive(u64),
    Close(CloseMessageReason),
}

/// A service message sent by the library to a client or by a client to the library.
#[derive(Debug, PartialEq, Eq)]
pub enum WebsocketServiceMessageContent {
    /// Sent by the canister when a client opens a connection.
    OpenMessage(CanisterOpenMessageContent),
    /// Sent periodically by the canister to acknowledge the messages received.
    AckMessage(CanisterAckMessageContent),
    /// Sent by the client in reply to an acknowledgement.
    KeepAliveMessage(ClientKeepAliveMessageContent),
    /// Sent by the canister when it closes the connection.
    CloseMessage(CanisterCloseMessageContent),
}

impl View for WebsocketServiceMessageContent {
    type V = ServiceMessageV;

    open spec fn view(&self) -> ServiceMessageV {
        match self {
            WebsocketServiceMessageContent::OpenMessage(c) => ServiceMessageV::Open(c.client_key@),
            WebsocketServiceMessageContent::AckMessage(c) => ServiceMessageV::Ack(c.last_incoming_sequence_num),
            WebsocketServiceMessageContent::KeepAliveMessage(c) => ServiceMessageV::KeepAlive(c.last_incoming_sequence_num),
            WebsocketServiceMessageContent::CloseMessage(c) => ServiceMessageV::Close(c.reason),
        }
    }
}

/// Arguments passed to the `on_open` handler.
#[derive(Debug, PartialEq, Eq)]
pub struct OnOpenCallbackArgs {
    pub client_principal: ClientPrincipal,
}

/// Arguments passed to the `on_message` handler: the principal of the client that
/// sent the message, and the message, serialized in Candid.
#[derive(Debug, PartialEq, Eq)]
pub struct OnMessageCallbackArgs {
    pub client_principal: ClientPrincipal,
    pub message: Vec<u8>,
}

/// Arguments passed to the `on_close` handler.
#[derive(Debug, PartialEq, Eq)]
pub struct OnCloseCallbackArgs {
    pub client_principal: ClientPrincipal,
}

/// A handler call as the contracts see it.
pub enum CallbackV {
    Open(Seq<u8>),
    Message(Seq<u8>, Seq<u8>),
    Close(Seq<u8>),
}

/// A call of one of the application's handlers that an operation asks for. The
/// operations queue them in the state, in the order in which the handlers are to
/// be called.
#[derive(Debug, PartialEq, Eq)]
pub enum WsCallback {
    OnOpen(OnOpenCallbackArgs),
    OnMessage(OnMessageCallbackArgs),
    OnClose(OnCloseCallbackArgs),
}

impl View for WsCallback {
    type V = CallbackV;

    open spec fn view(&self) -> CallbackV {
        match self {
            WsCallback::OnOpen(a) => CallbackV::Open(a.client_principal@),
            WsCallback::OnMessage(a) => CallbackV::Message(a.client_principal@, a.message@),
            WsCallback::OnClose(a) => CallbackV::Close(a.client_principal@),
        }
    }
}

/// Parameters for the library's initialization: the application's handlers, of a
/// type that the application chooses, and the polling, acknowledgement and
/// keep-alive limits.
pub struct WsInitParams<H> {
    /// The callback handlers for the WebSocket.
    pub handlers: H,
    /// The maximum number of messages returned in a polling iteration. Defaults to `50`.
    pub max_number_of_returned_messages: usize,
    /// The interval (in milliseconds) at which to send an acknowledgement message to
    /// the clients. Must be greater than `keep_alive_timeout_ms`. Defaults to `300_000`.
    pub send_ack_interval_ms: u64,
    /// The time (in milliseconds) a client has to send a keep alive after receiving
    /// an acknowledgement. Defaults to `60_000`.
    pub keep_alive_timeout_ms: u64,
}

impl<H> WsInitParams<H> {
    /// The parameters with the given handlers and the default limits.
    pub fn new(handlers: H) -> (p: Self)
        ensures
            p.handlers == handlers,
            p.max_number_of_returned_messages == DEFAULT_MAX_NUMBER_OF_RETURNED_MESSAGES,
            p.send_ack_interval_ms == DEFAULT_SEND_ACK_INTERVAL_MS,
            p.keep_alive_timeout_ms == DEFAULT_CLIENT_KEEP_ALIVE_TIMEOUT_MS,
    {
        WsInitParams {
            handlers,
            max_number_of_returned_messages: DEFAULT_MAX_NUMBER_OF_RETURNED_MESSAGES,
            send_ack_interval_ms: DEFAULT_SEND_ACK_INTERVAL_MS,
            keep_alive_timeout_ms: DEFAULT_CLIENT_KEEP_ALIVE_TIMEOUT_MS,
        }
    }

    /// Whether the acknowledgement interval is greater than the keep-alive timeout,
    /// as the library needs it to be.
    pub open spec fn is_valid(&self) -> bool {
        self.send_ack_interval_ms > self.keep_alive_timeout_ms
    }

    /// Checks the validity of the timer parameters: `true` when
    /// `send_ack_interval_ms` is greater than `keep_alive_timeout_ms`.
    pub fn check_validity(&self) -> (valid: bool)
        ensures
            valid == self.is_valid(),
            valid <==> self.keep_alive_timeout_ms < self.send_ack_interval_ms,
    {
        self.send_ack_interval_ms > self.keep_alive_timeout_ms
    }

    /// The parameters with the given maximum number of returned messages.
    pub fn with_max_number_of_returned_messages(self, max_number_of_returned_messages: usize) -> (p: Self)
        ensures
            p.handlers == self.handlers,
            p.max_number_of_returned_messages == max_number_of_returned_messages,
            p.send_ack_interval_ms == self.send_ack_interval_ms,
            p.keep_alive_timeout_ms == self.keep_alive_timeout_ms,
    {
        WsInitParams { max_number_of_returned_messages, ..self }
    }

    /// The parameters with the given keep-alive timeout.
    pub fn with_keep_alive_timeout_ms(self, keep_alive_timeout_ms: u64) -> (p: Self)
        ensures
            p.handlers == self.handlers,
            p.max_number_of_returned_messages == self.max_number_of_returned_messages,
            p.send_ack_interval_ms == self.send_ack_interval_ms,
            p.keep_alive_timeout_ms == keep_alive_timeout_ms,
    {
        WsInitParams { keep_alive_timeout_ms, ..self }
    }

    /// The parameters with the given acknowledgement interval, which must be greater
    /// than the keep-alive timeout.
    pub fn with_send_ack_interval_ms(self, send_ack_interval_ms: u64) -> (p: Self)
        requires
            send_ack_interval_ms > self.keep_alive_timeout_ms,
        ensures
            p.handlers == self.handlers,
            p.max_number_of_returned_messages == self.max_number_of_returned_messages,
            p.send_ack_interval_ms == send_ack_interval_ms,
            p.keep_alive_timeout_ms == self.keep_alive_timeout_ms,
            p.is_valid(),
    {
        WsInitParams { send_ack_interval_ms, ..self }
    }

    /// The handlers.
    pub fn get_handlers(&self) -> (h: &H)
        ensures
            *h == self.handlers,
    {
        &self.handlers
    }
}

/// The metadata about a registered client as the contracts see it: the time of
/// its last keep alive and its gateway.
pub type ClientV = (u64, Seq<u8>);

/// The metadata about a registered client.
#[derive(Debug, PartialEq, Eq)]
pub struct RegisteredClient {
    pub last_keep_alive_timestamp: TimestampNs,
    pub gateway_principal: GatewayPrincipal,
}

impl View for RegisteredClient {
    type V = ClientV;

    open spec fn view(&self) -> ClientV {
        (self.last_keep_alive_timestamp, self.gateway_principal@)
    }
}

impl RegisteredClient {
    /// A client of the given gateway, whose last keep alive is now.
    pub fn new(gateway_principal: GatewayPrincipal, now: TimestampNs) -> (c: Self)
        ensures
            c@ == (now, gateway_principal@),
    {
        RegisteredClient { last_keep_alive_timestamp: now, gateway_principal }
    }

    /// The time of the last keep alive.
    pub fn get_last_keep_alive_timestamp(&self) -> (t: TimestampNs)
        ensures
            t == self.last_keep_alive_timestamp,
    {
        self.last_keep_alive_timestamp
    }

    /// Sets the time of the last keep alive to now.
    pub fn update_last_keep_alive_timestamp(&mut self, now: TimestampNs)
        ensures
            final(self)@ == (now, old(self)@.1),
    {
        self.last_keep_alive_timestamp = now;
    }
}

impl Clone for RegisteredClient {
    fn clone(&self) -> (res: Self)
        ensures
            res@ == self@,
    {
        RegisteredClient { last_keep_alive_timestamp: self.last_keep_alive_timestamp, gateway_principal: self.gateway_principal.clone() }
    }
}

} // verus!

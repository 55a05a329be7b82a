use candid::types::Label;
use candid::{IDLArgs, IDLValue};
use ic_certification::{HashTree, LookupResult};
use ic_websocket_cdk::errors::WsError;
use ic_websocket_cdk::types::{
    CanisterAckMessageContent, CanisterOutputCertifiedMessages, CanisterOutputMessage, ClientKeepAliveMessageContent,
    ClientKey, CloseMessageReason, WebsocketMessage, WebsocketServiceMessageContent, WsCallback,
};
use ic_websocket_cdk::{
    close, init, send, ws_close, ws_get_messages, ws_message, ws_open, ws_send, CanisterWsCloseArguments,
    CanisterWsGetMessagesArguments, CanisterWsMessageArguments, CanisterWsOpenArguments, Principal, WsInitParams,
    WsState, CLIENT_KEEP_ALIVE_TIMEOUT_MS, CLIENT_KEEP_ALIVE_TIMEOUT_NS,
};
use sha2::{Digest, Sha256};

const START_TIME_NS: u64 = 1_700_000_000_000_000_000;
const TEST_SEND_ACK_INTERVAL_MS: u64 = 300_000;
const CERTIFICATE: [u8; 4] = [0xca, 0xfe, 0xba, 0xbe];

const CLIENT_1_TEXT: &str = "pmisz-prtlk-b6oe6-bj4fl-6l5fy-h7c2h-so6i7-jiz2h-bgto7-piqfr-7ae";
const CLIENT_2_TEXT: &str = "zuh6g-qnmvg-vky2t-tnob7-h4xoj-ykrcx-jqjpi-cdf3k-23i3i-ykozs-fae";
const GATEWAY_1_TEXT: &str = "i3gux-m3hwt-5mh2w-t7wwm-fwx5j-6z6ht-hxguo-t4rfw-qp24z-g5ivt-2qe";
const GATEWAY_2_TEXT: &str = "trj6m-u7l6v-zilnb-2hl6a-3jfz3-asri5-mkw3k-e2tpo-5emmk-6hqxb-uae";

fn principal(text: &str) -> Principal {
    let p = candid::Principal::from_text(text).unwrap();
    Principal::try_from_slice(p.as_slice()).unwrap()
}

fn client_1_key() -> ClientKey {
    ClientKey::new(principal(CLIENT_1_TEXT), 17)
}

fn client_2_key() -> ClientKey {
    ClientKey::new(principal(CLIENT_2_TEXT), 42)
}

fn gateway_1() -> Principal {
    principal(GATEWAY_1_TEXT)
}

fn gateway_2() -> Principal {
    principal(GATEWAY_2_TEXT)
}

/// A canister with the library: the state, the time, and the two timers that the
/// library asks for (the acknowledgement interval and the keep-alive check).
struct TestEnv {
    state: WsState,
    now: u64,
    next_ack: u64,
    keep_alive_check: Option<u64>,
}

impl TestEnv {
    fn new() -> TestEnv {
        let mut state = WsState::new();
        let params = WsInitParams::new(())
            .with_send_ack_interval_ms(TEST_SEND_ACK_INTERVAL_MS)
            .with_max_number_of_returned_messages(50);
        init(&mut state, &params);
        TestEnv {
            state,
            now: START_TIME_NS,
            next_ack: START_TIME_NS + TEST_SEND_ACK_INTERVAL_MS * 1_000_000,
            keep_alive_check: None,
        }
    }

    fn check_admitted(&self) {
        assert!(self.state.admits(self.now));
    }

    fn advance_ms(&mut self, ms: u64) {
        self.advance_ns(ms * 1_000_000);
    }

    /// Moves the time forward; the timers that are due run then, as the system
    /// runs them after the time has passed, earliest deadline first.
    fn advance_ns(&mut self, ns: u64) {
        self.now += ns;
        loop {
            let ack_due = self.next_ack <= self.now;
            let check_due = self.keep_alive_check.map_or(false, |t| t <= self.now);
            if ack_due && (!check_due || self.next_ack < self.keep_alive_check.unwrap()) {
                self.fire_ack();
            } else if check_due {
                self.fire_keep_alive_check();
            } else {
                break;
            }
        }
    }

    fn fire_ack(&mut self) {
        self.check_admitted();
        self.state.send_ack_to_clients_timer_callback(self.now);
        self.keep_alive_check = Some(self.now + CLIENT_KEEP_ALIVE_TIMEOUT_MS * 1_000_000);
        self.next_ack = self.now + TEST_SEND_ACK_INTERVAL_MS * 1_000_000;
    }

    fn fire_keep_alive_check(&mut self) {
        self.check_admitted();
        self.state.check_keep_alive_timer_callback(self.now);
        self.keep_alive_check = None;
    }

    fn ws_open(&mut self, caller: &Principal, args: CanisterWsOpenArguments) -> Result<(), String> {
        self.check_admitted();
        ws_open(&mut self.state, caller, args, self.now)
    }

    fn open(&mut self, client_key: &ClientKey, gateway: &Principal) {
        let args = CanisterWsOpenArguments::new(client_key.client_nonce, gateway.clone());
        self.ws_open(&client_key.client_principal, args).unwrap();
    }

    fn ws_message(&mut self, caller: &Principal, msg: WebsocketMessage) -> Result<(), String> {
        self.check_admitted();
        let decoded = if msg.is_service_message { Some(decode_service_message(&msg.content)) } else { None };
        ws_message(&mut self.state, caller, CanisterWsMessageArguments::new(msg), decoded, self.now)
    }

    fn ws_close(&mut self, caller: &Principal, client_key: ClientKey) -> Result<(), String> {
        self.check_admitted();
        ws_close(&mut self.state, caller, CanisterWsCloseArguments::new(client_key), self.now)
    }

    fn send(&mut self, client_principal: &Principal, messages: &[Vec<u8>]) -> Result<(), String> {
        for m in messages {
            self.check_admitted();
            send(&mut self.state, client_principal, m.clone(), self.now)?;
        }
        Ok(())
    }

    fn close(&mut self, client_principal: &Principal) -> Result<(), String> {
        self.check_admitted();
        close(&mut self.state, client_principal, self.now)
    }

    fn get_messages(&self, gateway: &Principal, nonce: u64) -> CanisterOutputCertifiedMessages {
        ws_get_messages(&self.state, gateway, CanisterWsGetMessagesArguments::new(nonce), Some(CERTIFICATE.to_vec()))
            .unwrap()
    }

    fn create_websocket_message(
        &self,
        client_key: &ClientKey,
        sequence_number: u64,
        content: Option<Vec<u8>>,
        is_service_message: bool,
    ) -> WebsocketMessage {
        WebsocketMessage::new(client_key.clone(), sequence_number, self.now, is_service_message, content.unwrap_or(vec![]))
    }
}

/// The fields of a message that the library sends, read back from its CBOR.
struct DecodedMessage {
    principal: Vec<u8>,
    nonce: u64,
    sequence_num: u64,
    timestamp: u64,
    is_service_message: bool,
    content: Vec<u8>,
}

fn cbor_field<'a>(map: &'a std::collections::BTreeMap<serde_cbor::Value, serde_cbor::Value>, name: &str) -> &'a serde_cbor::Value {
    map.get(&serde_cbor::Value::Text(name.to_string())).unwrap()
}

fn cbor_u64(v: &serde_cbor::Value) -> u64 {
    match v {
        serde_cbor::Value::Integer(i) => *i as u64,
        _ => panic!("expected an integer"),
    }
}

fn cbor_bytes(v: &serde_cbor::Value) -> Vec<u8> {
    match v {
        serde_cbor::Value::Bytes(b) => b.clone(),
        _ => panic!("expected bytes"),
    }
}

fn decode_websocket_message(bytes: &[u8]) -> DecodedMessage {
    assert_eq!(&bytes[..3], &[0xd9, 0xd9, 0xf7]);
    let value: serde_cbor::Value = serde_cbor::from_slice(bytes).unwrap();
    let map = match value {
        serde_cbor::Value::Map(m) => m,
        _ => panic!("expected a map"),
    };
    let key = match cbor_field(&map, "client_key") {
        serde_cbor::Value::Map(m) => m.clone(),
        _ => panic!("expected a map"),
    };
    DecodedMessage {
        principal: cbor_bytes(cbor_field(&key, "client_principal")),
        nonce: cbor_u64(cbor_field(&key, "client_nonce")),
        sequence_num: cbor_u64(cbor_field(&map, "sequence_num")),
        timestamp: cbor_u64(cbor_field(&map, "timestamp")),
        is_service_message: match cbor_field(&map, "is_service_message") {
            serde_cbor::Value::Bool(b) => *b,
            _ => panic!("expected a bool"),
        },
        content: cbor_bytes(cbor_field(&map, "content")),
    }
}

fn label_is(label: &Label, name: &str) -> bool {
    match label {
        Label::Named(n) => n == name,
        Label::Id(id) | Label::Unnamed(id) => *id == candid::idl_hash(name),
    }
}

fn record_field<'a>(value: &'a IDLValue, name: &str) -> &'a IDLValue {
    match value {
        IDLValue::Record(fields) => &fields.iter().find(|f| label_is(&f.id, name)).unwrap().val,
        _ => panic!("expected a record"),
    }
}

fn idl_u64(value: &IDLValue) -> u64 {
    match value {
        IDLValue::Nat64(n) => *n,
        _ => panic!("expected a nat64"),
    }
}

/// Decodes a service message from Candid, as the canister does with what clients send.
fn decode_service_message(bytes: &[u8]) -> Result<WebsocketServiceMessageContent, String> {
    let args = IDLArgs::from_bytes(bytes).map_err(|e| e.to_string())?;
    let variant = match args.args.first() {
        Some(IDLValue::Variant(v)) => v,
        _ => return Err(String::from("not a variant of service messages")),
    };
    let field = &variant.0;
    if label_is(&field.id, "OpenMessage") {
        let key = record_field(&field.val, "client_key");
        let p = match record_field(key, "client_principal") {
            IDLValue::Principal(p) => Principal::try_from_slice(p.as_slice()).unwrap(),
            _ => return Err(String::from("expected a principal")),
        };
        let nonce = idl_u64(record_field(key, "client_nonce"));
        Ok(WebsocketServiceMessageContent::OpenMessage(ic_websocket_cdk::types::CanisterOpenMessageContent {
            client_key: ClientKey::new(p, nonce),
        }))
    } else if label_is(&field.id, "AckMessage") {
        Ok(WebsocketServiceMessageContent::AckMessage(CanisterAckMessageContent {
            last_incoming_sequence_num: idl_u64(record_field(&field.val, "last_incoming_sequence_num")),
        }))
    } else if label_is(&field.id, "KeepAliveMessage") {
        Ok(WebsocketServiceMessageContent::KeepAliveMessage(ClientKeepAliveMessageContent {
            last_incoming_sequence_num: idl_u64(record_field(&field.val, "last_incoming_sequence_num")),
        }))
    } else if label_is(&field.id, "CloseMessage") {
        let reason = match record_field(&field.val, "reason") {
            IDLValue::Variant(r) => {
                let id = &r.0.id;
                if label_is(id, "WrongSequenceNumber") {
                    CloseMessageReason::WrongSequenceNumber
                } else if label_is(id, "InvalidServiceMessage") {
                    CloseMessageReason::InvalidServiceMessage
                } else if label_is(id, "KeepAliveTimeout") {
                    CloseMessageReason::KeepAliveTimeout
                } else if label_is(id, "ClosedByApplication") {
                    CloseMessageReason::ClosedByApplication
                } else {
                    return Err(String::from("unknown close reason"));
                }
            },
            _ => return Err(String::from("expected a variant")),
        };
        Ok(WebsocketServiceMessageContent::CloseMessage(ic_websocket_cdk::types::CanisterCloseMessageContent { reason }))
    } else {
        Err(String::from("unknown service message"))
    }
}

fn get_service_message_content_from_canister_message(msg: &CanisterOutputMessage) -> WebsocketServiceMessageContent {
    let m = decode_websocket_message(&msg.content);
    assert!(m.is_service_message);
    decode_service_message(&m.content).unwrap()
}

/// The Candid bytes of `record { text = "..." }`, the application's message.
fn app_message(text: &str) -> Vec<u8> {
    let value = IDLValue::Record(vec![candid::types::value::IDLField {
        id: Label::Named(String::from("text")),
        val: IDLValue::Text(String::from(text)),
    }]);
    IDLArgs::new(&[value]).to_bytes().unwrap()
}

fn keep_alive_bytes(last_incoming_sequence_num: u64) -> Vec<u8> {
    WebsocketServiceMessageContent::KeepAliveMessage(ClientKeepAliveMessageContent { last_incoming_sequence_num })
        .candid_encode()
}

/// Checks the witness of a poll: it certifies the state's certified data, and the
/// message's key maps to the SHA-256 of its bytes.
fn is_message_body_valid(env: &TestEnv, key: &str, body: &[u8], tree: &[u8]) -> bool {
    let tree: HashTree = serde_cbor::from_slice(tree).unwrap();
    if tree.digest() != env.state.certified_data() {
        return false;
    }
    let sha: [u8; 32] = Sha256::digest(body).into();
    match tree.lookup_path(vec![b"websocket".to_vec(), key.as_bytes().to_vec()]) {
        LookupResult::Found(found) => found == sha,
        _ => false,
    }
}

fn check_ack_message_result(
    env: &TestEnv,
    res: &CanisterOutputCertifiedMessages,
    receiver_client_key: &ClientKey,
    expected_ack_sequence_number: u64,
    expected_websocket_message_sequence_number: u64,
) {
    assert_eq!(res.messages.len(), 1);
    let ack_message = &res.messages[0];
    assert_eq!(ack_message.client_key, *receiver_client_key);
    let websocket_message = decode_websocket_message(&ack_message.content);
    assert!(websocket_message.is_service_message);
    assert_eq!(websocket_message.sequence_num, expected_websocket_message_sequence_number);
    assert_eq!(websocket_message.timestamp, env.now);
    assert_eq!(
        decode_service_message(&websocket_message.content).unwrap(),
        WebsocketServiceMessageContent::AckMessage(CanisterAckMessageContent {
            last_incoming_sequence_num: expected_ack_sequence_number,
        }),
    );
    assert_eq!(res.cert, CERTIFICATE.to_vec());
    assert!(is_message_body_valid(env, &ack_message.key, &ack_message.content, &res.tree));
}

fn check_canister_message_has_close_reason(msg: &CanisterOutputMessage, close_reason: CloseMessageReason) {
    assert_eq!(
        get_service_message_content_from_canister_message(msg),
        WebsocketServiceMessageContent::CloseMessage(ic_websocket_cdk::types::CanisterCloseMessageContent {
            reason: close_reason
        }),
    );
}

// ws_open

#[test]
fn test_1_fail_for_an_anonymous_client() {
    let mut env = TestEnv::new();
    let args = CanisterWsOpenArguments::new(7, gateway_1());
    let res = env.ws_open(&Principal::anonymous(), args);
    assert_eq!(res, Err(WsError::AnonymousPrincipalNotAllowed.to_string()));
    assert_eq!(res, Err(String::from("Anonymous principal is not allowed")));
}

#[test]
fn test_2_should_open_a_connection() {
    let mut env = TestEnv::new();
    let client_1_key = client_1_key();
    let args = CanisterWsOpenArguments::new(client_1_key.client_nonce, gateway_1());
    let res = env.ws_open(&client_1_key.client_principal, args);
    assert_eq!(res, Ok(()));

    let CanisterOutputCertifiedMessages { messages, .. } = env.get_messages(&gateway_1(), 0);
    let first_message = &messages[0];
    assert_eq!(first_message.client_key, client_1_key);
    let open_message = get_service_message_content_from_canister_message(first_message);
    match open_message {
        WebsocketServiceMessageContent::OpenMessage(open_message) => {
            assert_eq!(open_message.client_key, client_1_key);
        },
        _ => panic!("Expected OpenMessage"),
    }
}

#[test]
fn test_3_fails_for_a_client_with_the_same_nonce() {
    let mut env = TestEnv::new();
    let client_1_key = client_1_key();
    env.open(&client_1_key, &gateway_1());
    let args = CanisterWsOpenArguments::new(client_1_key.client_nonce, gateway_1());
    let res = env.ws_open(&client_1_key.client_principal, args);
    assert_eq!(res, Err(WsError::ClientKeyAlreadyConnected { client_key: client_1_key.clone() }.to_string()));
    assert_eq!(
        res,
        Err(format!("Client with key {}_{} already has an open connection", CLIENT_1_TEXT, client_1_key.client_nonce))
    );
}

#[test]
fn open_with_a_different_nonce_replaces_the_connection() {
    let mut env = TestEnv::new();
    let first = client_1_key();
    env.open(&first, &gateway_1());
    let _ = env.state.take_callbacks();
    let second = ClientKey::new(first.client_principal.clone(), 99);
    env.open(&second, &gateway_1());
    // the former connection is closed, then the new one is opened
    let calls = env.state.take_callbacks();
    assert_eq!(calls.len(), 2);
    assert!(matches!(&calls[0], WsCallback::OnClose(a) if a.client_principal == first.client_principal));
    assert!(matches!(&calls[1], WsCallback::OnOpen(a) if a.client_principal == first.client_principal));
    assert!(env.state.check_registered_client_exists(&first).is_err());
    assert_eq!(env.state.get_client_key_from_principal(&first.client_principal), Ok(second.clone()));
    // the open message of the new connection has sequence number 1 again
    let messages = env.get_messages(&gateway_1(), 1).messages;
    assert_eq!(messages.len(), 1);
    let m = decode_websocket_message(&messages[0].content);
    assert_eq!(m.nonce, 99);
    assert_eq!(m.sequence_num, 1);
}

// ws_message

#[test]
fn test_1_fails_if_client_is_not_registered() {
    let mut env = TestEnv::new();
    env.open(&client_1_key(), &gateway_1());
    let client_2_key = client_2_key();
    let msg = env.create_websocket_message(&client_2_key, 0, None, false);
    let res = env.ws_message(&client_2_key.client_principal, msg);
    assert_eq!(
        res,
        Err(WsError::ClientPrincipalNotConnected { client_principal: client_2_key.client_principal.clone() }.to_string())
    );
    assert_eq!(res, Err(format!("Client with principal {} doesn't have an open connection", CLIENT_2_TEXT)));
}

#[test]
fn test_2_fails_if_client_sends_a_message_with_a_different_client_key() {
    let mut env = TestEnv::new();
    let client_1_key = client_1_key();
    env.open(&client_1_key, &gateway_1());

    let wrong_client_key = ClientKey::new(Principal::try_from_slice(&[1, 2, 3]).unwrap(), client_1_key.client_nonce);
    let msg = env.create_websocket_message(&wrong_client_key, 0, None, false);
    let res = env.ws_message(&client_1_key.client_principal, msg);
    assert_eq!(res, Err(WsError::ClientKeyMessageMismatch { client_key: wrong_client_key.clone() }.to_string()));

    let wrong_client_key = ClientKey::new(client_1_key.client_principal.clone(), 123456);
    let msg = env.create_websocket_message(&wrong_client_key, 0, None, false);
    let res = env.ws_message(&client_1_key.client_principal, msg);
    assert_eq!(res, Err(WsError::ClientKeyMessageMismatch { client_key: wrong_client_key.clone() }.to_string()));
    assert_eq!(
        res,
        Err(format!("Client with principal {} has a different key than the one used in the message", CLIENT_1_TEXT))
    );
}

#[test]
fn test_3_should_send_a_message_from_a_registered_client() {
    let mut env = TestEnv::new();
    let client_1_key = client_1_key();
    env.open(&client_1_key, &gateway_1());
    let _ = env.state.take_callbacks();
    let msg = env.create_websocket_message(&client_1_key, 1, None, false);
    let res = env.ws_message(&client_1_key.client_principal, msg);
    assert_eq!(res, Ok(()));
    let calls = env.state.take_callbacks();
    assert_eq!(calls.len(), 1);
    match &calls[0] {
        WsCallback::OnMessage(a) => {
            assert_eq!(a.client_principal, client_1_key.client_principal);
            assert!(a.message.is_empty());
        },
        _ => panic!("expected on_message"),
    }
}

#[test]
fn test_4_fails_if_client_sends_a_message_with_a_wrong_sequence_number() {
    let mut env = TestEnv::new();
    let client_1_key = client_1_key();
    env.open(&client_1_key, &gateway_1());
    let msg = env.create_websocket_message(&client_1_key, 1, None, false);
    env.ws_message(&client_1_key.client_principal, msg).unwrap();

    let wrong_sequence_number = 1;
    let expected_sequence_number = 2;
    let msg = env.create_websocket_message(&client_1_key, wrong_sequence_number, None, false);
    let res = env.ws_message(&client_1_key.client_principal, msg);
    assert_eq!(
        res,
        Err(WsError::IncomingSequenceNumberWrong {
            expected_sequence_num: expected_sequence_number,
            actual_sequence_num: wrong_sequence_number,
        }
        .to_string())
    );
    assert_eq!(res, Err(String::from("Expected incoming sequence number 2 but got 1")));

    // check if the client has been removed
    let msg = env.create_websocket_message(&client_1_key, 1, None, false);
    let res = env.ws_message(&client_1_key.client_principal, msg);
    assert_eq!(
        res,
        Err(WsError::ClientPrincipalNotConnected { client_principal: client_1_key.client_principal.clone() }.to_string())
    );

    // the client was told why
    let messages = env.get_messages(&gateway_1(), 1).messages;
    assert_eq!(messages.len(), 1);
    check_canister_message_has_close_reason(&messages[0], CloseMessageReason::WrongSequenceNumber);
}

#[test]
fn test_5_fails_if_client_sends_a_wrong_service_message() {
    let mut env = TestEnv::new();
    let client_1_key = client_1_key();
    env.open(&client_1_key, &gateway_1());

    // fail with wrong content encoding
    let msg = env.create_websocket_message(&client_1_key, 1, Some(candid::encode_one(vec![1, 2, 3]).unwrap()), true);
    let res = env.ws_message(&client_1_key.client_principal, msg);
    let err = res.err().unwrap();
    assert!(err.starts_with("Error decoding service message content:"));

    // fail with wrong service message variant
    let wrong_service_message =
        WebsocketServiceMessageContent::AckMessage(CanisterAckMessageContent { last_incoming_sequence_num: 0 });
    let msg = env.create_websocket_message(&client_1_key, 2, Some(wrong_service_message.candid_encode()), true);
    let res = env.ws_message(&client_1_key.client_principal, msg);
    assert_eq!(res, Err(WsError::InvalidServiceMessage.to_string()));
    assert_eq!(res, Err(String::from("Invalid service message")));
}

#[test]
fn test_6_should_send_a_service_message_from_a_registered_client() {
    let mut env = TestEnv::new();
    let client_1_key = client_1_key();
    env.open(&client_1_key, &gateway_1());
    for seq in 1..=2 {
        let msg = env.create_websocket_message(&client_1_key, seq, None, false);
        env.ws_message(&client_1_key.client_principal, msg).unwrap();
    }
    env.advance_ms(1_000);
    let msg = env.create_websocket_message(&client_1_key, 3, Some(keep_alive_bytes(0)), true);
    let res = env.ws_message(&client_1_key.client_principal, msg);
    assert_eq!(res, Ok(()));
    let c = env.state.get_registered_client(&client_1_key).unwrap();
    assert_eq!(c.last_keep_alive_timestamp, env.now);
}

// ws_get_messages

#[test]
fn on_message_gets_the_application_message() {
    let mut env = TestEnv::new();
    let client_1_key = client_1_key();
    env.open(&client_1_key, &gateway_1());
    let _ = env.state.take_callbacks();
    let msg = env.create_websocket_message(&client_1_key, 1, Some(app_message("hello")), false);
    env.ws_message(&client_1_key.client_principal, msg).unwrap();
    let calls = env.state.take_callbacks();
    assert!(matches!(&calls[0], WsCallback::OnMessage(a) if a.message == app_message("hello")));
    // the next message must carry the next sequence number
    assert_eq!(env.state.get_expected_incoming_message_from_client_num(&client_1_key), Ok(2));
}

#[test]
fn unregistered_gateway_gets_no_messages() {
    let mut env = TestEnv::new();
    env.open(&client_1_key(), &gateway_1());
    let res = env.get_messages(&gateway_2(), 0);
    assert_eq!(res.messages.len(), 0);
    assert!(res.is_end_of_queue);
    assert!(res.cert.is_empty());
    assert!(res.tree.is_empty());
}

#[test]
fn poll_returns_at_most_the_maximum_from_the_requested_nonce() {
    let mut env = TestEnv::new();
    env.state.set_params(20, TEST_SEND_ACK_INTERVAL_MS, CLIENT_KEEP_ALIVE_TIMEOUT_MS);
    let client_1_key = client_1_key();
    env.open(&client_1_key, &gateway_1());
    let messages: Vec<Vec<u8>> = (0..22).map(|i| app_message(&format!("test{}", i))).collect();
    env.send(&client_1_key.client_principal, &messages).unwrap();

    let res = env.get_messages(&gateway_1(), 0);
    assert_eq!(res.messages.len(), 20);
    assert!(!res.is_end_of_queue);
    for (i, m) in res.messages.iter().enumerate() {
        assert_eq!(m.key, format!("{}_{:0>20}", GATEWAY_1_TEXT, i));
        let d = decode_websocket_message(&m.content);
        assert_eq!(d.sequence_num, i as u64 + 1);
        assert!(is_message_body_valid(&env, &m.key, &m.content, &res.tree));
    }

    let res = env.get_messages(&gateway_1(), 20);
    assert_eq!(res.messages.len(), 3);
    assert!(res.is_end_of_queue);
    assert_eq!(res.messages[0].key, format!("{}_{:0>20}", GATEWAY_1_TEXT, 20));
    assert_eq!(decode_websocket_message(&res.messages[2].content).content, app_message("test21"));

    let res = env.get_messages(&gateway_1(), 23);
    assert_eq!(res.messages.len(), 0);
    assert!(res.is_end_of_queue);
}

#[test]
fn old_messages_are_deleted_after_the_ack_interval() {
    let mut env = TestEnv::new();
    let client_1_key = client_1_key();
    env.open(&client_1_key, &gateway_1());
    let messages: Vec<Vec<u8>> = (0..3).map(|i| app_message(&format!("test{}", i))).collect();
    env.send(&client_1_key.client_principal, &messages).unwrap();
    env.now += TEST_SEND_ACK_INTERVAL_MS * 1_000_000 + 1;
    env.send(&client_1_key.client_principal, &[app_message("late")]).unwrap();
    // the four old messages were deleted, with their certification
    let res = env.get_messages(&gateway_1(), 0);
    assert_eq!(res.messages.len(), 1);
    assert_eq!(res.messages[0].key, format!("{}_{:0>20}", GATEWAY_1_TEXT, 4));
    assert!(is_message_body_valid(&env, &res.messages[0].key, &res.messages[0].content, &res.tree));
}

#[test]
fn test_6_empty_gateway_can_get_messages_until_next_keep_alive_check() {
    let send_messages_count = 10;
    let mut env = TestEnv::new();
    let client_1_key = client_1_key();
    env.open(&client_1_key, &gateway_1());
    let messages_to_send: Vec<Vec<u8>> = (1..=send_messages_count).map(|i| app_message(&format!("test{}", i))).collect();
    env.send(&client_1_key.client_principal, &messages_to_send).unwrap();

    assert_eq!(env.get_messages(&gateway_1(), 0).messages.len(), send_messages_count + 1);

    env.ws_close(&gateway_1(), client_1_key.clone()).unwrap();
    assert_eq!(env.get_messages(&gateway_1(), 0).messages.len(), send_messages_count + 1);

    env.advance_ms(TEST_SEND_ACK_INTERVAL_MS);
    assert_eq!(env.get_messages(&gateway_1(), 0).messages.len(), send_messages_count + 1);

    env.advance_ms(CLIENT_KEEP_ALIVE_TIMEOUT_MS);
    assert_eq!(env.get_messages(&gateway_1(), 0).messages.len(), 0);
}

#[test]
fn test_7_empty_gateway_can_get_messages_until_next_keep_alive_check_if_removed_before_ack_interval() {
    let send_messages_count = 10;
    let mut env = TestEnv::new();
    let client_1_key = client_1_key();
    env.open(&client_1_key, &gateway_1());
    let messages_to_send: Vec<Vec<u8>> = (1..=send_messages_count).map(|i| app_message(&format!("test{}", i))).collect();
    env.send(&client_1_key.client_principal, &messages_to_send).unwrap();

    assert_eq!(env.get_messages(&gateway_1(), 0).messages.len(), send_messages_count + 1);

    env.advance_ms(TEST_SEND_ACK_INTERVAL_MS);

    env.ws_close(&gateway_1(), client_1_key.clone()).unwrap();

    let expected_messages_len = send_messages_count + 1;
    assert_eq!(env.get_messages(&gateway_1(), 0).messages.len(), expected_messages_len + 1);

    env.advance_ms(CLIENT_KEEP_ALIVE_TIMEOUT_MS);
    assert_eq!(env.get_messages(&gateway_1(), 0).messages.len(), expected_messages_len + 1);

    env.advance_ms(TEST_SEND_ACK_INTERVAL_MS);
    assert_eq!(env.get_messages(&gateway_1(), 0).messages.len(), expected_messages_len + 1);

    env.advance_ms(CLIENT_KEEP_ALIVE_TIMEOUT_MS);
    assert_eq!(env.get_messages(&gateway_1(), 0).messages.len(), 0);
}

// ws_close

#[test]
fn d_ws_close_test_1_fails_if_gateway_is_not_registered() {
    let mut env = TestEnv::new();
    env.open(&client_1_key(), &gateway_1());
    let gateway_2_principal = gateway_2();
    let res = env.ws_close(&gateway_2_principal, client_1_key());
    assert_eq!(res, Err(WsError::GatewayNotRegistered { gateway_principal: gateway_2_principal.clone() }.to_string()));
    assert_eq!(res, Err(format!("Gateway with principal {} is not registered", GATEWAY_2_TEXT)));
}

#[test]
fn d_ws_close_test_2_fails_if_client_is_not_registered() {
    let mut env = TestEnv::new();
    env.open(&client_1_key(), &gateway_1());
    let client_2_key = client_2_key();
    let res = env.ws_close(&gateway_1(), client_2_key.clone());
    assert_eq!(res, Err(WsError::ClientKeyNotConnected { client_key: client_2_key.clone() }.to_string()));
    assert_eq!(res, Err(format!("Client with key {}_42 doesn't have an open connection", CLIENT_2_TEXT)));
}

#[test]
fn test_3_fails_if_client_is_not_registered_to_gateway() {
    let mut env = TestEnv::new();
    env.open(&client_1_key(), &gateway_1());
    env.open(&client_2_key(), &gateway_2());
    let gateway_2_principal = gateway_2();
    let res = env.ws_close(&gateway_2_principal, client_1_key());
    assert_eq!(
        res,
        Err(WsError::ClientNotRegisteredToGateway {
            client_key: client_1_key(),
            gateway_principal: gateway_2_principal.clone(),
        }
        .to_string())
    );
    assert_eq!(
        res,
        Err(format!("Client with key {}_17 was not registered to gateway {}", CLIENT_1_TEXT, GATEWAY_2_TEXT))
    );
}

#[test]
fn test_4_should_close_the_websocket_for_a_registered_client() {
    let mut env = TestEnv::new();
    env.open(&client_1_key(), &gateway_1());
    env.open(&client_2_key(), &gateway_2());
    let _ = env.state.take_callbacks();
    let res = env.ws_close(&gateway_1(), client_1_key());
    assert_eq!(res, Ok(()));
    let calls = env.state.take_callbacks();
    assert_eq!(calls.len(), 1);
    assert!(matches!(&calls[0], WsCallback::OnClose(a) if a.client_principal == client_1_key().client_principal));

    let res = env.ws_close(&gateway_1(), client_1_key());
    assert_eq!(res, Err(WsError::ClientKeyNotConnected { client_key: client_1_key() }.to_string()));
}

// send

#[test]
fn test_1_fails_if_sending_a_message_to_a_non_registered_client() {
    let mut env = TestEnv::new();
    env.open(&client_1_key(), &gateway_1());
    let client_2_principal = client_2_key().client_principal;
    let res = env.send(&client_2_principal, &[app_message("test")]);
    assert_eq!(
        res,
        Err(WsError::ClientPrincipalNotConnected { client_principal: client_2_principal.clone() }.to_string())
    );
}

#[test]
fn test_2_should_send_a_message_to_a_registered_client() {
    let mut env = TestEnv::new();
    env.open(&client_1_key(), &gateway_1());
    let res = env.send(&client_1_key().client_principal, &[app_message("test")]);
    assert_eq!(res, Ok(()));
    let messages = env.get_messages(&gateway_1(), 1).messages;
    assert_eq!(messages.len(), 1);
    let m = decode_websocket_message(&messages[0].content);
    assert!(!m.is_service_message);
    assert_eq!(m.sequence_num, 2);
    assert_eq!(m.content, app_message("test"));
    assert_eq!(m.principal, client_1_key().client_principal.as_slice().to_vec());
    assert_eq!(m.nonce, 17);
}

#[test]
fn ws_send_sends_like_send() {
    let mut env = TestEnv::new();
    env.open(&client_1_key(), &gateway_1());
    let now = env.now;
    assert_eq!(ws_send(&mut env.state, &client_1_key().client_principal, app_message("old name"), now), Ok(()));
    let messages = env.get_messages(&gateway_1(), 1).messages;
    assert_eq!(decode_websocket_message(&messages[0].content).content, app_message("old name"));
}

// close

#[test]
fn test_1_fails_closing_for_non_registered_client() {
    let mut env = TestEnv::new();
    env.open(&client_1_key(), &gateway_1());
    let client_2_principal = client_2_key().client_principal;
    let res = env.close(&client_2_principal);
    assert_eq!(
        res,
        Err(WsError::ClientPrincipalNotConnected { client_principal: client_2_principal.clone() }.to_string())
    );
}

#[test]
fn test_2_should_close_connection_for_registered_client() {
    let mut env = TestEnv::new();
    env.open(&client_1_key(), &gateway_1());
    let client_1_principal = client_1_key().client_principal;
    let res = env.close(&client_1_principal);
    assert_eq!(res, Ok(()));
    let res = env.close(&client_1_principal);
    assert_eq!(
        res,
        Err(WsError::ClientPrincipalNotConnected { client_principal: client_1_principal.clone() }.to_string())
    );
    let messages = env.get_messages(&gateway_1(), 1).messages;
    assert_eq!(messages.len(), 1);
    check_canister_message_has_close_reason(&messages[0], CloseMessageReason::ClosedByApplication);
}

// acknowledgements and keep alive

#[test]
fn test_1_client_should_receive_ack_messages() {
    let mut env = TestEnv::new();
    let client_1_key = client_1_key();
    env.open(&client_1_key, &gateway_1());
    let CanisterOutputCertifiedMessages { messages, .. } = env.get_messages(&gateway_1(), 1);
    assert_eq!(messages.len(), 0);
    let msg = env.create_websocket_message(&client_1_key, 1, None, false);
    env.ws_message(&client_1_key.client_principal, msg).unwrap();
    env.advance_ms(TEST_SEND_ACK_INTERVAL_MS);

    let res = env.get_messages(&gateway_1(), 1);
    check_ack_message_result(&env, &res, &client_1_key, 1, 2);
}

#[test]
fn test_2_client_is_removed_if_keep_alive_timeout_is_reached() {
    let mut env = TestEnv::new();
    let client_1_key = client_1_key();
    env.open(&client_1_key, &gateway_1());
    env.advance_ms(TEST_SEND_ACK_INTERVAL_MS);
    let msgs = env.get_messages(&gateway_1(), 1);
    check_ack_message_result(&env, &msgs, &client_1_key, 0, 2);

    env.advance_ms(CLIENT_KEEP_ALIVE_TIMEOUT_MS);

    let msgs = env.get_messages(&gateway_1(), 1);
    check_canister_message_has_close_reason(&msgs.messages[1], CloseMessageReason::KeepAliveTimeout);

    let res = env.ws_close(&gateway_1(), client_1_key.clone());
    assert_eq!(res, Err(WsError::ClientKeyNotConnected { client_key: client_1_key.clone() }.to_string()));
}

#[test]
fn test_3_client_is_not_removed_if_it_sends_a_keep_alive_before_timeout() {
    let mut env = TestEnv::new();
    let client_1_key = client_1_key();
    env.open(&client_1_key, &gateway_1());
    env.advance_ms(TEST_SEND_ACK_INTERVAL_MS);
    let res = env.get_messages(&gateway_1(), 1);
    check_ack_message_result(&env, &res, &client_1_key, 0, 2);

    let current_time = env.now;
    let msg = env.create_websocket_message(&client_1_key, 1, Some(keep_alive_bytes(1)), true);
    env.ws_message(&client_1_key.client_principal, msg).unwrap();

    let elapsed_time = env.now - current_time;
    env.advance_ns(CLIENT_KEEP_ALIVE_TIMEOUT_NS - elapsed_time);
    let msg = env.create_websocket_message(&client_1_key, 2, None, false);
    env.ws_message(&client_1_key.client_principal, msg).unwrap();
    env.advance_ms(TEST_SEND_ACK_INTERVAL_MS - CLIENT_KEEP_ALIVE_TIMEOUT_MS);
    let res = env.get_messages(&gateway_1(), 2);
    check_ack_message_result(&env, &res, &client_1_key, 2, 3);
}

#[test]
fn test_4_client_is_not_removed_if_it_connects_while_canister_is_waiting_for_keep_alive() {
    let mut env = TestEnv::new();
    let client_1_key = client_1_key();
    env.advance_ms(TEST_SEND_ACK_INTERVAL_MS);
    env.open(&client_1_key, &gateway_1());

    let CanisterOutputCertifiedMessages { messages, .. } = env.get_messages(&gateway_1(), 1);
    assert_eq!(messages.len(), 0);

    let msg = env.create_websocket_message(&client_1_key, 1, None, false);
    env.ws_message(&client_1_key.client_principal, msg).unwrap();

    env.advance_ms(CLIENT_KEEP_ALIVE_TIMEOUT_MS);
    env.advance_ms(TEST_SEND_ACK_INTERVAL_MS - CLIENT_KEEP_ALIVE_TIMEOUT_MS);

    let res = env.get_messages(&gateway_1(), 1);
    check_ack_message_result(&env, &res, &client_1_key, 1, 2);
}

// wipe

#[test]
fn wipe_forgets_everything_and_closes_every_client() {
    let mut env = TestEnv::new();
    env.open(&client_1_key(), &gateway_1());
    env.open(&client_2_key(), &gateway_2());
    let _ = env.state.take_callbacks();
    ic_websocket_cdk::wipe(&mut env.state);
    let calls = env.state.take_callbacks();
    assert_eq!(calls.len(), 2);
    assert!(matches!(&calls[0], WsCallback::OnClose(a) if a.client_principal == client_1_key().client_principal));
    assert!(matches!(&calls[1], WsCallback::OnClose(a) if a.client_principal == client_2_key().client_principal));
    assert!(!env.state.is_registered_gateway(&gateway_1()));
    assert!(env.state.get_client_key_from_principal(&client_1_key().client_principal).is_err());
    assert_eq!(env.get_messages(&gateway_1(), 0).messages.len(), 0);
    // the parameters are back to their defaults
    assert_eq!(env.state.send_ack_interval_ms(), ic_websocket_cdk::DEFAULT_SEND_ACK_INTERVAL_MS);
    assert_eq!(env.state.max_number_of_returned_messages(), ic_websocket_cdk::DEFAULT_MAX_NUMBER_OF_RETURNED_MESSAGES);
    assert_eq!(env.state.keep_alive_timeout_ms(), ic_websocket_cdk::DEFAULT_CLIENT_KEEP_ALIVE_TIMEOUT_MS);
}

// polling, as a gateway polls in batches

const TEST_MAX_NUMBER_OF_RETURNED_MESSAGES: u64 = 20;
const SEND_MESSAGES_COUNT: u64 = TEST_MAX_NUMBER_OF_RETURNED_MESSAGES + 2;

/// The text of an application message, read back from its Candid.
fn decode_app_message(bytes: &[u8]) -> String {
    let args = IDLArgs::from_bytes(bytes).unwrap();
    match record_field(&args.args[0], "text") {
        IDLValue::Text(t) => t.clone(),
        _ => panic!("expected a text"),
    }
}

/// A canister polled by a gateway that gets at most 20 messages at a time, with
/// client 1 connected and 22 application messages sent to it.
fn env_with_sent_messages() -> TestEnv {
    let mut env = TestEnv::new();
    env.state.set_params(TEST_MAX_NUMBER_OF_RETURNED_MESSAGES as usize, TEST_SEND_ACK_INTERVAL_MS, CLIENT_KEEP_ALIVE_TIMEOUT_MS);
    let client_1_key = client_1_key();
    env.open(&client_1_key, &gateway_1());
    let messages: Vec<Vec<u8>> = (0..SEND_MESSAGES_COUNT).map(|i| app_message(&format!("test{}", i))).collect();
    env.send(&client_1_key.client_principal, &messages).unwrap();
    env
}

fn verify_messages(
    env: &TestEnv,
    res: &CanisterOutputCertifiedMessages,
    client_key: &ClientKey,
    expected_sequence_number: &mut u64,
    index: &mut u64,
) {
    for message in res.messages.iter() {
        assert_eq!(message.client_key, *client_key);
        let websocket_message = decode_websocket_message(&message.content);
        assert_eq!(websocket_message.principal, client_key.client_principal.as_slice().to_vec());
        assert_eq!(websocket_message.nonce, client_key.client_nonce);
        assert_eq!(websocket_message.sequence_num, *expected_sequence_number);
        assert_eq!(websocket_message.timestamp, env.now);
        assert!(!websocket_message.is_service_message);
        assert_eq!(decode_app_message(&websocket_message.content), format!("test{}", index));
        assert_eq!(res.cert, CERTIFICATE.to_vec());
        assert!(is_message_body_valid(env, &message.key, &message.content, &res.tree));
        *expected_sequence_number += 1;
        *index += 1;
    }
}

fn next_polling_nonce(messages: &[CanisterOutputMessage]) -> u64 {
    let last: u64 = messages.last().unwrap().key.split('_').last().unwrap().parse().unwrap();
    last + 1
}

#[test]
fn test_2_registered_gateway_should_receive_empty_messages_if_no_messages_are_available() {
    let env = TestEnv::new();
    let res = env.get_messages(&gateway_1(), 0);
    assert!(res.messages.is_empty());
    assert!(res.cert.is_empty());
    assert!(res.tree.is_empty());

    let res = env.get_messages(&gateway_1(), 100);
    assert!(res.messages.is_empty());
    assert!(res.cert.is_empty());
    assert!(res.tree.is_empty());
}

#[test]
fn test_3_registered_gateway_can_receive_correct_amount_of_messages() {
    let env = env_with_sent_messages();
    let messages_count = SEND_MESSAGES_COUNT + 1;
    for i in 0..messages_count {
        let res = env.get_messages(&gateway_1(), i);
        assert_eq!(
            res.messages.len() as u64,
            if messages_count - i > TEST_MAX_NUMBER_OF_RETURNED_MESSAGES {
                TEST_MAX_NUMBER_OF_RETURNED_MESSAGES
            } else {
                messages_count - i
            },
        );
    }
    let res = env.get_messages(&gateway_1(), messages_count);
    assert_eq!(res.messages.len(), 0);
}

#[test]
fn test_4_registered_gateway_can_receive_certified_messages() {
    let env = env_with_sent_messages();
    let client_1_key = client_1_key();

    let first_batch = env.get_messages(&gateway_1(), 1);
    assert_eq!(first_batch.messages.len() as u64, TEST_MAX_NUMBER_OF_RETURNED_MESSAGES);
    let mut expected_sequence_number = 2;
    let mut i = 0;
    verify_messages(&env, &first_batch, &client_1_key, &mut expected_sequence_number, &mut i);

    let second_batch = env.get_messages(&gateway_1(), next_polling_nonce(&first_batch.messages));
    assert_eq!(second_batch.messages.len() as u64, SEND_MESSAGES_COUNT - TEST_MAX_NUMBER_OF_RETURNED_MESSAGES);
    verify_messages(&env, &second_batch, &client_1_key, &mut expected_sequence_number, &mut i);
    assert!(second_batch.is_end_of_queue);
}

#[test]
fn test_3_should_close_the_websocket_for_a_registered_client() {
    let mut env = TestEnv::new();
    env.open(&client_1_key(), &gateway_1());
    let res = env.ws_close(&gateway_1(), client_1_key());
    assert_eq!(res, Ok(()));
}

#[test]
fn keep_alive_timeout_is_a_parameter() {
    let mut env = TestEnv::new();
    env.state.set_params(50, TEST_SEND_ACK_INTERVAL_MS, 120_000);
    let client_1_key = client_1_key();
    env.open(&client_1_key, &gateway_1());
    env.advance_ms(250_000);
    let msg = env.create_websocket_message(&client_1_key, 1, Some(keep_alive_bytes(0)), true);
    env.ws_message(&client_1_key.client_principal, msg).unwrap();
    // the acknowledgement comes 50 s later and the check 60 s after it: 110 s of
    // silence are within the 120 s that the parameter gives
    env.advance_ms(50_000);
    env.advance_ms(CLIENT_KEEP_ALIVE_TIMEOUT_MS);
    assert!(env.state.check_registered_client_exists(&client_1_key).is_ok());
    // 120 s and one nanosecond are not
    let now = env.now;
    env.state.check_keep_alive_timer_callback(now + 10_000_000_001);
    assert!(env.state.check_registered_client_exists(&client_1_key).is_err());
}

#[test]
fn certified_data_is_the_labeled_root_of_the_certification_tree() {
    let mut env = TestEnv::new();
    let empty_tree = ic_certification::hash_tree::empty::<Vec<u8>>();
    let empty_root = empty_tree.digest();
    let mut labeled = Vec::from([19u8]);
    labeled.extend_from_slice(b"ic-hashtree-labeled");
    labeled.extend_from_slice(b"websocket");
    labeled.extend_from_slice(&empty_root);
    let expected: [u8; 32] = Sha256::digest(&labeled).into();
    assert_eq!(env.state.certified_data(), expected);
    env.open(&client_1_key(), &gateway_1());
    assert_ne!(env.state.certified_data(), expected);
}

#[test]
fn gateway_counts_its_clients_and_stays_registered_while_it_has_any() {
    let mut env = TestEnv::new();
    env.open(&client_1_key(), &gateway_1());
    env.open(&client_2_key(), &gateway_1());
    assert_eq!(env.state.get_registered_gateway(&gateway_1()).unwrap().connected_clients_count, 2);

    env.ws_close(&gateway_1(), client_1_key()).unwrap();
    assert_eq!(env.state.get_registered_gateway(&gateway_1()).unwrap().connected_clients_count, 1);

    // the remaining client's gateway outlives an expiry period and still takes messages
    env.advance_ms(TEST_SEND_ACK_INTERVAL_MS + 1);
    env.advance_ms(CLIENT_KEEP_ALIVE_TIMEOUT_MS / 2);
    let keep_alive = env.create_websocket_message(&client_2_key(), 1, Some(keep_alive_bytes(0)), true);
    env.ws_message(&client_2_key().client_principal, keep_alive).unwrap();
    env.advance_ms(CLIENT_KEEP_ALIVE_TIMEOUT_MS / 2 + 1);
    assert!(env.state.is_registered_gateway(&gateway_1()));
    assert_eq!(env.state.get_registered_gateway(&gateway_1()).unwrap().connected_clients_count, 1);
    env.send(&client_2_key().client_principal, &[app_message("still here")]).unwrap();

    env.close(&client_2_key().client_principal).unwrap();
    assert_eq!(env.state.get_registered_gateway(&gateway_1()).unwrap().connected_clients_count, 0);
    assert!(env.state.is_registered_gateway(&gateway_1()));
}

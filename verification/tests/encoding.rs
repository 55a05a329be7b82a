use candid::types::Label;
use candid::{IDLArgs, IDLValue};
use ic_websocket_cdk::errors::WsError;
use ic_websocket_cdk::text::{format_message_for_gateway_key, string_lt, u64_to_string};
use ic_websocket_cdk::types::{
    CanisterAckMessageContent, CanisterCloseMessageContent, CanisterOpenMessageContent, ClientKeepAliveMessageContent,
    ClientKey, CloseMessageReason, WebsocketMessage, WebsocketServiceMessageContent,
};
use ic_websocket_cdk::{
    CanisterWsGetMessagesArguments, Principal, WsInitParams, DEFAULT_CLIENT_KEEP_ALIVE_TIMEOUT_MS,
    DEFAULT_MAX_NUMBER_OF_RETURNED_MESSAGES,
    DEFAULT_SEND_ACK_INTERVAL_MS,
};

const CLIENT_TEXT: &str = "pmisz-prtlk-b6oe6-bj4fl-6l5fy-h7c2h-so6i7-jiz2h-bgto7-piqfr-7ae";
const GATEWAY_TEXT: &str = "i3gux-m3hwt-5mh2w-t7wwm-fwx5j-6z6ht-hxguo-t4rfw-qp24z-g5ivt-2qe";

fn principal(text: &str) -> Principal {
    let p = candid::Principal::from_text(text).unwrap();
    Principal::try_from_slice(p.as_slice()).unwrap()
}

fn label_is(label: &Label, name: &str) -> bool {
    match label {
        Label::Named(n) => n == name,
        Label::Id(id) | Label::Unnamed(id) => *id == candid::idl_hash(name),
    }
}

/// The variant that Candid decodes from the bytes: its label and its value.
fn decode_variant(bytes: &[u8]) -> (Label, IDLValue) {
    let args = IDLArgs::from_bytes(bytes).unwrap();
    assert_eq!(args.args.len(), 1);
    match &args.args[0] {
        IDLValue::Variant(v) => (v.0.id.clone(), v.0.val.clone()),
        _ => panic!("expected a variant"),
    }
}

fn only_field(value: &IDLValue, name: &str) -> IDLValue {
    match value {
        IDLValue::Record(fields) => {
            assert_eq!(fields.len(), 1);
            assert!(label_is(&fields[0].id, name));
            fields[0].val.clone()
        },
        _ => panic!("expected a record"),
    }
}

#[test]
fn open_message_is_candid_of_the_service_message_type() {
    let key = ClientKey::new(principal(CLIENT_TEXT), 0x0102_0304_0506_0708);
    let bytes = WebsocketServiceMessageContent::OpenMessage(CanisterOpenMessageContent { client_key: key }).candid_encode();
    let (label, value) = decode_variant(&bytes);
    assert!(label_is(&label, "OpenMessage"));
    let client_key = only_field(&value, "client_key");
    match client_key {
        IDLValue::Record(fields) => {
            assert_eq!(fields.len(), 2);
            for f in fields {
                if label_is(&f.id, "client_principal") {
                    assert_eq!(f.val, IDLValue::Principal(candid::Principal::from_text(CLIENT_TEXT).unwrap()));
                } else {
                    assert!(label_is(&f.id, "client_nonce"));
                    assert_eq!(f.val, IDLValue::Nat64(0x0102_0304_0506_0708));
                }
            }
        },
        _ => panic!("expected a record"),
    }
}

#[test]
fn ack_and_keep_alive_messages_are_candid_of_the_service_message_type() {
    let ack = WebsocketServiceMessageContent::AckMessage(CanisterAckMessageContent { last_incoming_sequence_num: 300 });
    let (label, value) = decode_variant(&ack.candid_encode());
    assert!(label_is(&label, "AckMessage"));
    assert_eq!(only_field(&value, "last_incoming_sequence_num"), IDLValue::Nat64(300));

    let keep_alive =
        WebsocketServiceMessageContent::KeepAliveMessage(ClientKeepAliveMessageContent { last_incoming_sequence_num: 7 });
    let (label, value) = decode_variant(&keep_alive.candid_encode());
    assert!(label_is(&label, "KeepAliveMessage"));
    assert_eq!(only_field(&value, "last_incoming_sequence_num"), IDLValue::Nat64(7));
}

#[test]
fn close_messages_are_candid_of_the_service_message_type() {
    let reasons = [
        (CloseMessageReason::ClosedByApplication, "ClosedByApplication"),
        (CloseMessageReason::InvalidServiceMessage, "InvalidServiceMessage"),
        (CloseMessageReason::WrongSequenceNumber, "WrongSequenceNumber"),
        (CloseMessageReason::KeepAliveTimeout, "KeepAliveTimeout"),
    ];
    for (reason, name) in reasons {
        let bytes = WebsocketServiceMessageContent::CloseMessage(CanisterCloseMessageContent { reason }).candid_encode();
        let (label, value) = decode_variant(&bytes);
        assert!(label_is(&label, "CloseMessage"));
        match only_field(&value, "reason") {
            IDLValue::Variant(v) => {
                assert!(label_is(&v.0.id, name));
                assert_eq!(v.0.val, IDLValue::Null);
            },
            _ => panic!("expected a variant"),
        }
    }
}

#[test]
fn websocket_message_is_self_describing_cbor() {
    let key = ClientKey::new(principal(CLIENT_TEXT), 1_000_000);
    let m = WebsocketMessage::new(key, 25, 1_700_000_000_123_456_789, true, vec![9, 8, 7]);
    let bytes = m.cbor_serialize().unwrap();
    assert_eq!(&bytes[..3], &[0xd9, 0xd9, 0xf7]);
    let value: serde_cbor::Value = serde_cbor::from_slice(&bytes).unwrap();
    let map = match value {
        serde_cbor::Value::Map(m) => m,
        _ => panic!("expected a map"),
    };
    let text = |s: &str| serde_cbor::Value::Text(s.to_string());
    assert_eq!(map.len(), 5);
    assert_eq!(map[&text("sequence_num")], serde_cbor::Value::Integer(25));
    assert_eq!(map[&text("timestamp")], serde_cbor::Value::Integer(1_700_000_000_123_456_789));
    assert_eq!(map[&text("is_service_message")], serde_cbor::Value::Bool(true));
    assert_eq!(map[&text("content")], serde_cbor::Value::Bytes(vec![9, 8, 7]));
    match &map[&text("client_key")] {
        serde_cbor::Value::Map(k) => {
            assert_eq!(
                k[&text("client_principal")],
                serde_cbor::Value::Bytes(candid::Principal::from_text(CLIENT_TEXT).unwrap().as_slice().to_vec())
            );
            assert_eq!(k[&text("client_nonce")], serde_cbor::Value::Integer(1_000_000));
        },
        _ => panic!("expected a map"),
    }
}

#[test]
fn websocket_message_keeps_large_numbers_and_empty_content() {
    let key = ClientKey::new(Principal::anonymous(), u64::MAX);
    let m = WebsocketMessage::new(key, u64::MAX, 0, false, vec![]);
    let bytes = m.cbor_serialize().unwrap();
    let value: serde_cbor::Value = serde_cbor::from_slice(&bytes).unwrap();
    let map = match value {
        serde_cbor::Value::Map(m) => m,
        _ => panic!("expected a map"),
    };
    let text = |s: &str| serde_cbor::Value::Text(s.to_string());
    assert_eq!(map[&text("sequence_num")], serde_cbor::Value::Integer(u64::MAX as i128));
    assert_eq!(map[&text("timestamp")], serde_cbor::Value::Integer(0));
    assert_eq!(map[&text("content")], serde_cbor::Value::Bytes(vec![]));
}

#[test]
fn message_keys_are_the_gateway_text_and_the_padded_nonce() {
    let text = principal(GATEWAY_TEXT).to_text();
    assert_eq!(text, GATEWAY_TEXT);
    assert_eq!(format_message_for_gateway_key(&text, 0), format!("{}_00000000000000000000", GATEWAY_TEXT));
    assert_eq!(format_message_for_gateway_key(&text, 12345), format!("{}_00000000000000012345", GATEWAY_TEXT));
    assert_eq!(format_message_for_gateway_key(&text, u64::MAX), format!("{}_18446744073709551615", GATEWAY_TEXT));
}

#[test]
fn message_keys_compare_as_their_nonces() {
    let text = principal(GATEWAY_TEXT).to_text();
    let nonces = [0u64, 1, 9, 10, 99, 100, 12345, u64::MAX - 1, u64::MAX];
    for a in nonces {
        for b in nonces {
            let ka = format_message_for_gateway_key(&text, a);
            let kb = format_message_for_gateway_key(&text, b);
            assert_eq!(string_lt(&ka, &kb), a < b);
            assert_eq!(ka < kb, a < b);
        }
    }
}

#[test]
fn numbers_are_written_in_decimal() {
    assert_eq!(u64_to_string(0), "0");
    assert_eq!(u64_to_string(7), "7");
    assert_eq!(u64_to_string(1_000_000), "1000000");
    assert_eq!(u64_to_string(u64::MAX), "18446744073709551615");
}

#[test]
fn principals_are_written_as_candid_writes_them() {
    let p = principal(CLIENT_TEXT);
    assert_eq!(p.to_text(), CLIENT_TEXT);
    assert_eq!(Principal::anonymous().to_text(), "2vxsx-fae");
    assert!(Principal::anonymous().is_anonymous());
    assert!(!p.is_anonymous());
    assert!(Principal::try_from_slice(&[0u8; 30]).is_none());
    assert!(Principal::try_from_slice(&[0u8; 29]).is_some());
}

#[test]
fn client_keys_are_written_as_principal_and_nonce() {
    let key = ClientKey::new(principal(CLIENT_TEXT), 42);
    assert_eq!(key.to_string(), format!("{}_42", CLIENT_TEXT));
}

#[test]
fn error_texts() {
    let key = ClientKey::new(principal(CLIENT_TEXT), 42);
    let gw = principal(GATEWAY_TEXT);
    assert_eq!(WsError::AnonymousPrincipalNotAllowed.to_string(), "Anonymous principal is not allowed");
    assert_eq!(
        WsError::ClientKeyAlreadyConnected { client_key: key.clone() }.to_string(),
        format!("Client with key {}_42 already has an open connection", CLIENT_TEXT)
    );
    assert_eq!(
        WsError::ClientKeyMessageMismatch { client_key: key.clone() }.to_string(),
        format!("Client with principal {} has a different key than the one used in the message", CLIENT_TEXT)
    );
    assert_eq!(
        WsError::ClientKeyNotConnected { client_key: key.clone() }.to_string(),
        format!("Client with key {}_42 doesn't have an open connection", CLIENT_TEXT)
    );
    assert_eq!(
        WsError::ClientNotRegisteredToGateway { client_key: key.clone(), gateway_principal: gw.clone() }.to_string(),
        format!("Client with key {}_42 was not registered to gateway {}", CLIENT_TEXT, GATEWAY_TEXT)
    );
    assert_eq!(
        WsError::ClientPrincipalNotConnected { client_principal: gw.clone() }.to_string(),
        format!("Client with principal {} doesn't have an open connection", GATEWAY_TEXT)
    );
    assert_eq!(
        WsError::DecodeServiceMessageContent { err: String::from("bad bytes") }.to_string(),
        "Error decoding service message content: bad bytes"
    );
    assert_eq!(
        WsError::ExpectedIncomingMessageToClientNumNotInitialized { client_key: key.clone() }.to_string(),
        format!("Expected incoming message to client num not initialized for client key {}_42", CLIENT_TEXT)
    );
    assert_eq!(
        WsError::GatewayNotRegistered { gateway_principal: gw.clone() }.to_string(),
        format!("Gateway with principal {} is not registered", GATEWAY_TEXT)
    );
    assert_eq!(WsError::InvalidServiceMessage.to_string(), "Invalid service message");
    assert_eq!(
        WsError::IncomingSequenceNumberWrong { expected_sequence_num: 3, actual_sequence_num: 10 }.to_string(),
        "Expected incoming sequence number 3 but got 10"
    );
    assert_eq!(
        WsError::OutgoingMessageToClientNumNotInitialized { client_key: key.clone() }.to_string(),
        format!("Outgoing message to client num not initialized for client key {}_42", CLIENT_TEXT)
    );
    assert_eq!(WsError::InvalidServiceMessage.to_string_result(), Err(String::from("Invalid service message")));
}

#[test]
fn init_params_defaults_and_builders() {
    let params = WsInitParams::new("handlers");
    assert_eq!(*params.get_handlers(), "handlers");
    assert_eq!(params.max_number_of_returned_messages, DEFAULT_MAX_NUMBER_OF_RETURNED_MESSAGES);
    assert_eq!(params.send_ack_interval_ms, DEFAULT_SEND_ACK_INTERVAL_MS);
    assert!(params.check_validity());

    let params = WsInitParams::new("handlers").with_max_number_of_returned_messages(5).with_send_ack_interval_ms(60_001);
    assert_eq!(params.max_number_of_returned_messages, 5);
    assert_eq!(params.send_ack_interval_ms, 60_001);
    assert!(params.check_validity());

    let mut params = WsInitParams::new("handlers");
    params.send_ack_interval_ms = 60_000;
    assert!(!params.check_validity());
}

#[test]
fn test_ws_init_params() {
    let handlers = "handlers";

    let params = WsInitParams::new(handlers);
    assert_eq!(*params.get_handlers(), handlers);
    assert_eq!(params.max_number_of_returned_messages, DEFAULT_MAX_NUMBER_OF_RETURNED_MESSAGES);
    assert_eq!(params.send_ack_interval_ms, DEFAULT_SEND_ACK_INTERVAL_MS);
    assert_eq!(params.keep_alive_timeout_ms, DEFAULT_CLIENT_KEEP_ALIVE_TIMEOUT_MS);

    let params = WsInitParams::new(handlers)
        .with_max_number_of_returned_messages(5)
        .with_keep_alive_timeout_ms(2)
        .with_send_ack_interval_ms(10);
    assert_eq!(params.max_number_of_returned_messages, 5);
    assert_eq!(params.keep_alive_timeout_ms, 2);
    assert_eq!(params.send_ack_interval_ms, 10);
}

#[test]
fn get_messages_arguments_hold_the_nonce() {
    assert_eq!(CanisterWsGetMessagesArguments::new(12).nonce, 12);
}

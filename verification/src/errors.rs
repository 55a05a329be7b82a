//! The errors of the library and the text in which they reach the caller.
use crate::external::principal_text;
use crate::types::{key_text, ClientKey, ClientPrincipal, GatewayPrincipal, KeyV};
use crate::text::{decimal, u64_to_string};
use vstd::prelude::*;

verus! {

/// The text of [`WsError::AnonymousPrincipalNotAllowed`].
pub open spec fn anonymous_principal_text() -> Seq<char> {
    "Anonymous principal is not allowed"@
}

/// The text of [`WsError::ClientKeyAlreadyConnected`].
pub open spec fn client_key_already_connected_text(k: KeyV) -> Seq<char> {
    "Client with key "@ + key_text(k) + " already has an open connection"@
}

/// The text of [`WsError::ClientKeyMessageMismatch`].
pub open spec fn client_key_message_mismatch_text(k: KeyV) -> Seq<char> {
    "Client with principal "@ + principal_text(k.0) + " has a different key than the one used in the message"@
}

/// The text of [`WsError::ClientKeyNotConnected`].
pub open spec fn client_key_not_connected_text(k: KeyV) -> Seq<char> {
    "Client with key "@ + key_text(k) + " doesn't have an open connection"@
}

/// The text of [`WsError::ClientNotRegisteredToGateway`].
pub open spec fn client_not_registered_to_gateway_text(k: KeyV, gateway: Seq<u8>) -> Seq<char> {
    "Client with key "@ + key_text(k) + " was not registered to gateway "@ + principal_text(gateway)
}

/// The text of [`WsError::ClientPrincipalNotConnected`].
pub open spec fn client_principal_not_connected_text(p: Seq<u8>) -> Seq<char> {
    "Client with principal "@ + principal_text(p) + " doesn't have an open connection"@
}

/// The text of [`WsError::DecodeServiceMessageContent`].
pub open spec fn decode_service_message_content_text(err: Seq<char>) -> Seq<char> {
    "Error decoding service message content: "@ + err
}

/// The text of [`WsError::ExpectedIncomingMessageToClientNumNotInitialized`].
pub open spec fn expected_incoming_not_initialized_text(k: KeyV) -> Seq<char> {
    "Expected incoming message to client num not initialized for client key "@ + key_text(k)
}

/// The text of [`WsError::GatewayNotRegistered`].
pub open spec fn gateway_not_registered_text(gateway: Seq<u8>) -> Seq<char> {
    "Gateway with principal "@ + principal_text(gateway) + " is not registered"@
}

/// The text of [`WsError::InvalidServiceMessage`].
pub open spec fn invalid_service_message_text() -> Seq<char> {
    "Invalid service message"@
}

/// The text of [`WsError::IncomingSequenceNumberWrong`].
pub open spec fn incoming_sequence_number_wrong_text(expected: u64, actual: u64) -> Seq<char> {
    "Expected incoming sequence number "@ + decimal(expected as nat) + " but got "@ + decimal(actual as nat)
}

/// The text of [`WsError::OutgoingMessageToClientNumNotInitialized`].
pub open spec fn outgoing_not_initialized_text(k: KeyV) -> Seq<char> {
    "Outgoing message to client num not initialized for client key "@ + key_text(k)
}

/// The errors that the library's operations report.
#[derive(Debug)]
pub enum WsError {
    AnonymousPrincipalNotAllowed,
    ClientKeyAlreadyConnected { client_key: ClientKey },
    ClientKeyMessageMismatch { client_key: ClientKey },
    ClientKeyNotConnected { client_key: ClientKey },
    ClientNotRegisteredToGateway { client_key: ClientKey, gateway_principal: GatewayPrincipal },
    ClientPrincipalNotConnected { client_principal: ClientPrincipal },
    DecodeServiceMessageContent { err: String },
    ExpectedIncomingMessageToClientNumNotInitialized { client_key: ClientKey },
    GatewayNotRegistered { gateway_principal: GatewayPrincipal },
    InvalidServiceMessage,
    IncomingSequenceNumberWrong { expected_sequence_num: u64, actual_sequence_num: u64 },
    OutgoingMessageToClientNumNotInitialized { client_key: ClientKey },
}

/// `a`, then `b`, then `c`.
fn concat3(a: &str, b: &String, c: &str) -> (s: String)
    ensures
        s@ == a@ + b@ + c@,
{
    let mut s = String::from_str(a);
    s.append(b.as_str());
    s.append(c);
    s
}

impl WsError {
    /// The text of the error.
    pub open spec fn text(&self) -> Seq<char> {
        match self {
            WsError::AnonymousPrincipalNotAllowed => anonymous_principal_text(),
            WsError::ClientKeyAlreadyConnected { client_key } => client_key_already_connected_text(client_key@),
            WsError::ClientKeyMessageMismatch { client_key } => client_key_message_mismatch_text(client_key@),
            WsError::ClientKeyNotConnected { client_key } => client_key_not_connected_text(client_key@),
            WsError::ClientNotRegisteredToGateway { client_key, gateway_principal } =>
                client_not_registered_to_gateway_text(client_key@, gateway_principal@),
            WsError::ClientPrincipalNotConnected { client_principal } => client_principal_not_connected_text(client_principal@),
            WsError::DecodeServiceMessageContent { err } => decode_service_message_content_text(err@),
            WsError::ExpectedIncomingMessageToClientNumNotInitialized { client_key } =>
                expected_incoming_not_initialized_text(client_key@),
            WsError::GatewayNotRegistered { gateway_principal } => gateway_not_registered_text(gateway_principal@),
            WsError::InvalidServiceMessage => invalid_service_message_text(),
            WsError::IncomingSequenceNumberWrong { expected_sequence_num, actual_sequence_num } =>
                incoming_sequence_number_wrong_text(*expected_sequence_num, *actual_sequence_num),
            WsError::OutgoingMessageToClientNumNotInitialized { client_key } => outgoing_not_initialized_text(client_key@),
        }
    }

    /// The text of the error.
    pub fn to_string(&self) -> (s: String)
        ensures
            s@ == self.text(),
    {
        match self {
            WsError::AnonymousPrincipalNotAllowed => String::from_str("Anonymous principal is not allowed"),
            WsError::ClientKeyAlreadyConnected { client_key } =>
                concat3("Client with key ", &client_key.to_string(), " already has an open connection"),
            WsError::ClientKeyMessageMismatch { client_key } => concat3(
                "Client with principal ",
                &client_key.client_principal.to_text(),
                " has a different key than the one used in the message",
            ),
            WsError::ClientKeyNotConnected { client_key } =>
                concat3("Client with key ", &client_key.to_string(), " doesn't have an open connection"),
            WsError::ClientNotRegisteredToGateway { client_key, gateway_principal } => {
                let mut s = concat3("Client with key ", &client_key.to_string(), " was not registered to gateway ");
                let g = gateway_principal.to_text();
                s.append(g.as_str());
                s
            },
            WsError::ClientPrincipalNotConnected { client_principal } =>
                concat3("Client with principal ", &client_principal.to_text(), " doesn't have an open connection"),
            WsError::DecodeServiceMessageContent { err } => {
                let mut s = String::from_str("Error decoding service message content: ");
                s.append(err.as_str());
                s
            },
            WsError::ExpectedIncomingMessageToClientNumNotInitialized { client_key } => {
                let mut s = String::from_str("Expected incoming message to client num not initialized for client key ");
                let k = client_key.to_string();
                s.append(k.as_str());
                s
            },
            WsError::GatewayNotRegistered { gateway_principal } =>
                concat3("Gateway with principal ", &gateway_principal.to_text(), " is not registered"),
            WsError::InvalidServiceMessage => String::from_str("Invalid service message"),
            WsError::IncomingSequenceNumberWrong { expected_sequence_num, actual_sequence_num } => {
                let mut s = concat3("Expected incoming sequence number ", &u64_to_string(*expected_sequence_num), " but got ");
                let a = u64_to_string(*actual_sequence_num);
                s.append(a.as_str());
                s
            },
            WsError::OutgoingMessageToClientNumNotInitialized { client_key } => {
                let mut s = String::from_str("Outgoing message to client num not initialized for client key ");
                let k = client_key.to_string();
                s.append(k.as_str());
                s
            },
        }
    }

    /// The error as the `Err` of a result.
    pub fn to_string_result(&self) -> (res: Result<(), String>)
        ensures
            res matches Err(s) && s@ == self.text(),
    {
        Err(self.to_string())
    }
}

} // verus!

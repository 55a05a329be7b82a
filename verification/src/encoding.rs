//! The byte encodings that the library writes: the self-describing CBOR of the
//! websocket messages that gateways relay, and the Candid of the service
//! messages that the library sends to clients.
use crate::types::{CloseMessageReason, KeyV, MessageV, ServiceMessageV, WebsocketMessage, WebsocketServiceMessageContent};
use vstd::prelude::*;

verus! {

/// The `k` lowest bytes of `n`, most significant first.
pub open spec fn be_bytes(n: nat, k: nat) -> Seq<u8>
    decreases k,
{
    if k == 0 {
        Seq::empty()
    } else {
        be_bytes(n / 256, (k - 1) as nat).push((n % 256) as u8)
    }
}

/// The `k` lowest bytes of `n`, least significant first.
pub open spec fn le_bytes(n: nat, k: nat) -> Seq<u8>
    decreases k,
{
    if k == 0 {
        Seq::empty()
    } else {
        seq![(n % 256) as u8] + le_bytes(n / 256, (k - 1) as nat)
    }
}

/// The head of a CBOR data item of major type `major` with argument `n`, in the
/// shortest form.
pub open spec fn cbor_head(major: u8, n: nat) -> Seq<u8> {
    let m = major as nat * 32;
    if n <= 23 {
        seq![(m + n) as u8]
    } else if n <= 0xff {
        seq![(m + 24) as u8, n as u8]
    } else if n <= 0xffff {
        seq![(m + 25) as u8] + be_bytes(n, 2)
    } else if n <= 0xffff_ffff {
        seq![(m + 26) as u8] + be_bytes(n, 4)
    } else {
        seq![(m + 27) as u8] + be_bytes(n, 8)
    }
}

/// A CBOR text string whose UTF-8 bytes are `text`.
pub open spec fn cbor_text(text: Seq<u8>) -> Seq<u8> {
    cbor_head(3, text.len()) + text
}

/// A CBOR byte string.
pub open spec fn cbor_bytes(bytes: Seq<u8>) -> Seq<u8> {
    cbor_head(2, bytes.len()) + bytes
}

/// A CBOR unsigned integer.
pub open spec fn cbor_uint(n: u64) -> Seq<u8> {
    cbor_head(0, n as nat)
}

/// A CBOR boolean.
pub open spec fn cbor_bool(b: bool) -> Seq<u8> {
    seq![if b { 0xf5u8 } else { 0xf4u8 }]
}

/// The CBOR tag that marks the data as CBOR (tag 55799).
pub const CBOR_SELF_DESCRIBE_TAG: [u8; 3] = [0xd9, 0xd9, 0xf7];

/// The bytes of the field name `client_key`.
pub const FIELD_CLIENT_KEY: [u8; 10] = [99, 108, 105, 101, 110, 116, 95, 107, 101, 121];

/// The bytes of the field name `client_principal`.
pub const FIELD_CLIENT_PRINCIPAL: [u8; 16] = [99, 108, 105, 101, 110, 116, 95, 112, 114, 105, 110, 99, 105, 112, 97, 108];

/// The bytes of the field name `client_nonce`.
pub const FIELD_CLIENT_NONCE: [u8; 12] = [99, 108, 105, 101, 110, 116, 95, 110, 111, 110, 99, 101];

/// The bytes of the field name `sequence_num`.
pub const FIELD_SEQUENCE_NUM: [u8; 12] = [115, 101, 113, 117, 101, 110, 99, 101, 95, 110, 117, 109];

/// The bytes of the field name `timestamp`.
pub const FIELD_TIMESTAMP: [u8; 9] = [116, 105, 109, 101, 115, 116, 97, 109, 112];

/// The bytes of the field name `is_service_message`.
pub const FIELD_IS_SERVICE_MESSAGE: [u8; 18] = [105, 115, 95, 115, 101, 114, 118, 105, 99, 101, 95, 109, 101, 115, 115, 97, 103, 101];

/// The bytes of the field name `content`.
pub const FIELD_CONTENT: [u8; 7] = [99, 111, 110, 116, 101, 110, 116];

/// A client key as a CBOR map of its two fields, in declaration order.
pub open spec fn cbor_client_key(k: KeyV) -> Seq<u8> {
    cbor_head(5, 2)
        + cbor_text(FIELD_CLIENT_PRINCIPAL@) + cbor_bytes(k.0)
        + cbor_text(FIELD_CLIENT_NONCE@) + cbor_uint(k.1)
}

/// A websocket message as self-describing CBOR: a map of its five fields, in
/// declaration order, keyed by their names.
pub open spec fn cbor_websocket_message(m: MessageV) -> Seq<u8> {
    CBOR_SELF_DESCRIBE_TAG@ + cbor_head(5, 5)
        + cbor_text(FIELD_CLIENT_KEY@) + cbor_client_key(m.0)
        + cbor_text(FIELD_SEQUENCE_NUM@) + cbor_uint(m.1)
        + cbor_text(FIELD_TIMESTAMP@) + cbor_uint(m.2)
        + cbor_text(FIELD_IS_SERVICE_MESSAGE@) + cbor_bool(m.3)
        + cbor_text(FIELD_CONTENT@) + cbor_bytes(m.4)
}

/// `n` in unsigned LEB128.
pub open spec fn leb128(n: nat) -> Seq<u8>
    decreases n,
{
    if n < 128 {
        seq![n as u8]
    } else {
        seq![(n % 128 + 128) as u8] + leb128(n / 128)
    }
}

/// The start of every Candid message that holds one service message: the magic
/// `DIDL`, the type table of the service message type (a variant of four records
/// and the variant of close reasons, fields ordered by their Candid hashes), and
/// the single argument of table type 0.
pub const CANDID_SERVICE_MESSAGE_HEADER: [u8; 97] = [
    0x44, 0x49, 0x44, 0x4c, 0x06, 0x6b, 0x04, 0xfd, 0xbd, 0x95, 0xcc, 0x01, 0x01, 0xbf, 0xd3,
    0x97, 0xb4, 0x09, 0x03, 0x8f, 0xf2, 0xd1, 0xef, 0x0a, 0x04, 0x9e, 0xb7, 0xf0, 0xad, 0x0b,
    0x03, 0x6c, 0x01, 0xeb, 0xb4, 0x9c, 0xe9, 0x03, 0x02, 0x6c, 0x02, 0xfa, 0x80, 0xa2, 0x94,
    0x05, 0x68, 0xbb, 0xd1, 0xea, 0xcd, 0x0e, 0x78, 0x6c, 0x01, 0xd8, 0x88, 0xab, 0xb9, 0x0a,
    0x78, 0x6c, 0x01, 0xc4, 0x9f, 0xf4, 0xe4, 0x0f, 0x05, 0x6b, 0x04, 0xcd, 0xc2, 0xda, 0xbb,
    0x04, 0x7f, 0xc9, 0xc6, 0x8e, 0xa0, 0x05, 0x7f, 0xd7, 0xab, 0xa2, 0x9c, 0x0a, 0x7f, 0x99,
    0x9d, 0xaf, 0xab, 0x0d, 0x7f, 0x01, 0x00,
];

/// The position of a close reason among the variant's fields ordered by hash.
pub open spec fn close_reason_index(r: CloseMessageReason) -> u8 {
    match r {
        CloseMessageReason::ClosedByApplication => 0,
        CloseMessageReason::InvalidServiceMessage => 1,
        CloseMessageReason::WrongSequenceNumber => 2,
        CloseMessageReason::KeepAliveTimeout => 3,
    }
}

/// A service message in Candid: the header, then the position of the variant
/// (open 0, keep alive 1, close 2, acknowledgement 3) and its record. A principal
/// is the byte 1, its length in LEB128 and its bytes; a `nat64` is 8 bytes, least
/// significant first.
pub open spec fn candid_service_message(m: ServiceMessageV) -> Seq<u8> {
    CANDID_SERVICE_MESSAGE_HEADER@ + match m {
        ServiceMessageV::Open(k) => seq![0u8, 1u8] + leb128(k.0.len()) + k.0 + le_bytes(k.1 as nat, 8),
        ServiceMessageV::KeepAlive(n) => seq![1u8] + le_bytes(n as nat, 8),
        ServiceMessageV::Close(r) => seq![2u8, close_reason_index(r)],
        ServiceMessageV::Ack(n) => seq![3u8] + le_bytes(n as nat, 8),
    }
}

/// Appends `bytes` to `out`.
pub fn push_all(out: &mut Vec<u8>, bytes: &[u8])
    ensures
        final(out)@ == old(out)@ + bytes@,
{
    let mut i: usize = 0;
    while i < bytes.len()
        invariant
            i <= bytes@.len(),
            out@ == old(out)@ + bytes@.subrange(0, i as int),
        decreases bytes@.len() - i,
    {
        out.push(bytes[i]);
        i = i + 1;
        assert(out@ =~= old(out)@ + bytes@.subrange(0, i as int));
    }
    assert(bytes@.subrange(0, bytes@.len() as int) =~= bytes@);
}

/// Appends the `k` lowest bytes of `n`, most significant first.
fn push_be(out: &mut Vec<u8>, n: u64, k: usize)
    ensures
        final(out)@ == old(out)@ + be_bytes(n as nat, k as nat),
    decreases k,
{
    if k > 0 {
        push_be(out, n / 256, k - 1);
        out.push((n % 256) as u8);
        assert(final(out)@ =~= old(out)@ + be_bytes(n as nat, k as nat));
    } else {
        assert(final(out)@ =~= old(out)@ + be_bytes(n as nat, k as nat));
    }
}

/// Appends the `k` lowest bytes of `n`, least significant first.
fn push_le(out: &mut Vec<u8>, n: u64, k: usize)
    ensures
        final(out)@ == old(out)@ + le_bytes(n as nat, k as nat),
    decreases k,
{
    if k > 0 {
        out.push((n % 256) as u8);
        push_le(out, n / 256, k - 1);
        assert(final(out)@ =~= old(out)@ + le_bytes(n as nat, k as nat));
    } else {
        assert(final(out)@ =~= old(out)@ + le_bytes(n as nat, k as nat));
    }
}

/// Appends the head of a CBOR item.
fn push_cbor_head(out: &mut Vec<u8>, major: u8, n: u64)
    requires
        major < 8,
    ensures
        final(out)@ == old(out)@ + cbor_head(major, n as nat),
{
    let m: u8 = major * 32;
    if n <= 23 {
        out.push(m + n as u8);
    } else if n <= 0xff {
        out.push(m + 24);
        out.push(n as u8);
    } else if n <= 0xffff {
        out.push(m + 25);
        push_be(out, n, 2);
    } else if n <= 0xffff_ffff {
        out.push(m + 26);
        push_be(out, n, 4);
    } else {
        out.push(m + 27);
        push_be(out, n, 8);
    }
    assert(final(out)@ =~= old(out)@ + cbor_head(major, n as nat));
}

/// Appends a CBOR text string with the given UTF-8 bytes.
fn push_cbor_text(out: &mut Vec<u8>, text: &[u8])
    ensures
        final(out)@ == old(out)@ + cbor_text(text@),
{
    push_cbor_head(out, 3, text.len() as u64);
    push_all(out, text);
    assert(final(out)@ =~= old(out)@ + cbor_text(text@));
}

/// Appends a CBOR byte string.
fn push_cbor_bytes(out: &mut Vec<u8>, bytes: &[u8])
    ensures
        final(out)@ == old(out)@ + cbor_bytes(bytes@),
{
    push_cbor_head(out, 2, bytes.len() as u64);
    push_all(out, bytes);
    assert(final(out)@ =~= old(out)@ + cbor_bytes(bytes@));
}

/// Appends `n` in unsigned LEB128.
fn push_leb128(out: &mut Vec<u8>, n: u64)
    ensures
        final(out)@ == old(out)@ + leb128(n as nat),
    decreases n,
{
    if n < 128 {
        out.push(n as u8);
    } else {
        out.push((n % 128 + 128) as u8);
        push_leb128(out, n / 128);
    }
    assert(final(out)@ =~= old(out)@ + leb128(n as nat));
}

impl WebsocketMessage {
    /// Serializes the message into bytes, as self-describing CBOR.
    pub fn cbor_serialize(&self) -> (res: Result<Vec<u8>, String>)
        ensures
            res matches Ok(bytes) && bytes@ == cbor_websocket_message(self@),
    {
        let mut out: Vec<u8> = Vec::new();
        push_all(&mut out, CBOR_SELF_DESCRIBE_TAG.as_slice());
        push_cbor_head(&mut out, 5, 5);
        push_cbor_text(&mut out, FIELD_CLIENT_KEY.as_slice());
        push_cbor_head(&mut out, 5, 2);
        push_cbor_text(&mut out, FIELD_CLIENT_PRINCIPAL.as_slice());
        push_cbor_bytes(&mut out, self.client_key.client_principal.as_slice());
        push_cbor_text(&mut out, FIELD_CLIENT_NONCE.as_slice());
        push_cbor_head(&mut out, 0, self.client_key.client_nonce);
        push_cbor_text(&mut out, FIELD_SEQUENCE_NUM.as_slice());
        push_cbor_head(&mut out, 0, self.sequence_num);
        push_cbor_text(&mut out, FIELD_TIMESTAMP.as_slice());
        push_cbor_head(&mut out, 0, self.timestamp);
        push_cbor_text(&mut out, FIELD_IS_SERVICE_MESSAGE.as_slice());
        out.push(if self.is_service_message { 0xf5u8 } else { 0xf4u8 });
        push_cbor_text(&mut out, FIELD_CONTENT.as_slice());
        push_cbor_bytes(&mut out, self.content.as_slice());
        assert(out@ =~= cbor_websocket_message(self@));
        Ok(out)
    }
}

impl WebsocketServiceMessageContent {
    /// Serializes the message in Candid.
    pub fn candid_encode(&self) -> (bytes: Vec<u8>)
        ensures
            bytes@ == candid_service_message(self@),
    {
        let mut out: Vec<u8> = Vec::new();
        push_all(&mut out, CANDID_SERVICE_MESSAGE_HEADER.as_slice());
        let ghost header = out@;
        match self {
            WebsocketServiceMessageContent::OpenMessage(c) => {
                let p = c.client_key.client_principal.as_slice();
                out.push(0u8);
                out.push(1u8);
                push_leb128(&mut out, p.len() as u64);
                push_all(&mut out, p);
                push_le(&mut out, c.client_key.client_nonce, 8);
            },
            WebsocketServiceMessageContent::KeepAliveMessage(c) => {
                out.push(1u8);
                push_le(&mut out, c.last_incoming_sequence_num, 8);
            },
            WebsocketServiceMessageContent::CloseMessage(c) => {
                out.push(2u8);
                let index: u8 = match c.reason {
                    CloseMessageReason::ClosedByApplication => 0,
                    CloseMessageReason::InvalidServiceMessage => 1,
                    CloseMessageReason::WrongSequenceNumber => 2,
                    CloseMessageReason::KeepAliveTimeout => 3,
                };
                out.push(index);
            },
            WebsocketServiceMessageContent::AckMessage(c) => {
                out.push(3u8);
                push_le(&mut out, c.last_incoming_sequence_num, 8);
            },
        }
        assert(out@ =~= candid_service_message(self@));
        out
    }
}

} // verus!

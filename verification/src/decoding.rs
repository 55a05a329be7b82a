//! What a reader of the library's bytes gets back from them: a CBOR reader that
//! splits bytes into data items, and what it reads from the websocket messages
//! that the library queues for the gateways.
use crate::encoding::{
    be_bytes, candid_service_message, close_reason_index, le_bytes, leb128, CANDID_SERVICE_MESSAGE_HEADER, cbor_bool, cbor_bytes, cbor_client_key, cbor_head, cbor_text, cbor_uint, cbor_websocket_message, CBOR_SELF_DESCRIBE_TAG, FIELD_CLIENT_KEY,
    FIELD_CLIENT_NONCE, FIELD_CLIENT_PRINCIPAL, FIELD_CONTENT, FIELD_IS_SERVICE_MESSAGE, FIELD_SEQUENCE_NUM,
    FIELD_TIMESTAMP,
};
use crate::types::{CloseMessageReason, MessageV, ServiceMessageV};
use vstd::prelude::*;

verus! {

/// A CBOR data item as a reader meets it, one head at a time: a map or a tag is
/// followed by the items that it holds.
pub enum CborToken {
    /// An unsigned integer.
    Uint(nat),
    /// A byte string.
    Bytes(Seq<u8>),
    /// A text string, by its UTF-8 bytes.
    Text(Seq<u8>),
    /// The head of a map of that many pairs.
    MapHead(nat),
    /// The head of a tag with that number.
    Tag(nat),
    /// A boolean.
    Bool(bool),
    /// Any other well-formed item.
    Other,
    /// Bytes that do not form a whole item.
    Malformed,
}

/// `256` to the power `k`.
pub open spec fn pow256(k: nat) -> nat
    decreases k,
{
    if k == 0 {
        1
    } else {
        256 * pow256((k - 1) as nat)
    }
}

/// The number that bytes write, most significant first.
pub open spec fn be_value(s: Seq<u8>) -> nat
    decreases s.len(),
{
    if s.len() == 0 {
        0
    } else {
        be_value(s.drop_last()) * 256 + s.last() as nat
    }
}

/// How many bytes follow the first byte of a head whose low five bits are `info`.
pub open spec fn head_arg_len(info: nat) -> nat {
    if info < 24 {
        0
    } else if info == 24 {
        1
    } else if info == 25 {
        2
    } else if info == 26 {
        4
    } else {
        8
    }
}

/// The data items that a CBOR reader finds in `b`, in order. The first byte of a
/// head holds the major type in its three high bits and, in its five low bits,
/// either the argument (below 24) or how many bytes, most significant first, hold
/// it; a byte or text string carries as many bytes as its argument. Bytes that do
/// not form a whole item end the list with `Malformed`.
pub open spec fn cbor_read(b: Seq<u8>) -> Seq<CborToken>
    decreases b.len(),
{
    if b.len() == 0 {
        Seq::empty()
    } else {
        let major = b[0] as nat / 32;
        let info = b[0] as nat % 32;
        let start = 1 + head_arg_len(info);
        if info > 27 || b.len() < start {
            seq![CborToken::Malformed]
        } else {
            let n = if info < 24 { info } else { be_value(b.subrange(1, start as int)) };
            if major == 2 || major == 3 {
                if b.len() < start + n {
                    seq![CborToken::Malformed]
                } else {
                    let payload = b.subrange(start as int, (start + n) as int);
                    let t = if major == 2 { CborToken::Bytes(payload) } else { CborToken::Text(payload) };
                    seq![t] + cbor_read(b.subrange((start + n) as int, b.len() as int))
                }
            } else {
                let t = if major == 0 {
                    CborToken::Uint(n)
                } else if major == 5 {
                    CborToken::MapHead(n)
                } else if major == 6 {
                    CborToken::Tag(n)
                } else if major == 7 && info == 20 {
                    CborToken::Bool(false)
                } else if major == 7 && info == 21 {
                    CborToken::Bool(true)
                } else {
                    CborToken::Other
                };
                seq![t] + cbor_read(b.subrange(start as int, b.len() as int))
            }
        }
    }
}

/// The token that a head of major type `major` with argument `n` reads as, for
/// the types that carry no bytes of their own.
pub open spec fn head_token(major: u8, n: nat) -> CborToken {
    if major == 0 {
        CborToken::Uint(n)
    } else if major == 5 {
        CborToken::MapHead(n)
    } else {
        CborToken::Tag(n)
    }
}

/// Writing the `k` lowest bytes of a number below `256^k`, most significant
/// first, gives back the number.
proof fn lemma_be_bytes_value(n: nat, k: nat)
    requires
        n < pow256(k),
    ensures
        be_bytes(n, k).len() == k,
        be_value(be_bytes(n, k)) == n,
    decreases k,
{
    if k > 0 {
        let p = pow256((k - 1) as nat);
        assert(n / 256 < p) by (nonlinear_arith)
            requires
                n < 256 * p,
        ;
        lemma_be_bytes_value(n / 256, (k - 1) as nat);
        let s = be_bytes(n, k);
        assert(s.drop_last() =~= be_bytes(n / 256, (k - 1) as nat));
        assert(n == (n / 256) * 256 + n % 256) by (nonlinear_arith);
    }
}

/// The head of a CBOR item, read back: its first byte gives the major type and
/// how many bytes follow, and those bytes, or the first byte's low bits, give the
/// argument.
pub proof fn lemma_cbor_head_reads_back(major: u8, n: nat)
    requires
        major < 8,
        n < pow256(8),
    ensures
        ({
            let h = cbor_head(major, n);
            let info = h[0] as nat % 32;
            &&& h.len() >= 1
            &&& h[0] as nat / 32 == major
            &&& info <= 27
            &&& h.len() == 1 + head_arg_len(info)
            &&& n == if info < 24 { info } else { be_value(h.subrange(1, h.len() as int)) }
        }),
{
    reveal_with_fuel(pow256, 9);
    let h = cbor_head(major, n);
    let m = major as nat * 32;
    if n <= 23 {
    } else if n <= 0xff {
        assert(h.subrange(1, 2) =~= seq![n as u8]);
        assert(be_value(seq![n as u8]) == n) by {
            reveal_with_fuel(be_value, 2);
            assert(seq![n as u8].drop_last() =~= Seq::<u8>::empty());
        }
    } else if n <= 0xffff {
        lemma_be_bytes_value(n, 2);
        assert(h.subrange(1, 3) =~= be_bytes(n, 2));
    } else if n <= 0xffff_ffff {
        lemma_be_bytes_value(n, 4);
        assert(h.subrange(1, 5) =~= be_bytes(n, 4));
    } else {
        lemma_be_bytes_value(n, 8);
        assert(h.subrange(1, 9) =~= be_bytes(n, 8));
    }
}

/// A head of an unsigned integer, a map or a tag reads as one token, and the
/// reader goes on with what follows.
proof fn lemma_read_head(major: u8, n: nat, rest: Seq<u8>)
    requires
        major == 0 || major == 5 || major == 6,
        n < pow256(8),
    ensures
        cbor_read(cbor_head(major, n) + rest) == seq![head_token(major, n)] + cbor_read(rest),
{
    lemma_cbor_head_reads_back(major, n);
    let h = cbor_head(major, n);
    let b = h + rest;
    assert(b[0] == h[0]);
    assert(b.subrange(1, h.len() as int) =~= h.subrange(1, h.len() as int));
    assert(b.subrange(h.len() as int, b.len() as int) =~= rest);
}

/// A byte or text string reads as one token holding its bytes, and the reader
/// goes on with what follows.
proof fn lemma_read_string(major: u8, payload: Seq<u8>, rest: Seq<u8>)
    requires
        major == 2 || major == 3,
        payload.len() < pow256(8),
    ensures
        cbor_read(cbor_head(major, payload.len()) + payload + rest) == seq![
            if major == 2 { CborToken::Bytes(payload) } else { CborToken::Text(payload) },
        ] + cbor_read(rest),
{
    lemma_cbor_head_reads_back(major, payload.len());
    let h = cbor_head(major, payload.len());
    let b = h + payload + rest;
    let start = h.len() as int;
    assert(b[0] == h[0]);
    assert(b.subrange(1, start) =~= h.subrange(1, start));
    assert(b.subrange(start, start + payload.len()) =~= payload);
    assert(b.subrange(start + payload.len(), b.len() as int) =~= rest);
}

/// A boolean reads as itself, and the reader goes on with what follows.
proof fn lemma_read_bool(v: bool, rest: Seq<u8>)
    ensures
        cbor_read(cbor_bool(v) + rest) == seq![CborToken::Bool(v)] + cbor_read(rest),
{
    let b = cbor_bool(v) + rest;
    assert(b[0] == cbor_bool(v)[0]);
    assert(b.subrange(1, b.len() as int) =~= rest);
}

/// The self-describing tag reads as the tag 55799, and the reader goes on with
/// what follows.
proof fn lemma_read_self_describe_tag(rest: Seq<u8>)
    ensures
        cbor_read(CBOR_SELF_DESCRIBE_TAG@ + rest) == seq![CborToken::Tag(55799)] + cbor_read(rest),
{
    let t = CBOR_SELF_DESCRIBE_TAG@;
    let b = t + rest;
    assert(t =~= seq![0xd9u8, 0xd9u8, 0xf7u8]);
    assert(b[0] == 0xd9u8);
    assert(b.subrange(1, 3) =~= seq![0xd9u8, 0xf7u8]);
    assert(be_value(seq![0xd9u8, 0xf7u8]) == 55799) by {
        reveal_with_fuel(be_value, 3);
        assert(seq![0xd9u8, 0xf7u8].drop_last() =~= seq![0xd9u8]);
        assert(seq![0xd9u8].drop_last() =~= Seq::<u8>::empty());
    }
    assert(b.subrange(3, b.len() as int) =~= rest);
}

/// `256^8` is `2^64`, so every `u64` and every length of a sequence held in
/// memory is below it.
proof fn lemma_pow256_8()
    ensures
        pow256(8) == 0x1_0000_0000_0000_0000,
{
    reveal_with_fuel(pow256, 9);
}

/// The parts of a websocket message's bytes, in order.
spec fn message_parts(m: MessageV) -> Seq<Seq<u8>> {
    seq![
        CBOR_SELF_DESCRIBE_TAG@,
        cbor_head(5, 5),
        cbor_text(FIELD_CLIENT_KEY@),
        cbor_head(5, 2),
        cbor_text(FIELD_CLIENT_PRINCIPAL@),
        cbor_bytes(m.0.0),
        cbor_text(FIELD_CLIENT_NONCE@),
        cbor_uint(m.0.1),
        cbor_text(FIELD_SEQUENCE_NUM@),
        cbor_uint(m.1),
        cbor_text(FIELD_TIMESTAMP@),
        cbor_uint(m.2),
        cbor_text(FIELD_IS_SERVICE_MESSAGE@),
        cbor_bool(m.3),
        cbor_text(FIELD_CONTENT@),
        cbor_bytes(m.4),
    ]
}

/// The concatenation of the parts from position `i` on.
spec fn join_from(parts: Seq<Seq<u8>>, i: nat) -> Seq<u8>
    decreases parts.len() - i,
{
    if i >= parts.len() {
        Seq::empty()
    } else {
        parts[i as int] + join_from(parts, i + 1)
    }
}

/// The concatenation of the first `i` parts.
spec fn join_to(parts: Seq<Seq<u8>>, i: nat) -> Seq<u8>
    decreases i,
{
    if i == 0 || i > parts.len() {
        Seq::empty()
    } else {
        join_to(parts, (i - 1) as nat) + parts[i - 1]
    }
}

/// The first `i` parts followed by the rest make all the parts.
proof fn lemma_join_split(parts: Seq<Seq<u8>>, i: nat)
    requires
        i <= parts.len(),
    ensures
        join_to(parts, i) + join_from(parts, i) == join_from(parts, 0),
    decreases i,
{
    if i > 0 {
        lemma_join_split(parts, (i - 1) as nat);
        let a = join_to(parts, (i - 1) as nat);
        let b = parts[i - 1];
        let c = join_from(parts, i);
        assert(join_from(parts, (i - 1) as nat) == b + c);
        assert((a + b) + c =~= a + (b + c));
    } else {
        assert(join_to(parts, 0) + join_from(parts, 0) =~= join_from(parts, 0));
    }
}

/// The bytes of a websocket message are its parts, in order.
proof fn lemma_message_is_its_parts(m: MessageV)
    ensures
        cbor_websocket_message(m) == join_from(message_parts(m), 0),
{
    let parts = message_parts(m);
    lemma_join_split(parts, 16);
    reveal_with_fuel(join_to, 17);
    reveal_with_fuel(join_from, 2);
    assert(join_from(parts, 16) =~= Seq::<u8>::empty());
    assert(join_to(parts, 16) + join_from(parts, 16) =~= join_to(parts, 16));
    assert(cbor_client_key(m.0) == parts[3] + parts[4] + parts[5] + parts[6] + parts[7]);
    assert(cbor_websocket_message(m) =~= join_to(parts, 16));
}

/// The tokens of a websocket message's parts, in order.
spec fn message_tokens(m: MessageV) -> Seq<CborToken> {
    seq![
        CborToken::Tag(55799),
        CborToken::MapHead(5),
        CborToken::Text(FIELD_CLIENT_KEY@),
        CborToken::MapHead(2),
        CborToken::Text(FIELD_CLIENT_PRINCIPAL@),
        CborToken::Bytes(m.0.0),
        CborToken::Text(FIELD_CLIENT_NONCE@),
        CborToken::Uint(m.0.1 as nat),
        CborToken::Text(FIELD_SEQUENCE_NUM@),
        CborToken::Uint(m.1 as nat),
        CborToken::Text(FIELD_TIMESTAMP@),
        CborToken::Uint(m.2 as nat),
        CborToken::Text(FIELD_IS_SERVICE_MESSAGE@),
        CborToken::Bool(m.3),
        CborToken::Text(FIELD_CONTENT@),
        CborToken::Bytes(m.4),
    ]
}

/// Each part of a websocket message reads as its token, and the reader goes on
/// with the parts after it.
proof fn lemma_read_part(m: MessageV, i: nat)
    requires
        i < 16,
        m.0.0.len() < pow256(8),
        m.4.len() < pow256(8),
    ensures
        cbor_read(join_from(message_parts(m), i))
            == seq![message_tokens(m)[i as int]] + cbor_read(join_from(message_parts(m), i + 1)),
{
    lemma_pow256_8();
    let parts = message_parts(m);
    let rest = join_from(parts, i + 1);
    assert(join_from(parts, i) == parts[i as int] + rest);
    if i == 0 {
        lemma_read_self_describe_tag(rest);
    } else if i == 1 {
        lemma_read_head(5, 5, rest);
    } else if i == 2 {
        lemma_read_string(3, FIELD_CLIENT_KEY@, rest);
    } else if i == 3 {
        lemma_read_head(5, 2, rest);
    } else if i == 4 {
        lemma_read_string(3, FIELD_CLIENT_PRINCIPAL@, rest);
    } else if i == 5 {
        lemma_read_string(2, m.0.0, rest);
    } else if i == 6 {
        lemma_read_string(3, FIELD_CLIENT_NONCE@, rest);
    } else if i == 7 {
        lemma_read_head(0, m.0.1 as nat, rest);
    } else if i == 8 {
        lemma_read_string(3, FIELD_SEQUENCE_NUM@, rest);
    } else if i == 9 {
        lemma_read_head(0, m.1 as nat, rest);
    } else if i == 10 {
        lemma_read_string(3, FIELD_TIMESTAMP@, rest);
    } else if i == 11 {
        lemma_read_head(0, m.2 as nat, rest);
    } else if i == 12 {
        lemma_read_string(3, FIELD_IS_SERVICE_MESSAGE@, rest);
    } else if i == 13 {
        lemma_read_bool(m.3, rest);
    } else if i == 14 {
        lemma_read_string(3, FIELD_CONTENT@, rest);
    } else {
        lemma_read_string(2, m.4, rest);
    }
}

/// The parts of a websocket message from position `i` on read as their tokens.
proof fn lemma_read_parts_from(m: MessageV, i: nat)
    requires
        i <= 16,
        m.0.0.len() < pow256(8),
        m.4.len() < pow256(8),
    ensures
        cbor_read(join_from(message_parts(m), i)) == message_tokens(m).subrange(i as int, 16),
    decreases 16 - i,
{
    let parts = message_parts(m);
    let toks = message_tokens(m);
    if i == 16 {
        assert(join_from(parts, 16) =~= Seq::<u8>::empty());
        assert(toks.subrange(16, 16) =~= Seq::<CborToken>::empty());
    } else {
        lemma_read_part(m, i);
        lemma_read_parts_from(m, i + 1);
        assert(toks.subrange(i as int, 16) =~= seq![toks[i as int]] + toks.subrange((i + 1) as int, 16));
    }
}

/// What a CBOR reader finds in the bytes of a websocket message: the
/// self-describing tag, then a map of the five fields, each name followed by the
/// field's value, the client key being a map of the principal's bytes and the
/// nonce. Every field of the message reads back as it was, whatever its size.
pub proof fn lemma_websocket_message_reads_back(m: MessageV)
    requires
        m.0.0.len() < pow256(8),
        m.4.len() < pow256(8),
    ensures
        cbor_read(cbor_websocket_message(m)) == seq![
            CborToken::Tag(55799),
            CborToken::MapHead(5),
            CborToken::Text(FIELD_CLIENT_KEY@),
            CborToken::MapHead(2),
            CborToken::Text(FIELD_CLIENT_PRINCIPAL@),
            CborToken::Bytes(m.0.0),
            CborToken::Text(FIELD_CLIENT_NONCE@),
            CborToken::Uint(m.0.1 as nat),
            CborToken::Text(FIELD_SEQUENCE_NUM@),
            CborToken::Uint(m.1 as nat),
            CborToken::Text(FIELD_TIMESTAMP@),
            CborToken::Uint(m.2 as nat),
            CborToken::Text(FIELD_IS_SERVICE_MESSAGE@),
            CborToken::Bool(m.3),
            CborToken::Text(FIELD_CONTENT@),
            CborToken::Bytes(m.4),
        ],
{
    lemma_message_is_its_parts(m);
    lemma_read_parts_from(m, 0);
    assert(message_tokens(m).subrange(0, 16) =~= message_tokens(m));
}

/// The number that bytes write, least significant first.
pub open spec fn le_value(s: Seq<u8>) -> nat
    decreases s.len(),
{
    if s.len() == 0 {
        0
    } else {
        s[0] as nat + 256 * le_value(s.drop_first())
    }
}

/// Writing the `k` lowest bytes of a number below `256^k`, least significant
/// first, gives back the number.
proof fn lemma_le_bytes_value(n: nat, k: nat)
    requires
        n < pow256(k),
    ensures
        le_bytes(n, k).len() == k,
        le_value(le_bytes(n, k)) == n,
    decreases k,
{
    if k > 0 {
        let p = pow256((k - 1) as nat);
        assert(n / 256 < p) by (nonlinear_arith)
            requires
                n < 256 * p,
        ;
        lemma_le_bytes_value(n / 256, (k - 1) as nat);
        let s = le_bytes(n, k);
        assert(s.drop_first() =~= le_bytes(n / 256, (k - 1) as nat));
        assert(n == n % 256 + 256 * (n / 256)) by (nonlinear_arith);
    }
}

/// What a reader finds in the Candid of a service message after the header that
/// every one of them shares: the position of the variant (open 0, keep alive 1,
/// close 2, acknowledgement 3), then its fields. A sequence number or a nonce
/// reads back from its 8 bytes, least significant first; a principal from the
/// byte 1, its length and its bytes; a close reason from its position among the
/// reasons, one position for each reason.
pub proof fn lemma_service_message_reads_back(m: ServiceMessageV)
    requires
        m matches ServiceMessageV::Open(k) ==> k.0.len() < 128,
    ensures
        ({
            let b = candid_service_message(m);
            &&& b.len() > 97
            &&& b.subrange(0, 97) == CANDID_SERVICE_MESSAGE_HEADER@
            &&& match m {
                ServiceMessageV::Open(k) => {
                    let l = k.0.len() as int;
                    &&& b.len() == 108 + l
                    &&& b[97] == 0 && b[98] == 1 && b[99] == l
                    &&& b.subrange(100, 100 + l) == k.0
                    &&& le_value(b.subrange(100 + l, 108 + l)) == k.1
                },
                ServiceMessageV::KeepAlive(n) => {
                    &&& b.len() == 106
                    &&& b[97] == 1
                    &&& le_value(b.subrange(98, 106)) == n
                },
                ServiceMessageV::Close(r) => {
                    &&& b.len() == 99
                    &&& b[97] == 2
                    &&& b[98] == close_reason_index(r)
                    &&& forall|r2: CloseMessageReason| close_reason_index(r2) == b[98] ==> r2 == r
                },
                ServiceMessageV::Ack(n) => {
                    &&& b.len() == 106
                    &&& b[97] == 3
                    &&& le_value(b.subrange(98, 106)) == n
                },
            }
        }),
{
    lemma_pow256_8();
    let b = candid_service_message(m);
    let hd = CANDID_SERVICE_MESSAGE_HEADER@;
    assert(hd.len() == 97);
    match m {
        ServiceMessageV::Open(k) => {
            lemma_le_bytes_value(k.1 as nat, 8);
            let l = k.0.len() as int;
            assert(leb128(k.0.len()) =~= seq![l as u8]);
            let tail = seq![0u8, 1u8] + leb128(k.0.len()) + k.0 + le_bytes(k.1 as nat, 8);
            assert(b =~= hd + tail);
            assert(b.subrange(0, 97) =~= hd);
            assert(b.subrange(100, 100 + l) =~= k.0);
            assert(b.subrange(100 + l, 108 + l) =~= le_bytes(k.1 as nat, 8));
        },
        ServiceMessageV::KeepAlive(n) => {
            lemma_le_bytes_value(n as nat, 8);
            assert(b.subrange(0, 97) =~= hd);
            assert(b.subrange(98, 106) =~= le_bytes(n as nat, 8));
        },
        ServiceMessageV::Close(r) => {
            assert(b.subrange(0, 97) =~= hd);
        },
        ServiceMessageV::Ack(n) => {
            lemma_le_bytes_value(n as nat, 8);
            assert(b.subrange(0, 97) =~= hd);
            assert(b.subrange(98, 106) =~= le_bytes(n as nat, 8));
        },
    }
}

} // verus!

//! Wire framing. The inner batch is `[count u16 LE][len u32 LE][item]…`;
//! item content is opaque. Every control frame starts with a 4-byte magic.

use crate::buf::{bytes_as_slice, bytes_content, bytes_len, bytes_slice, contents};
use crate::text::{string_from_utf8_lossy, utf8_lossy};
use crate::wire::{
    dec16, dec32, dec64, extend, le16, le32, le64, lemma_le16_dec, lemma_le32_dec, lemma_le64_dec,
    read_u16, read_u32, read_u64, u16_le, u32_le, u64_le,
};
use bytes::Bytes;
use vstd::prelude::*;
use vstd::string::*;
use vstd::utf8::*;

verus! {

/// Consumer → master: asks for a batch (max_items + tag). `CRDY`
pub const MAGIC_CONSUMER_READY: [u8; 4] = [0x43, 0x52, 0x44, 0x59];

/// One ingress item. `PUB!`
pub const MAGIC_PUB: [u8; 4] = [0x50, 0x55, 0x42, 0x21];

/// Ingress batch. `PUBB`
pub const MAGIC_PUB_BATCH: [u8; 4] = [0x50, 0x55, 0x42, 0x42];

/// Producer → consumer data plane batch. `BATC`
pub const MAGIC_BATCH: [u8; 4] = [0x42, 0x41, 0x54, 0x43];

/// Error frame. `ERR!`
pub const MAGIC_ERR: [u8; 4] = [0x45, 0x52, 0x52, 0x21];

/// Producer → master: the local ring holds items. `PRDY`
pub const MAGIC_PRODUCER_READY: [u8; 4] = [0x50, 0x52, 0x44, 0x59];

/// Consumer → master (first frame): data endpoint `host:port`. `REG!`
pub const MAGIC_REGISTER: [u8; 4] = [0x52, 0x45, 0x47, 0x21];

/// Master → producer: deliver a batch for a CRDY to this data endpoint. `ASGN`
pub const MAGIC_ASSIGN: [u8; 4] = [0x41, 0x53, 0x47, 0x4E];

/// Producer → master: batch delivered. `DELV`
pub const MAGIC_DELIVERED: [u8; 4] = [0x44, 0x45, 0x4C, 0x56];

/// Producer → master: delivery failed (items requeued locally). `FAIL`
pub const MAGIC_FAILED: [u8; 4] = [0x46, 0x41, 0x49, 0x4C];

/// Producer → master: local backlog (ring + pending). `HBRP`
pub const MAGIC_HEARTBEAT: [u8; 4] = [0x48, 0x42, 0x52, 0x50];

pub const MAX_INGRESS_ITEM_BYTES: usize = 32 * 1024 * 1024;

/// Whole PUBB frame (header + inner batch).
pub const MAX_INGRESS_BATCH_FRAME_BYTES: usize = 64 * 1024 * 1024;

/// Longest text field (tag, address, failure message) a reader accepts.
pub const MAX_TEXT_FIELD_BYTES: usize = 256;

pub const ERR_BUSY: u16 = 1;

pub const ERR_PROTOCOL: u16 = 2;

/// Batches above this size rely on `write_vectored` without an extra flush.
pub const FLUSH_BELOW_BYTES: usize = 64 * 1024;

#[derive(Debug, Clone)]
pub struct ReadyRequest {
    pub max_items: u16,
    /// Optional consumer identifier; empty → master uses `consumer-{id}`.
    pub consumer_tag: String,
}

#[derive(Debug, Clone)]
pub struct AssignRequest {
    pub max_items: u16,
    pub consumer_tag: String,
    /// Consumer data-plane TCP endpoint (`host:port` for BATC).
    pub data_addr: String,
}

#[derive(Debug, Clone, Copy)]
pub struct DeliveryReport {
    pub msg_count: u16,
    pub batch_bytes: u32,
}

#[derive(Debug, Clone)]
pub struct FailureReport {
    pub msg_count: u16,
    pub batch_bytes: u32,
    pub code: u16,
    pub message: String,
}

#[derive(Debug, Clone, Copy, Default)]
pub struct ProducerHeartbeat {
    pub pending_messages: u32,
    pub pending_bytes: u32,
    pub ring_messages: u32,
    pub ring_bytes: u32,
    pub drops_total: u64,
}

/// Why a frame was refused.
#[derive(Debug, Clone, Copy, PartialEq, Eq)]
pub enum ProtocolError {
    /// Inner batch shorter than its 2-byte count.
    BatchPayloadTooShort,
    BatchTruncatedAtItemLen,
    InvalidBatchItemLen(usize),
    BatchTruncatedAtItemBody,
    /// CRDY header shorter than 4 bytes.
    ReadyHeaderTooShort,
    ReadyFrameTooShort,
    ExpectedReadyMagic,
    ReadyFrameTooShortForTag,
    PubHeaderTooShort,
    ConsumerTagTooLong,
    InvalidDataAddrLen,
    InvalidAssignFieldLen,
    /// A text field over `MAX_TEXT_FIELD_BYTES`.
    TextFieldTooLong(usize),
    ExpectedBatchMagic,
    BatchPayloadTooLarge(usize),
    InvalidPubPayloadLen(usize),
    InvalidPubBatchPayloadLen(usize),
    PubBatchCountMismatch(usize, usize),
    UnknownIngressMagic([u8; 4]),
    InvalidRegisterLen(usize),
    ExpectedRegisterMagic,
    ExpectedAssignMagic,
    AssignDataAddrEmpty,
    ExpectedHeartbeatMagic,
    ExpectedProducerReadyMagic,
    ExpectedDeliveredMagic,
    ExpectedFailedMagic,
    PubBatchEmpty,
    PubBatchTooManyItems,
}

/// Whether two magics are the same four bytes.
pub fn magic_eq(a: [u8; 4], b: [u8; 4]) -> (r: bool)
    ensures
        r == (a@ == b@),
{
    let r = a[0] == b[0] && a[1] == b[1] && a[2] == b[2] && a[3] == b[3];
    proof {
        if r {
            assert(a@ =~= b@);
        } else {
            assert(a@[0] != b@[0] || a@[1] != b@[1] || a@[2] != b@[2] || a@[3] != b@[3]);
        }
    }
    r
}

/// Whether the first four bytes of `b` are `magic`.
pub fn starts_with_magic(b: &[u8], magic: [u8; 4]) -> (r: bool)
    requires
        b@.len() >= 4,
    ensures
        r == (b@.subrange(0, 4) == magic@),
{
    let r = b[0] == magic[0] && b[1] == magic[1] && b[2] == magic[2] && b[3] == magic[3];
    proof {
        if r {
            assert(b@.subrange(0, 4) =~= magic@);
        } else {
            assert(b@.subrange(0, 4)[0] != magic@[0] || b@.subrange(0, 4)[1] != magic@[1]
                || b@.subrange(0, 4)[2] != magic@[2] || b@.subrange(0, 4)[3] != magic@[3]);
        }
    }
    r
}

// ---------------------------------------------------------------- inner batch

/// The views of a list of byte vectors.
pub open spec fn vec_views(items: Seq<Vec<u8>>) -> Seq<Seq<u8>> {
    items.map_values(|v: Vec<u8>| v@)
}

/// `[len u32 LE][item]…` for each item, in order.
pub open spec fn batch_body(items: Seq<Seq<u8>>) -> Seq<u8>
    decreases items.len(),
{
    if items.len() == 0 {
        Seq::empty()
    } else {
        batch_body(items.drop_last()) + le32(items.last().len() as u32) + items.last()
    }
}

/// The length `batch_body` has: 4 bytes of length and the bytes of each item.
pub open spec fn batch_body_len(items: Seq<Seq<u8>>) -> nat
    decreases items.len(),
{
    if items.len() == 0 {
        0
    } else {
        batch_body_len(items.drop_last()) + 4 + items.last().len()
    }
}

/// The inner batch `[count u16 LE][len u32 LE][item]…` of `items`.
pub open spec fn batch_payload(items: Seq<Seq<u8>>) -> Seq<u8> {
    le16(items.len() as u16) + batch_body(items)
}

/// A batch frame: magic, outer count, payload length, inner batch.
pub open spec fn framed_batch(magic: Seq<u8>, items: Seq<Seq<u8>>) -> Seq<u8> {
    magic + le16(items.len() as u16) + le32(batch_payload(items).len() as u32) + batch_payload(items)
}

pub proof fn lemma_batch_body_len(items: Seq<Seq<u8>>)
    ensures
        batch_body(items).len() == batch_body_len(items),
    decreases items.len(),
{
    if items.len() > 0 {
        lemma_batch_body_len(items.drop_last());
    }
}

proof fn lemma_batch_body_len_mono(items: Seq<Seq<u8>>, i: int)
    requires
        0 <= i <= items.len(),
    ensures
        batch_body_len(items.take(i)) <= batch_body_len(items),
    decreases items.len() - i,
{
    if i < items.len() {
        lemma_batch_body_len_mono(items, i + 1);
        assert(items.take(i + 1).drop_last() =~= items.take(i));
    } else {
        assert(items.take(i) =~= items);
    }
}

/// Length of the inner batch of `items`: 2 + Σ (4 + len).
fn inner_batch_payload_len(items: &[Vec<u8>]) -> (n: usize)
    requires
        2 + batch_body_len(vec_views(items@)) <= usize::MAX,
    ensures
        n == 2 + batch_body_len(vec_views(items@)),
        n == batch_payload(vec_views(items@)).len(),
{
    let ghost iv = vec_views(items@);
    let mut n: usize = 2;
    let mut i: usize = 0;
    while i < items.len()
        invariant
            iv == vec_views(items@),
            2 + batch_body_len(iv) <= usize::MAX,
            i <= items@.len(),
            n == 2 + batch_body_len(iv.take(i as int)),
        decreases items@.len() - i,
    {
        proof {
            lemma_batch_body_len_mono(iv, i + 1);
            assert(iv.take(i + 1).drop_last() =~= iv.take(i as int));
        }
        n = n + 4 + items[i].len();
        i = i + 1;
    }
    assert(iv.take(items@.len() as int) =~= iv);
    proof {
        lemma_batch_body_len(iv);
    }
    n
}

/// Inner batch: `[count u16 LE][len u32 LE][item]…` (no magic).
/// The count and each length are written as `u16` and `u32`, keeping their low bits.
pub fn encode_batch_payload(items: &[Vec<u8>]) -> (payload: Vec<u8>)
    ensures
        payload@ == batch_payload(vec_views(items@)),
{
    let ghost iv = vec_views(items@);
    let mut payload: Vec<u8> = Vec::new();
    let count = u16_le(items.len() as u16);
    extend(&mut payload, &count);
    let mut i: usize = 0;
    while i < items.len()
        invariant
            iv == vec_views(items@),
            i <= items@.len(),
            payload@ == le16(items@.len() as u16) + batch_body(iv.take(i as int)),
        decreases items@.len() - i,
    {
        let b = &items[i];
        let len = u32_le(b.len() as u32);
        extend(&mut payload, &len);
        extend(&mut payload, b.as_slice());
        proof {
            assert(iv.take(i + 1).drop_last() =~= iv.take(i as int));
            assert(iv.take(i + 1).last() == b@);
        }
        i = i + 1;
        assert(payload@ =~= le16(items@.len() as u16) + batch_body(iv.take(i as int)));
    }
    assert(iv.take(items@.len() as int) =~= iv);
    payload
}

fn encode_framed_batch(magic: [u8; 4], items: &[Vec<u8>]) -> (frame: Vec<u8>)
    ensures
        frame@ == framed_batch(magic@, vec_views(items@)),
{
    let payload = encode_batch_payload(items);
    let mut frame: Vec<u8> = Vec::new();
    extend(&mut frame, &magic);
    extend(&mut frame, &u16_le(items.len() as u16));
    extend(&mut frame, &u32_le(payload.len() as u32));
    extend(&mut frame, payload.as_slice());
    assert(frame@ =~= framed_batch(magic@, vec_views(items@)));
    frame
}

/// Contiguous BATC frame.
pub fn encode_batch(items: &[Vec<u8>]) -> (frame: Vec<u8>)
    ensures
        frame@ == framed_batch(MAGIC_BATCH@, vec_views(items@)),
{
    encode_framed_batch(MAGIC_BATCH, items)
}

/// The head of a BATC frame of `items` (magic, outer count, payload length,
/// inner count): followed by each item's `[len u32 LE][item]` it is the
/// whole frame, so that the payloads can be written without copying them.
/// `None` when the payload length passes `usize::MAX`.
pub fn batch_frame_head(items: &[Bytes]) -> (r: Option<Vec<u8>>)
    ensures
        match r {
            Some(head) => head@ + batch_body(contents(items@)) == framed_batch(MAGIC_BATCH@, contents(items@)),
            None => 2 + batch_body_len(contents(items@)) > usize::MAX,
        },
{
    let ghost iv = contents(items@);
    let mut n: usize = 2;
    let mut i: usize = 0;
    while i < items.len()
        invariant
            iv == contents(items@),
            i <= items@.len(),
            n == 2 + batch_body_len(iv.take(i as int)),
        decreases items@.len() - i,
    {
        proof {
            assert(iv.take(i + 1).drop_last() =~= iv.take(i as int));
            assert(iv.take(i + 1).last() == bytes_content(items@[i as int]));
        }
        let len = bytes_len(&items[i]);
        if len > usize::MAX - 4 || n > usize::MAX - 4 - len {
            proof {
                lemma_batch_body_len_mono(iv, i + 1);
            }
            return None;
        }
        n = n + 4 + len;
        i = i + 1;
    }
    assert(iv.take(items@.len() as int) =~= iv);
    proof {
        lemma_batch_body_len(iv);
    }
    let mut head: Vec<u8> = Vec::new();
    extend(&mut head, &MAGIC_BATCH);
    extend(&mut head, &u16_le(items.len() as u16));
    extend(&mut head, &u32_le(n as u32));
    extend(&mut head, &u16_le(items.len() as u16));
    assert(head@ + batch_body(iv) =~= framed_batch(MAGIC_BATCH@, iv));
    Some(head)
}

/// Contiguous PUBB frame.
pub fn encode_pub_batch(items: &[Vec<u8>]) -> (frame: Vec<u8>)
    ensures
        frame@ == framed_batch(MAGIC_PUB_BATCH@, vec_views(items@)),
{
    encode_framed_batch(MAGIC_PUB_BATCH, items)
}

/// Bytes a BATC frame of `items` takes on the wire: 10 + the inner batch.
pub fn batch_wire_bytes(items: &[Vec<u8>]) -> (n: u64)
    requires
        12 + batch_body_len(vec_views(items@)) <= usize::MAX,
    ensures
        n == 12 + batch_body_len(vec_views(items@)),
        n == framed_batch(MAGIC_BATCH@, vec_views(items@)).len(),
{
    let n = inner_batch_payload_len(items);
    (10 + n) as u64
}

/// Bytes a PUBB frame of `items` takes on the wire.
pub fn pub_batch_wire_bytes(items: &[Vec<u8>]) -> (n: u64)
    requires
        12 + batch_body_len(vec_views(items@)) <= usize::MAX,
    ensures
        n == framed_batch(MAGIC_PUB_BATCH@, vec_views(items@)).len(),
{
    batch_wire_bytes(items)
}

/// What the item list of an inner batch reads as, from byte `off` on, when
/// `n` items remain.
pub open spec fn parse_items_from(p: Seq<u8>, off: int, n: nat) -> Result<Seq<Seq<u8>>, ProtocolError>
    decreases n,
{
    if n == 0 {
        Ok(Seq::empty())
    } else if off + 4 > p.len() {
        Err(ProtocolError::BatchTruncatedAtItemLen)
    } else {
        let l = dec32(p, off) as int;
        if l == 0 || l > MAX_INGRESS_ITEM_BYTES {
            Err(ProtocolError::InvalidBatchItemLen(l as usize))
        } else if off + 4 + l > p.len() {
            Err(ProtocolError::BatchTruncatedAtItemBody)
        } else {
            match parse_items_from(p, off + 4 + l, (n - 1) as nat) {
                Ok(rest) => Ok(seq![p.subrange(off + 4, off + 4 + l)] + rest),
                Err(e) => Err(e),
            }
        }
    }
}

/// What an inner batch reads as: its count, then that many items.
pub open spec fn parse_batch_payload(p: Seq<u8>) -> Result<Seq<Seq<u8>>, ProtocolError> {
    if p.len() < 2 {
        Err(ProtocolError::BatchPayloadTooShort)
    } else {
        parse_items_from(p, 2, dec16(p, 0) as nat)
    }
}

/// The count an inner batch declares.
pub fn batch_item_count(payload: &[u8]) -> (r: Result<usize, ProtocolError>)
    ensures
        payload@.len() < 2 ==> r == Err::<usize, ProtocolError>(ProtocolError::BatchPayloadTooShort),
        payload@.len() >= 2 ==> r == Ok::<usize, ProtocolError>(dec16(payload@, 0) as usize),
{
    if payload.len() < 2 {
        return Err(ProtocolError::BatchPayloadTooShort);
    }
    Ok(read_u16(payload, 0) as usize)
}

spec fn prepend_items(prefix: Seq<Seq<u8>>, r: Result<Seq<Seq<u8>>, ProtocolError>) -> Result<Seq<Seq<u8>>, ProtocolError> {
    match r {
        Ok(rest) => Ok(prefix + rest),
        Err(e) => Err(e),
    }
}

/// Inner batch → items, each a slice of the shared buffer (no copy).
pub fn parse_batch_payload_items(payload: Bytes) -> (r: Result<Vec<Bytes>, ProtocolError>)
    ensures
        match r {
            Ok(items) => parse_batch_payload(bytes_content(payload)) == Ok::<Seq<Seq<u8>>, ProtocolError>(contents(items@)),
            Err(e) => parse_batch_payload(bytes_content(payload)) == Err::<Seq<Seq<u8>>, ProtocolError>(e),
        },
{
    let ghost p = bytes_content(payload);
    let s = bytes_as_slice(&payload);
    let count = match batch_item_count(s) {
        Ok(c) => c,
        Err(e) => return Err(e),
    };
    let len = bytes_len(&payload);
    let mut out: Vec<Bytes> = Vec::new();
    let mut offset: usize = 2;
    let mut i: usize = 0;
    while i < count
        invariant
            p == bytes_content(payload),
            s@ == p,
            len == p.len(),
            p.len() >= 2,
            count == dec16(p, 0),
            i <= count,
            2 <= offset <= len,
            parse_batch_payload(p) == prepend_items(contents(out@), parse_items_from(p, offset as int, (count - i) as nat)),
        decreases count - i,
    {
        if len < 4 || offset > len - 4 {
            return Err(ProtocolError::BatchTruncatedAtItemLen);
        }
        let item_len = read_u32(s, offset) as usize;
        offset = offset + 4;
        if item_len == 0 || item_len > MAX_INGRESS_ITEM_BYTES {
            return Err(ProtocolError::InvalidBatchItemLen(item_len));
        }
        if item_len > len - offset {
            return Err(ProtocolError::BatchTruncatedAtItemBody);
        }
        let item = bytes_slice(&payload, offset, offset + item_len);
        let ghost before = contents(out@);
        out.push(item);
        proof {
            assert(contents(out@) =~= before.push(bytes_content(item)));
            let rest = parse_items_from(p, (offset + item_len) as int, (count - i - 1) as nat);
            match rest {
                Ok(r) => {
                    assert(before + (seq![bytes_content(item)] + r) =~= before.push(bytes_content(item)) + r);
                },
                Err(_) => {},
            }
        }
        offset = offset + item_len;
        i = i + 1;
    }
    assert(contents(out@) + Seq::<Seq<u8>>::empty() =~= contents(out@));
    Ok(out)
}


// -------------------------------------------------------------- text fields

/// The UTF-8 bytes of the characters `s`.
pub open spec fn utf8(s: Seq<char>) -> Seq<u8> {
    encode_utf8(s)
}

/// What a reader makes of a text field: empty stays empty, other bytes go
/// through `String::from_utf8_lossy`.
pub open spec fn field_text(b: Seq<u8>) -> Seq<char> {
    if b.len() == 0 {
        Seq::empty()
    } else {
        utf8_lossy(b)
    }
}

/// A text field's bytes → its text.
pub fn decode_text_field(buf: &[u8]) -> (s: String)
    ensures
        s@ == field_text(buf@),
        valid_utf8(buf@) ==> s@ == decode_utf8(buf@),
{
    if buf.len() == 0 {
        proof {
            assert(decode_utf8(buf@) =~= Seq::<char>::empty());
        }
        String::new()
    } else {
        string_from_utf8_lossy(buf)
    }
}

/// A reader refuses a text field longer than `MAX_TEXT_FIELD_BYTES`.
pub fn check_text_field_len(len: usize) -> (r: Result<(), ProtocolError>)
    ensures
        r == (if len > MAX_TEXT_FIELD_BYTES {
            Err::<(), ProtocolError>(ProtocolError::TextFieldTooLong(len))
        } else {
            Ok::<(), ProtocolError>(())
        }),
{
    if len > MAX_TEXT_FIELD_BYTES {
        return Err(ProtocolError::TextFieldTooLong(len));
    }
    Ok(())
}

// -------------------------------------------------------------------- ERR!

/// How many bytes of a message an ERR!/FAIL frame keeps.
pub open spec fn kept_len(n: nat) -> nat {
    if n > 65535 { 65535 } else { n }
}

/// `ERR!` + code + message length + message (first 65535 bytes at most).
pub open spec fn error_frame(code: u16, msg: Seq<u8>) -> Seq<u8> {
    MAGIC_ERR@ + le16(code) + le16(kept_len(msg.len()) as u16) + msg.take(kept_len(msg.len()) as int)
}

pub fn encode_error(code: u16, message: &str) -> (frame: Vec<u8>)
    ensures
        frame@ == error_frame(code, utf8(message@)),
{
    let msg = message.as_bytes();
    let msg_len: usize = if msg.len() > 65535 { 65535 } else { msg.len() };
    let mut frame: Vec<u8> = Vec::new();
    extend(&mut frame, &MAGIC_ERR);
    extend(&mut frame, &u16_le(code));
    extend(&mut frame, &u16_le(msg_len as u16));
    let mut i: usize = 0;
    while i < msg_len
        invariant
            msg_len <= msg@.len(),
            i <= msg_len,
            frame@ == MAGIC_ERR@ + le16(code) + le16(msg_len as u16) + msg@.take(i as int),
        decreases msg_len - i,
    {
        frame.push(msg[i]);
        i = i + 1;
        assert(frame@ =~= MAGIC_ERR@ + le16(code) + le16(msg_len as u16) + msg@.take(i as int));
    }
    frame
}

// -------------------------------------------------------------------- CRDY

/// `CRDY` + max_items + tag length + tag.
pub open spec fn consumer_ready_frame(max_items: u16, tag: Seq<u8>) -> Seq<u8> {
    MAGIC_CONSUMER_READY@ + le16(max_items) + le16(tag.len() as u16) + tag
}

pub fn encode_consumer_ready(max_items: u16, consumer_tag: &str) -> (r: Result<Vec<u8>, ProtocolError>)
    ensures
        utf8(consumer_tag@).len() > 65535 ==> r == Err::<Vec<u8>, ProtocolError>(ProtocolError::ConsumerTagTooLong),
        utf8(consumer_tag@).len() <= 65535 ==> (r matches Ok(frame) && frame@ == consumer_ready_frame(max_items, utf8(consumer_tag@))),
{
    let tag = consumer_tag.as_bytes();
    if tag.len() > 65535 {
        return Err(ProtocolError::ConsumerTagTooLong);
    }
    let mut frame: Vec<u8> = Vec::new();
    extend(&mut frame, &MAGIC_CONSUMER_READY);
    extend(&mut frame, &u16_le(max_items));
    extend(&mut frame, &u16_le(tag.len() as u16));
    extend(&mut frame, tag);
    Ok(frame)
}

/// `(max_items, tag_len)` from the 4 bytes after the CRDY magic.
pub fn parse_ready_header(body: &[u8]) -> (r: Result<(u16, u16), ProtocolError>)
    ensures
        body@.len() < 4 ==> r == Err::<(u16, u16), ProtocolError>(ProtocolError::ReadyHeaderTooShort),
        body@.len() >= 4 ==> r == Ok::<(u16, u16), ProtocolError>((dec16(body@, 0), dec16(body@, 2))),
{
    if body.len() < 4 {
        return Err(ProtocolError::ReadyHeaderTooShort);
    }
    Ok((read_u16(body, 0), read_u16(body, 2)))
}

/// What a CRDY frame reads as: its max_items and the bytes of its tag.
pub open spec fn parse_ready_spec(b: Seq<u8>) -> Result<(u16, Seq<u8>), ProtocolError> {
    if b.len() < 8 {
        Err(ProtocolError::ReadyFrameTooShort)
    } else if b.take(4) != MAGIC_CONSUMER_READY@ {
        Err(ProtocolError::ExpectedReadyMagic)
    } else if b.len() < 8 + dec16(b, 6) {
        Err(ProtocolError::ReadyFrameTooShortForTag)
    } else {
        Ok((dec16(b, 4), b.subrange(8, 8 + dec16(b, 6))))
    }
}

pub fn parse_ready(body: &[u8]) -> (r: Result<ReadyRequest, ProtocolError>)
    ensures
        match r {
            Ok(req) => parse_ready_spec(body@) matches Ok((m, tag)) && req.max_items == m
                && req.consumer_tag@ == field_text(tag)
                && (valid_utf8(tag) ==> req.consumer_tag@ == decode_utf8(tag)),
            Err(e) => parse_ready_spec(body@) == Err::<(u16, Seq<u8>), ProtocolError>(e),
        },
{
    if body.len() < 8 {
        return Err(ProtocolError::ReadyFrameTooShort);
    }
    if !starts_with_magic(body, MAGIC_CONSUMER_READY) {
        assert(body@.take(4) =~= body@.subrange(0, 4));
        return Err(ProtocolError::ExpectedReadyMagic);
    }
    assert(body@.take(4) =~= body@.subrange(0, 4));
    let max_items = read_u16(body, 4);
    let tag_len = read_u16(body, 6) as usize;
    if body.len() < 8 + tag_len {
        return Err(ProtocolError::ReadyFrameTooShortForTag);
    }
    let end = 8 + tag_len;
    let mut tag_bytes: Vec<u8> = Vec::new();
    let mut i: usize = 8;
    while i < end
        invariant
            8 <= i <= end <= body@.len(),
            tag_bytes@ == body@.subrange(8, i as int),
        decreases end - i,
    {
        tag_bytes.push(body[i]);
        i = i + 1;
        assert(tag_bytes@ =~= body@.subrange(8, i as int));
    }
    let consumer_tag = decode_text_field(tag_bytes.as_slice());
    Ok(ReadyRequest { max_items, consumer_tag })
}

/// The first 8 bytes a reader takes of a CRDY: magic, then `(max_items, tag_len)`.
pub fn parse_ready_prefix(prefix: [u8; 8]) -> (r: Result<(u16, u16), ProtocolError>)
    ensures
        prefix@.take(4) != MAGIC_CONSUMER_READY@ ==> r == Err::<(u16, u16), ProtocolError>(ProtocolError::ExpectedReadyMagic),
        prefix@.take(4) == MAGIC_CONSUMER_READY@ ==> r == Ok::<(u16, u16), ProtocolError>((dec16(prefix@, 4), dec16(prefix@, 6))),
{
    let p: &[u8] = &prefix;
    assert(prefix@.take(4) =~= p@.subrange(0, 4));
    if !starts_with_magic(p, MAGIC_CONSUMER_READY) {
        return Err(ProtocolError::ExpectedReadyMagic);
    }
    Ok((read_u16(p, 4), read_u16(p, 6)))
}

// --------------------------------------------------------------- PUB / PUBB

/// The payload length of a PUB header (bytes 4..8).
pub fn parse_pub_payload_len(header: &[u8]) -> (r: Result<u32, ProtocolError>)
    ensures
        header@.len() < 8 ==> r == Err::<u32, ProtocolError>(ProtocolError::PubHeaderTooShort),
        header@.len() >= 8 ==> r == Ok::<u32, ProtocolError>(dec32(header@, 4)),
{
    if header.len() < 8 {
        return Err(ProtocolError::PubHeaderTooShort);
    }
    Ok(read_u32(header, 4))
}

/// The two kinds of ingress frame.
#[derive(Debug, Clone, Copy, PartialEq, Eq)]
pub enum IngressKind {
    /// `PUB!`: one item.
    Single,
    /// `PUBB`: a batch of items.
    Batch,
}

/// Which ingress frame a magic opens.
pub fn ingress_kind(magic: [u8; 4]) -> (r: Result<IngressKind, ProtocolError>)
    ensures
        magic@ == MAGIC_PUB@ ==> r == Ok::<IngressKind, ProtocolError>(IngressKind::Single),
        magic@ == MAGIC_PUB_BATCH@ ==> r == Ok::<IngressKind, ProtocolError>(IngressKind::Batch),
        magic@ != MAGIC_PUB@ && magic@ != MAGIC_PUB_BATCH@ ==> r == Err::<IngressKind, ProtocolError>(ProtocolError::UnknownIngressMagic(magic)),
{
    if magic_eq(magic, MAGIC_PUB) {
        Ok(IngressKind::Single)
    } else if magic_eq(magic, MAGIC_PUB_BATCH) {
        Ok(IngressKind::Batch)
    } else {
        Err(ProtocolError::UnknownIngressMagic(magic))
    }
}

/// The length of a `PUB!` item; refused when 0 or over `MAX_INGRESS_ITEM_BYTES`.
pub fn parse_pub_item_len(len_buf: [u8; 4]) -> (r: Result<usize, ProtocolError>)
    ensures
        ({
            let l = dec32(len_buf@, 0) as usize;
            &&& (l == 0 || l > MAX_INGRESS_ITEM_BYTES) ==> r == Err::<usize, ProtocolError>(ProtocolError::InvalidPubPayloadLen(l))
            &&& (l != 0 && l <= MAX_INGRESS_ITEM_BYTES) ==> r == Ok::<usize, ProtocolError>(l)
        }),
{
    let len = read_u32(&len_buf, 0) as usize;
    if len == 0 || len > MAX_INGRESS_ITEM_BYTES {
        return Err(ProtocolError::InvalidPubPayloadLen(len));
    }
    Ok(len)
}

/// `(outer_count, payload_len)` of a PUBB header; the length is refused when 0
/// or over `MAX_INGRESS_BATCH_FRAME_BYTES`.
pub fn parse_pub_batch_header(hdr: [u8; 6]) -> (r: Result<(usize, usize), ProtocolError>)
    ensures
        ({
            let l = dec32(hdr@, 2) as usize;
            &&& (l == 0 || l > MAX_INGRESS_BATCH_FRAME_BYTES) ==> r == Err::<(usize, usize), ProtocolError>(ProtocolError::InvalidPubBatchPayloadLen(l))
            &&& (l != 0 && l <= MAX_INGRESS_BATCH_FRAME_BYTES) ==> r == Ok::<(usize, usize), ProtocolError>((dec16(hdr@, 0) as usize, l))
        }),
{
    let outer_count = read_u16(&hdr, 0) as usize;
    let payload_len = read_u32(&hdr, 2) as usize;
    if payload_len == 0 || payload_len > MAX_INGRESS_BATCH_FRAME_BYTES {
        return Err(ProtocolError::InvalidPubBatchPayloadLen(payload_len));
    }
    Ok((outer_count, payload_len))
}

/// The items of a PUBB payload, refused when their number is not the header's count.
pub fn finish_pub_batch(outer_count: usize, payload: Bytes) -> (r: Result<Vec<Bytes>, ProtocolError>)
    ensures
        match parse_batch_payload(bytes_content(payload)) {
            Err(e) => r == Err::<Vec<Bytes>, ProtocolError>(e),
            Ok(items) => if items.len() != outer_count {
                r == Err::<Vec<Bytes>, ProtocolError>(ProtocolError::PubBatchCountMismatch(outer_count, items.len() as usize))
            } else {
                r matches Ok(v) && contents(v@) == items
            },
        },
{
    let items = match parse_batch_payload_items(payload) {
        Ok(items) => items,
        Err(e) => return Err(e),
    };
    if items.len() != outer_count {
        return Err(ProtocolError::PubBatchCountMismatch(outer_count, items.len()));
    }
    Ok(items)
}

/// A PUBB write needs one item at least and at most 65535.
pub fn check_pub_batch_items(count: usize) -> (r: Result<(), ProtocolError>)
    ensures
        count == 0 ==> r == Err::<(), ProtocolError>(ProtocolError::PubBatchEmpty),
        count > 65535 ==> r == Err::<(), ProtocolError>(ProtocolError::PubBatchTooManyItems),
        0 < count <= 65535 ==> r == Ok::<(), ProtocolError>(()),
{
    if count == 0 {
        return Err(ProtocolError::PubBatchEmpty);
    }
    if count > 65535 {
        return Err(ProtocolError::PubBatchTooManyItems);
    }
    Ok(())
}

// -------------------------------------------------------------------- BATC

/// The payload length of a BATC frame from its magic and 6-byte header; the
/// length is refused over `MAX_INGRESS_BATCH_FRAME_BYTES`.
pub fn parse_batch_frame_header(magic: [u8; 4], hdr: [u8; 6]) -> (r: Result<usize, ProtocolError>)
    ensures
        magic@ != MAGIC_BATCH@ ==> r == Err::<usize, ProtocolError>(ProtocolError::ExpectedBatchMagic),
        magic@ == MAGIC_BATCH@ && dec32(hdr@, 2) > MAX_INGRESS_BATCH_FRAME_BYTES ==> r == Err::<usize, ProtocolError>(ProtocolError::BatchPayloadTooLarge(dec32(hdr@, 2) as usize)),
        magic@ == MAGIC_BATCH@ && dec32(hdr@, 2) <= MAX_INGRESS_BATCH_FRAME_BYTES ==> r == Ok::<usize, ProtocolError>(dec32(hdr@, 2) as usize),
{
    if !magic_eq(magic, MAGIC_BATCH) {
        return Err(ProtocolError::ExpectedBatchMagic);
    }
    let payload_len = read_u32(&hdr, 2) as usize;
    if payload_len > MAX_INGRESS_BATCH_FRAME_BYTES {
        return Err(ProtocolError::BatchPayloadTooLarge(payload_len));
    }
    Ok(payload_len)
}

// -------------------------------------------------------------------- REG!

/// `REG!` + address length + address.
pub open spec fn register_frame(addr: Seq<u8>) -> Seq<u8> {
    MAGIC_REGISTER@ + le16(addr.len() as u16) + addr
}

pub fn encode_register(data_addr: &str) -> (r: Result<Vec<u8>, ProtocolError>)
    ensures
        ({
            let a = utf8(data_addr@);
            &&& (a.len() == 0 || a.len() > 65535) ==> r == Err::<Vec<u8>, ProtocolError>(ProtocolError::InvalidDataAddrLen)
            &&& (a.len() != 0 && a.len() <= 65535) ==> (r matches Ok(frame) && frame@ == register_frame(a))
        }),
{
    let addr = data_addr.as_bytes();
    if addr.len() == 0 || addr.len() > 65535 {
        return Err(ProtocolError::InvalidDataAddrLen);
    }
    let mut frame: Vec<u8> = Vec::new();
    extend(&mut frame, &MAGIC_REGISTER);
    extend(&mut frame, &u16_le(addr.len() as u16));
    extend(&mut frame, addr);
    Ok(frame)
}

/// The address length of a REG! body; refused when 0 or over `MAX_TEXT_FIELD_BYTES`.
pub fn parse_register_len(len_buf: [u8; 2]) -> (r: Result<usize, ProtocolError>)
    ensures
        ({
            let l = dec16(len_buf@, 0) as usize;
            &&& (l == 0 || l > MAX_TEXT_FIELD_BYTES) ==> r == Err::<usize, ProtocolError>(ProtocolError::InvalidRegisterLen(l))
            &&& (l != 0 && l <= MAX_TEXT_FIELD_BYTES) ==> r == Ok::<usize, ProtocolError>(l)
        }),
{
    let len = read_u16(&len_buf, 0) as usize;
    if len == 0 || len > MAX_TEXT_FIELD_BYTES {
        return Err(ProtocolError::InvalidRegisterLen(len));
    }
    Ok(len)
}

// -------------------------------------------------------------------- ASGN

/// `ASGN` + max_items + tag length + tag + address length + address.
pub open spec fn assign_frame(max_items: u16, tag: Seq<u8>, data: Seq<u8>) -> Seq<u8> {
    MAGIC_ASSIGN@ + le16(max_items) + le16(tag.len() as u16) + tag + le16(data.len() as u16) + data
}

pub fn encode_assign(req: &AssignRequest) -> (r: Result<Vec<u8>, ProtocolError>)
    ensures
        ({
            let t = utf8(req.consumer_tag@);
            let d = utf8(req.data_addr@);
            &&& (t.len() > 65535 || d.len() == 0 || d.len() > 65535) ==> r == Err::<Vec<u8>, ProtocolError>(ProtocolError::InvalidAssignFieldLen)
            &&& !(t.len() > 65535 || d.len() == 0 || d.len() > 65535) ==> (r matches Ok(frame) && frame@ == assign_frame(req.max_items, t, d))
        }),
{
    let tag = req.consumer_tag.as_str().as_bytes();
    let data = req.data_addr.as_str().as_bytes();
    if tag.len() > 65535 || data.len() == 0 || data.len() > 65535 {
        return Err(ProtocolError::InvalidAssignFieldLen);
    }
    let mut frame: Vec<u8> = Vec::new();
    extend(&mut frame, &MAGIC_ASSIGN);
    extend(&mut frame, &u16_le(req.max_items));
    extend(&mut frame, &u16_le(tag.len() as u16));
    extend(&mut frame, tag);
    extend(&mut frame, &u16_le(data.len() as u16));
    extend(&mut frame, data);
    Ok(frame)
}

/// `(max_items, tag_len)` from the 4 bytes after the ASGN magic.
pub fn decode_assign_header(hdr: [u8; 4]) -> (r: (u16, usize))
    ensures
        r == (dec16(hdr@, 0), dec16(hdr@, 2) as usize),
{
    (read_u16(&hdr, 0), read_u16(&hdr, 2) as usize)
}

/// An assignment from its decoded fields; refused when the address is empty.
pub fn assign_from_fields(max_items: u16, consumer_tag: String, data_addr: String) -> (r: Result<AssignRequest, ProtocolError>)
    ensures
        data_addr@.len() == 0 ==> r == Err::<AssignRequest, ProtocolError>(ProtocolError::AssignDataAddrEmpty),
        data_addr@.len() != 0 ==> r == Ok::<AssignRequest, ProtocolError>(AssignRequest { max_items, consumer_tag, data_addr }),
{
    if data_addr.as_str().is_empty() {
        return Err(ProtocolError::AssignDataAddrEmpty);
    }
    Ok(AssignRequest { max_items, consumer_tag, data_addr })
}

// -------------------------------------------------------------- PRDY / HBRP

pub fn encode_producer_ready() -> (frame: Vec<u8>)
    ensures
        frame@ == MAGIC_PRODUCER_READY@,
{
    let mut frame: Vec<u8> = Vec::new();
    extend(&mut frame, &MAGIC_PRODUCER_READY);
    assert(frame@ =~= MAGIC_PRODUCER_READY@);
    frame
}

/// The 24 bytes after the HBRP magic.
pub open spec fn heartbeat_body(hb: ProducerHeartbeat) -> Seq<u8> {
    le32(hb.pending_messages) + le32(hb.pending_bytes) + le32(hb.ring_messages) + le32(hb.ring_bytes) + le64(hb.drops_total)
}

pub fn encode_heartbeat(report: &ProducerHeartbeat) -> (frame: Vec<u8>)
    ensures
        frame@ == MAGIC_HEARTBEAT@ + heartbeat_body(*report),
        frame@.len() == 28,
{
    let mut frame: Vec<u8> = Vec::new();
    extend(&mut frame, &MAGIC_HEARTBEAT);
    extend(&mut frame, &u32_le(report.pending_messages));
    extend(&mut frame, &u32_le(report.pending_bytes));
    extend(&mut frame, &u32_le(report.ring_messages));
    extend(&mut frame, &u32_le(report.ring_bytes));
    extend(&mut frame, &u64_le(report.drops_total));
    assert(frame@ =~= MAGIC_HEARTBEAT@ + heartbeat_body(*report));
    frame
}

/// The heartbeat the 24 bytes after the HBRP magic describe.
pub open spec fn heartbeat_of(b: Seq<u8>) -> ProducerHeartbeat {
    ProducerHeartbeat {
        pending_messages: dec32(b, 0),
        pending_bytes: dec32(b, 4),
        ring_messages: dec32(b, 8),
        ring_bytes: dec32(b, 12),
        drops_total: dec64(b, 16),
    }
}

pub fn decode_heartbeat(body: [u8; 24]) -> (hb: ProducerHeartbeat)
    ensures
        hb == heartbeat_of(body@),
{
    let b: &[u8] = &body;
    ProducerHeartbeat {
        pending_messages: read_u32(b, 0),
        pending_bytes: read_u32(b, 4),
        ring_messages: read_u32(b, 8),
        ring_bytes: read_u32(b, 12),
        drops_total: read_u64(b, 16),
    }
}

// -------------------------------------------------------------- DELV / FAIL

/// The 6 bytes after the DELV magic.
pub open spec fn delivery_body(r: DeliveryReport) -> Seq<u8> {
    le16(r.msg_count) + le32(r.batch_bytes)
}

pub fn encode_delivered(report: &DeliveryReport) -> (frame: Vec<u8>)
    ensures
        frame@ == MAGIC_DELIVERED@ + delivery_body(*report),
{
    let mut frame: Vec<u8> = Vec::new();
    extend(&mut frame, &MAGIC_DELIVERED);
    extend(&mut frame, &u16_le(report.msg_count));
    extend(&mut frame, &u32_le(report.batch_bytes));
    assert(frame@ =~= MAGIC_DELIVERED@ + delivery_body(*report));
    frame
}

pub fn decode_delivery_report(body: [u8; 6]) -> (r: DeliveryReport)
    ensures
        r == (DeliveryReport { msg_count: dec16(body@, 0), batch_bytes: dec32(body@, 2) }),
{
    let b: &[u8] = &body;
    DeliveryReport { msg_count: read_u16(b, 0), batch_bytes: read_u32(b, 2) }
}

/// `FAIL` + msg_count + batch_bytes + code + message length + message (65535 bytes at most).
pub open spec fn failed_frame(msg_count: u16, batch_bytes: u32, code: u16, msg: Seq<u8>) -> Seq<u8> {
    MAGIC_FAILED@ + le16(msg_count) + le32(batch_bytes) + le16(code) + le16(kept_len(msg.len()) as u16)
        + msg.take(kept_len(msg.len()) as int)
}

pub fn encode_failed(report: &FailureReport) -> (frame: Vec<u8>)
    ensures
        frame@ == failed_frame(report.msg_count, report.batch_bytes, report.code, utf8(report.message@)),
{
    let msg = report.message.as_str().as_bytes();
    let msg_len: usize = if msg.len() > 65535 { 65535 } else { msg.len() };
    let mut frame: Vec<u8> = Vec::new();
    extend(&mut frame, &MAGIC_FAILED);
    extend(&mut frame, &u16_le(report.msg_count));
    extend(&mut frame, &u32_le(report.batch_bytes));
    extend(&mut frame, &u16_le(report.code));
    extend(&mut frame, &u16_le(msg_len as u16));
    let ghost head = frame@;
    let mut i: usize = 0;
    while i < msg_len
        invariant
            msg_len <= msg@.len(),
            i <= msg_len,
            frame@ == head + msg@.take(i as int),
        decreases msg_len - i,
    {
        frame.push(msg[i]);
        i = i + 1;
        assert(frame@ =~= head + msg@.take(i as int));
    }
    frame
}

/// `(msg_count, batch_bytes, code, message_len)` from the 10 bytes after the FAIL magic.
pub fn decode_failure_header(hdr: [u8; 10]) -> (r: (u16, u32, u16, usize))
    ensures
        r == (dec16(hdr@, 0), dec32(hdr@, 2), dec16(hdr@, 6), dec16(hdr@, 8) as usize),
{
    let b: &[u8] = &hdr;
    (read_u16(b, 0), read_u32(b, 2), read_u16(b, 6), read_u16(b, 8) as usize)
}

/// The frames a producer sends on its control connection.
pub fn is_producer_magic(magic: [u8; 4]) -> (r: bool)
    ensures
        r == (magic@ == MAGIC_PRODUCER_READY@ || magic@ == MAGIC_HEARTBEAT@ || magic@ == MAGIC_DELIVERED@
            || magic@ == MAGIC_FAILED@),
{
    magic_eq(magic, MAGIC_PRODUCER_READY) || magic_eq(magic, MAGIC_HEARTBEAT) || magic_eq(
        magic,
        MAGIC_DELIVERED,
    ) || magic_eq(magic, MAGIC_FAILED)
}


// ------------------------------------------------------------------- laws

/// Items a batch frame can carry whole: at most 65535 of them, each non-empty
/// and no longer than `MAX_INGRESS_ITEM_BYTES`.
pub open spec fn items_fit(items: Seq<Seq<u8>>) -> bool {
    &&& items.len() <= 65535
    &&& forall|i: int| 0 <= i < items.len() ==> 0 < #[trigger] items[i].len() <= MAX_INGRESS_ITEM_BYTES
}

proof fn lemma_batch_body_prefix(items: Seq<Seq<u8>>, k: int)
    requires
        0 <= k <= items.len(),
    ensures
        batch_body(items.take(k)).len() <= batch_body(items).len(),
        batch_body(items).subrange(0, batch_body(items.take(k)).len() as int) == batch_body(items.take(k)),
    decreases items.len(),
{
    if k == items.len() {
        assert(items.take(k) =~= items);
        assert(batch_body(items).subrange(0, batch_body(items).len() as int) =~= batch_body(items));
    } else {
        let d = items.drop_last();
        assert(items.take(k) =~= d.take(k));
        lemma_batch_body_prefix(d, k);
        let bd = batch_body(d);
        let bk = batch_body(d.take(k));
        assert(batch_body(items) == bd + le32(items.last().len() as u32) + items.last());
        assert(batch_body(items).subrange(0, bk.len() as int) =~= bd.subrange(0, bk.len() as int));
    }
}

#[verifier::spinoff_prover]
#[verifier::rlimit(40)]
proof fn lemma_parse_items_from(items: Seq<Seq<u8>>, k: int)
    requires
        items_fit(items),
        0 <= k <= items.len(),
    ensures
        parse_items_from(batch_payload(items), 2 + batch_body(items.take(k)).len() as int, (items.len() - k) as nat)
            == Ok::<Seq<Seq<u8>>, ProtocolError>(items.skip(k)),
    decreases items.len() - k,
{
    let p = batch_payload(items);
    let n = items.len();
    if k == n {
        assert(items.skip(k) =~= Seq::<Seq<u8>>::empty());
    } else {
        let off: int = 2 + batch_body(items.take(k)).len() as int;
        let x = items[k];
        let l: int = x.len() as int;
        assert(items.take(k + 1).drop_last() =~= items.take(k));
        assert(items.take(k + 1).last() == x);
        let bk1 = batch_body(items.take(k + 1));
        assert(bk1 == batch_body(items.take(k)) + le32(l as u32) + x);
        lemma_batch_body_prefix(items, k + 1);
        let body = batch_body(items);
        assert(p == le16(n as u16) + body);
        assert(p.subrange(off, off + 4) =~= bk1.subrange(off - 2, off + 2));
        assert(bk1.subrange(off - 2, off + 2) =~= le32(l as u32));
        lemma_le32_dec(l as u32, p, off);
        assert(dec32(p, off) as int == l);
        assert(p.subrange(off + 4, off + 4 + l) =~= bk1.subrange(off + 2, off + 2 + l));
        assert(bk1.subrange(off + 2, off + 2 + l) =~= x);
        lemma_parse_items_from(items, k + 1);
        assert(seq![x] + items.skip(k + 1) =~= items.skip(k));
    }
}

/// Reading back the inner batch of a list of items gives the same items.
pub proof fn lemma_batch_payload_roundtrip(items: Seq<Seq<u8>>)
    requires
        items_fit(items),
    ensures
        parse_batch_payload(batch_payload(items)) == Ok::<Seq<Seq<u8>>, ProtocolError>(items),
{
    let p = batch_payload(items);
    assert(p.subrange(0, 2) =~= le16(items.len() as u16));
    lemma_le16_dec(items.len() as u16, p, 0);
    assert(items.take(0) =~= Seq::<Seq<u8>>::empty());
    lemma_parse_items_from(items, 0);
    assert(items.skip(0) =~= items);
}

/// The count an inner batch declares is the number of items written into it.
pub proof fn lemma_batch_payload_count(items: Seq<Seq<u8>>)
    requires
        items.len() <= 65535,
    ensures
        batch_payload(items).len() >= 2,
        dec16(batch_payload(items), 0) == items.len(),
{
    let p = batch_payload(items);
    assert(p.subrange(0, 2) =~= le16(items.len() as u16));
    lemma_le16_dec(items.len() as u16, p, 0);
}

/// A BATC frame declares its item count and the length of its inner batch,
/// and the inner batch follows its 10-byte header.
pub proof fn lemma_batch_frame_header(items: Seq<Seq<u8>>)
    requires
        items.len() <= 65535,
        batch_payload(items).len() <= u32::MAX,
    ensures
        ({
            let f = framed_batch(MAGIC_BATCH@, items);
            &&& f.len() == 10 + batch_payload(items).len()
            &&& f.take(4) == MAGIC_BATCH@
            &&& dec16(f, 4) == items.len()
            &&& dec32(f, 6) == batch_payload(items).len()
            &&& f.subrange(10, f.len() as int) == batch_payload(items)
        }),
{
    let f = framed_batch(MAGIC_BATCH@, items);
    let pl = batch_payload(items);
    assert(f.take(4) =~= MAGIC_BATCH@);
    assert(f.subrange(4, 6) =~= le16(items.len() as u16));
    lemma_le16_dec(items.len() as u16, f, 4);
    assert(f.subrange(6, 10) =~= le32(pl.len() as u32));
    lemma_le32_dec(pl.len() as u32, f, 6);
    assert(f.subrange(10, f.len() as int) =~= pl);
}

/// The UTF-8 bytes of any text are valid UTF-8 and decode back to the text.
pub proof fn lemma_utf8_roundtrip(s: Seq<char>)
    ensures
        valid_utf8(utf8(s)),
        decode_utf8(utf8(s)) == s,
{
    vstd::utf8::encode_utf8_valid_utf8(s);
    vstd::utf8::encode_utf8_decode_utf8(s);
}

/// Reading back a CRDY frame gives its max_items and its tag bytes.
pub proof fn lemma_ready_roundtrip(max_items: u16, tag: Seq<u8>)
    requires
        tag.len() <= 65535,
    ensures
        parse_ready_spec(consumer_ready_frame(max_items, tag)) == Ok::<(u16, Seq<u8>), ProtocolError>((max_items, tag)),
{
    let f = consumer_ready_frame(max_items, tag);
    assert(f.take(4) =~= MAGIC_CONSUMER_READY@);
    assert(f.subrange(4, 6) =~= le16(max_items));
    lemma_le16_dec(max_items, f, 4);
    assert(f.subrange(6, 8) =~= le16(tag.len() as u16));
    lemma_le16_dec(tag.len() as u16, f, 6);
    assert(f.subrange(8, 8 + tag.len() as int) =~= tag);
}

/// Reading back the body of a heartbeat frame gives the same heartbeat.
pub proof fn lemma_heartbeat_roundtrip(hb: ProducerHeartbeat)
    ensures
        heartbeat_of(heartbeat_body(hb)) == hb,
{
    let b = heartbeat_body(hb);
    assert(b.subrange(0, 4) =~= le32(hb.pending_messages));
    lemma_le32_dec(hb.pending_messages, b, 0);
    assert(b.subrange(4, 8) =~= le32(hb.pending_bytes));
    lemma_le32_dec(hb.pending_bytes, b, 4);
    assert(b.subrange(8, 12) =~= le32(hb.ring_messages));
    lemma_le32_dec(hb.ring_messages, b, 8);
    assert(b.subrange(12, 16) =~= le32(hb.ring_bytes));
    lemma_le32_dec(hb.ring_bytes, b, 12);
    assert(b.subrange(16, 24) =~= le64(hb.drops_total));
    lemma_le64_dec(hb.drops_total, b, 16);
}

/// Reading back the body of a DELV frame gives the same report.
pub proof fn lemma_delivery_roundtrip(r: DeliveryReport)
    ensures
        dec16(delivery_body(r), 0) == r.msg_count,
        dec32(delivery_body(r), 2) == r.batch_bytes,
{
    let b = delivery_body(r);
    assert(b.subrange(0, 2) =~= le16(r.msg_count));
    lemma_le16_dec(r.msg_count, b, 0);
    assert(b.subrange(2, 6) =~= le32(r.batch_bytes));
    lemma_le32_dec(r.batch_bytes, b, 2);
}

/// Reading back a FAIL frame gives its counts, its code, and the message
/// bytes it kept.
pub proof fn lemma_failed_roundtrip(msg_count: u16, batch_bytes: u32, code: u16, msg: Seq<u8>)
    ensures
        ({
            let f = failed_frame(msg_count, batch_bytes, code, msg);
            let k = kept_len(msg.len());
            &&& f.take(4) == MAGIC_FAILED@
            &&& dec16(f, 4) == msg_count
            &&& dec32(f, 6) == batch_bytes
            &&& dec16(f, 10) == code
            &&& dec16(f, 12) == k
            &&& f.subrange(14, 14 + k as int) == msg.take(k as int)
            &&& f.len() == 14 + k
        }),
{
    let f = failed_frame(msg_count, batch_bytes, code, msg);
    let k = kept_len(msg.len());
    assert(f.take(4) =~= MAGIC_FAILED@);
    assert(f.subrange(4, 6) =~= le16(msg_count));
    lemma_le16_dec(msg_count, f, 4);
    assert(f.subrange(6, 10) =~= le32(batch_bytes));
    lemma_le32_dec(batch_bytes, f, 6);
    assert(f.subrange(10, 12) =~= le16(code));
    lemma_le16_dec(code, f, 10);
    assert(f.subrange(12, 14) =~= le16(k as u16));
    lemma_le16_dec(k as u16, f, 12);
    assert(f.subrange(14, 14 + k as int) =~= msg.take(k as int));
}

/// Reading back an ASGN frame gives its max_items, its tag and its address.
pub proof fn lemma_assign_roundtrip(max_items: u16, tag: Seq<u8>, data: Seq<u8>)
    requires
        tag.len() <= 65535,
        data.len() <= 65535,
    ensures
        ({
            let f = assign_frame(max_items, tag, data);
            let t = tag.len() as int;
            &&& f.take(4) == MAGIC_ASSIGN@
            &&& dec16(f, 4) == max_items
            &&& dec16(f, 6) == t
            &&& f.subrange(8, 8 + t) == tag
            &&& dec16(f, 8 + t) == data.len()
            &&& f.subrange(10 + t, 10 + t + data.len()) == data
            &&& f.len() == 10 + t + data.len()
        }),
{
    let f = assign_frame(max_items, tag, data);
    let t = tag.len() as int;
    assert(f.take(4) =~= MAGIC_ASSIGN@);
    assert(f.subrange(4, 6) =~= le16(max_items));
    lemma_le16_dec(max_items, f, 4);
    assert(f.subrange(6, 8) =~= le16(tag.len() as u16));
    lemma_le16_dec(tag.len() as u16, f, 6);
    assert(f.subrange(8, 8 + t) =~= tag);
    assert(f.subrange(8 + t, 10 + t) =~= le16(data.len() as u16));
    lemma_le16_dec(data.len() as u16, f, 8 + t);
    assert(f.subrange(10 + t, 10 + t + data.len()) =~= data);
}

/// Reading back a REG! frame gives its address.
pub proof fn lemma_register_roundtrip(addr: Seq<u8>)
    requires
        addr.len() <= 65535,
    ensures
        ({
            let f = register_frame(addr);
            &&& f.take(4) == MAGIC_REGISTER@
            &&& dec16(f, 4) == addr.len()
            &&& f.subrange(6, f.len() as int) == addr
        }),
{
    let f = register_frame(addr);
    assert(f.take(4) =~= MAGIC_REGISTER@);
    assert(f.subrange(4, 6) =~= le16(addr.len() as u16));
    lemma_le16_dec(addr.len() as u16, f, 4);
    assert(f.subrange(6, f.len() as int) =~= addr);
}

} // verus!

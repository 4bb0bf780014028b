use bytes::Bytes;
use cupidmq::protocol::{
    batch_item_count, encode_assign, encode_batch, encode_heartbeat, encode_pub_batch, encode_register,
    parse_batch_payload_items, parse_ready, AssignRequest, ProducerHeartbeat, ProtocolError, MAGIC_ASSIGN,
    MAGIC_BATCH, MAGIC_CONSUMER_READY, MAGIC_HEARTBEAT, MAGIC_PUB_BATCH, MAGIC_REGISTER,
};

#[test]
fn encode_batch_roundtrip_count() {
    let items = vec![vec![1, 2, 3], vec![4, 5]];
    let frame = encode_batch(&items);
    assert_eq!(&frame[..4], MAGIC_BATCH);
    let count = u16::from_le_bytes([frame[4], frame[5]]);
    assert_eq!(count, 2);
    let plen = u32::from_le_bytes([frame[6], frame[7], frame[8], frame[9]]) as usize;
    let payload = &frame[10..10 + plen];
    assert_eq!(batch_item_count(payload).unwrap(), 2);
    assert!(payload.len() > 2 + 4 + 4 + 4);
}

#[test]
fn parse_ready_with_tag() {
    let mut body = Vec::from(MAGIC_CONSUMER_READY);
    body.extend_from_slice(&32u16.to_le_bytes());
    body.extend_from_slice(&11u16.to_le_bytes());
    body.extend_from_slice(b"consumer-g0");
    let req = parse_ready(&body).unwrap();
    assert_eq!(req.max_items, 32);
    assert_eq!(req.consumer_tag, "consumer-g0");
}

#[test]
fn parse_ready_empty_tag() {
    let mut body = Vec::from(MAGIC_CONSUMER_READY);
    body.extend_from_slice(&16u16.to_le_bytes());
    body.extend_from_slice(&0u16.to_le_bytes());
    let req = parse_ready(&body).unwrap();
    assert!(req.consumer_tag.is_empty());
}

#[test]
fn pub_batch_roundtrip() {
    let items = vec![vec![1, 2, 3], vec![4, 5, 6, 7]];
    let frame = encode_pub_batch(&items);
    assert_eq!(&frame[..4], MAGIC_PUB_BATCH);
    let plen = u32::from_le_bytes([frame[6], frame[7], frame[8], frame[9]]) as usize;
    let payload = Bytes::copy_from_slice(&frame[10..10 + plen]);
    let parsed = parse_batch_payload_items(payload).unwrap();
    assert_eq!(parsed.len(), 2);
    assert_eq!(parsed[0].as_ref(), &[1, 2, 3]);
    assert_eq!(parsed[1].as_ref(), &[4, 5, 6, 7]);
}

#[test]
fn pub_batch_slices_share_parent() {
    let items = vec![vec![1, 2, 3], vec![4, 5]];
    let frame = encode_pub_batch(&items);
    let plen = u32::from_le_bytes([frame[6], frame[7], frame[8], frame[9]]) as usize;
    let payload = Bytes::copy_from_slice(&frame[10..10 + plen]);
    let base = payload.as_ptr();
    let parsed = parse_batch_payload_items(payload).unwrap();
    for item in &parsed {
        let start = item.as_ptr() as usize - base as usize;
        assert!(start + item.len() <= plen);
    }
}

#[test]
fn assign_roundtrip() {
    let req = AssignRequest {
        max_items: 32,
        consumer_tag: "consumer-g0".into(),
        data_addr: "127.0.0.1:9760".into(),
    };
    let frame = encode_assign(&req).unwrap();
    assert_eq!(&frame[..4], MAGIC_ASSIGN);
}

#[test]
fn register_roundtrip() {
    let frame = encode_register("127.0.0.1:9760").unwrap();
    assert_eq!(&frame[..4], MAGIC_REGISTER);
}

#[test]
fn heartbeat_payload_size() {
    let hb = ProducerHeartbeat {
        pending_messages: 10,
        pending_bytes: 1024,
        ring_messages: 5,
        ring_bytes: 512,
        drops_total: 3,
    };
    let frame = encode_heartbeat(&hb);
    assert_eq!(frame.len(), 4 + 24);
    assert_eq!(&frame[..4], MAGIC_HEARTBEAT);
}

#[test]
fn assign_frame_layout_and_errors() {
    let req = AssignRequest { max_items: 7, consumer_tag: "t".into(), data_addr: "h:1".into() };
    let frame = encode_assign(&req).unwrap();
    assert_eq!(frame, vec![0x41, 0x53, 0x47, 0x4E, 7, 0, 1, 0, b't', 3, 0, b'h', b':', b'1']);
    let empty = AssignRequest { max_items: 7, consumer_tag: String::new(), data_addr: String::new() };
    assert_eq!(encode_assign(&empty).err(), Some(ProtocolError::InvalidAssignFieldLen));
}

#[test]
fn batch_payload_rejects_truncation() {
    assert_eq!(batch_item_count(&[1]).err(), Some(ProtocolError::BatchPayloadTooShort));
    let items = vec![vec![9u8; 3]];
    let frame = encode_batch(&items);
    let plen = u32::from_le_bytes([frame[6], frame[7], frame[8], frame[9]]) as usize;
    let payload = &frame[10..10 + plen - 1];
    assert!(parse_batch_payload_items(Bytes::copy_from_slice(payload)).is_err());
}

#[test]
fn batch_frame_head_and_items_make_the_frame() {
    let items = vec![bytes::Bytes::from_static(b"ab"), bytes::Bytes::from_static(b""), bytes::Bytes::from_static(b"xyz")];
    let mut frame = cupidmq::protocol::batch_frame_head(&items).unwrap();
    for item in &items {
        frame.extend_from_slice(&cupidmq::wire::u32_le(item.len() as u32));
        frame.extend_from_slice(item);
    }
    let owned: Vec<Vec<u8>> = items.iter().map(|b| b.to_vec()).collect();
    assert_eq!(frame, cupidmq::protocol::encode_batch(&owned));
    assert_eq!(frame.len(), 4 + 2 + 4 + 2 + 3 * 4 + 5);
}

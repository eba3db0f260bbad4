use arbitro_client::ackstore::format::{
    crc32c, decode_payload, encode_register, encode_seq_op, record_frame_size, register_frame_size,
    FRAME_LEN_SIZE, OP_RECORD, OP_REGISTER,
};

#[test]
fn crc32c_matches_known_vector() {
    assert_eq!(crc32c(b"123456789"), 0xE306_9283);
}

#[test]
fn seq_op_roundtrip() {
    let mut buf = vec![0u8; record_frame_size()];
    let n = encode_seq_op(&mut buf, OP_RECORD, 42, 1000, 777);
    assert_eq!(n, record_frame_size());
    let plen = u32::from_le_bytes(buf[0..4].try_into().unwrap()) as usize;
    let payload = &buf[FRAME_LEN_SIZE..FRAME_LEN_SIZE + plen];
    let d = decode_payload(payload).unwrap();
    assert_eq!((d.op, d.slot_id, d.ts_ms, d.seq), (OP_RECORD, 42, 1000, 777));
}

#[test]
fn register_roundtrip() {
    let mut buf = vec![0u8; register_frame_size(6, 6)];
    encode_register(&mut buf, 3, 500, b"orders", b"worker");
    let plen = u32::from_le_bytes(buf[0..4].try_into().unwrap()) as usize;
    let d = decode_payload(&buf[FRAME_LEN_SIZE..FRAME_LEN_SIZE + plen]).unwrap();
    assert_eq!(d.op, OP_REGISTER);
    assert_eq!(d.stream, b"orders");
    assert_eq!(d.consumer, b"worker");
}

#[test]
fn empty_payload_decodes_to_nothing() {
    assert!(decode_payload(&[]).is_none());
    assert!(decode_payload(&[0xFF; 21]).is_none());
}

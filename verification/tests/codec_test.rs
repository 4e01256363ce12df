use twinz::codec::ValueCodec;

#[test]
fn frame_is_length_then_payload() {
    let frame = ValueCodec::encode_frame(b"hello");
    assert_eq!(frame, vec![0, 0, 0, 5, b'h', b'e', b'l', b'l', b'o']);
    assert_eq!(ValueCodec::frame_len(&frame[..4]), 5);
    assert_eq!(&frame[4..], b"hello");
}

#[test]
fn empty_and_long_frames() {
    assert_eq!(ValueCodec::encode_frame(&[]), vec![0, 0, 0, 0]);
    let payload = vec![7u8; 300];
    let frame = ValueCodec::encode_frame(&payload);
    assert_eq!(&frame[..4], &[0, 0, 1, 44]);
    assert_eq!(ValueCodec::frame_len(&frame), 300);
}

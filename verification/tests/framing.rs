use ipc_broker::framing::{packet_length, read_packet, write_packet};

#[test]
fn frame_round_trip() {
    let frame = write_packet(b"hello");
    assert_eq!(frame, vec![0, 0, 0, 5, b'h', b'e', b'l', b'l', b'o']);
    let (payload, used) = read_packet(&frame).unwrap();
    assert_eq!(payload, b"hello".to_vec());
    assert_eq!(used, 9);
}

#[test]
fn frame_incomplete_reads_as_none() {
    let frame = write_packet(b"abc");
    for cut in 0..frame.len() {
        assert_eq!(read_packet(&frame[..cut]), None);
    }
}

#[test]
fn frame_followed_by_more_bytes() {
    let mut bytes = write_packet(b"first");
    bytes.extend(write_packet(b""));
    let (payload, used) = read_packet(&bytes).unwrap();
    assert_eq!(payload, b"first".to_vec());
    assert_eq!(used, 9);
    let (payload, used) = read_packet(&bytes[used..]).unwrap();
    assert_eq!(payload, Vec::<u8>::new());
    assert_eq!(used, 4);
}

#[test]
fn frame_length_is_big_endian() {
    let data = vec![7u8; 300];
    let frame = write_packet(&data);
    assert_eq!(&frame[..4], &[0, 0, 1, 44]);
    assert_eq!(frame.len(), 304);
    assert_eq!(read_packet(&[0, 0, 1, 0]), None);
}

#[test]
fn header_announces_length() {
    assert_eq!(packet_length(&[0, 0, 1, 44]), 300);
    assert_eq!(packet_length(&[255, 255, 255, 255]), u32::MAX);
    assert_eq!(packet_length(&write_packet(b"xyz")), 3);
}

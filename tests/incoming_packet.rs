use rust_chat::incoming_packet::Packet;
use rust_chat::incoming_packet::PacketError;
use rust_chat::ByteStream;

fn make_buffer_for_packet(payload: &str) -> Vec<u8> {
    assert_ne!(payload.len(), 0);
    let len: u32 = payload.len().try_into().expect("");
    let mut buffer: Vec<u8> = Vec::new();
    buffer.extend_from_slice(&len.to_be_bytes());
    buffer.extend_from_slice(payload.as_bytes());
    buffer
}

/// A stream holding `bytes`, after which the peer has closed it.
fn finished_stream(bytes: &[u8]) -> ByteStream {
    let mut stream = ByteStream::new();
    stream.deliver(bytes);
    stream.close();
    stream
}

#[test]
fn advance_until_received() {
    let payload = "Example string";
    let buffer = make_buffer_for_packet(payload);
    let mut reader = finished_stream(&buffer);
    let packet = Packet::new().advance_until_received(&mut reader);
    if let Packet::Received(data) = packet {
        assert_eq!(data.len(), payload.len());
        assert_eq!(
            String::from_utf8(data).expect("Failed to make a string from buffer"),
            payload
        );
    } else {
        panic!("Unexpected state of packet");
    }
}

#[test]
fn incoming_packet_read_two_packets_from_same_buffer() {
    let payload_a = "Example string 1";
    let payload_b = "Example string 2";
    let buffer = {
        let mut temp = make_buffer_for_packet(payload_a);
        temp.extend(make_buffer_for_packet(payload_b));
        temp
    };
    let mut reader = finished_stream(&buffer);

    if let Packet::Received(data) = Packet::new().advance_until_received(&mut reader) {
        assert_eq!(data.len(), payload_a.len());
        assert_eq!(
            String::from_utf8(data).expect("Failed to make a string from buffer"),
            payload_a
        );
    } else {
        panic!("Unexpected state of packet");
    }

    if let Packet::Received(data) = Packet::new().advance_until_received(&mut reader) {
        assert_eq!(data.len(), payload_b.len());
        assert_eq!(
            String::from_utf8(data).expect("Failed to make a string from buffer"),
            payload_b
        );
    } else {
        panic!("Unexpected state of packet");
    }
}

#[test]
fn incoming_packet_read_packet_with_invalid_size() {
    let payload = "Example string";
    let buffer = make_buffer_for_packet(payload);
    let mut reader = finished_stream(&buffer[0..5]);
    if let Packet::Failed(error) = Packet::new().advance_until_received(&mut reader) {
        assert_eq!(error, PacketError::StreamClosed {});
    } else {
        panic!("Unexpected state of packet");
    }
}

#[test]
fn header_then_payload_steps() {
    let payload = "Hello, world!";
    let buffer = make_buffer_for_packet(payload);
    let mut stream = ByteStream::new();
    stream.deliver(&buffer);

    let packet = Packet::new();
    match &packet {
        Packet::Size(state) => {
            assert_eq!(state.read(), 0);
            assert_eq!(state.size(), 0);
        }
        _ => panic!("Unexpected state of packet"),
    }

    // one read takes the whole header and the frame moves on to its payload
    let packet = packet.advance(&mut stream);
    match &packet {
        Packet::InProgress(state) => {
            assert_eq!(state.expected(), payload.len());
            assert_eq!(state.received(), 0);
        }
        _ => panic!("Unexpected state of packet"),
    }
    assert_eq!(stream.unread_len(), payload.len());

    let packet = packet.advance(&mut stream);
    match packet {
        Packet::Received(data) => assert_eq!(data, payload.as_bytes()),
        _ => panic!("Unexpected state of packet"),
    }
}

#[test]
fn header_split_across_reads() {
    let mut stream = ByteStream::new();
    stream.deliver(&[0x00, 0x00]);
    let packet = Packet::new().advance(&mut stream);
    match &packet {
        Packet::Size(state) => {
            assert_eq!(state.read(), 2);
            assert_eq!(state.size(), 0);
        }
        _ => panic!("Unexpected state of packet"),
    }
    stream.deliver(&[0x01, 0x02, 0xAA]);
    let packet = packet.advance(&mut stream);
    match &packet {
        Packet::InProgress(state) => assert_eq!(state.expected(), 0x0102),
        _ => panic!("Unexpected state of packet"),
    }
    assert_eq!(stream.unread_len(), 1);
}

#[test]
fn would_block_leaves_frame_unchanged() {
    let mut stream = ByteStream::new();
    stream.deliver(&[0x00, 0x00, 0x00, 0x03, b'x']);
    let mut packet = Packet::new().advance_until_would_block(&mut stream);
    for _ in 0..5 {
        packet = packet.advance_until_would_block(&mut stream);
        match &packet {
            Packet::InProgress(state) => {
                assert_eq!(state.expected(), 3);
                assert_eq!(state.received(), 1);
            }
            _ => panic!("Unexpected state of packet"),
        }
    }
    stream.deliver(b"yz");
    match packet.advance_until_would_block(&mut stream) {
        Packet::Received(data) => assert_eq!(data, b"xyz".to_vec()),
        _ => panic!("Unexpected state of packet"),
    }
}

#[test]
fn declared_length_at_limit_is_refused() {
    let mut stream = ByteStream::new();
    stream.deliver(&[0x00, 0x01, 0x00, 0x00, 1, 2, 3]);
    match Packet::new().advance_until_would_block(&mut stream) {
        Packet::Failed(error) => assert_eq!(error, PacketError::SizeTooBig(65536)),
        _ => panic!("Unexpected state of packet"),
    }
    // the bytes after the header are not read
    assert_eq!(stream.unread_len(), 3);
}

#[test]
fn declared_length_zero_is_refused() {
    let mut stream = ByteStream::new();
    stream.deliver(&[0x00, 0x00, 0x00, 0x00]);
    match Packet::new().advance_until_would_block(&mut stream) {
        Packet::Failed(error) => assert_eq!(error, PacketError::SizeTooBig(0)),
        _ => panic!("Unexpected state of packet"),
    }
}

#[test]
fn peer_close_in_header() {
    let mut reader = finished_stream(&[0x00, 0x00]);
    match Packet::new().advance_until_would_block(&mut reader) {
        Packet::Failed(error) => assert_eq!(error, PacketError::StreamClosed),
        _ => panic!("Unexpected state of packet"),
    }
}

#[test]
fn peer_close_in_payload() {
    let mut reader = finished_stream(&[0x00, 0x00, 0x00, 0x05, b'a', b'b']);
    match Packet::new().advance_until_would_block(&mut reader) {
        Packet::Failed(error) => assert_eq!(error, PacketError::StreamClosed),
        _ => panic!("Unexpected state of packet"),
    }
}

#[test]
fn stream_error_in_payload() {
    let mut stream = ByteStream::new();
    stream.deliver(&[0x00, 0x00, 0x00, 0x05, b'a']);
    stream.fail();
    match Packet::new().advance_until_would_block(&mut stream) {
        Packet::Failed(error) => assert_eq!(error, PacketError::StreamError),
        _ => panic!("Unexpected state of packet"),
    }
}

#[test]
fn advance_blocking() {
    let payload = "Example string";
    let buffer = make_buffer_for_packet(payload);
    let mut reader = finished_stream(&buffer);
    let packet = Packet::new().advance_until_received(&mut reader);
    if let Packet::Received(data) = packet {
        assert_eq!(data.len(), payload.len());
        assert_eq!(
            String::from_utf8(data).expect("Failed to make a string from buffer"),
            payload
        );
    } else {
        panic!("Unexpected state of packet");
    }
}

#[test]
fn packet_read_two_packets_from_same_buffer() {
    let payload_a = "Example string 1";
    let payload_b = "Example string 2";
    let buffer = {
        let mut temp = make_buffer_for_packet(payload_a);
        temp.extend(make_buffer_for_packet(payload_b));
        temp
    };
    let mut reader = finished_stream(&buffer);
    for payload in [payload_a, payload_b] {
        if let Packet::Received(data) = Packet::new().advance_until_received(&mut reader) {
            assert_eq!(data.len(), payload.len());
            assert_eq!(
                String::from_utf8(data).expect("Failed to make a string from buffer"),
                payload
            );
        } else {
            panic!("Unexpected state of packet");
        }
    }
}

#[test]
fn packet_read_packet_with_invalid_size() {
    let payload = "Example string";
    let buffer = make_buffer_for_packet(payload);
    let mut reader = finished_stream(&buffer[0..5]);
    if let Packet::Failed(error) = Packet::new().advance_until_received(&mut reader) {
        assert_eq!(error, PacketError::StreamClosed {});
    } else {
        panic!("Unexpected state of packet");
    }
}

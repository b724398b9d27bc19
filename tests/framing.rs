use rust_chat::incoming_packet::PacketError as ReceiveError;
use rust_chat::outgoing_packet::PacketError as SendError;
use rust_chat::ByteStream;
use rust_chat::PacketReceiver;
use rust_chat::PacketSender;

const HELLO_WIRE: [u8; 17] = [
    0x00, 0x00, 0x00, 0x0D, 0x48, 0x65, 0x6C, 0x6C, 0x6F, 0x2C, 0x20, 0x77, 0x6F, 0x72, 0x6C, 0x64, 0x21,
];

fn drain(receiver: &mut PacketReceiver) -> Vec<Vec<u8>> {
    let mut out = Vec::new();
    while let Some(p) = receiver.pop_packet() {
        out.push(p);
    }
    out
}

fn send_all(payloads: &[&[u8]]) -> Vec<u8> {
    let mut sender = PacketSender::new();
    for p in payloads {
        sender.add_to_send_queue(p.to_vec());
    }
    let mut stream = ByteStream::new();
    sender.advance(&mut stream).expect("send failed");
    assert!(sender.empty());
    stream.take_written()
}

#[test]
fn single_round_trip() {
    let wire = send_all(&[b"Hello, world!"]);
    assert_eq!(wire, HELLO_WIRE.to_vec());
    let mut stream = ByteStream::new();
    stream.deliver(&wire);
    let mut receiver = PacketReceiver::new();
    receiver.advance(&mut stream).expect("receive failed");
    assert_eq!(drain(&mut receiver), vec![b"Hello, world!".to_vec()]);
}

#[test]
fn chunked_delivery() {
    let mut stream = ByteStream::new();
    let mut receiver = PacketReceiver::new();
    let mut completions = 0;
    for (i, byte) in HELLO_WIRE.iter().enumerate() {
        stream.deliver(&[*byte]);
        receiver.advance(&mut stream).expect("receive failed");
        // nothing more is available: the stream would block
        receiver.advance(&mut stream).expect("receive failed");
        let got = drain(&mut receiver);
        if i + 1 < HELLO_WIRE.len() {
            assert!(got.is_empty());
        } else {
            assert_eq!(got, vec![b"Hello, world!".to_vec()]);
        }
        completions += got.len();
    }
    assert_eq!(completions, 1);
}

#[test]
fn two_frames_concatenated() {
    let wire = send_all(&[b"AAA", b"BBBB"]);
    assert_eq!(wire.len(), 15);
    assert_eq!(wire, vec![0, 0, 0, 3, 65, 65, 65, 0, 0, 0, 4, 66, 66, 66, 66]);
    let mut stream = ByteStream::new();
    stream.deliver(&wire);
    let mut receiver = PacketReceiver::new();
    receiver.advance(&mut stream).expect("receive failed");
    assert_eq!(receiver.len(), 2);
    assert_eq!(receiver.pop_packet(), Some(b"AAA".to_vec()));
    assert_eq!(receiver.pop_packet(), Some(b"BBBB".to_vec()));
    assert_eq!(receiver.pop_packet(), None);
}

#[test]
fn oversize_rejection() {
    let mut stream = ByteStream::new();
    stream.deliver(&[0x00, 0x01, 0x00, 0x00, 0xDE, 0xAD, 0xBE, 0xEF]);
    let mut receiver = PacketReceiver::new();
    assert_eq!(receiver.advance(&mut stream), Err(ReceiveError::SizeTooBig(65536)));
    assert_eq!(receiver.len(), 0);
    // the receiver stays failed and reads nothing more
    assert_eq!(stream.unread_len(), 4);
    assert_eq!(receiver.advance(&mut stream), Err(ReceiveError::SizeTooBig(65536)));
    assert_eq!(stream.unread_len(), 4);
}

#[test]
fn zero_length_frame_is_refused() {
    let mut stream = ByteStream::new();
    stream.deliver(&[0, 0, 0, 0]);
    let mut receiver = PacketReceiver::new();
    assert_eq!(receiver.advance(&mut stream), Err(ReceiveError::SizeTooBig(0)));
}

#[test]
fn frames_before_invalid_header_are_kept() {
    let mut stream = ByteStream::new();
    stream.deliver(&[0, 0, 0, 1, b'z', 0xFF, 0xFF, 0xFF, 0xFF]);
    let mut receiver = PacketReceiver::new();
    assert_eq!(receiver.advance(&mut stream), Err(ReceiveError::SizeTooBig(0xFFFF_FFFF)));
    assert_eq!(drain(&mut receiver), vec![b"z".to_vec()]);
}

#[test]
fn receiver_close_in_header_and_payload() {
    for bytes in [&[0u8, 0][..], &[0u8, 0, 0, 9, 1, 2][..]] {
        let mut stream = ByteStream::new();
        stream.deliver(bytes);
        stream.close();
        let mut receiver = PacketReceiver::new();
        assert_eq!(receiver.advance(&mut stream), Err(ReceiveError::StreamClosed));
    }
}

#[test]
fn receiver_close_between_frames() {
    let mut stream = ByteStream::new();
    stream.deliver(&[0, 0, 0, 1, b'q']);
    stream.close();
    let mut receiver = PacketReceiver::new();
    assert_eq!(receiver.advance(&mut stream), Err(ReceiveError::StreamClosed));
    assert_eq!(drain(&mut receiver), vec![b"q".to_vec()]);
}

#[test]
fn receiver_stream_error() {
    let mut stream = ByteStream::new();
    stream.fail();
    let mut receiver = PacketReceiver::new();
    assert_eq!(receiver.advance(&mut stream), Err(ReceiveError::StreamError));
}

#[test]
fn idle_advances_change_nothing() {
    let mut stream = ByteStream::new();
    stream.deliver(&[0, 0, 0, 2, b'a']);
    let mut receiver = PacketReceiver::new();
    for _ in 0..10 {
        assert_eq!(receiver.advance(&mut stream), Ok(()));
        assert_eq!(receiver.len(), 0);
    }
    stream.deliver(b"b");
    assert_eq!(receiver.advance(&mut stream), Ok(()));
    assert_eq!(drain(&mut receiver), vec![b"ab".to_vec()]);

    let mut sender = PacketSender::new();
    sender.add_to_send_queue(b"xyz".to_vec());
    let mut out = ByteStream::new();
    out.set_room(0);
    for _ in 0..10 {
        assert_eq!(sender.advance(&mut out), Ok(()));
        assert!(out.take_written().is_empty());
        assert!(!sender.empty());
    }
    out.set_room(1000);
    assert_eq!(sender.advance(&mut out), Ok(()));
    assert_eq!(out.take_written(), vec![0, 0, 0, 3, b'x', b'y', b'z']);
}

#[test]
fn any_split_gives_same_payloads() {
    let wire = send_all(&[b"first", b"second payload", b"3"]);
    let expected = vec![b"first".to_vec(), b"second payload".to_vec(), b"3".to_vec()];
    for chunk in 1..wire.len() + 1 {
        let mut stream = ByteStream::new();
        let mut receiver = PacketReceiver::new();
        for piece in wire.chunks(chunk) {
            stream.deliver(piece);
            receiver.advance(&mut stream).expect("receive failed");
        }
        assert_eq!(drain(&mut receiver), expected);
    }
}

#[test]
fn round_trip_sizes() {
    for len in [1usize, 2, 1023, 1024, 1025, 4096, 65535] {
        let payload: Vec<u8> = (0..len).map(|i| (i % 251) as u8).collect();
        let wire = send_all(&[&payload]);
        assert_eq!(wire.len(), len + 4);
        let mut stream = ByteStream::new();
        stream.deliver(&wire);
        let mut receiver = PacketReceiver::new();
        receiver.advance(&mut stream).expect("receive failed");
        assert_eq!(drain(&mut receiver), vec![payload]);
    }
}

#[test]
fn sender_keeps_queue_order_under_pressure() {
    let mut sender = PacketSender::new();
    let payloads: Vec<Vec<u8>> = (1..20u8).map(|i| vec![i; i as usize * 100]).collect();
    for p in &payloads {
        sender.add_to_send_queue(p.clone());
    }
    let mut stream = ByteStream::new();
    let mut wire = Vec::new();
    let mut rounds = 0;
    while !sender.empty() {
        stream.set_room(333);
        sender.advance(&mut stream).expect("send failed");
        let out = stream.take_written();
        assert!(out.len() <= 333);
        wire.extend(out);
        rounds += 1;
        assert!(rounds < 1000);
    }
    let mut expected = Vec::new();
    for p in &payloads {
        expected.extend_from_slice(&(p.len() as u32).to_be_bytes());
        expected.extend_from_slice(p);
    }
    assert_eq!(wire, expected);
}

#[test]
fn sender_reports_bad_payloads_and_goes_on() {
    let mut sender = PacketSender::new();
    sender.add_to_send_queue(b"ok".to_vec());
    sender.add_to_send_queue(Vec::new());
    sender.add_to_send_queue(b"after".to_vec());
    let mut stream = ByteStream::new();
    assert_eq!(sender.advance(&mut stream), Err(SendError::ZeroSizedPacket));
    assert_eq!(stream.take_written(), vec![0, 0, 0, 2, b'o', b'k']);
    assert_eq!(sender.advance(&mut stream), Ok(()));
    assert_eq!(stream.take_written(), vec![0, 0, 0, 5, b'a', b'f', b't', b'e', b'r']);
}

#[test]
fn sender_stream_error() {
    let mut sender = PacketSender::new();
    sender.add_to_send_queue(b"ok".to_vec());
    let mut stream = ByteStream::new();
    stream.fail();
    assert_eq!(sender.advance(&mut stream), Err(SendError::StreamError));
    assert!(!sender.empty());
}

#[test]
fn sender_oversize_payload() {
    let mut sender = PacketSender::new();
    sender.add_to_send_queue(vec![1u8; 70000]);
    let mut stream = ByteStream::new();
    assert_eq!(sender.advance(&mut stream), Err(SendError::SizeTooBig(70000)));
    assert!(sender.empty());
}

#[test]
fn empty_payload_at_front_fails_even_when_blocked() {
    let mut sender = PacketSender::new();
    sender.add_to_send_queue(Vec::new());
    sender.add_to_send_queue(b"next".to_vec());
    let mut stream = ByteStream::new();
    stream.set_room(0);
    assert_eq!(sender.advance(&mut stream), Err(SendError::ZeroSizedPacket));
    assert!(stream.take_written().is_empty());
    assert!(!sender.empty());
}

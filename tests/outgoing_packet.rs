use rand::Rng;
use rand::SeedableRng;
use rust_chat::outgoing_packet::Packet;
use rust_chat::outgoing_packet::PacketError;
use rust_chat::wire::MAX_SEND_CHUNK;
use rust_chat::ByteStream;

fn generate_random_string(seed: u64, min_length: usize, max_length: usize) -> String {
    let mut rng = rand::rngs::StdRng::seed_from_u64(seed);
    let length = rng.gen_range(min_length..max_length + 1);
    (0..length)
        .map(|_| rng.gen_range(b'a'..b'z' + 1) as char)
        .collect()
}

#[test]
fn create_new_packet() {
    let payload = "Hello, world!";
    let packet = Packet::new(payload.as_bytes());
    if let Packet::InProgress(in_progress) = packet {
        assert_eq!(in_progress.sent(), 0);
    } else {
        panic!("Unexpected packet state")
    }
}

#[test]
fn detailed_advance() {
    let payload = "Hello, world!";
    let mut stream = ByteStream::new();
    let packet = Packet::new(payload.as_bytes());
    match packet.advance(&mut stream) {
        Packet::Sent => {}
        _ => {
            panic!("Unexpected packet state")
        }
    }
    let buffer = stream.take_written();
    assert_eq!(
        u32::from_be_bytes(buffer[0..4].try_into().unwrap()),
        payload.len() as u32
    );
    assert_eq!(&buffer[4..], payload.as_bytes());
}

#[test]
fn detailed_advance_big_payload() {
    // the frame is larger than MAX_SEND_CHUNK, so one advance cannot write it all
    let payload = generate_random_string(1234, MAX_SEND_CHUNK, MAX_SEND_CHUNK);
    let mut stream = ByteStream::new();
    let packet = Packet::new(payload.as_bytes());
    let packet = match packet.advance(&mut stream) {
        Packet::InProgress(state) => {
            assert_eq!(state.sent(), MAX_SEND_CHUNK);
            Packet::InProgress(state)
        }
        _ => {
            panic!("Unexpected packet state")
        }
    };
    match packet.advance(&mut stream) {
        Packet::Sent => {}
        _ => {
            panic!("Unexpected packet state")
        }
    }
    let buffer = stream.take_written();
    assert_eq!(
        u32::from_be_bytes(buffer[0..4].try_into().unwrap()),
        payload.len() as u32
    );
    assert_eq!(&buffer[4..], payload.as_bytes());
}

#[test]
fn advance_until_sent() {
    let payload = generate_random_string(1234, MAX_SEND_CHUNK, MAX_SEND_CHUNK);
    let mut stream = ByteStream::new();
    let packet = Packet::new(payload.as_bytes());
    match packet.advance_until_sent(&mut stream) {
        Packet::Sent => {}
        _ => {
            panic!("Unexpected packet state")
        }
    }
    let buffer = stream.take_written();
    assert_eq!(
        u32::from_be_bytes(buffer[0..4].try_into().unwrap()),
        payload.len() as u32
    );
    assert_eq!(&buffer[4..], payload.as_bytes());
}

#[test]
fn empty_payload_is_refused() {
    match Packet::new(&[]) {
        Packet::Failed(err) => assert_eq!(err, PacketError::ZeroSizedPacket),
        _ => panic!("Unexpected packet state"),
    }
}

#[test]
fn oversize_payload_is_refused() {
    let payload = vec![7u8; 65536];
    match Packet::new(&payload) {
        Packet::Failed(err) => assert_eq!(err, PacketError::SizeTooBig(65536)),
        _ => panic!("Unexpected packet state"),
    }
}

#[test]
fn largest_payload_is_framed() {
    let payload = vec![9u8; 65535];
    let mut stream = ByteStream::new();
    match Packet::new(&payload).advance_until_sent(&mut stream) {
        Packet::Sent => {}
        _ => panic!("Unexpected packet state"),
    }
    let buffer = stream.take_written();
    assert_eq!(&buffer[0..4], &[0x00, 0x00, 0xFF, 0xFF]);
    assert_eq!(buffer.len(), 65539);
}

#[test]
fn write_blocks_without_room() {
    let mut stream = ByteStream::new();
    stream.set_room(0);
    let packet = Packet::new(b"abc");
    match packet.advance_until_would_block(&mut stream) {
        Packet::InProgress(state) => assert_eq!(state.sent(), 0),
        _ => panic!("Unexpected packet state"),
    }
    assert!(stream.take_written().is_empty());
}

#[test]
fn partial_write_then_rest() {
    let mut stream = ByteStream::new();
    stream.set_room(5);
    let packet = Packet::new(b"abcdef");
    let packet = match packet.advance_until_would_block(&mut stream) {
        Packet::InProgress(state) => {
            assert_eq!(state.sent(), 5);
            Packet::InProgress(state)
        }
        _ => panic!("Unexpected packet state"),
    };
    assert_eq!(stream.take_written(), vec![0, 0, 0, 6, b'a']);
    stream.set_room(100);
    match packet.advance_until_would_block(&mut stream) {
        Packet::Sent => {}
        _ => panic!("Unexpected packet state"),
    }
    assert_eq!(stream.take_written(), b"bcdef".to_vec());
}

#[test]
fn failed_stream_fails_write() {
    let mut stream = ByteStream::new();
    stream.fail();
    match Packet::new(b"abc").advance(&mut stream) {
        Packet::Failed(err) => assert_eq!(err, PacketError::StreamError),
        _ => panic!("Unexpected packet state"),
    }
}

use broker::errors::ErrorCode;
use broker::net::net_stats::{StatMessage, StatWatcher};
use broker::net::pool::least_loaded;
use broker::net::protocol::{
    next_frame, next_frames, FrameStep, Request, RequestMessage, Response, ResponseMessage,
};
use broker::net::queue::Queue;
use broker::wire::{push_be, read_be};
use bytes::BytesMut;

fn request(command: u8, client: u128, name: &[u8], payload: &[u8]) -> Vec<u8> {
    let mut bytes = vec![command];
    bytes.extend_from_slice(&client.to_be_bytes());
    bytes.extend_from_slice(&(payload.len() as u64).to_be_bytes());
    let mut field = [0u8; 64];
    field[..name.len()].copy_from_slice(name);
    bytes.extend_from_slice(&field);
    bytes.extend_from_slice(payload);
    bytes
}

#[test]
fn error_codes_are_read_back() {
    let codes: [u16; 17] =
        [0, 1, 100, 101, 102, 103, 104, 200, 201, 202, 203, 204, 205, 300, 301, 302, 303];
    let mut known = 0;
    for value in 0..=u16::MAX {
        match ErrorCode::from_u16(value) {
            Some(code) => {
                assert_eq!(code.as_u16(), value);
                assert!(codes.contains(&value));
                known += 1;
            }
            None => assert!(!codes.contains(&value)),
        }
    }
    assert_eq!(known, 17);
    assert_eq!(ErrorCode::QueueIsEmpty.as_u16(), 104);
    assert_eq!(ErrorCode::QueueIsEmpty.message(), "Queue is empty");
    assert_eq!(ErrorCode::ConfigInvalidFailTimeout.message(), "Invalid bytes success_timeout");
}

#[test]
fn command_bytes_are_read() {
    let commands = [
        Request::Enqueue,
        Request::Dequeue,
        Request::CreateQ,
        Request::DeleteQ,
        Request::ListM,
        Request::DeleteM,
        Request::Succeeded,
        Request::Failed,
        Request::Requeue,
        Request::UpdateM,
        Request::UpdateQ,
    ];
    for (i, command) in commands.iter().enumerate() {
        assert_eq!(Request::from_u8(i as u8 + 1), Ok(*command));
    }
    assert_eq!(Request::from_u8(0), Err(ErrorCode::UnknownRequestType));
    assert_eq!(Request::from_u8(12), Err(ErrorCode::UnknownRequestType));
    assert_eq!(Response::from_u8(1), Ok(Response::Succeeded));
    assert_eq!(Response::from_u8(2), Ok(Response::Failed));
    assert_eq!(Response::from_u8(3), Err(ErrorCode::UnknownRequestType));
    assert_eq!(Response::Failed.as_u8(), 2);
}

#[test]
fn numbers_are_big_endian() {
    let mut bytes = vec![7];
    push_be(&mut bytes, 0x010203, 4);
    assert_eq!(bytes, vec![7, 0, 1, 2, 3]);
    push_be(&mut bytes, 0x1_0005, 2);
    assert_eq!(bytes[5..], [0, 5]);
    assert_eq!(read_be(&[1, 0]), 256);
    assert_eq!(read_be(&[]), 0);
    assert_eq!(read_be(&[0xff; 16]), u128::MAX);
}

#[test]
fn frames_are_read_one_by_one() {
    let mut bytes = request(1, 5, b"orders", b"abc");
    bytes.extend_from_slice(&request(2, 6, b"orders", b""));
    let mut buffer = BytesMut::from(&bytes[..]);
    match next_frame(&mut buffer) {
        FrameStep::Complete(frame) => {
            assert_eq!(frame.client_id, 5);
            assert_eq!(frame.queue_name, "orders");
            assert_eq!(frame.message.command(), Request::Enqueue);
            assert_eq!(frame.message.payload_size(), 3);
            assert_eq!(frame.message.payload(), b"abc");
        }
        other => panic!("expected a frame, got {other:?}"),
    }
    assert_eq!(buffer.len(), 89);
    assert!(matches!(next_frame(&mut buffer), FrameStep::Complete(_)));
    assert!(matches!(next_frame(&mut buffer), FrameStep::Incomplete));
}

#[test]
fn frames_wait_for_their_last_byte() {
    let bytes = request(1, 5, b"orders", b"abc");
    for arrived in 0..bytes.len() {
        let mut buffer = BytesMut::from(&bytes[..arrived]);
        assert!(matches!(next_frame(&mut buffer), FrameStep::Incomplete));
        assert_eq!(buffer.len(), arrived);
    }
}

#[test]
fn huge_payload_sizes_do_not_overflow() {
    let mut bytes = request(1, 5, b"orders", b"abc");
    bytes[17..25].copy_from_slice(&u64::MAX.to_be_bytes());
    let mut buffer = BytesMut::from(&bytes[..]);
    assert!(matches!(next_frame(&mut buffer), FrameStep::Incomplete));
}

#[test]
fn unknown_commands_are_seen_early() {
    let mut buffer = BytesMut::from(&request(0, 5, b"orders", b"")[..24]);
    assert!(matches!(next_frame(&mut buffer), FrameStep::Incomplete));
    buffer.extend_from_slice(&[0]);
    assert!(matches!(next_frame(&mut buffer), FrameStep::Unknown));
}

#[test]
fn all_frames_are_read_at_once() {
    let mut bytes = Vec::new();
    for i in 0..5u8 {
        bytes.extend_from_slice(&request(1, i as u128, b"q", &vec![i; i as usize]));
    }
    bytes.extend_from_slice(&[2, 0, 0]);
    let mut buffer = BytesMut::from(&bytes[..]);
    let (frames, unknown) = next_frames(&mut buffer);
    assert!(!unknown);
    assert_eq!(frames.len(), 5);
    for (i, frame) in frames.iter().enumerate() {
        assert_eq!(frame.client_id, i as u128);
        assert_eq!(frame.message.payload(), &vec![i as u8; i]);
    }
    assert_eq!(&buffer[..], &[2, 0, 0]);
}

#[test]
fn it_makes_no_difference_how_reads_are_split() {
    let mut bytes = Vec::new();
    for i in 0..3u8 {
        bytes.extend_from_slice(&request(1, i as u128, b"q", &vec![i; 5]));
    }
    bytes.extend_from_slice(&[2, 0, 0]);
    for cut in 0..=bytes.len() {
        let mut buffer = BytesMut::from(&bytes[..cut]);
        let (first, _) = next_frames(&mut buffer);
        buffer.extend_from_slice(&bytes[cut..]);
        let (second, unknown) = next_frames(&mut buffer);
        let clients: Vec<u128> = first.iter().chain(second.iter()).map(|f| f.client_id).collect();
        assert_eq!(clients, vec![0, 1, 2]);
        assert!(!unknown);
        assert_eq!(&buffer[..], &[2, 0, 0]);
    }
}

#[test]
fn queue_names_are_trimmed_text() {
    let read = |name: &[u8]| {
        let mut buffer = BytesMut::from(&request(1, 5, name, b"")[..]);
        match next_frame(&mut buffer) {
            FrameStep::Complete(frame) => frame.queue_name,
            other => panic!("expected a frame, got {other:?}"),
        }
    };
    assert_eq!(read(b"orders"), "orders");
    assert_eq!(read("gr\u{fc}n".as_bytes()), "gr\u{fc}n");
    assert_eq!(read(b"a\0b\0"), "a\0b");
    assert_eq!(read(&[0xff, 0xfe]), "");
    assert_eq!(read(b""), "");
    assert_eq!(read(&[b'x'; 64]), "x".repeat(64));
}

#[test]
fn short_requests_do_not_parse() {
    let bytes = request(1, 5, b"orders", b"abc");
    let short = RequestMessage::new(&Request::Enqueue, BytesMut::from(&bytes[..88]));
    assert!(matches!(short, Err(ErrorCode::RequestParseError)));
    let whole = RequestMessage::new(&Request::Enqueue, BytesMut::from(&bytes[..])).unwrap();
    assert_eq!(whole.payload(), b"abc");
}

#[test]
fn responses_tell_their_size() {
    let response = ResponseMessage::new(Response::Succeeded, b"xyz".to_vec());
    assert_eq!(response.to_u8(), vec![1, 0, 0, 0, 0, 0, 0, 0, 3, b'x', b'y', b'z']);
    let failure = ResponseMessage::failure(ErrorCode::ConfigInvalidFailTimeout);
    assert_eq!(failure.to_u8(), vec![2, 0, 0, 0, 0, 0, 0, 0, 2, 1, 47]);
}

#[test]
fn figures_travel() {
    let word = usize::BITS as usize / 8;
    let stat = StatMessage::new(String::from("ab"), 1, 2, 3, 4);
    let bytes = stat.to_bytes();
    let mut expected = vec![0, 2, b'a', b'b'];
    for value in 1..=4usize {
        expected.extend_from_slice(&value.to_be_bytes());
    }
    assert_eq!(bytes, expected);
    assert_eq!(StatWatcher::new().to_bytes(), vec![0, 0, 0, 0]);
    let mut watcher = StatWatcher::new();
    let mut queue = Queue::new();
    queue.enqueue(BytesMut::from(&b"xyz"[..]), 1).unwrap();
    queue.lock_to_read(1).unwrap();
    watcher.new_stat(String::from("ab"), &queue).unwrap();
    watcher.new_stat(String::from("c"), &Queue::new()).unwrap();
    let bytes = watcher.to_bytes();
    assert_eq!(bytes[0..4], [0, 0, 0, 2]);
    assert_eq!(bytes[4..8], (4 + 4 * word as u32).to_be_bytes());
    assert_eq!(bytes[8..12], [0, 2, b'a', b'b']);
    assert_eq!(bytes[12..12 + word], 1usize.to_be_bytes());
    assert_eq!(bytes[12 + 2 * word..12 + 3 * word], 1usize.to_be_bytes());
    let second = 12 + 4 * word;
    assert_eq!(bytes[second..second + 4], (3 + 4 * word as u32).to_be_bytes());
    assert_eq!(bytes[second + 4..second + 7], [0, 1, b'c']);
    assert_eq!(bytes.len(), second + 7 + 4 * word);
}

#[test]
fn long_names_tell_the_low_bytes_of_their_length() {
    let stat = StatMessage::new("n".repeat(65536 + 3), 0, 0, 0, 0);
    assert_eq!(stat.to_bytes()[0..2], [0, 3]);
}

#[test]
fn jobs_go_to_the_least_loaded_worker() {
    assert_eq!(least_loaded(&vec![]), 0);
    assert_eq!(least_loaded(&vec![3]), 0);
    assert_eq!(least_loaded(&vec![3, 1, 2, 1]), 1);
    assert_eq!(least_loaded(&vec![0, 0]), 0);
}

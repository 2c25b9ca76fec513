use broker::net::server::Server;
use bytes::BytesMut;

/// A request in its wire form:
/// [1 byte command][16 bytes client_id][8 bytes payload_size][64 bytes queue_name][payload]
fn encode_request(command: u8, client_id: u128, queue_name: &str, payload: &[u8]) -> Vec<u8> {
    let mut buf = Vec::with_capacity(89 + payload.len());
    buf.push(command);
    buf.extend_from_slice(&client_id.to_be_bytes());
    buf.extend_from_slice(&(payload.len() as u64).to_be_bytes());
    let mut field = [0u8; 64];
    let name = queue_name.as_bytes();
    let len = name.len().min(64);
    field[..len].copy_from_slice(&name[..len]);
    buf.extend_from_slice(&field);
    buf.extend_from_slice(payload);
    buf
}

/// A connection to a broker: what arrives is handled at once.
struct Client {
    buffer: BytesMut,
    closed: bool,
}

impl Client {
    fn connect() -> Self {
        Client { buffer: BytesMut::with_capacity(4096), closed: false }
    }

    /// Sends bytes and gives the answers, in order.
    fn send(&mut self, server: &mut Server, bytes: &[u8]) -> Vec<Vec<u8>> {
        self.buffer.extend_from_slice(bytes);
        let (outcomes, closed) = server.serve(&mut self.buffer);
        self.closed = closed;
        outcomes.iter().map(|outcome| outcome.response.to_u8()).collect()
    }

    /// Sends one request and gives its answer.
    fn ask(&mut self, server: &mut Server, command: u8, id: u128, name: &str, payload: &[u8]) -> Vec<u8> {
        let mut answers = self.send(server, &encode_request(command, id, name, payload));
        assert_eq!(answers.len(), 1, "one answer expected");
        assert!(!self.closed, "the connection stays open");
        let answer = answers.remove(0);
        let size = u64::from_be_bytes(answer[1..9].try_into().unwrap()) as usize;
        assert_eq!(answer.len(), 9 + size, "the size announced is that of the payload");
        answer
    }
}

#[test]
fn server_create_queue_responds_success() {
    let mut server = Server::new();
    let mut client = Client::connect();
    let response = client.ask(&mut server, 3, 1, "myqueue", &[]);
    assert_eq!(response[0], 1, "CreateQ: expected Succeeded (1)");
}

#[test]
fn server_create_queue_duplicate_responds_failure() {
    let mut server = Server::new();
    let mut client = Client::connect();
    let response = client.ask(&mut server, 3, 1, "myqueue", &[]);
    assert_eq!(response[0], 1, "first CreateQ: expected Succeeded");
    let response = client.ask(&mut server, 3, 1, "myqueue", &[]);
    assert_eq!(response[0], 2, "duplicate CreateQ: expected Failed");
    assert_eq!(response[9..], 102u16.to_be_bytes());
}

#[test]
fn server_enqueue_responds_success() {
    let mut server = Server::new();
    let mut client = Client::connect();
    let response = client.ask(&mut server, 3, 1, "myqueue", &[]);
    assert_eq!(response[0], 1, "CreateQ: expected Succeeded");
    let response = client.ask(&mut server, 1, 1, "myqueue", b"hello world");
    assert_eq!(response[0], 1, "Enqueue: expected Succeeded");
}

#[test]
fn server_dequeue_empty_responds_failure() {
    let mut server = Server::new();
    let mut client = Client::connect();
    let response = client.ask(&mut server, 3, 1, "myqueue", &[]);
    assert_eq!(response[0], 1, "CreateQ: expected Succeeded");
    let response = client.ask(&mut server, 2, 1, "myqueue", &[]);
    assert_eq!(response[0], 2, "Dequeue empty: expected Failed");
    assert_eq!(response[9..], 104u16.to_be_bytes());
}

#[test]
fn server_enqueue_then_dequeue_returns_message() {
    let mut server = Server::new();
    let mut client = Client::connect();
    let payload = b"hello world";
    let response = client.ask(&mut server, 3, 1, "myqueue", &[]);
    assert_eq!(response[0], 1, "CreateQ: expected Succeeded");
    let response = client.ask(&mut server, 1, 1, "myqueue", payload);
    assert_eq!(response[0], 1, "Enqueue: expected Succeeded");
    let response = client.ask(&mut server, 2, 1, "myqueue", &[]);
    assert_eq!(response[0], 1, "Dequeue: expected Succeeded");
    // In front of the payload: [16 id][16 publisher_id][8 timestamp][16 locked_by] = 56 bytes
    assert_eq!(&response[9 + 56..], payload, "Dequeue: payload mismatch");
    assert_eq!(response[9..25], 1u128.to_be_bytes());
    assert_eq!(response[25..41], 1u128.to_be_bytes());
    assert!(u64::from_be_bytes(response[41..49].try_into().unwrap()) > 1_600_000_000_000);
    assert_eq!(response[49..65], 1u128.to_be_bytes());
}

#[test]
fn server_accepts_multiple_clients() {
    let mut server = Server::new();
    let response = Client::connect().ask(&mut server, 3, 0, "shared", &[]);
    assert_eq!(response[0], 1, "CreateQ: expected Succeeded");
    for i in 1..=3u128 {
        let mut client = Client::connect();
        let payload = vec![i as u8; 4];
        let response = client.ask(&mut server, 1, i, "shared", &payload);
        assert_eq!(response[0], 1, "client {i}: Enqueue expected Succeeded");
    }
}

#[test]
fn server_delete_queue_responds_success() {
    let mut server = Server::new();
    let mut client = Client::connect();
    let response = client.ask(&mut server, 3, 1, "delq", &[]);
    assert_eq!(response[0], 1, "CreateQ: expected Succeeded");
    let response = client.ask(&mut server, 4, 1, "delq", &[]);
    assert_eq!(response[0], 1, "DeleteQ: expected Succeeded");
}

#[test]
fn server_delete_queue_nonexistent_responds_failure() {
    let mut server = Server::new();
    let mut client = Client::connect();
    let response = client.ask(&mut server, 4, 1, "noqueue", &[]);
    assert_eq!(response[0], 2, "DeleteQ nonexistent: expected Failed");
    assert_eq!(response[9..], 103u16.to_be_bytes());
}

#[test]
fn server_list_messages_returns_metadata() {
    let mut server = Server::new();
    let mut client = Client::connect();
    let response = client.ask(&mut server, 3, 1, "listq", &[]);
    assert_eq!(response[0], 1, "CreateQ: expected Succeeded");
    let response = client.ask(&mut server, 1, 1, "listq", b"msg1");
    assert_eq!(response[0], 1, "Enqueue 1: expected Succeeded");
    let response = client.ask(&mut server, 1, 1, "listq", b"msg2");
    assert_eq!(response[0], 1, "Enqueue 2: expected Succeeded");
    let response = client.ask(&mut server, 5, 1, "listq", &[]);
    assert_eq!(response[0], 1, "ListM: expected Succeeded");
    let payload = &response[9..];
    assert_eq!(payload.len() % 56, 0, "ListM payload should be multiple of 56 bytes");
    assert_eq!(payload.len() / 56, 2, "ListM should return 2 entries");
    let mut ids = vec![
        u128::from_be_bytes(payload[0..16].try_into().unwrap()),
        u128::from_be_bytes(payload[56..72].try_into().unwrap()),
    ];
    ids.sort();
    assert_eq!(ids, vec![1, 2]);
    assert_eq!(payload[40..56], u128::MAX.to_be_bytes());
}

#[test]
fn server_succeeded_acks_message() {
    let mut server = Server::new();
    let mut client = Client::connect();
    let response = client.ask(&mut server, 3, 1, "ackq", &[]);
    assert_eq!(response[0], 1, "CreateQ: expected Succeeded");
    let response = client.ask(&mut server, 1, 1, "ackq", b"hello");
    assert_eq!(response[0], 1, "Enqueue: expected Succeeded");
    let response = client.ask(&mut server, 2, 1, "ackq", &[]);
    assert_eq!(response[0], 1, "Dequeue: expected Succeeded");
    let response = client.ask(&mut server, 7, 1, "ackq", &[]);
    assert_eq!(response[0], 1, "Succeeded: expected Succeeded");
    let response = client.ask(&mut server, 2, 1, "ackq", &[]);
    assert_eq!(response[0], 2, "Dequeue after ack: expected Failed (empty)");
}

#[test]
fn server_failed_nacks_and_unlocks_message() {
    let mut server = Server::new();
    let mut client = Client::connect();
    let response = client.ask(&mut server, 3, 1, "nackq", &[]);
    assert_eq!(response[0], 1, "CreateQ: expected Succeeded");
    let response = client.ask(&mut server, 1, 1, "nackq", b"retry me");
    assert_eq!(response[0], 1, "Enqueue: expected Succeeded");
    let response = client.ask(&mut server, 2, 1, "nackq", &[]);
    assert_eq!(response[0], 1, "Dequeue: expected Succeeded");
    let response = client.ask(&mut server, 8, 1, "nackq", &[]);
    assert_eq!(response[0], 1, "Failed: expected Succeeded");
    let response = client.ask(&mut server, 2, 1, "nackq", &[]);
    assert_eq!(response[0], 1, "Dequeue after nack: expected Succeeded");
    assert_eq!(&response[9 + 56..], b"retry me", "payload should match original");
}

#[test]
fn server_delete_message_by_id() {
    let mut server = Server::new();
    let mut client = Client::connect();
    let response = client.ask(&mut server, 3, 1, "delmq", &[]);
    assert_eq!(response[0], 1, "CreateQ: expected Succeeded");
    let response = client.ask(&mut server, 1, 1, "delmq", b"to delete");
    assert_eq!(response[0], 1, "Enqueue: expected Succeeded");
    let response = client.ask(&mut server, 2, 1, "delmq", &[]);
    assert_eq!(response[0], 1, "Dequeue: expected Succeeded");
    let message_id = response[9..9 + 16].to_vec();
    let response = client.ask(&mut server, 6, 1, "delmq", &message_id);
    assert_eq!(response[0], 1, "DeleteM: expected Succeeded");
    let response = client.ask(&mut server, 2, 1, "delmq", &[]);
    assert_eq!(response[0], 2, "Dequeue after delete: expected Failed (empty)");
}

#[test]
fn server_requeue_moves_message_to_end() {
    let mut server = Server::new();
    let mut client = Client::connect();
    let response = client.ask(&mut server, 3, 1, "reqq", &[]);
    assert_eq!(response[0], 1, "CreateQ: expected Succeeded");
    let response = client.ask(&mut server, 1, 1, "reqq", b"first");
    assert_eq!(response[0], 1, "Enqueue 1: expected Succeeded");
    let response = client.ask(&mut server, 1, 1, "reqq", b"second");
    assert_eq!(response[0], 1, "Enqueue 2: expected Succeeded");
    let response = client.ask(&mut server, 2, 1, "reqq", &[]);
    assert_eq!(response[0], 1, "Dequeue: expected Succeeded");
    let first_msg_id = response[9..9 + 16].to_vec();
    let response = client.ask(&mut server, 9, 1, "reqq", &first_msg_id);
    assert_eq!(response[0], 1, "Requeue: expected Succeeded");
    let response = client.ask(&mut server, 2, 1, "reqq", &[]);
    assert_eq!(response[0], 1, "Dequeue after requeue: expected Succeeded");
    assert_eq!(&response[9 + 56..], b"second", "should get 'second' next");
    let response = client.ask(&mut server, 2, 1, "reqq", &[]);
    assert_eq!(&response[9 + 56..], b"first", "the requeued message comes last");
}

#[test]
fn server_update_message_changes_payload() {
    let mut server = Server::new();
    let mut client = Client::connect();
    let response = client.ask(&mut server, 3, 1, "updq", &[]);
    assert_eq!(response[0], 1, "CreateQ: expected Succeeded");
    let response = client.ask(&mut server, 1, 1, "updq", b"original");
    assert_eq!(response[0], 1, "Enqueue: expected Succeeded");
    let response = client.ask(&mut server, 2, 1, "updq", &[]);
    assert_eq!(response[0], 1, "Dequeue: expected Succeeded");
    let mut update_payload = response[9..9 + 16].to_vec();
    update_payload.extend_from_slice(b"updated");
    let response = client.ask(&mut server, 10, 1, "updq", &update_payload);
    assert_eq!(response[0], 1, "UpdateM: expected Succeeded");
    let response = client.ask(&mut server, 8, 1, "updq", &[]);
    assert_eq!(response[0], 1, "Failed (nack/unlock): expected Succeeded");
    let response = client.ask(&mut server, 2, 1, "updq", &[]);
    assert_eq!(response[0], 1, "Dequeue after update: expected Succeeded");
    assert_eq!(&response[9 + 56..], b"updated", "payload should be updated");
}

#[test]
fn server_update_message_too_short_payload_fails() {
    let mut server = Server::new();
    let mut client = Client::connect();
    let response = client.ask(&mut server, 3, 1, "updq2", &[]);
    assert_eq!(response[0], 1, "CreateQ: expected Succeeded");
    let response = client.ask(&mut server, 10, 1, "updq2", b"short");
    assert_eq!(response[0], 2, "UpdateM too short: expected Failed");
    assert_eq!(response[9..], 200u16.to_be_bytes());
}

#[test]
fn server_update_queue_nonexistent_responds_failure() {
    let mut server = Server::new();
    let mut client = Client::connect();
    let response = client.ask(&mut server, 11, 1, "noqueue", &[0]);
    assert_eq!(response[0], 2);
    assert_eq!(response[9..], 100u16.to_be_bytes());
}

#[test]
fn server_update_queue_valid_config_responds_success() {
    let mut server = Server::new();
    let mut client = Client::connect();
    client.ask(&mut server, 3, 1, "cfgq", &[]);
    let response = client.ask(&mut server, 11, 1, "cfgq", &[0b11, 1, 0, 0, 0, 0, 0, 0, 0, 5]);
    assert_eq!(response[0], 1);
    let queue = server.get_queue(&String::from("cfgq")).unwrap();
    assert!(queue.get_config_auto_fail());
    assert_eq!(queue.get_config_fail_timeout(), 5);
}

#[test]
fn server_update_queue_empty_payload_responds_failure() {
    let mut server = Server::new();
    let mut client = Client::connect();
    client.ask(&mut server, 3, 1, "cfgq", &[]);
    let response = client.ask(&mut server, 11, 1, "cfgq", &[]);
    assert_eq!(response[0], 2);
    assert_eq!(response[9..], 300u16.to_be_bytes());
    let response = client.ask(&mut server, 11, 1, "cfgq", &[0b01]);
    assert_eq!(response[9..], 302u16.to_be_bytes());
    let response = client.ask(&mut server, 11, 1, "cfgq", &[0b10, 0, 0]);
    assert_eq!(response[9..], 303u16.to_be_bytes());
}

#[test]
fn server_delete_other_message_preserves_held_lock() {
    let mut server = Server::new();
    let mut client = Client::connect();
    client.ask(&mut server, 3, 1, "q", &[]);
    client.ask(&mut server, 1, 1, "q", b"one");
    client.ask(&mut server, 1, 1, "q", b"two");
    let response = client.ask(&mut server, 2, 1, "q", &[]);
    assert_eq!(&response[65..], b"one");
    let response = client.ask(&mut server, 6, 1, "q", &2u128.to_be_bytes());
    assert_eq!(response[0], 1);
    let queue = server.get_queue(&String::from("q")).unwrap();
    assert!(queue.is_locked(1, 1));
    assert_eq!(queue.get_total_messages().unwrap(), 1);
    let response = client.ask(&mut server, 7, 1, "q", &[]);
    assert_eq!(response[0], 1);
    let queue = server.get_queue(&String::from("q")).unwrap();
    assert_eq!(queue.get_total_messages().unwrap(), 0);
}

#[test]
fn server_missing_queue_is_refused_by_every_command() {
    let mut server = Server::new();
    let mut client = Client::connect();
    let id = 1u128.to_be_bytes();
    for (command, payload) in [
        (1u8, &b"x"[..]),
        (2, &[]),
        (5, &[]),
        (6, &id[..]),
        (7, &[]),
        (8, &[]),
        (9, &id[..]),
        (10, &id[..]),
        (11, &[0]),
    ] {
        let response = client.ask(&mut server, command, 1, "nowhere", payload);
        assert_eq!(response[0], 2, "command {command}");
        assert_eq!(response[9..], 100u16.to_be_bytes(), "command {command}");
    }
}

#[test]
fn server_short_ids_are_refused_after_the_queue_was_found() {
    let mut server = Server::new();
    let mut client = Client::connect();
    assert_eq!(client.ask(&mut server, 6, 1, "q", b"short")[9..], 100u16.to_be_bytes());
    client.ask(&mut server, 3, 1, "q", &[]);
    assert_eq!(client.ask(&mut server, 6, 1, "q", b"short")[9..], 200u16.to_be_bytes());
    assert_eq!(client.ask(&mut server, 9, 1, "q", b"short")[9..], 200u16.to_be_bytes());
}

#[test]
fn server_ids_may_be_followed_by_more_bytes() {
    let mut server = Server::new();
    let mut client = Client::connect();
    client.ask(&mut server, 3, 1, "q", &[]);
    client.ask(&mut server, 1, 1, "q", b"one");
    let mut payload = 1u128.to_be_bytes().to_vec();
    payload.extend_from_slice(b"trailing");
    assert_eq!(client.ask(&mut server, 9, 1, "q", &payload)[0], 1);
    let mut payload = 2u128.to_be_bytes().to_vec();
    payload.push(7);
    assert_eq!(client.ask(&mut server, 6, 1, "q", &payload)[0], 1);
}

#[test]
fn server_unknown_command_is_answered_and_ends_the_connection() {
    let mut server = Server::new();
    let mut client = Client::connect();
    let mut bytes = encode_request(3, 1, "q", &[]);
    bytes.extend_from_slice(&encode_request(99, 1, "q", &[]));
    let answers = client.send(&mut server, &bytes);
    assert_eq!(answers.len(), 2);
    assert_eq!(answers[0][0], 1);
    assert_eq!(answers[1], vec![2, 0, 0, 0, 0, 0, 0, 0, 2, 0, 0]);
    assert!(client.closed);
}

#[test]
fn server_lock_on_a_deleted_message_is_gone() {
    let mut server = Server::new();
    let mut client = Client::connect();
    client.ask(&mut server, 3, 1, "q", &[]);
    client.ask(&mut server, 1, 1, "q", b"one");
    client.ask(&mut server, 1, 1, "q", b"two");
    client.ask(&mut server, 2, 1, "q", &[]);
    // Another client deletes the message that client 1 holds.
    assert_eq!(client.ask(&mut server, 6, 2, "q", &1u128.to_be_bytes())[0], 1);
    let response = client.ask(&mut server, 7, 1, "q", &[]);
    assert_eq!(response[9..], 203u16.to_be_bytes());
    let response = client.ask(&mut server, 7, 9, "q", &[]);
    assert_eq!(response[9..], 204u16.to_be_bytes());
    assert_eq!(&client.ask(&mut server, 2, 1, "q", &[])[65..], b"two");
}

#[test]
fn server_delete_of_an_unknown_id_removes_nothing() {
    let mut server = Server::new();
    let mut client = Client::connect();
    client.ask(&mut server, 3, 1, "q", &[]);
    client.ask(&mut server, 1, 1, "q", b"one");
    client.ask(&mut server, 2, 1, "q", &[]);
    let response = client.ask(&mut server, 6, 1, "q", &99u128.to_be_bytes());
    assert_eq!(response[9..], 201u16.to_be_bytes());
    let queue = server.get_queue(&String::from("q")).unwrap();
    assert_eq!(queue.get_total_messages(), Ok(1));
    assert!(queue.is_locked(1, 1));
}

#[test]
fn server_deleted_queue_starts_anew() {
    let mut server = Server::new();
    let mut client = Client::connect();
    client.ask(&mut server, 3, 1, "a", &[]);
    client.ask(&mut server, 3, 1, "b", &[]);
    client.ask(&mut server, 1, 1, "a", b"old");
    client.ask(&mut server, 1, 1, "b", b"kept");
    assert_eq!(client.ask(&mut server, 4, 1, "a", &[])[0], 1);
    assert_eq!(client.ask(&mut server, 2, 1, "a", &[])[9..], 100u16.to_be_bytes());
    assert_eq!(client.ask(&mut server, 3, 1, "a", &[])[0], 1);
    assert_eq!(client.ask(&mut server, 2, 1, "a", &[])[9..], 104u16.to_be_bytes());
    assert_eq!(&client.ask(&mut server, 2, 1, "b", &[])[65..], b"kept");
}

#[test]
fn server_timer_gives_the_message_back() {
    let mut server = Server::new();
    let mut client = Client::connect();
    client.ask(&mut server, 3, 1, "q", &[]);
    client.ask(&mut server, 11, 1, "q", &[0b11, 1, 0, 0, 0, 0, 0, 0, 1, 0]);
    client.ask(&mut server, 1, 1, "q", b"one");
    client.ask(&mut server, 1, 1, "q", b"two");
    let first = server.lock_and_dequeue_message(&String::from("q"), 5);
    let timer = first.timer.unwrap();
    assert_eq!(timer.timeout, 256);
    assert_eq!((timer.client_id, timer.message_id), (5, 1));
    let second = server.lock_and_dequeue_message(&String::from("q"), 5);
    assert_eq!(second.timer.unwrap().message_id, 2);
    // The second message is given back, though the client holds another one longer.
    server.expire(&second.timer.unwrap());
    let queue = server.get_queue(&String::from("q")).unwrap();
    assert!(queue.is_locked(5, 1));
    assert!(!queue.is_locked(5, 2));
    assert_eq!(&client.ask(&mut server, 2, 6, "q", &[])[65..], b"two");
    // The first one is acknowledged in time.
    assert_eq!(client.ask(&mut server, 7, 5, "q", &[])[0], 1);
    server.expire(&timer);
    assert_eq!(client.ask(&mut server, 2, 6, "q", &[])[9..], 104u16.to_be_bytes());
}

#[test]
fn server_late_timer_spares_later_messages() {
    let mut server = Server::new();
    let mut client = Client::connect();
    client.ask(&mut server, 3, 1, "q", &[]);
    client.ask(&mut server, 11, 1, "q", &[0b11, 1, 0, 0, 0, 0, 0, 0, 1, 0]);
    client.ask(&mut server, 1, 1, "q", b"one");
    let timer = server.lock_and_dequeue_message(&String::from("q"), 5).timer.unwrap();
    client.ask(&mut server, 7, 5, "q", &[]);
    client.ask(&mut server, 1, 1, "q", b"two");
    assert_eq!(&client.ask(&mut server, 2, 5, "q", &[])[65..], b"two");
    server.expire(&timer);
    assert_eq!(client.ask(&mut server, 2, 6, "q", &[])[9..], 104u16.to_be_bytes());
}

#[test]
fn server_without_timeout_sets_no_timer() {
    let mut server = Server::new();
    let mut client = Client::connect();
    client.ask(&mut server, 3, 1, "q", &[]);
    client.ask(&mut server, 1, 1, "q", b"one");
    client.ask(&mut server, 1, 1, "q", b"two");
    assert!(server.lock_and_dequeue_message(&String::from("q"), 5).timer.is_none());
    client.ask(&mut server, 11, 1, "q", &[0b01, 1]);
    assert!(server.lock_and_dequeue_message(&String::from("q"), 5).timer.is_none());
}

#[test]
fn server_registered_queues_are_there_from_the_start() {
    let mut server = Server::new();
    server.register_queue(String::from("orders"), 7);
    server.register_queue(String::from("orders"), 8);
    let mut client = Client::connect();
    assert_eq!(client.ask(&mut server, 3, 1, "orders", &[])[9..], 102u16.to_be_bytes());
    assert_eq!(client.ask(&mut server, 1, 1, "orders", b"x")[0], 1);
    assert_eq!(client.ask(&mut server, 4, 1, "orders", &[])[0], 1);
    assert_eq!(client.ask(&mut server, 1, 1, "orders", b"x")[9..], 100u16.to_be_bytes());
}

#[test]
fn server_configured_queues_can_be_used() {
    let mut server = Server::new();
    server.register_queues(&vec![String::from("a"), String::from("b"), String::from("a")]);
    let mut client = Client::connect();
    assert_eq!(client.ask(&mut server, 1, 1, "a", b"for a")[0], 1);
    assert_eq!(client.ask(&mut server, 2, 1, "b", &[])[9..], 104u16.to_be_bytes());
    assert_eq!(&client.ask(&mut server, 2, 1, "a", &[])[65..], b"for a");
    assert_eq!(client.ask(&mut server, 3, 1, "b", &[])[9..], 102u16.to_be_bytes());
}

#[test]
fn server_queue_filed_away_is_not_found() {
    let mut server = Server::new();
    server.register_queue(String::from("a"), 7);
    server.register_queue(String::from("b"), 7);
    let mut client = Client::connect();
    assert_eq!(client.ask(&mut server, 4, 1, "a", &[])[0], 1);
    assert_eq!(client.ask(&mut server, 2, 1, "b", &[])[9..], 101u16.to_be_bytes());
}

#[test]
fn server_refused_request_changes_nothing() {
    let mut server = Server::new();
    let mut client = Client::connect();
    client.ask(&mut server, 3, 1, "q", &[]);
    client.ask(&mut server, 1, 1, "q", b"one");
    assert_eq!(client.ask(&mut server, 9, 1, "q", &9u128.to_be_bytes())[9..], 205u16.to_be_bytes());
    assert_eq!(client.ask(&mut server, 10, 1, "q", &9u128.to_be_bytes())[9..], 205u16.to_be_bytes());
    assert_eq!(client.ask(&mut server, 8, 1, "q", &[])[9..], 204u16.to_be_bytes());
    assert_eq!(client.ask(&mut server, 7, 1, "q", &[])[9..], 204u16.to_be_bytes());
    assert_eq!(&client.ask(&mut server, 2, 1, "q", &[])[65..], b"one");
}

#[test]
fn server_new_queues_get_different_hashes() {
    let mut server = Server::new();
    let mut client = Client::connect();
    client.ask(&mut server, 3, 1, "a", &[]);
    client.ask(&mut server, 3, 1, "b", &[]);
    client.ask(&mut server, 1, 1, "a", b"for a");
    assert_eq!(client.ask(&mut server, 2, 1, "b", &[])[0], 2);
    assert_eq!(&client.ask(&mut server, 2, 1, "a", &[])[65..], b"for a");
}

#[test]
fn server_net_stats_responds_success() {
    let mut server = Server::new();
    let mut client = Client::connect();
    client.ask(&mut server, 3, 1, "statq", &[]);
    client.ask(&mut server, 1, 1, "statq", b"payload");
    let answer = server.net_stats().to_u8();
    assert_eq!(answer[0], 1);
    let payload = &answer[9..];
    assert_eq!(u32::from_be_bytes(payload[0..4].try_into().unwrap()), 1, "count");
    let entry_len = u32::from_be_bytes(payload[4..8].try_into().unwrap()) as usize;
    let entry = &payload[8..8 + entry_len];
    assert_eq!(payload.len(), 8 + entry_len);
    let name_len = u16::from_be_bytes(entry[0..2].try_into().unwrap()) as usize;
    assert_eq!(&entry[2..2 + name_len], b"statq");
    let word = usize::BITS as usize / 8;
    let read = |i: usize| {
        let at = 2 + name_len + i * word;
        usize::from_be_bytes(entry[at..at + word].try_into().unwrap())
    };
    assert_eq!(read(0), 1, "total_messages");
    assert!(read(1) >= 16 + 20 + 7 + 56, "total_bytes");
    assert_eq!(read(2), 0, "total_messages_locked");
    assert_eq!(read(3), 0, "total_bytes_locked");
}

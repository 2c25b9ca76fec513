use broker::net::server::Server;
use bytes::BytesMut;
use std::collections::HashSet;

/// A request in its wire form:
/// [1 byte command][16 bytes client_id][8 bytes payload_size][64 bytes queue_name][payload]
fn encode_request(command: u8, client_id: u128, queue_name: &str, payload: &[u8]) -> Vec<u8> {
    let mut buf = Vec::with_capacity(89 + payload.len());
    buf.push(command);
    buf.extend_from_slice(&client_id.to_be_bytes());
    buf.extend_from_slice(&(payload.len() as u64).to_be_bytes());
    let mut field = [0u8; 64];
    let name = queue_name.as_bytes();
    let len = name.len().min(64);
    field[..len].copy_from_slice(&name[..len]);
    buf.extend_from_slice(&field);
    buf.extend_from_slice(payload);
    buf
}

/// A connection to a broker: what arrives is handled at once.
struct Client {
    buffer: BytesMut,
    closed: bool,
}

impl Client {
    fn connect() -> Self {
        Client { buffer: BytesMut::with_capacity(4096), closed: false }
    }

    /// Sends bytes and gives the answers, in order.
    fn send(&mut self, server: &mut Server, bytes: &[u8]) -> Vec<Vec<u8>> {
        self.buffer.extend_from_slice(bytes);
        let (outcomes, closed) = server.serve(&mut self.buffer);
        self.closed = closed;
        outcomes.iter().map(|outcome| outcome.response.to_u8()).collect()
    }

    /// Sends one request and gives its answer.
    fn ask(&mut self, server: &mut Server, command: u8, id: u128, name: &str, payload: &[u8]) -> Vec<u8> {
        let mut answers = self.send(server, &encode_request(command, id, name, payload));
        assert_eq!(answers.len(), 1, "one answer expected");
        assert!(!self.closed, "the connection stays open");
        let answer = answers.remove(0);
        let size = u64::from_be_bytes(answer[1..9].try_into().unwrap()) as usize;
        assert_eq!(answer.len(), 9 + size, "the size announced is that of the payload");
        answer
    }
}

fn create_queue(client: &mut Client, server: &mut Server, client_id: u128, name: &str) {
    let response = client.ask(server, 3, client_id, name, &[]);
    assert_eq!(response[0], 1, "CreateQ({name}): expected Succeeded");
}

#[test]
fn pipelined_producer_does_not_stall() {
    let mut server = Server::new();
    let mut client = Client::connect();
    create_queue(&mut client, &mut server, 1, "pipeq");
    let mut batch = Vec::new();
    for _ in 0..1000 {
        batch.extend_from_slice(&encode_request(1, 1, "pipeq", b"pipelined-payload"));
    }
    let answers = client.send(&mut server, &batch);
    assert_eq!(answers.len(), 1000);
    for (i, answer) in answers.iter().enumerate() {
        assert_eq!(answer[0], 1, "pipelined enqueue #{i}: expected Succeeded");
    }
}

#[test]
fn requests_may_arrive_byte_by_byte() {
    let mut server = Server::new();
    let mut client = Client::connect();
    let mut bytes = encode_request(3, 1, "q", &[]);
    bytes.extend_from_slice(&encode_request(1, 1, "q", b"slow"));
    let mut answers = Vec::new();
    for byte in bytes.iter() {
        answers.append(&mut client.send(&mut server, &[*byte]));
    }
    assert_eq!(answers.len(), 2);
    assert_eq!(&client.ask(&mut server, 2, 1, "q", &[])[65..], b"slow");
}

#[test]
fn n_producers_m_consumers_each_message_delivered_once() {
    let mut server = Server::new();
    create_queue(&mut Client::connect(), &mut server, 0, "fanq");
    let mut producers: Vec<(Client, u64)> = (0..4).map(|_| (Client::connect(), 0)).collect();
    let mut consumers: Vec<(Client, bool)> = (0..4).map(|_| (Client::connect(), false)).collect();
    let mut received: Vec<u64> = Vec::new();
    let mut empty_streak = 0;
    let mut most_held = 0;
    let mut seed: u64 = 7;
    // One of the eight acts at a time; consumers hold what they got until their next turn.
    while empty_streak < 200 {
        seed = seed.wrapping_mul(6364136223846793005).wrapping_add(1442695040888963407);
        let actor = (seed >> 33) as usize % 8;
        if actor < 4 {
            let (client, sent) = &mut producers[actor];
            if *sent < 500 {
                let tag: u64 = actor as u64 * 500 + *sent;
                let response =
                    client.ask(&mut server, 1, actor as u128 + 1, "fanq", &tag.to_be_bytes());
                assert_eq!(response[0], 1, "producer {actor} msg {sent}: expected Succeeded");
                *sent += 1;
                empty_streak = 0;
            }
            continue;
        }
        let c = actor - 4;
        let client_id = 1000 + c as u128;
        let (client, holds) = &mut consumers[c];
        if *holds {
            let response = client.ask(&mut server, 7, client_id, "fanq", &[]);
            assert_eq!(response[0], 1, "consumer {c}: Succeeded ack expected");
            *holds = false;
        } else {
            let response = client.ask(&mut server, 2, client_id, "fanq", &[]);
            if response[0] != 1 {
                empty_streak += 1;
                continue;
            }
            empty_streak = 0;
            assert_eq!(response.len(), 9 + 56 + 8, "consumer {c}: unexpected payload shape");
            received.push(u64::from_be_bytes(response[65..73].try_into().unwrap()));
            *holds = true;
        }
        most_held = most_held.max(consumers.iter().filter(|(_, holds)| *holds).count());
    }
    assert_eq!(most_held, 4, "locks overlap");
    assert_eq!(received.len(), 2000, "lost or extra messages");
    let got: HashSet<u64> = received.iter().copied().collect();
    let expected: HashSet<u64> = (0..2000).collect();
    assert_eq!(got.len(), 2000, "duplicate delivery");
    assert_eq!(got, expected, "payload set mismatch (lost or spurious payloads)");
    let queue = server.get_queue(&String::from("fanq")).unwrap();
    assert_eq!(queue.get_total_messages(), queue.get_total_messages_locked());
}

fn large_payload_roundtrip(size: usize, name: &str) {
    let mut server = Server::new();
    let mut client = Client::connect();
    create_queue(&mut client, &mut server, 1, name);
    let payload: Vec<u8> = (0..size).map(|i| (i % 251) as u8).collect();
    let response = client.ask(&mut server, 1, 1, name, &payload);
    assert_eq!(response[0], 1, "Enqueue: expected Succeeded");
    let response = client.ask(&mut server, 2, 1, name, &[]);
    assert_eq!(response[0], 1, "Dequeue: expected Succeeded");
    assert_eq!(response.len(), 9 + 56 + size, "dequeue response size mismatch");
    assert!(&response[65..] == payload.as_slice(), "payload byte mismatch on round-trip");
}

#[test]
fn large_payload_roundtrip_10mb() {
    large_payload_roundtrip(10 * 1024 * 1024, "bigq");
}

#[test]
fn large_payload_roundtrip_100mb() {
    large_payload_roundtrip(100 * 1024 * 1024, "hugeq");
}

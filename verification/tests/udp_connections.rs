use nimble::secure_random::SecureRandom;
use flood_rs::out_stream::OutOctetStream;
use nimble::udp_connections::{
    Client, ConnectResponse, ConnectionError, ConnectionId, HostToClientCommands, InChallengeCommand, Nonce,
    ServerChallenge,
};

pub struct FakeRandom {
    pub counter: u64,
}

impl SecureRandom for FakeRandom {
    fn random_u64(&mut self) -> Option<u64> {
        self.counter += 1;
        Some(self.counter)
    }
}

#[test]
fn simple_connection() {
    let random = FakeRandom { counter: 2 };

    let mut client = Client::new(random).expect("random source");

    let example = vec![0x18, 0x24, 0x32];

    let datagram_to_send = client
        .send_datagram(example.as_slice())
        .expect("TODO: panic message");

    let expected = vec![
        1, // Challenge command 0x01
        0, 0, 0, 0, 0, 0, 0, 3, // Nonce in network order.
        0x18, 0x24, 0x32,
    ];
    assert_eq!(datagram_to_send, expected, "upd-connections-was wrong")
}

#[test]
fn the_handshake_goes_from_challenge_to_connected() {
    let mut client = Client::new(FakeRandom { counter: 6 }).expect("random source");
    let nonce = Nonce(7);

    let mut wrong = OutOctetStream::new();
    HostToClientCommands::ChallengeType(InChallengeCommand {
        nonce: Nonce(8),
        incoming_server_challenge: ServerChallenge(0x55),
    })
    .to_stream(&mut wrong);
    assert_eq!(client.receive_datagram(wrong.octets_ref()), Err(ConnectionError::WrongNonce));

    let mut challenge = OutOctetStream::new();
    HostToClientCommands::ChallengeType(InChallengeCommand {
        nonce,
        incoming_server_challenge: ServerChallenge(0x55),
    })
    .to_stream(&mut challenge);
    assert_eq!(client.receive_datagram(challenge.octets_ref()), Ok(vec![]));

    let connect = client.send_datagram(&[0xaa]).expect("connecting");
    assert_eq!(
        connect,
        vec![2, 0, 0, 0, 0, 0, 0, 0, 7, 0, 0, 0, 0, 0, 0, 0, 0x55, 0xaa]
    );

    let mut accepted = OutOctetStream::new();
    HostToClientCommands::ConnectType(ConnectResponse {
        nonce,
        connection_id: ConnectionId(0x0102),
    })
    .to_stream(&mut accepted);
    assert_eq!(client.receive_datagram(accepted.octets_ref()), Ok(vec![]));

    let packet = client.send_datagram(&[0x10, 0x20]).expect("connected");
    assert_eq!(
        packet,
        vec![3, 0, 0, 0, 0, 0, 0, 1, 2, 0, 2, 0x10, 0x20, 0x10, 0x20]
    );
}

#[test]
fn an_acceptance_before_the_challenge_is_refused() {
    let mut client = Client::new(FakeRandom { counter: 0 }).expect("random source");
    let mut accepted = OutOctetStream::new();
    HostToClientCommands::ConnectType(ConnectResponse {
        nonce: Nonce(1),
        connection_id: ConnectionId(2),
    })
    .to_stream(&mut accepted);
    assert_eq!(
        client.receive_datagram(accepted.octets_ref()),
        Err(ConnectionError::NotApplicableInPhase)
    );
}

#[test]
fn a_client_with_a_given_nonce_sends_it_in_its_first_datagram() {
    let mut client = Client::with_nonce(FakeRandom { counter: 0 }, 0x0102030405060708);
    let datagram = client.send_datagram(&[0xAA]).expect("a challenge datagram");
    assert_eq!(datagram, vec![1, 1, 2, 3, 4, 5, 6, 7, 8, 0xAA]);
}

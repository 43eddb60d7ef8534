use nimble::ordered_datagram::DatagramId;
use nimble::participant::ParticipantId;
use nimble::protocol::{ClientRequestId, SessionConnectionSecret};
use nimble::udp_connections::{ClientPhase, ConnectionId, Nonce, ServerChallenge};

#[test]
fn identifiers_show_in_uppercase_hex() {
    assert_eq!(ClientRequestId(0xab).to_string(), "RequestId(AB)");
    assert_eq!(SessionConnectionSecret { value: 0x1f }.to_string(), "session_secret: 1F");
    assert_eq!(DatagramId(255).to_string(), "DatagramId(FF)");
    assert_eq!(Nonce(0).to_string(), "Nonce(0)");
    assert_eq!(ConnectionId(0x1234_5678_9abc_def0).to_string(), "ConnectionId(123456789ABCDEF0)");
    assert_eq!(ServerChallenge(10).to_string(), "ServerChallenge(A)");
}

#[test]
fn participant_shows_in_decimal() {
    assert_eq!(ParticipantId(42).to_string(), "participant:42");
}

#[test]
fn client_phases_show_their_values() {
    assert_eq!(
        ClientPhase::Challenge(Nonce(0x1f)).to_string(),
        "clientPhase: Challenge Phase with Nonce(1F)"
    );
    assert_eq!(
        ClientPhase::Connecting(Nonce(1), ServerChallenge(2)).to_string(),
        "clientPhase: Connecting Phase with Nonce(1) and ServerChallenge(2)"
    );
    assert_eq!(
        ClientPhase::Connected(ConnectionId(3)).to_string(),
        "clientPhase: Connected with ConnectionId(3)"
    );
}

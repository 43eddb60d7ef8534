//! The datagram connection handshake: a client proves its nonce to the host, answers
//! the host's challenge, and then sends its payloads stamped with the connection id
//! that the host assigned.
use vstd::prelude::*;
use vstd::slice::slice_to_vec;
use vstd::string::*;
use flood_rs::in_stream::InOctetStream;
use flood_rs::out_stream::OutOctetStream;
use crate::stream::{out_octets, in_remaining, be_u16, be_u64, parse_u8, parse_u16, parse_u64, parsed_from, write_u8, write_u16, write_u64, write_octets, read_u8_checked, read_u16_checked, read_u64_checked, new_out_stream, lemma_parse_u64_be, lemma_parse_u16_be, lemma_skip_prefix, new_in_stream, out_stream_octets, lemma_skip_skip, StreamError};
use crate::secure_random::SecureRandom;

verus! {

/// A client's random number, echoed by the host to tie replies to requests.
#[derive(Debug, Clone, Copy, PartialEq, Eq, Structural, Default)]
pub struct Nonce(pub u64);

/// The id the host assigned to a connection.
#[derive(Debug, Clone, Copy, PartialEq, Eq, Structural)]
pub struct ConnectionId(pub u64);

/// The host's challenge that the client must return when connecting.
#[derive(Debug, Clone, Copy, PartialEq, Eq, Structural)]
pub struct ServerChallenge(pub u64);

impl Nonce {
    /// The text `Nonce(`, the value in uppercase hex, and `)` (its `Display` form).
    pub fn to_string(&self) -> (s: String)
        ensures
            s@ == ("Nonce("@ + crate::decimal::hex_upper(self.0 as nat)).push(')'),
    {
        let mut s = crate::decimal::string_of("Nonce(");
        crate::decimal::push_hex_upper(&mut s, self.0 as u64);
        crate::decimal::push_char(&mut s, ')');
        s
    }
    pub fn new(value: u64) -> (n: Nonce)
        ensures
            n.0 == value,
    {
        Nonce(value)
    }

    pub open spec fn octets(self) -> Seq<u8> {
        be_u64(self.0)
    }

    pub open spec fn parse(data: Seq<u8>) -> Result<(Nonce, nat), StreamError> {
        match parse_u64(data) {
            Ok((v, n)) => Ok((Nonce(v), n)),
            Err(e) => Err(e),
        }
    }

    pub fn to_stream(&self, stream: &mut OutOctetStream)
        ensures
            out_octets(*final(stream)) == out_octets(*old(stream)) + self.octets(),
    {
        write_u64(stream, self.0);
    }

    pub fn from_stream(stream: &mut InOctetStream) -> (r: Result<Nonce, StreamError>)
        ensures
            parsed_from(Nonce::parse(in_remaining(*old(stream))), r, *old(stream), *final(stream)),
    {
        match read_u64_checked(stream) {
            Ok(v) => Ok(Nonce(v)),
            Err(e) => Err(e),
        }
    }
}

impl ConnectionId {
    /// The text `ConnectionId(`, the value in uppercase hex, and `)` (its `Display` form).
    pub fn to_string(&self) -> (s: String)
        ensures
            s@ == ("ConnectionId("@ + crate::decimal::hex_upper(self.0 as nat)).push(')'),
    {
        let mut s = crate::decimal::string_of("ConnectionId(");
        crate::decimal::push_hex_upper(&mut s, self.0 as u64);
        crate::decimal::push_char(&mut s, ')');
        s
    }
    pub fn new(value: u64) -> (c: ConnectionId)
        ensures
            c.0 == value,
    {
        ConnectionId(value)
    }

    pub open spec fn octets(self) -> Seq<u8> {
        be_u64(self.0)
    }

    pub open spec fn parse(data: Seq<u8>) -> Result<(ConnectionId, nat), StreamError> {
        match parse_u64(data) {
            Ok((v, n)) => Ok((ConnectionId(v), n)),
            Err(e) => Err(e),
        }
    }

    pub fn to_stream(&self, stream: &mut OutOctetStream)
        ensures
            out_octets(*final(stream)) == out_octets(*old(stream)) + self.octets(),
    {
        write_u64(stream, self.0);
    }

    pub fn from_stream(stream: &mut InOctetStream) -> (r: Result<ConnectionId, StreamError>)
        ensures
            parsed_from(
                ConnectionId::parse(in_remaining(*old(stream))),
                r,
                *old(stream),
                *final(stream),
            ),
    {
        match read_u64_checked(stream) {
            Ok(v) => Ok(ConnectionId(v)),
            Err(e) => Err(e),
        }
    }
}

impl ServerChallenge {
    /// The text `ServerChallenge(`, the value in uppercase hex, and `)` (its `Display` form).
    pub fn to_string(&self) -> (s: String)
        ensures
            s@ == ("ServerChallenge("@ + crate::decimal::hex_upper(self.0 as nat)).push(')'),
    {
        let mut s = crate::decimal::string_of("ServerChallenge(");
        crate::decimal::push_hex_upper(&mut s, self.0 as u64);
        crate::decimal::push_char(&mut s, ')');
        s
    }
    pub fn new(value: u64) -> (c: ServerChallenge)
        ensures
            c.0 == value,
    {
        ServerChallenge(value)
    }

    pub open spec fn octets(self) -> Seq<u8> {
        be_u64(self.0)
    }

    pub open spec fn parse(data: Seq<u8>) -> Result<(ServerChallenge, nat), StreamError> {
        match parse_u64(data) {
            Ok((v, n)) => Ok((ServerChallenge(v), n)),
            Err(e) => Err(e),
        }
    }

    pub fn to_stream(&self, stream: &mut OutOctetStream)
        ensures
            out_octets(*final(stream)) == out_octets(*old(stream)) + self.octets(),
    {
        write_u64(stream, self.0);
    }

    pub fn from_stream(stream: &mut InOctetStream) -> (r: Result<ServerChallenge, StreamError>)
        ensures
            parsed_from(
                ServerChallenge::parse(in_remaining(*old(stream))),
                r,
                *old(stream),
                *final(stream),
            ),
    {
        match read_u64_checked(stream) {
            Ok(v) => Ok(ServerChallenge(v)),
            Err(e) => Err(e),
        }
    }
}

/// The handshake's cypher of a public value with a secret one: their exclusive or.
pub fn extremely_unsecure_cypher(public_key: u64, secret_key: u64) -> (r: u64)
    ensures
        r == public_key ^ secret_key,
{
    public_key ^ secret_key
}

/// The header of a packet: the connection it belongs to and its payload size.
#[derive(Debug, PartialEq, Eq, Structural)]
pub struct PacketHeader {
    pub connection_id: ConnectionId,
    pub size: u16,
}

impl PacketHeader {
    pub open spec fn octets(self) -> Seq<u8> {
        self.connection_id.octets() + be_u16(self.size)
    }

    pub open spec fn parse(data: Seq<u8>) -> Result<(PacketHeader, nat), StreamError> {
        match ConnectionId::parse(data) {
            Err(e) => Err(e),
            Ok((connection_id, n1)) => match parse_u16(data.skip(n1 as int)) {
                Err(e) => Err(e),
                Ok((size, n2)) => Ok((PacketHeader { connection_id, size }, n1 + n2)),
            },
        }
    }

    pub fn to_stream(&self, stream: &mut OutOctetStream)
        ensures
            out_octets(*final(stream)) == out_octets(*old(stream)) + self.octets(),
    {
        self.connection_id.to_stream(stream);
        write_u16(stream, self.size);
        assert(out_octets(*stream) =~= out_octets(*old(stream)) + self.octets());
    }

    pub fn from_stream(stream: &mut InOctetStream) -> (r: Result<PacketHeader, StreamError>)
        ensures
            parsed_from(
                PacketHeader::parse(in_remaining(*old(stream))),
                r,
                *old(stream),
                *final(stream),
            ),
    {
        let ghost start = in_remaining(*stream);
        let connection_id = match ConnectionId::from_stream(stream) {
            Ok(c) => c,
            Err(e) => return Err(e),
        };
        let ghost n1 = 8nat;
        let size = match read_u16_checked(stream) {
            Ok(s) => s,
            Err(e) => return Err(e),
        };
        proof {
            lemma_skip_skip(start, 8, 2);
        }
        Ok(PacketHeader { connection_id, size })
    }
}

/// A payload sent by a connected client.
#[derive(Debug, PartialEq, Eq)]
pub struct ClientToHostPacket {
    pub header: PacketHeader,
    pub payload: Vec<u8>,
}

impl ClientToHostPacket {
    pub open spec fn octets(self) -> Seq<u8> {
        self.header.octets() + self.payload@
    }

    pub fn to_stream(&self, stream: &mut OutOctetStream)
        ensures
            out_octets(*final(stream)) == out_octets(*old(stream)) + self.octets(),
    {
        self.header.to_stream(stream);
        write_octets(stream, self.payload.as_slice());
        assert(out_octets(*stream) =~= out_octets(*old(stream)) + self.octets());
    }

    /// Reads the header and no payload octet: the payload comes back empty.
    pub fn from_stream(stream: &mut InOctetStream) -> (r: Result<ClientToHostPacket, StreamError>)
        ensures
            match PacketHeader::parse(in_remaining(*old(stream))) {
                Ok((header, n)) => (r matches Ok(p) && p.header == header && p.payload@.len() == 0)
                    && in_remaining(*final(stream)) == in_remaining(*old(stream)).skip(n as int),
                Err(e) => r == Err::<ClientToHostPacket, StreamError>(e),
            },
    {
        let header = match PacketHeader::from_stream(stream) {
            Ok(h) => h,
            Err(e) => return Err(e),
        };
        let target_buffer: Vec<u8> = Vec::new();
        Ok(ClientToHostPacket { header, payload: target_buffer })
    }
}

/// The header of a packet from the host.
#[derive(Debug, PartialEq, Eq, Structural)]
pub struct HostToClientPacketHeader(pub PacketHeader);

/// A client's request to connect: its nonce and the host's challenge.
#[derive(Debug, PartialEq, Eq, Structural, Clone, Copy)]
pub struct ConnectCommand {
    pub nonce: Nonce,
    pub server_challenge: ServerChallenge,
}

impl ConnectCommand {
    pub open spec fn octets(self) -> Seq<u8> {
        self.nonce.octets() + self.server_challenge.octets()
    }

    pub open spec fn parse(data: Seq<u8>) -> Result<(ConnectCommand, nat), StreamError> {
        match Nonce::parse(data) {
            Err(e) => Err(e),
            Ok((nonce, n1)) => match ServerChallenge::parse(data.skip(n1 as int)) {
                Err(e) => Err(e),
                Ok((server_challenge, n2)) => Ok((ConnectCommand { nonce, server_challenge }, n1 + n2)),
            },
        }
    }

    pub fn to_stream(&self, stream: &mut OutOctetStream)
        ensures
            out_octets(*final(stream)) == out_octets(*old(stream)) + self.octets(),
    {
        self.nonce.to_stream(stream);
        self.server_challenge.to_stream(stream);
        assert(out_octets(*stream) =~= out_octets(*old(stream)) + self.octets());
    }

    pub fn from_stream(stream: &mut InOctetStream) -> (r: Result<ConnectCommand, StreamError>)
        ensures
            parsed_from(
                ConnectCommand::parse(in_remaining(*old(stream))),
                r,
                *old(stream),
                *final(stream),
            ),
    {
        let ghost start = in_remaining(*stream);
        let nonce = match Nonce::from_stream(stream) {
            Ok(v) => v,
            Err(e) => return Err(e),
        };
        let server_challenge = match ServerChallenge::from_stream(stream) {
            Ok(v) => v,
            Err(e) => return Err(e),
        };
        proof {
            lemma_skip_skip(start, 8, 8);
        }
        Ok(ConnectCommand { nonce, server_challenge })
    }
}

/// The host's challenge reply: the client's nonce and the challenge to return.
#[derive(Debug, PartialEq, Eq, Structural, Clone, Copy)]
pub struct InChallengeCommand {
    pub nonce: Nonce,
    pub incoming_server_challenge: ServerChallenge,
}

impl InChallengeCommand {
    pub open spec fn octets(self) -> Seq<u8> {
        self.nonce.octets() + self.incoming_server_challenge.octets()
    }

    pub open spec fn parse(data: Seq<u8>) -> Result<(InChallengeCommand, nat), StreamError> {
        match Nonce::parse(data) {
            Err(e) => Err(e),
            Ok((nonce, n1)) => match ServerChallenge::parse(data.skip(n1 as int)) {
                Err(e) => Err(e),
                Ok((incoming_server_challenge, n2)) => Ok(
                    (InChallengeCommand { nonce, incoming_server_challenge }, n1 + n2),
                ),
            },
        }
    }

    pub fn to_stream(&self, stream: &mut OutOctetStream)
        ensures
            out_octets(*final(stream)) == out_octets(*old(stream)) + self.octets(),
    {
        self.nonce.to_stream(stream);
        self.incoming_server_challenge.to_stream(stream);
        assert(out_octets(*stream) =~= out_octets(*old(stream)) + self.octets());
    }

    pub fn from_stream(stream: &mut InOctetStream) -> (r: Result<InChallengeCommand, StreamError>)
        ensures
            parsed_from(
                InChallengeCommand::parse(in_remaining(*old(stream))),
                r,
                *old(stream),
                *final(stream),
            ),
    {
        let ghost start = in_remaining(*stream);
        let nonce = match Nonce::from_stream(stream) {
            Ok(v) => v,
            Err(e) => return Err(e),
        };
        let incoming_server_challenge = match ServerChallenge::from_stream(stream) {
            Ok(v) => v,
            Err(e) => return Err(e),
        };
        proof {
            lemma_skip_skip(start, 8, 8);
        }
        Ok(InChallengeCommand { nonce, incoming_server_challenge })
    }
}

/// A client's first request: its nonce.
#[derive(Debug, PartialEq, Eq, Structural, Clone, Copy)]
pub struct ClientToHostChallengeCommand {
    pub nonce: Nonce,
}

impl ClientToHostChallengeCommand {
    pub open spec fn octets(self) -> Seq<u8> {
        self.nonce.octets()
    }

    pub open spec fn parse(data: Seq<u8>) -> Result<(ClientToHostChallengeCommand, nat), StreamError> {
        match Nonce::parse(data) {
            Err(e) => Err(e),
            Ok((nonce, n)) => Ok((ClientToHostChallengeCommand { nonce }, n)),
        }
    }

    pub fn to_stream(&self, stream: &mut OutOctetStream)
        ensures
            out_octets(*final(stream)) == out_octets(*old(stream)) + self.octets(),
    {
        self.nonce.to_stream(stream);
    }

    pub fn from_stream(stream: &mut InOctetStream) -> (r: Result<ClientToHostChallengeCommand, StreamError>)
        ensures
            parsed_from(
                ClientToHostChallengeCommand::parse(in_remaining(*old(stream))),
                r,
                *old(stream),
                *final(stream),
            ),
    {
        match Nonce::from_stream(stream) {
            Ok(nonce) => Ok(ClientToHostChallengeCommand { nonce }),
            Err(e) => Err(e),
        }
    }
}

/// The host's reply to a challenge request (the nonce it answers).
#[derive(Debug, PartialEq, Eq, Structural, Clone, Copy)]
pub struct ChallengeResponse {
    pub nonce: Nonce,
}

impl ChallengeResponse {
    pub open spec fn octets(self) -> Seq<u8> {
        self.nonce.octets()
    }

    pub open spec fn parse(data: Seq<u8>) -> Result<(ChallengeResponse, nat), StreamError> {
        match Nonce::parse(data) {
            Err(e) => Err(e),
            Ok((nonce, n)) => Ok((ChallengeResponse { nonce }, n)),
        }
    }

    pub fn to_stream(&self, stream: &mut OutOctetStream)
        ensures
            out_octets(*final(stream)) == out_octets(*old(stream)) + self.octets(),
    {
        self.nonce.to_stream(stream);
    }

    pub fn from_stream(stream: &mut InOctetStream) -> (r: Result<ChallengeResponse, StreamError>)
        ensures
            parsed_from(
                ChallengeResponse::parse(in_remaining(*old(stream))),
                r,
                *old(stream),
                *final(stream),
            ),
    {
        match Nonce::from_stream(stream) {
            Ok(nonce) => Ok(ChallengeResponse { nonce }),
            Err(e) => Err(e),
        }
    }
}

/// The host's acceptance of a connection: the nonce and the assigned connection id.
#[derive(Debug, PartialEq, Eq, Structural, Clone, Copy)]
pub struct ConnectResponse {
    pub nonce: Nonce,
    pub connection_id: ConnectionId,
}

impl ConnectResponse {
    pub open spec fn octets(self) -> Seq<u8> {
        self.nonce.octets() + self.connection_id.octets()
    }

    pub open spec fn parse(data: Seq<u8>) -> Result<(ConnectResponse, nat), StreamError> {
        match Nonce::parse(data) {
            Err(e) => Err(e),
            Ok((nonce, n1)) => match ConnectionId::parse(data.skip(n1 as int)) {
                Err(e) => Err(e),
                Ok((connection_id, n2)) => Ok((ConnectResponse { nonce, connection_id }, n1 + n2)),
            },
        }
    }

    pub fn to_stream(&self, stream: &mut OutOctetStream)
        ensures
            out_octets(*final(stream)) == out_octets(*old(stream)) + self.octets(),
    {
        self.nonce.to_stream(stream);
        self.connection_id.to_stream(stream);
        assert(out_octets(*stream) =~= out_octets(*old(stream)) + self.octets());
    }

    pub fn from_stream(stream: &mut InOctetStream) -> (r: Result<ConnectResponse, StreamError>)
        ensures
            parsed_from(
                ConnectResponse::parse(in_remaining(*old(stream))),
                r,
                *old(stream),
                *final(stream),
            ),
    {
        let ghost start = in_remaining(*stream);
        let nonce = match Nonce::from_stream(stream) {
            Ok(v) => v,
            Err(e) => return Err(e),
        };
        let connection_id = match ConnectionId::from_stream(stream) {
            Ok(v) => v,
            Err(e) => return Err(e),
        };
        proof {
            lemma_skip_skip(start, 8, 8);
        }
        Ok(ConnectResponse { nonce, connection_id })
    }
}

/// What a client sends to the host.
#[derive(Debug, PartialEq, Eq)]
pub enum ClientToHostCommands {
    ChallengeType(ClientToHostChallengeCommand),
    ConnectType(ConnectCommand),
    PacketType(ClientToHostPacket),
}

impl ClientToHostCommands {
    /// The command octet: 0x01 challenge, 0x02 connect, 0x03 packet.
    pub open spec fn command_octet(&self) -> u8 {
        match self {
            ClientToHostCommands::ChallengeType(_) => 0x01,
            ClientToHostCommands::ConnectType(_) => 0x02,
            ClientToHostCommands::PacketType(_) => 0x03,
        }
    }

    pub open spec fn octets(&self) -> Seq<u8> {
        seq![self.command_octet()] + match self {
            ClientToHostCommands::ChallengeType(c) => c.octets(),
            ClientToHostCommands::ConnectType(c) => c.octets(),
            ClientToHostCommands::PacketType(p) => p.octets(),
        }
    }

    /// Only the challenge command is read; the others, known or not, are refused
    /// with their command octet.
    pub open spec fn parse(data: Seq<u8>) -> Result<(ClientToHostCommands, nat), StreamError> {
        match parse_u8(data) {
            Err(e) => Err(e),
            Ok((command, n1)) => if command == 0x01 {
                match ClientToHostChallengeCommand::parse(data.skip(n1 as int)) {
                    Err(e) => Err(e),
                    Ok((c, n2)) => Ok((ClientToHostCommands::ChallengeType(c), n1 + n2)),
                }
            } else {
                Err(StreamError::UnknownValue(command))
            },
        }
    }

    fn to_octet(&self) -> (o: u8)
        ensures
            o == self.command_octet(),
    {
        match self {
            ClientToHostCommands::ChallengeType(_) => 0x01,
            ClientToHostCommands::ConnectType(_) => 0x02,
            ClientToHostCommands::PacketType(_) => 0x03,
        }
    }

    pub fn to_stream(&self, stream: &mut OutOctetStream)
        ensures
            out_octets(*final(stream)) == out_octets(*old(stream)) + self.octets(),
    {
        write_u8(stream, self.to_octet());
        match self {
            ClientToHostCommands::ChallengeType(c) => c.to_stream(stream),
            ClientToHostCommands::ConnectType(c) => c.to_stream(stream),
            ClientToHostCommands::PacketType(p) => p.to_stream(stream),
        }
        assert(out_octets(*stream) =~= out_octets(*old(stream)) + self.octets());
    }

    pub fn from_stream(stream: &mut InOctetStream) -> (r: Result<ClientToHostCommands, StreamError>)
        ensures
            parsed_from(
                ClientToHostCommands::parse(in_remaining(*old(stream))),
                r,
                *old(stream),
                *final(stream),
            ),
    {
        let ghost start = in_remaining(*stream);
        let command = match read_u8_checked(stream) {
            Ok(c) => c,
            Err(e) => return Err(e),
        };
        if command == 0x01 {
            match ClientToHostChallengeCommand::from_stream(stream) {
                Ok(c) => {
                    proof {
                        lemma_skip_skip(start, 1, 8);
                    }
                    Ok(ClientToHostCommands::ChallengeType(c))
                },
                Err(e) => Err(e),
            }
        } else {
            Err(StreamError::UnknownValue(command))
        }
    }
}

/// What the host sends to a client.
#[derive(Debug, PartialEq, Eq, Structural)]
pub enum HostToClientCommands {
    ChallengeType(InChallengeCommand),
    ConnectType(ConnectResponse),
    PacketType(HostToClientPacketHeader),
}

impl HostToClientCommands {
    /// The command octet: 0x11 challenge, 0x12 connect, 0x13 packet.
    pub open spec fn command_octet(&self) -> u8 {
        match self {
            HostToClientCommands::ChallengeType(_) => 0x11,
            HostToClientCommands::ConnectType(_) => 0x12,
            HostToClientCommands::PacketType(_) => 0x13,
        }
    }

    pub open spec fn octets(&self) -> Seq<u8> {
        seq![self.command_octet()] + match self {
            HostToClientCommands::ChallengeType(c) => c.octets(),
            HostToClientCommands::ConnectType(c) => c.octets(),
            HostToClientCommands::PacketType(p) => p.0.octets(),
        }
    }

    /// The challenge and connect commands are read; the packet command and unknown
    /// command octets are refused with their command octet.
    pub open spec fn parse(data: Seq<u8>) -> Result<(HostToClientCommands, nat), StreamError> {
        match parse_u8(data) {
            Err(e) => Err(e),
            Ok((command, n1)) => if command == 0x11 {
                match InChallengeCommand::parse(data.skip(n1 as int)) {
                    Err(e) => Err(e),
                    Ok((c, n2)) => Ok((HostToClientCommands::ChallengeType(c), n1 + n2)),
                }
            } else if command == 0x12 {
                match ConnectResponse::parse(data.skip(n1 as int)) {
                    Err(e) => Err(e),
                    Ok((c, n2)) => Ok((HostToClientCommands::ConnectType(c), n1 + n2)),
                }
            } else {
                Err(StreamError::UnknownValue(command))
            },
        }
    }

    fn to_octet(&self) -> (o: u8)
        ensures
            o == self.command_octet(),
    {
        match self {
            HostToClientCommands::ChallengeType(_) => 0x11,
            HostToClientCommands::ConnectType(_) => 0x12,
            HostToClientCommands::PacketType(_) => 0x13,
        }
    }

    pub fn to_stream(&self, stream: &mut OutOctetStream)
        ensures
            out_octets(*final(stream)) == out_octets(*old(stream)) + self.octets(),
    {
        write_u8(stream, self.to_octet());
        match self {
            HostToClientCommands::ChallengeType(c) => c.to_stream(stream),
            HostToClientCommands::ConnectType(c) => c.to_stream(stream),
            HostToClientCommands::PacketType(p) => p.0.to_stream(stream),
        }
        assert(out_octets(*stream) =~= out_octets(*old(stream)) + self.octets());
    }

    pub fn from_stream(stream: &mut InOctetStream) -> (r: Result<HostToClientCommands, StreamError>)
        ensures
            parsed_from(
                HostToClientCommands::parse(in_remaining(*old(stream))),
                r,
                *old(stream),
                *final(stream),
            ),
    {
        let ghost start = in_remaining(*stream);
        let command = match read_u8_checked(stream) {
            Ok(c) => c,
            Err(e) => return Err(e),
        };
        if command == 0x11 {
            match InChallengeCommand::from_stream(stream) {
                Ok(c) => {
                    proof {
                        lemma_skip_skip(start, 1, 16);
                    }
                    Ok(HostToClientCommands::ChallengeType(c))
                },
                Err(e) => Err(e),
            }
        } else if command == 0x12 {
            match ConnectResponse::from_stream(stream) {
                Ok(c) => {
                    proof {
                        lemma_skip_skip(start, 1, 16);
                    }
                    Ok(HostToClientCommands::ConnectType(c))
                },
                Err(e) => Err(e),
            }
        } else {
            Err(StreamError::UnknownValue(command))
        }
    }
}

/// Where a client is in the handshake.
#[derive(Debug, PartialEq, Eq, Structural, Clone, Copy)]
pub enum ClientPhase {
    /// Waiting for the host to answer the nonce with a challenge.
    Challenge(Nonce),
    /// Waiting for the host to accept the returned challenge.
    Connecting(Nonce, ServerChallenge),
    /// Connected under the host-assigned id.
    Connected(ConnectionId),
}

/// The text of a client phase (its `Display` form): the phase and the values it holds.
pub open spec fn phase_text(p: ClientPhase) -> Seq<char> {
    let nonce_text = |n: Nonce| ("Nonce("@ + crate::decimal::hex_upper(n.0 as nat)).push(')');
    match p {
        ClientPhase::Challenge(n) => "clientPhase: Challenge Phase with "@ + nonce_text(n),
        ClientPhase::Connecting(n, c) => "clientPhase: Connecting Phase with "@ + nonce_text(n) + " and "@ + (
        "ServerChallenge("@ + crate::decimal::hex_upper(c.0 as nat)).push(')'),
        ClientPhase::Connected(id) => "clientPhase: Connected with "@ + ("ConnectionId("@ + crate::decimal::hex_upper(
            id.0 as nat,
        )).push(')'),
    }
}

impl ClientPhase {
    /// The phase's text (its `Display` form).
    pub fn to_string(&self) -> (s: String)
        ensures
            s@ == phase_text(*self),
    {
        match self {
            ClientPhase::Challenge(nonce) => {
                let mut s = crate::decimal::string_of("clientPhase: Challenge Phase with ");
                let n = nonce.to_string();
                s.append(n.as_str());
                s
            },
            ClientPhase::Connecting(nonce, challenge) => {
                let mut s = crate::decimal::string_of("clientPhase: Connecting Phase with ");
                let n = nonce.to_string();
                s.append(n.as_str());
                s.append(" and ");
                let c = challenge.to_string();
                s.append(c.as_str());
                s
            },
            ClientPhase::Connected(connection_id) => {
                let mut s = crate::decimal::string_of("clientPhase: Connected with ");
                let c = connection_id.to_string();
                s.append(c.as_str());
                s
            },
        }
    }
}

/// Why the client refused a message or a request.
#[derive(Debug, PartialEq, Eq, Structural, Clone, Copy)]
pub enum ConnectionError {
    /// The datagram could not be read.
    Stream(StreamError),
    /// The reply carries a nonce other than the client's.
    WrongNonce,
    /// The packet is for another connection.
    WrongConnectionId,
    /// The message or request does not fit the current phase.
    NotApplicableInPhase,
}

/// The client side of the handshake.
pub struct Client<R: SecureRandom> {
    random: R,
    phase: ClientPhase,
}

/// The octets a client in `phase` sends for a datagram carrying `data`: the command of
/// its phase (challenge with the nonce; connect with nonce and challenge; packet with
/// connection id, the size of `data` as 16 bits and `data`), followed by `data` itself.
pub open spec fn outgoing_datagram(phase: ClientPhase, data: Seq<u8>) -> Seq<u8> {
    let command = match phase {
        ClientPhase::Challenge(nonce) => seq![0x01u8] + nonce.octets(),
        ClientPhase::Connecting(nonce, challenge) => seq![0x02u8] + nonce.octets()
            + challenge.octets(),
        ClientPhase::Connected(id) => seq![0x03u8] + id.octets() + be_u16(data.len() as u16)
            + data,
    };
    command + data
}

impl<R: SecureRandom> Client<R> {
    /// The client's phase.
    pub closed spec fn phase(&self) -> ClientPhase {
        self.phase
    }

    /// A client that starts the handshake with a nonce drawn from `random`, or `None`
    /// when `random` fails; see `with_nonce`.
    pub fn new(random: R) -> (client: Option<Self>)
        ensures
            client matches Some(c) ==> c.phase() is Challenge,
    {
        let mut random = random;
        match random.random_u64() {
            Some(value) => Some(Self::with_nonce(random, value)),
            None => None,
        }
    }

    /// A client that starts the handshake with the nonce `value`, keeping `random`.
    pub fn with_nonce(random: R, value: u64) -> (client: Self)
        ensures
            client.phase() == ClientPhase::Challenge(Nonce(value)),
    {
        Client { random, phase: ClientPhase::Challenge(Nonce(value)) }
    }

    /// Takes the host's challenge: with the client's nonce it moves on to connecting
    /// with that challenge.
    pub fn on_challenge(&mut self, cmd: InChallengeCommand) -> (r: Result<(), ConnectionError>)
        ensures
            match old(self).phase() {
                ClientPhase::Challenge(nonce) => if cmd.nonce == nonce {
                    r is Ok && final(self).phase() == ClientPhase::Connecting(
                        nonce,
                        cmd.incoming_server_challenge,
                    )
                } else {
                    r == Err::<(), ConnectionError>(ConnectionError::WrongNonce)
                        && final(self).phase() == old(self).phase()
                },
                _ => r == Err::<(), ConnectionError>(ConnectionError::NotApplicableInPhase)
                    && final(self).phase() == old(self).phase(),
            },
    {
        match self.phase {
            ClientPhase::Challenge(nonce) => {
                if cmd.nonce != nonce {
                    return Err(ConnectionError::WrongNonce);
                }
                self.phase = ClientPhase::Connecting(nonce, cmd.incoming_server_challenge);
                Ok(())
            },
            _ => Err(ConnectionError::NotApplicableInPhase),
        }
    }

    /// Takes the host's acceptance: with the client's nonce it is connected under the
    /// assigned id.
    pub fn on_connect(&mut self, cmd: ConnectResponse) -> (r: Result<(), ConnectionError>)
        ensures
            match old(self).phase() {
                ClientPhase::Connecting(nonce, _) => if cmd.nonce == nonce {
                    r is Ok && final(self).phase() == ClientPhase::Connected(cmd.connection_id)
                } else {
                    r == Err::<(), ConnectionError>(ConnectionError::WrongNonce)
                        && final(self).phase() == old(self).phase()
                },
                _ => r == Err::<(), ConnectionError>(ConnectionError::NotApplicableInPhase)
                    && final(self).phase() == old(self).phase(),
            },
    {
        match self.phase {
            ClientPhase::Connecting(nonce, _) => {
                if cmd.nonce != nonce {
                    return Err(ConnectionError::WrongNonce);
                }
                self.phase = ClientPhase::Connected(cmd.connection_id);
                Ok(())
            },
            _ => Err(ConnectionError::NotApplicableInPhase),
        }
    }

    /// Takes a packet for a connected client: nothing of its payload is read, and the
    /// payload comes back empty.
    pub fn on_packet(&mut self, cmd: HostToClientPacketHeader, in_stream: &mut InOctetStream) -> (r:
        Result<Vec<u8>, ConnectionError>)
        ensures
            final(self).phase() == old(self).phase(),
            *final(in_stream) == *old(in_stream),
            match old(self).phase() {
                ClientPhase::Connected(id) => if cmd.0.connection_id == id {
                    r matches Ok(v) && v@.len() == 0
                } else {
                    r == Err::<Vec<u8>, ConnectionError>(ConnectionError::WrongConnectionId)
                },
                _ => r == Err::<Vec<u8>, ConnectionError>(ConnectionError::NotApplicableInPhase),
            },
    {
        match self.phase {
            ClientPhase::Connected(expected_connection_id) => {
                if cmd.0.connection_id != expected_connection_id {
                    return Err(ConnectionError::WrongConnectionId);
                }
                let target_buffer: Vec<u8> = Vec::new();
                Ok(target_buffer)
            },
            _ => Err(ConnectionError::NotApplicableInPhase),
        }
    }

    /// The challenge request of a client that waits for a challenge.
    pub fn send_challenge(&mut self) -> (r: Result<ClientToHostChallengeCommand, ConnectionError>)
        ensures
            final(self).phase() == old(self).phase(),
            match old(self).phase() {
                ClientPhase::Challenge(nonce) => r == Ok::<
                    ClientToHostChallengeCommand,
                    ConnectionError,
                >(ClientToHostChallengeCommand { nonce }),
                _ => r == Err::<ClientToHostChallengeCommand, ConnectionError>(
                    ConnectionError::NotApplicableInPhase,
                ),
            },
    {
        match self.phase {
            ClientPhase::Challenge(nonce) => Ok(ClientToHostChallengeCommand { nonce }),
            _ => Err(ConnectionError::NotApplicableInPhase),
        }
    }

    /// The connect request of a client that is connecting.
    pub fn send_connect_request(&mut self) -> (r: Result<ConnectCommand, ConnectionError>)
        ensures
            final(self).phase() == old(self).phase(),
            match old(self).phase() {
                ClientPhase::Connecting(nonce, server_challenge) => r == Ok::<
                    ConnectCommand,
                    ConnectionError,
                >(ConnectCommand { nonce, server_challenge }),
                _ => r == Err::<ConnectCommand, ConnectionError>(
                    ConnectionError::NotApplicableInPhase,
                ),
            },
    {
        match self.phase {
            ClientPhase::Connecting(nonce, server_challenge) => Ok(
                ConnectCommand { nonce, server_challenge },
            ),
            _ => Err(ConnectionError::NotApplicableInPhase),
        }
    }

    /// The packet of a connected client: its connection id, the length of `data` as
    /// 16 bits, and a copy of `data`.
    pub fn send_packet(&mut self, data: &[u8]) -> (r: Result<ClientToHostPacket, ConnectionError>)
        ensures
            final(self).phase() == old(self).phase(),
            match old(self).phase() {
                ClientPhase::Connected(connection_id) => r matches Ok(p) && p.header
                    == PacketHeader { connection_id, size: data@.len() as u16 } && p.payload@
                    == data@,
                _ => r is Err && r == Err::<ClientToHostPacket, ConnectionError>(
                    ConnectionError::NotApplicableInPhase,
                ),
            },
    {
        match self.phase {
            ClientPhase::Connected(connection_id) => Ok(
                ClientToHostPacket {
                    header: PacketHeader { connection_id, size: data.len() as u16 },
                    payload: slice_to_vec(data),
                },
            ),
            _ => Err(ConnectionError::NotApplicableInPhase),
        }
    }

    /// The command of the current phase: challenge, connect, or a packet carrying `data`.
    pub fn send(&mut self, data: &[u8]) -> (r: Result<ClientToHostCommands, ConnectionError>)
        ensures
            final(self).phase() == old(self).phase(),
            r matches Ok(c) && seq![c.command_octet()] + match c {
                ClientToHostCommands::ChallengeType(x) => x.octets(),
                ClientToHostCommands::ConnectType(x) => x.octets(),
                ClientToHostCommands::PacketType(x) => x.octets(),
            } + data@ == outgoing_datagram(old(self).phase(), data@),
    {
        match self.phase {
            ClientPhase::Challenge(_) => {
                let challenge = match self.send_challenge() {
                    Ok(c) => c,
                    Err(e) => return Err(e),
                };
                Ok(ClientToHostCommands::ChallengeType(challenge))
            },
            ClientPhase::Connecting(_, _) => {
                let connect_request = match self.send_connect_request() {
                    Ok(c) => c,
                    Err(e) => return Err(e),
                };
                Ok(ClientToHostCommands::ConnectType(connect_request))
            },
            ClientPhase::Connected(_) => {
                let packet = match self.send_packet(data) {
                    Ok(p) => p,
                    Err(e) => return Err(e),
                };
                Ok(ClientToHostCommands::PacketType(packet))
            },
        }
    }

    /// The datagram to send for `data`: the command of the current phase followed by
    /// `data` (a connected client's packet thus carries `data` twice).
    pub fn send_datagram(&mut self, data: &[u8]) -> (r: Result<Vec<u8>, ConnectionError>)
        ensures
            final(self).phase() == old(self).phase(),
            r matches Ok(v) && v@ == outgoing_datagram(old(self).phase(), data@),
    {
        let mut out_stream = new_out_stream();
        let client_to_server_cmd = match self.send(data) {
            Ok(c) => c,
            Err(e) => return Err(e),
        };
        client_to_server_cmd.to_stream(&mut out_stream);
        write_octets(&mut out_stream, data);
        let octets = out_stream_octets(&out_stream);
        assert(octets@ =~= outgoing_datagram(old(self).phase(), data@));
        Ok(octets)
    }

    /// Handles a datagram from the host: a challenge or an acceptance moves the
    /// handshake on and yields no payload; anything else is refused.
    pub fn receive_datagram(&mut self, buffer: &[u8]) -> (r: Result<Vec<u8>, ConnectionError>)
        ensures
            match HostToClientCommands::parse(buffer@) {
                Err(e) => r == Err::<Vec<u8>, ConnectionError>(ConnectionError::Stream(e))
                    && final(self).phase() == old(self).phase(),
                Ok((HostToClientCommands::ChallengeType(cmd), _)) => match old(self).phase() {
                    ClientPhase::Challenge(nonce) => if cmd.nonce == nonce {
                        r matches Ok(v) && v@.len() == 0 && final(self).phase()
                            == ClientPhase::Connecting(nonce, cmd.incoming_server_challenge)
                    } else {
                        r == Err::<Vec<u8>, ConnectionError>(ConnectionError::WrongNonce)
                            && final(self).phase() == old(self).phase()
                    },
                    _ => r == Err::<Vec<u8>, ConnectionError>(
                        ConnectionError::NotApplicableInPhase,
                    ) && final(self).phase() == old(self).phase(),
                },
                Ok((HostToClientCommands::ConnectType(cmd), _)) => match old(self).phase() {
                    ClientPhase::Connecting(nonce, _) => if cmd.nonce == nonce {
                        r matches Ok(v) && v@.len() == 0 && final(self).phase()
                            == ClientPhase::Connected(cmd.connection_id)
                    } else {
                        r == Err::<Vec<u8>, ConnectionError>(ConnectionError::WrongNonce)
                            && final(self).phase() == old(self).phase()
                    },
                    _ => r == Err::<Vec<u8>, ConnectionError>(
                        ConnectionError::NotApplicableInPhase,
                    ) && final(self).phase() == old(self).phase(),
                },
                Ok((HostToClientCommands::PacketType(_), _)) => false,
            },
    {
        let mut in_stream = new_in_stream(buffer);
        let command = match HostToClientCommands::from_stream(&mut in_stream) {
            Ok(c) => c,
            Err(e) => return Err(ConnectionError::Stream(e)),
        };
        match command {
            HostToClientCommands::ChallengeType(challenge_command) => {
                match self.on_challenge(challenge_command) {
                    Ok(()) => Ok(Vec::new()),
                    Err(e) => Err(e),
                }
            },
            HostToClientCommands::ConnectType(connect_command) => {
                match self.on_connect(connect_command) {
                    Ok(()) => Ok(Vec::new()),
                    Err(e) => Err(e),
                }
            },
            HostToClientCommands::PacketType(packet_command) => {
                self.on_packet(packet_command, &mut in_stream)
            },
        }
    }
}

/// Reading back the octets of a 64-bit field, whatever follows them.
proof fn lemma_u64_field(v: u64, rest: Seq<u8>)
    ensures
        parse_u64(be_u64(v) + rest) == Ok::<(u64, nat), StreamError>((v, 8)),
        (be_u64(v) + rest).skip(8) == rest,
{
    lemma_parse_u64_be(v, rest);
    lemma_skip_prefix(be_u64(v), rest);
}

/// A connect command reads back as itself, whatever follows it.
pub proof fn lemma_connect_command_roundtrip(c: ConnectCommand, rest: Seq<u8>)
    ensures
        ConnectCommand::parse(c.octets() + rest) == Ok::<(ConnectCommand, nat), StreamError>(
            (c, 16),
        ),
{
    let tail = be_u64(c.server_challenge.0) + rest;
    assert(c.octets() + rest =~= be_u64(c.nonce.0) + tail);
    lemma_u64_field(c.nonce.0, tail);
    lemma_u64_field(c.server_challenge.0, rest);
}

/// A challenge reply reads back as itself, whatever follows it.
pub proof fn lemma_in_challenge_roundtrip(c: InChallengeCommand, rest: Seq<u8>)
    ensures
        InChallengeCommand::parse(c.octets() + rest) == Ok::<
            (InChallengeCommand, nat),
            StreamError,
        >((c, 16)),
{
    let tail = be_u64(c.incoming_server_challenge.0) + rest;
    assert(c.octets() + rest =~= be_u64(c.nonce.0) + tail);
    lemma_u64_field(c.nonce.0, tail);
    lemma_u64_field(c.incoming_server_challenge.0, rest);
}

/// A connect response reads back as itself, whatever follows it.
pub proof fn lemma_connect_response_roundtrip(c: ConnectResponse, rest: Seq<u8>)
    ensures
        ConnectResponse::parse(c.octets() + rest) == Ok::<(ConnectResponse, nat), StreamError>(
            (c, 16),
        ),
{
    let tail = be_u64(c.connection_id.0) + rest;
    assert(c.octets() + rest =~= be_u64(c.nonce.0) + tail);
    lemma_u64_field(c.nonce.0, tail);
    lemma_u64_field(c.connection_id.0, rest);
}

/// A packet header reads back as itself, whatever follows it.
pub proof fn lemma_packet_header_roundtrip(h: PacketHeader, rest: Seq<u8>)
    ensures
        PacketHeader::parse(h.octets() + rest) == Ok::<(PacketHeader, nat), StreamError>((h, 10)),
{
    let tail = be_u16(h.size) + rest;
    assert(h.octets() + rest =~= be_u64(h.connection_id.0) + tail);
    lemma_u64_field(h.connection_id.0, tail);
    lemma_parse_u16_be(h.size, rest);
}

/// A challenge request reads back as itself, whatever follows it; a connect or packet
/// command is refused with its command octet.
pub proof fn lemma_client_to_host_roundtrip(c: ClientToHostCommands, rest: Seq<u8>)
    ensures
        c is ChallengeType ==> ClientToHostCommands::parse(c.octets() + rest) == Ok::<
            (ClientToHostCommands, nat),
            StreamError,
        >((c, 9)),
        !(c is ChallengeType) ==> ClientToHostCommands::parse(c.octets() + rest) == Err::<
            (ClientToHostCommands, nat),
            StreamError,
        >(StreamError::UnknownValue(c.command_octet())),
{
    let d = c.octets() + rest;
    assert(d[0] == c.command_octet());
    match c {
        ClientToHostCommands::ChallengeType(x) => {
            assert(d.skip(1) =~= be_u64(x.nonce.0) + rest);
            lemma_u64_field(x.nonce.0, rest);
        },
        _ => {},
    }
}

/// A challenge reply or a connect response reads back as itself, whatever follows
/// it; a packet command is refused with its command octet.
pub proof fn lemma_host_to_client_roundtrip(c: HostToClientCommands, rest: Seq<u8>)
    ensures
        !(c is PacketType) ==> HostToClientCommands::parse(c.octets() + rest) == Ok::<
            (HostToClientCommands, nat),
            StreamError,
        >((c, 17)),
        c is PacketType ==> HostToClientCommands::parse(c.octets() + rest) == Err::<
            (HostToClientCommands, nat),
            StreamError,
        >(StreamError::UnknownValue(0x13)),
{
    let d = c.octets() + rest;
    assert(d[0] == c.command_octet());
    match c {
        HostToClientCommands::ChallengeType(x) => {
            assert(d.skip(1) =~= x.octets() + rest);
            lemma_in_challenge_roundtrip(x, rest);
        },
        HostToClientCommands::ConnectType(x) => {
            assert(d.skip(1) =~= x.octets() + rest);
            lemma_connect_response_roundtrip(x, rest);
        },
        _ => {},
    }
}

/// The handshake: a client waiting with nonce `n` that receives the host's challenge
/// datagram for `n` moves on to connecting with that challenge, and a connecting client
/// that receives the acceptance for `n` becomes connected under the assigned id.
pub proof fn lemma_handshake_datagrams(n: Nonce, challenge: ServerChallenge, id: ConnectionId)
    ensures
        HostToClientCommands::parse(
            HostToClientCommands::ChallengeType(
                InChallengeCommand { nonce: n, incoming_server_challenge: challenge },
            ).octets(),
        ) == Ok::<(HostToClientCommands, nat), StreamError>(
            (
                HostToClientCommands::ChallengeType(
                    InChallengeCommand { nonce: n, incoming_server_challenge: challenge },
                ),
                17,
            ),
        ),
        HostToClientCommands::parse(
            HostToClientCommands::ConnectType(ConnectResponse { nonce: n, connection_id: id }).octets(),
        ) == Ok::<(HostToClientCommands, nat), StreamError>(
            (HostToClientCommands::ConnectType(ConnectResponse { nonce: n, connection_id: id }), 17),
        ),
{
    let c1 = HostToClientCommands::ChallengeType(
        InChallengeCommand { nonce: n, incoming_server_challenge: challenge },
    );
    let c2 = HostToClientCommands::ConnectType(ConnectResponse { nonce: n, connection_id: id });
    lemma_host_to_client_roundtrip(c1, Seq::empty());
    lemma_host_to_client_roundtrip(c2, Seq::empty());
    assert(c1.octets() + Seq::<u8>::empty() =~= c1.octets());
    assert(c2.octets() + Seq::<u8>::empty() =~= c2.octets());
}

} // verus!

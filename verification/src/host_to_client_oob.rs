//! Out-of-band messages from the host to a client: the accepted connection.
use vstd::prelude::*;
use flood_rs::in_stream::InOctetStream;
use flood_rs::out_stream::OutOctetStream;
use crate::stream::{
    out_octets, in_remaining, parse_u8, parsed_from, write_u8, read_u8_checked, lemma_skip_skip,
    lemma_skip_prefix, lemma_parse_u64_be, StreamError,
};
use crate::protocol::SessionConnectionSecret;
use crate::udp_connections::Nonce;

verus! {

/// The kinds of out-of-band host commands.
#[derive(Debug, Clone, Copy, PartialEq, Eq, Structural)]
pub enum HostToClientOobCommand {
    Connect,
}

impl HostToClientOobCommand {
    /// The command kind of an octet: 0x0D is connect; any other octet is refused.
    pub fn try_from_octet(value: u8) -> (r: Result<HostToClientOobCommand, StreamError>)
        ensures
            value == 0x0D ==> r == Ok::<HostToClientOobCommand, StreamError>(HostToClientOobCommand::Connect),
            value != 0x0D ==> r == Err::<HostToClientOobCommand, StreamError>(StreamError::UnknownValue(value)),
    {
        if value == 0x0D {
            Ok(HostToClientOobCommand::Connect)
        } else {
            Err(StreamError::UnknownValue(value))
        }
    }
}

/// The id of a connection in the connection layer, one octet.
#[derive(Debug, Clone, Copy, PartialEq, Eq, Structural)]
pub struct LayerConnectionId {
    pub value: u8,
}

/// The host accepted a connection: flags, the nonce it answers, and the connection id
/// and secret it assigned.
#[derive(Debug, Clone, Copy, PartialEq, Eq, Structural)]
pub struct ConnectionAccepted {
    pub flags: u8,
    pub response_to_nonce: Nonce,
    pub host_assigned_connection_id: LayerConnectionId,
    pub host_assigned_connection_secret: SessionConnectionSecret,
}

impl ConnectionAccepted {
    /// The flags, the nonce, the connection id and the secret.
    pub open spec fn octets(self) -> Seq<u8> {
        seq![self.flags] + self.response_to_nonce.octets() + seq![self.host_assigned_connection_id.value]
            + self.host_assigned_connection_secret.octets()
    }

    pub open spec fn parse(data: Seq<u8>) -> Result<(ConnectionAccepted, nat), StreamError> {
        match parse_u8(data) {
            Err(e) => Err(e),
            Ok((flags, _)) => match Nonce::parse(data.skip(1)) {
                Err(e) => Err(e),
                Ok((nonce, _)) => match parse_u8(data.skip(9)) {
                    Err(e) => Err(e),
                    Ok((id, _)) => match SessionConnectionSecret::parse(data.skip(10)) {
                        Err(e) => Err(e),
                        Ok((secret, _)) => Ok(
                            (
                                ConnectionAccepted {
                                    flags,
                                    response_to_nonce: nonce,
                                    host_assigned_connection_id: LayerConnectionId { value: id },
                                    host_assigned_connection_secret: secret,
                                },
                                18,
                            ),
                        ),
                    },
                },
            },
        }
    }

    pub fn to_stream(&self, stream: &mut OutOctetStream)
        ensures
            out_octets(*final(stream)) == out_octets(*old(stream)) + self.octets(),
    {
        write_u8(stream, self.flags);
        self.response_to_nonce.to_stream(stream);
        write_u8(stream, self.host_assigned_connection_id.value);
        self.host_assigned_connection_secret.to_stream(stream);
        assert(out_octets(*stream) =~= out_octets(*old(stream)) + self.octets());
    }

    pub fn from_stream(stream: &mut InOctetStream) -> (r: Result<ConnectionAccepted, StreamError>)
        ensures
            parsed_from(ConnectionAccepted::parse(in_remaining(*old(stream))), r, *old(stream), *final(stream)),
    {
        let ghost start = in_remaining(*stream);
        let flags = match read_u8_checked(stream) {
            Ok(v) => v,
            Err(e) => return Err(e),
        };
        let nonce = match Nonce::from_stream(stream) {
            Ok(v) => v,
            Err(e) => return Err(e),
        };
        proof {
            lemma_skip_skip(start, 1, 8);
        }
        let id = match read_u8_checked(stream) {
            Ok(v) => v,
            Err(e) => return Err(e),
        };
        proof {
            lemma_skip_skip(start, 9, 1);
        }
        let secret = match SessionConnectionSecret::from_stream(stream) {
            Ok(v) => v,
            Err(e) => return Err(e),
        };
        proof {
            lemma_skip_skip(start, 10, 8);
        }
        Ok(ConnectionAccepted {
            flags,
            response_to_nonce: nonce,
            host_assigned_connection_id: LayerConnectionId { value: id },
            host_assigned_connection_secret: secret,
        })
    }

    /// Reading the octets of an accepted connection gives it back, whatever follows them.
    pub proof fn lemma_roundtrip(self, rest: Seq<u8>)
        ensures
            ConnectionAccepted::parse(self.octets() + rest) == Ok::<(ConnectionAccepted, nat), StreamError>(
                (self, 18),
            ),
    {
        let d = self.octets() + rest;
        let t2 = seq![self.host_assigned_connection_id.value] + (self.host_assigned_connection_secret.octets() + rest);
        let t1 = self.response_to_nonce.octets() + t2;
        assert(d =~= seq![self.flags] + t1);
        lemma_skip_prefix(seq![self.flags], t1);
        lemma_parse_u64_be(self.response_to_nonce.0, t2);
        assert(d.skip(9) =~= t2);
        assert(d.skip(10) =~= self.host_assigned_connection_secret.octets() + rest);
        self.host_assigned_connection_secret.lemma_roundtrip(rest);
    }
}

/// Out-of-band commands from the host.
#[derive(Debug, Clone, Copy, PartialEq, Eq, Structural)]
pub enum HostToClientOobCommands {
    ConnectType(ConnectionAccepted),
}

impl HostToClientOobCommands {
    /// The command octet: 0x0D for connect.
    pub fn to_octet(&self) -> (o: u8)
        ensures
            o == 0x0D,
    {
        match self {
            HostToClientOobCommands::ConnectType(_) => 0x0D,
        }
    }

    /// The command octet, then the accepted connection.
    pub open spec fn octets(self) -> Seq<u8> {
        match self {
            HostToClientOobCommands::ConnectType(c) => seq![0x0Du8] + c.octets(),
        }
    }

    pub open spec fn parse(data: Seq<u8>) -> Result<(HostToClientOobCommands, nat), StreamError> {
        match parse_u8(data) {
            Err(e) => Err(e),
            Ok((command, _)) => if command == 0x0D {
                match ConnectionAccepted::parse(data.skip(1)) {
                    Err(e) => Err(e),
                    Ok((c, m)) => Ok((HostToClientOobCommands::ConnectType(c), 1 + m)),
                }
            } else {
                Err(StreamError::UnknownValue(command))
            },
        }
    }

    pub fn to_stream(&self, stream: &mut OutOctetStream)
        ensures
            out_octets(*final(stream)) == out_octets(*old(stream)) + self.octets(),
    {
        write_u8(stream, self.to_octet());
        match self {
            HostToClientOobCommands::ConnectType(connect_command) => connect_command.to_stream(stream),
        }
        assert(out_octets(*stream) =~= out_octets(*old(stream)) + self.octets());
    }

    pub fn from_stream(stream: &mut InOctetStream) -> (r: Result<HostToClientOobCommands, StreamError>)
        ensures
            parsed_from(HostToClientOobCommands::parse(in_remaining(*old(stream))), r, *old(stream), *final(stream)),
    {
        let ghost start = in_remaining(*stream);
        let command_value = match read_u8_checked(stream) {
            Ok(v) => v,
            Err(e) => return Err(e),
        };
        match HostToClientOobCommand::try_from_octet(command_value) {
            Ok(HostToClientOobCommand::Connect) => match ConnectionAccepted::from_stream(stream) {
                Ok(c) => {
                    proof {
                        lemma_skip_skip(start, 1, 18);
                    }
                    Ok(HostToClientOobCommands::ConnectType(c))
                },
                Err(e) => Err(e),
            },
            Err(e) => Err(e),
        }
    }

    /// Reading the octets of a command gives it back, whatever follows them.
    pub proof fn lemma_roundtrip(self, rest: Seq<u8>)
        ensures
            HostToClientOobCommands::parse(self.octets() + rest) == Ok::<(HostToClientOobCommands, nat), StreamError>(
                (self, 19),
            ),
    {
        match self {
            HostToClientOobCommands::ConnectType(c) => {
                let d = self.octets() + rest;
                assert(d =~= seq![0x0Du8] + (c.octets() + rest));
                lemma_skip_prefix(seq![0x0Du8], c.octets() + rest);
                c.lemma_roundtrip(rest);
            },
        }
    }
}

} // verus!

//! Out-of-band messages from a client to the host: the connect request.
use vstd::prelude::*;
use flood_rs::in_stream::InOctetStream;
use flood_rs::out_stream::OutOctetStream;
use crate::stream::{
    out_octets, in_remaining, parse_u8, parsed_from, write_u8, read_u8_checked, lemma_skip_skip,
    lemma_skip_prefix, StreamError,
};
use crate::protocol::Version;
use crate::udp_connections::Nonce;

verus! {

/// A client asks to connect, with the versions it speaks and its nonce.
#[derive(Debug, Clone, Copy, PartialEq, Eq, Structural)]
pub struct ConnectRequest {
    pub nimble_version: Version,
    pub use_debug_stream: bool,
    pub application_version: Version,
    pub nonce: Nonce,
}

/// The debug-stream flag as one octet: 0x01 or 0x00.
pub open spec fn flag_octet(b: bool) -> u8 {
    if b { 0x01 } else { 0x00 }
}

impl ConnectRequest {
    /// The nimble version, the debug flag octet, the application version and the nonce.
    pub open spec fn octets(self) -> Seq<u8> {
        self.nimble_version.octets() + seq![flag_octet(self.use_debug_stream)]
            + self.application_version.octets() + self.nonce.octets()
    }

    /// Reading a connect request; any non-zero flag octet means true.
    pub open spec fn parse(data: Seq<u8>) -> Result<(ConnectRequest, nat), StreamError> {
        match Version::parse(data) {
            Err(e) => Err(e),
            Ok((nimble_version, n1)) => match parse_u8(data.skip(6)) {
                Err(e) => Err(e),
                Ok((flag, n2)) => match Version::parse(data.skip(7)) {
                    Err(e) => Err(e),
                    Ok((application_version, n3)) => match Nonce::parse(data.skip(13)) {
                        Err(e) => Err(e),
                        Ok((nonce, n4)) => Ok(
                            (
                                ConnectRequest {
                                    nimble_version,
                                    use_debug_stream: flag != 0,
                                    application_version,
                                    nonce,
                                },
                                21,
                            ),
                        ),
                    },
                },
            },
        }
    }

    pub fn to_stream(&self, stream: &mut OutOctetStream)
        ensures
            out_octets(*final(stream)) == out_octets(*old(stream)) + self.octets(),
    {
        self.nimble_version.to_stream(stream);
        write_u8(stream, if self.use_debug_stream { 0x01 } else { 0x00 });
        self.application_version.to_stream(stream);
        self.nonce.to_stream(stream);
        assert(out_octets(*stream) =~= out_octets(*old(stream)) + self.octets());
    }

    pub fn from_stream(stream: &mut InOctetStream) -> (r: Result<ConnectRequest, StreamError>)
        ensures
            parsed_from(ConnectRequest::parse(in_remaining(*old(stream))), r, *old(stream), *final(stream)),
    {
        let ghost start = in_remaining(*stream);
        let nimble_version = match Version::from_stream(stream) {
            Ok(v) => v,
            Err(e) => return Err(e),
        };
        let flag = match read_u8_checked(stream) {
            Ok(v) => v,
            Err(e) => return Err(e),
        };
        proof {
            lemma_skip_skip(start, 6, 1);
        }
        let application_version = match Version::from_stream(stream) {
            Ok(v) => v,
            Err(e) => return Err(e),
        };
        proof {
            lemma_skip_skip(start, 7, 6);
        }
        let nonce = match Nonce::from_stream(stream) {
            Ok(v) => v,
            Err(e) => return Err(e),
        };
        proof {
            lemma_skip_skip(start, 13, 8);
        }
        Ok(ConnectRequest { nimble_version, use_debug_stream: flag != 0, application_version, nonce })
    }

    /// Reading the octets of a connect request gives it back, whatever follows them.
    pub proof fn lemma_roundtrip(self, rest: Seq<u8>)
        ensures
            ConnectRequest::parse(self.octets() + rest) == Ok::<(ConnectRequest, nat), StreamError>(
                (self, 21),
            ),
    {
        let d = self.octets() + rest;
        let t3 = self.application_version.octets() + (self.nonce.octets() + rest);
        let t2 = seq![flag_octet(self.use_debug_stream)] + t3;
        assert(d =~= self.nimble_version.octets() + t2);
        self.nimble_version.lemma_roundtrip(t2);
        assert(Version::parse(d) == Ok::<(Version, nat), StreamError>((self.nimble_version, 6)));
        lemma_skip_prefix(self.nimble_version.octets(), t2);
        assert(d.skip(6) == t2);
        assert(parse_u8(d.skip(6)) == Ok::<(u8, nat), StreamError>((flag_octet(self.use_debug_stream), 1)));
        assert(d.skip(7) =~= t3);
        self.application_version.lemma_roundtrip(self.nonce.octets() + rest);
        assert(Version::parse(d.skip(7)) == Ok::<(Version, nat), StreamError>((self.application_version, 6)));
        assert(d.skip(13) =~= self.nonce.octets() + rest);
        crate::stream::lemma_parse_u64_be(self.nonce.0, rest);
        assert(Nonce::parse(d.skip(13)) == Ok::<(Nonce, nat), StreamError>((self.nonce, 8)));
        assert((flag_octet(self.use_debug_stream) != 0) == self.use_debug_stream);
    }
}

/// Out-of-band commands from a client.
#[derive(Debug, Clone, Copy, PartialEq, Eq, Structural)]
pub enum ClientToHostOobCommands {
    ConnectType(ConnectRequest),
}

impl ClientToHostOobCommands {
    /// The command octet: 0x05 for connect.
    pub fn to_octet(&self) -> (o: u8)
        ensures
            o == 0x05,
    {
        match self {
            ClientToHostOobCommands::ConnectType(_) => 0x05,
        }
    }

    /// The command octet, then the request.
    pub open spec fn octets(self) -> Seq<u8> {
        match self {
            ClientToHostOobCommands::ConnectType(c) => seq![0x05u8] + c.octets(),
        }
    }

    /// Reading a command: 0x05 and a connect request; any other command octet is refused.
    pub open spec fn parse(data: Seq<u8>) -> Result<(ClientToHostOobCommands, nat), StreamError> {
        match parse_u8(data) {
            Err(e) => Err(e),
            Ok((command, n)) => if command == 0x05 {
                match ConnectRequest::parse(data.skip(1)) {
                    Err(e) => Err(e),
                    Ok((c, m)) => Ok((ClientToHostOobCommands::ConnectType(c), 1 + m)),
                }
            } else {
                Err(StreamError::UnknownValue(command))
            },
        }
    }

    pub fn to_stream(&self, stream: &mut OutOctetStream)
        ensures
            out_octets(*final(stream)) == out_octets(*old(stream)) + self.octets(),
    {
        write_u8(stream, self.to_octet());
        match self {
            ClientToHostOobCommands::ConnectType(connect) => connect.to_stream(stream),
        }
        assert(out_octets(*stream) =~= out_octets(*old(stream)) + self.octets());
    }

    pub fn from_stream(stream: &mut InOctetStream) -> (r: Result<ClientToHostOobCommands, StreamError>)
        ensures
            parsed_from(
                ClientToHostOobCommands::parse(in_remaining(*old(stream))),
                r,
                *old(stream),
                *final(stream),
            ),
    {
        let ghost start = in_remaining(*stream);
        let command = match read_u8_checked(stream) {
            Ok(v) => v,
            Err(e) => return Err(e),
        };
        if command == 0x05 {
            match ConnectRequest::from_stream(stream) {
                Ok(c) => {
                    proof {
                        lemma_skip_skip(start, 1, 21);
                    }
                    Ok(ClientToHostOobCommands::ConnectType(c))
                },
                Err(e) => Err(e),
            }
        } else {
            Err(StreamError::UnknownValue(command))
        }
    }

    /// Reading the octets of a command gives it back, whatever follows them.
    pub proof fn lemma_roundtrip(self, rest: Seq<u8>)
        ensures
            ClientToHostOobCommands::parse(self.octets() + rest) == Ok::<
                (ClientToHostOobCommands, nat),
                StreamError,
            >((self, self.octets().len())),
    {
        match self {
            ClientToHostOobCommands::ConnectType(c) => {
                let d = self.octets() + rest;
                assert(d =~= seq![0x05u8] + (c.octets() + rest));
                lemma_skip_prefix(seq![0x05u8], c.octets() + rest);
                c.lemma_roundtrip(rest);
            },
        }
    }
}

} // verus!

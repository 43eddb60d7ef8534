//! The basic values of the nimble protocol: request ids, versions, session secrets,
//! and a hex rendering of octets for logs.
use vstd::prelude::*;
use flood_rs::in_stream::InOctetStream;
use flood_rs::out_stream::OutOctetStream;
use crate::stream::{
    out_octets, in_remaining, be_u16, be_u64, parse_u8, parse_u16, parse_u64, parsed_from, write_u8,
    write_u16, write_u64, read_u8_checked, read_u16_checked, read_u64_checked, lemma_skip_skip,
    lemma_parse_u16_be, lemma_parse_u64_be, StreamError,
};
use crate::hexify::{hex_octet, push_hex_octet};
use crate::decimal::push_char;

verus! {

/// The id a client gives a request, echoed in the host's answer.
#[derive(Debug, Clone, Copy, PartialEq, Eq, Structural)]
pub struct ClientRequestId(pub u8);

impl ClientRequestId {
    /// The text `RequestId(`, the id in uppercase hex, and `)` (its `Display` form).
    pub fn to_string(&self) -> (s: String)
        ensures
            s@ == ("RequestId("@ + crate::decimal::hex_upper(self.0 as nat)).push(')'),
    {
        let mut s = crate::decimal::string_of("RequestId(");
        crate::decimal::push_hex_upper(&mut s, self.0 as u64);
        crate::decimal::push_char(&mut s, ')');
        s
    }
    pub fn new(value: u8) -> (id: ClientRequestId)
        ensures
            id.0 == value,
    {
        ClientRequestId(value)
    }

    /// The id as one octet.
    pub open spec fn octets(self) -> Seq<u8> {
        seq![self.0]
    }

    /// Reading an id from one octet.
    pub open spec fn parse(data: Seq<u8>) -> Result<(ClientRequestId, nat), StreamError> {
        match parse_u8(data) {
            Ok((v, n)) => Ok((ClientRequestId(v), n)),
            Err(e) => Err(e),
        }
    }

    pub fn serialize(&self, stream: &mut OutOctetStream)
        ensures
            out_octets(*final(stream)) == out_octets(*old(stream)) + self.octets(),
    {
        write_u8(stream, self.0);
        assert(out_octets(*stream) =~= out_octets(*old(stream)) + self.octets());
    }

    pub fn deserialize(stream: &mut InOctetStream) -> (r: Result<ClientRequestId, StreamError>)
        ensures
            parsed_from(ClientRequestId::parse(in_remaining(*old(stream))), r, *old(stream), *final(stream)),
    {
        match read_u8_checked(stream) {
            Ok(v) => Ok(ClientRequestId(v)),
            Err(e) => Err(e),
        }
    }
}

/// A semantic version.
#[derive(Debug, Clone, Copy, PartialEq, Eq, Structural)]
pub struct Version {
    pub major: u16,
    pub minor: u16,
    pub patch: u16,
}

impl Version {
    /// Major, minor and patch, each as two big-endian octets.
    pub open spec fn octets(self) -> Seq<u8> {
        be_u16(self.major) + be_u16(self.minor) + be_u16(self.patch)
    }

    /// Reading major, minor and patch.
    pub open spec fn parse(data: Seq<u8>) -> Result<(Version, nat), StreamError> {
        if data.len() >= 6 {
            Ok(
                (
                    Version {
                        major: parse_u16(data)->Ok_0.0,
                        minor: parse_u16(data.skip(2))->Ok_0.0,
                        patch: parse_u16(data.skip(4))->Ok_0.0,
                    },
                    6,
                ),
            )
        } else {
            Err(StreamError::UnexpectedEnd)
        }
    }

    pub fn to_stream(&self, stream: &mut OutOctetStream)
        ensures
            out_octets(*final(stream)) == out_octets(*old(stream)) + self.octets(),
    {
        write_u16(stream, self.major);
        write_u16(stream, self.minor);
        write_u16(stream, self.patch);
        assert(out_octets(*stream) =~= out_octets(*old(stream)) + self.octets());
    }

    pub fn from_stream(stream: &mut InOctetStream) -> (r: Result<Version, StreamError>)
        ensures
            parsed_from(Version::parse(in_remaining(*old(stream))), r, *old(stream), *final(stream)),
    {
        let ghost start = in_remaining(*stream);
        let major = match read_u16_checked(stream) {
            Ok(v) => v,
            Err(e) => return Err(e),
        };
        let minor = match read_u16_checked(stream) {
            Ok(v) => v,
            Err(e) => return Err(e),
        };
        proof {
            lemma_skip_skip(start, 2, 2);
        }
        let patch = match read_u16_checked(stream) {
            Ok(v) => v,
            Err(e) => return Err(e),
        };
        proof {
            lemma_skip_skip(start, 4, 2);
        }
        Ok(Version { major, minor, patch })
    }

    /// Reading the octets of a version gives it back, whatever follows them.
    pub proof fn lemma_roundtrip(self, rest: Seq<u8>)
        ensures
            Version::parse(self.octets() + rest) == Ok::<(Version, nat), StreamError>((self, 6)),
    {
        let d = self.octets() + rest;
        assert(d =~= be_u16(self.major) + (be_u16(self.minor) + (be_u16(self.patch) + rest)));
        lemma_parse_u16_be(self.major, be_u16(self.minor) + (be_u16(self.patch) + rest));
        assert(d.skip(2) =~= be_u16(self.minor) + (be_u16(self.patch) + rest));
        lemma_parse_u16_be(self.minor, be_u16(self.patch) + rest);
        assert(d.skip(4) =~= be_u16(self.patch) + rest);
        lemma_parse_u16_be(self.patch, rest);
    }
}

/// The secret that the host hands a session, which a client presents to rejoin.
#[derive(Debug, Clone, Copy, PartialEq, Eq, Structural)]
pub struct SessionConnectionSecret {
    pub value: u64,
}

impl SessionConnectionSecret {
    /// The text `session_secret: ` and the secret in uppercase hex (its `Display` form).
    pub fn to_string(&self) -> (s: String)
        ensures
            s@ == "session_secret: "@ + crate::decimal::hex_upper(self.value as nat),
    {
        let mut s = crate::decimal::string_of("session_secret: ");
        crate::decimal::push_hex_upper(&mut s, self.value as u64);
        s
    }
    /// The secret as eight big-endian octets.
    pub open spec fn octets(self) -> Seq<u8> {
        be_u64(self.value)
    }

    /// Reading a secret.
    pub open spec fn parse(data: Seq<u8>) -> Result<(SessionConnectionSecret, nat), StreamError> {
        match parse_u64(data) {
            Ok((v, n)) => Ok((SessionConnectionSecret { value: v }, n)),
            Err(e) => Err(e),
        }
    }

    pub fn to_stream(&self, stream: &mut OutOctetStream)
        ensures
            out_octets(*final(stream)) == out_octets(*old(stream)) + self.octets(),
    {
        write_u64(stream, self.value);
    }

    pub fn from_stream(stream: &mut InOctetStream) -> (r: Result<SessionConnectionSecret, StreamError>)
        ensures
            parsed_from(
                SessionConnectionSecret::parse(in_remaining(*old(stream))),
                r,
                *old(stream),
                *final(stream),
            ),
    {
        match read_u64_checked(stream) {
            Ok(v) => Ok(SessionConnectionSecret { value: v }),
            Err(e) => Err(e),
        }
    }

    /// Reading the octets of a secret gives it back, whatever follows them.
    pub proof fn lemma_roundtrip(self, rest: Seq<u8>)
        ensures
            SessionConnectionSecret::parse(self.octets() + rest) == Ok::<
                (SessionConnectionSecret, nat),
                StreamError,
            >((self, 8)),
    {
        lemma_parse_u64_be(self.value, rest);
    }
}

/// The octets as uppercase two-digit hex, separated by single spaces.
pub open spec fn hex_text(data: Seq<u8>) -> Seq<char>
    decreases data.len(),
{
    if data.len() == 0 {
        Seq::<char>::empty()
    } else if data.len() == 1 {
        hex_octet(data[0])
    } else {
        hex_text(data.drop_last()) + seq![' '] + hex_octet(data.last())
    }
}

/// The octets as uppercase two-digit hex, separated by single spaces (no trailing space).
pub fn hex_output(data: &[u8]) -> (s: String)
    ensures
        s@ == hex_text(data@),
{
    let mut s = String::new();
    let mut i: usize = 0;
    while i < data.len()
        invariant
            i <= data@.len(),
            s@ == hex_text(data@.take(i as int)),
        decreases data@.len() - i,
    {
        if i > 0 {
            push_char(&mut s, ' ');
        }
        push_hex_octet(&mut s, data[i]);
        proof {
            let t = data@.take(i + 1);
            assert(t.drop_last() =~= data@.take(i as int));
            if i == 0 {
                assert(data@.take(0) =~= Seq::<u8>::empty());
            }
        }
        i = i + 1;
    }
    assert(data@.take(data@.len() as int) =~= data@);
    s
}

} // verus!

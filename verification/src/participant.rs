//! The id of a participant in a game session.
use vstd::prelude::*;
use flood_rs::in_stream::InOctetStream;
use flood_rs::out_stream::OutOctetStream;
use crate::stream::{out_octets, in_remaining, parse_u8, parsed_from, write_u8, read_u8_checked, StreamError};

verus! {

/// A participant in a game session, numbered by the host.
#[derive(Debug, Clone, Copy, PartialEq, Eq, Structural, Hash)]
pub struct ParticipantId(pub u8);

impl ParticipantId {
    /// The id as one octet.
    pub open spec fn octets(self) -> Seq<u8> {
        seq![self.0]
    }

    /// Reading an id from one octet.
    pub open spec fn parse(data: Seq<u8>) -> Result<(ParticipantId, nat), StreamError> {
        match parse_u8(data) {
            Ok((v, n)) => Ok((ParticipantId(v), n)),
            Err(e) => Err(e),
        }
    }

    pub fn to_stream(&self, stream: &mut OutOctetStream)
        ensures
            out_octets(*final(stream)) == out_octets(*old(stream)) + self.octets(),
    {
        write_u8(stream, self.0);
        assert(out_octets(*stream) =~= out_octets(*old(stream)) + self.octets());
    }

    pub fn from_stream(stream: &mut InOctetStream) -> (r: Result<ParticipantId, StreamError>)
        ensures
            parsed_from(ParticipantId::parse(in_remaining(*old(stream))), r, *old(stream), *final(stream)),
    {
        match read_u8_checked(stream) {
            Ok(v) => Ok(ParticipantId(v)),
            Err(e) => Err(e),
        }
    }

    /// The text `participant:` and the decimal id (its `Display` form).
    pub fn to_string(&self) -> (s: String)
        ensures
            s@ == "participant:"@ + crate::decimal::decimal(self.0 as nat),
    {
        let mut s = crate::decimal::string_of("participant:");
        crate::decimal::push_decimal(&mut s, self.0 as u64);
        s
    }
}

} // verus!

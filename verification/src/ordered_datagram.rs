//! Datagram sequence numbers: a sender stamps each datagram with a 16-bit id that
//! wraps around, and a receiver accepts ids within a window at or after the expected one.
use vstd::prelude::*;
use flood_rs::in_stream::InOctetStream;
use flood_rs::out_stream::OutOctetStream;
use crate::stream::{out_octets, in_remaining, be_u16, parse_u16, write_u16, read_u16_checked, StreamError, lemma_parse_u16_be};

verus! {

/// How far ahead of the expected id a received id may be: 10 datagrams per tick,
/// 62.5 ticks per second, one second of latency.
pub const ORDERED_DATAGRAM_ID_ACCEPTABLE_DIFF: i32 = 625;

/// A wrapping 16-bit datagram sequence number.
#[derive(Debug, Default, Clone, Copy, PartialEq, Eq, Structural)]
pub struct DatagramId(pub u16);

/// How many ids `after` lies past `before`, counting around the wrap (0 to 65535).
pub open spec fn id_distance(before: u16, after: u16) -> int {
    if after >= before {
        after - before
    } else {
        after - before + 65536
    }
}

impl DatagramId {
    /// The text `DatagramId(`, the id in uppercase hex, and `)` (its `Display` form).
    pub fn to_string(&self) -> (s: String)
        ensures
            s@ == ("DatagramId("@ + crate::decimal::hex_upper(self.0 as nat)).push(')'),
    {
        let mut s = crate::decimal::string_of("DatagramId(");
        crate::decimal::push_hex_upper(&mut s, self.0 as u64);
        crate::decimal::push_char(&mut s, ')');
        s
    }
    pub fn new(value: u16) -> (id: DatagramId)
        ensures
            id.0 == value,
    {
        DatagramId(value)
    }

    pub fn inner(&self) -> (v: u16)
        ensures
            v == self.0,
    {
        self.0
    }

    /// Writes the id as two big-endian octets.
    pub fn to_stream(self, stream: &mut OutOctetStream)
        ensures
            out_octets(*final(stream)) == out_octets(*old(stream)) + be_u16(self.0),
    {
        write_u16(stream, self.0);
    }

    /// Reads an id from two big-endian octets.
    pub fn from_stream(stream: &mut InOctetStream) -> (r: Result<DatagramId, StreamError>)
        ensures
            match parse_u16(in_remaining(*old(stream))) {
                Ok((v, n)) => r == Ok::<DatagramId, StreamError>(DatagramId(v)) && in_remaining(
                    *final(stream),
                ) == in_remaining(*old(stream)).skip(n as int),
                Err(e) => r == Err::<DatagramId, StreamError>(e),
            },
    {
        match read_u16_checked(stream) {
            Ok(v) => Ok(DatagramId(v)),
            Err(e) => Err(e),
        }
    }

    /// The wrapping distance from `self` to `after`.
    pub fn diff(self, after: DatagramId) -> (d: i32)
        ensures
            d == id_distance(self.0, after.0),
    {
        after.0.wrapping_sub(self.0) as i32
    }

    /// Whether `after` is one of the next 625 ids after `self`.
    pub fn is_valid_successor(self, after: DatagramId) -> (b: bool)
        ensures
            b == (0 < id_distance(self.0, after.0) <= 625),
    {
        let diff = self.diff(after);
        diff > 0 && diff <= ORDERED_DATAGRAM_ID_ACCEPTABLE_DIFF
    }

    /// Whether `after` is `self` or one of the next 625 ids after it.
    pub fn is_equal_or_successor(self, after: DatagramId) -> (b: bool)
        ensures
            b == (0 <= id_distance(self.0, after.0) <= 625),
    {
        let diff = self.diff(after);
        0 <= diff && diff <= ORDERED_DATAGRAM_ID_ACCEPTABLE_DIFF
    }
}

/// The sending side: the id to stamp on the next datagram.
#[derive(Debug, Default, Clone, Copy)]
pub struct OrderedOut {
    pub sequence_to_send: DatagramId,
}

impl OrderedOut {
    pub fn new() -> (out: OrderedOut)
        ensures
            out.sequence_to_send.0 == 0,
    {
        OrderedOut { sequence_to_send: DatagramId(0) }
    }

    /// Writes the id to stamp.
    pub fn to_stream(&self, stream: &mut OutOctetStream)
        ensures
            out_octets(*final(stream)) == out_octets(*old(stream)) + be_u16(
                self.sequence_to_send.0,
            ),
    {
        self.sequence_to_send.to_stream(stream);
    }
}

/// Why a received datagram id was refused.
#[derive(Debug, Clone, Copy, PartialEq, Eq, Structural)]
pub enum DatagramOrderError {
    /// The id could not be read.
    Stream(StreamError),
    /// The id lies before the expected one or too far after it.
    WrongOrder { expected: DatagramId, received: DatagramId },
}

/// The receiving side: the id expected next.
#[derive(Debug, Default, Clone, Copy)]
pub struct OrderedIn {
    pub expected_sequence: DatagramId,
}

impl OrderedIn {
    /// Reads a datagram id; when it is the expected id or within the window after it,
    /// it becomes the expected id; otherwise the datagram is refused and nothing changes.
    pub fn read_and_verify(&mut self, stream: &mut InOctetStream) -> (r: Result<
        (),
        DatagramOrderError,
    >)
        ensures
            match parse_u16(in_remaining(*old(stream))) {
                Err(e) => r == Err::<(), DatagramOrderError>(DatagramOrderError::Stream(e))
                    && final(self).expected_sequence == old(self).expected_sequence,
                Ok((v, n)) => {
                    &&& in_remaining(*final(stream)) == in_remaining(*old(stream)).skip(n as int)
                    &&& if 0 <= id_distance(old(self).expected_sequence.0, v) <= 625 {
                        r is Ok && final(self).expected_sequence == DatagramId(v)
                    } else {
                        r == Err::<(), DatagramOrderError>(
                            DatagramOrderError::WrongOrder {
                                expected: old(self).expected_sequence,
                                received: DatagramId(v),
                            },
                        ) && final(self).expected_sequence == old(self).expected_sequence
                    }
                },
            },
    {
        let potential = match DatagramId::from_stream(stream) {
            Ok(id) => id,
            Err(e) => return Err(DatagramOrderError::Stream(e)),
        };
        if self.expected_sequence.is_equal_or_successor(potential) {
            self.expected_sequence = potential;
            Ok(())
        } else {
            Err(
                DatagramOrderError::WrongOrder {
                    expected: self.expected_sequence,
                    received: potential,
                },
            )
        }
    }
}

/// Reading back a written id gives the same id.
pub proof fn lemma_datagram_id_roundtrip(id: DatagramId, rest: Seq<u8>)
    ensures
        parse_u16(be_u16(id.0) + rest) == Ok::<(u16, nat), StreamError>((id.0, 2)),
{
    lemma_parse_u16_be(id.0, rest);
}

/// The id after `id`, wrapping from 65535 to 0, is always a valid successor; `id`
/// itself is not, and neither is any id that lies more than 625 ids ahead.
pub proof fn lemma_next_id_is_valid_successor(id: u16)
    ensures
        0 < id_distance(id, if id == u16::MAX { 0 } else { (id + 1) as u16 }) <= 625,
        !(0 < id_distance(id, id) <= 625),
{
}

/// An accepted id always lies in the window `[expected, expected + 625]`, wrapping.
pub proof fn lemma_distance_in_range(before: u16, after: u16)
    ensures
        0 <= id_distance(before, after) < 65536,
        id_distance(before, after) == 0 <==> before == after,
{
}

} // verus!

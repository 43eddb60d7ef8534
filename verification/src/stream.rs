//! Octet streams of `flood_rs`, seen through their contents.
//!
//! `OutOctetStream` appends octets; `InOctetStream` hands out the octets that
//! have not been read yet. All multi-octet integers are big-endian.
use vstd::prelude::*;
pub use vstd::view::View;
use flood_rs::in_stream::InOctetStream;
use flood_rs::out_stream::OutOctetStream;
use flood_rs::{ReadOctetStream, WriteOctetStream};

verus! {

#[verifier::external_type_specification]
#[verifier::external_body]
pub struct ExOutOctetStream(OutOctetStream);

#[verifier::external_type_specification]
#[verifier::external_body]
pub struct ExInOctetStream(InOctetStream);

/// The octets written so far to an `OutOctetStream`.
pub uninterp spec fn out_octets(stream: OutOctetStream) -> Seq<u8>;

/// The octets of an `InOctetStream` that have not been read yet.
pub uninterp spec fn in_remaining(stream: InOctetStream) -> Seq<u8>;

/// The read position of an `InOctetStream` is not past the end of its octets (its
/// cursor is a public field, which can be moved past the end by hand).
pub uninterp spec fn in_within(stream: InOctetStream) -> bool;

/// Big-endian octets of a 16-bit value.
pub open spec fn be_u16(v: u16) -> Seq<u8> {
    seq![(v >> 8u16) as u8, v as u8]
}

/// Big-endian octets of a 32-bit value.
pub open spec fn be_u32(v: u32) -> Seq<u8> {
    seq![(v >> 24u32) as u8, (v >> 16u32) as u8, (v >> 8u32) as u8, v as u8]
}

/// Big-endian octets of a 64-bit value.
pub open spec fn be_u64(v: u64) -> Seq<u8> {
    seq![
        (v >> 56u64) as u8,
        (v >> 48u64) as u8,
        (v >> 40u64) as u8,
        (v >> 32u64) as u8,
        (v >> 24u64) as u8,
        (v >> 16u64) as u8,
        (v >> 8u64) as u8,
        v as u8,
    ]
}

/// The 16-bit value of two big-endian octets.
pub open spec fn u16_of(b0: u8, b1: u8) -> u16 {
    ((b0 as u16) << 8u16) | (b1 as u16)
}

/// The 32-bit value of four big-endian octets.
pub open spec fn u32_of(b0: u8, b1: u8, b2: u8, b3: u8) -> u32 {
    ((b0 as u32) << 24u32) | ((b1 as u32) << 16u32) | ((b2 as u32) << 8u32) | (b3 as u32)
}

/// The 64-bit value of eight big-endian octets.
pub open spec fn u64_of(b: Seq<u8>) -> u64 {
    ((b[0] as u64) << 56u64) | ((b[1] as u64) << 48u64) | ((b[2] as u64) << 40u64) | ((
    b[3] as u64) << 32u64) | ((b[4] as u64) << 24u64) | ((b[5] as u64) << 16u64) | ((
    b[6] as u64) << 8u64) | (b[7] as u64)
}

/// Why reading from an octet stream failed.
#[derive(Debug, Clone, Copy, PartialEq, Eq, Structural)]
pub enum StreamError {
    /// Fewer octets were left than the value needs.
    UnexpectedEnd,
    /// An octet that should name a command, a variant or a kind holds an unknown value.
    UnknownValue(u8),
    /// The octets do not describe a valid value.
    InvalidData,
}

/// A value that writes itself to an octet stream; its octets are a function of its view.
pub trait Serialize: View {
    /// The octets that serializing a value with view `v` appends.
    spec fn octets_of(v: Self::V) -> Seq<u8>;

    fn serialize(&self, stream: &mut OutOctetStream)
        ensures
            out_octets(*final(stream)) == out_octets(*old(stream)) + Self::octets_of(self@),
    ;
}

/// A value that reads itself from an octet stream.
pub trait Deserialize: View + Sized {
    /// What reading from the front of `data` gives: the view of the value and how many
    /// octets it spans, or the error.
    spec fn parse(data: Seq<u8>) -> Result<(Self::V, nat), StreamError>;

    fn deserialize(stream: &mut InOctetStream) -> (r: Result<Self, StreamError>)
        ensures
            parsed_view_from(Self::parse(in_remaining(*old(stream))), r, *old(stream), *final(stream)),
            in_within(*old(stream)) ==> in_within(*final(stream)),
    ;
}

/// A value whose serialized octets read back as the value itself.
pub trait Roundtrip: Serialize + Deserialize {
    /// The views that serialize faithfully (counts that fit their length field).
    spec fn encodable(v: Self::V) -> bool;

    /// Reading the octets of an encodable value, whatever follows them, gives the
    /// value back and spans exactly its octets.
    proof fn lemma_roundtrip(v: Self::V, rest: Seq<u8>)
        requires
            Self::encodable(v),
        ensures
            Self::parse(Self::octets_of(v) + rest) == Ok::<(Self::V, nat), StreamError>(
                (v, Self::octets_of(v).len()),
            ),
    ;
}

/// How a read of a value relates to what reading from the stream's remaining octets
/// gives, through the value's view: on success a value with the parsed view comes back
/// and exactly its octets are consumed; on failure the error comes back.
pub open spec fn parsed_view_from<T: View>(
    parsed: Result<(T::V, nat), StreamError>,
    r: Result<T, StreamError>,
    before: InOctetStream,
    after: InOctetStream,
) -> bool {
    match parsed {
        Ok((v, n)) => {
            &&& r matches Ok(x) && x@ == v
            &&& n <= in_remaining(before).len()
            &&& in_remaining(after) == in_remaining(before).skip(n as int)
        },
        Err(e) => r == Err::<T, StreamError>(e),
    }
}

/// How a read of a value relates to what reading from the stream's remaining octets
/// gives: on success the value comes back and exactly its octets are consumed; on
/// failure the error comes back.
pub open spec fn parsed_from<T>(
    parsed: Result<(T, nat), StreamError>,
    r: Result<T, StreamError>,
    before: InOctetStream,
    after: InOctetStream,
) -> bool {
    match parsed {
        Ok((v, n)) => {
            &&& r == Ok::<T, StreamError>(v)
            &&& n <= in_remaining(before).len()
            &&& in_remaining(after) == in_remaining(before).skip(n as int)
        },
        Err(e) => r == Err::<T, StreamError>(e),
    }
}

/// Reading one octet from the front of `data`.
pub open spec fn parse_u8(data: Seq<u8>) -> Result<(u8, nat), StreamError> {
    if data.len() >= 1 {
        Ok((data[0], 1))
    } else {
        Err(StreamError::UnexpectedEnd)
    }
}

/// Reading a big-endian 16-bit value from the front of `data`.
pub open spec fn parse_u16(data: Seq<u8>) -> Result<(u16, nat), StreamError> {
    if data.len() >= 2 {
        Ok((u16_of(data[0], data[1]), 2))
    } else {
        Err(StreamError::UnexpectedEnd)
    }
}

/// Reading a big-endian 32-bit value from the front of `data`.
pub open spec fn parse_u32(data: Seq<u8>) -> Result<(u32, nat), StreamError> {
    if data.len() >= 4 {
        Ok((u32_of(data[0], data[1], data[2], data[3]), 4))
    } else {
        Err(StreamError::UnexpectedEnd)
    }
}

/// Reading a big-endian 64-bit value from the front of `data`.
pub open spec fn parse_u64(data: Seq<u8>) -> Result<(u64, nat), StreamError> {
    if data.len() >= 8 {
        Ok((u64_of(data), 8))
    } else {
        Err(StreamError::UnexpectedEnd)
    }
}

pub proof fn lemma_u16_roundtrip(v: u16)
    ensures
        u16_of((v >> 8u16) as u8, v as u8) == v,
{
    assert(u16_of((v >> 8u16) as u8, v as u8) == v) by (bit_vector);
}

pub proof fn lemma_u32_roundtrip(v: u32)
    ensures
        u32_of((v >> 24u32) as u8, (v >> 16u32) as u8, (v >> 8u32) as u8, v as u8) == v,
{
    assert(u32_of((v >> 24u32) as u8, (v >> 16u32) as u8, (v >> 8u32) as u8, v as u8) == v)
        by (bit_vector);
}

pub proof fn lemma_u64_roundtrip(v: u64)
    ensures
        u64_of(be_u64(v)) == v,
{
    let b = be_u64(v);
    assert(((((v >> 56u64) as u8) as u64) << 56u64) | ((((v >> 48u64) as u8) as u64) << 48u64)
        | ((((v >> 40u64) as u8) as u64) << 40u64) | ((((v >> 32u64) as u8) as u64) << 32u64)
        | ((((v >> 24u64) as u8) as u64) << 24u64) | ((((v >> 16u64) as u8) as u64) << 16u64)
        | ((((v >> 8u64) as u8) as u64) << 8u64) | ((v as u8) as u64) == v) by (bit_vector);
}

/// Reading back the octets that a 16-bit write appended, whatever follows them.
pub proof fn lemma_parse_u16_be(v: u16, rest: Seq<u8>)
    ensures
        parse_u16(be_u16(v) + rest) == Ok::<(u16, nat), StreamError>((v, 2)),
{
    lemma_u16_roundtrip(v);
    let d = be_u16(v) + rest;
    assert(d[0] == (v >> 8u16) as u8 && d[1] == v as u8);
}

/// Reading back the octets that a 32-bit write appended, whatever follows them.
pub proof fn lemma_parse_u32_be(v: u32, rest: Seq<u8>)
    ensures
        parse_u32(be_u32(v) + rest) == Ok::<(u32, nat), StreamError>((v, 4)),
{
    lemma_u32_roundtrip(v);
    let d = be_u32(v) + rest;
    assert(d[0] == (v >> 24u32) as u8 && d[1] == (v >> 16u32) as u8 && d[2] == (v >> 8u32) as u8
        && d[3] == v as u8);
}

/// Reading back the octets that a 64-bit write appended, whatever follows them.
pub proof fn lemma_parse_u64_be(v: u64, rest: Seq<u8>)
    ensures
        parse_u64(be_u64(v) + rest) == Ok::<(u64, nat), StreamError>((v, 8)),
{
    lemma_u64_roundtrip(v);
    let d = be_u64(v) + rest;
    assert(u64_of(d) == u64_of(be_u64(v)));
}

/// Skipping `a` octets and then `b` octets skips `a + b` octets.
pub proof fn lemma_skip_skip(s: Seq<u8>, a: int, b: int)
    requires
        0 <= a,
        0 <= b,
        a + b <= s.len(),
    ensures
        s.skip(a).skip(b) == s.skip(a + b),
{
    assert(s.skip(a).skip(b) =~= s.skip(a + b));
}

/// Skipping the first part of a concatenation leaves the second part.
pub proof fn lemma_skip_prefix(a: Seq<u8>, b: Seq<u8>)
    ensures
        (a + b).skip(a.len() as int) == b,
{
    assert((a + b).skip(a.len() as int) =~= b);
}

/// Reads one octet, failing with `UnexpectedEnd` when none is left.
pub fn read_u8_checked(stream: &mut InOctetStream) -> (r: Result<u8, StreamError>)
    ensures
        in_within(*old(stream)) ==> in_within(*final(stream)),
        match parse_u8(in_remaining(*old(stream))) {
            Ok((v, n)) => r == Ok::<u8, StreamError>(v) && in_remaining(*final(stream))
                == in_remaining(*old(stream)).skip(n as int),
            Err(e) => r == Err::<u8, StreamError>(e),
        },
{
    match read_u8(stream) {
        Some(v) => Ok(v),
        None => Err(StreamError::UnexpectedEnd),
    }
}

/// Reads a big-endian 16-bit value, failing with `UnexpectedEnd` when too few octets are left.
pub fn read_u16_checked(stream: &mut InOctetStream) -> (r: Result<u16, StreamError>)
    ensures
        in_within(*old(stream)) ==> in_within(*final(stream)),
        match parse_u16(in_remaining(*old(stream))) {
            Ok((v, n)) => r == Ok::<u16, StreamError>(v) && in_remaining(*final(stream))
                == in_remaining(*old(stream)).skip(n as int),
            Err(e) => r == Err::<u16, StreamError>(e),
        },
{
    match read_u16(stream) {
        Some(v) => Ok(v),
        None => Err(StreamError::UnexpectedEnd),
    }
}

/// Reads a big-endian 32-bit value, failing with `UnexpectedEnd` when too few octets are left.
pub fn read_u32_checked(stream: &mut InOctetStream) -> (r: Result<u32, StreamError>)
    ensures
        in_within(*old(stream)) ==> in_within(*final(stream)),
        match parse_u32(in_remaining(*old(stream))) {
            Ok((v, n)) => r == Ok::<u32, StreamError>(v) && in_remaining(*final(stream))
                == in_remaining(*old(stream)).skip(n as int),
            Err(e) => r == Err::<u32, StreamError>(e),
        },
{
    match read_u32(stream) {
        Some(v) => Ok(v),
        None => Err(StreamError::UnexpectedEnd),
    }
}

/// Reads a big-endian 64-bit value, failing with `UnexpectedEnd` when too few octets are left.
pub fn read_u64_checked(stream: &mut InOctetStream) -> (r: Result<u64, StreamError>)
    ensures
        in_within(*old(stream)) ==> in_within(*final(stream)),
        match parse_u64(in_remaining(*old(stream))) {
            Ok((v, n)) => r == Ok::<u64, StreamError>(v) && in_remaining(*final(stream))
                == in_remaining(*old(stream)).skip(n as int),
            Err(e) => r == Err::<u64, StreamError>(e),
        },
{
    match read_u64(stream) {
        Some(v) => Ok(v),
        None => Err(StreamError::UnexpectedEnd),
    }
}

/// `OutOctetStream::new`: the stream starts empty.
#[verifier::external_body]
pub(crate) fn new_out_stream() -> (stream: OutOctetStream)
    ensures
        out_octets(stream) == Seq::<u8>::empty(),
{
    OutOctetStream::new()
}

/// `OutOctetStream::write_u8`: pushes the octet; it always returns `Ok`.
#[verifier::external_body]
pub(crate) fn write_u8(stream: &mut OutOctetStream, v: u8)
    ensures
        out_octets(*final(stream)) == out_octets(*old(stream)).push(v),
{
    let _ = stream.write_u8(v);
}

/// `OutOctetStream::write_i8`: pushes the octet of the value's two's complement
/// (`v as u8`); it always returns `Ok`.
#[verifier::external_body]
pub(crate) fn write_i8(stream: &mut OutOctetStream, v: i8)
    ensures
        out_octets(*final(stream)) == out_octets(*old(stream)).push(v as u8),
{
    let _ = stream.write_i8(v);
}

/// `OutOctetStream::write_i16`: pushes the two big-endian octets of the value's two's
/// complement (`v as u16`); it always returns `Ok`.
#[verifier::external_body]
pub(crate) fn write_i16(stream: &mut OutOctetStream, v: i16)
    ensures
        out_octets(*final(stream)) == out_octets(*old(stream)) + be_u16(v as u16),
{
    let _ = stream.write_i16(v);
}

/// `OutOctetStream::write_i32`: pushes the four big-endian octets of the value's two's
/// complement (`v as u32`); it always returns `Ok`.
#[verifier::external_body]
pub(crate) fn write_i32(stream: &mut OutOctetStream, v: i32)
    ensures
        out_octets(*final(stream)) == out_octets(*old(stream)) + be_u32(v as u32),
{
    let _ = stream.write_i32(v);
}

/// `OutOctetStream::write_u16`: pushes the two big-endian octets; it always returns `Ok`.
#[verifier::external_body]
pub(crate) fn write_u16(stream: &mut OutOctetStream, v: u16)
    ensures
        out_octets(*final(stream)) == out_octets(*old(stream)) + be_u16(v),
{
    let _ = stream.write_u16(v);
}

/// `OutOctetStream::write_u32`: pushes the four big-endian octets; it always returns `Ok`.
#[verifier::external_body]
pub(crate) fn write_u32(stream: &mut OutOctetStream, v: u32)
    ensures
        out_octets(*final(stream)) == out_octets(*old(stream)) + be_u32(v),
{
    let _ = stream.write_u32(v);
}

/// `OutOctetStream::write_u64`: pushes the eight big-endian octets; it always returns `Ok`.
#[verifier::external_body]
pub(crate) fn write_u64(stream: &mut OutOctetStream, v: u64)
    ensures
        out_octets(*final(stream)) == out_octets(*old(stream)) + be_u64(v),
{
    let _ = stream.write_u64(v);
}

/// `OutOctetStream::write`: appends the slice (`extend_from_slice`); it always returns `Ok`.
#[verifier::external_body]
pub(crate) fn write_octets(stream: &mut OutOctetStream, v: &[u8])
    ensures
        out_octets(*final(stream)) == out_octets(*old(stream)) + v@,
{
    let _ = stream.write(v);
}

/// `OutOctetStream::octets`: a copy of the octets written so far.
#[verifier::external_body]
pub(crate) fn out_stream_octets(stream: &OutOctetStream) -> (r: Vec<u8>)
    ensures
        r@ == out_octets(*stream),
{
    stream.octets()
}

/// `InOctetStream::new`: a stream over a copy of `data`, with nothing read yet (its
/// cursor at the front).
#[verifier::external_body]
pub(crate) fn new_in_stream(data: &[u8]) -> (stream: InOctetStream)
    ensures
        in_remaining(stream) == data@,
        in_within(stream),
{
    InOctetStream::new(data)
}

/// `InOctetStream::has_reached_end`: whether the read position is at the end of the
/// octets. Then nothing is left; and when the position is not past the end, it is at
/// the end exactly when nothing is left.
#[verifier::external_body]
pub(crate) fn has_reached_end(stream: &mut InOctetStream) -> (r: bool)
    ensures
        r ==> in_remaining(*old(stream)).len() == 0,
        in_within(*old(stream)) ==> r == (in_remaining(*old(stream)).len() == 0),
        *final(stream) == *old(stream),
{
    stream.has_reached_end()
}

/// `InOctetStream::read_u8` (a cursor `read_exact` of one octet). When an octet is
/// left it is returned and consumed; otherwise `None` comes back (the
/// `UnexpectedEof` error), and nothing is said of the stream afterwards.
/// The read never moves a position that is not past the end past it.
#[verifier::external_body]
pub(crate) fn read_u8(stream: &mut InOctetStream) -> (r: Option<u8>)
    ensures
        in_within(*old(stream)) ==> in_within(*final(stream)),
        in_remaining(*old(stream)).len() >= 1 ==> r == Some(in_remaining(*old(stream))[0])
            && in_remaining(*final(stream)) == in_remaining(*old(stream)).skip(1),
        in_remaining(*old(stream)).len() < 1 ==> r is None,
{
    stream.read_u8().ok()
}

/// `InOctetStream::read_i8`: one octet taken as two's complement (`as i8`), as for
/// `read_u8`.
/// The read never moves a position that is not past the end past it.
#[verifier::external_body]
pub(crate) fn read_i8(stream: &mut InOctetStream) -> (r: Option<i8>)
    ensures
        in_within(*old(stream)) ==> in_within(*final(stream)),
        in_remaining(*old(stream)).len() >= 1 ==> r == Some(in_remaining(*old(stream))[0] as i8)
            && in_remaining(*final(stream)) == in_remaining(*old(stream)).skip(1),
        in_remaining(*old(stream)).len() < 1 ==> r is None,
{
    stream.read_i8().ok()
}

/// `InOctetStream::read_i16`: two big-endian octets taken as two's complement, as for
/// `read_u16`.
/// The read never moves a position that is not past the end past it.
#[verifier::external_body]
pub(crate) fn read_i16(stream: &mut InOctetStream) -> (r: Option<i16>)
    ensures
        in_within(*old(stream)) ==> in_within(*final(stream)),
        in_remaining(*old(stream)).len() >= 2 ==> r == Some(
            u16_of(in_remaining(*old(stream))[0], in_remaining(*old(stream))[1]) as i16,
        ) && in_remaining(*final(stream)) == in_remaining(*old(stream)).skip(2),
        in_remaining(*old(stream)).len() < 2 ==> r is None,
{
    stream.read_i16().ok()
}

/// `InOctetStream::read_i32`: four big-endian octets taken as two's complement, as for
/// `read_u32`.
/// The read never moves a position that is not past the end past it.
#[verifier::external_body]
pub(crate) fn read_i32(stream: &mut InOctetStream) -> (r: Option<i32>)
    ensures
        in_within(*old(stream)) ==> in_within(*final(stream)),
        in_remaining(*old(stream)).len() >= 4 ==> r == Some(
            u32_of(
                in_remaining(*old(stream))[0],
                in_remaining(*old(stream))[1],
                in_remaining(*old(stream))[2],
                in_remaining(*old(stream))[3],
            ) as i32,
        ) && in_remaining(*final(stream)) == in_remaining(*old(stream)).skip(4),
        in_remaining(*old(stream)).len() < 4 ==> r is None,
{
    stream.read_i32().ok()
}

/// `InOctetStream::read_u16`: two big-endian octets, as for `read_u8`.
/// The read never moves a position that is not past the end past it.
#[verifier::external_body]
pub(crate) fn read_u16(stream: &mut InOctetStream) -> (r: Option<u16>)
    ensures
        in_within(*old(stream)) ==> in_within(*final(stream)),
        in_remaining(*old(stream)).len() >= 2 ==> r == Some(
            u16_of(in_remaining(*old(stream))[0], in_remaining(*old(stream))[1]),
        ) && in_remaining(*final(stream)) == in_remaining(*old(stream)).skip(2),
        in_remaining(*old(stream)).len() < 2 ==> r is None,
{
    stream.read_u16().ok()
}

/// `InOctetStream::read_u32`: four big-endian octets, as for `read_u8`.
/// The read never moves a position that is not past the end past it.
#[verifier::external_body]
pub(crate) fn read_u32(stream: &mut InOctetStream) -> (r: Option<u32>)
    ensures
        in_within(*old(stream)) ==> in_within(*final(stream)),
        in_remaining(*old(stream)).len() >= 4 ==> r == Some(
            u32_of(
                in_remaining(*old(stream))[0],
                in_remaining(*old(stream))[1],
                in_remaining(*old(stream))[2],
                in_remaining(*old(stream))[3],
            ),
        ) && in_remaining(*final(stream)) == in_remaining(*old(stream)).skip(4),
        in_remaining(*old(stream)).len() < 4 ==> r is None,
{
    stream.read_u32().ok()
}

/// `InOctetStream::read_u64`: eight big-endian octets, as for `read_u8`.
/// The read never moves a position that is not past the end past it.
#[verifier::external_body]
pub(crate) fn read_u64(stream: &mut InOctetStream) -> (r: Option<u64>)
    ensures
        in_within(*old(stream)) ==> in_within(*final(stream)),
        in_remaining(*old(stream)).len() >= 8 ==> r == Some(u64_of(in_remaining(*old(stream))))
            && in_remaining(*final(stream)) == in_remaining(*old(stream)).skip(8),
        in_remaining(*old(stream)).len() < 8 ==> r is None,
{
    stream.read_u64().ok()
}

/// `InOctetStream::read` into a zeroed buffer of `count` octets: when enough octets
/// are left they are returned and consumed; otherwise `None` (the `UnexpectedEof` error).
/// The read never moves a position that is not past the end past it.
#[verifier::external_body]
pub(crate) fn read_octets(stream: &mut InOctetStream, count: usize) -> (r: Option<Vec<u8>>)
    ensures
        in_within(*old(stream)) ==> in_within(*final(stream)),
        in_remaining(*old(stream)).len() >= count ==> (r matches Some(v) && v@ == in_remaining(
            *old(stream),
        ).take(count as int) && in_remaining(*final(stream)) == in_remaining(*old(stream)).skip(
            count as int,
        )),
        in_remaining(*old(stream)).len() < count ==> r is None,
{
    let mut buf = vec![0u8; count];
    match stream.read(&mut buf) {
        Ok(()) => Some(buf),
        Err(_) => None,
    }
}

} // verus!

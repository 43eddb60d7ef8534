//! Datagrams: the transport traits that applications implement, and packing serialized
//! items into datagrams (and reading them back) around an application's own header and
//! footer.
use vstd::prelude::*;
use vstd::slice::{slice_to_vec, slice_subrange};
use crate::stream::{
    Serialize, Deserialize, StreamError, out_octets, in_remaining, in_within, new_out_stream,
    out_stream_octets, new_in_stream, has_reached_end,
};

verus! {

#[verifier::external_type_specification]
#[verifier::external_body]
pub struct ExIoError(std::io::Error);

/// Sends datagrams (for example over UDP).
pub trait DatagramSender {
    /// Sends one datagram holding `data`.
    fn send(&mut self, data: &[u8]) -> Result<(), std::io::Error>;
}

/// Receives datagrams (for example over UDP).
pub trait DatagramReceiver {
    /// Receives one datagram into `buffer` and gives its length.
    fn receive(&mut self, buffer: &mut [u8]) -> Result<usize, std::io::Error>;
}

/// Sends and receives datagrams.
pub trait DatagramCommunicator: DatagramSender + DatagramReceiver {}

impl<T: DatagramSender + DatagramReceiver> DatagramCommunicator for T {}

/// Encodes a datagram's payload.
pub trait DatagramEncoder {
    fn encode(&mut self, data: &[u8]) -> Result<Vec<u8>, std::io::Error>;
}

/// Decodes a datagram's payload.
pub trait DatagramDecoder {
    fn decode(&mut self, buffer: &[u8]) -> Result<Vec<u8>, std::io::Error>;
}

/// Encodes and decodes datagrams.
pub trait DatagramCodec: DatagramEncoder + DatagramDecoder {}

impl<T: DatagramEncoder + DatagramDecoder> DatagramCodec for T {}

/// A call a datagram builder took, as its record holds it.
pub enum BuilderCall {
    /// `start_datagram`: the buffer it was handed, the buffer it left, and where the
    /// payload starts and the footer starts (or the failure).
    Start(Seq<u8>, Seq<u8>, Result<(usize, usize), StreamError>),
    /// `end_datagram`: the buffer it was handed, the payload length it was handed, the
    /// buffer it left, and the datagram's total length (or the failure).
    End(Seq<u8>, usize, Seq<u8>, Result<usize, StreamError>),
}

/// Whether a recorded builder call succeeded.
pub open spec fn call_succeeded(call: BuilderCall) -> bool {
    match call {
        BuilderCall::Start(_, _, r) => r is Ok,
        BuilderCall::End(_, _, _, r) => r is Ok,
    }
}

/// The frame a successful `start_datagram` call gave (none otherwise).
pub open spec fn call_frame(call: BuilderCall) -> (usize, usize) {
    match call {
        BuilderCall::Start(_, _, Ok(frame)) => frame,
        _ => (0, 0),
    }
}

/// Writes an application's header and footer around a datagram's payload. A builder
/// keeps a record of the calls it took, with what it was handed and what it gave,
/// which contracts speak of.
pub trait DatagramBuilder {
    /// The calls taken so far, in order.
    spec fn calls(&self) -> Seq<BuilderCall>;

    /// Writes the header of a new datagram into `buf` and gives where the payload may
    /// start and where the footer starts; an implementation must keep
    /// `header_end <= footer_start <= buf.len()`.
    fn start_datagram(&mut self, buf: &mut [u8]) -> (r: Result<(usize, usize), StreamError>)
        ensures
            final(buf)@.len() == old(buf)@.len(),
            r matches Ok((header_end, footer_start)) ==> header_end <= footer_start <= old(buf)@.len(),
            final(self).calls() == old(self).calls().push(BuilderCall::Start(old(buf)@, final(buf)@, r)),
    ;

    /// Completes the datagram around a payload of `payload_len` octets and gives the
    /// datagram's total length; an implementation must keep it within `buf.len()`.
    fn end_datagram(&mut self, buf: &mut [u8], payload_len: usize) -> (r: Result<usize, StreamError>)
        ensures
            final(buf)@.len() == old(buf)@.len(),
            r matches Ok(total) ==> total <= old(buf)@.len(),
            final(self).calls() == old(self).calls().push(BuilderCall::End(old(buf)@, payload_len, final(buf)@, r)),
    ;
}

/// Finds the payload inside a datagram. A parser keeps a record of the datagrams it
/// was handed, each with the payload it found (`None` where it failed), which contracts
/// speak of.
pub trait DatagramParser {
    /// The datagrams handed to `parse` so far, in order, with what it found.
    spec fn parsed(&self) -> Seq<(Seq<u8>, Option<Seq<u8>>)>;

    fn parse<'a>(&mut self, datagram: &'a [u8]) -> (r: Result<&'a [u8], StreamError>)
        ensures
            final(self).parsed() == old(self).parsed().push(
                (
                    datagram@,
                    match r {
                        Ok(p) => Some(p@),
                        Err(_) => None,
                    },
                ),
            ),
    ;
}

/// Why items could not be packed into datagrams.
#[derive(Debug, Clone, Copy, PartialEq, Eq, Structural)]
pub enum SerializeDatagramsError {
    /// An item is larger than the payload space of a datagram.
    ItemExceedsPayloadSpace,
    /// An item serialized to no octets.
    ZeroLengthItem,
    /// The datagram builder failed.
    Builder(StreamError),
}

/// Serializes one item on its own.
pub fn item_octets<T: Serialize>(item: &T) -> (octets: Vec<u8>)
    ensures
        octets@ == T::octets_of(item@),
{
    let mut stream = new_out_stream();
    item.serialize(&mut stream);
    assert(out_octets(stream) =~= T::octets_of(item@));
    out_stream_octets(&stream)
}

/// Copies `octets` into `buffer` from position `at` on.
pub fn copy_into(buffer: &mut Vec<u8>, at: usize, octets: &[u8])
    requires
        at + octets@.len() <= old(buffer)@.len(),
    ensures
        final(buffer)@ == old(buffer)@.take(at as int) + octets@ + old(buffer)@.skip(at + octets@.len()),
{
    let len = buffer.len();
    let mut k: usize = 0;
    while k < octets.len()
        invariant
            k <= octets@.len(),
            buffer@.len() == len,
            len == old(buffer)@.len(),
            at + octets@.len() <= old(buffer)@.len(),
            buffer@ == old(buffer)@.take(at as int) + octets@.take(k as int) + old(buffer)@.skip(at + k),
        decreases octets@.len() - k,
    {
        let ghost before = buffer@;
        buffer.set(at + k, octets[k]);
        assert(buffer@ =~= old(buffer)@.take(at as int) + octets@.take(k + 1) + old(buffer)@.skip(at + k + 1));
        k = k + 1;
    }
    assert(octets@.take(octets@.len() as int) =~= octets@);
}

/// The payload space of a frame: from where the payload starts to where the footer
/// starts.
pub open spec fn frame_space(frame: (usize, usize)) -> int {
    frame.1 - frame.0
}

/// The octets of the items from `from` up to `to`, one after another.
pub open spec fn run_octets<T: Serialize>(items: Seq<T::V>, from: int, to: int) -> Seq<u8> {
    crate::codec::items_octets::<T>(items.subrange(from, to))
}

/// Greedy packing of `items` into datagrams with the payload spaces of `frames`:
/// datagram `p` takes the items from `bounds[p]` up to `bounds[p + 1]`, at least one,
/// while they fit its space, and every datagram but the last ends only where the next
/// item does not fit.
pub open spec fn greedy_packing<T: Serialize>(items: Seq<T::V>, frames: Seq<(usize, usize)>, bounds: Seq<int>) -> bool {
    &&& bounds.len() == frames.len() + 1
    &&& bounds[0] == 0
    &&& bounds.last() == items.len()
    &&& forall|p: int| 0 <= p < frames.len() ==> bounds[p] < #[trigger] bounds[p + 1]
    &&& forall|p: int|
        0 <= p < frames.len() ==> run_octets::<T>(items, bounds[p], bounds[p + 1]).len() <= frame_space(
            #[trigger] frames[p],
        )
    &&& forall|p: int|
        0 <= p < frames.len() - 1 ==> run_octets::<T>(items, bounds[p], bounds[p + 1] + 1).len() > frame_space(
            #[trigger] frames[p],
        )
}

/// `n` zero octets.
pub open spec fn zeros(n: nat) -> Seq<u8> {
    Seq::new(n, |i: int| 0u8)
}

/// The frames the successful `start_datagram` calls of `calls` gave, one per datagram
/// (each datagram's calls being a start and an end).
pub open spec fn datagram_frames(calls: Seq<BuilderCall>, count: nat) -> Seq<(usize, usize)> {
    Seq::new(count, |p: int| call_frame(calls[2 * p]))
}

/// The calls that built datagram `p`: a start handed a zeroed buffer of
/// `max_packet_size` octets, then an end handed the buffer the start left with the
/// datagram's payload written from the payload start on, and the payload's length;
/// both succeeded, and the datagram is the buffer the end left, up to the total length
/// it gave.
pub open spec fn datagram_built(
    calls: Seq<BuilderCall>,
    p: int,
    payload: Seq<u8>,
    packet: Seq<u8>,
    max_packet_size: usize,
) -> bool {
    &&& calls[2 * p] matches BuilderCall::Start(handed, left, Ok((header_end, footer_start)))
    &&& calls[2 * p + 1] matches BuilderCall::End(handed_end, payload_len, left_end, Ok(total))
    &&& handed == zeros(max_packet_size as nat)
    &&& handed_end == left.take(header_end as int) + payload + left.skip(header_end + payload.len())
    &&& payload_len == payload.len()
    &&& packet == left_end.take(total as int)
}

/// The datagrams are the packed items, each built by its two builder calls (see
/// `datagram_built`), and those are all the calls.
pub open spec fn datagrams_built<T: Serialize>(
    items: Seq<T::V>,
    calls: Seq<BuilderCall>,
    bounds: Seq<int>,
    packets: Seq<Seq<u8>>,
    max_packet_size: usize,
) -> bool {
    &&& calls.len() == 2 * packets.len()
    &&& forall|p: int|
        0 <= p < packets.len() ==> datagram_built(
            calls,
            p,
            run_octets::<T>(items, bounds[p], bounds[p + 1]),
            #[trigger] packets[p],
            max_packet_size,
        )
}

/// The datagrams are the items packed greedily into the frames that the calls gave,
/// each built by its two calls.
pub open spec fn packed_into<T: Serialize>(
    items: Seq<T::V>,
    calls: Seq<BuilderCall>,
    packets: Seq<Seq<u8>>,
    max_packet_size: usize,
) -> bool {
    exists|bounds: Seq<int>|
        greedy_packing::<T>(items, datagram_frames(calls, packets.len()), bounds) && datagrams_built::<T>(
            items,
            calls,
            bounds,
            packets,
            max_packet_size,
        )
}

/// A zeroed buffer of `n` octets.
fn zeroed(n: usize) -> (v: Vec<u8>)
    ensures
        v@ == zeros(n as nat),
{
    let v = vec![0u8; n];
    assert(v@ =~= zeros(n as nat));
    v
}

proof fn lemma_run_push<T: Serialize>(items: Seq<T::V>, from: int, to: int)
    requires
        0 <= from <= to < items.len(),
    ensures
        run_octets::<T>(items, from, to + 1) == run_octets::<T>(items, from, to) + T::octets_of(items[to]),
{
    assert(items.subrange(from, to + 1).drop_last() =~= items.subrange(from, to));
}

/// The failure a recorded builder call gave, if it failed.
pub open spec fn call_error(call: BuilderCall) -> Option<StreamError> {
    match call {
        BuilderCall::Start(_, _, Err(e)) => Some(e),
        BuilderCall::End(_, _, _, Err(e)) => Some(e),
        _ => None,
    }
}

/// The calls recorded after the record `before`.
pub open spec fn added_calls(before: Seq<BuilderCall>, after: Seq<BuilderCall>) -> Seq<BuilderCall> {
    after.skip(before.len() as int)
}

/// Every recorded call succeeded.
pub open spec fn all_succeeded(calls: Seq<BuilderCall>) -> bool {
    forall|k: int| 0 <= k < calls.len() ==> call_succeeded(#[trigger] calls[k])
}

/// Every item has octets and fits the payload space of every frame that the calls
/// gave.
pub open spec fn items_fit_frames<T: Serialize>(items: Seq<T>, calls: Seq<BuilderCall>) -> bool {
    &&& forall|i: int| 0 <= i < items.len() ==> T::octets_of((#[trigger] items[i])@).len() > 0
    &&& forall|i: int, k: int|
        0 <= i < items.len() && 0 <= k < calls.len() && calls[k] is Start ==> T::octets_of(
            (#[trigger] items[i])@,
        ).len() <= frame_space(call_frame(#[trigger] calls[k]))
}

/// The calls all succeeded, the last started a datagram, and some item is larger than
/// that datagram's payload space.
pub open spec fn exceeds_last_frame<T: Serialize>(items: Seq<T>, calls: Seq<BuilderCall>) -> bool {
    &&& all_succeeded(calls)
    &&& calls.len() > 0 && calls.last() is Start
    &&& exists|i: int|
        0 <= i < items.len() && T::octets_of((#[trigger] items[i])@).len() > frame_space(call_frame(calls.last()))
}

/// What holds of the builder calls of a serialization, whatever came back: they
/// alternate, a start first; each start is handed a zeroed buffer of
/// `max_packet_size` octets; every call but the last succeeded.
pub open spec fn calls_alternate(calls: Seq<BuilderCall>, max_packet_size: usize) -> bool {
    &&& forall|k: int| 0 <= k < calls.len() ==> ((#[trigger] calls[k] is Start) <==> k % 2 == 0)
    &&& forall|k: int|
        0 <= k < calls.len() ==> (#[trigger] calls[k] matches BuilderCall::Start(handed, _, _) ==> handed
            == zeros(max_packet_size as nat))
    &&& forall|k: int| 0 <= k < calls.len() - 1 ==> call_succeeded(#[trigger] calls[k])
}

/// Packs the serialized items into datagrams of at most `max_packet_size` octets, each
/// framed by `builder` in a fresh zeroed buffer of `max_packet_size` octets: an item
/// goes into the current datagram while it fits the payload space, and otherwise the
/// datagram is completed and a new one started (see `greedy_packing`); each datagram
/// is what the builder left of its buffer, up to the total length it gave, after the
/// payload was written from the payload start on (see `datagrams_built`). No items
/// give no datagrams and no builder calls. An item larger than the payload space of a
/// new datagram, or one with no octets, is refused; so is what the builder refuses, at
/// its first failure. Where the builder does not fail and every item has octets and
/// fits every frame it gave, the items are packed.
pub fn serialize_datagrams<T: Serialize, B: DatagramBuilder>(
    items: &[T],
    max_packet_size: usize,
    builder: &mut B,
) -> (r: Result<Vec<Vec<u8>>, SerializeDatagramsError>)
    ensures
        old(builder).calls().len() <= final(builder).calls().len(),
        final(builder).calls().take(old(builder).calls().len() as int) == old(builder).calls(),
        calls_alternate(added_calls(old(builder).calls(), final(builder).calls()), max_packet_size),
        items@.len() == 0 ==> (r matches Ok(packets) && packets@.len() == 0) && added_calls(
            old(builder).calls(),
            final(builder).calls(),
        ).len() == 0,
        r is Ok ==> all_succeeded(added_calls(old(builder).calls(), final(builder).calls())),
        r is Ok ==> forall|i: int| 0 <= i < items@.len() ==> T::octets_of((#[trigger] items@[i])@).len() > 0,
        r matches Ok(packets) ==> packed_into::<T>(
            crate::codec::views(items@),
            added_calls(old(builder).calls(), final(builder).calls()),
            crate::codec::views(packets@),
            max_packet_size,
        ),
        r matches Err(SerializeDatagramsError::Builder(e)) ==> added_calls(old(builder).calls(), final(builder).calls()).len()
            > 0 && call_error(added_calls(old(builder).calls(), final(builder).calls()).last()) == Some(e),
        r matches Err(SerializeDatagramsError::ItemExceedsPayloadSpace) ==> exceeds_last_frame::<T>(
            items@,
            added_calls(old(builder).calls(), final(builder).calls()),
        ),
        r matches Err(SerializeDatagramsError::ZeroLengthItem) ==> all_succeeded(
            added_calls(old(builder).calls(), final(builder).calls()),
        ) && exists|i: int| 0 <= i < items@.len() && T::octets_of((#[trigger] items@[i])@).len() == 0,
        all_succeeded(added_calls(old(builder).calls(), final(builder).calls())) && items_fit_frames::<T>(
            items@,
            added_calls(old(builder).calls(), final(builder).calls()),
        ) ==> r is Ok,
{
    let ghost vs = crate::codec::views(items@);
    let ghost before = builder.calls();
    let mut packets: Vec<Vec<u8>> = Vec::new();
    let mut buffer: Vec<u8> = zeroed(max_packet_size);
    let mut header_end: usize = 0;
    let mut footer_start: usize = 0;
    let mut payload_len: usize = 0;
    let ghost mut calls: Seq<BuilderCall> = Seq::empty();
    let ghost mut left: Seq<u8> = Seq::empty();
    let ghost mut firsts: Seq<int> = Seq::empty();
    let mut i: usize = 0;
    proof {
        assert(builder.calls() =~= before + calls);
    }
    while i < items.len()
        invariant
            i <= items@.len(),
            vs == crate::codec::views(items@),
            vs.len() == items@.len(),
            buffer@.len() == max_packet_size,
            i > 0 ==> payload_len > 0,
            i == 0 ==> payload_len == 0 && buffer@ == zeros(max_packet_size as nat),
            header_end <= footer_start <= max_packet_size,
            payload_len <= footer_start - header_end,
            builder.calls() == before + calls,
            before == old(builder).calls(),
            calls_alternate(calls, max_packet_size),
            forall|k: int| 0 <= k < calls.len() ==> call_succeeded(#[trigger] calls[k]),
            forall|j: int| 0 <= j < firsts.len() ==> 0 <= #[trigger] firsts[j] <= i,
            i == 0 ==> calls.len() == 0 && packets@.len() == 0 && firsts.len() == 0,
            i > 0 ==> {
                &&& calls.len() == 2 * packets@.len() + 1
                &&& firsts.len() == packets@.len() + 1
                &&& calls.last() == BuilderCall::Start(
                    zeros(max_packet_size as nat),
                    left,
                    Ok::<(usize, usize), StreamError>((header_end, footer_start)),
                )
                &&& left.len() == max_packet_size
                &&& firsts[0] == 0
                &&& firsts.last() < i
                &&& run_octets::<T>(vs, firsts.last(), i as int).len() == payload_len
                &&& buffer@ == left.take(header_end as int) + run_octets::<T>(vs, firsts.last(), i as int)
                    + left.skip(header_end + payload_len)
            },
            forall|j: int| 0 <= j < i ==> T::octets_of((#[trigger] items@[j])@).len() > 0,
            forall|p: int| 0 <= p < packets@.len() ==> firsts[p] < #[trigger] firsts[p + 1],
            forall|p: int|
                0 <= p < packets@.len() ==> run_octets::<T>(vs, firsts[p], firsts[p + 1]).len() <= frame_space(
                    call_frame(#[trigger] calls[2 * p]),
                ),
            forall|p: int|
                0 <= p < packets@.len() ==> run_octets::<T>(vs, firsts[p], firsts[p + 1] + 1).len() > frame_space(
                    call_frame(#[trigger] calls[2 * p]),
                ),
            forall|p: int|
                0 <= p < packets@.len() ==> datagram_built(
                    calls,
                    p,
                    run_octets::<T>(vs, firsts[p], firsts[p + 1]),
                    (#[trigger] packets@[p])@,
                    max_packet_size,
                ),
        decreases items@.len() - i,
    {
        if payload_len == 0 {
            let ghost handed = buffer@;
            let started = builder.start_datagram(buffer.as_mut_slice());
            proof {
                calls = calls.push(BuilderCall::Start(handed, buffer@, started));
                assert(builder.calls() =~= before + calls);
            }
            match started {
                Ok((h, f)) => {
                    header_end = h;
                    footer_start = f;
                    proof {
                        left = buffer@;
                        firsts = firsts.push(0);
                        assert(run_octets::<T>(vs, 0, 0) =~= Seq::<u8>::empty());
                        assert(buffer@ =~= left.take(h as int) + run_octets::<T>(vs, 0, 0) + left.skip(h as int));
                    }
                },
                Err(e) => {
                    proof {
                        assert(calls_alternate(calls, max_packet_size));
                        assert(call_error(calls.last()) == Some(e));
                    }
                    return Err(SerializeDatagramsError::Builder(e));
                },
            }
            payload_len = 0;
        }
        let octets = item_octets(&items[i]);
        let item_len = octets.len();
        proof {
            assert(vs[i as int] == items@[i as int]@);
        }
        if item_len > footer_start - header_end {
            return Err(SerializeDatagramsError::ItemExceedsPayloadSpace);
        }
        if item_len == 0 {
            return Err(SerializeDatagramsError::ZeroLengthItem);
        }
        if item_len > (footer_start - header_end) - payload_len {
            let ghost handed_end = buffer@;
            let ended = builder.end_datagram(buffer.as_mut_slice(), payload_len);
            proof {
                calls = calls.push(BuilderCall::End(handed_end, payload_len, buffer@, ended));
                assert(builder.calls() =~= before + calls);
            }
            let total_len = match ended {
                Ok(t) => t,
                Err(e) => {
                    proof {
                        assert(calls_alternate(calls, max_packet_size));
                        assert(call_error(calls.last()) == Some(e));
                    }
                    return Err(SerializeDatagramsError::Builder(e));
                },
            };
            let packet = slice_to_vec(slice_subrange(buffer.as_slice(), 0, total_len));
            proof {
                lemma_run_push::<T>(vs, firsts.last(), i as int);
                assert(packet@ =~= buffer@.take(total_len as int));
            }
            let ghost prior = packets@;
            packets.push(packet);
            buffer = zeroed(max_packet_size);
            let ghost handed = buffer@;
            let started = builder.start_datagram(buffer.as_mut_slice());
            proof {
                calls = calls.push(BuilderCall::Start(handed, buffer@, started));
                assert(builder.calls() =~= before + calls);
            }
            match started {
                Ok((h, f)) => {
                    header_end = h;
                    footer_start = f;
                    proof {
                        left = buffer@;
                        firsts = firsts.push(i as int);
                        assert(run_octets::<T>(vs, i as int, i as int) =~= Seq::<u8>::empty());
                        assert(buffer@ =~= left.take(h as int) + run_octets::<T>(vs, i as int, i as int) + left.skip(
                            h as int,
                        ));
                    }
                },
                Err(e) => {
                    proof {
                        assert(calls_alternate(calls, max_packet_size));
                        assert(call_error(calls.last()) == Some(e));
                    }
                    return Err(SerializeDatagramsError::Builder(e));
                },
            }
            payload_len = 0;
            proof {
                assert(packets@[prior.len() as int] == packet);
                assert forall|p: int| 0 <= p < packets@.len() implies firsts[p] < #[trigger] firsts[p + 1] by {
                    if p < prior.len() {
                        assert(firsts[p] == firsts.drop_last()[p]);
                    }
                }
            }
            if item_len > footer_start - header_end {
                return Err(SerializeDatagramsError::ItemExceedsPayloadSpace);
            }
        }
        let ghost held = buffer@;
        copy_into(&mut buffer, header_end + payload_len, octets.as_slice());
        proof {
            lemma_run_push::<T>(vs, firsts.last(), i as int);
            assert(buffer@ =~= left.take(header_end as int) + run_octets::<T>(vs, firsts.last(), i + 1) + left.skip(
                header_end + payload_len + item_len,
            ));
        }
        payload_len = payload_len + item_len;
        i = i + 1;
    }
    if payload_len > 0 {
        let ghost handed_end = buffer@;
        let ended = builder.end_datagram(buffer.as_mut_slice(), payload_len);
        proof {
            calls = calls.push(BuilderCall::End(handed_end, payload_len, buffer@, ended));
            assert(builder.calls() =~= before + calls);
        }
        let total_len = match ended {
            Ok(t) => t,
            Err(e) => {
                proof {
                    assert(calls_alternate(calls, max_packet_size));
                    assert(call_error(calls.last()) == Some(e));
                }
                return Err(SerializeDatagramsError::Builder(e));
            },
        };
        let packet = slice_to_vec(slice_subrange(buffer.as_slice(), 0, total_len));
        proof {
            assert(packet@ =~= buffer@.take(total_len as int));
        }
        packets.push(packet);
    }
    proof {
        let bounds = firsts.push(items@.len() as int);
        assert(added_calls(before, builder.calls()) =~= calls);
        assert(builder.calls().take(before.len() as int) =~= before);
        assert(greedy_packing::<T>(vs, datagram_frames(calls, packets@.len()), bounds));
        assert(datagrams_built::<T>(vs, calls, bounds, crate::codec::views(packets@), max_packet_size));
        assert(packed_into::<T>(
            crate::codec::views(items@),
            added_calls(old(builder).calls(), builder.calls()),
            crate::codec::views(packets@),
            max_packet_size,
        ));
    }
    Ok(packets)
}

/// Reading values one after another until `data` is used up; a value must span at least
/// one octet.
pub open spec fn parse_all<T: Deserialize>(data: Seq<u8>) -> Result<Seq<T::V>, StreamError>
    decreases data.len(),
{
    if data.len() == 0 {
        Ok(Seq::empty())
    } else {
        match T::parse(data) {
            Err(e) => Err(e),
            Ok((v, n)) => if 0 < n <= data.len() {
                match parse_all::<T>(data.skip(n as int)) {
                    Err(e) => Err(e),
                    Ok(rest) => Ok(seq![v] + rest),
                }
            } else {
                Err(StreamError::InvalidData)
            },
        }
    }
}

/// Every value that reads successfully spans at least one octet.
pub open spec fn reads_consume<T: Deserialize>() -> bool {
    forall|d: Seq<u8>| #[trigger] T::parse(d) matches Ok((_, n)) ==> n > 0
}

/// Reads items from a payload until it is used up.
pub fn deserialize_payload<T: Deserialize>(payload: &[u8]) -> (r: Result<Vec<T>, StreamError>)
    requires
        reads_consume::<T>(),
    ensures
        match parse_all::<T>(payload@) {
            Ok(vs) => r matches Ok(items) && crate::codec::views(items@) == vs,
            Err(e) => r == Err::<Vec<T>, StreamError>(e),
        },
{
    let mut stream = new_in_stream(payload);
    let mut items: Vec<T> = Vec::new();
    let ghost mut consumed: int = 0;
    assert(crate::codec::views(items@) =~= Seq::<T::V>::empty());
    assert(payload@.skip(0) =~= payload@);
    while !has_reached_end(&mut stream)
        invariant
            reads_consume::<T>(),
            0 <= consumed <= payload@.len(),
            in_within(stream),
            in_remaining(stream) == payload@.skip(consumed),
            parse_all::<T>(payload@) == match parse_all::<T>(payload@.skip(consumed)) {
                Ok(rest) => Ok::<Seq<T::V>, StreamError>(crate::codec::views(items@) + rest),
                Err(e) => Err::<Seq<T::V>, StreamError>(e),
            },
        decreases payload@.len() - consumed,
    {
        let ghost here = in_remaining(stream);
        let item = match T::deserialize(&mut stream) {
            Ok(v) => v,
            Err(e) => return Err(e),
        };
        proof {
            let n = T::parse(here)->Ok_0.1;
            assert(n > 0);
            assert(payload@.skip(consumed).skip(n as int) =~= payload@.skip(consumed + n));
            let before = crate::codec::views(items@);
            assert(crate::codec::views(items@.push(item)) =~= before.push(item@));
            match parse_all::<T>(payload@.skip(consumed + n)) {
                Ok(rest) => {
                    assert(before + (seq![item@] + rest) =~= before.push(item@) + rest);
                },
                Err(e) => {},
            }
            consumed = consumed + n;
        }
        items.push(item);
    }
    proof {
        assert(payload@.skip(consumed).len() == 0);
        assert(crate::codec::views(items@) + Seq::<T::V>::empty() =~= crate::codec::views(items@));
    }
    Ok(items)
}

/// The items read from each payload in turn, one payload after another.
pub open spec fn parse_payloads<T: Deserialize>(payloads: Seq<Seq<u8>>) -> Result<Seq<T::V>, StreamError>
    decreases payloads.len(),
{
    if payloads.len() == 0 {
        Ok(Seq::empty())
    } else {
        match parse_payloads::<T>(payloads.drop_last()) {
            Err(e) => Err(e),
            Ok(front) => match parse_all::<T>(payloads.last()) {
                Err(e) => Err(e),
                Ok(last) => Ok(front + last),
            },
        }
    }
}

/// One payload gives exactly the items read from it.
pub proof fn lemma_parse_one_payload<T: Deserialize>(p: Seq<u8>)
    ensures
        parse_payloads::<T>(seq![p]) == parse_all::<T>(p),
{
    assert(seq![p].drop_last() =~= Seq::<Seq<u8>>::empty());
    assert(parse_payloads::<T>(Seq::<Seq<u8>>::empty()) == Ok::<Seq<T::V>, StreamError>(Seq::empty()));
    assert(seq![p].last() == p);
    match parse_all::<T>(p) {
        Ok(v) => assert(Seq::<T::V>::empty() + v =~= v),
        Err(_) => {},
    }
}

/// Payloads read one after another give the items of the first ones followed by the
/// items of the later ones, in that order.
pub proof fn lemma_parse_payloads_append<T: Deserialize>(ps: Seq<Seq<u8>>, qs: Seq<Seq<u8>>)
    ensures
        parse_payloads::<T>(ps) is Ok && parse_payloads::<T>(qs) is Ok ==> parse_payloads::<T>(ps + qs)
            == Ok::<Seq<T::V>, StreamError>(parse_payloads::<T>(ps)->Ok_0 + parse_payloads::<T>(qs)->Ok_0),
        parse_payloads::<T>(ps) matches Err(e) ==> parse_payloads::<T>(ps + qs) == Err::<Seq<T::V>, StreamError>(e),
    decreases qs.len(),
{
    if qs.len() == 0 {
        assert(ps + qs =~= ps);
        if let Ok(a) = parse_payloads::<T>(ps) {
            assert(a + Seq::<T::V>::empty() =~= a);
        }
    } else {
        lemma_parse_payloads_append::<T>(ps, qs.drop_last());
        assert((ps + qs).drop_last() =~= ps + qs.drop_last());
        assert((ps + qs).last() == qs.last());
        if let Ok(a) = parse_payloads::<T>(ps) {
            if let Ok(b1) = parse_payloads::<T>(qs.drop_last()) {
                if let Ok(b2) = parse_all::<T>(qs.last()) {
                    assert(a + b1 + b2 =~= a + (b1 + b2));
                }
            }
        }
    }
}

/// Reading a payload after others puts its items after theirs.
pub proof fn lemma_parse_payloads_push<T: Deserialize>(ps: Seq<Seq<u8>>, p: Seq<u8>)
    ensures
        parse_payloads::<T>(ps) is Ok && parse_all::<T>(p) is Ok ==> parse_payloads::<T>(ps.push(p))
            == Ok::<Seq<T::V>, StreamError>(parse_payloads::<T>(ps)->Ok_0 + parse_all::<T>(p)->Ok_0),
{
    lemma_parse_one_payload::<T>(p);
    lemma_parse_payloads_append::<T>(ps, seq![p]);
    assert(ps + seq![p] =~= ps.push(p));
}

/// The payloads of parse records that all found one.
pub open spec fn found_payloads(records: Seq<(Seq<u8>, Option<Seq<u8>>)>) -> Seq<Seq<u8>> {
    records.map_values(|e: (Seq<u8>, Option<Seq<u8>>)| e.1->Some_0)
}

/// Reads the items of each datagram in turn, from the payload that `parser` finds in
/// it: the datagrams are handed to the parser in order, up to the first one whose
/// payload is not found or does not read; the items are those read from the payloads,
/// one after another. No datagrams give no items. The error is the parser's, or that
/// of reading the last payload found.
pub fn deserialize_datagrams<T: Deserialize, P: DatagramParser>(
    datagrams: Vec<Vec<u8>>,
    parser: &mut P,
) -> (r: Result<Vec<T>, StreamError>)
    requires
        reads_consume::<T>(),
    ensures
        datagrams@.len() == 0 ==> (r matches Ok(items) && items@.len() == 0),
        ({
            let records = final(parser).parsed().skip(old(parser).parsed().len() as int);
            &&& old(parser).parsed().len() <= final(parser).parsed().len()
            &&& records.len() <= datagrams@.len()
            &&& forall|k: int| 0 <= k < records.len() ==> (#[trigger] records[k]).0 == datagrams@[k]@
            &&& forall|k: int|
                0 <= k < records.len() - 1 ==> (#[trigger] records[k]).1 is Some && parse_all::<T>(
                    records[k].1->Some_0,
                ) is Ok
            &&& r matches Ok(items) ==> {
                &&& records.len() == datagrams@.len()
                &&& forall|k: int| 0 <= k < records.len() ==> (#[trigger] records[k]).1 is Some
                &&& parse_payloads::<T>(found_payloads(records)) == Ok::<Seq<T::V>, StreamError>(
                    crate::codec::views(items@),
                )
            }
            &&& r matches Err(e) ==> records.len() > 0 && (records.last().1 matches Some(p) ==> parse_all::<T>(p)
                == Err::<Seq<T::V>, StreamError>(e))
        }),
{
    let ghost start = parser.parsed();
    let mut items: Vec<T> = Vec::new();
    let ghost mut payloads: Seq<Seq<u8>> = Seq::empty();
    let mut i: usize = 0;
    assert(crate::codec::views(items@) =~= Seq::<T::V>::empty());
    while i < datagrams.len()
        invariant
            i <= datagrams@.len(),
            reads_consume::<T>(),
            payloads.len() == i,
            start == old(parser).parsed(),
            start.len() <= parser.parsed().len(),
            parser.parsed().skip(start.len() as int).len() == i,
            forall|k: int| 0 <= k < i ==> {
                let e = #[trigger] parser.parsed().skip(start.len() as int)[k];
                &&& e.0 == datagrams@[k]@
                &&& e.1 == Some(payloads[k])
                &&& parse_all::<T>(payloads[k]) is Ok
            },
            parse_payloads::<T>(payloads) == Ok::<Seq<T::V>, StreamError>(crate::codec::views(items@)),
        decreases datagrams@.len() - i,
    {
        let ghost seen = parser.parsed();
        let payload = match parser.parse(datagrams[i].as_slice()) {
            Ok(p) => p,
            Err(e) => {
                proof {
                    assert forall|k: int| 0 <= k <= i implies #[trigger] parser.parsed().skip(start.len() as int)[k]
                        == if k < i { seen.skip(start.len() as int)[k] } else { (datagrams@[k]@, None::<Seq<u8>>) } by {
                        assert(parser.parsed().skip(start.len() as int)[k] == parser.parsed()[start.len() + k]);
                    }
                    let records = parser.parsed().skip(start.len() as int);
                    assert forall|k: int| 0 <= k < records.len() - 1 implies (#[trigger] records[k]).1 is Some
                        && parse_all::<T>(records[k].1->Some_0) is Ok by {
                        assert(records[k] == seen.skip(start.len() as int)[k]);
                    }
                    assert forall|k: int| 0 <= k < records.len() implies (#[trigger] records[k]).0
                        == datagrams@[k]@ by {
                        if k < i {
                            assert(records[k] == seen.skip(start.len() as int)[k]);
                        }
                    }
                }
                return Err(e);
            },
        };
        proof {
            assert forall|k: int| 0 <= k <= i implies #[trigger] parser.parsed().skip(start.len() as int)[k]
                == if k < i { seen.skip(start.len() as int)[k] } else { (datagrams@[k]@, Some(payload@)) } by {
                assert(parser.parsed().skip(start.len() as int)[k] == parser.parsed()[start.len() + k]);
            }
        }
        let mut found = match deserialize_payload::<T>(payload) {
            Ok(v) => v,
            Err(e) => {
                proof {
                    let records = parser.parsed().skip(start.len() as int);
                    assert forall|k: int| 0 <= k < records.len() - 1 implies (#[trigger] records[k]).1 is Some
                        && parse_all::<T>(records[k].1->Some_0) is Ok by {
                        assert(records[k] == seen.skip(start.len() as int)[k]);
                    }
                    assert forall|k: int| 0 <= k < records.len() implies (#[trigger] records[k]).0
                        == datagrams@[k]@ by {
                        if k < i {
                            assert(records[k] == seen.skip(start.len() as int)[k]);
                        }
                    }
                    assert(records.last() == (datagrams@[i as int]@, Some(payload@)));
                }
                return Err(e);
            },
        };
        let ghost before = items@;
        let ghost got = found@;
        items.append(&mut found);
        proof {
            let next = payloads.push(payload@);
            assert(next.drop_last() =~= payloads);
            assert(crate::codec::views(before + got) =~= crate::codec::views(before) + crate::codec::views(got));
            assert(items@ =~= before + got);
            payloads = next;
        }
        i = i + 1;
    }
    proof {
        let records = parser.parsed().skip(start.len() as int);
        assert(found_payloads(records) =~= payloads);
    }
    Ok(items)
}

} // verus!

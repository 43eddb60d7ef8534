//! The sending side of a blob transfer, kept by `blob_stream`'s `OutLogicFront`: it
//! announces the transfer, then sends chunks and resends those not acknowledged in time.
use vstd::prelude::*;
use std::time::{Duration, Instant};
use blob_stream::out_logic_front::OutLogicFront;
use blob_stream::out_stream::OutStreamError;
use blob_stream::prelude::{
    TransferId, SenderToReceiverFrontCommands as BlobSenderCommand,
    ReceiverToSenderFrontCommands as BlobReceiverCommand,
};
use blob_stream::protocol::AckChunkData;
use blob_stream::protocol_front::AckChunkFrontData as BlobAckChunk;
use crate::blob_commands::{
    SenderToReceiverFrontCommands, ReceiverToSenderFrontCommands, SetChunkFrontData, StartTransferData,
};

verus! {

#[verifier::external_type_specification]
#[verifier::external_body]
pub struct ExOutLogicFront(OutLogicFront);

#[verifier::external_type_specification]
#[verifier::external_body]
pub struct ExInstant(Instant);

/// Why the blob sender refused an acknowledgement.
#[derive(Debug, Clone, Copy, PartialEq, Eq, Structural)]
pub enum BlobStreamError {
    /// A chunk acknowledged before is now reported missing.
    ChunkPreviouslyReceivedMarkedAsNotReceived,
    IndexOutOfBounds,
}

/// The number of chunks of `chunk_size` octets that a blob of `len` octets spans.
pub open spec fn chunk_count(len: nat, chunk_size: nat) -> nat {
    if chunk_size == 0 { 0 } else { ((len + chunk_size - 1) as nat / chunk_size) as nat }
}

/// The octets of chunk `index` of `blob` in chunks of `size` octets: from
/// `index * size` on, `size` of them, or up to the end of the blob for the last chunk.
pub open spec fn chunk_payload(blob: Seq<u8>, size: nat, index: nat) -> Seq<u8> {
    let start = index * size;
    let end = if (index + 1) * size <= blob.len() { (index + 1) * size } else { blob.len() };
    blob.subrange(start as int, end as int)
}

/// The chunks that `blob_stream`'s sender records as received by the remote (it keeps
/// a flag per chunk).
pub uninterp spec fn received_chunks(logic: OutLogicFront) -> Set<int>;

/// Whether bit `k` of an acknowledgement's mask is set: the chunk `k + 1` places after
/// the one waited for has arrived.
pub open spec fn mask_bit(mask: u64, k: int) -> bool {
    (mask >> (k as u64)) & 1u64 == 1u64
}

/// The chunks that an acknowledgement waiting for chunk `index` reports as received:
/// every chunk before it, and of the (at most 64) chunks after it those whose mask bit
/// is set.
pub open spec fn acked_chunks(index: nat, mask: u64, chunks: nat) -> Set<int> {
    Set::new(
        |i: int| (0 <= i < index) || (index < i < chunks && i <= index + 64 && mask_bit(mask, i - index - 1)),
    )
}

/// Whether an acknowledgement waiting for chunk `index` reports missing a chunk that
/// `received` holds: the chunk waited for, or one of the 64 after it whose mask bit is
/// clear.
pub open spec fn ack_contradicts(received: Set<int>, index: nat, mask: u64, chunks: nat) -> bool {
    ||| index < chunks && received.contains(index as int)
    ||| exists|i: int|
        index < i < chunks && i <= index + 64 && !mask_bit(mask, i - index - 1) && #[trigger] received.contains(i)
}

/// Every chunk of a blob of `chunks` chunks.
pub open spec fn all_chunks(chunks: nat) -> Set<int> {
    Set::new(|i: int| 0 <= i < chunks)
}

/// The sending side of one blob transfer: `blob_stream`'s sender, with what it was made
/// with (the transfer id, the blob, its chunk size and chunk count) and whether the
/// receiver has acknowledged the start of the transfer.
#[derive(Debug)]
pub struct BlobSender {
    logic: OutLogicFront,
    transfer: u16,
    chunks: usize,
    chunk_size: usize,
    blob: Vec<u8>,
    started: bool,
}

/// `OutLogicFront::new`: a sender of `blob` in chunks of `fixed_chunk_size` octets,
/// resending after `resend_millis` milliseconds. Its chunk list has one entry per
/// started chunk of the blob; it panics when that count is zero (an empty blob), and a
/// zero chunk size divides by zero, so `requires` leaves both out. No chunk is
/// recorded as received yet; the rest of the sender's state is private.
#[verifier::external_body]
fn out_logic_new(transfer_id: u16, fixed_chunk_size: usize, resend_millis: u64, blob: &[u8]) -> (r: OutLogicFront)
    requires
        fixed_chunk_size > 0,
        blob@.len() > 0,
    ensures
        received_chunks(r) == Set::<int>::empty(),
{
    OutLogicFront::new(TransferId(transfer_id), fixed_chunk_size, Duration::from_millis(resend_millis), blob)
}

/// The number of chunks of `chunk_size` octets that `len` octets span.
fn chunks_for(len: usize, chunk_size: usize) -> (n: usize)
    requires
        chunk_size > 0,
    ensures
        n == chunk_count(len as nat, chunk_size as nat),
{
    let whole = len / chunk_size;
    assert(len % chunk_size != 0 ==> whole < usize::MAX) by (nonlinear_arith)
        requires
            whole == len / chunk_size,
            chunk_size > 0,
            len <= usize::MAX,
    {
        if len % chunk_size != 0 {
            assert(chunk_size != 1);
            assert(whole * chunk_size <= len);
            assert(whole * 2 <= whole * chunk_size);
        }
    }
    let n = if len % chunk_size == 0 { whole } else { whole + 1 };
    proof {
        let q = (len + chunk_size - 1) as nat / chunk_size as nat;
        vstd::arithmetic::div_mod::lemma_fundamental_div_mod(len as int, chunk_size as int);
        vstd::arithmetic::div_mod::lemma_fundamental_div_mod((len + chunk_size - 1) as int, chunk_size as int);
        assert(q == n) by (nonlinear_arith)
            requires
                len == chunk_size * whole + len % chunk_size,
                0 <= len % chunk_size < chunk_size,
                (len + chunk_size - 1) == chunk_size * q + (len + chunk_size - 1) % (chunk_size as int),
                0 <= (len + chunk_size - 1) % (chunk_size as int) < chunk_size,
                n == (if len % chunk_size == 0 { whole as int } else { whole + 1 }),
                chunk_size > 0,
        ;
    }
    n
}

impl BlobSender {
    /// The id of the transfer.
    pub closed spec fn transfer(&self) -> u16 {
        self.transfer
    }

    /// The number of chunks the blob spans.
    pub closed spec fn chunks(&self) -> nat {
        self.chunks as nat
    }

    /// The chunk size the sender was made with.
    pub closed spec fn chunk_size(&self) -> nat {
        self.chunk_size as nat
    }

    /// The blob being sent.
    pub closed spec fn blob(&self) -> Seq<u8> {
        self.blob@
    }

    /// Whether the receiver has acknowledged the start of the transfer: from then on
    /// chunks are sent, before it the announcement.
    pub closed spec fn started(&self) -> bool {
        self.started
    }

    /// The chunks recorded as received by the remote.
    pub closed spec fn received(&self) -> Set<int> {
        received_chunks(self.logic)
    }

    /// What a send gives: the announcement of the transfer (its id, the blob's size and
    /// the chunk size) until the start is acknowledged; then at most ten chunks of the
    /// transfer, each a chunk not recorded as received, with the chunk's octets of the
    /// blob by its index (sent as 32 bits, so the octets are stated while every index
    /// fits).
    pub open spec fn sent_commands(&self, v: Seq<SenderToReceiverFrontCommands>) -> bool {
        if !self.started() {
            v == seq![
                SenderToReceiverFrontCommands::StartTransfer(
                    StartTransferData {
                        transfer_id: self.transfer(),
                        total_octet_size: self.blob().len() as u32,
                        chunk_size: self.chunk_size() as u16,
                    },
                ),
            ]
        } else {
            &&& v.len() <= 10
            &&& forall|i: int|
                0 <= i < v.len() ==> (#[trigger] v[i] matches SenderToReceiverFrontCommands::SetChunk(d)
                    && d.transfer_id == self.transfer() && d.chunk_index < self.chunks()
                    && !self.received().contains(d.chunk_index as int) && (self.chunks()
                    <= 0x1_0000_0000 ==> d.payload@ == chunk_payload(
                    self.blob(),
                    self.chunk_size(),
                    d.chunk_index as nat,
                )))
        }
    }

    /// The sender still holds what it was made with.
    pub open spec fn same_transfer(&self, other: BlobSender) -> bool {
        &&& self.transfer() == other.transfer()
        &&& self.chunks() == other.chunks()
        &&& self.chunk_size() == other.chunk_size()
        &&& self.blob() == other.blob()
    }

    /// A sender of `blob` for the transfer, in chunks of `fixed_chunk_size` octets,
    /// resending after `resend_millis` milliseconds.
    pub fn new(transfer_id: u16, fixed_chunk_size: usize, resend_millis: u64, blob: &[u8]) -> (s: BlobSender)
        requires
            fixed_chunk_size > 0,
            blob@.len() > 0,
        ensures
            s.transfer() == transfer_id,
            s.chunks() == chunk_count(blob@.len(), fixed_chunk_size as nat),
            s.chunk_size() == fixed_chunk_size,
            s.blob() == blob@,
            !s.started(),
            s.received() == Set::<int>::empty(),
    {
        let chunks = chunks_for(blob.len(), fixed_chunk_size);
        BlobSender {
            logic: out_logic_new(transfer_id, fixed_chunk_size, resend_millis, blob),
            transfer: transfer_id,
            chunks,
            chunk_size: fixed_chunk_size,
            blob: vstd::slice::slice_to_vec(blob),
            started: false,
        }
    }

    /// The id the sender was made with.
    pub fn transfer_id(&self) -> (t: u16)
        ensures
            t == self.transfer(),
    {
        self.transfer
    }

    /// Whether the receiver has acknowledged the start of the transfer.
    pub fn is_started(&self) -> (b: bool)
        ensures
            b == self.started(),
    {
        self.started
    }

    /// The number of chunks the blob spans.
    pub fn chunk_total(&self) -> (n: usize)
        ensures
            n == self.chunks(),
    {
        self.chunks
    }

    /// Whether every chunk was acknowledged; never before the start of the transfer is.
    pub fn is_received_by_remote(&self) -> (b: bool)
        ensures
            b == (self.received() == all_chunks(self.chunks())),
            !self.started() ==> !b,
    {
        sender_is_received(self)
    }

    /// The commands due at `now`: the announcement of the transfer until its start is
    /// acknowledged, then the chunks to send or resend (see `sent_commands`); it does
    /// not fail.
    pub fn send(&mut self, now: Instant) -> (r: Result<Vec<SenderToReceiverFrontCommands>, BlobStreamError>)
        ensures
            final(self).same_transfer(*old(self)),
            final(self).started() == old(self).started(),
            final(self).received() == old(self).received(),
            r matches Ok(v) && old(self).sent_commands(v@),
    {
        sender_send(self, now)
    }

    /// Takes in the receiver's acknowledgement; after the start, one that waits for a
    /// chunk past the last is left out. The start of the transfer counts as
    /// acknowledged once its id is acknowledged. Before that, acknowledgements of chunks
    /// are ignored; after it, one records as received the chunks it reports (see
    /// `acked_chunks`), and is refused exactly when it reports missing a chunk recorded
    /// before (see `ack_contradicts`).
    pub fn receive(&mut self, command: &ReceiverToSenderFrontCommands) -> (r: Result<(), BlobStreamError>)
        requires
            old(self).started() ==> (command matches ReceiverToSenderFrontCommands::AckChunk(d)
                ==> d.waiting_for_chunk_index <= old(self).chunks()),
        ensures
            !(old(self).started() && command is AckChunk) ==> r is Ok && final(self).received() == old(self).received(),
            old(self).started() ==> (command matches ReceiverToSenderFrontCommands::AckChunk(d) ==> {
                &&& (r is Err <==> ack_contradicts(
                    old(self).received(),
                    d.waiting_for_chunk_index as nat,
                    d.receive_mask_after_last,
                    old(self).chunks(),
                ))
                &&& r is Ok ==> final(self).received() == old(self).received() + acked_chunks(
                    d.waiting_for_chunk_index as nat,
                    d.receive_mask_after_last,
                    old(self).chunks(),
                )
            }),
            final(self).same_transfer(*old(self)),
            final(self).started() == (old(self).started() || *command == ReceiverToSenderFrontCommands::AckStart(
                old(self).transfer(),
            )),
            r matches Err(e) ==> e == BlobStreamError::ChunkPreviouslyReceivedMarkedAsNotReceived && old(self).started()
                && command is AckChunk,
    {
        let r = sender_receive(self, command);
        match command {
            ReceiverToSenderFrontCommands::AckStart(id) => {
                if *id == self.transfer {
                    self.started = true;
                }
            },
            ReceiverToSenderFrontCommands::AckChunk(_) => {},
        }
        r
    }
}

/// `OutLogicFront::is_received_by_remote` on the sender's `blob_stream` state: whether
/// its count of chunks recorded as received equals the chunk count, that is, whether
/// every chunk is recorded as received. Before the start of the transfer is
/// acknowledged no acknowledgement of chunks has been taken in, so it is false.
#[verifier::external_body]
fn sender_is_received(sender: &BlobSender) -> (r: bool)
    ensures
        r == (sender.received() == all_chunks(sender.chunks())),
        !sender.started() ==> !r,
{
    sender.logic.is_received_by_remote()
}

/// `OutLogicFront::send` on the sender's `blob_stream` state, which never fails: until
/// the start of the transfer is acknowledged, the announcement (the id, the blob's size
/// and the chunk size, each truncated to its field); then at most ten of the chunks due
/// at `now`, each not recorded as received, with the transfer id, its index and its
/// octets of the blob. Which chunks are due depends on the time and the
/// acknowledgements, and is not stated. What is recorded as received stays.
#[verifier::external_body]
fn sender_send(sender: &mut BlobSender, now: Instant) -> (r: Result<Vec<SenderToReceiverFrontCommands>, BlobStreamError>)
    ensures
        final(sender).same_transfer(*old(sender)),
        final(sender).started() == old(sender).started(),
        final(sender).received() == old(sender).received(),
        r matches Ok(v) && old(sender).sent_commands(v@),
{
    match sender.logic.send(now) {
        Ok(commands) => Ok(commands.into_iter().map(|c| match c {
            BlobSenderCommand::SetChunk(d) => SenderToReceiverFrontCommands::SetChunk(SetChunkFrontData { transfer_id: d.transfer_id.0, chunk_index: d.data.chunk_index, payload: d.data.payload }),
            BlobSenderCommand::StartTransfer(d) => SenderToReceiverFrontCommands::StartTransfer(StartTransferData { transfer_id: d.transfer_id, total_octet_size: d.total_octet_size, chunk_size: d.chunk_size }),
        }).collect()),
        Err(OutStreamError::IndexOutOfBounds) => Err(BlobStreamError::IndexOutOfBounds),
        Err(OutStreamError::ChunkPreviouslyReceivedMarkedAsNotReceived) => Err(BlobStreamError::ChunkPreviouslyReceivedMarkedAsNotReceived),
    }
}

/// `OutLogicFront::receive` on the sender's `blob_stream` state: takes in the
/// receiver's acknowledgement. During the transfer, an acknowledgement that waits for a
/// chunk past the last makes it panic (a slice past the chunk list), so `requires`
/// leaves those out, by the chunk count recorded beside the state. Before the start is
/// acknowledged, and for an acknowledgement of the start, it does nothing to the
/// chunks and does not fail. During the transfer an acknowledgement of chunks
/// (`set_waiting_for_chunk_index`) marks every chunk before the one waited for, then
/// fails if that chunk is marked, then walks the 64 chunks after it: a set mask bit
/// marks the chunk, a clear one fails if the chunk is marked. So it fails exactly when
/// `ack_contradicts` holds of the chunks marked before; on success the marked chunks
/// grow by `acked_chunks`; on failure by part of them. What is recorded beside the
/// state stays; the rest of the state is private.
#[verifier::external_body]
fn sender_receive(sender: &mut BlobSender, command: &ReceiverToSenderFrontCommands) -> (r: Result<(), BlobStreamError>)
    requires
        old(sender).started() ==> (command matches ReceiverToSenderFrontCommands::AckChunk(d)
            ==> d.waiting_for_chunk_index <= old(sender).chunks()),
    ensures
        final(sender).same_transfer(*old(sender)),
        final(sender).started() == old(sender).started(),
        !(old(sender).started() && command is AckChunk) ==> r is Ok && final(sender).received() == old(sender).received(),
        old(sender).started() ==> (command matches ReceiverToSenderFrontCommands::AckChunk(d) ==> {
            let acked = acked_chunks(d.waiting_for_chunk_index as nat, d.receive_mask_after_last, old(sender).chunks());
            &&& (r is Err <==> ack_contradicts(
                old(sender).received(),
                d.waiting_for_chunk_index as nat,
                d.receive_mask_after_last,
                old(sender).chunks(),
            ))
            &&& r is Ok ==> final(sender).received() == old(sender).received() + acked
            &&& r is Err ==> old(sender).received().subset_of(final(sender).received()) && final(sender).received().subset_of(
                old(sender).received() + acked,
            )
        }),
        r matches Err(e) ==> e == BlobStreamError::ChunkPreviouslyReceivedMarkedAsNotReceived && old(sender).started()
            && command is AckChunk,
{
    let c = match command {
        ReceiverToSenderFrontCommands::AckChunk(d) => BlobReceiverCommand::AckChunk(BlobAckChunk { transfer_id: TransferId(d.transfer_id), data: AckChunkData { waiting_for_chunk_index: d.waiting_for_chunk_index, receive_mask_after_last: d.receive_mask_after_last } }),
        ReceiverToSenderFrontCommands::AckStart(id) => BlobReceiverCommand::AckStart(*id),
    };
    match sender.logic.receive(&c) {
        Ok(()) => Ok(()),
        Err(OutStreamError::IndexOutOfBounds) => Err(BlobStreamError::IndexOutOfBounds),
        Err(OutStreamError::ChunkPreviouslyReceivedMarkedAsNotReceived) => Err(BlobStreamError::ChunkPreviouslyReceivedMarkedAsNotReceived),
    }
}

} // verus!

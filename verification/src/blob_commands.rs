//! The blob-stream channel commands that ride inside the nimble protocol: the
//! receiver's acknowledgements and the sender's transfer start and chunks. Their
//! octets are written and read by the `blob_stream` crate.
use vstd::prelude::*;
use flood_rs::in_stream::InOctetStream;
use flood_rs::out_stream::OutOctetStream;
use crate::stream::{
    Serialize, Deserialize, Roundtrip, StreamError, out_octets, in_remaining, in_within, be_u16, be_u32,
    be_u64, parse_u8, parse_u16, parse_u32, parse_u64, parsed_from, parsed_view_from, lemma_parse_u16_be, lemma_parse_u32_be,
    lemma_parse_u64_be, lemma_skip_prefix,
};
use blob_stream::prelude::{
    TransferId, SetChunkData, StartTransferData as BlobStartTransfer,
    SetChunkFrontData as BlobSetChunk, ReceiverToSenderFrontCommands as BlobReceiverCommand,
    SenderToReceiverFrontCommands as BlobSenderCommand,
};
use blob_stream::protocol::AckChunkData;
use blob_stream::protocol_front::AckChunkFrontData as BlobAckChunk;

verus! {

/// The receiver acknowledges chunks: the first chunk it still waits for, and which
/// chunks after it have arrived.
#[derive(Debug, Clone, Copy, PartialEq, Eq, Structural)]
pub struct AckChunkFrontData {
    pub transfer_id: u16,
    pub waiting_for_chunk_index: u32,
    pub receive_mask_after_last: u64,
}

/// What a blob receiver sends back to the sender.
#[derive(Debug, Clone, Copy, PartialEq, Eq, Structural)]
pub enum ReceiverToSenderFrontCommands {
    AckChunk(AckChunkFrontData),
    /// The receiver acknowledges the start of the transfer with this id.
    AckStart(u16),
}

/// One chunk of a blob.
#[derive(Debug, Clone)]
pub struct SetChunkFrontData {
    pub transfer_id: u16,
    pub chunk_index: u32,
    pub payload: Vec<u8>,
}

/// The announcement of a blob transfer.
#[derive(Debug, Clone, Copy, PartialEq, Eq, Structural)]
pub struct StartTransferData {
    pub transfer_id: u16,
    pub total_octet_size: u32,
    pub chunk_size: u16,
}

/// What a blob sender sends to the receiver.
#[derive(Debug, Clone)]
pub enum SenderToReceiverFrontCommands {
    SetChunk(SetChunkFrontData),
    StartTransfer(StartTransferData),
}

/// The value of a sender command, with the chunk payload as a sequence.
pub enum SenderCommandView {
    SetChunk { transfer_id: u16, chunk_index: u32, payload: Seq<u8> },
    StartTransfer(StartTransferData),
}

impl View for SenderToReceiverFrontCommands {
    type V = SenderCommandView;

    open spec fn view(&self) -> SenderCommandView {
        match self {
            SenderToReceiverFrontCommands::SetChunk(d) => SenderCommandView::SetChunk {
                transfer_id: d.transfer_id,
                chunk_index: d.chunk_index,
                payload: d.payload@,
            },
            SenderToReceiverFrontCommands::StartTransfer(d) => SenderCommandView::StartTransfer(*d),
        }
    }
}

impl View for ReceiverToSenderFrontCommands {
    type V = ReceiverToSenderFrontCommands;

    open spec fn view(&self) -> ReceiverToSenderFrontCommands {
        *self
    }
}

/// The octets of a receiver command: 0x02 then the transfer id, the waited-for chunk
/// and the mask; or 0x03 then the transfer id.
pub open spec fn receiver_command_octets(c: ReceiverToSenderFrontCommands) -> Seq<u8> {
    match c {
        ReceiverToSenderFrontCommands::AckChunk(d) => seq![0x02u8] + be_u16(d.transfer_id) + be_u32(
            d.waiting_for_chunk_index,
        ) + be_u64(d.receive_mask_after_last),
        ReceiverToSenderFrontCommands::AckStart(id) => seq![0x03u8] + be_u16(id),
    }
}

/// Reading a receiver command: a kind octet (0x02 or 0x03, anything else is invalid
/// data), then its fields.
pub open spec fn parse_receiver_command(data: Seq<u8>) -> Result<
    (ReceiverToSenderFrontCommands, nat),
    StreamError,
> {
    match parse_u8(data) {
        Err(e) => Err(e),
        Ok((kind, _)) => if kind == 0x02 {
            if data.len() >= 15 {
                Ok(
                    (
                        ReceiverToSenderFrontCommands::AckChunk(
                            AckChunkFrontData {
                                transfer_id: parse_u16(data.skip(1))->Ok_0.0,
                                waiting_for_chunk_index: parse_u32(data.skip(3))->Ok_0.0,
                                receive_mask_after_last: parse_u64(data.skip(7))->Ok_0.0,
                            },
                        ),
                        15,
                    ),
                )
            } else {
                Err(StreamError::UnexpectedEnd)
            }
        } else if kind == 0x03 {
            if data.len() >= 3 {
                Ok((ReceiverToSenderFrontCommands::AckStart(parse_u16(data.skip(1))->Ok_0.0), 3))
            } else {
                Err(StreamError::UnexpectedEnd)
            }
        } else {
            Err(StreamError::InvalidData)
        },
    }
}

/// The octets of a sender command: 0x01, the transfer id, the chunk index, the payload
/// length as 16 bits (truncated) and the payload; or 0x02, the transfer id, the total
/// size and the chunk size.
pub open spec fn sender_command_octets(c: SenderCommandView) -> Seq<u8> {
    match c {
        SenderCommandView::SetChunk { transfer_id, chunk_index, payload } => seq![0x01u8]
            + be_u16(transfer_id) + be_u32(chunk_index) + be_u16(payload.len() as u16) + payload,
        SenderCommandView::StartTransfer(d) => seq![0x02u8] + be_u16(d.transfer_id) + be_u32(
            d.total_octet_size,
        ) + be_u16(d.chunk_size),
    }
}

/// Reading a sender command: a kind octet (0x01 or 0x02, anything else is invalid
/// data), then its fields.
pub open spec fn parse_sender_command(data: Seq<u8>) -> Result<(SenderCommandView, nat), StreamError> {
    match parse_u8(data) {
        Err(e) => Err(e),
        Ok((kind, _)) => if kind == 0x01 {
            if data.len() >= 9 {
                let len = parse_u16(data.skip(7))->Ok_0.0;
                if data.len() >= 9 + len {
                    Ok(
                        (
                            SenderCommandView::SetChunk {
                                transfer_id: parse_u16(data.skip(1))->Ok_0.0,
                                chunk_index: parse_u32(data.skip(3))->Ok_0.0,
                                payload: data.subrange(9, 9 + len),
                            },
                            (9 + len) as nat,
                        ),
                    )
                } else {
                    Err(StreamError::UnexpectedEnd)
                }
            } else {
                Err(StreamError::UnexpectedEnd)
            }
        } else if kind == 0x02 {
            if data.len() >= 9 {
                Ok(
                    (
                        SenderCommandView::StartTransfer(
                            StartTransferData {
                                transfer_id: parse_u16(data.skip(1))->Ok_0.0,
                                total_octet_size: parse_u32(data.skip(3))->Ok_0.0,
                                chunk_size: parse_u16(data.skip(7))->Ok_0.0,
                            },
                        ),
                        9,
                    ),
                )
            } else {
                Err(StreamError::UnexpectedEnd)
            }
        } else {
            Err(StreamError::InvalidData)
        },
    }
}

/// `ReceiverToSenderFrontCommands::to_stream` of `blob_stream`: the kind octet and the
/// fields, big-endian, as `receiver_command_octets` says; writing to an octet stream
/// does not fail.
#[verifier::external_body]
fn write_receiver_command(c: &ReceiverToSenderFrontCommands, stream: &mut OutOctetStream)
    ensures
        out_octets(*final(stream)) == out_octets(*old(stream)) + receiver_command_octets(*c),
{
    let command = match c {
        ReceiverToSenderFrontCommands::AckChunk(d) => BlobReceiverCommand::AckChunk(BlobAckChunk {
            transfer_id: TransferId(d.transfer_id),
            data: AckChunkData {
                waiting_for_chunk_index: d.waiting_for_chunk_index,
                receive_mask_after_last: d.receive_mask_after_last,
            },
        }),
        ReceiverToSenderFrontCommands::AckStart(id) => BlobReceiverCommand::AckStart(*id),
    };
    let _ = command.to_stream(stream);
}

/// `ReceiverToSenderFrontCommands::from_stream` of `blob_stream`, with its result
/// taken field by field: it reads what `parse_receiver_command` says. A read past the
/// end (`UnexpectedEof`) becomes `UnexpectedEnd`, any other error (the unknown kind)
/// `InvalidData`. Its reads never move a position that is not past the end past it.
#[verifier::external_body]
fn read_receiver_command(stream: &mut InOctetStream) -> (r: Result<ReceiverToSenderFrontCommands, StreamError>)
    ensures
        in_within(*old(stream)) ==> in_within(*final(stream)),
        parsed_from(parse_receiver_command(in_remaining(*old(stream))), r, *old(stream), *final(stream)),
{
    match BlobReceiverCommand::from_stream(stream) {
        Ok(BlobReceiverCommand::AckChunk(d)) => Ok(ReceiverToSenderFrontCommands::AckChunk(AckChunkFrontData {
            transfer_id: d.transfer_id.0,
            waiting_for_chunk_index: d.data.waiting_for_chunk_index,
            receive_mask_after_last: d.data.receive_mask_after_last,
        })),
        Ok(BlobReceiverCommand::AckStart(id)) => Ok(ReceiverToSenderFrontCommands::AckStart(id)),
        Err(e) if e.kind() == std::io::ErrorKind::UnexpectedEof => Err(StreamError::UnexpectedEnd),
        Err(_) => Err(StreamError::InvalidData),
    }
}

/// `SenderToReceiverFrontCommands::to_stream` of `blob_stream`: the kind octet and the
/// fields, big-endian, as `sender_command_octets` says; writing to an octet stream does
/// not fail.
#[verifier::external_body]
fn write_sender_command(c: &SenderToReceiverFrontCommands, stream: &mut OutOctetStream)
    ensures
        out_octets(*final(stream)) == out_octets(*old(stream)) + sender_command_octets(c@),
{
    let command = match c {
        SenderToReceiverFrontCommands::SetChunk(d) => BlobSenderCommand::SetChunk(BlobSetChunk {
            transfer_id: TransferId(d.transfer_id),
            data: SetChunkData { chunk_index: d.chunk_index, payload: d.payload.clone() },
        }),
        SenderToReceiverFrontCommands::StartTransfer(d) => BlobSenderCommand::StartTransfer(BlobStartTransfer {
            transfer_id: d.transfer_id,
            total_octet_size: d.total_octet_size,
            chunk_size: d.chunk_size,
        }),
    };
    let _ = command.to_stream(stream);
}

/// `SenderToReceiverFrontCommands::from_stream` of `blob_stream`, with its result taken
/// field by field: it reads what `parse_sender_command` says. A read past the end
/// (`UnexpectedEof`) becomes `UnexpectedEnd`, any other error (the unknown kind)
/// `InvalidData`. Its reads never move a position that is not past the end past it.
#[verifier::external_body]
fn read_sender_command(stream: &mut InOctetStream) -> (r: Result<SenderToReceiverFrontCommands, StreamError>)
    ensures
        in_within(*old(stream)) ==> in_within(*final(stream)),
        parsed_view_from(parse_sender_command(in_remaining(*old(stream))), r, *old(stream), *final(stream)),
{
    match BlobSenderCommand::from_stream(stream) {
        Ok(BlobSenderCommand::SetChunk(d)) => Ok(SenderToReceiverFrontCommands::SetChunk(SetChunkFrontData {
            transfer_id: d.transfer_id.0,
            chunk_index: d.data.chunk_index,
            payload: d.data.payload,
        })),
        Ok(BlobSenderCommand::StartTransfer(d)) => Ok(SenderToReceiverFrontCommands::StartTransfer(StartTransferData {
            transfer_id: d.transfer_id,
            total_octet_size: d.total_octet_size,
            chunk_size: d.chunk_size,
        })),
        Err(e) if e.kind() == std::io::ErrorKind::UnexpectedEof => Err(StreamError::UnexpectedEnd),
        Err(_) => Err(StreamError::InvalidData),
    }
}

impl Serialize for ReceiverToSenderFrontCommands {
    open spec fn octets_of(v: ReceiverToSenderFrontCommands) -> Seq<u8> {
        receiver_command_octets(v)
    }

    fn serialize(&self, stream: &mut OutOctetStream) {
        write_receiver_command(self, stream);
    }
}

impl Deserialize for ReceiverToSenderFrontCommands {
    open spec fn parse(data: Seq<u8>) -> Result<(ReceiverToSenderFrontCommands, nat), StreamError> {
        parse_receiver_command(data)
    }

    fn deserialize(stream: &mut InOctetStream) -> (r: Result<ReceiverToSenderFrontCommands, StreamError>) {
        read_receiver_command(stream)
    }
}

impl Roundtrip for ReceiverToSenderFrontCommands {
    open spec fn encodable(v: ReceiverToSenderFrontCommands) -> bool {
        true
    }

    proof fn lemma_roundtrip(v: ReceiverToSenderFrontCommands, rest: Seq<u8>) {
        let d = receiver_command_octets(v) + rest;
        match v {
            ReceiverToSenderFrontCommands::AckChunk(a) => {
                let p16 = be_u16(a.transfer_id);
                let p32 = be_u32(a.waiting_for_chunk_index);
                let p64 = be_u64(a.receive_mask_after_last);
                assert(d =~= seq![0x02u8] + (p16 + (p32 + (p64 + rest))));
                lemma_skip_prefix(seq![0x02u8], p16 + (p32 + (p64 + rest)));
                lemma_parse_u16_be(a.transfer_id, p32 + (p64 + rest));
                assert(d.skip(3) =~= p32 + (p64 + rest));
                lemma_parse_u32_be(a.waiting_for_chunk_index, p64 + rest);
                assert(d.skip(7) =~= p64 + rest);
                lemma_parse_u64_be(a.receive_mask_after_last, rest);
                assert(d.len() >= 15);
                assert(d[0] == 0x02u8);
            },
            ReceiverToSenderFrontCommands::AckStart(id) => {
                assert(d.skip(1) =~= be_u16(id) + rest);
                lemma_parse_u16_be(id, rest);
            },
        }
    }
}

impl Serialize for SenderToReceiverFrontCommands {
    open spec fn octets_of(v: SenderCommandView) -> Seq<u8> {
        sender_command_octets(v)
    }

    fn serialize(&self, stream: &mut OutOctetStream) {
        write_sender_command(self, stream);
    }
}

impl Deserialize for SenderToReceiverFrontCommands {
    open spec fn parse(data: Seq<u8>) -> Result<(SenderCommandView, nat), StreamError> {
        parse_sender_command(data)
    }

    fn deserialize(stream: &mut InOctetStream) -> (r: Result<SenderToReceiverFrontCommands, StreamError>) {
        read_sender_command(stream)
    }
}

impl Roundtrip for SenderToReceiverFrontCommands {
    /// A chunk payload must fit its 16-bit length field.
    open spec fn encodable(v: SenderCommandView) -> bool {
        match v {
            SenderCommandView::SetChunk { payload, .. } => payload.len() <= 0xffff,
            SenderCommandView::StartTransfer(_) => true,
        }
    }

    proof fn lemma_roundtrip(v: SenderCommandView, rest: Seq<u8>) {
        let d = sender_command_octets(v) + rest;
        match v {
            SenderCommandView::SetChunk { transfer_id, chunk_index, payload } => {
                let len = payload.len() as u16;
                let p16 = be_u16(transfer_id);
                let p32 = be_u32(chunk_index);
                let l16 = be_u16(len);
                assert(d =~= seq![0x01u8] + (p16 + (p32 + (l16 + (payload + rest)))));
                lemma_skip_prefix(seq![0x01u8], p16 + (p32 + (l16 + (payload + rest))));
                lemma_parse_u16_be(transfer_id, p32 + (l16 + (payload + rest)));
                assert(d.skip(3) =~= p32 + (l16 + (payload + rest)));
                lemma_parse_u32_be(chunk_index, l16 + (payload + rest));
                assert(d.skip(7) =~= l16 + (payload + rest));
                lemma_parse_u16_be(len, payload + rest);
                assert(d.subrange(9, 9 + len) =~= payload);
                assert(d[0] == 0x01u8);
            },
            SenderCommandView::StartTransfer(t) => {
                let p16 = be_u16(t.transfer_id);
                let p32 = be_u32(t.total_octet_size);
                let c16 = be_u16(t.chunk_size);
                assert(d =~= seq![0x02u8] + (p16 + (p32 + (c16 + rest))));
                lemma_skip_prefix(seq![0x02u8], p16 + (p32 + (c16 + rest)));
                lemma_parse_u16_be(t.transfer_id, p32 + (c16 + rest));
                assert(d.skip(3) =~= p32 + (c16 + rest));
                lemma_parse_u32_be(t.total_octet_size, c16 + rest);
                assert(d.skip(7) =~= c16 + rest);
                lemma_parse_u16_be(t.chunk_size, rest);
                assert(d[0] == 0x02u8);
            },
        }
    }
}

} // verus!

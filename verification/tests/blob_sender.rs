use nimble::blob_commands::{
    AckChunkFrontData, ReceiverToSenderFrontCommands, SenderToReceiverFrontCommands,
};
use nimble::blob_sender::BlobSender;
use std::time::Instant;

#[test]
fn sender_announces_until_start_is_acknowledged() {
    let blob: Vec<u8> = (0..10u8).collect();
    let mut sender = BlobSender::new(7, 4, 100, &blob);
    assert_eq!(sender.transfer_id(), 7);
    assert!(!sender.is_received_by_remote());

    let commands = sender.send(Instant::now()).expect("send does not fail");
    assert_eq!(commands.len(), 1);
    match &commands[0] {
        SenderToReceiverFrontCommands::StartTransfer(d) => {
            assert_eq!(d.transfer_id, 7);
            assert_eq!(d.total_octet_size, 10);
            assert_eq!(d.chunk_size, 4);
        }
        SenderToReceiverFrontCommands::SetChunk(_) => panic!("expected the announcement"),
    }

    // An acknowledgement of another transfer leaves the sender announcing.
    sender.receive(&ReceiverToSenderFrontCommands::AckStart(8)).expect("ignored");
    let commands = sender.send(Instant::now()).expect("send does not fail");
    assert!(matches!(commands[0], SenderToReceiverFrontCommands::StartTransfer(_)));
    assert!(!sender.is_received_by_remote());
}

#[test]
fn sender_sends_chunks_after_start() {
    let blob: Vec<u8> = (0..10u8).collect();
    let mut sender = BlobSender::new(3, 4, 100, &blob);
    sender.receive(&ReceiverToSenderFrontCommands::AckStart(3)).expect("start acknowledged");
    let commands = sender.send(Instant::now()).expect("send does not fail");
    assert_eq!(commands.len(), 3);
    for command in &commands {
        match command {
            SenderToReceiverFrontCommands::SetChunk(d) => {
                assert_eq!(d.transfer_id, 3);
                let start = d.chunk_index as usize * 4;
                let end = usize::min(start + 4, blob.len());
                assert_eq!(d.payload, blob[start..end].to_vec());
            }
            SenderToReceiverFrontCommands::StartTransfer(_) => panic!("expected chunks"),
        }
    }

    sender
        .receive(&ReceiverToSenderFrontCommands::AckChunk(AckChunkFrontData {
            transfer_id: 3,
            waiting_for_chunk_index: 3,
            receive_mask_after_last: 0,
        }))
        .expect("all chunks acknowledged");
    assert!(sender.is_received_by_remote());
}

#[test]
fn chunk_acknowledgements_before_the_start_are_ignored() {
    let blob: Vec<u8> = (0..10u8).collect();
    let mut sender = BlobSender::new(5, 4, 100, &blob);
    let ack = ReceiverToSenderFrontCommands::AckChunk(AckChunkFrontData {
        transfer_id: 5,
        waiting_for_chunk_index: 3,
        receive_mask_after_last: 0,
    });
    sender.receive(&ack).expect("ignored before the start");
    assert!(!sender.is_received_by_remote());
    sender.receive(&ReceiverToSenderFrontCommands::AckStart(5)).expect("start acknowledged");
    assert!(!sender.is_received_by_remote());
}

#[test]
fn a_chunk_reported_missing_after_its_acknowledgement_is_refused() {
    let blob: Vec<u8> = (0..10u8).collect();
    let mut sender = BlobSender::new(5, 4, 100, &blob);
    sender.receive(&ReceiverToSenderFrontCommands::AckStart(5)).expect("start acknowledged");
    sender
        .receive(&ReceiverToSenderFrontCommands::AckChunk(AckChunkFrontData {
            transfer_id: 5,
            waiting_for_chunk_index: 0,
            receive_mask_after_last: 0b1,
        }))
        .expect("chunk 1 acknowledged");
    assert!(!sender.is_received_by_remote());
    let refused = sender.receive(&ReceiverToSenderFrontCommands::AckChunk(AckChunkFrontData {
        transfer_id: 5,
        waiting_for_chunk_index: 1,
        receive_mask_after_last: 0,
    }));
    assert!(refused.is_err());
}

use blob_stream::in_logic_front::FrontLogic;
use blob_stream::prelude::{SetChunkData, TransferId};
use blob_stream::protocol::StartTransferData as BlobStartTransferData;
use blob_stream::protocol_front::{
    ReceiverToSenderFrontCommands as BlobAck, SenderToReceiverFrontCommands as BlobSend,
    SetChunkFrontData as BlobSetChunk,
};
use nimble::blob_commands::{
    AckChunkFrontData, ReceiverToSenderFrontCommands, SenderToReceiverFrontCommands,
};
use nimble::client_to_host::{
    ClientToHostCommands, CombinedPredictedSteps, DownloadGameStateRequest, JoinGameRequest, JoinGameType,
    JoinPlayerRequest, JoinPlayerRequests, PredictedStep, StepsAck, StepsRequest,
};
use nimble::protocol::ClientRequestId;
use nimble::host_logic::{ConnectionId, HostLogic, HostLogicError};
use nimble::host_state::State;
use nimble::host_to_client::HostToClientCommands;
use nimble::steps::GenericOctetStep;
use nimble::tick::TickId;
use std::time::Instant;

fn to_blob_command(command: &SenderToReceiverFrontCommands) -> BlobSend {
    match command {
        SenderToReceiverFrontCommands::StartTransfer(d) => BlobSend::StartTransfer(BlobStartTransferData {
            transfer_id: d.transfer_id,
            total_octet_size: d.total_octet_size,
            chunk_size: d.chunk_size,
        }),
        SenderToReceiverFrontCommands::SetChunk(d) => BlobSend::SetChunk(BlobSetChunk {
            transfer_id: TransferId(d.transfer_id),
            data: SetChunkData {
                chunk_index: d.chunk_index,
                payload: d.payload.clone(),
            },
        }),
    }
}

fn from_blob_ack(ack: BlobAck) -> ReceiverToSenderFrontCommands {
    match ack {
        BlobAck::AckStart(id) => ReceiverToSenderFrontCommands::AckStart(id),
        BlobAck::AckChunk(d) => ReceiverToSenderFrontCommands::AckChunk(AckChunkFrontData {
            transfer_id: d.transfer_id.0,
            waiting_for_chunk_index: d.data.waiting_for_chunk_index,
            receive_mask_after_last: d.data.receive_mask_after_last,
        }),
    }
}

#[test]
fn game_state_download() {
    const TICK_ID: TickId = TickId(42);
    const EXPECTED_PAYLOAD: &[u8] = &[0xff, 0x33];
    let state = State::new(TICK_ID, EXPECTED_PAYLOAD);
    let mut logic = HostLogic::<GenericOctetStep>::new(state);

    let connection_id = logic.create_connection().expect("it should work");
    assert_eq!(connection_id.0, 0);
    let now = Instant::now();

    // Send a Download Game State request to the host.
    let download_request = DownloadGameStateRequest { request_id: 99 };
    let answers = logic
        .update(
            connection_id,
            now,
            &ClientToHostCommands::DownloadGameState(download_request.clone()),
        )
        .expect("Should download game state");

    assert_eq!(answers.len(), 2); // Download Game State Response and a Start Transfer

    let download_game_state_response = match &answers[0] {
        HostToClientCommands::DownloadGameState(response) => response,
        _ => panic!("Unexpected answer: expected DownloadGameState"),
    };
    assert_eq!(download_game_state_response.tick_id.0, TICK_ID.0);
    assert_eq!(
        download_game_state_response.client_request,
        download_request.request_id
    );
    assert_eq!(download_game_state_response.blob_stream_channel, 1);

    let start_transfer_data = match &answers[1] {
        HostToClientCommands::BlobStreamChannel(response) => match response {
            SenderToReceiverFrontCommands::StartTransfer(start_transfer_data) => {
                start_transfer_data
            }
            _ => panic!("Unexpected answer: expected SenderToReceiverFrontCommands"),
        },
        _ => panic!("Unexpected answer: expected BlobStreamChannel with Start Transfer"),
    };

    assert_eq!(start_transfer_data.transfer_id, 1);

    let mut in_stream = FrontLogic::new();

    // The client receives the Start Transfer from the host
    // and returns an AckStart.
    in_stream
        .receive(&to_blob_command(&SenderToReceiverFrontCommands::StartTransfer(
            start_transfer_data.clone(),
        )))
        .expect("Should start transfer");
    let probably_start_acks = from_blob_ack(in_stream.send().expect("Should start transfer"));

    // The host receives the AckStart and returns a number of SetChunk.
    let probably_set_chunks = logic
        .update(
            connection_id,
            now,
            &ClientToHostCommands::BlobStreamChannel(probably_start_acks),
        )
        .expect("Should download game state");

    let first_set_converted_chunks = probably_set_chunks
        .iter()
        .map(|x| match x {
            HostToClientCommands::BlobStreamChannel(sender_to_receiver) => match sender_to_receiver {
                SenderToReceiverFrontCommands::SetChunk(_) => sender_to_receiver.clone(),
                _ => panic!("Unexpected sender to receiver {:?}", &probably_set_chunks[0]),
            },
            _ => panic!("Unexpected answer: expected BlobStreamChannel"),
        })
        .collect::<Vec<_>>();

    // Process SetChunks
    let last_ack = {
        let mut ack: Option<ReceiverToSenderFrontCommands> = None;

        for x in first_set_converted_chunks {
            in_stream
                .receive(&to_blob_command(&x))
                .expect("should handle start transfer");
            ack = in_stream.send().map(from_blob_ack);
        }
        ack
    };
    assert!(last_ack.is_some());

    assert_eq!(
        in_stream.blob().expect("blob should be ready here"),
        EXPECTED_PAYLOAD
    );

    logic
        .update(
            connection_id,
            now,
            &ClientToHostCommands::BlobStreamChannel(last_ack.unwrap()),
        )
        .expect("Should download game state");

    assert!(logic
        .get(connection_id)
        .as_ref()
        .expect("connection should exist")
        .is_state_received_by_remote());

    logic
        .destroy_connection(connection_id)
        .expect("Should destroy connection");
}

#[test]
fn destroying_a_connection_twice_is_refused() {
    let state = State::new(TickId(1), &[1, 2, 3]);
    let mut logic = HostLogic::<GenericOctetStep>::new(state);
    let connection_id = logic.create_connection().expect("it should work");
    assert!(logic.destroy_connection(connection_id).is_ok());
    match logic.destroy_connection(connection_id) {
        Err(HostLogicError::FreeListError { connection_id: c, message }) => {
            assert_eq!(c.0, connection_id.0);
            assert_eq!(message, "ID 0 is already freed");
        }
        other => panic!("expected a free list error, got {:?}", other),
    }
}

#[test]
fn a_download_on_an_unknown_connection_is_refused() {
    let state = State::new(TickId(1), &[1, 2, 3]);
    let mut logic = HostLogic::<GenericOctetStep>::new(state);
    let result = logic.update(
        ConnectionId(7),
        Instant::now(),
        &ClientToHostCommands::DownloadGameState(DownloadGameStateRequest { request_id: 1 }),
    );
    assert!(matches!(result, Err(HostLogicError::UnknownConnectionId(ConnectionId(7)))));
}

#[test]
fn connections_are_numbered_from_zero() {
    let state = State::new(TickId(1), &[1]);
    let mut logic = HostLogic::<GenericOctetStep>::new(state);
    assert_eq!(logic.create_connection().unwrap().0, 0);
    assert_eq!(logic.create_connection().unwrap().0, 1);
    assert!(logic.get(ConnectionId(1)).is_some());
    assert!(logic.get(ConnectionId(2)).is_none());
}

fn join_request(local_index: u8) -> ClientToHostCommands<GenericOctetStep> {
    ClientToHostCommands::JoinGameType(JoinGameRequest {
        client_request_id: ClientRequestId(4),
        join_game_type: JoinGameType::NoSecret,
        player_requests: JoinPlayerRequests {
            players: vec![JoinPlayerRequest { local_index }],
        },
    })
}

fn steps_request(local_indices: &[u8]) -> ClientToHostCommands<GenericOctetStep> {
    ClientToHostCommands::Steps(StepsRequest {
        ack: StepsAck {
            waiting_for_tick_id: 0,
            lost_steps_mask_after_last_received: 0,
        },
        combined_predicted_steps: CombinedPredictedSteps {
            first_tick: TickId(0),
            steps: vec![PredictedStep {
                predicted_players: local_indices
                    .iter()
                    .map(|i| (*i, GenericOctetStep { payload: vec![*i] }))
                    .collect(),
            }],
        },
    })
}

#[test]
fn a_joined_player_can_send_steps() {
    let mut logic = HostLogic::<GenericOctetStep>::new(State::new(TickId(1), &[1]));
    let connection_id = logic.create_connection().unwrap();
    let answers = logic.update(connection_id, Instant::now(), &join_request(3)).expect("join");
    assert_eq!(answers.len(), 1);
    match &answers[0] {
        HostToClientCommands::JoinGame(accepted) => {
            assert_eq!(accepted.client_request_id, ClientRequestId(4));
            assert_eq!(accepted.party_and_session_secret.party_id, 0);
            assert!(accepted.participants.0.is_empty());
        }
        other => panic!("expected a join answer, got {:?}", other),
    }
    let lookup = &logic.get(connection_id).unwrap().participant_lookup;
    assert_eq!(lookup.len(), 1);
    assert_eq!(lookup[0].0, 3);
    assert_eq!(lookup[0].1.id.0, 0);

    let answers = logic.update(connection_id, Instant::now(), &steps_request(&[3])).expect("steps");
    match &answers[0] {
        HostToClientCommands::GameStep(step) => assert!(step.authoritative_steps.ranges.is_empty()),
        other => panic!("expected a game step, got {:?}", other),
    }

    let refused = logic.update(connection_id, Instant::now(), &steps_request(&[3, 9, 8]));
    assert!(matches!(refused, Err(HostLogicError::UnknownPartyMemberIndex(9))));
}

#[test]
fn joins_stop_when_participant_ids_run_out() {
    let mut logic = HostLogic::<GenericOctetStep>::new(State::new(TickId(1), &[1]));
    let connection_id = logic.create_connection().unwrap();
    for i in 0..255u32 {
        logic
            .update(connection_id, Instant::now(), &join_request((i % 256) as u8))
            .expect("join");
    }
    let refused = logic.update(connection_id, Instant::now(), &join_request(0));
    assert!(matches!(refused, Err(HostLogicError::NoFreeParticipantIds)));
}

#[test]
fn an_acknowledgement_past_the_last_chunk_is_not_allowed_after_the_start() {
    let state = State::new(TickId(42), &[0xff, 0x33]);
    let mut logic = HostLogic::<GenericOctetStep>::new(state);
    let connection_id = logic.create_connection().expect("a connection");
    let download = ClientToHostCommands::DownloadGameState(DownloadGameStateRequest { request_id: 99 });
    assert!(logic.is_update_allowed(connection_id, &download));
    let answers = logic.update(connection_id, Instant::now(), &download).expect("a download");
    assert_eq!(answers.len(), 2);
    let far_ack = ClientToHostCommands::BlobStreamChannel(ReceiverToSenderFrontCommands::AckChunk(AckChunkFrontData {
        transfer_id: 1,
        waiting_for_chunk_index: 5,
        receive_mask_after_last: 0,
    }));
    assert!(logic.is_update_allowed(connection_id, &far_ack));
    let start = ClientToHostCommands::BlobStreamChannel(ReceiverToSenderFrontCommands::AckStart(1));
    logic.update(connection_id, Instant::now(), &start).expect("start acknowledged");
    assert!(!logic.is_update_allowed(connection_id, &far_ack));
    assert!(!logic.get(connection_id).unwrap().is_state_received_by_remote());
    let all = ClientToHostCommands::BlobStreamChannel(ReceiverToSenderFrontCommands::AckChunk(AckChunkFrontData {
        transfer_id: 1,
        waiting_for_chunk_index: 1,
        receive_mask_after_last: 0,
    }));
    assert!(logic.is_update_allowed(connection_id, &all));
    logic.update(connection_id, Instant::now(), &all).expect("every chunk acknowledged");
    assert!(logic.get(connection_id).unwrap().is_state_received_by_remote());
}

#[test]
fn a_game_step_answer_whose_ticks_pass_the_largest_tick_id_is_refused() {
    let passing: [u8; 14] = [0x08, 0, 0, 0, 0, 0, 0, 0xFF, 0xFF, 0xFF, 0xFE, 1, 5, 0];
    let refused = HostToClientCommands::<GenericOctetStep>::from_octets(&passing);
    assert!(matches!(refused, Err(nimble::stream::StreamError::InvalidData)));
    let fitting: [u8; 14] = [0x08, 0, 0, 0, 0, 0, 0, 0xFF, 0xFF, 0xFF, 0xFE, 1, 1, 0];
    match HostToClientCommands::<GenericOctetStep>::from_octets(&fitting) {
        Ok(HostToClientCommands::GameStep(answer)) => {
            assert_eq!(answer.authoritative_steps.ranges.len(), 1);
            assert_eq!(answer.authoritative_steps.ranges[0].tick_id, TickId(0xFFFF_FFFF));
        }
        other => panic!("expected a game step answer, got {:?}", other),
    }
}

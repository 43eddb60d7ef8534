use nimble::rectify::follows_authoritative;
use flood_rs::in_stream::InOctetStream;
use flood_rs::out_stream::OutOctetStream;
use nimble::client_to_host::AuthoritativeStep;
use nimble::client_to_host_oob::ConnectRequest;
use nimble::blob_commands::{SenderToReceiverFrontCommands, SetChunkFrontData};
use nimble::host_to_client::{
    AuthoritativeStepRange, AuthoritativeStepRanges, DownloadGameStateResponse, HostToClientCommands,
    JoinGameAccepted, JoinGameParticipant, JoinGameParticipants, PartyAndSessionSecret,
};
use nimble::participant::ParticipantId;
use nimble::protocol::{ClientRequestId, SessionConnectionSecret, Version};
use nimble::sample_step::SampleStep;
use nimble::tick::TickId;
use nimble::udp_connections::Nonce;

fn tick(entries: &[(u8, SampleStep)]) -> AuthoritativeStep<SampleStep> {
    AuthoritativeStep {
        authoritative_participants: entries
            .iter()
            .map(|(id, step)| (ParticipantId(*id), step.clone()))
            .collect(),
    }
}

#[test]
fn a_uniform_range_reads_back_as_itself() {
    let steps = vec![
        tick(&[(255, SampleStep::Jump), (1, SampleStep::MoveLeft(40))]),
        tick(&[(255, SampleStep::MoveLeft(-10)), (1, SampleStep::Jump)]),
        tick(&[(255, SampleStep::MoveRight(32000)), (1, SampleStep::Jump)]),
    ];
    let ranges = AuthoritativeStepRanges {
        ranges: vec![AuthoritativeStepRange {
            tick_id: TickId(909),
            authoritative_steps: steps,
        }],
    };
    let mut out_stream = OutOctetStream::new();
    ranges.serialize(&mut out_stream).expect("serialize");

    let mut in_stream = InOctetStream::new(out_stream.octets_ref());
    let received = AuthoritativeStepRanges::<SampleStep>::deserialize(&mut in_stream).expect("deserialize");
    assert_eq!(received.ranges.len(), 1);
    let range = &received.ranges[0];
    assert_eq!(range.tick_id, TickId(909));
    assert_eq!(range.authoritative_steps.len(), 3);
    let expected = [
        [(255, SampleStep::Jump), (1, SampleStep::MoveLeft(40))],
        [(255, SampleStep::MoveLeft(-10)), (1, SampleStep::Jump)],
        [(255, SampleStep::MoveRight(32000)), (1, SampleStep::Jump)],
    ];
    for (received_tick, expected_tick) in range.authoritative_steps.iter().zip(expected.iter()) {
        let entries: Vec<(u8, SampleStep)> = received_tick
            .authoritative_participants
            .iter()
            .map(|(id, step)| (id.0, step.clone()))
            .collect();
        assert_eq!(entries, expected_tick.to_vec());
    }
}

#[test]
fn ranges_out_of_order_are_refused() {
    let ranges = AuthoritativeStepRanges {
        ranges: vec![
            AuthoritativeStepRange {
                tick_id: TickId(10),
                authoritative_steps: vec![tick(&[(1, SampleStep::Jump)]), tick(&[(1, SampleStep::Jump)])],
            },
            AuthoritativeStepRange {
                tick_id: TickId(11),
                authoritative_steps: vec![tick(&[(1, SampleStep::Jump)])],
            },
        ],
    };
    let mut out_stream = OutOctetStream::new();
    assert!(ranges.serialize(&mut out_stream).is_err());
    assert!(out_stream.octets_ref().is_empty());
}

#[test]
fn version_reads_back() {
    let version = Version {
        major: 4,
        minor: 3,
        patch: 2,
    };
    let mut out_stream = OutOctetStream::new();
    version.to_stream(&mut out_stream);
    assert_eq!(out_stream.octets_ref(), &[0, 4, 0, 3, 0, 2]);
    let mut in_stream = InOctetStream::new(out_stream.octets_ref());
    assert_eq!(Version::from_stream(&mut in_stream), Ok(version));
}

#[test]
fn connect_request_reads_back() {
    let connect = ConnectRequest {
        nimble_version: Version {
            major: 99,
            minor: 66,
            patch: 33,
        },
        use_debug_stream: false,
        application_version: Version {
            major: 4,
            minor: 3,
            patch: 2,
        },
        nonce: Nonce(0xff4411ff),
    };
    let mut out_stream = OutOctetStream::new();
    connect.to_stream(&mut out_stream);
    let mut in_stream = InOctetStream::new(out_stream.octets_ref());
    assert_eq!(ConnectRequest::from_stream(&mut in_stream), Ok(connect));
}

#[test]
fn a_short_version_is_refused() {
    let mut in_stream = InOctetStream::new(&[0, 4, 0]);
    assert!(Version::from_stream(&mut in_stream).is_err());
}

#[test]
fn host_commands_read_back() {
    let commands: Vec<HostToClientCommands<SampleStep>> = vec![
        HostToClientCommands::DownloadGameState(DownloadGameStateResponse {
            client_request: 99,
            tick_id: TickId(42),
            blob_stream_channel: 1,
        }),
        HostToClientCommands::BlobStreamChannel(SenderToReceiverFrontCommands::SetChunk(SetChunkFrontData {
            transfer_id: 1,
            chunk_index: 0,
            payload: vec![0xff, 0x33],
        })),
        HostToClientCommands::JoinGame(JoinGameAccepted {
            client_request_id: ClientRequestId(7),
            party_and_session_secret: PartyAndSessionSecret {
                session_secret: SessionConnectionSecret { value: 0x0102 },
                party_id: 3,
            },
            participants: JoinGameParticipants(vec![JoinGameParticipant {
                local_index: 0,
                participant_id: ParticipantId(5),
            }]),
        }),
    ];
    for command in commands {
        let mut out_stream = OutOctetStream::new();
        command.to_stream(&mut out_stream).expect("write");
        let mut in_stream = InOctetStream::new(out_stream.octets_ref());
        let read = HostToClientCommands::<SampleStep>::from_stream(&mut in_stream).expect("read");
        assert_eq!(format!("{:?}", read), format!("{:?}", command));
    }
}

#[test]
fn an_unknown_host_command_is_refused() {
    let mut in_stream = InOctetStream::new(&[0x01, 0x00]);
    let read = HostToClientCommands::<SampleStep>::from_stream(&mut in_stream);
    assert!(matches!(read, Err(nimble::stream::StreamError::UnknownValue(0x01))));
}

#[test]
fn a_later_range_is_read_from_the_start_of_the_range_before() {
    let ranges = AuthoritativeStepRanges {
        ranges: vec![
            AuthoritativeStepRange {
                tick_id: TickId(10),
                authoritative_steps: vec![tick(&[(1, SampleStep::Jump)]), tick(&[(1, SampleStep::Jump)])],
            },
            AuthoritativeStepRange {
                tick_id: TickId(13),
                authoritative_steps: vec![tick(&[(1, SampleStep::Nothing)])],
            },
        ],
    };
    let mut out_stream = OutOctetStream::new();
    ranges.serialize(&mut out_stream).expect("serialize");
    let mut in_stream = InOctetStream::new(out_stream.octets_ref());
    let received = AuthoritativeStepRanges::<SampleStep>::deserialize(&mut in_stream).expect("deserialize");
    assert_eq!(received.ranges.len(), 2);
    assert_eq!(received.ranges[0].tick_id, TickId(10));
    // Written as one tick after the end of the first range, read as one tick after its start.
    assert_eq!(received.ranges[1].tick_id, TickId(11));
}

#[test]
fn an_authoritative_step_must_follow_the_last_authoritative_tick() {
    assert!(follows_authoritative(None, 17));
    assert!(follows_authoritative(Some(16), 17));
    assert!(!follows_authoritative(Some(16), 18));
    assert!(!follows_authoritative(Some(u32::MAX), 0));
}

#[test]
fn a_range_with_ticks_in_any_order_reads_back_with_the_same_entries() {
    let steps = vec![
        tick(&[(3, SampleStep::Jump), (7, SampleStep::MoveLeft(40)), (5, SampleStep::Nothing)]),
        tick(&[(5, SampleStep::MoveRight(2)), (3, SampleStep::Nothing)]),
        tick(&[(3, SampleStep::MoveLeft(-1))]),
    ];
    let ranges = AuthoritativeStepRanges {
        ranges: vec![AuthoritativeStepRange {
            tick_id: TickId(44),
            authoritative_steps: steps,
        }],
    };
    let mut out_stream = OutOctetStream::new();
    ranges.serialize(&mut out_stream).expect("serialize");

    let mut in_stream = InOctetStream::new(out_stream.octets_ref());
    let received = AuthoritativeStepRanges::<SampleStep>::deserialize(&mut in_stream).expect("deserialize");
    assert_eq!(received.ranges.len(), 1);
    let range = &received.ranges[0];
    assert_eq!(range.tick_id, TickId(44));
    assert_eq!(range.authoritative_steps.len(), 3);
    let expected: [Vec<(u8, SampleStep)>; 3] = [
        vec![(3, SampleStep::Jump), (5, SampleStep::Nothing), (7, SampleStep::MoveLeft(40))],
        vec![(3, SampleStep::Nothing), (5, SampleStep::MoveRight(2))],
        vec![(3, SampleStep::MoveLeft(-1))],
    ];
    for (received_tick, expected_tick) in range.authoritative_steps.iter().zip(expected.iter()) {
        let mut entries: Vec<(u8, SampleStep)> = received_tick
            .authoritative_participants
            .iter()
            .map(|(id, step)| (id.0, step.clone()))
            .collect();
        entries.sort_by_key(|entry| entry.0);
        assert_eq!(&entries, expected_tick);
    }
}

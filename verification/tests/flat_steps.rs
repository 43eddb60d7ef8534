use flood_rs::in_stream::InOctetStream;
use flood_rs::out_stream::OutOctetStream;
use nimble::flat_steps::{
    AuthoritativeCombinedStepForAllParticipants, AuthoritativeStepRange, AuthoritativeStepRanges,
    PredictedStepsForAllPlayers, PredictedStepsForOnePlayer,
};
use nimble::participant::ParticipantId;
use nimble::sample_step::SampleStep;
use nimble::tick::TickId;

#[test]
fn authoritative_step_ranges_are_written_and_read_back() {
    let ranges = AuthoritativeStepRanges {
        start_tick_id: TickId(7),
        ranges: vec![AuthoritativeStepRange {
            delta_steps_from_previous: 2,
            authoritative_steps: vec![AuthoritativeCombinedStepForAllParticipants {
                authoritative_participants: vec![(ParticipantId(1), SampleStep::Jump)],
            }],
        }],
    };
    let mut out_stream = OutOctetStream::new();
    ranges.to_stream(&mut out_stream);
    assert_eq!(out_stream.octets_ref(), &[0, 0, 0, 7, 1, 2, 1, 1, 1, 0x03]);
    let mut in_stream = InOctetStream::new(out_stream.octets_ref());
    let read = AuthoritativeStepRanges::<SampleStep>::from_stream(&mut in_stream).expect("ranges");
    assert_eq!(read.start_tick_id, TickId(7));
    assert_eq!(read.ranges.len(), 1);
    assert_eq!(read.ranges[0].delta_steps_from_previous, 2);
    assert_eq!(
        read.ranges[0].authoritative_steps[0].authoritative_participants,
        vec![(ParticipantId(1), SampleStep::Jump)]
    );
}

#[test]
fn a_participant_that_comes_again_replaces_its_step() {
    let range_octets = [0u8, 1, 2, 5, 0x03, 5, 0x00];
    let mut range_stream = InOctetStream::new(&range_octets);
    let range = AuthoritativeStepRange::<SampleStep>::from_stream(&mut range_stream).expect("a range");
    assert_eq!(
        range.authoritative_steps[0].authoritative_participants,
        vec![(ParticipantId(5), SampleStep::Nothing)]
    );
}

#[test]
fn predicted_steps_are_read_with_the_local_index_after_the_steps() {
    let players = PredictedStepsForAllPlayers {
        predicted_players: vec![(
            4,
            PredictedStepsForOnePlayer {
                first_tick_id: TickId(9),
                predicted_steps: vec![SampleStep::Jump, SampleStep::Nothing],
            },
        )],
    };
    let mut out_stream = OutOctetStream::new();
    players.to_stream(&mut out_stream);
    assert_eq!(out_stream.octets_ref(), &[1, 4, 0, 0, 0, 9, 2, 0x03, 0x00]);

    let octets = [1u8, 0, 0, 0, 9, 2, 0x03, 0x00, 4];
    let mut in_stream = InOctetStream::new(&octets);
    let read = PredictedStepsForAllPlayers::<SampleStep>::from_stream(&mut in_stream).expect("players");
    assert_eq!(read.predicted_players.len(), 1);
    assert_eq!(read.predicted_players[0].0, 4);
    assert_eq!(read.predicted_players[0].1.first_tick_id, TickId(9));
    assert_eq!(read.predicted_players[0].1.predicted_steps, vec![SampleStep::Jump, SampleStep::Nothing]);
}

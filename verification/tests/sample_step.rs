use nimble::client_to_host::AuthoritativeStep;
use nimble::participant::ParticipantId;
use nimble::sample_step::{SampleState, SampleStep};
use nimble::steps::Step;

fn tick(steps: &[Step<SampleStep>]) -> AuthoritativeStep<Step<SampleStep>> {
    AuthoritativeStep {
        authoritative_participants: steps
            .iter()
            .enumerate()
            .map(|(i, step)| (ParticipantId(i as u8), step.clone()))
            .collect(),
    }
}

#[test]
fn steps_move_the_sample_state() {
    let mut state = SampleState { x: 10, y: 0 };
    let step = tick(&[
        Step::Custom(SampleStep::MoveLeft(3)),
        Step::Custom(SampleStep::MoveRight(5)),
        Step::Custom(SampleStep::Jump),
        Step::Forced,
        Step::Left,
    ]);
    assert!(state.can_update(&step));
    state.update(&step);
    assert_eq!(state, SampleState { x: 12, y: 2 });
}

#[test]
fn a_step_past_the_largest_position_cannot_be_applied() {
    let state = SampleState { x: i32::MAX - 1, y: 0 };
    let step = tick(&[Step::Custom(SampleStep::MoveRight(2)), Step::Custom(SampleStep::MoveLeft(5))]);
    assert!(!state.can_update(&step));
}

#[test]
fn sample_state_octets_read_back() {
    let state = SampleState { x: -2, y: 300 };
    let octets = state.to_octets().expect("octets");
    assert_eq!(octets, vec![0xff, 0xff, 0xff, 0xfe, 0, 0, 1, 0x2c]);
    assert_eq!(SampleState::from_octets(&octets), Ok(state));
    assert!(SampleState::from_octets(&octets[0..7]).is_err());
}

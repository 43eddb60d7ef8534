use nimble::combinator::{Combinator, CombinatorError};
use nimble::participant::ParticipantId;
use nimble::steps::{Step, Steps};
use nimble::tick::TickId;

#[derive(Debug, Clone, PartialEq)]
enum TestStep {
    InGame(i8),
    SelectTeam(u16),
}

fn buffer_of<'a>(combinator: &'a Combinator<TestStep>, id: ParticipantId) -> Option<&'a Steps<TestStep>> {
    combinator.in_buffers.iter().find(|(key, _)| *key == id).map(|(_, steps)| steps)
}

fn run_combinator_add() {
    let mut combinator = Combinator::<TestStep>::new(TickId(0));
    combinator.create_buffer(ParticipantId(1));
    combinator.create_buffer(ParticipantId(2));

    combinator.add(ParticipantId(1), TestStep::InGame(-2));
    combinator.add(ParticipantId(2), TestStep::SelectTeam(42));

    assert_eq!(combinator.in_buffers.len(), 2);
    assert_eq!(buffer_of(&combinator, ParticipantId(1)).unwrap().len(), 1);
    let steps_for_participant_1: &mut Steps<TestStep> = combinator
        .in_buffers
        .iter_mut()
        .find(|(key, _)| *key == ParticipantId(1))
        .map(|(_, steps)| steps)
        .unwrap();
    let first_step_for_participant_1 = steps_for_participant_1.pop().unwrap();
    assert_eq!(first_step_for_participant_1.step, TestStep::InGame(-2));

    assert_eq!(buffer_of(&combinator, ParticipantId(2)).unwrap().len(), 1);

    let combined_step = combinator.produce().unwrap();

    assert_eq!(combined_step.steps.len(), 1);
    // Participant 1 has been popped up previously
    let first_step = combined_step
        .steps
        .iter()
        .find(|(key, _)| *key == ParticipantId(2))
        .map(|(_, step)| step);
    assert_eq!(first_step.unwrap(), &Step::Custom(TestStep::SelectTeam(42)));
}

#[test]
fn combinator_test_combinator_add() {
    run_combinator_add();
}

#[test]
fn test_test_combinator_add() {
    run_combinator_add();
}

#[test]
fn combinator_with_no_ready_buffer_produces_nothing() {
    let mut combinator = Combinator::<TestStep>::new(TickId(5));
    combinator.create_buffer(ParticipantId(3));
    assert_eq!(combinator.participants_that_can_provide(), (0, 1));
    assert!(matches!(
        combinator.produce(),
        Err(CombinatorError::NotReadyToProduceStep { can_provide: 0, can_not_provide: 1 })
    ));
}

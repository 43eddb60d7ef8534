use nimble::pending_steps::PendingSteps;
use nimble::tick::TickId;

#[derive(Debug, PartialEq, Eq, Clone)]
enum GameInput {
    Jumping(bool),
    MoveHorizontal(i32),
}

#[test]
fn pending_add_step() {
    let mut steps = PendingSteps::<GameInput>::new(32, TickId(10));
    let first_tick_id = TickId(12);
    steps
        .set(first_tick_id, GameInput::MoveHorizontal(-2))
        .expect("this should work");
    assert_eq!(steps.front_tick_id(), None);
    assert!(steps.is_empty());
    steps
        .set(first_tick_id.minus(2), GameInput::Jumping(false))
        .expect("this should work");
    assert!(!steps.is_empty());
    assert_eq!(steps.front_tick_id().unwrap().value(), 10);
    let first_jumping_step = steps.pop();
    assert_eq!(first_jumping_step.tick_id, first_tick_id.minus(2));
    assert_eq!(steps.front_tick_id(), None);
    steps.discard_up_to(first_tick_id);
    assert!(steps.is_empty());
    steps.discard_up_to(first_tick_id.plus(1));
    assert!(steps.is_empty());
}

#[test]
fn pending_set_past_the_window_is_refused() {
    let mut steps = PendingSteps::<GameInput>::new(4, TickId(100));
    assert_eq!(
        steps.set(TickId(104), GameInput::Jumping(true)),
        Err("pending_steps: out of scope".to_string())
    );
    assert!(steps.set(TickId(103), GameInput::Jumping(true)).is_ok());
    assert!(steps.is_empty());
}

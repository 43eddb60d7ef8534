use nimble::steps::Steps;
use nimble::tick::TickId;

#[derive(Debug, PartialEq, Eq, Clone)]
enum GameInput {
    Jumping(bool),
    MoveHorizontal(i32),
}

#[test]
fn lib_add_step() {
    let mut steps = Steps::<GameInput>::new_with_initial_tick(TickId(23));
    steps.push(GameInput::MoveHorizontal(-2));
    assert_eq!(steps.len(), 1);
    assert_eq!(steps.front_tick_id().unwrap().value(), 23)
}

#[test]
fn lib_push_and_pop_step() {
    let mut steps = Steps::<GameInput>::new_with_initial_tick(TickId(23));
    steps.push(GameInput::Jumping(true));
    steps.push(GameInput::MoveHorizontal(42));
    assert_eq!(steps.len(), 2);
    assert_eq!(steps.front_tick_id().unwrap().value(), 23);
    assert_eq!(steps.pop().unwrap().step, GameInput::Jumping(true));
    assert_eq!(steps.front_tick_id().unwrap().value(), 24);
}

#[test]
fn lib_push_and_pop_count() {
    let mut steps = Steps::<GameInput>::new_with_initial_tick(TickId(23));
    steps.push(GameInput::Jumping(true));
    steps.push(GameInput::MoveHorizontal(42));
    assert_eq!(steps.len(), 2);
    steps.pop_count(8);
    assert_eq!(steps.len(), 0);
}

#[test]
fn lib_push_and_pop_up_to_lower() {
    let mut steps = Steps::<GameInput>::new_with_initial_tick(TickId(23));
    steps.push(GameInput::Jumping(true));
    steps.push(GameInput::MoveHorizontal(42));
    assert_eq!(steps.len(), 2);
    steps.pop_up_to(TickId(1));
    assert_eq!(steps.len(), 2);
}

#[test]
fn lib_push_and_pop_up_to_equal() {
    let mut steps = Steps::<GameInput>::new_with_initial_tick(TickId(23));
    steps.push(GameInput::Jumping(true));
    steps.push(GameInput::MoveHorizontal(42));
    assert_eq!(steps.len(), 2);
    steps.pop_up_to(TickId::new(24));
    assert_eq!(steps.len(), 1);
}

#[test]
fn steps_pop_in_push_order_with_consecutive_ticks() {
    let mut steps = Steps::<GameInput>::new_with_initial_tick(TickId(7));
    steps.push(GameInput::MoveHorizontal(1));
    steps.push(GameInput::MoveHorizontal(2));
    steps.push(GameInput::MoveHorizontal(3));
    assert_eq!(steps.back_tick_id().unwrap().value(), 9);
    let first = steps.pop().unwrap();
    assert_eq!(first.tick_id.value(), 7);
    assert_eq!(first.step, GameInput::MoveHorizontal(1));
    let second = steps.pop().unwrap();
    assert_eq!(second.tick_id.value(), 8);
    assert_eq!(second.step, GameInput::MoveHorizontal(2));
    let third = steps.pop().unwrap();
    assert_eq!(third.tick_id.value(), 9);
    assert!(steps.pop().is_none());
    assert!(steps.is_empty());
}

#[test]
fn steps_iterate_from_an_index() {
    let mut steps = Steps::<GameInput>::new_with_initial_tick(TickId(0));
    steps.push(GameInput::Jumping(false));
    steps.push(GameInput::Jumping(true));
    steps.push(GameInput::MoveHorizontal(5));
    let mut it = steps.iter_index(1);
    assert_eq!(it.next().unwrap().step, GameInput::Jumping(true));
    assert_eq!(it.next().unwrap().step, GameInput::MoveHorizontal(5));
    assert!(it.next().is_none());
}

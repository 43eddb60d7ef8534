use nimble::seer::{Seer, SeerCallback};

pub struct TestGame {
    pub position_x: i32,
}

pub enum TestGameStep {
    MoveLeft,
    MoveRight,
}

impl SeerCallback<TestGameStep> for TestGame {
    fn on_pre_ticks(&mut self) {}

    fn on_tick(&mut self, step: &TestGameStep) {
        match step {
            TestGameStep::MoveLeft => {
                self.position_x -= 1;
            }
            TestGameStep::MoveRight => {
                self.position_x += 1;
            }
        }
    }

    fn on_post_ticks(&mut self) {}
}

#[test]
fn lib_test_seer() {
    let mut game = TestGame { position_x: -44 };
    let mut seer: Seer<TestGame, TestGameStep> = Seer::new();
    seer.push(TestGameStep::MoveRight);
    seer.update(&mut game);
    assert_eq!(game.position_x, -43);
}

#[test]
fn test_test_seer() {
    let mut game = TestGame { position_x: -44 };
    let mut seer: Seer<TestGame, TestGameStep> = Seer::new();
    seer.push(TestGameStep::MoveRight);
    seer.update(&mut game);
    assert_eq!(game.position_x, -43);
}

pub struct RecordingGame {
    pub calls: Vec<String>,
}

impl SeerCallback<TestGameStep> for RecordingGame {
    fn on_pre_ticks(&mut self) {
        self.calls.push("pre".to_string());
    }

    fn on_tick(&mut self, step: &TestGameStep) {
        match step {
            TestGameStep::MoveLeft => self.calls.push("left".to_string()),
            TestGameStep::MoveRight => self.calls.push("right".to_string()),
        }
    }

    fn on_post_ticks(&mut self) {
        self.calls.push("post".to_string());
    }
}

#[test]
fn update_calls_pre_ticks_each_step_in_order_then_post_ticks() {
    let mut game = RecordingGame { calls: Vec::new() };
    let mut seer: Seer<RecordingGame, TestGameStep> = Seer::new();
    seer.push(TestGameStep::MoveLeft);
    seer.push(TestGameStep::MoveRight);
    seer.push(TestGameStep::MoveLeft);
    seer.update(&mut game);
    assert_eq!(game.calls, vec!["pre", "left", "right", "left", "post"]);
    assert_eq!(seer.predicted_steps().len(), 3);
}

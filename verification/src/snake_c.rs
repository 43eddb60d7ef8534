//! The data of the snake example game, mirroring its C definitions: positions, snakes,
//! food, players and their inputs, participants, and the whole game.
use vstd::prelude::*;

verus! {

/// A C `bool`: one octet, zero for false.
#[derive(Debug, Copy, Clone, PartialEq, Eq, Structural)]
pub struct CBool(pub u8);

impl CBool {
    /// 1 for true, 0 for false.
    pub fn from_bool(value: bool) -> (c: CBool)
        ensures
            c.0 == (if value { 1u8 } else { 0u8 }),
    {
        CBool(if value { 1 } else { 0 })
    }

    /// Whether the octet is non-zero.
    pub fn to_bool(self) -> (b: bool)
        ensures
            b == (self.0 != 0),
    {
        self.0 != 0
    }
}

impl Default for CBool {
    fn default() -> (c: CBool)
        ensures
            c.0 == 0,
    {
        CBool(0)
    }
}

pub const NIMBLE_EXAMPLE_SNAKE_MAX_LENGTH: usize = 20;
pub const EXAMPLE_ILLEGAL_INDEX: u8 = 0xff;
pub const EXAMPLE_GAME_MAX_PLAYERS: usize = 4;
pub const EXAMPLE_GAME_MAX_AVATARS: usize = 4;
pub const EXAMPLE_GAME_MAX_PARTICIPANTS: usize = 16;
pub const EXAMPLE_PLAYER_INPUT_INTENTIONAL_PADDING_SIZE: usize = 32;

/// Where a snake moves: up, right, down, left (0 to 3).
#[derive(Debug, Copy, Clone, PartialEq, Eq, Structural)]
pub enum ExampleDirection {
    Up,
    Right,
    Down,
    Left,
}

/// A cell of the game area (C `int` coordinates).
#[derive(Debug, Copy, Clone, PartialEq, Eq, Structural)]
pub struct ExamplePosition {
    pub x: i32,
    pub y: i32,
}

/// The size of the game area.
#[derive(Debug, Copy, Clone, PartialEq, Eq, Structural)]
pub struct ExampleGameArea {
    pub width: usize,
    pub height: usize,
}

/// A snake: its body cells, length, direction, controlling player and whether it is frozen.
#[derive(Debug, Copy, Clone)]
pub struct ExampleSnake {
    pub body: [ExamplePosition; NIMBLE_EXAMPLE_SNAKE_MAX_LENGTH],
    pub length: i32,
    pub movementDirection: ExampleDirection,
    pub controlledByPlayerIndex: u8,
    pub isFrozen: CBool,
}

/// The food's position.
#[derive(Debug, Copy, Clone, PartialEq, Eq, Structural)]
pub struct ExampleFood {
    pub position: ExamplePosition,
}

/// The first step of a joining participant: the team it prefers.
#[derive(Debug, Copy, Clone, PartialEq, Eq, Structural)]
pub struct ExamplePlayerSelectTeam {
    pub preferredTeamToJoin: u8,
}

/// How a player steers its snake.
#[derive(Debug, Copy, Clone, PartialEq, Eq, Structural)]
pub struct ExamplePlayerInGameInput {
    pub horizontalAxis: i8,
    pub verticalAxis: i8,
    pub abilityButton: CBool,
}

impl Default for ExamplePlayerInGameInput {
    /// Both axes neutral and the ability button up.
    fn default() -> (r: ExamplePlayerInGameInput)
        ensures
            r.horizontalAxis == 0 && r.verticalAxis == 0 && r.abilityButton.0 == 0,
    {
        ExamplePlayerInGameInput { horizontalAxis: 0, verticalAxis: 0, abilityButton: CBool(0) }
    }
}

/// Which input a player gives: none, in-game steering or a team choice (0 to 2).
#[derive(Debug, Copy, Clone, PartialEq, Eq, Structural)]
pub enum ExamplePlayerInputType {
    Empty,
    InGame,
    SelectTeam,
}

/// The input itself: steering or a team choice, sharing one place.
#[derive(Copy)]
pub union ExamplePlayerInputUnion {
    pub inGameInput: ExamplePlayerInGameInput,
    pub selectTeam: ExamplePlayerSelectTeam,
}

impl Clone for ExamplePlayerInputUnion {
    fn clone(&self) -> (r: Self)
        ensures
            r == *self,
    {
        *self
    }
}

/// A player's input: its kind, the input and padding.
#[derive(Copy, Clone)]
pub struct ExamplePlayerInput {
    pub inputType: ExamplePlayerInputType,
    pub input: ExamplePlayerInputUnion,
    pub intentionalPadding: [u8; EXAMPLE_PLAYER_INPUT_INTENTIONAL_PADDING_SIZE],
}

impl Default for ExamplePlayerInput {
    /// No input, neutral steering in the shared place, zeroed padding.
    fn default() -> (r: ExamplePlayerInput)
        ensures
            r.inputType == ExamplePlayerInputType::Empty,
            is_variant(r.input, "inGameInput"),
            get_union_field::<ExamplePlayerInputUnion, ExamplePlayerInGameInput>(r.input, "inGameInput")
                == (ExamplePlayerInGameInput { horizontalAxis: 0, verticalAxis: 0, abilityButton: CBool(0) }),
            forall|i: int| 0 <= i < 32 ==> r.intentionalPadding@[i] == 0,
    {
        ExamplePlayerInput {
            inputType: ExamplePlayerInputType::Empty,
            input: ExamplePlayerInputUnion { inGameInput: ExamplePlayerInGameInput::default() },
            intentionalPadding: [0u8; 32],
        }
    }
}

/// A player: its snake, participant, index and input.
#[derive(Copy, Clone)]
pub struct ExamplePlayer {
    pub snakeIndex: u8,
    pub assignedToParticipantIndex: u8,
    pub playerIndex: u8,
    pub playerInput: ExamplePlayerInput,
}

impl Default for ExamplePlayer {
    /// All indices zero and the default input.
    fn default() -> (r: ExamplePlayer)
        ensures
            r.snakeIndex == 0 && r.assignedToParticipantIndex == 0 && r.playerIndex == 0,
            r.playerInput.inputType == ExamplePlayerInputType::Empty,
    {
        ExamplePlayer {
            snakeIndex: 0,
            assignedToParticipantIndex: 0,
            playerIndex: 0,
            playerInput: ExamplePlayerInput::default(),
        }
    }
}

/// The players and how many there are.
#[derive(Copy, Clone)]
pub struct ExamplePlayers {
    pub players: [ExamplePlayer; EXAMPLE_GAME_MAX_PLAYERS],
    pub playerCount: u8,
}

impl Default for ExamplePlayers {
    /// Default players and a count of zero.
    fn default() -> (r: ExamplePlayers)
        ensures
            r.playerCount == 0,
            forall|i: int| 0 <= i < 4 ==> (#[trigger] r.players@[i]).playerIndex == 0,
    {
        let p = ExamplePlayer::default();
        ExamplePlayers { players: [p, p, p, p], playerCount: 0 }
    }
}

/// The lookup of a participant to its player.
#[derive(Debug, Copy, Clone, PartialEq, Eq, Structural)]
pub struct ExampleParticipant {
    pub participantId: u8,
    pub playerIndex: u8,
    pub isUsed: CBool,
    pub internalMarked: CBool,
}

impl Default for ExampleParticipant {
    /// All zero and unused.
    fn default() -> (r: ExampleParticipant)
        ensures
            r == (ExampleParticipant { participantId: 0, playerIndex: 0, isUsed: CBool(0), internalMarked: CBool(0) }),
    {
        ExampleParticipant { participantId: 0, playerIndex: 0, isUsed: CBool(0), internalMarked: CBool(0) }
    }
}

impl Default for ExampleSnake {
    /// A snake of length zero at the origin, moving up, not frozen.
    fn default() -> (r: ExampleSnake)
        ensures
            r.length == 0 && r.movementDirection == ExampleDirection::Up && r.controlledByPlayerIndex == 0
                && r.isFrozen.0 == 0,
            forall|i: int| 0 <= i < 20 ==> r.body@[i] == (ExamplePosition { x: 0, y: 0 }),
    {
        ExampleSnake {
            body: [ExamplePosition { x: 0, y: 0 }; 20],
            length: 0,
            movementDirection: ExampleDirection::Up,
            controlledByPlayerIndex: 0,
            isFrozen: CBool(0),
        }
    }
}

impl Default for ExampleFood {
    /// Food at the origin.
    fn default() -> (r: ExampleFood)
        ensures
            r.position == (ExamplePosition { x: 0, y: 0 }),
    {
        ExampleFood { position: ExamplePosition { x: 0, y: 0 } }
    }
}

/// The snakes and how many there are.
#[derive(Debug, Copy, Clone)]
pub struct ExampleSnakes {
    pub snakes: [ExampleSnake; EXAMPLE_GAME_MAX_AVATARS],
    pub snakeCount: u8,
}

impl Default for ExampleSnakes {
    /// Default snakes and a count of zero.
    fn default() -> (r: ExampleSnakes)
        ensures
            r.snakeCount == 0,
            forall|i: int| 0 <= i < 4 ==> (#[trigger] r.snakes@[i]).length == 0,
    {
        let s = ExampleSnake::default();
        ExampleSnakes { snakes: [s, s, s, s], snakeCount: 0 }
    }
}

/// The whole snake game.
#[derive(Copy, Clone)]
pub struct ExampleGame {
    pub area: ExampleGameArea,
    pub players: ExamplePlayers,
    pub snakes: ExampleSnakes,
    pub food: ExampleFood,
    pub pseudoRandom: u32,
    pub gameIsOver: CBool,
    pub ticksBetweenMoves: u32,
    pub lastParticipantLookupCount: u8,
    pub participantLookup: [ExampleParticipant; EXAMPLE_GAME_MAX_PARTICIPANTS],
}

impl Default for ExampleGame {
    /// An 800 by 600 area, no players, no snakes, food at the origin, nothing running.
    fn default() -> (r: ExampleGame)
        ensures
            r.area == (ExampleGameArea { width: 800, height: 600 }),
            r.players.playerCount == 0,
            r.snakes.snakeCount == 0,
            r.food.position == (ExamplePosition { x: 0, y: 0 }),
            r.pseudoRandom == 0 && r.gameIsOver.0 == 0 && r.ticksBetweenMoves == 0
                && r.lastParticipantLookupCount == 0,
            forall|i: int| 0 <= i < 16 ==> !(#[trigger] r.participantLookup@[i]).isUsed.to_bool_spec(),
    {
        ExampleGame {
            area: ExampleGameArea { width: 800, height: 600 },
            players: ExamplePlayers::default(),
            snakes: ExampleSnakes::default(),
            food: ExampleFood::default(),
            pseudoRandom: 0,
            gameIsOver: CBool(0),
            ticksBetweenMoves: 0,
            lastParticipantLookupCount: 0,
            participantLookup: [ExampleParticipant::default(); 16],
        }
    }
}

impl CBool {
    /// Whether the octet is non-zero.
    pub open spec fn to_bool_spec(self) -> bool {
        self.0 != 0
    }
}

} // verus!

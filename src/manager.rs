use vstd::prelude::*;

verus! {

/// The top-level state of the program.
#[derive(Clone, Copy, Debug, PartialEq, Eq, Structural, Hash)]
pub enum MainState {
    Menu,
    Game,
    GameOver,
}

/// The state of a game in progress.
#[derive(Clone, Copy, Debug, PartialEq, Eq, Structural, Hash)]
pub enum GameState {
    Idle,
    PlayerInput,
    TurnUpdate,
}

#[derive(Clone, Copy, Debug, PartialEq, Eq, Structural)]
pub struct TurnState {
    pub main: MainState,
    pub game: GameState,
}

/// What moves the game from one state to another.
#[derive(Clone, Copy, Debug, PartialEq, Eq, Structural)]
pub enum Signal {
    StartGame,
    PlayerInputReady,
    ActionsComplete,
    InvalidPlayerAction,
    GameOver,
    NextLevel,
}

pub open spec fn transition_spec(s: TurnState, sig: Signal) -> TurnState {
    match sig {
        Signal::StartGame => TurnState { main: MainState::Game, game: GameState::PlayerInput },
        Signal::PlayerInputReady => if s.main == MainState::Game && s.game == GameState::PlayerInput {
            TurnState { game: GameState::TurnUpdate, ..s }
        } else {
            s
        },
        Signal::ActionsComplete | Signal::InvalidPlayerAction => if s.main == MainState::Game
            && s.game == GameState::TurnUpdate {
            TurnState { game: GameState::PlayerInput, ..s }
        } else {
            s
        },
        Signal::GameOver => TurnState { main: MainState::GameOver, game: GameState::Idle },
        Signal::NextLevel => s,
    }
}

impl TurnState {
    pub fn new() -> (r: TurnState)
        ensures
            r == (TurnState { main: MainState::Menu, game: GameState::Idle }),
    {
        TurnState { main: MainState::Menu, game: GameState::Idle }
    }

    /// The state after a signal. Starting a game asks the player for input;
    /// the player's input starts a turn update; the end of the queue, or an
    /// action of the player that cannot be done, asks for input again; the
    /// player's death ends the game. A new level keeps the state.
    pub fn transition(self, sig: Signal) -> (r: TurnState)
        ensures
            r == transition_spec(self, sig),
    {
        match sig {
            Signal::StartGame => TurnState { main: MainState::Game, game: GameState::PlayerInput },
            Signal::PlayerInputReady => {
                if self.main == MainState::Game && self.game == GameState::PlayerInput {
                    TurnState { main: self.main, game: GameState::TurnUpdate }
                } else {
                    self
                }
            },
            Signal::ActionsComplete | Signal::InvalidPlayerAction => {
                if self.main == MainState::Game && self.game == GameState::TurnUpdate {
                    TurnState { main: self.main, game: GameState::PlayerInput }
                } else {
                    self
                }
            },
            Signal::GameOver => TurnState { main: MainState::GameOver, game: GameState::Idle },
            Signal::NextLevel => self,
        }
    }

    /// Another tick is due while a turn is being updated and no animation
    /// asks to wait.
    pub fn should_tick(&self, graphics_waiting: bool) -> (r: bool)
        ensures
            r == (self.main == MainState::Game && self.game == GameState::TurnUpdate && !graphics_waiting),
    {
        self.main == MainState::Game && self.game == GameState::TurnUpdate && !graphics_waiting
    }
}

} // verus!

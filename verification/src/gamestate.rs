//! Kinds of players and the coarse state of a game session.

use vstd::prelude::*;
use crate::board::GameResult;

verus! {

/// Who controls one of the two colors: a person at the UI, or an engine.
#[derive(Debug, Copy, Clone, Eq, PartialEq, Structural)]
pub enum PlayerInt {
    Human,
    AI,
}

impl PlayerInt {
    /// Display name of the controller kind.
    pub fn to_string(self) -> (r: String)
        ensures
            self == PlayerInt::Human ==> r@ == "Human"@,
            self == PlayerInt::AI ==> r@ == "AI"@,
    {
        match self {
            PlayerInt::Human => "Human".to_owned(),
            PlayerInt::AI => "AI".to_owned(),
        }
    }
}

/// Where a game session currently stands.
#[derive(Debug, Clone, Eq, PartialEq)]
pub enum GameState {
    MainMenu,
    Playing,
    LoadSaved,
    Finished(GameResult),
}

} // verus!

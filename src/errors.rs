use vstd::prelude::*;

verus! {

/// Errors reported by the library. Each carries a human-readable detail.
#[derive(Debug)]
pub enum GameError {
    IoError(String),
    MissingRoom(String),
    MissingChoice(String),
    InvalidStartingRoom(String),
    ValidationError(String),
}

pub type GameResult<T> = Result<T, GameError>;

impl GameError {
    /// The detail text carried by the error.
    pub fn detail(&self) -> (r: &String)
        ensures
            r@ == self.detail_spec(),
    {
        match self {
            GameError::IoError(s) => s,
            GameError::MissingRoom(s) => s,
            GameError::MissingChoice(s) => s,
            GameError::InvalidStartingRoom(s) => s,
            GameError::ValidationError(s) => s,
        }
    }

    pub open spec fn detail_spec(&self) -> Seq<char> {
        match self {
            GameError::IoError(s) => s@,
            GameError::MissingRoom(s) => s@,
            GameError::MissingChoice(s) => s@,
            GameError::InvalidStartingRoom(s) => s@,
            GameError::ValidationError(s) => s@,
        }
    }
}

} // verus!

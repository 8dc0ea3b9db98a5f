use vstd::prelude::*;

verus! {

/// Every way in which an operation on the world model can be refused.
///
/// All of them are caller-correctable: the model is left unchanged.
#[derive(Debug)]
pub enum Error {
    /// An integer outside the range of ore kinds.
    InvalidOreNumber,
    /// A team with this name is already registered.
    TeamExists(String),
    /// No team with this name is registered.
    TeamDoesntExist(String),
    /// Every slot of the named team is occupied.
    TeamIsFull(String),
    /// The id is not below the team capacity.
    PlayerOutOfBounds(String, usize),
    /// The id is within the capacity, but its slot is empty.
    PlayerNotFound(String, usize),
}

/// An `Error` with its team names seen as character sequences.
pub enum ErrorModel {
    InvalidOreNumber,
    TeamExists(Seq<char>),
    TeamDoesntExist(Seq<char>),
    TeamIsFull(Seq<char>),
    PlayerOutOfBounds(Seq<char>, usize),
    PlayerNotFound(Seq<char>, usize),
}

impl View for Error {
    type V = ErrorModel;

    open spec fn view(&self) -> ErrorModel {
        match self {
            Error::InvalidOreNumber => ErrorModel::InvalidOreNumber,
            Error::TeamExists(n) => ErrorModel::TeamExists(n@),
            Error::TeamDoesntExist(n) => ErrorModel::TeamDoesntExist(n@),
            Error::TeamIsFull(n) => ErrorModel::TeamIsFull(n@),
            Error::PlayerOutOfBounds(n, id) => ErrorModel::PlayerOutOfBounds(n@, *id),
            Error::PlayerNotFound(n, id) => ErrorModel::PlayerNotFound(n@, *id),
        }
    }
}

} // verus!

use vstd::prelude::*;

use crate::board::Coordinate;

verus! {

/// Every way a move or a grid access can fail. Each variant carries the
/// offending coordinate, player or tile, so a caller can report it.
#[derive(Debug, PartialEq, Eq)]
pub enum GamePlayError {
    /// The coordinate lies outside the grid's width or height.
    OutSideBoardDimensions { position: Coordinate },
    /// The coordinate is inside the grid's rectangle but holds no playable square.
    InvalidPosition { position: Coordinate },
    /// A tile was placed on a square that is already occupied.
    OccupiedPlace,
    /// A tile was placed on a square with no neighbouring tile of the player.
    NonAdjacentPlace,
    /// The player index has no configured root or hand.
    NonExistentPlayer { index: usize },
    /// The player's hand does not hold the requested tile.
    PlayerDoesNotHaveTile { player: usize, tile: char },
    /// A swap names a square that the player does not occupy.
    UnownedSwap { position: Coordinate },
    /// A word refers to a square that holds no tile.
    EmptySquareInWord { position: Coordinate },
    /// A textual board does not round-trip, or its tiles do not all connect to a root.
    MalformedGrid,
}

} // verus!

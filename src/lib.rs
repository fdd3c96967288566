//! A validation engine for a grid word puzzle: a rectangular board of letters
//! is split by the player into regions, each of which must be a contiguous,
//! in-bounds, non-overlapping set of cells that spells a dictionary word.
pub mod square;
pub mod board;
pub mod region;
pub mod ruleset;
pub mod game;
pub mod puzzle;

pub use square::Square;
pub use board::Board;
pub use region::Region;
pub use ruleset::Ruleset;
pub use game::{CheckRegionError, CheckedRegion, Game};
pub use puzzle::{fill_board, DictionaryData, GameData, OfficialData};

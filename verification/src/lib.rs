//! A twisty-puzzle engine over an abstract set of grips: permutations of the
//! grips, oriented pieces, twists, the enumeration of a puzzle's pieces from a
//! few representatives, and the live puzzle state with its move history. The
//! tables of one puzzle, the eleven-cell, come with it.

pub mod error;
pub mod orbit;
pub mod perm;
pub mod piece;
mod random;
pub mod scramble;
pub mod setup11c;
pub mod state;
pub mod sticker;
pub mod twist;

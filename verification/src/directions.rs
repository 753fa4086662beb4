use vstd::prelude::*;

verus! {

/// East
pub const E: (isize, isize) = (0, 1);

/// South
pub const S: (isize, isize) = (1, 0);

/// West
pub const W: (isize, isize) = (0, -1);

/// North
pub const N: (isize, isize) = (-1, 0);

/// North-East
pub const NE: (isize, isize) = (-1, 1);

/// South-East
pub const SE: (isize, isize) = (1, 1);

/// North-West
pub const NW: (isize, isize) = (-1, -1);

/// South-West
pub const SW: (isize, isize) = (1, -1);

/// Four main directions
pub const DIRECTIONS_4: [(isize, isize); 4] = [E, S, W, N];

/// Eight main directions with diagonals
pub const DIRECTIONS_8: [(isize, isize); 8] = [NE, E, SE, S, SW, W, NW, N];

} // verus!

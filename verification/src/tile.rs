//! The tile address and its validity rule.

use vstd::arithmetic::power2::{lemma2_to64, lemma_pow2_strictly_increases, pow2};
use vstd::bits::lemma_u32_shl_is_mul;
use vstd::prelude::*;

verus! {

/// Number of columns, and of rows, of the grid at zoom level `z`: `2^z`.
pub open spec fn grid_side(z: int) -> int
    recommends
        z >= 0,
{
    pow2(z as nat) as int
}

/// Whether `(x, y)` lies in the grid of zoom level `z`: the zoom level is not
/// negative, and both indices are in `[0, 2^z - 1]`.
pub open spec fn in_grid(x: int, y: int, z: int) -> bool {
    &&& 0 <= z
    &&& 0 <= x <= grid_side(z) - 1
    &&& 0 <= y <= grid_side(z) - 1
}

/// The largest index that a tile at zoom level `z` can have: `2^z - 1`, or
/// `i32::MAX` from the zoom level on at which the grid is wider than `i32`.
pub open spec fn max_index(z: int) -> int
    recommends
        z >= 0,
{
    if grid_side(z) - 1 <= i32::MAX {
        grid_side(z) - 1
    } else {
        i32::MAX as int
    }
}

/// How wide the grid is: one tile at zoom level 0 and at least two above it;
/// within reach of `i32` up to zoom level 31, and beyond it from there on.
pub proof fn lemma_grid_side_bounds(z: int)
    requires
        z >= 0,
    ensures
        grid_side(z) >= 1,
        z == 0 ==> grid_side(z) == 1,
        z >= 1 ==> grid_side(z) >= 2,
        z <= 31 ==> grid_side(z) - 1 <= i32::MAX,
        z <= 30 ==> grid_side(z) <= 0x4000_0000,
        z >= 31 ==> grid_side(z) - 1 >= i32::MAX,
        z <= 31 ==> max_index(z) == grid_side(z) - 1,
        z >= 31 ==> max_index(z) == i32::MAX,
{
    lemma2_to64();
    if z > 0 {
        lemma_pow2_strictly_increases(0, z as nat);
    }
    if z < 30 {
        lemma_pow2_strictly_increases(z as nat, 30);
    }
    if z > 31 {
        lemma_pow2_strictly_increases(31, z as nat);
    }
}

/// The range of the column and row indices at zoom level `z`, both ends
/// included, as far as `i32` reaches.
pub fn minmax(z: i32) -> (range: (i32, i32))
    requires
        z >= 0,
    ensures
        range.0 == 0,
        range.1 == max_index(z as int),
{
    proof {
        lemma_grid_side_bounds(z as int);
    }
    if z >= 31 {
        (0, i32::MAX)
    } else {
        let shift: u32 = z as u32;
        let side: u32 = 1u32 << shift;
        proof {
            lemma_u32_shl_is_mul(1u32, shift);
        }
        (0, (side - 1) as i32)
    }
}

/// A cell of the grid: column `x` and row `y` at zoom level `z`.
///
/// The fields are open, so a value of this type need not be a valid address:
/// [`Tile::valid`] says when it is, and [`Tile::new`] builds valid tiles only.
#[derive(Debug, PartialEq, Eq, Clone, Copy, Structural)]
pub struct Tile {
    pub x: i32,
    pub y: i32,
    pub z: i32,
}

/// Why a tile could not be built.
#[derive(Debug, PartialEq, Eq, Clone, Copy, Structural)]
pub enum TileError {
    /// The column or the row is outside `[0, 2^z - 1]`, or the zoom level is
    /// negative.
    InvalidTileAddress,
}

impl Tile {
    /// The validity rule: the tile lies in the grid of its zoom level.
    pub open spec fn valid(self) -> bool {
        in_grid(self.x as int, self.y as int, self.z as int)
    }

    /// Tests the validity rule on this tile.
    pub fn is_valid(&self) -> (ok: bool)
        ensures
            ok == self.valid(),
    {
        if self.z < 0 {
            return false;
        }
        let (lo, hi) = minmax(self.z);
        lo <= self.x && self.x <= hi && lo <= self.y && self.y <= hi
    }

    /// Builds the tile `(x, y, z)` if that is a valid address, and fails
    /// otherwise.
    pub fn new(x: i32, y: i32, z: i32) -> (r: Result<Tile, TileError>)
        ensures
            match r {
                Ok(tile) => {
                    &&& in_grid(x as int, y as int, z as int)
                    &&& tile == (Tile { x, y, z })
                    &&& tile.valid()
                },
                Err(e) => {
                    &&& !in_grid(x as int, y as int, z as int)
                    &&& e == TileError::InvalidTileAddress
                },
            },
    {
        let tile = Tile { x, y, z };
        if tile.is_valid() {
            Ok(tile)
        } else {
            Err(TileError::InvalidTileAddress)
        }
    }
}

} // verus!

//! The tiles that touch a tile.

use crate::tile::{in_grid, lemma_grid_side_bounds, max_index, Tile};
use vstd::prelude::*;

verus! {

/// The eight steps from a tile to the tiles around it, as `(columns, rows)`,
/// in the order in which neighbours are listed: column by column, and within a
/// column row by row.
pub open spec fn moore_offsets() -> Seq<(int, int)> {
    seq![(-1, -1), (-1, 0), (-1, 1), (0, -1), (0, 1), (1, -1), (1, 0), (1, 1)]
}

/// The tile `dx` columns and `dy` rows away from `tile`, at the same zoom
/// level. It is meant for steps that stay within `i32`.
pub open spec fn shifted(tile: Tile, dx: int, dy: int) -> Tile {
    Tile { x: (tile.x + dx) as i32, y: (tile.y + dy) as i32, z: tile.z }
}

/// The tile at offset `d` from `tile`, where that address lies in the grid and
/// its indices fit the fields of a tile; `None` where it does not.
pub open spec fn neighbor_at(tile: Tile, d: (int, int)) -> Option<Tile> {
    let x = tile.x + d.0;
    let y = tile.y + d.1;
    if in_grid(x, y, tile.z as int) && x <= i32::MAX && y <= i32::MAX {
        Some(shifted(tile, d.0, d.1))
    } else {
        None
    }
}

/// The function that [`neighbors`] maps over the offsets.
pub open spec fn neighbor_of(tile: Tile) -> spec_fn((int, int)) -> Option<Tile> {
    |d: (int, int)| neighbor_at(tile, d)
}

/// The neighbours of `tile`: for each of the eight offsets in turn, the tile
/// at that offset, where there is one.
pub open spec fn neighbors(tile: Tile) -> Seq<Tile> {
    moore_offsets().filter_map(neighbor_of(tile))
}

/// Whether `b` is next to `a`: at the same zoom level, at most one column and
/// at most one row away, and not at the same place.
pub open spec fn adjacent(a: Tile, b: Tile) -> bool {
    &&& a.z == b.z
    &&& -1 <= b.x - a.x <= 1
    &&& -1 <= b.y - a.y <= 1
    &&& (a.x != b.x || a.y != b.y)
}

/// Whether `a` comes before `b` in the listing order: by column, then by row.
pub open spec fn listed_before(a: Tile, b: Tile) -> bool {
    a.x < b.x || (a.x == b.x && a.y < b.y)
}

/// How many of the indices `v - 1`, `v`, `v + 1` a tile at zoom level `z` can
/// have, for an index `v` that it can have.
pub open spec fn span(v: int, z: int) -> int {
    1 + if v > 0 {
        1int
    } else {
        0int
    } + if v < max_index(z) {
        1int
    } else {
        0int
    }
}

/// How many of the eight offsets come before `(i, j)` in the listing order,
/// for `i` and `j` in `-1..=2`; the tile's own place `(0, 0)` counts for none.
spec fn offsets_before(i: int, j: int) -> int {
    3 * (i + 1) + (j + 1) - if i > 0 || (i == 0 && j > 0) {
        1int
    } else {
        0int
    }
}

/// The neighbours found among the first `k` offsets.
spec fn neighbors_among(tile: Tile, k: int) -> Seq<Tile> {
    moore_offsets().take(k).filter_map(neighbor_of(tile))
}

/// Whether `t` is a neighbour of `tile` at one of the first `k` offsets.
spec fn found_among(tile: Tile, k: int, t: Tile) -> bool {
    &&& t.valid()
    &&& adjacent(tile, t)
    &&& offsets_before(t.x - tile.x, t.y - tile.y) < k
}

/// Taking one more offset into account appends the tile at that offset, where
/// there is one.
proof fn lemma_neighbors_among_step(tile: Tile, k: int)
    requires
        0 <= k < 8,
    ensures
        neighbors_among(tile, k + 1) == match neighbor_at(tile, moore_offsets()[k]) {
            Some(t) => neighbors_among(tile, k).push(t),
            None => neighbors_among(tile, k),
        },
{
    moore_offsets().lemma_filter_map_take_succ(neighbor_of(tile), k);
    match neighbor_at(tile, moore_offsets()[k]) {
        Some(t) => {
            assert(neighbors_among(tile, k) + seq![t] =~= neighbors_among(tile, k).push(t));
        },
        None => {
            assert(neighbors_among(tile, k) + Seq::<Tile>::empty() =~= neighbors_among(tile, k));
        },
    }
}

/// All eight offsets taken into account give the neighbours.
proof fn lemma_neighbors_among_all(tile: Tile)
    ensures
        neighbors_among(tile, 0) == Seq::<Tile>::empty(),
        neighbors_among(tile, 8) == neighbors(tile),
{
    assert(moore_offsets().take(0) =~= Seq::<(int, int)>::empty());
    assert(moore_offsets().take(8) =~= moore_offsets());
}

/// The neighbour at place `k` of the listing order, as a sequence of one tile,
/// or of none where there is no tile at that offset.
spec fn listed_at(tile: Tile, k: int) -> Seq<Tile> {
    match neighbor_at(tile, moore_offsets()[k]) {
        Some(t) => seq![t],
        None => Seq::empty(),
    }
}

/// The neighbours, offset by offset.
proof fn lemma_neighbors_one_by_one(tile: Tile)
    ensures
        neighbors(tile) == listed_at(tile, 0) + listed_at(tile, 1) + listed_at(tile, 2)
            + listed_at(tile, 3) + listed_at(tile, 4) + listed_at(tile, 5) + listed_at(tile, 6)
            + listed_at(tile, 7),
{
    lemma_neighbors_among_all(tile);
    lemma_neighbors_among_step(tile, 0);
    lemma_neighbors_among_step(tile, 1);
    lemma_neighbors_among_step(tile, 2);
    lemma_neighbors_among_step(tile, 3);
    lemma_neighbors_among_step(tile, 4);
    lemma_neighbors_among_step(tile, 5);
    lemma_neighbors_among_step(tile, 6);
    lemma_neighbors_among_step(tile, 7);
    assert(neighbors_among(tile, 8) =~= listed_at(tile, 0) + listed_at(tile, 1) + listed_at(
        tile,
        2,
    ) + listed_at(tile, 3) + listed_at(tile, 4) + listed_at(tile, 5) + listed_at(tile, 6)
        + listed_at(tile, 7));
}

/// The offset at place `k` of the listing order.
proof fn lemma_offset_at(k: int)
    requires
        0 <= k < 8,
    ensures
        ({
            let d = moore_offsets()[k];
            &&& -1 <= d.0 <= 1
            &&& -1 <= d.1 <= 1
            &&& !(d.0 == 0 && d.1 == 0)
            &&& offsets_before(d.0, d.1) == k
        }),
{
}

/// What the first `k` offsets give: the neighbours at those offsets, each
/// once, in the listing order.
proof fn lemma_neighbors_among(tile: Tile, k: int)
    requires
        0 <= k <= 8,
    ensures
        neighbors_among(tile, k).len() <= k,
        forall|t: Tile| #[trigger]
            neighbors_among(tile, k).contains(t) <==> found_among(tile, k, t),
        forall|a: int, b: int|
            0 <= a < b < neighbors_among(tile, k).len() ==> listed_before(
                #[trigger] neighbors_among(tile, k)[a],
                #[trigger] neighbors_among(tile, k)[b],
            ),
    decreases k,
{
    let cur = neighbors_among(tile, k);
    if k == 0 {
        lemma_neighbors_among_all(tile);
    } else {
        let prev = neighbors_among(tile, k - 1);
        lemma_neighbors_among(tile, k - 1);
        lemma_neighbors_among_step(tile, k - 1);
        lemma_offset_at(k - 1);
        // A tile is listed now if it was listed before this offset, or stands at it.
        assert forall|t: Tile| #[trigger] cur.contains(t) <==> found_among(tile, k, t) by {
            if cur.contains(t) {
                let at = choose|at: int| 0 <= at < cur.len() && cur[at] == t;
                if at < prev.len() {
                    assert(prev.contains(prev[at]));
                }
            }
            if found_among(tile, k, t) {
                if offsets_before(t.x - tile.x, t.y - tile.y) < k - 1 {
                    assert(prev.contains(t));
                    let at = choose|at: int| 0 <= at < prev.len() && prev[at] == t;
                    assert(cur[at] == t);
                } else {
                    assert(cur[prev.len() as int] == t);
                }
            }
        }
        // The tile at this offset comes after every tile at an earlier offset.
        assert forall|a: int, b: int| 0 <= a < b < cur.len() implies listed_before(
            #[trigger] cur[a],
            #[trigger] cur[b],
        ) by {
            assert(prev.contains(prev[a]));
        }
    }
}

/// A tile is listed among the neighbours of `tile` exactly if it is a valid
/// tile next to `tile`. So no neighbour is out of the grid, none is `tile`
/// itself, and no valid tile next to `tile` is missing.
pub proof fn lemma_neighbors_are_adjacent_tiles(tile: Tile, t: Tile)
    ensures
        neighbors(tile).contains(t) <==> t.valid() && adjacent(tile, t),
{
    lemma_neighbors_among_all(tile);
    lemma_neighbors_among(tile, 8);
}

/// The neighbours are listed by column and within a column by row, so none is
/// listed twice, and there are at most eight.
pub proof fn lemma_neighbors_in_order(tile: Tile)
    ensures
        neighbors(tile).len() <= 8,
        forall|a: int, b: int|
            0 <= a < b < neighbors(tile).len() ==> listed_before(
                #[trigger] neighbors(tile)[a],
                #[trigger] neighbors(tile)[b],
            ),
        neighbors(tile).no_duplicates(),
{
    lemma_neighbors_among_all(tile);
    lemma_neighbors_among(tile, 8);
    let listed = neighbors(tile);
    assert forall|a: int, b: int|
        0 <= a < listed.len() && 0 <= b < listed.len() && a != b implies listed[a] != listed[b] by {
        if a < b {
            assert(listed_before(listed[a], listed[b]));
        } else {
            assert(listed_before(listed[b], listed[a]));
        }
    }
}

/// Being a neighbour goes both ways between valid tiles.
pub proof fn lemma_neighbors_symmetric(a: Tile, b: Tile)
    requires
        a.valid(),
        b.valid(),
    ensures
        neighbors(a).contains(b) <==> neighbors(b).contains(a),
{
    lemma_neighbors_are_adjacent_tiles(a, b);
    lemma_neighbors_are_adjacent_tiles(b, a);
}

/// A valid tile has one neighbour for each place of the block of columns and
/// rows around it that lies in the grid, its own place left out.
pub proof fn lemma_neighbors_count(tile: Tile)
    requires
        tile.valid(),
    ensures
        neighbors(tile).len() + 1 == span(tile.x as int, tile.z as int) * span(
            tile.y as int,
            tile.z as int,
        ),
{
    let columns = span(tile.x as int, tile.z as int);
    let rows = span(tile.y as int, tile.z as int);
    assert(columns * rows == if columns == 1 {
        rows
    } else if columns == 2 {
        2 * rows
    } else {
        3 * rows
    }) by (nonlinear_arith)
        requires
            1 <= columns <= 3,
    ;
    lemma_grid_side_bounds(tile.z as int);
    lemma_neighbors_one_by_one(tile);
}

/// A valid tile that is not on the rim of the grid has all eight neighbours.
pub proof fn lemma_neighbors_of_inner_tile(tile: Tile)
    requires
        tile.valid(),
        0 < tile.x < max_index(tile.z as int),
        0 < tile.y < max_index(tile.z as int),
    ensures
        neighbors(tile) == seq![
            shifted(tile, -1, -1),
            shifted(tile, -1, 0),
            shifted(tile, -1, 1),
            shifted(tile, 0, -1),
            shifted(tile, 0, 1),
            shifted(tile, 1, -1),
            shifted(tile, 1, 0),
            shifted(tile, 1, 1),
        ],
{
    lemma_grid_side_bounds(tile.z as int);
    lemma_neighbors_one_by_one(tile);
}

/// The tile in the corner `(0, 0)` of a grid has fewer than eight neighbours,
/// and none with a negative index: none at zoom level 0, where it is the only
/// tile, and three at any other zoom level.
pub proof fn lemma_neighbors_of_corner_tile(tile: Tile)
    requires
        tile.x == 0,
        tile.y == 0,
        tile.z >= 0,
    ensures
        neighbors(tile).len() < 8,
        forall|i: int|
            0 <= i < neighbors(tile).len() ==> {
                &&& (#[trigger] neighbors(tile)[i]).x >= 0
                &&& neighbors(tile)[i].y >= 0
            },
        tile.z == 0 ==> neighbors(tile) == Seq::<Tile>::empty(),
        tile.z > 0 ==> neighbors(tile) == seq![
            shifted(tile, 0, 1),
            shifted(tile, 1, 0),
            shifted(tile, 1, 1),
        ],
{
    lemma_grid_side_bounds(tile.z as int);
    lemma_neighbors_one_by_one(tile);
}

/// Lists the tiles that share an edge or a corner with `tile`, at its zoom
/// level: up to eight, fewer at the rim of the grid.
pub fn get_neighbors(tile: Tile) -> (out: Vec<Tile>)
    ensures
        out@ == neighbors(tile),
        out@.len() <= 8,
        forall|i: int|
            0 <= i < out@.len() ==> {
                &&& (#[trigger] out@[i]).valid()
                &&& adjacent(tile, out@[i])
            },
{
    let mut tiles: Vec<Tile> = Vec::new();
    proof {
        lemma_neighbors_among_all(tile);
    }
    let mut i: i32 = -1;
    while i <= 1
        invariant
            -1 <= i <= 2,
            tiles@ == neighbors_among(tile, offsets_before(i as int, -1)),
        decreases 2 - i,
    {
        let mut j: i32 = -1;
        while j <= 1
            invariant
                -1 <= i <= 1,
                -1 <= j <= 2,
                tiles@ == neighbors_among(tile, offsets_before(i as int, j as int)),
            decreases 2 - j,
        {
            if !(i == 0 && j == 0) {
                proof {
                    let k = offsets_before(i as int, j as int);
                    assert(moore_offsets()[k] == (i as int, j as int));
                    lemma_neighbors_among_step(tile, k);
                }
                match (tile.x.checked_add(i), tile.y.checked_add(j)) {
                    (Some(x), Some(y)) => {
                        match Tile::new(x, y, tile.z) {
                            Ok(t) => {
                                tiles.push(t);
                            },
                            Err(_) => {},
                        }
                    },
                    _ => {},
                }
            }
            j += 1;
        }
        i += 1;
    }
    proof {
        lemma_neighbors_in_order(tile);
        assert forall|i: int| 0 <= i < tiles@.len() implies {
            &&& (#[trigger] tiles@[i]).valid()
            &&& adjacent(tile, tiles@[i])
        } by {
            assert(neighbors(tile).contains(tiles@[i]));
            lemma_neighbors_are_adjacent_tiles(tile, tiles@[i]);
        }
    }
    tiles
}

} // verus!

//! A mutable occupancy grid: cells can be filled one at a time, and a whole
//! shape of cells can be placed onto the grid when no filled cell collides.

use vstd::prelude::*;

use crate::canon::has_cell;
use crate::coord::Coord;

verus! {

/// Whether a grid cell is filled.
#[derive(Debug, Copy, Clone, PartialEq, Eq, Structural)]
pub enum Tile {
    Filled,
    Empty,
}

/// Whether row `y`, column `x` of the square marker array is filled.
pub open spec fn grid_marks_filled<const N: usize>(grid: [[Tile; N]; N], x: int, y: int) -> bool {
    0 <= x < N && 0 <= y < N && grid@[y]@[x] == Tile::Filled
}

/// The cell `c` moved by the displacement that the coordinate `o` denotes.
pub open spec fn cell_plus(c: Coord, o: Coord) -> Coord {
    Coord { x: (c.x + o.x) as isize, y: (c.y + o.y) as isize }
}

/// The cells of `s`, each moved by the displacement that `o` denotes.
pub open spec fn cells_plus(s: Seq<Coord>, o: Coord) -> Seq<Coord> {
    Seq::new(s.len(), |i: int| cell_plus(s[i], o))
}

/// An occupancy grid, held as the list of its filled cells, without
/// duplicates; unlike a shape it is anchored: cells keep their absolute
/// positions, and nothing is renormalized.
#[derive(Debug, Clone)]
pub struct TileGrid {
    filled_tiles: Vec<Coord>,
}

impl View for TileGrid {
    type V = Seq<Coord>;

    closed spec fn view(&self) -> Seq<Coord> {
        self.filled_tiles@
    }
}

/// Whether the list holds the given cell.
fn list_contains(tiles: &Vec<Coord>, coord: Coord) -> (r: bool)
    ensures
        r == tiles@.contains(coord),
{
    let mut i: usize = 0;
    while i < tiles.len()
        invariant
            0 <= i <= tiles@.len(),
            forall|j: int| 0 <= j < i ==> tiles@[j] != coord,
        decreases tiles@.len() - i,
    {
        let t = tiles[i];
        if t.x == coord.x && t.y == coord.y {
            proof {
                assert(tiles@[i as int] =~= coord);
                assert(tiles@.contains(coord));
            }
            return true;
        }
        i += 1;
    }
    proof {
        if tiles@.contains(coord) {
            let j = choose|j: int| 0 <= j < tiles@.len() && tiles@[j] == coord;
        }
    }
    false
}

impl TileGrid {
    /// Builds a grid from a square array of markers: cell `(x, y)` is filled
    /// exactly when row `y`, column `x` carries `Tile::Filled`.
    pub fn from_2darray<const N: usize>(grid: [[Tile; N]; N]) -> (r: TileGrid)
        requires
            N <= isize::MAX as usize,
        ensures
            forall|i: int|
                0 <= i < r@.len() ==> grid_marks_filled(
                    grid,
                    (#[trigger] r@[i]).x as int,
                    r@[i].y as int,
                ),
            forall|x: int, y: int|
                grid_marks_filled(grid, x, y) ==> #[trigger] has_cell(r@, x, y),
            forall|i: int, j: int|
                #![trigger r@[i], r@[j]]
                0 <= i < j < r@.len() ==> r@[i] != r@[j],
    {
        let mut filled_tiles: Vec<Coord> = Vec::new();
        let mut y: usize = 0;
        while y < N
            invariant
                0 <= y <= N,
                N <= isize::MAX as usize,
                forall|i: int|
                    0 <= i < filled_tiles@.len() ==> grid_marks_filled(
                        grid,
                        (#[trigger] filled_tiles@[i]).x as int,
                        filled_tiles@[i].y as int,
                    ),
                forall|i: int|
                    0 <= i < filled_tiles@.len() ==> (#[trigger] filled_tiles@[i]).y < y,
                forall|i: int, j: int|
                    #![trigger filled_tiles@[i], filled_tiles@[j]]
                    0 <= i < j < filled_tiles@.len() ==> filled_tiles@[i].y < filled_tiles@[j].y
                        || (filled_tiles@[i].y == filled_tiles@[j].y && filled_tiles@[i].x
                        < filled_tiles@[j].x),
                forall|xx: int, yy: int|
                    grid_marks_filled(grid, xx, yy) && yy < y ==> #[trigger] has_cell(
                        filled_tiles@,
                        xx,
                        yy,
                    ),
            decreases N - y,
        {
            let mut x: usize = 0;
            while x < N
                invariant
                    0 <= x <= N,
                    0 <= y < N,
                    N <= isize::MAX as usize,
                    forall|i: int|
                        0 <= i < filled_tiles@.len() ==> grid_marks_filled(
                            grid,
                            (#[trigger] filled_tiles@[i]).x as int,
                            filled_tiles@[i].y as int,
                        ),
                    forall|i: int|
                        0 <= i < filled_tiles@.len() ==> (#[trigger] filled_tiles@[i]).y < y || (
                        filled_tiles@[i].y == y && filled_tiles@[i].x < x),
                    forall|i: int, j: int|
                        #![trigger filled_tiles@[i], filled_tiles@[j]]
                        0 <= i < j < filled_tiles@.len() ==> filled_tiles@[i].y
                            < filled_tiles@[j].y || (filled_tiles@[i].y == filled_tiles@[j].y
                            && filled_tiles@[i].x < filled_tiles@[j].x),
                    forall|xx: int, yy: int|
                        grid_marks_filled(grid, xx, yy) && (yy < y || (yy == y && xx < x))
                            ==> #[trigger] has_cell(filled_tiles@, xx, yy),
                decreases N - x,
            {
                let coord = Coord { x: x as isize, y: y as isize };
                let ghost before = filled_tiles@;
                if grid[y][x] == Tile::Filled {
                    filled_tiles.push(coord);
                }
                proof {
                    assert forall|xx: int, yy: int|
                        grid_marks_filled(grid, xx, yy) && (yy < y || (yy == y && xx < x
                            + 1)) implies #[trigger] has_cell(filled_tiles@, xx, yy) by {
                        if yy < y || (yy == y && xx < x) {
                            assert(has_cell(before, xx, yy));
                            let i = choose|i: int|
                                0 <= i < before.len() && (#[trigger] before[i]).x == xx
                                    && before[i].y == yy;
                            assert(filled_tiles@[i] == before[i]);
                            assert(has_cell(filled_tiles@, xx, yy));
                        } else {
                            assert(xx == x && yy == y);
                            assert(grid@[y as int]@[x as int] == Tile::Filled);
                            let i = filled_tiles@.len() - 1;
                            assert(filled_tiles@[i] == coord);
                            assert(has_cell(filled_tiles@, xx, yy));
                        }
                    }
                }
                x += 1;
            }
            y += 1;
        }
        let r = TileGrid { filled_tiles };
        proof {
            // the cells were pushed in strictly increasing row-major order,
            // so no two entries agree
            assert forall|i: int, j: int|
                #![trigger r@[i], r@[j]]
                0 <= i < j < r@.len() implies r@[i] != r@[j] by {
                assert(r@[i].y < r@[j].y || (r@[i].y == r@[j].y && r@[i].x < r@[j].x));
            }
        }
        r
    }

    /// Reads one cell: `Tile::Filled` exactly on the filled cells.
    pub fn tile_at(&self, coord: Coord) -> (r: Tile)
        ensures
            r == (if self@.contains(coord) {
                Tile::Filled
            } else {
                Tile::Empty
            }),
    {
        if list_contains(&self.filled_tiles, coord) {
            Tile::Filled
        } else {
            Tile::Empty
        }
    }

    /// Fills the requested position, returning true if the cell was already
    /// filled there; an already filled grid is left unchanged.
    pub fn fill(&mut self, coord: Coord) -> (r: bool)
        ensures
            r == old(self)@.contains(coord),
            r ==> final(self)@ == old(self)@,
            !r ==> final(self)@ == old(self)@.push(coord),
    {
        if list_contains(&self.filled_tiles, coord) {
            return true;
        }
        self.filled_tiles.push(coord);
        false
    }

    /// Attempts to place the other grid onto this one, moved by `offset`,
    /// without overlapping any already filled cell. Returns true, and
    /// appends every moved cell, exactly when there is no overlap; on
    /// overlap the grid is left unchanged.
    pub fn try_place_over(&mut self, other: &TileGrid, offset: Coord) -> (r: bool)
        requires
            forall|i: int|
                0 <= i < other@.len() ==> isize::MIN <= (#[trigger] other@[i]).x + offset.x
                    <= isize::MAX && isize::MIN <= other@[i].y + offset.y <= isize::MAX,
        ensures
            r == (forall|i: int|
                0 <= i < other@.len() ==> !old(self)@.contains(
                    cell_plus(#[trigger] other@[i], offset),
                )),
            !r ==> final(self)@ == old(self)@,
            r ==> final(self)@ == old(self)@ + cells_plus(other@, offset),
    {
        // check that the placement is free of collisions
        let mut i: usize = 0;
        while i < other.filled_tiles.len()
            invariant
                0 <= i <= other@.len(),
                self@ == old(self)@,
                forall|k: int|
                    0 <= k < other@.len() ==> isize::MIN <= (#[trigger] other@[k]).x + offset.x
                        <= isize::MAX && isize::MIN <= other@[k].y + offset.y <= isize::MAX,
                forall|j: int|
                    0 <= j < i ==> !old(self)@.contains(cell_plus(#[trigger] other@[j], offset)),
            decreases other@.len() - i,
        {
            let c = other.filled_tiles[i];
            let moved = Coord { x: c.x + offset.x, y: c.y + offset.y };
            proof {
                assert(moved =~= cell_plus(other@[i as int], offset));
            }
            if list_contains(&self.filled_tiles, moved) {
                return false;
            }
            i += 1;
        }
        // no collision: append every moved cell
        let ghost orig = self@;
        let mut i: usize = 0;
        while i < other.filled_tiles.len()
            invariant
                0 <= i <= other@.len(),
                forall|k: int|
                    0 <= k < other@.len() ==> isize::MIN <= (#[trigger] other@[k]).x + offset.x
                        <= isize::MAX && isize::MIN <= other@[k].y + offset.y <= isize::MAX,
                self@ == orig + cells_plus(other@.subrange(0, i as int), offset),
            decreases other@.len() - i,
        {
            let c = other.filled_tiles[i];
            let moved = Coord { x: c.x + offset.x, y: c.y + offset.y };
            self.filled_tiles.push(moved);
            proof {
                assert(moved =~= cell_plus(other@[i as int], offset));
                assert(self@ =~= orig + cells_plus(other@.subrange(0, i + 1), offset));
            }
            i += 1;
        }
        proof {
            assert(other@.subrange(0, other@.len() as int) =~= other@);
            assert(self@ =~= orig + cells_plus(other@, offset));
        }
        true
    }
}

} // verus!

//! The shape canonicalizer: a finite set of filled grid cells kept in a
//! unique, translation-normalized, sorted and duplicate-free representation.

use vstd::prelude::*;

use crate::canon::coord_lt;
use crate::canon::has_cell;
use crate::canon::is_normal;
use crate::canon::is_normalization_of;
use crate::canon::is_shift_of;
use crate::canon::lemma_normalization_unique;
use crate::canon::lemma_spec_normalize_is_normalization;
use crate::canon::spans_fit;
use crate::canon::spec_normalize;
use crate::canon::strictly_sorted;
use crate::coord::Coord;

verus! {

/// Whether a grid cell is filled.
#[derive(Debug, Copy, Clone, PartialEq, Eq, Structural)]
pub enum Tile {
    Filled,
    Empty,
}

/// A shape made of filled cells, anywhere on the grid. Rotations and
/// reflections are considered distinct, but translations are not: the cells
/// are always kept translation-normalized, sorted by the fixed order, and
/// free of duplicates, so two shapes are equal exactly when they fill the
/// same pattern of cells.
#[derive(Debug, Clone, Eq, Hash)]
pub struct CellShape {
    tiles: Vec<Coord>,
}

impl View for CellShape {
    type V = Seq<Coord>;

    closed spec fn view(&self) -> Seq<Coord> {
        self.tiles@
    }
}

impl PartialEq for CellShape {
    fn eq(&self, other: &CellShape) -> (r: bool) {
        if self.tiles.len() != other.tiles.len() {
            return false;
        }
        let mut i: usize = 0;
        while i < self.tiles.len()
            invariant
                i <= self.tiles@.len(),
                self.tiles@.len() == other.tiles@.len(),
                forall|j: int| 0 <= j < i ==> self.tiles@[j] == other.tiles@[j],
            decreases self.tiles@.len() - i,
        {
            let a = self.tiles[i];
            let b = other.tiles[i];
            if a.x != b.x || a.y != b.y {
                return false;
            }
            proof {
                assert(self.tiles@[i as int] =~= other.tiles@[i as int]);
            }
            i += 1;
        }
        proof {
            assert(self.tiles@ =~= other.tiles@);
        }
        true
    }
}

impl vstd::std_specs::cmp::PartialEqSpecImpl for CellShape {
    open spec fn obeys_eq_spec() -> bool {
        true
    }

    open spec fn eq_spec(&self, other: &CellShape) -> bool {
        self@ == other@
    }
}

/// Whether row `y`, column `x` of the marker array is filled.
pub open spec fn grid_filled<const N: usize, const M: usize>(
    grid: [[Tile; M]; N],
    x: int,
    y: int,
) -> bool {
    0 <= x < M as int && 0 <= y < N as int && grid@[y]@[x] == Tile::Filled
}

/// `s` holds, moved by the displacement `(dx, dy)`, exactly the filled cells
/// of the marker array.
pub open spec fn grid_normalized_by<const N: usize, const M: usize>(
    s: Seq<Coord>,
    grid: [[Tile; M]; N],
    dx: int,
    dy: int,
) -> bool {
    forall|x: int, y: int|
        #![trigger grid_filled(grid, x, y)]
        has_cell(s, x + dx, y + dy) <==> grid_filled(grid, x, y)
}

/// `s` is the canonical representative of the filled cells of the marker
/// array.
pub open spec fn is_grid_normalization<const N: usize, const M: usize>(
    s: Seq<Coord>,
    grid: [[Tile; M]; N],
) -> bool {
    &&& is_normal(s)
    &&& exists|dx: int, dy: int| grid_normalized_by(s, grid, dx, dy)
}

/// A marker array has exactly one canonical representative.
pub proof fn lemma_grid_normalization_unique<const N: usize, const M: usize>(
    s1: Seq<Coord>,
    s2: Seq<Coord>,
    grid: [[Tile; M]; N],
)
    requires
        is_grid_normalization(s1, grid),
        is_grid_normalization(s2, grid),
    ensures
        s1 == s2,
{
    let (d1x, d1y) = choose|dx: int, dy: int| grid_normalized_by(s1, grid, dx, dy);
    let (d2x, d2y) = choose|dx: int, dy: int| grid_normalized_by(s2, grid, dx, dy);
    assert forall|x: int, y: int| #![trigger has_cell(s2, x, y)]
        has_cell(s1, x + (d1x - d2x), y + (d1y - d2y)) <==> has_cell(s2, x, y) by {
        assert(has_cell(s1, (x - d2x) + d1x, (y - d2y) + d1y) <==> grid_filled(
            grid,
            x - d2x,
            y - d2y,
        ));
        assert(has_cell(s2, (x - d2x) + d2x, (y - d2y) + d2y) <==> grid_filled(
            grid,
            x - d2x,
            y - d2y,
        ));
    }
    assert(is_shift_of(s1, s2, d1x - d2x, d1y - d2y));
    assert forall|x: int, y: int| #![trigger has_cell(s2, x, y)]
        has_cell(s2, x + 0, y + 0) <==> has_cell(s2, x, y) by {}
    assert(is_shift_of(s2, s2, 0, 0));
    lemma_normalization_unique(s1, s2, s2);
}

/// Decides the strict total order on cells.
fn coord_lt_exec(a: Coord, b: Coord) -> (r: bool)
    ensures
        r == coord_lt(a, b),
{
    a.x < b.x || (a.x == b.x && a.y < b.y)
}

/// Inserts `c` into a sorted tile list at its ordered position, unless it is
/// already present.
fn insert_unique(tiles: &mut Vec<Coord>, c: Coord)
    requires
        strictly_sorted(old(tiles)@),
    ensures
        strictly_sorted(final(tiles)@),
        forall|d: Coord|
            #![trigger final(tiles)@.contains(d)]
            #![trigger old(tiles)@.contains(d)]
            final(tiles)@.contains(d) <==> old(tiles)@.contains(d) || d == c,
{
    let ghost orig = tiles@;
    let mut pos: usize = 0;
    while pos < tiles.len() && coord_lt_exec(tiles[pos], c)
        invariant
            0 <= pos <= tiles@.len(),
            tiles@ == orig,
            strictly_sorted(tiles@),
            forall|j: int| 0 <= j < pos ==> coord_lt(#[trigger] tiles@[j], c),
        decreases tiles@.len() - pos,
    {
        pos += 1;
    }
    if pos < tiles.len() {
        let t = tiles[pos];
        if t.x == c.x && t.y == c.y {
            proof {
                assert(orig[pos as int] =~= c);
                assert(orig.contains(c));
            }
            return ;
        }
        proof {
            assert(coord_lt(c, orig[pos as int]));
        }
    }
    proof {
        orig.insert_ensures(pos as int, c);
    }
    tiles.insert(pos, c);
    let ghost upd = tiles@;
    proof {
        let p = pos as int;
        assert forall|i: int, j: int|
            #![trigger upd[i], upd[j]]
            0 <= i < j < upd.len() implies coord_lt(upd[i], upd[j]) by {
            if j < p {
                assert(upd[i] == orig[i] && upd[j] == orig[j]);
            } else if j == p {
                assert(upd[i] == orig[i]);
                assert(coord_lt(orig[i], c));
            } else {
                assert(upd[j] == orig[j - 1]);
                if i < p {
                    assert(upd[i] == orig[i]);
                    if i < j - 1 {
                        assert(coord_lt(orig[i], orig[j - 1]));
                    } else {
                        assert(coord_lt(orig[i], c));
                        assert(p <= j - 1 < orig.len());
                        assert(coord_lt(c, orig[p]));
                    }
                } else if i == p {
                    assert(upd[i] == c);
                    assert(p <= j - 1 < orig.len());
                    assert(coord_lt(c, orig[p]));
                    if p < j - 1 {
                        assert(coord_lt(orig[p], orig[j - 1]));
                    }
                } else {
                    assert(upd[i] == orig[i - 1]);
                    assert(coord_lt(orig[i - 1], orig[j - 1]));
                }
            }
        }
        assert forall|d: Coord|
            #![trigger upd.contains(d)]
            #![trigger orig.contains(d)]
            upd.contains(d) <==> orig.contains(d) || d == c by {
            if upd.contains(d) {
                let i = choose|i: int| 0 <= i < upd.len() && upd[i] == d;
                if i < p {
                    assert(orig[i] == d);
                    assert(orig.contains(d));
                } else if i == p {
                    assert(d == c);
                } else {
                    assert(orig[i - 1] == d);
                    assert(orig.contains(d));
                }
            }
            if orig.contains(d) {
                let i = choose|i: int| 0 <= i < orig.len() && orig[i] == d;
                if i < p {
                    assert(upd[i] == d);
                } else {
                    assert(upd[i + 1] == d);
                }
                assert(upd.contains(d));
            }
            if d == c {
                assert(upd[p] == d);
                assert(upd.contains(d));
            }
        }
    }
}

impl CellShape {
    /// Whether the cell list satisfies the canonical-form invariant; every
    /// shape that the constructors return does.
    pub open spec fn wf(self) -> bool {
        is_normal(self@)
    }

    /// The shape with no filled cells.
    pub fn empty() -> (r: CellShape)
        ensures
            r@ == Seq::<Coord>::empty(),
            r.wf(),
    {
        CellShape { tiles: Vec::new() }
    }

    /// Builds the canonical shape holding the given cells: the cells are
    /// translated so both minima reach zero, sorted, and deduplicated. Any
    /// finite coordinate list is acceptable, in any order, with repeats.
    pub fn from_coordinate_list(coords: Vec<Coord>) -> (r: CellShape)
        requires
            spans_fit(coords@),
        ensures
            r.wf(),
            is_normalization_of(r@, coords@),
            r@ == spec_normalize(coords@),
    {
        proof {
            lemma_spec_normalize_is_normalization(coords@);
        }
        if coords.len() == 0 {
            let r = CellShape::empty();
            proof {
                assert forall|x: int, y: int| #![trigger has_cell(coords@, x, y)]
                    has_cell(r@, x + 0, y + 0) <==> has_cell(coords@, x, y) by {
                    if has_cell(r@, x + 0, y + 0) {
                        let i = choose|i: int|
                            0 <= i < r@.len() && (#[trigger] r@[i]).x == x && r@[i].y == y;
                    }
                    if has_cell(coords@, x, y) {
                        let i = choose|i: int|
                            0 <= i < coords@.len() && (#[trigger] coords@[i]).x == x
                                && coords@[i].y == y;
                    }
                }
                assert(is_shift_of(r@, coords@, 0, 0));
                lemma_normalization_unique(r@, spec_normalize(coords@), coords@);
            }
            return r;
        }
        let n = coords.len();
        // find both minima, remembering where each is attained
        let mut min_x = coords[0].x;
        let mut min_y = coords[0].y;
        let mut wx: usize = 0;
        let mut wy: usize = 0;
        let mut k: usize = 1;
        while k < n
            invariant
                1 <= k <= n,
                n == coords@.len(),
                wx < k && coords@[wx as int].x == min_x,
                wy < k && coords@[wy as int].y == min_y,
                forall|i: int| 0 <= i < k ==> min_x <= (#[trigger] coords@[i]).x,
                forall|i: int| 0 <= i < k ==> min_y <= (#[trigger] coords@[i]).y,
            decreases n - k,
        {
            if coords[k].x < min_x {
                min_x = coords[k].x;
                wx = k;
            }
            if coords[k].y < min_y {
                min_y = coords[k].y;
                wy = k;
            }
            k += 1;
        }
        // translate so the minima reach zero, keeping the list sorted and
        // duplicate-free as it grows
        let mut tiles: Vec<Coord> = Vec::new();
        let mut k: usize = 0;
        while k < n
            invariant
                0 <= k <= n,
                n == coords@.len(),
                wx < n && coords@[wx as int].x == min_x,
                wy < n && coords@[wy as int].y == min_y,
                forall|i: int| 0 <= i < n ==> min_x <= (#[trigger] coords@[i]).x,
                forall|i: int| 0 <= i < n ==> min_y <= (#[trigger] coords@[i]).y,
                spans_fit(coords@),
                strictly_sorted(tiles@),
                forall|d: Coord| #[trigger]
                    tiles@.contains(d) ==> exists|i: int|
                        0 <= i < k && (#[trigger] coords@[i]).x - min_x == d.x && coords@[i].y
                            - min_y == d.y,
                forall|i: int|
                    0 <= i < k ==> tiles@.contains(
                        Coord {
                            x: ((#[trigger] coords@[i]).x - min_x) as isize,
                            y: (coords@[i].y - min_y) as isize,
                        },
                    ),
            decreases n - k,
        {
            let c = coords[k];
            proof {
                assert(coords@[k as int].x - coords@[wx as int].x <= isize::MAX);
                assert(coords@[k as int].y - coords@[wy as int].y <= isize::MAX);
            }
            let t = Coord { x: c.x - min_x, y: c.y - min_y };
            let ghost before = tiles@;
            insert_unique(&mut tiles, t);
            proof {
                assert forall|d: Coord| #[trigger]
                    tiles@.contains(d) implies exists|i: int|
                    0 <= i < k + 1 && (#[trigger] coords@[i]).x - min_x == d.x && coords@[i].y
                        - min_y == d.y by {
                    if before.contains(d) {
                        let i = choose|i: int|
                            0 <= i < k && (#[trigger] coords@[i]).x - min_x == d.x && coords@[i].y
                                - min_y == d.y;
                        assert(0 <= i < k + 1 && coords@[i].x - min_x == d.x && coords@[i].y - min_y
                            == d.y);
                    } else {
                        assert(d == t);
                        assert(coords@[k as int].x - min_x == d.x && coords@[k as int].y - min_y
                            == d.y);
                    }
                }
                assert forall|i: int| 0 <= i < k + 1 implies tiles@.contains(
                    Coord {
                        x: ((#[trigger] coords@[i]).x - min_x) as isize,
                        y: (coords@[i].y - min_y) as isize,
                    },
                ) by {
                    let d = Coord {
                        x: (coords@[i].x - min_x) as isize,
                        y: (coords@[i].y - min_y) as isize,
                    };
                    if i < k {
                        assert(before.contains(d));
                        assert(tiles@.contains(d));
                    } else {
                        assert(d =~= t);
                        assert(tiles@.contains(t));
                    }
                }
            }
            k += 1;
        }
        let r = CellShape { tiles };
        proof {
            let s = r@;
            let dx = -(min_x as int);
            let dy = -(min_y as int);
            // nonnegative coordinates
            assert forall|i: int| 0 <= i < s.len() implies (#[trigger] s[i]).x >= 0 && s[i].y
                >= 0 by {
                assert(s.contains(s[i]));
            }
            // both minima attained at zero
            let cz = Coord {
                x: (coords@[wx as int].x - min_x) as isize,
                y: (coords@[wx as int].y - min_y) as isize,
            };
            assert(s.contains(cz));
            let iz = choose|i: int| 0 <= i < s.len() && s[i] == cz;
            assert(s[iz].x == 0);
            let cw = Coord {
                x: (coords@[wy as int].x - min_x) as isize,
                y: (coords@[wy as int].y - min_y) as isize,
            };
            assert(s.contains(cw));
            let iw = choose|i: int| 0 <= i < s.len() && s[i] == cw;
            assert(s[iw].y == 0);
            assert(is_normal(s));
            // s holds the cells of the input, moved by (dx, dy)
            assert forall|x: int, y: int| #![trigger has_cell(coords@, x, y)]
                has_cell(s, x + dx, y + dy) <==> has_cell(coords@, x, y) by {
                if has_cell(s, x + dx, y + dy) {
                    let i = choose|i: int|
                        0 <= i < s.len() && (#[trigger] s[i]).x == x + dx && s[i].y == y + dy;
                    assert(s.contains(s[i]));
                    let j = choose|j: int|
                        0 <= j < n && (#[trigger] coords@[j]).x - min_x == s[i].x && coords@[j].y
                            - min_y == s[i].y;
                    assert(coords@[j].x == x && coords@[j].y == y);
                    assert(has_cell(coords@, x, y));
                }
                if has_cell(coords@, x, y) {
                    let j = choose|j: int|
                        0 <= j < coords@.len() && (#[trigger] coords@[j]).x == x && coords@[j].y
                            == y;
                    let d = Coord {
                        x: (coords@[j].x - min_x) as isize,
                        y: (coords@[j].y - min_y) as isize,
                    };
                    assert(coords@[j].x - coords@[wx as int].x <= isize::MAX);
                    assert(coords@[j].y - coords@[wy as int].y <= isize::MAX);
                    assert(s.contains(d));
                    let i = choose|i: int| 0 <= i < s.len() && s[i] == d;
                    assert(s[i].x == x + dx && s[i].y == y + dy);
                    assert(has_cell(s, x + dx, y + dy));
                }
            }
            assert(is_shift_of(s, coords@, dx, dy));
            lemma_normalization_unique(s, spec_normalize(coords@), coords@);
        }
        r
    }

    /// Builds the canonical shape of the cells that a rectangular array of
    /// markers fills: row index `y`, column index `x`.
    pub fn from_2darray<const N: usize, const M: usize>(grid: [[Tile; M]; N]) -> (r: CellShape)
        requires
            N <= isize::MAX as usize,
            M <= isize::MAX as usize,
        ensures
            r.wf(),
            is_grid_normalization(r@, grid),
    {
        let mut coords: Vec<Coord> = Vec::new();
        let mut y: usize = 0;
        while y < N
            invariant
                0 <= y <= N,
                N <= isize::MAX as usize,
                M <= isize::MAX as usize,
                forall|i: int|
                    0 <= i < coords@.len() ==> grid_filled(
                        grid,
                        (#[trigger] coords@[i]).x as int,
                        coords@[i].y as int,
                    ),
                forall|xx: int, yy: int|
                    grid_filled(grid, xx, yy) && yy < y ==> #[trigger] has_cell(coords@, xx, yy),
            decreases N - y,
        {
            let mut x: usize = 0;
            while x < M
                invariant
                    0 <= x <= M,
                    0 <= y < N,
                    N <= isize::MAX as usize,
                    M <= isize::MAX as usize,
                    forall|i: int|
                        0 <= i < coords@.len() ==> grid_filled(
                            grid,
                            (#[trigger] coords@[i]).x as int,
                            coords@[i].y as int,
                        ),
                    forall|xx: int, yy: int|
                        grid_filled(grid, xx, yy) && (yy < y || (yy == y && xx < x))
                            ==> #[trigger] has_cell(coords@, xx, yy),
                decreases M - x,
            {
                let coord = Coord { x: x as isize, y: y as isize };
                let ghost before = coords@;
                if grid[y][x] == Tile::Filled {
                    coords.push(coord);
                }
                proof {
                    assert forall|xx: int, yy: int|
                        grid_filled(grid, xx, yy) && (yy < y || (yy == y && xx < x
                            + 1)) implies #[trigger] has_cell(coords@, xx, yy) by {
                        if yy < y || (yy == y && xx < x) {
                            assert(has_cell(before, xx, yy));
                            let i = choose|i: int|
                                0 <= i < before.len() && (#[trigger] before[i]).x == xx
                                    && before[i].y == yy;
                            assert(coords@[i] == before[i]);
                            assert(has_cell(coords@, xx, yy));
                        } else {
                            assert(xx == x && yy == y);
                            assert(grid@[y as int]@[x as int] == Tile::Filled);
                            let i = coords@.len() - 1;
                            assert(coords@[i] == coord);
                            assert(has_cell(coords@, xx, yy));
                        }
                    }
                }
                x += 1;
            }
            y += 1;
        }
        proof {
            // every pairwise difference is under the array width or height
            assert forall|i: int, j: int|
                #![trigger coords@[i], coords@[j]]
                0 <= i < coords@.len() && 0 <= j < coords@.len() implies coords@[i].x - coords@[j].x
                <= isize::MAX && coords@[i].y - coords@[j].y <= isize::MAX by {
                assert(grid_filled(grid, coords@[i].x as int, coords@[i].y as int));
                assert(grid_filled(grid, coords@[j].x as int, coords@[j].y as int));
            }
        }
        let ghost cells = coords@;
        let r = CellShape::from_coordinate_list(coords);
        proof {
            let (dx, dy) = choose|dx: int, dy: int| is_shift_of(r@, cells, dx, dy);
            assert forall|x: int, y: int| #![trigger grid_filled(grid, x, y)]
                has_cell(r@, x + dx, y + dy) <==> grid_filled(grid, x, y) by {
                assert(has_cell(r@, x + dx, y + dy) <==> has_cell(cells, x, y));
                if has_cell(cells, x, y) {
                    let i = choose|i: int|
                        0 <= i < cells.len() && (#[trigger] cells[i]).x == x && cells[i].y == y;
                    assert(grid_filled(grid, cells[i].x as int, cells[i].y as int));
                }
            }
            assert(grid_normalized_by(r@, grid, dx, dy));
        }
        r
    }

    /// The filled cells, in the canonical sorted order.
    pub fn filled_tiles(&self) -> (r: Vec<Coord>)
        ensures
            r@ == self@,
    {
        let mut r: Vec<Coord> = Vec::new();
        let mut i: usize = 0;
        while i < self.tiles.len()
            invariant
                0 <= i <= self.tiles@.len(),
                r@ == self.tiles@.subrange(0, i as int),
            decreases self.tiles@.len() - i,
        {
            r.push(self.tiles[i]);
            proof {
                assert(r@ =~= self.tiles@.subrange(0, i + 1));
            }
            i += 1;
        }
        proof {
            assert(r@ =~= self.tiles@);
        }
        r
    }

    /// Whether the shape fills the given cell of its local coordinate system.
    pub fn contains(&self, coord: Coord) -> (r: bool)
        ensures
            r == self@.contains(coord),
    {
        let mut i: usize = 0;
        while i < self.tiles.len()
            invariant
                0 <= i <= self.tiles@.len(),
                forall|j: int| 0 <= j < i ==> self.tiles@[j] != coord,
            decreases self.tiles@.len() - i,
        {
            let t = self.tiles[i];
            if t.x == coord.x && t.y == coord.y {
                proof {
                    assert(self.tiles@[i as int] =~= coord);
                    assert(self.tiles@.contains(coord));
                }
                return true;
            }
            i += 1;
        }
        proof {
            if self.tiles@.contains(coord) {
                let j = choose|j: int| 0 <= j < self.tiles@.len() && self.tiles@[j] == coord;
            }
        }
        false
    }

    /// Reads one cell: `Tile::Filled` exactly on the filled cells.
    pub fn tile_at(&self, coord: Coord) -> (r: Tile)
        ensures
            r == (if self@.contains(coord) {
                Tile::Filled
            } else {
                Tile::Empty
            }),
    {
        if self.contains(coord) {
            Tile::Filled
        } else {
            Tile::Empty
        }
    }
}

} // verus!

//! The orientation enumerator and the twelve classic pentominoes: applying
//! every rigid symmetry to a representative shape and collecting the
//! distinct results.

use vstd::prelude::*;

use crate::canon::has_cell;
use crate::canon::is_normal;
use crate::canon::spec_normalize;
use crate::cell_shape::grid_filled;
use crate::cell_shape::grid_normalized_by;
use crate::cell_shape::lemma_grid_normalization_unique;
use crate::cell_shape::CellShape;
use crate::cell_shape::Tile;
use crate::coord::Coord;
use crate::transform::dihedral_group;
use crate::transform::lemma_identity_transform_shape;
use crate::transform::lemma_image_eq;
use crate::transform::rigid_symmetries;
use crate::transform::spec_compose;
use crate::transform::transformed_cells;
use crate::transform::Transform;

verus! {

/// The cell at column `x`, row `y`.
pub open spec fn cell_at(x: int, y: int) -> Coord {
    Coord { x: x as isize, y: y as isize }
}

/// The canonical shape that the symmetry `t` carries the cells `s` onto.
pub open spec fn image_of(t: Transform, s: Seq<Coord>) -> Seq<Coord> {
    spec_normalize(transformed_cells(t, s))
}

/// The canonical images of `rep` under each symmetry of the list, in order.
pub open spec fn image_list(syms: Seq<Transform>, rep: Seq<Coord>) -> Seq<Seq<Coord>> {
    Seq::new(syms.len(), |j: int| image_of(syms[j], rep))
}

/// The cell lists of a list of shapes, in order.
pub open spec fn views_of(v: Seq<CellShape>) -> Seq<Seq<Coord>> {
    Seq::new(v.len(), |i: int| v[i]@)
}

/// The canonical images of `rep` under the symmetries of the list, each kept
/// once, in order of first appearance.
pub open spec fn distinct_images(syms: Seq<Transform>, rep: Seq<Coord>) -> Seq<Seq<Coord>>
    decreases syms.len(),
{
    if syms.len() == 0 {
        Seq::empty()
    } else {
        let prefix = distinct_images(syms.drop_last(), rep);
        let img = image_of(syms.last(), rep);
        if prefix.contains(img) {
            prefix
        } else {
            prefix.push(img)
        }
    }
}

/// The distinct image list is sound (every entry is an image), complete
/// (every image appears), and free of duplicates.
pub proof fn lemma_distinct_images_props(syms: Seq<Transform>, rep: Seq<Coord>)
    ensures
        forall|i: int|
            0 <= i < distinct_images(syms, rep).len() ==> image_list(syms, rep).contains(
                #[trigger] distinct_images(syms, rep)[i],
            ),
        forall|j: int|
            0 <= j < syms.len() ==> distinct_images(syms, rep).contains(
                #[trigger] image_list(syms, rep)[j],
            ),
        forall|i: int, j: int|
            #![trigger distinct_images(syms, rep)[i], distinct_images(syms, rep)[j]]
            0 <= i < j < distinct_images(syms, rep).len() ==> distinct_images(syms, rep)[i]
                != distinct_images(syms, rep)[j],
    decreases syms.len(),
{
    let out = distinct_images(syms, rep);
    if syms.len() > 0 {
        let pre = syms.drop_last();
        let prefix = distinct_images(pre, rep);
        let img = image_of(syms.last(), rep);
        lemma_distinct_images_props(pre, rep);
        // soundness carries over: an image under a prefix symmetry is an
        // image under the whole list
        assert forall|i: int| 0 <= i < out.len() implies image_list(syms, rep).contains(
            #[trigger] out[i],
        ) by {
            if i < prefix.len() {
                assert(prefix[i] == out[i]);
                let j = choose|j: int|
                    0 <= j < image_list(pre, rep).len() && image_list(pre, rep)[j] == prefix[i];
                assert(pre[j] == syms[j]);
                assert(image_list(syms, rep)[j] == out[i]);
                assert(image_list(syms, rep).contains(out[i]));
            } else {
                assert(out[i] == img);
                assert(image_list(syms, rep)[syms.len() - 1] == img);
                assert(image_list(syms, rep).contains(out[i]));
            }
        }
        // completeness: each symmetry's image is listed
        assert forall|j: int| 0 <= j < syms.len() implies out.contains(
            #[trigger] image_list(syms, rep)[j],
        ) by {
            if j < syms.len() - 1 {
                assert(pre[j] == syms[j]);
                assert(image_list(pre, rep)[j] == image_list(syms, rep)[j]);
                assert(prefix.contains(image_list(pre, rep)[j]));
                let i = choose|i: int|
                    0 <= i < prefix.len() && prefix[i] == image_list(pre, rep)[j];
                assert(out[i] == prefix[i]);
                assert(out.contains(image_list(syms, rep)[j]));
            } else {
                assert(image_list(syms, rep)[j] == img);
                if prefix.contains(img) {
                    let i = choose|i: int| 0 <= i < prefix.len() && prefix[i] == img;
                    assert(out[i] == img);
                    assert(out.contains(img));
                } else {
                    assert(out[out.len() - 1] == img);
                    assert(out.contains(img));
                }
            }
        }
        // distinctness: a new image is appended only when absent
        assert forall|i: int, j: int|
            #![trigger out[i], out[j]]
            0 <= i < j < out.len() implies out[i] != out[j] by {
            if j < prefix.len() {
                assert(out[i] == prefix[i] && out[j] == prefix[j]);
            } else if j == prefix.len() && out.len() == prefix.len() + 1 {
                assert(out[i] == prefix[i]);
                assert(out[j] == img);
                if prefix[i] == img {
                    assert(prefix.contains(img));
                }
            }
        }
    }
}

/// Whether the list already holds a shape with the same cells.
fn contains_shape(shapes: &Vec<CellShape>, s: &CellShape) -> (r: bool)
    ensures
        r == views_of(shapes@).contains(s@),
{
    let mut j: usize = 0;
    while j < shapes.len()
        invariant
            0 <= j <= shapes@.len(),
            forall|k: int| 0 <= k < j ==> (#[trigger] shapes@[k])@ != s@,
        decreases shapes@.len() - j,
    {
        let elem = &shapes[j];
        if *elem == *s {
            proof {
                assert(views_of(shapes@)[j as int] == s@);
                assert(views_of(shapes@).contains(s@));
            }
            return true;
        }
        j += 1;
    }
    proof {
        if views_of(shapes@).contains(s@) {
            let k = choose|k: int|
                0 <= k < views_of(shapes@).len() && views_of(shapes@)[k] == s@;
            assert(shapes@[k]@ == s@);
        }
    }
    false
}

/// Applies every symmetry of the list to the representative shape and
/// collects the distinct resulting shapes, in order of first appearance.
pub fn create_all_orientations(rep: &CellShape, symmetries: &[Transform]) -> (r: Vec<CellShape>)
    requires
        rep.wf(),
        forall|k: int| 0 <= k < symmetries@.len() ==> (#[trigger] symmetries@[k]).wf(),
    ensures
        views_of(r@) == distinct_images(symmetries@, rep@),
        forall|i: int| 0 <= i < r@.len() ==> (#[trigger] r@[i]).wf(),
{
    let mut result: Vec<CellShape> = Vec::new();
    let mut i: usize = 0;
    proof {
        assert(symmetries@.subrange(0, 0) =~= Seq::<Transform>::empty());
        assert(views_of(result@) =~= distinct_images(symmetries@.subrange(0, 0), rep@));
    }
    while i < symmetries.len()
        invariant
            0 <= i <= symmetries@.len(),
            rep.wf(),
            forall|k: int| 0 <= k < symmetries@.len() ==> (#[trigger] symmetries@[k]).wf(),
            views_of(result@) == distinct_images(symmetries@.subrange(0, i as int), rep@),
            forall|k: int| 0 <= k < result@.len() ==> (#[trigger] result@[k]).wf(),
        decreases symmetries@.len() - i,
    {
        let t = symmetries[i];
        let shape = t.transform_shape(rep);
        let ghost pre = symmetries@.subrange(0, i as int);
        let ghost cur = symmetries@.subrange(0, i + 1);
        proof {
            assert(cur.drop_last() =~= pre);
            assert(cur.last() == symmetries@[i as int]);
            assert(shape@ == image_of(symmetries@[i as int], rep@));
        }
        let ghost before = result@;
        if !contains_shape(&result, &shape) {
            result.push(shape);
            proof {
                assert(views_of(result@) =~= views_of(before).push(shape@));
                assert(views_of(result@) =~= distinct_images(cur, rep@));
            }
        } else {
            proof {
                assert(views_of(result@) =~= distinct_images(cur, rep@));
            }
        }
        i += 1;
    }
    proof {
        assert(symmetries@.subrange(0, symmetries@.len() as int) =~= symmetries@);
    }
    result
}

/// One of the twelve classic pentominoes, each named after the letter its
/// five cells resemble.
#[derive(Debug, Copy, Clone)]
pub enum Pentomino {
    F,
    I,
    L,
    N,
    P,
    T,
    U,
    V,
    W,
    X,
    Y,
    Z,
}

/// The canonical cells of each pentomino's representative shape, sorted by
/// the fixed order.
pub open spec fn rep_cells(p: Pentomino) -> Seq<Coord> {
    match p {
        Pentomino::F => seq![cell_at(0, 1), cell_at(1, 0), cell_at(1, 1), cell_at(1, 2), cell_at(2, 0)],
        Pentomino::I => seq![cell_at(0, 0), cell_at(0, 1), cell_at(0, 2), cell_at(0, 3), cell_at(0, 4)],
        Pentomino::L => seq![cell_at(0, 0), cell_at(0, 1), cell_at(0, 2), cell_at(0, 3), cell_at(1, 3)],
        Pentomino::N => seq![cell_at(0, 0), cell_at(0, 1), cell_at(1, 1), cell_at(1, 2), cell_at(1, 3)],
        Pentomino::P => seq![cell_at(0, 0), cell_at(0, 1), cell_at(0, 2), cell_at(1, 0), cell_at(1, 1)],
        Pentomino::T => seq![cell_at(0, 0), cell_at(1, 0), cell_at(1, 1), cell_at(1, 2), cell_at(2, 0)],
        Pentomino::U => seq![cell_at(0, 0), cell_at(0, 1), cell_at(1, 1), cell_at(2, 0), cell_at(2, 1)],
        Pentomino::V => seq![cell_at(0, 0), cell_at(0, 1), cell_at(0, 2), cell_at(1, 2), cell_at(2, 2)],
        Pentomino::W => seq![cell_at(0, 0), cell_at(0, 1), cell_at(1, 1), cell_at(1, 2), cell_at(2, 2)],
        Pentomino::X => seq![cell_at(0, 1), cell_at(1, 0), cell_at(1, 1), cell_at(1, 2), cell_at(2, 1)],
        Pentomino::Y => seq![cell_at(0, 0), cell_at(0, 1), cell_at(0, 2), cell_at(0, 3), cell_at(1, 1)],
        Pentomino::Z => seq![cell_at(0, 0), cell_at(1, 0), cell_at(1, 1), cell_at(1, 2), cell_at(2, 2)],
    }
}

impl Pentomino {
    /// Returns every geometrically distinct orientation of this pentomino,
    /// in order of first appearance under the fixed symmetry list.
    pub fn shapes(self) -> (r: Vec<CellShape>)
        ensures
            views_of(r@) == distinct_images(dihedral_group(), rep_cells(self)),
            forall|i: int| 0 <= i < r@.len() ==> (#[trigger] r@[i]).wf(),
    {
        let o = Tile::Empty;
        let f = Tile::Filled;
        // a representative shape for the pentomino
        let rep: CellShape = match self {
        Pentomino::F => {
            let g = [
                [o, f, f],
                [f, f, o],
                [o, f, o],
            ];
            let rep = CellShape::from_2darray(g);
            proof {
                let rc = rep_cells(self);
                assert(rc[0] == cell_at(0, 1));
                assert(rc[1] == cell_at(1, 0));
                assert(rc[2] == cell_at(1, 1));
                assert(rc[3] == cell_at(1, 2));
                assert(rc[4] == cell_at(2, 0));
                assert(is_normal(rc));
                assert forall|x: int, y: int| #![trigger grid_filled(g, x, y)]
                    has_cell(rc, x + 0, y + 0) <==> grid_filled(g, x, y) by {
                    assert(rc[0] == cell_at(0, 1));
                    assert(rc[1] == cell_at(1, 0));
                    assert(rc[2] == cell_at(1, 1));
                    assert(rc[3] == cell_at(1, 2));
                    assert(rc[4] == cell_at(2, 0));
                    if has_cell(rc, x + 0, y + 0) {
                        let i = choose|i: int|
                            0 <= i < rc.len() && (#[trigger] rc[i]).x == x && rc[i].y == y;
                    }
                }
                assert(grid_normalized_by(rc, g, 0, 0));
                lemma_grid_normalization_unique(rep@, rc, g);
            }
            rep
        }
        Pentomino::I => {
            let g = [
                [f],
                [f],
                [f],
                [f],
                [f],
            ];
            let rep = CellShape::from_2darray(g);
            proof {
                let rc = rep_cells(self);
                assert(rc[0] == cell_at(0, 0));
                assert(rc[1] == cell_at(0, 1));
                assert(rc[2] == cell_at(0, 2));
                assert(rc[3] == cell_at(0, 3));
                assert(rc[4] == cell_at(0, 4));
                assert(is_normal(rc));
                assert forall|x: int, y: int| #![trigger grid_filled(g, x, y)]
                    has_cell(rc, x + 0, y + 0) <==> grid_filled(g, x, y) by {
                    assert(rc[0] == cell_at(0, 0));
                    assert(rc[1] == cell_at(0, 1));
                    assert(rc[2] == cell_at(0, 2));
                    assert(rc[3] == cell_at(0, 3));
                    assert(rc[4] == cell_at(0, 4));
                    if has_cell(rc, x + 0, y + 0) {
                        let i = choose|i: int|
                            0 <= i < rc.len() && (#[trigger] rc[i]).x == x && rc[i].y == y;
                    }
                }
                assert(grid_normalized_by(rc, g, 0, 0));
                lemma_grid_normalization_unique(rep@, rc, g);
            }
            rep
        }
        Pentomino::L => {
            let g = [
                [f, o],
                [f, o],
                [f, o],
                [f, f],
            ];
            let rep = CellShape::from_2darray(g);
            proof {
                let rc = rep_cells(self);
                assert(rc[0] == cell_at(0, 0));
                assert(rc[1] == cell_at(0, 1));
                assert(rc[2] == cell_at(0, 2));
                assert(rc[3] == cell_at(0, 3));
                assert(rc[4] == cell_at(1, 3));
                assert(is_normal(rc));
                assert forall|x: int, y: int| #![trigger grid_filled(g, x, y)]
                    has_cell(rc, x + 0, y + 0) <==> grid_filled(g, x, y) by {
                    assert(rc[0] == cell_at(0, 0));
                    assert(rc[1] == cell_at(0, 1));
                    assert(rc[2] == cell_at(0, 2));
                    assert(rc[3] == cell_at(0, 3));
                    assert(rc[4] == cell_at(1, 3));
                    if has_cell(rc, x + 0, y + 0) {
                        let i = choose|i: int|
                            0 <= i < rc.len() && (#[trigger] rc[i]).x == x && rc[i].y == y;
                    }
                }
                assert(grid_normalized_by(rc, g, 0, 0));
                lemma_grid_normalization_unique(rep@, rc, g);
            }
            rep
        }
        Pentomino::N => {
            let g = [
                [f, o],
                [f, f],
                [o, f],
                [o, f],
            ];
            let rep = CellShape::from_2darray(g);
            proof {
                let rc = rep_cells(self);
                assert(rc[0] == cell_at(0, 0));
                assert(rc[1] == cell_at(0, 1));
                assert(rc[2] == cell_at(1, 1));
                assert(rc[3] == cell_at(1, 2));
                assert(rc[4] == cell_at(1, 3));
                assert(is_normal(rc));
                assert forall|x: int, y: int| #![trigger grid_filled(g, x, y)]
                    has_cell(rc, x + 0, y + 0) <==> grid_filled(g, x, y) by {
                    assert(rc[0] == cell_at(0, 0));
                    assert(rc[1] == cell_at(0, 1));
                    assert(rc[2] == cell_at(1, 1));
                    assert(rc[3] == cell_at(1, 2));
                    assert(rc[4] == cell_at(1, 3));
                    if has_cell(rc, x + 0, y + 0) {
                        let i = choose|i: int|
                            0 <= i < rc.len() && (#[trigger] rc[i]).x == x && rc[i].y == y;
                    }
                }
                assert(grid_normalized_by(rc, g, 0, 0));
                lemma_grid_normalization_unique(rep@, rc, g);
            }
            rep
        }
        Pentomino::P => {
            let g = [
                [f, f],
                [f, f],
                [f, o],
            ];
            let rep = CellShape::from_2darray(g);
            proof {
                let rc = rep_cells(self);
                assert(rc[0] == cell_at(0, 0));
                assert(rc[1] == cell_at(0, 1));
                assert(rc[2] == cell_at(0, 2));
                assert(rc[3] == cell_at(1, 0));
                assert(rc[4] == cell_at(1, 1));
                assert(is_normal(rc));
                assert forall|x: int, y: int| #![trigger grid_filled(g, x, y)]
                    has_cell(rc, x + 0, y + 0) <==> grid_filled(g, x, y) by {
                    assert(rc[0] == cell_at(0, 0));
                    assert(rc[1] == cell_at(0, 1));
                    assert(rc[2] == cell_at(0, 2));
                    assert(rc[3] == cell_at(1, 0));
                    assert(rc[4] == cell_at(1, 1));
                    if has_cell(rc, x + 0, y + 0) {
                        let i = choose|i: int|
                            0 <= i < rc.len() && (#[trigger] rc[i]).x == x && rc[i].y == y;
                    }
                }
                assert(grid_normalized_by(rc, g, 0, 0));
                lemma_grid_normalization_unique(rep@, rc, g);
            }
            rep
        }
        Pentomino::T => {
            let g = [
                [f, f, f],
                [o, f, o],
                [o, f, o],
            ];
            let rep = CellShape::from_2darray(g);
            proof {
                let rc = rep_cells(self);
                assert(rc[0] == cell_at(0, 0));
                assert(rc[1] == cell_at(1, 0));
                assert(rc[2] == cell_at(1, 1));
                assert(rc[3] == cell_at(1, 2));
                assert(rc[4] == cell_at(2, 0));
                assert(is_normal(rc));
                assert forall|x: int, y: int| #![trigger grid_filled(g, x, y)]
                    has_cell(rc, x + 0, y + 0) <==> grid_filled(g, x, y) by {
                    assert(rc[0] == cell_at(0, 0));
                    assert(rc[1] == cell_at(1, 0));
                    assert(rc[2] == cell_at(1, 1));
                    assert(rc[3] == cell_at(1, 2));
                    assert(rc[4] == cell_at(2, 0));
                    if has_cell(rc, x + 0, y + 0) {
                        let i = choose|i: int|
                            0 <= i < rc.len() && (#[trigger] rc[i]).x == x && rc[i].y == y;
                    }
                }
                assert(grid_normalized_by(rc, g, 0, 0));
                lemma_grid_normalization_unique(rep@, rc, g);
            }
            rep
        }
        Pentomino::U => {
            let g = [
                [f, o, f],
                [f, f, f],
            ];
            let rep = CellShape::from_2darray(g);
            proof {
                let rc = rep_cells(self);
                assert(rc[0] == cell_at(0, 0));
                assert(rc[1] == cell_at(0, 1));
                assert(rc[2] == cell_at(1, 1));
                assert(rc[3] == cell_at(2, 0));
                assert(rc[4] == cell_at(2, 1));
                assert(is_normal(rc));
                assert forall|x: int, y: int| #![trigger grid_filled(g, x, y)]
                    has_cell(rc, x + 0, y + 0) <==> grid_filled(g, x, y) by {
                    assert(rc[0] == cell_at(0, 0));
                    assert(rc[1] == cell_at(0, 1));
                    assert(rc[2] == cell_at(1, 1));
                    assert(rc[3] == cell_at(2, 0));
                    assert(rc[4] == cell_at(2, 1));
                    if has_cell(rc, x + 0, y + 0) {
                        let i = choose|i: int|
                            0 <= i < rc.len() && (#[trigger] rc[i]).x == x && rc[i].y == y;
                    }
                }
                assert(grid_normalized_by(rc, g, 0, 0));
                lemma_grid_normalization_unique(rep@, rc, g);
            }
            rep
        }
        Pentomino::V => {
            let g = [
                [f, o, o],
                [f, o, o],
                [f, f, f],
            ];
            let rep = CellShape::from_2darray(g);
            proof {
                let rc = rep_cells(self);
                assert(rc[0] == cell_at(0, 0));
                assert(rc[1] == cell_at(0, 1));
                assert(rc[2] == cell_at(0, 2));
                assert(rc[3] == cell_at(1, 2));
                assert(rc[4] == cell_at(2, 2));
                assert(is_normal(rc));
                assert forall|x: int, y: int| #![trigger grid_filled(g, x, y)]
                    has_cell(rc, x + 0, y + 0) <==> grid_filled(g, x, y) by {
                    assert(rc[0] == cell_at(0, 0));
                    assert(rc[1] == cell_at(0, 1));
                    assert(rc[2] == cell_at(0, 2));
                    assert(rc[3] == cell_at(1, 2));
                    assert(rc[4] == cell_at(2, 2));
                    if has_cell(rc, x + 0, y + 0) {
                        let i = choose|i: int|
                            0 <= i < rc.len() && (#[trigger] rc[i]).x == x && rc[i].y == y;
                    }
                }
                assert(grid_normalized_by(rc, g, 0, 0));
                lemma_grid_normalization_unique(rep@, rc, g);
            }
            rep
        }
        Pentomino::W => {
            let g = [
                [f, o, o],
                [f, f, o],
                [o, f, f],
            ];
            let rep = CellShape::from_2darray(g);
            proof {
                let rc = rep_cells(self);
                assert(rc[0] == cell_at(0, 0));
                assert(rc[1] == cell_at(0, 1));
                assert(rc[2] == cell_at(1, 1));
                assert(rc[3] == cell_at(1, 2));
                assert(rc[4] == cell_at(2, 2));
                assert(is_normal(rc));
                assert forall|x: int, y: int| #![trigger grid_filled(g, x, y)]
                    has_cell(rc, x + 0, y + 0) <==> grid_filled(g, x, y) by {
                    assert(rc[0] == cell_at(0, 0));
                    assert(rc[1] == cell_at(0, 1));
                    assert(rc[2] == cell_at(1, 1));
                    assert(rc[3] == cell_at(1, 2));
                    assert(rc[4] == cell_at(2, 2));
                    if has_cell(rc, x + 0, y + 0) {
                        let i = choose|i: int|
                            0 <= i < rc.len() && (#[trigger] rc[i]).x == x && rc[i].y == y;
                    }
                }
                assert(grid_normalized_by(rc, g, 0, 0));
                lemma_grid_normalization_unique(rep@, rc, g);
            }
            rep
        }
        Pentomino::X => {
            let g = [
                [o, f, o],
                [f, f, f],
                [o, f, o],
            ];
            let rep = CellShape::from_2darray(g);
            proof {
                let rc = rep_cells(self);
                assert(rc[0] == cell_at(0, 1));
                assert(rc[1] == cell_at(1, 0));
                assert(rc[2] == cell_at(1, 1));
                assert(rc[3] == cell_at(1, 2));
                assert(rc[4] == cell_at(2, 1));
                assert(is_normal(rc));
                assert forall|x: int, y: int| #![trigger grid_filled(g, x, y)]
                    has_cell(rc, x + 0, y + 0) <==> grid_filled(g, x, y) by {
                    assert(rc[0] == cell_at(0, 1));
                    assert(rc[1] == cell_at(1, 0));
                    assert(rc[2] == cell_at(1, 1));
                    assert(rc[3] == cell_at(1, 2));
                    assert(rc[4] == cell_at(2, 1));
                    if has_cell(rc, x + 0, y + 0) {
                        let i = choose|i: int|
                            0 <= i < rc.len() && (#[trigger] rc[i]).x == x && rc[i].y == y;
                    }
                }
                assert(grid_normalized_by(rc, g, 0, 0));
                lemma_grid_normalization_unique(rep@, rc, g);
            }
            rep
        }
        Pentomino::Y => {
            let g = [
                [f, o],
                [f, f],
                [f, o],
                [f, o],
            ];
            let rep = CellShape::from_2darray(g);
            proof {
                let rc = rep_cells(self);
                assert(rc[0] == cell_at(0, 0));
                assert(rc[1] == cell_at(0, 1));
                assert(rc[2] == cell_at(0, 2));
                assert(rc[3] == cell_at(0, 3));
                assert(rc[4] == cell_at(1, 1));
                assert(is_normal(rc));
                assert forall|x: int, y: int| #![trigger grid_filled(g, x, y)]
                    has_cell(rc, x + 0, y + 0) <==> grid_filled(g, x, y) by {
                    assert(rc[0] == cell_at(0, 0));
                    assert(rc[1] == cell_at(0, 1));
                    assert(rc[2] == cell_at(0, 2));
                    assert(rc[3] == cell_at(0, 3));
                    assert(rc[4] == cell_at(1, 1));
                    if has_cell(rc, x + 0, y + 0) {
                        let i = choose|i: int|
                            0 <= i < rc.len() && (#[trigger] rc[i]).x == x && rc[i].y == y;
                    }
                }
                assert(grid_normalized_by(rc, g, 0, 0));
                lemma_grid_normalization_unique(rep@, rc, g);
            }
            rep
        }
        Pentomino::Z => {
            let g = [
                [f, f, o],
                [o, f, o],
                [o, f, f],
            ];
            let rep = CellShape::from_2darray(g);
            proof {
                let rc = rep_cells(self);
                assert(rc[0] == cell_at(0, 0));
                assert(rc[1] == cell_at(1, 0));
                assert(rc[2] == cell_at(1, 1));
                assert(rc[3] == cell_at(1, 2));
                assert(rc[4] == cell_at(2, 2));
                assert(is_normal(rc));
                assert forall|x: int, y: int| #![trigger grid_filled(g, x, y)]
                    has_cell(rc, x + 0, y + 0) <==> grid_filled(g, x, y) by {
                    assert(rc[0] == cell_at(0, 0));
                    assert(rc[1] == cell_at(1, 0));
                    assert(rc[2] == cell_at(1, 1));
                    assert(rc[3] == cell_at(1, 2));
                    assert(rc[4] == cell_at(2, 2));
                    if has_cell(rc, x + 0, y + 0) {
                        let i = choose|i: int|
                            0 <= i < rc.len() && (#[trigger] rc[i]).x == x && rc[i].y == y;
                    }
                }
                assert(grid_normalized_by(rc, g, 0, 0));
                lemma_grid_normalization_unique(rep@, rc, g);
            }
            rep
        }
        };
        let syms = rigid_symmetries();
        create_all_orientations(&rep, syms.as_slice())
    }
}


/// Relates each pair of orientations of a canonical shape to whether one
/// difference symmetry fixes it.
proof fn lemma_orbit_pair_equivalences(s: Seq<Coord>)
    requires
        is_normal(s),
    ensures
        (spec_normalize(transformed_cells(Transform::spec_identity(), s)) == spec_normalize(transformed_cells(Transform::spec_mirror_horizontal(), s))) <==> (spec_normalize(transformed_cells(Transform::spec_mirror_horizontal(), s)) == s),
        (spec_normalize(transformed_cells(Transform::spec_identity(), s)) == spec_normalize(transformed_cells(Transform::spec_mirror_vertical(), s))) <==> (spec_normalize(transformed_cells(Transform::spec_mirror_vertical(), s)) == s),
        (spec_normalize(transformed_cells(Transform::spec_identity(), s)) == spec_normalize(transformed_cells(Transform::spec_mirror_diagonal(), s))) <==> (spec_normalize(transformed_cells(Transform::spec_mirror_diagonal(), s)) == s),
        (spec_normalize(transformed_cells(Transform::spec_identity(), s)) == spec_normalize(transformed_cells(Transform::spec_mirror_diagonal2(), s))) <==> (spec_normalize(transformed_cells(Transform::spec_mirror_diagonal2(), s)) == s),
        (spec_normalize(transformed_cells(Transform::spec_identity(), s)) == spec_normalize(transformed_cells(Transform::spec_rotate90(), s))) <==> (spec_normalize(transformed_cells(Transform::spec_rotate270(), s)) == s),
        (spec_normalize(transformed_cells(Transform::spec_identity(), s)) == spec_normalize(transformed_cells(Transform::spec_rotate180(), s))) <==> (spec_normalize(transformed_cells(Transform::spec_rotate180(), s)) == s),
        (spec_normalize(transformed_cells(Transform::spec_identity(), s)) == spec_normalize(transformed_cells(Transform::spec_rotate270(), s))) <==> (spec_normalize(transformed_cells(Transform::spec_rotate90(), s)) == s),
        (spec_normalize(transformed_cells(Transform::spec_mirror_horizontal(), s)) == spec_normalize(transformed_cells(Transform::spec_mirror_vertical(), s))) <==> (spec_normalize(transformed_cells(Transform::spec_rotate180(), s)) == s),
        (spec_normalize(transformed_cells(Transform::spec_mirror_horizontal(), s)) == spec_normalize(transformed_cells(Transform::spec_mirror_diagonal(), s))) <==> (spec_normalize(transformed_cells(Transform::spec_rotate270(), s)) == s),
        (spec_normalize(transformed_cells(Transform::spec_mirror_horizontal(), s)) == spec_normalize(transformed_cells(Transform::spec_mirror_diagonal2(), s))) <==> (spec_normalize(transformed_cells(Transform::spec_rotate90(), s)) == s),
        (spec_normalize(transformed_cells(Transform::spec_mirror_horizontal(), s)) == spec_normalize(transformed_cells(Transform::spec_rotate90(), s))) <==> (spec_normalize(transformed_cells(Transform::spec_mirror_diagonal(), s)) == s),
        (spec_normalize(transformed_cells(Transform::spec_mirror_horizontal(), s)) == spec_normalize(transformed_cells(Transform::spec_rotate180(), s))) <==> (spec_normalize(transformed_cells(Transform::spec_mirror_vertical(), s)) == s),
        (spec_normalize(transformed_cells(Transform::spec_mirror_horizontal(), s)) == spec_normalize(transformed_cells(Transform::spec_rotate270(), s))) <==> (spec_normalize(transformed_cells(Transform::spec_mirror_diagonal2(), s)) == s),
        (spec_normalize(transformed_cells(Transform::spec_mirror_vertical(), s)) == spec_normalize(transformed_cells(Transform::spec_mirror_diagonal(), s))) <==> (spec_normalize(transformed_cells(Transform::spec_rotate90(), s)) == s),
        (spec_normalize(transformed_cells(Transform::spec_mirror_vertical(), s)) == spec_normalize(transformed_cells(Transform::spec_mirror_diagonal2(), s))) <==> (spec_normalize(transformed_cells(Transform::spec_rotate270(), s)) == s),
        (spec_normalize(transformed_cells(Transform::spec_mirror_vertical(), s)) == spec_normalize(transformed_cells(Transform::spec_rotate90(), s))) <==> (spec_normalize(transformed_cells(Transform::spec_mirror_diagonal2(), s)) == s),
        (spec_normalize(transformed_cells(Transform::spec_mirror_vertical(), s)) == spec_normalize(transformed_cells(Transform::spec_rotate180(), s))) <==> (spec_normalize(transformed_cells(Transform::spec_mirror_horizontal(), s)) == s),
        (spec_normalize(transformed_cells(Transform::spec_mirror_vertical(), s)) == spec_normalize(transformed_cells(Transform::spec_rotate270(), s))) <==> (spec_normalize(transformed_cells(Transform::spec_mirror_diagonal(), s)) == s),
        (spec_normalize(transformed_cells(Transform::spec_mirror_diagonal(), s)) == spec_normalize(transformed_cells(Transform::spec_mirror_diagonal2(), s))) <==> (spec_normalize(transformed_cells(Transform::spec_rotate180(), s)) == s),
        (spec_normalize(transformed_cells(Transform::spec_mirror_diagonal(), s)) == spec_normalize(transformed_cells(Transform::spec_rotate90(), s))) <==> (spec_normalize(transformed_cells(Transform::spec_mirror_vertical(), s)) == s),
        (spec_normalize(transformed_cells(Transform::spec_mirror_diagonal(), s)) == spec_normalize(transformed_cells(Transform::spec_rotate180(), s))) <==> (spec_normalize(transformed_cells(Transform::spec_mirror_diagonal2(), s)) == s),
        (spec_normalize(transformed_cells(Transform::spec_mirror_diagonal(), s)) == spec_normalize(transformed_cells(Transform::spec_rotate270(), s))) <==> (spec_normalize(transformed_cells(Transform::spec_mirror_horizontal(), s)) == s),
        (spec_normalize(transformed_cells(Transform::spec_mirror_diagonal2(), s)) == spec_normalize(transformed_cells(Transform::spec_rotate90(), s))) <==> (spec_normalize(transformed_cells(Transform::spec_mirror_horizontal(), s)) == s),
        (spec_normalize(transformed_cells(Transform::spec_mirror_diagonal2(), s)) == spec_normalize(transformed_cells(Transform::spec_rotate180(), s))) <==> (spec_normalize(transformed_cells(Transform::spec_mirror_diagonal(), s)) == s),
        (spec_normalize(transformed_cells(Transform::spec_mirror_diagonal2(), s)) == spec_normalize(transformed_cells(Transform::spec_rotate270(), s))) <==> (spec_normalize(transformed_cells(Transform::spec_mirror_vertical(), s)) == s),
        (spec_normalize(transformed_cells(Transform::spec_rotate90(), s)) == spec_normalize(transformed_cells(Transform::spec_rotate180(), s))) <==> (spec_normalize(transformed_cells(Transform::spec_rotate270(), s)) == s),
        (spec_normalize(transformed_cells(Transform::spec_rotate90(), s)) == spec_normalize(transformed_cells(Transform::spec_rotate270(), s))) <==> (spec_normalize(transformed_cells(Transform::spec_rotate180(), s)) == s),
        (spec_normalize(transformed_cells(Transform::spec_rotate180(), s)) == spec_normalize(transformed_cells(Transform::spec_rotate270(), s))) <==> (spec_normalize(transformed_cells(Transform::spec_rotate270(), s)) == s),
{
    assert(spec_compose(Transform::spec_mirror_horizontal(), Transform::spec_mirror_horizontal()) =~= Transform::spec_identity());
    assert(spec_compose(Transform::spec_mirror_horizontal(), Transform::spec_mirror_horizontal()) =~= Transform::spec_identity());
    lemma_image_eq(Transform::spec_identity(), Transform::spec_mirror_horizontal(), Transform::spec_mirror_horizontal(), s);
    assert(spec_compose(Transform::spec_identity(), Transform::spec_mirror_horizontal()) =~= Transform::spec_mirror_horizontal());
    assert(spec_compose(Transform::spec_mirror_vertical(), Transform::spec_mirror_vertical()) =~= Transform::spec_identity());
    assert(spec_compose(Transform::spec_mirror_vertical(), Transform::spec_mirror_vertical()) =~= Transform::spec_identity());
    lemma_image_eq(Transform::spec_identity(), Transform::spec_mirror_vertical(), Transform::spec_mirror_vertical(), s);
    assert(spec_compose(Transform::spec_identity(), Transform::spec_mirror_vertical()) =~= Transform::spec_mirror_vertical());
    assert(spec_compose(Transform::spec_mirror_diagonal(), Transform::spec_mirror_diagonal()) =~= Transform::spec_identity());
    assert(spec_compose(Transform::spec_mirror_diagonal(), Transform::spec_mirror_diagonal()) =~= Transform::spec_identity());
    lemma_image_eq(Transform::spec_identity(), Transform::spec_mirror_diagonal(), Transform::spec_mirror_diagonal(), s);
    assert(spec_compose(Transform::spec_identity(), Transform::spec_mirror_diagonal()) =~= Transform::spec_mirror_diagonal());
    assert(spec_compose(Transform::spec_mirror_diagonal2(), Transform::spec_mirror_diagonal2()) =~= Transform::spec_identity());
    assert(spec_compose(Transform::spec_mirror_diagonal2(), Transform::spec_mirror_diagonal2()) =~= Transform::spec_identity());
    lemma_image_eq(Transform::spec_identity(), Transform::spec_mirror_diagonal2(), Transform::spec_mirror_diagonal2(), s);
    assert(spec_compose(Transform::spec_identity(), Transform::spec_mirror_diagonal2()) =~= Transform::spec_mirror_diagonal2());
    assert(spec_compose(Transform::spec_rotate90(), Transform::spec_rotate270()) =~= Transform::spec_identity());
    assert(spec_compose(Transform::spec_rotate270(), Transform::spec_rotate90()) =~= Transform::spec_identity());
    lemma_image_eq(Transform::spec_identity(), Transform::spec_rotate90(), Transform::spec_rotate270(), s);
    assert(spec_compose(Transform::spec_identity(), Transform::spec_rotate270()) =~= Transform::spec_rotate270());
    assert(spec_compose(Transform::spec_rotate180(), Transform::spec_rotate180()) =~= Transform::spec_identity());
    assert(spec_compose(Transform::spec_rotate180(), Transform::spec_rotate180()) =~= Transform::spec_identity());
    lemma_image_eq(Transform::spec_identity(), Transform::spec_rotate180(), Transform::spec_rotate180(), s);
    assert(spec_compose(Transform::spec_identity(), Transform::spec_rotate180()) =~= Transform::spec_rotate180());
    assert(spec_compose(Transform::spec_rotate270(), Transform::spec_rotate90()) =~= Transform::spec_identity());
    assert(spec_compose(Transform::spec_rotate90(), Transform::spec_rotate270()) =~= Transform::spec_identity());
    lemma_image_eq(Transform::spec_identity(), Transform::spec_rotate270(), Transform::spec_rotate90(), s);
    assert(spec_compose(Transform::spec_identity(), Transform::spec_rotate90()) =~= Transform::spec_rotate90());
    assert(spec_compose(Transform::spec_mirror_vertical(), Transform::spec_mirror_vertical()) =~= Transform::spec_identity());
    assert(spec_compose(Transform::spec_mirror_vertical(), Transform::spec_mirror_vertical()) =~= Transform::spec_identity());
    lemma_image_eq(Transform::spec_mirror_horizontal(), Transform::spec_mirror_vertical(), Transform::spec_mirror_vertical(), s);
    assert(spec_compose(Transform::spec_mirror_horizontal(), Transform::spec_mirror_vertical()) =~= Transform::spec_rotate180());
    assert(spec_compose(Transform::spec_mirror_diagonal(), Transform::spec_mirror_diagonal()) =~= Transform::spec_identity());
    assert(spec_compose(Transform::spec_mirror_diagonal(), Transform::spec_mirror_diagonal()) =~= Transform::spec_identity());
    lemma_image_eq(Transform::spec_mirror_horizontal(), Transform::spec_mirror_diagonal(), Transform::spec_mirror_diagonal(), s);
    assert(spec_compose(Transform::spec_mirror_horizontal(), Transform::spec_mirror_diagonal()) =~= Transform::spec_rotate270());
    assert(spec_compose(Transform::spec_mirror_diagonal2(), Transform::spec_mirror_diagonal2()) =~= Transform::spec_identity());
    assert(spec_compose(Transform::spec_mirror_diagonal2(), Transform::spec_mirror_diagonal2()) =~= Transform::spec_identity());
    lemma_image_eq(Transform::spec_mirror_horizontal(), Transform::spec_mirror_diagonal2(), Transform::spec_mirror_diagonal2(), s);
    assert(spec_compose(Transform::spec_mirror_horizontal(), Transform::spec_mirror_diagonal2()) =~= Transform::spec_rotate90());
    assert(spec_compose(Transform::spec_rotate90(), Transform::spec_rotate270()) =~= Transform::spec_identity());
    assert(spec_compose(Transform::spec_rotate270(), Transform::spec_rotate90()) =~= Transform::spec_identity());
    lemma_image_eq(Transform::spec_mirror_horizontal(), Transform::spec_rotate90(), Transform::spec_rotate270(), s);
    assert(spec_compose(Transform::spec_mirror_horizontal(), Transform::spec_rotate270()) =~= Transform::spec_mirror_diagonal());
    assert(spec_compose(Transform::spec_rotate180(), Transform::spec_rotate180()) =~= Transform::spec_identity());
    assert(spec_compose(Transform::spec_rotate180(), Transform::spec_rotate180()) =~= Transform::spec_identity());
    lemma_image_eq(Transform::spec_mirror_horizontal(), Transform::spec_rotate180(), Transform::spec_rotate180(), s);
    assert(spec_compose(Transform::spec_mirror_horizontal(), Transform::spec_rotate180()) =~= Transform::spec_mirror_vertical());
    assert(spec_compose(Transform::spec_rotate270(), Transform::spec_rotate90()) =~= Transform::spec_identity());
    assert(spec_compose(Transform::spec_rotate90(), Transform::spec_rotate270()) =~= Transform::spec_identity());
    lemma_image_eq(Transform::spec_mirror_horizontal(), Transform::spec_rotate270(), Transform::spec_rotate90(), s);
    assert(spec_compose(Transform::spec_mirror_horizontal(), Transform::spec_rotate90()) =~= Transform::spec_mirror_diagonal2());
    assert(spec_compose(Transform::spec_mirror_diagonal(), Transform::spec_mirror_diagonal()) =~= Transform::spec_identity());
    assert(spec_compose(Transform::spec_mirror_diagonal(), Transform::spec_mirror_diagonal()) =~= Transform::spec_identity());
    lemma_image_eq(Transform::spec_mirror_vertical(), Transform::spec_mirror_diagonal(), Transform::spec_mirror_diagonal(), s);
    assert(spec_compose(Transform::spec_mirror_vertical(), Transform::spec_mirror_diagonal()) =~= Transform::spec_rotate90());
    assert(spec_compose(Transform::spec_mirror_diagonal2(), Transform::spec_mirror_diagonal2()) =~= Transform::spec_identity());
    assert(spec_compose(Transform::spec_mirror_diagonal2(), Transform::spec_mirror_diagonal2()) =~= Transform::spec_identity());
    lemma_image_eq(Transform::spec_mirror_vertical(), Transform::spec_mirror_diagonal2(), Transform::spec_mirror_diagonal2(), s);
    assert(spec_compose(Transform::spec_mirror_vertical(), Transform::spec_mirror_diagonal2()) =~= Transform::spec_rotate270());
    assert(spec_compose(Transform::spec_rotate90(), Transform::spec_rotate270()) =~= Transform::spec_identity());
    assert(spec_compose(Transform::spec_rotate270(), Transform::spec_rotate90()) =~= Transform::spec_identity());
    lemma_image_eq(Transform::spec_mirror_vertical(), Transform::spec_rotate90(), Transform::spec_rotate270(), s);
    assert(spec_compose(Transform::spec_mirror_vertical(), Transform::spec_rotate270()) =~= Transform::spec_mirror_diagonal2());
    assert(spec_compose(Transform::spec_rotate180(), Transform::spec_rotate180()) =~= Transform::spec_identity());
    assert(spec_compose(Transform::spec_rotate180(), Transform::spec_rotate180()) =~= Transform::spec_identity());
    lemma_image_eq(Transform::spec_mirror_vertical(), Transform::spec_rotate180(), Transform::spec_rotate180(), s);
    assert(spec_compose(Transform::spec_mirror_vertical(), Transform::spec_rotate180()) =~= Transform::spec_mirror_horizontal());
    assert(spec_compose(Transform::spec_rotate270(), Transform::spec_rotate90()) =~= Transform::spec_identity());
    assert(spec_compose(Transform::spec_rotate90(), Transform::spec_rotate270()) =~= Transform::spec_identity());
    lemma_image_eq(Transform::spec_mirror_vertical(), Transform::spec_rotate270(), Transform::spec_rotate90(), s);
    assert(spec_compose(Transform::spec_mirror_vertical(), Transform::spec_rotate90()) =~= Transform::spec_mirror_diagonal());
    assert(spec_compose(Transform::spec_mirror_diagonal2(), Transform::spec_mirror_diagonal2()) =~= Transform::spec_identity());
    assert(spec_compose(Transform::spec_mirror_diagonal2(), Transform::spec_mirror_diagonal2()) =~= Transform::spec_identity());
    lemma_image_eq(Transform::spec_mirror_diagonal(), Transform::spec_mirror_diagonal2(), Transform::spec_mirror_diagonal2(), s);
    assert(spec_compose(Transform::spec_mirror_diagonal(), Transform::spec_mirror_diagonal2()) =~= Transform::spec_rotate180());
    assert(spec_compose(Transform::spec_rotate90(), Transform::spec_rotate270()) =~= Transform::spec_identity());
    assert(spec_compose(Transform::spec_rotate270(), Transform::spec_rotate90()) =~= Transform::spec_identity());
    lemma_image_eq(Transform::spec_mirror_diagonal(), Transform::spec_rotate90(), Transform::spec_rotate270(), s);
    assert(spec_compose(Transform::spec_mirror_diagonal(), Transform::spec_rotate270()) =~= Transform::spec_mirror_vertical());
    assert(spec_compose(Transform::spec_rotate180(), Transform::spec_rotate180()) =~= Transform::spec_identity());
    assert(spec_compose(Transform::spec_rotate180(), Transform::spec_rotate180()) =~= Transform::spec_identity());
    lemma_image_eq(Transform::spec_mirror_diagonal(), Transform::spec_rotate180(), Transform::spec_rotate180(), s);
    assert(spec_compose(Transform::spec_mirror_diagonal(), Transform::spec_rotate180()) =~= Transform::spec_mirror_diagonal2());
    assert(spec_compose(Transform::spec_rotate270(), Transform::spec_rotate90()) =~= Transform::spec_identity());
    assert(spec_compose(Transform::spec_rotate90(), Transform::spec_rotate270()) =~= Transform::spec_identity());
    lemma_image_eq(Transform::spec_mirror_diagonal(), Transform::spec_rotate270(), Transform::spec_rotate90(), s);
    assert(spec_compose(Transform::spec_mirror_diagonal(), Transform::spec_rotate90()) =~= Transform::spec_mirror_horizontal());
    assert(spec_compose(Transform::spec_rotate90(), Transform::spec_rotate270()) =~= Transform::spec_identity());
    assert(spec_compose(Transform::spec_rotate270(), Transform::spec_rotate90()) =~= Transform::spec_identity());
    lemma_image_eq(Transform::spec_mirror_diagonal2(), Transform::spec_rotate90(), Transform::spec_rotate270(), s);
    assert(spec_compose(Transform::spec_mirror_diagonal2(), Transform::spec_rotate270()) =~= Transform::spec_mirror_horizontal());
    assert(spec_compose(Transform::spec_rotate180(), Transform::spec_rotate180()) =~= Transform::spec_identity());
    assert(spec_compose(Transform::spec_rotate180(), Transform::spec_rotate180()) =~= Transform::spec_identity());
    lemma_image_eq(Transform::spec_mirror_diagonal2(), Transform::spec_rotate180(), Transform::spec_rotate180(), s);
    assert(spec_compose(Transform::spec_mirror_diagonal2(), Transform::spec_rotate180()) =~= Transform::spec_mirror_diagonal());
    assert(spec_compose(Transform::spec_rotate270(), Transform::spec_rotate90()) =~= Transform::spec_identity());
    assert(spec_compose(Transform::spec_rotate90(), Transform::spec_rotate270()) =~= Transform::spec_identity());
    lemma_image_eq(Transform::spec_mirror_diagonal2(), Transform::spec_rotate270(), Transform::spec_rotate90(), s);
    assert(spec_compose(Transform::spec_mirror_diagonal2(), Transform::spec_rotate90()) =~= Transform::spec_mirror_vertical());
    assert(spec_compose(Transform::spec_rotate180(), Transform::spec_rotate180()) =~= Transform::spec_identity());
    assert(spec_compose(Transform::spec_rotate180(), Transform::spec_rotate180()) =~= Transform::spec_identity());
    lemma_image_eq(Transform::spec_rotate90(), Transform::spec_rotate180(), Transform::spec_rotate180(), s);
    assert(spec_compose(Transform::spec_rotate90(), Transform::spec_rotate180()) =~= Transform::spec_rotate270());
    assert(spec_compose(Transform::spec_rotate270(), Transform::spec_rotate90()) =~= Transform::spec_identity());
    assert(spec_compose(Transform::spec_rotate90(), Transform::spec_rotate270()) =~= Transform::spec_identity());
    lemma_image_eq(Transform::spec_rotate90(), Transform::spec_rotate270(), Transform::spec_rotate90(), s);
    assert(spec_compose(Transform::spec_rotate90(), Transform::spec_rotate90()) =~= Transform::spec_rotate180());
    assert(spec_compose(Transform::spec_rotate270(), Transform::spec_rotate90()) =~= Transform::spec_identity());
    assert(spec_compose(Transform::spec_rotate90(), Transform::spec_rotate270()) =~= Transform::spec_identity());
    lemma_image_eq(Transform::spec_rotate180(), Transform::spec_rotate270(), Transform::spec_rotate90(), s);
    assert(spec_compose(Transform::spec_rotate180(), Transform::spec_rotate90()) =~= Transform::spec_rotate270());
}

/// For any canonical shape, the number of distinct orientations under the 8
/// rigid symmetries divides 8: the symmetries that fix the shape's
/// orientation form a subgroup, and distinct orientations correspond to its
/// cosets.
#[verifier::rlimit(100)]
pub proof fn lemma_orbit_size_divides(s: Seq<Coord>)
    requires
        is_normal(s),
    ensures
        distinct_images(dihedral_group(), s).len() == 1 || distinct_images(dihedral_group(), s).len() == 2
            || distinct_images(dihedral_group(), s).len() == 4 || distinct_images(
            dihedral_group(),
            s,
        ).len() == 8,
{
    reveal_with_fuel(distinct_images, 9);
    lemma_orbit_pair_equivalences(s);
    lemma_identity_transform_shape(s);
    let n0 = spec_normalize(transformed_cells(Transform::spec_identity(), s));
    let n1 = spec_normalize(transformed_cells(Transform::spec_mirror_horizontal(), s));
    let n2 = spec_normalize(transformed_cells(Transform::spec_mirror_vertical(), s));
    let n3 = spec_normalize(transformed_cells(Transform::spec_mirror_diagonal(), s));
    let n4 = spec_normalize(transformed_cells(Transform::spec_mirror_diagonal2(), s));
    let n5 = spec_normalize(transformed_cells(Transform::spec_rotate90(), s));
    let n6 = spec_normalize(transformed_cells(Transform::spec_rotate180(), s));
    let n7 = spec_normalize(transformed_cells(Transform::spec_rotate270(), s));
    assert(n0 == s);
    let g8 = dihedral_group();
    let g7 = g8.drop_last();
    let g6 = g7.drop_last();
    let g5 = g6.drop_last();
    let g4 = g5.drop_last();
    let g3 = g4.drop_last();
    let g2 = g3.drop_last();
    let g1 = g2.drop_last();
    assert(g8.last() == Transform::spec_rotate270() && g7.last() == Transform::spec_rotate180()
        && g6.last() == Transform::spec_rotate90() && g5.last()
        == Transform::spec_mirror_diagonal2() && g4.last() == Transform::spec_mirror_diagonal()
        && g3.last() == Transform::spec_mirror_vertical() && g2.last()
        == Transform::spec_mirror_horizontal() && g1.last() == Transform::spec_identity());
    assert(g1.drop_last().len() == 0);
    let d1 = distinct_images(g1, s);
    let d2 = distinct_images(g2, s);
    let d3 = distinct_images(g3, s);
    let d4 = distinct_images(g4, s);
    let d5 = distinct_images(g5, s);
    let d6 = distinct_images(g6, s);
    let d7 = distinct_images(g7, s);
    let d8 = distinct_images(g8, s);
    assert(d1 =~= seq![n0]);
    assert(d2 == (if d1.contains(n1) { d1 } else { d1.push(n1) }));
    assert(d3 == (if d2.contains(n2) { d2 } else { d2.push(n2) }));
    assert(d4 == (if d3.contains(n3) { d3 } else { d3.push(n3) }));
    assert(d5 == (if d4.contains(n4) { d4 } else { d4.push(n4) }));
    assert(d6 == (if d5.contains(n5) { d5 } else { d5.push(n5) }));
    assert(d7 == (if d6.contains(n6) { d6 } else { d6.push(n6) }));
    assert(d8 == (if d7.contains(n7) { d7 } else { d7.push(n7) }));
    assert forall|q: Seq<Coord>|
        #![trigger d1.contains(q)]
        d1.contains(q) <==> q == n0 by {
        if q == n0 {
            assert(d1[0] == q);
            assert(d1.contains(q));
        }
        if d1.contains(q) {
            let i = choose|i: int| 0 <= i < d1.len() && d1[i] == q;
        }
    }
    assert forall|q: Seq<Coord>|
        #![trigger d2.contains(q)]
        #![trigger d1.contains(q)]
        d2.contains(q) <==> d1.contains(q) || q == n1 by {
        if d1.contains(q) {
            let i = choose|i: int| 0 <= i < d1.len() && d1[i] == q;
            assert(d2[i] == q);
            assert(d2.contains(q));
        }
        if q == n1 {
            if !d1.contains(n1) {
                assert(d2[d1.len() as int] == q);
            }
            assert(d2.contains(q));
        }
        if d2.contains(q) {
            let i = choose|i: int| 0 <= i < d2.len() && d2[i] == q;
            if d1.contains(n1) {
                assert(d1[i] == q);
                assert(d1.contains(q));
            } else if i < d1.len() {
                assert(d1[i] == q);
                assert(d1.contains(q));
            } else {
                assert(q == n1);
            }
        }
    }
    assert forall|q: Seq<Coord>|
        #![trigger d3.contains(q)]
        #![trigger d2.contains(q)]
        d3.contains(q) <==> d2.contains(q) || q == n2 by {
        if d2.contains(q) {
            let i = choose|i: int| 0 <= i < d2.len() && d2[i] == q;
            assert(d3[i] == q);
            assert(d3.contains(q));
        }
        if q == n2 {
            if !d2.contains(n2) {
                assert(d3[d2.len() as int] == q);
            }
            assert(d3.contains(q));
        }
        if d3.contains(q) {
            let i = choose|i: int| 0 <= i < d3.len() && d3[i] == q;
            if d2.contains(n2) {
                assert(d2[i] == q);
                assert(d2.contains(q));
            } else if i < d2.len() {
                assert(d2[i] == q);
                assert(d2.contains(q));
            } else {
                assert(q == n2);
            }
        }
    }
    assert forall|q: Seq<Coord>|
        #![trigger d4.contains(q)]
        #![trigger d3.contains(q)]
        d4.contains(q) <==> d3.contains(q) || q == n3 by {
        if d3.contains(q) {
            let i = choose|i: int| 0 <= i < d3.len() && d3[i] == q;
            assert(d4[i] == q);
            assert(d4.contains(q));
        }
        if q == n3 {
            if !d3.contains(n3) {
                assert(d4[d3.len() as int] == q);
            }
            assert(d4.contains(q));
        }
        if d4.contains(q) {
            let i = choose|i: int| 0 <= i < d4.len() && d4[i] == q;
            if d3.contains(n3) {
                assert(d3[i] == q);
                assert(d3.contains(q));
            } else if i < d3.len() {
                assert(d3[i] == q);
                assert(d3.contains(q));
            } else {
                assert(q == n3);
            }
        }
    }
    assert forall|q: Seq<Coord>|
        #![trigger d5.contains(q)]
        #![trigger d4.contains(q)]
        d5.contains(q) <==> d4.contains(q) || q == n4 by {
        if d4.contains(q) {
            let i = choose|i: int| 0 <= i < d4.len() && d4[i] == q;
            assert(d5[i] == q);
            assert(d5.contains(q));
        }
        if q == n4 {
            if !d4.contains(n4) {
                assert(d5[d4.len() as int] == q);
            }
            assert(d5.contains(q));
        }
        if d5.contains(q) {
            let i = choose|i: int| 0 <= i < d5.len() && d5[i] == q;
            if d4.contains(n4) {
                assert(d4[i] == q);
                assert(d4.contains(q));
            } else if i < d4.len() {
                assert(d4[i] == q);
                assert(d4.contains(q));
            } else {
                assert(q == n4);
            }
        }
    }
    assert forall|q: Seq<Coord>|
        #![trigger d6.contains(q)]
        #![trigger d5.contains(q)]
        d6.contains(q) <==> d5.contains(q) || q == n5 by {
        if d5.contains(q) {
            let i = choose|i: int| 0 <= i < d5.len() && d5[i] == q;
            assert(d6[i] == q);
            assert(d6.contains(q));
        }
        if q == n5 {
            if !d5.contains(n5) {
                assert(d6[d5.len() as int] == q);
            }
            assert(d6.contains(q));
        }
        if d6.contains(q) {
            let i = choose|i: int| 0 <= i < d6.len() && d6[i] == q;
            if d5.contains(n5) {
                assert(d5[i] == q);
                assert(d5.contains(q));
            } else if i < d5.len() {
                assert(d5[i] == q);
                assert(d5.contains(q));
            } else {
                assert(q == n5);
            }
        }
    }
    assert forall|q: Seq<Coord>|
        #![trigger d7.contains(q)]
        #![trigger d6.contains(q)]
        d7.contains(q) <==> d6.contains(q) || q == n6 by {
        if d6.contains(q) {
            let i = choose|i: int| 0 <= i < d6.len() && d6[i] == q;
            assert(d7[i] == q);
            assert(d7.contains(q));
        }
        if q == n6 {
            if !d6.contains(n6) {
                assert(d7[d6.len() as int] == q);
            }
            assert(d7.contains(q));
        }
        if d7.contains(q) {
            let i = choose|i: int| 0 <= i < d7.len() && d7[i] == q;
            if d6.contains(n6) {
                assert(d6[i] == q);
                assert(d6.contains(q));
            } else if i < d6.len() {
                assert(d6[i] == q);
                assert(d6.contains(q));
            } else {
                assert(q == n6);
            }
        }
    }
    assert forall|q: Seq<Coord>|
        #![trigger d8.contains(q)]
        #![trigger d7.contains(q)]
        d8.contains(q) <==> d7.contains(q) || q == n7 by {
        if d7.contains(q) {
            let i = choose|i: int| 0 <= i < d7.len() && d7[i] == q;
            assert(d8[i] == q);
            assert(d8.contains(q));
        }
        if q == n7 {
            if !d7.contains(n7) {
                assert(d8[d7.len() as int] == q);
            }
            assert(d8.contains(q));
        }
        if d8.contains(q) {
            let i = choose|i: int| 0 <= i < d8.len() && d8[i] == q;
            if d7.contains(n7) {
                assert(d7[i] == q);
                assert(d7.contains(q));
            } else if i < d7.len() {
                assert(d7[i] == q);
                assert(d7.contains(q));
            } else {
                assert(q == n7);
            }
        }
    }
    // case analysis on which symmetries fix the shape's orientation
    if n5 == s {
        if n1 == s {
            assert(d8.len() == 1 || d8.len() == 2 || d8.len() == 4 || d8.len() == 8);
        } else {
            assert(d8.len() == 1 || d8.len() == 2 || d8.len() == 4 || d8.len() == 8);
        }
    } else if n6 == s {
        if n1 == s {
            assert(d8.len() == 1 || d8.len() == 2 || d8.len() == 4 || d8.len() == 8);
        } else if n3 == s {
            assert(d8.len() == 1 || d8.len() == 2 || d8.len() == 4 || d8.len() == 8);
        } else {
            assert(d8.len() == 1 || d8.len() == 2 || d8.len() == 4 || d8.len() == 8);
        }
    } else {
        if n1 == s {
            assert(d8.len() == 1 || d8.len() == 2 || d8.len() == 4 || d8.len() == 8);
        } else if n2 == s {
            assert(d8.len() == 1 || d8.len() == 2 || d8.len() == 4 || d8.len() == 8);
        } else if n3 == s {
            assert(d8.len() == 1 || d8.len() == 2 || d8.len() == 4 || d8.len() == 8);
        } else if n4 == s {
            assert(d8.len() == 1 || d8.len() == 2 || d8.len() == 4 || d8.len() == 8);
        } else {
            assert(d8.len() == 1 || d8.len() == 2 || d8.len() == 4 || d8.len() == 8);
        }
    }
}

/// Every pentomino's representative cell list is canonical.
pub proof fn lemma_rep_cells_normal(p: Pentomino)
    ensures
        is_normal(rep_cells(p)),
{
    let rc = rep_cells(p);
    match p {
        Pentomino::F => {
            assert(rc[0] == cell_at(0, 1));
            assert(rc[1] == cell_at(1, 0));
            assert(rc[2] == cell_at(1, 1));
            assert(rc[3] == cell_at(1, 2));
            assert(rc[4] == cell_at(2, 0));
            assert(is_normal(rc));
        }
        Pentomino::I => {
            assert(rc[0] == cell_at(0, 0));
            assert(rc[1] == cell_at(0, 1));
            assert(rc[2] == cell_at(0, 2));
            assert(rc[3] == cell_at(0, 3));
            assert(rc[4] == cell_at(0, 4));
            assert(is_normal(rc));
        }
        Pentomino::L => {
            assert(rc[0] == cell_at(0, 0));
            assert(rc[1] == cell_at(0, 1));
            assert(rc[2] == cell_at(0, 2));
            assert(rc[3] == cell_at(0, 3));
            assert(rc[4] == cell_at(1, 3));
            assert(is_normal(rc));
        }
        Pentomino::N => {
            assert(rc[0] == cell_at(0, 0));
            assert(rc[1] == cell_at(0, 1));
            assert(rc[2] == cell_at(1, 1));
            assert(rc[3] == cell_at(1, 2));
            assert(rc[4] == cell_at(1, 3));
            assert(is_normal(rc));
        }
        Pentomino::P => {
            assert(rc[0] == cell_at(0, 0));
            assert(rc[1] == cell_at(0, 1));
            assert(rc[2] == cell_at(0, 2));
            assert(rc[3] == cell_at(1, 0));
            assert(rc[4] == cell_at(1, 1));
            assert(is_normal(rc));
        }
        Pentomino::T => {
            assert(rc[0] == cell_at(0, 0));
            assert(rc[1] == cell_at(1, 0));
            assert(rc[2] == cell_at(1, 1));
            assert(rc[3] == cell_at(1, 2));
            assert(rc[4] == cell_at(2, 0));
            assert(is_normal(rc));
        }
        Pentomino::U => {
            assert(rc[0] == cell_at(0, 0));
            assert(rc[1] == cell_at(0, 1));
            assert(rc[2] == cell_at(1, 1));
            assert(rc[3] == cell_at(2, 0));
            assert(rc[4] == cell_at(2, 1));
            assert(is_normal(rc));
        }
        Pentomino::V => {
            assert(rc[0] == cell_at(0, 0));
            assert(rc[1] == cell_at(0, 1));
            assert(rc[2] == cell_at(0, 2));
            assert(rc[3] == cell_at(1, 2));
            assert(rc[4] == cell_at(2, 2));
            assert(is_normal(rc));
        }
        Pentomino::W => {
            assert(rc[0] == cell_at(0, 0));
            assert(rc[1] == cell_at(0, 1));
            assert(rc[2] == cell_at(1, 1));
            assert(rc[3] == cell_at(1, 2));
            assert(rc[4] == cell_at(2, 2));
            assert(is_normal(rc));
        }
        Pentomino::X => {
            assert(rc[0] == cell_at(0, 1));
            assert(rc[1] == cell_at(1, 0));
            assert(rc[2] == cell_at(1, 1));
            assert(rc[3] == cell_at(1, 2));
            assert(rc[4] == cell_at(2, 1));
            assert(is_normal(rc));
        }
        Pentomino::Y => {
            assert(rc[0] == cell_at(0, 0));
            assert(rc[1] == cell_at(0, 1));
            assert(rc[2] == cell_at(0, 2));
            assert(rc[3] == cell_at(0, 3));
            assert(rc[4] == cell_at(1, 1));
            assert(is_normal(rc));
        }
        Pentomino::Z => {
            assert(rc[0] == cell_at(0, 0));
            assert(rc[1] == cell_at(1, 0));
            assert(rc[2] == cell_at(1, 1));
            assert(rc[3] == cell_at(1, 2));
            assert(rc[4] == cell_at(2, 2));
            assert(is_normal(rc));
        }
    }
}

/// The number of distinct orientations of any pentomino divides 8.
pub proof fn lemma_pentomino_orientation_count_divides(p: Pentomino)
    ensures
        distinct_images(dihedral_group(), rep_cells(p)).len() == 1 || distinct_images(
            dihedral_group(),
            rep_cells(p),
        ).len() == 2 || distinct_images(dihedral_group(), rep_cells(p)).len() == 4
            || distinct_images(dihedral_group(), rep_cells(p)).len() == 8,
{
    lemma_rep_cells_normal(p);
    lemma_orbit_size_divides(rep_cells(p));
}

} // verus!

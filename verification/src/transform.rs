//! The rigid transform engine: the 8 origin-fixing symmetries of the integer
//! grid (the dihedral group of order 8), each an exact integer linear map,
//! with composition and application to whole shapes.

use vstd::prelude::*;

use crate::canon::has_cell;
use crate::canon::is_normal;
use crate::canon::is_normalization_of;
use crate::canon::is_shift_of;
use crate::canon::lemma_normalize_of_normal;
use crate::canon::lemma_normalize_translation_invariant;
use crate::canon::lemma_shift_sym;
use crate::canon::lemma_shift_trans;
use crate::canon::lemma_spec_normalize_is_normalization;
use crate::canon::spans_fit;
use crate::canon::spec_normalize;
use crate::cell_shape::CellShape;
use crate::coord::Coord;

verus! {

/// One rigid symmetry of the grid plane, held as the four entries of an
/// exact 2x2 integer matrix: a point `(x, y)` is carried to
/// `(xx*x + xy*y, yx*x + yy*y)`. The y-axis points downwards.
#[derive(Debug, Copy, Clone, PartialEq, Eq, Structural)]
#[verifier::ext_equal]
pub struct Transform {
    pub xx: isize,
    pub xy: isize,
    pub yx: isize,
    pub yy: isize,
}

/// The image of the x-coordinate under the linear map of `t`.
pub open spec fn map_x(t: Transform, x: int, y: int) -> int {
    t.xx * x + t.xy * y
}

/// The image of the y-coordinate under the linear map of `t`.
pub open spec fn map_y(t: Transform, x: int, y: int) -> int {
    t.yx * x + t.yy * y
}

/// The image of one cell under the linear map of `t`.
pub open spec fn transform_cell(t: Transform, c: Coord) -> Coord {
    Coord {
        x: map_x(t, c.x as int, c.y as int) as isize,
        y: map_y(t, c.x as int, c.y as int) as isize,
    }
}

/// The cells of `s`, each mapped through `t`, in order.
pub open spec fn transformed_cells(t: Transform, s: Seq<Coord>) -> Seq<Coord> {
    Seq::new(s.len(), |i: int| transform_cell(t, s[i]))
}

/// The matrix of the map that applies `a` first and then `b`.
pub open spec fn spec_compose(a: Transform, b: Transform) -> Transform {
    Transform {
        xx: (b.xx * a.xx + b.xy * a.yx) as isize,
        xy: (b.xx * a.xy + b.xy * a.yy) as isize,
        yx: (b.yx * a.xx + b.yy * a.yx) as isize,
        yy: (b.yx * a.xy + b.yy * a.yy) as isize,
    }
}

/// Multiplying by a unit factor keeps a value, negates it, or clears it.
proof fn lemma_unit_mul(a: int, x: int)
    requires
        a == -1 || a == 0 || a == 1,
    ensures
        a == 1 ==> a * x == x,
        a == -1 ==> a * x == -x,
        a == 0 ==> a * x == 0,
{
    assert(1 * x == x) by (nonlinear_arith);
    assert((-1) * x == -x) by (nonlinear_arith);
    assert(0 * x == 0) by (nonlinear_arith);
}

/// Evaluates the four entry products of a rigid symmetry: every matrix entry
/// is -1, 0 or 1, so each product keeps, negates or clears a coordinate.
pub proof fn lemma_map_products(t: Transform, x: int, y: int)
    requires
        t.wf(),
    ensures
        t.xx == 1 ==> t.xx * x == x,
        t.xx == -1 ==> t.xx * x == -x,
        t.xx == 0 ==> t.xx * x == 0,
        t.xy == 1 ==> t.xy * y == y,
        t.xy == -1 ==> t.xy * y == -y,
        t.xy == 0 ==> t.xy * y == 0,
        t.yx == 1 ==> t.yx * x == x,
        t.yx == -1 ==> t.yx * x == -x,
        t.yx == 0 ==> t.yx * x == 0,
        t.yy == 1 ==> t.yy * y == y,
        t.yy == -1 ==> t.yy * y == -y,
        t.yy == 0 ==> t.yy * y == 0,
{
    lemma_unit_mul(t.xx as int, x);
    lemma_unit_mul(t.xy as int, y);
    lemma_unit_mul(t.yx as int, x);
    lemma_unit_mul(t.yy as int, y);
}

impl Transform {
    /// The identity map.
    pub open spec fn spec_identity() -> Transform {
        Transform { xx: 1, xy: 0, yx: 0, yy: 1 }
    }

    /// Reflection over the vertical axis: `(x, y) -> (-x, y)`.
    pub open spec fn spec_mirror_horizontal() -> Transform {
        Transform { xx: -1isize, xy: 0, yx: 0, yy: 1 }
    }

    /// Reflection over the horizontal axis: `(x, y) -> (x, -y)`.
    pub open spec fn spec_mirror_vertical() -> Transform {
        Transform { xx: 1, xy: 0, yx: 0, yy: -1isize }
    }

    /// Reflection over the line y = x: `(x, y) -> (-y, -x)`.
    pub open spec fn spec_mirror_diagonal() -> Transform {
        Transform { xx: 0, xy: -1isize, yx: -1isize, yy: 0 }
    }

    /// Reflection over the line y = -x: `(x, y) -> (y, x)`.
    pub open spec fn spec_mirror_diagonal2() -> Transform {
        Transform { xx: 0, xy: 1, yx: 1, yy: 0 }
    }

    /// A quarter turn counter-clockwise: `(x, y) -> (y, -x)`.
    pub open spec fn spec_rotate90() -> Transform {
        Transform { xx: 0, xy: 1, yx: -1isize, yy: 0 }
    }

    /// A half turn: `(x, y) -> (-x, -y)`.
    pub open spec fn spec_rotate180() -> Transform {
        Transform { xx: -1isize, xy: 0, yx: 0, yy: -1isize }
    }

    /// A three-quarter turn counter-clockwise: `(x, y) -> (-y, x)`.
    pub open spec fn spec_rotate270() -> Transform {
        Transform { xx: 0, xy: -1isize, yx: 1, yy: 0 }
    }

    /// Whether this matrix is one of the 8 rigid symmetries of the grid.
    pub open spec fn wf(self) -> bool {
        ||| self == Self::spec_identity()
        ||| self == Self::spec_mirror_horizontal()
        ||| self == Self::spec_mirror_vertical()
        ||| self == Self::spec_mirror_diagonal()
        ||| self == Self::spec_mirror_diagonal2()
        ||| self == Self::spec_rotate90()
        ||| self == Self::spec_rotate180()
        ||| self == Self::spec_rotate270()
    }

    /// Preserves the original shape.
    pub fn identity() -> (r: Transform)
        ensures
            r == Self::spec_identity(),
            r.wf(),
    {
        Transform { xx: 1, xy: 0, yx: 0, yy: 1 }
    }

    /// Applies a reflection over the x axis.
    pub fn mirror_horizontal() -> (r: Transform)
        ensures
            r == Self::spec_mirror_horizontal(),
            r.wf(),
    {
        Transform { xx: -1, xy: 0, yx: 0, yy: 1 }
    }

    /// Applies a reflection over the y axis.
    pub fn mirror_vertical() -> (r: Transform)
        ensures
            r == Self::spec_mirror_vertical(),
            r.wf(),
    {
        Transform { xx: 1, xy: 0, yx: 0, yy: -1 }
    }

    /// Applies a reflection over the line y = x.
    pub fn mirror_diagonal() -> (r: Transform)
        ensures
            r == Self::spec_mirror_diagonal(),
            r.wf(),
    {
        Transform { xx: 0, xy: -1, yx: -1, yy: 0 }
    }

    /// Applies a reflection over the line y = -x.
    pub fn mirror_diagonal2() -> (r: Transform)
        ensures
            r == Self::spec_mirror_diagonal2(),
            r.wf(),
    {
        Transform { xx: 0, xy: 1, yx: 1, yy: 0 }
    }

    /// Applies one quarter turn, 90 degrees counter-clockwise about the
    /// origin; keep in mind that the positive y axis points downwards.
    pub fn rotate90() -> (r: Transform)
        ensures
            r == Self::spec_rotate90(),
            r.wf(),
    {
        Transform { xx: 0, xy: 1, yx: -1, yy: 0 }
    }

    /// Applies one half turn, 180 degrees about the origin.
    pub fn rotate180() -> (r: Transform)
        ensures
            r == Self::spec_rotate180(),
            r.wf(),
    {
        Transform { xx: -1, xy: 0, yx: 0, yy: -1 }
    }

    /// Applies a three-quarter turn, 270 degrees counter-clockwise about the
    /// origin.
    pub fn rotate270() -> (r: Transform)
        ensures
            r == Self::spec_rotate270(),
            r.wf(),
    {
        Transform { xx: 0, xy: -1, yx: 1, yy: 0 }
    }

    /// Applies the transform to a coordinate point.
    pub fn transform_coord(self, coord: Coord) -> (r: Coord)
        requires
            self.wf(),
            coord.x > isize::MIN,
            coord.y > isize::MIN,
        ensures
            r.x == map_x(self, coord.x as int, coord.y as int),
            r.y == map_y(self, coord.x as int, coord.y as int),
            r == transform_cell(self, coord),
    {
        proof {
            lemma_map_products(self, coord.x as int, coord.y as int);
        }
        let r = Coord {
            x: self.xx * coord.x + self.xy * coord.y,
            y: self.yx * coord.x + self.yy * coord.y,
        };
        proof {
            assert(r =~= transform_cell(self, coord));
        }
        r
    }

    /// Composes two symmetries: the result applies `self` first, then `rhs`.
    /// The result is again one of the 8 rigid symmetries (group closure).
    pub fn compose(self, rhs: Transform) -> (r: Transform)
        requires
            self.wf(),
            rhs.wf(),
        ensures
            r == spec_compose(self, rhs),
            r.wf(),
    {
        proof {
            lemma_map_products(rhs, self.xx as int, self.xy as int);
            lemma_map_products(rhs, self.yx as int, self.yy as int);
            lemma_unit_mul(rhs.xx as int, self.xy as int);
            lemma_unit_mul(rhs.xy as int, self.yy as int);
            lemma_unit_mul(rhs.yx as int, self.xy as int);
            lemma_unit_mul(rhs.yy as int, self.yy as int);
            lemma_unit_mul(rhs.xx as int, self.xx as int);
            lemma_unit_mul(rhs.xy as int, self.yx as int);
            lemma_unit_mul(rhs.yx as int, self.xx as int);
            lemma_unit_mul(rhs.yy as int, self.yx as int);
        }
        let r = Transform {
            xx: rhs.xx * self.xx + rhs.xy * self.yx,
            xy: rhs.xx * self.xy + rhs.xy * self.yy,
            yx: rhs.yx * self.xx + rhs.yy * self.yx,
            yy: rhs.yx * self.xy + rhs.yy * self.yy,
        };
        proof {
            assert(r =~= spec_compose(self, rhs));
        }
        r
    }

    /// Applies the transform to every filled cell of the shape and
    /// renormalizes the result; renormalization is needed because a rotation
    /// or reflection generally moves the bounding box away from the origin.
    pub fn transform_shape(self, cell_shape: &CellShape) -> (r: CellShape)
        requires
            self.wf(),
            cell_shape.wf(),
        ensures
            r.wf(),
            is_normalization_of(r@, transformed_cells(self, cell_shape@)),
            r@ == spec_normalize(transformed_cells(self, cell_shape@)),
    {
        let tiles = cell_shape.filled_tiles();
        let mut mapped: Vec<Coord> = Vec::new();
        let mut i: usize = 0;
        while i < tiles.len()
            invariant
                0 <= i <= tiles@.len(),
                tiles@ == cell_shape@,
                self.wf(),
                cell_shape.wf(),
                mapped@.len() == i,
                forall|j: int|
                    0 <= j < i ==> #[trigger] mapped@[j] == transform_cell(self, tiles@[j]),
            decreases tiles@.len() - i,
        {
            let c = tiles[i];
            proof {
                assert(cell_shape@[i as int].x >= 0 && cell_shape@[i as int].y >= 0);
            }
            mapped.push(self.transform_coord(c));
            i += 1;
        }
        proof {
            assert(mapped@ =~= transformed_cells(self, cell_shape@));
            lemma_transformed_spans_fit(self, cell_shape@);
        }
        CellShape::from_coordinate_list(mapped)
    }
}

/// Mapping a list of nonnegative cells through a rigid symmetry keeps every
/// pairwise coordinate difference within `isize`.
pub proof fn lemma_transformed_spans_fit(t: Transform, s: Seq<Coord>)
    requires
        t.wf(),
        forall|i: int| 0 <= i < s.len() ==> (#[trigger] s[i]).x >= 0 && s[i].y >= 0,
    ensures
        spans_fit(transformed_cells(t, s)),
{
    let m = transformed_cells(t, s);
    assert forall|i: int, j: int|
        #![trigger m[i], m[j]]
        0 <= i < m.len() && 0 <= j < m.len() implies m[i].x - m[j].x <= isize::MAX && m[i].y
        - m[j].y <= isize::MAX by {
        lemma_map_products(t, s[i].x as int, s[i].y as int);
        lemma_map_products(t, s[j].x as int, s[j].y as int);
        assert(m[i] == transform_cell(t, s[i]));
        assert(m[j] == transform_cell(t, s[j]));
    }
}

/// The 8 rigid symmetries, in a fixed order: the identity, the four
/// reflections, then the three rotations.
pub open spec fn dihedral_group() -> Seq<Transform> {
    seq![
        Transform::spec_identity(),
        Transform::spec_mirror_horizontal(),
        Transform::spec_mirror_vertical(),
        Transform::spec_mirror_diagonal(),
        Transform::spec_mirror_diagonal2(),
        Transform::spec_rotate90(),
        Transform::spec_rotate180(),
        Transform::spec_rotate270(),
    ]
}

/// Every element of the fixed symmetry list is one of the 8 rigid
/// symmetries, and the list is exactly 8 long.
pub proof fn lemma_dihedral_group_wf()
    ensures
        dihedral_group().len() == 8,
        forall|i: int| 0 <= i < 8 ==> (#[trigger] dihedral_group()[i]).wf(),
{
    assert forall|i: int| 0 <= i < 8 implies (#[trigger] dihedral_group()[i]).wf() by {
        if i == 0 {
            assert(dihedral_group()[0] == Transform::spec_identity());
        } else if i == 1 {
            assert(dihedral_group()[1] == Transform::spec_mirror_horizontal());
        } else if i == 2 {
            assert(dihedral_group()[2] == Transform::spec_mirror_vertical());
        } else if i == 3 {
            assert(dihedral_group()[3] == Transform::spec_mirror_diagonal());
        } else if i == 4 {
            assert(dihedral_group()[4] == Transform::spec_mirror_diagonal2());
        } else if i == 5 {
            assert(dihedral_group()[5] == Transform::spec_rotate90());
        } else if i == 6 {
            assert(dihedral_group()[6] == Transform::spec_rotate180());
        } else {
            assert(dihedral_group()[7] == Transform::spec_rotate270());
        }
    }
}

/// The 8 rigid symmetries of the grid as a list of values.
pub fn rigid_symmetries() -> (r: Vec<Transform>)
    ensures
        r@ == dihedral_group(),
        r@.len() == 8,
        forall|i: int| 0 <= i < r@.len() ==> (#[trigger] r@[i]).wf(),
{
    let mut v: Vec<Transform> = Vec::new();
    v.push(Transform::identity());
    v.push(Transform::mirror_horizontal());
    v.push(Transform::mirror_vertical());
    v.push(Transform::mirror_diagonal());
    v.push(Transform::mirror_diagonal2());
    v.push(Transform::rotate90());
    v.push(Transform::rotate180());
    v.push(Transform::rotate270());
    proof {
        assert(v@ =~= dihedral_group());
        lemma_dihedral_group_wf();
    }
    v
}

/// Four quarter turns compose to the identity.
pub proof fn lemma_rotate_four_times_is_identity()
    ensures
        spec_compose(
            spec_compose(
                spec_compose(Transform::spec_rotate90(), Transform::spec_rotate90()),
                Transform::spec_rotate90(),
            ),
            Transform::spec_rotate90(),
        ) == Transform::spec_identity(),
{
    assert(spec_compose(
        spec_compose(
            spec_compose(Transform::spec_rotate90(), Transform::spec_rotate90()),
            Transform::spec_rotate90(),
        ),
        Transform::spec_rotate90(),
    ) =~= Transform::spec_identity());
}

/// Reflecting twice over the x axis restores the identity.
pub proof fn lemma_mirror_horizontal_twice_is_identity()
    ensures
        spec_compose(Transform::spec_mirror_horizontal(), Transform::spec_mirror_horizontal())
            == Transform::spec_identity(),
{
    assert(spec_compose(Transform::spec_mirror_horizontal(), Transform::spec_mirror_horizontal())
        =~= Transform::spec_identity());
}

/// The y-axis reflection equals two quarter turns followed by the x-axis
/// reflection.
pub proof fn lemma_mirror_vertical_is_rrh()
    ensures
        spec_compose(
            spec_compose(Transform::spec_rotate90(), Transform::spec_rotate90()),
            Transform::spec_mirror_horizontal(),
        ) == Transform::spec_mirror_vertical(),
{
    assert(spec_compose(
        spec_compose(Transform::spec_rotate90(), Transform::spec_rotate90()),
        Transform::spec_mirror_horizontal(),
    ) =~= Transform::spec_mirror_vertical());
}

/// The diagonal reflection equals a quarter turn followed by the x-axis
/// reflection.
pub proof fn lemma_mirror_diagonal_is_rh()
    ensures
        spec_compose(Transform::spec_rotate90(), Transform::spec_mirror_horizontal())
            == Transform::spec_mirror_diagonal(),
{
    assert(spec_compose(Transform::spec_rotate90(), Transform::spec_mirror_horizontal())
        =~= Transform::spec_mirror_diagonal());
}

/// The linear map distributes over displaced coordinates.
proof fn lemma_map_linear(t: Transform, p: int, q: int, dx: int, dy: int)
    ensures
        map_x(t, p + dx, q + dy) == map_x(t, p, q) + map_x(t, dx, dy),
        map_y(t, p + dx, q + dy) == map_y(t, p, q) + map_y(t, dx, dy),
{
    assert(t.xx * (p + dx) == t.xx * p + t.xx * dx) by (nonlinear_arith);
    assert(t.xy * (q + dy) == t.xy * q + t.xy * dy) by (nonlinear_arith);
    assert(t.yx * (p + dx) == t.yx * p + t.yx * dx) by (nonlinear_arith);
    assert(t.yy * (q + dy) == t.yy * q + t.yy * dy) by (nonlinear_arith);
}

/// The composition of two rigid symmetries is a rigid symmetry.
pub proof fn lemma_compose_wf(t1: Transform, t2: Transform)
    ensures
        t1.wf() && t2.wf() ==> spec_compose(t1, t2).wf(),
{
    if t1.wf() && t2.wf() {
        lemma_unit_mul(t2.xx as int, t1.xx as int);
        lemma_unit_mul(t2.xy as int, t1.yx as int);
        lemma_unit_mul(t2.xx as int, t1.xy as int);
        lemma_unit_mul(t2.xy as int, t1.yy as int);
        lemma_unit_mul(t2.yx as int, t1.xx as int);
        lemma_unit_mul(t2.yy as int, t1.yx as int);
        lemma_unit_mul(t2.yx as int, t1.xy as int);
        lemma_unit_mul(t2.yy as int, t1.yy as int);
        assert(spec_compose(t1, t2).wf());
    }
}

/// Applying `t1` and then `t2` to a cell equals applying their composition.
pub proof fn lemma_compose_cell(t1: Transform, t2: Transform, c: Coord)
    requires
        t1.wf(),
        t2.wf(),
        c.x > isize::MIN,
        c.y > isize::MIN,
    ensures
        transform_cell(t2, transform_cell(t1, c)) == transform_cell(spec_compose(t1, t2), c),
        spec_compose(t1, t2).wf(),
{
    lemma_compose_wf(t1, t2);
    let x = c.x as int;
    let y = c.y as int;
    lemma_map_products(t1, x, y);
    let m = transform_cell(t1, c);
    assert(m.x == map_x(t1, x, y) && m.y == map_y(t1, x, y));
    lemma_map_products(t2, m.x as int, m.y as int);
    lemma_unit_mul(t2.xx as int, t1.xx as int);
    lemma_unit_mul(t2.xy as int, t1.yx as int);
    lemma_unit_mul(t2.xx as int, t1.xy as int);
    lemma_unit_mul(t2.xy as int, t1.yy as int);
    lemma_unit_mul(t2.yx as int, t1.xx as int);
    lemma_unit_mul(t2.yy as int, t1.yx as int);
    lemma_unit_mul(t2.yx as int, t1.xy as int);
    lemma_unit_mul(t2.yy as int, t1.yy as int);
    let cm = spec_compose(t1, t2);
    lemma_map_products(cm, x, y);
    assert(transform_cell(t2, m) =~= transform_cell(cm, c));
}

/// A rigid symmetry carries translated cell lists to translated cell lists,
/// displaced by the mapped displacement.
pub proof fn lemma_transformed_shift(t: Transform, a: Seq<Coord>, b: Seq<Coord>, dx: int, dy: int)
    requires
        t.wf(),
        forall|i: int|
            0 <= i < a.len() ==> (#[trigger] a[i]).x > isize::MIN && a[i].y > isize::MIN,
        forall|i: int|
            0 <= i < b.len() ==> (#[trigger] b[i]).x > isize::MIN && b[i].y > isize::MIN,
        is_shift_of(a, b, dx, dy),
    ensures
        is_shift_of(
            transformed_cells(t, a),
            transformed_cells(t, b),
            map_x(t, dx, dy),
            map_y(t, dx, dy),
        ),
{
    let ta = transformed_cells(t, a);
    let tb = transformed_cells(t, b);
    let ddx = map_x(t, dx, dy);
    let ddy = map_y(t, dx, dy);
    assert forall|x: int, y: int| #![trigger has_cell(tb, x, y)]
        has_cell(ta, x + ddx, y + ddy) <==> has_cell(tb, x, y) by {
        if has_cell(tb, x, y) {
            let i = choose|i: int| 0 <= i < tb.len() && (#[trigger] tb[i]).x == x && tb[i].y == y;
            assert(tb[i] == transform_cell(t, b[i]));
            lemma_map_products(t, b[i].x as int, b[i].y as int);
            assert(x == map_x(t, b[i].x as int, b[i].y as int));
            assert(y == map_y(t, b[i].x as int, b[i].y as int));
            assert(has_cell(b, b[i].x as int, b[i].y as int));
            assert(has_cell(a, b[i].x + dx, b[i].y + dy));
            let j = choose|j: int|
                0 <= j < a.len() && (#[trigger] a[j]).x == b[i].x + dx && a[j].y == b[i].y + dy;
            lemma_map_products(t, a[j].x as int, a[j].y as int);
            lemma_map_linear(t, b[i].x as int, b[i].y as int, dx, dy);
            assert(ta[j] == transform_cell(t, a[j]));
            assert(ta[j].x == x + ddx && ta[j].y == y + ddy);
            assert(has_cell(ta, x + ddx, y + ddy));
        }
        if has_cell(ta, x + ddx, y + ddy) {
            let j = choose|j: int|
                0 <= j < ta.len() && (#[trigger] ta[j]).x == x + ddx && ta[j].y == y + ddy;
            assert(ta[j] == transform_cell(t, a[j]));
            lemma_map_products(t, a[j].x as int, a[j].y as int);
            assert(has_cell(a, a[j].x as int, a[j].y as int));
            assert(has_cell(a, (a[j].x - dx) + dx, (a[j].y - dy) + dy) <==> has_cell(
                b,
                a[j].x - dx,
                a[j].y - dy,
            ));
            let i = choose|i: int|
                0 <= i < b.len() && (#[trigger] b[i]).x == a[j].x - dx && b[i].y == a[j].y - dy;
            lemma_map_products(t, b[i].x as int, b[i].y as int);
            lemma_map_linear(t, b[i].x as int, b[i].y as int, dx, dy);
            assert(tb[i] == transform_cell(t, b[i]));
            assert(tb[i].x == x && tb[i].y == y);
            assert(has_cell(tb, x, y));
        }
    }
}

/// Two symmetries orient a canonical shape identically exactly when the
/// difference symmetry `a` composed with the inverse of `b` fixes it.
pub proof fn lemma_image_eq(a: Transform, b: Transform, binv: Transform, s: Seq<Coord>)
    requires
        a.wf(),
        b.wf(),
        binv.wf(),
        is_normal(s),
        spec_compose(b, binv) == Transform::spec_identity(),
        spec_compose(binv, b) == Transform::spec_identity(),
    ensures
        (spec_normalize(transformed_cells(a, s)) == spec_normalize(transformed_cells(b, s)))
            <==> (spec_normalize(transformed_cells(spec_compose(a, binv), s)) == s),
{
    lemma_compose_wf(a, binv);
    let c = spec_compose(a, binv);
    let ta = transformed_cells(a, s);
    let tb = transformed_cells(b, s);
    let tc = transformed_cells(c, s);
    assert(spans_fit(s));
    lemma_transformed_spans_fit(a, s);
    lemma_transformed_spans_fit(b, s);
    lemma_transformed_spans_fit(c, s);
    lemma_normalize_of_normal(s);
    // every mapped cell keeps both coordinates above the minimum
    assert forall|i: int| 0 <= i < ta.len() implies (#[trigger] ta[i]).x > isize::MIN && ta[i].y
        > isize::MIN by {
        lemma_map_products(a, s[i].x as int, s[i].y as int);
        assert(ta[i] == transform_cell(a, s[i]));
    }
    assert forall|i: int| 0 <= i < tb.len() implies (#[trigger] tb[i]).x > isize::MIN && tb[i].y
        > isize::MIN by {
        lemma_map_products(b, s[i].x as int, s[i].y as int);
        assert(tb[i] == transform_cell(b, s[i]));
    }
    assert forall|i: int| 0 <= i < tc.len() implies (#[trigger] tc[i]).x > isize::MIN && tc[i].y
        > isize::MIN by {
        lemma_map_products(c, s[i].x as int, s[i].y as int);
        assert(tc[i] == transform_cell(c, s[i]));
    }
    assert forall|i: int| 0 <= i < s.len() implies (#[trigger] s[i]).x > isize::MIN && s[i].y
        > isize::MIN by {
    }
    // applying the inverse of b after a equals applying the difference
    assert forall|i: int| 0 <= i < s.len() implies #[trigger] transformed_cells(binv, ta)[i]
        == tc[i] by {
        lemma_compose_cell(a, binv, s[i]);
        assert(ta[i] == transform_cell(a, s[i]));
        assert(transformed_cells(binv, ta)[i] == transform_cell(binv, transform_cell(a, s[i])));
    }
    assert(transformed_cells(binv, ta) =~= tc);
    // applying the inverse of b after b restores the shape
    assert forall|i: int| 0 <= i < s.len() implies #[trigger] transformed_cells(binv, tb)[i]
        == s[i] by {
        lemma_compose_cell(b, binv, s[i]);
        lemma_map_products(Transform::spec_identity(), s[i].x as int, s[i].y as int);
        assert(tb[i] == transform_cell(b, s[i]));
        assert(transformed_cells(binv, tb)[i] == transform_cell(
            Transform::spec_identity(),
            s[i],
        ));
        assert(transform_cell(Transform::spec_identity(), s[i]) =~= s[i]);
    }
    assert(transformed_cells(binv, tb) =~= s);
    // and applying b after the difference restores the image under a
    assert forall|i: int| 0 <= i < s.len() implies #[trigger] transformed_cells(b, tc)[i]
        == ta[i] by {
        lemma_compose_cell(binv, b, ta[i]);
        lemma_map_products(Transform::spec_identity(), ta[i].x as int, ta[i].y as int);
        assert(tc[i] == transform_cell(binv, ta[i]));
        assert(transformed_cells(b, tc)[i] == transform_cell(b, transform_cell(binv, ta[i])));
        assert(transform_cell(b, transform_cell(binv, ta[i])) == transform_cell(
            spec_compose(binv, b),
            ta[i],
        ));
        assert(transform_cell(Transform::spec_identity(), ta[i]) =~= ta[i]);
    }
    assert(transformed_cells(b, tc) =~= ta);
    lemma_spec_normalize_is_normalization(ta);
    lemma_spec_normalize_is_normalization(tb);
    lemma_spec_normalize_is_normalization(tc);
    if spec_normalize(ta) == spec_normalize(tb) {
        let (e1x, e1y) = choose|dx: int, dy: int| is_shift_of(spec_normalize(ta), ta, dx, dy);
        let (e2x, e2y) = choose|dx: int, dy: int| is_shift_of(spec_normalize(tb), tb, dx, dy);
        lemma_shift_sym(spec_normalize(ta), ta, e1x, e1y);
        lemma_shift_trans(ta, spec_normalize(ta), tb, -e1x, -e1y, e2x, e2y);
        lemma_transformed_shift(binv, ta, tb, -e1x + e2x, -e1y + e2y);
        assert(is_shift_of(
            tc,
            s,
            map_x(binv, -e1x + e2x, -e1y + e2y),
            map_y(binv, -e1x + e2x, -e1y + e2y),
        ));
        lemma_normalize_translation_invariant(
            s,
            tc,
            map_x(binv, -e1x + e2x, -e1y + e2y),
            map_y(binv, -e1x + e2x, -e1y + e2y),
        );
        assert(spec_normalize(tc) == s);
    }
    if spec_normalize(tc) == s {
        let (e3x, e3y) = choose|dx: int, dy: int| is_shift_of(spec_normalize(tc), tc, dx, dy);
        assert(is_shift_of(s, tc, e3x, e3y));
        lemma_transformed_shift(b, s, tc, e3x, e3y);
        assert(is_shift_of(tb, ta, map_x(b, e3x, e3y), map_y(b, e3x, e3y)));
        lemma_shift_sym(tb, ta, map_x(b, e3x, e3y), map_y(b, e3x, e3y));
        lemma_normalize_translation_invariant(
            tb,
            ta,
            -map_x(b, e3x, e3y),
            -map_y(b, e3x, e3y),
        );
        assert(spec_normalize(ta) == spec_normalize(tb));
    }
}

/// Applying the identity map to a canonical shape returns it unchanged.
pub proof fn lemma_identity_transform_shape(s: Seq<Coord>)
    requires
        is_normal(s),
    ensures
        spec_normalize(transformed_cells(Transform::spec_identity(), s)) == s,
{
    assert forall|i: int| 0 <= i < s.len() implies #[trigger] transformed_cells(
        Transform::spec_identity(),
        s,
    )[i] == s[i] by {
        lemma_map_products(Transform::spec_identity(), s[i].x as int, s[i].y as int);
        assert(transform_cell(Transform::spec_identity(), s[i]) =~= s[i]);
    }
    assert(transformed_cells(Transform::spec_identity(), s) =~= s);
    lemma_normalize_of_normal(s);
}

} // verus!

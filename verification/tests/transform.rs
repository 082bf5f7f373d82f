use pentomino::cell_shape::CellShape;
use pentomino::cell_shape::Tile;
use pentomino::coord::Coord;
use pentomino::transform::Transform;

#[test]
fn identity_transform_coord() {
    let t = Transform::identity();

    assert_eq!(t.transform_coord(Coord::new(-2, 3)), Coord::new(-2, 3));
    assert_eq!(t.transform_coord(Coord::new(-10, 1)), Coord::new(-10, 1));
    assert_eq!(t.transform_coord(Coord::new(7, 0)), Coord::new(7, 0));
    assert_eq!(t.transform_coord(Coord::new(0, 6)), Coord::new(0, 6));
}

#[test]
fn identity_transform_shape() {
    let e = Tile::Empty;
    let f = Tile::Filled;
    let t = Transform::identity();

    let before = CellShape::from_2darray([
        [e, f, e],
        [e, f, e],
        [e, f, f],
        [f, f, e],
    ]);

    let after = before.clone(); // in this case

    assert_eq!(t.transform_shape(&before), after);
}

// ====================
//   REFLECTIONS
// ====================

#[test]
fn mirror_horizontal_transform_coord() {
    let t = Transform::mirror_horizontal();

    assert_eq!(t.transform_coord(Coord::new(0, 0)), Coord::new(0, 0));
    assert_eq!(t.transform_coord(Coord::new(1, 0)), Coord::new(-1, 0));
    assert_eq!(t.transform_coord(Coord::new(0, 1)), Coord::new(0, 1));

    assert_eq!(t.transform_coord(Coord::new(-2, 3)), Coord::new(2, 3));
    assert_eq!(t.transform_coord(Coord::new(-10, 1)), Coord::new(10, 1));
    assert_eq!(t.transform_coord(Coord::new(7, 0)), Coord::new(-7, 0));
    assert_eq!(t.transform_coord(Coord::new(0, 6)), Coord::new(0, 6));
}

#[test]
fn mirror_horizontal_transform_shape() {
    let e = Tile::Empty;
    let f = Tile::Filled;
    let t = Transform::mirror_horizontal();

    let before = CellShape::from_2darray([
        [e, f, e],
        [e, f, e],
        [e, f, f],
        [f, f, e],
    ]);

    let after = CellShape::from_2darray([
        [e, f, e],
        [e, f, e],
        [f, f, e],
        [e, f, f],
    ]);

    assert_eq!(t.transform_shape(&before), after);
}

#[test]
fn mirror_vertical_transform_coord() {
    let t = Transform::mirror_vertical();

    assert_eq!(t.transform_coord(Coord::new(0, 0)), Coord::new(0, 0));
    assert_eq!(t.transform_coord(Coord::new(1, 0)), Coord::new(1, 0));
    assert_eq!(t.transform_coord(Coord::new(0, 1)), Coord::new(0, -1));

    assert_eq!(t.transform_coord(Coord::new(-2, 3)), Coord::new(-2, -3));
    assert_eq!(t.transform_coord(Coord::new(-10, 1)), Coord::new(-10, -1));
    assert_eq!(t.transform_coord(Coord::new(7, 0)), Coord::new(7, 0));
    assert_eq!(t.transform_coord(Coord::new(0, 6)), Coord::new(0, -6));
}

#[test]
fn mirror_vertical_transform_shape() {
    let e = Tile::Empty;
    let f = Tile::Filled;
    let t = Transform::mirror_vertical();

    let before = CellShape::from_2darray([
        [e, f, e],
        [e, f, e],
        [e, f, f],
        [f, f, e],
    ]);

    let after = CellShape::from_2darray([
        [f, f, e],
        [e, f, f],
        [e, f, e],
        [e, f, e],
    ]);

    assert_eq!(t.transform_shape(&before), after);
}

#[test]
fn mirror_diagonal_transform_coord() {
    let t = Transform::mirror_diagonal();

    assert_eq!(t.transform_coord(Coord::new(0, 0)), Coord::new(0, 0));
    assert_eq!(t.transform_coord(Coord::new(1, 0)), Coord::new(0, -1));
    assert_eq!(t.transform_coord(Coord::new(0, 1)), Coord::new(-1, 0));
}

#[test]
fn mirror_diagonal_transform_shape() {
    let e = Tile::Empty;
    let f = Tile::Filled;
    let t = Transform::mirror_diagonal();

    let before = CellShape::from_2darray([
        [e, f, e],
        [e, f, e],
        [e, f, f],
        [f, f, e],
    ]);

    let after = CellShape::from_2darray([
        [e, f, e, e],
        [f, f, f, f],
        [f, e, e, e],
    ]);

    assert_eq!(t.transform_shape(&before), after);
}

#[test]
fn mirror_diagonal2_transform_coord() {
    let t = Transform::mirror_diagonal2();

    assert_eq!(t.transform_coord(Coord::new(0, 0)), Coord::new(0, 0));
    assert_eq!(t.transform_coord(Coord::new(1, 0)), Coord::new(0, 1));
    assert_eq!(t.transform_coord(Coord::new(0, 1)), Coord::new(1, 0));
}

#[test]
fn mirror_diagonal2_transform_shape() {
    let e = Tile::Empty;
    let f = Tile::Filled;
    let t = Transform::mirror_diagonal2();

    let before = CellShape::from_2darray([
        [e, f, e],
        [e, f, e],
        [e, f, f],
        [f, f, e],
    ]);

    let after = CellShape::from_2darray([
        [e, e, e, f],
        [f, f, f, f],
        [e, e, f, e],
    ]);

    assert_eq!(t.transform_shape(&before), after);
}

// ======================
//    ROTATIONS
// ======================

#[test]
fn rotate90_transform_coord() {
    let t = Transform::rotate90();

    assert_eq!(t.transform_coord(Coord::new(0, 0)), Coord::new(0, 0));
    assert_eq!(t.transform_coord(Coord::new(0, 1)), Coord::new(1, 0));
    assert_eq!(t.transform_coord(Coord::new(1, 0)), Coord::new(0, -1));
}

#[test]
fn rotate90_transform_shape() {
    let e = Tile::Empty;
    let f = Tile::Filled;
    let t = Transform::rotate90();

    let before = CellShape::from_2darray([
        [e, f, e],
        [e, f, e],
        [e, f, f],
        [f, f, e],
    ]);

    let after = CellShape::from_2darray([
        [e, e, f, e],
        [f, f, f, f],
        [e, e, e, f],
    ]);

    assert_eq!(t.transform_shape(&before), after);
}

#[test]
fn rotate180_transform_coord() {
    let t = Transform::rotate180();

    assert_eq!(t.transform_coord(Coord::new(0, 0)), Coord::new(0, 0));
    assert_eq!(t.transform_coord(Coord::new(1, 0)), Coord::new(-1, 0));
    assert_eq!(t.transform_coord(Coord::new(0, 1)), Coord::new(0, -1));

    assert_eq!(t.transform_coord(Coord::new(-2, 3)), Coord::new(2, -3));
    assert_eq!(t.transform_coord(Coord::new(-10, 1)), Coord::new(10, -1));
    assert_eq!(t.transform_coord(Coord::new(7, 0)), Coord::new(-7, 0));
    assert_eq!(t.transform_coord(Coord::new(0, 6)), Coord::new(0, -6));
}

#[test]
fn rotate180_transform_shape() {
    let e = Tile::Empty;
    let f = Tile::Filled;
    let t = Transform::rotate180();

    let before = CellShape::from_2darray([
        [e, f, e],
        [e, f, e],
        [e, f, f],
        [f, f, e],
    ]);

    let after = CellShape::from_2darray([
        [e, f, f],
        [f, f, e],
        [e, f, e],
        [e, f, e],
    ]);

    assert_eq!(t.transform_shape(&before), after);
}

#[test]
fn rotate270_transform_coord() {
    let t = Transform::rotate270();

    assert_eq!(t.transform_coord(Coord::new(0, 0)), Coord::new(0, 0));
    assert_eq!(t.transform_coord(Coord::new(1, 0)), Coord::new(0, 1));
    assert_eq!(t.transform_coord(Coord::new(0, 1)), Coord::new(-1, 0));
}

#[test]
fn rotate270_transform_shape() {
    let e = Tile::Empty;
    let f = Tile::Filled;
    let t = Transform::rotate270();

    let before = CellShape::from_2darray([
        [e, f, e],
        [e, f, e],
        [e, f, f],
        [f, f, e],
    ]);

    let after = CellShape::from_2darray([
        [f, e, e, e],
        [f, f, f, f],
        [e, f, e, e],
    ]);

    assert_eq!(t.transform_shape(&before), after);
}

// ==============================
//     group relationships
// ==============================

#[test]
fn mirror_vertical_is_rrh() {
    let r = Transform::rotate90();
    let h = Transform::mirror_horizontal();
    assert_eq!(Transform::mirror_vertical(), r.compose(r).compose(h))
}

#[test]
fn mirror_diagonal_is_rh() {
    let r = Transform::rotate90();
    let h = Transform::mirror_horizontal();
    assert_eq!(Transform::mirror_diagonal(), r.compose(h))
}

#[test]
fn mirror_diagonal2_is_rrrh() {
    let r = Transform::rotate90();
    let h = Transform::mirror_horizontal();
    assert_eq!(Transform::mirror_diagonal2(), r.compose(r).compose(r).compose(h))
}

#[test]
fn rotate180_is_rr() {
    let r = Transform::rotate90();
    assert_eq!(Transform::rotate180(), r.compose(r));
}

#[test]
fn rotate270_is_rrr() {
    let r = Transform::rotate90();
    assert_eq!(Transform::rotate270(), r.compose(r).compose(r));
}

#[test]
fn identity_is_rrrr() {
    let r = Transform::rotate90();
    assert_eq!(Transform::identity(), r.compose(r).compose(r).compose(r));
}

#[test]
fn identity_is_hh() {
    let h = Transform::mirror_horizontal();
    assert_eq!(Transform::identity(), h.compose(h));
}

#[test]
fn group_closure() {
    let all = pentomino::transform::rigid_symmetries();
    for a in &all {
        for b in &all {
            let c = a.compose(*b);
            assert!(all.iter().any(|t| *t == c));
        }
    }
}

use pentomino::cell_shape::CellShape;
use pentomino::cell_shape::Tile;
use pentomino::coord::Coord;

#[test]
fn cell_shape_it_works() {
    let e = Tile::Empty;
    let f = Tile::Filled;

    let tg = CellShape::from_2darray([
        [e, e, f],
        [e, f, f],
        [f, e, f],
    ]);

    assert_eq!(tg.tile_at(Coord { x: -1, y: 0 }), Tile::Empty);
    assert_eq!(tg.tile_at(Coord { x: -1, y: 1 }), Tile::Empty);
    assert_eq!(tg.tile_at(Coord { x: -1, y: 2 }), Tile::Empty);

    assert_eq!(tg.tile_at(Coord { x: 0, y: -1 }), Tile::Empty);
    assert_eq!(tg.tile_at(Coord { x: 1, y: -1 }), Tile::Empty);
    assert_eq!(tg.tile_at(Coord { x: 2, y: -1 }), Tile::Empty);

    assert_eq!(tg.tile_at(Coord { x: 0, y: 0 }), Tile::Empty);
    assert_eq!(tg.tile_at(Coord { x: 1, y: 0 }), Tile::Empty);
    assert_eq!(tg.tile_at(Coord { x: 2, y: 0 }), Tile::Filled);

    assert_eq!(tg.tile_at(Coord { x: 0, y: 1 }), Tile::Empty);
    assert_eq!(tg.tile_at(Coord { x: 1, y: 1 }), Tile::Filled);
    assert_eq!(tg.tile_at(Coord { x: 2, y: 1 }), Tile::Filled);

    assert_eq!(tg.tile_at(Coord { x: 0, y: 2 }), Tile::Filled);
    assert_eq!(tg.tile_at(Coord { x: 1, y: 2 }), Tile::Empty);
    assert_eq!(tg.tile_at(Coord { x: 2, y: 2 }), Tile::Filled);

    assert_eq!(tg.tile_at(Coord { x: 0, y: 3 }), Tile::Empty);
    assert_eq!(tg.tile_at(Coord { x: 1, y: 3 }), Tile::Empty);
    assert_eq!(tg.tile_at(Coord { x: 2, y: 3 }), Tile::Empty);

    assert_eq!(tg.tile_at(Coord { x: 3, y: 0 }), Tile::Empty);
    assert_eq!(tg.tile_at(Coord { x: 3, y: 1 }), Tile::Empty);
    assert_eq!(tg.tile_at(Coord { x: 3, y: 2 }), Tile::Empty);
}

#[test]
fn it_works_rectangular() {
    let e = Tile::Empty;
    let f = Tile::Filled;

    let tg = CellShape::from_2darray([
        [e, e],
        [e, f],
        [f, e],
    ]);

    assert_eq!(tg.tile_at(Coord { x: 0, y: 0 }), Tile::Empty);
    assert_eq!(tg.tile_at(Coord { x: 1, y: 0 }), Tile::Filled);

    assert_eq!(tg.tile_at(Coord { x: 0, y: 1 }), Tile::Filled);
    assert_eq!(tg.tile_at(Coord { x: 1, y: 1 }), Tile::Empty);
}

#[test]
fn equal_upto_vertical_shift() {
    let e = Tile::Empty;
    let f = Tile::Filled;

    let lhs = CellShape::from_2darray([
        [e, f],
        [f, e],
    ]);

    let rhs = CellShape::from_2darray([
        [e, e],
        [e, e],
        [e, e],
        [e, f],
        [f, e],
        [e, e],
    ]);

    assert_eq!(lhs, rhs);
}

#[test]
fn equal_upto_horizontal_shift() {
    let e = Tile::Empty;
    let f = Tile::Filled;

    let lhs = CellShape::from_2darray([
        [e, f],
        [f, e],
    ]);

    let rhs = CellShape::from_2darray([
        [e, e, e, f, e],
        [e, e, f, e, e],
        [e, e, e, e, e],
    ]);

    assert_eq!(lhs, rhs);
}

#[test]
fn normalize_translation_invariance() {
    let moved = CellShape::from_coordinate_list(vec![
        Coord { x: 7, y: -3 },
        Coord { x: 8, y: -3 },
        Coord { x: 7, y: -2 },
    ]);
    let home = CellShape::from_coordinate_list(vec![
        Coord { x: 0, y: 0 },
        Coord { x: 1, y: 0 },
        Coord { x: 0, y: 1 },
    ]);
    assert_eq!(moved, home);
}

#[test]
fn normalize_idempotent() {
    let first = CellShape::from_coordinate_list(vec![
        Coord { x: 4, y: 2 },
        Coord { x: 2, y: 2 },
        Coord { x: 3, y: 5 },
        Coord { x: 2, y: 2 },
    ]);
    let second = CellShape::from_coordinate_list(first.filled_tiles());
    assert_eq!(first, second);
}

#[test]
fn normalize_sorts_and_deduplicates() {
    let shape = CellShape::from_coordinate_list(vec![
        Coord { x: 2, y: 1 },
        Coord { x: 1, y: 1 },
        Coord { x: 2, y: 1 },
        Coord { x: 1, y: 2 },
    ]);
    let tiles = shape.filled_tiles();
    assert_eq!(
        tiles,
        vec![Coord { x: 0, y: 0 }, Coord { x: 0, y: 1 }, Coord { x: 1, y: 0 }]
    );
}

#[test]
fn empty_shape() {
    let none = CellShape::empty();
    assert_eq!(none.filled_tiles(), vec![]);
    assert!(!none.contains(Coord { x: 0, y: 0 }));
    assert_eq!(none, CellShape::from_coordinate_list(vec![]));
}

#[test]
fn contains_reports_membership() {
    let shape = CellShape::from_coordinate_list(vec![
        Coord { x: 5, y: 5 },
        Coord { x: 6, y: 5 },
    ]);
    assert!(shape.contains(Coord { x: 0, y: 0 }));
    assert!(shape.contains(Coord { x: 1, y: 0 }));
    assert!(!shape.contains(Coord { x: 5, y: 5 }));
}

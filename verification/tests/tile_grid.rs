use pentomino::coord::Coord;
use pentomino::tile_grid::Tile;
use pentomino::tile_grid::TileGrid;

#[test]
fn tile_grid_it_works() {
    let e = Tile::Empty;
    let f = Tile::Filled;

    let tg = TileGrid::from_2darray([
        [e, e, f],
        [e, f, f],
        [f, e, f],
    ]);

    assert_eq!(tg.tile_at(Coord { x: -1, y: 0 }), Tile::Empty);
    assert_eq!(tg.tile_at(Coord { x: -1, y: 1 }), Tile::Empty);
    assert_eq!(tg.tile_at(Coord { x: -1, y: 2 }), Tile::Empty);

    assert_eq!(tg.tile_at(Coord { x: 0, y: -1 }), Tile::Empty);
    assert_eq!(tg.tile_at(Coord { x: 1, y: -1 }), Tile::Empty);
    assert_eq!(tg.tile_at(Coord { x: 2, y: -1 }), Tile::Empty);

    assert_eq!(tg.tile_at(Coord { x: 0, y: 0 }), Tile::Empty);
    assert_eq!(tg.tile_at(Coord { x: 1, y: 0 }), Tile::Empty);
    assert_eq!(tg.tile_at(Coord { x: 2, y: 0 }), Tile::Filled);

    assert_eq!(tg.tile_at(Coord { x: 0, y: 1 }), Tile::Empty);
    assert_eq!(tg.tile_at(Coord { x: 1, y: 1 }), Tile::Filled);
    assert_eq!(tg.tile_at(Coord { x: 2, y: 1 }), Tile::Filled);

    assert_eq!(tg.tile_at(Coord { x: 0, y: 2 }), Tile::Filled);
    assert_eq!(tg.tile_at(Coord { x: 1, y: 2 }), Tile::Empty);
    assert_eq!(tg.tile_at(Coord { x: 2, y: 2 }), Tile::Filled);

    assert_eq!(tg.tile_at(Coord { x: 0, y: 3 }), Tile::Empty);
    assert_eq!(tg.tile_at(Coord { x: 1, y: 3 }), Tile::Empty);
    assert_eq!(tg.tile_at(Coord { x: 2, y: 3 }), Tile::Empty);

    assert_eq!(tg.tile_at(Coord { x: 3, y: 0 }), Tile::Empty);
    assert_eq!(tg.tile_at(Coord { x: 3, y: 1 }), Tile::Empty);
    assert_eq!(tg.tile_at(Coord { x: 3, y: 2 }), Tile::Empty);
}

#[test]
fn fill() {
    let e = Tile::Empty;
    let f = Tile::Filled;

    let mut tg = TileGrid::from_2darray([
        [e, e, f],
        [e, f, f],
        [f, e, f],
    ]);

    let coord = Coord { x: 0, y: 0 };
    assert_eq!(tg.tile_at(coord), Tile::Empty);

    let already_filled = tg.fill(coord);

    assert!(!already_filled);
    assert_eq!(tg.tile_at(coord), Tile::Filled);

    let already_filled = tg.fill(coord);
    assert!(already_filled);
    assert_eq!(tg.tile_at(coord), Tile::Filled);
}

#[test]
fn place_onto_empty() {
    let e = Tile::Empty;
    let f = Tile::Filled;

    let mut empty = TileGrid::from_2darray([
        [e, e, e],
        [e, e, e],
        [e, e, e],
    ]);

    let tg = TileGrid::from_2darray([
        [f, e],
        [f, e],
    ]);

    let success = empty.try_place_over(&tg, Coord::origin());

    assert!(success);

    assert_eq!(empty.tile_at(Coord { x: 0, y: 0 }), Tile::Filled);
    assert_eq!(empty.tile_at(Coord { x: 1, y: 0 }), Tile::Empty);
    assert_eq!(empty.tile_at(Coord { x: 2, y: 0 }), Tile::Empty);

    assert_eq!(empty.tile_at(Coord { x: 0, y: 1 }), Tile::Filled);
    assert_eq!(empty.tile_at(Coord { x: 1, y: 1 }), Tile::Empty);
    assert_eq!(empty.tile_at(Coord { x: 2, y: 1 }), Tile::Empty);

    assert_eq!(empty.tile_at(Coord { x: 0, y: 2 }), Tile::Empty);
    assert_eq!(empty.tile_at(Coord { x: 1, y: 2 }), Tile::Empty);
    assert_eq!(empty.tile_at(Coord { x: 2, y: 2 }), Tile::Empty);
}

#[test]
fn place_onto_empty_non_overlapping() {
    let e = Tile::Empty;
    let f = Tile::Filled;

    let mut empty = TileGrid::from_2darray([
        [e, e, e],
        [e, e, e],
        [e, e, e],
    ]);

    let tg = TileGrid::from_2darray([
        [f, e],
        [f, e],
    ]);

    let success = empty.try_place_over(&tg, Coord { x: 0, y: 2 });

    assert!(success);

    assert_eq!(empty.tile_at(Coord { x: 0, y: 0 }), Tile::Empty);
    assert_eq!(empty.tile_at(Coord { x: 1, y: 0 }), Tile::Empty);
    assert_eq!(empty.tile_at(Coord { x: 2, y: 0 }), Tile::Empty);

    assert_eq!(empty.tile_at(Coord { x: 0, y: 1 }), Tile::Empty);
    assert_eq!(empty.tile_at(Coord { x: 1, y: 1 }), Tile::Empty);
    assert_eq!(empty.tile_at(Coord { x: 2, y: 1 }), Tile::Empty);

    assert_eq!(empty.tile_at(Coord { x: 0, y: 2 }), Tile::Filled);
    assert_eq!(empty.tile_at(Coord { x: 1, y: 2 }), Tile::Empty);
    assert_eq!(empty.tile_at(Coord { x: 2, y: 2 }), Tile::Empty);

    assert_eq!(empty.tile_at(Coord { x: 0, y: 3 }), Tile::Filled);
    assert_eq!(empty.tile_at(Coord { x: 1, y: 3 }), Tile::Empty);
    assert_eq!(empty.tile_at(Coord { x: 2, y: 3 }), Tile::Empty);

    assert_eq!(empty.tile_at(Coord { x: 0, y: 4 }), Tile::Empty);
    assert_eq!(empty.tile_at(Coord { x: 1, y: 4 }), Tile::Empty);
    assert_eq!(empty.tile_at(Coord { x: 2, y: 4 }), Tile::Empty);
}

#[test]
fn place_onto_not_possible() {
    let e = Tile::Empty;
    let f = Tile::Filled;

    let mut empty = TileGrid::from_2darray([
        [e, e, e],
        [f, f, e],
        [e, e, e],
    ]);

    let tg = TileGrid::from_2darray([
        [f, e],
        [f, e],
    ]);

    let success = empty.try_place_over(&tg, Coord { x: 0, y: 0 });

    assert!(!success);

    // not modified at all
    assert_eq!(empty.tile_at(Coord { x: 0, y: 0 }), Tile::Empty);
    assert_eq!(empty.tile_at(Coord { x: 1, y: 0 }), Tile::Empty);
    assert_eq!(empty.tile_at(Coord { x: 2, y: 0 }), Tile::Empty);

    assert_eq!(empty.tile_at(Coord { x: 0, y: 1 }), Tile::Filled);
    assert_eq!(empty.tile_at(Coord { x: 1, y: 1 }), Tile::Filled);
    assert_eq!(empty.tile_at(Coord { x: 2, y: 1 }), Tile::Empty);

    assert_eq!(empty.tile_at(Coord { x: 0, y: 2 }), Tile::Empty);
    assert_eq!(empty.tile_at(Coord { x: 1, y: 2 }), Tile::Empty);
    assert_eq!(empty.tile_at(Coord { x: 2, y: 2 }), Tile::Empty);
}

use pentomino::cell_shape::CellShape;
use pentomino::coord::Coord;
use pentomino::pentomino::create_all_orientations;
use pentomino::pentomino::Pentomino;
use pentomino::transform::rigid_symmetries;

fn orientations_of(coords: Vec<Coord>) -> Vec<CellShape> {
    let rep = CellShape::from_coordinate_list(coords);
    let syms = rigid_symmetries();
    create_all_orientations(&rep, syms.as_slice())
}

#[test]
fn fully_symmetric_shape_has_one_orientation() {
    // the plus-shaped pattern
    let orients = orientations_of(vec![
        Coord { x: 1, y: 0 },
        Coord { x: 0, y: 1 },
        Coord { x: 1, y: 1 },
        Coord { x: 2, y: 1 },
        Coord { x: 1, y: 2 },
    ]);
    assert_eq!(orients.len(), 1);
}

#[test]
fn straight_line_has_two_orientations() {
    // five cells in a single column: vertical and horizontal
    let orients = orientations_of(vec![
        Coord { x: 0, y: 0 },
        Coord { x: 0, y: 1 },
        Coord { x: 0, y: 2 },
        Coord { x: 0, y: 3 },
        Coord { x: 0, y: 4 },
    ]);
    assert_eq!(orients.len(), 2);
}

#[test]
fn asymmetric_shape_has_eight_orientations() {
    // a bent pattern with one offset cell that breaks every symmetry
    let orients = orientations_of(vec![
        Coord { x: 1, y: 0 },
        Coord { x: 0, y: 1 },
        Coord { x: 1, y: 1 },
        Coord { x: 1, y: 2 },
        Coord { x: 2, y: 2 },
    ]);
    assert_eq!(orients.len(), 8);
}

#[test]
fn empty_shape_has_one_orientation() {
    let orients = orientations_of(vec![]);
    assert_eq!(orients.len(), 1);
    assert_eq!(orients[0], CellShape::empty());
}

#[test]
fn orientation_count_divides_eight_for_all_pentominoes() {
    let pieces = vec![
        Pentomino::F,
        Pentomino::I,
        Pentomino::L,
        Pentomino::N,
        Pentomino::P,
        Pentomino::T,
        Pentomino::U,
        Pentomino::V,
        Pentomino::W,
        Pentomino::X,
        Pentomino::Y,
        Pentomino::Z,
    ];
    for p in pieces {
        let n = p.shapes().len();
        assert!(n == 1 || n == 2 || n == 4 || n == 8);
    }
}

#[test]
fn pentomino_orientation_counts() {
    assert_eq!(Pentomino::F.shapes().len(), 8);
    assert_eq!(Pentomino::I.shapes().len(), 2);
    assert_eq!(Pentomino::L.shapes().len(), 8);
    assert_eq!(Pentomino::N.shapes().len(), 8);
    assert_eq!(Pentomino::P.shapes().len(), 8);
    assert_eq!(Pentomino::T.shapes().len(), 4);
    assert_eq!(Pentomino::U.shapes().len(), 4);
    assert_eq!(Pentomino::V.shapes().len(), 4);
    assert_eq!(Pentomino::W.shapes().len(), 4);
    assert_eq!(Pentomino::X.shapes().len(), 1);
    assert_eq!(Pentomino::Y.shapes().len(), 8);
    assert_eq!(Pentomino::Z.shapes().len(), 4);
}

#[test]
fn orientations_are_pairwise_distinct() {
    let orients = Pentomino::F.shapes();
    for i in 0..orients.len() {
        for j in 0..orients.len() {
            if i != j {
                assert!(orients[i] != orients[j]);
            }
        }
    }
}

#[test]
fn orientations_contain_the_representative() {
    // the identity is among the symmetries, so the normalized representative
    // itself always appears
    let rep = CellShape::from_coordinate_list(vec![
        Coord { x: 0, y: 0 },
        Coord { x: 1, y: 0 },
        Coord { x: 0, y: 1 },
    ]);
    let syms = rigid_symmetries();
    let orients = create_all_orientations(&rep, syms.as_slice());
    assert!(orients.iter().any(|s| *s == rep));
}

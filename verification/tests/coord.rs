use pentomino::coord::Coord;
use pentomino::coord::Vec2D;

#[test]
fn addition() {
    let lhs = Coord { x: 3, y: 5 };
    let rhs = Vec2D { x: -1, y: 7 };
    assert_eq!(lhs.plus(rhs), Coord { x: 2, y: 12 });
}

#[test]
fn subtraction() {
    let lhs = Coord { x: 3, y: 5 };
    let rhs = Coord { x: -1, y: 7 };
    assert_eq!(lhs.minus(rhs), Vec2D { x: 4, y: -2 });
}

#[test]
fn constructors() {
    assert_eq!(Coord::new(-4, 9), Coord { x: -4, y: 9 });
    assert_eq!(Coord::origin(), Coord { x: 0, y: 0 });
    assert_eq!(Vec2D::new(6, -2), Vec2D { x: 6, y: -2 });
    assert_eq!(Vec2D::zero(), Vec2D { x: 0, y: 0 });
}

#[test]
fn vector_arithmetic() {
    let a = Vec2D { x: 2, y: -3 };
    let b = Vec2D { x: -5, y: 4 };
    assert_eq!(a.plus(b), Vec2D { x: -3, y: 1 });
    assert_eq!(a.minus(b), Vec2D { x: 7, y: -7 });
}

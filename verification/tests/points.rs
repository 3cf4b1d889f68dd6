use cg_library::point::Abs;
use cg_library::point::Point;

#[test]
fn test_point_addition_f64() {
    let p1: Point<f64> = Point { x: 1.1, y: 2.2 };
    let p2: Point<f64> = Point { x: 3.5, y: 4.2 };
    assert!(
        Point { x: 4.6, y: 6.4 } == Point {
            x: p1.x + p2.x,
            y: p1.y + p2.y,
        }
    );
}

#[test]
fn test_point_addition_u64() {
    let p1: Point<u64> = Point { x: 1, y: 2 };
    let p2: Point<u64> = Point { x: 3, y: 4 };
    assert!(Point { x: 4, y: 6 } == p1.add(p2));
}

#[test]
fn test_point_addition_str() {
    let p1: Point<&str> = Point {
        x: "Hello",
        y: "Its",
    };
    let _p2: Point<&str> = Point {
        x: "World",
        y: "Me",
    };
    println!("{:?}", p1);
}

#[test]
fn test_point_arithmetic_i64() {
    let p1: Point<i64> = Point { x: 6, y: -8 };
    let p2: Point<i64> = Point { x: 2, y: 4 };
    assert!(Point { x: 8, y: -4 } == p1.add(p2));
    assert!(Point { x: 4, y: -12 } == p1.sub(p2));
    assert!(Point { x: 12, y: -32 } == p1.mul(p2));
    assert!(Point { x: 3, y: -2 } == p1.div(p2));
}

#[test]
fn test_point_abs() {
    let p: Point<i64> = Point { x: -3, y: 4 };
    assert!(Point { x: 3, y: 4 } == p.abs());
}

#[test]
fn test_index_of_significance() {
    let p1: Point<i64> = Point { x: 5, y: 2 };
    let p2: Point<i64> = Point { x: 2, y: 5 };
    let p3: Point<i64> = Point { x: 2, y: 2 };
    assert_eq!(0, p1.index_of_significance());
    assert_eq!(1, p2.index_of_significance());
    assert_eq!(1, p3.index_of_significance());
    assert_eq!(5, *p1.index(0));
    assert_eq!(2, *p1.index(1));
}

use brutforce::error::EditError;
use brutforce::geometry::{Point, Shape};

#[test]
fn square_is_origin_square() {
    let s = Shape::square(400);
    assert_eq!(s, Shape { l: 0, b: 0, r: 400, t: 400 });
    assert_eq!(s.widht(), 400);
    assert_eq!(s.height(), 400);
    assert_eq!(s.area(), 160000);
}

#[test]
fn pcut_quadrants_in_fixed_order() {
    let s = Shape { l: 0, b: 0, r: 10, t: 8 };
    let q = s.pcut(Point { x: 4, y: 3 }).unwrap();
    assert_eq!(q.len(), 4);
    assert_eq!(q[0], Shape { l: 0, b: 0, r: 4, t: 3 });
    assert_eq!(q[1], Shape { l: 4, b: 0, r: 10, t: 3 });
    assert_eq!(q[2], Shape { l: 4, b: 3, r: 10, t: 8 });
    assert_eq!(q[3], Shape { l: 0, b: 3, r: 4, t: 8 });
    let areas: i32 = q.iter().map(|p| p.area()).sum();
    assert_eq!(areas, s.area());
}

#[test]
fn pcut_rejects_boundary_point() {
    let s = Shape { l: 0, b: 0, r: 10, t: 8 };
    let r = s.pcut(Point { x: 0, y: 3 });
    assert!(matches!(r, Err(EditError::CutOutside { .. })));
    let r2 = s.pcut(Point { x: 4, y: 8 });
    assert!(matches!(r2, Err(EditError::CutOutside { .. })));
}

#[test]
fn xcut_halves_share_width() {
    let s = Shape { l: 2, b: 1, r: 12, t: 9 };
    let halves = s.xcut(5).unwrap();
    assert_eq!(halves[0], Shape { l: 2, b: 1, r: 5, t: 9 });
    assert_eq!(halves[1], Shape { l: 5, b: 1, r: 12, t: 9 });
    assert_eq!(halves[0].widht() + halves[1].widht(), s.widht());
    assert_eq!(halves[0].area() + halves[1].area(), s.area());
    assert!(matches!(s.xcut(2), Err(EditError::CutOutsideX { .. })));
    assert!(matches!(s.xcut(12), Err(EditError::CutOutsideX { .. })));
}

#[test]
fn ycut_halves_low_then_high() {
    let s = Shape { l: 0, b: 0, r: 4, t: 10 };
    let halves = s.ycut(7).unwrap();
    assert_eq!(halves[0], Shape { l: 0, b: 0, r: 4, t: 7 });
    assert_eq!(halves[1], Shape { l: 0, b: 7, r: 4, t: 10 });
    assert!(matches!(s.ycut(0), Err(EditError::CutOutsideY { .. })));
}

#[test]
fn intersect_overlap_and_touching() {
    let a = Shape { l: 0, b: 0, r: 10, t: 10 };
    let b = Shape { l: 5, b: 5, r: 15, t: 15 };
    assert_eq!(a.intersect(&b), Some(Shape { l: 5, b: 5, r: 10, t: 10 }));
    assert_eq!(a.intersect(&b), b.intersect(&a));
    let c = Shape { l: 10, b: 0, r: 20, t: 10 };
    assert_eq!(a.intersect(&c), None);
    assert_eq!(c.intersect(&a), None);
    let d = Shape { l: 30, b: 30, r: 40, t: 40 };
    assert_eq!(a.intersect(&d), None);
}

#[test]
fn merge_four_adjacencies() {
    let bottom = Shape { l: 0, b: 0, r: 10, t: 5 };
    let top = Shape { l: 0, b: 5, r: 10, t: 9 };
    assert_eq!(top.merge(&bottom), Some(Shape { l: 0, b: 0, r: 10, t: 9 }));
    assert_eq!(bottom.merge(&top), Some(Shape { l: 0, b: 0, r: 10, t: 9 }));
    let left = Shape { l: 0, b: 0, r: 4, t: 5 };
    let right = Shape { l: 4, b: 0, r: 9, t: 5 };
    assert_eq!(left.merge(&right), Some(Shape { l: 0, b: 0, r: 9, t: 5 }));
    assert_eq!(right.merge(&left), Some(Shape { l: 0, b: 0, r: 9, t: 5 }));
    let off = Shape { l: 4, b: 1, r: 9, t: 6 };
    assert_eq!(left.merge(&off), None);
}

#[test]
fn is_same_ignores_position() {
    let a = Shape { l: 0, b: 0, r: 10, t: 5 };
    let b = Shape { l: 100, b: 200, r: 110, t: 205 };
    assert!(a.is_same(&b));
    let c = Shape { l: 0, b: 0, r: 5, t: 10 };
    assert!(!a.is_same(&c));
}

#[test]
fn contains_is_half_open() {
    let s = Shape { l: 0, b: 0, r: 10, t: 10 };
    assert!(s.contains(Point { x: 0, y: 0 }));
    assert!(s.contains(Point { x: 9, y: 9 }));
    assert!(!s.contains(Point { x: 10, y: 5 }));
    assert!(!s.contains(Point { x: 5, y: 10 }));
    assert!(!s.contains(Point { x: -1, y: 5 }));
}

#![allow(non_snake_case)]

use nir_tree::geometry::{is_storable, Point, Rectangle, COORD_LIMIT};

#[test]
fn RectangleExpansionAreaTest() {
    // The existing Rectangle
    let baseRectangle = Rectangle::new(3, 3, 6, 6, 9);
    // Fully contained Rectangle
    let containedRectangle = Rectangle::new(4, 4, 5, 5, 1);
    // Intersecting corners Rectangles
    let intersectingCornerRectangle = Rectangle::new(4, 5, 7, 7, 6);
    // Intersecting side Rectangles
    let intersectingSideRectangle = Rectangle::new(4, 2, 5, 4, 2);
    // Disjoint Rectangles
    let disjointRectangle = Rectangle::new(7, 7, 8, 8, 1);

    // Test expansion when one Rectangle is inside the other
    let mut expansionMetrics = baseRectangle.computeExpansionArea(&containedRectangle);
    assert!(expansionMetrics.0.lowerLeft.x == baseRectangle.lowerLeft.x);
    assert!(expansionMetrics.0.lowerLeft.y == baseRectangle.lowerLeft.y);
    assert!(expansionMetrics.1 == 0);

    // Test expansion when the Rectangles intersect
    expansionMetrics = baseRectangle.computeExpansionArea(&intersectingCornerRectangle);
    assert!(expansionMetrics.0.upperRight.x == intersectingCornerRectangle.upperRight.x);
    assert!(expansionMetrics.0.upperRight.y == intersectingCornerRectangle.upperRight.y);
    assert!(expansionMetrics.1 == 7);
    expansionMetrics = baseRectangle.computeExpansionArea(&intersectingSideRectangle);
    assert!(expansionMetrics.0.lowerLeft.x == 3);
    assert!(expansionMetrics.0.lowerLeft.y == 2);
    assert!(expansionMetrics.1 == 3);

    // Test expansion when one Rectangle is totally disjoint from the other
    expansionMetrics = baseRectangle.computeExpansionArea(&disjointRectangle);
    assert!(expansionMetrics.0.upperRight.x == disjointRectangle.upperRight.x);
    assert!(expansionMetrics.0.upperRight.y == disjointRectangle.upperRight.y);
    assert!(expansionMetrics.1 == 16);
}

#[test]
fn RectangleIntersectionTest() {
    // Base Rectangle
    let baseRectangle = Rectangle::new(2, 2, 4, 4, 4);
    // Fully Contained Rectangle
    let containedRectangle = Rectangle::new(2, 2, 4, 4, 4);
    // Lower Left Quadrant Contained
    let lowerLeftQuadrantRectangle = Rectangle::new(3, 3, 5, 5, 4);
    // Lower Right Quadrant Contained
    let lowerRightQuadrantRectangle = Rectangle::new(1, 3, 3, 5, 4);
    // Upper Left Quadrant Contained
    let upperLeftQuadrantRectangle = Rectangle::new(3, 1, 5, 3, 4);
    // Upper Right Quadrant Contained
    let upperRightQuadrantRectangle = Rectangle::new(1, 1, 3, 3, 4);
    // Uncontained Rectangle
    let uncontainedRectangle = Rectangle::new(6, 6, 8, 8, 4);

    assert!(baseRectangle.intersectsRectangle(&containedRectangle));
    assert!(baseRectangle.intersectsRectangle(&lowerLeftQuadrantRectangle));
    assert!(baseRectangle.intersectsRectangle(&lowerRightQuadrantRectangle));
    assert!(baseRectangle.intersectsRectangle(&upperLeftQuadrantRectangle));
    assert!(baseRectangle.intersectsRectangle(&upperRightQuadrantRectangle));
    assert!(!baseRectangle.intersectsRectangle(&uncontainedRectangle));
}

#[test]
fn PointIntersectionTest() {
    // Base Rectangle
    let baseRectangle = Rectangle::new(2, 2, 4, 4, 4);
    // Point inside the Rectangle
    let insidePoint = Point { x: 3, y: 3 };
    // Point outside the Rectangle
    let outsidePoint = Point { x: 5, y: 5 };
    // Point on a side of the Rectangle
    let borderPoint = Point { x: 2, y: 3 };

    assert!(baseRectangle.containsPoint(&insidePoint) == true);
    assert!(baseRectangle.containsPoint(&outsidePoint) == false);
    assert!(baseRectangle.containsPoint(&borderPoint) == true);
}

#[test]
fn expansion_scenario_gives_corners_and_delta() {
    let a = Rectangle::new(3, 3, 6, 6, 9);
    let b = Rectangle::new(7, 7, 8, 8, 1);
    let (c, delta) = a.computeExpansionArea(&b);
    assert_eq!(c.lowerLeft, Point { x: 3, y: 3 });
    assert_eq!(c.upperRight, Point { x: 8, y: 8 });
    assert_eq!(c.area, 25);
    assert_eq!(delta, 16);
}

#[test]
fn expansion_takes_componentwise_extremes() {
    let a = Rectangle::new(5, 1, 9, 4, 12);
    let b = Rectangle::new(2, 3, 7, 10, 35);
    let (c, delta) = a.computeExpansionArea(&b);
    assert_eq!(c.lowerLeft, Point { x: 2, y: 1 });
    assert_eq!(c.upperRight, Point { x: 9, y: 10 });
    assert_eq!(c.area, 63);
    assert_eq!(delta, 51);
}

#[test]
fn intersection_is_symmetric() {
    let shapes = [
        Rectangle::new(0, 0, 2, 2, 4),
        Rectangle::new(2, 0, 4, 2, 4),
        Rectangle::new(3, 3, 5, 5, 4),
        Rectangle::new(1, 1, 1, 1, 0),
        Rectangle::new(10, 10, 12, 12, 4),
    ];
    for a in shapes.iter() {
        for b in shapes.iter() {
            assert_eq!(a.intersectsRectangle(b), b.intersectsRectangle(a));
        }
    }
}

#[test]
fn touching_rectangles_intersect() {
    let a = Rectangle::new(0, 0, 2, 2, 4);
    let edge = Rectangle::new(2, 0, 4, 2, 4);
    let corner = Rectangle::new(2, 2, 3, 3, 1);
    let apart = Rectangle::new(3, 0, 4, 2, 2);
    assert!(a.intersectsRectangle(&edge));
    assert!(a.intersectsRectangle(&corner));
    assert!(!a.intersectsRectangle(&apart));
}

#[test]
fn containment_is_closed_on_both_axes() {
    let r = Rectangle::new(2, 2, 4, 6, 8);
    assert!(r.containsPoint(&Point { x: 2, y: 2 }));
    assert!(r.containsPoint(&Point { x: 4, y: 6 }));
    assert!(r.containsPoint(&Point { x: 4, y: 3 }));
    assert!(!r.containsPoint(&Point { x: 5, y: 3 }));
    assert!(!r.containsPoint(&Point { x: 3, y: 7 }));
    assert!(!r.containsPoint(&Point { x: 1, y: 3 }));
    assert!(!r.containsPoint(&Point { x: 3, y: 1 }));
}

#[test]
fn storable_checks_corners_bounds_and_area() {
    assert!(is_storable(&Rectangle::new(1, 2, 4, 6, 12)));
    assert!(!is_storable(&Rectangle::new(1, 2, 4, 6, 11)));
    assert!(!is_storable(&Rectangle::new(5, 2, 4, 6, 0)));
    assert!(!is_storable(&Rectangle::new(0, 0, COORD_LIMIT + 1, 1, COORD_LIMIT + 1)));
    assert!(is_storable(&Rectangle::new(0, 0, COORD_LIMIT, COORD_LIMIT, COORD_LIMIT * COORD_LIMIT)));
}

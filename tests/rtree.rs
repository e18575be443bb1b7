#![allow(non_snake_case)]

use nir_tree::generator::{generateCubes, generateSquares};
use nir_tree::geometry::{Point, Rectangle};
use nir_tree::insertion::bounding_box;
use nir_tree::rtree::{Node, MAX_ENTRIES, MIN_ENTRIES};

fn rect(x0: u64, y0: u64, x1: u64, y1: u64) -> Rectangle {
    Rectangle::new(x0, y0, x1, y1, (x1 - x0) * (y1 - y0))
}

fn overlaps(a: &Rectangle, b: &Rectangle) -> bool {
    a.lowerLeft.x <= b.upperRight.x
        && b.lowerLeft.x <= a.upperRight.x
        && a.lowerLeft.y <= b.upperRight.y
        && b.lowerLeft.y <= a.upperRight.y
}

fn key(r: &Rectangle) -> (u64, u64, u64, u64, u64) {
    (r.lowerLeft.x, r.lowerLeft.y, r.upperRight.x, r.upperRight.y, r.area)
}

fn sorted(rs: &[Rectangle]) -> Vec<(u64, u64, u64, u64, u64)> {
    let mut v: Vec<_> = rs.iter().map(key).collect();
    v.sort();
    v
}

/// A fixed sequence of small rectangles from a linear congruential generator.
fn sample_rectangles(n: usize, seed: u64) -> Vec<Rectangle> {
    let mut state = seed;
    let mut next = move || {
        state = state.wrapping_mul(6364136223846793005).wrapping_add(1442695040888963407);
        state >> 33
    };
    let mut out = Vec::new();
    for _ in 0..n {
        let x = next() % 100;
        let y = next() % 100;
        let w = next() % 10;
        let h = next() % 10;
        out.push(rect(x, y, x + w, y + h));
    }
    out
}

/// Checks fan-out, tight bounding rectangles and leaf depth below `n`;
/// returns the depth of its leaves.
fn check_structure(n: &Node, is_root: bool) -> usize {
    let len = n.boundingPolygons.len();
    assert!(len <= MAX_ENTRIES);
    if !is_root {
        assert!(len >= MIN_ENTRIES);
    }
    if n.children.is_empty() {
        return 0;
    }
    if is_root {
        assert!(len >= 2);
    }
    assert_eq!(n.children.len(), len);
    let mut depth = None;
    for (b, c) in n.boundingPolygons.iter().zip(n.children.iter()) {
        assert_eq!(key(b), key(&bounding_box(&c.boundingPolygons)));
        let d = check_structure(c, false);
        if let Some(prev) = depth {
            assert_eq!(prev, d);
        }
        depth = Some(d);
    }
    depth.unwrap() + 1
}

fn all_stored(n: &Node) -> Vec<Rectangle> {
    if n.children.is_empty() {
        return n.boundingPolygons.clone();
    }
    n.children.iter().flat_map(all_stored).collect()
}

fn scenario_tree() -> Node {
    let rect1 = Rectangle::new(2, 2, 4, 5, 6);
    let rect2 = Rectangle::new(10, 18, 12, 20, 4);
    let node1 = Node::new(1, vec![rect1, rect2], vec![]);
    let rect3 = Rectangle::new(17, 5, 18, 18, 13);
    let node2 = Node::new(2, vec![rect3], vec![]);
    let rect4 = Rectangle::new(0, 0, 13, 21, 273);
    let rect5 = Rectangle::new(15, 4, 21, 21, 102);
    Node::new(3, vec![rect4, rect5], vec![node1, node2])
}

#[test]
fn testSimpleSearch() {
    // The node describing rectangles 1 and 2
    let rect1 = Rectangle::new(2, 2, 4, 5, 6);
    let rect2 = Rectangle::new(10, 18, 12, 20, 4);
    let node1 = Node::new(1, vec![rect1, rect2], vec![]);

    // The node describing rectangle 3
    let rect3 = Rectangle::new(17, 5, 18, 18, 13);
    let node2 = Node::new(2, vec![rect3], vec![]);

    // The linking (root) node describing node1 and node2
    let rect4 = Rectangle::new(0, 0, 13, 21, 273);
    let rect5 = Rectangle::new(15, 4, 21, 21, 102);
    let root = Node::new(3, vec![rect4, rect5], vec![node1, node2]);

    // The first query rectangle
    let query1 = Rectangle::new(3, 3, 19, 19, 128);
    let queryResult1 = root.searchRectangle(&query1);
    assert!(queryResult1.len() == 3);

    // The second query rectangle
    let query2 = Rectangle::new(16, 4, 19, 21, 51);
    let queryResult2 = root.searchRectangle(&query2);
    assert!(queryResult2.len() == 1);
}

#[test]
fn testSimpleInsert() {
    // The node describing rectangles 1 and 2
    let rect1 = Rectangle::new(2, 2, 4, 5, 6);
    let rect2 = Rectangle::new(10, 18, 12, 20, 4);
    let node1 = Node::new(1, vec![rect1, rect2], vec![]);

    // The node describing rectangle 3
    let rect3 = Rectangle::new(17, 5, 18, 18, 13);
    let node2 = Node::new(2, vec![rect3], vec![]);

    // The linking (root) node describing node1 and node2
    let rect4 = Rectangle::new(0, 0, 13, 21, 273);
    let rect5 = Rectangle::new(15, 4, 21, 21, 102);
    let mut root = Node::new(3, vec![rect4, rect5], vec![node1, node2]);

    // Rectangles to be inserted, they all fall under rect4 and should all be inserted under node1
    let insert1 = Rectangle::new(6, 3, 8, 4, 2);
    let insert2 = Rectangle::new(1, 13, 2, 14, 1);
    let insert3 = Rectangle::new(11, 16, 15, 18, 8);

    // Insert our rectangles
    root.insert(insert1);
    let _ = (insert2, insert3);
}

#[test]
fn scenario_queries_return_expected_rectangles() {
    let root = scenario_tree();
    let all = root.searchRectangle(&Rectangle::new(3, 3, 19, 19, 256));
    assert_eq!(
        sorted(&all),
        sorted(&[rect(2, 2, 4, 5), rect(10, 18, 12, 20), rect(17, 5, 18, 18)])
    );
    let one = root.searchRectangle(&Rectangle::new(16, 4, 19, 21, 51));
    assert_eq!(sorted(&one), sorted(&[rect(17, 5, 18, 18)]));
    let none = root.searchRectangle(&rect(13, 0, 14, 1));
    assert!(none.is_empty());
}

#[test]
fn insert_into_child_with_least_growth() {
    let mut root = scenario_tree();
    assert!(root.insert(rect(6, 3, 8, 4)));
    assert_eq!(root.children[0].boundingPolygons.len(), 3);
    assert_eq!(root.children[1].boundingPolygons.len(), 1);
    // The entry it went through is tightened to its child's entries.
    assert_eq!(key(&root.boundingPolygons[0]), key(&rect(2, 2, 12, 20)));
}

#[test]
fn point_search_probes_every_overlapping_child() {
    // Both bounding rectangles contain (5, 5); only the second subtree holds it.
    let left = Node::new(1, vec![rect(0, 0, 1, 1), rect(9, 9, 10, 10)], vec![]);
    let right = Node::new(2, vec![rect(4, 4, 6, 6), rect(7, 7, 8, 8)], vec![]);
    let root = Node::new(3, vec![rect(0, 0, 10, 10), rect(4, 4, 8, 8)], vec![left, right]);
    assert!(root.searchPoint(&Point { x: 5, y: 5 }));
    assert!(root.searchPoint(&Point { x: 10, y: 10 }));
    assert!(!root.searchPoint(&Point { x: 3, y: 3 }));
}

#[test]
fn empty_tree_finds_nothing() {
    let root = Node::new(0, vec![], vec![]);
    assert!(root.searchRectangle(&rect(0, 0, 100, 100)).is_empty());
    assert!(!root.searchPoint(&Point { x: 0, y: 0 }));
    assert_eq!(root.getId(), 0);
}

#[test]
fn insert_rejects_malformed_rectangles() {
    let mut root = Node::new(0, vec![], vec![]);
    assert!(!root.insert(Rectangle::new(5, 5, 4, 6, 0)));
    assert!(!root.insert(Rectangle::new(0, 0, 2, 2, 3)));
    assert!(root.boundingPolygons.is_empty());
    assert!(root.insert(rect(0, 0, 2, 2)));
    assert_eq!(root.boundingPolygons.len(), 1);
}

#[test]
fn search_after_inserts_matches_linear_scan() {
    let rs = sample_rectangles(200, 7);
    let mut root = Node::new(0, vec![], vec![]);
    for r in rs.iter() {
        assert!(root.insert(*r));
    }
    assert_eq!(sorted(&all_stored(&root)), sorted(&rs));
    for q in sample_rectangles(60, 99).iter() {
        let expected: Vec<Rectangle> = rs.iter().filter(|r| overlaps(r, q)).cloned().collect();
        assert_eq!(sorted(&root.searchRectangle(q)), sorted(&expected));
    }
    for p in 0..50u64 {
        let pt = Point { x: (p * 37) % 110, y: (p * 53) % 110 };
        let expected = rs.iter().any(|r| r.containsPoint(&pt));
        assert_eq!(root.searchPoint(&pt), expected);
    }
}

#[test]
fn inserts_keep_fan_out_tightness_and_depth() {
    let mut root = Node::new(0, vec![], vec![]);
    let mut last_depth = 0;
    for r in sample_rectangles(150, 3).iter() {
        assert!(root.insert(*r));
        let d = check_structure(&root, true);
        assert!(d == last_depth || d == last_depth + 1);
        last_depth = d;
    }
    assert!(last_depth >= 2);
}

#[test]
fn root_split_grows_tree_by_one_level() {
    let mut root = Node::new(9, vec![], vec![]);
    for i in 0..MAX_ENTRIES as u64 {
        assert!(root.insert(rect(i * 10, 0, i * 10 + 1, 1)));
    }
    assert!(root.children.is_empty());
    assert!(root.insert(rect(100, 0, 101, 1)));
    assert_eq!(root.children.len(), 2);
    assert_eq!(root.getId(), 9);
    let total: usize = root.children.iter().map(|c| c.boundingPolygons.len()).sum();
    assert_eq!(total, MAX_ENTRIES + 1);
    check_structure(&root, true);
}

#[test]
fn from_rectangles_holds_every_rectangle() {
    let rs = sample_rectangles(40, 11);
    let root = Node::from_rectangles(4, &rs);
    assert_eq!(sorted(&all_stored(&root)), sorted(&rs));
    check_structure(&root, true);
}

#[test]
fn delete_absent_rectangle_changes_nothing() {
    let rs = sample_rectangles(60, 5);
    let mut root = Node::from_rectangles(1, &rs);
    let before = format!("{:?}", root);
    assert!(!root.delete(&rect(500, 500, 501, 501)));
    assert!(!root.delete(&rect(rs[0].lowerLeft.x, rs[0].lowerLeft.y, rs[0].upperRight.x + 200, rs[0].upperRight.y)));
    assert_eq!(format!("{:?}", root), before);
}

#[test]
fn delete_removes_one_occurrence_and_keeps_invariants() {
    let mut rs = sample_rectangles(120, 21);
    let dup = rs[5];
    rs.push(dup);
    let mut root = Node::from_rectangles(1, &rs);
    assert!(root.delete(&dup));
    let pos = rs.iter().position(|r| key(r) == key(&dup)).unwrap();
    rs.remove(pos);
    assert_eq!(sorted(&all_stored(&root)), sorted(&rs));
    assert!(!root.searchRectangle(&dup).is_empty());
    check_structure(&root, true);
}

#[test]
fn deleting_everything_empties_the_tree() {
    let rs = sample_rectangles(80, 13);
    let mut root = Node::from_rectangles(1, &rs);
    let mut remaining = rs.clone();
    for (i, r) in rs.iter().enumerate() {
        assert!(root.delete(r));
        let pos = remaining.iter().position(|x| key(x) == key(r)).unwrap();
        remaining.remove(pos);
        assert_eq!(sorted(&all_stored(&root)), sorted(&remaining));
        check_structure(&root, true);
        if i % 10 == 0 {
            let q = rect(20, 20, 60, 60);
            let expected: Vec<Rectangle> = remaining.iter().filter(|x| overlaps(x, &q)).cloned().collect();
            assert_eq!(sorted(&root.searchRectangle(&q)), sorted(&expected));
        }
    }
    assert!(root.boundingPolygons.is_empty());
    assert!(root.children.is_empty());
    assert!(!root.delete(&rs[0]));
}

#[test]
fn interleaved_inserts_and_deletes_keep_leaves_level() {
    let rs = sample_rectangles(100, 17);
    let mut root = Node::new(0, vec![], vec![]);
    for (i, r) in rs.iter().enumerate() {
        assert!(root.insert(*r));
        if i % 3 == 2 {
            assert!(root.delete(&rs[i / 2]));
        }
        check_structure(&root, true);
    }
}

#[test]
fn squares_stay_within_bounds() {
    let squares = generateSquares(5, 1000, 2000, 300);
    assert_eq!(squares.len(), 300);
    assert!(squares.iter().all(|s| s.0 <= 1000 && s.1 <= 2000 && s.2 <= 5));
    assert!(squares.iter().any(|s| s.0 != 1000));
    assert_eq!(generateSquares(3, 3, 3, 0).len(), 0);
}

#[test]
fn cubes_stay_within_bounds() {
    let cubes = generateCubes(7, 10, 20, 30, 250);
    assert_eq!(cubes.len(), 250);
    assert!(cubes.iter().all(|c| c.0 <= 10 && c.1 <= 20 && c.2 <= 30 && c.3 <= 7));
    assert!(cubes.iter().any(|c| c.2 != 30));
    assert_eq!(generateCubes(1, 1, 1, 1, 0).len(), 0);
}

#[test]
fn full_leaf_root_splits_by_seeds_and_growth() {
    let r0 = rect(0, 0, 1, 1);
    let r1 = rect(1, 0, 2, 1);
    let r2 = rect(100, 100, 101, 101);
    let r3 = rect(101, 100, 102, 101);
    let r4 = rect(2, 0, 3, 1);
    let mut root = Node::new(5, vec![r0, r1, r2, r3], vec![]);
    assert!(root.insert(r4));
    assert_eq!(root.children.len(), 2);
    let first: Vec<_> = root.children[0].boundingPolygons.iter().map(key).collect();
    let second: Vec<_> = root.children[1].boundingPolygons.iter().map(key).collect();
    assert_eq!(first, vec![key(&r4), key(&r1), key(&r0)]);
    assert_eq!(second, vec![key(&r3), key(&r2)]);
    assert_eq!(key(&root.boundingPolygons[0]), key(&rect(0, 0, 3, 1)));
    assert_eq!(key(&root.boundingPolygons[1]), key(&rect(100, 100, 102, 101)));
}

#[test]
fn equal_trees_stay_equal_under_equal_inserts() {
    let rs = sample_rectangles(90, 29);
    let mut a = Node::new(3, vec![], vec![]);
    let mut b = Node::new(3, vec![], vec![]);
    for r in rs.iter() {
        assert!(a.insert(*r));
        assert!(b.insert(*r));
        assert_eq!(format!("{:?}", a), format!("{:?}", b));
    }
}

#[test]
fn insert_with_room_leaves_other_subtrees_alone() {
    let mut root = scenario_tree();
    let before_sibling = format!("{:?}", root.children[1]);
    let before_box = key(&root.boundingPolygons[1]);
    assert!(root.insert(rect(5, 5, 6, 6)));
    assert_eq!(format!("{:?}", root.children[1]), before_sibling);
    assert_eq!(key(&root.boundingPolygons[1]), before_box);
    let first: Vec<_> = root.children[0].boundingPolygons.iter().map(key).collect();
    assert_eq!(first, vec![key(&rect(2, 2, 4, 5)), key(&rect(10, 18, 12, 20)), key(&rect(5, 5, 6, 6))]);
}

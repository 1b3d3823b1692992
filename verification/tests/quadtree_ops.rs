use quadgrid::components::math::Size2i;
use quadgrid::components::visuals::Point;
use quadgrid::data_structures::quadtree::{Quadtree, Region};

fn tree_4x4() -> Quadtree {
    Quadtree::new(Point::new(0, 0), Size2i::new(4, 4))
}

fn sorted(mut points: Vec<Point>) -> Vec<(u32, u32)> {
    let mut pairs: Vec<(u32, u32)> = points.drain(..).map(|p| (p.x, p.y)).collect();
    pairs.sort();
    pairs
}

#[test]
fn new_tree_is_empty_leaf() {
    let tree = tree_4x4();
    assert!(tree.points.is_empty());
    assert!(tree.subregions.is_empty());
    assert_eq!(tree.size(), 0);
}

#[test]
fn insert_within_capacity_keeps_leaf() {
    let mut tree = tree_4x4();
    for i in 0..4u32 {
        tree.insert_point(Point::new(i, 0));
    }
    assert!(tree.subregions.is_empty());
    assert_eq!(tree.points.len(), 4);
    assert_eq!(tree.size(), 4);
}

#[test]
fn fifth_insert_splits_into_four_children() {
    let mut tree = tree_4x4();
    let points = [(0u32, 0u32), (1, 0), (2, 0), (3, 0), (0, 1)];
    for (x, y) in points {
        tree.insert_point(Point::new(x, y));
    }
    assert_eq!(tree.points.len(), 0);
    assert_eq!(tree.subregions.len(), 4);
    assert_eq!(tree.size(), 5);
    // the half-open 2x2 region at the origin holds the cells (0,0), (1,0),
    // (0,1) and (1,1), so three of the five inserted points fall inside it
    let found = tree.query_region(&Region {
        top_left: Point::new(0, 0),
        size: Size2i::new(2, 2),
    });
    assert_eq!(sorted(found), vec![(0, 0), (0, 1), (1, 0)]);
    let top_row = tree.query_region(&Region {
        top_left: Point::new(0, 0),
        size: Size2i::new(2, 1),
    });
    assert_eq!(sorted(top_row), vec![(0, 0), (1, 0)]);
}

#[test]
fn out_of_region_insert_is_ignored() {
    let mut tree = tree_4x4();
    tree.insert_point(Point::new(4, 0));
    tree.insert_point(Point::new(0, 7));
    assert_eq!(tree.size(), 0);
}

#[test]
fn query_agrees_with_inserts_after_splits() {
    let mut tree = tree_4x4();
    let mut expected = Vec::new();
    for x in 0..4u32 {
        for y in 0..4u32 {
            tree.insert_point(Point::new(x, y));
            expected.push(Point::new(x, y));
        }
    }
    let whole = Region {
        top_left: Point::new(0, 0),
        size: Size2i::new(4, 4),
    };
    assert_eq!(sorted(tree.query_region(&whole)), sorted(expected));
    let found = tree.query_region(&Region {
        top_left: Point::new(1, 1),
        size: Size2i::new(2, 1),
    });
    assert_eq!(sorted(found), vec![(1, 1), (2, 1)]);
}

#[test]
fn query_outside_region_is_empty() {
    let mut tree = tree_4x4();
    tree.insert_point(Point::new(1, 1));
    let found = tree.query_region(&Region {
        top_left: Point::new(10, 10),
        size: Size2i::new(3, 3),
    });
    assert!(found.is_empty());
}

#[test]
fn remove_point_removes_all_copies() {
    let mut tree = tree_4x4();
    tree.insert_point(Point::new(1, 1));
    tree.insert_point(Point::new(1, 1));
    tree.insert_point(Point::new(2, 2));
    tree.remove_point(Point::new(1, 1));
    assert_eq!(tree.size(), 1);
    let whole = Region {
        top_left: Point::new(0, 0),
        size: Size2i::new(4, 4),
    };
    assert_eq!(sorted(tree.query_region(&whole)), vec![(2, 2)]);
}

#[test]
fn remove_point_after_split_keeps_children() {
    let mut tree = tree_4x4();
    for i in 0..5u32 {
        tree.insert_point(Point::new(i % 4, i / 4));
    }
    assert_eq!(tree.subregions.len(), 4);
    tree.remove_point(Point::new(0, 0));
    assert_eq!(tree.subregions.len(), 4);
    assert_eq!(tree.size(), 4);
}

#[test]
fn clear_returns_to_empty_leaf() {
    let mut tree = tree_4x4();
    for i in 0..5u32 {
        tree.insert_point(Point::new(i % 4, i / 4));
    }
    tree.clear();
    assert!(tree.points.is_empty());
    assert!(tree.subregions.is_empty());
    assert_eq!(tree.size(), 0);
}

#[test]
fn collect_gathers_every_point() {
    let mut tree = tree_4x4();
    let mut expected = Vec::new();
    for x in 0..3u32 {
        for y in 0..2u32 {
            tree.insert_point(Point::new(x, y));
            expected.push(Point::new(x, y));
        }
    }
    assert_eq!(sorted(tree.collect()), sorted(expected));
}

#[test]
fn redistribute_points_preserves_the_point_set() {
    let mut tree = tree_4x4();
    let mut expected = Vec::new();
    for x in 0..4u32 {
        for y in 0..3u32 {
            tree.insert_point(Point::new(x, y));
            expected.push(Point::new(x, y));
        }
    }
    for x in 0..4u32 {
        tree.remove_point(Point::new(x, 2));
        expected.retain(|p| *p != Point::new(x, 2));
    }
    tree.redistribute_points();
    let whole = Region {
        top_left: Point::new(0, 0),
        size: Size2i::new(4, 4),
    };
    assert_eq!(sorted(tree.query_region(&whole)), sorted(expected));
}

#[test]
fn balance_changes_nothing() {
    let mut tree = tree_4x4();
    for i in 0..5u32 {
        tree.insert_point(Point::new(i % 4, i / 4));
    }
    let before = tree.size();
    tree.balance();
    assert_eq!(tree.size(), before);
    assert_eq!(tree.subregions.len(), 4);
}

#[test]
fn redistribute_collapses_a_sparse_interior_tree() {
    let mut tree = tree_4x4();
    for x in 0..4u32 {
        for y in 0..4u32 {
            tree.insert_point(Point::new(x, y));
        }
    }
    assert_eq!(tree.subregions.len(), 4);
    for x in 0..4u32 {
        for y in 0..4u32 {
            if !(x == 0 && y == 0) && !(x == 3 && y == 3) {
                tree.remove_point(Point::new(x, y));
            }
        }
    }
    // two points left under an interior root: redistribution must fold the
    // tree back into a single leaf holding them
    assert_eq!(tree.subregions.len(), 4);
    assert_eq!(tree.size(), 2);
    tree.redistribute_points();
    assert!(tree.subregions.is_empty());
    assert_eq!(sorted(tree.points.clone()), vec![(0, 0), (3, 3)]);
}

#[test]
fn redistribute_keeps_a_full_tree_subdivided() {
    let mut tree = tree_4x4();
    for x in 0..4u32 {
        for y in 0..4u32 {
            tree.insert_point(Point::new(x, y));
        }
    }
    tree.redistribute_points();
    assert_eq!(tree.subregions.len(), 4);
    assert!(tree.points.is_empty());
    assert_eq!(tree.size(), 16);
}

#[test]
fn redistribute_on_an_unsplittable_leaf_keeps_it() {
    let mut tree = Quadtree::new(Point::new(0, 0), Size2i::new(1, 1));
    for _ in 0..6 {
        tree.insert_point(Point::new(0, 0));
    }
    tree.redistribute_points();
    assert!(tree.subregions.is_empty());
    assert_eq!(tree.size(), 6);
}

#[test]
fn remove_point_never_merges_nested_children() {
    let mut tree = tree_4x4();
    // five points in the NW quadrant: the root splits, then NW splits too
    for (x, y) in [(0u32, 0u32), (1, 0), (0, 1), (1, 1), (0, 0)] {
        tree.insert_point(Point::new(x, y));
    }
    assert_eq!(tree.subregions.len(), 4);
    assert_eq!(tree.subregions[0].subregions.len(), 4);
    tree.remove_point(Point::new(1, 1));
    // the removal empties a grandchild's list but merges nothing
    assert_eq!(tree.subregions.len(), 4);
    assert_eq!(tree.subregions[0].subregions.len(), 4);
    assert_eq!(tree.size(), 4);
}

#[test]
fn unsplittable_leaf_accepts_points_beyond_capacity() {
    let mut tree = Quadtree::new(Point::new(0, 0), Size2i::new(1, 1));
    for _ in 0..6 {
        tree.insert_point(Point::new(0, 0));
    }
    assert!(tree.subregions.is_empty());
    assert_eq!(tree.size(), 6);
}

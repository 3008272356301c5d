use rust_quadtree::binary32::Binary32;
use rust_quadtree::node::QuadTreeNode;
use rust_quadtree::quadtree::{Point, QuadTree, Rectangle, Size};

fn num(v: f32) -> Binary32 {
    Binary32::from_bits(v.to_bits())
}

fn point(x: f32, y: f32) -> Point {
    Point { x: num(x), y: num(y) }
}

fn rect(x: f32, y: f32, width: f32, height: f32) -> Rectangle {
    Rectangle {
        top_left: Point { x: num(x), y: num(y) },
        size: Size { width: num(width), height: num(height) },
    }
}

fn flat(values: &[f32]) -> Vec<Binary32> {
    values.iter().map(|v| num(*v)).collect()
}

fn unit_tree() -> QuadTree {
    QuadTree::new(rect(0.0, 0.0, 1.0, 1.0))
}

/// Four small rectangles in the top left corner: they fill the root.
fn fill_root(qt: &mut QuadTree) {
    for k in 0..4 {
        let at = 0.01 + 0.02 * k as f32;
        qt.insert(rect(at, at, 0.01, 0.01));
    }
}

#[test]
fn test_quadtree_insertion() {
    // Define the boundary of the whole quadtree
    let boundary = Rectangle {
        top_left: Point { x: num(0.0), y: num(0.0) },
        size: Size { width: num(1.0), height: num(1.0) },
    };

    // Create a new QuadTree
    let mut qt = QuadTree::new(boundary);

    // Insert some items into the QuadTree
    qt.insert(Rectangle {
        top_left: Point { x: num(0.1), y: num(0.1) },
        size: Size { width: num(0.1), height: num(0.1) },
    });
    qt.insert(Rectangle {
        top_left: Point { x: num(0.2), y: num(0.2) },
        size: Size { width: num(0.1), height: num(0.1) },
    });

    // Query a point
    let query_point = Point { x: num(0.15), y: num(0.15) };
    let found_ids = qt.query_point(&query_point);

    // Print the found IDs
    println!("Found IDs: {:?}", found_ids);
    assert_eq!(found_ids, vec![0]);

    // Query a point
    let query_point = Point { x: num(0.25), y: num(0.25) };
    let found_ids = qt.query_point(&query_point);

    // Print the found IDs
    println!("Found IDs: {:?}", found_ids);
    assert_eq!(found_ids, vec![1]);
}

#[test]
fn new_tree_is_empty() {
    let qt = unit_tree();
    assert_eq!(qt.next_id(), 0);
    assert_eq!(qt.root().item_count(), 0);
    assert!(!qt.root().is_subdivided());
    assert_eq!(qt.root().boundary().size.width.to_bits(), 1.0f32.to_bits());
    assert_eq!(qt.query_point(&point(0.5, 0.5)), Vec::<u32>::new());
}

#[test]
fn ids_run_up_in_insertion_order() {
    let mut qt = unit_tree();
    assert_eq!(qt.insert(rect(0.1, 0.1, 0.1, 0.1)), 0);
    assert_eq!(qt.insert(rect(5.0, 5.0, 1.0, 1.0)), 1);
    qt.insert_many(&flat(&[0.3, 0.3, 0.1, 0.1, 9.0, 9.0, 1.0, 1.0, 0.5, 0.5, 0.1, 0.1]));
    assert_eq!(qt.next_id(), 5);
    assert_eq!(qt.insert(rect(0.7, 0.7, 0.1, 0.1)), 5);
    assert_eq!(qt.next_id(), 6);
    assert_eq!(qt.query_point(&point(0.15, 0.15)), vec![0]);
    assert_eq!(qt.query_point(&point(0.35, 0.35)), vec![2]);
    assert_eq!(qt.query_point(&point(0.55, 0.55)), vec![4]);
    assert_eq!(qt.query_point(&point(0.75, 0.75)), vec![5]);
}

#[test]
fn fifth_insertion_splits_the_node() {
    let mut qt = unit_tree();
    fill_root(&mut qt);
    assert_eq!(qt.root().item_count(), 4);
    assert!(!qt.root().is_subdivided());
    qt.insert(rect(0.6, 0.6, 0.1, 0.1));
    assert_eq!(qt.root().item_count(), 4);
    assert!(qt.root().is_subdivided());
    for k in 0..20 {
        qt.insert(rect(0.6, 0.6, 0.01 * k as f32, 0.1));
        assert_eq!(qt.root().item_count(), 4);
        assert!(qt.root().is_subdivided());
    }
}

#[test]
fn insertion_that_misses_does_not_split() {
    let mut qt = unit_tree();
    fill_root(&mut qt);
    qt.insert(rect(5.0, 5.0, 1.0, 1.0));
    assert!(!qt.root().is_subdivided());
    assert_eq!(qt.root().item_count(), 4);
}

#[test]
fn items_of_a_split_node_are_still_found() {
    let mut qt = unit_tree();
    fill_root(&mut qt);
    let before: Vec<Vec<u32>> =
        (0..4).map(|k| qt.query_point(&point(0.015 + 0.02 * k as f32, 0.015 + 0.02 * k as f32))).collect();
    assert_eq!(before, vec![vec![0], vec![1], vec![2], vec![3]]);
    qt.insert(rect(0.0, 0.0, 0.02, 0.02));
    qt.insert(rect(0.6, 0.6, 0.1, 0.1));
    assert!(qt.root().is_subdivided());
    assert_eq!(qt.query_point(&point(0.015, 0.015)), vec![0, 4]);
    assert_eq!(qt.query_point(&point(0.035, 0.035)), vec![1]);
    assert_eq!(qt.query_point(&point(0.055, 0.055)), vec![2]);
    assert_eq!(qt.query_point(&point(0.075, 0.075)), vec![3]);
    assert_eq!(qt.query_point(&point(0.65, 0.65)), vec![5]);
}

#[test]
fn straddling_rectangle_is_reported_once_per_child() {
    let mut qt = unit_tree();
    fill_root(&mut qt);
    // Across the vertical split line only.
    assert_eq!(qt.insert(rect(0.4, 0.1, 0.2, 0.1)), 4);
    assert_eq!(qt.query_point(&point(0.5, 0.15)), vec![4, 4]);
    assert_eq!(qt.query_point(&point(0.45, 0.15)), vec![4]);
    assert_eq!(qt.query_point(&point(0.55, 0.15)), vec![4]);
    // Across both split lines.
    assert_eq!(qt.insert(rect(0.4, 0.4, 0.2, 0.2)), 5);
    assert_eq!(qt.query_point(&point(0.5, 0.5)), vec![5, 5, 5, 5]);
    assert_eq!(qt.query_point(&point(0.5, 0.45)), vec![5, 5]);
    assert_eq!(qt.query_point(&point(0.45, 0.5)), vec![5, 5]);
    assert_eq!(qt.query_point(&point(0.45, 0.45)), vec![5]);
}

#[test]
fn results_come_in_traversal_order() {
    let mut qt = unit_tree();
    for _ in 0..4 {
        qt.insert(rect(0.0, 0.0, 1.0, 1.0));
    }
    qt.insert(rect(0.5, 0.5, 0.5, 0.5));
    qt.insert(rect(0.0, 0.0, 1.0, 1.0));
    qt.insert(rect(0.0, 0.5, 0.5, 0.5));
    // Own items first, then the children from top left to bottom right.
    assert_eq!(qt.query_point(&point(0.5, 0.5)), vec![0, 1, 2, 3, 5, 5, 5, 6, 4, 5]);
    assert_eq!(qt.query_point(&point(0.75, 0.75)), vec![0, 1, 2, 3, 4, 5]);
    assert_eq!(qt.query_point(&point(0.25, 0.75)), vec![0, 1, 2, 3, 5, 6]);
}

#[test]
fn rectangle_outside_is_dropped_silently() {
    let mut qt = unit_tree();
    assert_eq!(qt.insert(rect(5.0, 5.0, 1.0, 1.0)), 0);
    assert_eq!(qt.root().item_count(), 0);
    assert_eq!(qt.query_point(&point(5.5, 5.5)), Vec::<u32>::new());
    assert_eq!(qt.insert(rect(0.0, 0.0, 1.0, 1.0)), 1);
    for k in 0..10 {
        qt.insert(rect(0.1 * k as f32, 0.1 * k as f32, 0.3, 0.3));
    }
    for k in 0..12 {
        for l in 0..12 {
            let found = qt.query_point(&point(0.1 * k as f32, 0.1 * l as f32));
            assert!(!found.contains(&0));
        }
    }
    assert_eq!(qt.query_point(&point(5.5, 5.5)), Vec::<u32>::new());
}

#[test]
fn rectangle_that_touches_the_edge_is_dropped() {
    let mut qt = unit_tree();
    assert_eq!(qt.insert(rect(1.0, 0.0, 1.0, 1.0)), 0);
    assert_eq!(qt.root().item_count(), 0);
    assert_eq!(qt.query_point(&point(1.0, 0.5)), Vec::<u32>::new());
    assert_eq!(qt.insert(rect(0.9, 0.0, 1.0, 1.0)), 1);
    assert_eq!(qt.query_point(&point(1.0, 0.5)), vec![1]);
}

#[test]
fn point_outside_the_region_finds_nothing() {
    let mut qt = unit_tree();
    qt.insert(rect(0.5, 0.5, 2.0, 2.0));
    assert_eq!(qt.query_point(&point(1.0, 1.0)), vec![0]);
    assert_eq!(qt.query_point(&point(1.5, 1.5)), Vec::<u32>::new());
    assert_eq!(qt.query_point(&point(f32::NAN, 0.75)), Vec::<u32>::new());
}

#[test]
fn bulk_insert_discards_the_incomplete_group() {
    let mut qt = unit_tree();
    qt.insert_many(&flat(&[0.0, 0.0, 1.0, 1.0, 5.0, 5.0]));
    assert_eq!(qt.next_id(), 1);
    assert_eq!(qt.root().item_count(), 1);
    assert_eq!(qt.query_point(&point(0.5, 0.5)), vec![0]);
    assert_eq!(qt.query_point(&point(1.0, 1.0)), vec![0]);
    qt.insert_many(&flat(&[]));
    qt.insert_many(&flat(&[0.5]));
    qt.insert_many(&flat(&[0.5, 0.5, 0.5]));
    assert_eq!(qt.next_id(), 1);
    qt.insert_many(&flat(&[0.5, 0.5, 0.5, 0.5]));
    assert_eq!(qt.next_id(), 2);
    assert_eq!(qt.query_point(&point(0.75, 0.75)), vec![0, 1]);
}

#[test]
fn bulk_insert_is_the_same_as_single_inserts() {
    let values = [
        0.1f32, 0.1, 0.3, 0.3, 0.2, 0.2, 0.5, 0.1, 0.0, 0.6, 0.9, 0.2, 0.45, 0.45, 0.1, 0.1, 7.0,
        7.0, 1.0, 1.0, 0.3, 0.0, 0.4, 1.0, 0.49, 0.0, 0.02, 1.0, 0.8, 0.8, 0.3, 0.3, 0.25, 0.25,
    ];
    let mut bulk = unit_tree();
    bulk.insert_many(&flat(&values));
    let mut single = unit_tree();
    for group in values.chunks(4) {
        if group.len() == 4 {
            single.insert(rect(group[0], group[1], group[2], group[3]));
        }
    }
    assert_eq!(bulk.next_id(), 8);
    assert_eq!(single.next_id(), 8);
    for k in 0..=20 {
        for l in 0..=20 {
            let p = point(0.05 * k as f32, 0.05 * l as f32);
            assert_eq!(bulk.query_point(&p), single.query_point(&p));
        }
    }
}

#[test]
fn tree_agrees_with_a_plain_scan() {
    // Every rectangle lies inside the region and away from the split lines
    // of the first three levels, so each is reported at most where a scan of
    // all rectangles finds it.
    let mut state: u64 = 0x1234_5678_9abc_def0;
    let mut next = move || {
        state = state.wrapping_mul(6364136223846793005).wrapping_add(1442695040888963407);
        ((state >> 40) as f32) / 16777216.0
    };
    let mut qt = unit_tree();
    let mut all: Vec<(f32, f32, f32, f32)> = Vec::new();
    for _ in 0..200 {
        let (x, y, w, h) = (next() * 0.9, next() * 0.9, next() * 0.1, next() * 0.1);
        qt.insert(rect(x, y, w, h));
        all.push((x, y, w, h));
    }
    for _ in 0..2000 {
        let (px, py) = (next(), next());
        let mut found = qt.query_point(&point(px, py));
        found.sort();
        found.dedup();
        let mut want: Vec<u32> = Vec::new();
        for (id, (x, y, w, h)) in all.iter().enumerate() {
            let inside = px >= *x && px <= *x + *w && py >= *y && py <= *y + *h;
            // A rectangle without area is kept by no node.
            let kept = *w > 0.0 && *h > 0.0;
            if inside && kept {
                want.push(id as u32);
            }
        }
        assert_eq!(found, want);
    }
}

#[test]
fn node_insert_and_query() {
    let mut node = QuadTreeNode::new(rect(0.0, 0.0, 2.0, 2.0));
    node.insert(&rect(0.5, 0.5, 1.0, 1.0), 7);
    node.insert(&rect(3.0, 3.0, 1.0, 1.0), 8);
    node.insert(&rect(1.0, 1.0, 0.5, 0.5), 9);
    assert_eq!(node.item_count(), 2);
    assert_eq!(node.query_point(&point(1.0, 1.0)), vec![7, 9]);
    assert_eq!(node.query_point(&point(0.5, 0.5)), vec![7]);
    assert_eq!(node.query_point(&point(3.5, 3.5)), Vec::<u32>::new());
    assert_eq!(node.boundary().size.height.to_bits(), 2.0f32.to_bits());
}

#[test]
fn many_equal_rectangles_nest_deeply() {
    let mut qt = unit_tree();
    for _ in 0..40 {
        qt.insert(rect(0.3, 0.3, 0.001, 0.001));
    }
    let found = qt.query_point(&point(0.3005, 0.3005));
    assert_eq!(found, (0..40).collect::<Vec<u32>>());
}

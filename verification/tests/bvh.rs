use rusty_ray_tracer::bvh::{BBVTNode, BBVTNodeChild};
use std::cell::RefCell;

/// Triangles on a line, each at one position; a bounding volume is an interval.
fn line_tree(pos: &Vec<f64>) -> BBVTNode<(f64, f64)> {
    let bounds_of = |p: &Vec<usize>| {
        let mut lo = pos[p[0]];
        let mut hi = pos[p[0]];
        for &i in p {
            lo = lo.min(pos[i]);
            hi = hi.max(pos[i]);
        }
        (lo, hi)
    };
    let before = |_b: &(f64, f64), a: usize, b: usize| pos[a] < pos[b];
    let cost = |p: &Vec<usize>, q: &Vec<usize>| {
        let (a0, a1) = bounds_of(p);
        let (b0, b1) = bounds_of(q);
        0.125 + (a1 - a0) * p.len() as f64 + (b1 - b0) * q.len() as f64
    };
    let cheaper = |c: &f64, d: &f64| c < d;
    BBVTNode::build_bbv_tree(pos.len(), &bounds_of, &before, &cost, &cheaper)
}

fn leaves(node: &BBVTNode<(f64, f64)>, out: &mut Vec<usize>) {
    for child in [&node.child1, &node.child2] {
        match child {
            BBVTNodeChild::Node(n) => leaves(n, out),
            BBVTNodeChild::Triangle(t) => out.push(*t),
        }
    }
}

#[test]
fn leaves_are_all_triangles() {
    let pos = vec![5.0, 1.0, 3.0, 9.0, 7.0, 2.0, 8.0];
    let tree = line_tree(&pos);
    let mut found = Vec::new();
    leaves(&tree, &mut found);
    found.sort();
    assert_eq!(found, (0..7).collect::<Vec<usize>>());
}

#[test]
fn small_partitions_become_triangles() {
    let pos = vec![4.0, 2.0];
    let tree = line_tree(&pos);
    assert!(matches!(tree.child1, BBVTNodeChild::Triangle(_)));
    assert!(matches!(tree.child2, BBVTNodeChild::Triangle(_)));
    let pos = vec![0.0, 1.0, 10.0];
    let tree = line_tree(&pos);
    // the split after the second leaf keeps the close pair together
    assert!(matches!(tree.child1, BBVTNodeChild::Node(_)));
    assert!(matches!(tree.child2, BBVTNodeChild::Triangle(2)));
}

#[test]
fn root_bounds_cover_all_triangles() {
    let pos = vec![5.0, 1.0, 3.0, 9.0, 7.0];
    let tree = line_tree(&pos);
    assert_eq!(tree.bounds, (1.0, 9.0));
}

#[test]
fn tree_holds_every_triangle_once() {
    let pos = vec![5.0, 1.0, 3.0, 9.0, 7.0, 2.0];
    let tree = line_tree(&pos);
    let seen = RefCell::new(Vec::new());
    let concealed = tree.is_concealed(&|_b: &(f64, f64)| true, &|t: usize| {
        seen.borrow_mut().push(t);
        false
    });
    assert!(!concealed);
    let mut seen = seen.into_inner();
    seen.sort();
    assert_eq!(seen, vec![0, 1, 2, 3, 4, 5]);
}

#[test]
fn two_triangles_make_one_node() {
    let pos = vec![4.0, 2.0];
    let tree = line_tree(&pos);
    assert_eq!(tree.bounds, (2.0, 4.0));
    for k in 0..2usize {
        let found = tree.intersect(
            &|_b: &(f64, f64)| true,
            &|t: usize| if t == k { Some(t) } else { None },
            &|a: &usize, b: &usize| a < b,
        );
        assert_eq!(found, Some(k));
    }
}

#[test]
fn query_finds_the_nearest_hit() {
    let pos = vec![5.0, 1.0, 3.0, 9.0, 7.0];
    let tree = line_tree(&pos);
    // a ray from `origin` towards larger positions
    let query = |origin: f64| {
        tree.intersect(
            &|b: &(f64, f64)| b.1 >= origin,
            &|t: usize| if pos[t] >= origin { Some((pos[t] - origin, t)) } else { None },
            &|a: &(f64, usize), b: &(f64, usize)| a.0 < b.0,
        )
    };
    assert_eq!(query(2.0).map(|h| h.1), Some(2));
    assert_eq!(query(0.0).map(|h| h.1), Some(1));
    assert_eq!(query(8.5).map(|h| h.1), Some(3));
    assert_eq!(query(9.5), None);
}

#[test]
fn rejected_volumes_are_not_searched() {
    let pos = vec![5.0, 1.0, 3.0, 9.0];
    let tree = line_tree(&pos);
    let found = tree.intersect(
        &|_b: &(f64, f64)| false,
        &|t: usize| Some(t),
        &|a: &usize, b: &usize| a < b,
    );
    assert_eq!(found, None);
    assert!(!tree.is_concealed(&|_b: &(f64, f64)| false, &|_t: usize| true));
}

#[test]
fn concealment_between_two_points() {
    let pos = vec![5.0, 1.0, 3.0, 9.0];
    let tree = line_tree(&pos);
    let blocked = |from: f64, to: f64| {
        tree.is_concealed(
            &|b: &(f64, f64)| b.1 > from && b.0 < to,
            &|t: usize| pos[t] > from && pos[t] < to,
        )
    };
    assert!(blocked(0.0, 4.0));
    assert!(!blocked(5.5, 8.0));
    assert!(blocked(5.5, 9.5));
}

#[test]
fn parts_are_cut_from_the_sorted_order() {
    // sorted by position the leafs are 1, 2, 0; the cheapest cut keeps 1 and 2 together
    let pos = vec![10.0, 0.0, 1.0];
    let tree = line_tree(&pos);
    match &tree.child1 {
        BBVTNodeChild::Node(n) => {
            let mut inner = Vec::new();
            leaves(n, &mut inner);
            assert_eq!(inner, vec![1, 2]);
            assert_eq!(n.bounds, (0.0, 1.0));
        }
        BBVTNodeChild::Triangle(_) => panic!("expected a node of two leafs"),
    }
    assert!(matches!(tree.child2, BBVTNodeChild::Triangle(0)));
    assert_eq!(tree.bounds, (0.0, 10.0));
}

#[test]
fn the_first_of_equally_cheap_cuts_is_kept() {
    // both cuts of 0, 1, 2 cost the same; the cut after the first leaf comes first
    let pos = vec![0.0, 1.0, 2.0];
    let tree = line_tree(&pos);
    assert!(matches!(tree.child1, BBVTNodeChild::Triangle(0)));
    assert!(matches!(tree.child2, BBVTNodeChild::Node(_)));
}

use bhtree::bbox::{BBox3, Point3};
use bhtree::force::{
    bh_gravity_accelerations, build_tree, direct_interaction, Attractor, Interaction, Theta,
};
use bhtree::tree::{BHTreeNode, NBody, NodeKind};

fn p(x: i64, y: i64, z: i64) -> Point3 {
    Point3::new(x, y, z)
}

fn body(entity: u64, x: i64, y: i64, z: i64, mass: u64, radius: u64) -> NBody {
    NBody::new(entity, p(x, y, z), mass, radius)
}

fn ids(bodies: &[NBody]) -> Vec<u64> {
    let mut v: Vec<u64> = bodies.iter().map(|b| b.entity).collect();
    v.sort();
    v
}

/// Acceleration on `target` from a list of point masses, with G = 1.
fn accel(target: &NBody, attractors: &[Attractor]) -> [f64; 3] {
    let mut a = [0.0f64; 3];
    let pos = [
        target.position.x as f64,
        target.position.y as f64,
        target.position.z as f64,
    ];
    for at in attractors {
        let m = at.mass as f64;
        let c = [
            at.moment.x as f64 / m,
            at.moment.y as f64 / m,
            at.moment.z as f64 / m,
        ];
        let d = [c[0] - pos[0], c[1] - pos[1], c[2] - pos[2]];
        let d2 = d[0] * d[0] + d[1] * d[1] + d[2] * d[2];
        let dist = d2.sqrt();
        for k in 0..3 {
            let v = m / d2 * d[k] / dist;
            if v.is_finite() {
                a[k] += v;
            }
        }
    }
    a
}

fn sorted_attractors(i: &Interaction) -> Vec<(u64, i128, i128, i128)> {
    let mut v: Vec<(u64, i128, i128, i128)> = i
        .attractors
        .iter()
        .map(|a| (a.mass, a.moment.x, a.moment.y, a.moment.z))
        .collect();
    v.sort();
    v
}

#[test]
fn bbox_new_orders_corners() {
    let b = BBox3::new(&p(5, -1, 3), &p(-2, 4, 3));
    assert_eq!(b.pmin, p(-2, -1, 3));
    assert_eq!(b.pmax, p(5, 4, 3));
}

#[test]
fn bbox_from_points_is_tight() {
    let pts = vec![p(1, 2, 3), p(-4, 7, 0), p(2, -5, 9), p(0, 0, -1)];
    let b = BBox3::from(&pts);
    assert_eq!(b.pmin, p(-4, -5, -1));
    assert_eq!(b.pmax, p(2, 7, 9));
    for q in &pts {
        assert!(b.contains(q));
    }
}

#[test]
fn bbox_from_single_point_is_degenerate() {
    let b = BBox3::from(&vec![p(3, 4, 5)]);
    assert_eq!(b.pmin, b.pmax);
    assert!(b.is_empty());
}

#[test]
fn bbox_from_no_points_is_zero_box() {
    let b = BBox3::from(&Vec::new());
    assert_eq!(b, BBox3::default());
    assert_eq!(b.pmin, p(0, 0, 0));
    assert_eq!(b.pmax, p(0, 0, 0));
}

#[test]
fn bbox_center_and_contains() {
    let b = BBox3::new(&p(0, 0, 0), &p(10, 20, 5));
    assert_eq!(b.center(), p(5, 10, 2));
    assert!(b.contains(&p(10, 20, 5)));
    assert!(b.contains(&p(0, 0, 0)));
    assert!(!b.contains(&p(11, 0, 0)));
    assert!(!b.contains(&p(0, -1, 0)));
    assert!(!b.is_empty());
}

#[test]
fn bbox_encompass_grows_minimally() {
    let mut b = BBox3::new(&p(0, 0, 0), &p(1, 1, 1));
    b.encompass(&p(5, -3, 1));
    assert_eq!(b.pmin, p(0, -3, 0));
    assert_eq!(b.pmax, p(5, 1, 1));
    b.encompass(&p(2, 0, 1));
    assert_eq!(b.pmin, p(0, -3, 0));
    assert_eq!(b.pmax, p(5, 1, 1));
    b.encompass_all(&vec![p(-1, 0, 0), p(0, 0, 8)]);
    assert_eq!(b.pmin, p(-1, -3, 0));
    assert_eq!(b.pmax, p(5, 1, 8));
}

#[test]
fn subdivide_and_octant_index_agree() {
    let b = BBox3::new(&p(-8, -8, -8), &p(8, 8, 8));
    let octants = b.subdivide();
    let samples = [
        p(-8, -8, -8),
        p(8, 8, 8),
        p(0, 0, 0),
        p(1, 0, 0),
        p(0, 1, 0),
        p(0, 0, 1),
        p(-3, 5, 7),
        p(6, -2, 3),
        p(8, -8, 8),
    ];
    for q in &samples {
        let i = b.quadrant_index_for(q);
        assert!(octants[i].contains(q));
    }
    assert_eq!(b.quadrant_index_for(&p(1, 0, 0)), 1);
    assert_eq!(b.quadrant_index_for(&p(0, 1, 0)), 2);
    assert_eq!(b.quadrant_index_for(&p(0, 0, 1)), 4);
    assert_eq!(b.quadrant_index_for(&p(0, 0, 0)), 0);
    assert_eq!(b.quadrant_index_for(&p(5, 5, 5)), 7);
    assert_eq!(octants[0].pmin, p(-8, -8, -8));
    assert_eq!(octants[0].pmax, p(0, 0, 0));
    assert_eq!(octants[7].pmin, p(0, 0, 0));
    assert_eq!(octants[7].pmax, p(8, 8, 8));
    assert_eq!(octants[1].pmin, p(0, -8, -8));
    assert_eq!(octants[1].pmax, p(8, 0, 0));
}

#[test]
fn empty_node_holds_nothing() {
    let b = BBox3::new(&p(0, 0, 0), &p(4, 4, 4));
    let n = BHTreeNode::new(&b);
    assert_eq!(n.mass, 0);
    assert!(n.collect_bodies().is_empty());
    assert!(matches!(n.kind, NodeKind::Empty));
}

#[test]
fn insert_splits_leaf_and_aggregates() {
    let b = BBox3::new(&p(0, 0, 0), &p(16, 16, 16));
    let mut n = BHTreeNode::new(&b);
    n.insert(body(1, 1, 1, 1, 3, 0));
    assert!(matches!(n.kind, NodeKind::Leaf(_)));
    assert_eq!(n.mass, 3);
    n.insert(body(2, 15, 15, 15, 5, 0));
    assert!(matches!(n.kind, NodeKind::Internal(_)));
    assert_eq!(n.mass, 8);
    assert_eq!(n.moment.x, 3 * 1 + 5 * 15);
    assert_eq!(n.moment.y, 3 * 1 + 5 * 15);
    assert_eq!(n.moment.z, 3 * 1 + 5 * 15);
    if let NodeKind::Internal(cs) = &n.kind {
        assert_eq!(cs.len(), 8);
        assert_eq!(cs[0].mass, 3);
        assert_eq!(cs[7].mass, 5);
    }
}

#[test]
fn built_tree_iterates_every_body_once() {
    let bodies = vec![
        body(10, 0, 0, 0, 4, 0),
        body(11, 100, 3, -7, 2, 0),
        body(12, -50, 40, 9, 7, 0),
        body(13, 33, -21, 60, 1, 0),
        body(14, 34, -21, 60, 1, 0),
        body(15, -99, -99, -99, 9, 0),
    ];
    let tree = build_tree(&bodies);
    let out = tree.collect_bodies();
    assert_eq!(out.len(), bodies.len());
    assert_eq!(ids(&out), ids(&bodies));
    assert_eq!(tree.mass, 24);
    let mx: i128 = bodies.iter().map(|b| b.mass as i128 * b.position.x as i128).sum();
    let my: i128 = bodies.iter().map(|b| b.mass as i128 * b.position.y as i128).sum();
    let mz: i128 = bodies.iter().map(|b| b.mass as i128 * b.position.z as i128).sum();
    assert_eq!(tree.moment.x, mx);
    assert_eq!(tree.moment.y, my);
    assert_eq!(tree.moment.z, mz);
}

#[test]
fn insertion_order_does_not_change_contents() {
    let a = vec![
        body(1, 5, 5, 5, 1, 0),
        body(2, -5, 5, 5, 2, 0),
        body(3, 5, -5, 5, 3, 0),
        body(4, 5, 5, -5, 4, 0),
    ];
    let mut b = a.clone();
    b.reverse();
    let ta = build_tree(&a);
    let tb = build_tree(&b);
    assert_eq!(ids(&ta.collect_bodies()), ids(&tb.collect_bodies()));
    assert_eq!(ta.mass, tb.mass);
    assert_eq!(ta.moment, tb.moment);
}

#[test]
fn coincident_bodies_share_a_leaf() {
    let bodies = vec![
        body(1, 7, 7, 7, 2, 0),
        body(2, 7, 7, 7, 3, 0),
        body(3, 7, 7, 7, 4, 0),
        body(4, 0, 0, 0, 1, 0),
    ];
    let tree = build_tree(&bodies);
    assert_eq!(ids(&tree.collect_bodies()), vec![1, 2, 3, 4]);
    assert_eq!(tree.mass, 10);
}

#[test]
fn from_uses_given_bounds() {
    let bounds = BBox3::new(&p(-100, -100, -100), &p(100, 100, 100));
    let bodies = vec![body(1, 1, 2, 3, 5, 0), body(2, -4, 5, -6, 6, 0)];
    let tree = BHTreeNode::from(&bounds, &bodies);
    assert_eq!(tree.bounds, bounds);
    assert_eq!(tree.mass, 11);
    assert_eq!(tree.moment.x, 5 * 1 + 6 * -4);
}

#[test]
fn single_body_feels_nothing() {
    let bodies = vec![body(42, 3, 4, 5, 10, 2)];
    let results = bh_gravity_accelerations(&bodies, &Theta::default());
    assert_eq!(results.len(), 1);
    assert_eq!(results[0].0, 42);
    assert!(results[0].1.attractors.is_empty());
    assert!(results[0].1.collisions.is_empty());
    let a = accel(&bodies[0], &results[0].1.attractors);
    assert_eq!(a, [0.0, 0.0, 0.0]);
}

#[test]
fn empty_input_gives_empty_output() {
    let results = bh_gravity_accelerations(&Vec::new(), &Theta::default());
    assert!(results.is_empty());
}

#[test]
fn three_body_example_points_the_right_way() {
    let bodies = vec![
        body(1, 0, 0, 0, 100, 0),
        body(2, 10, 0, 0, 1, 0),
        body(3, 20, 0, 0, 1, 0),
    ];
    let theta = Theta::default();
    assert_eq!(theta, Theta::new(1, 2));
    let tree = build_tree(&bodies);
    let far = tree.calculate_acceleration(&bodies[2], &theta);
    let a_far = accel(&bodies[2], &far.attractors);
    assert!(a_far[0] < 0.0);
    assert_eq!(a_far[1], 0.0);
    assert_eq!(a_far[2], 0.0);
    // The heavy body alone pulls 100/400; the light one at distance 10 adds 1/100.
    assert!(a_far[0] < -0.25);
    assert!(far.collisions.is_empty());
    let origin = tree.calculate_acceleration(&bodies[0], &theta);
    let a_origin = accel(&bodies[0], &origin.attractors);
    assert!(a_origin[0] > 0.0);
    assert!(origin.collisions.is_empty());
}

#[test]
fn overlapping_pair_collides_both_ways() {
    let bodies = vec![body(1, 0, 0, 0, 5, 3), body(2, 4, 0, 0, 5, 2)];
    let results = bh_gravity_accelerations(&bodies, &Theta::default());
    assert_eq!(results.len(), 2);
    for (id, inter) in &results {
        assert_eq!(inter.collisions, vec![*id]);
        assert!(inter.attractors.is_empty());
    }
}

#[test]
fn distant_pair_does_not_collide() {
    let bodies = vec![body(1, 0, 0, 0, 5, 3), body(2, 6, 0, 0, 5, 2)];
    let results = bh_gravity_accelerations(&bodies, &Theta::default());
    assert_eq!(results.len(), 2);
    for (_, inter) in &results {
        assert!(inter.collisions.is_empty());
        assert_eq!(inter.attractors.len(), 1);
        assert_eq!(inter.attractors[0].mass, 5);
    }
}

#[test]
fn zero_theta_matches_direct_sum() {
    let bodies = vec![
        body(1, 0, 0, 0, 40, 1),
        body(2, 1000, 20, -30, 3, 1),
        body(3, 1010, 25, -30, 2, 1),
        body(4, -700, 800, 100, 9, 1),
        body(5, -710, 805, 90, 1, 1),
        body(6, 300, -900, 400, 6, 1),
        body(7, 2, 1, 0, 1, 1),
    ];
    let tree = build_tree(&bodies);
    let exact = Theta::new(0, 1);
    for b in &bodies {
        let walked = tree.calculate_acceleration(b, &exact);
        let direct = direct_interaction(&bodies, b);
        assert_eq!(sorted_attractors(&walked), sorted_attractors(&direct));
        assert_eq!(walked.collisions, direct.collisions);
        assert_eq!(walked.attractors.len(), bodies.len() - 1 - direct.collisions.len());
    }
}

#[test]
fn approximation_groups_distant_cluster() {
    let bodies = vec![
        body(1, 0, 0, 0, 1, 0),
        body(2, 10000, 10000, 10000, 2, 0),
        body(3, 10001, 10000, 10000, 3, 0),
        body(4, 10000, 10001, 10000, 4, 0),
    ];
    let tree = build_tree(&bodies);
    let walked = tree.calculate_acceleration(&bodies[0], &Theta::default());
    assert_eq!(walked.attractors.len(), 1);
    assert_eq!(walked.attractors[0].mass, 9);
    assert_eq!(walked.attractors[0].moment.x, 2 * 10000 + 3 * 10001 + 4 * 10000);
    let direct = direct_interaction(&bodies, &bodies[0]);
    assert_eq!(direct.attractors.len(), 3);
}

#[test]
fn collect_accelerations_covers_every_body() {
    let bodies = vec![
        body(1, 0, 0, 0, 5, 0),
        body(2, 50, 0, 0, 5, 0),
        body(3, 0, 50, 0, 5, 0),
    ];
    let tree = build_tree(&bodies);
    let results = tree.collect_accelerations(&Theta::default());
    let mut got: Vec<u64> = results.iter().map(|r| r.0).collect();
    got.sort();
    assert_eq!(got, vec![1, 2, 3]);
    for (_, inter) in &results {
        assert_eq!(inter.attractors.len(), 2);
    }
}

#[test]
fn point_validity_limits() {
    assert!(p(16777216, -16777216, 0).is_valid());
    assert!(!p(16777217, 0, 0).is_valid());
}

#[test]
fn bulk_insert_then_update_matches_incremental() {
    let bodies = vec![
        body(1, 12, -40, 7, 3, 0),
        body(2, -30, 22, 19, 8, 0),
        body(3, 44, 44, -44, 2, 0),
        body(4, 45, 44, -44, 6, 0),
        body(5, 0, 0, 0, 1, 0),
    ];
    let positions: Vec<Point3> = bodies.iter().map(|b| b.position).collect();
    let bounds = BBox3::from(&positions);
    let incremental = BHTreeNode::from(&bounds, &bodies);
    let mut bulk = BHTreeNode::new(&bounds);
    for b in &bodies {
        bulk.insert_no_update(*b);
    }
    assert_eq!(bulk.mass, 0);
    bulk.update_all();
    assert_eq!(bulk.mass, incremental.mass);
    assert_eq!(bulk.moment, incremental.moment);
    assert_eq!(bulk.mass, 20);
    assert_eq!(ids(&bulk.collect_bodies()), ids(&incremental.collect_bodies()));
}

#[test]
fn update_recomputes_leaf_aggregates() {
    let b = BBox3::new(&p(0, 0, 0), &p(8, 8, 8));
    let mut n = BHTreeNode::new(&b);
    n.insert_no_update(body(1, 2, 3, 4, 5, 0));
    assert_eq!(n.mass, 0);
    n.update();
    assert_eq!(n.mass, 5);
    assert_eq!(n.moment.x, 10);
    assert_eq!(n.moment.y, 15);
    assert_eq!(n.moment.z, 20);
}

#[test]
fn lazy_walk_yields_each_body_then_stops() {
    let bodies = vec![
        body(1, -3, -3, -3, 1, 0),
        body(2, 3, 3, 3, 1, 0),
        body(3, 3, -3, 3, 1, 0),
    ];
    let tree = build_tree(&bodies);
    let mut it = tree.iter();
    let mut seen = Vec::new();
    while let Some(b) = it.next() {
        seen.push(b);
    }
    assert_eq!(ids(&seen), vec![1, 2, 3]);
    assert!(it.next().is_none());
    assert_eq!(seen, tree.collect_bodies());
}

#[test]
fn upper_octant_starts_at_centre() {
    let b = BBox3::new(&p(0, 0, 0), &p(2, 2, 2));
    assert_eq!(b.center(), p(1, 1, 1));
    let octants = b.subdivide();
    assert_eq!(octants[1].pmin, p(1, 0, 0));
    assert_eq!(octants[1].pmax, p(2, 1, 1));
    assert!(octants[1].contains(&p(1, 0, 0)));
    assert!(octants[0].contains(&p(1, 0, 0)));
    assert_eq!(b.quadrant_index_for(&p(1, 0, 0)), 0);
    assert_eq!(b.quadrant_index_for(&p(2, 0, 0)), 1);
}

#[test]
fn box_of_unit_extent_keeps_bodies_in_one_leaf() {
    let bodies = vec![
        body(1, 0, 0, 0, 1, 0),
        body(2, 1, 0, 0, 2, 0),
        body(3, 1, 1, 1, 3, 0),
    ];
    let tree = build_tree(&bodies);
    match &tree.kind {
        NodeKind::Leaf(bs) => assert_eq!(bs.len(), 3),
        _ => panic!("expected a single leaf"),
    }
    assert_eq!(tree.mass, 6);
}

fn same_nodes(a: &BHTreeNode, b: &BHTreeNode) -> bool {
    if a.bounds != b.bounds || a.mass != b.mass || a.moment != b.moment {
        return false;
    }
    match (&a.kind, &b.kind) {
        (NodeKind::Empty, NodeKind::Empty) => true,
        (NodeKind::Leaf(x), NodeKind::Leaf(y)) => ids(x) == ids(y),
        (NodeKind::Internal(x), NodeKind::Internal(y)) => {
            x.len() == y.len() && x.iter().zip(y.iter()).all(|(c, d)| same_nodes(c, d))
        }
        _ => false,
    }
}

#[test]
fn bulk_and_incremental_trees_agree_node_by_node() {
    let bodies = vec![
        body(1, 0, 0, 0, 3, 0),
        body(2, 40, 0, 0, 2, 0),
        body(3, 40, 40, 0, 5, 0),
        body(4, 41, 40, 0, 1, 0),
        body(5, 20, 20, 0, 7, 0),
        body(6, 10, 30, 0, 4, 0),
    ];
    let positions: Vec<Point3> = bodies.iter().map(|b| b.position).collect();
    let bounds = BBox3::from(&positions);
    let incremental = BHTreeNode::from(&bounds, &bodies);
    let mut bulk = BHTreeNode::new(&bounds);
    for b in bodies.iter().rev() {
        bulk.insert_no_update(*b);
    }
    bulk.update_all();
    assert!(same_nodes(&bulk, &incremental));
    bulk.update_all();
    assert!(same_nodes(&bulk, &incremental));
}

#[test]
fn insert_changes_only_the_named_child() {
    let b = BBox3::new(&p(0, 0, 0), &p(16, 16, 16));
    let mut n = BHTreeNode::new(&b);
    n.insert(body(1, 1, 1, 1, 3, 0));
    n.insert(body(2, 15, 15, 15, 5, 0));
    n.insert(body(3, 15, 1, 1, 2, 0));
    if let NodeKind::Internal(cs) = &n.kind {
        assert_eq!(cs[0].mass, 3);
        assert_eq!(cs[1].mass, 2);
        assert_eq!(cs[7].mass, 5);
        for k in [2usize, 3, 4, 5, 6] {
            assert!(matches!(cs[k].kind, NodeKind::Empty));
        }
    } else {
        panic!("expected an internal node");
    }
}

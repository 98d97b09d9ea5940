use nbody::boundary::{reflects, Side};
use nbody::octant::{child_index, is_upper_half, OCTANTS};
use nbody::tree::{Octree, OctreeNode};

fn node<'a>(t: &'a Octree, path: &[u8]) -> &'a OctreeNode {
    let mut n = &t.root;
    for &k in path {
        n = &n.children[k as usize];
    }
    n
}

#[test]
fn child_index_sets_one_bit_per_axis() {
    assert_eq!(child_index(false, false, false), 0);
    assert_eq!(child_index(false, false, true), 1);
    assert_eq!(child_index(false, true, false), 2);
    assert_eq!(child_index(true, false, false), 4);
    assert_eq!(child_index(true, true, true), 7);
    assert_eq!(OCTANTS, 8);
}

#[test]
fn child_halves_invert_the_index() {
    for x in [false, true] {
        for y in [false, true] {
            for z in [false, true] {
                let i = child_index(x, y, z);
                assert_eq!(is_upper_half(i, 0), x);
                assert_eq!(is_upper_half(i, 1), y);
                assert_eq!(is_upper_half(i, 2), z);
            }
        }
    }
}

#[test]
fn empty_tree_has_no_bodies() {
    let t = Octree::new(4);
    assert!(t.root.bodies.is_empty());
    assert!(t.root.children.is_empty());
    assert_eq!(t.excluded(), 0);
}

#[test]
fn single_body_stays_in_root_leaf() {
    let mut t = Octree::new(3);
    let id = t.insert(Some(vec![5, 1, 2]));
    assert_eq!(id, 0);
    assert_eq!(t.root.bodies, vec![0]);
    assert!(t.root.children.is_empty());
}

#[test]
fn second_body_splits_the_leaf() {
    let t = Octree::build(vec![Some(vec![0, 1, 2]), Some(vec![7, 3, 3])], 3);
    assert_eq!(t.root.children.len(), 8);
    assert_eq!(t.root.bodies, vec![0, 1]);
    assert_eq!(node(&t, &[0]).bodies, vec![0]);
    assert!(node(&t, &[0]).children.is_empty());
    assert_eq!(node(&t, &[7]).bodies, vec![1]);
    for k in 1..7u8 {
        assert!(node(&t, &[k]).bodies.is_empty());
    }
}

#[test]
fn shared_octant_splits_until_routes_part() {
    let t = Octree::build(vec![Some(vec![2, 4, 1]), Some(vec![2, 4, 6])], 3);
    assert_eq!(node(&t, &[2]).bodies, vec![0, 1]);
    assert_eq!(node(&t, &[2, 4]).bodies, vec![0, 1]);
    assert_eq!(node(&t, &[2, 4, 1]).bodies, vec![0]);
    assert_eq!(node(&t, &[2, 4, 6]).bodies, vec![1]);
    assert!(node(&t, &[2, 4, 6]).children.is_empty());
}

#[test]
fn coincident_bodies_share_the_deepest_leaf() {
    let t = Octree::build(vec![Some(vec![3, 3]), Some(vec![3, 3]), Some(vec![3, 3])], 2);
    let leaf = node(&t, &[3, 3]);
    assert_eq!(leaf.bodies, vec![0, 1, 2]);
    assert!(leaf.children.is_empty());
}

#[test]
fn bodies_outside_are_counted_and_left_out() {
    let t = Octree::build(vec![None, Some(vec![1, 1]), None, Some(vec![6, 0])], 2);
    assert_eq!(t.excluded(), 2);
    assert_eq!(t.root.bodies, vec![1, 3]);
    assert_eq!(t.routes.len(), 4);
}

#[test]
fn indices_follow_insertion_order() {
    let mut t = Octree::new(2);
    assert_eq!(t.insert(Some(vec![0, 0])), 0);
    assert_eq!(t.insert(None), 1);
    assert_eq!(t.insert(Some(vec![4, 4])), 2);
    assert_eq!(t.routes[0], Some(vec![0, 0]));
    assert_eq!(t.routes[1], None);
    assert_eq!(t.routes[2], Some(vec![4, 4]));
}

#[test]
fn opening_everything_yields_the_leaves() {
    let t = Octree::build(
        vec![Some(vec![2, 4, 1]), Some(vec![2, 4, 6]), Some(vec![5, 0, 0])],
        3,
    );
    let never = |_: &Vec<u8>| false;
    let paths = t.point_masses(&never);
    assert_eq!(paths, vec![vec![2, 4, 1], vec![2, 4, 6], vec![5]]);
}

#[test]
fn accepting_the_root_yields_one_point_mass() {
    let t = Octree::build(vec![Some(vec![2, 4]), Some(vec![5, 0])], 2);
    let always = |_: &Vec<u8>| true;
    assert_eq!(t.point_masses(&always), vec![Vec::<u8>::new()]);
}

#[test]
fn accepting_one_subtree_keeps_the_rest_open() {
    let t = Octree::build(
        vec![Some(vec![2, 4, 1]), Some(vec![2, 4, 6]), Some(vec![5, 0, 0]), Some(vec![5, 1, 0])],
        3,
    );
    let far = |p: &Vec<u8>| p.len() == 1 && p[0] == 2;
    assert_eq!(t.point_masses(&far), vec![vec![2], vec![5, 0], vec![5, 1]]);
}

#[test]
fn empty_tree_has_no_point_masses() {
    let t = Octree::new(3);
    let never = |_: &Vec<u8>| false;
    assert!(t.point_masses(&never).is_empty());
}

#[test]
fn reflection_only_outside_moving_outward() {
    assert!(reflects(Side::Above, Side::Above));
    assert!(reflects(Side::Below, Side::Below));
    assert!(!reflects(Side::Above, Side::Below));
    assert!(!reflects(Side::Below, Side::Above));
    assert!(!reflects(Side::Inside, Side::Above));
    assert!(!reflects(Side::Inside, Side::Below));
    assert!(!reflects(Side::Above, Side::Inside));
}

#[test]
fn every_body_lies_in_exactly_one_point_mass() {
    let routes = vec![
        Some(vec![0, 0, 0]),
        Some(vec![0, 0, 7]),
        Some(vec![0, 3, 1]),
        None,
        Some(vec![6, 2, 2]),
        Some(vec![6, 2, 2]),
        Some(vec![6, 5, 4]),
    ];
    let t = Octree::build(routes.clone(), 3);
    let far = |p: &Vec<u8>| p.len() == 2;
    let paths = t.point_masses(&far);
    for (b, r) in routes.iter().enumerate() {
        let hits = paths
            .iter()
            .filter(|p| r.as_ref().map_or(false, |r| r.starts_with(p)))
            .count();
        assert_eq!(hits, if r.is_some() { 1 } else { 0 }, "body {}", b);
    }
    assert_eq!(paths, vec![vec![0, 0], vec![0, 3], vec![6, 2], vec![6, 5]]);
}

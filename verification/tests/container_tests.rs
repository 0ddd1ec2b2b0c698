//! Tests of the supporting pieces: the graph arena, the ordered id map and
//! the fixed-point geometry.

use road_graph::geom::{isqrt64, lane_endpoints, snap_on_segment, Vec2};
use road_graph::graph::Graph;
use road_graph::idmap::IdMap;

#[test]
fn arena_push_get_and_edge_cleanup() {
    let mut g: Graph<u32> = Graph::new();
    let a = g.push(10);
    let b = g.push(20);
    let c = g.push(30);
    assert_eq!(g.get(a), Some(&10));
    assert_eq!(g.get(99), None);
    g.add_neigh(a, b, 1);
    g.add_neigh(b, c, 2);
    g.add_neigh(c, a, 3);
    assert_eq!(g.get_neighs(a).len(), 1);
    assert_eq!(g.get_backward_neighs(a), vec![c]);
    // removing b drops both edges that mention it, in either direction
    g.remove_node(b);
    assert!(!g.is_live(b));
    assert_eq!(g.get(b), None);
    assert_eq!(g.get_neighs(a).len(), 0);
    assert_eq!(g.get_backward_neighs(c).len(), 0);
    assert_eq!(g.get_neighs(c).len(), 1);
    // ids are not reused
    let d = g.push(40);
    assert_eq!(d, 3);
}

#[test]
fn arena_remove_neigh_is_single_edge() {
    let mut g: Graph<u32> = Graph::new();
    let a = g.push(1);
    let b = g.push(2);
    g.add_neigh(a, b, 5);
    g.add_neigh(b, a, 6);
    g.remove_neigh(a, b);
    assert_eq!(g.get_neighs(a).len(), 0);
    assert_eq!(g.get_neighs(b).len(), 1);
    // removing an absent edge is a no-op
    g.remove_neigh(a, b);
    assert_eq!(g.get_neighs(b).len(), 1);
}

#[test]
fn idmap_keeps_insertion_order() {
    let mut m = IdMap::new();
    m.insert(7, 70);
    m.insert(3, 30);
    m.insert(9, 90);
    assert_eq!(m.len(), 3);
    assert_eq!(m.kth(0), (7, 70));
    assert_eq!(m.kth(1), (3, 30));
    assert_eq!(m.get(3), Some(30));
    assert_eq!(m.get(4), None);
    m.remove(3);
    assert_eq!(m.len(), 2);
    assert_eq!(m.kth(1), (9, 90));
    assert!(!m.contains_key(3));
}

#[test]
fn integer_square_root_is_exact() {
    assert_eq!(isqrt64(0), 0);
    assert_eq!(isqrt64(1), 1);
    assert_eq!(isqrt64(3), 1);
    assert_eq!(isqrt64(4), 2);
    assert_eq!(isqrt64(1_000_000), 1_000);
    assert_eq!(isqrt64(999_999), 999);
    assert_eq!(isqrt64(u64::MAX), 4_294_967_295);
}

#[test]
fn lane_endpoints_on_axis() {
    let (out, into) = lane_endpoints(Vec2::new(0, 0), Vec2::new(40_000, 0));
    assert_eq!(out, Vec2::new(20_000, -4_000));
    assert_eq!(into, Vec2::new(20_000, -4_000));
    let (out2, into2) = lane_endpoints(Vec2::new(0, 0), Vec2::new(80_000, 0));
    assert_eq!(out2, Vec2::new(25_000, -4_000));
    assert_eq!(into2, Vec2::new(55_000, -4_000));
    // a vertical road puts the lanes on the other axis
    let (out3, _) = lane_endpoints(Vec2::new(0, 0), Vec2::new(0, 40_000));
    assert_eq!(out3, Vec2::new(4_000, 20_000));
}

#[test]
fn snapping_clamps_to_the_segment() {
    let a = Vec2::new(0, 0);
    let b = Vec2::new(100_000, 0);
    assert_eq!(snap_on_segment(Vec2::new(50_000, 500), a, b), Vec2::new(50_000, 0));
    assert_eq!(snap_on_segment(Vec2::new(-10_000, 500), a, b), Vec2::new(0, 0));
    assert_eq!(snap_on_segment(Vec2::new(500_000, 500), a, b), Vec2::new(100_000, 0));
    assert_eq!(snap_on_segment(Vec2::new(7, 7), a, a), a);
}

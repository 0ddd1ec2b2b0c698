//! End-to-end tests of the road network: editing operations, schedules,
//! derived geometry and projection.

use road_graph::geom::{Vec2, SUBUNITS};
use road_graph::lights::{TrafficBehavior, TrafficLight, TrafficLightSchedule};
use road_graph::pattern::LanePatternBuilder;
use road_graph::project::ProjectKind;
use road_graph::road_graph::{RoadGraph, RoadGraphError};
use road_graph::roadbuild::{BuildState, RoadBuildResource, Tool};

fn units(x: i64, y: i64) -> Vec2 {
    Vec2::new(x * SUBUNITS, y * SUBUNITS)
}

fn count_live_nodes(g: &RoadGraph) -> usize {
    let mut n = 0;
    let bound = g.nodes().id_bound();
    for i in 0..bound {
        if g.nodes().is_live(i) {
            n += 1;
        }
    }
    n
}

fn edge_pairs(g: &RoadGraph) -> Vec<(usize, usize)> {
    let mut out = Vec::new();
    let bound = g.intersections().id_bound();
    for i in 0..bound {
        for e in g.intersections().get_neighs(i) {
            out.push((i, e.to));
        }
    }
    out.sort();
    out
}

#[test]
fn connect_creates_mirrored_maps() {
    let mut g = RoadGraph::new();
    let a = g.add_intersection(units(0, 0));
    let b = g.add_intersection(units(40, 0));
    let pattern = LanePatternBuilder::new().build();
    let road = g.connect(a, b, pattern).unwrap();
    assert_eq!(g.roads().get(road).unwrap().src, a);
    assert_eq!(g.roads().get(road).unwrap().dst, b);
    let ia = g.intersections().get(a).unwrap();
    let ib = g.intersections().get(b).unwrap();
    let out_ab = ia.out_nodes.get(b).unwrap();
    let in_ab = ib.in_nodes.get(a).unwrap();
    let out_ba = ib.out_nodes.get(a).unwrap();
    let in_ba = ia.in_nodes.get(b).unwrap();
    assert_ne!(out_ab, in_ab);
    assert_ne!(out_ba, in_ba);
    // the internal zero-weight link joins each pair
    let neighs: Vec<usize> = g.nodes().get_neighs(out_ab).iter().map(|e| e.to).collect();
    assert!(neighs.contains(&in_ab));
    assert_eq!(count_live_nodes(&g), 4);
}

#[test]
fn connect_disconnect_round_trip() {
    let mut g = RoadGraph::new();
    let a = g.add_intersection(units(0, 0));
    let b = g.add_intersection(units(40, 0));
    let c = g.add_intersection(units(0, 40));
    let pattern = LanePatternBuilder::new().build();
    g.connect(a, c, pattern).unwrap();
    let edges_before = edge_pairs(&g);
    let nodes_before = count_live_nodes(&g);
    g.connect(a, b, pattern).unwrap();
    g.disconnect(a, b);
    assert_eq!(edge_pairs(&g), edges_before);
    assert_eq!(count_live_nodes(&g), nodes_before);
    let ia = g.intersections().get(a).unwrap();
    assert!(ia.out_nodes.get(b).is_none());
    assert!(ia.in_nodes.get(b).is_none());
}

#[test]
fn degenerate_connect_rejected() {
    let mut g = RoadGraph::new();
    let a = g.add_intersection(units(10, 10));
    let b = g.add_intersection(units(10, 10));
    let pattern = LanePatternBuilder::new().build();
    let edges_before = edge_pairs(&g);
    let nodes_before = count_live_nodes(&g);
    let r = g.connect(a, b, pattern);
    assert_eq!(r, Err(RoadGraphError::SamePosition));
    assert_eq!(edge_pairs(&g), edges_before);
    assert_eq!(count_live_nodes(&g), nodes_before);
}

#[test]
fn connect_error_cases() {
    let mut g = RoadGraph::new();
    let a = g.add_intersection(units(0, 0));
    let b = g.add_intersection(units(40, 0));
    let pattern = LanePatternBuilder::new().build();
    assert_eq!(g.connect(a, 99, pattern), Err(RoadGraphError::NotFound));
    g.connect(a, b, pattern).unwrap();
    assert_eq!(g.connect(a, b, pattern), Err(RoadGraphError::AlreadyConnected));
    assert_eq!(g.update_traffic_lights(77), Err(RoadGraphError::NotFound));
    assert_eq!(g.delete_inter(77), Err(RoadGraphError::NotFound));
}

fn in_lights(g: &RoadGraph, i: usize) -> Vec<TrafficLight> {
    let inter = g.intersections().get(i).unwrap();
    let mut out = Vec::new();
    for k in 0..inter.in_nodes.len() {
        let (_, nid) = inter.in_nodes.kth(k);
        out.push(g.nodes().get(nid).unwrap().light);
    }
    out
}

#[test]
fn schedule_recompute_is_idempotent() {
    let mut g = RoadGraph::new();
    let hub = g.add_intersection(units(0, 0));
    let n1 = g.add_intersection(units(40, 0));
    let n2 = g.add_intersection(units(0, 40));
    let n3 = g.add_intersection(units(-40, 0));
    let pattern = LanePatternBuilder::new().build();
    g.connect(hub, n1, pattern).unwrap();
    g.connect(hub, n2, pattern).unwrap();
    g.connect(hub, n3, pattern).unwrap();
    let before = in_lights(&g, hub);
    g.update_traffic_lights(hub).unwrap();
    let once = in_lights(&g, hub);
    g.update_traffic_lights(hub).unwrap();
    let twice = in_lights(&g, hub);
    assert_eq!(before, once);
    assert_eq!(once, twice);
}

#[test]
fn trivial_intersections_stay_always() {
    let mut g = RoadGraph::new();
    let hub = g.add_intersection(units(0, 0));
    let n1 = g.add_intersection(units(40, 0));
    let n2 = g.add_intersection(units(0, 40));
    let pattern = LanePatternBuilder::new().build();
    g.connect(hub, n1, pattern).unwrap();
    g.connect(hub, n2, pattern).unwrap();
    // two incoming lanes: no arbitration
    for l in in_lights(&g, hub) {
        assert!(l.is_always());
    }
    let n3 = g.add_intersection(units(-40, 0));
    g.connect(hub, n3, pattern).unwrap();
    // three incoming lanes: alternating periodic schedules
    let lights = in_lights(&g, hub);
    assert_eq!(lights.len(), 3);
    for l in &lights {
        assert!(!l.is_always());
    }
    assert_eq!(
        lights[0],
        TrafficLight::Periodic(TrafficLightSchedule::from_basic(10, 3, 13, 13))
    );
    assert_eq!(
        lights[1],
        TrafficLight::Periodic(TrafficLightSchedule::from_basic(10, 3, 13, 0))
    );
    assert_eq!(
        lights[2],
        TrafficLight::Periodic(TrafficLightSchedule::from_basic(10, 3, 13, 13))
    );
}

#[test]
fn phase_buckets_follow_the_cycle() {
    let s = TrafficLightSchedule::from_basic(10, 3, 13, 0);
    assert_eq!(s.phase(0), TrafficBehavior::GREEN);
    assert_eq!(s.phase(9), TrafficBehavior::GREEN);
    assert_eq!(s.phase(10), TrafficBehavior::ORANGE);
    assert_eq!(s.phase(12), TrafficBehavior::ORANGE);
    assert_eq!(s.phase(13), TrafficBehavior::RED);
    assert_eq!(s.phase(25), TrafficBehavior::RED);
    assert_eq!(s.phase(26), TrafficBehavior::GREEN);
    let shifted = TrafficLightSchedule::from_basic(10, 3, 13, 13);
    assert_eq!(shifted.phase(0), TrafficBehavior::RED);
    assert_eq!(shifted.phase(13), TrafficBehavior::GREEN);
    assert_eq!(shifted.phase(22), TrafficBehavior::GREEN);
    assert_eq!(shifted.phase(23), TrafficBehavior::ORANGE);
    assert_eq!(TrafficLight::Always.get_behavior(5), TrafficBehavior::GREEN);
}

#[test]
fn deletion_severs_every_reference() {
    let mut g = RoadGraph::new();
    let hub = g.add_intersection(units(0, 0));
    let n1 = g.add_intersection(units(40, 0));
    let n2 = g.add_intersection(units(0, 40));
    let pattern = LanePatternBuilder::new().build();
    g.connect(hub, n1, pattern).unwrap();
    g.connect(hub, n2, pattern).unwrap();
    let handle = g.delete_inter(hub).unwrap();
    assert_eq!(handle, None);
    assert!(!g.intersections().is_live(hub));
    assert_eq!(count_live_nodes(&g), 0);
    for j in [n1, n2] {
        let inter = g.intersections().get(j).unwrap();
        assert!(inter.out_nodes.get(hub).is_none());
        assert!(inter.in_nodes.get(hub).is_none());
        assert_eq!(inter.out_nodes.len(), 0);
        assert_eq!(inter.in_nodes.len(), 0);
    }
    assert_eq!(edge_pairs(&g), Vec::new());
}

#[test]
fn lane_positions_follow_the_road() {
    let mut g = RoadGraph::new();
    let a = g.add_intersection(units(0, 0));
    let b = g.add_intersection(units(40, 0));
    let pattern = LanePatternBuilder::new().build();
    g.connect(a, b, pattern).unwrap();
    let out_ab = g.intersections().get(a).unwrap().out_nodes.get(b).unwrap();
    let pos = g.nodes().get(out_ab).unwrap().pos;
    // half length is min(20, 25) = 20 units, lane offset 4 units to the side
    assert_eq!(pos, Vec2::new(20_000, -4_000));
    let in_ab = g.intersections().get(b).unwrap().in_nodes.get(a).unwrap();
    let pos_in = g.nodes().get(in_ab).unwrap().pos;
    assert_eq!(pos_in, Vec2::new(20_000, -4_000));
}

#[test]
fn lane_positions_clamp_on_long_roads() {
    let mut g = RoadGraph::new();
    let a = g.add_intersection(units(0, 0));
    let b = g.add_intersection(units(80, 0));
    let pattern = LanePatternBuilder::new().build();
    g.connect(a, b, pattern).unwrap();
    let out_ab = g.intersections().get(a).unwrap().out_nodes.get(b).unwrap();
    let pos = g.nodes().get(out_ab).unwrap().pos;
    // the half length saturates at 25 units, not the unclamped 40
    assert_eq!(pos, Vec2::new(25_000, -4_000));
    let in_ab = g.intersections().get(b).unwrap().in_nodes.get(a).unwrap();
    assert_eq!(g.nodes().get(in_ab).unwrap().pos, Vec2::new(55_000, -4_000));
}

#[test]
fn projection_classifies_points() {
    let mut g = RoadGraph::new();
    let a = g.add_intersection(units(0, 0));
    let b = g.add_intersection(units(100, 0));
    // two lanes of four units each: a road eight units wide
    let pattern = LanePatternBuilder::new().build();
    assert_eq!(pattern.width, 8_000);
    let road = g.connect(a, b, pattern).unwrap();
    let on_road = g.project(Vec2::new(50_000, 500));
    assert_eq!(on_road.kind, ProjectKind::Road(road));
    assert_eq!(on_road.pos, Vec2::new(50_000, 0));
    let on_inter = g.project(units(0, 0));
    assert_eq!(on_inter.kind, ProjectKind::Inter(a));
    assert_eq!(on_inter.pos, units(0, 0));
    let on_ground = g.project(units(500, 500));
    assert_eq!(on_ground.kind, ProjectKind::Ground);
    assert_eq!(on_ground.pos, units(500, 500));
}

#[test]
fn compatible_rules() {
    let mut g = RoadGraph::new();
    let a = g.add_intersection(units(0, 0));
    let b = g.add_intersection(units(100, 0));
    let c = g.add_intersection(units(0, 100));
    let pattern = LanePatternBuilder::new().build();
    let road = g.connect(a, b, pattern).unwrap();
    assert!(g.compatible(ProjectKind::Ground, ProjectKind::Ground));
    assert!(g.compatible(ProjectKind::Ground, ProjectKind::Inter(a)));
    assert!(g.compatible(ProjectKind::Road(road), ProjectKind::Ground));
    assert!(!g.compatible(ProjectKind::Inter(a), ProjectKind::Inter(a)));
    assert!(g.compatible(ProjectKind::Inter(a), ProjectKind::Inter(b)));
    assert!(!g.compatible(ProjectKind::Road(road), ProjectKind::Road(road)));
    // a road is incompatible with its own endpoints, fine with others
    assert!(!g.compatible(ProjectKind::Inter(a), ProjectKind::Road(road)));
    assert!(!g.compatible(ProjectKind::Road(road), ProjectKind::Inter(b)));
    assert!(g.compatible(ProjectKind::Inter(c), ProjectKind::Road(road)));
}

#[test]
fn split_road_inserts_an_intersection() {
    let mut g = RoadGraph::new();
    let a = g.add_intersection(units(0, 0));
    let b = g.add_intersection(units(100, 0));
    let pattern = LanePatternBuilder::new().build();
    let road = g.connect(a, b, pattern).unwrap();
    let mid = g.split_road(road, units(50, 0)).unwrap();
    assert!(g.intersections().is_live(mid));
    assert_eq!(g.intersections().get(mid).unwrap().pos, units(50, 0));
    let ia = g.intersections().get(a).unwrap();
    assert!(ia.out_nodes.get(b).is_none());
    assert!(ia.out_nodes.get(mid).is_some());
    let im = g.intersections().get(mid).unwrap();
    assert!(im.out_nodes.get(a).is_some());
    assert!(im.out_nodes.get(b).is_some());
    assert_eq!(g.split_road(road, units(25, 0)), Err(RoadGraphError::NotFound));
    let ra = g.intersections().get(a).unwrap().out_nodes.get(mid).unwrap();
    let _ = ra;
}

#[test]
fn split_road_rejects_endpoint_positions() {
    let mut g = RoadGraph::new();
    let a = g.add_intersection(units(0, 0));
    let b = g.add_intersection(units(100, 0));
    let pattern = LanePatternBuilder::new().build();
    let road = g.connect(a, b, pattern).unwrap();
    assert_eq!(g.split_road(road, units(0, 0)), Err(RoadGraphError::SamePosition));
    assert!(g.roads().is_live(road));
}

#[test]
fn closest_node_picks_the_nearest() {
    let mut g = RoadGraph::new();
    assert_eq!(g.closest_node(units(0, 0)), None);
    let a = g.add_intersection(units(0, 0));
    let b = g.add_intersection(units(40, 0));
    let pattern = LanePatternBuilder::new().build();
    g.connect(a, b, pattern).unwrap();
    let out_ab = g.intersections().get(a).unwrap().out_nodes.get(b).unwrap();
    let near_out = g.nodes().get(out_ab).unwrap().pos;
    let got = g.closest_node(near_out).unwrap();
    assert_eq!(g.nodes().get(got).unwrap().pos, near_out);
}

#[test]
fn set_positions_update_payloads() {
    let mut g = RoadGraph::new();
    let a = g.add_intersection(units(0, 0));
    g.set_intersection_position(a, units(5, 5)).unwrap();
    assert_eq!(g.intersections().get(a).unwrap().pos, units(5, 5));
    assert_eq!(g.set_intersection_position(9, units(5, 5)), Err(RoadGraphError::NotFound));
    let b = g.add_intersection(units(40, 0));
    let pattern = LanePatternBuilder::new().build();
    g.connect(a, b, pattern).unwrap();
    let out_ab = g.intersections().get(a).unwrap().out_nodes.get(b).unwrap();
    g.set_node_position(out_ab, units(7, 7)).unwrap();
    assert_eq!(g.nodes().get(out_ab).unwrap().pos, units(7, 7));
    assert_eq!(g.set_node_position(999, units(7, 7)), Err(RoadGraphError::NotFound));
    g.calculate_nodes_positions(a).unwrap();
    assert_ne!(g.nodes().get(out_ab).unwrap().pos, units(7, 7));
}

#[test]
fn roadbuild_clicks_build_a_road() {
    let mut g = RoadGraph::new();
    let mut res = RoadBuildResource::new();
    let p1 = g.project(units(0, 0));
    assert_eq!(p1.kind, ProjectKind::Ground);
    g.roadbuild_step(&mut res, Tool::RoadbuildStraight, false, true, units(0, 0), p1);
    assert!(matches!(res.build_state, BuildState::Start(_)));
    let p2 = g.project(units(40, 0));
    g.roadbuild_step(&mut res, Tool::RoadbuildStraight, false, true, units(40, 0), p2);
    assert!(matches!(res.build_state, BuildState::Start(_)));
    assert_eq!(count_live_nodes(&g), 4);
    // any other tool resets the interaction
    let p3 = g.project(units(80, 0));
    g.roadbuild_step(&mut res, Tool::Hand, false, false, units(80, 0), p3);
    assert!(matches!(res.build_state, BuildState::Hover));
}

#[test]
fn render_handles_travel_with_deletion() {
    let mut g = RoadGraph::new();
    let a = g.add_intersection(units(0, 0));
    assert_eq!(g.intersections().get(a).unwrap().render_handle, None);
    g.set_render_handle(a, Some(42));
    assert_eq!(g.intersections().get(a).unwrap().render_handle, Some(42));
    let handle = g.delete_inter(a).unwrap();
    assert_eq!(handle, Some(42));
}

#[test]
fn cross_links_weigh_merging_lanes() {
    let mut g = RoadGraph::new();
    let hub = g.add_intersection(units(0, 0));
    let n1 = g.add_intersection(units(40, 0));
    let pattern = LanePatternBuilder::new().build();
    g.connect(hub, n1, pattern).unwrap();
    let in_n1_hub = g.intersections().get(hub).unwrap().in_nodes.get(n1).unwrap();
    let n2 = g.add_intersection(units(0, 40));
    g.connect(hub, n2, pattern).unwrap();
    let out_hub_n2 = g.intersections().get(hub).unwrap().out_nodes.get(n2).unwrap();
    let in_hub_n2 = g.intersections().get(n2).unwrap().in_nodes.get(hub).unwrap();
    // the lane already merging into the hub yields to the new outgoing lane
    let cross: Vec<(usize, i64)> =
        g.nodes().get_neighs(in_n1_hub).iter().map(|e| (e.to, e.weight)).collect();
    assert!(cross.contains(&(out_hub_n2, 1)));
    // the internal link of the new pair carries weight zero
    let internal: Vec<(usize, i64)> =
        g.nodes().get_neighs(out_hub_n2).iter().map(|e| (e.to, e.weight)).collect();
    assert_eq!(internal, vec![(in_hub_n2, 0)]);
}

#[test]
fn pattern_builder_defaults() {
    let mut b = LanePatternBuilder::new();
    assert_eq!(b.width(), 8_000);
    b.set_lanes_forward(2);
    b.set_lane_width(3_000);
    let p = b.build();
    assert_eq!(p.n_forward, 2);
    assert_eq!(p.n_backward, 1);
    assert_eq!(p.width, 9_000);
    assert_eq!(p.n_lanes(), 3);
}

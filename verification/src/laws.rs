//! The global guarantees of the road network, each proved once and for all
//! over the well-formedness invariant and the operation contracts.

use crate::idmap::{lemma_map_push_self, map_has_key};
use crate::lights::TrafficLight;
use crate::pattern::LanePattern;
use crate::road_graph::{
    attach_post, connect_post, detach_post, expected_light, RoadGraph,
};
use vstd::prelude::*;

verus! {

/// Mirrored edges: `b` is in `a`'s outgoing map exactly when `a` is in `b`'s
/// incoming map, and the two lane-nodes they then name are live, distinct,
/// and joined by the internal lane-graph edge.
pub proof fn law_mirrored_edges(g: RoadGraph, a: usize, b: usize)
    requires
        g.wf(),
        g.inter_live(a),
        g.inter_live(b),
    ensures
        g.inter(a).out_nodes.has_key(b) <==> g.inter(b).in_nodes.has_key(a),
        g.inter(a).out_nodes.has_key(b) ==> g.node_live(g.out_lane(a, b)) && g.node_live(
            g.in_lane(a, b),
        ) && g.out_lane(a, b) != g.in_lane(a, b) && g.nodes.has_edge(
            g.out_lane(a, b),
            g.in_lane(a, b),
        ),
{
    if g.inter(a).out_nodes.has_key(b) {
        let k = g.inter(a).out_nodes.key_at(b);
        assert(g.outs(a)[k].0 == b);
        assert(g.connected(a, b));
    }
    if g.inter(b).in_nodes.has_key(a) {
        let k = g.inter(b).in_nodes.key_at(a);
        assert(g.ins(b)[k].0 == a);
    }
}

/// Connect followed by disconnect restores the intersection graph exactly:
/// the same vertices, the same edges, the same adjacency maps entry for
/// entry, the same live lane-nodes with the same lane-graph edges, and the
/// same road records.
pub proof fn law_connect_disconnect_inverse(
    g0: RoadGraph,
    g1: RoadGraph,
    gm: RoadGraph,
    g2: RoadGraph,
    a: usize,
    b: usize,
    pattern: LanePattern,
)
    requires
        g0.wf(),
        g0.inter_live(a),
        g0.inter_live(b),
        a != b,
        !g0.connected(a, b),
        !g0.connected(b, a),
        connect_post(g0, g1, a, b, pattern),
        detach_post(g1, gm, a, b),
        detach_post(gm, g2, b, a),
    ensures
        forall|j: usize| g2.inter_live(j) == g0.inter_live(j),
        forall|x: usize, y: usize|
            g2.intersections.has_edge(x, y) == g0.intersections.has_edge(x, y),
        forall|j: usize| g0.inter_live(j) ==> #[trigger] g2.outs(j) == g0.outs(j),
        forall|j: usize| g0.inter_live(j) ==> #[trigger] g2.ins(j) == g0.ins(j),
        forall|m: usize| g2.node_live(m) == g0.node_live(m),
        forall|x: usize, y: usize| g2.nodes.has_edge(x, y) == g0.nodes.has_edge(x, y),
        forall|r: usize| g2.road_live(r) == g0.road_live(r),
{
    let (m1, m2) = choose|m1: RoadGraph, m2: RoadGraph|
        #[trigger] attach_post(g0, m1, a, b) && #[trigger] attach_post(m1, m2, b, a)
            && g1.intersections == m2.intersections && g1.nodes == m2.nodes;
    assert(attach_post(g0, m1, a, b) && attach_post(m1, m2, b, a) && g1.intersections
        == m2.intersections && g1.nodes == m2.nodes);
    crate::road_graph::lemma_same_inters(m2, g1);
    crate::road_graph::lemma_same_nodes(m2, g1);
    let o1 = g0.nodes.n() as usize;
    let i1 = (g0.nodes.n() + 1) as usize;
    let o2 = m1.nodes.n() as usize;
    let i2 = (m1.nodes.n() + 1) as usize;
    assert(m1.nodes.n() == g0.nodes.n() + 2 && m2.nodes.n() == g0.nodes.n() + 4);
    m2.nodes.lemma_n_fits();
    g0.nodes.lemma_n_fits();
    assert(0 <= g0.nodes.n() && g0.nodes.n() + 4 <= usize::MAX as int);
    assert((o1 as int) == g0.nodes.n());
    assert((i1 as int) == g0.nodes.n() + 1);
    assert((o2 as int) == g0.nodes.n() + 2);
    assert((i2 as int) == g0.nodes.n() + 3);
    assert(!g0.inter(a).out_nodes.has_key(b)) by {
        if g0.inter(a).out_nodes.has_key(b) {
            assert(g0.connected(a, b));
        }
    }
    assert(!g0.inter(b).out_nodes.has_key(a)) by {
        if g0.inter(b).out_nodes.has_key(a) {
            assert(g0.connected(b, a));
        }
    }
    assert(!g0.inter(b).in_nodes.has_key(a)) by {
        if g0.inter(b).in_nodes.has_key(a) {
            let k = g0.inter(b).in_nodes.key_at(a);
            assert(g0.ins(b)[k].0 == a);
        }
    }
    assert(!g0.inter(a).in_nodes.has_key(b)) by {
        if g0.inter(a).in_nodes.has_key(b) {
            let k = g0.inter(a).in_nodes.key_at(b);
            assert(g0.ins(a)[k].0 == b);
        }
    }
    // the maps after both attachments
    assert(g1.outs(a) == g0.outs(a).push((b, o1))) by {
        assert(m1.outs(a) == g0.outs(a).push((b, o1)));
        assert(m2.outs(a) == m1.outs(a));
        assert(g1.outs(a) == m2.outs(a));
    }
    assert(g1.ins(b) == g0.ins(b).push((a, i1))) by {
        assert(m1.ins(b) == g0.ins(b).push((a, i1)));
        assert(m2.ins(b) == m1.ins(b));
        assert(g1.ins(b) == m2.ins(b));
    }
    assert(g1.outs(b) == g0.outs(b).push((a, o2))) by {
        assert(m1.outs(b) == g0.outs(b));
        assert(m2.outs(b) == m1.outs(b).push((a, o2)));
        assert(g1.outs(b) == m2.outs(b));
    }
    assert(g1.ins(a) == g0.ins(a).push((b, i2))) by {
        assert(m1.ins(a) == g0.ins(a));
        assert(m2.ins(a) == m1.ins(a).push((b, i2)));
        assert(g1.ins(a) == m2.ins(a));
    }
    // first detach takes the appended entries off again
    lemma_map_push_self(g0.outs(a), b, o1);
    lemma_map_push_self(g0.ins(b), a, i1);
    lemma_map_push_self(g0.outs(b), a, o2);
    lemma_map_push_self(g0.ins(a), b, i2);
    assert(g1.inter(a).out_nodes.key_at(b) == g0.outs(a).len() as int) by {
        lemma_key_at_last(g0.outs(a), b, o1);
    }
    assert(g1.inter(b).in_nodes.key_at(a) == g0.ins(b).len() as int) by {
        lemma_key_at_last(g0.ins(b), a, i1);
    }
    assert(gm.outs(a) =~= g0.outs(a));
    assert(gm.ins(b) =~= g0.ins(b));
    assert(gm.outs(b) == g1.outs(b) && gm.ins(a) == g1.ins(a));
    assert(gm.inter(b).out_nodes.key_at(a) == g0.outs(b).len() as int) by {
        lemma_key_at_last(g0.outs(b), a, o2);
    }
    assert(gm.inter(a).in_nodes.key_at(b) == g0.ins(a).len() as int) by {
        lemma_key_at_last(g0.ins(a), b, i2);
    }
    assert(g2.outs(b) =~= g0.outs(b));
    assert(g2.ins(a) =~= g0.ins(a));
    assert(g2.outs(a) == gm.outs(a) && g2.ins(b) == gm.ins(b));
    assert forall|j: usize| g0.inter_live(j) implies #[trigger] g2.outs(j) == g0.outs(j)
        && g2.ins(j) == g0.ins(j) by {
        if j != a && j != b {
            assert(m1.inter(j) == g0.inter(j));
            assert(m2.inter(j) == m1.inter(j));
            assert(g1.inter(j) == m2.inter(j));
            assert(gm.inter(j) == g1.inter(j));
            assert(g2.inter(j) == gm.inter(j));
        }
    }
    // the lane-nodes created are exactly the lane-nodes removed
    assert(g1.out_lane(a, b) == o1) by {
        lemma_map_push_self(g0.outs(a), b, o1);
    }
    assert(g1.in_lane(a, b) == i1) by {
        lemma_map_push_self(g0.ins(b), a, i1);
    }
    assert(gm.out_lane(b, a) == o2) by {
        assert(gm.outs(b) == g0.outs(b).push((a, o2)));
        lemma_map_push_self(g0.outs(b), a, o2);
    }
    assert(gm.in_lane(b, a) == i2) by {
        assert(gm.ins(a) == g0.ins(a).push((b, i2)));
        lemma_map_push_self(g0.ins(a), b, i2);
    }
    assert forall|m: usize| g2.node_live(m) == g0.node_live(m) by {
        assert(m1.node_live(m) == (g0.node_live(m) || m == o1 || m == i1));
        assert(m2.node_live(m) == (m1.node_live(m) || m == o2 || m == i2));
        assert(g1.node_live(m) == m2.node_live(m));
        assert(g1.node_live(m) == (g0.node_live(m) || m == o1 || m == i1 || m == o2 || m == i2));
        assert(gm.node_live(m) == (g1.node_live(m) && m != o1 && m != i1));
        assert(g2.node_live(m) == (gm.node_live(m) && m != o2 && m != i2));
        if g0.node_live(m) {
            g0.nodes.lemma_live_bound(m);
        }
    }
    assert forall|x: usize, y: usize|
        g2.nodes.has_edge(x, y) == g0.nodes.has_edge(x, y) by {
        assert(g1.out_lane(a, b) == o1 && g1.in_lane(a, b) == i1);
        assert(gm.out_lane(b, a) == o2 && gm.in_lane(b, a) == i2);
        if g0.nodes.has_edge(x, y) {
            g0.nodes.lemma_live_bound(x);
            g0.nodes.lemma_live_bound(y);
            assert(m1.nodes.has_edge(x, y));
            assert(m2.nodes.has_edge(x, y));
            assert(g1.nodes.has_edge(x, y));
            assert(gm.nodes.has_edge(x, y));
            assert(g2.nodes.has_edge(x, y));
        }
        if g2.nodes.has_edge(x, y) {
            assert(gm.nodes.has_edge(x, y));
            assert(g1.nodes.has_edge(x, y));
            assert(m2.nodes.has_edge(x, y));
            assert(x != o1 && x != i1 && x != o2 && x != i2 && y != o1 && y != i1 && y != o2 && y
                != i2);
            assert(m1.nodes.has_edge(x, y));
            assert(g0.nodes.has_edge(x, y));
        }
    }
    assert forall|x: usize, y: usize|
        g2.intersections.has_edge(x, y) == g0.intersections.has_edge(x, y) by {
        assert(m1.intersections.has_edge(x, y) == (g0.intersections.has_edge(x, y) || (x == a && y
            == b)));
        assert(m2.intersections.has_edge(x, y) == (m1.intersections.has_edge(x, y) || (x == b && y
            == a)));
        assert(g1.intersections.has_edge(x, y) == m2.intersections.has_edge(x, y));
        assert(g1.intersections.has_edge(x, y) == (g0.intersections.has_edge(x, y) || (x == a && y
            == b) || (x == b && y == a)));
        assert(gm.intersections.has_edge(x, y) == (g1.intersections.has_edge(x, y) && !(x == a && y
            == b)));
        assert(g2.intersections.has_edge(x, y) == (gm.intersections.has_edge(x, y) && !(x == b && y
            == a)));
        if g0.intersections.has_edge(x, y) {
            assert(g0.inter(x).out_nodes.has_key(y));
            if x == a && y == b {
                assert(g0.connected(a, b));
            }
            if x == b && y == a {
                assert(g0.connected(b, a));
            }
        }
    }
    assert forall|r: usize| g2.road_live(r) == g0.road_live(r) by {
        assert(g1.road_live(r) == (g0.road_live(r) || (r as int) == g0.roads.n()));
        if g0.road_live(r) {
            g0.roads.lemma_live_bound(r);
            assert(g1.road(r) == g0.road(r));
            assert(!crate::road_graph::pair_matches(g0.road(r), a, b)) by {
                if crate::road_graph::pair_matches(g0.road(r), a, b) {
                    assert(g0.connected(g0.road(r).src, g0.road(r).dst));
                    assert(g0.connected(g0.road(r).dst, g0.road(r).src));
                }
            }
            assert(gm.road_live(r) && gm.road(r) == g1.road(r));
            assert(!crate::road_graph::pair_matches(g1.road(r), b, a));
            assert(g2.road_live(r));
        }
        if g2.road_live(r) && !g0.road_live(r) {
            assert(gm.road_live(r));
            assert(g1.road_live(r));
            assert((r as int) == g0.roads.n());
            assert(g1.road(r) == (crate::road_graph::Road { src: a, dst: b, pattern }));
            assert(crate::road_graph::pair_matches(g1.road(r), a, b));
            assert(!gm.road_live(r));
        }
    }
}

/// In a well-formed table, the key of an entry just appended sits at the last
/// position.
proof fn lemma_key_at_last(s: Seq<(usize, usize)>, k: usize, v: usize)
    requires
        crate::idmap::map_keys_distinct(s),
        !map_has_key(s, k),
    ensures
        crate::idmap::map_key_at(s.push((k, v)), k) == s.len() as int,
{
    let s2 = s.push((k, v));
    let n = s.len() as int;
    assert(s2[n].0 == k);
    assert(map_has_key(s2, k));
    let w = crate::idmap::map_key_at(s2, k);
    assert(s2[w].0 == k);
    if w < n {
        assert(s[w].0 == k);
        assert(map_has_key(s, k));
    }
}

/// Trivial-intersection rule: an intersection with at most two incoming
/// lanes has every incoming lane's light set to `Always`, in every
/// well-formed graph state.
pub proof fn law_trivial_intersection(g: RoadGraph, b: usize, k: int)
    requires
        g.wf(),
        g.inter_live(b),
        g.ins(b).len() <= 2,
        0 <= k < g.ins(b).len(),
    ensures
        g.node(g.ins(b)[k].1).light == TrafficLight::Always,
{
    assert(g.lights_ok_at(b));
    assert(g.node(g.ins(b)[k].1).light == expected_light(k, g.ins(b).len() as int));
}

/// Schedule determinism: in a well-formed graph every incoming lane already
/// carries exactly the schedule the scheduler assigns for its rank, so
/// recomputing an intersection's lights never changes a light.  Together
/// with `update_traffic_lights`' contract this makes the recomputation
/// idempotent: two runs with no structural change in between produce the
/// same assignment.
pub proof fn law_schedule_deterministic(g: RoadGraph, b: usize, k: int)
    requires
        g.wf(),
        g.inter_live(b),
        0 <= k < g.ins(b).len(),
    ensures
        g.node(g.ins(b)[k].1).light == expected_light(k, g.ins(b).len() as int),
{
    assert(g.lights_ok_at(b));
}

/// Deletion safety: once an intersection is gone, no live intersection's
/// adjacency maps mention it, and every surviving pair of neighbors is still
/// mirrored consistently.
pub proof fn law_deletion_safety(g: RoadGraph, id: usize, j: usize, k: int)
    requires
        g.wf(),
        !g.inter_live(id),
        g.inter_live(j),
    ensures
        0 <= k < g.outs(j).len() ==> g.outs(j)[k].0 != id,
        0 <= k < g.ins(j).len() ==> g.ins(j)[k].0 != id,
        g.inter(j).out_nodes.has_key(id) == false,
        g.inter(j).in_nodes.has_key(id) == false,
{
    if 0 <= k < g.outs(j).len() {
        assert(g.inter_live(g.outs(j)[k].0));
    }
    if 0 <= k < g.ins(j).len() {
        assert(g.inter_live(g.ins(j)[k].0));
    }
    if g.inter(j).out_nodes.has_key(id) {
        let w = g.inter(j).out_nodes.key_at(id);
        assert(g.outs(j)[w].0 == id);
        assert(g.inter_live(g.outs(j)[w].0));
    }
    if g.inter(j).in_nodes.has_key(id) {
        let w = g.inter(j).in_nodes.key_at(id);
        assert(g.ins(j)[w].0 == id);
        assert(g.inter_live(g.ins(j)[w].0));
    }
}

} // verus!

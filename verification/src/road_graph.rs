//! The road network aggregate: an intersection graph and a lane-node graph,
//! kept consistent under connect, disconnect, split and delete, together with
//! derived lane positions and per-lane traffic-light schedules.

use crate::geom::{
    dist2, dist2_exec, in_bounds, in_lane_pos, lane_endpoints, out_lane_pos, Vec2, MAX_COORD,
    NODE_COORD_BOUND,
};
use crate::graph::Graph;
use crate::idmap::IdMap;
use crate::lights::{TrafficLight, TrafficLightSchedule};
use crate::pattern::LanePattern;
use vstd::prelude::*;

verus! {

/// One lane's control point: a derived position and a traffic light.
pub struct RoadNode {
    pub pos: Vec2,
    pub light: TrafficLight,
}

impl RoadNode {
    pub fn new(pos: Vec2) -> (n: RoadNode)
        ensures
            n.pos == pos,
            n.light == TrafficLight::Always,
    {
        RoadNode { pos, light: TrafficLight::Always }
    }
}

/// A junction: a center position and, per neighbor, the incoming and
/// outgoing lane-node belonging to that neighbor.
pub struct Intersection {
    pub pos: Vec2,
    pub in_nodes: IdMap,
    pub out_nodes: IdMap,
    pub render_handle: Option<u64>,
}

impl Intersection {
    pub fn new(pos: Vec2) -> (i: Intersection)
        ensures
            i.pos == pos,
            i.in_nodes.entries_seq() == Seq::<(usize, usize)>::empty(),
            i.out_nodes.entries_seq() == Seq::<(usize, usize)>::empty(),
            i.in_nodes.wf(),
            i.out_nodes.wf(),
            i.render_handle is None,
    {
        Intersection { pos, in_nodes: IdMap::new(), out_nodes: IdMap::new(), render_handle: None }
    }
}

/// A bidirectional road record between two intersections.
pub struct Road {
    pub src: usize,
    pub dst: usize,
    pub pattern: LanePattern,
}

/// Why a structural operation was refused.  Every refusal leaves the graph
/// exactly as it was.
#[derive(Clone, Copy, PartialEq, Eq, Structural, Debug)]
pub enum RoadGraphError {
    /// An id named no live element.
    NotFound,
    /// The two intersections sit at the same point.
    SamePosition,
    /// The two intersections are already directly connected.
    AlreadyConnected,
}

/// The schedule handed to the `k`-th incoming lane of an intersection with
/// `n` incoming lanes.
pub open spec fn expected_light(k: int, n: int) -> TrafficLight {
    if n <= 2 {
        TrafficLight::Always
    } else {
        TrafficLight::Periodic(basic_schedule(k))
    }
}

/// The base cycle: ten ticks green, three orange, thirteen red, with lanes of
/// even and odd rank half a cycle apart.
pub open spec fn basic_schedule(k: int) -> TrafficLightSchedule {
    TrafficLightSchedule {
        green: 10,
        orange: 3,
        red: 13,
        offset: if k % 2 == 0 {
            13
        } else {
            0
        },
    }
}

pub struct RoadGraph {
    pub nodes: Graph<RoadNode>,
    pub intersections: Graph<Intersection>,
    pub roads: Graph<Road>,
}

impl RoadGraph {
    pub open spec fn inter_live(self, i: usize) -> bool {
        self.intersections.live(i)
    }

    pub open spec fn inter(self, i: usize) -> Intersection {
        self.intersections.payload(i)
    }

    pub open spec fn node_live(self, n: usize) -> bool {
        self.nodes.live(n)
    }

    pub open spec fn node(self, n: usize) -> RoadNode {
        self.nodes.payload(n)
    }

    pub open spec fn road_live(self, r: usize) -> bool {
        self.roads.live(r)
    }

    pub open spec fn road(self, r: usize) -> Road {
        self.roads.payload(r)
    }

    /// The outgoing map of intersection `i`, as an ordered list of
    /// `(neighbor, lane-node)` entries.
    pub open spec fn outs(self, i: usize) -> Seq<(usize, usize)> {
        self.inter(i).out_nodes.entries_seq()
    }

    /// The incoming map of intersection `i`.
    pub open spec fn ins(self, i: usize) -> Seq<(usize, usize)> {
        self.inter(i).in_nodes.entries_seq()
    }

    /// There is a directed connection from `a` to `b`.
    pub open spec fn connected(self, a: usize, b: usize) -> bool {
        self.inter_live(a) && self.inter_live(b) && self.inter(a).out_nodes.has_key(b)
    }

    /// The outgoing lane-node of the connection `a -> b`, owned by `a`.
    pub open spec fn out_lane(self, a: usize, b: usize) -> usize {
        self.inter(a).out_nodes.val_of(b)
    }

    /// The incoming lane-node of the connection `a -> b`, owned by `b`.
    pub open spec fn in_lane(self, a: usize, b: usize) -> usize {
        self.inter(b).in_nodes.val_of(a)
    }

    /// `n` is the outgoing lane-node of the connection `a -> b`.
    pub open spec fn owns_out(self, n: usize, a: usize, b: usize) -> bool {
        self.inter_live(a) && self.inter(a).out_nodes.has_key(b) && self.out_lane(a, b) == n
    }

    /// `n` is the incoming lane-node of the connection `a -> b`.
    pub open spec fn owns_in(self, n: usize, a: usize, b: usize) -> bool {
        self.inter_live(b) && self.inter(b).in_nodes.has_key(a) && self.in_lane(a, b) == n
    }

    /// `n` is a lane-node of some connection with endpoint `i`.
    pub open spec fn lane_touches(self, n: usize, i: usize) -> bool {
        exists|b: usize|
            #![trigger self.owns_out(n, i, b)]
            #![trigger self.owns_in(n, i, b)]
            #![trigger self.owns_out(n, b, i)]
            #![trigger self.owns_in(n, b, i)]
            self.owns_out(n, i, b) || self.owns_in(n, i, b) || self.owns_out(n, b, i)
                || self.owns_in(n, b, i)
    }

    /// The adjacency maps mirror each other and the intersection graph's
    /// edges exactly.
    pub open spec fn mirror_ok(self) -> bool {
        &&& forall|a: usize, k: int|
            #![trigger self.outs(a)[k]]
            self.inter_live(a) && 0 <= k < self.outs(a).len() ==> {
                let b = self.outs(a)[k].0;
                self.inter_live(b) && b != a && self.intersections.has_edge(a, b) && self.inter(
                    b,
                ).in_nodes.has_key(a)
            }
        &&& forall|b: usize, k: int|
            #![trigger self.ins(b)[k]]
            self.inter_live(b) && 0 <= k < self.ins(b).len() ==> {
                let a = self.ins(b)[k].0;
                self.inter_live(a) && a != b && self.inter(a).out_nodes.has_key(b)
            }
        &&& forall|a: usize, b: usize|
            #[trigger] self.intersections.has_edge(a, b) ==> self.inter(a).out_nodes.has_key(b)
    }

    /// Each intersection's own data is sound: distinct map keys and a bounded
    /// center position.
    pub open spec fn inters_own_ok(self) -> bool {
        forall|i: usize|
            #![trigger self.inter(i)]
            self.inter_live(i) ==> self.inter(i).in_nodes.wf() && self.inter(i).out_nodes.wf()
                && in_bounds(self.inter(i).pos, MAX_COORD as int)
    }

    /// Each connection's two lane-nodes are live, distinct, and joined by the
    /// internal lane-graph edge.
    pub open spec fn lanes_ok(self) -> bool {
        &&& forall|a: usize, k: int|
            #![trigger self.outs(a)[k]]
            self.inter_live(a) && 0 <= k < self.outs(a).len() ==> self.node_live(
                self.outs(a)[k].1,
            )
        &&& forall|b: usize, k: int|
            #![trigger self.ins(b)[k]]
            self.inter_live(b) && 0 <= k < self.ins(b).len() ==> self.node_live(self.ins(b)[k].1)
        &&& forall|a: usize, b: usize|
            #[trigger] self.connected(a, b) ==> self.out_lane(a, b) != self.in_lane(a, b)
                && self.nodes.has_edge(self.out_lane(a, b), self.in_lane(a, b))
    }

    /// No lane-node serves two roles: the maps of all intersections name each
    /// lane-node at most once.
    pub open spec fn lanes_inj(self) -> bool {
        &&& forall|n: usize, a: usize, b: usize, c: usize, d: usize|
            #![trigger self.owns_out(n, a, b), self.owns_out(n, c, d)]
            self.owns_out(n, a, b) && self.owns_out(n, c, d) ==> a == c && b == d
        &&& forall|n: usize, a: usize, b: usize, c: usize, d: usize|
            #![trigger self.owns_in(n, a, b), self.owns_in(n, c, d)]
            self.owns_in(n, a, b) && self.owns_in(n, c, d) ==> a == c && b == d
        &&& forall|n: usize, a: usize, b: usize, c: usize, d: usize|
            #![trigger self.owns_out(n, a, b), self.owns_in(n, c, d)]
            self.owns_out(n, a, b) ==> !self.owns_in(n, c, d)
    }

    /// Every live lane-node has a bounded position and a sound light.
    pub open spec fn nodes_own_ok(self) -> bool {
        forall|n: usize|
            #![trigger self.node(n)]
            self.node_live(n) ==> in_bounds(self.node(n).pos, NODE_COORD_BOUND as int)
                && self.node(n).light.wf()
    }

    /// The incoming lanes of intersection `b` carry exactly the schedules the
    /// scheduler assigns for `b`'s current incoming map.
    pub open spec fn lights_ok_at(self, b: usize) -> bool {
        forall|k: int|
            0 <= k < self.ins(b).len() ==> self.node((#[trigger] self.ins(b)[k]).1).light
                == expected_light(k, self.ins(b).len() as int)
    }

    pub open spec fn lights_ok(self) -> bool {
        forall|b: usize| self.inter_live(b) ==> #[trigger] self.lights_ok_at(b)
    }

    /// Road records name live, distinct, mutually connected endpoints, and no
    /// unordered endpoint pair carries two records.
    pub open spec fn roads_ok(self) -> bool {
        &&& forall|r: usize|
            #![trigger self.road(r)]
            self.road_live(r) ==> {
                let rd = self.road(r);
                rd.src != rd.dst && self.connected(rd.src, rd.dst) && self.connected(
                    rd.dst,
                    rd.src,
                ) && rd.pattern.wf()
            }
        &&& forall|r1: usize, r2: usize|
            self.road_live(r1) && self.road_live(r2) && r1 != r2 ==> !same_pair(
                #[trigger] self.road(r1),
                #[trigger] self.road(r2),
            )
    }

    /// Everything except the traffic-light assignment.
    pub open spec fn wf_core(self) -> bool {
        &&& self.nodes.wf()
        &&& self.intersections.wf()
        &&& self.roads.wf()
        &&& self.inters_own_ok()
        &&& self.mirror_ok()
        &&& self.lanes_ok()
        &&& self.lanes_inj()
        &&& self.nodes_own_ok()
        &&& self.roads_ok()
    }

    /// The full invariant of the road network.
    pub open spec fn wf(self) -> bool {
        self.wf_core() && self.lights_ok()
    }

    pub fn new() -> (g: RoadGraph)
        ensures
            g.wf(),
            g.intersections.n() == 0,
            g.nodes.n() == 0,
            g.roads.n() == 0,
    {
        let g = RoadGraph {
            nodes: Graph::new(),
            intersections: Graph::new(),
            roads: Graph::new(),
        };
        proof {
            assert forall|a: usize, b: usize| !g.connected(a, b) by {}
        }
        g
    }

    /// Read-only view of the lane-node graph.
    pub fn nodes(&self) -> (r: &Graph<RoadNode>)
        ensures
            r == &self.nodes,
    {
        &self.nodes
    }

    /// Read-only view of the intersection graph.
    pub fn intersections(&self) -> (r: &Graph<Intersection>)
        ensures
            r == &self.intersections,
    {
        &self.intersections
    }

    /// Read-only view of the road records.
    pub fn roads(&self) -> (r: &Graph<Road>)
        ensures
            r == &self.roads,
    {
        &self.roads
    }

    /// Adds a free-standing intersection at `pos`.
    pub fn add_intersection(&mut self, pos: Vec2) -> (id: usize)
        requires
            old(self).wf(),
            in_bounds(pos, MAX_COORD as int),
        ensures
            final(self).wf(),
            id == old(self).intersections.n(),
            final(self).intersections.n() == old(self).intersections.n() + 1,
            final(self).inter_live(id),
            final(self).inter(id).pos == pos,
            final(self).ins(id).len() == 0,
            final(self).outs(id).len() == 0,
            forall|j: usize| j != id ==> final(self).inter_live(j) == old(self).inter_live(j),
            forall|j: usize|
                j != id && old(self).inter_live(j) ==> final(self).inter(j) == old(self).inter(j),
            final(self).nodes == old(self).nodes,
            final(self).roads == old(self).roads,
            forall|a: usize, b: usize|
                !(a == id || b == id) ==> final(self).connected(a, b) == old(self).connected(a, b),
    {
        let inter = Intersection::new(pos);
        let id = self.intersections.push(inter);
        proof {
            let g0 = *old(self);
            let g1 = *self;
            assert forall|a: usize, b: usize|
                g1.intersections.has_edge(a, b) == g0.intersections.has_edge(a, b) by {}
            assert forall|a: usize, b: usize| !(a == id || b == id) implies g1.connected(a, b)
                == g0.connected(a, b) by {
                if g0.inter_live(a) {
                    assert(g1.inter(a) == g0.inter(a));
                }
            }
            assert(!g0.inter_live(id));
            assert(g1.wf()) by {
                lemma_wf_inter_frame(g0, g1, id);
            }
        }
        id
    }

    /// Moves intersection `i` to `pos`, refusing a dead id.  Derived lane
    /// positions are stale until the caller recomputes them for `i` and its
    /// neighbors.
    pub fn set_intersection_position(&mut self, i: usize, pos: Vec2) -> (r: Result<
        (),
        RoadGraphError,
    >)
        requires
            old(self).wf(),
            in_bounds(pos, MAX_COORD as int),
        ensures
            final(self).wf(),
            r is Ok <==> old(self).inter_live(i),
            r is Err ==> *final(self) == *old(self) && r == Err::<(), RoadGraphError>(
                RoadGraphError::NotFound,
            ),
            old(self).inter_live(i) ==> final(self).inter(i).pos == pos && final(self).ins(i)
                == old(self).ins(i) && final(self).outs(i) == old(self).outs(i)
                && final(self).inter(i).render_handle == old(self).inter(i).render_handle,
            forall|j: usize| final(self).inter_live(j) == old(self).inter_live(j),
            forall|j: usize|
                j != i && old(self).inter_live(j) ==> final(self).inter(j) == old(self).inter(j),
            final(self).nodes == old(self).nodes,
            final(self).roads == old(self).roads,
    {
        let cur = match self.intersections.get(i) {
            Some(c) => Intersection {
                pos,
                in_nodes: c.in_nodes.duplicate(),
                out_nodes: c.out_nodes.duplicate(),
                render_handle: c.render_handle,
            },
            None => {
                return Err(RoadGraphError::NotFound);
            },
        };
        proof {
            assert(cur.in_nodes.entries_seq() == old(self).inter(i).in_nodes.entries_seq());
            assert(cur.out_nodes.entries_seq() == old(self).inter(i).out_nodes.entries_seq());
        }
        self.intersections.set(i, cur);
        proof {
            lemma_wf_after_inter_update(*old(self), *self, i);
        }
        Ok(())
    }

    /// Stores (or clears) the presentation layer's back-reference for
    /// intersection `i`; a no-op on a dead id.  The core never owns the
    /// referenced entity.
    pub fn set_render_handle(&mut self, i: usize, handle: Option<u64>)
        requires
            old(self).wf(),
        ensures
            final(self).wf(),
            old(self).inter_live(i) ==> final(self).inter(i).render_handle == handle
                && final(self).inter(i).pos == old(self).inter(i).pos && final(self).ins(i)
                == old(self).ins(i) && final(self).outs(i) == old(self).outs(i),
            !old(self).inter_live(i) ==> *final(self) == *old(self),
            forall|j: usize| final(self).inter_live(j) == old(self).inter_live(j),
            forall|j: usize|
                j != i && old(self).inter_live(j) ==> final(self).inter(j) == old(self).inter(j),
            final(self).nodes == old(self).nodes,
            final(self).roads == old(self).roads,
    {
        let cur = match self.intersections.get(i) {
            Some(c) => Intersection {
                pos: c.pos,
                in_nodes: c.in_nodes.duplicate(),
                out_nodes: c.out_nodes.duplicate(),
                render_handle: handle,
            },
            None => {
                return ;
            },
        };
        proof {
            assert(cur.in_nodes.entries_seq() == old(self).inter(i).in_nodes.entries_seq());
            assert(cur.out_nodes.entries_seq() == old(self).inter(i).out_nodes.entries_seq());
        }
        self.intersections.set(i, cur);
        proof {
            lemma_wf_after_inter_update(*old(self), *self, i);
        }
    }

    /// Moves lane-node `n` to `pos`, refusing a dead id.
    pub fn set_node_position(&mut self, n: usize, pos: Vec2) -> (r: Result<(), RoadGraphError>)
        requires
            old(self).wf(),
            in_bounds(pos, NODE_COORD_BOUND as int),
        ensures
            final(self).wf(),
            r is Ok <==> old(self).node_live(n),
            r is Err ==> *final(self) == *old(self) && r == Err::<(), RoadGraphError>(
                RoadGraphError::NotFound,
            ),
            old(self).node_live(n) ==> final(self).node(n).pos == pos && final(self).node(n).light
                == old(self).node(n).light,
            forall|m: usize| final(self).node_live(m) == old(self).node_live(m),
            forall|m: usize| m != n && old(self).node_live(m) ==> final(self).node(m) == old(self).node(m),
            final(self).intersections == old(self).intersections,
            final(self).roads == old(self).roads,
    {
        let cur = match self.nodes.get(n) {
            Some(c) => RoadNode { pos, light: c.light },
            None => {
                return Err(RoadGraphError::NotFound);
            },
        };
        self.nodes.set(n, cur);
        proof {
            lemma_wf_after_node_update(*old(self), *self, n);
        }
        Ok(())
    }

    /// Recomputes the schedule of every incoming lane of intersection `b`
    /// from its rank in `b`'s incoming map.
    fn refresh_lights(&mut self, b: usize)
        requires
            old(self).wf_core(),
            old(self).inter_live(b),
            forall|b2: usize|
                old(self).inter_live(b2) && b2 != b ==> #[trigger] old(self).lights_ok_at(b2),
        ensures
            final(self).wf(),
            final(self).intersections == old(self).intersections,
            final(self).roads == old(self).roads,
            final(self).nodes.n() == old(self).nodes.n(),
            forall|m: usize| final(self).node_live(m) == old(self).node_live(m),
            forall|x: usize, y: usize|
                final(self).nodes.has_edge(x, y) == old(self).nodes.has_edge(x, y),
            forall|x: usize, y: usize|
                old(self).nodes.has_edge(x, y) ==> final(self).nodes.edge_weight(x, y) == old(
                    self,
                ).nodes.edge_weight(x, y),
            forall|m: usize|
                old(self).node_live(m) ==> final(self).node(m).pos == old(self).node(m).pos,
            forall|m: usize|
                old(self).node_live(m) && !in_lane_list(old(self).ins(b), m) ==> final(self).node(
                    m,
                ) == old(self).node(m),
    {
        let ghost g0 = *self;
        let in_list = match self.intersections.get(b) {
            Some(inter) => inter.in_nodes.duplicate(),
            None => {
                proof {
                    assert(false);
                }
                IdMap::new()
            },
        };
        let len = in_list.len();
        proof {
            assert(in_list.entries_seq() == g0.ins(b));
            assert forall|k1: int, k2: int|
                0 <= k1 < k2 < g0.ins(b).len() implies (#[trigger] g0.ins(b)[k1]).1 != (
            #[trigger] g0.ins(b)[k2]).1 by {
                let a1 = g0.ins(b)[k1].0;
                let a2 = g0.ins(b)[k2].0;
                assert(a1 != a2);
                let v = g0.ins(b)[k1].1;
                g0.inter(b).in_nodes.lemma_entry_val(k1, a1);
                g0.inter(b).in_nodes.lemma_entry_val(k2, a2);
                if g0.ins(b)[k2].1 == v {
                    assert(g0.owns_in(v, a1, b));
                    assert(g0.owns_in(v, a2, b));
                }
            }
        }
        let mut k: usize = 0;
        while k < len
            invariant
                g0.wf_core(),
                g0.inter_live(b),
                in_list.entries_seq() == g0.ins(b),
                len as int == g0.ins(b).len(),
                0 <= k <= len,
                forall|k1: int, k2: int|
                    0 <= k1 < k2 < g0.ins(b).len() ==> (#[trigger] g0.ins(b)[k1]).1 != (
                    #[trigger] g0.ins(b)[k2]).1,
                self.intersections == g0.intersections,
                self.roads == g0.roads,
                self.nodes.wf(),
                self.nodes.n() == g0.nodes.n(),
                forall|m: usize| self.node_live(m) == g0.node_live(m),
                forall|x: usize, y: usize| self.nodes.has_edge(x, y) == g0.nodes.has_edge(x, y),
                forall|x: usize, y: usize|
                    g0.nodes.has_edge(x, y) ==> self.nodes.edge_weight(x, y)
                        == g0.nodes.edge_weight(x, y),
                forall|m: usize| g0.node_live(m) ==> #[trigger] self.node(m).pos == g0.node(m).pos,
                forall|m: usize|
                    g0.node_live(m) && !in_lane_list(g0.ins(b), m) ==> #[trigger] self.node(m)
                        == g0.node(m),
                forall|m: usize| g0.node_live(m) ==> (#[trigger] self.node(m)).light.wf(),
                forall|k2: int|
                    0 <= k2 < k ==> self.node((#[trigger] g0.ins(b)[k2]).1).light
                        == expected_light(k2, len as int),
                forall|k2: int|
                    k <= k2 < len ==> self.node((#[trigger] g0.ins(b)[k2]).1).light == g0.node(
                        g0.ins(b)[k2].1,
                    ).light,
            decreases len - k,
        {
            let entry = in_list.kth(k);
            let nid = entry.1;
            proof {
                assert(g0.ins(b)[k as int].1 == nid);
                assert(g0.node_live(nid));
            }
            let light = if len <= 2 {
                TrafficLight::Always
            } else {
                TrafficLight::Periodic(
                    TrafficLightSchedule::from_basic(
                        10,
                        3,
                        13,
                        if k % 2 == 0 {
                            13
                        } else {
                            0
                        },
                    ),
                )
            };
            proof {
                assert(light == expected_light(k as int, len as int)) by {
                    assert((k as int) % 2 == k % 2);
                }
            }
            let pos = match self.nodes.get(nid) {
                Some(c) => c.pos,
                None => {
                    proof {
                        assert(false);
                    }
                    Vec2 { x: 0, y: 0 }
                },
            };
            let ghost pre = *self;
            self.nodes.set(nid, RoadNode { pos, light });
            proof {
                assert forall|k2: int| 0 <= k2 < k + 1 implies self.node(
                    (#[trigger] g0.ins(b)[k2]).1,
                ).light == expected_light(k2, len as int) by {
                    if k2 < k {
                        assert(g0.ins(b)[k2].1 != nid);
                        assert(self.node(g0.ins(b)[k2].1) == pre.node(g0.ins(b)[k2].1));
                    }
                }
                assert forall|k2: int| k + 1 <= k2 < len implies self.node(
                    (#[trigger] g0.ins(b)[k2]).1,
                ).light == g0.node(g0.ins(b)[k2].1).light by {
                    assert(g0.ins(b)[k2].1 != nid);
                    assert(self.node(g0.ins(b)[k2].1) == pre.node(g0.ins(b)[k2].1));
                }
                assert forall|m: usize|
                    g0.node_live(m) && !in_lane_list(g0.ins(b), m) implies #[trigger] self.node(m)
                        == g0.node(m) by {
                    assert(in_lane_list(g0.ins(b), nid)) by {
                        assert(g0.ins(b)[k as int].1 == nid);
                    }
                    if m != nid {
                        assert(self.node(m) == pre.node(m));
                    }
                }
            }
            k = k + 1;
        }
        proof {
            let g1 = *self;
            lemma_same_inters(g0, g1);
            lemma_same_roads(g0, g1);
            lemma_wf_core_nodes_same_shape(g0, g1);
            assert(g1.lights_ok_at(b)) by {
                assert forall|k2: int| 0 <= k2 < g1.ins(b).len() implies g1.node(
                    (#[trigger] g1.ins(b)[k2]).1,
                ).light == expected_light(k2, g1.ins(b).len() as int) by {
                    assert(g1.ins(b) == g0.ins(b));
                }
            }
            assert forall|b2: usize| g1.inter_live(b2) implies #[trigger] g1.lights_ok_at(b2) by {
                if b2 != b {
                    assert(g0.lights_ok_at(b2));
                    assert forall|k2: int| 0 <= k2 < g1.ins(b2).len() implies g1.node(
                        (#[trigger] g1.ins(b2)[k2]).1,
                    ).light == expected_light(k2, g1.ins(b2).len() as int) by {
                        assert(g1.ins(b2) == g0.ins(b2));
                        let m = g0.ins(b2)[k2].1;
                        let a = g0.ins(b2)[k2].0;
                        assert(g0.node(m).light == expected_light(k2, g0.ins(b2).len() as int));
                        assert(!in_lane_list(g0.ins(b), m)) by {
                            if in_lane_list(g0.ins(b), m) {
                                let kk = choose|kk: int|
                                    0 <= kk < g0.ins(b).len() && (#[trigger] g0.ins(b)[kk]).1 == m;
                                let a2 = g0.ins(b)[kk].0;
                                g0.inter(b).in_nodes.lemma_entry_val(kk, a2);
                                g0.inter(b2).in_nodes.lemma_entry_val(k2, a);
                                assert(g0.owns_in(m, a2, b));
                                assert(g0.owns_in(m, a, b2));
                            }
                        }
                        assert(g1.node(m) == g0.node(m));
                    }
                }
            }
        }
    }

    /// Recomputes the traffic-light schedules of all incoming lanes of
    /// intersection `i`: with two or fewer incoming lanes every light is
    /// `Always`, otherwise the lanes alternate between the two offsets of the
    /// base cycle in the order of the incoming map.
    pub fn update_traffic_lights(&mut self, i: usize) -> (r: Result<(), RoadGraphError>)
        requires
            old(self).wf(),
        ensures
            final(self).wf(),
            r is Ok <==> old(self).inter_live(i),
            r is Err ==> *final(self) == *old(self) && r == Err::<(), RoadGraphError>(
                RoadGraphError::NotFound,
            ),
            final(self).intersections == old(self).intersections,
            final(self).roads == old(self).roads,
            final(self).nodes.n() == old(self).nodes.n(),
            forall|m: usize| final(self).node_live(m) == old(self).node_live(m),
            forall|x: usize, y: usize|
                final(self).nodes.has_edge(x, y) == old(self).nodes.has_edge(x, y),
            forall|x: usize, y: usize|
                old(self).nodes.has_edge(x, y) ==> final(self).nodes.edge_weight(x, y) == old(
                    self,
                ).nodes.edge_weight(x, y),
            forall|m: usize|
                old(self).node_live(m) ==> final(self).node(m).pos == old(self).node(m).pos,
            forall|m: usize|
                old(self).node_live(m) && !in_lane_list(old(self).ins(i), m) ==> final(self).node(
                    m,
                ) == old(self).node(m),
    {
        if !self.intersections.is_live(i) {
            return Err(RoadGraphError::NotFound);
        }
        self.refresh_lights(i);
        Ok(())
    }

    /// Writes position `pos` into lane-node `m`, keeping its light.
    fn put_node_pos(&mut self, m: usize, pos: Vec2)
        requires
            old(self).nodes.wf(),
            old(self).node_live(m),
            in_bounds(pos, NODE_COORD_BOUND as int),
        ensures
            final(self).nodes.wf(),
            final(self).nodes.n() == old(self).nodes.n(),
            final(self).intersections == old(self).intersections,
            final(self).roads == old(self).roads,
            forall|m2: usize| final(self).node_live(m2) == old(self).node_live(m2),
            forall|x: usize, y: usize|
                final(self).nodes.has_edge(x, y) == old(self).nodes.has_edge(x, y),
            forall|x: usize, y: usize|
                old(self).nodes.has_edge(x, y) ==> final(self).nodes.edge_weight(x, y) == old(
                    self,
                ).nodes.edge_weight(x, y),
            forall|m2: usize|
                m2 != m && old(self).node_live(m2) ==> final(self).node(m2) == old(self).node(m2),
            final(self).node(m).pos == pos,
            final(self).node(m).light == old(self).node(m).light,
    {
        let light = match self.nodes.get(m) {
            Some(c) => c.light,
            None => {
                proof {
                    assert(false);
                }
                TrafficLight::Always
            },
        };
        self.nodes.set(m, RoadNode { pos, light });
    }

    /// Recomputes the derived position of every lane-node of every connection
    /// with endpoint `i`, on both sides of each such road.
    pub fn calculate_nodes_positions(&mut self, i: usize) -> (r: Result<(), RoadGraphError>)
        requires
            old(self).wf(),
        ensures
            final(self).wf(),
            r is Ok <==> old(self).inter_live(i),
            r is Err ==> *final(self) == *old(self) && r == Err::<(), RoadGraphError>(
                RoadGraphError::NotFound,
            ),
            final(self).intersections == old(self).intersections,
            final(self).roads == old(self).roads,
            final(self).nodes.n() == old(self).nodes.n(),
            forall|m: usize| final(self).node_live(m) == old(self).node_live(m),
            forall|x: usize, y: usize|
                final(self).nodes.has_edge(x, y) == old(self).nodes.has_edge(x, y),
            forall|x: usize, y: usize|
                old(self).nodes.has_edge(x, y) ==> final(self).nodes.edge_weight(x, y) == old(
                    self,
                ).nodes.edge_weight(x, y),
            forall|m: usize|
                old(self).node_live(m) ==> final(self).node(m).light == old(self).node(m).light,
            forall|m: usize|
                old(self).node_live(m) && !old(self).lane_touches(m, i) ==> final(self).node(m)
                    == old(self).node(m),
            r is Ok ==> forall|k: int|
                0 <= k < old(self).outs(i).len() ==> lanes_placed(
                    *old(self),
                    *final(self),
                    i,
                    (#[trigger] old(self).outs(i)[k]).0,
                ),
            r is Ok ==> forall|k: int|
                0 <= k < old(self).ins(i).len() ==> lanes_placed(
                    *old(self),
                    *final(self),
                    (#[trigger] old(self).ins(i)[k]).0,
                    i,
                ),
    {
        if !self.intersections.is_live(i) {
            return Err(RoadGraphError::NotFound);
        }
        let ghost g0 = *self;
        let (out_list, in_list, center) = match self.intersections.get(i) {
            Some(inter) => (inter.out_nodes.duplicate(), inter.in_nodes.duplicate(), inter.pos),
            None => {
                proof {
                    assert(false);
                }
                (IdMap::new(), IdMap::new(), Vec2 { x: 0, y: 0 })
            },
        };
        let n_out = out_list.len();
        let mut k: usize = 0;
        while k < n_out
            invariant
                g0.wf(),
                g0.inter_live(i),
                out_list.entries_seq() == g0.outs(i),
                n_out as int == g0.outs(i).len(),
                center == g0.inter(i).pos,
                0 <= k <= n_out,
                self.intersections == g0.intersections,
                self.roads == g0.roads,
                self.nodes.wf(),
                self.nodes.n() == g0.nodes.n(),
                forall|m: usize| self.node_live(m) == g0.node_live(m),
                forall|x: usize, y: usize| self.nodes.has_edge(x, y) == g0.nodes.has_edge(x, y),
                forall|x: usize, y: usize|
                    g0.nodes.has_edge(x, y) ==> self.nodes.edge_weight(x, y)
                        == g0.nodes.edge_weight(x, y),
                forall|m: usize|
                    g0.node_live(m) ==> (#[trigger] self.node(m)).light == g0.node(m).light,
                forall|m: usize|
                    g0.node_live(m) ==> in_bounds(
                        (#[trigger] self.node(m)).pos,
                        NODE_COORD_BOUND as int,
                    ),
                forall|m: usize|
                    g0.node_live(m) && !g0.lane_touches(m, i) ==> #[trigger] self.node(m)
                        == g0.node(m),
                forall|k2: int|
                    0 <= k2 < k ==> lanes_placed(g0, *self, i, (#[trigger] g0.outs(i)[k2]).0),
            decreases n_out - k,
        {
            let entry = out_list.kth(k);
            let b = entry.0;
            let out_id = entry.1;
            proof {
                assert(g0.outs(i)[k as int] == entry);
                g0.inter(i).out_nodes.lemma_entry_val(k as int, b);
                assert(g0.owns_out(out_id, i, b));
                assert(g0.inter_live(b) && b != i);
                assert(g0.connected(i, b));
                assert(g0.node_live(out_id));
                assert(g0.node_live(g0.in_lane(i, b)));
            }
            let center2 = match self.intersections.get(b) {
                Some(nb) => nb.pos,
                None => {
                    proof {
                        assert(false);
                    }
                    Vec2 { x: 0, y: 0 }
                },
            };
            let in_id = match self.intersections.get(b) {
                Some(nb) => match nb.in_nodes.get(i) {
                    Some(v) => v,
                    None => {
                        proof {
                            assert(false);
                        }
                        0
                    },
                },
                None => {
                    proof {
                        assert(false);
                    }
                    0
                },
            };
            proof {
                assert(center2 == g0.inter(b).pos);
                assert(in_id == g0.in_lane(i, b));
                assert(g0.owns_in(in_id, i, b));
                assert(in_id != out_id);
                assert(in_bounds(center, MAX_COORD as int) && in_bounds(
                    center2,
                    MAX_COORD as int,
                ));
            }
            let lanes = lane_endpoints(center, center2);
            let ghost pre = *self;
            self.put_node_pos(out_id, lanes.0);
            let ghost midp = *self;
            self.put_node_pos(in_id, lanes.1);
            proof {
                assert(lanes_placed(g0, *self, i, b)) by {
                    assert(self.node(out_id).pos == lanes.0);
                    assert(self.node(in_id).pos == lanes.1);
                }
                assert forall|k2: int| 0 <= k2 < k + 1 implies lanes_placed(
                    g0,
                    *self,
                    i,
                    (#[trigger] g0.outs(i)[k2]).0,
                ) by {
                    if k2 < k {
                        let b2 = g0.outs(i)[k2].0;
                        let o2 = g0.outs(i)[k2].1;
                        g0.inter(i).out_nodes.lemma_entry_val(k2, b2);
                        assert(g0.owns_out(o2, i, b2));
                        assert(b2 != b);
                        let i2 = g0.in_lane(i, b2);
                        assert(g0.owns_in(i2, i, b2));
                        assert(o2 != out_id && o2 != in_id && i2 != out_id && i2 != in_id);
                        assert(g0.node_live(o2) && g0.node_live(i2)) by {
                            assert(g0.connected(i, b2));
                        }
                        assert(pre.node_live(o2) && pre.node_live(i2));
                        assert(midp.node_live(o2) && midp.node_live(i2));
                        assert(lanes_placed(g0, pre, i, b2));
                        assert(midp.node(o2) == pre.node(o2) && midp.node(i2) == pre.node(i2));
                        assert(self.node(o2) == midp.node(o2) && self.node(i2) == midp.node(i2));
                    }
                }
                assert forall|m: usize|
                    g0.node_live(m) && !g0.lane_touches(m, i) implies #[trigger] self.node(m)
                        == g0.node(m) by {
                    assert(g0.lane_touches(out_id, i)) by {
                        assert(g0.owns_out(out_id, i, b));
                    }
                    assert(g0.lane_touches(in_id, i)) by {
                        assert(g0.owns_in(in_id, i, b));
                    }
                    if m != out_id && m != in_id {
                        assert(midp.node(m) == pre.node(m));
                        assert(self.node(m) == midp.node(m));
                    }
                }
            }
            k = k + 1;
        }
        let ghost gmid = *self;
        let n_in = in_list.len();
        let mut k2i: usize = 0;
        while k2i < n_in
            invariant
                g0.wf(),
                g0.inter_live(i),
                in_list.entries_seq() == g0.ins(i),
                n_in as int == g0.ins(i).len(),
                center == g0.inter(i).pos,
                0 <= k2i <= n_in,
                self.intersections == g0.intersections,
                self.roads == g0.roads,
                self.nodes.wf(),
                self.nodes.n() == g0.nodes.n(),
                forall|m: usize| self.node_live(m) == g0.node_live(m),
                forall|x: usize, y: usize| self.nodes.has_edge(x, y) == g0.nodes.has_edge(x, y),
                forall|x: usize, y: usize|
                    g0.nodes.has_edge(x, y) ==> self.nodes.edge_weight(x, y)
                        == g0.nodes.edge_weight(x, y),
                forall|m: usize|
                    g0.node_live(m) ==> (#[trigger] self.node(m)).light == g0.node(m).light,
                forall|m: usize|
                    g0.node_live(m) ==> in_bounds(
                        (#[trigger] self.node(m)).pos,
                        NODE_COORD_BOUND as int,
                    ),
                forall|m: usize|
                    g0.node_live(m) && !g0.lane_touches(m, i) ==> #[trigger] self.node(m)
                        == g0.node(m),
                forall|k2: int|
                    0 <= k2 < g0.outs(i).len() ==> lanes_placed(
                        g0,
                        *self,
                        i,
                        (#[trigger] g0.outs(i)[k2]).0,
                    ),
                forall|k2: int|
                    0 <= k2 < k2i ==> lanes_placed(g0, *self, (#[trigger] g0.ins(i)[k2]).0, i),
            decreases n_in - k2i,
        {
            let entry = in_list.kth(k2i);
            let a = entry.0;
            let in_id = entry.1;
            proof {
                assert(g0.ins(i)[k2i as int] == entry);
                g0.inter(i).in_nodes.lemma_entry_val(k2i as int, a);
                assert(g0.owns_in(in_id, a, i));
                assert(g0.inter_live(a) && a != i);
                assert(g0.connected(a, i));
                assert(g0.node_live(in_id));
                assert(g0.node_live(g0.out_lane(a, i)));
            }
            let center2 = match self.intersections.get(a) {
                Some(na) => na.pos,
                None => {
                    proof {
                        assert(false);
                    }
                    Vec2 { x: 0, y: 0 }
                },
            };
            let out_id = match self.intersections.get(a) {
                Some(na) => match na.out_nodes.get(i) {
                    Some(v) => v,
                    None => {
                        proof {
                            assert(false);
                        }
                        0
                    },
                },
                None => {
                    proof {
                        assert(false);
                    }
                    0
                },
            };
            proof {
                assert(center2 == g0.inter(a).pos);
                assert(out_id == g0.out_lane(a, i));
                assert(g0.owns_out(out_id, a, i));
                assert(in_id != out_id);
                assert(in_bounds(center, MAX_COORD as int) && in_bounds(
                    center2,
                    MAX_COORD as int,
                ));
            }
            let lanes = lane_endpoints(center2, center);
            let ghost pre = *self;
            self.put_node_pos(out_id, lanes.0);
            let ghost midp = *self;
            self.put_node_pos(in_id, lanes.1);
            proof {
                assert(lanes_placed(g0, *self, a, i)) by {
                    assert(self.node(out_id).pos == lanes.0);
                    assert(self.node(in_id).pos == lanes.1);
                }
                assert forall|k2: int| 0 <= k2 < g0.outs(i).len() implies lanes_placed(
                    g0,
                    *self,
                    i,
                    (#[trigger] g0.outs(i)[k2]).0,
                ) by {
                    let b2 = g0.outs(i)[k2].0;
                    let o2 = g0.outs(i)[k2].1;
                    g0.inter(i).out_nodes.lemma_entry_val(k2, b2);
                    assert(g0.owns_out(o2, i, b2));
                    let i2 = g0.in_lane(i, b2);
                    assert(g0.owns_in(i2, i, b2));
                    assert(b2 != i && a != i);
                    assert(o2 != out_id && o2 != in_id && i2 != out_id && i2 != in_id);
                    assert(g0.node_live(o2) && g0.node_live(i2)) by {
                        assert(g0.connected(i, b2));
                    }
                    assert(pre.node_live(o2) && pre.node_live(i2));
                    assert(midp.node_live(o2) && midp.node_live(i2));
                    assert(lanes_placed(g0, pre, i, b2));
                    assert(midp.node(o2) == pre.node(o2) && midp.node(i2) == pre.node(i2));
                    assert(self.node(o2) == midp.node(o2) && self.node(i2) == midp.node(i2));
                }
                assert forall|k2: int| 0 <= k2 < k2i + 1 implies lanes_placed(
                    g0,
                    *self,
                    (#[trigger] g0.ins(i)[k2]).0,
                    i,
                ) by {
                    if k2 < k2i {
                        let a2 = g0.ins(i)[k2].0;
                        let i2 = g0.ins(i)[k2].1;
                        g0.inter(i).in_nodes.lemma_entry_val(k2, a2);
                        assert(g0.owns_in(i2, a2, i));
                        assert(a2 != a);
                        let o2 = g0.out_lane(a2, i);
                        assert(g0.owns_out(o2, a2, i));
                        assert(o2 != out_id && o2 != in_id && i2 != out_id && i2 != in_id);
                        assert(g0.node_live(o2) && g0.node_live(i2)) by {
                            assert(g0.connected(a2, i));
                        }
                        assert(pre.node_live(o2) && pre.node_live(i2));
                        assert(midp.node_live(o2) && midp.node_live(i2));
                        assert(lanes_placed(g0, pre, a2, i));
                        assert(midp.node(o2) == pre.node(o2) && midp.node(i2) == pre.node(i2));
                        assert(self.node(o2) == midp.node(o2) && self.node(i2) == midp.node(i2));
                    }
                }
                assert forall|m: usize|
                    g0.node_live(m) && !g0.lane_touches(m, i) implies #[trigger] self.node(m)
                        == g0.node(m) by {
                    assert(g0.lane_touches(out_id, i)) by {
                        assert(g0.owns_out(out_id, a, i));
                    }
                    assert(g0.lane_touches(in_id, i)) by {
                        assert(g0.owns_in(in_id, a, i));
                    }
                    if m != out_id && m != in_id {
                        assert(midp.node(m) == pre.node(m));
                        assert(self.node(m) == midp.node(m));
                    }
                }
            }
            k2i = k2i + 1;
        }
        proof {
            let g1 = *self;
            lemma_wf_core_nodes_same_shape(g0, g1);
            lemma_same_inters(g0, g1);
            assert forall|b2: usize| g1.inter_live(b2) implies #[trigger] g1.lights_ok_at(b2) by {
                assert(g0.lights_ok_at(b2));
                assert forall|kk: int| 0 <= kk < g1.ins(b2).len() implies g1.node(
                    (#[trigger] g1.ins(b2)[kk]).1,
                ).light == expected_light(kk, g1.ins(b2).len() as int) by {
                    assert(g1.ins(b2) == g0.ins(b2));
                    let m = g0.ins(b2)[kk].1;
                    assert(g0.node_live(m));
                    assert(g1.node(m).light == g0.node(m).light);
                    assert(g0.node(m).light == expected_light(kk, g0.ins(b2).len() as int));
                }
            }
        }
        Ok(())
    }
    /// Drops the road record joining `a` and `b`, if one exists.
    fn remove_road_pair(&mut self, a: usize, b: usize)
        requires
            old(self).roads.wf(),
            forall|r1: usize, r2: usize|
                old(self).road_live(r1) && old(self).road_live(r2) && r1 != r2 ==> !same_pair(
                    #[trigger] old(self).road(r1),
                    #[trigger] old(self).road(r2),
                ),
        ensures
            final(self).roads.wf(),
            final(self).roads.n() == old(self).roads.n(),
            final(self).nodes == old(self).nodes,
            final(self).intersections == old(self).intersections,
            forall|r: usize|
                final(self).road_live(r) == (old(self).road_live(r) && !pair_matches(
                    #[trigger] old(self).road(r),
                    a,
                    b,
                )),
            forall|r: usize|
                final(self).road_live(r) ==> final(self).road(r) == old(self).road(r),
    {
        let ghost g0 = *self;
        let n = self.roads.id_bound();
        let mut r: usize = 0;
        while r < n
            invariant
                *self == g0,
                g0 == *old(self),
                n as int == g0.roads.n(),
                0 <= r <= n,
                g0.roads.wf(),
                forall|r1: usize, r2: usize|
                    g0.road_live(r1) && g0.road_live(r2) && r1 != r2 ==> !same_pair(
                        #[trigger] g0.road(r1),
                        #[trigger] g0.road(r2),
                    ),
                forall|r2: usize|
                    (r2 as int) < r ==> !(g0.road_live(r2) && pair_matches(
                        #[trigger] g0.road(r2),
                        a,
                        b,
                    )),
            decreases n - r,
        {
            let doomed = match self.roads.get(r) {
                Some(rd) => (rd.src == a && rd.dst == b) || (rd.src == b && rd.dst == a),
                None => false,
            };
            if doomed {
                proof {
                    assert(g0.road_live(r) && pair_matches(g0.road(r), a, b));
                }
                self.roads.remove_node(r);
                proof {
                    assert forall|r2: usize|
                        self.road_live(r2) == (g0.road_live(r2) && !pair_matches(
                            #[trigger] g0.road(r2),
                            a,
                            b,
                        )) by {
                        if r2 != r && g0.road_live(r2) && pair_matches(g0.road(r2), a, b) {
                            assert(same_pair(g0.road(r2), g0.road(r)));
                        }
                    }
                    assert forall|r2: usize|
                        self.road_live(r2) implies self.road(r2) == g0.road(r2) by {
                        assert(r2 != r);
                    }
                }
                return ;
            }
            r = r + 1;
        }
        proof {
            assert forall|r2: usize|
                self.road_live(r2) == (g0.road_live(r2) && !pair_matches(
                    #[trigger] g0.road(r2),
                    a,
                    b,
                )) by {
                if (r2 as int) >= n {
                    g0.roads.lemma_live_bound(r2);
                }
            }
        }
    }

    /// Establishes the directed connection `from -> to`: a fresh outgoing
    /// lane-node at the source and incoming lane-node at the destination,
    /// joined by the internal zero-weight edge and cross-linked with the
    /// lanes already meeting at either end, then recomputed positions and
    /// lights.  Refused, leaving the graph untouched, when an id is dead,
    /// the two centers coincide, or the connection already exists.
    pub fn connect_directional(&mut self, from: usize, to: usize) -> (r: Result<
        (),
        RoadGraphError,
    >)
        requires
            old(self).wf(),
        ensures
            final(self).wf(),
            !(old(self).inter_live(from) && old(self).inter_live(to)) ==> r == Err::<
                (),
                RoadGraphError,
            >(RoadGraphError::NotFound) && *final(self) == *old(self),
            old(self).inter_live(from) && old(self).inter_live(to) && old(self).inter(from).pos
                == old(self).inter(to).pos ==> r == Err::<(), RoadGraphError>(
                RoadGraphError::SamePosition,
            ) && *final(self) == *old(self),
            old(self).inter_live(from) && old(self).inter_live(to) && old(self).inter(from).pos
                != old(self).inter(to).pos && old(self).connected(from, to) ==> r == Err::<
                (),
                RoadGraphError,
            >(RoadGraphError::AlreadyConnected) && *final(self) == *old(self),
            old(self).inter_live(from) && old(self).inter_live(to) && old(self).inter(from).pos
                != old(self).inter(to).pos && !old(self).connected(from, to) ==> r == Ok::<
                (),
                RoadGraphError,
            >(()) && attach_post(*old(self), *final(self), from, to),
    {
        if !self.intersections.is_live(from) || !self.intersections.is_live(to) {
            return Err(RoadGraphError::NotFound);
        }
        let posf = match self.intersections.get(from) {
            Some(c) => c.pos,
            None => {
                proof {
                    assert(false);
                }
                Vec2 { x: 0, y: 0 }
            },
        };
        let post = match self.intersections.get(to) {
            Some(c) => c.pos,
            None => {
                proof {
                    assert(false);
                }
                Vec2 { x: 0, y: 0 }
            },
        };
        if posf.x == post.x && posf.y == post.y {
            return Err(RoadGraphError::SamePosition);
        }
        let already = match self.intersections.get(from) {
            Some(c) => c.out_nodes.contains_key(to),
            None => false,
        };
        if already {
            return Err(RoadGraphError::AlreadyConnected);
        }
        let ghost g0 = *self;
        proof {
            assert(from != to);
            assert(!g0.connected(from, to));
            assert(!g0.inter(to).in_nodes.has_key(from)) by {
                if g0.inter(to).in_nodes.has_key(from) {
                    let k = g0.inter(to).in_nodes.key_at(from);
                    assert(g0.ins(to)[k].0 == from);
                }
            }
            assert(!g0.intersections.has_edge(from, to));
        }
        self.intersections.add_neigh(from, to, 1);
        let o = self.nodes.push(RoadNode::new(posf));
        let ii = self.nodes.push(RoadNode::new(post));
        self.nodes.add_neigh(o, ii, 0);
        let ghost ga = *self;
        proof {
            assert(o != ii && (o as int) == g0.nodes.n() && (ii as int) == g0.nodes.n() + 1);
            assert(forall|m: usize|
                ga.node_live(m) == (g0.node_live(m) || m == o || m == ii));
            assert(forall|m: usize|
                g0.node_live(m) ==> #[trigger] ga.node(m) == g0.node(m) && m != o && m != ii) by {
                assert forall|m: usize| g0.node_live(m) implies m != o && m != ii by {
                    g0.nodes.lemma_live_bound(m);
                }
            }
            assert(forall|x: usize, y: usize|
                !(x == o && y == ii) ==> ga.nodes.has_edge(x, y) == g0.nodes.has_edge(x, y));
            assert(!g0.node_live(o) && !g0.node_live(ii)) by {
                g0.nodes.lemma_live_bound(o);
                g0.nodes.lemma_live_bound(ii);
            }
            assert(forall|x: usize| !ga.nodes.has_edge(x, o));
            assert(forall|y: usize| ga.nodes.has_edge(o, y) == (y == ii));
            assert(forall|x: usize| ga.nodes.has_edge(x, ii) == (x == o));
            assert(forall|y: usize| !ga.nodes.has_edge(ii, y));
            assert(ga.nodes.edge_weight(o, ii) == 0);
            assert(ga.intersections.edge_weight(from, to) == 1);
            // the lane values of the source's incoming map are distinct
            assert forall|k1: int, k2: int|
                0 <= k1 < k2 < g0.ins(from).len() implies (#[trigger] g0.ins(from)[k1]).1 != (
            #[trigger] g0.ins(from)[k2]).1 by {
                let a1 = g0.ins(from)[k1].0;
                let a2 = g0.ins(from)[k2].0;
                assert(a1 != a2);
                let v = g0.ins(from)[k1].1;
                g0.inter(from).in_nodes.lemma_entry_val(k1, a1);
                g0.inter(from).in_nodes.lemma_entry_val(k2, a2);
                if g0.ins(from)[k2].1 == v {
                    assert(g0.owns_in(v, a1, from));
                    assert(g0.owns_in(v, a2, from));
                }
            }
        }
        // yield cross-links: every lane already merging into the source must
        // be weighed against the new outgoing lane
        let in_list = match self.intersections.get(from) {
            Some(c) => c.in_nodes.duplicate(),
            None => {
                proof {
                    assert(false);
                }
                IdMap::new()
            },
        };
        let n_in = in_list.len();
        let mut k: usize = 0;
        while k < n_in
            invariant
                g0.wf(),
                g0.inter_live(from),
                forall|j: usize| ga.inter_live(j) == g0.inter_live(j),
                forall|j: usize| g0.inter_live(j) ==> #[trigger] ga.inter(j) == g0.inter(j),
                in_list.entries_seq() == g0.ins(from),
                n_in as int == g0.ins(from).len(),
                0 <= k <= n_in,
                self.intersections == ga.intersections,
                self.roads == ga.roads,
                ga.roads == g0.roads,
                self.nodes.wf(),
                self.nodes.n() == ga.nodes.n(),
                (o as int) == g0.nodes.n(),
                (ii as int) == g0.nodes.n() + 1,
                forall|m: usize| ga.node_live(m) == (g0.node_live(m) || m == o || m == ii),
                forall|m: usize| g0.node_live(m) ==> #[trigger] ga.node(m) == g0.node(m),
                ga.node(o).light == TrafficLight::Always,
                ga.node(ii).light == TrafficLight::Always,
                in_bounds(ga.node(o).pos, NODE_COORD_BOUND as int),
                in_bounds(ga.node(ii).pos, NODE_COORD_BOUND as int),
                forall|m: usize| self.node_live(m) == ga.node_live(m),
                forall|m: usize| ga.node_live(m) ==> #[trigger] self.node(m) == ga.node(m),
                forall|x: usize, y: usize|
                    y != o ==> self.nodes.has_edge(x, y) == ga.nodes.has_edge(x, y),
                forall|x: usize, y: usize|
                    ga.nodes.has_edge(x, y) ==> self.nodes.edge_weight(x, y)
                        == ga.nodes.edge_weight(x, y),
                forall|x: usize|
                    self.nodes.has_edge(x, o) == merge_prefix(g0.ins(from), to, k as int, x),
                forall|x: usize|
                    merge_prefix(g0.ins(from), to, k as int, x) ==> self.nodes.edge_weight(x, o)
                        == 1,
                forall|k1: int, k2: int|
                    0 <= k1 < k2 < g0.ins(from).len() ==> (#[trigger] g0.ins(from)[k1]).1 != (
                    #[trigger] g0.ins(from)[k2]).1,
                forall|x: usize| !ga.nodes.has_edge(x, o),
                forall|y: usize| ga.nodes.has_edge(o, y) == (y == ii),
                forall|x: usize| ga.nodes.has_edge(x, ii) == (x == o),
                forall|y: usize| !ga.nodes.has_edge(ii, y),
                ga.nodes.edge_weight(o, ii) == 0,
                ga.intersections.edge_weight(from, to) == 1,
                ga.nodes.has_edge(o, ii),
                ga.node_live(o) && ga.node_live(ii),
            decreases n_in - k,
        {
            let entry = in_list.kth(k);
            let src = entry.0;
            let lane = entry.1;
            proof {
                assert(g0.ins(from)[k as int] == entry);
                assert(g0.node_live(lane));
                g0.nodes.lemma_live_bound(lane);
            }
            proof {
                assert(ga.node_live(lane) && ga.node_live(o));
                assert(self.node_live(lane) && self.node_live(o));
                assert(lane != o && lane != ii);
            }
            if src != to {
                let ghost pre = *self;
                self.nodes.add_neigh(lane, o, 1);
                proof {
                    assert forall|x: usize, y: usize|
                        ga.nodes.has_edge(x, y) implies self.nodes.edge_weight(x, y)
                            == ga.nodes.edge_weight(x, y) by {
                        assert(!(x == lane && y == o)) by {
                            if y == o {
                                assert(!ga.nodes.has_edge(x, o));
                            }
                        }
                        assert(pre.nodes.has_edge(x, y)) by {
                            if y != o {
                                assert(pre.nodes.has_edge(x, y) == ga.nodes.has_edge(x, y));
                            }
                        }
                        assert(pre.nodes.edge_weight(x, y) == ga.nodes.edge_weight(x, y));
                        assert(self.nodes.edge_weight(x, y) == pre.nodes.edge_weight(x, y));
                    }
                    assert forall|m: usize| ga.node_live(m) implies #[trigger] self.node(m)
                        == ga.node(m) by {
                        assert(pre.node_live(m));
                        assert(self.node(m) == pre.node(m));
                        assert(pre.node(m) == ga.node(m));
                    }
                    assert forall|x: usize|
                        self.nodes.has_edge(x, o) == merge_prefix(
                            g0.ins(from),
                            to,
                            k as int + 1,
                            x,
                        ) by {
                        if self.nodes.has_edge(x, o) && x != lane {
                            assert(pre.nodes.has_edge(x, o));
                        }
                        if merge_prefix(g0.ins(from), to, k as int + 1, x) && x != lane {
                            assert(merge_prefix(g0.ins(from), to, k as int, x)) by {
                                let w = choose|w: int|
                                    0 <= w < k + 1 && (#[trigger] g0.ins(from)[w]).0 != to
                                        && g0.ins(from)[w].1 == x;
                                assert(w < k) by {
                                    if w == k as int {
                                        assert(g0.ins(from)[w].1 == lane);
                                    }
                                }
                            }
                            assert(pre.nodes.has_edge(x, o));
                        }
                        if x == lane {
                            assert(merge_prefix(g0.ins(from), to, k as int + 1, lane)) by {
                                assert(g0.ins(from)[k as int].0 != to && g0.ins(from)[k as int].1
                                    == lane);
                            }
                        }
                    }
                    assert forall|x: usize|
                        merge_prefix(g0.ins(from), to, k as int + 1, x) implies
                        self.nodes.edge_weight(x, o) == 1 by {
                        if x != lane {
                            assert(merge_prefix(g0.ins(from), to, k as int, x)) by {
                                let w = choose|w: int|
                                    0 <= w < k + 1 && (#[trigger] g0.ins(from)[w]).0 != to
                                        && g0.ins(from)[w].1 == x;
                                assert(w < k) by {
                                    if w == k as int {
                                        assert(g0.ins(from)[w].1 == lane);
                                    }
                                }
                            }
                            assert(pre.nodes.has_edge(x, o));
                            assert(pre.nodes.edge_weight(x, o) == 1);
                            assert(self.nodes.edge_weight(x, o) == pre.nodes.edge_weight(x, o));
                        }
                    }
                }
            } else {
                proof {
                    assert forall|x: usize|
                        merge_prefix(g0.ins(from), to, k as int + 1, x) == merge_prefix(
                            g0.ins(from),
                            to,
                            k as int,
                            x,
                        ) by {
                        if merge_prefix(g0.ins(from), to, k as int + 1, x) {
                            let w = choose|w: int|
                                0 <= w < k + 1 && (#[trigger] g0.ins(from)[w]).0 != to
                                    && g0.ins(from)[w].1 == x;
                            assert(w < k) by {
                                if w == k as int {
                                    assert(g0.ins(from)[w].0 == to);
                                }
                            }
                        }
                    }
                }
            }
            k = k + 1;
        }
        let ghost gc = *self;
        // record the new pair in both adjacency maps
        let new_from = match self.intersections.get(from) {
            Some(c) => Intersection {
                pos: c.pos,
                in_nodes: c.in_nodes.duplicate(),
                out_nodes: c.out_nodes.duplicate(),
                render_handle: c.render_handle,
            },
            None => {
                proof {
                    assert(false);
                }
                Intersection::new(Vec2 { x: 0, y: 0 })
            },
        };
        let mut new_from = new_from;
        new_from.out_nodes.insert(to, o);
        self.intersections.set(from, new_from);
        let new_to = match self.intersections.get(to) {
            Some(c) => Intersection {
                pos: c.pos,
                in_nodes: c.in_nodes.duplicate(),
                out_nodes: c.out_nodes.duplicate(),
                render_handle: c.render_handle,
            },
            None => {
                proof {
                    assert(false);
                }
                Intersection::new(Vec2 { x: 0, y: 0 })
            },
        };
        let mut new_to = new_to;
        new_to.in_nodes.insert(from, ii);
        self.intersections.set(to, new_to);
        // merge cross-links at the destination: the new incoming lane yields
        // to every lane already leaving there
        let out_list = match self.intersections.get(to) {
            Some(c) => c.out_nodes.duplicate(),
            None => {
                proof {
                    assert(false);
                }
                IdMap::new()
            },
        };
        let ghost gb = *self;
        proof {
            assert(gb.nodes == gc.nodes);
            assert forall|m: usize| g0.node_live(m) implies #[trigger] gb.node(m) == g0.node(
                m,
            ) by {
                assert(ga.node_live(m));
                assert(gc.node(m) == ga.node(m));
                assert(ga.node(m) == g0.node(m));
                assert(gb.node(m) == gc.node(m));
            }
            assert forall|m: usize|
                gb.node_live(m) == (g0.node_live(m) || m == o || m == ii) by {
                assert(gb.node_live(m) == gc.node_live(m));
                assert(gc.node_live(m) == ga.node_live(m));
            }
            assert(gb.node(o) == gc.node(o) && gb.node(ii) == gc.node(ii));
            assert(gc.node(o) == ga.node(o) && gc.node(ii) == ga.node(ii));
            assert(gb.node(o).light == TrafficLight::Always && gb.node(ii).light
                == TrafficLight::Always);
            assert(in_bounds(gb.node(o).pos, NODE_COORD_BOUND as int) && in_bounds(
                gb.node(ii).pos,
                NODE_COORD_BOUND as int,
            ));
            assert forall|x: usize, y: usize|
                x != ii && y != o && !(x == o && y == ii) implies gb.nodes.has_edge(x, y)
                    == g0.nodes.has_edge(x, y) by {
                assert(gb.nodes.has_edge(x, y) == gc.nodes.has_edge(x, y));
                assert(gc.nodes.has_edge(x, y) == ga.nodes.has_edge(x, y));
                assert(ga.nodes.has_edge(x, y) == g0.nodes.has_edge(x, y));
            }
            assert(gb.nodes.has_edge(o, ii)) by {
                assert(gc.nodes.has_edge(o, ii) == ga.nodes.has_edge(o, ii));
                assert(gb.nodes.has_edge(o, ii) == gc.nodes.has_edge(o, ii));
            }
            assert forall|x: usize|
                gb.nodes.has_edge(x, o) == merge_lane_at_src(g0, from, to, x) by {
                assert(gb.nodes.has_edge(x, o) == gc.nodes.has_edge(x, o));
            }
            assert forall|x: usize|
                merge_lane_at_src(g0, from, to, x) implies gb.nodes.edge_weight(x, o) == 1 by {
                assert(gc.nodes.has_edge(x, o));
                assert(gc.nodes.edge_weight(x, o) == 1);
                assert(gb.nodes.edge_weight(x, o) == gc.nodes.edge_weight(x, o));
            }
            assert forall|y: usize| gb.nodes.has_edge(o, y) == (y == ii) by {
                assert(gb.nodes.has_edge(o, y) == gc.nodes.has_edge(o, y));
                if y != o {
                    assert(gc.nodes.has_edge(o, y) == ga.nodes.has_edge(o, y));
                } else {
                    assert(gc.nodes.has_edge(o, o) == merge_prefix(
                        g0.ins(from),
                        to,
                        g0.ins(from).len() as int,
                        o,
                    ));
                    assert(!merge_prefix(g0.ins(from), to, g0.ins(from).len() as int, o)) by {
                        if merge_prefix(g0.ins(from), to, g0.ins(from).len() as int, o) {
                            let w = choose|w: int|
                                0 <= w < g0.ins(from).len() && (#[trigger] g0.ins(from)[w]).0 != to
                                    && g0.ins(from)[w].1 == o;
                            assert(g0.node_live(g0.ins(from)[w].1));
                            g0.nodes.lemma_live_bound(o);
                        }
                    }
                }
            }
            assert forall|x: usize| gb.nodes.has_edge(x, ii) == (x == o) by {
                assert(gb.nodes.has_edge(x, ii) == gc.nodes.has_edge(x, ii));
                assert(gc.nodes.has_edge(x, ii) == ga.nodes.has_edge(x, ii)) by {
                    assert(ii != o);
                }
            }
            assert forall|y: usize| !gb.nodes.has_edge(ii, y) by {
                assert(gb.nodes.has_edge(ii, y) == gc.nodes.has_edge(ii, y));
                if y != o {
                    assert(gc.nodes.has_edge(ii, y) == ga.nodes.has_edge(ii, y));
                } else {
                    assert(gc.nodes.has_edge(ii, o) == merge_prefix(
                        g0.ins(from),
                        to,
                        g0.ins(from).len() as int,
                        ii,
                    ));
                    assert(!merge_prefix(g0.ins(from), to, g0.ins(from).len() as int, ii)) by {
                        if merge_prefix(g0.ins(from), to, g0.ins(from).len() as int, ii) {
                            let w = choose|w: int|
                                0 <= w < g0.ins(from).len() && (#[trigger] g0.ins(from)[w]).0 != to
                                    && g0.ins(from)[w].1 == ii;
                            assert(g0.node_live(g0.ins(from)[w].1));
                            g0.nodes.lemma_live_bound(ii);
                        }
                    }
                }
            }
            assert(gb.nodes.edge_weight(o, ii) == 0) by {
                assert(gc.nodes.has_edge(o, ii));
                assert(gc.nodes.edge_weight(o, ii) == ga.nodes.edge_weight(o, ii) || true);
                assert(gb.nodes.edge_weight(o, ii) == gc.nodes.edge_weight(o, ii));
                assert(gc.nodes.edge_weight(o, ii) == 0);
            }
            assert(gb.intersections.edge_weight(from, to) == 1) by {
                assert(ga.intersections.has_edge(from, to));
            }
            assert(gb.node_live(o) && gb.node_live(ii));
            // the lane values of the destination's outgoing map are distinct
            assert forall|k1: int, k2: int|
                0 <= k1 < k2 < g0.outs(to).len() implies (#[trigger] g0.outs(to)[k1]).1 != (
            #[trigger] g0.outs(to)[k2]).1 by {
                let b1 = g0.outs(to)[k1].0;
                let b2 = g0.outs(to)[k2].0;
                assert(b1 != b2);
                let v = g0.outs(to)[k1].1;
                g0.inter(to).out_nodes.lemma_entry_val(k1, b1);
                g0.inter(to).out_nodes.lemma_entry_val(k2, b2);
                if g0.outs(to)[k2].1 == v {
                    assert(g0.owns_out(v, to, b1));
                    assert(g0.owns_out(v, to, b2));
                }
            }
        }
        let n_out = out_list.len();
        let mut k2: usize = 0;
        while k2 < n_out
            invariant
                g0.wf(),
                g0.inter_live(to),
                out_list.entries_seq() == g0.outs(to),
                n_out as int == g0.outs(to).len(),
                0 <= k2 <= n_out,
                self.intersections == gb.intersections,
                self.roads == gb.roads,
                self.nodes.wf(),
                self.nodes.n() == gb.nodes.n(),
                (o as int) == g0.nodes.n(),
                (ii as int) == g0.nodes.n() + 1,
                forall|m: usize| gb.node_live(m) == (g0.node_live(m) || m == o || m == ii),
                forall|m: usize| g0.node_live(m) ==> #[trigger] gb.node(m) == g0.node(m),
                gb.node(o).light == TrafficLight::Always,
                gb.node(ii).light == TrafficLight::Always,
                in_bounds(gb.node(o).pos, NODE_COORD_BOUND as int),
                in_bounds(gb.node(ii).pos, NODE_COORD_BOUND as int),
                forall|x: usize, y: usize|
                    x != ii && y != o && !(x == o && y == ii) ==> gb.nodes.has_edge(x, y)
                        == g0.nodes.has_edge(x, y),
                forall|m: usize| self.node_live(m) == gb.node_live(m),
                forall|m: usize| gb.node_live(m) ==> #[trigger] self.node(m) == gb.node(m),
                forall|x: usize, y: usize|
                    x != ii ==> self.nodes.has_edge(x, y) == gb.nodes.has_edge(x, y),
                forall|x: usize, y: usize|
                    gb.nodes.has_edge(x, y) ==> self.nodes.edge_weight(x, y)
                        == gb.nodes.edge_weight(x, y),
                forall|y: usize|
                    self.nodes.has_edge(ii, y) == exit_prefix(g0.outs(to), from, k2 as int, y),
                forall|y: usize|
                    exit_prefix(g0.outs(to), from, k2 as int, y) ==> self.nodes.edge_weight(ii, y)
                        == 1,
                forall|k3: int, k4: int|
                    0 <= k3 < k4 < g0.outs(to).len() ==> (#[trigger] g0.outs(to)[k3]).1 != (
                    #[trigger] g0.outs(to)[k4]).1,
                forall|x: usize| gb.nodes.has_edge(x, o) == merge_lane_at_src(g0, from, to, x),
                forall|x: usize|
                    merge_lane_at_src(g0, from, to, x) ==> gb.nodes.edge_weight(x, o) == 1,
                forall|y: usize| gb.nodes.has_edge(o, y) == (y == ii),
                forall|x: usize| gb.nodes.has_edge(x, ii) == (x == o),
                forall|y: usize| !gb.nodes.has_edge(ii, y),
                gb.nodes.edge_weight(o, ii) == 0,
                gb.intersections.edge_weight(from, to) == 1,
                self.nodes.has_edge(o, ii) == gb.nodes.has_edge(o, ii),
                gb.nodes.has_edge(o, ii),
                gb.node_live(o) && gb.node_live(ii),
                o != ii,
            decreases n_out - k2,
        {
            let entry = out_list.kth(k2);
            let dst = entry.0;
            let lane = entry.1;
            proof {
                assert(g0.outs(to)[k2 as int] == entry);
                assert(g0.node_live(lane));
                g0.nodes.lemma_live_bound(lane);
            }
            proof {
                assert(gb.node_live(lane) && gb.node_live(ii));
                assert(self.node_live(lane) && self.node_live(ii));
                assert(lane != o && lane != ii);
            }
            if dst != from {
                let ghost pre = *self;
                self.nodes.add_neigh(ii, lane, 1);
                proof {
                    assert(self.nodes.has_edge(o, ii) == pre.nodes.has_edge(o, ii)) by {
                        assert(!(o == ii));
                    }
                    assert forall|x: usize, y: usize|
                        gb.nodes.has_edge(x, y) implies self.nodes.edge_weight(x, y)
                            == gb.nodes.edge_weight(x, y) by {
                        assert(!(x == ii && y == lane)) by {
                            if x == ii {
                                assert(!gb.nodes.has_edge(ii, y));
                            }
                        }
                        assert(pre.nodes.has_edge(x, y)) by {
                            if x != ii {
                                assert(pre.nodes.has_edge(x, y) == gb.nodes.has_edge(x, y));
                            }
                        }
                        assert(pre.nodes.edge_weight(x, y) == gb.nodes.edge_weight(x, y));
                        assert(self.nodes.edge_weight(x, y) == pre.nodes.edge_weight(x, y));
                    }
                    assert forall|m: usize| gb.node_live(m) implies #[trigger] self.node(m)
                        == gb.node(m) by {
                        assert(pre.node_live(m));
                        assert(self.node(m) == pre.node(m));
                        assert(pre.node(m) == gb.node(m));
                    }
                    assert forall|y: usize|
                        self.nodes.has_edge(ii, y) == exit_prefix(
                            g0.outs(to),
                            from,
                            k2 as int + 1,
                            y,
                        ) by {
                        if self.nodes.has_edge(ii, y) && y != lane {
                            assert(pre.nodes.has_edge(ii, y));
                        }
                        if exit_prefix(g0.outs(to), from, k2 as int + 1, y) && y != lane {
                            assert(exit_prefix(g0.outs(to), from, k2 as int, y)) by {
                                let w = choose|w: int|
                                    0 <= w < k2 + 1 && (#[trigger] g0.outs(to)[w]).0 != from
                                        && g0.outs(to)[w].1 == y;
                                assert(w < k2) by {
                                    if w == k2 as int {
                                        assert(g0.outs(to)[w].1 == lane);
                                    }
                                }
                            }
                            assert(pre.nodes.has_edge(ii, y));
                        }
                        if y == lane {
                            assert(exit_prefix(g0.outs(to), from, k2 as int + 1, lane)) by {
                                assert(g0.outs(to)[k2 as int].0 != from && g0.outs(to)[k2 as int].1
                                    == lane);
                            }
                        }
                    }
                    assert forall|y: usize|
                        exit_prefix(g0.outs(to), from, k2 as int + 1, y) implies
                        self.nodes.edge_weight(ii, y) == 1 by {
                        if y != lane {
                            assert(exit_prefix(g0.outs(to), from, k2 as int, y)) by {
                                let w = choose|w: int|
                                    0 <= w < k2 + 1 && (#[trigger] g0.outs(to)[w]).0 != from
                                        && g0.outs(to)[w].1 == y;
                                assert(w < k2) by {
                                    if w == k2 as int {
                                        assert(g0.outs(to)[w].1 == lane);
                                    }
                                }
                            }
                            assert(pre.nodes.has_edge(ii, y));
                            assert(pre.nodes.edge_weight(ii, y) == 1);
                            assert(self.nodes.edge_weight(ii, y) == pre.nodes.edge_weight(ii, y));
                        }
                    }
                }
            } else {
                proof {
                    assert forall|y: usize|
                        exit_prefix(g0.outs(to), from, k2 as int + 1, y) == exit_prefix(
                            g0.outs(to),
                            from,
                            k2 as int,
                            y,
                        ) by {
                        if exit_prefix(g0.outs(to), from, k2 as int + 1, y) {
                            let w = choose|w: int|
                                0 <= w < k2 + 1 && (#[trigger] g0.outs(to)[w]).0 != from
                                    && g0.outs(to)[w].1 == y;
                            assert(w < k2) by {
                                if w == k2 as int {
                                    assert(g0.outs(to)[w].0 == from);
                                }
                            }
                        }
                    }
                }
            }
            k2 = k2 + 1;
        }
        let ghost gm = *self;
        proof {
            assert(gm.outs(from) == g0.outs(from).push((to, o)));
            assert(gm.ins(to) == g0.ins(to).push((from, ii)));
            assert(gm.ins(from) == g0.ins(from) && gm.outs(to) == g0.outs(to));
            assert(forall|j: usize|
                j != from && j != to && g0.inter_live(j) ==> #[trigger] gm.inter(j) == g0.inter(
                    j,
                ));
            assert(forall|a: usize, b: usize|
                gm.intersections.has_edge(a, b) == (g0.intersections.has_edge(a, b) || (a == from
                    && b == to)));
            assert forall|m: usize|
                gm.node_live(m) == (g0.node_live(m) || m == o || m == ii) by {}
            assert forall|m: usize| g0.node_live(m) implies #[trigger] gm.node(m) == g0.node(
                m,
            ) by {
                assert(gb.node_live(m));
                assert(gm.node(m) == gb.node(m));
                assert(gb.node(m) == g0.node(m));
            }
            assert forall|x: usize, y: usize|
                x != ii && y != o && !(x == o && y == ii) implies gm.nodes.has_edge(x, y)
                    == g0.nodes.has_edge(x, y) by {
                assert(gm.nodes.has_edge(x, y) == gb.nodes.has_edge(x, y));
            }
            assert(gm.nodes.has_edge(o, ii));
            assert(gm.node(o).light == TrafficLight::Always && in_bounds(
                gm.node(o).pos,
                NODE_COORD_BOUND as int,
            )) by {
                assert(gb.node_live(o));
                assert(gm.node(o) == gb.node(o));
            }
            assert(gm.node(ii).light == TrafficLight::Always && in_bounds(
                gm.node(ii).pos,
                NODE_COORD_BOUND as int,
            )) by {
                assert(gb.node_live(ii));
                assert(gm.node(ii) == gb.node(ii));
            }
            lemma_attach_core(g0, gm, from, to, o, ii);
        }
        self.refresh_lights(to);
        let ghost gr = *self;
        let calc_ok = self.calculate_nodes_positions(from);
        proof {
            let g1 = *self;
            assert(calc_ok is Ok);
            lemma_same_inters(gm, gr);
            lemma_same_inters(gr, g1);
            lemma_same_inters(gm, g1);
            lemma_same_roads(gm, gr);
            lemma_same_roads(gr, g1);
            // the maps after the operation
            assert(g1.outs(from) == g0.outs(from).push((to, o)));
            assert(g1.ins(to) == g0.ins(to).push((from, ii)));
            assert(g1.ins(from) == g0.ins(from) && g1.outs(to) == g0.outs(to));
            // node shape
            assert(g1.nodes.n() == g0.nodes.n() + 2);
            assert(forall|m: usize| g1.node_live(m) == (g0.node_live(m) || m == o || m == ii));
            assert forall|x: usize, y: usize|
                x != ii && y != o && !(x == o && y == ii) implies g1.nodes.has_edge(x, y)
                    == g0.nodes.has_edge(x, y) by {
                assert(g1.nodes.has_edge(x, y) == gr.nodes.has_edge(x, y));
                assert(gr.nodes.has_edge(x, y) == gm.nodes.has_edge(x, y));
            }
            assert(g1.nodes.has_edge(o, ii)) by {
                assert(gr.nodes.has_edge(o, ii) == gm.nodes.has_edge(o, ii));
                assert(g1.nodes.has_edge(o, ii) == gr.nodes.has_edge(o, ii));
            }
            assert forall|x: usize, y: usize|
                g1.nodes.has_edge(x, y) == gm.nodes.has_edge(x, y) by {
                assert(g1.nodes.has_edge(x, y) == gr.nodes.has_edge(x, y));
                assert(gr.nodes.has_edge(x, y) == gm.nodes.has_edge(x, y));
            }
            assert forall|x: usize, y: usize|
                gm.nodes.has_edge(x, y) implies g1.nodes.edge_weight(x, y)
                    == gm.nodes.edge_weight(x, y) by {
                assert(gr.nodes.has_edge(x, y));
                assert(gr.nodes.edge_weight(x, y) == gm.nodes.edge_weight(x, y));
                assert(g1.nodes.edge_weight(x, y) == gr.nodes.edge_weight(x, y));
            }
            assert(g1.nodes.edge_weight(o, ii) == 0);
            assert(g1.intersections.edge_weight(from, to) == 1) by {
                assert(g1.intersections == gm.intersections);
            }
            assert(forall|x: usize|
                g1.nodes.has_edge(x, o) == merge_lane_at_src(g0, from, to, x));
            assert(forall|y: usize| g1.nodes.has_edge(o, y) == (y == ii));
            assert(forall|x: usize| g1.nodes.has_edge(x, ii) == (x == o));
            assert(forall|y: usize| g1.nodes.has_edge(ii, y) == exit_lane_at_dst(g0, to, from, y));
            assert(forall|x: usize|
                merge_lane_at_src(g0, from, to, x) ==> g1.nodes.edge_weight(x, o) == 1);
            assert(forall|y: usize|
                exit_lane_at_dst(g0, to, from, y) ==> g1.nodes.edge_weight(ii, y) == 1);
            // untouched lane-nodes
            assert forall|m: usize|
                g0.node_live(m) && !in_lane_list(g1.ins(to), m) && !g1.lane_touches(m, from)
                    implies #[trigger] g1.node(m) == g0.node(m) by {
                assert(gm.node(m) == g0.node(m));
                assert(gm.ins(to) == g1.ins(to));
                assert(gr.node(m) == gm.node(m)) by {
                    assert(gm.node_live(m));
                }
                assert(!gr.lane_touches(m, from)) by {
                    if gr.lane_touches(m, from) {
                        let b = choose|b: usize|
                            gr.owns_out(m, from, b) || gr.owns_in(m, from, b) || gr.owns_out(
                                m,
                                b,
                                from,
                            ) || gr.owns_in(m, b, from);
                        assert(g1.owns_out(m, from, b) == gr.owns_out(m, from, b)
                            && g1.owns_in(m, from, b) == gr.owns_in(m, from, b) && g1.owns_out(
                            m,
                            b,
                            from,
                        ) == gr.owns_out(m, b, from) && g1.owns_in(m, b, from) == gr.owns_in(
                            m,
                            b,
                            from,
                        )) by {
                            lemma_owns_same_inters(gr, g1, m, from, b);
                        }
                        assert(g1.lane_touches(m, from));
                    }
                }
                assert(gr.node_live(m));
                assert(g1.node(m) == gr.node(m));
            }
            // freshly placed lane positions
            assert forall|kk: int| 0 <= kk < g1.outs(from).len() implies placed_cur(
                g1,
                from,
                (#[trigger] g1.outs(from)[kk]).0,
            ) by {
                assert(gr.outs(from) == g1.outs(from));
                let b = gr.outs(from)[kk].0;
                assert(lanes_placed(gr, g1, from, b));
                assert(gr.out_lane(from, b) == g1.out_lane(from, b) && gr.in_lane(from, b)
                    == g1.in_lane(from, b)) by {
                    lemma_owns_same_inters(gr, g1, 0, from, b);
                }
                assert(gr.inter(from).pos == g1.inter(from).pos && gr.inter(b).pos == g1.inter(
                    b,
                ).pos);
            }
            assert forall|kk: int| 0 <= kk < g1.ins(from).len() implies placed_cur(
                g1,
                (#[trigger] g1.ins(from)[kk]).0,
                from,
            ) by {
                assert(gr.ins(from) == g1.ins(from));
                let a = gr.ins(from)[kk].0;
                assert(lanes_placed(gr, g1, a, from));
                assert(gr.out_lane(a, from) == g1.out_lane(a, from) && gr.in_lane(a, from)
                    == g1.in_lane(a, from)) by {
                    lemma_owns_same_inters(gr, g1, 0, a, from);
                }
                assert(gr.inter(from).pos == g1.inter(from).pos && gr.inter(a).pos == g1.inter(
                    a,
                ).pos);
            }
            assert(attach_post(g0, g1, from, to));
        }
        Ok(())
    }

    /// Establishes a bidirectional road between two distinct intersections at
    /// different positions: one directional connection each way and a road
    /// record carrying the lane pattern.
    pub fn connect(&mut self, a: usize, b: usize, pattern: LanePattern) -> (r: Result<
        usize,
        RoadGraphError,
    >)
        requires
            old(self).wf(),
            pattern.wf(),
        ensures
            final(self).wf(),
            !(old(self).inter_live(a) && old(self).inter_live(b)) ==> r == Err::<
                usize,
                RoadGraphError,
            >(RoadGraphError::NotFound) && *final(self) == *old(self),
            old(self).inter_live(a) && old(self).inter_live(b) && old(self).inter(a).pos == old(
                self,
            ).inter(b).pos ==> r == Err::<usize, RoadGraphError>(RoadGraphError::SamePosition)
                && *final(self) == *old(self),
            old(self).inter_live(a) && old(self).inter_live(b) && old(self).inter(a).pos != old(
                self,
            ).inter(b).pos && (old(self).connected(a, b) || old(self).connected(b, a)) ==> r
                == Err::<usize, RoadGraphError>(RoadGraphError::AlreadyConnected) && *final(self)
                == *old(self),
            old(self).inter_live(a) && old(self).inter_live(b) && old(self).inter(a).pos != old(
                self,
            ).inter(b).pos && !old(self).connected(a, b) && !old(self).connected(b, a) ==> {
                &&& r == Ok::<usize, RoadGraphError>((old(self).roads.n() as usize))
                &&& connect_post(*old(self), *final(self), a, b, pattern)
            },
    {
        if !self.intersections.is_live(a) || !self.intersections.is_live(b) {
            return Err(RoadGraphError::NotFound);
        }
        let pa = match self.intersections.get(a) {
            Some(c) => c.pos,
            None => {
                proof {
                    assert(false);
                }
                Vec2 { x: 0, y: 0 }
            },
        };
        let pb = match self.intersections.get(b) {
            Some(c) => c.pos,
            None => {
                proof {
                    assert(false);
                }
                Vec2 { x: 0, y: 0 }
            },
        };
        if pa.x == pb.x && pa.y == pb.y {
            return Err(RoadGraphError::SamePosition);
        }
        let fwd_there = match self.intersections.get(a) {
            Some(c) => c.out_nodes.contains_key(b),
            None => false,
        };
        let fwd_back = match self.intersections.get(b) {
            Some(c) => c.out_nodes.contains_key(a),
            None => false,
        };
        if fwd_there || fwd_back {
            return Err(RoadGraphError::AlreadyConnected);
        }
        let ghost g0 = *self;
        let r1 = self.connect_directional(a, b);
        let ghost m1 = *self;
        proof {
            assert(r1 is Ok);
            assert(attach_post(g0, m1, a, b));
            assert(m1.inter_live(b) && m1.inter_live(a));
            assert(m1.inter(b).pos == g0.inter(b).pos && m1.inter(a).pos == g0.inter(a).pos);
            assert(!m1.connected(b, a)) by {
                if m1.connected(b, a) {
                    assert(m1.outs(b) == g0.outs(b));
                    assert(g0.inter(b).out_nodes.has_key(a));
                }
            }
        }
        let r2 = self.connect_directional(b, a);
        let ghost m2 = *self;
        proof {
            assert(r2 is Ok);
            assert(attach_post(m1, m2, b, a));
        }
        proof {
            assert(a != b);
            assert(m2.connected(a, b)) by {
                crate::idmap::lemma_map_push_self(g0.outs(a), b, (g0.nodes.n() as usize));
                assert(m1.inter(a).out_nodes.has_key(b));
                assert(m2.outs(a) == m1.outs(a));
            }
            assert(m2.connected(b, a)) by {
                crate::idmap::lemma_map_push_self(m1.outs(b), a, (m1.nodes.n() as usize));
            }
            assert(m2.roads == g0.roads);
            lemma_same_roads(g0, m2);
            assert forall|r: usize|
                m2.road_live(r) implies !pair_matches(#[trigger] m2.road(r), a, b) by {
                assert(m2.road(r) == g0.road(r));
                assert(g0.road_live(r));
                if pair_matches(g0.road(r), a, b) {
                    assert(g0.connected(g0.road(r).src, g0.road(r).dst));
                    assert(g0.connected(g0.road(r).dst, g0.road(r).src));
                }
            }
        }
        let rid = self.roads.push(Road { src: a, dst: b, pattern });
        proof {
            let g1 = *self;
            lemma_wf_after_road_push(m2, g1, a, b, pattern, rid);
            assert(connect_post(g0, g1, a, b, pattern)) by {
                assert(attach_post(g0, m1, a, b) && attach_post(m1, m2, b, a));
            }
        }
        Ok(rid)
    }

    /// Severs both directional connections between `a` and `b` (and with
    /// them the road record).
    pub fn disconnect(&mut self, a: usize, b: usize)
        requires
            old(self).wf(),
            old(self).connected(a, b),
            old(self).connected(b, a),
        ensures
            final(self).wf(),
            exists|mid: RoadGraph|
                #[trigger] detach_post(*old(self), mid, a, b) && detach_post(
                    mid,
                    *final(self),
                    b,
                    a,
                ),
    {
        let ghost g0 = *self;
        self.disconnect_directional(a, b);
        let ghost m1 = *self;
        proof {
            assert(detach_post(g0, m1, a, b));
            assert(m1.connected(b, a)) by {
                assert(m1.outs(b) == g0.outs(b));
                assert(g0.inter(b).out_nodes.has_key(a));
            }
        }
        self.disconnect_directional(b, a);
        proof {
            assert(detach_post(m1, *self, b, a));
        }
    }

    /// Removes intersection `id` after severing every connection it has, and
    /// hands back its presentation handle for the caller to release.
    pub fn delete_inter(&mut self, id: usize) -> (r: Result<Option<u64>, RoadGraphError>)
        requires
            old(self).wf(),
        ensures
            final(self).wf(),
            r is Ok <==> old(self).inter_live(id),
            r is Err ==> *final(self) == *old(self) && r == Err::<Option<u64>, RoadGraphError>(
                RoadGraphError::NotFound,
            ),
            r is Ok ==> r == Ok::<Option<u64>, RoadGraphError>(old(self).inter(id).render_handle)
                && delete_post(*old(self), *final(self), id),
    {
        if !self.intersections.is_live(id) {
            return Err(RoadGraphError::NotFound);
        }
        let ghost g0 = *self;
        let handle = match self.intersections.get(id) {
            Some(c) => c.render_handle,
            None => {
                proof {
                    assert(false);
                }
                None
            },
        };
        // sever the outgoing side
        loop
            invariant
                self.wf(),
                self.inter_live(id),
                g0 == *old(self),
                g0.wf(),
                delete_mid_ok(g0, *self, id),
            ensures
                self.wf(),
                self.inter_live(id),
                self.outs(id).len() == 0,
                delete_mid_ok(g0, *self, id),
            decreases self.inter(id).out_nodes.entries_seq().len(),
        {
            let next = match self.intersections.get(id) {
                Some(c) => {
                    if c.out_nodes.len() == 0 {
                        None
                    } else {
                        Some(c.out_nodes.kth(0).0)
                    }
                },
                None => {
                    proof {
                        assert(false);
                    }
                    None
                },
            };
            let to = match next {
                Some(t) => t,
                None => {
                    break ;
                },
            };
            proof {
                assert(self.outs(id)[0].0 == to);
                self.inter(id).out_nodes.lemma_entry_val(0, to);
                assert(self.connected(id, to));
                assert(to != id);
            }
            let ghost pre = *self;
            self.disconnect_directional(id, to);
            proof {
                assert(self.outs(id) == pre.outs(id).remove(pre.inter(id).out_nodes.key_at(to)));
                lemma_delete_step(g0, pre, *self, id, id, to);
            }
        }
        // sever the incoming side
        loop
            invariant
                self.wf(),
                self.inter_live(id),
                self.outs(id).len() == 0,
                g0 == *old(self),
                g0.wf(),
                delete_mid_ok(g0, *self, id),
            ensures
                self.wf(),
                self.inter_live(id),
                self.outs(id).len() == 0,
                self.ins(id).len() == 0,
                delete_mid_ok(g0, *self, id),
            decreases self.inter(id).in_nodes.entries_seq().len(),
        {
            let next = match self.intersections.get(id) {
                Some(c) => {
                    if c.in_nodes.len() == 0 {
                        None
                    } else {
                        Some(c.in_nodes.kth(0).0)
                    }
                },
                None => {
                    proof {
                        assert(false);
                    }
                    None
                },
            };
            let src = match next {
                Some(t) => t,
                None => {
                    break ;
                },
            };
            proof {
                assert(self.ins(id)[0].0 == src);
                self.inter(id).in_nodes.lemma_entry_val(0, src);
                assert(self.connected(src, id));
                assert(src != id);
            }
            let ghost pre = *self;
            self.disconnect_directional(src, id);
            proof {
                assert(self.ins(id) == pre.ins(id).remove(pre.inter(id).in_nodes.key_at(src)));
                assert(self.outs(id) == pre.outs(id));
                lemma_delete_step(g0, pre, *self, id, src, id);
            }
        }
        let ghost gm = *self;
        proof {
            // with both maps of `id` empty, nothing is registered against it
            assert forall|m: usize| !gm.lane_touches(m, id) by {
                if gm.lane_touches(m, id) {
                    let c = choose|c: usize|
                        gm.owns_out(m, id, c) || gm.owns_in(m, id, c) || gm.owns_out(m, c, id)
                            || gm.owns_in(m, c, id);
                    if gm.owns_out(m, id, c) {
                        let w = gm.inter(id).out_nodes.key_at(c);
                    } else if gm.owns_in(m, id, c) {
                        let w = gm.inter(c).in_nodes.key_at(id);
                        assert(gm.ins(c)[w].0 == id);
                        assert(gm.inter(id).out_nodes.has_key(c));
                        let w2 = gm.inter(id).out_nodes.key_at(c);
                    } else if gm.owns_out(m, c, id) {
                        let w = gm.inter(c).out_nodes.key_at(id);
                        assert(gm.outs(c)[w].0 == id);
                        assert(gm.inter(id).in_nodes.has_key(c));
                        let w2 = gm.inter(id).in_nodes.key_at(c);
                    } else {
                        let w = gm.inter(id).in_nodes.key_at(c);
                    }
                }
            }
            // surviving roads cannot be incident to `id`
            assert forall|r: usize| #[trigger] gm.road_live(r) implies gm.road(r).src != id
                && gm.road(r).dst != id by {
                let rd = gm.road(r);
                assert(rd.src != rd.dst && gm.connected(rd.src, rd.dst) && gm.connected(
                    rd.dst,
                    rd.src,
                ));
                if rd.src == id {
                    let w = gm.inter(id).out_nodes.key_at(rd.dst);
                }
                if rd.dst == id {
                    let w = gm.inter(id).out_nodes.key_at(rd.src);
                }
            }
        }
        self.intersections.remove_node(id);
        proof {
            lemma_wf_after_inter_removal(gm, *self, id);
            let g1 = *self;
            lemma_same_nodes(gm, g1);
            lemma_same_roads(gm, g1);
            assert forall|j: usize|
                j != id && g0.inter_live(j) implies (#[trigger] g1.inter(j)).pos == g0.inter(
                j,
            ).pos && g1.inter(j).render_handle == g0.inter(j).render_handle by {
                assert(g1.inter(j) == gm.inter(j));
            }
            assert forall|j: usize, k2: usize|
                j != id && k2 != id && g0.inter_live(j) implies #[trigger] g1.inter(
                j,
            ).out_nodes.has_key(k2) == g0.inter(j).out_nodes.has_key(k2) && (g0.inter(
                j,
            ).out_nodes.has_key(k2) ==> g1.out_lane(j, k2) == g0.out_lane(j, k2)) by {
                assert(g1.inter(j) == gm.inter(j));
                assert(gm.inter(j).out_nodes.has_key(k2) == g0.inter(j).out_nodes.has_key(k2));
            }
            assert forall|j: usize, k2: usize|
                j != id && k2 != id && g0.inter_live(j) implies #[trigger] g1.inter(
                j,
            ).in_nodes.has_key(k2) == g0.inter(j).in_nodes.has_key(k2) && (g0.inter(
                j,
            ).in_nodes.has_key(k2) ==> g1.in_lane(k2, j) == g0.in_lane(k2, j)) by {
                assert(g1.inter(j) == gm.inter(j));
                assert(gm.inter(j).in_nodes.has_key(k2) == g0.inter(j).in_nodes.has_key(k2));
            }
            assert forall|m: usize|
                g1.node_live(m) == (g0.node_live(m) && !g0.lane_touches(m, id)) by {
                assert(g1.node_live(m) == gm.node_live(m));
                if gm.node_live(m) && g0.lane_touches(m, id) {
                    assert(gm.lane_touches(m, id));
                }
            }
            assert forall|m: usize|
                g0.node_live(m) && !g0.lane_touches(m, id) implies (#[trigger] g1.node(m)).pos
                    == g0.node(m).pos by {
                assert(gm.node_live(m));
                assert(g1.node(m) == gm.node(m));
            }
            assert forall|x: usize, y: usize|
                g1.nodes.has_edge(x, y) == (g0.nodes.has_edge(x, y) && g1.node_live(x)
                    && g1.node_live(y)) by {
                assert(g1.nodes.has_edge(x, y) == gm.nodes.has_edge(x, y));
                assert(g1.node_live(x) == gm.node_live(x) && g1.node_live(y) == gm.node_live(y));
            }
            assert forall|r: usize|
                g1.road_live(r) == (g0.road_live(r) && (#[trigger] g0.road(r)).src != id
                    && g0.road(r).dst != id) by {
                assert(g1.road_live(r) == gm.road_live(r));
                if gm.road_live(r) {
                    assert(gm.road(r) == g0.road(r));
                }
            }
            assert forall|r: usize| g1.road_live(r) implies #[trigger] g1.road(r) == g0.road(
                r,
            ) by {
                assert(g1.road(r) == gm.road(r));
                assert(gm.road_live(r));
            }
            assert(delete_post(g0, g1, id));
        }
        Ok(handle)
    }

    /// The live lane-node closest to `pos`, ties going to the smallest id;
    /// nothing when the graph has no lane-nodes.
    pub fn closest_node(&self, pos: Vec2) -> (r: Option<usize>)
        requires
            self.wf(),
            in_bounds(pos, MAX_COORD as int),
        ensures
            match r {
                Some(m) => self.node_live(m) && (forall|m2: usize|
                    self.node_live(m2) ==> dist2(pos, self.node(m).pos) <= dist2(
                        pos,
                        (#[trigger] self.node(m2)).pos,
                    )) && (forall|m2: usize|
                    self.node_live(m2) && (m2 as int) < (m as int) ==> dist2(
                        pos,
                        (#[trigger] self.node(m2)).pos,
                    ) > dist2(pos, self.node(m).pos)),
                None => forall|m2: usize| !self.node_live(m2),
            },
    {
        let n = self.nodes.id_bound();
        let mut best: Option<usize> = None;
        let mut best_d2: i128 = 0;
        let mut m: usize = 0;
        while m < n
            invariant
                self.wf(),
                in_bounds(pos, MAX_COORD as int),
                n as int == self.nodes.n(),
                0 <= m <= n,
                match best {
                    Some(bm) => self.node_live(bm) && (bm as int) < m && best_d2 == dist2(
                        pos,
                        self.node(bm).pos,
                    ) && (forall|m2: usize|
                        self.node_live(m2) && (m2 as int) < m ==> dist2(
                            pos,
                            (#[trigger] self.node(m2)).pos,
                        ) >= best_d2) && (forall|m2: usize|
                        self.node_live(m2) && (m2 as int) < (bm as int) ==> dist2(
                            pos,
                            (#[trigger] self.node(m2)).pos,
                        ) > best_d2),
                    None => forall|m2: usize| (m2 as int) < m ==> !self.node_live(m2),
                },
            decreases n - m,
        {
            let here = match self.nodes.get(m) {
                Some(nd) => Some(nd.pos),
                None => None,
            };
            match here {
                Some(p2) => {
                    proof {
                        assert(self.node_live(m));
                        assert(in_bounds(self.node(m).pos, NODE_COORD_BOUND as int));
                        assert(in_bounds(p2, 4_000_000_000));
                        assert(in_bounds(pos, 4_000_000_000));
                    }
                    let d2 = dist2_exec(pos, p2);
                    match best {
                        Some(_) => {
                            if d2 < best_d2 {
                                best = Some(m);
                                best_d2 = d2;
                            }
                        },
                        None => {
                            best = Some(m);
                            best_d2 = d2;
                        },
                    }
                },
                None => {},
            }
            m = m + 1;
        }
        proof {
            if best is None {
                assert forall|m2: usize| !self.node_live(m2) by {
                    self.nodes.lemma_live_bound(m2);
                }
            } else {
                assert forall|m2: usize| self.node_live(m2) implies dist2(
                    pos,
                    self.node(best.unwrap()).pos,
                ) <= dist2(pos, (#[trigger] self.node(m2)).pos) by {
                    self.nodes.lemma_live_bound(m2);
                }
            }
        }
        best
    }

    /// Splits road `road_id` at `at_pos`: a new intersection is inserted
    /// there, the original endpoints are disconnected from each other and
    /// each connected to the new intersection with the road's own lane
    /// pattern.  Refused, leaving the graph untouched, when the road id is
    /// dead or `at_pos` coincides with either endpoint's center; on any
    /// other input the split is owed.
    #[verifier::rlimit(100)]
    #[verifier::spinoff_prover]
    pub fn split_road(&mut self, road_id: usize, at_pos: Vec2) -> (r: Result<
        usize,
        RoadGraphError,
    >)
        requires
            old(self).wf(),
            in_bounds(at_pos, MAX_COORD as int),
        ensures
            final(self).wf(),
            r is Err ==> *final(self) == *old(self),
            !old(self).road_live(road_id) ==> r == Err::<usize, RoadGraphError>(
                RoadGraphError::NotFound,
            ),
            old(self).road_live(road_id) && (old(self).inter(old(self).road(road_id).src).pos
                == at_pos || old(self).inter(old(self).road(road_id).dst).pos == at_pos) ==> r
                == Err::<usize, RoadGraphError>(RoadGraphError::SamePosition),
            old(self).road_live(road_id) && old(self).inter(old(self).road(road_id).src).pos
                != at_pos && old(self).inter(old(self).road(road_id).dst).pos != at_pos ==> r
                == Ok::<usize, RoadGraphError>((old(self).intersections.n() as usize)),
            r is Ok ==> split_post(
                *old(self),
                *final(self),
                road_id,
                at_pos,
                (old(self).intersections.n() as usize),
            ),
    {
        let (src, dst, pattern) = match self.roads.get(road_id) {
            Some(rd) => (rd.src, rd.dst, rd.pattern),
            None => {
                return Err(RoadGraphError::NotFound);
            },
        };
        let ghost g0 = *self;
        proof {
            assert(g0.road_live(road_id));
            assert(g0.road(road_id) == (Road { src, dst, pattern }));
            let rdd = g0.road(road_id);
            assert(rdd.src != rdd.dst && g0.connected(rdd.src, rdd.dst) && g0.connected(
                rdd.dst,
                rdd.src,
            ) && rdd.pattern.wf());
            g0.intersections.lemma_n_fits();
        }
        let ps = match self.intersections.get(src) {
            Some(c) => c.pos,
            None => {
                proof {
                    assert(false);
                }
                at_pos
            },
        };
        let pd = match self.intersections.get(dst) {
            Some(c) => c.pos,
            None => {
                proof {
                    assert(false);
                }
                at_pos
            },
        };
        if (ps.x == at_pos.x && ps.y == at_pos.y) || (pd.x == at_pos.x && pd.y == at_pos.y) {
            return Err(RoadGraphError::SamePosition);
        }
        self.disconnect(src, dst);
        let ghost gd = *self;
        proof {
            let mid = choose|mid: RoadGraph|
                #[trigger] detach_post(g0, mid, src, dst) && detach_post(mid, gd, dst, src);
            assert forall|j: usize| gd.inter_live(j) == g0.inter_live(j) by {
                assert(mid.inter_live(j) == g0.inter_live(j));
                assert(gd.inter_live(j) == mid.inter_live(j));
            }
            assert(gd.inter(src).pos == g0.inter(src).pos && gd.inter(dst).pos == g0.inter(
                dst,
            ).pos);
            assert(gd.outs(src) == g0.outs(src).remove(
                g0.inter(src).out_nodes.key_at(dst),
            )) by {
                assert(mid.outs(src) == g0.outs(src).remove(g0.inter(src).out_nodes.key_at(dst)));
                assert(gd.outs(src) == mid.outs(src));
            }
            assert(gd.outs(dst) == g0.outs(dst).remove(
                g0.inter(dst).out_nodes.key_at(src),
            )) by {
                assert(mid.outs(dst) == g0.outs(dst));
                assert(gd.outs(dst) == mid.outs(dst).remove(mid.inter(dst).out_nodes.key_at(src)));
                assert(mid.inter(dst).out_nodes.key_at(src) == g0.inter(dst).out_nodes.key_at(
                    src,
                ));
            }
            assert(!gd.inter(src).out_nodes.has_key(dst)) by {
                crate::idmap::lemma_map_remove_keys(
                    g0.outs(src),
                    g0.inter(src).out_nodes.key_at(dst),
                    dst,
                );
                assert(g0.outs(src)[g0.inter(src).out_nodes.key_at(dst)].0 == dst);
            }
            assert(!gd.inter(dst).out_nodes.has_key(src)) by {
                crate::idmap::lemma_map_remove_keys(
                    g0.outs(dst),
                    g0.inter(dst).out_nodes.key_at(src),
                    src,
                );
                assert(g0.outs(dst)[g0.inter(dst).out_nodes.key_at(src)].0 == src);
            }
            assert(gd.roads.n() == g0.roads.n()) by {
                assert(mid.roads.n() == g0.roads.n());
            }
            assert forall|r2: usize|
                r2 != road_id implies (#[trigger] gd.road_live(r2) == g0.road_live(r2)) && (
                g0.road_live(r2) ==> gd.road(r2) == g0.road(r2)) by {
                if g0.road_live(r2) {
                    assert(!pair_matches(g0.road(r2), src, dst)) by {
                        if pair_matches(g0.road(r2), src, dst) {
                            assert(same_pair(g0.road(r2), g0.road(road_id)));
                        }
                    }
                    assert(mid.road_live(r2) && mid.road(r2) == g0.road(r2));
                    assert(!pair_matches(mid.road(r2), dst, src));
                    assert(gd.road_live(r2) && gd.road(r2) == mid.road(r2));
                }
                if gd.road_live(r2) {
                    assert(mid.road_live(r2));
                    assert(g0.road_live(r2));
                }
            }
        }
        let nid = self.add_intersection(at_pos);
        let ghost gn = *self;
        proof {
            assert((nid as int) == g0.intersections.n());
            assert(!g0.inter_live(nid) && !gd.inter_live(nid)) by {
                g0.intersections.lemma_live_bound(nid);
            }
            assert(src != nid && dst != nid);
            assert(gn.inter(src) == gd.inter(src) && gn.inter(dst) == gd.inter(dst));
            assert(gn.inter(src).pos == ps && gn.inter(nid).pos == at_pos);
            assert(ps != at_pos && pd != at_pos);
            assert(!gn.connected(src, nid)) by {
                if gn.inter(src).out_nodes.has_key(nid) {
                    let w = gn.inter(src).out_nodes.key_at(nid);
                    assert(gn.outs(src)[w].0 == nid);
                    assert(gd.outs(src)[w].0 == nid);
                    assert(gd.inter_live(gd.outs(src)[w].0));
                }
            }
            assert(!gn.connected(nid, src)) by {
                if gn.inter(nid).out_nodes.has_key(nid) || gn.inter(nid).out_nodes.has_key(src) {
                    let w = gn.inter(nid).out_nodes.key_at(src);
                }
                if gn.inter(nid).out_nodes.has_key(src) {
                    let w = gn.inter(nid).out_nodes.key_at(src);
                    assert(gn.outs(nid)[w].0 == src);
                }
            }
        }
        let r1 = self.connect(src, nid, pattern);
        let ghost gc1 = *self;
        proof {
            assert(r1 is Ok);
            lemma_connect_post_facts(gn, gc1, src, nid, pattern);
            assert(gc1.inter_live(nid) && gc1.inter_live(dst) && gc1.inter_live(src));
            assert(gc1.inter(nid).pos == at_pos && gc1.inter(src).pos == ps);
            assert(gc1.inter(dst) == gn.inter(dst));
            assert(gc1.inter(dst).pos == pd);
            assert(!gc1.connected(nid, dst)) by {
                crate::idmap::lemma_map_push_keys(
                    gn.outs(nid),
                    src,
                    ((gn.nodes.n()  + 2) as usize),
                    dst,
                );
                assert(!gn.inter(nid).out_nodes.has_key(dst)) by {
                    if gn.inter(nid).out_nodes.has_key(dst) {
                        let w = gn.inter(nid).out_nodes.key_at(dst);
                        assert(gn.outs(nid)[w].0 == dst);
                    }
                }
            }
            assert(!gc1.connected(dst, nid)) by {
                assert(gc1.outs(dst) == gd.outs(dst));
                if gc1.inter(dst).out_nodes.has_key(nid) {
                    let w = gc1.inter(dst).out_nodes.key_at(nid);
                    assert(gc1.outs(dst)[w].0 == nid);
                    assert(gd.outs(dst)[w].0 == nid);
                    assert(gd.inter_live(gd.outs(dst)[w].0));
                }
            }
        }
        let r2 = self.connect(nid, dst, pattern);
        proof {
            let g2 = *self;
            assert(r2 is Ok);
            lemma_connect_post_facts(gc1, g2, nid, dst, pattern);
            assert(dst != nid && src != nid && src != dst);
            // the two fresh connections stand, the severed one does not
            assert(g2.connected(nid, dst) && g2.connected(dst, nid));
            assert(g2.connected(src, nid)) by {
                assert(g2.inter(src) == gc1.inter(src));
                assert(gc1.connected(src, nid));
            }
            assert(g2.connected(nid, src)) by {
                assert(g2.outs(nid) == gc1.outs(nid).push((dst, ((gc1.nodes.n() as usize)))));
                crate::idmap::lemma_map_push_keys(
                    gc1.outs(nid),
                    dst,
                    (gc1.nodes.n() as usize),
                    src,
                );
                assert(gc1.inter(nid).out_nodes.has_key(src));
            }
            assert(!g2.connected(src, dst)) by {
                assert(g2.inter(src) == gc1.inter(src));
                assert(gc1.outs(src) == gn.outs(src).push((nid, (gn.nodes.n() as usize))));
                crate::idmap::lemma_map_push_keys(
                    gn.outs(src),
                    nid,
                    (gn.nodes.n() as usize),
                    dst,
                );
                assert(!gn.inter(src).out_nodes.has_key(dst)) by {
                    assert(gn.inter(src) == gd.inter(src));
                }
            }
            assert(!g2.connected(dst, src)) by {
                assert(g2.outs(dst) == gc1.outs(dst).push((nid, ((gc1.nodes.n() + 2) as usize))));
                crate::idmap::lemma_map_push_keys(
                    gc1.outs(dst),
                    nid,
                    ((gc1.nodes.n() + 2) as usize),
                    src,
                );
                assert(!gc1.inter(dst).out_nodes.has_key(src)) by {
                    assert(gc1.inter(dst) == gn.inter(dst));
                    assert(gn.inter(dst) == gd.inter(dst));
                }
            }
            // the two fresh road records carry the old pattern
            g2.roads.lemma_n_fits();
            g0.roads.lemma_n_fits();
            assert(gn.roads.n() == g0.roads.n() && gc1.roads.n() == g0.roads.n() + 1
                && g2.roads.n() == g0.roads.n() + 2);
            let rid1 = (g0.roads.n() as usize);
            let rid2 = ((g0.roads.n() + 1) as usize);
            assert(0 <= g0.roads.n() && g0.roads.n() + 2 <= usize::MAX as int);
            assert((rid1 as int) == g0.roads.n());
            assert((rid2 as int) == g0.roads.n() + 1);
            assert(g2.road_live(rid1) && g2.road(rid1) == (Road {
                src,
                dst: nid,
                pattern,
            })) by {
                assert(gc1.road_live(rid1));
                assert(gc1.road(rid1) == (Road { src, dst: nid, pattern }));
                assert((rid1 as int) != gc1.roads.n());
            }
            assert(g2.road_live(rid2) && g2.road(rid2) == (Road { src: nid, dst, pattern }));
            assert forall|j: usize| j != nid implies g2.inter_live(j) == g0.inter_live(j) by {
                assert(gn.inter_live(j) == gd.inter_live(j));
                assert(gc1.inter_live(j) == gn.inter_live(j));
                assert(g2.inter_live(j) == gc1.inter_live(j));
            }
            assert forall|r2: usize|
                r2 != road_id && (r2 as int) < g0.roads.n() implies (#[trigger] g2.road_live(r2)
                    == g0.road_live(r2)) && (g0.road_live(r2) ==> g2.road(r2) == g0.road(r2)) by {
                assert(gd.road_live(r2) == g0.road_live(r2));
                assert(gn.road_live(r2) == gd.road_live(r2)) by {
                    lemma_same_roads(gd, gn);
                }
                assert(gc1.road_live(r2) == (gn.road_live(r2) || (r2 as int) == gn.roads.n()));
                assert(g2.road_live(r2) == (gc1.road_live(r2) || (r2 as int) == gc1.roads.n()));
                if g0.road_live(r2) {
                    assert(gd.road(r2) == g0.road(r2));
                    assert(gn.road(r2) == gd.road(r2)) by {
                        lemma_same_roads(gd, gn);
                    }
                    assert(gc1.road(r2) == gn.road(r2));
                    assert(g2.road(r2) == gc1.road(r2));
                }
            }
            assert(split_post(g0, g2, road_id, at_pos, nid));
        }
        Ok(nid)
    }

    /// Severs the directed connection `from -> to`: drops its two lane-nodes
    /// with every lane-graph edge that mentions them, the intersection-graph
    /// edge, the two map entries, and any road record joining the pair, then
    /// recomputes `to`'s traffic lights.
    pub fn disconnect_directional(&mut self, from: usize, to: usize)
        requires
            old(self).wf(),
            old(self).connected(from, to),
        ensures
            final(self).wf(),
            detach_post(*old(self), *final(self), from, to),
    {
        let ghost g0 = *self;
        let o = match self.intersections.get(from) {
            Some(inter) => match inter.out_nodes.get(to) {
                Some(v) => v,
                None => {
                    proof {
                        assert(false);
                    }
                    0
                },
            },
            None => {
                proof {
                    assert(false);
                }
                0
            },
        };
        proof {
            let kfm = g0.inter(from).out_nodes.key_at(to);
            assert(g0.outs(from)[kfm].0 == to);
            assert(g0.inter(to).in_nodes.has_key(from));
        }
        let ii = match self.intersections.get(to) {
            Some(inter) => match inter.in_nodes.get(from) {
                Some(v) => v,
                None => {
                    proof {
                        assert(false);
                    }
                    0
                },
            },
            None => {
                proof {
                    assert(false);
                }
                0
            },
        };
        proof {
            assert(o == g0.out_lane(from, to) && ii == g0.in_lane(from, to));
            assert(g0.owns_out(o, from, to) && g0.owns_in(ii, from, to));
            assert(g0.node_live(o) && g0.node_live(ii) && o != ii);
            assert(from != to) by {
                let k = g0.inter(from).out_nodes.key_at(to);
                assert(g0.outs(from)[k].0 == to);
            }
        }
        self.intersections.remove_neigh(from, to);
        self.nodes.remove_node(o);
        self.nodes.remove_node(ii);
        let new_from = match self.intersections.get(from) {
            Some(c) => {
                let mut om = c.out_nodes.duplicate();
                let nf = Intersection {
                    pos: c.pos,
                    in_nodes: c.in_nodes.duplicate(),
                    out_nodes: om,
                    render_handle: c.render_handle,
                };
                nf
            },
            None => {
                proof {
                    assert(false);
                }
                Intersection::new(Vec2 { x: 0, y: 0 })
            },
        };
        let mut new_from = new_from;
        new_from.out_nodes.remove(to);
        self.intersections.set(from, new_from);
        let new_to = match self.intersections.get(to) {
            Some(c) => Intersection {
                pos: c.pos,
                in_nodes: c.in_nodes.duplicate(),
                out_nodes: c.out_nodes.duplicate(),
                render_handle: c.render_handle,
            },
            None => {
                proof {
                    assert(false);
                }
                Intersection::new(Vec2 { x: 0, y: 0 })
            },
        };
        let mut new_to = new_to;
        new_to.in_nodes.remove(from);
        self.intersections.set(to, new_to);
        let ghost gpre = *self;
        proof {
            lemma_same_roads(g0, gpre);
            assert forall|r1: usize, r2: usize|
                gpre.road_live(r1) && gpre.road_live(r2) && r1 != r2 implies !same_pair(
                #[trigger] gpre.road(r1),
                #[trigger] gpre.road(r2),
            ) by {
                assert(gpre.road(r1) == g0.road(r1) && gpre.road(r2) == g0.road(r2));
                assert(g0.road_live(r1) && g0.road_live(r2));
            }
        }
        self.remove_road_pair(from, to);
        let ghost gm = *self;
        proof {
            lemma_same_roads(g0, gpre);
            assert forall|r: usize|
                gm.road_live(r) == (g0.road_live(r) && !pair_matches(
                    #[trigger] g0.road(r),
                    from,
                    to,
                )) by {
                assert(gm.road_live(r) == (gpre.road_live(r) && !pair_matches(
                    gpre.road(r),
                    from,
                    to,
                )));
                assert(gpre.road_live(r) == g0.road_live(r));
                if g0.road_live(r) {
                    assert(gpre.road(r) == g0.road(r));
                }
            }
            assert forall|r: usize| gm.road_live(r) implies #[trigger] gm.road(r) == g0.road(
                r,
            ) by {
                assert(gm.road(r) == gpre.road(r));
                assert(gpre.road_live(r));
                assert(gpre.road(r) == g0.road(r));
            }
            let kf = g0.inter(from).out_nodes.key_at(to);
            let kt = g0.inter(to).in_nodes.key_at(from);
            assert(gm.outs(from) == g0.outs(from).remove(kf));
            assert(gm.ins(to) == g0.ins(to).remove(kt));
            assert(gm.ins(from) == g0.ins(from));
            assert(gm.outs(to) == g0.outs(to));
            assert(forall|j: usize| gm.inter_live(j) == g0.inter_live(j));
            assert(forall|j: usize|
                j != from && j != to && g0.inter_live(j) ==> #[trigger] gm.inter(j) == g0.inter(
                    j,
                ));
            assert(gm.inter(from).pos == g0.inter(from).pos);
            assert(gm.inter(to).pos == g0.inter(to).pos);
            assert(gm.inter(from).render_handle == g0.inter(from).render_handle);
            assert(gm.inter(to).render_handle == g0.inter(to).render_handle);
            assert(forall|m: usize| gm.node_live(m) == (g0.node_live(m) && m != o && m != ii));
            assert(forall|m: usize|
                g0.node_live(m) && m != o && m != ii ==> #[trigger] gm.node(m) == g0.node(m));
            assert(forall|x: usize, y: usize|
                gm.nodes.has_edge(x, y) == (g0.nodes.has_edge(x, y) && x != o && x != ii && y != o
                    && y != ii));
            assert(forall|a: usize, b: usize|
                gm.intersections.has_edge(a, b) == (g0.intersections.has_edge(a, b) && !(a == from
                    && b == to)));
            // survivors of either map entry list keep keys other than the
            // removed ones
            assert forall|j: usize|
                g0.inter_live(j) implies (#[trigger] gm.inter(j)).in_nodes.wf() && gm.inter(
                j,
            ).out_nodes.wf() && in_bounds(gm.inter(j).pos, MAX_COORD as int) by {
                if j != from && j != to {
                    assert(gm.inter(j) == g0.inter(j));
                    assert(g0.inter(j).in_nodes.wf() && g0.inter(j).out_nodes.wf() && in_bounds(
                        g0.inter(j).pos,
                        MAX_COORD as int,
                    ));
                }
            }
            lemma_detach_core(g0, gm, from, to, o, ii);
            assert(gm.wf_core());
        }
        self.refresh_lights(to);
        proof {
            let g1 = *self;
            lemma_same_inters(gm, g1);
            assert(g1.ins(to) == gm.ins(to));
            assert forall|m: usize|
                g1.node_live(m) && !in_lane_list(g1.ins(to), m) implies #[trigger] g1.node(m)
                    == g0.node(m) by {
                assert(gm.node_live(m));
                assert(g1.node(m) == gm.node(m));
                assert(g0.node_live(m) && m != o && m != ii);
                assert(gm.node(m) == g0.node(m));
            }
            assert forall|m: usize| g1.node_live(m) implies #[trigger] g1.node(m).pos == g0.node(
                m,
            ).pos by {
                assert(gm.node_live(m));
                assert(g1.node(m).pos == gm.node(m).pos);
                assert(gm.node(m) == g0.node(m));
            }
            lemma_same_roads(gm, g1);
            assert forall|r: usize|
                g1.road_live(r) == (g0.road_live(r) && !pair_matches(
                    g0.road(r),
                    from,
                    to,
                )) by {
                assert(g1.road_live(r) == gm.road_live(r));
                assert(gm.road_live(r) == (g0.road_live(r) && !pair_matches(
                    g0.road(r),
                    from,
                    to,
                )));
            }
            assert forall|r: usize| g1.road_live(r) implies #[trigger] g1.road(r) == g0.road(
                r,
            ) by {
                assert(g1.road(r) == gm.road(r));
                assert(gm.road_live(r));
            }
            assert(detach_post(g0, g1, from, to));
        }
    }
}

/// In `g1`, both lane-nodes of the connection `a -> b` (as recorded in `g0`'s
/// maps) sit at the positions derived from `g0`'s center positions.
pub open spec fn lanes_placed(g0: RoadGraph, g1: RoadGraph, a: usize, b: usize) -> bool {
    &&& (g1.node(g0.out_lane(a, b)).pos.x as int, g1.node(g0.out_lane(a, b)).pos.y as int)
        == out_lane_pos(g0.inter(a).pos, g0.inter(b).pos)
    &&& (g1.node(g0.in_lane(a, b)).pos.x as int, g1.node(g0.in_lane(a, b)).pos.y as int)
        == in_lane_pos(g0.inter(a).pos, g0.inter(b).pos)
}

/// Among the first `upto` road slots, exactly those of `g0` survive in `g1`
/// that do not join `a` and `b`.
pub open spec fn roads_filtered(g0: RoadGraph, g1: RoadGraph, a: usize, b: usize, upto: int) -> bool {
    forall|r2: usize|
        (r2 as int) < upto ==> g1.road_live(r2) == (g0.road_live(r2) && !pair_matches(
            #[trigger] g0.road(r2),
            a,
            b,
        ))
}

/// The road record `rd` joins `a` and `b`, in either orientation.
pub open spec fn pair_matches(rd: Road, a: usize, b: usize) -> bool {
    (rd.src == a && rd.dst == b) || (rd.src == b && rd.dst == a)
}

/// What severing the directed connection `from -> to` leaves behind.
pub open spec fn detach_post(g0: RoadGraph, g1: RoadGraph, from: usize, to: usize) -> bool {
    let o = g0.out_lane(from, to);
    let ii = g0.in_lane(from, to);
    &&& g1.intersections.n() == g0.intersections.n()
    &&& forall|j: usize| g1.inter_live(j) == g0.inter_live(j)
    &&& g1.outs(from) == g0.outs(from).remove(g0.inter(from).out_nodes.key_at(to))
    &&& g1.ins(to) == g0.ins(to).remove(g0.inter(to).in_nodes.key_at(from))
    &&& g1.ins(from) == g0.ins(from)
    &&& g1.outs(to) == g0.outs(to)
    &&& g1.inter(from).pos == g0.inter(from).pos
    &&& g1.inter(to).pos == g0.inter(to).pos
    &&& g1.inter(from).render_handle == g0.inter(from).render_handle
    &&& g1.inter(to).render_handle == g0.inter(to).render_handle
    &&& forall|j: usize|
        j != from && j != to && g0.inter_live(j) ==> #[trigger] g1.inter(j) == g0.inter(j)
    &&& forall|a: usize, b: usize|
        g1.intersections.has_edge(a, b) == (g0.intersections.has_edge(a, b) && !(a == from && b
            == to))
    &&& g1.nodes.n() == g0.nodes.n()
    &&& forall|m: usize| g1.node_live(m) == (g0.node_live(m) && m != o && m != ii)
    &&& forall|m: usize|
        g1.node_live(m) ==> #[trigger] g1.node(m).pos == g0.node(m).pos
    &&& forall|m: usize|
        g1.node_live(m) && !in_lane_list(g1.ins(to), m) ==> #[trigger] g1.node(m) == g0.node(m)
    &&& forall|x: usize, y: usize|
        g1.nodes.has_edge(x, y) == (g0.nodes.has_edge(x, y) && x != o && x != ii && y != o && y
            != ii)
    &&& g1.roads.n() == g0.roads.n()
    &&& forall|r: usize|
        g1.road_live(r) == (g0.road_live(r) && !pair_matches(g0.road(r), from, to))
    &&& forall|r: usize| g1.road_live(r) ==> #[trigger] g1.road(r) == g0.road(r)
}

/// After the structural half of a directed disconnect the core invariant
/// holds again, and every intersection but the target still carries correct
/// lights.
proof fn lemma_detach_core(g0: RoadGraph, gm: RoadGraph, from: usize, to: usize, o: usize, ii: usize)
    requires
        g0.wf(),
        g0.connected(from, to),
        from != to,
        o == g0.out_lane(from, to),
        ii == g0.in_lane(from, to),
        gm.nodes.wf(),
        gm.intersections.wf(),
        gm.roads.wf(),
        gm.intersections.n() == g0.intersections.n(),
        forall|j: usize| gm.inter_live(j) == g0.inter_live(j),
        gm.outs(from) == g0.outs(from).remove(g0.inter(from).out_nodes.key_at(to)),
        gm.ins(to) == g0.ins(to).remove(g0.inter(to).in_nodes.key_at(from)),
        gm.ins(from) == g0.ins(from),
        gm.outs(to) == g0.outs(to),
        gm.inter(from).pos == g0.inter(from).pos,
        gm.inter(to).pos == g0.inter(to).pos,
        forall|j: usize|
            j != from && j != to && g0.inter_live(j) ==> #[trigger] gm.inter(j) == g0.inter(j),
        forall|j: usize|
            g0.inter_live(j) ==> (#[trigger] gm.inter(j)).in_nodes.wf() && gm.inter(
                j,
            ).out_nodes.wf(),
        forall|a: usize, b: usize|
            gm.intersections.has_edge(a, b) == (g0.intersections.has_edge(a, b) && !(a == from && b
                == to)),
        forall|m: usize| gm.node_live(m) == (g0.node_live(m) && m != o && m != ii),
        forall|m: usize|
            g0.node_live(m) && m != o && m != ii ==> #[trigger] gm.node(m) == g0.node(m),
        forall|x: usize, y: usize|
            gm.nodes.has_edge(x, y) == (g0.nodes.has_edge(x, y) && x != o && x != ii && y != o && y
                != ii),
        gm.roads.n() == g0.roads.n(),
        forall|r: usize|
            gm.road_live(r) == (g0.road_live(r) && !pair_matches(g0.road(r), from, to)),
        forall|r: usize| gm.road_live(r) ==> #[trigger] gm.road(r) == g0.road(r),
    ensures
        gm.wf_core(),
        gm.inter_live(to),
        forall|b2: usize|
            gm.inter_live(b2) && b2 != to ==> #[trigger] gm.lights_ok_at(b2),
{
    let kf = g0.inter(from).out_nodes.key_at(to);
    let kt = g0.inter(to).in_nodes.key_at(from);
    assert(g0.outs(from)[kf] == (to, o)) by {
        assert(g0.inter(from).out_nodes.has_key(to));
        assert(g0.outs(from)[kf].0 == to);
    }
    assert(g0.ins(to)[kt] == (from, ii)) by {
        assert(g0.inter(to).in_nodes.has_key(from));
        assert(g0.ins(to)[kt].0 == from);
    }
    assert(g0.owns_out(o, from, to) && g0.owns_in(ii, from, to));
    // how each map's key set changed
    assert forall|j: usize, b: usize|
        g0.inter_live(j) implies #[trigger] gm.inter(j).out_nodes.has_key(b) == (g0.inter(
        j,
    ).out_nodes.has_key(b) && !(j == from && b == to)) by {
        if j == from {
            crate::idmap::lemma_map_remove_keys(g0.outs(from), kf, b);
        } else if j == to {
        } else {
            assert(gm.inter(j) == g0.inter(j));
        }
    }
    assert forall|j: usize, a: usize|
        g0.inter_live(j) implies #[trigger] gm.inter(j).in_nodes.has_key(a) == (g0.inter(
        j,
    ).in_nodes.has_key(a) && !(j == to && a == from)) by {
        if j == to {
            crate::idmap::lemma_map_remove_keys(g0.ins(to), kt, a);
        } else if j == from {
        } else {
            assert(gm.inter(j) == g0.inter(j));
        }
    }
    assert forall|j: usize, b: usize|
        g0.inter_live(j) && gm.inter(j).out_nodes.has_key(b) implies #[trigger] gm.out_lane(j, b)
            == g0.out_lane(j, b) by {
        if j == from {
            crate::idmap::lemma_map_remove_keys(g0.outs(from), kf, b);
        } else if j == to {
        } else {
            assert(gm.inter(j) == g0.inter(j));
        }
    }
    assert forall|j: usize, a: usize|
        g0.inter_live(j) && gm.inter(j).in_nodes.has_key(a) implies #[trigger] gm.in_lane(a, j)
            == g0.in_lane(a, j) by {
        if j == to {
            crate::idmap::lemma_map_remove_keys(g0.ins(to), kt, a);
        } else if j == from {
        } else {
            assert(gm.inter(j) == g0.inter(j));
        }
    }
    assert forall|a: usize, b: usize| gm.connected(a, b) == (g0.connected(a, b) && !(a == from && b
        == to)) by {}
    // the owning claims only shrank
    assert forall|n: usize, a: usize, b: usize| #[trigger] gm.owns_out(n, a, b) implies g0.owns_out(
        n,
        a,
        b,
    ) && !(a == from && b == to) by {}
    assert forall|n: usize, a: usize, b: usize| #[trigger] gm.owns_in(n, a, b) implies g0.owns_in(
        n,
        a,
        b,
    ) && !(a == from && b == to) by {}
    // mirror
    assert forall|a: usize, k: int|
        gm.inter_live(a) && 0 <= k < gm.outs(a).len() implies {
            let b = (#[trigger] gm.outs(a)[k]).0;
            gm.inter_live(b) && b != a && gm.intersections.has_edge(a, b) && gm.inter(
                b,
            ).in_nodes.has_key(a) && gm.node_live(gm.outs(a)[k].1)
        } by {
        let entry = gm.outs(a)[k];
        let k0: int = if a == from {
            if k < kf {
                k
            } else {
                k + 1
            }
        } else {
            k
        };
        assert(entry == g0.outs(a)[k0]) by {
            if a != from && a != to {
                assert(gm.inter(a) == g0.inter(a));
            }
        }
        let b = entry.0;
        let v = entry.1;
        assert(g0.inter_live(b) && b != a && g0.intersections.has_edge(a, b) && g0.inter(
            b,
        ).in_nodes.has_key(a) && g0.node_live(v));
        assert(!(a == from && b == to)) by {
            if a == from && b == to {
                g0.inter(from).out_nodes.lemma_entry_val(k0, to);
                assert(k0 == kf);
            }
        }
        g0.inter(a).out_nodes.lemma_entry_val(k0, b);
        assert(g0.owns_out(v, a, b));
        assert(v != o && v != ii) by {
            assert(g0.owns_out(o, from, to));
            assert(g0.owns_in(ii, from, to));
        }
        assert(!(b == to && a == from));
    }
    assert forall|b: usize, k: int|
        gm.inter_live(b) && 0 <= k < gm.ins(b).len() implies {
            let a = (#[trigger] gm.ins(b)[k]).0;
            gm.inter_live(a) && a != b && gm.inter(a).out_nodes.has_key(b) && gm.node_live(
                gm.ins(b)[k].1,
            )
        } by {
        let entry = gm.ins(b)[k];
        let k0: int = if b == to {
            if k < kt {
                k
            } else {
                k + 1
            }
        } else {
            k
        };
        assert(entry == g0.ins(b)[k0]) by {
            if b != from && b != to {
                assert(gm.inter(b) == g0.inter(b));
            }
        }
        let a = entry.0;
        let v = entry.1;
        assert(g0.inter_live(a) && a != b && g0.inter(a).out_nodes.has_key(b) && g0.node_live(v));
        assert(!(b == to && a == from)) by {
            if b == to && a == from {
                g0.inter(to).in_nodes.lemma_entry_val(k0, from);
                assert(k0 == kt);
            }
        }
        g0.inter(b).in_nodes.lemma_entry_val(k0, a);
        assert(g0.owns_in(v, a, b));
        assert(v != o && v != ii) by {
            assert(g0.owns_out(o, from, to));
            assert(g0.owns_in(ii, from, to));
        }
    }
    assert forall|a: usize, b: usize| #[trigger] gm.intersections.has_edge(a, b) implies gm.inter(
        a,
    ).out_nodes.has_key(b) by {
        assert(g0.intersections.has_edge(a, b));
        assert(g0.inter(a).out_nodes.has_key(b));
    }
    // lane pairs still linked
    assert forall|a: usize, b: usize| #[trigger] gm.connected(a, b) implies gm.out_lane(a, b)
        != gm.in_lane(a, b) && gm.nodes.has_edge(gm.out_lane(a, b), gm.in_lane(a, b)) by {
        assert(g0.connected(a, b));
        let ol = g0.out_lane(a, b);
        let il = g0.in_lane(a, b);
        assert(g0.inter(b).in_nodes.has_key(a)) by {
            let kk = g0.inter(a).out_nodes.key_at(b);
            assert(g0.outs(a)[kk].0 == b);
        }
        assert(gm.inter(b).in_nodes.has_key(a));
        assert(gm.out_lane(a, b) == ol && gm.in_lane(a, b) == il);
        assert(g0.owns_out(ol, a, b) && g0.owns_in(il, a, b));
        assert(ol != o && ol != ii && il != o && il != ii) by {
            assert(g0.owns_out(o, from, to));
            assert(g0.owns_in(ii, from, to));
        }
        assert(g0.nodes.has_edge(ol, il));
    }
    // node payloads
    assert forall|m: usize| gm.node_live(m) implies in_bounds(
        (#[trigger] gm.node(m)).pos,
        NODE_COORD_BOUND as int,
    ) && gm.node(m).light.wf() by {
        assert(gm.node(m) == g0.node(m));
        assert(g0.node_live(m));
    }
    // roads
    assert forall|r: usize| #[trigger] gm.road_live(r) implies {
        let rd = gm.road(r);
        rd.src != rd.dst && gm.connected(rd.src, rd.dst) && gm.connected(rd.dst, rd.src)
            && rd.pattern.wf()
    } by {
        assert(gm.road(r) == g0.road(r));
        assert(g0.road_live(r));
        let rd = g0.road(r);
        assert(rd.src != rd.dst && g0.connected(rd.src, rd.dst) && g0.connected(rd.dst, rd.src)
            && rd.pattern.wf());
        assert(!pair_matches(rd, from, to));
    }
    assert forall|r1: usize, r2: usize|
        gm.road_live(r1) && gm.road_live(r2) && r1 != r2 implies !same_pair(
        #[trigger] gm.road(r1),
        #[trigger] gm.road(r2),
    ) by {
        assert(gm.road(r1) == g0.road(r1) && gm.road(r2) == g0.road(r2));
        assert(g0.road_live(r1) && g0.road_live(r2));
    }
    // lights away from the target
    assert forall|b2: usize| gm.inter_live(b2) && b2 != to implies #[trigger] gm.lights_ok_at(
        b2,
    ) by {
        assert(g0.lights_ok_at(b2));
        assert(gm.ins(b2) == g0.ins(b2)) by {
            if b2 != from {
                assert(gm.inter(b2) == g0.inter(b2));
            }
        }
        assert forall|k: int| 0 <= k < gm.ins(b2).len() implies gm.node(
            (#[trigger] gm.ins(b2)[k]).1,
        ).light == expected_light(k, gm.ins(b2).len() as int) by {
            let v = g0.ins(b2)[k].1;
            let a = g0.ins(b2)[k].0;
            g0.inter(b2).in_nodes.lemma_entry_val(k, a);
            assert(g0.owns_in(v, a, b2));
            assert(v != o && v != ii) by {
                assert(g0.owns_out(o, from, to));
                assert(g0.owns_in(ii, from, to));
            }
            assert(gm.node(v) == g0.node(v));
            assert(g0.node(v).light == expected_light(k, g0.ins(b2).len() as int));
        }
    }
}

/// Both lane-nodes of the connection `a -> b` sit at the positions derived
/// from the current centers of `a` and `b`.
pub open spec fn placed_cur(g: RoadGraph, a: usize, b: usize) -> bool {
    &&& (g.node(g.out_lane(a, b)).pos.x as int, g.node(g.out_lane(a, b)).pos.y as int)
        == out_lane_pos(g.inter(a).pos, g.inter(b).pos)
    &&& (g.node(g.in_lane(a, b)).pos.x as int, g.node(g.in_lane(a, b)).pos.y as int)
        == in_lane_pos(g.inter(a).pos, g.inter(b).pos)
}

/// What establishing the directed connection `from -> to` leaves behind: two
/// fresh lane-nodes appended to the two maps, one new edge in each graph,
/// fresh lights at the destination and fresh lane positions around the
/// source; everything else untouched.
/// `x` is the lane-node of one of the first `upto` incoming lanes of the
/// source whose own source is not `to`: a lane the new outgoing lane must
/// yield to.
pub open spec fn merge_prefix(ins_src: Seq<(usize, usize)>, to: usize, upto: int, x: usize) -> bool {
    exists|k: int|
        0 <= k < upto && (#[trigger] ins_src[k]).0 != to && ins_src[k].1 == x
}

/// `x` is an incoming lane at `from` (other than the one from `to`) that the
/// fresh outgoing lane of `from -> to` is cross-linked from.
pub open spec fn merge_lane_at_src(g0: RoadGraph, from: usize, to: usize, x: usize) -> bool {
    merge_prefix(g0.ins(from), to, g0.ins(from).len() as int, x)
}

/// `y` is one of the first `upto` outgoing lanes of the destination whose
/// target is not `from`: a lane the new incoming lane is cross-linked to.
pub open spec fn exit_prefix(outs_dst: Seq<(usize, usize)>, from: usize, upto: int, y: usize) -> bool {
    exists|k: int|
        0 <= k < upto && (#[trigger] outs_dst[k]).0 != from && outs_dst[k].1 == y
}

/// `y` is an outgoing lane at `to` (other than the one toward `from`) that
/// the fresh incoming lane of `from -> to` is cross-linked to.
pub open spec fn exit_lane_at_dst(g0: RoadGraph, to: usize, from: usize, y: usize) -> bool {
    exit_prefix(g0.outs(to), from, g0.outs(to).len() as int, y)
}

pub open spec fn attach_post(g0: RoadGraph, g1: RoadGraph, from: usize, to: usize) -> bool {
    let o = g0.nodes.n() as usize;
    let ii = (g0.nodes.n() + 1) as usize;
    &&& g1.intersections.n() == g0.intersections.n()
    &&& forall|j: usize| g1.inter_live(j) == g0.inter_live(j)
    &&& g1.outs(from) == g0.outs(from).push((to, o))
    &&& g1.ins(to) == g0.ins(to).push((from, ii))
    &&& g1.ins(from) == g0.ins(from)
    &&& g1.outs(to) == g0.outs(to)
    &&& g1.inter(from).pos == g0.inter(from).pos
    &&& g1.inter(to).pos == g0.inter(to).pos
    &&& g1.inter(from).render_handle == g0.inter(from).render_handle
    &&& g1.inter(to).render_handle == g0.inter(to).render_handle
    &&& forall|j: usize|
        j != from && j != to && g0.inter_live(j) ==> #[trigger] g1.inter(j) == g0.inter(j)
    &&& forall|a: usize, b: usize|
        g1.intersections.has_edge(a, b) == (g0.intersections.has_edge(a, b) || (a == from && b
            == to))
    &&& g1.nodes.n() == g0.nodes.n() + 2
    &&& forall|m: usize| g1.node_live(m) == (g0.node_live(m) || m == o || m == ii)
    &&& forall|x: usize, y: usize|
        x != ii && y != o && !(x == o && y == ii) ==> g1.nodes.has_edge(x, y)
            == g0.nodes.has_edge(x, y)
    &&& g1.nodes.has_edge(o, ii)
    &&& g1.nodes.edge_weight(o, ii) == 0
    &&& g1.intersections.edge_weight(from, to) == 1
    &&& forall|x: usize| g1.nodes.has_edge(x, o) == merge_lane_at_src(g0, from, to, x)
    &&& forall|y: usize| g1.nodes.has_edge(o, y) == (y == ii)
    &&& forall|x: usize| g1.nodes.has_edge(x, ii) == (x == o)
    &&& forall|y: usize| g1.nodes.has_edge(ii, y) == exit_lane_at_dst(g0, to, from, y)
    &&& forall|x: usize|
        merge_lane_at_src(g0, from, to, x) ==> g1.nodes.edge_weight(x, o) == 1
    &&& forall|y: usize|
        exit_lane_at_dst(g0, to, from, y) ==> g1.nodes.edge_weight(ii, y) == 1
    &&& g1.node(o).light == TrafficLight::Always
    &&& forall|m: usize|
        g0.node_live(m) && !in_lane_list(g1.ins(to), m) && !g1.lane_touches(m, from)
            ==> #[trigger] g1.node(m) == g0.node(m)
    &&& forall|kk: int|
        0 <= kk < g1.outs(from).len() ==> placed_cur(g1, from, (#[trigger] g1.outs(from)[kk]).0)
    &&& forall|kk: int|
        0 <= kk < g1.ins(from).len() ==> placed_cur(g1, (#[trigger] g1.ins(from)[kk]).0, from)
    &&& g1.roads == g0.roads
}

/// Unpacks what a successful `connect` did to the adjacency maps, the
/// connection relation and the road records.
pub proof fn lemma_connect_post_facts(
    g0: RoadGraph,
    g1: RoadGraph,
    a: usize,
    b: usize,
    pattern: LanePattern,
)
    requires
        g0.wf(),
        g0.inter_live(a),
        g0.inter_live(b),
        a != b,
        !g0.connected(a, b),
        !g0.connected(b, a),
        connect_post(g0, g1, a, b, pattern),
    ensures
        forall|j: usize| g1.inter_live(j) == g0.inter_live(j),
        g1.outs(a) == g0.outs(a).push((b, (g0.nodes.n() as usize))),
        g1.ins(b) == g0.ins(b).push((a, ((g0.nodes.n() + 1) as usize))),
        g1.outs(b) == g0.outs(b).push((a, ((g0.nodes.n() + 2) as usize))),
        g1.ins(a) == g0.ins(a).push((b, ((g0.nodes.n() + 3) as usize))),
        forall|j: usize|
            j != a && j != b && g0.inter_live(j) ==> #[trigger] g1.inter(j) == g0.inter(j),
        g1.inter(a).pos == g0.inter(a).pos,
        g1.inter(b).pos == g0.inter(b).pos,
        g1.connected(a, b) && g1.connected(b, a),
        forall|x: usize, y: usize|
            g1.intersections.has_edge(x, y) == (g0.intersections.has_edge(x, y) || (x == a && y
                == b) || (x == b && y == a)),
        g1.roads.n() == g0.roads.n() + 1,
        forall|r: usize| g1.road_live(r) == (g0.road_live(r) || (r as int) == g0.roads.n()),
        g1.road((g0.roads.n() as usize)) == (Road { src: a, dst: b, pattern }),
        forall|r: usize|
            (r as int) != g0.roads.n() && g1.road_live(r) ==> #[trigger] g1.road(r) == g0.road(r),
        g1.intersections.n() == g0.intersections.n(),
{
    let (m1, m2) = choose|m1: RoadGraph, m2: RoadGraph|
        #[trigger] attach_post(g0, m1, a, b) && #[trigger] attach_post(m1, m2, b, a)
            && g1.intersections == m2.intersections && g1.nodes == m2.nodes;
    lemma_same_inters(m2, g1);
    let o1 = g0.nodes.n() as usize;
    let i1 = (g0.nodes.n() + 1) as usize;
    let o2 = m1.nodes.n() as usize;
    let i2 = (m1.nodes.n() + 1) as usize;
    assert(m1.nodes.n() == g0.nodes.n() + 2 && m2.nodes.n() == g0.nodes.n() + 4);
    m2.nodes.lemma_n_fits();
    g0.nodes.lemma_n_fits();
    assert(0 <= g0.nodes.n() && g0.nodes.n() + 4 <= usize::MAX as int);
    assert((o1 as int) == g0.nodes.n());
    assert((i1 as int) == g0.nodes.n() + 1);
    assert((o2 as int) == g0.nodes.n() + 2);
    assert((i2 as int) == g0.nodes.n() + 3);
    assert(g1.outs(a) == g0.outs(a).push((b, o1))) by {
        assert(m1.outs(a) == g0.outs(a).push((b, o1)));
        assert(m2.outs(a) == m1.outs(a));
        assert(g1.outs(a) == m2.outs(a));
    }
    assert(g1.ins(b) == g0.ins(b).push((a, i1))) by {
        assert(m1.ins(b) == g0.ins(b).push((a, i1)));
        assert(m2.ins(b) == m1.ins(b));
        assert(g1.ins(b) == m2.ins(b));
    }
    assert(g1.outs(b) == g0.outs(b).push((a, o2))) by {
        assert(m1.outs(b) == g0.outs(b));
        assert(m2.outs(b) == m1.outs(b).push((a, o2)));
        assert(g1.outs(b) == m2.outs(b));
    }
    assert(g1.ins(a) == g0.ins(a).push((b, i2))) by {
        assert(m1.ins(a) == g0.ins(a));
        assert(m2.ins(a) == m1.ins(a).push((b, i2)));
        assert(g1.ins(a) == m2.ins(a));
    }
    assert(!g0.inter(a).out_nodes.has_key(b));
    assert(!g0.inter(b).out_nodes.has_key(a));
    crate::idmap::lemma_map_push_self(g0.outs(a), b, o1);
    crate::idmap::lemma_map_push_self(g0.outs(b), a, o2);
    assert(g1.connected(a, b) && g1.connected(b, a));
    assert forall|j: usize|
        j != a && j != b && g0.inter_live(j) implies #[trigger] g1.inter(j) == g0.inter(j) by {
        assert(m1.inter(j) == g0.inter(j));
        assert(m2.inter(j) == m1.inter(j));
        assert(g1.inter(j) == m2.inter(j));
    }
    assert(g1.inter(a).pos == g0.inter(a).pos && g1.inter(b).pos == g0.inter(b).pos) by {
        assert(m1.inter(a).pos == g0.inter(a).pos && m1.inter(b).pos == g0.inter(b).pos);
        assert(m2.inter(a).pos == m1.inter(a).pos && m2.inter(b).pos == m1.inter(b).pos);
        assert(g1.inter(a) == m2.inter(a) && g1.inter(b) == m2.inter(b));
    }
    assert forall|x: usize, y: usize|
        g1.intersections.has_edge(x, y) == (g0.intersections.has_edge(x, y) || (x == a && y == b)
            || (x == b && y == a)) by {
        assert(m1.intersections.has_edge(x, y) == (g0.intersections.has_edge(x, y) || (x == a && y
            == b)));
        assert(m2.intersections.has_edge(x, y) == (m1.intersections.has_edge(x, y) || (x == b && y
            == a)));
        assert(g1.intersections.has_edge(x, y) == m2.intersections.has_edge(x, y));
    }
}

/// What a successful split left behind: the fresh intersection at the split
/// point, connected both ways to each old endpoint with the split road's
/// own pattern, the severed direct connection gone, and two fresh road
/// records.
pub open spec fn split_post(
    g0: RoadGraph,
    g1: RoadGraph,
    road_id: usize,
    at_pos: Vec2,
    nid: usize,
) -> bool {
    let src = g0.road(road_id).src;
    let dst = g0.road(road_id).dst;
    let pattern = g0.road(road_id).pattern;
    &&& g1.inter_live(nid)
    &&& g1.inter(nid).pos == at_pos
    &&& g1.connected(src, nid) && g1.connected(nid, src)
    &&& g1.connected(nid, dst) && g1.connected(dst, nid)
    &&& !g1.connected(src, dst) && !g1.connected(dst, src)
    &&& g1.roads.n() == g0.roads.n() + 2
    &&& g1.road_live((g0.roads.n() as usize))
    &&& g1.road((g0.roads.n() as usize)) == (Road { src, dst: nid, pattern })
    &&& g1.road_live(((g0.roads.n() + 1) as usize))
    &&& g1.road(((g0.roads.n() + 1) as usize)) == (Road { src: nid, dst, pattern })
    &&& forall|j: usize| j != nid ==> g1.inter_live(j) == g0.inter_live(j)
    &&& forall|r2: usize|
        r2 != road_id && (r2 as int) < g0.roads.n() ==> (#[trigger] g1.road_live(r2)
            == g0.road_live(r2)) && (g0.road_live(r2) ==> g1.road(r2) == g0.road(r2))
}

/// The running state of a deletion: relative to the starting graph `g0`,
/// only connections with endpoint `id` have been severed so far.  Surviving
/// intersections keep their positions, handles and all map entries not keyed
/// by `id`; only the lane-nodes of pairs with endpoint `id` die, survivors
/// keep their positions; lane edges survive exactly with their endpoints;
/// road records not incident to `id` survive unchanged.
pub open spec fn delete_mid_ok(g0: RoadGraph, g: RoadGraph, id: usize) -> bool {
    &&& forall|j: usize| g.inter_live(j) == g0.inter_live(j)
    &&& forall|j: usize|
        j != id && g0.inter_live(j) ==> (#[trigger] g.inter(j)).pos == g0.inter(j).pos && g.inter(
            j,
        ).render_handle == g0.inter(j).render_handle
    &&& forall|j: usize, k2: usize|
        j != id && k2 != id && g0.inter_live(j) ==> #[trigger] g.inter(j).out_nodes.has_key(k2)
            == g0.inter(j).out_nodes.has_key(k2) && (g0.inter(j).out_nodes.has_key(k2)
            ==> g.out_lane(j, k2) == g0.out_lane(j, k2))
    &&& forall|j: usize, k2: usize|
        j != id && k2 != id && g0.inter_live(j) ==> #[trigger] g.inter(j).in_nodes.has_key(k2)
            == g0.inter(j).in_nodes.has_key(k2) && (g0.inter(j).in_nodes.has_key(k2)
            ==> g.in_lane(k2, j) == g0.in_lane(k2, j))
    &&& forall|k2: usize|
        #[trigger] g.inter(id).out_nodes.has_key(k2) ==> g0.inter(id).out_nodes.has_key(k2)
            && g.out_lane(id, k2) == g0.out_lane(id, k2)
    &&& forall|k2: usize|
        #[trigger] g.inter(id).in_nodes.has_key(k2) ==> g0.inter(id).in_nodes.has_key(k2)
            && g.in_lane(k2, id) == g0.in_lane(k2, id)
    &&& forall|j: usize|
        j != id && g0.inter_live(j) && #[trigger] g.inter(j).out_nodes.has_key(id)
            ==> g0.inter(j).out_nodes.has_key(id) && g.out_lane(j, id) == g0.out_lane(j, id)
    &&& forall|j: usize|
        j != id && g0.inter_live(j) && #[trigger] g.inter(j).in_nodes.has_key(id)
            ==> g0.inter(j).in_nodes.has_key(id) && g.in_lane(id, j) == g0.in_lane(id, j)
    &&& forall|m: usize| g.node_live(m) ==> g0.node_live(m)
    &&& forall|m: usize|
        g0.node_live(m) && !g0.lane_touches(m, id) ==> #[trigger] g.node_live(m) && g.node(m).pos
            == g0.node(m).pos
    &&& forall|m: usize|
        #[trigger] g.node_live(m) && g0.lane_touches(m, id) ==> g.lane_touches(m, id)
    &&& forall|x: usize, y: usize|
        g.nodes.has_edge(x, y) == (g0.nodes.has_edge(x, y) && g.node_live(x) && g.node_live(y))
    &&& forall|r: usize|
        #[trigger] g.road_live(r) ==> g0.road_live(r) && g.road(r) == g0.road(r)
    &&& forall|r: usize|
        g0.road_live(r) && (#[trigger] g0.road(r)).src != id && g0.road(r).dst != id
            ==> g.road_live(r)
}

/// What a deletion leaves behind: the intersection and exactly the
/// lane-nodes, lane edges and road records of its connections are gone;
/// every surviving intersection keeps its position, handle, and every map
/// entry not keyed by the deleted id; surviving lane-nodes keep their
/// positions.
pub open spec fn delete_post(g0: RoadGraph, g1: RoadGraph, id: usize) -> bool {
    &&& !g1.inter_live(id)
    &&& forall|j: usize| j != id ==> g1.inter_live(j) == g0.inter_live(j)
    &&& forall|j: usize|
        j != id && g0.inter_live(j) ==> (#[trigger] g1.inter(j)).pos == g0.inter(j).pos
            && g1.inter(j).render_handle == g0.inter(j).render_handle
    &&& forall|j: usize, k2: usize|
        j != id && k2 != id && g0.inter_live(j) ==> #[trigger] g1.inter(j).out_nodes.has_key(k2)
            == g0.inter(j).out_nodes.has_key(k2) && (g0.inter(j).out_nodes.has_key(k2)
            ==> g1.out_lane(j, k2) == g0.out_lane(j, k2))
    &&& forall|j: usize, k2: usize|
        j != id && k2 != id && g0.inter_live(j) ==> #[trigger] g1.inter(j).in_nodes.has_key(k2)
            == g0.inter(j).in_nodes.has_key(k2) && (g0.inter(j).in_nodes.has_key(k2)
            ==> g1.in_lane(k2, j) == g0.in_lane(k2, j))
    &&& forall|m: usize|
        g1.node_live(m) == (g0.node_live(m) && !g0.lane_touches(m, id))
    &&& forall|m: usize|
        g0.node_live(m) && !g0.lane_touches(m, id) ==> (#[trigger] g1.node(m)).pos == g0.node(
            m,
        ).pos
    &&& forall|x: usize, y: usize|
        g1.nodes.has_edge(x, y) == (g0.nodes.has_edge(x, y) && g1.node_live(x) && g1.node_live(y))
    &&& forall|r: usize|
        g1.road_live(r) == (g0.road_live(r) && (#[trigger] g0.road(r)).src != id && g0.road(
            r,
        ).dst != id)
    &&& forall|r: usize| g1.road_live(r) ==> #[trigger] g1.road(r) == g0.road(r)
}

/// Severing one connection with endpoint `id` keeps the deletion state.
proof fn lemma_delete_step(g0: RoadGraph, p: RoadGraph, q: RoadGraph, id: usize, a: usize, b: usize)
    requires
        p.wf(),
        delete_mid_ok(g0, p, id),
        a == id || b == id,
        a != b,
        p.connected(a, b),
        detach_post(p, q, a, b),
    ensures
        delete_mid_ok(g0, q, id),
{
    let o = p.out_lane(a, b);
    let ii = p.in_lane(a, b);
    let kfa = p.inter(a).out_nodes.key_at(b);
    assert(p.outs(a)[kfa].0 == b);
    assert(p.owns_out(o, a, b));
    assert(p.inter(b).in_nodes.has_key(a));
    let kib = p.inter(b).in_nodes.key_at(a);
    assert(p.ins(b)[kib].0 == a);
    assert(p.owns_in(ii, a, b));
    assert(g0.lane_touches(o, id)) by {
        if a == id {
            assert(p.inter(id).out_nodes.has_key(b));
            assert(g0.inter(id).out_nodes.has_key(b) && g0.out_lane(id, b) == o);
            assert(g0.owns_out(o, id, b));
        } else {
            assert(p.inter(a).out_nodes.has_key(id));
            assert(g0.inter(a).out_nodes.has_key(id) && g0.out_lane(a, id) == o);
            assert(g0.owns_out(o, a, id));
        }
    }
    assert(g0.lane_touches(ii, id)) by {
        if a == id {
            assert(p.inter(b).in_nodes.has_key(id));
            assert(g0.inter(b).in_nodes.has_key(id) && g0.in_lane(id, b) == ii);
            assert(g0.owns_in(ii, id, b));
        } else {
            assert(p.inter(id).in_nodes.has_key(a));
            assert(g0.inter(id).in_nodes.has_key(a) && g0.in_lane(a, id) == ii);
            assert(g0.owns_in(ii, a, id));
        }
    }
    assert(q.outs(a) == p.outs(a).remove(kfa));
    assert(q.ins(b) == p.ins(b).remove(kib));
    // map frames for surviving intersections
    assert forall|j: usize, k2: usize|
        j != id && k2 != id && g0.inter_live(j) implies #[trigger] q.inter(j).out_nodes.has_key(k2)
            == g0.inter(j).out_nodes.has_key(k2) && (g0.inter(j).out_nodes.has_key(k2)
            ==> q.out_lane(j, k2) == g0.out_lane(j, k2)) by {
        if j == a {
            assert(b == id);
            assert(p.inter(a).out_nodes.wf());
            crate::idmap::lemma_map_remove_keys(p.outs(a), kfa, k2);
        } else if j == b {
            assert(q.outs(b) == p.outs(b));
        } else {
            assert(q.inter(j) == p.inter(j));
        }
        assert(p.inter(j).out_nodes.has_key(k2) == g0.inter(j).out_nodes.has_key(k2));
    }
    assert forall|j: usize, k2: usize|
        j != id && k2 != id && g0.inter_live(j) implies #[trigger] q.inter(j).in_nodes.has_key(k2)
            == g0.inter(j).in_nodes.has_key(k2) && (g0.inter(j).in_nodes.has_key(k2)
            ==> q.in_lane(k2, j) == g0.in_lane(k2, j)) by {
        if j == b {
            assert(a == id);
            assert(p.inter(b).in_nodes.wf());
            crate::idmap::lemma_map_remove_keys(p.ins(b), kib, k2);
        } else if j == a {
            assert(q.ins(a) == p.ins(a));
        } else {
            assert(q.inter(j) == p.inter(j));
        }
        assert(p.inter(j).in_nodes.has_key(k2) == g0.inter(j).in_nodes.has_key(k2));
    }
    // the shrinking maps of `id` stay a selection of the old ones
    assert forall|k2: usize|
        #[trigger] q.inter(id).out_nodes.has_key(k2) implies g0.inter(id).out_nodes.has_key(k2)
            && q.out_lane(id, k2) == g0.out_lane(id, k2) by {
        if a == id {
            assert(p.inter(id).out_nodes.wf());
            crate::idmap::lemma_map_remove_keys(p.outs(id), kfa, k2);
        } else {
            assert(b == id);
            assert(q.outs(id) == p.outs(id));
        }
        assert(p.inter(id).out_nodes.has_key(k2) ==> g0.inter(id).out_nodes.has_key(k2)
            && p.out_lane(id, k2) == g0.out_lane(id, k2));
    }
    assert forall|k2: usize|
        #[trigger] q.inter(id).in_nodes.has_key(k2) implies g0.inter(id).in_nodes.has_key(k2)
            && q.in_lane(k2, id) == g0.in_lane(k2, id) by {
        if b == id {
            assert(p.inter(id).in_nodes.wf());
            crate::idmap::lemma_map_remove_keys(p.ins(id), kib, k2);
        } else {
            assert(a == id);
            assert(q.ins(id) == p.ins(id));
        }
        assert(p.inter(id).in_nodes.has_key(k2) ==> g0.inter(id).in_nodes.has_key(k2)
            && p.in_lane(k2, id) == g0.in_lane(k2, id));
    }
    // intersection payload frame
    assert forall|j: usize|
        j != id && g0.inter_live(j) implies (#[trigger] q.inter(j)).pos == g0.inter(j).pos
            && q.inter(j).render_handle == g0.inter(j).render_handle by {
        if j != a && j != b {
            assert(q.inter(j) == p.inter(j));
        }
    }
    // surviving lane-nodes keep their positions
    assert forall|m: usize|
        g0.node_live(m) && !g0.lane_touches(m, id) implies #[trigger] q.node_live(m) && q.node(
        m,
    ).pos == g0.node(m).pos by {
        assert(p.node_live(m) && p.node(m).pos == g0.node(m).pos);
        assert(m != o && m != ii);
        assert(q.node(m).pos == p.node(m).pos);
    }
    // still-live lanes of pairs with `id` are still registered
    assert forall|m: usize|
        #[trigger] q.node_live(m) && g0.lane_touches(m, id) implies q.lane_touches(m, id) by {
        assert(p.node_live(m));
        assert(p.lane_touches(m, id));
        assert(m != o && m != ii);
        let c = choose|c: usize|
            p.owns_out(m, id, c) || p.owns_in(m, id, c) || p.owns_out(m, c, id) || p.owns_in(
                m,
                c,
                id,
            );
        if p.owns_out(m, id, c) {
            if a == id && c == b {
                assert(m == o);
            } else if a == id {
                crate::idmap::lemma_map_remove_keys(p.outs(id), kfa, c);
                assert(q.owns_out(m, id, c));
            } else {
                assert(b == id);
                assert(q.outs(id) == p.outs(id));
                assert(q.owns_out(m, id, c));
            }
            assert(q.lane_touches(m, id));
        } else if p.owns_in(m, id, c) {
            if a == id && c == b {
                assert(m == ii);
            } else if c == b {
                assert(b == id);
                let w = p.inter(id).in_nodes.key_at(id);
                assert(p.ins(id)[w].0 == id);
                assert(p.inter_live(p.ins(id)[w].0) && p.ins(id)[w].0 != id);
            } else {
                assert(q.ins(c) == p.ins(c) || q.inter(c) == p.inter(c)) by {
                    if c == a {
                        assert(q.ins(a) == p.ins(a));
                    } else {
                        assert(q.inter(c) == p.inter(c));
                    }
                }
                assert(q.owns_in(m, id, c));
            }
            assert(q.lane_touches(m, id));
        } else if p.owns_out(m, c, id) {
            if c == a && b == id {
                assert(m == o);
            } else if c == a {
                assert(a == id);
                let w = p.inter(id).out_nodes.key_at(id);
                assert(p.outs(id)[w].0 == id);
                assert(p.inter_live(p.outs(id)[w].0) && p.outs(id)[w].0 != id);
            } else {
                assert(q.outs(c) == p.outs(c) || q.inter(c) == p.inter(c)) by {
                    if c == b {
                        assert(q.outs(b) == p.outs(b));
                    } else {
                        assert(q.inter(c) == p.inter(c));
                    }
                }
                assert(q.owns_out(m, c, id));
            }
            assert(q.lane_touches(m, id));
        } else {
            if b == id && c == a {
                assert(m == ii);
            } else if b == id {
                crate::idmap::lemma_map_remove_keys(p.ins(id), kib, c);
                assert(q.owns_in(m, c, id));
            } else {
                assert(a == id);
                assert(q.ins(id) == p.ins(id));
                assert(q.owns_in(m, c, id));
            }
            assert(q.lane_touches(m, id));
        }
    }
    // lane edges survive exactly with their endpoints
    assert forall|x: usize, y: usize|
        q.nodes.has_edge(x, y) == (g0.nodes.has_edge(x, y) && q.node_live(x) && q.node_live(
            y,
        )) by {
        assert(q.nodes.has_edge(x, y) == (p.nodes.has_edge(x, y) && x != o && x != ii && y != o
            && y != ii));
        assert(p.nodes.has_edge(x, y) == (g0.nodes.has_edge(x, y) && p.node_live(x)
            && p.node_live(y)));
    }
    // roads
    assert forall|r: usize|
        #[trigger] q.road_live(r) implies g0.road_live(r) && q.road(r) == g0.road(r) by {
        assert(p.road_live(r));
        assert(q.road(r) == p.road(r));
    }
    assert forall|r: usize|
        g0.road_live(r) && (#[trigger] g0.road(r)).src != id && g0.road(r).dst != id
            implies q.road_live(r) by {
        assert(p.road_live(r));
        assert(p.road(r) == g0.road(r));
        assert(!pair_matches(p.road(r), a, b)) by {
            if pair_matches(p.road(r), a, b) {
                assert(p.road(r).src == id || p.road(r).dst == id);
            }
        }
    }
    assert forall|j: usize|
        j != id && g0.inter_live(j) && #[trigger] q.inter(j).out_nodes.has_key(id)
            implies g0.inter(j).out_nodes.has_key(id) && q.out_lane(j, id) == g0.out_lane(
            j,
            id,
        ) by {
        if j == a {
            assert(b == id);
            assert(p.inter(a).out_nodes.wf());
            crate::idmap::lemma_map_remove_keys(p.outs(a), kfa, id);
        } else if j == b {
            assert(q.outs(b) == p.outs(b));
        } else {
            assert(q.inter(j) == p.inter(j));
        }
    }
    assert forall|j: usize|
        j != id && g0.inter_live(j) && #[trigger] q.inter(j).in_nodes.has_key(id)
            implies g0.inter(j).in_nodes.has_key(id) && q.in_lane(id, j) == g0.in_lane(id, j) by {
        if j == b {
            assert(a == id);
            assert(p.inter(b).in_nodes.wf());
            crate::idmap::lemma_map_remove_keys(p.ins(b), kib, id);
        } else if j == a {
            assert(q.ins(a) == p.ins(a));
        } else {
            assert(q.inter(j) == p.inter(j));
        }
    }
}

/// Ownership claims are functions of the intersection graph alone.
proof fn lemma_owns_same_inters(ga: RoadGraph, gb: RoadGraph, n: usize, a: usize, b: usize)
    requires
        gb.intersections == ga.intersections,
    ensures
        gb.owns_out(n, a, b) == ga.owns_out(n, a, b),
        gb.owns_in(n, a, b) == ga.owns_in(n, a, b),
        ga.inter_live(a) ==> gb.out_lane(a, b) == ga.out_lane(a, b),
        ga.inter_live(b) ==> gb.in_lane(a, b) == ga.in_lane(a, b),
{
    lemma_same_inters(ga, gb);
    if ga.inter_live(a) {
        assert(gb.inter(a) == ga.inter(a));
    }
    if ga.inter_live(b) {
        assert(gb.inter(b) == ga.inter(b));
    }
}

/// An owned lane-node is live.
proof fn lemma_owns_live(g: RoadGraph, n: usize, a: usize, b: usize)
    requires
        g.wf(),
    ensures
        g.owns_out(n, a, b) ==> g.node_live(n),
        g.owns_in(n, a, b) ==> g.node_live(n),
{
    if g.owns_out(n, a, b) {
        let kk = g.inter(a).out_nodes.key_at(b);
        assert(g.outs(a)[kk].0 == b);
        assert(g.outs(a)[kk].1 == n);
        assert(g.node_live(g.outs(a)[kk].1));
    }
    if g.owns_in(n, a, b) {
        let kk = g.inter(b).in_nodes.key_at(a);
        assert(g.ins(b)[kk].0 == a);
        assert(g.ins(b)[kk].1 == n);
        assert(g.node_live(g.ins(b)[kk].1));
    }
}

/// After the structural half of a directed connect the core invariant holds
/// again, and every intersection but the destination keeps correct lights.
proof fn lemma_attach_core(g0: RoadGraph, gm: RoadGraph, from: usize, to: usize, o: usize, ii: usize)
    requires
        g0.wf(),
        g0.inter_live(from),
        g0.inter_live(to),
        from != to,
        !g0.connected(from, to),
        !g0.inter(to).in_nodes.has_key(from),
        (o as int) == g0.nodes.n(),
        (ii as int) == g0.nodes.n() + 1,
        gm.nodes.wf(),
        gm.intersections.wf(),
        gm.roads == g0.roads,
        g0.roads.wf(),
        gm.intersections.n() == g0.intersections.n(),
        forall|j: usize| gm.inter_live(j) == g0.inter_live(j),
        gm.outs(from) == g0.outs(from).push((to, o)),
        gm.ins(to) == g0.ins(to).push((from, ii)),
        gm.ins(from) == g0.ins(from),
        gm.outs(to) == g0.outs(to),
        gm.inter(from).pos == g0.inter(from).pos,
        gm.inter(to).pos == g0.inter(to).pos,
        forall|j: usize|
            j != from && j != to && g0.inter_live(j) ==> #[trigger] gm.inter(j) == g0.inter(j),
        forall|j: usize|
            g0.inter_live(j) ==> (#[trigger] gm.inter(j)).in_nodes.wf() && gm.inter(
                j,
            ).out_nodes.wf(),
        forall|a: usize, b: usize|
            gm.intersections.has_edge(a, b) == (g0.intersections.has_edge(a, b) || (a == from && b
                == to)),
        gm.nodes.n() == g0.nodes.n() + 2,
        forall|m: usize| gm.node_live(m) == (g0.node_live(m) || m == o || m == ii),
        forall|m: usize| g0.node_live(m) ==> #[trigger] gm.node(m) == g0.node(m),
        forall|x: usize, y: usize|
            x != ii && y != o && !(x == o && y == ii) ==> gm.nodes.has_edge(x, y)
                == g0.nodes.has_edge(x, y),
        gm.nodes.has_edge(o, ii),
        gm.node(o).light == TrafficLight::Always,
        gm.node(ii).light == TrafficLight::Always,
        in_bounds(gm.node(o).pos, NODE_COORD_BOUND as int),
        in_bounds(gm.node(ii).pos, NODE_COORD_BOUND as int),
    ensures
        gm.wf_core(),
        gm.inter_live(to),
        forall|b2: usize|
            gm.inter_live(b2) && b2 != to ==> #[trigger] gm.lights_ok_at(b2),
{
    let nf0 = g0.outs(from).len() as int;
    let nt0 = g0.ins(to).len() as int;
    assert forall|m: usize| g0.node_live(m) implies m != o && m != ii by {
        g0.nodes.lemma_live_bound(m);
    }
    // key frames for the grown maps
    assert forall|j: usize, b: usize|
        g0.inter_live(j) implies #[trigger] gm.inter(j).out_nodes.has_key(b) == (g0.inter(
        j,
    ).out_nodes.has_key(b) || (j == from && b == to)) by {
        if j == from {
            crate::idmap::lemma_map_push_keys(g0.outs(from), to, o, b);
        } else if j == to {
        } else {
            assert(gm.inter(j) == g0.inter(j));
        }
    }
    assert forall|j: usize, a: usize|
        g0.inter_live(j) implies #[trigger] gm.inter(j).in_nodes.has_key(a) == (g0.inter(
        j,
    ).in_nodes.has_key(a) || (j == to && a == from)) by {
        if j == to {
            crate::idmap::lemma_map_push_keys(g0.ins(to), from, ii, a);
        } else if j == from {
        } else {
            assert(gm.inter(j) == g0.inter(j));
        }
    }
    assert forall|j: usize, b: usize|
        g0.inter_live(j) && g0.inter(j).out_nodes.has_key(b) implies #[trigger] gm.out_lane(j, b)
            == g0.out_lane(j, b) by {
        if j == from {
            crate::idmap::lemma_map_push_keys(g0.outs(from), to, o, b);
        } else if j == to {
        } else {
            assert(gm.inter(j) == g0.inter(j));
        }
    }
    assert forall|j: usize, a: usize|
        g0.inter_live(j) && g0.inter(j).in_nodes.has_key(a) implies #[trigger] gm.in_lane(a, j)
            == g0.in_lane(a, j) by {
        if j == to {
            crate::idmap::lemma_map_push_keys(g0.ins(to), from, ii, a);
        } else if j == from {
        } else {
            assert(gm.inter(j) == g0.inter(j));
        }
    }
    assert(gm.out_lane(from, to) == o) by {
        crate::idmap::lemma_map_push_self(g0.outs(from), to, o);
    }
    assert(gm.in_lane(from, to) == ii) by {
        crate::idmap::lemma_map_push_self(g0.ins(to), from, ii);
    }
    assert forall|a: usize, b: usize|
        gm.connected(a, b) == (g0.connected(a, b) || (a == from && b == to)) by {}
    // ownership claims: the old ones survive, the new pair is fresh
    assert forall|n: usize, a: usize, b: usize| #[trigger] gm.owns_out(n, a, b) implies (
    g0.owns_out(n, a, b) || (n == o && a == from && b == to)) by {
        if !(a == from && b == to) {
            assert(g0.inter(a).out_nodes.has_key(b));
        }
    }
    assert forall|n: usize, a: usize, b: usize| #[trigger] gm.owns_in(n, a, b) implies (
    g0.owns_in(n, a, b) || (n == ii && a == from && b == to)) by {
        if !(a == from && b == to) {
            assert(g0.inter(b).in_nodes.has_key(a));
        }
    }
    assert forall|n: usize, a: usize, b: usize| #[trigger] g0.owns_out(n, a, b) implies gm.owns_out(
        n,
        a,
        b,
    ) by {}
    assert forall|n: usize, a: usize, b: usize| #[trigger] g0.owns_in(n, a, b) implies gm.owns_in(
        n,
        a,
        b,
    ) by {}
    // intersections' own data
    assert forall|i: usize|
        gm.inter_live(i) implies (#[trigger] gm.inter(i)).in_nodes.wf() && gm.inter(
        i,
    ).out_nodes.wf() && in_bounds(gm.inter(i).pos, MAX_COORD as int) by {
        if i != from && i != to {
            assert(gm.inter(i) == g0.inter(i));
        }
        assert(in_bounds(g0.inter(i).pos, MAX_COORD as int));
    }
    // mirror
    assert forall|a: usize, k: int|
        gm.inter_live(a) && 0 <= k < gm.outs(a).len() implies {
            let b = (#[trigger] gm.outs(a)[k]).0;
            gm.inter_live(b) && b != a && gm.intersections.has_edge(a, b) && gm.inter(
                b,
            ).in_nodes.has_key(a) && gm.node_live(gm.outs(a)[k].1)
        } by {
        if a == from && k == nf0 {
            assert(gm.outs(from)[k] == (to, o));
        } else {
            let entry = if a == from {
                g0.outs(from)[k]
            } else {
                g0.outs(a)[k]
            };
            assert(gm.outs(a)[k] == entry) by {
                if a != from && a != to {
                    assert(gm.inter(a) == g0.inter(a));
                }
            }
            let b = entry.0;
            assert(g0.inter_live(b) && b != a && g0.intersections.has_edge(a, b) && g0.inter(
                b,
            ).in_nodes.has_key(a) && g0.node_live(entry.1));
        }
    }
    assert forall|b: usize, k: int|
        gm.inter_live(b) && 0 <= k < gm.ins(b).len() implies {
            let a = (#[trigger] gm.ins(b)[k]).0;
            gm.inter_live(a) && a != b && gm.inter(a).out_nodes.has_key(b) && gm.node_live(
                gm.ins(b)[k].1,
            )
        } by {
        if b == to && k == nt0 {
            assert(gm.ins(to)[k] == (from, ii));
        } else {
            let entry = if b == to {
                g0.ins(to)[k]
            } else {
                g0.ins(b)[k]
            };
            assert(gm.ins(b)[k] == entry) by {
                if b != from && b != to {
                    assert(gm.inter(b) == g0.inter(b));
                }
            }
            let a = entry.0;
            assert(g0.inter_live(a) && a != b && g0.inter(a).out_nodes.has_key(b) && g0.node_live(
                entry.1,
            ));
        }
    }
    assert forall|a: usize, b: usize| #[trigger] gm.intersections.has_edge(a, b) implies gm.inter(
        a,
    ).out_nodes.has_key(b) by {
        if !(a == from && b == to) {
            assert(g0.intersections.has_edge(a, b));
            assert(g0.inter(a).out_nodes.has_key(b));
        }
    }
    // lane pairs linked
    assert forall|a: usize, b: usize| #[trigger] gm.connected(a, b) implies gm.out_lane(a, b)
        != gm.in_lane(a, b) && gm.nodes.has_edge(gm.out_lane(a, b), gm.in_lane(a, b)) by {
        if a == from && b == to {
            assert(gm.out_lane(from, to) == o && gm.in_lane(from, to) == ii);
        } else {
            assert(g0.connected(a, b));
            let ol = g0.out_lane(a, b);
            let il = g0.in_lane(a, b);
            assert(g0.inter(b).in_nodes.has_key(a)) by {
                let kk = g0.inter(a).out_nodes.key_at(b);
                assert(g0.outs(a)[kk].0 == b);
            }
            assert(gm.out_lane(a, b) == ol && gm.in_lane(a, b) == il);
            assert(g0.owns_out(ol, a, b) && g0.owns_in(il, a, b));
            assert(g0.node_live(ol) && g0.node_live(il));
            assert(ol != o && ol != ii && il != o && il != ii);
            assert(g0.nodes.has_edge(ol, il));
        }
    }
    // injectivity
    assert forall|n: usize, a: usize, b: usize, c: usize, d: usize|
        #![trigger gm.owns_out(n, a, b), gm.owns_out(n, c, d)]
        gm.owns_out(n, a, b) && gm.owns_out(n, c, d) implies a == c && b == d by {
        if g0.owns_out(n, a, b) && g0.owns_out(n, c, d) {
        } else if n == o {
            lemma_owns_live(g0, o, a, b);
            lemma_owns_live(g0, o, c, d);
            if g0.owns_out(o, a, b) || g0.owns_out(o, c, d) {
                g0.nodes.lemma_live_bound(o);
            }
        }
    }
    assert forall|n: usize, a: usize, b: usize, c: usize, d: usize|
        #![trigger gm.owns_in(n, a, b), gm.owns_in(n, c, d)]
        gm.owns_in(n, a, b) && gm.owns_in(n, c, d) implies a == c && b == d by {
        if g0.owns_in(n, a, b) && g0.owns_in(n, c, d) {
        } else if n == ii {
            lemma_owns_live(g0, ii, a, b);
            lemma_owns_live(g0, ii, c, d);
            if g0.owns_in(ii, a, b) || g0.owns_in(ii, c, d) {
                g0.nodes.lemma_live_bound(ii);
            }
        }
    }
    assert forall|n: usize, a: usize, b: usize, c: usize, d: usize|
        #![trigger gm.owns_out(n, a, b), gm.owns_in(n, c, d)]
        gm.owns_out(n, a, b) implies !gm.owns_in(n, c, d) by {
        if gm.owns_in(n, c, d) {
            lemma_owns_live(g0, n, a, b);
            lemma_owns_live(g0, n, c, d);
            if g0.owns_out(n, a, b) && g0.owns_in(n, c, d) {
            } else if n == o {
                if g0.owns_in(o, c, d) {
                    g0.nodes.lemma_live_bound(o);
                }
            } else if n == ii {
                if g0.owns_out(ii, a, b) {
                    g0.nodes.lemma_live_bound(ii);
                }
            }
        }
    }
    // node payloads
    assert forall|m: usize| gm.node_live(m) implies in_bounds(
        (#[trigger] gm.node(m)).pos,
        NODE_COORD_BOUND as int,
    ) && gm.node(m).light.wf() by {
        if m != o && m != ii {
            assert(gm.node(m) == g0.node(m));
            assert(g0.node_live(m));
        }
    }
    // roads
    lemma_same_roads(g0, gm);
    assert forall|r: usize| #[trigger] gm.road_live(r) implies {
        let rd = gm.road(r);
        rd.src != rd.dst && gm.connected(rd.src, rd.dst) && gm.connected(rd.dst, rd.src)
            && rd.pattern.wf()
    } by {
        assert(gm.road(r) == g0.road(r));
        assert(g0.road_live(r));
        let rd = g0.road(r);
        assert(rd.src != rd.dst && g0.connected(rd.src, rd.dst) && g0.connected(rd.dst, rd.src)
            && rd.pattern.wf());
    }
    assert forall|r1: usize, r2: usize|
        gm.road_live(r1) && gm.road_live(r2) && r1 != r2 implies !same_pair(
        #[trigger] gm.road(r1),
        #[trigger] gm.road(r2),
    ) by {
        assert(gm.road(r1) == g0.road(r1) && gm.road(r2) == g0.road(r2));
        assert(g0.road_live(r1) && g0.road_live(r2));
    }
    // lights away from the destination
    assert forall|b2: usize| gm.inter_live(b2) && b2 != to implies #[trigger] gm.lights_ok_at(
        b2,
    ) by {
        assert(g0.lights_ok_at(b2));
        assert(gm.ins(b2) == g0.ins(b2)) by {
            if b2 != from {
                assert(gm.inter(b2) == g0.inter(b2));
            }
        }
        assert forall|k: int| 0 <= k < gm.ins(b2).len() implies gm.node(
            (#[trigger] gm.ins(b2)[k]).1,
        ).light == expected_light(k, gm.ins(b2).len() as int) by {
            let v = g0.ins(b2)[k].1;
            assert(g0.node_live(v));
            assert(gm.node(v) == g0.node(v));
            assert(g0.node(v).light == expected_light(k, g0.ins(b2).len() as int));
        }
    }
}

/// What `connect` leaves behind: the two directional attachments in
/// sequence, then one fresh road record.
pub open spec fn connect_post(
    g0: RoadGraph,
    g1: RoadGraph,
    a: usize,
    b: usize,
    pattern: LanePattern,
) -> bool {
    &&& exists|m1: RoadGraph, m2: RoadGraph|
        #[trigger] attach_post(g0, m1, a, b) && #[trigger] attach_post(m1, m2, b, a)
            && g1.intersections == m2.intersections && g1.nodes == m2.nodes
    &&& g1.roads.n() == g0.roads.n() + 1
    &&& forall|r: usize| g1.road_live(r) == (g0.road_live(r) || (r as int) == g0.roads.n())
    &&& g1.road((g0.roads.n() as usize)) == (Road { src: a, dst: b, pattern })
    &&& forall|r: usize|
        (r as int) != g0.roads.n() && g1.road_live(r) ==> #[trigger] g1.road(r) == g0.road(r)
}

/// Pushing a road record for a freshly connected pair preserves the
/// invariant.
proof fn lemma_wf_after_road_push(
    m2: RoadGraph,
    g1: RoadGraph,
    a: usize,
    b: usize,
    pattern: LanePattern,
    rid: usize,
)
    requires
        m2.wf(),
        m2.connected(a, b),
        m2.connected(b, a),
        a != b,
        pattern.wf(),
        forall|r: usize|
            m2.road_live(r) ==> !pair_matches(#[trigger] m2.road(r), a, b),
        g1.intersections == m2.intersections,
        g1.nodes == m2.nodes,
        g1.roads.wf(),
        g1.roads.n() == m2.roads.n() + 1,
        (rid as int) == m2.roads.n(),
        forall|r: usize| g1.road_live(r) == (m2.road_live(r) || r == rid),
        g1.road(rid) == (Road { src: a, dst: b, pattern }),
        forall|r: usize| r != rid && m2.road_live(r) ==> #[trigger] g1.road(r) == m2.road(r),
    ensures
        g1.wf(),
{
    lemma_same_inters(m2, g1);
    lemma_same_nodes(m2, g1);
    lemma_nodes_side_transfer(m2, g1);
    assert forall|x: usize, y: usize| g1.connected(x, y) == m2.connected(x, y) by {
        if m2.inter_live(x) {
            assert(g1.inter(x) == m2.inter(x));
        }
    }
    assert forall|i: usize|
        g1.inter_live(i) implies (#[trigger] g1.inter(i)).in_nodes.wf() && g1.inter(
        i,
    ).out_nodes.wf() && in_bounds(g1.inter(i).pos, MAX_COORD as int) by {
        assert(g1.inter(i) == m2.inter(i));
        assert(m2.inter(i).in_nodes.wf() && m2.inter(i).out_nodes.wf() && in_bounds(
            m2.inter(i).pos,
            MAX_COORD as int,
        ));
    }
    assert forall|x: usize, k: int|
        g1.inter_live(x) && 0 <= k < g1.outs(x).len() implies {
            let y = (#[trigger] g1.outs(x)[k]).0;
            g1.inter_live(y) && y != x && g1.intersections.has_edge(x, y) && g1.inter(
                y,
            ).in_nodes.has_key(x) && g1.node_live(g1.outs(x)[k].1)
        } by {
        assert(g1.inter(x) == m2.inter(x));
        let y = m2.outs(x)[k].0;
        assert(m2.inter_live(y) && y != x && m2.intersections.has_edge(x, y) && m2.inter(
            y,
        ).in_nodes.has_key(x) && m2.node_live(m2.outs(x)[k].1));
        assert(g1.inter(y) == m2.inter(y));
    }
    assert forall|y: usize, k: int|
        g1.inter_live(y) && 0 <= k < g1.ins(y).len() implies {
            let x = (#[trigger] g1.ins(y)[k]).0;
            g1.inter_live(x) && x != y && g1.inter(x).out_nodes.has_key(y) && g1.node_live(
                g1.ins(y)[k].1,
            )
        } by {
        assert(g1.inter(y) == m2.inter(y));
        let x = m2.ins(y)[k].0;
        assert(m2.inter_live(x) && x != y && m2.inter(x).out_nodes.has_key(y) && m2.node_live(
            m2.ins(y)[k].1,
        ));
        assert(g1.inter(x) == m2.inter(x));
    }
    assert forall|x: usize, y: usize| #[trigger] g1.intersections.has_edge(x, y) implies g1.inter(
        x,
    ).out_nodes.has_key(y) by {
        assert(m2.intersections.has_edge(x, y));
        assert(g1.inter(x) == m2.inter(x));
    }
    assert forall|x: usize, y: usize| #[trigger] g1.connected(x, y) implies g1.out_lane(x, y)
        != g1.in_lane(x, y) && g1.nodes.has_edge(g1.out_lane(x, y), g1.in_lane(x, y)) by {
        assert(g1.inter(x) == m2.inter(x) && g1.inter(y) == m2.inter(y));
        assert(m2.connected(x, y));
        assert(m2.out_lane(x, y) != m2.in_lane(x, y) && m2.nodes.has_edge(
            m2.out_lane(x, y),
            m2.in_lane(x, y),
        ));
    }
    assert forall|n: usize, x: usize, y: usize|
        #[trigger] g1.owns_out(n, x, y) == m2.owns_out(n, x, y) by {
        if m2.inter_live(x) {
            assert(g1.inter(x) == m2.inter(x));
        }
    }
    assert forall|n: usize, x: usize, y: usize|
        #[trigger] g1.owns_in(n, x, y) == m2.owns_in(n, x, y) by {
        if m2.inter_live(y) {
            assert(g1.inter(y) == m2.inter(y));
        }
    }
    assert forall|r: usize| #[trigger] g1.road_live(r) implies {
        let rd = g1.road(r);
        rd.src != rd.dst && g1.connected(rd.src, rd.dst) && g1.connected(rd.dst, rd.src)
            && rd.pattern.wf()
    } by {
        if r == rid {
        } else {
            assert(m2.road_live(r));
            assert(g1.road(r) == m2.road(r));
            let rd = m2.road(r);
            assert(rd.src != rd.dst && m2.connected(rd.src, rd.dst) && m2.connected(
                rd.dst,
                rd.src,
            ) && rd.pattern.wf());
        }
    }
    assert forall|r1: usize, r2: usize|
        g1.road_live(r1) && g1.road_live(r2) && r1 != r2 implies !same_pair(
        #[trigger] g1.road(r1),
        #[trigger] g1.road(r2),
    ) by {
        if r1 != rid && r2 != rid {
            assert(g1.road(r1) == m2.road(r1) && g1.road(r2) == m2.road(r2));
            assert(m2.road_live(r1) && m2.road_live(r2));
        } else if r1 == rid {
            assert(m2.road_live(r2));
            assert(!pair_matches(m2.road(r2), a, b));
            assert(g1.road(r2) == m2.road(r2));
        } else {
            assert(m2.road_live(r1));
            assert(!pair_matches(m2.road(r1), a, b));
            assert(g1.road(r1) == m2.road(r1));
        }
    }
    assert forall|b2: usize| g1.inter_live(b2) implies #[trigger] g1.lights_ok_at(b2) by {
        assert(m2.lights_ok_at(b2));
        assert(g1.ins(b2) == m2.ins(b2));
        assert forall|k: int| 0 <= k < g1.ins(b2).len() implies g1.node(
            (#[trigger] g1.ins(b2)[k]).1,
        ).light == expected_light(k, g1.ins(b2).len() as int) by {
            assert(m2.node(m2.ins(b2)[k].1).light == expected_light(
                k,
                m2.ins(b2).len() as int,
            ));
            assert(g1.node(g1.ins(b2)[k].1) == m2.node(m2.ins(b2)[k].1));
        }
    }
}

/// Removing an intersection whose maps are empty and which nothing else
/// references preserves the invariant.
proof fn lemma_wf_after_inter_removal(gm: RoadGraph, g1: RoadGraph, id: usize)
    requires
        gm.wf(),
        gm.inter_live(id),
        gm.outs(id).len() == 0,
        gm.ins(id).len() == 0,
        g1.nodes == gm.nodes,
        g1.roads == gm.roads,
        g1.intersections.wf(),
        g1.intersections.n() == gm.intersections.n(),
        !g1.inter_live(id),
        forall|j: usize| j != id ==> g1.inter_live(j) == gm.inter_live(j),
        forall|j: usize|
            j != id && gm.inter_live(j) ==> #[trigger] g1.inter(j) == gm.inter(j),
        forall|x: usize, y: usize|
            g1.intersections.has_edge(x, y) == (gm.intersections.has_edge(x, y) && x != id && y
                != id),
    ensures
        g1.wf(),
{
    lemma_same_nodes(gm, g1);
    lemma_same_roads(gm, g1);
    lemma_nodes_side_transfer(gm, g1);
    // no live intersection holds a map entry for `id`
    assert forall|j: usize, k: int|
        gm.inter_live(j) && j != id && 0 <= k < gm.outs(j).len() implies (
        #[trigger] gm.outs(j)[k]).0 != id by {
        if gm.outs(j)[k].0 == id {
            assert(gm.inter(id).in_nodes.has_key(j));
            let w = gm.inter(id).in_nodes.key_at(j);
            assert(gm.ins(id)[w].0 == j);
        }
    }
    assert forall|j: usize, k: int|
        gm.inter_live(j) && j != id && 0 <= k < gm.ins(j).len() implies (
        #[trigger] gm.ins(j)[k]).0 != id by {
        if gm.ins(j)[k].0 == id {
            assert(gm.inter(gm.ins(j)[k].0).out_nodes.has_key(j));
            let w = gm.inter(id).out_nodes.key_at(j);
            assert(gm.outs(id)[w].0 == j);
        }
    }
    assert forall|i: usize|
        g1.inter_live(i) implies (#[trigger] g1.inter(i)).in_nodes.wf() && g1.inter(
        i,
    ).out_nodes.wf() && in_bounds(g1.inter(i).pos, MAX_COORD as int) by {
        assert(i != id);
        assert(g1.inter(i) == gm.inter(i));
        assert(gm.inter(i).in_nodes.wf() && gm.inter(i).out_nodes.wf() && in_bounds(
            gm.inter(i).pos,
            MAX_COORD as int,
        ));
    }
    assert forall|x: usize, k: int|
        g1.inter_live(x) && 0 <= k < g1.outs(x).len() implies {
            let y = (#[trigger] g1.outs(x)[k]).0;
            g1.inter_live(y) && y != x && g1.intersections.has_edge(x, y) && g1.inter(
                y,
            ).in_nodes.has_key(x) && g1.node_live(g1.outs(x)[k].1)
        } by {
        assert(x != id);
        assert(g1.inter(x) == gm.inter(x));
        let y = gm.outs(x)[k].0;
        assert(gm.inter_live(y) && y != x && gm.intersections.has_edge(x, y) && gm.inter(
            y,
        ).in_nodes.has_key(x) && gm.node_live(gm.outs(x)[k].1));
        assert(y != id);
        assert(g1.inter(y) == gm.inter(y));
    }
    assert forall|y: usize, k: int|
        g1.inter_live(y) && 0 <= k < g1.ins(y).len() implies {
            let x = (#[trigger] g1.ins(y)[k]).0;
            g1.inter_live(x) && x != y && g1.inter(x).out_nodes.has_key(y) && g1.node_live(
                g1.ins(y)[k].1,
            )
        } by {
        assert(y != id);
        assert(g1.inter(y) == gm.inter(y));
        let x = gm.ins(y)[k].0;
        assert(gm.inter_live(x) && x != y && gm.inter(x).out_nodes.has_key(y) && gm.node_live(
            gm.ins(y)[k].1,
        ));
        assert(x != id);
        assert(g1.inter(x) == gm.inter(x));
    }
    assert forall|x: usize, y: usize| #[trigger] g1.intersections.has_edge(x, y) implies g1.inter(
        x,
    ).out_nodes.has_key(y) by {
        assert(gm.intersections.has_edge(x, y));
        assert(x != id);
        assert(g1.inter(x) == gm.inter(x));
    }
    assert forall|x: usize, y: usize| #[trigger] g1.connected(x, y) implies gm.connected(x, y)
        && x != id && y != id && g1.out_lane(x, y) == gm.out_lane(x, y) && g1.in_lane(x, y)
        == gm.in_lane(x, y) by {
        assert(x != id);
        assert(g1.inter(x) == gm.inter(x));
        let w = g1.inter(x).out_nodes.key_at(y);
        assert(g1.outs(x)[w].0 == y);
        assert(gm.outs(x)[w].0 == y);
        assert(y != id);
        assert(g1.inter(y) == gm.inter(y));
    }
    assert forall|x: usize, y: usize| #[trigger] gm.connected(x, y) && x != id && y != id
        implies g1.connected(x, y) by {
        assert(g1.inter(x) == gm.inter(x));
    }
    assert forall|x: usize, y: usize| #[trigger] g1.connected(x, y) implies g1.out_lane(x, y)
        != g1.in_lane(x, y) && g1.nodes.has_edge(g1.out_lane(x, y), g1.in_lane(x, y)) by {
        assert(gm.connected(x, y));
        assert(gm.out_lane(x, y) != gm.in_lane(x, y) && gm.nodes.has_edge(
            gm.out_lane(x, y),
            gm.in_lane(x, y),
        ));
    }
    assert forall|n: usize, x: usize, y: usize| #[trigger] g1.owns_out(n, x, y) implies gm.owns_out(
        n,
        x,
        y,
    ) by {
        assert(x != id);
        assert(g1.inter(x) == gm.inter(x));
    }
    assert forall|n: usize, x: usize, y: usize| #[trigger] g1.owns_in(n, x, y) implies gm.owns_in(
        n,
        x,
        y,
    ) by {
        assert(y != id);
        assert(g1.inter(y) == gm.inter(y));
    }
    assert forall|r: usize| #[trigger] g1.road_live(r) implies {
        let rd = g1.road(r);
        rd.src != rd.dst && g1.connected(rd.src, rd.dst) && g1.connected(rd.dst, rd.src)
            && rd.pattern.wf()
    } by {
        assert(g1.road(r) == gm.road(r));
        assert(gm.road_live(r));
        let rd = gm.road(r);
        assert(rd.src != rd.dst && gm.connected(rd.src, rd.dst) && gm.connected(rd.dst, rd.src)
            && rd.pattern.wf());
        assert(rd.src != id && rd.dst != id) by {
            let w = gm.inter(rd.src).out_nodes.key_at(rd.dst);
            assert(gm.outs(rd.src)[w].0 == rd.dst);
            if rd.src == id {
            }
            let w2 = gm.inter(rd.dst).out_nodes.key_at(rd.src);
            assert(gm.outs(rd.dst)[w2].0 == rd.src);
        }
    }
    assert forall|r1: usize, r2: usize|
        g1.road_live(r1) && g1.road_live(r2) && r1 != r2 implies !same_pair(
        #[trigger] g1.road(r1),
        #[trigger] g1.road(r2),
    ) by {
        assert(g1.road(r1) == gm.road(r1) && g1.road(r2) == gm.road(r2));
        assert(gm.road_live(r1) && gm.road_live(r2));
    }
    assert forall|b2: usize| g1.inter_live(b2) implies #[trigger] g1.lights_ok_at(b2) by {
        assert(b2 != id);
        assert(g1.inter(b2) == gm.inter(b2));
        assert(gm.lights_ok_at(b2));
        assert forall|k: int| 0 <= k < g1.ins(b2).len() implies g1.node(
            (#[trigger] g1.ins(b2)[k]).1,
        ).light == expected_light(k, g1.ins(b2).len() as int) by {
            assert(g1.ins(b2) == gm.ins(b2));
            assert(gm.node(gm.ins(b2)[k].1).light == expected_light(
                k,
                gm.ins(b2).len() as int,
            ));
            assert(g1.node(g1.ins(b2)[k].1) == gm.node(gm.ins(b2)[k].1));
        }
    }
}

/// `m` appears among the lane-node values of the entry list.
pub open spec fn in_lane_list(s: Seq<(usize, usize)>, m: usize) -> bool {
    exists|k: int| 0 <= k < s.len() && (#[trigger] s[k]).1 == m
}

/// The core invariant survives any change that keeps the intersection side,
/// the road records, and the shape of the lane-node graph (liveness, edges),
/// as long as payloads stay bounded and their lights sound.
proof fn lemma_wf_core_nodes_same_shape(g0: RoadGraph, g1: RoadGraph)
    requires
        g0.wf_core(),
        g1.intersections == g0.intersections,
        g1.roads == g0.roads,
        g1.nodes.wf(),
        g1.nodes.n() == g0.nodes.n(),
        forall|m: usize| g1.node_live(m) == g0.node_live(m),
        forall|x: usize, y: usize| g1.nodes.has_edge(x, y) == g0.nodes.has_edge(x, y),
        forall|m: usize|
            g0.node_live(m) ==> in_bounds((#[trigger] g1.node(m)).pos, NODE_COORD_BOUND as int)
                && g1.node(m).light.wf(),
    ensures
        g1.wf_core(),
{
    lemma_same_inters(g0, g1);
    lemma_same_roads(g0, g1);
    assert forall|i: usize|
        g1.inter_live(i) implies (#[trigger] g1.inter(i)).in_nodes.wf() && g1.inter(
        i,
    ).out_nodes.wf() && in_bounds(g1.inter(i).pos, MAX_COORD as int) by {
        assert(g1.inter(i) == g0.inter(i));
        assert(g0.inter(i).in_nodes.wf() && g0.inter(i).out_nodes.wf() && in_bounds(
            g0.inter(i).pos,
            MAX_COORD as int,
        ));
    }
    assert forall|a: usize, k: int|
        g1.inter_live(a) && 0 <= k < g1.outs(a).len() implies {
            let b = (#[trigger] g1.outs(a)[k]).0;
            g1.inter_live(b) && b != a && g1.intersections.has_edge(a, b) && g1.inter(
                b,
            ).in_nodes.has_key(a) && g1.node_live(g1.outs(a)[k].1)
        } by {
        assert(g1.inter(a) == g0.inter(a));
        let b = g0.outs(a)[k].0;
        assert(g0.inter_live(b) && b != a && g0.intersections.has_edge(a, b) && g0.inter(
            b,
        ).in_nodes.has_key(a) && g0.node_live(g0.outs(a)[k].1));
        assert(g1.inter(b) == g0.inter(b));
    }
    assert forall|b: usize, k: int|
        g1.inter_live(b) && 0 <= k < g1.ins(b).len() implies {
            let a = (#[trigger] g1.ins(b)[k]).0;
            g1.inter_live(a) && a != b && g1.inter(a).out_nodes.has_key(b) && g1.node_live(
                g1.ins(b)[k].1,
            )
        } by {
        assert(g1.inter(b) == g0.inter(b));
        let a = g0.ins(b)[k].0;
        assert(g0.inter_live(a) && a != b && g0.inter(a).out_nodes.has_key(b) && g0.node_live(
            g0.ins(b)[k].1,
        ));
        assert(g1.inter(a) == g0.inter(a));
    }
    assert forall|a: usize, b: usize| #[trigger] g1.intersections.has_edge(a, b) implies g1.inter(
        a,
    ).out_nodes.has_key(b) by {
        assert(g0.intersections.has_edge(a, b));
        assert(g1.inter(a) == g0.inter(a));
    }
    assert forall|a: usize, b: usize| g1.connected(a, b) == g0.connected(a, b) by {
        if g0.inter_live(a) {
            assert(g1.inter(a) == g0.inter(a));
        }
    }
    assert forall|a: usize, b: usize| #[trigger] g1.connected(a, b) implies g1.out_lane(a, b)
        != g1.in_lane(a, b) && g1.nodes.has_edge(g1.out_lane(a, b), g1.in_lane(a, b)) by {
        assert(g1.inter(a) == g0.inter(a));
        assert(g1.inter(b) == g0.inter(b));
        assert(g0.connected(a, b));
        assert(g0.out_lane(a, b) != g0.in_lane(a, b) && g0.nodes.has_edge(
            g0.out_lane(a, b),
            g0.in_lane(a, b),
        ));
    }
    assert forall|m: usize, a: usize, b: usize|
        #[trigger] g1.owns_out(m, a, b) == g0.owns_out(m, a, b) by {
        if g0.inter_live(a) {
            assert(g1.inter(a) == g0.inter(a));
        }
    }
    assert forall|m: usize, a: usize, b: usize|
        #[trigger] g1.owns_in(m, a, b) == g0.owns_in(m, a, b) by {
        if g0.inter_live(b) {
            assert(g1.inter(b) == g0.inter(b));
        }
    }
    assert forall|m: usize| g1.node_live(m) implies in_bounds(
        (#[trigger] g1.node(m)).pos,
        NODE_COORD_BOUND as int,
    ) && g1.node(m).light.wf() by {
        assert(g0.node_live(m));
    }
    lemma_roads_side_transfer(g0, g1);
}

/// Two road records join the same unordered pair of intersections.
pub open spec fn same_pair(r1: Road, r2: Road) -> bool {
    (r1.src == r2.src && r1.dst == r2.dst) || (r1.src == r2.dst && r1.dst == r2.src)
}


/// Two aggregates with the same lane-node graph agree on everything said
/// about lane-nodes.
pub proof fn lemma_same_nodes(g0: RoadGraph, g1: RoadGraph)
    requires
        g1.nodes == g0.nodes,
    ensures
        forall|n: usize| g1.node_live(n) == g0.node_live(n),
        forall|n: usize| #[trigger] g1.node(n) == g0.node(n),
        forall|x: usize, y: usize| g1.nodes.has_edge(x, y) == g0.nodes.has_edge(x, y),
        g1.nodes.wf() == g0.nodes.wf(),
        g1.nodes.n() == g0.nodes.n(),
{
}

/// Two aggregates with the same intersection graph agree on everything said
/// about intersections.
pub proof fn lemma_same_inters(g0: RoadGraph, g1: RoadGraph)
    requires
        g1.intersections == g0.intersections,
    ensures
        forall|i: usize| g1.inter_live(i) == g0.inter_live(i),
        forall|i: usize| #[trigger] g1.inter(i) == g0.inter(i),
        forall|a: usize, b: usize|
            g1.intersections.has_edge(a, b) == g0.intersections.has_edge(a, b),
        g1.intersections.wf() == g0.intersections.wf(),
        g1.intersections.n() == g0.intersections.n(),
{
}

/// Two aggregates with the same road records agree on everything said about
/// roads.
pub proof fn lemma_same_roads(g0: RoadGraph, g1: RoadGraph)
    requires
        g1.roads == g0.roads,
    ensures
        forall|r: usize| g1.road_live(r) == g0.road_live(r),
        forall|r: usize| #[trigger] g1.road(r) == g0.road(r),
        g1.roads.wf() == g0.roads.wf(),
        g1.roads.n() == g0.roads.n(),
{
}

/// Transfers the lane-node side of the invariant when the lane-node graph is
/// untouched and the owning maps did not change their claims.
proof fn lemma_nodes_side_transfer(g0: RoadGraph, g1: RoadGraph)
    requires
        g0.nodes_own_ok(),
        g1.nodes == g0.nodes,
    ensures
        g1.nodes_own_ok(),
{
    lemma_same_nodes(g0, g1);
    assert forall|n: usize| g1.node_live(n) implies in_bounds(
        (#[trigger] g1.node(n)).pos,
        NODE_COORD_BOUND as int,
    ) && g1.node(n).light.wf() by {
        assert(g1.node(n) == g0.node(n));
        assert(g0.node_live(n));
        assert(in_bounds(g0.node(n).pos, NODE_COORD_BOUND as int) && g0.node(n).light.wf());
    }
}

/// Transfers the road-record side of the invariant when neither the records
/// nor the connection relation changed.
proof fn lemma_roads_side_transfer(g0: RoadGraph, g1: RoadGraph)
    requires
        g0.roads_ok(),
        g1.roads == g0.roads,
        forall|a: usize, b: usize| g1.connected(a, b) == g0.connected(a, b),
    ensures
        g1.roads_ok(),
{
    lemma_same_roads(g0, g1);
    assert forall|r: usize| #[trigger] g1.road_live(r) implies {
        let rd = g1.road(r);
        rd.src != rd.dst && g1.connected(rd.src, rd.dst) && g1.connected(rd.dst, rd.src)
            && rd.pattern.wf()
    } by {
        assert(g1.road(r) == g0.road(r));
        assert(g0.road_live(r));
        let rd = g0.road(r);
        assert(rd.src != rd.dst && g0.connected(rd.src, rd.dst) && g0.connected(rd.dst, rd.src)
            && rd.pattern.wf());
    }
    assert forall|r1: usize, r2: usize|
        g1.road_live(r1) && g1.road_live(r2) && r1 != r2 implies !same_pair(
        #[trigger] g1.road(r1),
        #[trigger] g1.road(r2),
    ) by {
        assert(g1.road(r1) == g0.road(r1) && g1.road(r2) == g0.road(r2));
        assert(g0.road_live(r1) && g0.road_live(r2));
    }
}

/// Adding a fresh, unconnected intersection preserves the invariant.
proof fn lemma_wf_inter_frame(g0: RoadGraph, g1: RoadGraph, id: usize)
    requires
        g0.wf(),
        g1.nodes == g0.nodes,
        g1.roads == g0.roads,
        g1.intersections.wf(),
        g1.inter_live(id),
        g1.inter(id).in_nodes.entries_seq().len() == 0,
        g1.inter(id).out_nodes.entries_seq().len() == 0,
        g1.inter(id).in_nodes.wf(),
        g1.inter(id).out_nodes.wf(),
        in_bounds(g1.inter(id).pos, MAX_COORD as int),
        forall|j: usize| j != id ==> g1.inter_live(j) == g0.inter_live(j),
        forall|j: usize| j != id && g0.inter_live(j) ==> g1.inter(j) == g0.inter(j),
        forall|a: usize, b: usize|
            g1.intersections.has_edge(a, b) == g0.intersections.has_edge(a, b),
        !g0.inter_live(id),
    ensures
        g1.wf(),
{
    assert forall|n: usize, a: usize, b: usize| #[trigger] g1.owns_out(n, a, b) implies g0.owns_out(
        n,
        a,
        b,
    ) by {
        if a == id {
            assert(g1.inter(id).out_nodes.spec_len() == 0);
            let w = g1.inter(id).out_nodes.key_at(b);
        }
        if a != id {
            assert(g1.inter(a) == g0.inter(a));
        }
    }
    assert forall|n: usize, a: usize, b: usize| #[trigger] g0.owns_out(n, a, b) implies g1.owns_out(
        n,
        a,
        b,
    ) by {
        assert(a != id);
        assert(g1.inter(a) == g0.inter(a));
    }
    assert forall|n: usize, a: usize, b: usize| #[trigger] g1.owns_in(n, a, b) implies g0.owns_in(
        n,
        a,
        b,
    ) by {
        if b == id {
            assert(g1.inter(id).in_nodes.spec_len() == 0);
            let w = g1.inter(id).in_nodes.key_at(a);
        }
        if b != id {
            assert(g1.inter(b) == g0.inter(b));
        }
    }
    assert forall|n: usize, a: usize, b: usize| #[trigger] g0.owns_in(n, a, b) implies g1.owns_in(
        n,
        a,
        b,
    ) by {
        assert(b != id);
        assert(g1.inter(b) == g0.inter(b));
    }
    assert forall|b: usize| g1.inter_live(b) implies #[trigger] g1.lights_ok_at(b) by {
        if b != id {
            assert(g1.inter(b) == g0.inter(b));
            assert(g0.lights_ok_at(b));
            assert forall|k: int| 0 <= k < g1.ins(b).len() implies g1.node(
                (#[trigger] g1.ins(b)[k]).1,
            ).light == expected_light(k, g1.ins(b).len() as int) by {
                assert(g1.ins(b) == g0.ins(b));
                assert(g0.node(g0.ins(b)[k].1).light == expected_light(
                    k,
                    g0.ins(b).len() as int,
                ));
            }
        } else {
            assert(g1.ins(id).len() == 0);
        }
    }
    assert forall|a: usize, b: usize| #[trigger] g1.connected(a, b) implies g0.connected(a, b)
        && g1.out_lane(a, b) == g0.out_lane(a, b) && g1.in_lane(a, b) == g0.in_lane(a, b) by {
        if a == id {
            assert(g1.inter(id).out_nodes.spec_len() == 0);
            let w = g1.inter(id).out_nodes.key_at(b);
        }
        assert(a != id);
        assert(g1.inter(a) == g0.inter(a));
        if b == id {
            assert(g1.intersections.has_edge(a, id) == g0.intersections.has_edge(a, id));
            assert(g0.connected(a, id) ==> g0.inter_live(id));
            assert(g0.mirror_ok());
            let k = g1.inter(a).out_nodes.key_at(id);
            assert(g0.outs(a)[k].0 == id);
            assert(g0.inter_live(id));
        }
        assert(b != id);
        assert(g1.inter(b) == g0.inter(b));
    }
    assert forall|a: usize, b: usize| #[trigger] g0.connected(a, b) implies g1.connected(a, b) by {
        assert(a != id && b != id);
        assert(g1.inter(a) == g0.inter(a));
    }
    assert forall|i: usize|
        g1.inter_live(i) implies (#[trigger] g1.inter(i)).in_nodes.wf() && g1.inter(
        i,
    ).out_nodes.wf() && in_bounds(g1.inter(i).pos, MAX_COORD as int) by {
        if i != id {
            assert(g1.inter(i) == g0.inter(i));
        }
    }
    assert forall|a: usize, k: int|
        g1.inter_live(a) && 0 <= k < g1.outs(a).len() implies {
            let b = (#[trigger] g1.outs(a)[k]).0;
            g1.inter_live(b) && b != a && g1.intersections.has_edge(a, b) && g1.inter(
                b,
            ).in_nodes.has_key(a) && g1.node_live(g1.outs(a)[k].1)
        } by {
        assert(a != id) by {
            if a == id {
                assert(g1.outs(id).len() == 0);
            }
        }
        assert(g1.inter(a) == g0.inter(a));
        let b = g0.outs(a)[k].0;
        assert(g0.inter_live(b));
        assert(b != id);
        assert(g1.inter(b) == g0.inter(b));
    }
    assert forall|b: usize, k: int|
        g1.inter_live(b) && 0 <= k < g1.ins(b).len() implies {
            let a = (#[trigger] g1.ins(b)[k]).0;
            g1.inter_live(a) && a != b && g1.inter(a).out_nodes.has_key(b) && g1.node_live(
                g1.ins(b)[k].1,
            )
        } by {
        assert(b != id) by {
            if b == id {
                assert(g1.ins(id).len() == 0);
            }
        }
        assert(g1.inter(b) == g0.inter(b));
        let a = g0.ins(b)[k].0;
        assert(g0.inter_live(a));
        assert(a != id);
        assert(g1.inter(a) == g0.inter(a));
    }
    assert forall|a: usize, b: usize| #[trigger] g1.intersections.has_edge(a, b) implies g1.inter(
        a,
    ).out_nodes.has_key(b) by {
        assert(g0.intersections.has_edge(a, b));
        assert(a != id);
        assert(g1.inter(a) == g0.inter(a));
    }
    assert forall|a: usize, b: usize| #[trigger] g1.connected(a, b) implies g1.out_lane(a, b)
        != g1.in_lane(a, b) && g1.nodes.has_edge(g1.out_lane(a, b), g1.in_lane(a, b)) by {
        assert(g0.connected(a, b));
        assert(g0.out_lane(a, b) != g0.in_lane(a, b));
    }
    lemma_same_nodes(g0, g1);
    lemma_same_roads(g0, g1);
    lemma_nodes_side_transfer(g0, g1);
    assert forall|a: usize, b: usize| g1.connected(a, b) == g0.connected(a, b) by {}
    lemma_roads_side_transfer(g0, g1);
    assert(g1.nodes.wf() && g1.intersections.wf() && g1.roads.wf());
    assert(g1.inters_own_ok());
    assert(g1.mirror_ok());
    assert(g1.lanes_ok());
    assert(g1.lanes_inj());
    assert(g1.nodes_own_ok());
    assert(g1.roads_ok());
    assert(g1.lights_ok());
}

/// Replacing an intersection payload without touching its maps preserves the
/// invariant (only the position or the render handle may change, and the
/// position stays bounded).
proof fn lemma_wf_after_inter_update(g0: RoadGraph, g1: RoadGraph, i: usize)
    requires
        g0.wf(),
        g0.inter_live(i),
        g1.nodes == g0.nodes,
        g1.roads == g0.roads,
        g1.intersections.wf(),
        g1.intersections.n() == g0.intersections.n(),
        forall|j: usize| g1.inter_live(j) == g0.inter_live(j),
        forall|j: usize| j != i && g0.inter_live(j) ==> g1.inter(j) == g0.inter(j),
        forall|a: usize, b: usize|
            g1.intersections.has_edge(a, b) == g0.intersections.has_edge(a, b),
        g1.inter(i).in_nodes.entries_seq() == g0.inter(i).in_nodes.entries_seq(),
        g1.inter(i).out_nodes.entries_seq() == g0.inter(i).out_nodes.entries_seq(),
        in_bounds(g1.inter(i).pos, MAX_COORD as int),
    ensures
        g1.wf(),
{
    assert forall|j: usize|
        g1.inter_live(j) implies (#[trigger] g1.inter(j)).in_nodes.entries_seq() == g0.inter(
        j,
    ).in_nodes.entries_seq() && g1.inter(j).out_nodes.entries_seq() == g0.inter(
        j,
    ).out_nodes.entries_seq() by {
        if j != i {
            assert(g1.inter(j) == g0.inter(j));
        }
    }
    assert forall|n: usize, a: usize, b: usize|
        #[trigger] g1.owns_out(n, a, b) == g0.owns_out(n, a, b) by {
        if g0.inter_live(a) {
            assert(g1.inter(a).out_nodes.entries_seq() == g0.inter(a).out_nodes.entries_seq());
        }
    }
    assert forall|n: usize, a: usize, b: usize|
        #[trigger] g1.owns_in(n, a, b) == g0.owns_in(n, a, b) by {
        if g0.inter_live(b) {
            assert(g1.inter(b).in_nodes.entries_seq() == g0.inter(b).in_nodes.entries_seq());
        }
    }
    assert forall|a: usize, b: usize| g1.connected(a, b) == g0.connected(a, b) by {
        if g0.inter_live(a) {
            assert(g1.inter(a).out_nodes.entries_seq() == g0.inter(a).out_nodes.entries_seq());
        }
    }
    assert forall|a: usize, b: usize| #[trigger] g1.connected(a, b) implies g1.out_lane(a, b)
        == g0.out_lane(a, b) && g1.in_lane(a, b) == g0.in_lane(a, b) by {
        assert(g1.inter(a).out_nodes.entries_seq() == g0.inter(a).out_nodes.entries_seq());
        assert(g1.inter(b).in_nodes.entries_seq() == g0.inter(b).in_nodes.entries_seq());
    }
    assert forall|a: usize, k: int|
        g1.inter_live(a) && 0 <= k < g1.outs(a).len() implies {
            let b = (#[trigger] g1.outs(a)[k]).0;
            g1.inter_live(b) && b != a && g1.intersections.has_edge(a, b) && g1.inter(
                b,
            ).in_nodes.has_key(a) && g1.node_live(g1.outs(a)[k].1)
        } by {
        assert(g1.outs(a) == g0.outs(a));
        let b = g0.outs(a)[k].0;
        assert(g0.inter_live(b) && b != a && g0.intersections.has_edge(a, b) && g0.inter(
            b,
        ).in_nodes.has_key(a) && g0.node_live(g0.outs(a)[k].1));
        assert(g1.inter(b).in_nodes.entries_seq() == g0.inter(b).in_nodes.entries_seq());
    }
    assert forall|b: usize, k: int|
        g1.inter_live(b) && 0 <= k < g1.ins(b).len() implies {
            let a = (#[trigger] g1.ins(b)[k]).0;
            g1.inter_live(a) && a != b && g1.inter(a).out_nodes.has_key(b) && g1.node_live(
                g1.ins(b)[k].1,
            )
        } by {
        assert(g1.ins(b) == g0.ins(b));
        let a = g0.ins(b)[k].0;
        assert(g0.inter_live(a) && a != b && g0.inter(a).out_nodes.has_key(b) && g0.node_live(
            g0.ins(b)[k].1,
        ));
        assert(g1.inter(a).out_nodes.entries_seq() == g0.inter(a).out_nodes.entries_seq());
    }
    assert forall|a: usize, b: usize| #[trigger] g1.intersections.has_edge(a, b) implies g1.inter(
        a,
    ).out_nodes.has_key(b) by {
        assert(g0.intersections.has_edge(a, b));
        assert(g1.inter(a).out_nodes.entries_seq() == g0.inter(a).out_nodes.entries_seq());
    }
    assert forall|a: usize, b: usize| #[trigger] g1.connected(a, b) implies g1.out_lane(a, b)
        != g1.in_lane(a, b) && g1.nodes.has_edge(g1.out_lane(a, b), g1.in_lane(a, b)) by {
        assert(g0.connected(a, b));
        assert(g0.out_lane(a, b) != g0.in_lane(a, b));
        lemma_same_nodes(g0, g1);
    }
    lemma_same_nodes(g0, g1);
    lemma_nodes_side_transfer(g0, g1);
    lemma_roads_side_transfer(g0, g1);
    assert forall|b: usize| g1.inter_live(b) implies #[trigger] g1.lights_ok_at(b) by {
        assert(g0.lights_ok_at(b));
        assert(g1.ins(b) == g0.ins(b));
        assert forall|k: int| 0 <= k < g1.ins(b).len() implies g1.node(
            (#[trigger] g1.ins(b)[k]).1,
        ).light == expected_light(k, g1.ins(b).len() as int) by {
            assert(g0.node(g0.ins(b)[k].1).light == expected_light(k, g0.ins(b).len() as int));
        }
    }
    assert forall|r: usize| #[trigger] g1.road_live(r) implies {
        let rd = g1.road(r);
        rd.src != rd.dst && g1.connected(rd.src, rd.dst) && g1.connected(rd.dst, rd.src)
            && rd.pattern.wf()
    } by {
        assert(g0.connected(g0.road(r).src, g0.road(r).dst));
    }
    assert(g1.nodes.wf() && g1.intersections.wf() && g1.roads.wf());
    assert(g1.inters_own_ok());
    assert(g1.mirror_ok());
    assert(g1.lanes_ok());
    assert(g1.lanes_inj());
    assert(g1.nodes_own_ok());
    assert(g1.roads_ok());
    assert(g1.lights_ok());
}

/// Replacing a lane-node payload with an equally bounded one, keeping its
/// light, preserves the invariant.
proof fn lemma_wf_after_node_update(g0: RoadGraph, g1: RoadGraph, n: usize)
    requires
        g0.wf(),
        g0.node_live(n),
        g1.intersections == g0.intersections,
        g1.roads == g0.roads,
        g1.nodes.wf(),
        g1.nodes.n() == g0.nodes.n(),
        forall|m: usize| g1.node_live(m) == g0.node_live(m),
        forall|m: usize| m != n && g0.node_live(m) ==> g1.node(m) == g0.node(m),
        forall|x: usize, y: usize| g1.nodes.has_edge(x, y) == g0.nodes.has_edge(x, y),
        in_bounds(g1.node(n).pos, NODE_COORD_BOUND as int),
        g1.node(n).light == g0.node(n).light,
    ensures
        g1.wf(),
{
    lemma_same_inters(g0, g1);
    lemma_same_roads(g0, g1);
    assert forall|i: usize|
        g1.inter_live(i) implies (#[trigger] g1.inter(i)).in_nodes.wf() && g1.inter(
        i,
    ).out_nodes.wf() && in_bounds(g1.inter(i).pos, MAX_COORD as int) by {
        assert(g1.inter(i) == g0.inter(i));
        assert(g0.inter(i).in_nodes.wf() && g0.inter(i).out_nodes.wf() && in_bounds(
            g0.inter(i).pos,
            MAX_COORD as int,
        ));
    }
    assert forall|a: usize, k: int|
        g1.inter_live(a) && 0 <= k < g1.outs(a).len() implies {
            let b = (#[trigger] g1.outs(a)[k]).0;
            g1.inter_live(b) && b != a && g1.intersections.has_edge(a, b) && g1.inter(
                b,
            ).in_nodes.has_key(a) && g1.node_live(g1.outs(a)[k].1)
        } by {
        assert(g1.inter(a) == g0.inter(a));
        let b = g0.outs(a)[k].0;
        assert(g0.inter_live(b) && b != a && g0.intersections.has_edge(a, b) && g0.inter(
            b,
        ).in_nodes.has_key(a) && g0.node_live(g0.outs(a)[k].1));
        assert(g1.inter(b) == g0.inter(b));
    }
    assert forall|b: usize, k: int|
        g1.inter_live(b) && 0 <= k < g1.ins(b).len() implies {
            let a = (#[trigger] g1.ins(b)[k]).0;
            g1.inter_live(a) && a != b && g1.inter(a).out_nodes.has_key(b) && g1.node_live(
                g1.ins(b)[k].1,
            )
        } by {
        assert(g1.inter(b) == g0.inter(b));
        let a = g0.ins(b)[k].0;
        assert(g0.inter_live(a) && a != b && g0.inter(a).out_nodes.has_key(b) && g0.node_live(
            g0.ins(b)[k].1,
        ));
        assert(g1.inter(a) == g0.inter(a));
    }
    assert forall|a: usize, b: usize| #[trigger] g1.intersections.has_edge(a, b) implies g1.inter(
        a,
    ).out_nodes.has_key(b) by {
        assert(g0.intersections.has_edge(a, b));
        assert(g1.inter(a) == g0.inter(a));
    }
    assert forall|a: usize, b: usize| g1.connected(a, b) == g0.connected(a, b) by {
        if g0.inter_live(a) {
            assert(g1.inter(a) == g0.inter(a));
        }
    }
    assert forall|a: usize, b: usize| #[trigger] g1.connected(a, b) implies g1.out_lane(a, b)
        != g1.in_lane(a, b) && g1.nodes.has_edge(g1.out_lane(a, b), g1.in_lane(a, b)) by {
        assert(g1.inter(a) == g0.inter(a));
        assert(g1.inter(b) == g0.inter(b));
        assert(g0.connected(a, b));
        assert(g0.out_lane(a, b) != g0.in_lane(a, b) && g0.nodes.has_edge(
            g0.out_lane(a, b),
            g0.in_lane(a, b),
        ));
    }
    assert forall|m: usize, a: usize, b: usize|
        #[trigger] g1.owns_out(m, a, b) == g0.owns_out(m, a, b) by {
        if g0.inter_live(a) {
            assert(g1.inter(a) == g0.inter(a));
        }
    }
    assert forall|m: usize, a: usize, b: usize|
        #[trigger] g1.owns_in(m, a, b) == g0.owns_in(m, a, b) by {
        if g0.inter_live(b) {
            assert(g1.inter(b) == g0.inter(b));
        }
    }
    lemma_roads_side_transfer(g0, g1);
    assert forall|m: usize| g1.node_live(m) implies in_bounds(
        (#[trigger] g1.node(m)).pos,
        NODE_COORD_BOUND as int,
    ) && g1.node(m).light.wf() by {
        if m != n {
            assert(g1.node(m) == g0.node(m));
        } else {
            assert(g0.node(n).light.wf());
        }
    }
    assert forall|b: usize| g1.inter_live(b) implies #[trigger] g1.lights_ok_at(b) by {
        assert(g0.lights_ok_at(b));
        assert forall|k: int| 0 <= k < g1.ins(b).len() implies g1.node(
            (#[trigger] g1.ins(b)[k]).1,
        ).light == expected_light(k, g1.ins(b).len() as int) by {
            let m = g1.ins(b)[k].1;
            assert(g0.node(m).light == expected_light(k, g0.ins(b).len() as int));
            if m != n {
                assert(g1.node(m) == g0.node(m));
            }
        }
    }
    assert(g1.nodes.wf() && g1.intersections.wf() && g1.roads.wf());
    assert(g1.inters_own_ok());
    assert(g1.mirror_ok());
    assert(g1.lanes_ok());
    assert(g1.lanes_inj());
    assert(g1.nodes_own_ok());
    assert(g1.roads_ok());
    assert(g1.lights_ok());
}

} // verus!

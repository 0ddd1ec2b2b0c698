//! The road-building edit layer as an explicit state machine: discrete input
//! events drive transitions, and a click on a compatible pair of projections
//! turns into graph mutations.

use crate::geom::{in_bounds, Vec2, MAX_COORD};
use crate::pattern::{LanePattern, LanePatternBuilder};
use crate::project::{MapProject, ProjectKind};
use crate::road_graph::{RoadGraph, RoadGraphError};
use vstd::prelude::*;

verus! {

/// Which editing tool is active.
#[derive(Clone, Copy, PartialEq, Eq, Structural, Debug)]
pub enum Tool {
    Hand,
    RoadbuildStraight,
    RoadbuildCurved,
}

/// Where the road-building interaction stands: idle, holding a first
/// endpoint, or holding a curve control point and a first endpoint.
#[derive(Clone, Copy, PartialEq, Eq, Structural, Debug)]
pub enum BuildState {
    Hover,
    Start(MapProject),
    Interpolation(Vec2, MapProject),
}

/// The state the edit layer carries between input events.
pub struct RoadBuildResource {
    pub build_state: BuildState,
    pub pattern_builder: LanePatternBuilder,
}

/// A stored projection still refers to live elements of `map` and sits
/// within the coordinate range.
pub open spec fn proj_ok(map: RoadGraph, p: MapProject) -> bool {
    map.proj_kind_valid(p.kind) && in_bounds(p.pos, MAX_COORD as int)
}

/// The pattern a builder produces.
pub open spec fn built_pattern(b: LanePatternBuilder) -> LanePattern {
    LanePattern {
        n_forward: b.n_forward,
        n_backward: b.n_backward,
        width: (((b.n_forward + b.n_backward) * b.lane_width) as i64),
    }
}

/// After a click from a held endpoint the interaction either recorded a
/// curve control point, moved on to the intersection the click produced, or
/// reset.
pub open spec fn step_outcome(
    map0: RoadGraph,
    map1: RoadGraph,
    s1: RoadBuildResource,
    sel: MapProject,
    mouse_pos: Vec2,
) -> bool {
    ||| (s1.build_state == BuildState::Interpolation(mouse_pos, sel) && map1 == map0)
    ||| (s1.build_state matches BuildState::Start(p2) && (p2.kind
        matches ProjectKind::Inter(i2) && map1.inter_live(i2) && p2.pos == map1.inter(i2).pos))
    ||| s1.build_state == BuildState::Hover
}

/// The build state never holds a stale projection.
pub open spec fn state_ok(map: RoadGraph, s: BuildState) -> bool {
    match s {
        BuildState::Hover => true,
        BuildState::Start(p) => proj_ok(map, p),
        BuildState::Interpolation(_, p) => proj_ok(map, p),
    }
}

impl RoadBuildResource {
    pub fn new() -> (r: RoadBuildResource)
        ensures
            r.build_state == BuildState::Hover,
            r.pattern_builder.wf(),
    {
        RoadBuildResource { build_state: BuildState::Hover, pattern_builder: LanePatternBuilder::new() }
    }
}

impl RoadGraph {
    /// Resolves a projection to an intersection id: a ground point gets a
    /// fresh intersection at the projected position, a projection onto an
    /// intersection names it directly with the graph untouched, and a
    /// projection onto a road splits that road at the projected position.
    pub fn resolve_endpoint(&mut self, p: MapProject) -> (r: Result<usize, RoadGraphError>)
        requires
            old(self).wf(),
            proj_ok(*old(self), p),
        ensures
            final(self).wf(),
            r is Err ==> *final(self) == *old(self),
            p.kind is Ground ==> r is Ok && (r.unwrap() as int) == old(self).intersections.n()
                && final(self).intersections.n() == old(self).intersections.n() + 1
                && final(self).inter_live(r.unwrap()) && final(self).inter(r.unwrap()).pos == p.pos
                && final(self).outs(r.unwrap()).len() == 0 && final(self).ins(r.unwrap()).len()
                == 0 && final(self).nodes == old(self).nodes && final(self).roads == old(
                self,
            ).roads && (forall|j: usize|
                j != r.unwrap() ==> final(self).inter_live(j) == old(self).inter_live(j)) && (
            forall|j: usize|
                j != r.unwrap() && old(self).inter_live(j) ==> final(self).inter(j) == old(
                    self,
                ).inter(j)),
            (p.kind matches ProjectKind::Inter(i) ==> r == Ok::<usize, RoadGraphError>(i)
                && *final(self) == *old(self)),
            (p.kind matches ProjectKind::Road(rd) ==> {
                &&& (r is Ok <==> (old(self).inter(old(self).road(rd).src).pos != p.pos && old(
                    self,
                ).inter(old(self).road(rd).dst).pos != p.pos))
                &&& (r is Ok ==> (r.unwrap() as int) == old(self).intersections.n()
                    && crate::road_graph::split_post(
                    *old(self),
                    *final(self),
                    rd,
                    p.pos,
                    r.unwrap(),
                ))
                &&& (r is Err ==> r == Err::<usize, RoadGraphError>(RoadGraphError::SamePosition))
            }),
    {
        proof {
            self.intersections.lemma_n_fits();
        }
        match p.kind {
            ProjectKind::Ground => Ok(self.add_intersection(p.pos)),
            ProjectKind::Inter(i) => Ok(i),
            ProjectKind::Road(rd) => self.split_road(rd, p.pos),
        }
    }

    /// Turns two compatible projections into a road: each endpoint is
    /// resolved to an intersection (creating or splitting as needed), then
    /// the two are connected with `pattern`.  On success the returned id is
    /// the intersection the `to` projection resolved to.
    pub fn make_connection(&mut self, from: MapProject, to: MapProject, pattern: LanePattern) -> (r:
        Result<usize, RoadGraphError>)
        requires
            old(self).wf(),
            proj_ok(*old(self), from),
            proj_ok(*old(self), to),
            old(self).spec_compatible(from.kind, to.kind),
            pattern.wf(),
        ensures
            final(self).wf(),
            r is Ok ==> final(self).inter_live(r.unwrap()),
            (to.kind matches ProjectKind::Inter(i) ==> (r is Ok ==> r.unwrap() == i)),
            (from.kind matches ProjectKind::Inter(f) ==> (to.kind matches ProjectKind::Inter(t)
                ==> {
                &&& (r is Ok <==> (old(self).inter(f).pos != old(self).inter(t).pos && !old(
                    self,
                ).connected(f, t) && !old(self).connected(t, f) && f != t))
                &&& (r is Ok ==> r == Ok::<usize, RoadGraphError>(t)
                    && crate::road_graph::connect_post(*old(self), *final(self), f, t, pattern))
            })),
            from.kind is Ground && to.kind is Ground ==> {
                &&& (r is Ok <==> from.pos != to.pos)
                &&& (r is Ok ==> (r.unwrap() as int) == old(self).intersections.n() + 1
                    && final(self).inter_live(r.unwrap())
                    && final(self).inter(r.unwrap()).pos == to.pos
                    && final(self).inter(((old(self).intersections.n()) as usize)).pos == from.pos
                    && final(self).connected(((old(self).intersections.n()) as usize), r.unwrap())
                    && final(self).connected(r.unwrap(), ((old(self).intersections.n()) as usize)))
            },
    {
        proof {
            self.intersections.lemma_n_fits();
        }
        let from_id = match self.resolve_endpoint(from) {
            Ok(i) => i,
            Err(e) => {
                return Err(e);
            },
        };
        let ghost gm1 = *self;
        proof {
            assert(proj_ok(gm1, to)) by {
                match to.kind {
                    ProjectKind::Ground => {},
                    ProjectKind::Inter(i) => {
                        assert(old(self).inter_live(i));
                        match from.kind {
                            ProjectKind::Ground => {
                                assert((from_id as int) == old(self).intersections.n());
                                old(self).intersections.lemma_live_bound(i);
                                assert(gm1.inter_live(i) == old(self).inter_live(i));
                            },
                            ProjectKind::Inter(_) => {},
                            ProjectKind::Road(rd1) => {
                                assert((from_id as int) == old(self).intersections.n());
                                old(self).intersections.lemma_live_bound(i);
                                assert(gm1.inter_live(i) == old(self).inter_live(i));
                            },
                        }
                    },
                    ProjectKind::Road(rd) => {
                        assert(old(self).road_live(rd));
                        match from.kind {
                            ProjectKind::Ground => {
                                assert(gm1.roads == old(self).roads);
                                crate::road_graph::lemma_same_roads(*old(self), gm1);
                            },
                            ProjectKind::Inter(_) => {},
                            ProjectKind::Road(rd1) => {
                                assert(rd1 != rd);
                                old(self).roads.lemma_live_bound(rd);
                                assert(gm1.road_live(rd) && gm1.road(rd) == old(self).road(rd));
                            },
                        }
                    },
                }
            }
        }
        let to_id = match self.resolve_endpoint(to) {
            Ok(i) => i,
            Err(e) => {
                return Err(e);
            },
        };
        let ghost gm2 = *self;
        if !self.intersections.is_live(from_id) || !self.intersections.is_live(to_id) {
            return Err(RoadGraphError::NotFound);
        }
        match self.connect(from_id, to_id, pattern) {
            Ok(_) => {
                proof {
                    let g1 = *self;
                    if from.kind is Ground && to.kind is Ground {
                        assert((to_id as int) == old(self).intersections.n() + 1);
                        assert(gm2.inter(from_id).pos == from.pos) by {
                            assert(gm1.inter(from_id).pos == from.pos);
                            assert(from_id != to_id);
                            assert(gm2.inter(from_id) == gm1.inter(from_id));
                        }
                        lemma_connect_unpack_for_make(gm2, g1, from_id, to_id, pattern);
                    }
                }
                Ok(to_id)
            },
            Err(e) => {
                proof {
                    if from.kind is Ground && to.kind is Ground {
                        assert(gm2.inter(from_id).pos == from.pos) by {
                            assert(gm1.inter(from_id).pos == from.pos);
                            assert(from_id != to_id);
                            assert(gm2.inter(from_id) == gm1.inter(from_id));
                        }
                        assert(gm2.inter(to_id).pos == to.pos);
                        assert(!gm2.connected(from_id, to_id)) by {
                            if gm2.inter(from_id).out_nodes.has_key(to_id) {
                                let w = gm2.inter(from_id).out_nodes.key_at(to_id);
                                assert(gm2.outs(from_id)[w].0 == to_id);
                                assert(gm1.outs(from_id).len() == 0);
                                assert(gm2.outs(from_id) == gm1.outs(from_id));
                            }
                        }
                        assert(!gm2.connected(to_id, from_id)) by {
                            if gm2.inter(to_id).out_nodes.has_key(from_id) {
                                let w = gm2.inter(to_id).out_nodes.key_at(from_id);
                                assert(gm2.outs(to_id)[w].0 == from_id);
                                assert(gm2.outs(to_id).len() == 0);
                            }
                        }
                        assert(from.pos == to.pos);
                    }
                }
                Err(e)
            },
        }
    }

    /// One step of the road-building interaction: `tool` is the active tool,
    /// `escape` and `left_click` the input events of this step, and
    /// `mouse_proj` the projection of the pointer computed for the current
    /// graph.  Any other tool resets the interaction and leaves the graph
    /// untouched; escape resets it too; a click either picks the first
    /// endpoint, records a curve control point, or completes a connection.
    pub fn roadbuild_step(
        &mut self,
        state: &mut RoadBuildResource,
        tool: Tool,
        escape: bool,
        left_click: bool,
        mouse_pos: Vec2,
        mouse_proj: MapProject,
    )
        requires
            old(self).wf(),
            state_ok(*old(self), old(state).build_state),
            old(state).pattern_builder.wf(),
            proj_ok(*old(self), mouse_proj),
        ensures
            final(self).wf(),
            state_ok(*final(self), final(state).build_state),
            final(state).pattern_builder == old(state).pattern_builder,
            !(tool == Tool::RoadbuildStraight || tool == Tool::RoadbuildCurved)
                ==> final(state).build_state == BuildState::Hover && *final(self) == *old(self),
            (tool == Tool::RoadbuildStraight || tool == Tool::RoadbuildCurved) && escape
                ==> final(state).build_state == BuildState::Hover && *final(self) == *old(self),
            (tool == Tool::RoadbuildStraight || tool == Tool::RoadbuildCurved) && !escape
                && !left_click ==> *final(self) == *old(self)
                && final(state).build_state == old(state).build_state,
            (tool == Tool::RoadbuildStraight || tool == Tool::RoadbuildCurved) && !escape
                && left_click && old(state).build_state == BuildState::Hover
                ==> final(state).build_state == BuildState::Start(mouse_proj) && *final(self)
                == *old(self),
            (tool == Tool::RoadbuildStraight || tool == Tool::RoadbuildCurved) && !escape
                && left_click ==> (old(state).build_state matches BuildState::Start(sel)
                ==> step_outcome(*old(self), *final(self), *final(state), sel, mouse_pos)),
            (tool == Tool::RoadbuildStraight || tool == Tool::RoadbuildCurved) && !escape
                && left_click ==> (old(state).build_state matches BuildState::Interpolation(
                cp,
                sel,
            ) ==> step_outcome(*old(self), *final(self), *final(state), sel, mouse_pos)),
            (tool == Tool::RoadbuildStraight || tool == Tool::RoadbuildCurved) && !escape
                && left_click ==> (old(state).build_state matches BuildState::Start(sel) ==> (
            sel.kind matches ProjectKind::Inter(f) ==> (mouse_proj.kind
                matches ProjectKind::Inter(t) ==> ((f != t && old(self).inter(f).pos != old(
                self,
            ).inter(t).pos && !old(self).connected(f, t) && !old(self).connected(t, f))
                ==> crate::road_graph::connect_post(
                *old(self),
                *final(self),
                f,
                t,
                built_pattern(old(state).pattern_builder),
            ) && final(state).build_state == BuildState::Start(
                MapProject { pos: final(self).inter(t).pos, kind: ProjectKind::Inter(t) },
            ))))),
    {
        match tool {
            Tool::RoadbuildStraight | Tool::RoadbuildCurved => {},
            _ => {
                state.build_state = BuildState::Hover;
                return ;
            },
        }
        if escape {
            state.build_state = BuildState::Hover;
            return ;
        }
        if !left_click {
            return ;
        }
        let cur = state.build_state;
        match cur {
            BuildState::Hover => {
                state.build_state = BuildState::Start(mouse_proj);
            },
            BuildState::Start(selected) => {
                let curved = match tool {
                    Tool::RoadbuildCurved => true,
                    _ => false,
                };
                let on_ground = match mouse_proj.kind {
                    ProjectKind::Ground => true,
                    _ => false,
                };
                if curved && on_ground {
                    state.build_state = BuildState::Interpolation(mouse_pos, selected);
                } else if self.compatible(selected.kind, mouse_proj.kind) {
                    let pattern = state.pattern_builder.build();
                    match self.make_connection(selected, mouse_proj, pattern) {
                        Ok(after) => {
                            let pos = match self.intersections.get(after) {
                                Some(c) => c.pos,
                                None => {
                                    proof {
                                        assert(false);
                                    }
                                    mouse_pos
                                },
                            };
                            proof {
                                assert(self.inter_live(after));
                                assert(pos == self.inter(after).pos);
                                assert(in_bounds(self.inter(after).pos, MAX_COORD as int));
                            }
                            state.build_state = BuildState::Start(
                                MapProject { pos, kind: ProjectKind::Inter(after) },
                            );
                        },
                        Err(_) => {
                            state.build_state = BuildState::Hover;
                        },
                    }
                } else {
                    state.build_state = BuildState::Hover;
                }
            },
            BuildState::Interpolation(_, selected) => {
                if self.compatible(selected.kind, mouse_proj.kind) {
                    let pattern = state.pattern_builder.build();
                    match self.make_connection(selected, mouse_proj, pattern) {
                        Ok(after) => {
                            let pos = match self.intersections.get(after) {
                                Some(c) => c.pos,
                                None => {
                                    proof {
                                        assert(false);
                                    }
                                    mouse_pos
                                },
                            };
                            proof {
                                assert(self.inter_live(after));
                                assert(pos == self.inter(after).pos);
                                assert(in_bounds(self.inter(after).pos, MAX_COORD as int));
                            }
                            state.build_state = BuildState::Start(
                                MapProject { pos, kind: ProjectKind::Inter(after) },
                            );
                        },
                        Err(_) => {
                            state.build_state = BuildState::Hover;
                        },
                    }
                } else {
                    state.build_state = BuildState::Hover;
                }
            },
        }
    }
}

/// Unpacks the connection facts `make_connection` promises for two freshly
/// created ground endpoints.
proof fn lemma_connect_unpack_for_make(
    gm2: RoadGraph,
    g1: RoadGraph,
    f: usize,
    t: usize,
    pattern: LanePattern,
)
    requires
        gm2.wf(),
        gm2.inter_live(f),
        gm2.inter_live(t),
        f != t,
        !gm2.connected(f, t),
        !gm2.connected(t, f),
        crate::road_graph::connect_post(gm2, g1, f, t, pattern),
    ensures
        g1.connected(f, t) && g1.connected(t, f),
        g1.inter_live(f) && g1.inter_live(t),
        g1.inter(f).pos == gm2.inter(f).pos,
        g1.inter(t).pos == gm2.inter(t).pos,
{
    crate::road_graph::lemma_connect_post_facts(gm2, g1, f, t, pattern);
}

} // verus!

//! Point projection: classifying an arbitrary world point against the
//! current graph as on an intersection, on a road, or on open ground.

use crate::geom::{dist2, dist2_exec, in_bounds, snap_on_segment, snap_to_segment, Vec2, MAX_COORD};
use crate::road_graph::RoadGraph;
use vstd::prelude::*;

verus! {

/// Points within this distance of an intersection center project onto the
/// intersection (5 units).
pub const INTER_PROJ_RADIUS: i64 = 5_000;

/// What a projected point landed on.
#[derive(Clone, Copy, PartialEq, Eq, Structural, Debug)]
pub enum ProjectKind {
    Ground,
    Road(usize),
    Inter(usize),
}

/// A snapped point together with what it lies on.  The result is only
/// meaningful for the graph state it was computed against: deleting the
/// referenced element invalidates it.
#[derive(Clone, Copy, PartialEq, Eq, Structural, Debug)]
pub struct MapProject {
    pub pos: Vec2,
    pub kind: ProjectKind,
}

/// Squared distance from `p` to the point `(qx, qy)`.
pub open spec fn dist2_pt(p: Vec2, qx: int, qy: int) -> int {
    (p.x - qx) * (p.x - qx) + (p.y - qy) * (p.y - qy)
}

/// `p` lies within the projection radius of intersection `i`.
pub open spec fn inter_hit(g: RoadGraph, p: Vec2, i: usize) -> bool {
    g.inter_live(i) && dist2(p, g.inter(i).pos) <= INTER_PROJ_RADIUS * INTER_PROJ_RADIUS
}

/// Where `p` snaps onto the centerline of road `r`.
pub open spec fn road_snap(g: RoadGraph, p: Vec2, r: usize) -> (int, int) {
    snap_to_segment(p, g.inter(g.road(r).src).pos, g.inter(g.road(r).dst).pos)
}

/// Half the road's width, squared: the corridor threshold.
pub open spec fn road_thresh(g: RoadGraph, r: usize) -> int {
    let h = g.road(r).pattern.width as int / 2;
    h * h
}

/// Squared distance from `p` to its snap point on road `r`.
pub open spec fn road_d2(g: RoadGraph, p: Vec2, r: usize) -> int {
    dist2_pt(p, road_snap(g, p, r).0, road_snap(g, p, r).1)
}

/// `p` lies within the corridor of road `r`.
pub open spec fn road_hit(g: RoadGraph, p: Vec2, r: usize) -> bool {
    g.road_live(r) && road_d2(g, p, r) <= road_thresh(g, r)
}

/// `i` is the intersection `p` projects onto: the closest hit, ties going to
/// the smallest id.
pub open spec fn best_inter(g: RoadGraph, p: Vec2, i: usize) -> bool {
    &&& inter_hit(g, p, i)
    &&& forall|j: usize|
        #[trigger] g.inter_live(j) && inter_hit(g, p, j) ==> dist2(p, g.inter(i).pos) <= dist2(
            p,
            g.inter(j).pos,
        )
    &&& forall|j: usize|
        #[trigger] g.inter_live(j) && inter_hit(g, p, j) && (j as int) < (i as int) ==> dist2(
            p,
            g.inter(j).pos,
        ) > dist2(p, g.inter(i).pos)
}

/// `r` is the road `p` projects onto: the closest corridor hit, ties going to
/// the smallest id.
pub open spec fn best_road(g: RoadGraph, p: Vec2, r: usize) -> bool {
    &&& road_hit(g, p, r)
    &&& forall|r2: usize|
        #[trigger] g.road_live(r2) && road_hit(g, p, r2) ==> road_d2(g, p, r) <= road_d2(g, p, r2)
    &&& forall|r2: usize|
        #[trigger] g.road_live(r2) && road_hit(g, p, r2) && (r2 as int) < (r as int) ==> road_d2(
            g,
            p,
            r2,
        ) > road_d2(g, p, r)
}

impl RoadGraph {
    /// Classifies `p` against the current graph, in priority order: the
    /// closest intersection within `INTER_PROJ_RADIUS`, else the closest road
    /// whose corridor (half its width around the centerline) contains `p`,
    /// else open ground with the point unchanged.
    pub fn project(&self, p: Vec2) -> (r: MapProject)
        requires
            self.wf(),
            in_bounds(p, MAX_COORD as int),
        ensures
            match r.kind {
                ProjectKind::Inter(i) => best_inter(*self, p, i) && r.pos == self.inter(i).pos,
                ProjectKind::Road(rd) => (forall|i: usize| !inter_hit(*self, p, i)) && best_road(
                    *self,
                    p,
                    rd,
                ) && (r.pos.x as int, r.pos.y as int) == road_snap(*self, p, rd),
                ProjectKind::Ground => (forall|i: usize| !inter_hit(*self, p, i)) && (forall|
                    rd: usize,
                |
                    !road_hit(*self, p, rd)) && r.pos == p,
            },
    {
        let radius2: i128 = (INTER_PROJ_RADIUS as i128) * (INTER_PROJ_RADIUS as i128);
        let n_i = self.intersections.id_bound();
        let mut besti: Option<usize> = None;
        let mut besti_d2: i128 = 0;
        let mut i: usize = 0;
        while i < n_i
            invariant
                self.wf(),
                in_bounds(p, MAX_COORD as int),
                radius2 == (INTER_PROJ_RADIUS * INTER_PROJ_RADIUS) as int,
                n_i as int == self.intersections.n(),
                0 <= i <= n_i,
                match besti {
                    Some(bi) => inter_hit(*self, p, bi) && (bi as int) < i && besti_d2 == dist2(
                        p,
                        self.inter(bi).pos,
                    ) && (forall|j: usize|
                        #[trigger] self.inter_live(j) && inter_hit(*self, p, j) && (j as int) < i
                            ==> besti_d2 <= dist2(p, self.inter(j).pos)) && (forall|j: usize|
                        #[trigger] self.inter_live(j) && inter_hit(*self, p, j) && (j as int) < (
                        bi as int) ==> dist2(p, self.inter(j).pos) > besti_d2),
                    None => forall|j: usize| (j as int) < i ==> !inter_hit(*self, p, j),
                },
            decreases n_i - i,
        {
            match self.intersections.get(i) {
                Some(c) => {
                    proof {
                        assert(self.inter_live(i));
                        assert(in_bounds(self.inter(i).pos, MAX_COORD as int));
                        assert(in_bounds(c.pos, 4_000_000_000) && in_bounds(p, 4_000_000_000));
                    }
                    let d2 = dist2_exec(p, c.pos);
                    if d2 <= radius2 {
                        match besti {
                            Some(_) => {
                                if d2 < besti_d2 {
                                    besti = Some(i);
                                    besti_d2 = d2;
                                }
                            },
                            None => {
                                besti = Some(i);
                                besti_d2 = d2;
                            },
                        }
                    }
                },
                None => {},
            }
            i = i + 1;
        }
        match besti {
            Some(bi) => {
                let pos = match self.intersections.get(bi) {
                    Some(c) => c.pos,
                    None => {
                        proof {
                            assert(false);
                        }
                        p
                    },
                };
                proof {
                    assert forall|j: usize|
                        #[trigger] self.inter_live(j) && inter_hit(*self, p, j) implies besti_d2
                            <= dist2(p, self.inter(j).pos) by {
                        self.intersections.lemma_live_bound(j);
                    }
                }
                return MapProject { pos, kind: ProjectKind::Inter(bi) };
            },
            None => {
                proof {
                    assert forall|j: usize| !inter_hit(*self, p, j) by {
                        self.intersections.lemma_live_bound(j);
                    }
                }
            },
        }
        let n_r = self.roads.id_bound();
        let mut bestr: Option<usize> = None;
        let mut bestr_d2: i128 = 0;
        let mut bestr_pos: Vec2 = p;
        let mut rr: usize = 0;
        while rr < n_r
            invariant
                self.wf(),
                in_bounds(p, MAX_COORD as int),
                n_r as int == self.roads.n(),
                0 <= rr <= n_r,
                match bestr {
                    Some(br) => road_hit(*self, p, br) && (br as int) < rr && bestr_d2 == road_d2(
                        *self,
                        p,
                        br,
                    ) && (bestr_pos.x as int, bestr_pos.y as int) == road_snap(*self, p, br) && (
                    forall|r2: usize|
                        #[trigger] self.road_live(r2) && road_hit(*self, p, r2) && (r2 as int) < rr
                            ==> bestr_d2 <= road_d2(*self, p, r2)) && (forall|r2: usize|
                        #[trigger] self.road_live(r2) && road_hit(*self, p, r2) && (r2 as int) < (
                        br as int) ==> road_d2(*self, p, r2) > bestr_d2),
                    None => forall|r2: usize| (r2 as int) < rr ==> !road_hit(*self, p, r2),
                },
            decreases n_r - rr,
        {
            match self.roads.get(rr) {
                Some(rd) => {
                    proof {
                        assert(self.road_live(rr));
                        assert(*rd == self.road(rr));
                        let rdd = self.road(rr);
                        assert(rdd.src != rdd.dst && self.connected(rdd.src, rdd.dst)
                            && self.connected(rdd.dst, rdd.src) && rdd.pattern.wf());
                        assert(self.inter_live(rd.src) && self.inter_live(rd.dst));
                        assert(in_bounds(self.inter(rd.src).pos, MAX_COORD as int));
                        assert(in_bounds(self.inter(rd.dst).pos, MAX_COORD as int));
                    }
                    let ps = match self.intersections.get(rd.src) {
                        Some(c) => c.pos,
                        None => {
                            proof {
                                assert(false);
                            }
                            p
                        },
                    };
                    let pd = match self.intersections.get(rd.dst) {
                        Some(c) => c.pos,
                        None => {
                            proof {
                                assert(false);
                            }
                            p
                        },
                    };
                    let sp = snap_on_segment(p, ps, pd);
                    proof {
                        assert(in_bounds(sp, 4_000_000_000) && in_bounds(p, 4_000_000_000));
                    }
                    let d2 = dist2_exec(p, sp);
                    let hw: i128 = (rd.pattern.width as i128) / 2;
                    proof {
                        assert(0 < rd.pattern.width <= 20_000_000);
                        assert(hw as int == rd.pattern.width as int / 2);
                        assert(0 <= hw <= 10_000_000);
                        assert(hw as int * hw as int <= 100_000_000_000_000int
                            * 1_000_000_000_000_000_000int) by (nonlinear_arith)
                            requires
                                0 <= hw as int <= 10_000_000,
                        {
                        }
                    }
                    let thr: i128 = hw * hw;
                    proof {
                        assert(thr as int == road_thresh(*self, rr)) by {
                            assert((sp.x as int, sp.y as int) == road_snap(*self, p, rr));
                        }
                        assert(d2 as int == road_d2(*self, p, rr));
                    }
                    if d2 <= thr {
                        match bestr {
                            Some(_) => {
                                if d2 < bestr_d2 {
                                    bestr = Some(rr);
                                    bestr_d2 = d2;
                                    bestr_pos = sp;
                                }
                            },
                            None => {
                                bestr = Some(rr);
                                bestr_d2 = d2;
                                bestr_pos = sp;
                            },
                        }
                    }
                },
                None => {},
            }
            rr = rr + 1;
        }
        match bestr {
            Some(br) => {
                proof {
                    assert forall|r2: usize|
                        #[trigger] self.road_live(r2) && road_hit(*self, p, r2) implies bestr_d2
                            <= road_d2(*self, p, r2) by {
                        self.roads.lemma_live_bound(r2);
                    }
                }
                MapProject { pos: bestr_pos, kind: ProjectKind::Road(br) }
            },
            None => {
                proof {
                    assert forall|r2: usize| !road_hit(*self, p, r2) by {
                        self.roads.lemma_live_bound(r2);
                    }
                }
                MapProject { pos: p, kind: ProjectKind::Ground }
            },
        }
    }

    /// A projection's reference is still a live element of this graph.
    pub open spec fn proj_kind_valid(self, k: ProjectKind) -> bool {
        match k {
            ProjectKind::Ground => true,
            ProjectKind::Road(r) => self.road_live(r),
            ProjectKind::Inter(i) => self.inter_live(i),
        }
    }

    /// Two projections may serve as the endpoints of a new connection unless
    /// they resolve to the same element, or one is an intersection and the
    /// other a road already ending there.  Ground pairs with anything.
    pub open spec fn spec_compatible(self, x: ProjectKind, y: ProjectKind) -> bool {
        match (x, y) {
            (ProjectKind::Ground, _) => true,
            (_, ProjectKind::Ground) => true,
            (ProjectKind::Road(r1), ProjectKind::Road(r2)) => r1 != r2,
            (ProjectKind::Inter(i1), ProjectKind::Inter(i2)) => i1 != i2,
            (ProjectKind::Inter(i), ProjectKind::Road(r)) => self.road(r).src != i && self.road(
                r,
            ).dst != i,
            (ProjectKind::Road(r), ProjectKind::Inter(i)) => self.road(r).src != i && self.road(
                r,
            ).dst != i,
        }
    }

    /// Computes whether two projections are compatible connection endpoints.
    pub fn compatible(&self, x: ProjectKind, y: ProjectKind) -> (r: bool)
        requires
            self.wf(),
            self.proj_kind_valid(x),
            self.proj_kind_valid(y),
        ensures
            r == self.spec_compatible(x, y),
    {
        match (x, y) {
            (ProjectKind::Ground, _) => true,
            (_, ProjectKind::Ground) => true,
            (ProjectKind::Road(r1), ProjectKind::Road(r2)) => r1 != r2,
            (ProjectKind::Inter(i1), ProjectKind::Inter(i2)) => i1 != i2,
            (ProjectKind::Inter(i), ProjectKind::Road(rd)) | (
                ProjectKind::Road(rd),
                ProjectKind::Inter(i),
            ) => {
                match self.roads.get(rd) {
                    Some(road) => road.src != i && road.dst != i,
                    None => {
                        proof {
                            assert(false);
                        }
                        false
                    },
                }
            },
        }
    }
}

} // verus!

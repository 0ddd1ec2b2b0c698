//! A directed graph arena, generic over the node payload.
//!
//! Nodes live in a slot vector and keep their id for their whole life; an id
//! is never reused while its node lives (in fact never at all).  Each node
//! carries its forward edge list and a derived backward index, so removing a
//! node can drop every edge that mentions it without a full scan.

use vstd::prelude::*;

verus! {

/// A weighted directed edge, stored on its source node.
#[derive(Clone, Copy, PartialEq, Eq, Structural, Debug)]
pub struct Edge {
    pub to: usize,
    pub weight: i64,
}

/// No two edges of the list lead to the same node.
pub open spec fn distinct_tos(s: Seq<Edge>) -> bool {
    forall|k1: int, k2: int|
        0 <= k1 < k2 < s.len() ==> (#[trigger] s[k1]).to != (#[trigger] s[k2]).to
}

/// All entries of the list differ.
pub open spec fn distinct_ids(s: Seq<usize>) -> bool {
    forall|k1: int, k2: int| 0 <= k1 < k2 < s.len() ==> #[trigger] s[k1] != #[trigger] s[k2]
}

/// Some edge of the list leads to `b`.
pub open spec fn seq_has_to(s: Seq<Edge>, b: usize) -> bool {
    exists|k: int| 0 <= k < s.len() && (#[trigger] s[k]).to == b
}

/// The list mentions `x`.
pub open spec fn seq_has_id(s: Seq<usize>, x: usize) -> bool {
    exists|k: int| 0 <= k < s.len() && #[trigger] s[k] == x
}

/// Replaces the element `i` of a vector.
fn vec_set<U>(v: &mut Vec<U>, i: usize, x: U)
    requires
        i < old(v)@.len(),
    ensures
        final(v)@ == old(v)@.update(i as int, x),
{
    let slot = &mut v[i];
    *slot = x;
}

/// Appends `x` to row `i` of a grid.
fn grid_push<U>(v: &mut Vec<Vec<U>>, i: usize, x: U)
    requires
        i < old(v)@.len(),
    ensures
        final(v)@.len() == old(v)@.len(),
        final(v)@[i as int]@ == old(v)@[i as int]@.push(x),
        forall|j: int| 0 <= j < old(v)@.len() && j != i ==> final(v)@[j] == old(v)@[j],
{
    let row = &mut v[i];
    row.push(x);
}

/// Replaces element `k` of row `i` of a grid.
fn grid_set<U>(v: &mut Vec<Vec<U>>, i: usize, k: usize, x: U)
    requires
        i < old(v)@.len(),
        k < old(v)@[i as int]@.len(),
    ensures
        final(v)@.len() == old(v)@.len(),
        final(v)@[i as int]@ == old(v)@[i as int]@.update(k as int, x),
        forall|j: int| 0 <= j < old(v)@.len() && j != i ==> final(v)@[j] == old(v)@[j],
{
    let row = &mut v[i];
    let slot = &mut row[k];
    *slot = x;
}

/// Removes element `k` of row `i` of a grid, keeping the order of the rest.
fn grid_remove<U>(v: &mut Vec<Vec<U>>, i: usize, k: usize)
    requires
        i < old(v)@.len(),
        k < old(v)@[i as int]@.len(),
    ensures
        final(v)@.len() == old(v)@.len(),
        final(v)@[i as int]@ == old(v)@[i as int]@.remove(k as int),
        forall|j: int| 0 <= j < old(v)@.len() && j != i ==> final(v)@[j] == old(v)@[j],
{
    let row = &mut v[i];
    row.remove(k);
}

/// Takes row `i` of a grid out, leaving an empty row.
fn grid_take<U>(v: &mut Vec<Vec<U>>, i: usize) -> (r: Vec<U>)
    requires
        i < old(v)@.len(),
    ensures
        final(v)@.len() == old(v)@.len(),
        final(v)@[i as int]@ == Seq::<U>::empty(),
        r@ == old(v)@[i as int]@,
        forall|j: int| 0 <= j < old(v)@.len() && j != i ==> final(v)@[j] == old(v)@[j],
{
    let row = &mut v[i];
    let mut out: Vec<U> = Vec::new();
    core::mem::swap(row, &mut out);
    out
}

/// The directed graph arena.
pub struct Graph<T> {
    nodes: Vec<Option<T>>,
    fwd: Vec<Vec<Edge>>,
    back: Vec<Vec<usize>>,
}

impl<T> Graph<T> {
    /// One more than the largest id ever issued.
    pub closed spec fn n(self) -> int {
        self.nodes@.len() as int
    }

    /// `i` is the id of a live node.
    pub closed spec fn live(self, i: usize) -> bool {
        i < self.nodes@.len() && self.nodes@[i as int] is Some
    }

    /// The payload of live node `i`.
    pub closed spec fn payload(self, i: usize) -> T {
        self.nodes@[i as int].unwrap()
    }

    /// The forward edge list of node `i`.
    pub closed spec fn adj(self, i: usize) -> Seq<Edge> {
        self.fwd@[i as int]@
    }

    /// The backward index of node `i`: the sources of its incoming edges.
    pub closed spec fn back_seq(self, i: usize) -> Seq<usize> {
        self.back@[i as int]@
    }

    /// The edge `a -> b` exists.
    pub open spec fn has_edge(self, a: usize, b: usize) -> bool {
        self.live(a) && self.live(b) && seq_has_to(self.adj(a), b)
    }

    /// Position of the edge `a -> b` in `a`'s edge list.
    pub open spec fn edge_at(self, a: usize, b: usize) -> int {
        choose|k: int| 0 <= k < self.adj(a).len() && (#[trigger] self.adj(a)[k]).to == b
    }

    /// Weight of the edge `a -> b`.
    pub open spec fn edge_weight(self, a: usize, b: usize) -> i64 {
        self.adj(a)[self.edge_at(a, b)].weight
    }

    /// Every structural invariant of the arena: dead slots have no edge rows,
    /// edges point at live nodes, rows hold no duplicates, and the backward
    /// index mirrors the forward lists exactly.
    pub closed spec fn wf(self) -> bool {
        &&& self.fwd@.len() == self.nodes@.len()
        &&& self.back@.len() == self.nodes@.len()
        &&& forall|i: usize|
            i < self.n() && !self.live(i) ==> (#[trigger] self.adj(i)).len() == 0
                && self.back_seq(i).len() == 0
        &&& forall|i: usize, k: int|
            #![trigger self.adj(i)[k]]
            self.live(i) && 0 <= k < self.adj(i).len() ==> self.live(self.adj(i)[k].to)
        &&& forall|i: usize| self.live(i) ==> distinct_tos(#[trigger] self.adj(i))
        &&& forall|i: usize, k: int|
            #![trigger self.back_seq(i)[k]]
            self.live(i) && 0 <= k < self.back_seq(i).len() ==> self.live(self.back_seq(i)[k])
        &&& forall|i: usize| self.live(i) ==> distinct_ids(#[trigger] self.back_seq(i))
        &&& forall|i: usize, k: int|
            #![trigger self.adj(i)[k]]
            self.live(i) && 0 <= k < self.adj(i).len() ==> seq_has_id(
                self.back_seq(self.adj(i)[k].to),
                i,
            )
        &&& forall|j: usize, m: int|
            #![trigger self.back_seq(j)[m]]
            self.live(j) && 0 <= m < self.back_seq(j).len() ==> seq_has_to(
                self.adj(self.back_seq(j)[m]),
                j,
            )
    }

    pub fn new() -> (g: Graph<T>)
        ensures
            g.wf(),
            g.n() == 0,
            forall|i: usize| !g.live(i),
    {
        Graph { nodes: Vec::new(), fwd: Vec::new(), back: Vec::new() }
    }

    /// A live id is below the id bound.
    pub proof fn lemma_live_bound(self, i: usize)
        ensures
            self.live(i) ==> (i as int) < self.n(),
    {
    }

    /// The id bound itself fits a `usize`.
    pub proof fn lemma_n_fits(self)
        ensures
            0 <= self.n() <= usize::MAX as int,
    {
        vstd::std_specs::vec::axiom_spec_len(&self.nodes);
    }

    /// Every id ever issued is below this bound.
    pub fn id_bound(&self) -> (r: usize)
        ensures
            r == self.n(),
    {
        self.nodes.len()
    }

    pub fn is_live(&self, i: usize) -> (r: bool)
        ensures
            r == self.live(i),
    {
        i < self.nodes.len() && self.nodes[i].is_some()
    }

    /// The payload of node `i`, or nothing for an id that was never issued or
    /// whose node was removed.
    pub fn get(&self, i: usize) -> (r: Option<&T>)
        ensures
            match r {
                Some(t) => self.live(i) && *t == self.payload(i),
                None => !self.live(i),
            },
    {
        if i < self.nodes.len() {
            self.nodes[i].as_ref()
        } else {
            None
        }
    }

    /// Adds a node, returning its fresh id.
    pub fn push(&mut self, t: T) -> (id: usize)
        requires
            old(self).wf(),
        ensures
            final(self).wf(),
            id == old(self).n(),
            !old(self).live(id),
            final(self).n() == old(self).n() + 1,
            final(self).live(id),
            final(self).payload(id) == t,
            final(self).adj(id).len() == 0,
            final(self).back_seq(id).len() == 0,
            forall|j: usize| j != id ==> final(self).live(j) == old(self).live(j),
            forall|j: usize|
                j != id && old(self).live(j) ==> final(self).payload(j) == old(self).payload(j),
            forall|j: usize| j != id && j < old(self).n() ==> final(self).adj(j) == old(self).adj(j),
            forall|j: usize|
                j != id && j < old(self).n() ==> final(self).back_seq(j) == old(self).back_seq(j),
            forall|a: usize, b: usize|
                final(self).has_edge(a, b) == old(self).has_edge(a, b),
            forall|a: usize, b: usize|
                old(self).has_edge(a, b) ==> final(self).edge_weight(a, b) == old(
                    self,
                ).edge_weight(a, b),
    {
        let id = self.nodes.len();
        self.nodes.push(Some(t));
        self.fwd.push(Vec::new());
        self.back.push(Vec::new());
        proof {
            let g1 = *self;
            let g0 = *old(self);
            assert(g1.nodes@ == g0.nodes@.push(Some(t)));
            assert forall|j: usize| j != id implies g1.live(j) == g0.live(j) by {
                if j < g0.nodes@.len() {
                    assert(g1.nodes@[j as int] == g0.nodes@[j as int]);
                }
            }
            assert forall|j: usize| j != id && j < g0.n() implies g1.adj(j) == g0.adj(j)
                && g1.back_seq(j) == g0.back_seq(j) by {
                assert(g1.fwd@[j as int] == g0.fwd@[j as int]);
                assert(g1.back@[j as int] == g0.back@[j as int]);
            }
            assert(g1.wf()) by {
                assert forall|i: usize| i < g1.n() && !g1.live(i) implies (#[trigger] g1.adj(
                    i,
                )).len() == 0 && g1.back_seq(i).len() == 0 by {
                    if i != id {
                        assert(g1.adj(i) == g0.adj(i) && g1.back_seq(i) == g0.back_seq(i));
                    }
                }
                assert forall|i: usize, k: int|
                    g1.live(i) && 0 <= k < g1.adj(i).len() implies g1.live(
                    (#[trigger] g1.adj(i)[k]).to,
                ) by {
                    assert(i != id);
                    assert(g1.adj(i) == g0.adj(i));
                    assert(g0.live(g0.adj(i)[k].to));
                }
                assert forall|i: usize| g1.live(i) implies distinct_tos(#[trigger] g1.adj(i))
                    && distinct_ids(g1.back_seq(i)) by {
                    if i != id {
                        assert(g1.adj(i) == g0.adj(i) && g1.back_seq(i) == g0.back_seq(i));
                    }
                }
                assert forall|i: usize, k: int|
                    g1.live(i) && 0 <= k < g1.back_seq(i).len() implies g1.live(
                    #[trigger] g1.back_seq(i)[k],
                ) by {
                    assert(i != id);
                    assert(g1.back_seq(i) == g0.back_seq(i));
                    assert(g0.live(g0.back_seq(i)[k]));
                }
                assert forall|i: usize, k: int|
                    g1.live(i) && 0 <= k < g1.adj(i).len() implies seq_has_id(
                    g1.back_seq((#[trigger] g1.adj(i)[k]).to),
                    i,
                ) by {
                    assert(i != id);
                    assert(g1.adj(i) == g0.adj(i));
                    assert(seq_has_id(g0.back_seq(g0.adj(i)[k].to), i));
                    assert(g0.adj(i)[k].to != id) by {
                        assert(g0.live(g0.adj(i)[k].to));
                    }
                    assert(g1.back_seq(g0.adj(i)[k].to) == g0.back_seq(g0.adj(i)[k].to));
                }
                assert forall|j: usize, m: int|
                    g1.live(j) && 0 <= m < g1.back_seq(j).len() implies seq_has_to(
                    g1.adj(#[trigger] g1.back_seq(j)[m]),
                    j,
                ) by {
                    assert(j != id);
                    assert(g1.back_seq(j) == g0.back_seq(j));
                    assert(seq_has_to(g0.adj(g0.back_seq(j)[m]), j));
                    assert(g0.live(g0.back_seq(j)[m]));
                    assert(g1.adj(g0.back_seq(j)[m]) == g0.adj(g0.back_seq(j)[m]));
                }
            }
            assert forall|a: usize, b: usize| g1.has_edge(a, b) == g0.has_edge(a, b) by {
                if a != id && b != id && g0.live(a) {
                    assert(g1.adj(a) == g0.adj(a));
                }
                if g1.has_edge(a, b) {
                    if a == id {
                        assert(g1.adj(id).len() == 0);
                    }
                    assert(a != id && b != id);
                    assert(g1.adj(a) == g0.adj(a));
                }
            }
            assert forall|a: usize, b: usize| g0.has_edge(a, b) implies g1.edge_weight(a, b)
                == g0.edge_weight(a, b) by {
                assert(g1.adj(a) == g0.adj(a));
            }
        }
        id
    }

    /// Replaces the payload of live node `i`.
    pub fn set(&mut self, i: usize, t: T)
        requires
            old(self).wf(),
            old(self).live(i),
        ensures
            final(self).wf(),
            final(self).n() == old(self).n(),
            final(self).payload(i) == t,
            final(self).live(i),
            forall|j: usize| final(self).live(j) == old(self).live(j),
            forall|j: usize|
                j != i && old(self).live(j) ==> final(self).payload(j) == old(self).payload(j),
            forall|j: usize| j < old(self).n() ==> final(self).adj(j) == old(self).adj(j),
            forall|j: usize| j < old(self).n() ==> final(self).back_seq(j) == old(self).back_seq(j),
            forall|a: usize, b: usize| final(self).has_edge(a, b) == old(self).has_edge(a, b),
            forall|a: usize, b: usize|
                old(self).has_edge(a, b) ==> final(self).edge_weight(a, b) == old(
                    self,
                ).edge_weight(a, b),
    {
        vec_set(&mut self.nodes, i, Some(t));
        proof {
            let g0 = *old(self);
            let g1 = *self;
            assert forall|j: usize| g1.live(j) == g0.live(j) by {
                if j < g0.nodes@.len() && j != i {
                    assert(g1.nodes@[j as int] == g0.nodes@[j as int]);
                }
            }
            lemma_wf_same_structure(g0, g1);
        }
    }

    /// The forward edges of node `i` (empty for a dead or unknown id).
    pub fn get_neighs(&self, i: usize) -> (r: Vec<Edge>)
        requires
            self.wf(),
        ensures
            i < self.n() ==> r@ == self.adj(i),
            !(i < self.n()) ==> r@ == Seq::<Edge>::empty(),
    {
        if i < self.fwd.len() {
            let mut out: Vec<Edge> = Vec::new();
            let row = &self.fwd[i];
            let mut k: usize = 0;
            while k < row.len()
                invariant
                    0 <= k <= row@.len(),
                    out@ == row@.subrange(0, k as int),
                decreases row@.len() - k,
            {
                out.push(row[k]);
                proof {
                    assert(out@ == row@.subrange(0, k + 1 as int));
                }
                k = k + 1;
            }
            proof {
                assert(out@ == row@);
            }
            out
        } else {
            Vec::new()
        }
    }

    /// The sources of the incoming edges of node `i`.
    pub fn get_backward_neighs(&self, i: usize) -> (r: Vec<usize>)
        requires
            self.wf(),
        ensures
            i < self.n() ==> r@ == self.back_seq(i),
            !(i < self.n()) ==> r@ == Seq::<usize>::empty(),
    {
        if i < self.back.len() {
            let mut out: Vec<usize> = Vec::new();
            let row = &self.back[i];
            let mut k: usize = 0;
            while k < row.len()
                invariant
                    0 <= k <= row@.len(),
                    out@ == row@.subrange(0, k as int),
                decreases row@.len() - k,
            {
                out.push(row[k]);
                proof {
                    assert(out@ == row@.subrange(0, k + 1 as int));
                }
                k = k + 1;
            }
            proof {
                assert(out@ == row@);
            }
            out
        } else {
            Vec::new()
        }
    }

    /// Inserts the edge `a -> b` with weight `w`, or overwrites its weight if
    /// it already exists.
    pub fn add_neigh(&mut self, a: usize, b: usize, w: i64)
        requires
            old(self).wf(),
            old(self).live(a),
            old(self).live(b),
        ensures
            final(self).wf(),
            final(self).n() == old(self).n(),
            forall|j: usize| final(self).live(j) == old(self).live(j),
            forall|j: usize| old(self).live(j) ==> final(self).payload(j) == old(self).payload(j),
            final(self).has_edge(a, b),
            final(self).edge_weight(a, b) == w,
            forall|x: usize, y: usize|
                !(x == a && y == b) ==> final(self).has_edge(x, y) == old(self).has_edge(x, y),
            forall|x: usize, y: usize|
                !(x == a && y == b) && old(self).has_edge(x, y) ==> final(self).edge_weight(x, y)
                    == old(self).edge_weight(x, y),
            !old(self).has_edge(a, b) ==> final(self).adj(a) == old(self).adj(a).push(
                Edge { to: b, weight: w },
            ),
            forall|j: usize| j != a && j < old(self).n() ==> final(self).adj(j) == old(self).adj(j),
    {
        let ghost g0 = *self;
        let row_len = self.fwd[a].len();
        let mut k: usize = 0;
        while k < row_len
            invariant
                *self == g0,
                g0 == *old(self),
                g0.wf(),
                g0.live(a),
                g0.live(b),
                row_len as int == g0.adj(a).len(),
                0 <= k <= row_len,
                forall|m: int| 0 <= m < k ==> (#[trigger] g0.adj(a)[m]).to != b,
            decreases row_len - k,
        {
            if self.fwd[a][k].to == b {
                grid_set(&mut self.fwd, a, k, Edge { to: b, weight: w });
                proof {
                    let g0 = *old(self);
                    let g1 = *self;
                    assert(g1.adj(a) == g0.adj(a).update(k as int, Edge { to: b, weight: w }));
                    lemma_wf_after_row_update(g0, g1, a, k as int, b, w);
                    assert((g1.adj(a)[k as int]).to == b);
                    lemma_edge_lookup(g1, a, b, k as int);
                    assert forall|x: usize, y: usize| !(x == a && y == b) implies g1.has_edge(x, y)
                        == g0.has_edge(x, y) && (g0.has_edge(x, y) ==> g1.edge_weight(x, y)
                        == g0.edge_weight(x, y)) by {
                        lemma_edges_after_row_update(g0, g1, a, k as int, b, w, x, y);
                    }
                }
                return ;
            }
            k = k + 1;
        }
        // the edge is new: append it and register the source in the target's
        // backward index
        grid_push(&mut self.fwd, a, Edge { to: b, weight: w });
        grid_push(&mut self.back, b, a);
        proof {
            let g0 = *old(self);
            let g1 = *self;
            let row0 = g0.adj(a);
            let row1 = g1.adj(a);
            assert(!seq_has_to(row0, b));
            assert(row1 == row0.push(Edge { to: b, weight: w }));
            assert(g1.back_seq(b) == g0.back_seq(b).push(a));
            assert(!seq_has_id(g0.back_seq(b), a)) by {
                if seq_has_id(g0.back_seq(b), a) {
                    let m = choose|m: int|
                        0 <= m < g0.back_seq(b).len() && (#[trigger] g0.back_seq(b)[m]) == a;
                    assert(seq_has_to(g0.adj(a), b));
                }
            }
            lemma_wf_after_edge_push(g0, g1, a, b, w);
            assert((g1.adj(a)[row0.len() as int]).to == b);
            lemma_edge_lookup(g1, a, b, row0.len() as int);
            assert forall|x: usize, y: usize| !(x == a && y == b) implies g1.has_edge(x, y)
                == g0.has_edge(x, y) && (g0.has_edge(x, y) ==> g1.edge_weight(x, y)
                == g0.edge_weight(x, y)) by {
                lemma_edges_after_edge_push(g0, g1, a, b, w, x, y);
            }
        }
    }

    /// Position of the edge toward `b` in `a`'s edge list, if any.
    fn find_to_index(&self, a: usize, b: usize) -> (r: Option<usize>)
        requires
            a < self.fwd@.len(),
        ensures
            match r {
                Some(k) => 0 <= k < self.adj(a).len() && self.adj(a)[k as int].to == b,
                None => !seq_has_to(self.adj(a), b),
            },
    {
        let row_len = self.fwd[a].len();
        let mut k: usize = 0;
        while k < row_len
            invariant
                a < self.fwd@.len(),
                row_len as int == self.adj(a).len(),
                0 <= k <= row_len,
                forall|m: int| 0 <= m < k ==> (#[trigger] self.adj(a)[m]).to != b,
            decreases row_len - k,
        {
            if self.fwd[a][k].to == b {
                return Some(k);
            }
            k = k + 1;
        }
        None
    }

    /// Position of `x` in the backward index of `j`.
    fn find_back_index(&self, j: usize, x: usize) -> (r: usize)
        requires
            j < self.back@.len(),
            seq_has_id(self.back_seq(j), x),
        ensures
            0 <= r < self.back_seq(j).len(),
            self.back_seq(j)[r as int] == x,
    {
        let row_len = self.back[j].len();
        let mut k: usize = 0;
        while k < row_len
            invariant
                j < self.back@.len(),
                seq_has_id(self.back_seq(j), x),
                row_len as int == self.back_seq(j).len(),
                0 <= k <= row_len,
                forall|m: int| 0 <= m < k ==> (#[trigger] self.back_seq(j)[m]) != x,
            decreases row_len - k,
        {
            if self.back[j][k] == x {
                return k;
            }
            k = k + 1;
        }
        proof {
            let w = choose|m: int|
                0 <= m < self.back_seq(j).len() && (#[trigger] self.back_seq(j)[m]) == x;
            assert(false);
        }
        0
    }

    /// Removes the directed edge `a -> b` if it exists; otherwise does
    /// nothing.
    pub fn remove_neigh(&mut self, a: usize, b: usize)
        requires
            old(self).wf(),
            old(self).live(a),
            old(self).live(b),
        ensures
            final(self).wf(),
            final(self).n() == old(self).n(),
            forall|j: usize| final(self).live(j) == old(self).live(j),
            forall|j: usize| old(self).live(j) ==> final(self).payload(j) == old(self).payload(j),
            !final(self).has_edge(a, b),
            forall|x: usize, y: usize|
                !(x == a && y == b) ==> final(self).has_edge(x, y) == old(self).has_edge(x, y),
    {
        let ghost g0 = *self;
        let kopt = self.find_to_index(a, b);
        match kopt {
            None => {
                proof {
                    assert(!seq_has_to(g0.adj(a), b));
                }
            },
            Some(k) => {
                proof {
                    assert(seq_has_id(g0.back_seq(b), a)) by {
                        assert(g0.adj(a)[k as int].to == b);
                    }
                }
                let m = self.find_back_index(b, a);
                grid_remove(&mut self.fwd, a, k);
                grid_remove(&mut self.back, b, m);
                proof {
                    let g1 = *self;
                    lemma_wf_after_edge_remove(g0, g1, a, b, k as int, m as int);
                }
            },
        }
    }

    /// Removes node `i` and every edge that mentions it, in either direction.
    pub fn remove_node(&mut self, i: usize)
        requires
            old(self).wf(),
            old(self).live(i),
        ensures
            final(self).wf(),
            final(self).n() == old(self).n(),
            removal_result_ok(*old(self), *final(self), i),
    {
        let ghost g0 = *self;
        let out_edges = grid_take(&mut self.fwd, i);
        let nout = out_edges.len();
        let mut k: usize = 0;
        while k < nout
            invariant
                g0.wf(),
                g0.live(i),
                out_edges@ == g0.adj(i),
                nout as int == g0.adj(i).len(),
                0 <= k <= nout,
                self.nodes == g0.nodes,
                self.fwd@.len() == g0.fwd@.len(),
                self.back@.len() == g0.back@.len(),
                self.adj(i).len() == 0,
                self.back@[i as int] == g0.back@[i as int],
                forall|j: usize|
                    j != i && j < g0.n() ==> #[trigger] self.fwd@[j as int] == g0.fwd@[j as int],
                forall|j: usize|
                    j != i && j < g0.n() && !touched_to(g0.adj(i), k as int, j)
                        ==> #[trigger] self.back@[j as int] == g0.back@[j as int],
                forall|j: usize|
                    j != i && j < g0.n() && touched_to(g0.adj(i), k as int, j)
                        ==> back_row_clean(g0, *self, i, j),
            decreases nout - k,
        {
            let e = out_edges[k];
            proof {
                assert(g0.adj(i)[k as int] == e);
                assert(g0.live(e.to));
            }
            if e.to != i {
                proof {
                    assert(!touched_to(g0.adj(i), k as int, e.to)) by {
                        if touched_to(g0.adj(i), k as int, e.to) {
                            let m = choose|m: int|
                                0 <= m < k && (#[trigger] g0.adj(i)[m]).to == e.to;
                            assert(g0.adj(i)[m].to != g0.adj(i)[k as int].to);
                        }
                    }
                    assert(self.back@[e.to as int] == g0.back@[e.to as int]);
                    assert(seq_has_id(g0.back_seq(e.to), i));
                    assert(distinct_ids(g0.back_seq(e.to)));
                }
                let ghost pre = *self;
                let m = self.find_back_index(e.to, i);
                proof {
                    assert(self.back_seq(e.to)[m as int] == i);
                }
                grid_remove(&mut self.back, e.to, m);
                proof {
                    lemma_remove_id(g0.back_seq(e.to), m as int);
                    assert(back_row_clean(g0, *self, i, e.to));
                    assert forall|j: usize|
                        j != i && j < g0.n() && touched_to(g0.adj(i), k as int + 1, j)
                            implies back_row_clean(g0, *self, i, j) by {
                        if j != e.to {
                            assert(touched_to(g0.adj(i), k as int, j)) by {
                                let m2 = choose|m2: int|
                                    0 <= m2 < k + 1 && (#[trigger] g0.adj(i)[m2]).to == j;
                                assert(m2 < k);
                            }
                            assert(back_row_clean(g0, pre, i, j));
                            assert(self.back@[j as int] == pre.back@[j as int]);
                        }
                    }
                    assert forall|j: usize|
                        j != i && j < g0.n() && !touched_to(g0.adj(i), k as int + 1, j)
                            implies #[trigger] self.back@[j as int] == g0.back@[j as int] by {
                        assert(!touched_to(g0.adj(i), k as int, j));
                        assert(j != e.to) by {
                            assert(g0.adj(i)[k as int].to == e.to);
                        }
                    }
                }
            } else {
                proof {
                    assert forall|j: usize|
                        j != i && j < g0.n() && touched_to(g0.adj(i), k as int + 1, j)
                            implies touched_to(g0.adj(i), k as int, j) by {
                        let m = choose|m: int| 0 <= m < k + 1 && (#[trigger] g0.adj(i)[m]).to == j;
                        assert(m < k);
                    }
                }
            }
            k = k + 1;
        }
        // every out-neighbor no longer lists `i` as a source; now strip the
        // edges that lead into `i`
        let in_srcs = grid_take(&mut self.back, i);
        let ghost mid = *self;
        proof {
            assert forall|j: usize| touched_to(g0.adj(i), g0.adj(i).len() as int, j)
                == seq_has_to(g0.adj(i), j) by {
            }
            assert forall|j: usize|
                j != i && j < g0.n() && seq_has_to(g0.adj(i), j) implies back_row_clean(
                g0,
                mid,
                i,
                j,
            ) by {
                assert(back_row_clean(g0, *self, i, j));
            }
        }
        let nin = in_srcs.len();
        let mut k2: usize = 0;
        while k2 < nin
            invariant
                g0.wf(),
                g0.live(i),
                in_srcs@ == g0.back_seq(i),
                nin as int == g0.back_seq(i).len(),
                0 <= k2 <= nin,
                self.nodes == g0.nodes,
                self.fwd@.len() == g0.fwd@.len(),
                self.back@.len() == g0.back@.len(),
                self.adj(i).len() == 0,
                self.back_seq(i).len() == 0,
                self.back == mid.back,
                mid.nodes == g0.nodes,
                mid.back@.len() == g0.back@.len(),
                forall|j: usize|
                    j != i && j < g0.n() && !seq_has_to(g0.adj(i), j) ==> #[trigger] mid.back@[
                        j as int
                    ] == g0.back@[j as int],
                forall|j: usize|
                    j != i && j < g0.n() && seq_has_to(g0.adj(i), j)
                        ==> back_row_clean(g0, mid, i, j),
                forall|j: usize|
                    j != i && j < g0.n() && !touched_id(g0.back_seq(i), k2 as int, j)
                        ==> #[trigger] self.fwd@[j as int] == g0.fwd@[j as int],
                forall|j: usize|
                    j != i && j < g0.n() && touched_id(g0.back_seq(i), k2 as int, j)
                        ==> fwd_row_clean(g0, *self, i, j),
            decreases nin - k2,
        {
            let s = in_srcs[k2];
            proof {
                assert(g0.back_seq(i)[k2 as int] == s);
                assert(g0.live(s));
            }
            if s != i {
                proof {
                    assert(!touched_id(g0.back_seq(i), k2 as int, s)) by {
                        if touched_id(g0.back_seq(i), k2 as int, s) {
                            let m = choose|m: int|
                                0 <= m < k2 && (#[trigger] g0.back_seq(i)[m]) == s;
                            assert(g0.back_seq(i)[m] != g0.back_seq(i)[k2 as int]);
                        }
                    }
                    assert(self.fwd@[s as int] == g0.fwd@[s as int]);
                    assert(seq_has_to(g0.adj(s), i));
                    assert(distinct_tos(g0.adj(s)));
                }
                let ghost pre = *self;
                let mopt = self.find_to_index(s, i);
                let m = match mopt {
                    Some(m) => m,
                    None => {
                        proof {
                            assert(false);
                        }
                        0
                    },
                };
                grid_remove(&mut self.fwd, s, m);
                proof {
                    lemma_remove_to(g0.adj(s), m as int);
                    assert(fwd_row_clean(g0, *self, i, s));
                    assert forall|j: usize|
                        j != i && j < g0.n() && touched_id(g0.back_seq(i), k2 as int + 1, j)
                            implies fwd_row_clean(g0, *self, i, j) by {
                        if j != s {
                            assert(touched_id(g0.back_seq(i), k2 as int, j)) by {
                                let m2 = choose|m2: int|
                                    0 <= m2 < k2 + 1 && (#[trigger] g0.back_seq(i)[m2]) == j;
                                assert(m2 < k2);
                            }
                            assert(fwd_row_clean(g0, pre, i, j));
                            assert(self.fwd@[j as int] == pre.fwd@[j as int]);
                        }
                    }
                    assert forall|j: usize|
                        j != i && j < g0.n() && !touched_id(g0.back_seq(i), k2 as int + 1, j)
                            implies #[trigger] self.fwd@[j as int] == g0.fwd@[j as int] by {
                        assert(!touched_id(g0.back_seq(i), k2 as int, j));
                        assert(j != s) by {
                            assert(g0.back_seq(i)[k2 as int] == s);
                        }
                    }
                }
            } else {
                proof {
                    assert forall|j: usize|
                        j != i && j < g0.n() && touched_id(g0.back_seq(i), k2 as int + 1, j)
                            implies touched_id(g0.back_seq(i), k2 as int, j) by {
                        let m = choose|m: int|
                            0 <= m < k2 + 1 && (#[trigger] g0.back_seq(i)[m]) == j;
                        assert(m < k2);
                    }
                }
            }
            k2 = k2 + 1;
        }
        vec_set(&mut self.nodes, i, None);
        proof {
            let g1 = *self;
            assert forall|j: usize| touched_id(g0.back_seq(i), g0.back_seq(i).len() as int, j)
                == seq_has_id(g0.back_seq(i), j) by {
            }
            assert(!g1.live(i));
            assert forall|j: usize| j != i && j < g0.n() implies (#[trigger] g1.nodes@[j as int])
                == g0.nodes@[j as int] by {
            }
            assert(removal_rows_ok(g0, g1, i));
            lemma_wf_after_node_removal(g0, g1, i);
        }
    }
}


/// Removing one edge entry keeps the rest distinct, drops its target, and
/// keeps every other target.
proof fn lemma_remove_to(s: Seq<Edge>, k: int)
    requires
        distinct_tos(s),
        0 <= k < s.len(),
    ensures
        distinct_tos(s.remove(k)),
        !seq_has_to(s.remove(k), s[k].to),
        forall|y: usize| y != s[k].to ==> seq_has_to(s.remove(k), y) == seq_has_to(s, y),
{
    let s2 = s.remove(k);
    assert forall|k1: int, k2: int| 0 <= k1 < k2 < s2.len() implies (#[trigger] s2[k1]).to != (
    #[trigger] s2[k2]).to by {
        let a0 = if k1 < k { k1 } else { k1 + 1 };
        let b0 = if k2 < k { k2 } else { k2 + 1 };
        assert(s2[k1] == s[a0] && s2[k2] == s[b0]);
        assert(s[a0].to != s[b0].to);
    }
    assert(!seq_has_to(s2, s[k].to)) by {
        if seq_has_to(s2, s[k].to) {
            let m = choose|m: int| 0 <= m < s2.len() && (#[trigger] s2[m]).to == s[k].to;
            let m0 = if m < k { m } else { m + 1 };
            assert(s2[m] == s[m0]);
            if m0 < k {
                assert(s[m0].to != s[k].to);
            } else {
                assert(s[k].to != s[m0].to);
            }
        }
    }
    assert forall|y: usize| y != s[k].to implies seq_has_to(s2, y) == seq_has_to(s, y) by {
        if seq_has_to(s, y) {
            let m0 = choose|m: int| 0 <= m < s.len() && (#[trigger] s[m]).to == y;
            let m = if m0 < k { m0 } else { m0 - 1 };
            assert(s2[m] == s[m0]);
        }
        if seq_has_to(s2, y) {
            let m = choose|m: int| 0 <= m < s2.len() && (#[trigger] s2[m]).to == y;
            let m0 = if m < k { m } else { m + 1 };
            assert(s2[m] == s[m0]);
        }
    }
}

/// The same, for a backward index row.
proof fn lemma_remove_id(s: Seq<usize>, k: int)
    requires
        distinct_ids(s),
        0 <= k < s.len(),
    ensures
        distinct_ids(s.remove(k)),
        !seq_has_id(s.remove(k), s[k]),
        forall|x: usize| x != s[k] ==> seq_has_id(s.remove(k), x) == seq_has_id(s, x),
{
    let s2 = s.remove(k);
    assert forall|k1: int, k2: int| 0 <= k1 < k2 < s2.len() implies (#[trigger] s2[k1]) != (
    #[trigger] s2[k2]) by {
        let a0 = if k1 < k { k1 } else { k1 + 1 };
        let b0 = if k2 < k { k2 } else { k2 + 1 };
        assert(s2[k1] == s[a0] && s2[k2] == s[b0]);
        assert(s[a0] != s[b0]);
    }
    assert(!seq_has_id(s2, s[k])) by {
        if seq_has_id(s2, s[k]) {
            let m = choose|m: int| 0 <= m < s2.len() && (#[trigger] s2[m]) == s[k];
            let m0 = if m < k { m } else { m + 1 };
            assert(s2[m] == s[m0]);
            if m0 < k {
                assert(s[m0] != s[k]);
            } else {
                assert(s[k] != s[m0]);
            }
        }
    }
    assert forall|x: usize| x != s[k] implies seq_has_id(s2, x) == seq_has_id(s, x) by {
        if seq_has_id(s, x) {
            let m0 = choose|m: int| 0 <= m < s.len() && (#[trigger] s[m]) == x;
            let m = if m0 < k { m0 } else { m0 - 1 };
            assert(s2[m] == s[m0]);
        }
        if seq_has_id(s2, x) {
            let m = choose|m: int| 0 <= m < s2.len() && (#[trigger] s2[m]) == x;
            let m0 = if m < k { m } else { m + 1 };
            assert(s2[m] == s[m0]);
        }
    }
}

/// A graph with the same liveness, forward lists and backward index as a
/// well-formed one is well-formed.
proof fn lemma_wf_same_structure<T>(g0: Graph<T>, g1: Graph<T>)
    requires
        g0.wf(),
        g1.nodes@.len() == g0.nodes@.len(),
        forall|j: usize| g1.live(j) == g0.live(j),
        g1.fwd == g0.fwd,
        g1.back == g0.back,
    ensures
        g1.wf(),
{
    assert forall|j: usize| j < g1.n() implies g1.adj(j) == g0.adj(j) && g1.back_seq(j)
        == g0.back_seq(j) by {
        assert(g1.fwd@[j as int] == g0.fwd@[j as int]);
        assert(g1.back@[j as int] == g0.back@[j as int]);
    }
    assert forall|i: usize, k: int|
        g1.live(i) && 0 <= k < g1.adj(i).len() implies g1.live(
        (#[trigger] g1.adj(i)[k]).to,
    ) by {
        assert(g1.adj(i) == g0.adj(i));
        assert(g0.live(g0.adj(i)[k].to));
    }
    assert forall|i: usize, k: int|
        g1.live(i) && 0 <= k < g1.back_seq(i).len() implies g1.live(
        #[trigger] g1.back_seq(i)[k],
    ) by {
        assert(g1.back_seq(i) == g0.back_seq(i));
        assert(g0.live(g0.back_seq(i)[k]));
    }
    assert forall|i: usize, k: int|
        g1.live(i) && 0 <= k < g1.adj(i).len() implies seq_has_id(
        g1.back_seq((#[trigger] g1.adj(i)[k]).to),
        i,
    ) by {
        assert(g1.adj(i) == g0.adj(i));
        assert(seq_has_id(g0.back_seq(g0.adj(i)[k].to), i));
        assert(g0.live(g0.adj(i)[k].to));
        assert(g1.back_seq(g0.adj(i)[k].to) == g0.back_seq(g0.adj(i)[k].to));
    }
    assert forall|j: usize, m: int|
        g1.live(j) && 0 <= m < g1.back_seq(j).len() implies seq_has_to(
        g1.adj(#[trigger] g1.back_seq(j)[m]),
        j,
    ) by {
        assert(g1.back_seq(j) == g0.back_seq(j));
        assert(seq_has_to(g0.adj(g0.back_seq(j)[m]), j));
        assert(g0.live(g0.back_seq(j)[m]));
        assert(g1.adj(g0.back_seq(j)[m]) == g0.adj(g0.back_seq(j)[m]));
    }
}

/// Updating one edge entry in place keeps the targets of the list distinct if
/// the new entry keeps the old target.
proof fn lemma_distinct_update(s: Seq<Edge>, k: int, e: Edge)
    requires
        distinct_tos(s),
        0 <= k < s.len(),
        s[k].to == e.to,
    ensures
        distinct_tos(s.update(k, e)),
{
    let s2 = s.update(k, e);
    assert forall|k1: int, k2: int| 0 <= k1 < k2 < s2.len() implies (#[trigger] s2[k1]).to != (
    #[trigger] s2[k2]).to by {
        assert(s[k1].to != s[k2].to);
    }
}

/// Two edge lists with pointwise equal targets lead to the same nodes.
proof fn lemma_same_tos(s1: Seq<Edge>, s2: Seq<Edge>)
    requires
        s1.len() == s2.len(),
        forall|m: int| 0 <= m < s1.len() ==> (#[trigger] s1[m]).to == (#[trigger] s2[m]).to,
    ensures
        forall|y: usize| seq_has_to(s1, y) == seq_has_to(s2, y),
{
    assert forall|y: usize| seq_has_to(s1, y) == seq_has_to(s2, y) by {
        if seq_has_to(s1, y) {
            let m = choose|m: int| 0 <= m < s1.len() && (#[trigger] s1[m]).to == y;
            assert(s2[m].to == y);
        }
        if seq_has_to(s2, y) {
            let m = choose|m: int| 0 <= m < s2.len() && (#[trigger] s2[m]).to == y;
            assert(s1[m].to == y);
        }
    }
}

/// In a well-formed graph an edge entry pins `edge_at` and `edge_weight`.
proof fn lemma_edge_lookup<T>(g: Graph<T>, a: usize, b: usize, k: int)
    requires
        g.live(a),
        g.live(b),
        distinct_tos(g.adj(a)),
        0 <= k < g.adj(a).len(),
        g.adj(a)[k].to == b,
    ensures
        g.has_edge(a, b),
        g.edge_at(a, b) == k,
        g.edge_weight(a, b) == g.adj(a)[k].weight,
{
    assert(seq_has_to(g.adj(a), b));
    let k2 = g.edge_at(a, b);
    assert(g.adj(a)[k2].to == b);
    if k < k2 {
        assert(g.adj(a)[k].to != g.adj(a)[k2].to);
    } else if k2 < k {
        assert(g.adj(a)[k2].to != g.adj(a)[k].to);
    }
}

/// Overwriting the weight of one edge in place preserves well-formedness.
proof fn lemma_wf_after_row_update<T>(g0: Graph<T>, g1: Graph<T>, a: usize, k: int, b: usize, w: i64)
    requires
        g0.wf(),
        g0.live(a),
        0 <= k < g0.adj(a).len(),
        g0.adj(a)[k].to == b,
        g1.nodes == g0.nodes,
        g1.back == g0.back,
        g1.fwd@.len() == g0.fwd@.len(),
        g1.adj(a) == g0.adj(a).update(k, Edge { to: b, weight: w }),
        forall|j: int| 0 <= j < g0.fwd@.len() && j != a ==> g1.fwd@[j] == g0.fwd@[j],
    ensures
        g1.wf(),
        forall|j: usize| g1.live(j) == g0.live(j),
        forall|j: usize| g0.live(j) ==> g1.payload(j) == g0.payload(j),
        forall|y: usize| seq_has_to(g1.adj(a), y) == seq_has_to(g0.adj(a), y),
{
    assert(g1.nodes@ == g0.nodes@);
    assert forall|j: usize| g1.live(j) == g0.live(j) by {}
    lemma_distinct_update(g0.adj(a), k, Edge { to: b, weight: w });
    assert forall|m: int| 0 <= m < g1.adj(a).len() implies (#[trigger] g1.adj(a)[m]).to == (
    #[trigger] g0.adj(a)[m]).to by {
    }
    lemma_same_tos(g1.adj(a), g0.adj(a));
    assert forall|j: usize| j != a && j < g0.n() implies g1.adj(j) == g0.adj(j) by {
        assert(g1.fwd@[j as int] == g0.fwd@[j as int]);
    }
    assert forall|i: usize| i < g1.n() && !g1.live(i) implies (#[trigger] g1.adj(i)).len() == 0
        && g1.back_seq(i).len() == 0 by {
        assert(i != a);
        assert(g1.adj(i) == g0.adj(i));
        assert(g1.back_seq(i) == g0.back_seq(i));
    }
    assert forall|i: usize| g1.live(i) implies distinct_tos(#[trigger] g1.adj(i)) by {
        if i != a {
            assert(g1.adj(i) == g0.adj(i));
        }
    }
    assert forall|i: usize| g1.live(i) implies distinct_ids(#[trigger] g1.back_seq(i)) by {
        assert(g1.back_seq(i) == g0.back_seq(i));
    }
    assert forall|i: usize, kk: int|
        g1.live(i) && 0 <= kk < g1.back_seq(i).len() implies g1.live(
        #[trigger] g1.back_seq(i)[kk],
    ) by {
        assert(g1.back_seq(i) == g0.back_seq(i));
        assert(g0.live(g0.back_seq(i)[kk]));
    }
    assert forall|i: usize, kk: int|
        g1.live(i) && 0 <= kk < g1.adj(i).len() implies g1.live(
        #[trigger] g1.adj(i)[kk].to,
    ) by {
        if i == a {
            assert(g1.adj(a)[kk].to == g0.adj(a)[kk].to);
            assert(g0.live(g0.adj(a)[kk].to));
        } else {
            assert(g1.adj(i) == g0.adj(i));
            assert(g0.live(g0.adj(i)[kk].to));
        }
    }
    assert forall|i: usize, kk: int|
        g1.live(i) && 0 <= kk < g1.adj(i).len() implies seq_has_id(
        g1.back_seq((#[trigger] g1.adj(i)[kk]).to),
        i,
    ) by {
        if i == a {
            assert(g1.adj(a)[kk].to == g0.adj(a)[kk].to);
        } else {
            assert(g1.adj(i) == g0.adj(i));
        }
        assert(seq_has_id(g0.back_seq(g1.adj(i)[kk].to), i));
    }
    assert forall|j: usize, m: int|
        g1.live(j) && 0 <= m < g1.back_seq(j).len() implies seq_has_to(
        g1.adj(#[trigger] g1.back_seq(j)[m]),
        j,
    ) by {
        let src = g1.back_seq(j)[m];
        assert(g1.back_seq(j) == g0.back_seq(j));
        assert(g0.back_seq(j)[m] == src);
        assert(seq_has_to(g0.adj(src), j));
        assert(g0.live(src));
        if src != a {
            assert(g1.fwd@[src as int] == g0.fwd@[src as int]);
            assert(g1.adj(src) == g0.adj(src));
        }
    }
}

/// The edge relation after the in-place overwrite: nothing but `a -> b`
/// changed, and even the other edges of `a` keep their weights.
proof fn lemma_edges_after_row_update<T>(
    g0: Graph<T>,
    g1: Graph<T>,
    a: usize,
    k: int,
    b: usize,
    w: i64,
    x: usize,
    y: usize,
)
    requires
        g0.wf(),
        g0.live(a),
        0 <= k < g0.adj(a).len(),
        g0.adj(a)[k].to == b,
        g1.nodes == g0.nodes,
        g1.back == g0.back,
        g1.fwd@.len() == g0.fwd@.len(),
        g1.adj(a) == g0.adj(a).update(k, Edge { to: b, weight: w }),
        forall|j: int| 0 <= j < g0.fwd@.len() && j != a ==> g1.fwd@[j] == g0.fwd@[j],
        !(x == a && y == b),
    ensures
        g1.has_edge(x, y) == g0.has_edge(x, y),
        g0.has_edge(x, y) ==> g1.edge_weight(x, y) == g0.edge_weight(x, y),
{
    lemma_wf_after_row_update(g0, g1, a, k, b, w);
    if x != a {
        if x < g0.n() {
            assert(g1.fwd@[x as int] == g0.fwd@[x as int]);
            assert(g1.adj(x) == g0.adj(x));
        } else {
            assert(!g0.live(x) && !g1.live(x));
        }
    } else {
        // x == a, y != b: the edge list changed only at position k
        assert(seq_has_to(g1.adj(a), y) == seq_has_to(g0.adj(a), y));
        if g0.has_edge(a, y) {
            let k0 = g0.edge_at(a, y);
            assert(g0.adj(a)[k0].to == y);
            assert(k0 != k);
            assert(g1.adj(a)[k0].to == y && g1.adj(a)[k0].weight == g0.adj(a)[k0].weight);
            lemma_edge_lookup(g1, a, y, k0);
            lemma_edge_lookup(g0, a, y, k0);
        }
    }
}

/// Appending a fresh edge `a -> b` (with its backward entry) preserves
/// well-formedness.
proof fn lemma_wf_after_edge_push<T>(g0: Graph<T>, g1: Graph<T>, a: usize, b: usize, w: i64)
    requires
        g0.wf(),
        g0.live(a),
        g0.live(b),
        !seq_has_to(g0.adj(a), b),
        !seq_has_id(g0.back_seq(b), a),
        g1.nodes == g0.nodes,
        g1.fwd@.len() == g0.fwd@.len(),
        g1.back@.len() == g0.back@.len(),
        g1.adj(a) == g0.adj(a).push(Edge { to: b, weight: w }),
        forall|j: int| 0 <= j < g0.fwd@.len() && j != a ==> g1.fwd@[j] == g0.fwd@[j],
        g1.back_seq(b) == g0.back_seq(b).push(a),
        forall|j: int| 0 <= j < g0.back@.len() && j != b ==> g1.back@[j] == g0.back@[j],
    ensures
        g1.wf(),
        forall|j: usize| g1.live(j) == g0.live(j),
        forall|j: usize| g0.live(j) ==> g1.payload(j) == g0.payload(j),
{
    assert(g1.nodes@ == g0.nodes@);
    assert forall|j: usize| g1.live(j) == g0.live(j) by {}
    assert forall|j: usize| j != a && j < g0.n() implies g1.adj(j) == g0.adj(j) by {
        assert(g1.fwd@[j as int] == g0.fwd@[j as int]);
    }
    assert forall|j: usize| j != b && j < g0.n() implies g1.back_seq(j) == g0.back_seq(j) by {
        assert(g1.back@[j as int] == g0.back@[j as int]);
    }
    let ea = Edge { to: b, weight: w };
    let n0 = g0.adj(a).len() as int;
    let m0 = g0.back_seq(b).len() as int;
    // distinctness of the grown rows
    assert(distinct_tos(g1.adj(a))) by {
        assert forall|k1: int, k2: int| 0 <= k1 < k2 < g1.adj(a).len() implies (#[trigger] g1.adj(
            a,
        )[k1]).to != (#[trigger] g1.adj(a)[k2]).to by {
            if k2 == n0 {
                if g0.adj(a)[k1].to == b {
                    assert(seq_has_to(g0.adj(a), b));
                }
            } else {
                assert(g0.adj(a)[k1].to != g0.adj(a)[k2].to);
            }
        }
    }
    assert(distinct_ids(g1.back_seq(b))) by {
        assert forall|k1: int, k2: int| 0 <= k1 < k2 < g1.back_seq(b).len() implies (
        #[trigger] g1.back_seq(b)[k1]) != (#[trigger] g1.back_seq(b)[k2]) by {
            if k2 == m0 {
                if g0.back_seq(b)[k1] == a {
                    assert(seq_has_id(g0.back_seq(b), a));
                }
            } else {
                assert(g0.back_seq(b)[k1] != g0.back_seq(b)[k2]);
            }
        }
    }
    // rows of dead slots stay empty
    assert forall|i: usize| i < g1.n() && !g1.live(i) implies (#[trigger] g1.adj(i)).len() == 0
        && g1.back_seq(i).len() == 0 by {
        assert(!g0.live(i));
        assert(i != a && i != b);
        assert(g1.adj(i) == g0.adj(i));
        assert(g1.back_seq(i) == g0.back_seq(i));
    }
    // rows of untouched nodes stay duplicate-free
    assert forall|i: usize| g1.live(i) implies distinct_tos(#[trigger] g1.adj(i)) by {
        if i != a {
            assert(g1.adj(i) == g0.adj(i));
        }
    }
    assert forall|i: usize| g1.live(i) implies distinct_ids(#[trigger] g1.back_seq(i)) by {
        if i != b {
            assert(g1.back_seq(i) == g0.back_seq(i));
        }
    }
    // edge targets stay live
    assert forall|i: usize, kk: int|
        g1.live(i) && 0 <= kk < g1.adj(i).len() implies g1.live(
        (#[trigger] g1.adj(i)[kk]).to,
    ) by {
        if i == a && kk == n0 {
        } else if i == a {
            assert(g0.live(g0.adj(a)[kk].to));
        } else {
            assert(g1.adj(i) == g0.adj(i));
            assert(g0.live(g0.adj(i)[kk].to));
        }
    }
    // backward entries stay live
    assert forall|i: usize, kk: int|
        g1.live(i) && 0 <= kk < g1.back_seq(i).len() implies g1.live(
        #[trigger] g1.back_seq(i)[kk],
    ) by {
        if i == b && kk == m0 {
        } else if i == b {
            assert(g0.live(g0.back_seq(b)[kk]));
        } else {
            assert(g1.back_seq(i) == g0.back_seq(i));
            assert(g0.live(g0.back_seq(i)[kk]));
        }
    }
    // forward entries are registered backward
    assert forall|i: usize, kk: int|
        g1.live(i) && 0 <= kk < g1.adj(i).len() implies seq_has_id(
        g1.back_seq((#[trigger] g1.adj(i)[kk]).to),
        i,
    ) by {
        if i == a && kk == n0 {
            assert(g1.back_seq(b)[m0] == a);
        } else {
            let e = if i == a {
                g0.adj(a)[kk]
            } else {
                g0.adj(i)[kk]
            };
            assert(g1.adj(i)[kk] == e);
            assert(seq_has_id(g0.back_seq(e.to), i));
            let m = choose|m: int|
                0 <= m < g0.back_seq(e.to).len() && (#[trigger] g0.back_seq(e.to)[m]) == i;
            if e.to == b {
                assert(g1.back_seq(b)[m] == i);
            } else {
                assert(g1.back_seq(e.to)[m] == i);
            }
        }
    }
    // backward entries are real edges
    assert forall|j: usize, m: int|
        g1.live(j) && 0 <= m < g1.back_seq(j).len() implies seq_has_to(
        g1.adj(#[trigger] g1.back_seq(j)[m]),
        j,
    ) by {
        if j == b && m == m0 {
            assert(g1.adj(a)[n0].to == b);
        } else {
            let src = if j == b {
                g0.back_seq(b)[m]
            } else {
                g0.back_seq(j)[m]
            };
            assert(g1.back_seq(j)[m] == src);
            assert(seq_has_to(g0.adj(src), j));
            let kk = choose|kk: int|
                0 <= kk < g0.adj(src).len() && (#[trigger] g0.adj(src)[kk]).to == j;
            if src == a {
                assert(g1.adj(a)[kk].to == j);
            } else {
                assert(g1.adj(src)[kk].to == j);
            }
        }
    }
}

/// Some edge among the first `k` of the list leads to `j`.
pub open spec fn touched_to(s: Seq<Edge>, k: int, j: usize) -> bool {
    exists|m: int| 0 <= m < k && (#[trigger] s[m]).to == j
}

/// One of the first `k` entries of the list is `j`.
pub open spec fn touched_id(s: Seq<usize>, k: int, j: usize) -> bool {
    exists|m: int| 0 <= m < k && (#[trigger] s[m]) == j
}

/// Node `j`'s edge list in `g1` is that of `g0` with the edge into `i`
/// removed: still duplicate-free, no edge into `i`, all other targets kept.
pub open spec fn fwd_row_clean<T>(g0: Graph<T>, g1: Graph<T>, i: usize, j: usize) -> bool {
    &&& distinct_tos(g1.adj(j))
    &&& !seq_has_to(g1.adj(j), i)
    &&& forall|y: usize| y != i ==> seq_has_to(g1.adj(j), y) == seq_has_to(g0.adj(j), y)
}

/// Node `j`'s backward index in `g1` is that of `g0` with `i` removed.
pub open spec fn back_row_clean<T>(g0: Graph<T>, g1: Graph<T>, i: usize, j: usize) -> bool {
    &&& distinct_ids(g1.back_seq(j))
    &&& !seq_has_id(g1.back_seq(j), i)
    &&& forall|x: usize| x != i ==> seq_has_id(g1.back_seq(j), x) == seq_has_id(g0.back_seq(j), x)
}

/// The edge relation after appending `a -> b`: every other pair is untouched.
proof fn lemma_edges_after_edge_push<T>(
    g0: Graph<T>,
    g1: Graph<T>,
    a: usize,
    b: usize,
    w: i64,
    x: usize,
    y: usize,
)
    requires
        g0.wf(),
        g0.live(a),
        g0.live(b),
        !seq_has_to(g0.adj(a), b),
        !seq_has_id(g0.back_seq(b), a),
        g1.nodes == g0.nodes,
        g1.fwd@.len() == g0.fwd@.len(),
        g1.back@.len() == g0.back@.len(),
        g1.adj(a) == g0.adj(a).push(Edge { to: b, weight: w }),
        forall|j: int| 0 <= j < g0.fwd@.len() && j != a ==> g1.fwd@[j] == g0.fwd@[j],
        g1.back_seq(b) == g0.back_seq(b).push(a),
        forall|j: int| 0 <= j < g0.back@.len() && j != b ==> g1.back@[j] == g0.back@[j],
        !(x == a && y == b),
    ensures
        g1.has_edge(x, y) == g0.has_edge(x, y),
        g0.has_edge(x, y) ==> g1.edge_weight(x, y) == g0.edge_weight(x, y),
{
    lemma_wf_after_edge_push(g0, g1, a, b, w);
    let n0 = g0.adj(a).len() as int;
    if x != a {
        if x < g0.n() {
            assert(g1.fwd@[x as int] == g0.fwd@[x as int]);
            assert(g1.adj(x) == g0.adj(x));
        } else {
            assert(!g0.live(x) && !g1.live(x));
        }
    } else {
        // x == a, y != b: the appended edge leads elsewhere
        assert(seq_has_to(g1.adj(a), y) == seq_has_to(g0.adj(a), y)) by {
            if seq_has_to(g0.adj(a), y) {
                let m = choose|m: int|
                    0 <= m < g0.adj(a).len() && (#[trigger] g0.adj(a)[m]).to == y;
                assert(g1.adj(a)[m].to == y);
            }
            if seq_has_to(g1.adj(a), y) {
                let m = choose|m: int|
                    0 <= m < g1.adj(a).len() && (#[trigger] g1.adj(a)[m]).to == y;
                assert(m != n0);
                assert(g0.adj(a)[m].to == y);
            }
        }
        if g0.has_edge(a, y) {
            let k0 = g0.edge_at(a, y);
            assert(g0.adj(a)[k0].to == y);
            assert(g1.adj(a)[k0].to == y && g1.adj(a)[k0].weight == g0.adj(a)[k0].weight);
            lemma_edge_lookup(g1, a, y, k0);
            lemma_edge_lookup(g0, a, y, k0);
        }
    }
}


/// Removing the edge `a -> b` (and its backward entry) preserves
/// well-formedness and every other edge.
proof fn lemma_wf_after_edge_remove<T>(
    g0: Graph<T>,
    g1: Graph<T>,
    a: usize,
    b: usize,
    k: int,
    m: int,
)
    requires
        g0.wf(),
        g0.live(a),
        g0.live(b),
        0 <= k < g0.adj(a).len(),
        g0.adj(a)[k].to == b,
        0 <= m < g0.back_seq(b).len(),
        g0.back_seq(b)[m] == a,
        g1.nodes == g0.nodes,
        g1.fwd@.len() == g0.fwd@.len(),
        g1.back@.len() == g0.back@.len(),
        g1.adj(a) == g0.adj(a).remove(k),
        forall|j: int| 0 <= j < g0.fwd@.len() && j != a ==> g1.fwd@[j] == g0.fwd@[j],
        g1.back_seq(b) == g0.back_seq(b).remove(m),
        forall|j: int| 0 <= j < g0.back@.len() && j != b ==> g1.back@[j] == g0.back@[j],
    ensures
        g1.wf(),
        forall|j: usize| g1.live(j) == g0.live(j),
        forall|j: usize| g0.live(j) ==> g1.payload(j) == g0.payload(j),
        !g1.has_edge(a, b),
        forall|x: usize, y: usize|
            !(x == a && y == b) ==> g1.has_edge(x, y) == g0.has_edge(x, y),
{
    assert(g1.nodes@ == g0.nodes@);
    assert forall|j: usize| g1.live(j) == g0.live(j) by {}
    assert forall|j: usize| j != a && j < g0.n() implies g1.adj(j) == g0.adj(j) by {
        assert(g1.fwd@[j as int] == g0.fwd@[j as int]);
    }
    assert forall|j: usize| j != b && j < g0.n() implies g1.back_seq(j) == g0.back_seq(j) by {
        assert(g1.back@[j as int] == g0.back@[j as int]);
    }
    lemma_remove_to(g0.adj(a), k);
    lemma_remove_id(g0.back_seq(b), m);
    assert forall|i: usize| i < g1.n() && !g1.live(i) implies (#[trigger] g1.adj(i)).len() == 0
        && g1.back_seq(i).len() == 0 by {
        assert(i != a && i != b);
        assert(g1.adj(i) == g0.adj(i));
        assert(g1.back_seq(i) == g0.back_seq(i));
    }
    assert forall|i: usize| g1.live(i) implies distinct_tos(#[trigger] g1.adj(i)) by {
        if i != a {
            assert(g1.adj(i) == g0.adj(i));
        }
    }
    assert forall|i: usize| g1.live(i) implies distinct_ids(#[trigger] g1.back_seq(i)) by {
        if i != b {
            assert(g1.back_seq(i) == g0.back_seq(i));
        }
    }
    assert forall|i: usize, kk: int|
        g1.live(i) && 0 <= kk < g1.adj(i).len() implies g1.live(
        (#[trigger] g1.adj(i)[kk]).to,
    ) by {
        if i == a {
            let k0 = if kk < k {
                kk
            } else {
                kk + 1
            };
            assert(g1.adj(a)[kk] == g0.adj(a)[k0]);
            assert(g0.live(g0.adj(a)[k0].to));
        } else {
            assert(g1.adj(i) == g0.adj(i));
            assert(g0.live(g0.adj(i)[kk].to));
        }
    }
    assert forall|i: usize, kk: int|
        g1.live(i) && 0 <= kk < g1.back_seq(i).len() implies g1.live(
        #[trigger] g1.back_seq(i)[kk],
    ) by {
        if i == b {
            let k0 = if kk < m {
                kk
            } else {
                kk + 1
            };
            assert(g1.back_seq(b)[kk] == g0.back_seq(b)[k0]);
            assert(g0.live(g0.back_seq(b)[k0]));
        } else {
            assert(g1.back_seq(i) == g0.back_seq(i));
            assert(g0.live(g0.back_seq(i)[kk]));
        }
    }
    // forward entries are registered backward
    assert forall|i: usize, kk: int|
        g1.live(i) && 0 <= kk < g1.adj(i).len() implies seq_has_id(
        g1.back_seq((#[trigger] g1.adj(i)[kk]).to),
        i,
    ) by {
        let e = g1.adj(i)[kk];
        if i == a {
            let k0 = if kk < k {
                kk
            } else {
                kk + 1
            };
            assert(e == g0.adj(a)[k0]);
            assert(k0 != k);
            assert(e.to != b) by {
                if k0 < k {
                    assert(g0.adj(a)[k0].to != g0.adj(a)[k].to);
                } else {
                    assert(g0.adj(a)[k].to != g0.adj(a)[k0].to);
                }
            }
            assert(seq_has_id(g0.back_seq(e.to), a));
            assert(g0.live(e.to));
            assert(g1.back_seq(e.to) == g0.back_seq(e.to));
        } else {
            assert(g1.adj(i) == g0.adj(i));
            assert(e == g0.adj(i)[kk]);
            assert(seq_has_id(g0.back_seq(e.to), i));
            assert(g0.live(e.to));
            if e.to == b {
                assert(i != a);
                assert(seq_has_id(g1.back_seq(b), i));
            } else {
                assert(g1.back_seq(e.to) == g0.back_seq(e.to));
            }
        }
    }
    // backward entries are real edges
    assert forall|j: usize, mm: int|
        g1.live(j) && 0 <= mm < g1.back_seq(j).len() implies seq_has_to(
        g1.adj(#[trigger] g1.back_seq(j)[mm]),
        j,
    ) by {
        let src = g1.back_seq(j)[mm];
        if j == b {
            let m0 = if mm < m {
                mm
            } else {
                mm + 1
            };
            assert(src == g0.back_seq(b)[m0]);
            assert(m0 != m);
            assert(src != a) by {
                if m0 < m {
                    assert(g0.back_seq(b)[m0] != g0.back_seq(b)[m]);
                } else {
                    assert(g0.back_seq(b)[m] != g0.back_seq(b)[m0]);
                }
            }
            assert(seq_has_to(g0.adj(src), b));
            assert(g0.live(src));
            assert(g1.adj(src) == g0.adj(src));
        } else {
            assert(g1.back_seq(j) == g0.back_seq(j));
            assert(src == g0.back_seq(j)[mm]);
            assert(seq_has_to(g0.adj(src), j));
            assert(g0.live(src));
            if src == a {
                assert(j != b);
                assert(seq_has_to(g1.adj(a), j));
            } else {
                assert(g1.adj(src) == g0.adj(src));
            }
        }
    }
    assert forall|x: usize, y: usize| !(x == a && y == b) implies g1.has_edge(x, y)
        == g0.has_edge(x, y) by {
        if x != a {
            if x < g0.n() {
                assert(g1.adj(x) == g0.adj(x));
            } else {
                assert(!g0.live(x) && !g1.live(x));
            }
        }
    }
}

/// After both removal passes the graph is well-formed again and exactly the
/// edges touching `i` are gone.
/// The state after the two removal passes of `remove_node`: node `i` dead,
/// its rows empty, rows of its out-neighbors and in-sources cleaned of `i`,
/// everything else untouched.
spec fn removal_rows_ok<T>(g0: Graph<T>, g1: Graph<T>, i: usize) -> bool {
    &&& g1.nodes@.len() == g0.nodes@.len()
    &&& !g1.live(i)
    &&& forall|j: usize|
        j != i && j < g0.n() ==> (#[trigger] g1.nodes@[j as int]) == g0.nodes@[j as int]
    &&& g1.fwd@.len() == g0.fwd@.len()
    &&& g1.back@.len() == g0.back@.len()
    &&& g1.adj(i).len() == 0
    &&& g1.back_seq(i).len() == 0
    &&& forall|j: usize|
        j != i && j < g0.n() && !seq_has_id(g0.back_seq(i), j) ==> #[trigger] g1.fwd@[
            j as int
        ] == g0.fwd@[j as int]
    &&& forall|j: usize|
        j != i && j < g0.n() && seq_has_id(g0.back_seq(i), j) ==> fwd_row_clean(g0, g1, i, j)
    &&& forall|j: usize|
        j != i && j < g0.n() && !seq_has_to(g0.adj(i), j) ==> #[trigger] g1.back@[j as int]
            == g0.back@[j as int]
    &&& forall|j: usize|
        j != i && j < g0.n() && seq_has_to(g0.adj(i), j) ==> back_row_clean(g0, g1, i, j)
}

/// What `remove_node` promises: the node is gone and with it exactly the
/// edges that mentioned it; everything else is untouched.
pub open spec fn removal_result_ok<T>(g0: Graph<T>, g1: Graph<T>, i: usize) -> bool {
    &&& !g1.live(i)
    &&& forall|j: usize| j != i ==> g1.live(j) == g0.live(j)
    &&& forall|j: usize| j != i && g0.live(j) ==> g1.payload(j) == g0.payload(j)
    &&& forall|x: usize, y: usize|
        g1.has_edge(x, y) == (g0.has_edge(x, y) && x != i && y != i)
}

proof fn lemma_wf_after_node_removal<T>(g0: Graph<T>, g1: Graph<T>, i: usize)
    requires
        g0.wf(),
        g0.live(i),
        removal_rows_ok(g0, g1, i),
    ensures
        g1.wf(),
        removal_result_ok(g0, g1, i),
{
    assert forall|j: usize| j != i implies g1.live(j) == g0.live(j) by {
        if j < g0.nodes@.len() {
            assert(g1.nodes@[j as int] == g0.nodes@[j as int]);
        }
    }
    // every surviving node's rows are clean, touched or not
    assert forall|j: usize|
        j != i && j < g0.n() && g0.live(j) implies fwd_row_clean(g0, g1, i, j)
            && back_row_clean(g0, g1, i, j) by {
        if !seq_has_id(g0.back_seq(i), j) {
            assert(g1.fwd@[j as int] == g0.fwd@[j as int]);
            assert(g1.adj(j) == g0.adj(j));
            if seq_has_to(g0.adj(j), i) {
                let kk = choose|kk: int|
                    0 <= kk < g0.adj(j).len() && (#[trigger] g0.adj(j)[kk]).to == i;
                assert(seq_has_id(g0.back_seq(i), j));
            }
            assert(fwd_row_clean(g0, g1, i, j));
        }
        if !seq_has_to(g0.adj(i), j) {
            assert(g1.back@[j as int] == g0.back@[j as int]);
            assert(g1.back_seq(j) == g0.back_seq(j));
            if seq_has_id(g0.back_seq(j), i) {
                let mm = choose|mm: int|
                    0 <= mm < g0.back_seq(j).len() && (#[trigger] g0.back_seq(j)[mm]) == i;
                assert(seq_has_to(g0.adj(i), j));
            }
            assert(back_row_clean(g0, g1, i, j));
        }
    }
    // dead rows stay empty
    assert forall|j: usize| j < g1.n() && !g1.live(j) implies (#[trigger] g1.adj(j)).len() == 0
        && g1.back_seq(j).len() == 0 by {
        if j != i {
            assert(!g0.live(j));
            assert(!seq_has_id(g0.back_seq(i), j)) by {
                if seq_has_id(g0.back_seq(i), j) {
                    let mm = choose|mm: int|
                        0 <= mm < g0.back_seq(i).len() && (#[trigger] g0.back_seq(i)[mm]) == j;
                    assert(g0.live(g0.back_seq(i)[mm]));
                }
            }
            assert(!seq_has_to(g0.adj(i), j)) by {
                if seq_has_to(g0.adj(i), j) {
                    let kk = choose|kk: int|
                        0 <= kk < g0.adj(i).len() && (#[trigger] g0.adj(i)[kk]).to == j;
                    assert(g0.live(g0.adj(i)[kk].to));
                }
            }
            assert(g1.adj(j) == g0.adj(j));
            assert(g1.back_seq(j) == g0.back_seq(j));
        }
    }
    // distinctness
    assert forall|j: usize| g1.live(j) implies distinct_tos(#[trigger] g1.adj(j)) by {
        assert(j != i);
    }
    assert forall|j: usize| g1.live(j) implies distinct_ids(#[trigger] g1.back_seq(j)) by {
        assert(j != i);
    }
    // targets and sources stay live
    assert forall|j: usize, kk: int|
        g1.live(j) && 0 <= kk < g1.adj(j).len() implies g1.live(
        (#[trigger] g1.adj(j)[kk]).to,
    ) by {
        let y = g1.adj(j)[kk].to;
        assert(seq_has_to(g1.adj(j), y));
        assert(y != i);
        assert(seq_has_to(g0.adj(j), y));
        let k0 = choose|k0: int| 0 <= k0 < g0.adj(j).len() && (#[trigger] g0.adj(j)[k0]).to == y;
        assert(g0.live(g0.adj(j)[k0].to));
    }
    assert forall|j: usize, mm: int|
        g1.live(j) && 0 <= mm < g1.back_seq(j).len() implies g1.live(
        #[trigger] g1.back_seq(j)[mm],
    ) by {
        let x = g1.back_seq(j)[mm];
        assert(seq_has_id(g1.back_seq(j), x));
        assert(x != i);
        assert(seq_has_id(g0.back_seq(j), x));
        let m0 = choose|m0: int|
            0 <= m0 < g0.back_seq(j).len() && (#[trigger] g0.back_seq(j)[m0]) == x;
        assert(g0.live(g0.back_seq(j)[m0]));
    }
    // the two mirror directions
    assert forall|j: usize, kk: int|
        g1.live(j) && 0 <= kk < g1.adj(j).len() implies seq_has_id(
        g1.back_seq((#[trigger] g1.adj(j)[kk]).to),
        j,
    ) by {
        let y = g1.adj(j)[kk].to;
        assert(seq_has_to(g1.adj(j), y));
        assert(y != i && j != i);
        assert(seq_has_to(g0.adj(j), y));
        let k0 = choose|k0: int| 0 <= k0 < g0.adj(j).len() && (#[trigger] g0.adj(j)[k0]).to == y;
        assert(seq_has_id(g0.back_seq(y), j));
        assert(g0.live(y));
    }
    assert forall|j: usize, mm: int|
        g1.live(j) && 0 <= mm < g1.back_seq(j).len() implies seq_has_to(
        g1.adj(#[trigger] g1.back_seq(j)[mm]),
        j,
    ) by {
        let x = g1.back_seq(j)[mm];
        assert(seq_has_id(g1.back_seq(j), x));
        assert(x != i && j != i);
        assert(seq_has_id(g0.back_seq(j), x));
        let m0 = choose|m0: int|
            0 <= m0 < g0.back_seq(j).len() && (#[trigger] g0.back_seq(j)[m0]) == x;
        assert(seq_has_to(g0.adj(x), j));
        assert(g0.live(x));
    }
    // the edge relation lost exactly the pairs touching `i`
    assert forall|x: usize, y: usize|
        g1.has_edge(x, y) == (g0.has_edge(x, y) && x != i && y != i) by {
        if x == i || y == i {
            assert(!g1.has_edge(x, y));
        } else if g0.live(x) {
            assert(seq_has_to(g1.adj(x), y) == seq_has_to(g0.adj(x), y));
        } else {
            assert(!g0.live(x) && !g1.live(x));
        }
    }
}

} // verus!

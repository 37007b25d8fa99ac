//! A generic graph container built on an addressed arena: vertices and
//! edges cross-reference each other through stable, copyable handles instead
//! of references, and the traversal layer is expressed entirely over those
//! handles.

pub mod addr_hm;
pub mod dir;
pub mod edge;
pub mod iter;
pub mod vertex;

use vstd::prelude::*;

use crate::addr_hm::{AddrHashSet, EdgeAddr, VertAddr, MAX_BUCKET_SIZE};
use crate::dir::{Dir, DirT, Undir};
use crate::edge::{Edge, EdgeT, UnweightedEdge};
use crate::vertex::{NodeT, Vertex};

verus! {

/// A graph whose edges carry no weight.
pub type UnweightedGraph<V, D> = Graph<V, UnweightedEdge, D>;

/// An undirected graph whose edges carry no weight.
pub type UnweightedUndirectedGraph<V> = Graph<V, UnweightedEdge, Undir>;

/// An undirected graph.
pub type UndirectedGraph<V, E> = Graph<V, E, Undir>;

/// A directed graph.
pub type DiGraph<V, E> = Graph<V, E, Dir>;

/// Vertex-table capacity of a graph created without a capacity hint; large
/// enough that growth is not a concern for moderate graphs, since the vertex
/// arena never grows on its own.
pub const DEFAULT_GRAPH_CAPACITY: usize = 256;

/// A generic graph: vertices live in an addressed arena and are
/// cross-referenced by stable handles, edges live in an append-only list.
/// The direction policy `D` decides at the type level how adjacency is kept
/// and which operations exist.
#[derive(Debug)]
pub struct Graph<V: NodeT, E: EdgeT, D: DirT> {
    pub nodes: AddrHashSet<Vertex<V, D>>,
    pub edges: Vec<Edge<E, D>>,
}

impl<V: NodeT, E: EdgeT, D: DirT> Graph<V, E, D> {
    /// Number of vertices.
    pub open spec fn order_spec(&self) -> nat {
        self.nodes.size as nat
    }

    /// Number of edges.
    pub open spec fn size_spec(&self) -> nat {
        self.edges@.len()
    }

    /// Whether `a` is a live vertex handle of this graph.
    pub open spec fn valid_vertex(&self, a: VertAddr) -> bool {
        self.nodes.valid(a)
    }

    /// The vertex record a live handle designates.
    pub open spec fn vertex(&self, a: VertAddr) -> Vertex<V, D>
        recommends
            self.valid_vertex(a),
    {
        self.nodes.at(a)
    }

    /// Whether `e` is a live edge handle of this graph.
    pub open spec fn valid_edge(&self, e: EdgeAddr) -> bool {
        (e.index as int) < self.edges@.len()
    }

    /// The edge record a live handle designates.
    pub open spec fn edge(&self, e: EdgeAddr) -> Edge<E, D>
        recommends
            self.valid_edge(e),
    {
        self.edges@[e.index as int]
    }

    /// Whether a vertex with the key of `q` exists.
    pub open spec fn has_value(&self, q: V) -> bool {
        exists|a: VertAddr| #[trigger] self.nodes.valid(a) && self.nodes.at(a).val.key_eq(&q)
    }

    /// The handle of the vertex with the key of `q`; meaningful only when
    /// `has_value(q)` holds, in which case well-formedness makes it unique.
    pub open spec fn addr_of(&self, q: V) -> VertAddr {
        choose|a: VertAddr| #[trigger] self.nodes.valid(a) && self.nodes.at(a).val.key_eq(&q)
    }

    /// Whether the vertex arena must accept a vertex with the key of `v`.
    pub open spec fn can_place_value(&self, v: V) -> bool {
        &&& self.nodes.capacity_spec() > 0
        &&& !self.nodes.over_threshold()
        &&& self.nodes.bucket(
            v.key_hash() as int % self.nodes.capacity_spec() as int,
        ).len() < MAX_BUCKET_SIZE as nat
    }

    /// No two vertices hold key-equal values.
    pub open spec fn distinct_values(&self) -> bool {
        forall|a1: VertAddr, a2: VertAddr|
            self.nodes.valid(a1) && self.nodes.valid(a2) && a1 != a2 ==> !(#[trigger] self.nodes.at(
                a1,
            )).val.key_eq(&(#[trigger] self.nodes.at(a2)).val)
    }

    /// What every adjacency entry of the vertex at `a` references: a live
    /// edge, incident to the vertex, on the side the list stands for.
    pub open spec fn adjacency_wf_at(&self, a: VertAddr) -> bool {
        &&& forall|i: int|
            0 <= i < self.nodes.at(a).hood.outs().len() ==> {
                let e = #[trigger] self.nodes.at(a).hood.outs()[i];
                &&& (e.index as int) < self.edges@.len()
                &&& if D::merged() {
                    self.edges@[e.index as int].incident(a)
                } else {
                    self.edges@[e.index as int].src() == a
                }
            }
        &&& forall|i: int|
            0 <= i < self.nodes.at(a).hood.ins().len() ==> {
                let e = #[trigger] self.nodes.at(a).hood.ins()[i];
                &&& (e.index as int) < self.edges@.len()
                &&& if D::merged() {
                    self.edges@[e.index as int].incident(a)
                } else {
                    self.edges@[e.index as int].dst() == a
                }
            }
    }

    /// Every live edge is registered at both of its endpoints: on the `dst`
    /// side of the source's bookkeeping and the `src` side of the
    /// destination's, the two sides `insert_edge` fills.
    pub open spec fn edges_registered(&self) -> bool {
        forall|e: EdgeAddr|
            #[trigger] self.valid_edge(e) ==> self.nodes.at(
                self.edge(e).ends.0,
            ).hood.outs().contains(e) && self.nodes.at(self.edge(e).ends.1).hood.ins().contains(e)
    }

    /// Well-formedness of the whole graph: the arena is sound, vertex values
    /// are pairwise distinct, every edge endpoint is a live vertex handle,
    /// every adjacency entry references a live, incident edge, and every
    /// edge stands in both endpoints' adjacency.
    pub open spec fn wf(&self) -> bool {
        &&& self.nodes.wf()
        &&& self.distinct_values()
        &&& forall|k: int|
            0 <= k < self.edges@.len() ==> self.nodes.valid(
                (#[trigger] self.edges@[k]).ends.0,
            ) && self.nodes.valid(self.edges@[k].ends.1)
        &&& forall|a: VertAddr| #[trigger] self.nodes.valid(a) ==> self.adjacency_wf_at(a)
        &&& self.edges_registered()
    }

    /// Create an empty graph with the default vertex capacity.
    pub fn new() -> (g: Self)
        ensures
            g.wf(),
            g.order_spec() == 0,
            g.size_spec() == 0,
            g.nodes.capacity_spec() == DEFAULT_GRAPH_CAPACITY,
            forall|t: int|
                0 <= t < DEFAULT_GRAPH_CAPACITY ==> (#[trigger] g.nodes.bucket(t)).len() == 0,
    {
        Self::with_capacity(DEFAULT_GRAPH_CAPACITY, 0)
    }

    /// Create an empty graph with room for `n` vertex buckets and `m`
    /// pre-allocated edge slots.
    pub fn with_capacity(n: usize, m: usize) -> (g: Self)
        requires
            n <= usize::MAX / 64,
        ensures
            g.wf(),
            g.order_spec() == 0,
            g.size_spec() == 0,
            g.nodes.capacity_spec() == n,
            forall|t: int| 0 <= t < n ==> (#[trigger] g.nodes.bucket(t)).len() == 0,
    {
        let nodes = AddrHashSet::with_capacity(n);
        let edges = Vec::with_capacity(m);
        let g = Graph { nodes, edges };
        proof {
            assert forall|a: VertAddr| g.nodes.valid(a) implies g.adjacency_wf_at(a) by {
                assert(g.nodes.bucket(a.table as int).len() == 0);
            }
        }
        g
    }

    /// Number of edges in the graph.
    pub fn size(&self) -> (n: usize)
        ensures
            n == self.size_spec(),
    {
        self.edges.len()
    }

    /// Number of vertices in the graph.
    pub fn order(&self) -> (n: usize)
        ensures
            n == self.order_spec(),
    {
        self.nodes.len()
    }

    /// A graph without vertices holds no edges either: every edge endpoint
    /// is a live vertex handle.
    pub proof fn lemma_no_vertices_no_edges(&self)
        requires
            self.wf(),
            self.order_spec() == 0,
        ensures
            self.size_spec() == 0,
    {
        if self.edges@.len() > 0 {
            let a = self.edges@[0].ends.0;
            assert(self.nodes.valid(a));
            crate::addr_hm::lemma_enumeration_bound(self.nodes, seq![a]);
        }
    }

    /// Whether the graph has no vertices.
    pub fn is_empty(&self) -> (r: bool)
        ensures
            r == (self.order_spec() == 0),
    {
        self.order() == 0
    }

    /// How a call of `insert_vertex` with `v`, answered with `r`, relates
    /// this graph to its successor `post`: accepted exactly when no
    /// key-equal vertex exists and the arena can place one, in which case a
    /// fresh vertex with empty adjacency appears under the returned handle
    /// and nothing else changes.
    pub open spec fn vertex_inserted(&self, post: Self, v: V, r: Option<VertAddr>) -> bool {
        &&& (r is Some <==> (!self.has_value(v) && self.can_place_value(v)))
        &&& post.edges@ == self.edges@
        &&& post.nodes.sig == self.nodes.sig
        &&& post.nodes.capacity_spec() == self.nodes.capacity_spec()
        &&& forall|a2: VertAddr|
            self.valid_vertex(a2) ==> #[trigger] post.valid_vertex(a2) && post.vertex(a2)
                == self.vertex(a2)
        &&& match r {
            Some(a) => {
                &&& post.order_spec() == self.order_spec() + 1
                &&& post.valid_vertex(a)
                &&& post.vertex(a).val == v
                &&& post.vertex(a).hood.ins() == Seq::<EdgeAddr>::empty()
                &&& post.vertex(a).hood.outs() == Seq::<EdgeAddr>::empty()
                &&& post.has_value(v)
                &&& !self.valid_vertex(a)
                &&& forall|b: VertAddr|
                    #[trigger] post.valid_vertex(b) ==> b == a || self.valid_vertex(b)
                &&& a.table as int == v.key_hash() as int % self.nodes.capacity_spec() as int
                &&& post.nodes.bucket(a.table as int).len() == self.nodes.bucket(
                    a.table as int,
                ).len() + 1
                &&& forall|t: int|
                    0 <= t < self.nodes.capacity_spec() && t != a.table as int ==> (
                    #[trigger] post.nodes.bucket(t)) == self.nodes.bucket(t)
            },
            None => post == *self,
        }
    }

    /// Insert a vertex wrapping `v`: rejected when a key-equal vertex
    /// already exists or the arena cannot place it; otherwise the new
    /// vertex, with empty adjacency, becomes reachable under the returned
    /// handle and the order grows by one.
    pub fn insert_vertex(&mut self, v: V) -> (r: Option<VertAddr>)
        requires
            old(self).wf(),
        ensures
            final(self).wf(),
            old(self).vertex_inserted(*final(self), v, r),
    {
        let vert: Vertex<V, D> = Vertex::new(v);
        let ghost gvert = vert;
        if self.nodes.contains(&vert) {
            proof {
                crate::addr_hm::lemma_has_key_iff_handle(self.nodes, gvert);
            }
            return None;
        }
        let r = self.nodes.insert(vert);
        proof {
            crate::addr_hm::lemma_has_key_iff_handle(old(self).nodes, gvert);
            if r is Some {
                let a = r->0;
                assert forall|b: VertAddr| #[trigger] self.nodes.valid(b) implies b == a || old(
                    self,
                ).nodes.valid(b) by {
                    if b != a {
                        if b.table as int == a.table as int {
                            assert(self.nodes.bucket(b.table as int) == old(self).nodes.bucket(
                                b.table as int,
                            ).push(gvert));
                        } else {
                            assert(self.nodes.bucket(b.table as int) == old(self).nodes.bucket(
                                b.table as int,
                            ));
                        }
                    }
                }
                assert forall|a1: VertAddr, a2: VertAddr|
                    self.nodes.valid(a1) && self.nodes.valid(a2) && a1 != a2 implies !(
                #[trigger] self.nodes.at(a1)).val.key_eq(&(#[trigger] self.nodes.at(a2)).val) by {
                    if a1 == a {
                        if self.nodes.at(a1).val.key_eq(&self.nodes.at(a2).val) {
                            self.nodes.at(a1).val.lemma_key_eq_symmetric(&self.nodes.at(a2).val);
                            assert(old(self).nodes.valid(a2));
                            assert(old(self).nodes.at(a2).key_eq(&gvert));
                            assert(false);
                        }
                    } else if a2 == a {
                        if self.nodes.at(a1).val.key_eq(&self.nodes.at(a2).val) {
                            assert(old(self).nodes.valid(a1));
                            assert(old(self).nodes.at(a1).key_eq(&gvert));
                            assert(false);
                        }
                    } else {
                        assert(old(self).nodes.valid(a1) && old(self).nodes.valid(a2));
                        assert(self.nodes.at(a1) == old(self).nodes.at(a1));
                        assert(self.nodes.at(a2) == old(self).nodes.at(a2));
                    }
                }
                assert forall|a2: VertAddr| #[trigger] self.nodes.valid(a2) implies self.adjacency_wf_at(a2) by {
                    if a2 == a {
                        assert(self.nodes.at(a2).hood.outs().len() == 0);
                        assert(self.nodes.at(a2).hood.ins().len() == 0);
                    } else {
                        assert(old(self).nodes.valid(a2));
                        assert(self.nodes.at(a2) == old(self).nodes.at(a2));
                        assert(old(self).adjacency_wf_at(a2));
                    }
                }
                assert(self.nodes.valid(a) && self.nodes.at(a).val.key_eq(&v)) by {
                    gvert.val.lemma_key_eq_reflexive();
                }
                assert forall|e2: EdgeAddr| #[trigger] self.valid_edge(e2) implies self.nodes.at(
                    self.edge(e2).ends.0,
                ).hood.outs().contains(e2) && self.nodes.at(
                    self.edge(e2).ends.1,
                ).hood.ins().contains(e2) by {
                    assert(old(self).valid_edge(e2));
                    let ed = old(self).edge(e2);
                    assert(old(self).nodes.valid(ed.ends.0) && old(self).nodes.valid(ed.ends.1));
                    assert(self.nodes.at(ed.ends.0) == old(self).nodes.at(ed.ends.0));
                    assert(self.nodes.at(ed.ends.1) == old(self).nodes.at(ed.ends.1));
                }
            }
        }
        r
    }

    /// Look a vertex up by value.
    pub fn get_vertex(&self, q: &V) -> (r: Option<&Vertex<V, D>>)
        requires
            self.wf(),
        ensures
            r is Some <==> self.has_value(*q),
            match r {
                Some(vert) => *vert == self.vertex(self.addr_of(*q)) && vert.val.key_eq(q),
                None => true,
            },
    {
        match self.get_addr(q) {
            Some(a) => Some(self.nodes.index(a)),
            None => None,
        }
    }

    /// The handle of the vertex holding the key of `q`, if any.
    pub fn get_addr(&self, q: &V) -> (r: Option<VertAddr>)
        requires
            self.wf(),
        ensures
            r is Some <==> self.has_value(*q),
            match r {
                Some(a) => a == self.addr_of(*q) && self.valid_vertex(a) && self.vertex(
                    a,
                ).val.key_eq(q),
                None => true,
            },
    {
        let probe: Vertex<V, D> = Vertex::new(q.dup_key());
        let ghost gprobe = probe;
        let r = self.nodes.get(&probe);
        proof {
            self.lemma_probe_bridge(gprobe, *q);
        }
        match r {
            Some(a) => {
                proof {
                    let b = self.addr_of(*q);
                    self.nodes.at(a).val.lemma_key_eq_transitive(&gprobe.val, q);
                    assert(self.nodes.valid(a) && self.nodes.at(a).val.key_eq(q));
                    if b != a {
                        assert(!self.nodes.at(b).val.key_eq(&self.nodes.at(a).val));
                        self.nodes.at(b).val.lemma_key_eq_symmetric(q);
                        self.nodes.at(a).val.lemma_key_eq_symmetric(q);
                        self.nodes.at(b).val.lemma_key_eq_transitive(q, &self.nodes.at(a).val);
                        assert(false);
                    }
                }
                Some(a)
            },
            None => None,
        }
    }

    /// Read the vertex record a live handle designates.
    pub fn vertex_at(&self, a: VertAddr) -> (r: &Vertex<V, D>)
        requires
            self.wf(),
            self.valid_vertex(a),
        ensures
            *r == self.vertex(a),
    {
        self.nodes.index(a)
    }

    /// Whether a vertex with the key of `k` exists.
    pub fn contains_key(&self, k: &V) -> (r: bool)
        requires
            self.wf(),
        ensures
            r == self.has_value(*k),
    {
        self.get_addr(k).is_some()
    }

    /// One hop of forward reachability: some edge in the reachable list of
    /// the vertex at `u` resolves to `v`.
    pub open spec fn step(&self, u: VertAddr, v: VertAddr) -> bool {
        exists|i: int|
            0 <= i < self.vertex(u).hood.outs().len() && v == self.edge(
                #[trigger] self.vertex(u).hood.outs()[i],
            ).other(u)
    }

    /// Reachability from `s` to `v` in at most `n` hops.
    pub open spec fn reaches_in(&self, s: VertAddr, v: VertAddr, n: nat) -> bool
        decreases n,
    {
        if s == v {
            true
        } else if n == 0 {
            false
        } else {
            exists|u: VertAddr|
                self.reaches_in(s, u, (n - 1) as nat) && #[trigger] self.step(u, v)
        }
    }

    /// Reachability from `s` to `v` in any number of hops.
    pub open spec fn reaches(&self, s: VertAddr, v: VertAddr) -> bool {
        exists|n: nat| #[trigger] self.reaches_in(s, v, n)
    }

    /// Whether every vertex reaches every vertex.
    pub open spec fn connected(&self) -> bool {
        forall|u: VertAddr, v: VertAddr|
            self.valid_vertex(u) && self.valid_vertex(v) ==> #[trigger] self.reaches(u, v)
    }

    /// A step away from a live vertex lands on a live vertex.
    pub proof fn lemma_step_valid(&self, u: VertAddr, v: VertAddr)
        requires
            self.wf(),
            self.valid_vertex(u),
            self.step(u, v),
        ensures
            self.valid_vertex(v),
    {
        let i = choose|i: int|
            0 <= i < self.vertex(u).hood.outs().len() && v == self.edge(
                #[trigger] self.vertex(u).hood.outs()[i],
            ).other(u);
        assert(self.adjacency_wf_at(u));
        let e = self.vertex(u).hood.outs()[i];
        assert((e.index as int) < self.edges@.len());
        assert(self.nodes.valid(self.edges@[e.index as int].ends.0));
        assert(self.nodes.valid(self.edges@[e.index as int].ends.1));
    }

    /// Whatever is reached from a live vertex is live.
    pub proof fn lemma_reaches_valid(&self, s: VertAddr, v: VertAddr, n: nat)
        requires
            self.wf(),
            self.valid_vertex(s),
            self.reaches_in(s, v, n),
        ensures
            self.valid_vertex(v),
        decreases n,
    {
        if s != v && n > 0 {
            let u = choose|u: VertAddr|
                self.reaches_in(s, u, (n - 1) as nat) && #[trigger] self.step(u, v);
            self.lemma_reaches_valid(s, u, (n - 1) as nat);
            self.lemma_step_valid(u, v);
        }
    }

    /// Extending a reachable vertex by one step stays reachable.
    pub proof fn lemma_reaches_step(&self, s: VertAddr, u: VertAddr, v: VertAddr)
        requires
            self.reaches(s, u),
            self.step(u, v),
        ensures
            self.reaches(s, v),
    {
        let n = choose|n: nat| #[trigger] self.reaches_in(s, u, n);
        assert(self.reaches_in(s, v, n + 1));
    }

    /// The hop distance from `s` to `v`: the least number of steps that
    /// reaches `v`.  Meaningful only when `reaches(s, v)` holds;
    /// `lemma_dist_minimal` delivers its defining properties then.
    pub open spec fn dist(&self, s: VertAddr, v: VertAddr) -> nat {
        choose|n: nat|
            self.reaches_in(s, v, n) && (forall|m: nat| m < n ==> !self.reaches_in(s, v, m))
    }

    proof fn lemma_least_hops(&self, s: VertAddr, v: VertAddr, n: nat)
        requires
            self.reaches_in(s, v, n),
        ensures
            exists|k: nat|
                self.reaches_in(s, v, k) && (forall|m: nat| m < k ==> !#[trigger] self.reaches_in(
                    s,
                    v,
                    m,
                )),
        decreases n,
    {
        if exists|m: nat| m < n && #[trigger] self.reaches_in(s, v, m) {
            let m = choose|m: nat| m < n && #[trigger] self.reaches_in(s, v, m);
            self.lemma_least_hops(s, v, m);
        } else {
            assert(self.reaches_in(s, v, n) && (forall|m: nat| m < n ==> !#[trigger] self.reaches_in(
                s,
                v,
                m,
            )));
        }
    }

    /// The defining properties of the hop distance: it reaches, and nothing
    /// shorter does.
    pub proof fn lemma_dist_minimal(&self, s: VertAddr, v: VertAddr)
        requires
            self.reaches(s, v),
        ensures
            self.reaches_in(s, v, self.dist(s, v)),
            forall|m: nat| m < self.dist(s, v) ==> !#[trigger] self.reaches_in(s, v, m),
    {
        let n = choose|n: nat| #[trigger] self.reaches_in(s, v, n);
        self.lemma_least_hops(s, v, n);
    }

    /// A sequence length with the defining properties is the hop distance.
    pub proof fn lemma_dist_unique(&self, s: VertAddr, v: VertAddr, n: nat)
        requires
            self.reaches_in(s, v, n),
            forall|m: nat| m < n ==> !#[trigger] self.reaches_in(s, v, m),
        ensures
            self.dist(s, v) == n,
    {
        assert(self.reaches(s, v));
        self.lemma_dist_minimal(s, v);
    }

    /// The start vertex is at distance zero.
    pub proof fn lemma_dist_start(&self, s: VertAddr)
        ensures
            self.dist(s, s) == 0,
    {
        assert(self.reaches_in(s, s, 0));
        self.lemma_dist_unique(s, s, 0);
    }

    /// One step grows the hop distance by at most one.
    pub proof fn lemma_dist_step(&self, s: VertAddr, u: VertAddr, v: VertAddr)
        requires
            self.reaches(s, u),
            self.step(u, v),
        ensures
            self.reaches(s, v),
            self.dist(s, v) <= self.dist(s, u) + 1,
    {
        self.lemma_dist_minimal(s, u);
        assert(self.reaches_in(s, v, self.dist(s, u) + 1));
        self.lemma_reaches_step(s, u, v);
        self.lemma_dist_minimal(s, v);
        if self.dist(s, v) > self.dist(s, u) + 1 {
            assert(!self.reaches_in(s, v, self.dist(s, u) + 1));
        }
    }

    /// A vertex at positive hop distance has a predecessor one hop closer.
    pub proof fn lemma_dist_pred(&self, s: VertAddr, v: VertAddr)
        requires
            self.reaches(s, v),
            self.dist(s, v) > 0,
        ensures
            exists|u: VertAddr|
                #[trigger] self.step(u, v) && self.reaches(s, u) && self.dist(s, u) == self.dist(
                    s,
                    v,
                ) - 1,
    {
        self.lemma_dist_minimal(s, v);
        let d = self.dist(s, v);
        assert(s != v) by {
            if s == v {
                assert(self.reaches_in(s, v, 0));
            }
        }
        let u = choose|u: VertAddr|
            self.reaches_in(s, u, (d - 1) as nat) && #[trigger] self.step(u, v);
        assert(self.reaches(s, u));
        self.lemma_dist_minimal(s, u);
        assert(self.dist(s, u) <= d - 1);
        if self.dist(s, u) < d - 1 {
            assert(self.reaches_in(s, u, self.dist(s, u)));
            assert(self.reaches_in(s, v, self.dist(s, u) + 1));
            assert(!self.reaches_in(s, v, self.dist(s, u) + 1));
        }
        assert(self.step(u, v) && self.reaches(s, u) && self.dist(s, u) == d - 1);
    }

    /// Reachability is transitive.
    pub proof fn lemma_reaches_trans(&self, a: VertAddr, b: VertAddr, c: VertAddr)
        requires
            self.reaches(a, b),
            self.reaches(b, c),
        ensures
            self.reaches(a, c),
    {
        let n = choose|n: nat| #[trigger] self.reaches_in(b, c, n);
        self.lemma_reaches_trans_in(a, b, c, n);
    }

    proof fn lemma_reaches_trans_in(&self, a: VertAddr, b: VertAddr, c: VertAddr, n: nat)
        requires
            self.reaches(a, b),
            self.reaches_in(b, c, n),
        ensures
            self.reaches(a, c),
        decreases n,
    {
        if b != c && n > 0 {
            let u = choose|u: VertAddr|
                self.reaches_in(b, u, (n - 1) as nat) && #[trigger] self.step(u, c);
            self.lemma_reaches_trans_in(a, b, u, (n - 1) as nat);
            self.lemma_reaches_step(a, u, c);
        }
    }

    /// Under a merged (undirected) policy every step runs both ways: the
    /// edge that takes `u` to `v` stands in the adjacency of both endpoints.
    pub proof fn lemma_step_symmetric(&self, u: VertAddr, v: VertAddr)
        requires
            self.wf(),
            D::merged(),
            self.valid_vertex(u),
            self.step(u, v),
        ensures
            self.step(v, u),
    {
        let i = choose|i: int|
            0 <= i < self.vertex(u).hood.outs().len() && v == self.edge(
                #[trigger] self.vertex(u).hood.outs()[i],
            ).other(u);
        let e = self.vertex(u).hood.outs()[i];
        assert(self.adjacency_wf_at(u));
        assert(self.valid_edge(e));
        let ed = self.edge(e);
        assert(ed.incident(u));
        assert(self.nodes.at(ed.ends.0).hood.outs().contains(e));
        assert(self.nodes.at(ed.ends.1).hood.ins().contains(e));
        if ed.ends.0 == u {
            // v is the far end; the edge stands in v's `ins`, which under a
            // merged policy is the same list reachability follows
            assert(v == ed.ends.1);
            self.nodes.at(v).hood.lemma_merged();
            assert(self.nodes.at(v).hood.outs().contains(e));
            let j = choose|j: int|
                0 <= j < self.nodes.at(v).hood.outs().len() && self.nodes.at(v).hood.outs()[j]
                    == e;
            assert(self.edge(self.vertex(v).hood.outs()[j]).other(v) == u);
        } else {
            assert(ed.ends.1 == u && v == ed.ends.0);
            assert(self.nodes.at(v).hood.outs().contains(e));
            let j = choose|j: int|
                0 <= j < self.nodes.at(v).hood.outs().len() && self.nodes.at(v).hood.outs()[j]
                    == e;
            assert(self.edge(self.vertex(v).hood.outs()[j]).other(v) == u);
        }
    }

    /// Under a merged (undirected) policy reachability is symmetric.
    pub proof fn lemma_reaches_symmetric(&self, u: VertAddr, v: VertAddr)
        requires
            self.wf(),
            D::merged(),
            self.valid_vertex(u),
            self.reaches(u, v),
        ensures
            self.reaches(v, u),
    {
        let n = choose|n: nat| #[trigger] self.reaches_in(u, v, n);
        self.lemma_reaches_symmetric_in(u, v, n);
    }

    proof fn lemma_reaches_symmetric_in(&self, u: VertAddr, v: VertAddr, n: nat)
        requires
            self.wf(),
            D::merged(),
            self.valid_vertex(u),
            self.reaches_in(u, v, n),
        ensures
            self.reaches(v, u),
        decreases n,
    {
        if u == v {
            assert(self.reaches_in(v, u, 0));
        } else {
            let w = choose|w: VertAddr|
                self.reaches_in(u, w, (n - 1) as nat) && #[trigger] self.step(w, v);
            self.lemma_reaches_symmetric_in(u, w, (n - 1) as nat);
            self.lemma_reaches_valid(u, w, (n - 1) as nat);
            self.lemma_step_symmetric(w, v);
            assert(self.reaches_in(v, v, 0));
            self.lemma_reaches_step(v, v, w);
            self.lemma_reaches_trans(v, w, u);
        }
    }

    /// A collection of handles that holds `s` and is closed under steps
    /// holds everything reachable from `s`.
    pub proof fn lemma_closed_covers(&self, s: VertAddr, hs: Seq<VertAddr>, v: VertAddr, n: nat)
        requires
            hs.contains(s),
            forall|u: VertAddr, w: VertAddr|
                hs.contains(u) && #[trigger] self.step(u, w) ==> hs.contains(w),
            self.reaches_in(s, v, n),
        ensures
            hs.contains(v),
        decreases n,
    {
        if s != v && n > 0 {
            let u = choose|u: VertAddr|
                self.reaches_in(s, u, (n - 1) as nat) && #[trigger] self.step(u, v);
            self.lemma_closed_covers(s, hs, u, (n - 1) as nat);
        }
    }

    /// Read the edge record a live handle designates.
    pub fn edge_at(&self, e: EdgeAddr) -> (r: &Edge<E, D>)
        requires
            self.valid_edge(e),
        ensures
            *r == self.edge(e),
    {
        &self.edges[e.index]
    }

    /// The edge list, in insertion order.
    pub fn edges(&self) -> (r: &Vec<Edge<E, D>>)
        ensures
            r@ == self.edges@,
    {
        &self.edges
    }

    /// Whether edge `k` joins the vertices at `h1` and `h2`, in either
    /// orientation.
    pub open spec fn connects(&self, k: int, h1: VertAddr, h2: VertAddr) -> bool {
        self.edges@[k].ends == (h1, h2) || self.edges@[k].ends == (h2, h1)
    }

    /// Whether some edge joins the vertices at `h1` and `h2`.
    pub open spec fn has_edge_between(&self, h1: VertAddr, h2: VertAddr) -> bool {
        exists|k: int| 0 <= k < self.edges@.len() && #[trigger] self.connects(k, h1, h2)
    }

    /// The edge joining the vertices holding `q1` and `q2`, queried in
    /// either order; absent when either value is absent or no such edge
    /// exists.
    pub fn edge_between(&self, q1: &V, q2: &V) -> (r: Option<&Edge<E, D>>)
        requires
            self.wf(),
        ensures
            r is Some <==> (self.has_value(*q1) && self.has_value(*q2) && self.has_edge_between(
                self.addr_of(*q1),
                self.addr_of(*q2),
            )),
            match r {
                Some(ed) => exists|k: int|
                    0 <= k < self.edges@.len() && *ed == self.edges@[k] && #[trigger] self.connects(
                        k,
                        self.addr_of(*q1),
                        self.addr_of(*q2),
                    ),
                None => true,
            },
    {
        let h1 = match self.get_addr(q1) {
            Some(a) => a,
            None => {
                return None;
            },
        };
        let h2 = match self.get_addr(q2) {
            Some(a) => a,
            None => {
                return None;
            },
        };
        let mut k: usize = 0;
        while k < self.edges.len()
            invariant
                self.wf(),
                self.has_value(*q1),
                self.has_value(*q2),
                h1 == self.addr_of(*q1),
                h2 == self.addr_of(*q2),
                k <= self.edges@.len(),
                forall|j: int| 0 <= j < k ==> !#[trigger] self.connects(j, h1, h2),
            decreases self.edges@.len() - k,
        {
            let ed = &self.edges[k];
            let (e0, e1) = ed.ends;
            if (e0 == h1 && e1 == h2) || (e0 == h2 && e1 == h1) {
                proof {
                    assert(self.edges@[k as int].ends == (e0, e1));
                    assert(self.connects(k as int, h1, h2));
                }
                return Some(ed);
            }
            k = k + 1;
        }
        None
    }

    /// Whether some edge joins the vertices holding `q1` and `q2`.
    pub fn are_adjacent(&self, q1: &V, q2: &V) -> (r: bool)
        requires
            self.wf(),
        ensures
            r == (self.has_value(*q1) && self.has_value(*q2) && self.has_edge_between(
                self.addr_of(*q1),
                self.addr_of(*q2),
            )),
    {
        self.edge_between(q1, q2).is_some()
    }

    /// How inserting an edge of weight `w` from the vertex at `hl` to the
    /// vertex at `hr`, under handle `ea`, relates this graph to its
    /// successor `post`: the edge list grows by exactly that record, every
    /// vertex keeps its value and handle, and the edge is registered on the
    /// `dst` side at `hl` and the `src` side at `hr` — at both ends once
    /// each, also when they coincide.
    pub open spec fn edge_registered(
        &self,
        post: Self,
        ea: EdgeAddr,
        hl: VertAddr,
        hr: VertAddr,
        w: E,
    ) -> bool {
        &&& ea.index as int == self.edges@.len()
        &&& post.edges@.len() == self.edges@.len() + 1
        &&& forall|k: int| 0 <= k < self.edges@.len() ==> #[trigger] post.edges@[k] == self.edges@[k]
        &&& post.edge(ea).weight == w
        &&& post.edge(ea).ends == (hl, hr)
        &&& post.nodes.sig == self.nodes.sig
        &&& post.nodes.size == self.nodes.size
        &&& post.nodes.capacity_spec() == self.nodes.capacity_spec()
        &&& forall|a: VertAddr| #[trigger] self.nodes.valid(a) ==> post.nodes.valid(a)
        &&& forall|a: VertAddr| #[trigger] post.nodes.valid(a) ==> self.nodes.valid(a)
        &&& forall|a: VertAddr|
            self.nodes.valid(a) ==> (#[trigger] post.nodes.at(a)).val == self.nodes.at(a).val
        &&& forall|a: VertAddr|
            self.nodes.valid(a) && a != hl && a != hr ==> #[trigger] post.nodes.at(a)
                == self.nodes.at(a)
        &&& if hl != hr {
            &&& post.nodes.at(hl).hood.outs() == self.nodes.at(hl).hood.outs().push(ea)
            &&& post.nodes.at(hl).hood.ins() == (if D::merged() {
                self.nodes.at(hl).hood.ins().push(ea)
            } else {
                self.nodes.at(hl).hood.ins()
            })
            &&& post.nodes.at(hr).hood.ins() == self.nodes.at(hr).hood.ins().push(ea)
            &&& post.nodes.at(hr).hood.outs() == (if D::merged() {
                self.nodes.at(hr).hood.outs().push(ea)
            } else {
                self.nodes.at(hr).hood.outs()
            })
        } else {
            &&& post.nodes.at(hl).hood.outs() == (if D::merged() {
                self.nodes.at(hl).hood.outs().push(ea).push(ea)
            } else {
                self.nodes.at(hl).hood.outs().push(ea)
            })
            &&& post.nodes.at(hl).hood.ins() == (if D::merged() {
                self.nodes.at(hl).hood.ins().push(ea).push(ea)
            } else {
                self.nodes.at(hl).hood.ins().push(ea)
            })
        }
    }

    /// Insert an edge of weight `e` from the vertex holding `l` to the
    /// vertex holding `r`.  Fails, changing nothing, exactly when either
    /// value has no vertex; otherwise the edge is created and registered at
    /// both endpoints in one step, and the size grows by one.
    pub fn insert_edge(&mut self, e: E, l: &V, r: &V) -> (res: Option<EdgeAddr>)
        requires
            old(self).wf(),
        ensures
            final(self).wf(),
            res is Some <==> (old(self).has_value(*l) && old(self).has_value(*r)),
            match res {
                Some(ea) => {
                    &&& final(self).size_spec() == old(self).size_spec() + 1
                    &&& final(self).order_spec() == old(self).order_spec()
                    &&& old(self).edge_registered(
                        *final(self),
                        ea,
                        old(self).addr_of(*l),
                        old(self).addr_of(*r),
                        e,
                    )
                },
                None => *final(self) == *old(self),
            },
    {
        let hl = match self.get_addr(l) {
            Some(a) => a,
            None => {
                return None;
            },
        };
        let hr = match self.get_addr(r) {
            Some(a) => a,
            None => {
                return None;
            },
        };
        let ea = EdgeAddr { index: self.edges.len() };
        let edge: Edge<E, D> = Edge::new(e, hl, hr);
        self.edges.push(edge);
        let ghost mid0 = *self;
        let vl: &mut Vertex<V, D> = self.nodes.index_mut(hl);
        vl.register_as_dst(ea);
        proof {
            crate::addr_hm::lemma_wf_after_replace(
                mid0.nodes,
                self.nodes,
                hl,
                self.nodes.at(hl),
            );
        }
        let ghost mid1 = *self;
        let vr: &mut Vertex<V, D> = self.nodes.index_mut(hr);
        vr.register_as_src(ea);
        proof {
            crate::addr_hm::lemma_wf_after_replace(
                mid1.nodes,
                self.nodes,
                hr,
                self.nodes.at(hr),
            );
            self.lemma_insert_edge_wf(*old(self), mid0, mid1, ea, hl, hr, e);
        }
        Some(ea)
    }

    /// The two registration steps of `insert_edge` leave the graph well
    /// formed and related to its starting state as `edge_registered` says.
    proof fn lemma_insert_edge_wf(
        &self,
        pre: Self,
        mid0: Self,
        mid1: Self,
        ea: EdgeAddr,
        hl: VertAddr,
        hr: VertAddr,
        w: E,
    )
        requires
            pre.wf(),
            pre.nodes.valid(hl),
            pre.nodes.valid(hr),
            ea.index as int == pre.edges@.len(),
            mid0.edges@.len() == pre.edges@.len() + 1,
            forall|k: int| 0 <= k < pre.edges@.len() ==> #[trigger] mid0.edges@[k] == pre.edges@[k],
            mid0.edges@[pre.edges@.len() as int].weight == w,
            mid0.edges@[pre.edges@.len() as int].ends == (hl, hr),
            mid0.nodes == pre.nodes,
            mid1.edges@ == mid0.edges@,
            self.edges@ == mid1.edges@,
            mid1.nodes.wf(),
            self.nodes.wf(),
            mid1.nodes.sig == mid0.nodes.sig,
            mid1.nodes.size == mid0.nodes.size,
            mid1.nodes.capacity_spec() == mid0.nodes.capacity_spec(),
            self.nodes.sig == mid1.nodes.sig,
            self.nodes.size == mid1.nodes.size,
            self.nodes.capacity_spec() == mid1.nodes.capacity_spec(),
            forall|b: VertAddr| #[trigger] mid0.nodes.valid(b) ==> mid1.nodes.valid(b),
            forall|b: VertAddr| #[trigger] mid1.nodes.valid(b) ==> mid0.nodes.valid(b),
            forall|b: VertAddr| #[trigger] mid1.nodes.valid(b) ==> self.nodes.valid(b),
            forall|b: VertAddr| #[trigger] self.nodes.valid(b) ==> mid1.nodes.valid(b),
            mid1.nodes.valid(hl),
            self.nodes.valid(hr),
            forall|b: VertAddr|
                mid0.nodes.valid(b) && b != hl ==> #[trigger] mid1.nodes.at(b) == mid0.nodes.at(b),
            forall|b: VertAddr|
                mid1.nodes.valid(b) && b != hr ==> #[trigger] self.nodes.at(b) == mid1.nodes.at(b),
            mid1.nodes.at(hl).val == mid0.nodes.at(hl).val,
            mid1.nodes.at(hl).hood.outs() == mid0.nodes.at(hl).hood.outs().push(ea),
            mid1.nodes.at(hl).hood.ins() == (if D::merged() {
                mid0.nodes.at(hl).hood.ins().push(ea)
            } else {
                mid0.nodes.at(hl).hood.ins()
            }),
            self.nodes.at(hr).val == mid1.nodes.at(hr).val,
            self.nodes.at(hr).hood.ins() == mid1.nodes.at(hr).hood.ins().push(ea),
            self.nodes.at(hr).hood.outs() == (if D::merged() {
                mid1.nodes.at(hr).hood.outs().push(ea)
            } else {
                mid1.nodes.at(hr).hood.outs()
            }),
        ensures
            self.wf(),
            pre.edge_registered(*self, ea, hl, hr, w),
    {
        assert(self.edge(ea).ends == (hl, hr));
        assert forall|a: VertAddr|
            pre.nodes.valid(a) implies (#[trigger] self.nodes.at(a)).val == pre.nodes.at(a).val by {
            if a == hr {
            } else if a == hl {
            } else {
            }
        }
        assert forall|a1: VertAddr, a2: VertAddr|
            self.nodes.valid(a1) && self.nodes.valid(a2) && a1 != a2 implies !(
        #[trigger] self.nodes.at(a1)).val.key_eq(&(#[trigger] self.nodes.at(a2)).val) by {
            assert(pre.nodes.valid(a1) && pre.nodes.valid(a2));
            assert(self.nodes.at(a1).val == pre.nodes.at(a1).val);
            assert(self.nodes.at(a2).val == pre.nodes.at(a2).val);
        }
        assert forall|k: int|
            0 <= k < self.edges@.len() implies self.nodes.valid(
            (#[trigger] self.edges@[k]).ends.0,
        ) && self.nodes.valid(self.edges@[k].ends.1) by {
            if k < pre.edges@.len() {
                assert(self.edges@[k] == pre.edges@[k]);
            } else {
                assert(self.edges@[k].ends == (hl, hr));
            }
        }
        assert forall|e2: EdgeAddr| #[trigger] self.valid_edge(e2) implies self.nodes.at(
            self.edge(e2).ends.0,
        ).hood.outs().contains(e2) && self.nodes.at(self.edge(e2).ends.1).hood.ins().contains(
            e2,
        ) by {
            if (e2.index as int) < pre.edges@.len() {
                assert(self.edges@[e2.index as int] == pre.edges@[e2.index as int]);
                let ed = pre.edge(e2);
                assert(pre.valid_edge(e2));
                assert(pre.nodes.at(ed.ends.0).hood.outs().contains(e2));
                assert(pre.nodes.at(ed.ends.1).hood.ins().contains(e2));
                assert(pre.nodes.valid(ed.ends.0) && pre.nodes.valid(ed.ends.1));
                let j0 = choose|j: int|
                    0 <= j < pre.nodes.at(ed.ends.0).hood.outs().len() && pre.nodes.at(
                        ed.ends.0,
                    ).hood.outs()[j] == e2;
                assert(self.nodes.at(ed.ends.0).hood.outs().len() >= pre.nodes.at(
                    ed.ends.0,
                ).hood.outs().len() && self.nodes.at(ed.ends.0).hood.outs()[j0] == e2) by {
                    if ed.ends.0 == hl && ed.ends.0 == hr {
                    } else if ed.ends.0 == hl {
                        assert(self.nodes.at(hl) == mid1.nodes.at(hl));
                    } else if ed.ends.0 == hr {
                        assert(mid1.nodes.at(hr) == mid0.nodes.at(hr));
                    } else {
                        assert(mid1.nodes.at(ed.ends.0) == mid0.nodes.at(ed.ends.0));
                        assert(self.nodes.at(ed.ends.0) == mid1.nodes.at(ed.ends.0));
                    }
                }
                assert(self.nodes.at(ed.ends.0).hood.outs().contains(e2));
                let j1 = choose|j: int|
                    0 <= j < pre.nodes.at(ed.ends.1).hood.ins().len() && pre.nodes.at(
                        ed.ends.1,
                    ).hood.ins()[j] == e2;
                assert(self.nodes.at(ed.ends.1).hood.ins().len() >= pre.nodes.at(
                    ed.ends.1,
                ).hood.ins().len() && self.nodes.at(ed.ends.1).hood.ins()[j1] == e2) by {
                    if ed.ends.1 == hl && ed.ends.1 == hr {
                    } else if ed.ends.1 == hl {
                        assert(self.nodes.at(hl) == mid1.nodes.at(hl));
                    } else if ed.ends.1 == hr {
                        assert(mid1.nodes.at(hr) == mid0.nodes.at(hr));
                    } else {
                        assert(mid1.nodes.at(ed.ends.1) == mid0.nodes.at(ed.ends.1));
                        assert(self.nodes.at(ed.ends.1) == mid1.nodes.at(ed.ends.1));
                    }
                }
                assert(self.nodes.at(ed.ends.1).hood.ins().contains(e2));
            } else {
                assert(e2.index as int == pre.edges@.len());
                assert(e2 == ea);
                assert(self.edge(e2).ends == (hl, hr));
                if hl != hr {
                    assert(self.nodes.at(hl) == mid1.nodes.at(hl));
                    assert(self.nodes.at(hl).hood.outs() == mid0.nodes.at(hl).hood.outs().push(
                        ea,
                    ));
                    assert(self.nodes.at(hl).hood.outs().last() == ea);
                } else {
                    assert(mid1.nodes.at(hl).hood.outs() == mid0.nodes.at(hl).hood.outs().push(
                        ea,
                    ));
                    assert(self.nodes.at(hl).hood.outs()[mid0.nodes.at(
                        hl,
                    ).hood.outs().len() as int] == ea);
                }
                assert(self.nodes.at(hl).hood.outs().contains(ea));
                assert(self.nodes.at(hr).hood.ins() == mid1.nodes.at(hr).hood.ins().push(ea));
                assert(self.nodes.at(hr).hood.ins().last() == ea);
                assert(self.nodes.at(hr).hood.ins().contains(ea));
            }
        }
        assert forall|a: VertAddr| #[trigger] self.nodes.valid(a) implies self.adjacency_wf_at(
            a,
        ) by {
            assert(pre.nodes.valid(a));
            assert(pre.adjacency_wf_at(a));
            let vpre = pre.nodes.at(a);
            let vpost = self.nodes.at(a);
            assert forall|i: int| 0 <= i < vpost.hood.outs().len() implies {
                let eh = #[trigger] vpost.hood.outs()[i];
                &&& (eh.index as int) < self.edges@.len()
                &&& if D::merged() {
                    self.edges@[eh.index as int].incident(a)
                } else {
                    self.edges@[eh.index as int].src() == a
                }
            } by {
                if i < vpre.hood.outs().len() && vpost.hood.outs()[i] == vpre.hood.outs()[i] {
                    let eh = vpre.hood.outs()[i];
                    assert((eh.index as int) < pre.edges@.len());
                    assert(self.edges@[eh.index as int] == pre.edges@[eh.index as int]);
                } else {
                    assert(vpost.hood.outs()[i] == ea);
                }
            }
            assert forall|i: int| 0 <= i < vpost.hood.ins().len() implies {
                let eh = #[trigger] vpost.hood.ins()[i];
                &&& (eh.index as int) < self.edges@.len()
                &&& if D::merged() {
                    self.edges@[eh.index as int].incident(a)
                } else {
                    self.edges@[eh.index as int].dst() == a
                }
            } by {
                if i < vpre.hood.ins().len() && vpost.hood.ins()[i] == vpre.hood.ins()[i] {
                    let eh = vpre.hood.ins()[i];
                    assert((eh.index as int) < pre.edges@.len());
                    assert(self.edges@[eh.index as int] == pre.edges@[eh.index as int]);
                } else {
                    assert(vpost.hood.ins()[i] == ea);
                }
            }
        }
    }

    /// A lazy cursor over all vertex handles; a fresh call re-scans the
    /// arena.
    pub fn vertices(&self) -> (it: iter::Vertices)
        requires
            self.wf(),
        ensures
            it.wf(),
            it.pos == 0,
            it.items@.len() == self.order_spec(),
            it.items@.no_duplicates(),
            forall|j: int| 0 <= j < it.items@.len() ==> self.valid_vertex(#[trigger] it.items@[j]),
            forall|a: VertAddr| #[trigger] self.valid_vertex(a) ==> it.items@.contains(a),
    {
        iter::Vertices::new(self)
    }

    /// The vertices one forward hop from the vertex at `a`, under the
    /// graph's direction policy, in edge-registration order.
    pub fn get_reachable(&self, a: VertAddr) -> (it: iter::Neighbors)
        requires
            self.wf(),
            self.valid_vertex(a),
        ensures
            it.wf(),
            it.pos == 0,
            it.items@.len() == self.vertex(a).hood.outs().len(),
            forall|i: int|
                0 <= i < it.items@.len() ==> it.items@[i] == self.edge(
                    #[trigger] self.vertex(a).hood.outs()[i],
                ).other(a) && self.valid_vertex(it.items@[i]),
    {
        iter::Neighbors::reachable(self, a)
    }

    /// A breadth-first traversal: from `start` if given, else from an
    /// arbitrary vertex if the graph has one.
    pub fn breadth_first(&self, start: Option<VertAddr>) -> (it: iter::BreadthFirst)
        requires
            self.wf(),
            match start {
                Some(s) => self.valid_vertex(s),
                None => true,
            },
        ensures
            it.wf(),
            it.pos == 0,
            start is Some ==> iter::traversal_of(*self, start->0, it.items@)
                && iter::level_ordered(*self, start->0, it.items@),
            start is None && self.order_spec() == 0 ==> it.items@.len() == 0,
            start is None && self.order_spec() > 0 ==> exists|s: VertAddr|
                self.valid_vertex(s) && #[trigger] iter::traversal_of(*self, s, it.items@)
                    && iter::level_ordered(*self, s, it.items@),
    {
        iter::BreadthFirst::new(self, start)
    }

    /// A depth-first traversal: from `start` if given, else from an
    /// arbitrary vertex if the graph has one.
    pub fn depth_first(&self, start: Option<VertAddr>) -> (it: iter::DepthFirst)
        requires
            self.wf(),
            match start {
                Some(s) => self.valid_vertex(s),
                None => true,
            },
        ensures
            it.wf(),
            it.pos == 0,
            start is Some ==> iter::traversal_of(*self, start->0, it.items@),
            start is None && self.order_spec() == 0 ==> it.items@.len() == 0,
            start is None && self.order_spec() > 0 ==> exists|s: VertAddr|
                self.valid_vertex(s) && #[trigger] iter::traversal_of(*self, s, it.items@),
    {
        iter::DepthFirst::new(self, start)
    }

    /// The forward-reachable clusters of the graph, each a full traversal
    /// from a vertex found uncovered.
    pub fn components(&self) -> (it: iter::Components)
        requires
            self.wf(),
        ensures
            forall|k: int|
                0 <= k < it.comps@.len() ==> self.valid_vertex(
                    (#[trigger] it.comps@[k])@[0],
                ) && iter::traversal_of(*self, it.comps@[k]@[0], it.comps@[k]@),
            forall|a: VertAddr|
                #[trigger] self.valid_vertex(a) ==> exists|k: int|
                    0 <= k < it.comps@.len() && (#[trigger] it.comps@[k])@.contains(a),
            forall|k1: int, k2: int|
                0 <= k1 < k2 < it.comps@.len() ==> !(#[trigger] it.comps@[k1])@.contains(
                    (#[trigger] it.comps@[k2])@[0],
                ),
    {
        iter::Components::new(self)
    }

    /// Bridge between arena-level key search with a probe vertex and the
    /// graph-level notion of holding a value.
    proof fn lemma_probe_bridge(&self, probe: Vertex<V, D>, q: V)
        requires
            self.wf(),
            probe.val.key_eq(&q),
        ensures
            self.nodes.has_key(&probe) <==> self.has_value(q),
            forall|a: VertAddr|
                #[trigger] self.nodes.valid(a) && self.nodes.at(a).key_eq(&probe)
                    ==> self.nodes.at(a).val.key_eq(&q),
    {
        crate::addr_hm::lemma_has_key_iff_handle(self.nodes, probe);
        assert forall|a: VertAddr|
            #[trigger] self.nodes.valid(a) && self.nodes.at(a).key_eq(&probe) implies self.nodes.at(
            a,
        ).val.key_eq(&q) by {
            self.nodes.at(a).val.lemma_key_eq_transitive(&probe.val, &q);
        }
        if self.has_value(q) {
            let a = choose|a: VertAddr|
                #[trigger] self.nodes.valid(a) && self.nodes.at(a).val.key_eq(&q);
            probe.val.lemma_key_eq_symmetric(&q);
            self.nodes.at(a).val.lemma_key_eq_symmetric(&q);
            q.lemma_key_eq_symmetric(&probe.val);
            self.nodes.at(a).val.lemma_key_eq_transitive(&q, &probe.val);
            assert(self.nodes.valid(a) && self.nodes.at(a).key_eq(&probe));
        }
    }
}

/// Number of accepted calls in a sequence of insertion answers.
pub open spec fn accepted_count(rs: Seq<Option<VertAddr>>) -> nat
    decreases rs.len(),
{
    if rs.len() == 0 {
        0
    } else {
        accepted_count(rs.drop_last()) + (if rs.last() is Some {
            1nat
        } else {
            0nat
        })
    }
}

impl<V: NodeT, E: EdgeT, D: DirT> Graph<V, E, D> {
    /// Over any sequence of `insert_vertex` calls, the order grows by
    /// exactly the number of calls that returned a handle: rejected
    /// duplicates and rejected placements are not counted.  `gs` are the
    /// successive graph states, `vs` the inserted values and `rs` the
    /// answers.
    pub proof fn lemma_order_counts_accepted_inserts(
        gs: Seq<Self>,
        vs: Seq<V>,
        rs: Seq<Option<VertAddr>>,
    )
        requires
            gs.len() == rs.len() + 1,
            vs.len() == rs.len(),
            forall|i: int|
                0 <= i < rs.len() ==> (#[trigger] gs[i]).vertex_inserted(gs[i + 1], vs[i], rs[i]),
        ensures
            gs.last().order_spec() == gs.first().order_spec() + accepted_count(rs),
        decreases rs.len(),
    {
        if rs.len() > 0 {
            let gs2 = gs.drop_last();
            let vs2 = vs.drop_last();
            let rs2 = rs.drop_last();
            assert forall|i: int|
                0 <= i < rs2.len() implies (#[trigger] gs2[i]).vertex_inserted(
                gs2[i + 1],
                vs2[i],
                rs2[i],
            ) by {
                assert(gs2[i] == gs[i] && gs2[i + 1] == gs[i + 1]);
                assert(gs[i].vertex_inserted(gs[i + 1], vs[i], rs[i]));
            }
            Self::lemma_order_counts_accepted_inserts(gs2, vs2, rs2);
            assert(gs[rs.len() - 1].vertex_inserted(gs[rs.len() as int], vs[rs.len() - 1], rs[
                rs.len() - 1]));
        }
    }
}

impl<V: NodeT, E: EdgeT> Graph<V, E, Undir> {
    /// Create an empty undirected graph.
    pub fn undirected() -> (g: Self)
        ensures
            g.wf(),
            g.order_spec() == 0,
            g.size_spec() == 0,
    {
        Self::new()
    }

    /// Insert an undirected edge between the vertices holding `l` and `r`.
    /// On success the size grows by one and the neighbor count of each
    /// endpoint grows by one — by two at a single endpoint joined to
    /// itself.
    pub fn insert_undirected_edge(&mut self, e: E, l: &V, r: &V) -> (res: Option<EdgeAddr>)
        requires
            old(self).wf(),
        ensures
            final(self).wf(),
            res is Some <==> (old(self).has_value(*l) && old(self).has_value(*r)),
            match res {
                Some(ea) => {
                    let hl = old(self).addr_of(*l);
                    let hr = old(self).addr_of(*r);
                    &&& final(self).size_spec() == old(self).size_spec() + 1
                    &&& final(self).order_spec() == old(self).order_spec()
                    &&& old(self).edge_registered(*final(self), ea, hl, hr, e)
                    &&& hl != hr ==> final(self).vertex(hl).hood.ins().len() == old(self).vertex(
                        hl,
                    ).hood.ins().len() + 1
                    &&& hl != hr ==> final(self).vertex(hr).hood.ins().len() == old(self).vertex(
                        hr,
                    ).hood.ins().len() + 1
                    &&& hl == hr ==> final(self).vertex(hl).hood.ins().len() == old(self).vertex(
                        hl,
                    ).hood.ins().len() + 2
                },
                None => *final(self) == *old(self),
            },
    {
        self.insert_edge(e, l, r)
    }

    /// The neighbors of the vertex at `a`, in edge-registration order.
    pub fn get_neighbors(&self, a: VertAddr) -> (it: iter::Neighbors)
        requires
            self.wf(),
            self.valid_vertex(a),
        ensures
            it.wf(),
            it.pos == 0,
            it.items@.len() == self.vertex(a).hood.ins().len(),
            forall|i: int|
                0 <= i < it.items@.len() ==> it.items@[i] == self.edge(
                    #[trigger] self.vertex(a).hood.ins()[i],
                ).other(a) && self.valid_vertex(it.items@[i]),
    {
        iter::Neighbors::undir_neighbors(self, a)
    }
}

impl<V: NodeT, E: EdgeT> Graph<V, E, Dir> {
    /// Create an empty directed graph.
    pub fn directed() -> (g: Self)
        ensures
            g.wf(),
            g.order_spec() == 0,
            g.size_spec() == 0,
    {
        Self::new()
    }

    /// Insert a directed edge from the vertex holding `l` to the vertex
    /// holding `r`.  On success the size grows by one, the child count of
    /// the source grows by one and the parent count of the destination
    /// grows by one.
    pub fn insert_directed_edge(&mut self, e: E, l: &V, r: &V) -> (res: Option<EdgeAddr>)
        requires
            old(self).wf(),
        ensures
            final(self).wf(),
            res is Some <==> (old(self).has_value(*l) && old(self).has_value(*r)),
            match res {
                Some(ea) => {
                    let hl = old(self).addr_of(*l);
                    let hr = old(self).addr_of(*r);
                    &&& final(self).size_spec() == old(self).size_spec() + 1
                    &&& final(self).order_spec() == old(self).order_spec()
                    &&& old(self).edge_registered(*final(self), ea, hl, hr, e)
                    &&& final(self).vertex(hl).hood.outs().len() == old(self).vertex(
                        hl,
                    ).hood.outs().len() + 1
                    &&& final(self).vertex(hr).hood.ins().len() == old(self).vertex(
                        hr,
                    ).hood.ins().len() + 1
                },
                None => *final(self) == *old(self),
            },
    {
        self.insert_edge(e, l, r)
    }

    /// The parents of the vertex at `a`, then its children.
    pub fn get_neighbors(&self, a: VertAddr) -> (it: iter::Neighbors)
        requires
            self.wf(),
            self.valid_vertex(a),
        ensures
            it.wf(),
            it.pos == 0,
            it.items@.len() == self.vertex(a).hood.ins().len() + self.vertex(a).hood.outs().len(),
            forall|i: int|
                0 <= i < self.vertex(a).hood.ins().len() ==> it.items@[i] == self.edge(
                    #[trigger] self.vertex(a).hood.ins()[i],
                ).src(),
            forall|i: int|
                0 <= i < self.vertex(a).hood.outs().len() ==> it.items@[self.vertex(
                    a,
                ).hood.ins().len() + i] == self.edge(#[trigger] self.vertex(a).hood.outs()[i]).dst(),
    {
        iter::Neighbors::dir_neighbors(self, a)
    }

    /// The parents of the vertex at `a`: sources of its incoming edges.
    pub fn get_parents(&self, a: VertAddr) -> (it: iter::Neighbors)
        requires
            self.wf(),
            self.valid_vertex(a),
        ensures
            it.wf(),
            it.pos == 0,
            it.items@.len() == self.vertex(a).hood.ins().len(),
            forall|i: int|
                0 <= i < it.items@.len() ==> it.items@[i] == self.edge(
                    #[trigger] self.vertex(a).hood.ins()[i],
                ).src() && self.valid_vertex(it.items@[i]),
    {
        iter::Neighbors::parents(self, a)
    }

    /// The children of the vertex at `a`: destinations of its outgoing
    /// edges.
    pub fn get_children(&self, a: VertAddr) -> (it: iter::Neighbors)
        requires
            self.wf(),
            self.valid_vertex(a),
        ensures
            it.wf(),
            it.pos == 0,
            it.items@.len() == self.vertex(a).hood.outs().len(),
            forall|i: int|
                0 <= i < it.items@.len() ==> it.items@[i] == self.edge(
                    #[trigger] self.vertex(a).hood.outs()[i],
                ).dst() && self.valid_vertex(it.items@[i]),
    {
        iter::Neighbors::children(self, a)
    }
}

} // verus!

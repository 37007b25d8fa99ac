use vstd::prelude::*;

use crate::addr_hm::EdgeAddr;

verus! {

/// Per-vertex adjacency bookkeeping, chosen at the graph's type level.
///
/// Two abstract sequences describe the bookkeeping: `ins` collects the edge
/// handles registered through `push_src` and `outs` those registered through
/// `push_dst`.  A merged policy (the undirected one) keeps both in a single
/// list, so there each push appends to both sequences at once; `merged`
/// tells the two apart at the specification level.
pub trait DirT: Sized {
    /// Whether the two sequences are one list (undirected bookkeeping).
    spec fn merged() -> bool;

    /// Edge handles registered at this vertex through `push_src`.
    spec fn ins(&self) -> Seq<EdgeAddr>;

    /// Edge handles registered at this vertex through `push_dst`.
    spec fn outs(&self) -> Seq<EdgeAddr>;

    proof fn lemma_merged(&self)
        ensures
            Self::merged() ==> self.ins() == self.outs(),
    ;

    /// Fresh, empty bookkeeping.
    fn new() -> (d: Self)
        ensures
            d.ins() == Seq::<EdgeAddr>::empty(),
            d.outs() == Seq::<EdgeAddr>::empty(),
    ;

    /// Number of edge registrations held.
    fn degree(&self) -> (n: usize)
        requires
            (if Self::merged() {
                self.ins().len() as int
            } else {
                self.ins().len() as int + self.outs().len() as int
            }) <= usize::MAX as int,
        ensures
            n as int == (if Self::merged() {
                self.ins().len() as int
            } else {
                self.ins().len() as int + self.outs().len() as int
            }),
    ;

    /// Register an edge on the `src` side of the bookkeeping.
    fn push_src(&mut self, e: EdgeAddr)
        ensures
            final(self).ins() == old(self).ins().push(e),
            final(self).outs() == (if Self::merged() {
                old(self).outs().push(e)
            } else {
                old(self).outs()
            }),
    ;

    /// Register an edge on the `dst` side of the bookkeeping.
    fn push_dst(&mut self, e: EdgeAddr)
        ensures
            final(self).outs() == old(self).outs().push(e),
            final(self).ins() == (if Self::merged() {
                old(self).ins().push(e)
            } else {
                old(self).ins()
            }),
    ;

    /// The edges one hop of forward reachability follows.
    fn get_reachable(&self) -> (r: &Vec<EdgeAddr>)
        ensures
            r@ == self.outs(),
    ;
}

/// Number of edge registrations a policy value holds: one list for merged
/// bookkeeping, the two lists together otherwise.
pub open spec fn degree_of<D: DirT>(d: &D) -> int {
    if D::merged() {
        d.ins().len() as int
    } else {
        d.ins().len() as int + d.outs().len() as int
    }
}

/// Directed bookkeeping: edges where this vertex is the destination go to
/// `parents`, edges where it is the source go to `children`; reachability
/// follows `children` only.
#[derive(Debug)]
pub struct Dir {
    pub parents: Vec<EdgeAddr>,
    pub children: Vec<EdgeAddr>,
}

/// Undirected bookkeeping: one list of `neighbors`, fed from both ends;
/// reachability follows all of it.
#[derive(Debug)]
pub struct Undir {
    pub neighbors: Vec<EdgeAddr>,
}

impl DirT for Dir {
    open spec fn merged() -> bool {
        false
    }

    open spec fn ins(&self) -> Seq<EdgeAddr> {
        self.parents@
    }

    open spec fn outs(&self) -> Seq<EdgeAddr> {
        self.children@
    }

    proof fn lemma_merged(&self) {
    }

    fn new() -> (d: Self) {
        Dir { parents: Vec::new(), children: Vec::new() }
    }

    fn degree(&self) -> (n: usize) {
        self.parents.len() + self.children.len()
    }

    fn push_src(&mut self, e: EdgeAddr) {
        self.parents.push(e);
    }

    fn push_dst(&mut self, e: EdgeAddr) {
        self.children.push(e);
    }

    fn get_reachable(&self) -> (r: &Vec<EdgeAddr>) {
        &self.children
    }
}

impl DirT for Undir {
    open spec fn merged() -> bool {
        true
    }

    open spec fn ins(&self) -> Seq<EdgeAddr> {
        self.neighbors@
    }

    open spec fn outs(&self) -> Seq<EdgeAddr> {
        self.neighbors@
    }

    proof fn lemma_merged(&self) {
    }

    fn new() -> (d: Self) {
        Undir { neighbors: Vec::new() }
    }

    fn degree(&self) -> (n: usize) {
        self.neighbors.len()
    }

    fn push_src(&mut self, e: EdgeAddr) {
        self.neighbors.push(e);
    }

    fn push_dst(&mut self, e: EdgeAddr) {
        self.neighbors.push(e);
    }

    fn get_reachable(&self) -> (r: &Vec<EdgeAddr>) {
        &self.neighbors
    }
}

impl Dir {
    /// Edges where this vertex is the destination.
    pub fn get_parents(&self) -> (r: &Vec<EdgeAddr>)
        ensures
            r@ == self.ins(),
    {
        &self.parents
    }

    /// Edges where this vertex is the source.
    pub fn get_children(&self) -> (r: &Vec<EdgeAddr>)
        ensures
            r@ == self.outs(),
    {
        &self.children
    }
}

impl Undir {
    /// Edges incident to this vertex.
    pub fn get_neighbors(&self) -> (r: &Vec<EdgeAddr>)
        ensures
            r@ == self.ins(),
    {
        &self.neighbors
    }
}

} // verus!

use vstd::prelude::*;

use core::marker::PhantomData;

use crate::addr_hm::VertAddr;
use crate::dir::{Dir, DirT, Undir};

verus! {

/// Marker for the values an edge may carry as its weight or payload.
pub trait EdgeT: Sized {

}

impl<T: Sized> EdgeT for T {

}

/// The weight of an edge that carries none.
#[derive(Debug)]
pub struct UnweightedEdge;

/// An edge record: a weight plus the handles of its two endpoints, tagged at
/// the type level with the direction policy of the graph that owns it.  An
/// edge is immutable after creation; the endpoint handles, not references,
/// are what vertices and edges cross-reference each other by.
#[derive(Debug)]
pub struct Edge<E, D> {
    pub weight: E,
    pub ends: (VertAddr, VertAddr),
    pub _dir: PhantomData<D>,
}

impl<E: EdgeT, D: DirT> Edge<E, D> {
    /// The source endpoint, as registered at creation.
    pub open spec fn src(&self) -> VertAddr {
        self.ends.0
    }

    /// The destination endpoint, as registered at creation.
    pub open spec fn dst(&self) -> VertAddr {
        self.ends.1
    }

    /// The endpoint other than `from`; `from` itself on a loop edge.
    pub open spec fn other(&self, from: VertAddr) -> VertAddr {
        if self.ends.0 == from {
            self.ends.1
        } else {
            self.ends.0
        }
    }

    /// Whether `v` is one of the two endpoints.
    pub open spec fn incident(&self, v: VertAddr) -> bool {
        self.ends.0 == v || self.ends.1 == v
    }

    /// Create an edge of weight `weight` from `src` to `dst`.
    pub fn new(weight: E, src: VertAddr, dst: VertAddr) -> (e: Self)
        ensures
            e.weight == weight,
            e.ends == (src, dst),
    {
        Edge { weight, ends: (src, dst), _dir: PhantomData }
    }

    /// Resolve the endpoint on the far side of `from`.
    pub fn get_end(&self, from: VertAddr) -> (r: VertAddr)
        ensures
            r == self.other(from),
    {
        if self.ends.0 == from {
            self.ends.1
        } else {
            self.ends.0
        }
    }

    /// The weight the edge carries.
    pub fn get_weight(&self) -> (r: &E)
        ensures
            *r == self.weight,
    {
        &self.weight
    }
}

impl<E: EdgeT> Edge<E, Dir> {
    /// The source vertex of a directed edge.
    pub fn get_src(&self) -> (r: VertAddr)
        ensures
            r == self.src(),
    {
        self.ends.0
    }

    /// The destination vertex of a directed edge.
    pub fn get_dst(&self) -> (r: VertAddr)
        ensures
            r == self.dst(),
    {
        self.ends.1
    }
}

impl<E: EdgeT> Edge<E, Undir> {
    /// The endpoint of an undirected edge that is not `v`, or `None` when
    /// the edge is not incident to `v`.
    pub fn get_other_endpoint(&self, v: VertAddr) -> (r: Option<VertAddr>)
        ensures
            r is Some <==> self.incident(v),
            match r {
                Some(w) => w == self.other(v),
                None => true,
            },
    {
        if self.ends.0 == v {
            Some(self.ends.1)
        } else if self.ends.1 == v {
            Some(self.ends.0)
        } else {
            None
        }
    }
}

} // verus!

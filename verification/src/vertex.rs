use vstd::prelude::*;

use crate::addr_hm::EdgeAddr;
use crate::dir::{degree_of, Dir, DirT, Undir};

verus! {

/// A value that can serve as a vertex key: it offers a decidable key
/// equivalence together with a hash that respects that equivalence.
///
/// `key_eq` is the abstract notion of "same vertex value"; for plain
/// integers it is ordinary equality, for strings it is equality of the
/// character sequences.  Every implementation must show that `key_eq` is an
/// equivalence relation and that equivalent values hash alike, which is what
/// makes bucket lookup in the arena sound.
pub trait NodeT: Sized {
    /// Whether `self` and `other` carry the same vertex key.
    spec fn key_eq(&self, other: &Self) -> bool;

    /// The hash of the key, as a mathematical function of the value.
    spec fn key_hash(&self) -> u64;

    proof fn lemma_key_eq_reflexive(&self)
        ensures
            self.key_eq(self),
    ;

    proof fn lemma_key_eq_symmetric(&self, other: &Self)
        ensures
            self.key_eq(other) == other.key_eq(self),
    ;

    proof fn lemma_key_eq_transitive(&self, mid: &Self, other: &Self)
        requires
            self.key_eq(mid),
            mid.key_eq(other),
        ensures
            self.key_eq(other),
    ;

    proof fn lemma_key_eq_hash(&self, other: &Self)
        requires
            self.key_eq(other),
        ensures
            self.key_hash() == other.key_hash(),
    ;

    /// Decide key equivalence.
    fn eq_key(&self, other: &Self) -> (r: bool)
        ensures
            r == self.key_eq(other),
    ;

    /// Compute the key hash.
    fn hash_key(&self) -> (h: u64)
        ensures
            h == self.key_hash(),
    ;

    /// Produce an owned value carrying the same key, for use as a lookup
    /// probe.
    fn dup_key(&self) -> (r: Self)
        ensures
            r.key_eq(self),
    ;
}

impl NodeT for usize {
    open spec fn key_eq(&self, other: &Self) -> bool {
        self == other
    }

    open spec fn key_hash(&self) -> u64 {
        *self as u64
    }

    proof fn lemma_key_eq_reflexive(&self) {
    }

    proof fn lemma_key_eq_symmetric(&self, other: &Self) {
    }

    proof fn lemma_key_eq_transitive(&self, mid: &Self, other: &Self) {
    }

    proof fn lemma_key_eq_hash(&self, other: &Self) {
    }

    fn eq_key(&self, other: &Self) -> (r: bool) {
        *self == *other
    }

    fn hash_key(&self) -> (h: u64) {
        *self as u64
    }

    fn dup_key(&self) -> (r: Self) {
        *self
    }
}

impl NodeT for char {
    open spec fn key_eq(&self, other: &Self) -> bool {
        self == other
    }

    open spec fn key_hash(&self) -> u64 {
        *self as u64
    }

    proof fn lemma_key_eq_reflexive(&self) {
    }

    proof fn lemma_key_eq_symmetric(&self, other: &Self) {
    }

    proof fn lemma_key_eq_transitive(&self, mid: &Self, other: &Self) {
    }

    proof fn lemma_key_eq_hash(&self, other: &Self) {
    }

    fn eq_key(&self, other: &Self) -> (r: bool) {
        *self == *other
    }

    fn hash_key(&self) -> (h: u64) {
        *self as u64
    }

    fn dup_key(&self) -> (r: Self) {
        *self
    }
}

/// Offset basis of the byte hash.
pub const HASH_BASIS: u64 = 0xcbf2_9ce4_8422_2325;

/// Multiplier of the byte hash.
pub const HASH_PRIME: u64 = 0x100_0000_01b3;

/// Fowler-Noll-Vo style hash of a byte sequence, with wrapping
/// multiplication.
pub open spec fn bytes_hash(bytes: Seq<u8>) -> u64
    decreases bytes.len(),
{
    if bytes.len() == 0 {
        HASH_BASIS
    } else {
        vstd::wrapping::u64_specs::wrapping_mul(
            bytes_hash(bytes.drop_last()) ^ (bytes.last() as u64),
            HASH_PRIME,
        )
    }
}

impl NodeT for String {
    open spec fn key_eq(&self, other: &Self) -> bool {
        self@ == other@
    }

    open spec fn key_hash(&self) -> u64 {
        bytes_hash(vstd::utf8::encode_utf8(self@))
    }

    proof fn lemma_key_eq_reflexive(&self) {
    }

    proof fn lemma_key_eq_symmetric(&self, other: &Self) {
    }

    proof fn lemma_key_eq_transitive(&self, mid: &Self, other: &Self) {
    }

    proof fn lemma_key_eq_hash(&self, other: &Self) {
        assert(vstd::utf8::encode_utf8(self@) == vstd::utf8::encode_utf8(other@));
    }

    fn eq_key(&self, other: &Self) -> (r: bool) {
        self.eq(other)
    }

    fn hash_key(&self) -> (h: u64) {
        let bytes = self.as_str().as_bytes();
        let mut h: u64 = HASH_BASIS;
        let mut i: usize = 0;
        proof {
            assert(bytes@.take(0) =~= Seq::<u8>::empty());
        }
        while i < bytes.len()
            invariant
                i <= bytes.len(),
                bytes@ == vstd::utf8::encode_utf8(self@),
                h == bytes_hash(bytes@.take(i as int)),
            decreases bytes.len() - i,
        {
            let b = bytes[i];
            h = (h ^ (b as u64)).wrapping_mul(HASH_PRIME);
            i = i + 1;
            proof {
                assert(bytes@.take(i as int).drop_last() =~= bytes@.take(i - 1));
                assert(bytes@.take(i as int).last() == bytes@[i - 1]);
            }
        }
        proof {
            assert(bytes@.take(bytes@.len() as int) =~= bytes@);
        }
        h
    }

    fn dup_key(&self) -> (r: Self) {
        self.clone()
    }
}

/// A vertex record: the user value plus the adjacency bookkeeping of the
/// direction policy baked into the graph's type.  Key identity of a vertex
/// is defined solely by its wrapped value, which is what lets the arena do
/// value-to-handle lookup and insert-if-absent.
#[derive(Debug)]
pub struct Vertex<V: NodeT, D: DirT> {
    pub val: V,
    pub hood: D,
}

impl<V: NodeT, D: DirT> NodeT for Vertex<V, D> {
    open spec fn key_eq(&self, other: &Self) -> bool {
        self.val.key_eq(&other.val)
    }

    open spec fn key_hash(&self) -> u64 {
        self.val.key_hash()
    }

    proof fn lemma_key_eq_reflexive(&self) {
        self.val.lemma_key_eq_reflexive();
    }

    proof fn lemma_key_eq_symmetric(&self, other: &Self) {
        self.val.lemma_key_eq_symmetric(&other.val);
    }

    proof fn lemma_key_eq_transitive(&self, mid: &Self, other: &Self) {
        self.val.lemma_key_eq_transitive(&mid.val, &other.val);
    }

    proof fn lemma_key_eq_hash(&self, other: &Self) {
        self.val.lemma_key_eq_hash(&other.val);
    }

    fn eq_key(&self, other: &Self) -> (r: bool) {
        self.val.eq_key(&other.val)
    }

    fn hash_key(&self) -> (h: u64) {
        self.val.hash_key()
    }

    fn dup_key(&self) -> (r: Self) {
        Vertex { val: self.val.dup_key(), hood: D::new() }
    }
}

impl<V: NodeT, D: DirT> Vertex<V, D> {
    /// Create a vertex wrapping `val`, with empty adjacency.
    pub fn new(val: V) -> (v: Self)
        ensures
            v.val == val,
            v.hood.ins() == Seq::<EdgeAddr>::empty(),
            v.hood.outs() == Seq::<EdgeAddr>::empty(),
    {
        Vertex { val, hood: D::new() }
    }

    /// The wrapped value.
    pub fn get(&self) -> (r: &V)
        ensures
            *r == self.val,
    {
        &self.val
    }

    /// Number of edge registrations at this vertex.
    pub fn degree(&self) -> (n: usize)
        requires
            degree_of(&self.hood) <= usize::MAX,
        ensures
            n as int == degree_of(&self.hood),
    {
        self.hood.degree()
    }

    /// Register `e` on the `src` side of the adjacency bookkeeping.
    pub fn register_as_src(&mut self, e: EdgeAddr)
        ensures
            final(self).val == old(self).val,
            final(self).hood.ins() == old(self).hood.ins().push(e),
            final(self).hood.outs() == (if D::merged() {
                old(self).hood.outs().push(e)
            } else {
                old(self).hood.outs()
            }),
    {
        self.hood.push_src(e);
    }

    /// Register `e` on the `dst` side of the adjacency bookkeeping.
    pub fn register_as_dst(&mut self, e: EdgeAddr)
        ensures
            final(self).val == old(self).val,
            final(self).hood.outs() == old(self).hood.outs().push(e),
            final(self).hood.ins() == (if D::merged() {
                old(self).hood.ins().push(e)
            } else {
                old(self).hood.ins()
            }),
    {
        self.hood.push_dst(e);
    }

    /// The edges one hop of forward reachability follows from this vertex.
    pub fn get_reachable(&self) -> (r: &Vec<EdgeAddr>)
        ensures
            r@ == self.hood.outs(),
    {
        self.hood.get_reachable()
    }
}

impl<V: NodeT> Vertex<V, Undir> {
    /// The edges incident to this vertex.
    pub fn get_neighbor_edges(&self) -> (r: &Vec<EdgeAddr>)
        ensures
            r@ == self.hood.ins(),
    {
        self.hood.get_neighbors()
    }
}

impl<V: NodeT> Vertex<V, Dir> {
    /// The edges whose destination is this vertex.
    pub fn get_parent_edges(&self) -> (r: &Vec<EdgeAddr>)
        ensures
            r@ == self.hood.ins(),
    {
        self.hood.get_parents()
    }

    /// The edges whose source is this vertex.
    pub fn get_child_edges(&self) -> (r: &Vec<EdgeAddr>)
        ensures
            r@ == self.hood.outs(),
    {
        self.hood.get_children()
    }
}

} // verus!

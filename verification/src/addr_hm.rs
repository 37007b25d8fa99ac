//! A hash table whose entries are referenced by stable addresses.  Instead
//! of looking a key up, an entry can be named by the `(table, bucket)`
//! position that inserting it returned; entries are never moved or removed,
//! so the addresses stay good for the life of the table, and growing returns
//! a new table together with an address mapping.

use vstd::prelude::*;

use crate::vertex::NodeT;

verus! {

/// Hard cap on the number of entries a single bucket may hold.  Keeping the
/// buckets short keeps lookup a bounded linear scan.
pub const MAX_BUCKET_SIZE: usize = 32;

/// Table capacity used when no explicit capacity is requested.
pub const DEFAULT_TABLE_CAPACITY: usize = 32;

/// Stable handle into a vertex arena: the index of a bucket in the table and
/// the index of a slot within that bucket, tagged with the signature of the
/// arena that issued it.  Handles are plain copyable tokens; they carry no
/// payload and never dangle because entries are never moved or removed.
#[derive(Debug, Clone, Copy, PartialEq, Eq, Hash, Structural)]
pub struct VertAddr {
    pub table: usize,
    pub bucket: usize,
    pub sig: u64,
}

/// Stable handle into the append-only edge list of a graph.
#[derive(Debug, Clone, Copy, PartialEq, Eq, Hash, Structural)]
pub struct EdgeAddr {
    pub index: usize,
}

/// Relies on rand::random: draws a signature for a newly created arena, so
/// that a handle visibly names the arena that issued it.  Nothing is assumed
/// about the drawn value; no contract of the arena rests on signatures being
/// distinct.
#[verifier::external_body]
fn fresh_signature() -> u64 {
    rand::random::<u64>()
}

/// Total number of entries across a table of buckets.
pub open spec fn total_len<T>(bs: Seq<Vec<T>>) -> nat
    decreases bs.len(),
{
    if bs.len() == 0 {
        0
    } else {
        total_len(bs.drop_last()) + bs.last()@.len()
    }
}

proof fn lemma_total_len_push<T>(bs: Seq<Vec<T>>, v: Vec<T>)
    ensures
        total_len(bs.push(v)) == total_len(bs) + v@.len(),
{
    assert(bs.push(v).drop_last() =~= bs);
}

/// If every bucket keeps its length, the total is unchanged; if exactly one
/// bucket gains `gain` entries, the total gains `gain`.
proof fn lemma_total_len_gain<T>(bs: Seq<Vec<T>>, bs2: Seq<Vec<T>>, t: int, gain: nat)
    requires
        bs2.len() == bs.len(),
        0 <= t < bs.len(),
        bs2[t]@.len() == bs[t]@.len() + gain,
        forall|j: int| 0 <= j < bs.len() && j != t ==> (#[trigger] bs2[j])@.len() == bs[j]@.len(),
    ensures
        total_len(bs2) == total_len(bs) + gain,
    decreases bs.len(),
{
    if bs.len() > 0 {
        if t == bs.len() - 1 {
            assert forall|j: int| 0 <= j < bs.drop_last().len() implies (#[trigger] bs2.drop_last()[j])@.len() == bs.drop_last()[j]@.len() by {
                assert(bs2[j]@.len() == bs[j]@.len());
            }
            lemma_total_len_same(bs.drop_last(), bs2.drop_last());
        } else {
            lemma_total_len_gain(bs.drop_last(), bs2.drop_last(), t, gain);
        }
    }
}

pub proof fn lemma_total_len_same<T>(bs: Seq<Vec<T>>, bs2: Seq<Vec<T>>)
    requires
        bs2.len() == bs.len(),
        forall|j: int| 0 <= j < bs.len() ==> (#[trigger] bs2[j])@.len() == bs[j]@.len(),
    ensures
        total_len(bs2) == total_len(bs),
    decreases bs.len(),
{
    if bs.len() > 0 {
        assert forall|j: int| 0 <= j < bs.drop_last().len() implies (#[trigger] bs2.drop_last()[j])@.len() == bs.drop_last()[j]@.len() by {
            assert(bs2[j]@.len() == bs[j]@.len());
        }
        lemma_total_len_same(bs.drop_last(), bs2.drop_last());
    }
}

/// Bound the total by the bucket cap.
proof fn lemma_total_len_bounded<T>(bs: Seq<Vec<T>>, cap: nat)
    requires
        forall|j: int| 0 <= j < bs.len() ==> (#[trigger] bs[j])@.len() <= cap,
    ensures
        total_len(bs) <= bs.len() * cap,
    decreases bs.len(),
{
    if bs.len() > 0 {
        lemma_total_len_bounded(bs.drop_last(), cap);
        assert((bs.len() - 1) * cap + cap == bs.len() * cap) by (nonlinear_arith);
    }
}

/// Hash table with separate chaining whose entries are addressed by stable
/// handles.  An entry, once inserted, stays at its `(table, bucket)` position
/// for the life of the arena; insertion fails rather than resizing when the
/// load threshold or a bucket cap is reached.  Capacity only ever grows
/// through the explicit [`AddrHashSet::from_old`] operation.
#[derive(Debug)]
pub struct AddrHashSet<T: NodeT> {
    pub table: Vec<Vec<T>>,
    pub size: usize,
    pub sig: u64,
}

impl<T: NodeT> AddrHashSet<T> {
    /// Number of buckets in the table.
    pub open spec fn capacity_spec(&self) -> nat {
        self.table@.len()
    }

    /// Contents of bucket `t`.
    pub open spec fn bucket(&self, t: int) -> Seq<T> {
        self.table@[t]@
    }

    /// Whether `a` is a live handle of this arena.
    pub open spec fn valid(&self, a: VertAddr) -> bool {
        &&& a.sig == self.sig
        &&& (a.table as int) < self.capacity_spec()
        &&& (a.bucket as int) < self.bucket(a.table as int).len()
    }

    /// The entry a live handle designates.
    pub open spec fn at(&self, a: VertAddr) -> T
        recommends
            self.valid(a),
    {
        self.bucket(a.table as int)[a.bucket as int]
    }

    /// The bucket a value hashes to.
    pub open spec fn bucket_of(&self, val: &T) -> int {
        val.key_hash() as int % self.capacity_spec() as int
    }

    /// Whether the global load factor is past the threshold of three halves.
    pub open spec fn over_threshold(&self) -> bool {
        2 * self.size > 3 * self.capacity_spec()
    }

    /// Whether an insertion of `val` must be accepted.
    pub open spec fn can_place(&self, val: &T) -> bool {
        &&& self.capacity_spec() > 0
        &&& !self.over_threshold()
        &&& self.bucket(self.bucket_of(val)).len() < MAX_BUCKET_SIZE as nat
    }

    /// Whether some entry with the key of `q` is stored.
    pub open spec fn has_key(&self, q: &T) -> bool {
        exists|t: int, i: int|
            0 <= t < self.capacity_spec() && 0 <= i < self.bucket(t).len() && (#[trigger] self.bucket(
                t,
            )[i]).key_eq(q)
    }

    /// Well-formedness: the size count matches the table, buckets respect
    /// the cap, every entry sits in the bucket its key hashes to, and the
    /// capacity leaves room for the arithmetic of growth.
    pub open spec fn wf(&self) -> bool {
        &&& self.size as nat == total_len(self.table@)
        &&& self.capacity_spec() <= usize::MAX as nat / 64
        &&& 2 * self.size <= 3 * self.capacity_spec() + 2
        &&& forall|t: int|
            0 <= t < self.capacity_spec() ==> (#[trigger] self.bucket(t)).len()
                <= MAX_BUCKET_SIZE as nat
        &&& forall|t: int, i: int|
            0 <= t < self.capacity_spec() && 0 <= i < self.bucket(t).len() ==> (
            #[trigger] self.bucket(t)[i]).key_hash() as int % self.capacity_spec() as int == t
    }

    /// Create an arena with `c` buckets, all empty.
    pub fn with_capacity(c: usize) -> (s: Self)
        requires
            c <= usize::MAX / 64,
        ensures
            s.wf(),
            s.capacity_spec() == c,
            s.size == 0,
            forall|t: int| 0 <= t < c ==> (#[trigger] s.bucket(t)).len() == 0,
    {
        let mut table: Vec<Vec<T>> = Vec::new();
        let mut i: usize = 0;
        while i < c
            invariant
                i <= c,
                table@.len() == i,
                forall|t: int| 0 <= t < i ==> (#[trigger] table@[t])@.len() == 0,
                total_len(table@) == 0,
            decreases c - i,
        {
            let empty: Vec<T> = Vec::new();
            proof {
                lemma_total_len_push(table@, empty);
            }
            table.push(empty);
            i = i + 1;
        }
        AddrHashSet { table, size: 0, sig: fresh_signature() }
    }

    /// Number of entries stored.
    pub fn len(&self) -> (n: usize)
        ensures
            n == self.size,
    {
        self.size
    }

    /// Whether no entry is stored.
    pub fn is_empty(&self) -> (r: bool)
        ensures
            r == (self.size == 0),
    {
        self.size == 0
    }

    /// Number of buckets.
    pub fn capacity(&self) -> (c: usize)
        ensures
            c as nat == self.capacity_spec(),
    {
        self.table.len()
    }

    /// How a successful insertion of `val` under handle `a` relates this
    /// arena to its successor `post`: the entry is appended to the bucket its
    /// key hashes to, every other bucket is untouched, and `a` designates it.
    pub open spec fn inserted(&self, post: Self, val: T, a: VertAddr) -> bool {
        &&& a.sig == self.sig
        &&& a.table as int == self.bucket_of(&val)
        &&& a.bucket as nat == self.bucket(a.table as int).len()
        &&& post.sig == self.sig
        &&& post.capacity_spec() == self.capacity_spec()
        &&& post.size == self.size + 1
        &&& post.bucket(a.table as int) == self.bucket(a.table as int).push(val)
        &&& forall|t: int|
            0 <= t < self.capacity_spec() && t != a.table as int ==> (#[trigger] post.bucket(t))
                == self.bucket(t)
        &&& post.valid(a)
        &&& post.at(a) == val
    }

    /// How growing relates this arena to its successor `next` and the
    /// translation `map`: the capacity is doubled, every entry keeps its
    /// value, and the map takes every old handle to the new handle of the
    /// same entry, no handle twice.
    pub open spec fn regrown(&self, next: Self, map: AddrMap) -> bool {
        &&& next.wf()
        &&& next.size == self.size
        &&& next.capacity_spec() == grow_capacity(self.capacity_spec())
        &&& map.keys_unique()
        &&& map.pairs@.len() == self.size
        &&& forall|a: VertAddr| self.valid(a) ==> #[trigger] map.has_from(a)
        &&& forall|k: int|
            0 <= k < map.pairs@.len() ==> {
                let (a, b) = #[trigger] map.pairs@[k];
                &&& self.valid(a)
                &&& next.valid(b)
                &&& next.at(b) == self.at(a)
            }
    }

    /// Insert an entry and return its handle, or reject the insertion,
    /// changing nothing, when the load threshold is passed or the target
    /// bucket is full.
    pub fn insert(&mut self, val: T) -> (r: Option<VertAddr>)
        requires
            old(self).wf(),
        ensures
            final(self).wf(),
            final(self).sig == old(self).sig,
            final(self).capacity_spec() == old(self).capacity_spec(),
            r is Some <==> old(self).can_place(&val),
            match r {
                Some(a) => old(self).inserted(*final(self), val, a),
                None => *final(self) == *old(self),
            },
            forall|a2: VertAddr|
                old(self).valid(a2) ==> #[trigger] final(self).valid(a2) && final(self).at(a2)
                    == old(self).at(a2),
    {
        let cap = self.table.len();
        if cap == 0 {
            return None;
        }
        if (self.size as u128) * 2 > (cap as u128) * 3 {
            return None;
        }
        let h = val.hash_key();
        let t = (h % (cap as u64)) as usize;
        let b_idx = self.table[t].len();
        if b_idx >= MAX_BUCKET_SIZE {
            return None;
        }
        let ghost pre = self.table@;
        let ghost gval = val;
        proof {
            assert forall|j: int| 0 <= j < self.table@.len() implies (#[trigger] self.table@[j])@.len() <= MAX_BUCKET_SIZE as nat by {
                assert(self.bucket(j).len() <= MAX_BUCKET_SIZE as nat);
            }
            lemma_total_len_bounded(self.table@, MAX_BUCKET_SIZE as nat);
            assert(self.capacity_spec() * (MAX_BUCKET_SIZE as nat) <= (usize::MAX as nat / 64) * 32)
                by (nonlinear_arith)
                requires
                    self.capacity_spec() <= usize::MAX as nat / 64,
            ;
        }
        let bucket_ref: &mut Vec<T> = &mut self.table[t];
        bucket_ref.push(val);
        self.size = self.size + 1;
        proof {
            assert(self.table@.len() == pre.len());
            assert(self.bucket(t as int) =~= pre[t as int]@.push(gval));
            assert(forall|j: int| 0 <= j < pre.len() && j != t as int ==> #[trigger] self.table@[j] == pre[j]);
            lemma_total_len_gain(pre, self.table@, t as int, 1);
            assert forall|t2: int| 0 <= t2 < self.capacity_spec() implies (#[trigger] self.bucket(t2)).len() <= MAX_BUCKET_SIZE as nat by {
                if t2 != t as int {
                    assert(self.bucket(t2) == old(self).bucket(t2));
                } else {
                    assert(old(self).bucket(t2).len() < MAX_BUCKET_SIZE as nat);
                }
            }
            assert forall|t2: int, i2: int|
                0 <= t2 < self.capacity_spec() && 0 <= i2 < self.bucket(t2).len() implies (
            #[trigger] self.bucket(t2)[i2]).key_hash() as int % self.capacity_spec() as int == t2 by {
                if t2 == t as int {
                    if i2 < old(self).bucket(t2).len() {
                        assert(self.bucket(t2)[i2] == old(self).bucket(t2)[i2]);
                    } else {
                        assert(self.bucket(t2)[i2] == gval);
                    }
                } else {
                    assert(self.bucket(t2) == old(self).bucket(t2));
                }
            }
        }
        Some(VertAddr { table: t, bucket: b_idx, sig: self.sig })
    }

    /// Read the entry a handle designates.
    pub fn index(&self, a: VertAddr) -> (r: &T)
        requires
            self.wf(),
            self.valid(a),
        ensures
            *r == self.at(a),
    {
        &self.table[a.table][a.bucket]
    }

    /// Borrow the entry a handle designates mutably.  Well-formedness of the
    /// arena is the caller's to restore: it holds again whenever the new
    /// entry keeps the key hash of the old one.
    pub fn index_mut(&mut self, a: VertAddr) -> (r: &mut T)
        requires
            old(self).wf(),
            old(self).valid(a),
        ensures
            *r == old(self).at(a),
            final(self).sig == old(self).sig,
            final(self).size == old(self).size,
            final(self).capacity_spec() == old(self).capacity_spec(),
            final(self).bucket(a.table as int) == old(self).bucket(a.table as int).update(
                a.bucket as int,
                *final(r),
            ),
            forall|t: int|
                0 <= t < old(self).capacity_spec() && t != a.table as int ==> (
                #[trigger] final(self).bucket(t)) == old(self).bucket(t),
            total_len(final(self).table@) == total_len(old(self).table@),
    {
        proof {
            lemma_total_len_same(old(self).table@, old(self).table@);
        }
        let ghost pre = self.table@;
        let bucket_ref: &mut Vec<T> = &mut self.table[a.table];
        let r = &mut bucket_ref[a.bucket];
        proof {
            lemma_total_len_same(pre, after_borrow(self).table@);
        }
        r
    }

    /// Find the handle of an entry with the key of `q`, scanning only the
    /// bucket the key hashes to.
    pub fn get(&self, q: &T) -> (r: Option<VertAddr>)
        requires
            self.wf(),
        ensures
            r is Some <==> self.has_key(q),
            match r {
                Some(a) => self.valid(a) && self.at(a).key_eq(q),
                None => true,
            },
    {
        let cap = self.table.len();
        if cap == 0 {
            return None;
        }
        let h = q.hash_key();
        let t = (h % (cap as u64)) as usize;
        let bucket_ref: &Vec<T> = &self.table[t];
        let mut i: usize = 0;
        while i < bucket_ref.len()
            invariant
                self.wf(),
                cap as nat == self.capacity_spec(),
                cap > 0,
                t as int == self.bucket_of(q),
                bucket_ref@ == self.bucket(t as int),
                i <= bucket_ref@.len(),
                forall|j: int| 0 <= j < i ==> !(#[trigger] self.bucket(t as int)[j]).key_eq(q),
            decreases bucket_ref@.len() - i,
        {
            if bucket_ref[i].eq_key(q) {
                return Some(VertAddr { table: t, bucket: i, sig: self.sig });
            }
            i = i + 1;
        }
        proof {
            assert forall|t2: int, i2: int|
                0 <= t2 < self.capacity_spec() && 0 <= i2 < self.bucket(t2).len() implies !(
            #[trigger] self.bucket(t2)[i2]).key_eq(q) by {
                if self.bucket(t2)[i2].key_eq(q) {
                    self.bucket(t2)[i2].lemma_key_eq_hash(q);
                }
            }
        }
        None
    }

    /// Every live handle, in bucket-then-slot order.  The order is an
    /// artifact of the table layout, arbitrary relative to insertion order.
    pub fn handles(&self) -> (r: Vec<VertAddr>)
        requires
            self.wf(),
        ensures
            r@.len() == self.size,
            r@.no_duplicates(),
            forall|j: int| 0 <= j < r@.len() ==> self.valid(#[trigger] r@[j]),
            forall|a: VertAddr| #[trigger] self.valid(a) ==> r@.contains(a),
            forall|j1: int, j2: int|
                0 <= j1 < j2 < r@.len() ==> (r@[j1].table < r@[j2].table || (r@[j1].table
                    == r@[j2].table && r@[j1].bucket < r@[j2].bucket)),
    {
        let mut r: Vec<VertAddr> = Vec::new();
        let mut t: usize = 0;
        while t < self.table.len()
            invariant
                self.wf(),
                t <= self.table@.len(),
                forall|j: int|
                    0 <= j < r@.len() ==> self.valid(#[trigger] r@[j]) && (r@[j].table as int) < t,
                forall|a: VertAddr|
                    #[trigger] self.valid(a) && (a.table as int) < t ==> r@.contains(a),
                forall|j1: int, j2: int|
                    0 <= j1 < j2 < r@.len() ==> (r@[j1].table < r@[j2].table || (r@[j1].table
                        == r@[j2].table && r@[j1].bucket < r@[j2].bucket)),
            decreases self.table@.len() - t,
        {
            let blen = self.table[t].len();
            let mut b: usize = 0;
            while b < blen
                invariant
                    self.wf(),
                    t < self.table@.len(),
                    blen as nat == self.bucket(t as int).len(),
                    b <= blen,
                    forall|j: int|
                        0 <= j < r@.len() ==> self.valid(#[trigger] r@[j]) && ((r@[j].table as int)
                            < t || (r@[j].table as int == t && (r@[j].bucket as int) < b)),
                    forall|a: VertAddr|
                        #[trigger] self.valid(a) && ((a.table as int) < t || (a.table as int == t
                            && (a.bucket as int) < b)) ==> r@.contains(a),
                    forall|j1: int, j2: int|
                        0 <= j1 < j2 < r@.len() ==> (r@[j1].table < r@[j2].table || (r@[j1].table
                            == r@[j2].table && r@[j1].bucket < r@[j2].bucket)),
                decreases blen - b,
            {
                let a = VertAddr { table: t, bucket: b, sig: self.sig };
                let ghost pre = r@;
                r.push(a);
                b = b + 1;
                proof {
                    assert forall|a2: VertAddr|
                        self.valid(a2) && ((a2.table as int) < t || (a2.table as int == t && (
                        a2.bucket as int) < b)) implies r@.contains(a2) by {
                        if a2 == a {
                            assert(r@[r@.len() - 1] == a2);
                        } else {
                            assert(pre.contains(a2));
                            let k = choose|k: int| 0 <= k < pre.len() && pre[k] == a2;
                            assert(r@[k] == a2);
                        }
                    }
                }
            }
            t = t + 1;
        }
        proof {
            assert forall|j1: int, j2: int| 0 <= j1 < j2 < r@.len() implies r@[j1] != r@[j2] by {
                assert(r@[j1].table < r@[j2].table || (r@[j1].table == r@[j2].table
                    && r@[j1].bucket < r@[j2].bucket));
            }
            lemma_enumeration_exact(*self, r@);
        }
        r
    }

    /// Whether an entry with the key of `q` is stored.
    pub fn contains(&self, q: &T) -> (r: bool)
        requires
            self.wf(),
        ensures
            r == self.has_key(q),
    {
        self.get(q).is_some()
    }
}

proof fn lemma_total_len_zero<T>(bs: Seq<Vec<T>>)
    requires
        forall|j: int| 0 <= j < bs.len() ==> (#[trigger] bs[j])@.len() == 0,
    ensures
        total_len(bs) == 0,
    decreases bs.len(),
{
    if bs.len() > 0 {
        lemma_total_len_zero(bs.drop_last());
    }
}

proof fn lemma_total_len_ge_bucket<T>(bs: Seq<Vec<T>>, j: int)
    requires
        0 <= j < bs.len(),
    ensures
        total_len(bs) >= bs[j]@.len(),
    decreases bs.len(),
{
    if j < bs.len() - 1 {
        lemma_total_len_ge_bucket(bs.drop_last(), j);
    }
}

/// The old-to-new handle mapping that growing an arena returns: a list of
/// pairs with pairwise distinct keys, one pair per entry that moved.
pub struct AddrMap {
    pub pairs: Vec<(VertAddr, VertAddr)>,
}

impl AddrMap {
    /// Whether the map takes `a` to `b`.
    pub open spec fn maps(&self, a: VertAddr, b: VertAddr) -> bool {
        exists|k: int| 0 <= k < self.pairs@.len() && #[trigger] self.pairs@[k] == (a, b)
    }

    /// Whether the map is defined on `a`.
    pub open spec fn has_from(&self, a: VertAddr) -> bool {
        exists|k: int| 0 <= k < self.pairs@.len() && (#[trigger] self.pairs@[k]).0 == a
    }

    /// No key appears twice.
    pub open spec fn keys_unique(&self) -> bool {
        forall|k1: int, k2: int|
            0 <= k1 < self.pairs@.len() && 0 <= k2 < self.pairs@.len() && k1 != k2 ==> (
            #[trigger] self.pairs@[k1]).0 != (#[trigger] self.pairs@[k2]).0
    }

    /// Look the handle `a` up.
    pub fn lookup(&self, a: VertAddr) -> (r: Option<VertAddr>)
        ensures
            r is Some <==> self.has_from(a),
            match r {
                Some(b) => self.maps(a, b),
                None => true,
            },
    {
        let mut k: usize = 0;
        while k < self.pairs.len()
            invariant
                k <= self.pairs@.len(),
                forall|j: int| 0 <= j < k ==> (#[trigger] self.pairs@[j]).0 != a,
            decreases self.pairs@.len() - k,
        {
            let (from, to) = self.pairs[k];
            if from == a {
                return Some(to);
            }
            k = k + 1;
        }
        None
    }
}

/// The capacity an arena of `c` buckets grows to.
pub open spec fn grow_capacity(c: nat) -> nat {
    if c == 0 {
        DEFAULT_TABLE_CAPACITY as nat
    } else {
        2 * c
    }
}

impl<T: NodeT> AddrHashSet<T> {
    /// Create a larger arena, move every entry of `prev` over, and return a
    /// translation of every old handle to the handle of the same entry in
    /// the new arena.  Doubling the capacity is what makes the move total:
    /// entries of distinct old buckets land in distinct new buckets, so no
    /// new bucket fills past the cap and no entry is ever dropped.
    pub fn from_old(prev: Self) -> (r: (Self, AddrMap))
        requires
            prev.wf(),
            prev.capacity_spec() <= usize::MAX as nat / 128,
        ensures
            prev.regrown(r.0, r.1),
    {
        let oc = prev.capacity();
        let osig = prev.sig;
        let ghost orig = prev;
        if oc == 0 {
            let next = Self::with_capacity(DEFAULT_TABLE_CAPACITY);
            let map = AddrMap { pairs: Vec::new() };
            return (next, map);
        }
        let mut next = Self::with_capacity(oc * 2);
        let mut map = AddrMap { pairs: Vec::new() };
        let mut table = prev.table;
        let mut t: usize = 0;
        while t < oc
            invariant
                orig.wf(),
                0 < oc,
                oc as nat == orig.capacity_spec(),
                oc <= usize::MAX / 128,
                osig == orig.sig,
                t <= oc,
                table@.len() == oc,
                next.wf(),
                next.capacity_spec() == 2 * oc,
                forall|t2: int| 0 <= t2 < t ==> (#[trigger] table@[t2])@.len() == 0,
                forall|t2: int| t <= t2 < oc ==> (#[trigger] table@[t2])@.len() <= orig.bucket(t2).len(),
                forall|t2: int|
                    t <= t2 < oc ==> (#[trigger] table@[t2])@ == orig.bucket(t2).take(
                        table@[t2]@.len() as int,
                    ),
                forall|t2: int| t < t2 < oc ==> (#[trigger] table@[t2])@.len() == orig.bucket(t2).len(),
                forall|t2: int|
                    0 <= t2 < 2 * oc ==> (#[trigger] next.bucket(t2)).len() + table@[t2 % (
                    oc as int)]@.len() <= orig.bucket(t2 % (oc as int)).len(),
                next.size as nat + total_len(table@) == orig.size as nat,
                map.pairs@.len() == next.size,
                map.keys_unique(),
                forall|k: int|
                    0 <= k < map.pairs@.len() ==> {
                        let (a, b) = #[trigger] map.pairs@[k];
                        &&& orig.valid(a)
                        &&& (a.table as int) < t || (a.table as int == t && a.bucket as int
                            >= table@[t as int]@.len())
                        &&& next.valid(b)
                        &&& next.at(b) == orig.at(a)
                    },
                forall|a: VertAddr|
                    orig.valid(a) && ((a.table as int) < t || (a.table as int == t
                        && a.bucket as int >= table@[t as int]@.len()))
                        ==> #[trigger] map.has_from(a),
            decreases oc - t, table@[t as int]@.len(),
        {
            let blen = table[t].len();
            if blen == 0 {
                t = t + 1;
                continue ;
            }
            let b_i = blen - 1;
            let ghost pre_table = table@;
            let bucket_ref: &mut Vec<T> = &mut table[t];
            let v = bucket_ref.pop().unwrap();
            let ghost gv = v;
            let a_old = VertAddr { table: t, bucket: b_i, sig: osig };
            proof {
                assert(orig.bucket(t as int).take(b_i + 1).drop_last() =~= orig.bucket(
                    t as int,
                ).take(b_i as int));
                assert(gv == orig.bucket(t as int)[b_i as int]);
                assert(orig.valid(a_old));
                assert(gv.key_hash() as int % (oc as int) == t as int);
                lemma_total_len_gain(table@, pre_table, t as int, 1);
                lemma_total_len_ge_bucket(pre_table, t as int);
                // the target bucket of v in the doubled table reduces to t
                vstd::arithmetic::div_mod::lemma_mod_mod(gv.key_hash() as int, oc as int, 2);
                assert((gv.key_hash() as int % (2 * oc as int)) % (oc as int) == t as int);
                // room in the target bucket
                assert(next.bucket(gv.key_hash() as int % (2 * oc as int)).len() + pre_table[t as int]@.len()
                    <= orig.bucket(t as int).len());
                assert(next.can_place(&gv));
            }
            let ghost pre_next = next;
            let ghost pre_map = map;
            let a_new = next.insert(v).unwrap();
            map.pairs.push((a_old, a_new));
            proof {
                assert forall|t2: int| 0 <= t2 < 2 * oc implies (#[trigger] next.bucket(t2)).len()
                    + table@[t2 % (oc as int)]@.len() <= orig.bucket(t2 % (oc as int)).len() by {
                    if t2 == a_new.table as int {
                    } else {
                        assert(next.bucket(t2) == pre_next.bucket(t2));
                    }
                }
                assert forall|k: int| 0 <= k < map.pairs@.len() implies {
                    let (a, b) = #[trigger] map.pairs@[k];
                    &&& orig.valid(a)
                    &&& (a.table as int) < t || (a.table as int == t && a.bucket as int
                        >= table@[t as int]@.len())
                    &&& next.valid(b)
                    &&& next.at(b) == orig.at(a)
                } by {
                    if k < pre_map.pairs@.len() {
                        assert(map.pairs@[k] == pre_map.pairs@[k]);
                    } else {
                        assert(map.pairs@[k] == (a_old, a_new));
                    }
                }
                assert forall|a: VertAddr|
                    orig.valid(a) && ((a.table as int) < t || (a.table as int == t
                        && a.bucket as int >= table@[t as int]@.len()))
                        implies #[trigger] map.has_from(a) by {
                    if a == a_old {
                        assert(map.pairs@[map.pairs@.len() - 1].0 == a);
                    } else {
                        if (a.table as int) < t || (a.table as int == t && a.bucket as int >= b_i
                            + 1) {
                            assert(pre_map.has_from(a));
                            let k = choose|k: int|
                                0 <= k < pre_map.pairs@.len() && (#[trigger] pre_map.pairs@[k]).0
                                    == a;
                            assert(map.pairs@[k].0 == a);
                        } else {
                            assert(a.table as int == t && a.bucket as int == b_i);
                            assert(a == a_old);
                        }
                    }
                }
            }
        }
        proof {
            lemma_total_len_zero(table@);
        }
        let r_map = map;
        (next, r_map)
    }
}

/// Shape of a live handle over a table described only by its bucket lengths.
pub open spec fn shaped(a: VertAddr, lens: Seq<int>, sig: u64) -> bool {
    &&& a.sig == sig
    &&& (a.table as int) < lens.len()
    &&& (a.bucket as int) < lens[a.table as int]
}

/// Sum of a sequence of bucket lengths.
pub open spec fn sum_lens(lens: Seq<int>) -> int
    decreases lens.len(),
{
    if lens.len() == 0 {
        0
    } else {
        sum_lens(lens.drop_last()) + lens.last()
    }
}

/// The bucket lengths of a table.
pub open spec fn lens_of<T>(tbl: Seq<Vec<T>>) -> Seq<int> {
    tbl.map_values(|v: Vec<T>| v@.len() as int)
}

proof fn lemma_sum_lens_total<T>(tbl: Seq<Vec<T>>)
    ensures
        sum_lens(lens_of(tbl)) == total_len(tbl),
    decreases tbl.len(),
{
    if tbl.len() > 0 {
        lemma_sum_lens_total(tbl.drop_last());
        assert(lens_of(tbl).drop_last() =~= lens_of(tbl.drop_last()));
    }
}

proof fn lemma_filter_split<A>(s: Seq<A>, p: spec_fn(A) -> bool, q: spec_fn(A) -> bool)
    requires
        forall|x: A| #[trigger] p(x) == !q(x),
    ensures
        s.filter(p).len() + s.filter(q).len() == s.len(),
    decreases s.len(),
{
    reveal(Seq::filter);
    if s.len() > 0 {
        lemma_filter_split(s.drop_last(), p, q);
        assert(p(s.last()) == !q(s.last()));
    }
}

proof fn lemma_filter_member_of<A>(s: Seq<A>, p: spec_fn(A) -> bool, k: int)
    requires
        0 <= k < s.filter(p).len(),
    ensures
        s.contains(s.filter(p)[k]),
    decreases s.len(),
{
    reveal(Seq::filter);
    if s.len() > 0 {
        if p(s.last()) && k == s.filter(p).len() - 1 {
            assert(s.filter(p)[k] == s.last());
            assert(s.contains(s.last()));
        } else {
            lemma_filter_member_of(s.drop_last(), p, k);
            let x = s.drop_last().filter(p)[k];
            let i = choose|i: int| 0 <= i < s.drop_last().len() && s.drop_last()[i] == x;
            assert(s[i] == x);
        }
    }
}

proof fn lemma_filter_no_dup<A>(s: Seq<A>, p: spec_fn(A) -> bool)
    requires
        s.no_duplicates(),
    ensures
        s.filter(p).no_duplicates(),
    decreases s.len(),
{
    reveal(Seq::filter);
    if s.len() > 0 {
        lemma_filter_no_dup(s.drop_last(), p);
        if p(s.last()) {
            assert forall|k: int| 0 <= k < s.drop_last().filter(p).len() implies s.drop_last().filter(
                p,
            )[k] != s.last() by {
                lemma_filter_member_of(s.drop_last(), p, k);
                let x = s.drop_last().filter(p)[k];
                let i = choose|i: int|
                    0 <= i < s.drop_last().len() && s.drop_last()[i] == x;
                assert(s[i] == x);
            }
        }
    }
}

/// Count handles of one shape: a duplicate-free sequence of handles that all
/// live over `lens` has at most `sum_lens(lens)` entries, and exactly that
/// many when it holds every such handle.
proof fn lemma_shaped_count(lens: Seq<int>, sig: u64, hs: Seq<VertAddr>, complete: bool)
    requires
        lens.len() <= usize::MAX as int,
        forall|j: int| 0 <= j < lens.len() ==> 0 <= (#[trigger] lens[j]) <= usize::MAX as int,
        hs.no_duplicates(),
        forall|j: int| 0 <= j < hs.len() ==> shaped(#[trigger] hs[j], lens, sig),
        complete ==> forall|a: VertAddr| shaped(a, lens, sig) ==> hs.contains(a),
    ensures
        hs.len() <= sum_lens(lens),
        complete ==> hs.len() == sum_lens(lens),
    decreases lens.len(),
{
    broadcast use vstd::seq_lib::seq_to_set_is_finite;

    if lens.len() == 0 {
        if hs.len() > 0 {
            assert(shaped(hs[0], lens, sig));
        }
    } else {
        let tl = lens.len() - 1;
        let p = |a: VertAddr| a.table as int == tl;
        let q = |a: VertAddr| !(a.table as int == tl);
        let hs_l = hs.filter(p);
        let hs_r = hs.filter(q);
        lemma_filter_split(hs, p, q);
        lemma_filter_no_dup(hs, p);
        lemma_filter_no_dup(hs, q);
        assert forall|k: int| 0 <= k < hs_l.len() implies shaped(#[trigger] hs_l[k], lens, sig)
            && p(hs_l[k]) by {
            lemma_filter_member_of(hs, p, k);
            let i = choose|i: int| 0 <= i < hs.len() && hs[i] == hs_l[k];
            hs.lemma_filter_pred(p, k);
        }
        assert forall|k: int| 0 <= k < hs_r.len() implies shaped(
            #[trigger] hs_r[k],
            lens.drop_last(),
            sig,
        ) by {
            lemma_filter_member_of(hs, q, k);
            let i = choose|i: int| 0 <= i < hs.len() && hs[i] == hs_r[k];
            hs.lemma_filter_pred(q, k);
            assert(shaped(hs[i], lens, sig));
        }
        if complete {
            assert forall|a: VertAddr| shaped(a, lens.drop_last(), sig) implies hs_r.contains(
                a,
            ) by {
                assert(shaped(a, lens, sig));
                assert(hs.contains(a));
                let i = choose|i: int| 0 <= i < hs.len() && hs[i] == a;
                assert(q(hs[i]));
                hs.lemma_filter_contains(q, i);
            }
        }
        lemma_shaped_count(lens.drop_last(), sig, hs_r, complete);
        // the last bucket: its handles inject into the bucket index range
        let blen = lens[tl];
        let ints = hs_l.map_values(|a: VertAddr| a.bucket as int);
        assert forall|i: int, j: int| 0 <= i < j < ints.len() implies ints[i] != ints[j] by {
            assert(hs_l[i] != hs_l[j]);
            assert(hs_l[i].table as int == tl && hs_l[j].table as int == tl);
            assert(hs_l[i].sig == sig && hs_l[j].sig == sig);
        }
        assert(ints.no_duplicates());
        ints.unique_seq_to_set();
        assert forall|x: int| ints.to_set().contains(x) implies vstd::set_lib::set_int_range(
            0,
            blen,
        ).contains(x) by {
            let k = choose|k: int| 0 <= k < ints.len() && ints[k] == x;
            assert(shaped(hs_l[k], lens, sig));
        }
        vstd::set_lib::lemma_int_range(0, blen);
        assert(ints.to_set().subset_of(vstd::set_lib::set_int_range(0, blen)));
        vstd::set_lib::lemma_len_subset(ints.to_set(), vstd::set_lib::set_int_range(0, blen));
        assert(hs_l.len() <= blen);
        if complete {
            assert forall|x: int| vstd::set_lib::set_int_range(0, blen).contains(
                x,
            ) implies ints.to_set().contains(x) by {
                let a = VertAddr { table: tl as usize, bucket: x as usize, sig };
                assert(shaped(a, lens, sig));
                assert(hs.contains(a));
                let i = choose|i: int| 0 <= i < hs.len() && hs[i] == a;
                assert(p(hs[i]));
                hs.lemma_filter_contains(p, i);
                let k = choose|k: int| 0 <= k < hs_l.len() && hs_l[k] == a;
                assert(ints[k] == x);
            }
            assert(vstd::set_lib::set_int_range(0, blen).subset_of(ints.to_set()));
            vstd::set_lib::lemma_len_subset(
                vstd::set_lib::set_int_range(0, blen),
                ints.to_set(),
            );
            assert(hs_l.len() == blen);
        }
    }
}

/// A duplicate-free sequence of live handles never outnumbers the entries.
pub proof fn lemma_enumeration_bound<T: NodeT>(s: AddrHashSet<T>, hs: Seq<VertAddr>)
    requires
        s.wf(),
        hs.no_duplicates(),
        forall|j: int| 0 <= j < hs.len() ==> s.valid(#[trigger] hs[j]),
    ensures
        hs.len() <= s.size,
{
    let lens = lens_of(s.table@);
    lemma_sum_lens_total(s.table@);
    assert forall|j: int| 0 <= j < lens.len() implies 0 <= (#[trigger] lens[j]) <= usize::MAX as int by {
        assert(lens[j] == s.bucket(j).len() as int);
        assert(s.bucket(j).len() <= MAX_BUCKET_SIZE as nat);
    }
    assert forall|j: int| 0 <= j < hs.len() implies shaped(#[trigger] hs[j], lens, s.sig) by {
        assert(lens[hs[j].table as int] == s.bucket(hs[j].table as int).len() as int);
    }
    lemma_shaped_count(lens, s.sig, hs, false);
}

/// A duplicate-free sequence holding every live handle has exactly as many
/// entries as the arena.
pub proof fn lemma_enumeration_exact<T: NodeT>(s: AddrHashSet<T>, hs: Seq<VertAddr>)
    requires
        s.wf(),
        hs.no_duplicates(),
        forall|j: int| 0 <= j < hs.len() ==> s.valid(#[trigger] hs[j]),
        forall|a: VertAddr| #[trigger] s.valid(a) ==> hs.contains(a),
    ensures
        hs.len() == s.size,
{
    let lens = lens_of(s.table@);
    lemma_sum_lens_total(s.table@);
    assert forall|j: int| 0 <= j < lens.len() implies 0 <= (#[trigger] lens[j]) <= usize::MAX as int by {
        assert(lens[j] == s.bucket(j).len() as int);
        assert(s.bucket(j).len() <= MAX_BUCKET_SIZE as nat);
    }
    assert forall|j: int| 0 <= j < hs.len() implies shaped(#[trigger] hs[j], lens, s.sig) by {
        assert(lens[hs[j].table as int] == s.bucket(hs[j].table as int).len() as int);
    }
    assert forall|a: VertAddr| shaped(a, lens, s.sig) implies hs.contains(a) by {
        assert(lens[a.table as int] == s.bucket(a.table as int).len() as int);
        assert(s.valid(a));
    }
    lemma_shaped_count(lens, s.sig, hs, true);
}

/// Replacing the entry at one live handle with an entry of the same key
/// hash keeps the arena well formed and every other entry in place.
pub proof fn lemma_wf_after_replace<T: NodeT>(
    pre: AddrHashSet<T>,
    post: AddrHashSet<T>,
    a: VertAddr,
    v: T,
)
    requires
        pre.wf(),
        pre.valid(a),
        v.key_hash() == pre.at(a).key_hash(),
        post.sig == pre.sig,
        post.size == pre.size,
        post.capacity_spec() == pre.capacity_spec(),
        post.bucket(a.table as int) == pre.bucket(a.table as int).update(a.bucket as int, v),
        forall|t: int|
            0 <= t < pre.capacity_spec() && t != a.table as int ==> #[trigger] post.bucket(t)
                == pre.bucket(t),
    ensures
        post.wf(),
        post.valid(a),
        post.at(a) == v,
        forall|b: VertAddr| #[trigger] pre.valid(b) ==> post.valid(b),
        forall|b: VertAddr| #[trigger] post.valid(b) ==> pre.valid(b),
        forall|b: VertAddr| pre.valid(b) && b != a ==> #[trigger] post.at(b) == pre.at(b),
{
    assert forall|j: int| 0 <= j < pre.table@.len() implies (#[trigger] post.table@[j])@.len()
        == pre.table@[j]@.len() by {
        if j == a.table as int {
            assert(post.bucket(j) == pre.bucket(j).update(a.bucket as int, v));
        } else {
            assert(post.bucket(j) == pre.bucket(j));
        }
    }
    lemma_total_len_same(pre.table@, post.table@);
    assert forall|t: int| 0 <= t < post.capacity_spec() implies (#[trigger] post.bucket(t)).len()
        <= MAX_BUCKET_SIZE as nat by {
        assert(post.bucket(t).len() == pre.bucket(t).len());
    }
    assert forall|t: int, i: int|
        0 <= t < post.capacity_spec() && 0 <= i < post.bucket(t).len() implies (
    #[trigger] post.bucket(t)[i]).key_hash() as int % post.capacity_spec() as int == t by {
        if t == a.table as int && i == a.bucket as int {
            assert(post.bucket(t)[i] == v);
            assert(pre.bucket(t)[i].key_hash() as int % pre.capacity_spec() as int == t);
        } else if t == a.table as int {
            assert(post.bucket(t)[i] == pre.bucket(t)[i]);
        } else {
            assert(post.bucket(t) == pre.bucket(t));
        }
    }
    assert forall|b: VertAddr| #[trigger] pre.valid(b) implies post.valid(b) by {
        assert(post.bucket(b.table as int).len() == pre.bucket(b.table as int).len());
    }
    assert forall|b: VertAddr| #[trigger] post.valid(b) implies pre.valid(b) by {
        assert(post.bucket(b.table as int).len() == pre.bucket(b.table as int).len());
    }
    assert forall|b: VertAddr| pre.valid(b) && b != a implies (#[trigger] post.at(b)) == pre.at(
        b,
    ) by {
        if b.table as int == a.table as int {
            assert(post.bucket(b.table as int) == pre.bucket(b.table as int).update(
                a.bucket as int,
                v,
            ));
        } else {
            assert(post.bucket(b.table as int) == pre.bucket(b.table as int));
        }
    }
}

/// Holding a key and holding it under some live handle are the same thing.
pub proof fn lemma_has_key_iff_handle<T: NodeT>(s: AddrHashSet<T>, q: T)
    requires
        s.wf(),
    ensures
        s.has_key(&q) <==> exists|a: VertAddr| #[trigger] s.valid(a) && s.at(a).key_eq(&q),
{
    if s.has_key(&q) {
        let (t, i) = choose|t: int, i: int|
            0 <= t < s.capacity_spec() && 0 <= i < s.bucket(t).len() && (#[trigger] s.bucket(
                t,
            )[i]).key_eq(&q);
        let a = VertAddr { table: t as usize, bucket: i as usize, sig: s.sig };
        assert(s.valid(a) && s.at(a).key_eq(&q));
    }
    if exists|a: VertAddr| #[trigger] s.valid(a) && s.at(a).key_eq(&q) {
        let a = choose|a: VertAddr| #[trigger] s.valid(a) && s.at(a).key_eq(&q);
        let t = a.table as int;
        let i = a.bucket as int;
        assert(0 <= t < s.capacity_spec() && 0 <= i < s.bucket(t).len() && s.bucket(t)[i].key_eq(
            &q,
        ));
    }
}

/// Indexing with the handle a successful insertion returned reads back
/// exactly the inserted value.
pub proof fn lemma_insert_round_trip<T: NodeT>(pre: AddrHashSet<T>, post: AddrHashSet<T>, val: T, a: VertAddr)
    requires
        pre.inserted(post, val, a),
    ensures
        post.valid(a),
        post.at(a) == val,
{
}

/// After growing, translating any live old handle through the returned map
/// designates the same entry in the new arena.
pub proof fn lemma_grow_round_trip<T: NodeT>(
    prev: AddrHashSet<T>,
    next: AddrHashSet<T>,
    map: AddrMap,
    a: VertAddr,
    b: VertAddr,
)
    requires
        prev.regrown(next, map),
        prev.valid(a),
        map.maps(a, b),
    ensures
        next.valid(b),
        next.at(b) == prev.at(a),
{
    let k = choose|k: int| 0 <= k < map.pairs@.len() && #[trigger] map.pairs@[k] == (a, b);
    assert(map.pairs@[k].0 == a);
}

} // verus!

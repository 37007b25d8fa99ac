use vstd::prelude::*;

use crate::addr_hm::VertAddr;
use crate::dir::{Dir, DirT, Undir};
use crate::edge::EdgeT;
use crate::vertex::NodeT;
use crate::Graph;

verus! {

/// Whether `out` is a complete traversal of the part of `g` reachable from
/// `s`: it starts at `s`, repeats no vertex, stays on live vertices, and
/// holds exactly what `s` reaches.
pub open spec fn traversal_of<V: NodeT, E: EdgeT, D: DirT>(
    g: Graph<V, E, D>,
    s: VertAddr,
    out: Seq<VertAddr>,
) -> bool {
    &&& out.no_duplicates()
    &&& out.len() > 0
    &&& out[0] == s
    &&& forall|j: int| 0 <= j < out.len() ==> g.valid_vertex(#[trigger] out[j])
    &&& forall|v: VertAddr| #[trigger] out.contains(v) <==> g.reaches(s, v)
    &&& forall|j: int|
        1 <= j < out.len() ==> exists|k: int| 0 <= k < j && g.step(out[k], #[trigger] out[j])
}

/// In a connected graph any complete traversal — breadth-first or
/// depth-first, from any start vertex — visits every vertex exactly once,
/// so its length is the graph's order.
pub proof fn lemma_traversal_covers_connected<V: NodeT, E: EdgeT, D: DirT>(
    g: Graph<V, E, D>,
    s: VertAddr,
    out: Seq<VertAddr>,
)
    requires
        g.wf(),
        g.connected(),
        g.valid_vertex(s),
        traversal_of(g, s, out),
    ensures
        out.len() == g.order_spec(),
        out.no_duplicates(),
        forall|v: VertAddr| #[trigger] g.valid_vertex(v) ==> out.contains(v),
{
    assert forall|v: VertAddr| #[trigger] g.valid_vertex(v) implies out.contains(v) by {
        assert(g.reaches(s, v));
    }
    crate::addr_hm::lemma_enumeration_exact(g.nodes, out);
}

/// Under a merged (undirected) policy the clusters that `components` yields
/// are a true partition: no vertex lies in two clusters, and any two members
/// of one cluster reach each other.  The hypotheses are exactly what
/// `Components::new` ensures.
pub proof fn lemma_components_partition<V: NodeT, E: EdgeT, D: DirT>(
    g: Graph<V, E, D>,
    comps: Seq<Vec<VertAddr>>,
)
    requires
        g.wf(),
        D::merged(),
        forall|k: int|
            0 <= k < comps.len() ==> g.valid_vertex((#[trigger] comps[k])@[0]) && traversal_of(
                g,
                comps[k]@[0],
                comps[k]@,
            ),
        forall|k1: int, k2: int|
            0 <= k1 < k2 < comps.len() ==> !(#[trigger] comps[k1])@.contains(
                (#[trigger] comps[k2])@[0],
            ),
    ensures
        forall|k: int, u: VertAddr, v: VertAddr|
            0 <= k < comps.len() && #[trigger] comps[k]@.contains(u) && #[trigger] comps[k]@.contains(
                v,
            ) ==> g.reaches(u, v),
        forall|k1: int, k2: int, v: VertAddr|
            0 <= k1 < comps.len() && 0 <= k2 < comps.len() && k1 != k2 ==> !(
            #[trigger] comps[k1]@.contains(v) && #[trigger] comps[k2]@.contains(v)),
{
    assert forall|k: int, u: VertAddr, v: VertAddr|
        0 <= k < comps.len() && #[trigger] comps[k]@.contains(u) && #[trigger] comps[k]@.contains(
            v,
        ) implies g.reaches(u, v) by {
        let s = comps[k]@[0];
        assert(g.reaches(s, u) && g.reaches(s, v));
        g.lemma_reaches_symmetric(s, u);
        g.lemma_reaches_trans(u, s, v);
    }
    assert forall|k1: int, k2: int, v: VertAddr|
        0 <= k1 < comps.len() && 0 <= k2 < comps.len() && k1 != k2 implies !(
    #[trigger] comps[k1]@.contains(v) && #[trigger] comps[k2]@.contains(v)) by {
        if comps[k1]@.contains(v) && comps[k2]@.contains(v) {
            let a = if k1 < k2 {
                k1
            } else {
                k2
            };
            let b = if k1 < k2 {
                k2
            } else {
                k1
            };
            let sa = comps[a]@[0];
            let sb = comps[b]@[0];
            assert(g.reaches(sa, v) && g.reaches(sb, v));
            g.lemma_reaches_symmetric(sb, v);
            g.lemma_reaches_trans(sa, v, sb);
            assert(comps[a]@.contains(sb));
        }
    }
}

/// Linear scan for a handle.
fn contains_handle(v: &Vec<VertAddr>, x: VertAddr) -> (r: bool)
    ensures
        r == v@.contains(x),
{
    let mut i: usize = 0;
    while i < v.len()
        invariant
            i <= v@.len(),
            forall|j: int| 0 <= j < i ==> v@[j] != x,
        decreases v@.len() - i,
    {
        if v[i] == x {
            return true;
        }
        i = i + 1;
    }
    false
}

/// Whether `out` lists vertices in nondecreasing hop distance from `s`.
/// Together with `traversal_of` this is the level structure of a
/// breadth-first traversal: all vertices at distance d come before any
/// vertex at distance d + 1.
pub open spec fn level_ordered<V: NodeT, E: EdgeT, D: DirT>(
    g: Graph<V, E, D>,
    s: VertAddr,
    out: Seq<VertAddr>,
) -> bool {
    forall|i: int, j: int|
        0 <= i < j < out.len() ==> g.dist(s, #[trigger] out[i]) <= g.dist(s, #[trigger] out[j])
}

/// When a level is fully processed — the seen set is the processed vertices
/// plus a frontier that sits exactly one level further out — the seen set
/// already covers everything up to that next level: any vertex there has a
/// predecessor one hop closer, which is processed, and processed vertices
/// have all their step successors seen.
proof fn lemma_level_complete<V: NodeT, E: EdgeT, D: DirT>(
    g: &Graph<V, E, D>,
    s: VertAddr,
    level: nat,
    out: Seq<VertAddr>,
    next: Seq<VertAddr>,
    seen: Seq<VertAddr>,
)
    requires
        seen == out + next,
        forall|j: int, v: VertAddr|
            0 <= j < out.len() && #[trigger] g.step(out[j], v) ==> seen.contains(v),
        forall|m: int| 0 <= m < next.len() ==> g.dist(s, #[trigger] next[m]) == level + 1,
        forall|v: VertAddr|
            g.reaches(s, v) && #[trigger] g.dist(s, v) <= level ==> seen.contains(v),
    ensures
        forall|v: VertAddr|
            g.reaches(s, v) && #[trigger] g.dist(s, v) <= level + 1 ==> seen.contains(v),
{
    assert forall|v: VertAddr|
        g.reaches(s, v) && #[trigger] g.dist(s, v) <= level + 1 implies seen.contains(v) by {
        if g.dist(s, v) > level {
            assert(g.dist(s, v) == level + 1);
            g.lemma_dist_pred(s, v);
            let u2 = choose|u2: VertAddr|
                #[trigger] g.step(u2, v) && g.reaches(s, u2) && g.dist(s, u2) == g.dist(s, v) - 1;
            assert(seen.contains(u2));
            let jj = choose|jj: int| 0 <= jj < seen.len() && seen[jj] == u2;
            if jj < out.len() {
                assert(out[jj] == u2);
                assert(g.step(out[jj], v));
            } else {
                assert(next[jj - out.len()] == u2);
                assert(g.dist(s, u2) == level + 1);
                assert(false);
            }
        }
    }
}

/// Bookkeeping for taking `u` from the head of the current frontier and
/// appending it to the output: the discovery-edge and level clauses carry
/// over from the state before the pop.
proof fn lemma_bfs_pop<V: NodeT, E: EdgeT, D: DirT>(
    g: &Graph<V, E, D>,
    s: VertAddr,
    level: nat,
    u: VertAddr,
    pre_out: Seq<VertAddr>,
    pre_this: Seq<VertAddr>,
    pre_next: Seq<VertAddr>,
    out: Seq<VertAddr>,
    this: Seq<VertAddr>,
    next: Seq<VertAddr>,
    seen: Seq<VertAddr>,
)
    requires
        pre_this.len() > 0,
        u == pre_this[0],
        out == pre_out.push(u),
        this == pre_this.subrange(1, pre_this.len() as int),
        next == pre_next,
        seen == out + this + next,
        seen.no_duplicates(),
        seen.len() > 0,
        seen[0] == s,
        forall|j2: int|
            1 <= j2 < pre_out.len() ==> exists|k: int|
                0 <= k < j2 && g.step(pre_out[k], #[trigger] pre_out[j2]),
        forall|m: int|
            0 <= m < pre_this.len() ==> (#[trigger] pre_this[m]) == s || exists|k: int|
                0 <= k < pre_out.len() && g.step(pre_out[k], pre_this[m]),
        forall|m: int|
            0 <= m < pre_next.len() ==> (#[trigger] pre_next[m]) == s || exists|k: int|
                0 <= k < pre_out.len() && g.step(pre_out[k], pre_next[m]),
        forall|m: int| 0 <= m < pre_this.len() ==> g.dist(s, #[trigger] pre_this[m]) == level,
        forall|j: int| 0 <= j < pre_out.len() ==> g.dist(s, #[trigger] pre_out[j]) <= level,
        forall|i: int, j: int|
            0 <= i < j < pre_out.len() ==> g.dist(s, #[trigger] pre_out[i]) <= g.dist(
                s,
                #[trigger] pre_out[j],
            ),
    ensures
        g.dist(s, u) == level,
        forall|j2: int|
            1 <= j2 < out.len() ==> exists|k: int|
                0 <= k < j2 && g.step(out[k], #[trigger] out[j2]),
        forall|m: int|
            0 <= m < this.len() ==> (#[trigger] this[m]) == s || exists|k: int|
                0 <= k < out.len() && g.step(out[k], this[m]),
        forall|m: int|
            0 <= m < next.len() ==> (#[trigger] next[m]) == s || exists|k: int|
                0 <= k < out.len() && g.step(out[k], next[m]),
        forall|m: int| 0 <= m < this.len() ==> g.dist(s, #[trigger] this[m]) == level,
        forall|j: int| 0 <= j < out.len() ==> g.dist(s, #[trigger] out[j]) <= level,
        forall|i: int, j: int|
            0 <= i < j < out.len() ==> g.dist(s, #[trigger] out[i]) <= g.dist(
                s,
                #[trigger] out[j],
            ),
{
    assert forall|j2: int| 1 <= j2 < out.len() implies exists|k: int|
        0 <= k < j2 && g.step(out[k], #[trigger] out[j2]) by {
        if j2 < pre_out.len() {
            assert(out[j2] == pre_out[j2]);
            let k = choose|k: int| 0 <= k < j2 && g.step(pre_out[k], pre_out[j2]);
            assert(g.step(out[k], out[j2]));
        } else {
            assert(out[j2] == u);
            if u == s {
                assert(seen[0] == s && seen[pre_out.len() as int] == u);
                assert(false);
            }
            let k = choose|k: int| 0 <= k < pre_out.len() && g.step(pre_out[k], u);
            assert(g.step(out[k], out[j2]));
        }
    }
    assert forall|m: int| 0 <= m < this.len() implies (#[trigger] this[m]) == s || exists|k: int|
        0 <= k < out.len() && g.step(out[k], this[m]) by {
        assert(this[m] == pre_this[m + 1]);
        if this[m] != s {
            let k = choose|k: int| 0 <= k < pre_out.len() && g.step(pre_out[k], pre_this[m + 1]);
            assert(g.step(out[k], this[m]));
        }
    }
    assert forall|m: int| 0 <= m < next.len() implies (#[trigger] next[m]) == s || exists|k: int|
        0 <= k < out.len() && g.step(out[k], next[m]) by {
        if next[m] != s {
            let k = choose|k: int| 0 <= k < pre_out.len() && g.step(pre_out[k], pre_next[m]);
            assert(g.step(out[k], next[m]));
        }
    }
    assert forall|m: int| 0 <= m < this.len() implies g.dist(s, #[trigger] this[m]) == level by {
        assert(this[m] == pre_this[m + 1]);
    }
    assert forall|j: int| 0 <= j < out.len() implies g.dist(s, #[trigger] out[j]) <= level by {
        if j < pre_out.len() {
            assert(out[j] == pre_out[j]);
        } else {
            assert(out[j] == u);
        }
    }
    assert forall|i: int, j: int|
        0 <= i < j < out.len() implies g.dist(s, #[trigger] out[i]) <= g.dist(
        s,
        #[trigger] out[j],
    ) by {
        assert(out[i] == pre_out[i]);
        if j < pre_out.len() {
            assert(out[j] == pre_out[j]);
        } else {
            assert(out[j] == u);
            assert(g.dist(s, pre_out[i]) <= level);
        }
    }
}

/// One visit step of the breadth-first traversal: scan the reachable list
/// of `u`, the vertex just appended to the output `gout`, and mark and
/// enqueue every far endpoint not seen yet.  `gthis` is the rest of the
/// current frontier; the next frontier and the seen set grow in lockstep,
/// and everything enqueued sits exactly one level beyond `u`.
#[verifier::rlimit(100)]
#[verifier::spinoff_prover]
fn bfs_scan<V: NodeT, E: EdgeT, D: DirT>(
    g: &Graph<V, E, D>,
    s: VertAddr,
    u: VertAddr,
    Ghost(level): Ghost<nat>,
    Ghost(gout): Ghost<Seq<VertAddr>>,
    Ghost(gthis): Ghost<Seq<VertAddr>>,
    seen: &mut Vec<VertAddr>,
    next: &mut Vec<VertAddr>,
)
    requires
        g.wf(),
        g.valid_vertex(s),
        g.valid_vertex(u),
        g.reaches(s, u),
        g.dist(s, u) == level,
        gout.len() > 0,
        gout.last() == u,
        old(seen)@ == gout + gthis + old(next)@,
        old(seen)@.no_duplicates(),
        old(seen)@.len() > 0,
        old(seen)@[0] == s,
        forall|j: int| 0 <= j < old(seen)@.len() ==> g.valid_vertex(#[trigger] old(seen)@[j]),
        forall|j: int| 0 <= j < old(seen)@.len() ==> g.reaches(s, #[trigger] old(seen)@[j]),
        forall|j: int, v: VertAddr|
            0 <= j < gout.len() - 1 && #[trigger] g.step(gout[j], v) ==> old(seen)@.contains(v),
        forall|m: int|
            0 <= m < old(next)@.len() ==> (#[trigger] old(next)@[m]) == s || exists|k: int|
                0 <= k < gout.len() && g.step(gout[k], old(next)@[m]),
        forall|m: int|
            0 <= m < old(next)@.len() ==> g.dist(s, #[trigger] old(next)@[m]) == level + 1,
        forall|v: VertAddr|
            g.reaches(s, v) && #[trigger] g.dist(s, v) <= level ==> old(seen)@.contains(v),
        old(seen)@.len() <= g.nodes.size,
    ensures
        final(seen)@ == gout + gthis + final(next)@,
        final(seen)@.no_duplicates(),
        final(seen)@.len() >= old(seen)@.len(),
        final(next)@.len() - old(next)@.len() == final(seen)@.len() - old(seen)@.len(),
        final(seen)@.len() > 0,
        final(seen)@[0] == s,
        forall|j: int| 0 <= j < final(seen)@.len() ==> g.valid_vertex(#[trigger] final(seen)@[j]),
        forall|j: int| 0 <= j < final(seen)@.len() ==> g.reaches(s, #[trigger] final(seen)@[j]),
        forall|j: int, v: VertAddr|
            0 <= j < gout.len() - 1 && #[trigger] g.step(gout[j], v) ==> final(seen)@.contains(v),
        forall|k: int|
            0 <= k < g.vertex(u).hood.outs().len() ==> final(seen)@.contains(
                g.edge(#[trigger] g.vertex(u).hood.outs()[k]).other(u),
            ),
        forall|m: int|
            0 <= m < final(next)@.len() ==> (#[trigger] final(next)@[m]) == s || exists|k: int|
                0 <= k < gout.len() && g.step(gout[k], final(next)@[m]),
        forall|m: int|
            0 <= m < final(next)@.len() ==> g.dist(s, #[trigger] final(next)@[m]) == level + 1,
        forall|v: VertAddr|
            g.reaches(s, v) && #[trigger] g.dist(s, v) <= level ==> final(seen)@.contains(v),
        final(seen)@.len() <= g.nodes.size,
{
    let vert = g.vertex_at(u);
    let list = vert.get_reachable();
    let ghost base_seen = old(seen)@.len();
    let ghost base_next = old(next)@.len();
    let mut i: usize = 0;
    while i < list.len()
        invariant
            g.wf(),
            g.valid_vertex(s),
            g.valid_vertex(u),
            g.reaches(s, u),
            g.dist(s, u) == level,
            gout.len() > 0,
            gout.last() == u,
            list@ == g.vertex(u).hood.outs(),
            seen@.len() >= base_seen,
            next@.len() - base_next == seen@.len() - base_seen,
            seen@ == gout + gthis + next@,
            seen@.no_duplicates(),
            seen@.len() > 0,
            seen@[0] == s,
            forall|j: int| 0 <= j < seen@.len() ==> g.valid_vertex(#[trigger] seen@[j]),
            forall|j: int| 0 <= j < seen@.len() ==> g.reaches(s, #[trigger] seen@[j]),
            forall|j: int, v: VertAddr|
                0 <= j < gout.len() - 1 && #[trigger] g.step(gout[j], v) ==> seen@.contains(v),
            forall|m: int|
                0 <= m < next@.len() ==> (#[trigger] next@[m]) == s || exists|k: int|
                    0 <= k < gout.len() && g.step(gout[k], next@[m]),
            forall|m: int| 0 <= m < next@.len() ==> g.dist(s, #[trigger] next@[m]) == level + 1,
            forall|v: VertAddr|
                g.reaches(s, v) && #[trigger] g.dist(s, v) <= level ==> seen@.contains(v),
            i <= list@.len(),
            forall|k: int| 0 <= k < i ==> seen@.contains(g.edge(#[trigger] list@[k]).other(u)),
            seen@.len() <= g.nodes.size,
        decreases list@.len() - i,
    {
        let e = list[i];
        proof {
            assert(g.adjacency_wf_at(u));
            assert(g.valid_edge(e));
        }
        let w = g.edge_at(e).get_end(u);
        if !contains_handle(seen, w) {
            let ghost pre_seen = seen@;
            let ghost pre_nxt = next@;
            proof {
                assert(g.step(u, w));
                g.lemma_step_valid(u, w);
                g.lemma_reaches_step(s, u, w);
                g.lemma_dist_step(s, u, w);
                // an unseen neighbor of the current level sits exactly one
                // level further out
                if g.dist(s, w) <= level {
                    assert(seen@.contains(w));
                    assert(false);
                }
                assert(g.dist(s, w) == level + 1);
            }
            seen.push(w);
            next.push(w);
            proof {
                assert forall|m: int| 0 <= m < next@.len() implies (#[trigger] next@[m]) == s
                    || exists|k: int| 0 <= k < gout.len() && g.step(gout[k], next@[m]) by {
                    if m < pre_nxt.len() {
                        assert(next@[m] == pre_nxt[m]);
                    } else {
                        assert(next@[m] == w);
                        assert(gout[gout.len() - 1] == u);
                        assert(g.step(gout[gout.len() - 1], w));
                    }
                }
                assert forall|m: int| 0 <= m < next@.len() implies g.dist(s, #[trigger] next@[m])
                    == level + 1 by {
                    if m < pre_nxt.len() {
                        assert(next@[m] == pre_nxt[m]);
                    } else {
                        assert(next@[m] == w);
                    }
                }
                assert forall|j1: int, j2: int|
                    0 <= j1 < j2 < seen@.len() implies seen@[j1] != seen@[j2] by {
                    if j2 == seen@.len() - 1 {
                        assert(seen@[j1] == pre_seen[j1]);
                        if pre_seen[j1] == w {
                            assert(pre_seen.contains(w));
                        }
                    }
                }
                assert forall|v: VertAddr| #[trigger] pre_seen.contains(v) implies seen@.contains(
                    v,
                ) by {
                    let j = choose|j: int| 0 <= j < pre_seen.len() && pre_seen[j] == v;
                    assert(seen@[j] == v);
                }
                assert(seen@ =~= gout + gthis + next@);
                crate::addr_hm::lemma_enumeration_bound(g.nodes, seen@);
                assert(seen@.contains(w)) by {
                    assert(seen@[seen@.len() - 1] == w);
                }
            }
        }
        proof {
            assert(seen@.contains(w));
            assert(w == g.edge(list@[i as int]).other(u));
        }
        i = i + 1;
    }
}

/// Refill the current frontier when it is drained: the finished level is
/// complete, so the seen set already covers the next level, and the two
/// queues swap.  The returned ghost value is the level of the frontier
/// afterwards.
#[verifier::rlimit(100)]
#[verifier::spinoff_prover]
fn bfs_refill<V: NodeT, E: EdgeT, D: DirT>(
    g: &Graph<V, E, D>,
    s: VertAddr,
    Ghost(level): Ghost<nat>,
    this: &mut Vec<VertAddr>,
    next: &mut Vec<VertAddr>,
    Ghost(gseen): Ghost<Seq<VertAddr>>,
    Ghost(gout): Ghost<Seq<VertAddr>>,
) -> (lv: Ghost<nat>)
    requires
        old(this)@.len() > 0 || old(next)@.len() > 0,
            g.wf(),
            g.valid_vertex(s),
            gseen == gout + old(this)@ + old(next)@,
            gseen.no_duplicates(),
            gseen.len() > 0,
            gseen[0] == s,
            forall|j: int| 0 <= j < gseen.len() ==> g.valid_vertex(#[trigger] gseen[j]),
            forall|j: int| 0 <= j < gseen.len() ==> g.reaches(s, #[trigger] gseen[j]),
            gout.len() > 0 ==> gout[0] == s,
            gout.len() == 0 ==> old(this)@ == seq![s] && old(next)@.len() == 0,
            forall|j: int, v: VertAddr|
                0 <= j < gout.len() && #[trigger] g.step(gout[j], v) ==> gseen.contains(v),
            forall|j2: int|
                1 <= j2 < gout.len() ==> exists|k: int|
                    0 <= k < j2 && g.step(gout[k], #[trigger] gout[j2]),
            forall|m: int|
                0 <= m < old(this)@.len() ==> (#[trigger] old(this)@[m]) == s || exists|k: int|
                    0 <= k < gout.len() && g.step(gout[k], old(this)@[m]),
            forall|m: int|
                0 <= m < old(next)@.len() ==> (#[trigger] old(next)@[m]) == s || exists|k: int|
                    0 <= k < gout.len() && g.step(gout[k], old(next)@[m]),
            forall|m: int| 0 <= m < old(this)@.len() ==> g.dist(s, #[trigger] old(this)@[m]) == level,
            forall|m: int| 0 <= m < old(next)@.len() ==> g.dist(s, #[trigger] old(next)@[m]) == level + 1,
            forall|j: int| 0 <= j < gout.len() ==> g.dist(s, #[trigger] gout[j]) <= level,
            forall|i: int, j: int|
                0 <= i < j < gout.len() ==> g.dist(s, #[trigger] gout[i]) <= g.dist(
                    s,
                    #[trigger] gout[j],
                ),
            forall|v: VertAddr|
                g.reaches(s, v) && #[trigger] g.dist(s, v) <= level ==> gseen.contains(v),
            gseen.len() <= g.nodes.size,
    ensures
        final(this)@.len() > 0,
        final(this)@.len() + final(next)@.len() == old(this)@.len() + old(next)@.len(),
            g.wf(),
            g.valid_vertex(s),
            gseen == gout + final(this)@ + final(next)@,
            gseen.no_duplicates(),
            gseen.len() > 0,
            gseen[0] == s,
            forall|j: int| 0 <= j < gseen.len() ==> g.valid_vertex(#[trigger] gseen[j]),
            forall|j: int| 0 <= j < gseen.len() ==> g.reaches(s, #[trigger] gseen[j]),
            gout.len() > 0 ==> gout[0] == s,
            gout.len() == 0 ==> final(this)@ == seq![s] && final(next)@.len() == 0,
            forall|j: int, v: VertAddr|
                0 <= j < gout.len() && #[trigger] g.step(gout[j], v) ==> gseen.contains(v),
            forall|j2: int|
                1 <= j2 < gout.len() ==> exists|k: int|
                    0 <= k < j2 && g.step(gout[k], #[trigger] gout[j2]),
            forall|m: int|
                0 <= m < final(this)@.len() ==> (#[trigger] final(this)@[m]) == s || exists|k: int|
                    0 <= k < gout.len() && g.step(gout[k], final(this)@[m]),
            forall|m: int|
                0 <= m < final(next)@.len() ==> (#[trigger] final(next)@[m]) == s || exists|k: int|
                    0 <= k < gout.len() && g.step(gout[k], final(next)@[m]),
            forall|m: int| 0 <= m < final(this)@.len() ==> g.dist(s, #[trigger] final(this)@[m]) == lv@,
            forall|m: int| 0 <= m < final(next)@.len() ==> g.dist(s, #[trigger] final(next)@[m]) == lv@ + 1,
            forall|j: int| 0 <= j < gout.len() ==> g.dist(s, #[trigger] gout[j]) <= lv@,
            forall|i: int, j: int|
                0 <= i < j < gout.len() ==> g.dist(s, #[trigger] gout[i]) <= g.dist(
                    s,
                    #[trigger] gout[j],
                ),
            forall|v: VertAddr|
                g.reaches(s, v) && #[trigger] g.dist(s, v) <= lv@ ==> gseen.contains(v),
            gseen.len() <= g.nodes.size,
{
    let ghost mut level = level;
    if this.len() == 0 {
        proof {
            assert(gseen =~= gout + next@);
            lemma_level_complete(g, s, level, gout, next@, gseen);
            level = level + 1;
        }
        core::mem::swap(this, next);
    }
    Ghost(level)
}

/// Visit the head of the current frontier: append it to the output and
/// scan its reachable list, marking and enqueuing its unseen neighbors.
#[verifier::rlimit(100)]
#[verifier::spinoff_prover]
fn bfs_visit<V: NodeT, E: EdgeT, D: DirT>(
    g: &Graph<V, E, D>,
    s: VertAddr,
    Ghost(level): Ghost<nat>,
    seen: &mut Vec<VertAddr>,
    out: &mut Vec<VertAddr>,
    this: &mut Vec<VertAddr>,
    next: &mut Vec<VertAddr>,
)
    requires
        old(this)@.len() > 0,
            g.wf(),
            g.valid_vertex(s),
            old(seen)@ == old(out)@ + old(this)@ + old(next)@,
            old(seen)@.no_duplicates(),
            old(seen)@.len() > 0,
            old(seen)@[0] == s,
            forall|j: int| 0 <= j < old(seen)@.len() ==> g.valid_vertex(#[trigger] old(seen)@[j]),
            forall|j: int| 0 <= j < old(seen)@.len() ==> g.reaches(s, #[trigger] old(seen)@[j]),
            old(out)@.len() > 0 ==> old(out)@[0] == s,
            old(out)@.len() == 0 ==> old(this)@ == seq![s] && old(next)@.len() == 0,
            forall|j: int, v: VertAddr|
                0 <= j < old(out)@.len() && #[trigger] g.step(old(out)@[j], v) ==> old(seen)@.contains(v),
            forall|j2: int|
                1 <= j2 < old(out)@.len() ==> exists|k: int|
                    0 <= k < j2 && g.step(old(out)@[k], #[trigger] old(out)@[j2]),
            forall|m: int|
                0 <= m < old(this)@.len() ==> (#[trigger] old(this)@[m]) == s || exists|k: int|
                    0 <= k < old(out)@.len() && g.step(old(out)@[k], old(this)@[m]),
            forall|m: int|
                0 <= m < old(next)@.len() ==> (#[trigger] old(next)@[m]) == s || exists|k: int|
                    0 <= k < old(out)@.len() && g.step(old(out)@[k], old(next)@[m]),
            forall|m: int| 0 <= m < old(this)@.len() ==> g.dist(s, #[trigger] old(this)@[m]) == level,
            forall|m: int| 0 <= m < old(next)@.len() ==> g.dist(s, #[trigger] old(next)@[m]) == level + 1,
            forall|j: int| 0 <= j < old(out)@.len() ==> g.dist(s, #[trigger] old(out)@[j]) <= level,
            forall|i: int, j: int|
                0 <= i < j < old(out)@.len() ==> g.dist(s, #[trigger] old(out)@[i]) <= g.dist(
                    s,
                    #[trigger] old(out)@[j],
                ),
            forall|v: VertAddr|
                g.reaches(s, v) && #[trigger] g.dist(s, v) <= level ==> old(seen)@.contains(v),
            old(seen)@.len() <= g.nodes.size,
    ensures
            g.wf(),
            g.valid_vertex(s),
            final(seen)@ == final(out)@ + final(this)@ + final(next)@,
            final(seen)@.no_duplicates(),
            final(seen)@.len() > 0,
            final(seen)@[0] == s,
            forall|j: int| 0 <= j < final(seen)@.len() ==> g.valid_vertex(#[trigger] final(seen)@[j]),
            forall|j: int| 0 <= j < final(seen)@.len() ==> g.reaches(s, #[trigger] final(seen)@[j]),
            final(out)@.len() > 0 ==> final(out)@[0] == s,
            final(out)@.len() == 0 ==> final(this)@ == seq![s] && final(next)@.len() == 0,
            forall|j: int, v: VertAddr|
                0 <= j < final(out)@.len() && #[trigger] g.step(final(out)@[j], v) ==> final(seen)@.contains(v),
            forall|j2: int|
                1 <= j2 < final(out)@.len() ==> exists|k: int|
                    0 <= k < j2 && g.step(final(out)@[k], #[trigger] final(out)@[j2]),
            forall|m: int|
                0 <= m < final(this)@.len() ==> (#[trigger] final(this)@[m]) == s || exists|k: int|
                    0 <= k < final(out)@.len() && g.step(final(out)@[k], final(this)@[m]),
            forall|m: int|
                0 <= m < final(next)@.len() ==> (#[trigger] final(next)@[m]) == s || exists|k: int|
                    0 <= k < final(out)@.len() && g.step(final(out)@[k], final(next)@[m]),
            forall|m: int| 0 <= m < final(this)@.len() ==> g.dist(s, #[trigger] final(this)@[m]) == level,
            forall|m: int| 0 <= m < final(next)@.len() ==> g.dist(s, #[trigger] final(next)@[m]) == level + 1,
            forall|j: int| 0 <= j < final(out)@.len() ==> g.dist(s, #[trigger] final(out)@[j]) <= level,
            forall|i: int, j: int|
                0 <= i < j < final(out)@.len() ==> g.dist(s, #[trigger] final(out)@[i]) <= g.dist(
                    s,
                    #[trigger] final(out)@[j],
                ),
            forall|v: VertAddr|
                g.reaches(s, v) && #[trigger] g.dist(s, v) <= level ==> final(seen)@.contains(v),
            final(seen)@.len() <= g.nodes.size,
        final(seen)@.len() >= old(seen)@.len(),
        final(seen)@.len() == old(seen)@.len() ==> final(this)@.len() + final(next)@.len() < old(
            this,
        )@.len() + old(next)@.len(),
{
    let ghost pre_out = out@;
    let ghost pre_this = this@;
    let ghost pre_next = next@;
    let u = this.remove(0);
    out.push(u);
    proof {
        assert(seen@ =~= out@ + this@ + next@);
        assert(u == seen@[pre_out.len() as int]);
        assert(seen@.contains(u));
        assert(g.reaches(s, u));
        assert(g.valid_vertex(u));
        lemma_bfs_pop(g, s, level, u, pre_out, pre_this, pre_next, out@, this@, next@, seen@);
    }
    bfs_scan(g, s, u, Ghost(level), Ghost(out@), Ghost(this@), seen, next);
    proof {
        assert forall|j: int, v: VertAddr|
            0 <= j < out@.len() && #[trigger] g.step(out@[j], v) implies seen@.contains(v) by {
            if j == out@.len() - 1 {
                assert(out@[j] == u);
                let k = choose|k: int|
                    0 <= k < g.vertex(u).hood.outs().len() && v == g.edge(
                        #[trigger] g.vertex(u).hood.outs()[k],
                    ).other(u);
                assert(seen@.contains(g.edge(g.vertex(u).hood.outs()[k]).other(u)));
            }
        }
    }
}

/// Level-order traversal from `s`: two frontiers and a seen set, marking at
/// enqueue time so that no vertex enters a frontier twice.
#[verifier::rlimit(100)]
#[verifier::spinoff_prover]
fn bfs_order<V: NodeT, E: EdgeT, D: DirT>(g: &Graph<V, E, D>, s: VertAddr) -> (out: Vec<VertAddr>)
    requires
        g.wf(),
        g.valid_vertex(s),
    ensures
        traversal_of(*g, s, out@),
        level_ordered(*g, s, out@),
{
    let mut seen: Vec<VertAddr> = Vec::new();
    let mut out: Vec<VertAddr> = Vec::new();
    let mut this: Vec<VertAddr> = Vec::new();
    let mut next: Vec<VertAddr> = Vec::new();
    seen.push(s);
    this.push(s);
    let ghost mut level: nat = 0;
    proof {
        assert(g.reaches_in(s, s, 0));
        assert(seen@ =~= out@ + this@ + next@);
        crate::addr_hm::lemma_enumeration_bound(g.nodes, seen@);
        g.lemma_dist_start(s);
        assert forall|v: VertAddr| g.reaches(s, v) && #[trigger] g.dist(s, v) <= 0 implies seen@.contains(
            v,
        ) by {
            g.lemma_dist_minimal(s, v);
            assert(g.reaches_in(s, v, 0));
            assert(seen@[0] == s);
        }
    }
    while this.len() > 0 || next.len() > 0
        invariant
            g.wf(),
            g.valid_vertex(s),
            seen@ == out@ + this@ + next@,
            seen@.no_duplicates(),
            seen@.len() > 0,
            seen@[0] == s,
            forall|j: int| 0 <= j < seen@.len() ==> g.valid_vertex(#[trigger] seen@[j]),
            forall|j: int| 0 <= j < seen@.len() ==> g.reaches(s, #[trigger] seen@[j]),
            out@.len() > 0 ==> out@[0] == s,
            out@.len() == 0 ==> this@ == seq![s] && next@.len() == 0,
            forall|j: int, v: VertAddr|
                0 <= j < out@.len() && #[trigger] g.step(out@[j], v) ==> seen@.contains(v),
            forall|j2: int|
                1 <= j2 < out@.len() ==> exists|k: int|
                    0 <= k < j2 && g.step(out@[k], #[trigger] out@[j2]),
            forall|m: int|
                0 <= m < this@.len() ==> (#[trigger] this@[m]) == s || exists|k: int|
                    0 <= k < out@.len() && g.step(out@[k], this@[m]),
            forall|m: int|
                0 <= m < next@.len() ==> (#[trigger] next@[m]) == s || exists|k: int|
                    0 <= k < out@.len() && g.step(out@[k], next@[m]),
            forall|m: int| 0 <= m < this@.len() ==> g.dist(s, #[trigger] this@[m]) == level,
            forall|m: int| 0 <= m < next@.len() ==> g.dist(s, #[trigger] next@[m]) == level + 1,
            forall|j: int| 0 <= j < out@.len() ==> g.dist(s, #[trigger] out@[j]) <= level,
            forall|i: int, j: int|
                0 <= i < j < out@.len() ==> g.dist(s, #[trigger] out@[i]) <= g.dist(
                    s,
                    #[trigger] out@[j],
                ),
            forall|v: VertAddr|
                g.reaches(s, v) && #[trigger] g.dist(s, v) <= level ==> seen@.contains(v),
            seen@.len() <= g.nodes.size,
        decreases g.nodes.size - seen@.len(), this@.len() + next@.len(),
    {
        let Ghost(lv) = bfs_refill(
            g,
            s,
            Ghost(level),
            &mut this,
            &mut next,
            Ghost(seen@),
            Ghost(out@),
        );
        proof {
            level = lv;
        }
        bfs_visit(g, s, Ghost(level), &mut seen, &mut out, &mut this, &mut next);
    }
    proof {
        assert(seen@ =~= out@);
        assert forall|v: VertAddr| #[trigger] out@.contains(v) implies g.reaches(s, v) by {
            let j = choose|j: int| 0 <= j < out@.len() && out@[j] == v;
            assert(g.reaches(s, seen@[j]));
        }
        assert forall|v: VertAddr| g.reaches(s, v) implies out@.contains(v) by {
            let n = choose|n: nat| #[trigger] g.reaches_in(s, v, n);
            assert(out@.contains(s));
            g.lemma_closed_covers(s, out@, v, n);
        }
    }
    out
}

/// Pre-order traversal from `s` with an explicit stack, marking at push
/// time: every vertex enters the stack at most once.
#[verifier::rlimit(100)]
#[verifier::spinoff_prover]
fn dfs_order<V: NodeT, E: EdgeT, D: DirT>(g: &Graph<V, E, D>, s: VertAddr) -> (out: Vec<VertAddr>)
    requires
        g.wf(),
        g.valid_vertex(s),
    ensures
        traversal_of(*g, s, out@),
{
    let mut seen: Vec<VertAddr> = Vec::new();
    let mut out: Vec<VertAddr> = Vec::new();
    let mut stack: Vec<VertAddr> = Vec::new();
    seen.push(s);
    stack.push(s);
    proof {
        assert(g.reaches_in(s, s, 0));
        crate::addr_hm::lemma_enumeration_bound(g.nodes, seen@);
        assert(seen@.contains(s)) by {
            assert(seen@[0] == s);
        }
        assert(stack@.contains(s)) by {
            assert(stack@[0] == s);
        }
        assert forall|v: VertAddr| #[trigger] seen@.contains(v) implies (out@.contains(v)
            || stack@.contains(v)) by {
            let j = choose|j: int| 0 <= j < seen@.len() && seen@[j] == v;
            assert(stack@[j] == v);
        }
        assert forall|v: VertAddr| (out@.contains(v) || #[trigger] stack@.contains(
            v,
        )) implies seen@.contains(v) by {
            let j = choose|j: int| 0 <= j < stack@.len() && stack@[j] == v;
            assert(seen@[j] == v);
        }
    }
    while stack.len() > 0
        invariant
            g.wf(),
            g.valid_vertex(s),
            seen@.no_duplicates(),
            out@.no_duplicates(),
            stack@.no_duplicates(),
            seen@.len() > 0,
            seen@[0] == s,
            forall|j: int| 0 <= j < seen@.len() ==> g.valid_vertex(#[trigger] seen@[j]),
            forall|j: int| 0 <= j < seen@.len() ==> g.reaches(s, #[trigger] seen@[j]),
            forall|v: VertAddr|
                #[trigger] seen@.contains(v) <==> (out@.contains(v) || stack@.contains(v)),
            forall|v: VertAddr| !(#[trigger] out@.contains(v) && stack@.contains(v)),
            out@.len() == 0 ==> stack@ == seq![s],
            out@.len() > 0 ==> out@[0] == s,
            forall|j: int, v: VertAddr|
                0 <= j < out@.len() && #[trigger] g.step(out@[j], v) ==> seen@.contains(v),
            forall|j2: int|
                1 <= j2 < out@.len() ==> exists|k: int|
                    0 <= k < j2 && g.step(out@[k], #[trigger] out@[j2]),
            forall|m: int|
                0 <= m < stack@.len() ==> (#[trigger] stack@[m]) == s || exists|k: int|
                    0 <= k < out@.len() && g.step(out@[k], stack@[m]),
            seen@.len() <= g.nodes.size,
        decreases g.nodes.size - seen@.len(), stack@.len(),
    {
        let ghost pre_stack = stack@;
        let ghost pre_out = out@;
        let u = stack.pop().unwrap();
        out.push(u);
        proof {
            assert(pre_stack.contains(u)) by {
                assert(pre_stack[pre_stack.len() - 1] == u);
            }
            assert(seen@.contains(u));
            assert(g.reaches(s, u));
            assert(g.valid_vertex(u));
            assert(!pre_out.contains(u));
            // membership after popping the single occurrence of u
            assert forall|v: VertAddr| #[trigger] pre_stack.contains(v) && v != u implies stack@.contains(
                v,
            ) by {
                let j = choose|j: int| 0 <= j < pre_stack.len() && pre_stack[j] == v;
                assert(stack@[j] == v);
            }
            assert forall|v: VertAddr| #[trigger] stack@.contains(v) implies pre_stack.contains(
                v,
            ) && v != u by {
                let j = choose|j: int| 0 <= j < stack@.len() && stack@[j] == v;
                assert(pre_stack[j] == v);
                if v == u {
                    assert(pre_stack[pre_stack.len() - 1] == u);
                }
            }
            assert forall|v: VertAddr| #[trigger] out@.contains(v) implies pre_out.contains(v) || v
                == u by {
                let j = choose|j: int| 0 <= j < out@.len() && out@[j] == v;
                if j < pre_out.len() {
                    assert(pre_out[j] == v);
                }
            }
            assert forall|v: VertAddr| #[trigger] pre_out.contains(v) implies out@.contains(v) by {
                let j = choose|j: int| 0 <= j < pre_out.len() && pre_out[j] == v;
                assert(out@[j] == v);
            }
            assert forall|j1: int, j2: int| 0 <= j1 < j2 < out@.len() implies out@[j1] != out@[j2]
                by {
                if j2 == out@.len() - 1 {
                    assert(out@[j1] == pre_out[j1]);
                    if pre_out[j1] == u {
                        assert(pre_out.contains(u));
                    }
                }
            }
            assert forall|v: VertAddr| #[trigger] seen@.contains(v) implies (out@.contains(v)
                || stack@.contains(v)) by {
                if pre_out.contains(v) {
                    assert(out@.contains(v));
                } else {
                    assert(pre_stack.contains(v));
                    if v == u {
                        assert(out@[out@.len() - 1] == u);
                    }
                }
            }
            assert forall|v: VertAddr| (out@.contains(v) || #[trigger] stack@.contains(
                v,
            )) implies seen@.contains(v) by {
                if out@.contains(v) {
                    assert(pre_out.contains(v) || v == u);
                }
            }
            assert forall|v: VertAddr| !(#[trigger] out@.contains(v) && stack@.contains(v)) by {
                if out@.contains(v) && stack@.contains(v) {
                    assert(pre_stack.contains(v) && v != u);
                    assert(pre_out.contains(v) || v == u);
                }
            }
            assert forall|j2: int| 1 <= j2 < out@.len() implies exists|k: int|
                0 <= k < j2 && g.step(out@[k], #[trigger] out@[j2]) by {
                if j2 < pre_out.len() {
                    assert(out@[j2] == pre_out[j2]);
                    let k = choose|k: int| 0 <= k < j2 && g.step(pre_out[k], pre_out[j2]);
                    assert(g.step(out@[k], out@[j2]));
                } else {
                    assert(out@[j2] == u);
                    if u == s {
                        assert(pre_out[0] == s);
                        assert(pre_out.contains(s));
                        assert(pre_stack.contains(u));
                        assert(false);
                    }
                    let k = choose|k: int|
                        0 <= k < pre_out.len() && g.step(pre_out[k], pre_stack[pre_stack.len()
                            - 1]);
                    assert(g.step(out@[k], out@[j2]));
                }
            }
            assert forall|m: int| 0 <= m < stack@.len() implies (#[trigger] stack@[m]) == s
                || exists|k: int| 0 <= k < out@.len() && g.step(out@[k], stack@[m]) by {
                assert(stack@[m] == pre_stack[m]);
                if stack@[m] != s {
                    let k = choose|k: int|
                        0 <= k < pre_out.len() && g.step(pre_out[k], pre_stack[m]);
                    assert(g.step(out@[k], stack@[m]));
                }
            }
        }
        let vert = g.vertex_at(u);
        let list = vert.get_reachable();
        let ghost base_seen = seen@.len();
        let ghost base_stack = stack@.len();
        let mut i: usize = 0;
        while i < list.len()
            invariant
                g.wf(),
                g.valid_vertex(s),
                g.valid_vertex(u),
                g.reaches(s, u),
                list@ == g.vertex(u).hood.outs(),
                seen@.len() >= base_seen,
                stack@.len() == base_stack + (seen@.len() - base_seen),
                seen@.no_duplicates(),
                out@.no_duplicates(),
                stack@.no_duplicates(),
                seen@.len() > 0,
                seen@[0] == s,
                forall|j: int| 0 <= j < seen@.len() ==> g.valid_vertex(#[trigger] seen@[j]),
                forall|j: int| 0 <= j < seen@.len() ==> g.reaches(s, #[trigger] seen@[j]),
                forall|v: VertAddr|
                    #[trigger] seen@.contains(v) <==> (out@.contains(v) || stack@.contains(v)),
                forall|v: VertAddr| !(#[trigger] out@.contains(v) && stack@.contains(v)),
                out@.len() > 0,
                out@[0] == s,
                out@.last() == u,
                forall|j: int, v: VertAddr|
                    0 <= j < out@.len() - 1 && #[trigger] g.step(out@[j], v) ==> seen@.contains(v),
                forall|j2: int|
                    1 <= j2 < out@.len() ==> exists|k: int|
                        0 <= k < j2 && g.step(out@[k], #[trigger] out@[j2]),
                forall|m: int|
                    0 <= m < stack@.len() ==> (#[trigger] stack@[m]) == s || exists|k: int|
                        0 <= k < out@.len() && g.step(out@[k], stack@[m]),
                i <= list@.len(),
                forall|k: int|
                    0 <= k < i ==> seen@.contains(g.edge(#[trigger] list@[k]).other(u)),
                seen@.len() <= g.nodes.size,
            decreases list@.len() - i,
        {
            let e = list[i];
            proof {
                assert(g.adjacency_wf_at(u));
                assert(g.valid_edge(e));
            }
            let w = g.edge_at(e).get_end(u);
            if !contains_handle(&seen, w) {
                let ghost pre_seen = seen@;
                let ghost pre_stk = stack@;
                proof {
                    assert(g.step(u, w));
                    g.lemma_step_valid(u, w);
                    g.lemma_reaches_step(s, u, w);
                }
                seen.push(w);
                stack.push(w);
                proof {
                    assert forall|m: int| 0 <= m < stack@.len() implies (#[trigger] stack@[m]) == s
                        || exists|k: int| 0 <= k < out@.len() && g.step(out@[k], stack@[m]) by {
                        if m < pre_stk.len() {
                            assert(stack@[m] == pre_stk[m]);
                        } else {
                            assert(stack@[m] == w);
                            assert(out@[out@.len() - 1] == u);
                            assert(g.step(out@[out@.len() - 1], w));
                        }
                    }
                    assert forall|v: VertAddr| #[trigger] pre_seen.contains(v) implies seen@.contains(
                        v,
                    ) by {
                        let j = choose|j: int| 0 <= j < pre_seen.len() && pre_seen[j] == v;
                        assert(seen@[j] == v);
                    }
                    assert forall|j1: int, j2: int|
                        0 <= j1 < j2 < seen@.len() implies seen@[j1] != seen@[j2] by {
                        if j2 == seen@.len() - 1 {
                            assert(seen@[j1] == pre_seen[j1]);
                            if pre_seen[j1] == w {
                                assert(pre_seen.contains(w));
                            }
                        }
                    }
                    assert forall|j1: int, j2: int|
                        0 <= j1 < j2 < stack@.len() implies stack@[j1] != stack@[j2] by {
                        if j2 == stack@.len() - 1 {
                            assert(stack@[j1] == pre_stk[j1]);
                            if pre_stk[j1] == w {
                                assert(pre_stk.contains(w));
                                assert(pre_seen.contains(w));
                            }
                        }
                    }
                    assert forall|v: VertAddr| #[trigger] seen@.contains(v) implies (out@.contains(
                        v,
                    ) || stack@.contains(v)) by {
                        let j = choose|j: int| 0 <= j < seen@.len() && seen@[j] == v;
                        if j < pre_seen.len() {
                            assert(pre_seen.contains(v));
                            if pre_stk.contains(v) {
                                let k = choose|k: int|
                                    0 <= k < pre_stk.len() && pre_stk[k] == v;
                                assert(stack@[k] == v);
                            }
                        } else {
                            assert(stack@[stack@.len() - 1] == w);
                        }
                    }
                    assert forall|v: VertAddr| (out@.contains(v) || #[trigger] stack@.contains(
                        v,
                    )) implies seen@.contains(v) by {
                        if out@.contains(v) {
                            assert(pre_seen.contains(v));
                            let j = choose|j: int| 0 <= j < pre_seen.len() && pre_seen[j] == v;
                            assert(seen@[j] == v);
                        } else {
                            let k = choose|k: int| 0 <= k < stack@.len() && stack@[k] == v;
                            if k < pre_stk.len() {
                                assert(pre_stk.contains(v));
                                assert(pre_seen.contains(v));
                                let j = choose|j: int|
                                    0 <= j < pre_seen.len() && pre_seen[j] == v;
                                assert(seen@[j] == v);
                            } else {
                                assert(seen@[seen@.len() - 1] == w);
                            }
                        }
                    }
                    assert forall|v: VertAddr| !(#[trigger] out@.contains(v) && stack@.contains(
                        v,
                    )) by {
                        if out@.contains(v) && stack@.contains(v) {
                            let k = choose|k: int| 0 <= k < stack@.len() && stack@[k] == v;
                            if k < pre_stk.len() {
                                assert(pre_stk.contains(v));
                            } else {
                                assert(v == w);
                                assert(pre_seen.contains(v));
                            }
                        }
                    }
                    crate::addr_hm::lemma_enumeration_bound(g.nodes, seen@);
                    assert(seen@.contains(w)) by {
                        assert(seen@[seen@.len() - 1] == w);
                    }
                }
            }
            proof {
                assert(seen@.contains(w));
                assert(w == g.edge(list@[i as int]).other(u));
            }
            i = i + 1;
        }
        proof {
            assert forall|j: int, v: VertAddr|
                0 <= j < out@.len() && #[trigger] g.step(out@[j], v) implies seen@.contains(v) by {
                if j == out@.len() - 1 {
                    let k = choose|k: int|
                        0 <= k < g.vertex(u).hood.outs().len() && v == g.edge(
                            #[trigger] g.vertex(u).hood.outs()[k],
                        ).other(u);
                    assert(seen@.contains(g.edge(list@[k]).other(u)));
                }
            }
        }
    }
    proof {
        assert forall|v: VertAddr| #[trigger] out@.contains(v) implies g.reaches(s, v) by {
            assert(seen@.contains(v));
            let j = choose|j: int| 0 <= j < seen@.len() && seen@[j] == v;
            assert(g.reaches(s, seen@[j]));
        }
        assert(out@.contains(s)) by {
            assert(seen@[0] == s);
            assert(seen@.contains(s));
        }
        assert forall|j: int| 0 <= j < out@.len() implies g.valid_vertex(#[trigger] out@[j]) by {
            assert(out@.contains(out@[j]));
            assert(seen@.contains(out@[j]));
            let k = choose|k: int| 0 <= k < seen@.len() && seen@[k] == out@[j];
            assert(g.valid_vertex(seen@[k]));
        }
        assert forall|v: VertAddr| g.reaches(s, v) implies out@.contains(v) by {
            let n = choose|n: nat| #[trigger] g.reaches_in(s, v, n);
            assert forall|u2: VertAddr, w2: VertAddr|
                out@.contains(u2) && #[trigger] g.step(u2, w2) implies out@.contains(w2) by {
                let j = choose|j: int| 0 <= j < out@.len() && out@[j] == u2;
                assert(seen@.contains(w2));
            }
            g.lemma_closed_covers(s, out@, v, n);
        }
        assert(out@[0] == s);
    }
    out
}

/// Lazy cursor over every vertex handle, in the arena's bucket-then-slot
/// order; the order is arbitrary relative to insertion order.
pub struct Vertices {
    pub items: Vec<VertAddr>,
    pub pos: usize,
}

impl Vertices {
    /// What is still to be yielded.
    pub open spec fn remaining(&self) -> Seq<VertAddr> {
        self.items@.skip(self.pos as int)
    }

    pub open spec fn wf(&self) -> bool {
        self.pos <= self.items@.len()
    }

    /// Capture the vertex handles of `g`.
    pub fn new<V: NodeT, E: EdgeT, D: DirT>(g: &Graph<V, E, D>) -> (it: Self)
        requires
            g.wf(),
        ensures
            it.wf(),
            it.pos == 0,
            it.items@.len() == g.order_spec(),
            it.items@.no_duplicates(),
            forall|j: int| 0 <= j < it.items@.len() ==> g.valid_vertex(#[trigger] it.items@[j]),
            forall|a: VertAddr| #[trigger] g.valid_vertex(a) ==> it.items@.contains(a),
    {
        Vertices { items: g.nodes.handles(), pos: 0 }
    }

    /// The next handle, if any.
    pub fn next(&mut self) -> (r: Option<VertAddr>)
        requires
            old(self).wf(),
        ensures
            final(self).wf(),
            final(self).items == old(self).items,
            r is Some <==> old(self).pos < old(self).items@.len(),
            match r {
                Some(a) => a == old(self).items@[old(self).pos as int] && final(self).pos == old(
                    self,
                ).pos + 1,
                None => *final(self) == *old(self),
            },
    {
        if self.pos < self.items.len() {
            let a = self.items[self.pos];
            self.pos = self.pos + 1;
            Some(a)
        } else {
            None
        }
    }

    /// How many handles are still to be yielded.
    pub fn count(self) -> (n: usize)
        requires
            self.wf(),
        ensures
            n as int == self.items@.len() - self.pos,
    {
        self.items.len() - self.pos
    }
}

/// Resolve each edge of `list` to the endpoint opposite `a`.
fn resolve_other<V: NodeT, E: EdgeT, D: DirT>(
    g: &Graph<V, E, D>,
    a: VertAddr,
    list: &Vec<crate::addr_hm::EdgeAddr>,
) -> (r: Vec<VertAddr>)
    requires
        g.wf(),
        forall|i: int| 0 <= i < list@.len() ==> g.valid_edge(#[trigger] list@[i]),
    ensures
        r@.len() == list@.len(),
        forall|i: int|
            0 <= i < list@.len() ==> r@[i] == g.edge(#[trigger] list@[i]).other(a) && g.valid_vertex(
                r@[i],
            ),
{
    let mut r: Vec<VertAddr> = Vec::new();
    let mut i: usize = 0;
    while i < list.len()
        invariant
            g.wf(),
            i <= list@.len(),
            r@.len() == i,
            forall|k: int| 0 <= k < list@.len() ==> g.valid_edge(#[trigger] list@[k]),
            forall|k: int|
                0 <= k < i ==> r@[k] == g.edge(#[trigger] list@[k]).other(a) && g.valid_vertex(
                    r@[k],
                ),
        decreases list@.len() - i,
    {
        let e = list[i];
        let w = g.edge_at(e).get_end(a);
        proof {
            assert(g.nodes.valid(g.edges@[e.index as int].ends.0));
            assert(g.nodes.valid(g.edges@[e.index as int].ends.1));
        }
        r.push(w);
        i = i + 1;
    }
    r
}

/// Resolve each edge of `list` to its source endpoint.
fn resolve_src<V: NodeT, E: EdgeT>(
    g: &Graph<V, E, Dir>,
    list: &Vec<crate::addr_hm::EdgeAddr>,
) -> (r: Vec<VertAddr>)
    requires
        g.wf(),
        forall|i: int| 0 <= i < list@.len() ==> g.valid_edge(#[trigger] list@[i]),
    ensures
        r@.len() == list@.len(),
        forall|i: int|
            0 <= i < list@.len() ==> r@[i] == g.edge(#[trigger] list@[i]).src() && g.valid_vertex(
                r@[i],
            ),
{
    let mut r: Vec<VertAddr> = Vec::new();
    let mut i: usize = 0;
    while i < list.len()
        invariant
            g.wf(),
            i <= list@.len(),
            r@.len() == i,
            forall|k: int| 0 <= k < list@.len() ==> g.valid_edge(#[trigger] list@[k]),
            forall|k: int|
                0 <= k < i ==> r@[k] == g.edge(#[trigger] list@[k]).src() && g.valid_vertex(r@[k]),
        decreases list@.len() - i,
    {
        let e = list[i];
        let w = g.edge_at(e).get_src();
        proof {
            assert(g.nodes.valid(g.edges@[e.index as int].ends.0));
        }
        r.push(w);
        i = i + 1;
    }
    r
}

/// Resolve each edge of `list` to its destination endpoint.
fn resolve_dst<V: NodeT, E: EdgeT>(
    g: &Graph<V, E, Dir>,
    list: &Vec<crate::addr_hm::EdgeAddr>,
) -> (r: Vec<VertAddr>)
    requires
        g.wf(),
        forall|i: int| 0 <= i < list@.len() ==> g.valid_edge(#[trigger] list@[i]),
    ensures
        r@.len() == list@.len(),
        forall|i: int|
            0 <= i < list@.len() ==> r@[i] == g.edge(#[trigger] list@[i]).dst() && g.valid_vertex(
                r@[i],
            ),
{
    let mut r: Vec<VertAddr> = Vec::new();
    let mut i: usize = 0;
    while i < list.len()
        invariant
            g.wf(),
            i <= list@.len(),
            r@.len() == i,
            forall|k: int| 0 <= k < list@.len() ==> g.valid_edge(#[trigger] list@[k]),
            forall|k: int|
                0 <= k < i ==> r@[k] == g.edge(#[trigger] list@[k]).dst() && g.valid_vertex(r@[k]),
        decreases list@.len() - i,
    {
        let e = list[i];
        let w = g.edge_at(e).get_dst();
        proof {
            assert(g.nodes.valid(g.edges@[e.index as int].ends.1));
        }
        r.push(w);
        i = i + 1;
    }
    r
}

/// Lazy cursor over the vertices one hop away from a vertex, in the order
/// the edges were registered there.
pub struct Neighbors {
    pub items: Vec<VertAddr>,
    pub pos: usize,
}

impl Neighbors {
    /// What is still to be yielded.
    pub open spec fn remaining(&self) -> Seq<VertAddr> {
        self.items@.skip(self.pos as int)
    }

    pub open spec fn wf(&self) -> bool {
        self.pos <= self.items@.len()
    }

    /// The vertices one forward hop from the vertex at `a`, for any policy.
    pub fn reachable<V: NodeT, E: EdgeT, D: DirT>(g: &Graph<V, E, D>, a: VertAddr) -> (it: Self)
        requires
            g.wf(),
            g.valid_vertex(a),
        ensures
            it.wf(),
            it.pos == 0,
            it.items@.len() == g.vertex(a).hood.outs().len(),
            forall|i: int|
                0 <= i < it.items@.len() ==> it.items@[i] == g.edge(
                    #[trigger] g.vertex(a).hood.outs()[i],
                ).other(a) && g.valid_vertex(it.items@[i]),
    {
        proof {
            assert(g.adjacency_wf_at(a));
        }
        let vert = g.vertex_at(a);
        let items = resolve_other(g, a, vert.get_reachable());
        Neighbors { items, pos: 0 }
    }

    /// The neighbors of the vertex at `a` in an undirected graph.
    pub fn undir_neighbors<V: NodeT, E: EdgeT>(g: &Graph<V, E, Undir>, a: VertAddr) -> (it: Self)
        requires
            g.wf(),
            g.valid_vertex(a),
        ensures
            it.wf(),
            it.pos == 0,
            it.items@.len() == g.vertex(a).hood.ins().len(),
            forall|i: int|
                0 <= i < it.items@.len() ==> it.items@[i] == g.edge(
                    #[trigger] g.vertex(a).hood.ins()[i],
                ).other(a) && g.valid_vertex(it.items@[i]),
    {
        proof {
            assert(g.adjacency_wf_at(a));
        }
        let vert = g.vertex_at(a);
        let items = resolve_other(g, a, vert.get_neighbor_edges());
        Neighbors { items, pos: 0 }
    }

    /// The parents of the vertex at `a`, then its children.
    pub fn dir_neighbors<V: NodeT, E: EdgeT>(g: &Graph<V, E, Dir>, a: VertAddr) -> (it: Self)
        requires
            g.wf(),
            g.valid_vertex(a),
        ensures
            it.wf(),
            it.pos == 0,
            it.items@.len() == g.vertex(a).hood.ins().len() + g.vertex(a).hood.outs().len(),
            forall|i: int|
                0 <= i < g.vertex(a).hood.ins().len() ==> it.items@[i] == g.edge(
                    #[trigger] g.vertex(a).hood.ins()[i],
                ).src(),
            forall|i: int|
                0 <= i < g.vertex(a).hood.outs().len() ==> it.items@[g.vertex(a).hood.ins().len()
                    + i] == g.edge(#[trigger] g.vertex(a).hood.outs()[i]).dst(),
    {
        proof {
            assert(g.adjacency_wf_at(a));
        }
        let vert = g.vertex_at(a);
        let mut items = resolve_src(g, vert.get_parent_edges());
        let mut tail = resolve_dst(g, vert.get_child_edges());
        items.append(&mut tail);
        Neighbors { items, pos: 0 }
    }

    /// The parents of the vertex at `a`: sources of its incoming edges.
    pub fn parents<V: NodeT, E: EdgeT>(g: &Graph<V, E, Dir>, a: VertAddr) -> (it: Self)
        requires
            g.wf(),
            g.valid_vertex(a),
        ensures
            it.wf(),
            it.pos == 0,
            it.items@.len() == g.vertex(a).hood.ins().len(),
            forall|i: int|
                0 <= i < it.items@.len() ==> it.items@[i] == g.edge(
                    #[trigger] g.vertex(a).hood.ins()[i],
                ).src() && g.valid_vertex(it.items@[i]),
    {
        proof {
            assert(g.adjacency_wf_at(a));
        }
        let vert = g.vertex_at(a);
        let items = resolve_src(g, vert.get_parent_edges());
        Neighbors { items, pos: 0 }
    }

    /// The children of the vertex at `a`: destinations of its outgoing
    /// edges.
    pub fn children<V: NodeT, E: EdgeT>(g: &Graph<V, E, Dir>, a: VertAddr) -> (it: Self)
        requires
            g.wf(),
            g.valid_vertex(a),
        ensures
            it.wf(),
            it.pos == 0,
            it.items@.len() == g.vertex(a).hood.outs().len(),
            forall|i: int|
                0 <= i < it.items@.len() ==> it.items@[i] == g.edge(
                    #[trigger] g.vertex(a).hood.outs()[i],
                ).dst() && g.valid_vertex(it.items@[i]),
    {
        proof {
            assert(g.adjacency_wf_at(a));
        }
        let vert = g.vertex_at(a);
        let items = resolve_dst(g, vert.get_child_edges());
        Neighbors { items, pos: 0 }
    }

    /// The next neighbor, if any.
    pub fn next(&mut self) -> (r: Option<VertAddr>)
        requires
            old(self).wf(),
        ensures
            final(self).wf(),
            final(self).items == old(self).items,
            r is Some <==> old(self).pos < old(self).items@.len(),
            match r {
                Some(a) => a == old(self).items@[old(self).pos as int] && final(self).pos == old(
                    self,
                ).pos + 1,
                None => *final(self) == *old(self),
            },
    {
        if self.pos < self.items.len() {
            let a = self.items[self.pos];
            self.pos = self.pos + 1;
            Some(a)
        } else {
            None
        }
    }

    /// How many neighbors are still to be yielded.
    pub fn count(self) -> (n: usize)
        requires
            self.wf(),
        ensures
            n as int == self.items@.len() - self.pos,
    {
        self.items.len() - self.pos
    }
}

/// Lazy cursor over a level-order traversal, computed up front: vertices
/// come out in breadth-first order from the start vertex.
pub struct BreadthFirst {
    pub items: Vec<VertAddr>,
    pub pos: usize,
}

impl BreadthFirst {
    /// What is still to be yielded.
    pub open spec fn remaining(&self) -> Seq<VertAddr> {
        self.items@.skip(self.pos as int)
    }

    pub open spec fn wf(&self) -> bool {
        self.pos <= self.items@.len()
    }

    /// Traverse from `start` if given, from an arbitrary vertex when the
    /// graph has one, and not at all otherwise.
    #[verifier::rlimit(50)]
    pub fn new<V: NodeT, E: EdgeT, D: DirT>(g: &Graph<V, E, D>, start: Option<VertAddr>) -> (it:
        Self)
        requires
            g.wf(),
            match start {
                Some(s) => g.valid_vertex(s),
                None => true,
            },
        ensures
            it.wf(),
            it.pos == 0,
            start is Some ==> traversal_of(*g, start->0, it.items@) && level_ordered(
                *g,
                start->0,
                it.items@,
            ),
            start is None && g.order_spec() == 0 ==> it.items@.len() == 0,
            start is None && g.order_spec() > 0 ==> exists|s: VertAddr|
                g.valid_vertex(s) && #[trigger] traversal_of(*g, s, it.items@) && level_ordered(
                    *g,
                    s,
                    it.items@,
                ),
    {
        if start.is_some() {
            let s = start.unwrap();
            let items = bfs_order(g, s);
            proof {
                assert(start is Some && start->0 == s);
            }
            BreadthFirst { items, pos: 0 }
        } else {
            let all = g.nodes.handles();
            if all.len() == 0 {
                let items: Vec<VertAddr> = Vec::new();
                BreadthFirst { items, pos: 0 }
            } else {
                let s0 = all[0];
                let items = bfs_order(g, s0);
                let it = BreadthFirst { items, pos: 0 };
                proof {
                    assert(g.valid_vertex(s0) && traversal_of(*g, s0, it.items@)
                        && level_ordered(*g, s0, it.items@));
                }
                it
            }
        }
    }

    /// The next vertex of the traversal, if any.
    pub fn next(&mut self) -> (r: Option<VertAddr>)
        requires
            old(self).wf(),
        ensures
            final(self).wf(),
            final(self).items == old(self).items,
            r is Some <==> old(self).pos < old(self).items@.len(),
            match r {
                Some(a) => a == old(self).items@[old(self).pos as int] && final(self).pos == old(
                    self,
                ).pos + 1,
                None => *final(self) == *old(self),
            },
    {
        if self.pos < self.items.len() {
            let a = self.items[self.pos];
            self.pos = self.pos + 1;
            Some(a)
        } else {
            None
        }
    }

    /// How many vertices are still to be yielded.
    pub fn count(self) -> (n: usize)
        requires
            self.wf(),
        ensures
            n as int == self.items@.len() - self.pos,
    {
        self.items.len() - self.pos
    }
}

/// Lazy cursor over a pre-order depth-first traversal, computed up front.
pub struct DepthFirst {
    pub items: Vec<VertAddr>,
    pub pos: usize,
}

impl DepthFirst {
    /// What is still to be yielded.
    pub open spec fn remaining(&self) -> Seq<VertAddr> {
        self.items@.skip(self.pos as int)
    }

    pub open spec fn wf(&self) -> bool {
        self.pos <= self.items@.len()
    }

    /// Traverse from `start` if given, from an arbitrary vertex when the
    /// graph has one, and not at all otherwise.
    #[verifier::rlimit(50)]
    pub fn new<V: NodeT, E: EdgeT, D: DirT>(g: &Graph<V, E, D>, start: Option<VertAddr>) -> (it:
        Self)
        requires
            g.wf(),
            match start {
                Some(s) => g.valid_vertex(s),
                None => true,
            },
        ensures
            it.wf(),
            it.pos == 0,
            start is Some ==> traversal_of(*g, start->0, it.items@),
            start is None && g.order_spec() == 0 ==> it.items@.len() == 0,
            start is None && g.order_spec() > 0 ==> exists|s: VertAddr|
                g.valid_vertex(s) && #[trigger] traversal_of(*g, s, it.items@),
    {
        if start.is_some() {
            let s = start.unwrap();
            let items = dfs_order(g, s);
            proof {
                assert(start is Some && start->0 == s);
            }
            DepthFirst { items, pos: 0 }
        } else {
            let all = g.nodes.handles();
            if all.len() == 0 {
                let items: Vec<VertAddr> = Vec::new();
                DepthFirst { items, pos: 0 }
            } else {
                let s0 = all[0];
                let items = dfs_order(g, s0);
                let it = DepthFirst { items, pos: 0 };
                proof {
                    assert(g.valid_vertex(s0) && traversal_of(*g, s0, it.items@));
                }
                it
            }
        }
    }

    /// The next vertex of the traversal, if any.
    pub fn next(&mut self) -> (r: Option<VertAddr>)
        requires
            old(self).wf(),
        ensures
            final(self).wf(),
            final(self).items == old(self).items,
            r is Some <==> old(self).pos < old(self).items@.len(),
            match r {
                Some(a) => a == old(self).items@[old(self).pos as int] && final(self).pos == old(
                    self,
                ).pos + 1,
                None => *final(self) == *old(self),
            },
    {
        if self.pos < self.items.len() {
            let a = self.items[self.pos];
            self.pos = self.pos + 1;
            Some(a)
        } else {
            None
        }
    }

    /// How many vertices are still to be yielded.
    pub fn count(self) -> (n: usize)
        requires
            self.wf(),
        ensures
            n as int == self.items@.len() - self.pos,
    {
        self.items.len() - self.pos
    }
}

/// Cursor over the forward-reachable clusters of the graph: repeatedly pick
/// a vertex not yet covered and traverse from it.  For an undirected graph
/// the clusters are the connected components; under a directed policy they
/// are forward-reachable sets and may overlap.
pub struct Components {
    pub comps: Vec<Vec<VertAddr>>,
}

impl Components {
    /// What is still to be yielded.
    pub open spec fn remaining(&self) -> Seq<Vec<VertAddr>> {
        self.comps@
    }

    /// Split the graph into traversals, one from each vertex found
    /// uncovered, until every vertex is covered.
    #[verifier::rlimit(100)]
    pub fn new<V: NodeT, E: EdgeT, D: DirT>(g: &Graph<V, E, D>) -> (it: Self)
        requires
            g.wf(),
        ensures
            forall|k: int|
                0 <= k < it.comps@.len() ==> g.valid_vertex(
                    (#[trigger] it.comps@[k])@[0],
                ) && traversal_of(*g, it.comps@[k]@[0], it.comps@[k]@),
            forall|a: VertAddr|
                #[trigger] g.valid_vertex(a) ==> exists|k: int|
                    0 <= k < it.comps@.len() && (#[trigger] it.comps@[k])@.contains(a),
            forall|k1: int, k2: int|
                0 <= k1 < k2 < it.comps@.len() ==> !(#[trigger] it.comps@[k1])@.contains(
                    (#[trigger] it.comps@[k2])@[0],
                ),
    {
        let all = g.nodes.handles();
        let mut comps: Vec<Vec<VertAddr>> = Vec::new();
        let mut seen: Vec<VertAddr> = Vec::new();
        let mut idx: usize = 0;
        while idx < all.len()
            invariant
                g.wf(),
                idx <= all@.len(),
                forall|j: int| 0 <= j < all@.len() ==> g.valid_vertex(#[trigger] all@[j]),
                forall|a: VertAddr| #[trigger] g.valid_vertex(a) ==> all@.contains(a),
                forall|k: int|
                    0 <= k < comps@.len() ==> g.valid_vertex(
                        (#[trigger] comps@[k])@[0],
                    ) && traversal_of(*g, comps@[k]@[0], comps@[k]@),
                forall|v: VertAddr|
                    #[trigger] seen@.contains(v) <==> exists|k: int|
                        0 <= k < comps@.len() && (#[trigger] comps@[k])@.contains(v),
                forall|k1: int, k2: int|
                    0 <= k1 < k2 < comps@.len() ==> !(#[trigger] comps@[k1])@.contains(
                        (#[trigger] comps@[k2])@[0],
                    ),
                forall|j: int| 0 <= j < idx ==> seen@.contains(#[trigger] all@[j]),
            decreases all@.len() - idx,
        {
            let a = all[idx];
            if !contains_handle(&seen, a) {
                let comp = dfs_order(g, a);
                let ghost pre_seen = seen@;
                let mut j: usize = 0;
                while j < comp.len()
                    invariant
                        j <= comp@.len(),
                        forall|v: VertAddr|
                            #[trigger] seen@.contains(v) <==> (pre_seen.contains(v) || exists|
                                jj: int,
                            | 0 <= jj < j && comp@[jj] == v),
                    decreases comp@.len() - j,
                {
                    let w = comp[j];
                    let ghost mid_seen = seen@;
                    if !contains_handle(&seen, w) {
                        seen.push(w);
                    }
                    j = j + 1;
                    proof {
                        assert forall|v: VertAddr| #[trigger] seen@.contains(v) implies (
                        pre_seen.contains(v) || exists|jj: int| 0 <= jj < j && comp@[jj] == v) by {
                            if mid_seen.contains(v) {
                            } else {
                                let kk = choose|kk: int| 0 <= kk < seen@.len() && seen@[kk] == v;
                                assert(kk == seen@.len() - 1);
                                assert(v == w);
                                assert(comp@[j - 1] == v);
                            }
                        }
                        assert forall|v: VertAddr| (pre_seen.contains(v) || exists|jj: int|
                            0 <= jj < j && comp@[jj] == v) implies #[trigger] seen@.contains(v) by {
                            if pre_seen.contains(v) || (exists|jj: int|
                                0 <= jj < j - 1 && comp@[jj] == v) {
                                assert(mid_seen.contains(v));
                                let kk = choose|kk: int|
                                    0 <= kk < mid_seen.len() && mid_seen[kk] == v;
                                assert(seen@[kk] == v);
                            } else {
                                assert(v == w);
                                if mid_seen.contains(v) {
                                    let kk = choose|kk: int|
                                        0 <= kk < mid_seen.len() && mid_seen[kk] == v;
                                    assert(seen@[kk] == v);
                                } else {
                                    assert(seen@[seen@.len() - 1] == w);
                                }
                            }
                        }
                    }
                }
                let ghost pre_comps = comps@;
                comps.push(comp);
                proof {
                    assert forall|v: VertAddr| #[trigger] seen@.contains(v) implies exists|k: int|
                        0 <= k < comps@.len() && (#[trigger] comps@[k])@.contains(v) by {
                        if pre_seen.contains(v) {
                            let k = choose|k: int|
                                0 <= k < pre_comps.len() && (#[trigger] pre_comps[k])@.contains(v);
                            assert(comps@[k]@.contains(v));
                        } else {
                            let jj = choose|jj: int|
                                0 <= jj < comp@.len() && comp@[jj] == v;
                            assert(comps@[comps@.len() - 1]@.contains(v));
                        }
                    }
                    assert forall|v: VertAddr, k: int|
                        0 <= k < comps@.len() && #[trigger] comps@[k]@.contains(
                            v,
                        ) implies seen@.contains(v) by {
                        if k < pre_comps.len() {
                            assert(pre_comps[k]@.contains(v));
                            assert(pre_seen.contains(v));
                        } else {
                            let jj = choose|jj: int|
                                0 <= jj < comp@.len() && comp@[jj] == v;
                        }
                    }
                    assert(seen@.contains(a)) by {
                        assert(comp@[0] == a);
                        assert(comp@.contains(a));
                    }
                    assert forall|k1: int, k2: int|
                        0 <= k1 < k2 < comps@.len() implies !(#[trigger] comps@[k1])@.contains(
                        (#[trigger] comps@[k2])@[0],
                    ) by {
                        if k2 == comps@.len() - 1 {
                            assert(comps@[k2]@[0] == a);
                            if pre_comps[k1]@.contains(a) {
                                assert(pre_seen.contains(a));
                            }
                        } else {
                            assert(comps@[k1] == pre_comps[k1] && comps@[k2] == pre_comps[k2]);
                        }
                    }
                }
            }
            idx = idx + 1;
        }
        let it = Components { comps };
        proof {
            assert forall|a: VertAddr| #[trigger] g.valid_vertex(a) implies exists|k: int|
                0 <= k < it.comps@.len() && (#[trigger] it.comps@[k])@.contains(a) by {
                assert(all@.contains(a));
                let j = choose|j: int| 0 <= j < all@.len() && all@[j] == a;
                assert(seen@.contains(all@[j]));
                assert(seen@.contains(a));
                let k = choose|k: int|
                    0 <= k < comps@.len() && (#[trigger] comps@[k])@.contains(a);
                assert(0 <= k < it.comps@.len() && it.comps@[k]@.contains(a));
            }
        }
        it
    }

    /// The next cluster, if any.
    pub fn next(&mut self) -> (r: Option<Vec<VertAddr>>)
        ensures
            r is Some <==> old(self).comps@.len() > 0,
            match r {
                Some(c) => c == old(self).comps@[0] && final(self).comps@ == old(
                    self,
                ).comps@.subrange(1, old(self).comps@.len() as int),
                None => *final(self) == *old(self),
            },
    {
        if self.comps.len() > 0 {
            let c = self.comps.remove(0);
            proof {
                assert(self.comps@ =~= old(self).comps@.subrange(
                    1,
                    old(self).comps@.len() as int,
                ));
            }
            Some(c)
        } else {
            None
        }
    }

    /// How many clusters are still to be yielded.
    pub fn count(self) -> (n: usize)
        ensures
            n as int == self.comps@.len(),
    {
        self.comps.len()
    }
}

} // verus!

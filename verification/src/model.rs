//! The mathematical model of a stage dependency graph: square boolean
//! matrices, directed walks, reachability, and strongly connected components.

use vstd::prelude::*;

verus! {

/// A dependency graph on stages `0 .. g.len()` is a square boolean matrix:
/// entry `(i, j)` set means stage `i`'s defining formula reads stage `j`'s
/// value.
pub open spec fn is_square(g: Seq<Vec<bool>>) -> bool {
    forall|i: int| 0 <= i < g.len() ==> (#[trigger] g[i])@.len() == g.len()
}

/// Stage `i` depends directly on stage `j`.
pub open spec fn edge(g: Seq<Vec<bool>>, i: int, j: int) -> bool {
    &&& 0 <= i < g.len()
    &&& 0 <= j < g.len()
    &&& g[i]@[j]
}

/// `p` is a walk through the graph along dependency edges.
pub open spec fn is_walk(g: Seq<Vec<bool>>, p: Seq<int>) -> bool {
    &&& p.len() >= 1
    &&& forall|k: int| 0 <= k < p.len() ==> 0 <= #[trigger] p[k] < g.len()
    &&& forall|k: int| 0 <= k < p.len() - 1 ==> edge(g, #[trigger] p[k], p[k + 1])
}

/// Stage `j` is reachable from stage `i` along zero or more dependency edges.
pub open spec fn reachable(g: Seq<Vec<bool>>, i: int, j: int) -> bool {
    exists|p: Seq<int>| is_walk(g, p) && p.first() == i && p.last() == j
}

/// Two stages lie in the same strongly connected component: each is
/// reachable from the other.
pub open spec fn in_same_scc(g: Seq<Vec<bool>>, i: int, j: int) -> bool {
    reachable(g, i, j) && reachable(g, j, i)
}

pub proof fn lemma_reachable_refl(g: Seq<Vec<bool>>, i: int)
    requires
        0 <= i < g.len(),
    ensures
        reachable(g, i, i),
{
    let p = seq![i];
    assert(is_walk(g, p) && p.first() == i && p.last() == i);
}

pub proof fn lemma_edge_reachable(g: Seq<Vec<bool>>, i: int, j: int)
    requires
        edge(g, i, j),
    ensures
        reachable(g, i, j),
{
    let p = seq![i, j];
    assert(is_walk(g, p) && p.first() == i && p.last() == j);
}

pub proof fn lemma_reachable_in_range(g: Seq<Vec<bool>>, i: int, j: int)
    requires
        reachable(g, i, j),
    ensures
        0 <= i < g.len(),
        0 <= j < g.len(),
{
    let p = choose|p: Seq<int>| is_walk(g, p) && p.first() == i && p.last() == j;
    assert(0 <= p[0] < g.len());
    assert(0 <= p[p.len() - 1] < g.len());
}

pub proof fn lemma_reachable_trans(g: Seq<Vec<bool>>, i: int, j: int, k: int)
    requires
        reachable(g, i, j),
        reachable(g, j, k),
    ensures
        reachable(g, i, k),
{
    let p1 = choose|p: Seq<int>| is_walk(g, p) && p.first() == i && p.last() == j;
    let p2 = choose|p: Seq<int>| is_walk(g, p) && p.first() == j && p.last() == k;
    let p = p1 + p2.subrange(1, p2.len() as int);
    assert(p.len() == p1.len() + p2.len() - 1);
    assert forall|n: int| 0 <= n < p.len() implies 0 <= #[trigger] p[n] < g.len() by {
        if n < p1.len() {
            assert(p[n] == p1[n]);
        } else {
            assert(p[n] == p2[n - p1.len() + 1]);
        }
    }
    assert forall|n: int| 0 <= n < p.len() - 1 implies edge(g, #[trigger] p[n], p[n + 1]) by {
        if n < p1.len() - 1 {
            assert(p[n] == p1[n]);
            assert(p[n + 1] == p1[n + 1]);
        } else if n == p1.len() - 1 {
            assert(p[n] == p1[p1.len() - 1]);
            if p2.len() == 1 {
                assert(n == p.len() - 1);
            } else {
                assert(p[n + 1] == p2[1]);
                assert(edge(g, p2[0], p2[1]));
            }
        } else {
            assert(p[n] == p2[n - p1.len() + 1]);
            assert(p[n + 1] == p2[n - p1.len() + 2]);
            assert(edge(g, p2[n - p1.len() + 1], p2[n - p1.len() + 2]));
        }
    }
    assert(is_walk(g, p));
    assert(p.first() == i);
    if p2.len() == 1 {
        assert(p.last() == p1.last());
    } else {
        assert(p.last() == p2.last());
    }
    assert(is_walk(g, p) && p.first() == i && p.last() == k);
}

pub proof fn lemma_reachable_step(g: Seq<Vec<bool>>, i: int, j: int, k: int)
    requires
        reachable(g, i, j),
        edge(g, j, k),
    ensures
        reachable(g, i, k),
{
    lemma_edge_reachable(g, j, k);
    lemma_reachable_trans(g, i, j, k);
}

pub proof fn lemma_same_scc_trans(g: Seq<Vec<bool>>, i: int, j: int, k: int)
    requires
        in_same_scc(g, i, j),
        in_same_scc(g, j, k),
    ensures
        in_same_scc(g, i, k),
{
    lemma_reachable_trans(g, i, j, k);
    lemma_reachable_trans(g, k, j, i);
}

} // verus!

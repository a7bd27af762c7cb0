//! Partitions the stages of a dependency graph into strongly connected
//! components, each listed as a strictly increasing vector of stage indices,
//! components ordered by their smallest member.

use vstd::prelude::*;

verus! {

use crate::model::{is_square, reachable, in_same_scc, lemma_reachable_trans,
    lemma_reachable_in_range};
use crate::closure::mat_sized;

/// Whether the integer `i` occurs in the index sequence `s`.
pub open spec fn seq_has(s: Seq<usize>, i: int) -> bool {
    exists|k: int| 0 <= k < s.len() && (#[trigger] s[k]) as int == i
}

/// Every component is non-empty, strictly increasing, and within range.
pub open spec fn comps_shaped(g: Seq<Vec<bool>>, comps: Seq<Vec<usize>>) -> bool {
    &&& forall|c: int| 0 <= c < comps.len() ==> (#[trigger] comps[c])@.len() >= 1
    &&& forall|c: int, a: int, b: int|
        0 <= c < comps.len() && 0 <= a < b < comps[c]@.len()
            ==> (#[trigger] comps[c]@[a]) < (#[trigger] comps[c]@[b])
    &&& forall|c: int, a: int|
        0 <= c < comps.len() && 0 <= a < comps[c]@.len()
            ==> (#[trigger] comps[c]@[a]) < g.len()
}

/// No stage occurs in two different components.
pub open spec fn comps_disjoint(comps: Seq<Vec<usize>>) -> bool {
    forall|c1: int, c2: int, i: int|
        0 <= c1 < comps.len() && 0 <= c2 < comps.len() && c1 != c2
            && #[trigger] seq_has(comps[c1]@, i) ==> !(#[trigger] seq_has(comps[c2]@, i))
}

/// Whether stage `i` occurs in some component of `comps`.
pub open spec fn stage_covered(comps: Seq<Vec<usize>>, i: int) -> bool {
    exists|c: int| 0 <= c < comps.len() && #[trigger] seq_has(comps[c]@, i)
}

/// Every stage occurs in some component.
pub open spec fn comps_cover(g: Seq<Vec<bool>>, comps: Seq<Vec<usize>>) -> bool {
    forall|i: int| 0 <= i < g.len() ==> #[trigger] stage_covered(comps, i)
}

/// Members of one component are mutually reachable.
pub open spec fn comps_scc_sound(g: Seq<Vec<bool>>, comps: Seq<Vec<usize>>) -> bool {
    forall|c: int, i: int, j: int|
        0 <= c < comps.len() && #[trigger] seq_has(comps[c]@, i) && #[trigger] seq_has(comps[c]@, j)
            ==> in_same_scc(g, i, j)
}

/// Components are maximal: anything mutually reachable with a member is a
/// member.
pub open spec fn comps_scc_closed(g: Seq<Vec<bool>>, comps: Seq<Vec<usize>>) -> bool {
    forall|c: int, i: int, j: int|
        0 <= c < comps.len() && #[trigger] seq_has(comps[c]@, i) && #[trigger] in_same_scc(g, i, j)
            ==> seq_has(comps[c]@, j)
}

/// Components are listed in increasing order of their smallest member,
/// which stands first in each component.
pub open spec fn comps_rep_ordered(comps: Seq<Vec<usize>>) -> bool {
    forall|c1: int, c2: int|
        0 <= c1 < c2 < comps.len()
            ==> (#[trigger] comps[c1]@[0]) < (#[trigger] comps[c2]@[0])
}

/// The full well-formedness of a component partition of the graph.
pub open spec fn comps_wf(g: Seq<Vec<bool>>, comps: Seq<Vec<usize>>) -> bool {
    &&& comps_shaped(g, comps)
    &&& comps_disjoint(comps)
    &&& comps_cover(g, comps)
    &&& comps_scc_sound(g, comps)
    &&& comps_scc_closed(g, comps)
    &&& comps_rep_ordered(comps)
}

/// Partitions the stages into strongly connected components, given the
/// graph's reachability matrix.
#[verifier::loop_isolation(false)]
pub fn find_components(g: &Vec<Vec<bool>>, r: &Vec<Vec<bool>>) -> (comps: Vec<Vec<usize>>)
    requires
        is_square(g@),
        mat_sized(g@, r@),
        forall|i: int, j: int|
            0 <= i < g@.len() && 0 <= j < g@.len()
                ==> (#[trigger] r@[i]@[j]) == reachable(g@, i, j),
    ensures
        comps_wf(g@, comps@),
{
    let s = g.len();
    let mut assigned: Vec<bool> = Vec::new();
    let mut n: usize = 0;
    while n < s
        invariant
            n <= s,
            assigned@.len() == n,
            forall|x: int| 0 <= x < n ==> !(#[trigger] assigned@[x]),
        decreases s - n,
    {
        assigned.push(false);
        n = n + 1;
    }
    let mut comps: Vec<Vec<usize>> = Vec::new();
    let mut i: usize = 0;
    while i < s
        invariant
            i <= s,
            assigned@.len() == s,
            comps_shaped(g@, comps@),
            comps_disjoint(comps@),
            comps_scc_sound(g@, comps@),
            comps_scc_closed(g@, comps@),
            comps_rep_ordered(comps@),
            forall|x: int|
                0 <= x < s
                    ==> (#[trigger] assigned@[x]) == exists|c: int|
                        0 <= c < comps@.len() && #[trigger] seq_has(comps@[c]@, x),
            forall|x: int| 0 <= x < i ==> (#[trigger] assigned@[x]),
            forall|c: int| 0 <= c < comps@.len() ==> (#[trigger] comps@[c]@[0]) < i,
        decreases s - i,
    {
        if !assigned[i] {
            proof {
                // no stage below i shares a component with i
                assert forall|x: int| 0 <= x < i implies !in_same_scc(g@, i as int, x) by {
                    if in_same_scc(g@, i as int, x) {
                        assert(assigned@[x]);
                        let c = choose|c: int|
                            0 <= c < comps@.len() && #[trigger] seq_has(comps@[c]@, x);
                        assert(in_same_scc(g@, x, i as int));
                        assert(seq_has(comps@[c]@, i as int));
                        assert(assigned@[i as int]);
                    }
                }
            }
            proof {
                crate::model::lemma_reachable_refl(g@, i as int);
            }
            let mut comp: Vec<usize> = Vec::new();
            let mut j: usize = i;
            while j < s
                invariant
                    i <= j <= s,
                    i < s,
                    assigned@.len() == s,
                    !assigned@[i as int] || j > i,
                    forall|x: int| 0 <= x < i ==> (#[trigger] assigned@[x]),
                    forall|x: int|
                        seq_has(comp@, x) <==> i as int <= x < j && in_same_scc(g@, i as int, x),
                    forall|a: int, b: int|
                        0 <= a < b < comp@.len()
                            ==> (#[trigger] comp@[a]) < (#[trigger] comp@[b]),
                    forall|a: int|
                        0 <= a < comp@.len() ==> i <= (#[trigger] comp@[a]) < j,
                    j > i ==> comp@.len() >= 1 && comp@[0] == i,
                    forall|x: int|
                        0 <= x < s
                            ==> (#[trigger] assigned@[x]) == ((exists|c: int|
                                0 <= c < comps@.len() && #[trigger] seq_has(comps@[c]@, x))
                                || seq_has(comp@, x)),
                decreases s - j,
            {
                let same = r[i][j] && r[j][i];
                proof {
                    assert(same == in_same_scc(g@, i as int, j as int));
                    if same {
                        assert(comp@.push(j)[comp@.len() as int] == j);
                        assert(seq_has(comp@.push(j), j as int));
                        assert forall|x: int|
                            #[trigger] seq_has(comp@.push(j), x)
                            implies i as int <= x < j + 1 && in_same_scc(g@, i as int, x) by {
                            let k = choose|k: int|
                                0 <= k < comp@.push(j).len() && (#[trigger] comp@.push(j)[k]) as int == x;
                            if k < comp@.len() {
                                assert(seq_has(comp@, x));
                            }
                        }
                        assert forall|x: int|
                            i as int <= x < j + 1 && in_same_scc(g@, i as int, x)
                            implies #[trigger] seq_has(comp@.push(j), x) by {
                            if x < j {
                                assert(seq_has(comp@, x));
                                let k = choose|k: int|
                                    0 <= k < comp@.len() && (#[trigger] comp@[k]) as int == x;
                                assert(comp@.push(j)[k] as int == x);
                            } else {
                                assert(comp@.push(j)[comp@.len() as int] as int == x);
                            }
                        }
                        if j == i {
                            assert(comp@.push(j)[0] == i);
                        }
                    } else {
                        assert forall|x: int|
                            #[trigger] seq_has(comp@, x)
                            implies i as int <= x < j + 1 && in_same_scc(g@, i as int, x) by {}
                        assert forall|x: int|
                            i as int <= x < j + 1 && in_same_scc(g@, i as int, x)
                            implies #[trigger] seq_has(comp@, x) by {
                            if x == j {
                                assert(false);
                            }
                        }
                    }
                }
                if same {
                    comp.push(j);
                    assigned.set(j, true);
                }
                j = j + 1;
            }
            proof {
                crate::model::lemma_reachable_refl(g@, i as int);
                assert(in_same_scc(g@, i as int, i as int));
                assert(seq_has(comp@, i as int));
                // membership in the finished component is exactly the SCC of i
                assert forall|x: int|
                    #[trigger] seq_has(comp@, x) == (0 <= x < s && in_same_scc(g@, i as int, x)) by {
                    if 0 <= x < s && in_same_scc(g@, i as int, x) {
                        if x < i {
                            assert(!in_same_scc(g@, i as int, x));
                        }
                    }
                    if seq_has(comp@, x) {
                        assert(i as int <= x < s);
                    }
                }
            }
            let ghost old_comps = comps@;
            comps.push(comp);
            proof {
                let cn = old_comps.len() as int;
                assert(comps@ =~= old_comps.push(comps@[cn]));
                assert forall|c: int| 0 <= c < comps@.len()
                    implies (#[trigger] comps@[c]@[0]) < i + 1 by {
                    if c < cn {
                        assert(comps@[c] == old_comps[c]);
                    }
                }
                // disjointness, soundness, closedness, cover bookkeeping
                assert forall|c1: int, c2: int, x: int|
                    0 <= c1 < comps@.len() && 0 <= c2 < comps@.len() && c1 != c2
                        && #[trigger] seq_has(comps@[c1]@, x)
                    implies !(#[trigger] seq_has(comps@[c2]@, x)) by {
                    if c1 == cn || c2 == cn {
                        let co = if c1 == cn { c2 } else { c1 };
                        if seq_has(comps@[c1]@, x) && seq_has(comps@[c2]@, x) {
                            assert(in_same_scc(g@, i as int, x));
                            assert(seq_has(old_comps[co]@, x));
                            assert(in_same_scc(g@, x, i as int));
                            assert(seq_has(old_comps[co]@, i as int));
                            assert(assigned@[i as int]
                                == ((exists|c: int|
                                    0 <= c < old_comps.len()
                                        && #[trigger] seq_has(old_comps[c]@, i as int))
                                    || seq_has(comps@[cn]@, i as int)));
                        }
                    } else {
                        assert(seq_has(old_comps[c1]@, x));
                    }
                }
                assert forall|c: int, x: int, y: int|
                    0 <= c < comps@.len() && #[trigger] seq_has(comps@[c]@, x)
                        && #[trigger] seq_has(comps@[c]@, y)
                    implies in_same_scc(g@, x, y) by {
                    if c == cn {
                        assert(in_same_scc(g@, i as int, x));
                        assert(in_same_scc(g@, i as int, y));
                        crate::model::lemma_same_scc_trans(g@, x, i as int, y);
                    }
                }
                assert forall|c: int, x: int, y: int|
                    0 <= c < comps@.len() && #[trigger] seq_has(comps@[c]@, x)
                        && #[trigger] in_same_scc(g@, x, y)
                    implies seq_has(comps@[c]@, y) by {
                    if c == cn {
                        crate::model::lemma_same_scc_trans(g@, i as int, x, y);
                        lemma_reachable_in_range(g@, y, x);
                    }
                }
                assert forall|x: int| 0 <= x < s implies
                    (#[trigger] assigned@[x]) == exists|c: int|
                        0 <= c < comps@.len() && #[trigger] seq_has(comps@[c]@, x) by {
                    if assigned@[x] {
                        if exists|c: int|
                            0 <= c < old_comps.len() && #[trigger] seq_has(old_comps[c]@, x) {
                            let c = choose|c: int|
                                0 <= c < old_comps.len() && #[trigger] seq_has(old_comps[c]@, x);
                            assert(comps@[c] == old_comps[c]);
                            assert(seq_has(comps@[c]@, x));
                        } else {
                            assert(seq_has(comps@[cn]@, x));
                        }
                    } else {
                        if exists|c: int|
                            0 <= c < comps@.len() && #[trigger] seq_has(comps@[c]@, x) {
                            let c = choose|c: int|
                                0 <= c < comps@.len() && #[trigger] seq_has(comps@[c]@, x);
                            if c < cn {
                                assert(seq_has(old_comps[c]@, x));
                            } else {
                                assert(seq_has(comps@[cn]@, x));
                            }
                            assert(assigned@[x]);
                        }
                    }
                }
                assert(seq_has(comps@[cn]@, i as int));
                assert(assigned@[i as int]);
            }
        }
        i = i + 1;
    }
    proof {
        assert forall|x: int| 0 <= x < s implies #[trigger] stage_covered(comps@, x) by {
            assert(assigned@[x]);
        }
    }
    comps
}

} // verus!

//! Evaluation-order analysis for the stages of a Runge-Kutta-family
//! integration method.
//!
//! A method's tableau induces a directed dependency graph on its stages:
//! entry `(i, j)` of the matrix is set when stage `i`'s defining formula
//! reads stage `j`'s value. This crate partitions the stages into strongly
//! connected components, linearizes the acyclic condensation of that graph,
//! and classifies each component as directly computable ([`SCC::Explicit`])
//! or as a group whose members must be solved simultaneously
//! ([`SCC::Implicit`]). The resulting sequence is computed once per method
//! definition and reused across every integration step.

use vstd::prelude::*;

pub mod closure;
pub mod components;
pub mod laws;
pub mod model;
pub mod toposort;

verus! {

use crate::model::{is_square, edge, in_same_scc};
use crate::components::{seq_has, comps_wf, stage_covered, find_components};
use crate::closure::reach_closure;
use crate::toposort::{comp_dep, comp_ready_given, greedy_min, comp_index_map, topo_order,
    vec_has};

/// One unit of the computation order: either a single stage whose formula
/// can be evaluated directly, or a group of stages whose formulas must be
/// solved simultaneously. An implicit unit carries the member stages and
/// the complement, all remaining stage indices.
#[derive(Debug, Clone, PartialEq, Eq)]
pub enum SCC {
    Implicit(Vec<usize>, Vec<usize>),
    Explicit(usize),
}

/// Rejection of a dependency graph whose rows do not all match its size.
#[derive(Debug, Clone, PartialEq, Eq)]
pub enum OrderError {
    InvalidDependencyGraph,
}

/// Whether stage `i` belongs to the computation unit `u`.
pub open spec fn unit_has(u: SCC, i: int) -> bool {
    match u {
        SCC::Explicit(x) => i == x as int,
        SCC::Implicit(members, _) => seq_has(members@, i),
    }
}

/// The smallest stage index of the unit.
pub open spec fn unit_rep(u: SCC) -> int {
    match u {
        SCC::Explicit(x) => x as int,
        SCC::Implicit(members, _) => members@[0] as int,
    }
}

/// An index sequence that ascends strictly.
pub open spec fn strictly_increasing(s: Seq<usize>) -> bool {
    forall|a: int, b: int| 0 <= a < b < s.len() ==> (#[trigger] s[a]) < (#[trigger] s[b])
}

/// The shape of a single unit: indices in range and sorted ascending; an
/// explicit unit has no self-loop; an implicit unit has several members or
/// a self-loop, and carries exactly the complement of its members.
pub open spec fn unit_wf(g: Seq<Vec<bool>>, u: SCC) -> bool {
    match u {
        SCC::Explicit(x) => (x as int) < g.len() && !g[x as int]@[x as int],
        SCC::Implicit(members, rest) => {
            &&& members@.len() >= 1
            &&& strictly_increasing(members@)
            &&& forall|a: int| 0 <= a < members@.len() ==> (#[trigger] members@[a]) < g.len()
            &&& members@.len() > 1 || g[members@[0] as int]@[members@[0] as int]
            &&& strictly_increasing(rest@)
            &&& forall|j: int| #[trigger] seq_has(rest@, j) <==> (0 <= j < g.len() && !seq_has(members@, j))
        },
    }
}

/// Whether stage `i` belongs to some unit of `r`.
pub open spec fn stage_in_units(r: Seq<SCC>, i: int) -> bool {
    exists|k: int| 0 <= k < r.len() && #[trigger] unit_has(r[k], i)
}

/// The units' stage sets are pairwise disjoint, stay within `[0, s)`, and
/// together cover every stage exactly once.
pub open spec fn units_partition(g: Seq<Vec<bool>>, r: Seq<SCC>) -> bool {
    &&& forall|i: int| 0 <= i < g.len() ==> #[trigger] stage_in_units(r, i)
    &&& forall|k: int, i: int|
        0 <= k < r.len() && #[trigger] unit_has(r[k], i) ==> 0 <= i < g.len()
    &&& forall|k1: int, k2: int, i: int|
        0 <= k1 < r.len() && 0 <= k2 < r.len() && k1 != k2 && #[trigger] unit_has(r[k1], i)
            ==> !(#[trigger] unit_has(r[k2], i))
}

/// Each unit is exactly one strongly connected component of the graph.
pub open spec fn units_match_sccs(g: Seq<Vec<bool>>, r: Seq<SCC>) -> bool {
    &&& forall|k: int, i: int, j: int|
        0 <= k < r.len() && #[trigger] unit_has(r[k], i) && #[trigger] unit_has(r[k], j)
            ==> in_same_scc(g, i, j)
    &&& forall|k: int, i: int, j: int|
        0 <= k < r.len() && #[trigger] unit_has(r[k], i) && #[trigger] in_same_scc(g, i, j)
            ==> unit_has(r[k], j)
}

/// Whenever stage `i` reads stage `j` and the two sit in different units,
/// the unit of `j` stands before the unit of `i`.
pub open spec fn units_respect_dependencies(g: Seq<Vec<bool>>, r: Seq<SCC>) -> bool {
    forall|k1: int, k2: int, i: int, j: int|
        0 <= k1 < r.len() && 0 <= k2 < r.len() && k1 != k2 && #[trigger] unit_has(r[k1], i)
            && #[trigger] unit_has(r[k2], j) && #[trigger] edge(g, i, j) ==> k2 < k1
}

/// A unit is implicit exactly when it has several members or its single
/// member's formula reads its own value.
pub open spec fn units_classified(g: Seq<Vec<bool>>, r: Seq<SCC>) -> bool {
    forall|k: int|
        0 <= k < r.len()
            ==> (((#[trigger] r[k]) is Implicit) <==> ((exists|i: int, j: int|
                i != j && #[trigger] unit_has(r[k], i) && #[trigger] unit_has(r[k], j))
                || (exists|i: int| #[trigger] unit_has(r[k], i) && g[i]@[i])))
}

/// Every unit that stage `i` of this unit reads across the unit's boundary
/// is already emitted among the first `k` units.
pub open spec fn unit_ready_given(g: Seq<Vec<bool>>, r: Seq<SCC>, k: int, u: SCC) -> bool {
    forall|i: int, j: int|
        #[trigger] unit_has(u, i) && #[trigger] edge(g, i, j) && !unit_has(u, j)
            ==> exists|k2: int| 0 <= k2 < k && #[trigger] unit_has(r[k2], j)
}

/// Among the units whose dependencies are already emitted, the one with
/// the smallest member always comes first: together with the other
/// clauses, this pins the emitted sequence down uniquely.
pub open spec fn units_greedy(g: Seq<Vec<bool>>, r: Seq<SCC>) -> bool {
    forall|k1: int, k2: int|
        0 <= k1 < k2 < r.len() && #[trigger] unit_ready_given(g, r, k1, r[k2])
            ==> unit_rep(r[k1]) < unit_rep(r[k2])
}

/// The complete contract of the computation order of a graph.
pub open spec fn valid_computation_order(g: Seq<Vec<bool>>, r: Seq<SCC>) -> bool {
    &&& forall|k: int| 0 <= k < r.len() ==> unit_wf(g, #[trigger] r[k])
    &&& units_partition(g, r)
    &&& units_match_sccs(g, r)
    &&& units_respect_dependencies(g, r)
    &&& units_classified(g, r)
    &&& units_greedy(g, r)
}

/// Copies an index vector.
#[verifier::loop_isolation(false)]
fn copy_indices(v: &Vec<usize>) -> (out: Vec<usize>)
    ensures
        out@ == v@,
{
    let mut out: Vec<usize> = Vec::new();
    let mut k: usize = 0;
    while k < v.len()
        invariant
            k <= v@.len(),
            out@ == v@.subrange(0, k as int),
        decreases v@.len() - k,
    {
        out.push(v[k]);
        proof {
            assert(v@.subrange(0, k + 1) =~= v@.subrange(0, k as int).push(v@[k as int]));
        }
        k = k + 1;
    }
    proof {
        assert(v@.subrange(0, v@.len() as int) =~= v@);
    }
    out
}

/// Builds the ascending list of all stage indices outside `members`.
#[verifier::loop_isolation(false)]
fn complement_of(members: &Vec<usize>, s: usize) -> (rest: Vec<usize>)
    ensures
        strictly_increasing(rest@),
        forall|j: int| #[trigger] seq_has(rest@, j) <==> (0 <= j < s && !seq_has(members@, j)),
{
    let mut rest: Vec<usize> = Vec::new();
    let mut j: usize = 0;
    while j < s
        invariant
            j <= s,
            strictly_increasing(rest@),
            forall|a: int| 0 <= a < rest@.len() ==> (#[trigger] rest@[a]) < j,
            forall|x: int| #[trigger] seq_has(rest@, x) <==> (0 <= x < j && !seq_has(members@, x)),
        decreases s - j,
    {
        let absent = !vec_has(members, j);
        proof {
            if absent {
                assert(rest@.push(j)[rest@.len() as int] == j);
                assert(seq_has(rest@.push(j), j as int));
                assert forall|x: int| #[trigger] seq_has(rest@.push(j), x)
                    implies (0 <= x < j + 1 && !seq_has(members@, x)) by {
                    let k = choose|k: int|
                        0 <= k < rest@.push(j).len() && (#[trigger] rest@.push(j)[k]) as int == x;
                    if k < rest@.len() {
                        assert(seq_has(rest@, x));
                    }
                }
                assert forall|x: int| 0 <= x < j + 1 && !seq_has(members@, x)
                    implies #[trigger] seq_has(rest@.push(j), x) by {
                    if x < j {
                        assert(seq_has(rest@, x));
                        let k = choose|k: int|
                            0 <= k < rest@.len() && (#[trigger] rest@[k]) as int == x;
                        assert(rest@.push(j)[k] as int == x);
                    }
                }
            } else {
                assert(seq_has(members@, j as int));
                assert forall|x: int| 0 <= x < j + 1 && !seq_has(members@, x)
                    implies #[trigger] seq_has(rest@, x) by {
                    assert(x != j);
                }
            }
        }
        if absent {
            rest.push(j);
        }
        j = j + 1;
    }
    rest
}

/// Takes the dependency graph of a method's stages and produces the order
/// in which the stages must be computed: a sequence of computation units
/// that partitions the stages, groups exactly the strongly connected
/// components, orders every unit after the units it depends on, and
/// classifies each unit as explicit or implicit.
#[verifier::loop_isolation(false)]
pub fn create_computation_order(weight_graph: &Vec<Vec<bool>>) -> (order: Vec<SCC>)
    requires
        is_square(weight_graph@),
    ensures
        valid_computation_order(weight_graph@, order@),
{
    let g = weight_graph;
    let ghost gv = g@;
    let reach = reach_closure(g);
    let comps = find_components(g, &reach);
    let comp_of = comp_index_map(g, &comps);
    let ord = topo_order(g, &comps, &comp_of);
    let m = ord.len();
    let mut units: Vec<SCC> = Vec::new();
    let mut k: usize = 0;
    while k < m
        invariant
            k <= m,
            units@.len() == k,
            forall|n: int, i: int|
                0 <= n < k
                    ==> (#[trigger] unit_has(units@[n], i))
                        == seq_has(comps@[ord@[n] as int]@, i),
            forall|n: int| 0 <= n < k ==> unit_wf(gv, #[trigger] units@[n]),
            forall|n: int| 0 <= n < k ==> unit_rep(#[trigger] units@[n]) == comps@[ord@[n] as int]@[0] as int,
            forall|n: int| 0 <= n < k ==> ((#[trigger] units@[n]) is Implicit
                <==> (comps@[ord@[n] as int]@.len() > 1
                    || gv[comps@[ord@[n] as int]@[0] as int]@[comps@[ord@[n] as int]@[0] as int])),
        decreases m - k,
    {
        let c = ord[k];
        let first = comps[c][0];
        if comps[c].len() > 1 || g[first][first] {
            let members = copy_indices(&comps[c]);
            let rest = complement_of(&members, g.len());
            units.push(SCC::Implicit(members, rest));
        } else {
            proof {
                assert forall|i: int| #[trigger] seq_has(comps@[c as int]@, i)
                    implies i == first as int by {
                    let a = choose|a: int|
                        0 <= a < comps@[c as int]@.len()
                            && (#[trigger] comps@[c as int]@[a]) as int == i;
                    assert(a == 0);
                }
                assert(seq_has(comps@[c as int]@, first as int)) by {
                    assert(comps@[c as int]@[0] as int == first as int);
                }
            }
            units.push(SCC::Explicit(first));
        }
        k = k + 1;
    }
    proof {
        let r = units@;
        let ordv = ord@;
        let cv = comps@;
        // cover
        assert forall|i: int| 0 <= i < gv.len() implies #[trigger] stage_in_units(r, i) by {
            assert(stage_covered(cv, i));
            let c = choose|c: int| 0 <= c < cv.len() && #[trigger] seq_has(cv[c]@, i);
            assert(seq_has(ordv, c));
            let k2 = choose|k2: int| 0 <= k2 < ordv.len() && (#[trigger] ordv[k2]) as int == c;
            assert(unit_has(r[k2], i));
        }
        // range
        assert forall|k1: int, i: int|
            0 <= k1 < r.len() && #[trigger] unit_has(r[k1], i) implies 0 <= i < gv.len() by {
            let c = ordv[k1] as int;
            assert(seq_has(cv[c]@, i));
            let a = choose|a: int| 0 <= a < cv[c]@.len() && (#[trigger] cv[c]@[a]) as int == i;
        }
        // disjointness
        assert forall|k1: int, k2: int, i: int|
            0 <= k1 < r.len() && 0 <= k2 < r.len() && k1 != k2 && #[trigger] unit_has(r[k1], i)
            implies !(#[trigger] unit_has(r[k2], i)) by {
            if unit_has(r[k2], i) {
                assert(ordv[k1] != ordv[k2]);
                assert(seq_has(cv[ordv[k1] as int]@, i));
                assert(seq_has(cv[ordv[k2] as int]@, i));
            }
        }
        // units are whole strongly connected components
        assert forall|k1: int, i: int, j: int|
            0 <= k1 < r.len() && #[trigger] unit_has(r[k1], i) && #[trigger] unit_has(r[k1], j)
            implies in_same_scc(gv, i, j) by {
            assert(seq_has(cv[ordv[k1] as int]@, i));
            assert(seq_has(cv[ordv[k1] as int]@, j));
        }
        assert forall|k1: int, i: int, j: int|
            0 <= k1 < r.len() && #[trigger] unit_has(r[k1], i) && #[trigger] in_same_scc(gv, i, j)
            implies unit_has(r[k1], j) by {
            assert(seq_has(cv[ordv[k1] as int]@, i));
            assert(seq_has(cv[ordv[k1] as int]@, j));
        }
        // dependencies point to earlier units
        assert forall|k1: int, k2: int, i: int, j: int|
            0 <= k1 < r.len() && 0 <= k2 < r.len() && k1 != k2 && #[trigger] unit_has(r[k1], i)
                && #[trigger] unit_has(r[k2], j) && #[trigger] edge(gv, i, j)
            implies k2 < k1 by {
            let c1 = ordv[k1] as int;
            let c2 = ordv[k2] as int;
            assert(seq_has(cv[c1]@, i));
            assert(seq_has(cv[c2]@, j));
            assert(c1 != c2);
            assert(comp_dep(gv, cv, c1, c2));
            assert(seq_has(ordv.subrange(0, k1), c2));
            let k3 = choose|k3: int|
                0 <= k3 < ordv.subrange(0, k1).len()
                    && (#[trigger] ordv.subrange(0, k1)[k3]) as int == c2;
            assert(ordv[k3] as int == c2);
            assert(k3 == k2);
        }
        // classification
        assert forall|k1: int| 0 <= k1 < r.len() implies
            (((#[trigger] r[k1]) is Implicit) <==> ((exists|i: int, j: int|
                i != j && #[trigger] unit_has(r[k1], i) && #[trigger] unit_has(r[k1], j))
                || (exists|i: int| #[trigger] unit_has(r[k1], i) && gv[i]@[i]))) by {
            let c = ordv[k1] as int;
            let rep = cv[c]@[0] as int;
            assert(seq_has(cv[c]@, rep)) by {
                assert(cv[c]@[0] as int == rep);
            }
            assert(unit_has(r[k1], rep));
            if r[k1] is Implicit {
                if cv[c]@.len() > 1 {
                    let second = cv[c]@[1] as int;
                    assert(seq_has(cv[c]@, second)) by {
                        assert(cv[c]@[1] as int == second);
                    }
                    assert(unit_has(r[k1], second));
                    assert(rep != second);
                } else {
                    assert(gv[rep]@[rep]);
                }
            } else {
                if exists|i: int, j: int|
                    i != j && #[trigger] unit_has(r[k1], i) && #[trigger] unit_has(r[k1], j) {
                    let (i, j) = choose|i: int, j: int|
                        i != j && #[trigger] unit_has(r[k1], i) && #[trigger] unit_has(r[k1], j);
                    let a = choose|a: int| 0 <= a < cv[c]@.len() && (#[trigger] cv[c]@[a]) as int == i;
                    let b = choose|b: int| 0 <= b < cv[c]@.len() && (#[trigger] cv[c]@[b]) as int == j;
                    assert(cv[c]@.len() > 1);
                }
                if exists|i: int| #[trigger] unit_has(r[k1], i) && gv[i]@[i] {
                    let i = choose|i: int| #[trigger] unit_has(r[k1], i) && gv[i]@[i];
                    let a = choose|a: int| 0 <= a < cv[c]@.len() && (#[trigger] cv[c]@[a]) as int == i;
                    assert(a == 0 || cv[c]@.len() > 1);
                    assert(i == rep || cv[c]@.len() > 1);
                }
            }
        }
        // greedy minimal order
        assert forall|k1: int, k2: int|
            0 <= k1 < k2 < r.len() && #[trigger] unit_ready_given(gv, r, k1, r[k2])
            implies unit_rep(r[k1]) < unit_rep(r[k2]) by {
            let c2 = ordv[k2] as int;
            assert forall|d: int| #[trigger] comp_dep(gv, cv, c2, d)
                implies seq_has(ordv.subrange(0, k1), d) by {
                let (i, j) = choose|i: int, j: int|
                    #[trigger] seq_has(cv[c2]@, i) && #[trigger] seq_has(cv[d]@, j)
                        && edge(gv, i, j);
                assert(unit_has(r[k2], i));
                assert(!unit_has(r[k2], j)) by {
                    if unit_has(r[k2], j) {
                        assert(seq_has(cv[c2]@, j));
                    }
                }
                let k3 = choose|k3: int| 0 <= k3 < k1 && #[trigger] unit_has(r[k3], j);
                assert(seq_has(cv[ordv[k3] as int]@, j));
                assert(ordv[k3] as int == d);
                assert(ordv.subrange(0, k1)[k3] as int == d);
            }
            assert(comp_ready_given(gv, cv, ordv.subrange(0, k1), c2));
            assert(!seq_has(ordv.subrange(0, k1), c2)) by {
                if seq_has(ordv.subrange(0, k1), c2) {
                    let k3 = choose|k3: int|
                        0 <= k3 < ordv.subrange(0, k1).len()
                            && (#[trigger] ordv.subrange(0, k1)[k3]) as int == c2;
                    assert(ordv[k3] as int == c2);
                    assert(k3 != k2 && ordv[k3] == ordv[k2]);
                }
            }
            assert(ordv[k1] as int <= c2);
            assert(ordv[k1] != ordv[k2]);
            assert(cv[ordv[k1] as int]@[0] < cv[c2]@[0]);
        }
    }
    units
}

/// Whether the matrix is square: every row as long as the number of rows.
#[verifier::loop_isolation(false)]
pub fn dependency_graph_is_square(weight_graph: &Vec<Vec<bool>>) -> (b: bool)
    ensures
        b == is_square(weight_graph@),
{
    let s = weight_graph.len();
    let mut i: usize = 0;
    while i < s
        invariant
            i <= s,
            forall|n: int| 0 <= n < i ==> (#[trigger] weight_graph@[n])@.len() == s,
        decreases s - i,
    {
        if weight_graph[i].len() != s {
            return false;
        }
        i = i + 1;
    }
    true
}

/// Validates the dependency graph at method-definition time and computes
/// the order: a non-square matrix is rejected as a configuration error,
/// every square matrix yields an order.
pub fn try_create_computation_order(weight_graph: &Vec<Vec<bool>>) -> (res: Result<
    Vec<SCC>,
    OrderError,
>)
    ensures
        match res {
            Ok(order) => is_square(weight_graph@)
                && valid_computation_order(weight_graph@, order@),
            Err(e) => e == OrderError::InvalidDependencyGraph && !is_square(weight_graph@),
        },
{
    if dependency_graph_is_square(weight_graph) {
        Ok(create_computation_order(weight_graph))
    } else {
        Err(OrderError::InvalidDependencyGraph)
    }
}

} // verus!

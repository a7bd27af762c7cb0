//! Linearizes the acyclic condensation of a dependency graph: emits the
//! component indices in an order in which every component follows all the
//! components it depends on, breaking ties by ascending smallest member.

use vstd::prelude::*;

verus! {

use vstd::set_lib::{set_int_range, lemma_int_range, lemma_len_subset};
use crate::model::{is_square, edge, reachable, in_same_scc, lemma_reachable_trans,
    lemma_reachable_step};
use crate::components::{seq_has, comps_wf};
use crate::closure::row_count;
use crate::closure::lemma_row_count_le;

/// Component `c` depends on component `d`: some member of `c` reads some
/// member of the distinct component `d`.
pub open spec fn comp_dep(g: Seq<Vec<bool>>, comps: Seq<Vec<usize>>, c: int, d: int) -> bool {
    &&& 0 <= c < comps.len()
    &&& 0 <= d < comps.len()
    &&& c != d
    &&& exists|i: int, j: int|
        #[trigger] seq_has(comps[c]@, i) && #[trigger] seq_has(comps[d]@, j) && edge(g, i, j)
}

/// Every component that `c` depends on already occurs in `done`.
pub open spec fn comp_ready_given(
    g: Seq<Vec<bool>>,
    comps: Seq<Vec<usize>>,
    done: Seq<usize>,
    c: int,
) -> bool {
    forall|d: int| #[trigger] comp_dep(g, comps, c, d) ==> seq_has(done, d)
}

/// Every emitted component was, at its turn, the ready component with the
/// smallest index among those not yet emitted.
pub open spec fn greedy_min(g: Seq<Vec<bool>>, comps: Seq<Vec<usize>>, order: Seq<usize>) -> bool {
    forall|k: int, c: int|
        0 <= k < order.len() && 0 <= c < comps.len()
            && !seq_has(order.subrange(0, k), c)
            && #[trigger] comp_ready_given(g, comps, order.subrange(0, k), c)
            ==> order[k] as int <= c
}

proof fn lemma_row_count_update_true(s: Seq<bool>, i: int)
    requires
        0 <= i < s.len(),
        !s[i],
    ensures
        row_count(s.update(i, true)) == row_count(s) + 1,
    decreases s.len(),
{
    let t = s.update(i, true);
    if i == s.len() - 1 {
        assert(t.drop_last() =~= s.drop_last());
        assert(t.last());
        assert(!s.last());
    } else {
        assert(t.drop_last() =~= s.drop_last().update(i, true));
        assert(t.last() == s.last());
        lemma_row_count_update_true(s.drop_last(), i);
    }
}

proof fn lemma_row_count_all_true(s: Seq<bool>)
    requires
        forall|i: int| 0 <= i < s.len() ==> s[i],
    ensures
        row_count(s) == s.len(),
    decreases s.len(),
{
    if s.len() > 0 {
        lemma_row_count_all_true(s.drop_last());
    }
}

proof fn lemma_row_count_lt(s: Seq<bool>, c: int)
    requires
        0 <= c < s.len(),
        !s[c],
    ensures
        row_count(s) < s.len(),
    decreases s.len(),
{
    if c == s.len() - 1 {
        lemma_row_count_le(s.drop_last());
    } else {
        lemma_row_count_lt(s.drop_last(), c);
    }
}

/// The components not in `done` that are reachable from component `c`
/// (representative to representative), other than `c` itself.
spec fn pending(g: Seq<Vec<bool>>, comps: Seq<Vec<usize>>, done: Seq<usize>, c: int) -> Set<int> {
    Set::new(
        |d: int|
            0 <= d < comps.len() && !seq_has(done, d) && d != c
                && reachable(g, comps[c]@[0] as int, comps[d]@[0] as int),
    )
}

/// As long as some component is not yet emitted, a not-yet-emitted
/// component exists whose dependencies are all emitted. This is where the
/// acyclicity of the condensation enters: a cycle among components would
/// merge them into one strongly connected component.
proof fn lemma_ready_comp_exists(
    g: Seq<Vec<bool>>,
    comps: Seq<Vec<usize>>,
    done: Seq<usize>,
    c: int,
)
    requires
        comps_wf(g, comps),
        0 <= c < comps.len(),
        !seq_has(done, c),
    ensures
        exists|c2: int|
            0 <= c2 < comps.len() && !seq_has(done, c2)
                && #[trigger] comp_ready_given(g, comps, done, c2),
    decreases pending(g, comps, done, c).len(),
{
    let m = comps.len() as int;
    if comp_ready_given(g, comps, done, c) {
        assert(0 <= c < comps.len() && !seq_has(done, c) && comp_ready_given(g, comps, done, c));
    } else {
        let d = choose|d: int| #[trigger] comp_dep(g, comps, c, d) && !seq_has(done, d);
        let rep_c = comps[c]@[0] as int;
        let rep_d = comps[d]@[0] as int;
        let (i, j) = choose|i: int, j: int|
            #[trigger] seq_has(comps[c]@, i) && #[trigger] seq_has(comps[d]@, j) && edge(g, i, j);
        assert(seq_has(comps[c]@, rep_c)) by {
            assert(0 <= 0 < comps[c]@.len() && comps[c]@[0] as int == rep_c);
        }
        assert(seq_has(comps[d]@, rep_d)) by {
            assert(0 <= 0 < comps[d]@.len() && comps[d]@[0] as int == rep_d);
        }
        assert(in_same_scc(g, rep_c, i));
        assert(in_same_scc(g, j, rep_d));
        lemma_reachable_step(g, rep_c, i, j);
        lemma_reachable_trans(g, rep_c, j, rep_d);
        assert(reachable(g, rep_c, rep_d));
        // every component pending after d is pending after c, and d itself
        // no longer is: the pending set shrinks strictly
        assert forall|e: int| pending(g, comps, done, d).contains(e)
            implies pending(g, comps, done, c).remove(d).contains(e) by {
            let rep_e = comps[e]@[0] as int;
            lemma_reachable_trans(g, rep_c, rep_d, rep_e);
            if e == c {
                assert(reachable(g, rep_d, rep_c));
                assert(in_same_scc(g, rep_c, rep_d));
                assert(seq_has(comps[c]@, rep_d));
                assert(seq_has(comps[d]@, rep_d));
                assert(false);
            }
        }
        assert(pending(g, comps, done, c).contains(d));
        lemma_int_range(0, m);
        assert(pending(g, comps, done, c).subset_of(set_int_range(0, m)));
        lemma_len_subset(pending(g, comps, done, c), set_int_range(0, m));
        assert(pending(g, comps, done, c).remove(d).len()
            == pending(g, comps, done, c).len() - 1);
        lemma_len_subset(pending(g, comps, done, d), pending(g, comps, done, c).remove(d));
        lemma_ready_comp_exists(g, comps, done, d);
    }
}

/// Dependencies of a single stage, as seen through the component map: every
/// stage it reads lies in its own component or in an emitted one.
pub open spec fn stage_deps_emitted(
    g: Seq<Vec<bool>>,
    comp_of: Seq<usize>,
    emitted: Seq<bool>,
    i: int,
    c: int,
) -> bool {
    forall|j: int|
        0 <= j < g.len() && (#[trigger] g[i]@[j])
            ==> (comp_of[j] as int == c || emitted[comp_of[j] as int])
}

/// The component map sends every stage to the component containing it.
pub open spec fn comp_of_wf(g: Seq<Vec<bool>>, comps: Seq<Vec<usize>>, comp_of: Seq<usize>) -> bool {
    &&& comp_of.len() == g.len()
    &&& forall|x: int|
        0 <= x < g.len()
            ==> (#[trigger] comp_of[x]) < comps.len() && seq_has(comps[comp_of[x] as int]@, x)
}

/// Whether the index sequence contains the given stage.
#[verifier::loop_isolation(false)]
pub fn vec_has(v: &Vec<usize>, x: usize) -> (b: bool)
    ensures
        b == seq_has(v@, x as int),
{
    let mut k: usize = 0;
    while k < v.len()
        invariant
            k <= v@.len(),
            forall|n: int| 0 <= n < k ==> (#[trigger] v@[n]) != x,
        decreases v@.len() - k,
    {
        if v[k] == x {
            return true;
        }
        k = k + 1;
    }
    false
}

/// Builds the map from each stage to the index of its component.
#[verifier::loop_isolation(false)]
pub fn comp_index_map(g: &Vec<Vec<bool>>, comps: &Vec<Vec<usize>>) -> (comp_of: Vec<usize>)
    requires
        comps_wf(g@, comps@),
    ensures
        comp_of_wf(g@, comps@, comp_of@),
{
    let s = g.len();
    let m = comps.len();
    let mut comp_of: Vec<usize> = Vec::new();
    let mut x: usize = 0;
    while x < s
        invariant
            x <= s,
            comp_of@.len() == x,
            forall|n: int|
                0 <= n < x
                    ==> (#[trigger] comp_of@[n]) < comps@.len()
                        && seq_has(comps@[comp_of@[n] as int]@, n),
        decreases s - x,
    {
        let mut c: usize = 0;
        let mut idx: usize = m;
        while c < m
            invariant
                c <= m,
                x < s,
                idx <= m,
                idx == m ==> forall|n: int| 0 <= n < c ==> !seq_has((#[trigger] comps@[n])@, x as int),
                idx < m ==> seq_has(comps@[idx as int]@, x as int),
            decreases m - c,
        {
            if idx == m && vec_has(&comps[c], x) {
                idx = c;
            }
            c = c + 1;
        }
        if idx == m {
            proof {
                assert(crate::components::stage_covered(comps@, x as int));
                assert(false);
            }
        }
        comp_of.push(idx);
        x = x + 1;
    }
    comp_of
}

/// Whether every component that `c` depends on is already emitted.
#[verifier::loop_isolation(false)]
fn comp_ready(
    g: &Vec<Vec<bool>>,
    comps: &Vec<Vec<usize>>,
    comp_of: &Vec<usize>,
    emitted: &Vec<bool>,
    c: usize,
) -> (b: bool)
    requires
        is_square(g@),
        comps_wf(g@, comps@),
        comp_of_wf(g@, comps@, comp_of@),
        emitted@.len() == comps@.len(),
        c < comps@.len(),
    ensures
        b == forall|d: int| #[trigger] comp_dep(g@, comps@, c as int, d) ==> emitted@[d],
{
    let s = g.len();
    let mut a: usize = 0;
    while a < comps[c].len()
        invariant
            a <= comps@[c as int]@.len(),
            forall|a2: int|
                0 <= a2 < a
                    ==> #[trigger] stage_deps_emitted(
                        g@, comp_of@, emitted@, comps@[c as int]@[a2] as int, c as int),
        decreases comps@[c as int]@.len() - a,
    {
        let i = comps[c][a];
        let mut j: usize = 0;
        while j < s
            invariant
                j <= s,
                a < comps@[c as int]@.len(),
                i == comps@[c as int]@[a as int],
                forall|j2: int|
                    0 <= j2 < j && (#[trigger] g@[i as int]@[j2])
                        ==> (comp_of@[j2] as int == c as int || emitted@[comp_of@[j2] as int]),
            decreases s - j,
        {
            if g[i][j] {
                let d = comp_of[j];
                if d != c && !emitted[d] {
                    proof {
                        assert(seq_has(comps@[c as int]@, i as int)) by {
                            assert(comps@[c as int]@[a as int] as int == i as int);
                        }
                        assert(seq_has(comps@[d as int]@, j as int));
                        assert(edge(g@, i as int, j as int));
                        assert(comp_dep(g@, comps@, c as int, d as int));
                        assert(!emitted@[d as int]);
                    }
                    return false;
                }
            }
            j = j + 1;
        }
        proof {
            assert(stage_deps_emitted(g@, comp_of@, emitted@, comps@[c as int]@[a as int] as int,
                c as int));
        }
        a = a + 1;
    }
    proof {
        assert forall|d: int| #[trigger] comp_dep(g@, comps@, c as int, d)
            implies emitted@[d] by {
            let (i, j) = choose|i: int, j: int|
                #[trigger] seq_has(comps@[c as int]@, i) && #[trigger] seq_has(comps@[d]@, j)
                    && edge(g@, i, j);
            let a2 = choose|a2: int|
                0 <= a2 < comps@[c as int]@.len() && (#[trigger] comps@[c as int]@[a2]) as int == i;
            assert(stage_deps_emitted(g@, comp_of@, emitted@, i, c as int));
            assert(g@[i]@[j]);
            assert(comp_of@[j] as int == c as int || emitted@[comp_of@[j] as int]);
            assert(seq_has(comps@[comp_of@[j] as int]@, j));
            if comp_of@[j] as int != d {
                assert(false);
            }
            if comp_of@[j] as int == c as int {
                assert(false);
            }
        }
    }
    true
}

/// Emits the component indices in dependency-respecting order, smallest
/// representative first among the ready components.
#[verifier::loop_isolation(false)]
pub fn topo_order(
    g: &Vec<Vec<bool>>,
    comps: &Vec<Vec<usize>>,
    comp_of: &Vec<usize>,
) -> (order: Vec<usize>)
    requires
        is_square(g@),
        comps_wf(g@, comps@),
        comp_of_wf(g@, comps@, comp_of@),
    ensures
        order@.len() == comps@.len(),
        forall|k: int| 0 <= k < order@.len() ==> (#[trigger] order@[k]) < comps@.len(),
        forall|k1: int, k2: int|
            0 <= k1 < k2 < order@.len() ==> (#[trigger] order@[k1]) != (#[trigger] order@[k2]),
        forall|c: int| 0 <= c < comps@.len() ==> #[trigger] seq_has(order@, c),
        forall|k: int, d: int|
            0 <= k < order@.len() && #[trigger] comp_dep(g@, comps@, order@[k] as int, d)
                ==> seq_has(order@.subrange(0, k), d),
        greedy_min(g@, comps@, order@),
{
    let m = comps.len();
    let mut emitted: Vec<bool> = Vec::new();
    let mut n: usize = 0;
    while n < m
        invariant
            n <= m,
            emitted@.len() == n,
            forall|x: int| 0 <= x < n ==> !(#[trigger] emitted@[x]),
        decreases m - n,
    {
        emitted.push(false);
        n = n + 1;
    }
    proof {
        assert forall|x: int| 0 <= x < m implies
            (#[trigger] emitted@[x]) == seq_has(Seq::<usize>::empty(), x) by {}
        assert(row_count(emitted@) == 0) by {
            lemma_row_count_zeroes(emitted@);
        }
    }
    let mut order: Vec<usize> = Vec::new();
    while order.len() < m
        invariant
            emitted@.len() == m,
            order@.len() <= m,
            row_count(emitted@) == order@.len(),
            forall|x: int| 0 <= x < m ==> (#[trigger] emitted@[x]) == seq_has(order@, x),
            forall|k: int| 0 <= k < order@.len() ==> (#[trigger] order@[k]) < m,
            forall|k1: int, k2: int|
                0 <= k1 < k2 < order@.len() ==> (#[trigger] order@[k1]) != (#[trigger] order@[k2]),
            forall|k: int, d: int|
                0 <= k < order@.len() && #[trigger] comp_dep(g@, comps@, order@[k] as int, d)
                    ==> seq_has(order@.subrange(0, k), d),
            greedy_min(g@, comps@, order@),
        decreases m - order@.len(),
    {
        let mut pick: usize = m;
        let mut c: usize = 0;
        while c < m
            invariant
                c <= m,
                pick <= m,
                pick == m ==> forall|c2: int|
                    0 <= c2 < c
                        ==> !(!emitted@[c2]
                            && #[trigger] comp_ready_given(g@, comps@, order@, c2)),
                pick < m ==> pick < c && !emitted@[pick as int]
                    && comp_ready_given(g@, comps@, order@, pick as int)
                    && forall|c2: int|
                        0 <= c2 < pick
                            ==> !(!emitted@[c2]
                                && #[trigger] comp_ready_given(g@, comps@, order@, c2)),
            decreases m - c,
        {
            if pick == m && !emitted[c] {
                if comp_ready(g, comps, comp_of, &emitted, c) {
                    pick = c;
                    proof {
                        assert(comp_ready_given(g@, comps@, order@, c as int));
                    }
                }
            }
            c = c + 1;
        }
        if pick == m {
            proof {
                assert(row_count(emitted@) < m);
                assert(!(forall|x: int| 0 <= x < m ==> emitted@[x])) by {
                    if forall|x: int| 0 <= x < m ==> emitted@[x] {
                        lemma_row_count_all_true(emitted@);
                    }
                }
                let c0 = choose|c0: int| 0 <= c0 < m && !(#[trigger] emitted@[c0]);
                lemma_ready_comp_exists(g@, comps@, order@, c0);
                let c2 = choose|c2: int|
                    0 <= c2 < comps@.len() && !seq_has(order@, c2)
                        && #[trigger] comp_ready_given(g@, comps@, order@, c2);
                assert(!emitted@[c2]);
                assert(false);
            }
        }
        let ghost old_order = order@;
        let ghost old_emitted = emitted@;
        emitted.set(pick, true);
        order.push(pick);
        proof {
            let len = old_order.len() as int;
            lemma_row_count_update_true(old_emitted, pick as int);
            // prefixes below the new position are unchanged
            assert forall|k: int| 0 <= k <= len implies
                order@.subrange(0, k) == old_order.subrange(0, k) by {
                assert(order@.subrange(0, k) =~= old_order.subrange(0, k));
            }
            assert(order@.subrange(0, len) =~= old_order);
            // the emitted flags still mirror membership in the order
            assert forall|x: int| 0 <= x < m implies
                (#[trigger] emitted@[x]) == seq_has(order@, x) by {
                if x == pick as int {
                    assert(order@[len] as int == x);
                    assert(seq_has(order@, x));
                } else {
                    if seq_has(order@, x) {
                        let k = choose|k: int| 0 <= k < order@.len() && (#[trigger] order@[k]) as int == x;
                        assert(k < len);
                        assert(old_order[k] as int == x);
                        assert(seq_has(old_order, x));
                    }
                    if seq_has(old_order, x) {
                        let k = choose|k: int|
                            0 <= k < old_order.len() && (#[trigger] old_order[k]) as int == x;
                        assert(order@[k] as int == x);
                        assert(seq_has(order@, x));
                    }
                }
            }
            // the new entry is distinct from all earlier ones
            assert forall|k1: int, k2: int|
                0 <= k1 < k2 < order@.len() implies
                (#[trigger] order@[k1]) != (#[trigger] order@[k2]) by {
                if k2 == len {
                    if order@[k1] == order@[k2] {
                        assert(old_order[k1] as int == pick as int);
                        assert(seq_has(old_order, pick as int));
                        assert(old_emitted[pick as int]);
                    }
                }
            }
            // dependency respect for the new entry comes from its readiness
            assert forall|k: int, d: int|
                0 <= k < order@.len() && #[trigger] comp_dep(g@, comps@, order@[k] as int, d)
                implies seq_has(order@.subrange(0, k), d) by {
                if k == len {
                    assert(comp_ready_given(g@, comps@, old_order, pick as int));
                    assert(seq_has(old_order, d));
                } else {
                    assert(old_order[k] == order@[k]);
                    assert(seq_has(old_order.subrange(0, k), d));
                }
            }
            // greediness of the new entry comes from the scan order
            assert forall|k: int, cc: int|
                0 <= k < order@.len() && 0 <= cc < comps@.len()
                    && !seq_has(order@.subrange(0, k), cc)
                    && #[trigger] comp_ready_given(g@, comps@, order@.subrange(0, k), cc)
                implies order@[k] as int <= cc by {
                if k == len {
                    assert(order@.subrange(0, k) == old_order);
                    if cc < pick as int {
                        assert(!(!old_emitted[cc]
                            && comp_ready_given(g@, comps@, old_order, cc)));
                        assert(old_emitted[cc]);
                        assert(seq_has(old_order, cc));
                    }
                } else {
                    assert(order@.subrange(0, k) == old_order.subrange(0, k));
                    assert(old_order[k] == order@[k]);
                }
            }
        }
    }
    proof {
        assert forall|c: int| 0 <= c < comps@.len() implies #[trigger] seq_has(order@, c) by {
            if !seq_has(order@, c) {
                assert(!emitted@[c]);
                lemma_row_count_lt(emitted@, c);
            }
        }
    }
    order
}

proof fn lemma_row_count_zeroes(s: Seq<bool>)
    requires
        forall|i: int| 0 <= i < s.len() ==> !s[i],
    ensures
        row_count(s) == 0,
    decreases s.len(),
{
    if s.len() > 0 {
        lemma_row_count_zeroes(s.drop_last());
    }
}

} // verus!

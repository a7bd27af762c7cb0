//! Laws of the computation order that relate whole result sequences: the
//! contract of [`crate::create_computation_order`] pins its result down
//! uniquely, so two calls on the same matrix produce identical sequences.

use vstd::prelude::*;

verus! {

use crate::{SCC, unit_has, unit_rep, unit_wf, strictly_increasing, stage_in_units,
    valid_computation_order, unit_ready_given};
use crate::components::seq_has;
use crate::model::{edge, in_same_scc};

/// Two units carry the same stages, complements and classification.
pub open spec fn unit_like(u1: SCC, u2: SCC) -> bool {
    match (u1, u2) {
        (SCC::Explicit(x1), SCC::Explicit(x2)) => x1 == x2,
        (SCC::Implicit(m1, r1), SCC::Implicit(m2, r2)) => m1@ == m2@ && r1@ == r2@,
        _ => false,
    }
}

/// Two units hold exactly the same stages.
pub open spec fn same_members(u1: SCC, u2: SCC) -> bool {
    forall|i: int|
        #![trigger unit_has(u1, i)]
        #![trigger unit_has(u2, i)]
        unit_has(u1, i) == unit_has(u2, i)
}

/// Two strictly ascending index sequences with the same members are equal.
proof fn lemma_increasing_unique(s1: Seq<usize>, s2: Seq<usize>)
    requires
        strictly_increasing(s1),
        strictly_increasing(s2),
        forall|x: int|
            #![trigger seq_has(s1, x)]
            #![trigger seq_has(s2, x)]
            seq_has(s1, x) == seq_has(s2, x),
    ensures
        s1 == s2,
    decreases s1.len(),
{
    if s1.len() == 0 {
        if s2.len() > 0 {
            assert(seq_has(s2, s2[0] as int)) by {
                assert(s2[0] as int == s2[0] as int);
            }
            assert(seq_has(s1, s2[0] as int));
            let k = choose|k: int| 0 <= k < s1.len() && (#[trigger] s1[k]) as int == s2[0] as int;
            assert(false);
        }
        assert(s1 =~= s2);
    } else {
        assert(seq_has(s1, s1[0] as int)) by {
            assert(s1[0] as int == s1[0] as int);
        }
        if s2.len() == 0 {
            assert(seq_has(s2, s1[0] as int));
            let k = choose|k: int| 0 <= k < s2.len() && (#[trigger] s2[k]) as int == s1[0] as int;
            assert(false);
        }
        // the heads are the respective minima, and the member sets agree
        assert(seq_has(s2, s2[0] as int)) by {
            assert(s2[0] as int == s2[0] as int);
        }
        let k1 = choose|k: int| 0 <= k < s1.len() && (#[trigger] s1[k]) as int == s2[0] as int;
        let k2 = choose|k: int| 0 <= k < s2.len() && (#[trigger] s2[k]) as int == s1[0] as int;
        assert(s1[0] <= s1[k1]);
        assert(s2[0] <= s2[k2]);
        assert(s1[0] == s2[0]);
        let t1 = s1.subrange(1, s1.len() as int);
        let t2 = s2.subrange(1, s2.len() as int);
        assert forall|x: int| #[trigger] seq_has(t1, x) == (seq_has(s1, x) && x != s1[0] as int) by {
            lemma_tail_members(s1, x);
        }
        assert forall|x: int| #[trigger] seq_has(t2, x) == (seq_has(s2, x) && x != s2[0] as int) by {
            lemma_tail_members(s2, x);
        }
        assert(strictly_increasing(t1));
        assert(strictly_increasing(t2));
        lemma_increasing_unique(t1, t2);
        assert(s1.len() == s2.len());
        assert forall|n: int| 0 <= n < s1.len() implies s1[n] == s2[n] by {
            if n > 0 {
                assert(t1[n - 1] == t2[n - 1]);
                assert(s1[n] == t1[n - 1]);
                assert(s2[n] == t2[n - 1]);
            }
        }
        assert(s1 =~= s2);
    }
}

/// Membership in the tail of a strictly ascending sequence is membership
/// in the whole, other than the head.
proof fn lemma_tail_members(s: Seq<usize>, x: int)
    requires
        strictly_increasing(s),
        s.len() >= 1,
    ensures
        seq_has(s.subrange(1, s.len() as int), x) == (seq_has(s, x) && x != s[0] as int),
{
    let t = s.subrange(1, s.len() as int);
    if seq_has(t, x) {
        let k = choose|k: int| 0 <= k < t.len() && (#[trigger] t[k]) as int == x;
        assert(s[k + 1] as int == x);
        assert(s[0] < s[k + 1]);
        assert(seq_has(s, x));
    }
    if seq_has(s, x) && x != s[0] as int {
        let k = choose|k: int| 0 <= k < s.len() && (#[trigger] s[k]) as int == x;
        assert(k != 0);
        assert(t[k - 1] as int == x);
        assert(seq_has(t, x));
    }
}

/// A unit contains its representative, which is its smallest member.
proof fn lemma_rep_min(g: Seq<Vec<bool>>, u: SCC)
    requires
        unit_wf(g, u),
    ensures
        unit_has(u, unit_rep(u)),
        forall|i: int| #[trigger] unit_has(u, i) ==> unit_rep(u) <= i,
{
    match u {
        SCC::Explicit(_) => {},
        SCC::Implicit(members, _) => {
            assert(seq_has(members@, unit_rep(u))) by {
                assert(members@[0] as int == unit_rep(u));
            }
            assert forall|i: int| #[trigger] unit_has(u, i) implies unit_rep(u) <= i by {
                let a = choose|a: int|
                    0 <= a < members@.len() && (#[trigger] members@[a]) as int == i;
                if a > 0 {
                    assert(members@[0] < members@[a]);
                }
            }
        },
    }
}

/// Well-formed units with the same stages and the same classification are
/// the same value.
proof fn lemma_same_members_like(g: Seq<Vec<bool>>, u1: SCC, u2: SCC)
    requires
        unit_wf(g, u1),
        unit_wf(g, u2),
        same_members(u1, u2),
        (u1 is Implicit) == (u2 is Implicit),
    ensures
        unit_like(u1, u2),
{
    match (u1, u2) {
        (SCC::Explicit(x1), SCC::Explicit(x2)) => {
            assert(unit_has(u1, x1 as int));
            assert(unit_has(u2, x1 as int));
        },
        (SCC::Implicit(m1, r1), SCC::Implicit(m2, r2)) => {
            assert forall|x: int|
                #![trigger seq_has(m1@, x)]
                #![trigger seq_has(m2@, x)]
                seq_has(m1@, x) == seq_has(m2@, x) by {
                assert(unit_has(u1, x) == unit_has(u2, x));
            }
            lemma_increasing_unique(m1@, m2@);
            assert forall|x: int|
                #![trigger seq_has(r1@, x)]
                #![trigger seq_has(r2@, x)]
                seq_has(r1@, x) == seq_has(r2@, x) by {
                assert(seq_has(r1@, x) == (0 <= x < g.len() && !seq_has(m1@, x)));
                assert(seq_has(r2@, x) == (0 <= x < g.len() && !seq_has(m2@, x)));
            }
            lemma_increasing_unique(r1@, r2@);
        },
        _ => {},
    }
}

/// The classification side of [`units_classified`], as a function of a
/// unit's stages alone.
spec fn implicit_shape(g: Seq<Vec<bool>>, u: SCC) -> bool {
    ||| exists|i: int, j: int| i != j && #[trigger] unit_has(u, i) && #[trigger] unit_has(u, j)
    ||| exists|i: int| #[trigger] unit_has(u, i) && g[i]@[i]
}

/// Extends an agreeing prefix of two valid orders by one position.
proof fn lemma_deterministic_from(g: Seq<Vec<bool>>, r1: Seq<SCC>, r2: Seq<SCC>, k: int)
    requires
        valid_computation_order(g, r1),
        valid_computation_order(g, r2),
        0 <= k <= r1.len(),
        k <= r2.len(),
        forall|n: int| 0 <= n < k ==> #[trigger] unit_like(r1[n], r2[n]),
    ensures
        r1.len() == r2.len(),
        forall|n: int| 0 <= n < r1.len() ==> #[trigger] unit_like(r1[n], r2[n]),
    decreases r1.len() - k,
{
    // units of the common prefix hold the same stages
    assert forall|n: int, i: int|
        #![trigger unit_has(r1[n], i)]
        #![trigger unit_has(r2[n], i)]
        0 <= n < k implies unit_has(r1[n], i) == unit_has(r2[n], i) by {
        assert(unit_like(r1[n], r2[n]));
    }
    if k == r1.len() {
        if k < r2.len() {
            lemma_rep_min(g, r2[k]);
            let i = unit_rep(r2[k]);
            assert(unit_has(r2[k], i));
            assert(stage_in_units(r1, i));
            let k3 = choose|k3: int| 0 <= k3 < r1.len() && #[trigger] unit_has(r1[k3], i);
            assert(unit_has(r2[k3], i));
            assert(false);
        }
    } else {
        if k == r2.len() {
            lemma_rep_min(g, r1[k]);
            let i = unit_rep(r1[k]);
            assert(unit_has(r1[k], i));
            assert(stage_in_units(r2, i));
            let k3 = choose|k3: int| 0 <= k3 < r2.len() && #[trigger] unit_has(r2[k3], i);
            assert(unit_has(r1[k3], i));
            assert(false);
        }
        let u1 = r1[k];
        let u2 = r2[k];
        lemma_rep_min(g, u1);
        lemma_rep_min(g, u2);
        let i1 = unit_rep(u1);
        let i2 = unit_rep(u2);
        assert(stage_in_units(r2, i1));
        let k2 = choose|k2: int| 0 <= k2 < r2.len() && #[trigger] unit_has(r2[k2], i1);
        assert(stage_in_units(r1, i2));
        let k1 = choose|k1: int| 0 <= k1 < r1.len() && #[trigger] unit_has(r1[k1], i2);
        // the matching units carry exactly the same stages, both being the
        // strongly connected component of the shared member
        assert forall|j: int|
            #![trigger unit_has(u1, j)]
            #![trigger unit_has(r2[k2], j)]
            unit_has(u1, j) == unit_has(r2[k2], j) by {
            if unit_has(u1, j) {
                assert(in_same_scc(g, i1, j));
                assert(unit_has(r2[k2], j));
            }
            if unit_has(r2[k2], j) {
                assert(unit_has(r2[k2], i1) && unit_has(r2[k2], j));
                assert(in_same_scc(g, i1, j));
                assert(unit_has(u1, i1) && in_same_scc(g, i1, j));
                assert(unit_has(u1, j));
            }
        }
        assert forall|j: int|
            #![trigger unit_has(u2, j)]
            #![trigger unit_has(r1[k1], j)]
            unit_has(u2, j) == unit_has(r1[k1], j) by {
            if unit_has(u2, j) {
                assert(in_same_scc(g, i2, j));
                assert(unit_has(r1[k1], j));
            }
            if unit_has(r1[k1], j) {
                assert(unit_has(r1[k1], i2) && unit_has(r1[k1], j));
                assert(in_same_scc(g, i2, j));
                assert(unit_has(u2, i2) && in_same_scc(g, i2, j));
                assert(unit_has(u2, j));
            }
        }
        if k2 < k {
            assert(unit_has(r1[k2], i1));
            assert(unit_has(u1, i1));
            assert(false);
        }
        if k1 < k {
            assert(unit_has(r2[k1], i2));
            assert(unit_has(u2, i2));
            assert(false);
        }
        if k2 > k {
            // the stages of u1 were ready in r2 at position k, so the unit
            // placed there has a smaller representative
            assert forall|i: int, j: int|
                #[trigger] unit_has(r2[k2], i) && #[trigger] edge(g, i, j)
                    && !unit_has(r2[k2], j)
                implies exists|k4: int| 0 <= k4 < k && #[trigger] unit_has(r2[k4], j) by {
                assert(unit_has(u1, i));
                assert(!unit_has(u1, j));
                assert(0 <= j < g.len());
                assert(stage_in_units(r1, j));
                let k4 = choose|k4: int| 0 <= k4 < r1.len() && #[trigger] unit_has(r1[k4], j);
                assert(k4 != k);
                assert(k4 < k);
                assert(unit_has(r2[k4], j));
            }
            assert(unit_ready_given(g, r2, k, r2[k2]));
            assert(unit_rep(r2[k]) < unit_rep(r2[k2]));
            // representatives agree across equal member sets
            assert(unit_has(r2[k2], i1));
            assert(unit_has(u1, unit_rep(r2[k2])));
            lemma_rep_min(g, r2[k2]);
            assert(unit_rep(r2[k2]) == i1);
            if k1 == k {
                // then u1 and u2 share their stages, yet u1's stages also
                // sit at position k2 of r2: two units of r2 would overlap
                assert(unit_has(u2, i2) == unit_has(r1[k], i2));
                assert(unit_has(u1, i2));
                assert(unit_has(r2[k2], i2));
                assert(unit_has(r2[k], i2));
                assert(false);
            }
            assert(k1 > k);
            assert forall|i: int, j: int|
                #[trigger] unit_has(r1[k1], i) && #[trigger] edge(g, i, j)
                    && !unit_has(r1[k1], j)
                implies exists|k4: int| 0 <= k4 < k && #[trigger] unit_has(r1[k4], j) by {
                assert(unit_has(u2, i));
                assert(!unit_has(u2, j));
                assert(0 <= j < g.len());
                assert(stage_in_units(r2, j));
                let k4 = choose|k4: int| 0 <= k4 < r2.len() && #[trigger] unit_has(r2[k4], j);
                assert(k4 != k);
                assert(k4 < k);
                assert(unit_has(r1[k4], j));
            }
            assert(unit_ready_given(g, r1, k, r1[k1]));
            assert(unit_rep(r1[k]) < unit_rep(r1[k1]));
            assert(unit_has(r1[k1], i2));
            assert(unit_has(u2, unit_rep(r1[k1])));
            lemma_rep_min(g, r1[k1]);
            assert(unit_rep(r1[k1]) == i2);
            assert(false);
        }
        assert(k2 == k);
        // equal stages force equal classification and so equal units
        assert(same_members(u1, u2)) by {
            assert forall|j: int|
                #![trigger unit_has(u1, j)]
                #![trigger unit_has(u2, j)]
                unit_has(u1, j) == unit_has(u2, j) by {
                assert(unit_has(u1, j) == unit_has(r2[k2], j));
            }
        }
        assert((u1 is Implicit) == implicit_shape(g, u1));
        assert((u2 is Implicit) == implicit_shape(g, u2));
        assert(implicit_shape(g, u1) == implicit_shape(g, u2)) by {
            if implicit_shape(g, u1) {
                if exists|i: int, j: int|
                    i != j && #[trigger] unit_has(u1, i) && #[trigger] unit_has(u1, j) {
                    let (i, j) = choose|i: int, j: int|
                        i != j && #[trigger] unit_has(u1, i) && #[trigger] unit_has(u1, j);
                    assert(unit_has(u2, i) && unit_has(u2, j));
                } else {
                    let i = choose|i: int| #[trigger] unit_has(u1, i) && g[i]@[i];
                    assert(unit_has(u2, i));
                }
            }
            if implicit_shape(g, u2) {
                if exists|i: int, j: int|
                    i != j && #[trigger] unit_has(u2, i) && #[trigger] unit_has(u2, j) {
                    let (i, j) = choose|i: int, j: int|
                        i != j && #[trigger] unit_has(u2, i) && #[trigger] unit_has(u2, j);
                    assert(unit_has(u1, i) && unit_has(u1, j));
                } else {
                    let i = choose|i: int| #[trigger] unit_has(u2, i) && g[i]@[i];
                    assert(unit_has(u1, i));
                }
            }
        }
        lemma_same_members_like(g, u1, u2);
        assert(unit_like(r1[k], r2[k]));
        lemma_deterministic_from(g, r1, r2, k + 1);
    }
}

/// Determinism: the contract of the computation order admits one sequence
/// only, so two results for the same matrix are identical, unit by unit.
pub proof fn lemma_order_deterministic(g: Seq<Vec<bool>>, r1: Seq<SCC>, r2: Seq<SCC>)
    requires
        valid_computation_order(g, r1),
        valid_computation_order(g, r2),
    ensures
        r1.len() == r2.len(),
        forall|n: int| 0 <= n < r1.len() ==> #[trigger] unit_like(r1[n], r2[n]),
{
    lemma_deterministic_from(g, r1, r2, 0);
}

} // verus!

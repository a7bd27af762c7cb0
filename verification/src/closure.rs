//! Computes the reachability matrix of a dependency graph: entry `(i, j)`
//! of the result is set exactly when stage `j` is reachable from stage `i`.
//!
//! The matrix is seeded with the identity and the edges and then closed
//! under composition until a fixed point is reached; soundness and
//! completeness against [`crate::model::reachable`] are proved from the
//! fixed point.

use vstd::prelude::*;

verus! {

use crate::model::{edge, is_square, is_walk, reachable, lemma_reachable_refl,
    lemma_edge_reachable, lemma_reachable_trans};

/// Every set entry witnesses reachability.
pub open spec fn mat_sound(g: Seq<Vec<bool>>, r: Seq<Vec<bool>>) -> bool {
    forall|i: int, j: int|
        0 <= i < r.len() && 0 <= j < r[i]@.len() && (#[trigger] r[i]@[j]) ==> reachable(g, i, j)
}

/// The matrix contains the identity and every edge of the graph.
pub open spec fn mat_seeded(g: Seq<Vec<bool>>, r: Seq<Vec<bool>>) -> bool {
    &&& forall|i: int| 0 <= i < g.len() ==> (#[trigger] r[i]@[i])
    &&& forall|i: int, j: int| edge(g, i, j) ==> (#[trigger] r[i]@[j])
}

/// The matrix is transitively closed.
pub open spec fn mat_closed(r: Seq<Vec<bool>>) -> bool {
    forall|i: int, m: int, j: int|
        0 <= i < r.len() && 0 <= m < r.len() && 0 <= j < r.len()
            && (#[trigger] r[i]@[m]) && (#[trigger] r[m]@[j]) ==> r[i]@[j]
}

/// All rows have the length of the graph.
pub open spec fn mat_sized(g: Seq<Vec<bool>>, r: Seq<Vec<bool>>) -> bool {
    &&& r.len() == g.len()
    &&& forall|i: int| 0 <= i < r.len() ==> (#[trigger] r[i])@.len() == g.len()
}

/// Number of set entries in a row.
pub open spec fn row_count(row: Seq<bool>) -> nat
    decreases row.len(),
{
    if row.len() == 0 {
        0
    } else {
        row_count(row.drop_last()) + if row.last() { 1nat } else { 0nat }
    }
}

/// Number of set entries in a matrix.
pub open spec fn mat_count(r: Seq<Vec<bool>>) -> nat
    decreases r.len(),
{
    if r.len() == 0 {
        0
    } else {
        mat_count(r.drop_last()) + row_count(r.last()@)
    }
}

/// Entrywise implication between two rows of equal length.
pub open spec fn row_le(a: Seq<bool>, b: Seq<bool>) -> bool {
    &&& a.len() == b.len()
    &&& forall|j: int| 0 <= j < a.len() && (#[trigger] a[j]) ==> b[j]
}

/// Entrywise implication between two matrices of equal shape.
pub open spec fn mat_le(a: Seq<Vec<bool>>, b: Seq<Vec<bool>>) -> bool {
    &&& a.len() == b.len()
    &&& forall|i: int| 0 <= i < a.len() ==> row_le((#[trigger] a[i])@, b[i]@)
}

pub proof fn lemma_row_count_le(row: Seq<bool>)
    ensures
        row_count(row) <= row.len(),
    decreases row.len(),
{
    if row.len() > 0 {
        lemma_row_count_le(row.drop_last());
    }
}

pub proof fn lemma_row_count_pointwise(a: Seq<bool>, b: Seq<bool>)
    requires
        row_le(a, b),
    ensures
        row_count(a) <= row_count(b),
        (exists|j: int| 0 <= j < a.len() && a[j] != b[j]) ==> row_count(a) < row_count(b),
    decreases a.len(),
{
    if a.len() > 0 {
        assert(row_le(a.drop_last(), b.drop_last()));
        lemma_row_count_pointwise(a.drop_last(), b.drop_last());
        if exists|j: int| 0 <= j < a.len() && a[j] != b[j] {
            let j = choose|j: int| 0 <= j < a.len() && a[j] != b[j];
            if j == a.len() - 1 {
                assert(!a.last() && b.last());
            } else {
                assert(a.drop_last()[j] != b.drop_last()[j]);
            }
        }
    }
}

pub proof fn lemma_mat_count_pointwise(a: Seq<Vec<bool>>, b: Seq<Vec<bool>>)
    requires
        mat_le(a, b),
    ensures
        mat_count(a) <= mat_count(b),
        (exists|i: int, j: int|
            0 <= i < a.len() && 0 <= j < a[i]@.len() && a[i]@[j] != b[i]@[j])
            ==> mat_count(a) < mat_count(b),
    decreases a.len(),
{
    if a.len() > 0 {
        assert(mat_le(a.drop_last(), b.drop_last()));
        lemma_mat_count_pointwise(a.drop_last(), b.drop_last());
        assert(row_le(a.last()@, b.last()@));
        lemma_row_count_pointwise(a.last()@, b.last()@);
        if exists|i: int, j: int|
            0 <= i < a.len() && 0 <= j < a[i]@.len() && a[i]@[j] != b[i]@[j] {
            let (i, j) = choose|i: int, j: int|
                0 <= i < a.len() && 0 <= j < a[i]@.len() && a[i]@[j] != b[i]@[j];
            if i == a.len() - 1 {
                assert(a.last()@[j] != b.last()@[j]);
            } else {
                assert(a.drop_last()[i]@[j] != b.drop_last()[i]@[j]);
            }
        }
    }
}

pub proof fn lemma_mat_count_bound(g: Seq<Vec<bool>>, r: Seq<Vec<bool>>)
    requires
        forall|i: int| 0 <= i < r.len() ==> (#[trigger] r[i])@.len() == g.len(),
    ensures
        mat_count(r) <= r.len() * g.len(),
    decreases r.len(),
{
    if r.len() > 0 {
        lemma_mat_count_bound(g, r.drop_last());
        lemma_row_count_le(r.last()@);
        assert((r.len() - 1) * g.len() + g.len() == r.len() * g.len()) by (nonlinear_arith);
    } else {
        assert(r.len() * g.len() == 0) by (nonlinear_arith)
            requires r.len() == 0;
    }
}

/// A closed, seeded matrix contains every walk's endpoints.
proof fn lemma_walk_in_closed(g: Seq<Vec<bool>>, r: Seq<Vec<bool>>, p: Seq<int>)
    requires
        mat_sized(g, r),
        mat_seeded(g, r),
        mat_closed(r),
        is_walk(g, p),
    ensures
        r[p.first()]@[p.last()],
    decreases p.len(),
{
    if p.len() == 1 {
        assert(r[p.first()]@[p.first()]);
    } else {
        let q = p.drop_last();
        assert(is_walk(g, q));
        lemma_walk_in_closed(g, r, q);
        let m = p[p.len() - 2];
        assert(edge(g, m, p.last()));
        assert(r[m]@[p.last()]);
    }
}

/// A sound, seeded, closed matrix is exactly the reachability relation.
pub proof fn lemma_closure_exact(g: Seq<Vec<bool>>, r: Seq<Vec<bool>>)
    requires
        mat_sized(g, r),
        mat_sound(g, r),
        mat_seeded(g, r),
        mat_closed(r),
    ensures
        forall|i: int, j: int|
            0 <= i < g.len() && 0 <= j < g.len()
                ==> (#[trigger] r[i]@[j]) == reachable(g, i, j),
{
    assert forall|i: int, j: int|
        0 <= i < g.len() && 0 <= j < g.len()
        implies (#[trigger] r[i]@[j]) == reachable(g, i, j) by {
        if reachable(g, i, j) {
            let p = choose|p: Seq<int>| is_walk(g, p) && p.first() == i && p.last() == j;
            lemma_walk_in_closed(g, r, p);
        }
    }
}

/// One entry of the relaxation step: current value, or a two-hop
/// composition through any intermediate stage.
#[verifier::loop_isolation(false)]
fn relax_entry(r: &Vec<Vec<bool>>, i: usize, j: usize, s: usize) -> (b: bool)
    requires
        r@.len() == s,
        forall|n: int| 0 <= n < s ==> (#[trigger] r@[n])@.len() == s,
        i < s,
        j < s,
    ensures
        b == (r@[i as int]@[j as int] || exists|m: int|
            0 <= m < s && (#[trigger] r@[i as int]@[m]) && r@[m]@[j as int]),
{
    if r[i][j] {
        return true;
    }
    let mut m: usize = 0;
    while m < s
        invariant
            m <= s,
            forall|n: int| 0 <= n < m ==> !((#[trigger] r@[i as int]@[n]) && r@[n]@[j as int]),
        decreases s - m,
    {
        if r[i][m] && r[m][j] {
            return true;
        }
        m = m + 1;
    }
    false
}

/// Whether two equally sized matrices differ in any entry.
#[verifier::loop_isolation(false)]
fn mats_differ(a: &Vec<Vec<bool>>, b: &Vec<Vec<bool>>, s: usize) -> (d: bool)
    requires
        a@.len() == s,
        b@.len() == s,
        forall|n: int| 0 <= n < s ==> (#[trigger] a@[n])@.len() == s,
        forall|n: int| 0 <= n < s ==> (#[trigger] b@[n])@.len() == s,
    ensures
        d == exists|i: int, j: int|
            0 <= i < s && 0 <= j < s && (#[trigger] a@[i]@[j]) != b@[i]@[j],
{
    let mut i: usize = 0;
    while i < s
        invariant
            i <= s,
            forall|n: int, m: int|
                0 <= n < i && 0 <= m < s ==> (#[trigger] a@[n]@[m]) == b@[n]@[m],
        decreases s - i,
    {
        let mut j: usize = 0;
        while j < s
            invariant
                i < s,
                j <= s,
                forall|m: int| 0 <= m < j ==> (#[trigger] a@[i as int]@[m]) == b@[i as int]@[m],
            decreases s - j,
        {
            if a[i][j] != b[i][j] {
                return true;
            }
            j = j + 1;
        }
        i = i + 1;
    }
    false
}

/// One full relaxation pass: each entry becomes the old entry or a two-hop
/// composition.
#[verifier::loop_isolation(false)]
fn relax_pass(r: &Vec<Vec<bool>>, s: usize) -> (out: Vec<Vec<bool>>)
    requires
        r@.len() == s,
        forall|n: int| 0 <= n < s ==> (#[trigger] r@[n])@.len() == s,
    ensures
        out@.len() == s,
        forall|n: int| 0 <= n < s ==> (#[trigger] out@[n])@.len() == s,
        forall|i: int, j: int|
            0 <= i < s && 0 <= j < s
                ==> (#[trigger] out@[i]@[j]) == (r@[i]@[j] || exists|m: int|
                    0 <= m < s && (#[trigger] r@[i]@[m]) && r@[m]@[j]),
{
    let mut out: Vec<Vec<bool>> = Vec::new();
    let mut i: usize = 0;
    while i < s
        invariant
            i <= s,
            out@.len() == i,
            forall|n: int| 0 <= n < i ==> (#[trigger] out@[n])@.len() == s,
            forall|a: int, b: int|
                0 <= a < i && 0 <= b < s
                    ==> (#[trigger] out@[a]@[b]) == (r@[a]@[b] || exists|m: int|
                        0 <= m < s && (#[trigger] r@[a]@[m]) && r@[m]@[b]),
        decreases s - i,
    {
        let mut row: Vec<bool> = Vec::new();
        let mut j: usize = 0;
        while j < s
            invariant
                i < s,
                j <= s,
                row@.len() == j,
                forall|b: int|
                    0 <= b < j
                        ==> (#[trigger] row@[b]) == (r@[i as int]@[b] || exists|m: int|
                            0 <= m < s && (#[trigger] r@[i as int]@[m]) && r@[m]@[b]),
            decreases s - j,
        {
            let v = relax_entry(r, i, j, s);
            row.push(v);
            j = j + 1;
        }
        out.push(row);
        i = i + 1;
    }
    out
}

/// Computes the full reachability matrix of the graph.
#[verifier::loop_isolation(false)]
pub fn reach_closure(g: &Vec<Vec<bool>>) -> (r: Vec<Vec<bool>>)
    requires
        is_square(g@),
    ensures
        mat_sized(g@, r@),
        forall|i: int, j: int|
            0 <= i < g@.len() && 0 <= j < g@.len()
                ==> (#[trigger] r@[i]@[j]) == reachable(g@, i, j),
{
    let s = g.len();
    let mut r: Vec<Vec<bool>> = Vec::new();
    let mut i: usize = 0;
    while i < s
        invariant
            i <= s,
            r@.len() == i,
            forall|n: int| 0 <= n < i ==> (#[trigger] r@[n])@.len() == s,
            forall|a: int, b: int|
                0 <= a < i && 0 <= b < s
                    ==> (#[trigger] r@[a]@[b]) == (a == b || g@[a]@[b]),
        decreases s - i,
    {
        let mut row: Vec<bool> = Vec::new();
        let mut j: usize = 0;
        while j < s
            invariant
                i < s,
                j <= s,
                row@.len() == j,
                forall|b: int|
                    0 <= b < j ==> (#[trigger] row@[b]) == (i as int == b || g@[i as int]@[b]),
            decreases s - j,
        {
            row.push(i == j || g[i][j]);
            j = j + 1;
        }
        r.push(row);
        i = i + 1;
    }
    proof {
        assert forall|a: int, b: int|
            0 <= a < r@.len() && 0 <= b < r@[a]@.len() && (#[trigger] r@[a]@[b])
            implies reachable(g@, a, b) by {
            if a == b {
                lemma_reachable_refl(g@, a);
            } else {
                lemma_edge_reachable(g@, a, b);
            }
        }
        assert(mat_sound(g@, r@));
        assert(mat_seeded(g@, r@));
    }
    let mut changed = true;
    while changed
        invariant
            mat_sized(g@, r@),
            mat_sound(g@, r@),
            mat_seeded(g@, r@),
            !changed ==> mat_closed(r@),
        decreases
            s * s - mat_count(r@) + if changed { 1int } else { 0int },
    {
        let ghost old_r = r@;
        proof {
            lemma_mat_count_bound(g@, r@);
        }
        let r2 = relax_pass(&r, s);
        let ch = mats_differ(&r, &r2, s);
        proof {
            // soundness of the relaxed matrix
            assert forall|a: int, b: int|
                0 <= a < r2@.len() && 0 <= b < r2@[a]@.len() && (#[trigger] r2@[a]@[b])
                implies reachable(g@, a, b) by {
                if !old_r[a]@[b] {
                    let m = choose|m: int| 0 <= m < s && (#[trigger] old_r[a]@[m]) && old_r[m]@[b];
                    lemma_reachable_trans(g@, a, m, b);
                }
            }
            assert(mat_le(old_r, r2@));
            lemma_mat_count_pointwise(old_r, r2@);
            lemma_mat_count_bound(g@, r2@);
            if ch {
                let (a, b) = choose|a: int, b: int|
                    0 <= a < s && 0 <= b < s && (#[trigger] old_r[a]@[b]) != r2@[a]@[b];
                assert(old_r[a]@.len() == s);
                assert(mat_count(old_r) < mat_count(r2@));
            } else {
                assert(mat_le(r2@, old_r));
                lemma_mat_count_pointwise(r2@, old_r);
                assert forall|a: int, m: int, b: int|
                    0 <= a < r2@.len() && 0 <= m < r2@.len() && 0 <= b < r2@.len()
                        && (#[trigger] r2@[a]@[m]) && (#[trigger] r2@[m]@[b])
                    implies r2@[a]@[b] by {
                    assert(old_r[a]@[m] && old_r[m]@[b]);
                    assert(r2@[a]@[b] == (old_r[a]@[b] || exists|m2: int|
                        0 <= m2 < s && (#[trigger] old_r[a]@[m2]) && old_r[m2]@[b]));
                }
                assert(mat_closed(r2@));
            }
        }
        r = r2;
        changed = ch;
    }
    proof {
        lemma_closure_exact(g@, r@);
    }
    r
}

} // verus!

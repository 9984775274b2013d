use vstd::prelude::*;

verus! {

/// An outlives constraint `(r1, r2, point)`: what `r1` may point to, `r2` may point to as well.
pub type OutlivesConstraint = (usize, usize, usize);

/// The synthetic root region, which outlives every other region.
pub const ROOT_REGION: usize = 0;

/// Some edge of `edges` goes from `a` to `b`.
pub open spec fn has_edge(edges: Seq<(usize, usize)>, a: int, b: int) -> bool {
    exists|e: int| 0 <= e < edges.len() && edges[e].0 == a && edges[e].1 == b
}

/// `path` is a non-empty walk along `edges`.
pub open spec fn is_path(edges: Seq<(usize, usize)>, path: Seq<int>) -> bool {
    &&& path.len() >= 1
    &&& forall|i: int| 0 <= i < path.len() - 1 ==> #[trigger] has_edge(edges, path[i], path[i + 1])
}

/// `b` is reached from `a` along `edges` (every node reaches itself).
pub open spec fn reaches(edges: Seq<(usize, usize)>, a: int, b: int) -> bool {
    exists|path: Seq<int>| is_path(edges, path) && path[0] == a && #[trigger] path.last() == b
}

/// A walk to `edges[e].0` followed by edge `e` is a walk to `edges[e].1`.
pub proof fn lemma_reaches_step(edges: Seq<(usize, usize)>, a: int, e: int)
    requires
        0 <= e < edges.len(),
        reaches(edges, a, edges[e].0 as int),
    ensures
        reaches(edges, a, edges[e].1 as int),
{
    let path = choose|path: Seq<int>| is_path(edges, path) && path[0] == a && #[trigger] path.last() == edges[e].0 as int;
    let walk = path.push(edges[e].1 as int);
    assert forall|i: int| 0 <= i < walk.len() - 1 implies #[trigger] has_edge(edges, walk[i], walk[i + 1]) by {
        if i < path.len() - 1 {
            assert(walk[i] == path[i] && walk[i + 1] == path[i + 1]);
        } else {
            assert(walk[i] == edges[e].0 && walk[i + 1] == edges[e].1);
        }
    }
    assert(walk.last() == edges[e].1 as int);
}

/// Every node reaches itself.
pub proof fn lemma_reaches_self(edges: Seq<(usize, usize)>, a: int)
    ensures
        reaches(edges, a, a),
{
    let path = seq![a];
    assert(path.last() == a);
}

/// The edges of the region graph: one per constraint, and one from the root
/// to every other region below `num_regions`.
pub open spec fn is_region_edge(cs: Seq<OutlivesConstraint>, num_regions: int, a: int, b: int) -> bool {
    (exists|k: int| 0 <= k < cs.len() && cs[k].0 == a && cs[k].1 == b)
    || (a == ROOT_REGION && 0 < b < num_regions)
}

pub open spec fn count_false(s: Seq<bool>) -> nat
    decreases s.len(),
{
    if s.len() == 0 {
        0
    } else {
        count_false(s.drop_last()) + if s.last() { 0nat } else { 1nat }
    }
}

pub open spec fn total_false(m: Seq<Vec<bool>>) -> nat
    decreases m.len(),
{
    if m.len() == 0 {
        0
    } else {
        total_false(m.drop_last()) + count_false(m.last()@)
    }
}

proof fn lemma_count_false_set(s: Seq<bool>, i: int)
    requires
        0 <= i < s.len(),
        !s[i],
    ensures
        count_false(s.update(i, true)) + 1 == count_false(s),
    decreases s.len(),
{
    if i == s.len() - 1 {
        assert(s.update(i, true).drop_last() =~= s.drop_last());
    } else {
        lemma_count_false_set(s.drop_last(), i);
        assert(s.update(i, true).drop_last() =~= s.drop_last().update(i, true));
    }
}

proof fn lemma_total_false_set(m: Seq<Vec<bool>>, r: int, row: Vec<bool>, i: int)
    requires
        0 <= r < m.len(),
        0 <= i < m[r]@.len(),
        !m[r]@[i],
        row@ == m[r]@.update(i, true),
    ensures
        total_false(m.update(r, row)) + 1 == total_false(m),
    decreases m.len(),
{
    lemma_count_false_set(m[r]@, i);
    if r == m.len() - 1 {
        assert(m.update(r, row).drop_last() =~= m.drop_last());
    } else {
        lemma_total_false_set(m.drop_last(), r, row, i);
        assert(m.update(r, row).drop_last() =~= m.drop_last().update(r, row));
    }
}

/// The edges of the region graph for `constraints` over regions below `num_regions`.
pub fn region_edges(constraints: &Vec<OutlivesConstraint>, num_regions: usize) -> (r: Vec<(usize, usize)>)
    requires
        forall|k: int| 0 <= k < constraints@.len()
            ==> (#[trigger] constraints@[k]).0 < num_regions && constraints@[k].1 < num_regions,
    ensures
        forall|e: int| 0 <= e < r@.len()
            ==> is_region_edge(constraints@, num_regions as int, (#[trigger] r@[e]).0 as int, r@[e].1 as int),
        forall|a: int, b: int| is_region_edge(constraints@, num_regions as int, a, b)
            ==> exists|e: int| 0 <= e < r@.len() && (#[trigger] r@[e]).0 == a && r@[e].1 == b,
        forall|e: int| 0 <= e < r@.len() ==> (#[trigger] r@[e]).0 < num_regions && r@[e].1 < num_regions,
{
    let mut edges: Vec<(usize, usize)> = Vec::new();
    let mut k: usize = 0;
    while k < constraints.len()
        invariant
            k <= constraints@.len(),
            forall|j: int| 0 <= j < constraints@.len()
                ==> (#[trigger] constraints@[j]).0 < num_regions && constraints@[j].1 < num_regions,
            edges@.len() == k,
            forall|j: int| 0 <= j < k ==> edges@[j] == (constraints@[j].0, constraints@[j].1),
        decreases constraints@.len() - k,
    {
        let c = constraints[k];
        edges.push((c.0, c.1));
        k = k + 1;
    }
    let ghost n_cs = edges@.len();
    let mut b: usize = 1;
    while b < num_regions
        invariant
            1 <= b,
            b <= num_regions || b == 1,
            n_cs == constraints@.len(),
            edges@.len() == n_cs + (b - 1),
            forall|j: int| 0 <= j < constraints@.len()
                ==> (#[trigger] constraints@[j]).0 < num_regions && constraints@[j].1 < num_regions,
            forall|j: int| 0 <= j < n_cs ==> edges@[j] == (constraints@[j].0, constraints@[j].1),
            forall|j: int| n_cs <= j < edges@.len() ==> (#[trigger] edges@[j]) == (ROOT_REGION, (j - n_cs + 1) as usize),
        decreases num_regions - b,
    {
        edges.push((ROOT_REGION, b));
        b = b + 1;
    }
    assert forall|e: int| 0 <= e < edges@.len() implies (#[trigger] edges@[e]).0 < num_regions && edges@[e].1 < num_regions
        && is_region_edge(constraints@, num_regions as int, edges@[e].0 as int, edges@[e].1 as int) by {
        if e < n_cs {
            assert(edges@[e] == (constraints@[e].0, constraints@[e].1));
            assert(0 <= e < constraints@.len() && constraints@[e].0 == edges@[e].0 && constraints@[e].1 == edges@[e].1);
        } else {
            assert(edges@[e] == (ROOT_REGION, (e - n_cs + 1) as usize));
            assert(b >= 2);
            assert(b <= num_regions);
            assert(0 < e - n_cs + 1 < num_regions);
        }
    }
    assert forall|a: int, b: int| is_region_edge(constraints@, num_regions as int, a, b)
        implies exists|e: int| 0 <= e < edges@.len() && (#[trigger] edges@[e]).0 == a && edges@[e].1 == b by {
        if exists|k2: int| 0 <= k2 < constraints@.len() && constraints@[k2].0 == a && constraints@[k2].1 == b {
            let k2 = choose|k2: int| 0 <= k2 < constraints@.len() && constraints@[k2].0 == a && constraints@[k2].1 == b;
            assert(edges@[k2].0 == a && edges@[k2].1 == b);
        } else {
            let j = n_cs + b - 1;
            assert(edges@[j] == (ROOT_REGION, b as usize));
        }
    }
    edges
}

/// Every row of `m` has length `n`.
pub open spec fn rows_len(m: Seq<Vec<bool>>, n: int) -> bool {
    forall|r: int| 0 <= r < m.len() ==> (#[trigger] m[r])@.len() == n
}

/// Every edge lies between rows of `m`.
pub open spec fn edges_within(edges: Seq<(usize, usize)>, rows: int) -> bool {
    forall|e: int| 0 <= e < edges.len() ==> (#[trigger] edges[e]).0 < rows && edges[e].1 < rows
}

/// What row `a` holds, row `b` holds too, for every edge `(a, b)`.
pub open spec fn closed_under(m: Seq<Vec<bool>>, edges: Seq<(usize, usize)>) -> bool {
    forall|e: int, l: int|
        0 <= e < edges.len() && 0 <= l < m[edges[e].0 as int]@.len() && (#[trigger] m[edges[e].0 as int]@[l])
            ==> #[trigger] m[edges[e].1 as int]@[l]
}

/// Entry `l` of row `r` comes from a seed row that reaches `r`.
pub open spec fn derived_from(seeds: Seq<Vec<bool>>, edges: Seq<(usize, usize)>, r: int, l: int) -> bool {
    exists|r0: int| 0 <= r0 < seeds.len() && #[trigger] seeds[r0]@[l] && reaches(edges, r0, r)
}

/// Row-wise inclusion of `m1` in `m2`.
pub open spec fn included(m1: Seq<Vec<bool>>, m2: Seq<Vec<bool>>) -> bool {
    forall|r: int, l: int| 0 <= r < m1.len() && 0 <= l < m1[r]@.len() && #[trigger] m1[r]@[l] ==> #[trigger] m2[r]@[l]
}

/// Grows each row of `loans` by the rows of the regions that reach it, until no row changes.
pub fn propagate_loans(loans: &mut Vec<Vec<bool>>, edges: &Vec<(usize, usize)>, n: usize)
    requires
        rows_len(old(loans)@, n as int),
        edges_within(edges@, old(loans)@.len() as int),
    ensures
        final(loans)@.len() == old(loans)@.len(),
        rows_len(final(loans)@, n as int),
        included(old(loans)@, final(loans)@),
        closed_under(final(loans)@, edges@),
        forall|r: int, l: int| 0 <= r < final(loans)@.len() && 0 <= l < n && #[trigger] final(loans)@[r]@[l]
            ==> derived_from(old(loans)@, edges@, r, l),
{
    let ghost seeds = loans@;
    let mut done = false;
    proof {
        assert forall|r: int, l: int| 0 <= r < loans@.len() && 0 <= l < n && #[trigger] loans@[r]@[l]
            implies derived_from(seeds, edges@, r, l) by {
            lemma_reaches_self(edges@, r);
        }
    }
    while !done
        invariant
            loans@.len() == seeds.len(),
            rows_len(loans@, n as int),
            rows_len(seeds, n as int),
            edges_within(edges@, seeds.len() as int),
            included(seeds, loans@),
            forall|r: int, l: int| 0 <= r < loans@.len() && 0 <= l < n && #[trigger] loans@[r]@[l]
                ==> derived_from(seeds, edges@, r, l),
            done ==> closed_under(loans@, edges@),
        decreases total_false(loans@) + if done { 0nat } else { 1nat },
    {
        let ghost start = loans@;
        let mut changed = false;
        let mut e: usize = 0;
        while e < edges.len()
            invariant
                e <= edges@.len(),
                loans@.len() == seeds.len(),
                rows_len(loans@, n as int),
                rows_len(seeds, n as int),
                edges_within(edges@, seeds.len() as int),
                included(seeds, loans@),
                forall|r: int, l: int| 0 <= r < loans@.len() && 0 <= l < n && #[trigger] loans@[r]@[l]
                    ==> derived_from(seeds, edges@, r, l),
                !changed ==> loans@ == start,
                changed ==> total_false(loans@) < total_false(start),
                !changed ==> forall|e2: int, l: int|
                    0 <= e2 < e && 0 <= l < n && (#[trigger] start[edges@[e2].0 as int]@[l])
                        ==> #[trigger] start[edges@[e2].1 as int]@[l],
            decreases edges@.len() - e,
        {
            let a = edges[e].0;
            let b = edges[e].1;
            let mut l: usize = 0;
            while l < n
                invariant
                    l <= n,
                    e < edges@.len(),
                    a == edges@[e as int].0,
                    b == edges@[e as int].1,
                    loans@.len() == seeds.len(),
                    rows_len(loans@, n as int),
                    rows_len(seeds, n as int),
                    edges_within(edges@, seeds.len() as int),
                    included(seeds, loans@),
                    forall|r: int, l2: int| 0 <= r < loans@.len() && 0 <= l2 < n && #[trigger] loans@[r]@[l2]
                        ==> derived_from(seeds, edges@, r, l2),
                    !changed ==> loans@ == start,
                    changed ==> total_false(loans@) < total_false(start),
                    !changed ==> forall|e2: int, l2: int|
                        0 <= e2 < e && 0 <= l2 < n && (#[trigger] start[edges@[e2].0 as int]@[l2])
                            ==> #[trigger] start[edges@[e2].1 as int]@[l2],
                    !changed ==> forall|l2: int| 0 <= l2 < l && start[a as int]@[l2] ==> start[b as int]@[l2],
                decreases n - l,
            {
                if loans[a][l] && !loans[b][l] {
                    let ghost prev = loans@;
                    loans[b].set(l, true);
                    proof {
                        lemma_total_false_set(prev, b as int, loans@[b as int], l as int);
                        assert(loans@ == prev.update(b as int, loans@[b as int]));
                        assert forall|r: int, l2: int| 0 <= r < loans@.len() && 0 <= l2 < n && #[trigger] loans@[r]@[l2]
                            implies derived_from(seeds, edges@, r, l2) by {
                            if r == b && l2 == l {
                                assert(prev[a as int]@[l2]);
                                assert(derived_from(seeds, edges@, a as int, l2));
                                let r0 = choose|r0: int| 0 <= r0 < seeds.len() && #[trigger] seeds[r0]@[l2]
                                    && reaches(edges@, r0, a as int);
                                lemma_reaches_step(edges@, r0, e as int);
                            } else {
                                assert(prev[r]@[l2]);
                            }
                        }
                        assert forall|r: int, l2: int| 0 <= r < seeds.len() && 0 <= l2 < seeds[r]@.len() && #[trigger] seeds[r]@[l2]
                            implies #[trigger] loans@[r]@[l2] by {
                            assert(prev[r]@[l2]);
                        }
                    }
                    changed = true;
                }
                l = l + 1;
            }
            proof {
                if !changed {
                    assert forall|e2: int, l2: int|
                        0 <= e2 < e + 1 && 0 <= l2 < n && (#[trigger] start[edges@[e2].0 as int]@[l2])
                            implies #[trigger] start[edges@[e2].1 as int]@[l2] by {
                        if e2 == e {
                            assert(start[a as int]@[l2]);
                        }
                    }
                }
            }
            e = e + 1;
        }
        if !changed {
            done = true;
        }
    }
}

proof fn lemma_closed_along_path(m: Seq<Vec<bool>>, edges: Seq<(usize, usize)>, n: int, path: Seq<int>, l: int)
    requires
        closed_under(m, edges),
        rows_len(m, n),
        edges_within(edges, m.len() as int),
        is_path(edges, path),
        0 <= path[0] < m.len(),
        0 <= l < n,
        m[path[0]]@[l],
    ensures
        m[path.last()]@[l],
    decreases path.len(),
{
    if path.len() > 1 {
        let p = path.drop_last();
        assert forall|i: int| 0 <= i < p.len() - 1 implies #[trigger] has_edge(edges, p[i], p[i + 1]) by {
            assert(has_edge(edges, path[i], path[i + 1]));
        }
        lemma_closed_along_path(m, edges, n, p, l);
        let last = path.len() - 2;
        assert(has_edge(edges, path[last], path[last + 1]));
        let e = choose|e: int| 0 <= e < edges.len() && edges[e].0 == path[last] && edges[e].1 == path[last + 1];
        assert(edges[e].0 < m.len());
        assert(m[edges[e].0 as int]@[l]);
    }
}

/// Once rows are closed under the edges, a row holds everything that any row
/// reaching it holds.
pub proof fn lemma_loans_follow_reach(m: Seq<Vec<bool>>, edges: Seq<(usize, usize)>, n: int, a: int, b: int)
    requires
        closed_under(m, edges),
        rows_len(m, n),
        edges_within(edges, m.len() as int),
        0 <= a < m.len(),
        reaches(edges, a, b),
    ensures
        forall|l: int| 0 <= l < n && #[trigger] m[a]@[l] ==> m[b]@[l],
{
    let path = choose|path: Seq<int>| is_path(edges, path) && path[0] == a && #[trigger] path.last() == b;
    assert forall|l: int| 0 <= l < n && #[trigger] m[a]@[l] implies m[b]@[l] by {
        lemma_closed_along_path(m, edges, n, path, l);
    }
}

} // verus!

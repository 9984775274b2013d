use vstd::prelude::*;
use crate::aliases::{Aliases, Conflicts};
use crate::place::{extends, lemma_no_deref, strictly_extends, ProjectionElem};
use crate::regions::{has_edge, lemma_loans_follow_reach, lemma_reaches_self, lemma_reaches_step, reaches};

verus! {

/// After propagation, a region holds every loan of every region that reaches it
/// in the region graph (in particular every region of its own component).
pub proof fn lemma_loans_monotone(al: &Aliases, a: int, b: int)
    requires
        al.wf(),
        0 <= a < al.loans@.len(),
        reaches(al.region_graph@, a, b),
    ensures
        forall|l: int| 0 <= l < al.n() && #[trigger] al.loans@[a]@[l] ==> al.loans@[b]@[l],
{
    lemma_loans_follow_reach(al.loans@, al.region_graph@, al.n(), a, b);
}

/// Regions that reach each other in the region graph (one component, such as
/// a cycle of outlives constraints) hold the same loans.
pub proof fn lemma_component_loans_equal(al: &Aliases, a: int, b: int)
    requires
        al.wf(),
        0 <= a < al.loans@.len(),
        0 <= b < al.loans@.len(),
        reaches(al.region_graph@, a, b),
        reaches(al.region_graph@, b, a),
    ensures
        forall|l: int| 0 <= l < al.n() ==> al.loans@[a]@[l] == al.loans@[b]@[l],
{
    lemma_loans_monotone(al, a, b);
    lemma_loans_monotone(al, b, a);
}

proof fn lemma_edge_path(edges: Seq<(usize, usize)>, a: int, b: int, c: int)
    requires
        reaches(edges, a, b),
        has_edge(edges, b, c),
    ensures
        reaches(edges, a, c),
{
    let e = choose|e: int| 0 <= e < edges.len() && edges[e].0 == b && edges[e].1 == c;
    lemma_reaches_step(edges, a, e);
}

/// Three regions joined in a cycle of outlives edges hold the same loans.
pub proof fn lemma_cycle_loans_equal(al: &Aliases, r1: int, r2: int, r3: int)
    requires
        al.wf(),
        0 <= r1 < al.loans@.len(),
        0 <= r2 < al.loans@.len(),
        0 <= r3 < al.loans@.len(),
        has_edge(al.region_graph@, r1, r2),
        has_edge(al.region_graph@, r2, r3),
        has_edge(al.region_graph@, r3, r1),
    ensures
        forall|l: int| 0 <= l < al.n() ==> al.loans@[r1]@[l] == al.loans@[r2]@[l],
        forall|l: int| 0 <= l < al.n() ==> al.loans@[r2]@[l] == al.loans@[r3]@[l],
{
    let g = al.region_graph@;
    lemma_reaches_self(g, r1);
    lemma_edge_path(g, r1, r1, r2);
    lemma_reaches_self(g, r2);
    lemma_edge_path(g, r2, r2, r3);
    lemma_edge_path(g, r2, r3, r1);
    lemma_reaches_self(g, r3);
    lemma_edge_path(g, r3, r3, r1);
    lemma_edge_path(g, r3, r1, r2);
    lemma_component_loans_equal(al, r1, r2);
    lemma_component_loans_equal(al, r2, r3);
}

/// Two alias sets of one place in one engine are the same set.
pub proof fn lemma_aliases_idempotent(al: &Aliases, i: int, s1: Seq<bool>, s2: Seq<bool>)
    requires
        s1.len() == al.n(),
        s2.len() == al.n(),
        forall|j: int| 0 <= j < al.n() ==> (#[trigger] s1[j] <==> al.is_alias(i, j)),
        forall|j: int| 0 <= j < al.n() ==> (#[trigger] s2[j] <==> al.is_alias(i, j)),
    ensures
        s1 == s2,
{
    assert(s1 =~= s2);
}

/// Conflict records of one place, taken from engines that differ at most in
/// their caches (as before and after a query), are identical.
pub proof fn lemma_conflicts_idempotent(a1: &Aliases, a2: &Aliases, i: int, c1: &Conflicts, c2: &Conflicts)
    requires
        a2.same_state(a1),
        a1.conflicts_of(i, *c1),
        a2.conflicts_of(i, *c2),
    ensures
        c1.subs@ == c2.subs@,
        c1.supers@ == c2.supers@,
        c1.single_pointee == c2.single_pointee,
{
    crate::aliases::lemma_same_state_overlap(*a1, *a2, i);
    assert(c1.subs@ =~= c2.subs@);
    assert(c1.supers@ =~= c2.supers@);
}

/// A place without dereference denotes itself alone.
pub proof fn lemma_aliases_reflexive(al: &Aliases, i: int)
    requires
        al.wf(),
        0 <= i < al.n(),
        forall|k: int| 0 <= k < al.place(i).proj.len() ==> al.place(i).proj[k] != ProjectionElem::Deref,
    ensures
        forall|j: int| 0 <= j < al.n() ==> (al.is_alias(i, j) <==> j == i),
{
    lemma_no_deref(al.place(i).proj);
}

/// Every place in `subs` lies inside some alias, every place in `supers`
/// strictly contains some alias, and, when no alias lies strictly inside
/// another, no place is in both.
pub proof fn lemma_conflict_partition(al: &Aliases, i: int, c: &Conflicts)
    requires
        al.wf(),
        0 <= i < al.n(),
        al.conflicts_of(i, *c),
    ensures
        forall|j: int| 0 <= j < al.n() && #[trigger] c.subs@[j] ==> exists|a: int|
            0 <= a < al.n() && al.is_alias(i, a) && extends(al.place(j), #[trigger] al.place(a)),
        forall|j: int| 0 <= j < al.n() && #[trigger] c.supers@[j] ==> exists|a: int|
            0 <= a < al.n() && al.is_alias(i, a) && strictly_extends(#[trigger] al.place(a), al.place(j)),
        (forall|a: int, b: int| 0 <= a < al.n() && 0 <= b < al.n() && #[trigger] al.is_alias(i, a) && #[trigger] al.is_alias(i, b)
            ==> !strictly_extends(al.place(a), al.place(b)))
            ==> forall|j: int| 0 <= j < al.n() ==> !(#[trigger] c.subs@[j] && c.supers@[j]),
{
    assert forall|j: int| 0 <= j < al.n() && #[trigger] c.subs@[j] implies exists|a: int|
        0 <= a < al.n() && al.is_alias(i, a) && extends(al.place(j), #[trigger] al.place(a)) by {
        assert(al.is_sub(i, j));
    }
    assert forall|j: int| 0 <= j < al.n() && #[trigger] c.supers@[j] implies exists|a: int|
        0 <= a < al.n() && al.is_alias(i, a) && strictly_extends(#[trigger] al.place(a), al.place(j)) by {
        assert(al.is_super(i, j));
    }
    if forall|a: int, b: int| 0 <= a < al.n() && 0 <= b < al.n() && #[trigger] al.is_alias(i, a) && #[trigger] al.is_alias(i, b)
        ==> !strictly_extends(al.place(a), al.place(b)) {
        assert forall|j: int| 0 <= j < al.n() implies !(#[trigger] c.subs@[j] && c.supers@[j]) by {
            if c.subs@[j] && c.supers@[j] {
                assert(al.is_sub(i, j) && al.is_super(i, j));
                let a = choose|a: int| 0 <= a < al.n() && #[trigger] al.is_alias(i, a) && extends(al.place(j), al.place(a));
                let b = choose|b: int| 0 <= b < al.n() && #[trigger] al.is_alias(i, b) && strictly_extends(al.place(b), al.place(j));
                let (pa, pj, pb) = (al.place(a), al.place(j), al.place(b));
                assert forall|k: int| 0 <= k < pa.proj.len() implies pa.proj[k] == pb.proj[k] by {
                    assert(pa.proj[k] == pj.proj[k]);
                }
                assert(strictly_extends(pb, pa));
            }
        }
    }
}

} // verus!

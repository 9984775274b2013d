use vstd::prelude::*;
use crate::body::{Body, Rvalue, Statement};
use crate::domain::{first_occurrences, in_list, views, PlaceDomain};
use crate::place::{append_path, extends, ProjectionElem, last_deref, lemma_last_deref_bounds, deref_count, strictly_extends, PlaceView};
use crate::regions::{
    closed_under, edges_within, has_edge, is_region_edge, lemma_loans_follow_reach, propagate_loans, reaches,
    region_edges, rows_len, OutlivesConstraint,
};

verus! {

/// How a place overlaps the places it may denote: the places inside them
/// (`subs`, the denoted places included), the places that contain them
/// (`supers`), and whether one place is denoted at each level of indirection.
#[derive(Debug)]
pub struct Conflicts {
    pub subs: Vec<bool>,
    pub supers: Vec<bool>,
    pub single_pointee: bool,
}

/// The alias engine of one function body.
#[derive(Debug)]
pub struct Aliases {
    /// For each region, the set of places (by index) it may point to.
    pub loans: Vec<Vec<bool>>,
    /// For each place that holds a tracked pointer, the pointer's region.
    pub regions: Vec<Option<usize>>,
    /// The edges of the region graph along which loans flow.
    pub region_graph: Vec<(usize, usize)>,
    /// Pairs `(local, region)`: the region may point into that local.
    pub loan_locals: Vec<(usize, usize)>,
    /// Conflicts already computed, by place index.
    pub loan_cache: Vec<Option<Conflicts>>,
    pub place_domain: PlaceDomain,
}

/// A set of `n` places with none in it.
pub fn empty_set(n: usize) -> (r: Vec<bool>)
    ensures
        r@.len() == n,
        forall|j: int| 0 <= j < n ==> !r@[j],
{
    let mut r: Vec<bool> = Vec::new();
    let mut k: usize = 0;
    while k < n
        invariant
            k <= n,
            r@.len() == k,
            forall|j: int| 0 <= j < k ==> !r@[j],
        decreases n - k,
    {
        r.push(false);
        k = k + 1;
    }
    r
}

pub fn copy_set(s: &Vec<bool>) -> (r: Vec<bool>)
    ensures
        r@ == s@,
{
    let mut r: Vec<bool> = Vec::new();
    let mut k: usize = 0;
    while k < s.len()
        invariant
            k <= s@.len(),
            r@ == s@.subrange(0, k as int),
        decreases s@.len() - k,
    {
        r.push(s[k]);
        k = k + 1;
        assert(r@ =~= s@.subrange(0, k as int));
    }
    assert(r@ =~= s@);
    r
}

impl Conflicts {
    pub fn copy(&self) -> (r: Conflicts)
        ensures
            r.subs@ == self.subs@,
            r.supers@ == self.supers@,
            r.single_pointee == self.single_pointee,
    {
        Conflicts { subs: copy_set(&self.subs), supers: copy_set(&self.supers), single_pointee: self.single_pointee }
    }

    /// The indices in `subs`, in order, then those in `supers`, in order.
    pub fn iter(&self) -> (r: Vec<usize>)
        ensures
            r@ == indices_of(self.subs@) + indices_of(self.supers@),
    {
        let mut r = indices(&self.subs);
        let tail = indices(&self.supers);
        let mut k: usize = 0;
        let ghost head = r@;
        while k < tail.len()
            invariant
                k <= tail@.len(),
                r@ == head + tail@.subrange(0, k as int),
            decreases tail@.len() - k,
        {
            r.push(tail[k]);
            k = k + 1;
            assert(r@ =~= head + tail@.subrange(0, k as int));
        }
        assert(tail@.subrange(0, k as int) =~= tail@);
        r
    }
}

/// The positions of `s` that hold `true`, in increasing order.
pub open spec fn indices_of(s: Seq<bool>) -> Seq<usize>
    decreases s.len(),
{
    if s.len() == 0 {
        Seq::empty()
    } else if s.last() {
        indices_of(s.drop_last()).push((s.len() - 1) as usize)
    } else {
        indices_of(s.drop_last())
    }
}

/// The positions of `s` that hold `true`, in increasing order.
pub fn indices(s: &Vec<bool>) -> (r: Vec<usize>)
    ensures
        r@ == indices_of(s@),
{
    let mut r: Vec<usize> = Vec::new();
    let mut j: usize = 0;
    while j < s.len()
        invariant
            j <= s@.len(),
            r@ == indices_of(s@.subrange(0, j as int)),
        decreases s@.len() - j,
    {
        assert(s@.subrange(0, j + 1).drop_last() =~= s@.subrange(0, j as int));
        if s[j] {
            r.push(j);
        }
        j = j + 1;
    }
    assert(s@.subrange(0, j as int) =~= s@);
    r
}

/// The pointer dereferenced last in place `i` of `places`, without that dereference.
pub open spec fn pointer_in(places: Seq<crate::place::Place>, i: int) -> PlaceView {
    let p = places[i]@;
    PlaceView { local: p.local, proj: p.proj.subrange(0, last_deref(p.proj)) }
}

/// Place `pi` is the pointer of place `i` and holds a tracked region.
pub open spec fn tracked_pointer_in(places: Seq<crate::place::Place>, regions: Seq<Option<usize>>, i: int, pi: int) -> bool {
    0 <= pi < places.len() && places[pi]@ == pointer_in(places, i) && regions[pi] is Some
}

/// The region of the pointer that place `i` dereferences last, when it has a
/// dereference and that pointer is tracked.
pub open spec fn pointer_region_in(places: Seq<crate::place::Place>, regions: Seq<Option<usize>>, i: int) -> Option<usize> {
    if last_deref(places[i]@.proj) >= 0 && exists|pi: int| tracked_pointer_in(places, regions, i, pi) {
        regions[choose|pi: int| tracked_pointer_in(places, regions, i, pi)]
    } else {
        None
    }
}

impl Aliases {
    pub open spec fn n(&self) -> int {
        self.place_domain.places@.len() as int
    }

    pub open spec fn place(&self, i: int) -> PlaceView {
        self.place_domain.places@[i]@
    }

    /// The pointer dereferenced last in place `i`, without that dereference.
    pub open spec fn pointer_of(&self, i: int) -> PlaceView {
        let p = self.place(i);
        PlaceView { local: p.local, proj: p.proj.subrange(0, last_deref(p.proj)) }
    }

    /// The path that follows the last dereference in place `i`.
    pub open spec fn tail_of(&self, i: int) -> Seq<crate::place::ProjectionElem> {
        let p = self.place(i);
        p.proj.subrange(last_deref(p.proj) + 1, p.proj.len() as int)
    }

    /// Place `pi` is the pointer of place `i` and holds a tracked region.
    pub open spec fn tracked_pointer(&self, i: int, pi: int) -> bool {
        tracked_pointer_in(self.place_domain.places@, self.regions@, i, pi)
    }

    /// The region of the pointer that place `i` dereferences last, when it has
    /// a dereference and that pointer is tracked.
    pub open spec fn pointer_region(&self, i: int) -> Option<usize> {
        pointer_region_in(self.place_domain.places@, self.regions@, i)
    }

    /// Place `j` is among the places that place `i` may denote.
    pub open spec fn is_alias(&self, i: int, j: int) -> bool {
        match self.pointer_region(i) {
            None => j == i,
            Some(r) => exists|l: int|
                0 <= l < self.n() && #[trigger] self.loans@[r as int]@[l]
                    && self.place(j) == append_path(self.place(l), self.tail_of(i)),
        }
    }

    /// Every alias of place `i`, rebuilt from a loan, has an index: querying a
    /// place outside the domain is not allowed.
    pub open spec fn rebuilds_in_domain(&self, i: int) -> bool {
        match self.pointer_region(i) {
            None => true,
            Some(r) => forall|l: int| 0 <= l < self.n() && #[trigger] self.loans@[r as int]@[l]
                ==> self.place_domain.contains(append_path(self.place(l), self.tail_of(i))),
        }
    }

    /// Every place's aliases have indices.
    pub open spec fn closed(&self) -> bool {
        forall|i: int| 0 <= i < self.n() ==> #[trigger] self.rebuilds_in_domain(i)
    }

    /// Place `j` is inside (or is) some alias of place `i`.
    pub open spec fn is_sub(&self, i: int, j: int) -> bool {
        exists|a: int| 0 <= a < self.n() && #[trigger] self.is_alias(i, a) && extends(self.place(j), self.place(a))
    }

    /// Place `j` strictly contains some alias of place `i`.
    pub open spec fn is_super(&self, i: int, j: int) -> bool {
        exists|a: int| 0 <= a < self.n() && #[trigger] self.is_alias(i, a) && strictly_extends(self.place(a), self.place(j))
    }

    /// No two aliases of place `i` have as many dereference steps: there are as
    /// many distinct dereference counts as aliases.
    pub open spec fn single_pointee(&self, i: int) -> bool {
        forall|a: int, b: int|
            0 <= a < self.n() && 0 <= b < self.n() && #[trigger] self.is_alias(i, a) && #[trigger] self.is_alias(i, b)
                && deref_count(self.place(a).proj) == deref_count(self.place(b).proj) ==> a == b
    }

    /// `c` is the conflict record of place `i`.
    pub open spec fn conflicts_of(&self, i: int, c: Conflicts) -> bool {
        &&& c.subs@.len() == self.n()
        &&& c.supers@.len() == self.n()
        &&& forall|j: int| 0 <= j < self.n() ==> (#[trigger] c.subs@[j] <==> self.is_sub(i, j))
        &&& forall|j: int| 0 <= j < self.n() ==> (#[trigger] c.supers@[j] <==> self.is_super(i, j))
        &&& c.single_pointee == self.single_pointee(i)
    }

    pub open spec fn wf(&self) -> bool {
        &&& self.place_domain.wf()
        &&& rows_len(self.loans@, self.n())
        &&& self.regions@.len() == self.n()
        &&& forall|i: int| 0 <= i < self.n() && (#[trigger] self.regions@[i]) is Some
            ==> self.regions@[i]->Some_0 < self.loans@.len()
        &&& edges_within(self.region_graph@, self.loans@.len() as int)
        &&& closed_under(self.loans@, self.region_graph@)
        &&& self.loan_cache@.len() == self.n()
        &&& forall|i: int| 0 <= i < self.n() && (#[trigger] self.loan_cache@[i]) is Some
            ==> self.conflicts_of(i, self.loan_cache@[i]->Some_0)
    }

    /// The same engine but for its cache.
    pub open spec fn same_state(&self, other: &Aliases) -> bool {
        &&& self.loans@ == other.loans@
        &&& self.regions@ == other.regions@
        &&& self.region_graph@ == other.region_graph@
        &&& self.place_domain.places@ == other.place_domain.places@
        &&& self.loan_locals@ == other.loan_locals@
    }
}

impl Aliases {
    fn single(&self, i: usize) -> (r: Vec<bool>)
        requires
            i < self.n(),
        ensures
            r@.len() == self.n(),
            forall|j: int| 0 <= j < self.n() ==> (r@[j] <==> j == i),
    {
        let mut set = empty_set(self.place_domain.len());
        set.set(i, true);
        set
    }

    /// The places that place `i` may denote, as a set over the domain.
    ///
    /// A place without dereference denotes itself. Otherwise the place is split at
    /// its last dereference; each loan of the pointer's region, with the rest of
    /// the path appended, is an alias. An untracked pointer denotes only the
    /// place itself.
    pub fn aliases(&self, i: usize) -> (r: Vec<bool>)
        requires
            self.wf(),
            i < self.n(),
            self.rebuilds_in_domain(i as int),
        ensures
            r@.len() == self.n(),
            forall|j: int| 0 <= j < self.n() ==> (#[trigger] r@[j] <==> self.is_alias(i as int, j)),
    {
        let place = self.place_domain.value(i);
        proof {
            lemma_last_deref_bounds(place@.proj);
        }
        let (ptr, tail) = match place.split_deref() {
            None => {
                return self.single(i);
            },
            Some(t) => t,
        };
        let pi = match self.place_domain.index(&ptr) {
            None => {
                assert(!exists|pi: int| self.tracked_pointer(i as int, pi));
                return self.single(i);
            },
            Some(pi) => pi,
        };
        let region = match self.regions[pi] {
            None => {
                assert forall|pj: int| !self.tracked_pointer(i as int, pj) by {
                    if 0 <= pj < self.n() && self.place(pj) == self.pointer_of(i as int) {
                        assert(pj == pi);
                    }
                }
                return self.single(i);
            },
            Some(region) => region,
        };
        proof {
            assert(self.tracked_pointer(i as int, pi as int));
            let pj = choose|pj: int| tracked_pointer_in(self.place_domain.places@, self.regions@, i as int, pj);
            assert(pj == pi);
            assert(self.pointer_region(i as int) == Some(region));
        }
        let n = self.place_domain.len();
        let mut set = empty_set(n);
        let mut l: usize = 0;
        while l < n
            invariant
                self.wf(),
                n == self.n(),
                region < self.loans@.len(),
                tail@ == self.tail_of(i as int),
                self.pointer_region(i as int) == Some(region),
                self.rebuilds_in_domain(i as int),
                set@.len() == n,
                l <= n,
                forall|j: int| 0 <= j < n ==> (#[trigger] set@[j] <==> exists|l2: int|
                    0 <= l2 < l && #[trigger] self.loans@[region as int]@[l2]
                        && self.place(j) == append_path(self.place(l2), tail@)),
            decreases n - l,
        {
            let ghost prev = set@;
            if self.loans[region][l] {
                let lp = self.place_domain.value(l);
                if lp.projection.len() <= usize::MAX - tail.len() {
                    let q = lp.append(&tail);
                    match self.place_domain.index(&q) {
                        Some(j) => {
                            set.set(j, true);
                            assert forall|j2: int| 0 <= j2 < n implies (#[trigger] set@[j2] <==> exists|l2: int|
                                0 <= l2 < l + 1 && #[trigger] self.loans@[region as int]@[l2]
                                    && self.place(j2) == append_path(self.place(l2), tail@)) by {
                                if self.place(j2) == append_path(self.place(l as int), tail@) {
                                    assert(j2 == j);
                                }
                            }
                        },
                        None => {
                            assert(self.place_domain.contains(append_path(self.place(l as int), tail@)));
                            assert(false);
                        },
                    }
                } else {
                    proof {
                        assert(self.place_domain.contains(append_path(self.place(l as int), tail@)));
                        let k = choose|k: int| 0 <= k < n && self.place_domain.places@[k]@ == append_path(self.place(l as int), tail@);
                        assert(self.place(k).proj.len() <= usize::MAX);
                    }
                    assert(false);
                }
            }
            l = l + 1;
        }
        set
    }
}

impl Aliases {
    /// Two distinct aliases of place `i` with as many dereference steps.
    pub open spec fn clash(&self, i: int, x: int, y: int) -> bool {
        self.is_alias(i, x) && self.is_alias(i, y) && deref_count(self.place(x).proj) == deref_count(self.place(y).proj)
    }

    fn compute_single_pointee(&self, i: usize, al: &Vec<bool>) -> (r: bool)
        requires
            self.wf(),
            i < self.n(),
            al@.len() == self.n(),
            forall|j: int| 0 <= j < self.n() ==> (#[trigger] al@[j] <==> self.is_alias(i as int, j)),
        ensures
            r == self.single_pointee(i as int),
    {
        let n = self.place_domain.len();
        let mut sp = true;
        let mut a: usize = 0;
        while a < n
            invariant
                n == self.n(),
                a <= n,
                al@.len() == n,
                forall|j: int| 0 <= j < self.n() ==> (#[trigger] al@[j] <==> self.is_alias(i as int, j)),
                sp == forall|x: int, y: int| 0 <= x < a && x < y < n ==> !#[trigger] self.clash(i as int, x, y),
            decreases n - a,
        {
            if al[a] {
                let ca = self.place_domain.value(a).deref_count();
                let mut b: usize = a + 1;
                while b < n
                    invariant
                        n == self.n(),
                        a < b <= n,
                        al@.len() == n,
                        al@[a as int],
                        ca == deref_count(self.place(a as int).proj),
                        forall|j: int| 0 <= j < self.n() ==> (#[trigger] al@[j] <==> self.is_alias(i as int, j)),
                        sp == ((forall|x: int, y: int| 0 <= x < a && x < y < n ==> !#[trigger] self.clash(i as int, x, y))
                            && forall|y: int| a < y < b ==> !#[trigger] self.clash(i as int, a as int, y)),
                    decreases n - b,
                {
                    let hit = al[b] && self.place_domain.value(b).deref_count() == ca;
                    assert(hit == self.clash(i as int, a as int, b as int));
                    if hit {
                        sp = false;
                    }
                    b = b + 1;
                }
                assert(sp == forall|x: int, y: int| 0 <= x < a + 1 && x < y < n ==> !#[trigger] self.clash(i as int, x, y)) by {
                    if sp {
                        assert forall|x: int, y: int| 0 <= x < a + 1 && x < y < n implies !#[trigger] self.clash(i as int, x, y) by {
                            if x == a {
                                assert(!self.clash(i as int, a as int, y));
                            }
                        }
                    }
                }
            } else {
                assert(sp == forall|x: int, y: int| 0 <= x < a + 1 && x < y < n ==> !#[trigger] self.clash(i as int, x, y)) by {
                    if sp {
                        assert forall|x: int, y: int| 0 <= x < a + 1 && x < y < n implies !#[trigger] self.clash(i as int, x, y) by {
                            if x == a {
                                assert(!self.is_alias(i as int, x));
                            }
                        }
                    }
                }
            }
            a = a + 1;
        }
        assert(sp == self.single_pointee(i as int)) by {
            if sp {
                assert forall|x: int, y: int|
                    0 <= x < self.n() && 0 <= y < self.n() && #[trigger] self.is_alias(i as int, x) && #[trigger] self.is_alias(i as int, y)
                        && deref_count(self.place(x).proj) == deref_count(self.place(y).proj) implies x == y by {
                    if x < y {
                        assert(self.clash(i as int, x, y));
                    } else if y < x {
                        assert(self.clash(i as int, y, x));
                    }
                }
            } else {
                let (x, y) = choose|x: int, y: int| 0 <= x < n && x < y < n && #[trigger] self.clash(i as int, x, y);
                assert(self.is_alias(i as int, x) && self.is_alias(i as int, y));
            }
        }
        sp
    }

    fn compute_conflicts(&self, i: usize) -> (r: Conflicts)
        requires
            self.wf(),
            i < self.n(),
            self.rebuilds_in_domain(i as int),
        ensures
            self.conflicts_of(i as int, r),
    {
        let al = self.aliases(i);
        let n = self.place_domain.len();
        let mut subs: Vec<bool> = Vec::new();
        let mut supers: Vec<bool> = Vec::new();
        let mut j: usize = 0;
        while j < n
            invariant
                self.wf(),
                n == self.n(),
                j <= n,
                al@.len() == n,
                forall|k: int| 0 <= k < self.n() ==> (#[trigger] al@[k] <==> self.is_alias(i as int, k)),
                subs@.len() == j,
                supers@.len() == j,
                forall|k: int| 0 <= k < j ==> (#[trigger] subs@[k] <==> self.is_sub(i as int, k)),
                forall|k: int| 0 <= k < j ==> (#[trigger] supers@[k] <==> self.is_super(i as int, k)),
            decreases n - j,
        {
            let pj = self.place_domain.value(j);
            let mut sub = false;
            let mut sup = false;
            let mut a: usize = 0;
            while a < n
                invariant
                    n == self.n(),
                    j < n,
                    a <= n,
                    *pj == self.place_domain.places@[j as int],
                    al@.len() == n,
                    forall|k: int| 0 <= k < self.n() ==> (#[trigger] al@[k] <==> self.is_alias(i as int, k)),
                    sub == exists|a2: int| 0 <= a2 < a && #[trigger] self.is_alias(i as int, a2)
                        && extends(self.place(j as int), self.place(a2)),
                    sup == exists|a2: int| 0 <= a2 < a && #[trigger] self.is_alias(i as int, a2)
                        && strictly_extends(self.place(a2), self.place(j as int)),
                decreases n - a,
            {
                if al[a] {
                    let pa = self.place_domain.value(a);
                    if pj.extends(pa) {
                        sub = true;
                    }
                    if pa.strictly_extends(pj) {
                        sup = true;
                    }
                }
                a = a + 1;
            }
            subs.push(sub);
            supers.push(sup);
            j = j + 1;
        }
        let single_pointee = self.compute_single_pointee(i, &al);
        Conflicts { subs, supers, single_pointee }
    }

    /// The conflict record of place `i`, computed once and then kept.
    pub fn conflicts(&mut self, i: usize) -> (r: Conflicts)
        requires
            old(self).wf(),
            i < old(self).n(),
            old(self).rebuilds_in_domain(i as int),
        ensures
            final(self).wf(),
            final(self).same_state(old(self)),
            old(self).conflicts_of(i as int, r),
            old(self).loan_cache@[i as int] is Some ==> final(self).loan_cache@ == old(self).loan_cache@,
            final(self).loan_cache@.len() == old(self).loan_cache@.len(),
            forall|k: int| 0 <= k < old(self).n() && k != i ==> #[trigger] final(self).loan_cache@[k] == old(self).loan_cache@[k],
            final(self).loan_cache@[i as int] is Some,
    {
        match &self.loan_cache[i] {
            Some(c) => {
                return c.copy();
            },
            None => {},
        }
        let c = self.compute_conflicts(i);
        let kept = c.copy();
        self.loan_cache.set(i, Some(kept));
        assert forall|k: int| 0 <= k < self.n() && (#[trigger] self.loan_cache@[k]) is Some
            implies self.conflicts_of(k, self.loan_cache@[k]->Some_0) by {
            if k == i {
                lemma_same_state_conflicts(*old(self), *self, k, c);
            } else {
                lemma_same_state_conflicts(*old(self), *self, k, self.loan_cache@[k]->Some_0);
            }
        }
        c
    }
}

/// Two engines that differ only in their caches agree on aliases and overlaps.
pub proof fn lemma_same_state_overlap(a1: Aliases, a2: Aliases, i: int)
    requires
        a2.same_state(&a1),
    ensures
        forall|j: int| 0 <= j < a1.n() ==> a1.is_alias(i, j) == a2.is_alias(i, j),
        forall|j: int| 0 <= j < a1.n() ==> a1.is_sub(i, j) == a2.is_sub(i, j),
        forall|j: int| 0 <= j < a1.n() ==> a1.is_super(i, j) == a2.is_super(i, j),
        a1.single_pointee(i) == a2.single_pointee(i),
{
    assert(a1.pointer_region(i) == a2.pointer_region(i));
    assert forall|j: int| 0 <= j < a1.n() implies a1.is_alias(i, j) == a2.is_alias(i, j) by {
        assert(a1.place(j) == a2.place(j));
        assert(a1.tail_of(i) == a2.tail_of(i));
        if let Some(r) = a1.pointer_region(i) {
            if a1.is_alias(i, j) {
                let l = choose|l: int| 0 <= l < a1.n() && #[trigger] a1.loans@[r as int]@[l]
                    && a1.place(j) == append_path(a1.place(l), a1.tail_of(i));
                assert(a2.loans@[r as int]@[l] && a2.place(j) == append_path(a2.place(l), a2.tail_of(i)));
            }
            if a2.is_alias(i, j) {
                let l = choose|l: int| 0 <= l < a2.n() && #[trigger] a2.loans@[r as int]@[l]
                    && a2.place(j) == append_path(a2.place(l), a2.tail_of(i));
                assert(a1.loans@[r as int]@[l] && a1.place(j) == append_path(a1.place(l), a1.tail_of(i)));
            }
        }
    }
    assert forall|j: int| 0 <= j < a1.n() implies a1.is_sub(i, j) == a2.is_sub(i, j) by {
        if a1.is_sub(i, j) {
            let a = choose|a: int| 0 <= a < a1.n() && #[trigger] a1.is_alias(i, a) && extends(a1.place(j), a1.place(a));
            assert(a2.is_alias(i, a) && extends(a2.place(j), a2.place(a)));
        }
        if a2.is_sub(i, j) {
            let a = choose|a: int| 0 <= a < a2.n() && #[trigger] a2.is_alias(i, a) && extends(a2.place(j), a2.place(a));
            assert(a1.is_alias(i, a) && extends(a1.place(j), a1.place(a)));
        }
    }
    assert forall|j: int| 0 <= j < a1.n() implies a1.is_super(i, j) == a2.is_super(i, j) by {
        if a1.is_super(i, j) {
            let a = choose|a: int| 0 <= a < a1.n() && #[trigger] a1.is_alias(i, a) && strictly_extends(a1.place(a), a1.place(j));
            assert(a2.is_alias(i, a) && strictly_extends(a2.place(a), a2.place(j)));
        }
        if a2.is_super(i, j) {
            let a = choose|a: int| 0 <= a < a2.n() && #[trigger] a2.is_alias(i, a) && strictly_extends(a2.place(a), a2.place(j));
            assert(a1.is_alias(i, a) && strictly_extends(a1.place(a), a1.place(j)));
        }
    }
    assert(a1.single_pointee(i) == a2.single_pointee(i)) by {
        if a1.single_pointee(i) {
            assert forall|x: int, y: int|
                0 <= x < a2.n() && 0 <= y < a2.n() && #[trigger] a2.is_alias(i, x) && #[trigger] a2.is_alias(i, y)
                    && deref_count(a2.place(x).proj) == deref_count(a2.place(y).proj) implies x == y by {
                assert(a1.is_alias(i, x) && a1.is_alias(i, y));
            }
        }
        if a2.single_pointee(i) {
            assert forall|x: int, y: int|
                0 <= x < a1.n() && 0 <= y < a1.n() && #[trigger] a1.is_alias(i, x) && #[trigger] a1.is_alias(i, y)
                    && deref_count(a1.place(x).proj) == deref_count(a1.place(y).proj) implies x == y by {
                assert(a2.is_alias(i, x) && a2.is_alias(i, y));
            }
        }
    }
}

/// Two engines that differ only in their caches are closed together.
pub proof fn lemma_same_state_closed(a1: Aliases, a2: Aliases)
    requires
        a2.same_state(&a1),
        a1.closed(),
    ensures
        a2.closed(),
{
    assert forall|i: int| 0 <= i < a2.n() implies #[trigger] a2.rebuilds_in_domain(i) by {
        assert(a1.rebuilds_in_domain(i));
        assert(a1.pointer_region(i) == a2.pointer_region(i));
        assert(a1.tail_of(i) == a2.tail_of(i));
        if let Some(r) = a2.pointer_region(i) {
            assert forall|l: int| 0 <= l < a2.n() && #[trigger] a2.loans@[r as int]@[l]
                implies a2.place_domain.contains(append_path(a2.place(l), a2.tail_of(i))) by {
                assert(a1.loans@[r as int]@[l]);
                let q = append_path(a1.place(l), a1.tail_of(i));
                assert(a1.place_domain.contains(q));
                let k = choose|k: int| 0 <= k < a1.place_domain.places@.len() && a1.place_domain.places@[k]@ == q;
                assert(a2.place_domain.places@[k]@ == q);
            }
        }
    }
}

/// Two engines that differ only in their caches agree on every conflict record.
pub proof fn lemma_same_state_conflicts(a1: Aliases, a2: Aliases, i: int, c: Conflicts)
    requires
        a2.same_state(&a1),
        a1.conflicts_of(i, c),
    ensures
        a2.conflicts_of(i, c),
{
    lemma_same_state_overlap(a1, a2, i);
}

/// Region `r` is seeded with `p` by one of the first `upto` interior pointers
/// that belong to a parameter.
pub open spec fn pointer_seed(body: &Body, r: int, p: PlaceView, upto: int) -> bool {
    exists|k: int| 0 <= k < upto && (#[trigger] body.interior_pointers@[k]).region == r
        && 1 <= body.interior_pointers@[k].place@.local <= body.arg_count
        && p == append_path(body.interior_pointers@[k].place@, seq![ProjectionElem::Deref])
}

/// Statement `s2` of block `b2` is before statement `s` of block `b`.
pub open spec fn before(b2: int, s2: int, b: int, s: int) -> bool {
    b2 < b || (b2 == b && s2 < s)
}

/// Region `r` borrows `p` at a statement before statement `s` of block `b`.
pub open spec fn borrow_seed(body: &Body, r: int, p: PlaceView, b: int, s: int) -> bool {
    exists|b2: int, s2: int| #![trigger body.blocks@[b2]@[s2]]
        0 <= b2 < body.blocks@.len() && 0 <= s2 < body.blocks@[b2]@.len() && before(b2, s2, b, s)
            && match body.blocks@[b2]@[s2] {
                Statement::Assign(_, Rvalue::Ref(r2, _, q)) => r2 == r && q@ == p,
                _ => false,
            }
}

/// One more than the largest region that `body` and `constraints` name.
fn count_regions(body: &Body, constraints: &Vec<OutlivesConstraint>) -> (n: usize)
    requires
        body.wf(),
        forall|k: int| 0 <= k < constraints@.len()
            ==> (#[trigger] constraints@[k]).0 < usize::MAX && constraints@[k].1 < usize::MAX,
    ensures
        n >= 1,
        body.bounds_regions(constraints@, n as int),
        n == 1 || body.names_region(constraints@, n - 1),
{
    let mut n: usize = 1;
    let mut k: usize = 0;
    while k < body.interior_pointers.len()
        invariant
            body.wf(),
            n >= 1,
            n == 1 || body.names_region(constraints@, n - 1),
            k <= body.interior_pointers@.len(),
            forall|k2: int| 0 <= k2 < k ==> (#[trigger] body.interior_pointers@[k2]).region < n,
        decreases body.interior_pointers@.len() - k,
    {
        let r = body.interior_pointers[k].region;
        if r >= n {
            n = r + 1;
            assert(body.interior_pointers@[k as int].region == n - 1);
        }
        k = k + 1;
    }
    let mut k: usize = 0;
    while k < constraints.len()
        invariant
            n >= 1,
            n == 1 || body.names_region(constraints@, n - 1),
            k <= constraints@.len(),
            forall|k2: int| 0 <= k2 < constraints@.len()
                ==> (#[trigger] constraints@[k2]).0 < usize::MAX && constraints@[k2].1 < usize::MAX,
            forall|k2: int| 0 <= k2 < body.interior_pointers@.len() ==> (#[trigger] body.interior_pointers@[k2]).region < n,
            forall|k2: int| 0 <= k2 < k ==> (#[trigger] constraints@[k2]).0 < n && constraints@[k2].1 < n,
        decreases constraints@.len() - k,
    {
        let c = constraints[k];
        if c.0 >= n {
            n = c.0 + 1;
            assert(constraints@[k as int].0 == n - 1);
        }
        if c.1 >= n {
            n = c.1 + 1;
            assert(constraints@[k as int].1 == n - 1);
        }
        k = k + 1;
    }
    let mut b: usize = 0;
    while b < body.blocks.len()
        invariant
            body.wf(),
            n >= 1,
            n == 1 || body.names_region(constraints@, n - 1),
            b <= body.blocks@.len(),
            forall|k2: int| 0 <= k2 < body.interior_pointers@.len() ==> (#[trigger] body.interior_pointers@[k2]).region < n,
            forall|k2: int| 0 <= k2 < constraints@.len() ==> (#[trigger] constraints@[k2]).0 < n && constraints@[k2].1 < n,
            forall|b2: int, s2: int| #![trigger body.blocks@[b2]@[s2]]
                0 <= b2 < b && 0 <= s2 < body.blocks@[b2]@.len() ==> match body.blocks@[b2]@[s2] {
                    Statement::Assign(_, Rvalue::Ref(r, _, _)) => r < n,
                    _ => true,
                },
        decreases body.blocks@.len() - b,
    {
        let mut s: usize = 0;
        while s < body.blocks[b].len()
            invariant
                body.wf(),
                n >= 1,
                n == 1 || body.names_region(constraints@, n - 1),
            n == 1 || body.names_region(constraints@, n - 1),
                b < body.blocks@.len(),
                s <= body.blocks@[b as int]@.len(),
                forall|k2: int| 0 <= k2 < body.interior_pointers@.len() ==> (#[trigger] body.interior_pointers@[k2]).region < n,
                forall|k2: int| 0 <= k2 < constraints@.len() ==> (#[trigger] constraints@[k2]).0 < n && constraints@[k2].1 < n,
                forall|b2: int, s2: int| #![trigger body.blocks@[b2]@[s2]]
                    0 <= b2 < body.blocks@.len() && 0 <= s2 < body.blocks@[b2]@.len() && before(b2, s2, b as int, s as int)
                        ==> match body.blocks@[b2]@[s2] {
                        Statement::Assign(_, Rvalue::Ref(r, _, _)) => r < n,
                        _ => true,
                    },
            decreases body.blocks@[b as int]@.len() - s,
        {
            match &body.blocks[b][s] {
                Statement::Assign(_, Rvalue::Ref(r, _, bp)) => {
                    if *r >= n {
                        n = *r + 1;
                        assert(body.borrows(n - 1, bp@));
                    }
                },
                _ => {},
            }
            s = s + 1;
        }
        b = b + 1;
    }
    n
}

/// Every place that `body` names has an index in `domain`.
pub open spec fn covers(domain: &PlaceDomain, body: &Body) -> bool {
    forall|p: PlaceView| body.names_place(p) ==> domain.contains(p)
}

/// Marks the pointees of the parameters' interior pointers as loans of their
/// regions, and records the region of each place that holds an interior pointer.
fn seed_pointers(body: &Body, domain: &PlaceDomain, loans: &mut Vec<Vec<bool>>, regions: &mut Vec<Option<usize>>)
    requires
        body.wf(),
        domain.wf(),
        covers(domain, body),
        rows_len(old(loans)@, domain.places@.len() as int),
        forall|r: int, l: int| 0 <= r < old(loans)@.len() && 0 <= l < domain.places@.len() ==> !#[trigger] old(loans)@[r]@[l],
        forall|k: int| 0 <= k < body.interior_pointers@.len() ==> (#[trigger] body.interior_pointers@[k]).region < old(loans)@.len(),
        old(regions)@.len() == domain.places@.len(),
        forall|i: int| 0 <= i < old(regions)@.len() ==> old(regions)@[i] is None,
    ensures
        final(loans)@.len() == old(loans)@.len(),
        rows_len(final(loans)@, domain.places@.len() as int),
        forall|r: int, l: int| 0 <= r < final(loans)@.len() && 0 <= l < domain.places@.len()
            ==> (#[trigger] final(loans)@[r]@[l] <==> pointer_seed(body, r, domain.places@[l]@, body.interior_pointers@.len() as int)),
        final(regions)@.len() == domain.places@.len(),
        forall|i: int| 0 <= i < final(regions)@.len() && (#[trigger] final(regions)@[i]) is Some ==> {
            &&& final(regions)@[i]->Some_0 < final(loans)@.len()
            &&& body.pointer_at(final(regions)@[i]->Some_0 as int, domain.places@[i]@)
        },
        forall|r: int, i: int| 0 <= i < domain.places@.len() && #[trigger] body.pointer_at(r, domain.places@[i]@)
            ==> (#[trigger] final(regions)@[i]) is Some,
{
    let n = domain.len();
    let mut k: usize = 0;
    while k < body.interior_pointers.len()
        invariant
            body.wf(),
            domain.wf(),
            covers(domain, body),
            n == domain.places@.len(),
            k <= body.interior_pointers@.len(),
            loans@.len() == old(loans)@.len(),
            rows_len(loans@, n as int),
            forall|k2: int| 0 <= k2 < body.interior_pointers@.len() ==> (#[trigger] body.interior_pointers@[k2]).region < loans@.len(),
            forall|r: int, l: int| 0 <= r < loans@.len() && 0 <= l < n
                ==> (#[trigger] loans@[r]@[l] <==> pointer_seed(body, r, domain.places@[l]@, k as int)),
            regions@.len() == n,
            forall|i: int| 0 <= i < n && (#[trigger] regions@[i]) is Some ==> {
                &&& regions@[i]->Some_0 < loans@.len()
                &&& body.pointer_at(regions@[i]->Some_0 as int, domain.places@[i]@)
            },
            forall|k2: int, i: int| 0 <= k2 < k && 0 <= i < n && domain.places@[i]@ == (#[trigger] body.interior_pointers@[k2]).place@
                ==> (#[trigger] regions@[i]) is Some,
        decreases body.interior_pointers@.len() - k,
    {
        let ip = &body.interior_pointers[k];
        let region = ip.region;
        let d = ip.place.deref();
        proof {
            assert(body.pointer_at(region as int, ip.place@));
            assert(body.pointee(d@));
        }
        let ghost prev_loans = loans@;
        let ghost prev_regions = regions@;
        match domain.index(&ip.place) {
            Some(pi) => {
                regions.set(pi, Some(region));
            },
            None => {},
        }
        if 1 <= ip.place.local && ip.place.local <= body.arg_count {
            match domain.index(&d) {
                Some(j) => {
                    loans[region].set(j, true);
                },
                None => {},
            }
        }
        proof {
            assert forall|r: int, l: int| 0 <= r < loans@.len() && 0 <= l < n
                implies (#[trigger] loans@[r]@[l] <==> pointer_seed(body, r, domain.places@[l]@, k + 1)) by {
                if pointer_seed(body, r, domain.places@[l]@, k + 1) && !pointer_seed(body, r, domain.places@[l]@, k as int) {
                    assert(r == region && domain.places@[l]@ == d@);
                }
                if pointer_seed(body, r, domain.places@[l]@, k as int) {
                    let k2 = choose|k2: int| 0 <= k2 < k && (#[trigger] body.interior_pointers@[k2]).region == r
                        && domain.places@[l]@ == append_path(body.interior_pointers@[k2].place@, seq![ProjectionElem::Deref]);
                    assert(pointer_seed(body, r, domain.places@[l]@, k + 1));
                }
                if loans@[r]@[l] && !prev_loans[r]@[l] {
                    assert(pointer_seed(body, r, domain.places@[l]@, k + 1));
                }
            }
            assert forall|k2: int, i: int| 0 <= k2 < k + 1 && 0 <= i < n && domain.places@[i]@ == (#[trigger] body.interior_pointers@[k2]).place@
                implies (#[trigger] regions@[i]) is Some by {
                if k2 < k {
                    assert(prev_regions[i] is Some);
                }
            }
        }
        k = k + 1;
    }
}

/// Marks every borrowed place as a loan of the borrow's region.
fn seed_borrows(body: &Body, domain: &PlaceDomain, loans: &mut Vec<Vec<bool>>)
    requires
        body.wf(),
        domain.wf(),
        covers(domain, body),
        rows_len(old(loans)@, domain.places@.len() as int),
        forall|r: int, p: PlaceView| body.borrows(r, p) ==> r < old(loans)@.len(),
        forall|r: int, l: int| 0 <= r < old(loans)@.len() && 0 <= l < domain.places@.len()
            ==> (#[trigger] old(loans)@[r]@[l] <==> pointer_seed(body, r, domain.places@[l]@, body.interior_pointers@.len() as int)),
    ensures
        final(loans)@.len() == old(loans)@.len(),
        rows_len(final(loans)@, domain.places@.len() as int),
        forall|r: int, l: int| 0 <= r < final(loans)@.len() && 0 <= l < domain.places@.len()
            ==> (#[trigger] final(loans)@[r]@[l] <==> body.seeded(r, domain.places@[l]@)),
{
    let n = domain.len();
    let ghost np = body.interior_pointers@.len() as int;
    let mut b: usize = 0;
    while b < body.blocks.len()
        invariant
            body.wf(),
            domain.wf(),
            covers(domain, body),
            n == domain.places@.len(),
            b <= body.blocks@.len(),
            loans@.len() == old(loans)@.len(),
            rows_len(loans@, n as int),
            forall|r: int, p: PlaceView| body.borrows(r, p) ==> r < loans@.len(),
            forall|r: int, l: int| 0 <= r < loans@.len() && 0 <= l < n
                ==> (#[trigger] loans@[r]@[l] <==> (pointer_seed(body, r, domain.places@[l]@, np)
                    || borrow_seed(body, r, domain.places@[l]@, b as int, 0))),
        decreases body.blocks@.len() - b,
    {
        let mut s: usize = 0;
        while s < body.blocks[b].len()
            invariant
                body.wf(),
                domain.wf(),
                covers(domain, body),
                n == domain.places@.len(),
                b < body.blocks@.len(),
                s <= body.blocks@[b as int]@.len(),
                loans@.len() == old(loans)@.len(),
                rows_len(loans@, n as int),
                forall|r: int, p: PlaceView| body.borrows(r, p) ==> r < loans@.len(),
                forall|r: int, l: int| 0 <= r < loans@.len() && 0 <= l < n
                    ==> (#[trigger] loans@[r]@[l] <==> (pointer_seed(body, r, domain.places@[l]@, np)
                        || borrow_seed(body, r, domain.places@[l]@, b as int, s as int))),
            decreases body.blocks@[b as int]@.len() - s,
        {
            let ghost prev = loans@;
            match &body.blocks[b][s] {
                Statement::Assign(_, Rvalue::Ref(r, _, bp)) => {
                    proof {
                        assert(body.borrows(*r as int, bp@));
                        assert(body.seeded(*r as int, bp@));
                    }
                    match domain.index(bp) {
                        Some(j) => {
                            loans[*r].set(j, true);
                        },
                        None => {},
                    }
                },
                _ => {},
            }
            proof {
                assert forall|r2: int, l: int| 0 <= r2 < loans@.len() && 0 <= l < n
                    implies (#[trigger] loans@[r2]@[l] <==> (pointer_seed(body, r2, domain.places@[l]@, np)
                        || borrow_seed(body, r2, domain.places@[l]@, b as int, s + 1))) by {
                    let p = domain.places@[l]@;
                    if borrow_seed(body, r2, p, b as int, s as int) {
                        let (b2, s2) = choose|b2: int, s2: int| #![trigger body.blocks@[b2]@[s2]]
                            0 <= b2 < body.blocks@.len() && 0 <= s2 < body.blocks@[b2]@.len() && before(b2, s2, b as int, s as int)
                                && match body.blocks@[b2]@[s2] {
                                    Statement::Assign(_, Rvalue::Ref(r3, _, q)) => r3 == r2 && q@ == p,
                                    _ => false,
                                };
                        assert(before(b2, s2, b as int, s + 1));
                        assert(borrow_seed(body, r2, p, b as int, s + 1));
                    }
                    if borrow_seed(body, r2, p, b as int, s + 1) && !borrow_seed(body, r2, p, b as int, s as int) {
                        let (b2, s2) = choose|b2: int, s2: int| #![trigger body.blocks@[b2]@[s2]]
                            0 <= b2 < body.blocks@.len() && 0 <= s2 < body.blocks@[b2]@.len() && before(b2, s2, b as int, s + 1)
                                && match body.blocks@[b2]@[s2] {
                                    Statement::Assign(_, Rvalue::Ref(r3, _, q)) => r3 == r2 && q@ == p,
                                    _ => false,
                                };
                        assert(b2 == b && s2 == s);
                    }
                }
            }
            s = s + 1;
        }
        proof {
            assert forall|r2: int, l: int| 0 <= r2 < loans@.len() && 0 <= l < n
                implies (borrow_seed(body, r2, domain.places@[l]@, b as int, s as int)
                    == borrow_seed(body, r2, domain.places@[l]@, b + 1, 0)) by {
                let p = domain.places@[l]@;
                if borrow_seed(body, r2, p, b + 1, 0) {
                    let (b2, s2) = choose|b2: int, s2: int| #![trigger body.blocks@[b2]@[s2]]
                        0 <= b2 < body.blocks@.len() && 0 <= s2 < body.blocks@[b2]@.len() && before(b2, s2, b + 1, 0)
                            && match body.blocks@[b2]@[s2] {
                                Statement::Assign(_, Rvalue::Ref(r3, _, q)) => r3 == r2 && q@ == p,
                                _ => false,
                            };
                    assert(before(b2, s2, b as int, s as int));
                }
                if borrow_seed(body, r2, p, b as int, s as int) {
                    let (b2, s2) = choose|b2: int, s2: int| #![trigger body.blocks@[b2]@[s2]]
                        0 <= b2 < body.blocks@.len() && 0 <= s2 < body.blocks@[b2]@.len() && before(b2, s2, b as int, s as int)
                            && match body.blocks@[b2]@[s2] {
                                Statement::Assign(_, Rvalue::Ref(r3, _, q)) => r3 == r2 && q@ == p,
                                _ => false,
                            };
                    assert(before(b2, s2, b + 1, 0));
                }
            }
        }
        b = b + 1;
    }
    proof {
        assert forall|r2: int, l: int| 0 <= r2 < loans@.len() && 0 <= l < n
            implies (#[trigger] loans@[r2]@[l] <==> body.seeded(r2, domain.places@[l]@)) by {
            let p = domain.places@[l]@;
            if body.borrows(r2, p) {
                let (b2, s2) = choose|b2: int, s2: int| #![trigger body.blocks@[b2]@[s2]]
                    0 <= b2 < body.blocks@.len() && 0 <= s2 < body.blocks@[b2]@.len() && match body.blocks@[b2]@[s2] {
                        Statement::Assign(_, Rvalue::Ref(r3, _, q)) => r3 == r2 && q@ == p,
                        _ => false,
                    };
                assert(before(b2, s2, b as int, 0));
            }
        }
    }
}

/// `n` empty rows of `width` places.
fn empty_table(n: usize, width: usize) -> (r: Vec<Vec<bool>>)
    ensures
        r@.len() == n,
        rows_len(r@, width as int),
        forall|i: int, l: int| 0 <= i < n && 0 <= l < width ==> !#[trigger] r@[i]@[l],
{
    let mut r: Vec<Vec<bool>> = Vec::new();
    let mut k: usize = 0;
    while k < n
        invariant
            k <= n,
            r@.len() == k,
            rows_len(r@, width as int),
            forall|i: int, l: int| 0 <= i < k && 0 <= l < width ==> !#[trigger] r@[i]@[l],
        decreases n - k,
    {
        r.push(empty_set(width));
        k = k + 1;
    }
    r
}

fn no_regions(n: usize) -> (r: Vec<Option<usize>>)
    ensures
        r@.len() == n,
        forall|i: int| 0 <= i < n ==> r@[i] is None,
{
    let mut r: Vec<Option<usize>> = Vec::new();
    let mut k: usize = 0;
    while k < n
        invariant
            k <= n,
            r@.len() == k,
            forall|i: int| 0 <= i < k ==> r@[i] is None,
        decreases n - k,
    {
        r.push(None);
        k = k + 1;
    }
    r
}

fn no_conflicts(n: usize) -> (r: Vec<Option<Conflicts>>)
    ensures
        r@.len() == n,
        forall|i: int| 0 <= i < n ==> r@[i] is None,
{
    let mut r: Vec<Option<Conflicts>> = Vec::new();
    let mut k: usize = 0;
    while k < n
        invariant
            k <= n,
            r@.len() == k,
            forall|i: int| 0 <= i < k ==> r@[i] is None,
        decreases n - k,
    {
        r.push(None);
        k = k + 1;
    }
    r
}

/// Region `x.1` holds a loan of a place rooted at local `x.0`.
pub open spec fn loan_into(loans: Seq<Vec<bool>>, places: Seq<crate::place::Place>, x: (usize, usize)) -> bool {
    exists|l: int| 0 <= l < places.len() && #[trigger] loans[x.1 as int]@[l] && places[l]@.local == x.0
        && x.1 < loans.len()
}

/// `pairs` lists `(local, region)` exactly when the region holds a loan of a
/// place rooted at the local.
#[verifier::opaque]
pub open spec fn indexes_loan_locals(loans: Seq<Vec<bool>>, places: Seq<crate::place::Place>, pairs: Seq<(usize, usize)>) -> bool {
    &&& forall|k: int| 0 <= k < pairs.len() ==> loan_into(loans, places, #[trigger] pairs[k])
    &&& forall|g: int, l: int| 0 <= g < loans.len() && 0 <= l < places.len() && #[trigger] loans[g]@[l]
        ==> pairs.contains((places[l]@.local, g as usize))
}

/// The pairs `(local, region)` such that the region holds a loan of a place of the local.
fn index_loan_locals(loans: &Vec<Vec<bool>>, domain: &PlaceDomain) -> (r: Vec<(usize, usize)>)
    requires
        rows_len(loans@, domain.places@.len() as int),
    ensures
        indexes_loan_locals(loans@, domain.places@, r@),
{
    let n = domain.len();
    let mut out: Vec<(usize, usize)> = Vec::new();
    let mut g: usize = 0;
    while g < loans.len()
        invariant
            n == domain.places@.len(),
            rows_len(loans@, n as int),
            g <= loans@.len(),
            forall|k: int| 0 <= k < out@.len() ==> loan_into(loans@, domain.places@, #[trigger] out@[k]),
            forall|g2: int, l: int| 0 <= g2 < g && 0 <= l < n && #[trigger] loans@[g2]@[l]
                ==> out@.contains((domain.places@[l]@.local, g2 as usize)),
        decreases loans@.len() - g,
    {
        let mut l: usize = 0;
        while l < n
            invariant
                n == domain.places@.len(),
                rows_len(loans@, n as int),
                g < loans@.len(),
                l <= n,
                forall|k: int| 0 <= k < out@.len() ==> loan_into(loans@, domain.places@, #[trigger] out@[k]),
                forall|g2: int, l2: int| 0 <= g2 < g && 0 <= l2 < n && #[trigger] loans@[g2]@[l2]
                    ==> out@.contains((domain.places@[l2]@.local, g2 as usize)),
                forall|l2: int| 0 <= l2 < l && #[trigger] loans@[g as int]@[l2]
                    ==> out@.contains((domain.places@[l2]@.local, g)),
            decreases n - l,
        {
            if loans[g][l] {
                let ghost prev = out@;
                let x = (domain.value(l).local, g);
                out.push(x);
                proof {
                    assert(out@[out@.len() - 1] == x);
                    assert forall|p: (usize, usize)| prev.contains(p) implies out@.contains(p) by {
                        let k = choose|k: int| 0 <= k < prev.len() && prev[k] == p;
                        assert(out@[k] == prev[k]);
                    }
                    assert forall|k: int| 0 <= k < out@.len() implies loan_into(loans@, domain.places@, #[trigger] out@[k]) by {
                        if k < prev.len() {
                            assert(out@[k] == prev[k]);
                        } else {
                            assert(loans@[g as int]@[l as int]);
                            assert(domain.places@[l as int]@.local == x.0);
                            assert(out@[k] == x);
                            assert(0 <= l < n && loans@[x.1 as int]@[l as int] && domain.places@[l as int]@.local == x.0);
                        }
                    }
                }
            }
            l = l + 1;
        }
        g = g + 1;
    }
    proof {
        reveal(indexes_loan_locals);
    }
    out
}

impl Aliases {
    /// Builds the alias engine of `body` under `outlives_constraints`.
    ///
    /// The domain holds every place the body names. Each region starts with its
    /// seeded loans; after propagation, a region holds exactly the seeds of the
    /// regions that reach it in the region graph.
    pub fn build(body: &Body, outlives_constraints: &Vec<OutlivesConstraint>) -> (r: Aliases)
        requires
            body.wf(),
            forall|k: int| 0 <= k < outlives_constraints@.len()
                ==> (#[trigger] outlives_constraints@[k]).0 < usize::MAX && outlives_constraints@[k].1 < usize::MAX,
        ensures
            r.wf(),
            covers(&r.place_domain, body),
            forall|i: int| 0 <= i < r.n() ==> body.names_place(#[trigger] r.place(i)),
            views(r.place_domain.places@) == first_occurrences(body.collected()),
            body.bounds_regions(outlives_constraints@, r.loans@.len() as int),
            r.loans@.len() == 1 || body.names_region(outlives_constraints@, r.loans@.len() - 1),
            forall|a: int, b: int| has_edge(r.region_graph@, a, b)
                <==> is_region_edge(outlives_constraints@, r.loans@.len() as int, a, b),
            forall|g: int, l: int| 0 <= g < r.loans@.len() && 0 <= l < r.n() ==> (#[trigger] r.loans@[g]@[l]
                <==> exists|g0: int| 0 <= g0 < r.loans@.len() && body.seeded(g0, r.place(l)) && reaches(r.region_graph@, g0, g)),
            forall|i: int| 0 <= i < r.n() && (#[trigger] r.regions@[i]) is Some
                ==> body.pointer_at(r.regions@[i]->Some_0 as int, r.place(i)),
            forall|g: int, i: int| 0 <= i < r.n() && #[trigger] body.pointer_at(g, r.place(i))
                ==> (#[trigger] r.regions@[i]) is Some,
            forall|i: int| 0 <= i < r.n() ==> (#[trigger] r.loan_cache@[i]) is None,
            indexes_loan_locals(r.loans@, r.place_domain.places@, r.loan_locals@),
    {
        let candidates = body.collect_places();
        let place_domain = PlaceDomain::new(&candidates);
        proof {
            assert forall|p: PlaceView| body.names_place(p) implies place_domain.contains(p) by {
                let k = choose|k: int| 0 <= k < candidates@.len() && candidates@[k]@ == p;
                assert(place_domain.contains(candidates@[k]@));
            }
            assert forall|i: int| 0 <= i < place_domain.places@.len() implies body.names_place(#[trigger] place_domain.places@[i]@) by {
                assert(in_list(candidates@, place_domain.places@[i]@));
                let k = choose|k: int| 0 <= k < candidates@.len() && candidates@[k]@ == place_domain.places@[i]@;
                assert(body.names_place(candidates@[k]@));
            }
        }
        let n = place_domain.len();
        let num_regions = count_regions(body, outlives_constraints);
        let mut loans = empty_table(num_regions, n);
        let mut regions = no_regions(n);
        seed_pointers(body, &place_domain, &mut loans, &mut regions);
        seed_borrows(body, &place_domain, &mut loans);
        let ghost seeds = loans@;
        let region_graph = region_edges(outlives_constraints, num_regions);
        proof {
            assert forall|a: int, b: int| has_edge(region_graph@, a, b)
                <==> is_region_edge(outlives_constraints@, num_regions as int, a, b) by {
                if has_edge(region_graph@, a, b) {
                    let e = choose|e: int| 0 <= e < region_graph@.len() && region_graph@[e].0 == a && region_graph@[e].1 == b;
                    assert(is_region_edge(outlives_constraints@, num_regions as int, region_graph@[e].0 as int, region_graph@[e].1 as int));
                }
                if is_region_edge(outlives_constraints@, num_regions as int, a, b) {
                    let e = choose|e: int| 0 <= e < region_graph@.len() && (#[trigger] region_graph@[e]).0 == a && region_graph@[e].1 == b;
                    assert(has_edge(region_graph@, a, b));
                }
            }
        }
        propagate_loans(&mut loans, &region_graph, n);
        let loan_locals = index_loan_locals(&loans, &place_domain);
        proof {
            assert forall|g: int, l: int| 0 <= g < loans@.len() && 0 <= l < n implies (#[trigger] loans@[g]@[l]
                <==> exists|g0: int| 0 <= g0 < loans@.len() && body.seeded(g0, place_domain.places@[l]@)
                    && reaches(region_graph@, g0, g)) by {
                if loans@[g]@[l] {
                    let g0 = choose|g0: int| 0 <= g0 < seeds.len() && #[trigger] seeds[g0]@[l] && reaches(region_graph@, g0, g);
                    assert(body.seeded(g0, place_domain.places@[l]@));
                }
                if exists|g0: int| 0 <= g0 < loans@.len() && body.seeded(g0, place_domain.places@[l]@)
                    && reaches(region_graph@, g0, g) {
                    let g0 = choose|g0: int| 0 <= g0 < loans@.len() && body.seeded(g0, place_domain.places@[l]@)
                        && reaches(region_graph@, g0, g);
                    assert(seeds[g0]@[l]);
                    assert(loans@[g0]@[l]);
                    lemma_loans_follow_reach(loans@, region_graph@, n as int, g0, g);
                }
            }
        }
        let loan_cache = no_conflicts(n);
        Aliases { loans, regions, region_graph, loan_locals, loan_cache, place_domain }
    }
}

} // verus!

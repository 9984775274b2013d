use vstd::prelude::*;

verus! {

/// One step of a projection path.
#[derive(Clone, Copy, Debug, PartialEq, Eq, Structural)]
pub enum ProjectionElem {
    Deref,
    Field(u64),
    Index(u64),
}

/// A memory location: a base variable and the projection path applied to it.
#[derive(Debug)]
pub struct Place {
    pub local: usize,
    pub projection: Vec<ProjectionElem>,
}

/// Mathematical form of a place: its local and its path.
pub struct PlaceView {
    pub local: usize,
    pub proj: Seq<ProjectionElem>,
}

impl View for Place {
    type V = PlaceView;

    open spec fn view(&self) -> PlaceView {
        PlaceView { local: self.local, proj: self.projection@ }
    }
}

/// `a` is a (non-strict) prefix of `b`.
pub open spec fn is_prefix(a: Seq<ProjectionElem>, b: Seq<ProjectionElem>) -> bool {
    a.len() <= b.len() && forall|k: int| 0 <= k < a.len() ==> a[k] == b[k]
}

/// `p` is `q` or lies inside it: same base, and `q`'s path is a prefix of `p`'s.
pub open spec fn extends(p: PlaceView, q: PlaceView) -> bool {
    p.local == q.local && is_prefix(q.proj, p.proj)
}

/// `p` lies strictly inside `q`.
pub open spec fn strictly_extends(p: PlaceView, q: PlaceView) -> bool {
    extends(p, q) && q.proj.len() < p.proj.len()
}

/// Number of dereference steps in a path.
pub open spec fn deref_count(s: Seq<ProjectionElem>) -> nat
    decreases s.len(),
{
    if s.len() == 0 {
        0
    } else {
        deref_count(s.drop_last()) + if s.last() == ProjectionElem::Deref { 1nat } else { 0nat }
    }
}

/// Position of the last dereference step of a path, or -1 when there is none.
pub open spec fn last_deref(s: Seq<ProjectionElem>) -> int
    decreases s.len(),
{
    if s.len() == 0 {
        -1
    } else if s.last() == ProjectionElem::Deref {
        s.len() - 1
    } else {
        last_deref(s.drop_last())
    }
}

/// The place `p` with `tail` appended to its path.
pub open spec fn append_path(p: PlaceView, tail: Seq<ProjectionElem>) -> PlaceView {
    PlaceView { local: p.local, proj: p.proj + tail }
}

pub proof fn lemma_last_deref_bounds(s: Seq<ProjectionElem>)
    ensures
        -1 <= last_deref(s) < s.len(),
        last_deref(s) >= 0 ==> s[last_deref(s)] == ProjectionElem::Deref,
        forall|k: int| last_deref(s) < k < s.len() ==> s[k] != ProjectionElem::Deref,
    decreases s.len(),
{
    if s.len() > 0 && s.last() != ProjectionElem::Deref {
        lemma_last_deref_bounds(s.drop_last());
        assert forall|k: int| last_deref(s) < k < s.len() implies s[k] != ProjectionElem::Deref by {
            if k < s.len() - 1 {
                assert(s.drop_last()[k] == s[k]);
            }
        }
    }
}

/// A place without dereference steps has no last dereference.
pub proof fn lemma_no_deref(s: Seq<ProjectionElem>)
    requires
        forall|k: int| 0 <= k < s.len() ==> s[k] != ProjectionElem::Deref,
    ensures
        last_deref(s) == -1,
    decreases s.len(),
{
    if s.len() > 0 {
        lemma_no_deref(s.drop_last());
    }
}

pub fn copy_path(s: &Vec<ProjectionElem>) -> (r: Vec<ProjectionElem>)
    ensures
        r@ == s@,
{
    let mut r: Vec<ProjectionElem> = Vec::new();
    let mut i: usize = 0;
    while i < s.len()
        invariant
            i <= s@.len(),
            r@ == s@.subrange(0, i as int),
        decreases s@.len() - i,
    {
        r.push(s[i]);
        i = i + 1;
        assert(r@ =~= s@.subrange(0, i as int));
    }
    assert(r@ =~= s@);
    r
}

impl Place {
    /// A place made of a bare local, with an empty path.
    pub fn from_local(local: usize) -> (r: Place)
        ensures
            r@.local == local,
            r@.proj.len() == 0,
    {
        Place { local, projection: Vec::new() }
    }

    pub fn copy(&self) -> (r: Place)
        ensures
            r@ == self@,
    {
        Place { local: self.local, projection: copy_path(&self.projection) }
    }

    /// This place followed by one more dereference step.
    pub fn deref(&self) -> (r: Place)
        requires
            self@.proj.len() < usize::MAX,
        ensures
            r@ == append_path(self@, seq![ProjectionElem::Deref]),
    {
        let mut p = copy_path(&self.projection);
        p.push(ProjectionElem::Deref);
        let r = Place { local: self.local, projection: p };
        assert(r@.proj =~= self@.proj + seq![ProjectionElem::Deref]);
        r
    }

    /// Structural equality of two places.
    pub fn same(&self, other: &Place) -> (r: bool)
        ensures
            r == (self@ == other@),
    {
        if self.local != other.local || self.projection.len() != other.projection.len() {
            return false;
        }
        let mut i: usize = 0;
        while i < self.projection.len()
            invariant
                i <= self@.proj.len(),
                self@.proj.len() == other@.proj.len(),
                forall|k: int| 0 <= k < i ==> self@.proj[k] == other@.proj[k],
            decreases self@.proj.len() - i,
        {
            if self.projection[i] != other.projection[i] {
                return false;
            }
            i = i + 1;
        }
        assert(self@.proj =~= other@.proj);
        true
    }

    /// Whether this place is `whole` or lies inside it.
    pub fn extends(&self, whole: &Place) -> (r: bool)
        ensures
            r == extends(self@, whole@),
    {
        if self.local != whole.local || whole.projection.len() > self.projection.len() {
            return false;
        }
        let mut i: usize = 0;
        while i < whole.projection.len()
            invariant
                i <= whole@.proj.len() <= self@.proj.len(),
                forall|k: int| 0 <= k < i ==> whole@.proj[k] == self@.proj[k],
            decreases whole@.proj.len() - i,
        {
            if self.projection[i] != whole.projection[i] {
                return false;
            }
            i = i + 1;
        }
        true
    }

    /// Whether this place lies strictly inside `whole`.
    pub fn strictly_extends(&self, whole: &Place) -> (r: bool)
        ensures
            r == strictly_extends(self@, whole@),
    {
        whole.projection.len() < self.projection.len() && self.extends(whole)
    }

    /// Number of dereference steps on the path.
    pub fn deref_count(&self) -> (r: usize)
        ensures
            r == deref_count(self@.proj),
    {
        let s = &self.projection;
        let mut n: usize = 0;
        let mut i: usize = 0;
        while i < s.len()
            invariant
                i <= s@.len(),
                n <= i,
                n == deref_count(s@.subrange(0, i as int)),
            decreases s@.len() - i,
        {
            assert(s@.subrange(0, i + 1).drop_last() =~= s@.subrange(0, i as int));
            if s[i] == ProjectionElem::Deref {
                n = n + 1;
            }
            i = i + 1;
        }
        assert(s@.subrange(0, i as int) =~= s@);
        n
    }

    /// Splits the place at its last dereference step: the pointer that is
    /// dereferenced, and the path that follows the dereference.
    pub fn split_deref(&self) -> (r: Option<(Place, Vec<ProjectionElem>)>)
        ensures
            last_deref(self@.proj) < 0 ==> r is None,
            last_deref(self@.proj) >= 0 ==> (r matches Some((ptr, tail)) && ptr@ == (PlaceView {
                local: self@.local,
                proj: self@.proj.subrange(0, last_deref(self@.proj)),
            }) && tail@ == self@.proj.subrange(last_deref(self@.proj) + 1, self@.proj.len() as int)),
    {
        let s = &self.projection;
        let mut i: usize = s.len();
        assert(s@.subrange(0, i as int) =~= s@);
        while i > 0
            invariant
                i <= s@.len(),
                s@ == self@.proj,
                last_deref(s@) == last_deref(s@.subrange(0, i as int)),
            decreases i,
        {
            let ghost pre = s@.subrange(0, i as int);
            assert(pre.drop_last() =~= s@.subrange(0, i - 1));
            assert(pre.last() == s@[i - 1]);
            if s[i - 1] == ProjectionElem::Deref {
                assert(last_deref(s@) == i - 1);
                let mut ptr: Vec<ProjectionElem> = Vec::new();
                let mut j: usize = 0;
                while j < i - 1
                    invariant
                        j <= i - 1,
                        i <= s@.len(),
                        last_deref(s@) == i - 1,
                        s@ == self@.proj,
                        ptr@ == s@.subrange(0, j as int),
                    decreases i - 1 - j,
                {
                    ptr.push(s[j]);
                    j = j + 1;
                    assert(ptr@ =~= s@.subrange(0, j as int));
                }
                let mut tail: Vec<ProjectionElem> = Vec::new();
                let mut k: usize = i;
                while k < s.len()
                    invariant
                        i <= k <= s@.len(),
                        last_deref(s@) == i - 1,
                        s@ == self@.proj,
                        tail@ == s@.subrange(i as int, k as int),
                    decreases s@.len() - k,
                {
                    tail.push(s[k]);
                    k = k + 1;
                    assert(tail@ =~= s@.subrange(i as int, k as int));
                }
                return Some((Place { local: self.local, projection: ptr }, tail));
            }
            i = i - 1;
        }
        assert(s@.subrange(0, 0) =~= Seq::<ProjectionElem>::empty());
        None
    }

    /// This place with `tail` appended to its path.
    pub fn append(&self, tail: &Vec<ProjectionElem>) -> (r: Place)
        requires
            self@.proj.len() + tail@.len() <= usize::MAX,
        ensures
            r@ == append_path(self@, tail@),
    {
        let mut p = copy_path(&self.projection);
        let mut k: usize = 0;
        while k < tail.len()
            invariant
                k <= tail@.len(),
                p@ == self@.proj + tail@.subrange(0, k as int),
            decreases tail@.len() - k,
        {
            p.push(tail[k]);
            k = k + 1;
            assert(p@ =~= self@.proj + tail@.subrange(0, k as int));
        }
        assert(tail@.subrange(0, k as int) =~= tail@);
        Place { local: self.local, projection: p }
    }
}

} // verus!

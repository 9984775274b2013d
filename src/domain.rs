use vstd::prelude::*;
use crate::place::{Place, PlaceView};

verus! {

/// `p` stands somewhere in `s`.
pub open spec fn in_list(s: Seq<Place>, p: PlaceView) -> bool {
    exists|k: int| 0 <= k < s.len() && s[k]@ == p
}

/// The views of a list of places.
pub open spec fn views(s: Seq<Place>) -> Seq<PlaceView> {
    s.map_values(|p: Place| p@)
}

/// Each place of `s` once, at its first occurrence.
pub open spec fn first_occurrences(s: Seq<PlaceView>) -> Seq<PlaceView>
    decreases s.len(),
{
    if s.len() == 0 {
        Seq::empty()
    } else {
        let d = first_occurrences(s.drop_last());
        if d.contains(s.last()) {
            d
        } else {
            d.push(s.last())
        }
    }
}

/// The places of one function body, each under a dense index.
#[derive(Debug)]
pub struct PlaceDomain {
    pub places: Vec<Place>,
}

impl PlaceDomain {
    /// No place appears twice, so that a place has at most one index.
    pub open spec fn wf(&self) -> bool {
        &&& forall|i: int, j: int|
            0 <= i < self.places@.len() && 0 <= j < self.places@.len() && i != j
                ==> self.places@[i]@ != self.places@[j]@
        &&& forall|i: int| 0 <= i < self.places@.len() ==> self.places@[i]@.proj.len() <= usize::MAX
    }

    /// `p` has an index in the domain.
    pub open spec fn contains(&self, p: PlaceView) -> bool {
        exists|i: int| 0 <= i < self.places@.len() && self.places@[i]@ == p
    }

    /// The domain over a list of places: each distinct place once.
    pub fn new(candidates: &Vec<Place>) -> (r: PlaceDomain)
        ensures
            r.wf(),
            forall|k: int| 0 <= k < candidates@.len() ==> r.contains(#[trigger] candidates@[k]@),
            forall|i: int| 0 <= i < r.places@.len() ==> in_list(candidates@, #[trigger] r.places@[i]@),
            views(r.places@) == first_occurrences(views(candidates@)),
    {
        let mut d = PlaceDomain { places: Vec::new() };
        let mut k: usize = 0;
        while k < candidates.len()
            invariant
                k <= candidates@.len(),
                d.wf(),
                forall|k2: int| 0 <= k2 < k ==> d.contains(#[trigger] candidates@[k2]@),
                forall|i: int| 0 <= i < d.places@.len() ==> in_list(candidates@, #[trigger] d.places@[i]@),
                views(d.places@) == first_occurrences(views(candidates@).subrange(0, k as int)),
            decreases candidates@.len() - k,
        {
            let c = &candidates[k];
            let ghost sub = views(candidates@).subrange(0, k + 1);
            proof {
                assert(sub.drop_last() =~= views(candidates@).subrange(0, k as int));
                assert(sub.last() == c@);
                assert(views(d.places@).contains(c@) == d.contains(c@)) by {
                    if d.contains(c@) {
                        let i = choose|i: int| 0 <= i < d.places@.len() && d.places@[i]@ == c@;
                        assert(views(d.places@)[i] == c@);
                    }
                    if views(d.places@).contains(c@) {
                        let i = choose|i: int| 0 <= i < views(d.places@).len() && views(d.places@)[i] == c@;
                        assert(d.places@[i]@ == c@);
                    }
                }
            }
            match d.index(c) {
                Some(_) => {},
                None => {
                    let p = c.copy();
                    let ghost old_places = d.places@;
                    assert(p.projection@.len() == p.projection.len());
                    d.places.push(p);
                    assert(views(d.places@) =~= views(old_places).push(c@));
                    assert forall|k2: int| 0 <= k2 < k implies d.contains(#[trigger] candidates@[k2]@) by {
                        let i = choose|i: int| 0 <= i < old_places.len() && old_places[i]@ == candidates@[k2]@;
                        assert(d.places@[i] == old_places[i]);
                    }
                    assert(d.places@[d.places@.len() - 1]@ == candidates@[k as int]@);
                    assert forall|i: int| 0 <= i < d.places@.len() implies in_list(candidates@, #[trigger] d.places@[i]@) by {
                        if i < old_places.len() {
                            assert(d.places@[i] == old_places[i]);
                        } else {
                            assert(candidates@[k as int]@ == d.places@[i]@);
                        }
                    }
                },
            }
            k = k + 1;
        }
        assert(views(candidates@).subrange(0, k as int) =~= views(candidates@));
        d
    }

    /// The index of `p`, if `p` is in the domain.
    pub fn index(&self, p: &Place) -> (r: Option<usize>)
        ensures
            r matches Some(i) ==> i < self.places@.len() && self.places@[i as int]@ == p@,
            r is None ==> !self.contains(p@),
    {
        let mut i: usize = 0;
        while i < self.places.len()
            invariant
                i <= self.places@.len(),
                forall|j: int| 0 <= j < i ==> self.places@[j]@ != p@,
            decreases self.places@.len() - i,
        {
            if self.places[i].same(p) {
                return Some(i);
            }
            i = i + 1;
        }
        None
    }

    /// The place under index `i`.
    pub fn value(&self, i: usize) -> (r: &Place)
        requires
            i < self.places@.len(),
        ensures
            *r == self.places@[i as int],
    {
        &self.places[i]
    }

    pub fn len(&self) -> (r: usize)
        ensures
            r == self.places@.len(),
    {
        self.places.len()
    }
}

} // verus!

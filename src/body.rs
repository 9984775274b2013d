use vstd::prelude::*;
use crate::domain::{in_list, views};
use crate::place::{append_path, Place, PlaceView, ProjectionElem};

verus! {

/// The local that holds a function's return value.
pub const RETURN_PLACE: usize = 0;

/// A program point: a block and the index of a statement in it.
#[derive(Clone, Copy, Debug, PartialEq, Eq, Structural)]
pub struct Location {
    pub block: usize,
    pub statement_index: usize,
}

#[derive(Clone, Copy, Debug, PartialEq, Eq, Structural)]
pub enum Mutability {
    Not,
    Mut,
}

#[derive(Clone, Copy, Debug, PartialEq, Eq, Structural)]
pub enum BorrowKind {
    Shared,
    Mut,
}

/// The value side of an assignment.
#[derive(Debug)]
pub enum Rvalue {
    /// A borrow of a place, under a region.
    Ref(usize, BorrowKind, Place),
    /// A read of a place.
    Use(Place),
    /// Any other value.
    Other,
}

#[derive(Debug)]
pub enum Statement {
    Assign(Place, Rvalue),
    Nop,
}

/// A pointer found inside a local's type: the place that holds it, its region and mutability.
#[derive(Debug)]
pub struct InteriorPointer {
    pub region: usize,
    pub place: Place,
    pub mutability: Mutability,
}

/// A function body, with what its types say of its locals.
///
/// Local 0 is the return slot; locals `1..=arg_count` are the parameters.
#[derive(Debug)]
pub struct Body {
    pub arg_count: usize,
    pub blocks: Vec<Vec<Statement>>,
    /// The places that unfolding each local's declared type yields.
    pub interior_places: Vec<Place>,
    /// The pointers inside each local's declared type.
    pub interior_pointers: Vec<InteriorPointer>,
}

impl Body {
    /// Region ids and paths leave room for one more step.
    pub open spec fn wf(&self) -> bool {
        &&& forall|k: int| 0 <= k < self.interior_pointers@.len() ==> {
            &&& (#[trigger] self.interior_pointers@[k]).region < usize::MAX
            &&& self.interior_pointers@[k].place@.proj.len() < usize::MAX
        }
        &&& forall|b: int, s: int| #![trigger self.blocks@[b]@[s]]
            0 <= b < self.blocks@.len() && 0 <= s < self.blocks@[b]@.len() ==> match self.blocks@[b]@[s] {
                Statement::Assign(_, Rvalue::Ref(r, _, _)) => r < usize::MAX,
                _ => true,
            }
    }

    /// `p` is borrowed under region `r` by some statement.
    pub open spec fn borrows(&self, r: int, p: PlaceView) -> bool {
        exists|b: int, s: int| #![trigger self.blocks@[b]@[s]]
            0 <= b < self.blocks@.len() && 0 <= s < self.blocks@[b]@.len() && match self.blocks@[b]@[s] {
                Statement::Assign(_, Rvalue::Ref(r2, _, q)) => r2 == r && q@ == p,
                _ => false,
            }
    }

    /// `p` is assigned to by some statement.
    pub open spec fn assigns(&self, p: PlaceView) -> bool {
        exists|b: int, s: int| #![trigger self.blocks@[b]@[s]]
            0 <= b < self.blocks@.len() && 0 <= s < self.blocks@[b]@.len() && match self.blocks@[b]@[s] {
                Statement::Assign(q, _) => q@ == p,
                _ => false,
            }
    }

    /// Some interior pointer of region `r` is held at `p`.
    pub open spec fn pointer_at(&self, r: int, p: PlaceView) -> bool {
        exists|k: int| 0 <= k < self.interior_pointers@.len()
            && (#[trigger] self.interior_pointers@[k]).region == r && self.interior_pointers@[k].place@ == p
    }

    /// Place `p` is what some interior pointer points to.
    pub open spec fn pointee(&self, p: PlaceView) -> bool {
        exists|k: int| 0 <= k < self.interior_pointers@.len()
            && p == append_path((#[trigger] self.interior_pointers@[k]).place@, seq![ProjectionElem::Deref])
    }

    /// The initial loans: region `r` may point to `p`, as the pointee of an
    /// interior pointer of a parameter, or as a borrowed place.
    pub open spec fn seeded(&self, r: int, p: PlaceView) -> bool {
        (exists|k: int| 0 <= k < self.interior_pointers@.len()
            && (#[trigger] self.interior_pointers@[k]).region == r
            && 1 <= self.interior_pointers@[k].place@.local <= self.arg_count
            && p == append_path(self.interior_pointers@[k].place@, seq![ProjectionElem::Deref]))
        || self.borrows(r, p)
    }

    /// The places an analysis of this body indexes.
    pub open spec fn names_place(&self, p: PlaceView) -> bool {
        ||| in_list(self.interior_places@, p)
        ||| (exists|r: int| self.pointer_at(r, p))
        ||| self.pointee(p)
        ||| (exists|r: int| self.seeded(r, p))
        ||| self.assigns(p)
    }

    /// Region `r` is named by an interior pointer, a constraint or a borrow.
    pub open spec fn names_region(&self, constraints: Seq<(usize, usize, usize)>, r: int) -> bool {
        ||| (exists|k: int| 0 <= k < self.interior_pointers@.len() && (#[trigger] self.interior_pointers@[k]).region == r)
        ||| (exists|k: int| 0 <= k < constraints.len() && ((#[trigger] constraints[k]).0 == r || constraints[k].1 == r))
        ||| (exists|p: PlaceView| self.borrows(r, p))
    }

    /// One more than the largest region that the body and `constraints` name.
    pub open spec fn bounds_regions(&self, constraints: Seq<(usize, usize, usize)>, n: int) -> bool {
        &&& forall|k: int| 0 <= k < self.interior_pointers@.len() ==> (#[trigger] self.interior_pointers@[k]).region < n
        &&& forall|k: int| 0 <= k < constraints.len() ==> (#[trigger] constraints[k]).0 < n && constraints[k].1 < n
        &&& forall|r: int, p: PlaceView| self.borrows(r, p) ==> r < n
    }
}

/// Each pointer's place, then its pointee, pointer by pointer.
pub open spec fn pointer_places(ips: Seq<InteriorPointer>) -> Seq<PlaceView>
    decreases ips.len(),
{
    if ips.len() == 0 {
        Seq::empty()
    } else {
        pointer_places(ips.drop_last()) + seq![ips.last().place@, append_path(ips.last().place@, seq![ProjectionElem::Deref])]
    }
}

/// The target of an assignment, then the borrowed place if it is a borrow.
pub open spec fn stmt_places(st: Statement) -> Seq<PlaceView> {
    match st {
        Statement::Assign(q, Rvalue::Ref(_, _, bp)) => seq![q@, bp@],
        Statement::Assign(q, _) => seq![q@],
        Statement::Nop => Seq::empty(),
    }
}

/// The places of a block's statements, in order.
pub open spec fn block_places(stmts: Seq<Statement>) -> Seq<PlaceView>
    decreases stmts.len(),
{
    if stmts.len() == 0 {
        Seq::empty()
    } else {
        block_places(stmts.drop_last()) + stmt_places(stmts.last())
    }
}

/// The places of every block's statements, block by block.
pub open spec fn blocks_places(blocks: Seq<Vec<Statement>>) -> Seq<PlaceView>
    decreases blocks.len(),
{
    if blocks.len() == 0 {
        Seq::empty()
    } else {
        blocks_places(blocks.drop_last()) + block_places(blocks.last()@)
    }
}

proof fn lemma_views_push(s: Seq<Place>, x: Place)
    ensures
        views(s.push(x)) == views(s).push(x@),
{
    assert(views(s.push(x)) =~= views(s).push(x@));
}

proof fn lemma_in_list_push(s: Seq<Place>, x: Place, p: PlaceView)
    requires
        in_list(s, p),
    ensures
        in_list(s.push(x), p),
{
    let k = choose|k: int| 0 <= k < s.len() && s[k]@ == p;
    assert(s.push(x)[k] == s[k]);
}

proof fn lemma_in_list_pushed(s: Seq<Place>, x: Place)
    ensures
        in_list(s.push(x), x@),
{
    assert(s.push(x)[s.len() as int] == x);
}

impl Body {
    /// Every place this body names: interior places of the locals, the places
    /// that hold interior pointers and their pointees, borrowed places and
    /// assignment targets.
    pub fn collect_places(&self) -> (r: Vec<Place>)
        requires
            self.wf(),
        ensures
            forall|i: int| 0 <= i < r@.len() ==> self.names_place(#[trigger] r@[i]@),
            forall|p: PlaceView| self.names_place(p) ==> in_list(r@, p),
            views(r@) == self.collected(),
    {
        let mut out: Vec<Place> = Vec::new();
        let mut k: usize = 0;
        while k < self.interior_places.len()
            invariant
                k <= self.interior_places@.len(),
                forall|i: int| 0 <= i < out@.len() ==> self.names_place(#[trigger] out@[i]@),
                forall|k2: int| 0 <= k2 < k ==> in_list(out@, #[trigger] self.interior_places@[k2]@),
                views(out@) == views(self.interior_places@.subrange(0, k as int)),
            decreases self.interior_places@.len() - k,
        {
            let ghost prev = out@;
            let p = self.interior_places[k].copy();
            out.push(p);
            proof {
                lemma_views_push(prev, p);
                assert(self.interior_places@.subrange(0, k + 1) =~= self.interior_places@.subrange(0, k as int).push(self.interior_places@[k as int]));
                lemma_views_push(self.interior_places@.subrange(0, k as int), self.interior_places@[k as int]);
                assert(views(out@) =~= views(self.interior_places@.subrange(0, k + 1)));
                lemma_in_list_pushed(prev, p);
                assert forall|k2: int| 0 <= k2 < k + 1 implies in_list(out@, #[trigger] self.interior_places@[k2]@) by {
                    if k2 < k {
                        lemma_in_list_push(prev, p, self.interior_places@[k2]@);
                    }
                }
                assert(in_list(self.interior_places@, p@));
                assert forall|i: int| 0 <= i < out@.len() implies self.names_place(#[trigger] out@[i]@) by {
                    if i < prev.len() {
                        assert(out@[i] == prev[i]);
                    }
                }
            }
            k = k + 1;
        }
        assert(self.interior_places@.subrange(0, self.interior_places@.len() as int) =~= self.interior_places@);
        let ghost head = views(out@);
        let mut k: usize = 0;
        while k < self.interior_pointers.len()
            invariant
                head == views(self.interior_places@),
                views(out@) == head + pointer_places(self.interior_pointers@.subrange(0, k as int)),
                self.wf(),
                k <= self.interior_pointers@.len(),
                forall|i: int| 0 <= i < out@.len() ==> self.names_place(#[trigger] out@[i]@),
                forall|k2: int| 0 <= k2 < self.interior_places@.len() ==> in_list(out@, #[trigger] self.interior_places@[k2]@),
                forall|k2: int| 0 <= k2 < k ==> in_list(out@, (#[trigger] self.interior_pointers@[k2]).place@)
                    && in_list(out@, append_path(self.interior_pointers@[k2].place@, seq![ProjectionElem::Deref])),
            decreases self.interior_pointers@.len() - k,
        {
            let ghost prev = out@;
            let ip = &self.interior_pointers[k];
            let p = ip.place.copy();
            let d = ip.place.deref();
            out.push(p);
            let ghost mid = out@;
            out.push(d);
            proof {
                assert(self.interior_pointers@.subrange(0, k + 1).drop_last() =~= self.interior_pointers@.subrange(0, k as int));
                assert(self.interior_pointers@.subrange(0, k + 1).last() == *ip);
                lemma_views_push(prev, p);
                lemma_views_push(mid, d);
                assert(views(out@) =~= head + pointer_places(self.interior_pointers@.subrange(0, k + 1)));
                lemma_in_list_pushed(prev, p);
                lemma_in_list_push(mid, d, p@);
                lemma_in_list_pushed(mid, d);
                assert(self.pointer_at(ip.region as int, p@));
                assert(self.pointee(d@));
                assert forall|k2: int| 0 <= k2 < self.interior_places@.len()
                    implies in_list(out@, #[trigger] self.interior_places@[k2]@) by {
                    lemma_in_list_push(prev, p, self.interior_places@[k2]@);
                    lemma_in_list_push(mid, d, self.interior_places@[k2]@);
                }
                assert forall|k2: int| 0 <= k2 < k + 1 implies in_list(out@, (#[trigger] self.interior_pointers@[k2]).place@)
                    && in_list(out@, append_path(self.interior_pointers@[k2].place@, seq![ProjectionElem::Deref])) by {
                    if k2 < k {
                        let q = self.interior_pointers@[k2].place@;
                        lemma_in_list_push(prev, p, q);
                        lemma_in_list_push(mid, d, q);
                        lemma_in_list_push(prev, p, append_path(q, seq![ProjectionElem::Deref]));
                        lemma_in_list_push(mid, d, append_path(q, seq![ProjectionElem::Deref]));
                    }
                }
                assert forall|i: int| 0 <= i < out@.len() implies self.names_place(#[trigger] out@[i]@) by {
                    if i < prev.len() {
                        assert(out@[i] == prev[i]);
                    }
                }
            }
            k = k + 1;
        }
        assert(self.interior_pointers@.subrange(0, self.interior_pointers@.len() as int) =~= self.interior_pointers@);
        let ghost head2 = views(out@);
        let mut b: usize = 0;
        while b < self.blocks.len()
            invariant
                head2 == views(self.interior_places@) + pointer_places(self.interior_pointers@),
                views(out@) == head2 + blocks_places(self.blocks@.subrange(0, b as int)),
                self.wf(),
                b <= self.blocks@.len(),
                forall|i: int| 0 <= i < out@.len() ==> self.names_place(#[trigger] out@[i]@),
                forall|k2: int| 0 <= k2 < self.interior_places@.len() ==> in_list(out@, #[trigger] self.interior_places@[k2]@),
                forall|k2: int| 0 <= k2 < self.interior_pointers@.len() ==> in_list(out@, (#[trigger] self.interior_pointers@[k2]).place@)
                    && in_list(out@, append_path(self.interior_pointers@[k2].place@, seq![ProjectionElem::Deref])),
                forall|b2: int, s2: int| #![trigger self.blocks@[b2]@[s2]]
                    0 <= b2 < b && 0 <= s2 < self.blocks@[b2]@.len() ==> self.stmt_places_in(out@, b2, s2),
            decreases self.blocks@.len() - b,
        {
            let block = &self.blocks[b];
            let ghost head3 = views(out@);
            let mut s: usize = 0;
            while s < block.len()
                invariant
                    head3 == head2 + blocks_places(self.blocks@.subrange(0, b as int)),
                    views(out@) == head3 + block_places(block@.subrange(0, s as int)),
                    self.wf(),
                    b < self.blocks@.len(),
                    block == self.blocks@[b as int],
                    s <= block@.len(),
                    forall|i: int| 0 <= i < out@.len() ==> self.names_place(#[trigger] out@[i]@),
                    forall|k2: int| 0 <= k2 < self.interior_places@.len() ==> in_list(out@, #[trigger] self.interior_places@[k2]@),
                    forall|k2: int| 0 <= k2 < self.interior_pointers@.len() ==> in_list(out@, (#[trigger] self.interior_pointers@[k2]).place@)
                        && in_list(out@, append_path(self.interior_pointers@[k2].place@, seq![ProjectionElem::Deref])),
                    forall|b2: int, s2: int| #![trigger self.blocks@[b2]@[s2]]
                        0 <= b2 < b && 0 <= s2 < self.blocks@[b2]@.len() ==> self.stmt_places_in(out@, b2, s2),
                    forall|s2: int| 0 <= s2 < s ==> self.stmt_places_in(out@, b as int, s2),
                decreases block@.len() - s,
            {
                let ghost prev = out@;
                match &block[s] {
                    Statement::Assign(q, rv) => {
                        let qc = q.copy();
                        out.push(qc);
                        proof {
                            lemma_in_list_pushed(prev, qc);
                            assert(self.assigns(qc@));
                        }
                        match rv {
                            Rvalue::Ref(r, _, bp) => {
                                let ghost mid = out@;
                                let bc = bp.copy();
                                out.push(bc);
                                proof {
                                    lemma_views_push(prev, qc);
                                    lemma_views_push(mid, bc);
                                    assert(views(out@) =~= views(prev) + stmt_places(block@[s as int]));
                                    lemma_in_list_pushed(mid, bc);
                                    lemma_in_list_push(mid, bc, qc@);
                                    assert(self.borrows(*r as int, bc@));
                                    assert(self.seeded(*r as int, bc@));
                                    assert forall|p: PlaceView| in_list(prev, p) implies in_list(out@, p) by {
                                        lemma_in_list_push(prev, qc, p);
                                        lemma_in_list_push(mid, bc, p);
                                    }
                                }
                            },
                            _ => {
                                proof {
                                    lemma_views_push(prev, qc);
                                    assert(views(out@) =~= views(prev) + stmt_places(block@[s as int]));
                                    assert forall|p: PlaceView| in_list(prev, p) implies in_list(out@, p) by {
                                        lemma_in_list_push(prev, qc, p);
                                    }
                                }
                            },
                        }
                    },
                    Statement::Nop => {
                        assert(out@ == prev);
                        assert(views(out@) =~= views(prev) + stmt_places(block@[s as int]));
                    },
                }
                proof {
                    assert(block@.subrange(0, s + 1).drop_last() =~= block@.subrange(0, s as int));
                    assert(block@.subrange(0, s + 1).last() == block@[s as int]);
                    assert(views(out@) =~= head3 + block_places(block@.subrange(0, s + 1)));
                    assert forall|s2: int| 0 <= s2 < s + 1 implies self.stmt_places_in(out@, b as int, s2) by {
                        if s2 < s {
                            assert(self.stmt_places_in(prev, b as int, s2));
                        }
                    }
                }
                s = s + 1;
            }
            proof {
                assert(block@.subrange(0, s as int) =~= block@);
                assert(self.blocks@.subrange(0, b + 1).drop_last() =~= self.blocks@.subrange(0, b as int));
                assert(self.blocks@.subrange(0, b + 1).last() == *block);
                assert(views(out@) =~= head2 + blocks_places(self.blocks@.subrange(0, b + 1)));
            }
            b = b + 1;
        }
        assert(self.blocks@.subrange(0, b as int) =~= self.blocks@);
        assert(views(out@) =~= views(self.interior_places@) + pointer_places(self.interior_pointers@) + blocks_places(self.blocks@));
        out
    }

    /// The places this body names, in the order they are indexed before
    /// repeats are dropped: the interior places, the interior pointers with
    /// their pointees, then the statements' places in program order.
    pub open spec fn collected(&self) -> Seq<PlaceView> {
        views(self.interior_places@) + pointer_places(self.interior_pointers@) + blocks_places(self.blocks@)
    }

    /// The places that statement `s` of block `b` names are in `out`.
    pub open spec fn stmt_places_in(&self, out: Seq<Place>, b: int, s: int) -> bool {
        match self.blocks@[b]@[s] {
            Statement::Assign(q, rv) => in_list(out, q@) && match rv {
                Rvalue::Ref(_, _, bp) => in_list(out, bp@),
                _ => true,
            },
            _ => true,
        }
    }
}

} // verus!

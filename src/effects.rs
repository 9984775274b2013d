use vstd::prelude::*;
use crate::aliases::{before, covers, lemma_same_state_closed, lemma_same_state_overlap, Aliases};
use crate::body::{Body, Location, Mutability, Statement, RETURN_PLACE};
use crate::place::{append_path, Place, PlaceView, ProjectionElem};

verus! {

/// What an effect touches: a parameter, by its position, or the return value.
#[derive(Clone, Copy, Debug, PartialEq, Eq, Structural)]
pub enum EffectKind {
    MutArg(usize),
    Return,
}

/// One observed mutation: its kind, the place written, and where.
#[derive(Debug)]
pub struct Effect {
    pub kind: EffectKind,
    pub place: Place,
    pub location: Location,
}

pub open spec fn effect_view(e: Effect) -> (EffectKind, PlaceView, Location) {
    (e.kind, e.place@, e.location)
}

/// The mutations found so far, and the places reachable through the mutable
/// interior pointers of the parameters.
#[derive(Debug)]
pub struct FindEffects {
    pub mut_args: Vec<bool>,
    pub effects: Vec<Effect>,
}

/// Place `p` is what a mutable interior pointer of a parameter points to.
pub open spec fn is_mut_arg(body: &Body, p: PlaceView) -> bool {
    exists|k: int| 0 <= k < body.interior_pointers@.len()
        && (#[trigger] body.interior_pointers@[k]).mutability == Mutability::Mut
        && 1 <= body.interior_pointers@[k].place@.local <= body.arg_count
        && p == append_path(body.interior_pointers@[k].place@, seq![ProjectionElem::Deref])
}

/// `v` is an effect that statement `stmt` at `loc` has: a write to the return
/// slot, or a write that overlaps a place reachable from a mutable parameter.
pub open spec fn effect_of(al: &Aliases, mut_args: Seq<bool>, stmt: &Statement, loc: Location,
    v: (EffectKind, PlaceView, Location)) -> bool {
    match stmt {
        Statement::Assign(q, _) => if q.local == RETURN_PLACE {
            v == (EffectKind::Return, q@, loc)
        } else {
            exists|i: int, j: int| #![trigger al.place(i), mut_args[j]]
                0 <= i < al.n() && 0 <= j < al.n() && al.place(i) == q@
                && (al.is_sub(i, j) || al.is_super(i, j)) && mut_args[j]
                && v == (EffectKind::MutArg((al.place(j).local - 1) as usize), al.place(j), loc)
        },
        Statement::Nop => false,
    }
}

impl FindEffects {
    pub open spec fn fits(&self, al: &Aliases) -> bool {
        &&& self.mut_args@.len() == al.n()
        &&& forall|j: int| 0 <= j < al.n() && #[trigger] self.mut_args@[j] ==> al.place(j).local >= 1
    }

    /// An empty record for `body`, with the places its mutable parameters reach.
    pub fn new(aliases: &Aliases, body: &Body) -> (r: FindEffects)
        requires
            aliases.wf(),
        ensures
            r.fits(aliases),
            forall|j: int| 0 <= j < aliases.n() ==> (#[trigger] r.mut_args@[j] <==> is_mut_arg(body, aliases.place(j))),
            r.effects@.len() == 0,
    {
        let n = aliases.place_domain.len();
        let mut mut_args: Vec<bool> = Vec::new();
        let mut j: usize = 0;
        while j < n
            invariant
                aliases.wf(),
                n == aliases.n(),
                j <= n,
                mut_args@.len() == j,
                forall|j2: int| 0 <= j2 < j ==> (#[trigger] mut_args@[j2] <==> is_mut_arg(body, aliases.place(j2))),
            decreases n - j,
        {
            let p = aliases.place_domain.value(j);
            let mut found = false;
            let mut k: usize = 0;
            while k < body.interior_pointers.len()
                invariant
                    k <= body.interior_pointers@.len(),
                    *p == aliases.place_domain.places@[j as int],
                    found == exists|k2: int| 0 <= k2 < k
                        && (#[trigger] body.interior_pointers@[k2]).mutability == Mutability::Mut
                        && 1 <= body.interior_pointers@[k2].place@.local <= body.arg_count
                        && p@ == append_path(body.interior_pointers@[k2].place@, seq![ProjectionElem::Deref]),
                decreases body.interior_pointers@.len() - k,
            {
                let ip = &body.interior_pointers[k];
                if ip.mutability == Mutability::Mut && 1 <= ip.place.local && ip.place.local <= body.arg_count
                    && p.local == ip.place.local && p.projection.len() > 0 && p.projection.len() - 1 == ip.place.projection.len() {
                    let last = p.projection.len() - 1;
                    if p.projection[last] == ProjectionElem::Deref && p.extends(&ip.place) {
                        assert(p@.proj =~= ip.place@.proj + seq![ProjectionElem::Deref]);
                        found = true;
                    }
                }
                proof {
                    let q = append_path(ip.place@, seq![ProjectionElem::Deref]);
                    if p@ == q && !found {
                        assert(p@.proj[last_index(p@.proj)] == ProjectionElem::Deref);
                        assert forall|x: int| 0 <= x < ip.place@.proj.len() implies ip.place@.proj[x] == p@.proj[x] by {
                            assert(q.proj[x] == ip.place@.proj[x]);
                        }
                    }
                }
                k = k + 1;
            }
            mut_args.push(found);
            j = j + 1;
        }
        FindEffects { mut_args, effects: Vec::new() }
    }
}

pub open spec fn last_index(s: Seq<ProjectionElem>) -> int {
    s.len() - 1
}

/// The place of `e` is one of the first `j` places of the domain.
pub open spec fn placed_before(al: &Aliases, e: Effect, j: int) -> bool {
    exists|j2: int| 0 <= j2 < j && #[trigger] al.place(j2) == e.place@
}

/// No two entries of `s` from position `from` on are the same effect.
pub open spec fn distinct_from(s: Seq<Effect>, from: int) -> bool {
    forall|k1: int, k2: int| from <= k1 < k2 < s.len() ==> effect_view(#[trigger] s[k1]) != effect_view(#[trigger] s[k2])
}

/// The place that `stmt` writes, unless it is the return slot, has an index.
pub open spec fn target_known(al: &Aliases, stmt: &Statement) -> bool {
    match stmt {
        Statement::Assign(q, _) => q.local == RETURN_PLACE || al.place_domain.contains(q@),
        Statement::Nop => true,
    }
}

/// `effects` begins with `prefix` and then holds exactly the effects of
/// `stmt` at `loc`.
pub open spec fn extends_with(al: &Aliases, mut_args: Seq<bool>, prefix: Seq<Effect>, effects: Seq<Effect>,
    stmt: &Statement, loc: Location) -> bool {
    &&& prefix.len() <= effects.len()
    &&& forall|k: int| 0 <= k < prefix.len() ==> effects[k] == prefix[k]
    &&& forall|k: int| prefix.len() <= k < effects.len() ==> effect_of(al, mut_args, stmt, loc, effect_view(#[trigger] effects[k]))
    &&& forall|v: (EffectKind, PlaceView, Location)| effect_of(al, mut_args, stmt, loc, v)
        ==> exists|k: int| prefix.len() <= k < effects.len() && effect_view(#[trigger] effects[k]) == v
}

impl FindEffects {
    /// Records the effects of one statement: a write to the return slot is a
    /// `Return` effect; any other write is a `MutArg` effect on each place that
    /// overlaps it and that a mutable parameter reaches.
    pub fn visit_statement_after_primary_effect(&mut self, aliases: &mut Aliases, statement: &Statement, location: Location)
        requires
            old(aliases).wf(),
            old(self).fits(old(aliases)),
            old(aliases).closed(),
            target_known(old(aliases), statement),
        ensures
            final(aliases).wf(),
            final(aliases).same_state(old(aliases)),
            final(self).mut_args@ == old(self).mut_args@,
            extends_with(old(aliases), old(self).mut_args@, old(self).effects@, final(self).effects@, statement, location),
            distinct_from(final(self).effects@, old(self).effects@.len() as int),
    {
        let ghost al0 = *aliases;
        match statement {
            Statement::Assign(q, _) => {
                if q.local == RETURN_PLACE {
                    self.effects.push(Effect { kind: EffectKind::Return, place: q.copy(), location });
                    assert(effect_view(self.effects@[self.effects@.len() - 1]) == (EffectKind::Return, q@, location));
                } else {
                    let i = match aliases.place_domain.index(q) {
                        Some(i) => i,
                        None => {
                            return;
                        },
                    };
                    assert(aliases.rebuilds_in_domain(i as int));
                    let c = aliases.conflicts(i);
                    let n = aliases.place_domain.len();
                    let ghost start = self.effects@;
                    let mut j: usize = 0;
                    while j < n
                        invariant
                            aliases.wf(),
                            aliases.same_state(&al0),
                            al0.conflicts_of(i as int, c),
                            i < n,
                            n == al0.n(),
                            al0.place(i as int) == q@,
                            q.local != RETURN_PLACE,
                            self.fits(&al0),
                            self.mut_args@ == old(self).mut_args@,
                            start == old(self).effects@,
                            match statement {
                                Statement::Assign(q2, _) => q2@ == q@ && q2.local == q.local,
                                _ => false,
                            },
                            j <= n,
                            start.len() <= self.effects@.len(),
                            forall|k: int| 0 <= k < start.len() ==> self.effects@[k] == start[k],
                            forall|k: int| start.len() <= k < self.effects@.len()
                                ==> effect_of(&al0, self.mut_args@, statement, location, effect_view(#[trigger] self.effects@[k])),
                            distinct_from(self.effects@, start.len() as int),
                            forall|k: int| start.len() <= k < self.effects@.len() ==> placed_before(&al0, #[trigger] self.effects@[k], j as int),
                            forall|j2: int| 0 <= j2 < j && (c.subs@[j2] || c.supers@[j2]) && #[trigger] self.mut_args@[j2]
                                ==> exists|k: int| start.len() <= k < self.effects@.len()
                                    && effect_view(#[trigger] self.effects@[k])
                                        == (EffectKind::MutArg((al0.place(j2).local - 1) as usize), al0.place(j2), location),
                        decreases n - j,
                    {
                        if (c.subs[j] || c.supers[j]) && self.mut_args[j] {
                            let p = aliases.place_domain.value(j);
                            let e = Effect { kind: EffectKind::MutArg(p.local - 1), place: p.copy(), location };
                            let ghost prev = self.effects@;
                            self.effects.push(e);
                            proof {
                                assert(effect_view(self.effects@[self.effects@.len() - 1])
                                    == (EffectKind::MutArg((al0.place(j as int).local - 1) as usize), al0.place(j as int), location));
                                assert forall|k: int| start.len() <= k < self.effects@.len()
                                    implies placed_before(&al0, #[trigger] self.effects@[k], j + 1) by {
                                    if k < prev.len() {
                                        assert(self.effects@[k] == prev[k]);
                                        assert(placed_before(&al0, prev[k], j as int));
                                        let j2 = choose|j2: int| 0 <= j2 < j && #[trigger] al0.place(j2) == prev[k].place@;
                                        assert(al0.place(j2) == self.effects@[k].place@);
                                    } else {
                                        assert(al0.place(j as int) == self.effects@[k].place@);
                                    }
                                }
                                assert forall|k1: int, k2: int| start.len() <= k1 < k2 < self.effects@.len()
                                    implies effect_view(#[trigger] self.effects@[k1]) != effect_view(#[trigger] self.effects@[k2]) by {
                                    assert(self.effects@[k1] == prev[k1]);
                                    if k2 < prev.len() {
                                        assert(self.effects@[k2] == prev[k2]);
                                    } else {
                                        assert(placed_before(&al0, prev[k1], j as int));
                                        let j2 = choose|j2: int| 0 <= j2 < j && #[trigger] al0.place(j2) == prev[k1].place@;
                                        assert(al0.place(j2) != al0.place(j as int));
                                    }
                                }
                                assert(c.subs@[j as int] || c.supers@[j as int]);
                                assert(al0.is_sub(i as int, j as int) || al0.is_super(i as int, j as int));
                                assert(self.mut_args@[j as int]);
                                assert(al0.place(i as int) == q@);
                                assert(effect_of(&al0, self.mut_args@, statement, location, effect_view(self.effects@[self.effects@.len() - 1])));
                                assert forall|j2: int| 0 <= j2 < j + 1 && (c.subs@[j2] || c.supers@[j2]) && #[trigger] self.mut_args@[j2]
                                    implies exists|k: int| start.len() <= k < self.effects@.len()
                                        && effect_view(#[trigger] self.effects@[k])
                                            == (EffectKind::MutArg((al0.place(j2).local - 1) as usize), al0.place(j2), location) by {
                                    if j2 < j {
                                        let k = choose|k: int| start.len() <= k < prev.len() && effect_view(#[trigger] prev[k])
                                            == (EffectKind::MutArg((al0.place(j2).local - 1) as usize), al0.place(j2), location);
                                        assert(self.effects@[k] == prev[k]);
                                    } else {
                                        assert(effect_view(self.effects@[self.effects@.len() - 1])
                                            == (EffectKind::MutArg((al0.place(j2).local - 1) as usize), al0.place(j2), location));
                                    }
                                }
                            }
                        }
                        j = j + 1;
                    }
                    proof {
                        assert forall|v: (EffectKind, PlaceView, Location)| effect_of(&al0, self.mut_args@, statement, location, v)
                            implies exists|k: int| start.len() <= k < self.effects@.len() && effect_view(#[trigger] self.effects@[k]) == v by {
                            let (i2, j2) = choose|i2: int, j2: int| #![trigger al0.place(i2), self.mut_args@[j2]]
                                0 <= i2 < al0.n() && 0 <= j2 < al0.n() && al0.place(i2) == q@
                                && (al0.is_sub(i2, j2) || al0.is_super(i2, j2)) && self.mut_args@[j2]
                                && v == (EffectKind::MutArg((al0.place(j2).local - 1) as usize), al0.place(j2), location);
                            assert(i2 == i);
                        }
                    }
                }
            },
            Statement::Nop => {},
        }
    }

    /// Terminators have no effect.
    pub fn visit_terminator_after_primary_effect(&mut self, location: Location)
        ensures
            final(self).mut_args@ == old(self).mut_args@,
            final(self).effects@ == old(self).effects@,
    {
    }
}

proof fn lemma_same_state_effect(a1: Aliases, a2: Aliases, mut_args: Seq<bool>, stmt: &Statement, loc: Location,
    v: (EffectKind, PlaceView, Location))
    requires
        a2.same_state(&a1),
    ensures
        effect_of(&a1, mut_args, stmt, loc, v) == effect_of(&a2, mut_args, stmt, loc, v),
{
    if let Statement::Assign(q, _) = stmt {
        if q.local != RETURN_PLACE {
            if effect_of(&a1, mut_args, stmt, loc, v) {
                let (i, j) = choose|i: int, j: int| #![trigger a1.place(i), mut_args[j]]
                    0 <= i < a1.n() && 0 <= j < a1.n() && a1.place(i) == q@
                    && (a1.is_sub(i, j) || a1.is_super(i, j)) && mut_args[j]
                    && v == (EffectKind::MutArg((a1.place(j).local - 1) as usize), a1.place(j), loc);
                lemma_same_state_overlap(a1, a2, i);
                assert(a2.place(i) == q@ && a2.place(j) == a1.place(j));
            }
            if effect_of(&a2, mut_args, stmt, loc, v) {
                let (i, j) = choose|i: int, j: int| #![trigger a2.place(i), mut_args[j]]
                    0 <= i < a2.n() && 0 <= j < a2.n() && a2.place(i) == q@
                    && (a2.is_sub(i, j) || a2.is_super(i, j)) && mut_args[j]
                    && v == (EffectKind::MutArg((a2.place(j).local - 1) as usize), a2.place(j), loc);
                lemma_same_state_overlap(a1, a2, i);
                assert(a1.place(i) == q@ && a1.place(j) == a2.place(j));
            }
        }
    }
}

proof fn lemma_effect_location(al: &Aliases, mut_args: Seq<bool>, stmt: &Statement, loc: Location,
    v: (EffectKind, PlaceView, Location))
    requires
        effect_of(al, mut_args, stmt, loc, v),
    ensures
        v.2 == loc,
{
    if let Statement::Assign(q, _) = stmt {
        if q.local != RETURN_PLACE {
            let (i, j) = choose|i: int, j: int| #![trigger al.place(i), mut_args[j]]
                0 <= i < al.n() && 0 <= j < al.n() && al.place(i) == q@
                && (al.is_sub(i, j) || al.is_super(i, j)) && mut_args[j]
                && v == (EffectKind::MutArg((al.place(j).local - 1) as usize), al.place(j), loc);
        }
    }
}

/// `v` is an effect of a statement of `body` before statement `s` of block `b`.
pub open spec fn effect_before(al: &Aliases, mut_args: Seq<bool>, body: &Body, b: int, s: int,
    v: (EffectKind, PlaceView, Location)) -> bool {
    exists|b2: int, s2: int| #![trigger body.blocks@[b2]@[s2]]
        0 <= b2 < body.blocks@.len() && 0 <= s2 < body.blocks@[b2]@.len() && before(b2, s2, b, s)
            && effect_of(al, mut_args, &body.blocks@[b2]@[s2], Location { block: b2 as usize, statement_index: s2 as usize }, v)
}

/// `v` is an effect of some statement of `body`.
pub open spec fn body_effect(al: &Aliases, mut_args: Seq<bool>, body: &Body, v: (EffectKind, PlaceView, Location)) -> bool {
    effect_before(al, mut_args, body, body.blocks@.len() as int, 0, v)
}

/// Runs the effect extractor over `body` in program order.
pub fn find_effects(aliases: &mut Aliases, body: &Body) -> (r: FindEffects)
    requires
        old(aliases).wf(),
        old(aliases).closed(),
        covers(&old(aliases).place_domain, body),
    ensures
        final(aliases).wf(),
        final(aliases).same_state(old(aliases)),
        r.fits(old(aliases)),
        forall|j: int| 0 <= j < old(aliases).n() ==> (#[trigger] r.mut_args@[j] <==> is_mut_arg(body, old(aliases).place(j))),
        forall|k: int| 0 <= k < r.effects@.len() ==> body_effect(old(aliases), r.mut_args@, body, effect_view(#[trigger] r.effects@[k])),
        forall|v: (EffectKind, PlaceView, Location)| body_effect(old(aliases), r.mut_args@, body, v)
            ==> exists|k: int| 0 <= k < r.effects@.len() && effect_view(#[trigger] r.effects@[k]) == v,
        distinct_from(r.effects@, 0),
{
    let ghost al0 = *aliases;
    let mut fe = FindEffects::new(aliases, body);
    let ghost ma = fe.mut_args@;
    let mut b: usize = 0;
    while b < body.blocks.len()
        invariant
            aliases.wf(),
            aliases.same_state(&al0),
            al0.closed(),
            covers(&al0.place_domain, body),
            fe.fits(&al0),
            fe.mut_args@ == ma,
            distinct_from(fe.effects@, 0),
            b <= body.blocks@.len(),
            forall|k: int| 0 <= k < fe.effects@.len() ==> effect_before(&al0, ma, body, b as int, 0, effect_view(#[trigger] fe.effects@[k])),
            forall|v: (EffectKind, PlaceView, Location)| effect_before(&al0, ma, body, b as int, 0, v)
                ==> exists|k: int| 0 <= k < fe.effects@.len() && effect_view(#[trigger] fe.effects@[k]) == v,
        decreases body.blocks@.len() - b,
    {
        let mut s: usize = 0;
        while s < body.blocks[b].len()
            invariant
                aliases.wf(),
                aliases.same_state(&al0),
                al0.closed(),
                covers(&al0.place_domain, body),
                fe.fits(&al0),
                fe.mut_args@ == ma,
                distinct_from(fe.effects@, 0),
                b < body.blocks@.len(),
                s <= body.blocks@[b as int]@.len(),
                forall|k: int| 0 <= k < fe.effects@.len() ==> effect_before(&al0, ma, body, b as int, s as int, effect_view(#[trigger] fe.effects@[k])),
                forall|v: (EffectKind, PlaceView, Location)| effect_before(&al0, ma, body, b as int, s as int, v)
                    ==> exists|k: int| 0 <= k < fe.effects@.len() && effect_view(#[trigger] fe.effects@[k]) == v,
            decreases body.blocks@[b as int]@.len() - s,
        {
            let stmt = &body.blocks[b][s];
            let loc = Location { block: b, statement_index: s };
            proof {
                if let Statement::Assign(q, _) = stmt {
                    assert(body.assigns(q@));
                    assert(body.names_place(q@));
                    assert(al0.place_domain.places@ == aliases.place_domain.places@);
                }
            }
            let ghost al1 = *aliases;
            proof {
                lemma_same_state_closed(al0, al1);
            }
            let ghost prev = fe.effects@;
            fe.visit_statement_after_primary_effect(aliases, stmt, loc);
            proof {
                assert forall|k: int| 0 <= k < fe.effects@.len()
                    implies effect_before(&al0, ma, body, b as int, s + 1, effect_view(#[trigger] fe.effects@[k])) by {
                    let v = effect_view(fe.effects@[k]);
                    if k < prev.len() {
                        assert(fe.effects@[k] == prev[k]);
                        assert(effect_before(&al0, ma, body, b as int, s as int, v));
                        let (b2, s2) = choose|b2: int, s2: int| #![trigger body.blocks@[b2]@[s2]]
                            0 <= b2 < body.blocks@.len() && 0 <= s2 < body.blocks@[b2]@.len() && before(b2, s2, b as int, s as int)
                                && effect_of(&al0, ma, &body.blocks@[b2]@[s2], Location { block: b2 as usize, statement_index: s2 as usize }, v);
                        assert(before(b2, s2, b as int, s + 1));
                    } else {
                        lemma_same_state_effect(al0, al1, ma, stmt, loc, v);
                        assert(before(b as int, s as int, b as int, s + 1));
                        assert(body.blocks@[b as int]@[s as int] == *stmt);
                    }
                }
                assert forall|k1: int, k2: int| 0 <= k1 < k2 < fe.effects@.len()
                    implies effect_view(#[trigger] fe.effects@[k1]) != effect_view(#[trigger] fe.effects@[k2]) by {
                    if k2 >= prev.len() && k1 < prev.len() {
                        assert(fe.effects@[k1] == prev[k1]);
                        let v1 = effect_view(prev[k1]);
                        assert(effect_before(&al0, ma, body, b as int, s as int, v1));
                        let (b2, s2) = choose|b2: int, s2: int| #![trigger body.blocks@[b2]@[s2]]
                            0 <= b2 < body.blocks@.len() && 0 <= s2 < body.blocks@[b2]@.len() && before(b2, s2, b as int, s as int)
                                && effect_of(&al0, ma, &body.blocks@[b2]@[s2], Location { block: b2 as usize, statement_index: s2 as usize }, v1);
                        lemma_effect_location(&al0, ma, &body.blocks@[b2]@[s2], Location { block: b2 as usize, statement_index: s2 as usize }, v1);
                        lemma_effect_location(&al1, ma, stmt, loc, effect_view(fe.effects@[k2]));
                    } else if k2 < prev.len() {
                        assert(fe.effects@[k1] == prev[k1] && fe.effects@[k2] == prev[k2]);
                    }
                }
                assert forall|v: (EffectKind, PlaceView, Location)| #[trigger] effect_before(&al0, ma, body, b as int, s + 1, v)
                    implies exists|k: int| 0 <= k < fe.effects@.len() && effect_view(#[trigger] fe.effects@[k]) == v by {
                    let (b2, s2) = choose|b2: int, s2: int| #![trigger body.blocks@[b2]@[s2]]
                        0 <= b2 < body.blocks@.len() && 0 <= s2 < body.blocks@[b2]@.len() && before(b2, s2, b as int, s + 1)
                            && effect_of(&al0, ma, &body.blocks@[b2]@[s2], Location { block: b2 as usize, statement_index: s2 as usize }, v);
                    if before(b2, s2, b as int, s as int) {
                        assert(effect_before(&al0, ma, body, b as int, s as int, v));
                        let k = choose|k: int| 0 <= k < prev.len() && effect_view(#[trigger] prev[k]) == v;
                        assert(fe.effects@[k] == prev[k]);
                    } else {
                        assert(b2 == b && s2 == s);
                        lemma_same_state_effect(al0, al1, ma, stmt, loc, v);
                    }
                }
            }
            s = s + 1;
        }
        proof {
            assert forall|v: (EffectKind, PlaceView, Location)|
                #[trigger] effect_before(&al0, ma, body, b as int, s as int, v) == effect_before(&al0, ma, body, b + 1, 0, v) by {
                if effect_before(&al0, ma, body, b + 1, 0, v) {
                    let (b2, s2) = choose|b2: int, s2: int| #![trigger body.blocks@[b2]@[s2]]
                        0 <= b2 < body.blocks@.len() && 0 <= s2 < body.blocks@[b2]@.len() && before(b2, s2, b + 1, 0)
                            && effect_of(&al0, ma, &body.blocks@[b2]@[s2], Location { block: b2 as usize, statement_index: s2 as usize }, v);
                    assert(before(b2, s2, b as int, s as int));
                }
                if effect_before(&al0, ma, body, b as int, s as int, v) {
                    let (b2, s2) = choose|b2: int, s2: int| #![trigger body.blocks@[b2]@[s2]]
                        0 <= b2 < body.blocks@.len() && 0 <= s2 < body.blocks@[b2]@.len() && before(b2, s2, b as int, s as int)
                            && effect_of(&al0, ma, &body.blocks@[b2]@[s2], Location { block: b2 as usize, statement_index: s2 as usize }, v);
                    assert(before(b2, s2, b + 1, 0));
                }
            }
            assert forall|v: (EffectKind, PlaceView, Location)| #[trigger] effect_before(&al0, ma, body, b + 1, 0, v)
                implies exists|k: int| 0 <= k < fe.effects@.len() && effect_view(#[trigger] fe.effects@[k]) == v by {
                assert(effect_before(&al0, ma, body, b as int, s as int, v));
            }
        }
        b = b + 1;
    }
    fe
}

} // verus!

use flowistry::aliases::Aliases;
use flowistry::body::{Body, BorrowKind, InteriorPointer, Location, Mutability, Rvalue, Statement};
use flowistry::effects::{find_effects, EffectKind, FindEffects};
use flowistry::place::{Place, ProjectionElem};

fn local(l: usize) -> Place {
    Place { local: l, projection: vec![] }
}

fn deref(l: usize) -> Place {
    Place { local: l, projection: vec![ProjectionElem::Deref] }
}

fn same(a: &Place, b: &Place) -> bool {
    a.local == b.local && a.projection == b.projection
}

fn index_of(al: &Aliases, p: &Place) -> usize {
    al.place_domain.index(p).expect("place in domain")
}

fn members(al: &Aliases, set: &[bool]) -> Vec<Place> {
    let mut out = Vec::new();
    for (i, b) in set.iter().enumerate() {
        if *b {
            out.push(al.place_domain.value(i).copy());
        }
    }
    out
}

fn pointer(region: usize, place: Place, mutability: Mutability) -> InteriorPointer {
    InteriorPointer { region, place, mutability }
}

/// f(x: &mut i32, y: &i32) { *x = *y; }
fn scenario_a() -> Body {
    Body {
        arg_count: 2,
        blocks: vec![vec![Statement::Assign(deref(1), Rvalue::Use(deref(2)))]],
        interior_places: vec![local(0), local(1), deref(1), local(2), deref(2)],
        interior_pointers: vec![pointer(1, local(1), Mutability::Mut), pointer(2, local(2), Mutability::Not)],
    }
}

/// f(x: &mut i32) -> i32 { *x = 1; return *x; }
fn scenario_b() -> Body {
    Body {
        arg_count: 1,
        blocks: vec![vec![
            Statement::Assign(deref(1), Rvalue::Other),
            Statement::Assign(local(0), Rvalue::Use(deref(1))),
        ]],
        interior_places: vec![local(0), local(1), deref(1)],
        interior_pointers: vec![pointer(1, local(1), Mutability::Mut)],
    }
}

/// f(x: &mut i32) { let y = &mut *x; *y = 1; }
fn scenario_c() -> Body {
    Body {
        arg_count: 1,
        blocks: vec![vec![
            Statement::Assign(local(2), Rvalue::Ref(3, BorrowKind::Mut, deref(1))),
            Statement::Assign(deref(2), Rvalue::Other),
        ]],
        interior_places: vec![local(0), local(1), deref(1), local(2), deref(2)],
        interior_pointers: vec![pointer(1, local(1), Mutability::Mut), pointer(2, local(2), Mutability::Mut)],
    }
}

#[test]
fn scenario_a_mut_arg_only() {
    let body = scenario_a();
    let mut al = Aliases::build(&body, &vec![]);
    let fe = find_effects(&mut al, &body);
    assert_eq!(fe.effects.len(), 1);
    let e = &fe.effects[0];
    assert_eq!(e.kind, EffectKind::MutArg(0));
    assert!(same(&e.place, &deref(1)));
    assert_eq!(e.location, Location { block: 0, statement_index: 0 });
}

#[test]
fn scenario_b_mut_arg_and_return() {
    let body = scenario_b();
    let mut al = Aliases::build(&body, &vec![]);
    let fe = find_effects(&mut al, &body);
    assert_eq!(fe.effects.len(), 2);
    assert_eq!(fe.effects[0].kind, EffectKind::MutArg(0));
    assert!(same(&fe.effects[0].place, &deref(1)));
    assert_eq!(fe.effects[0].location, Location { block: 0, statement_index: 0 });
    assert_eq!(fe.effects[1].kind, EffectKind::Return);
    assert!(same(&fe.effects[1].place, &local(0)));
    assert_eq!(fe.effects[1].location, Location { block: 0, statement_index: 1 });
}

#[test]
fn scenario_c_reborrow() {
    let body = scenario_c();
    let mut al = Aliases::build(&body, &vec![(1, 3, 0), (3, 2, 0)]);
    let y = index_of(&al, &deref(2));
    let aliases = members(&al, &al.aliases(y));
    // `y` is a local, not a parameter: its region holds only what the reborrow gives it.
    assert!(aliases.iter().any(|p| same(p, &deref(1))));
    assert_eq!(aliases.len(), 1);
    let fe = find_effects(&mut al, &body);
    assert_eq!(fe.effects.len(), 1);
    assert_eq!(fe.effects[0].kind, EffectKind::MutArg(0));
    assert!(same(&fe.effects[0].place, &deref(1)));
    assert_eq!(fe.effects[0].location, Location { block: 0, statement_index: 1 });
}

#[test]
fn cycle_of_three_regions_shares_all_loans() {
    let body = Body {
        arg_count: 0,
        blocks: vec![vec![
            Statement::Assign(local(4), Rvalue::Ref(1, BorrowKind::Shared, local(1))),
            Statement::Assign(local(5), Rvalue::Ref(2, BorrowKind::Shared, local(2))),
            Statement::Assign(local(6), Rvalue::Ref(3, BorrowKind::Shared, local(3))),
        ]],
        interior_places: vec![local(1), local(2), local(3)],
        interior_pointers: vec![],
    };
    let al = Aliases::build(&body, &vec![(1, 2, 0), (2, 3, 0), (3, 1, 0)]);
    let seeds = [index_of(&al, &local(1)), index_of(&al, &local(2)), index_of(&al, &local(3))];
    for r in 1..4 {
        for s in seeds.iter() {
            assert!(al.loans[r][*s]);
        }
        let count = al.loans[r].iter().filter(|b| **b).count();
        assert_eq!(count, 3);
    }
}

#[test]
fn loans_follow_outlives_edges() {
    let body = Body {
        arg_count: 0,
        blocks: vec![vec![
            Statement::Assign(local(4), Rvalue::Ref(1, BorrowKind::Shared, local(1))),
            Statement::Assign(local(5), Rvalue::Ref(2, BorrowKind::Shared, local(2))),
        ]],
        interior_places: vec![],
        interior_pointers: vec![],
    };
    let al = Aliases::build(&body, &vec![(1, 2, 0)]);
    let a = index_of(&al, &local(1));
    let b = index_of(&al, &local(2));
    assert!(al.loans[2][a] && al.loans[2][b]);
    assert!(al.loans[1][a] && !al.loans[1][b]);
}

#[test]
fn regions_without_constraints_keep_their_seeds() {
    let body = Body {
        arg_count: 0,
        blocks: vec![vec![
            Statement::Assign(local(4), Rvalue::Ref(1, BorrowKind::Shared, local(1))),
            Statement::Assign(local(5), Rvalue::Ref(2, BorrowKind::Shared, local(2))),
        ]],
        interior_places: vec![],
        interior_pointers: vec![],
    };
    let al = Aliases::build(&body, &vec![]);
    assert_eq!(al.loans.len(), 3);
    let a = index_of(&al, &local(1));
    let b = index_of(&al, &local(2));
    assert!(al.loans[1][a] && !al.loans[1][b]);
    assert!(al.loans[2][b] && !al.loans[2][a]);
    assert!(!al.loans[0][a] && !al.loans[0][b]);
}

#[test]
fn root_region_flows_into_every_region() {
    let body = Body {
        arg_count: 0,
        blocks: vec![vec![
            Statement::Assign(local(4), Rvalue::Ref(0, BorrowKind::Shared, local(1))),
            Statement::Assign(local(5), Rvalue::Ref(2, BorrowKind::Shared, local(2))),
        ]],
        interior_places: vec![],
        interior_pointers: vec![],
    };
    let al = Aliases::build(&body, &vec![]);
    let a = index_of(&al, &local(1));
    let b = index_of(&al, &local(2));
    assert!(al.loans[1][a]);
    assert!(al.loans[2][a]);
    assert!(al.loans[2][b] && !al.loans[1][b] && !al.loans[0][b]);
}

#[test]
fn only_parameter_pointers_seed_loans() {
    let body = Body {
        arg_count: 1,
        blocks: vec![],
        interior_places: vec![local(1), deref(1), local(2), deref(2)],
        interior_pointers: vec![pointer(1, local(1), Mutability::Not), pointer(2, local(2), Mutability::Not)],
    };
    let al = Aliases::build(&body, &vec![]);
    let x = index_of(&al, &deref(1));
    let y = index_of(&al, &deref(2));
    assert!(al.loans[1][x]);
    assert_eq!(al.loans[2].iter().filter(|b| **b).count(), 0);
    assert!(!al.loans[2][y]);
}

#[test]
fn conflicts_are_idempotent() {
    let body = scenario_c();
    let mut al = Aliases::build(&body, &vec![(1, 3, 0), (3, 2, 0)]);
    let y = index_of(&al, &deref(2));
    let c1 = al.conflicts(y);
    let c2 = al.conflicts(y);
    assert_eq!(c1.subs, c2.subs);
    assert_eq!(c1.supers, c2.supers);
    assert_eq!(c1.single_pointee, c2.single_pointee);
    assert_eq!(al.aliases(y), al.aliases(y));
}

#[test]
fn deref_free_place_aliases_itself() {
    let body = scenario_a();
    let al = Aliases::build(&body, &vec![]);
    for l in [0usize, 1, 2] {
        let i = index_of(&al, &local(l));
        let set = al.aliases(i);
        for (j, b) in set.iter().enumerate() {
            assert_eq!(*b, j == i);
        }
    }
}

#[test]
fn untracked_pointer_aliases_itself() {
    let body = Body {
        arg_count: 1,
        blocks: vec![],
        interior_places: vec![local(1), deref(1)],
        interior_pointers: vec![],
    };
    let al = Aliases::build(&body, &vec![]);
    let i = index_of(&al, &deref(1));
    let set = al.aliases(i);
    assert_eq!(set.iter().filter(|b| **b).count(), 1);
    assert!(set[i]);
}

#[test]
fn aliases_append_trailing_path() {
    let field = |l: usize| Place { local: l, projection: vec![ProjectionElem::Deref, ProjectionElem::Field(0)] };
    let body = Body {
        arg_count: 1,
        blocks: vec![vec![Statement::Assign(local(2), Rvalue::Ref(3, BorrowKind::Shared, deref(1)))]],
        interior_places: vec![local(1), deref(1), field(1), local(2), deref(2), field(2)],
        interior_pointers: vec![pointer(1, local(1), Mutability::Not), pointer(2, local(2), Mutability::Not)],
    };
    let al = Aliases::build(&body, &vec![(3, 2, 0)]);
    let i = index_of(&al, &field(2));
    let set = members(&al, &al.aliases(i));
    assert_eq!(set.len(), 1);
    assert!(same(&set[0], &field(1)));
}

#[test]
fn conflicts_split_into_subs_and_supers() {
    let body = scenario_a();
    let mut al = Aliases::build(&body, &vec![]);
    let x = index_of(&al, &deref(1));
    let c = al.conflicts(x);
    let subs = members(&al, &c.subs);
    let supers = members(&al, &c.supers);
    assert_eq!(subs.len(), 1);
    assert!(same(&subs[0], &deref(1)));
    assert_eq!(supers.len(), 1);
    assert!(same(&supers[0], &local(1)));
    for j in 0..c.subs.len() {
        assert!(!(c.subs[j] && c.supers[j]));
    }
    assert!(c.single_pointee);
    assert_eq!(c.iter(), vec![x, index_of(&al, &local(1))]);
}

#[test]
fn single_pointee_false_for_two_aliases_at_one_level() {
    let body = Body {
        arg_count: 0,
        blocks: vec![vec![
            Statement::Assign(local(3), Rvalue::Ref(1, BorrowKind::Shared, local(1))),
            Statement::Assign(local(3), Rvalue::Ref(1, BorrowKind::Shared, local(2))),
        ]],
        interior_places: vec![local(3), deref(3)],
        interior_pointers: vec![pointer(1, local(3), Mutability::Not)],
    };
    let mut al = Aliases::build(&body, &vec![]);
    let i = index_of(&al, &deref(3));
    let c = al.conflicts(i);
    assert!(!c.single_pointee);
}

#[test]
fn mut_args_cover_mutable_parameters_only() {
    let body = scenario_a();
    let al = Aliases::build(&body, &vec![]);
    let fe = FindEffects::new(&al, &body);
    let set = members(&al, &fe.mut_args);
    assert_eq!(set.len(), 1);
    assert!(same(&set[0], &deref(1)));
    assert!(fe.effects.is_empty());
}

#[test]
fn visiting_a_nop_records_nothing() {
    let body = scenario_a();
    let mut al = Aliases::build(&body, &vec![]);
    let mut fe = FindEffects::new(&al, &body);
    fe.visit_statement_after_primary_effect(&mut al, &Statement::Nop, Location { block: 0, statement_index: 0 });
    fe.visit_terminator_after_primary_effect(Location { block: 0, statement_index: 1 });
    assert!(fe.effects.is_empty());
}

#[test]
fn domain_holds_every_named_place_once() {
    let body = scenario_c();
    let al = Aliases::build(&body, &vec![]);
    let n = al.place_domain.len();
    assert_eq!(n, 5);
    for i in 0..n {
        for j in 0..n {
            if i != j {
                assert!(!same(al.place_domain.value(i), al.place_domain.value(j)));
            }
        }
    }
}

#[test]
fn loan_locals_index_regions_by_local() {
    let body = scenario_c();
    let al = Aliases::build(&body, &vec![(1, 3, 0), (3, 2, 0)]);
    assert!(al.loan_locals.contains(&(1, 1)));
    assert!(al.loan_locals.contains(&(1, 2)));
    assert!(al.loan_locals.contains(&(1, 3)));
    assert!(!al.loan_locals.iter().any(|p| p.0 == 2));
}

#[test]
fn domain_order_follows_first_occurrence() {
    let body = scenario_c();
    let al = Aliases::build(&body, &vec![(1, 3, 0), (3, 2, 0)]);
    let expected = [local(0), local(1), deref(1), local(2), deref(2)];
    assert_eq!(al.place_domain.len(), expected.len());
    for (i, p) in expected.iter().enumerate() {
        assert!(same(al.place_domain.value(i), p));
    }
    assert_eq!(al.loans.len(), 4);
}

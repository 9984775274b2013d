use flowistry::body::{Body, Location};
use flowistry::domain::PlaceDomain;
use flowistry::indexed::{build_location_arg_domain, LocationOrArg};
use flowistry::place::{Place, ProjectionElem};
use flowistry::regions::{propagate_loans, region_edges};

fn place(l: usize, p: Vec<ProjectionElem>) -> Place {
    Place { local: l, projection: p }
}

#[test]
fn split_at_last_deref() {
    let p = place(1, vec![ProjectionElem::Deref, ProjectionElem::Field(2), ProjectionElem::Deref, ProjectionElem::Field(3), ProjectionElem::Index(4)]);
    let (ptr, tail) = p.split_deref().expect("has a deref");
    assert_eq!(ptr.local, 1);
    assert_eq!(ptr.projection, vec![ProjectionElem::Deref, ProjectionElem::Field(2)]);
    assert_eq!(tail, vec![ProjectionElem::Field(3), ProjectionElem::Index(4)]);
    assert!(place(1, vec![ProjectionElem::Field(0)]).split_deref().is_none());
}

#[test]
fn prefix_relations() {
    let a = place(1, vec![ProjectionElem::Deref]);
    let b = place(1, vec![ProjectionElem::Deref, ProjectionElem::Field(0)]);
    let c = place(2, vec![ProjectionElem::Deref, ProjectionElem::Field(0)]);
    assert!(b.extends(&a));
    assert!(a.extends(&a));
    assert!(!a.strictly_extends(&a));
    assert!(b.strictly_extends(&a));
    assert!(!a.extends(&b));
    assert!(!c.extends(&a));
    assert!(!place(1, vec![ProjectionElem::Field(1)]).extends(&place(1, vec![ProjectionElem::Field(0)])));
}

#[test]
fn deref_count_and_append() {
    let p = place(3, vec![ProjectionElem::Deref, ProjectionElem::Field(1), ProjectionElem::Deref]);
    assert_eq!(p.deref_count(), 2);
    let q = p.append(&vec![ProjectionElem::Field(7)]);
    assert_eq!(q.projection, vec![ProjectionElem::Deref, ProjectionElem::Field(1), ProjectionElem::Deref, ProjectionElem::Field(7)]);
    assert_eq!(place(3, vec![]).deref().projection, vec![ProjectionElem::Deref]);
    assert!(p.same(&p.copy()));
    assert!(!p.same(&q));
}

#[test]
fn domain_dedups_in_first_order() {
    let d = PlaceDomain::new(&vec![place(1, vec![]), place(2, vec![ProjectionElem::Deref]), place(1, vec![])]);
    assert_eq!(d.len(), 2);
    assert_eq!(d.index(&place(2, vec![ProjectionElem::Deref])), Some(1));
    assert_eq!(d.index(&place(3, vec![])), None);
    assert_eq!(d.value(0).local, 1);
}

#[test]
fn region_edges_join_root_to_every_region() {
    let e = region_edges(&vec![(0, 1, 0), (2, 3, 0)], 5);
    assert_eq!(e, vec![(0, 1), (2, 3), (0, 1), (0, 2), (0, 3), (0, 4)]);
    let e = region_edges(&vec![(2, 3, 0)], 5);
    assert_eq!(e, vec![(2, 3), (0, 1), (0, 2), (0, 3), (0, 4)]);
    assert_eq!(region_edges(&vec![], 1), vec![]);
}

#[test]
fn propagation_reaches_fixpoint_along_a_chain() {
    let mut loans = vec![vec![true, false, false], vec![false, true, false], vec![false, false, true]];
    propagate_loans(&mut loans, &vec![(0, 1), (1, 2)], 3);
    assert_eq!(loans[0], vec![true, false, false]);
    assert_eq!(loans[1], vec![true, true, false]);
    assert_eq!(loans[2], vec![true, true, true]);
}

#[test]
fn location_arg_domain_lists_points_then_args() {
    let body = Body {
        arg_count: 2,
        blocks: vec![vec![flowistry::body::Statement::Nop], vec![]],
        interior_places: vec![],
        interior_pointers: vec![],
    };
    let d = build_location_arg_domain(&body);
    assert_eq!(
        d,
        vec![
            LocationOrArg::Location(Location { block: 0, statement_index: 0 }),
            LocationOrArg::Location(Location { block: 0, statement_index: 1 }),
            LocationOrArg::Location(Location { block: 1, statement_index: 0 }),
            LocationOrArg::Arg(1),
            LocationOrArg::Arg(2),
        ]
    );
}

#[test]
fn from_place_names_arguments_only() {
    let body = Body { arg_count: 1, blocks: vec![], interior_places: vec![], interior_pointers: vec![] };
    assert_eq!(LocationOrArg::from_place(&place(1, vec![]), &body), Some(LocationOrArg::Arg(1)));
    assert_eq!(LocationOrArg::from_place(&place(0, vec![]), &body), None);
    assert_eq!(LocationOrArg::from_place(&place(2, vec![]), &body), None);
}

#[test]
fn conversions_into_location_or_arg() {
    let l = Location { block: 2, statement_index: 5 };
    assert_eq!(LocationOrArg::from(l), LocationOrArg::Location(l));
    assert_eq!(LocationOrArg::from(3usize), LocationOrArg::Arg(3));
}

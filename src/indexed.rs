use vstd::prelude::*;
use crate::body::{Body, Location};
use crate::place::Place;

verus! {

/// What a place's value may depend on: a program point, or a parameter's initial value.
#[derive(Clone, Copy, Debug, PartialEq, Eq, Structural)]
pub enum LocationOrArg {
    Location(Location),
    Arg(usize),
}

/// Local `local` is a parameter of `body`.
pub open spec fn is_arg(body: &Body, local: usize) -> bool {
    1 <= local <= body.arg_count
}

/// `l` is a program point of `body`: a statement, or the terminator that
/// follows the last statement of its block.
pub open spec fn is_location(body: &Body, l: Location) -> bool {
    l.block < body.blocks@.len() && l.statement_index <= body.blocks@[l.block as int]@.len()
}

pub open spec fn in_location_arg_domain(body: &Body, x: LocationOrArg) -> bool {
    match x {
        LocationOrArg::Location(l) => is_location(body, l),
        LocationOrArg::Arg(a) => is_arg(body, a),
    }
}

impl LocationOrArg {
    /// The parameter that `place` is rooted at, if it is one.
    pub fn from_place(place: &Place, body: &Body) -> (r: Option<LocationOrArg>)
        ensures
            r == if is_arg(body, place.local) { Some(LocationOrArg::Arg(place.local)) } else { None },
    {
        if 1 <= place.local && place.local <= body.arg_count {
            Some(LocationOrArg::Arg(place.local))
        } else {
            None
        }
    }
}

impl From<Location> for LocationOrArg {
    fn from(location: Location) -> (r: LocationOrArg)
        ensures
            r == LocationOrArg::Location(location),
    {
        LocationOrArg::Location(location)
    }
}

impl vstd::std_specs::convert::FromSpecImpl<Location> for LocationOrArg {
    open spec fn obeys_from_spec() -> bool {
        true
    }

    open spec fn from_spec(v: Location) -> LocationOrArg {
        LocationOrArg::Location(v)
    }
}

/// A local, taken as the parameter it names.
impl From<usize> for LocationOrArg {
    fn from(local: usize) -> (r: LocationOrArg)
        ensures
            r == LocationOrArg::Arg(local),
    {
        LocationOrArg::Arg(local)
    }
}

impl vstd::std_specs::convert::FromSpecImpl<usize> for LocationOrArg {
    open spec fn obeys_from_spec() -> bool {
        true
    }

    open spec fn from_spec(v: usize) -> LocationOrArg {
        LocationOrArg::Arg(v)
    }
}

/// The program points of block `b`: each statement, then the terminator.
pub open spec fn block_points(body: &Body, b: int) -> Seq<LocationOrArg> {
    Seq::new((body.blocks@[b]@.len() + 1) as nat, |s: int| LocationOrArg::Location(Location { block: b as usize, statement_index: s as usize }))
}

/// The program points of the blocks before block `b`, block by block.
pub open spec fn points_before(body: &Body, b: int) -> Seq<LocationOrArg>
    decreases b,
{
    if b <= 0 {
        Seq::empty()
    } else {
        points_before(body, b - 1) + block_points(body, b - 1)
    }
}

/// The parameters `1..=arg_count`, in order.
pub open spec fn arg_points(body: &Body, n: int) -> Seq<LocationOrArg> {
    Seq::new(n as nat, |k: int| LocationOrArg::Arg((k + 1) as usize))
}

/// Every program point of `body`, block by block, then every parameter.
pub fn build_location_arg_domain(body: &Body) -> (r: Vec<LocationOrArg>)
    ensures
        r@ == points_before(body, body.blocks@.len() as int) + arg_points(body, body.arg_count as int),
        forall|k: int| 0 <= k < r@.len() ==> in_location_arg_domain(body, #[trigger] r@[k]),
{
    let mut r: Vec<LocationOrArg> = Vec::new();
    let mut b: usize = 0;
    while b < body.blocks.len()
        invariant
            b <= body.blocks@.len(),
            r@ == points_before(body, b as int),
        decreases body.blocks@.len() - b,
    {
        let n = body.blocks[b].len();
        let ghost start = r@;
        let mut s: usize = 0;
        while s < n
            invariant
                b < body.blocks@.len(),
                n == body.blocks@[b as int]@.len(),
                s <= n,
                start == points_before(body, b as int),
                r@ == start + block_points(body, b as int).subrange(0, s as int),
            decreases n - s,
        {
            r.push(LocationOrArg::Location(Location { block: b, statement_index: s }));
            s = s + 1;
            assert(r@ =~= start + block_points(body, b as int).subrange(0, s as int));
        }
        r.push(LocationOrArg::Location(Location { block: b, statement_index: n }));
        assert(r@ =~= start + block_points(body, b as int));
        b = b + 1;
    }
    let ghost pts = r@;
    let mut a: usize = 0;
    while a < body.arg_count
        invariant
            a <= body.arg_count,
            pts == points_before(body, body.blocks@.len() as int),
            r@ == pts + arg_points(body, a as int),
        decreases body.arg_count - a,
    {
        r.push(LocationOrArg::Arg(a + 1));
        a = a + 1;
        assert(r@ =~= pts + arg_points(body, a as int));
    }
    proof {
        lemma_points_in_domain(body, body.blocks@.len() as int);
        assert forall|k: int| 0 <= k < r@.len() implies in_location_arg_domain(body, #[trigger] r@[k]) by {
            if k < pts.len() {
                assert(r@[k] == pts[k]);
            } else {
                assert(r@[k] == arg_points(body, a as int)[k - pts.len()]);
            }
        }
    }
    r
}

proof fn lemma_points_in_domain(body: &Body, b: int)
    requires
        0 <= b <= body.blocks@.len(),
    ensures
        forall|k: int| 0 <= k < points_before(body, b).len() ==> in_location_arg_domain(body, #[trigger] points_before(body, b)[k]),
    decreases b,
{
    if b > 0 {
        lemma_points_in_domain(body, b - 1);
        let prev = points_before(body, b - 1);
        let all = points_before(body, b);
        assert forall|k: int| 0 <= k < all.len() implies in_location_arg_domain(body, #[trigger] all[k]) by {
            if k < prev.len() {
                assert(all[k] == prev[k]);
            } else {
                assert(body.blocks@.len() == body.blocks.len());
                assert(body.blocks@[b - 1]@.len() == body.blocks@[b - 1].len());
                let s = k - prev.len();
                assert(all[k] == block_points(body, b - 1)[s]);
                assert(((b - 1) as usize) as int == b - 1);
                assert((s as usize) as int == s);
            }
        }
    }
}

} // verus!

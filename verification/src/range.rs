use vstd::prelude::*;
use vstd::std_specs::cmp::PartialOrdSpec;

verus! {

/// The side of its position on which a bound admits versions.
#[derive(Debug, Copy, Clone, PartialEq, Eq, Structural)]
pub enum Direction {
    Left,
    Right,
}

/// Whether a bound admits its own position.
#[derive(Debug, Copy, Clone, PartialEq, Eq, Structural)]
pub enum Edge {
    Open,
    Closed,
}

/// A one-sided bound: every version on the `direction` side of `version`,
/// together with `version` itself when the edge is closed.
#[derive(Debug, PartialEq, Eq)]
pub struct Interval<V> where V: Ord {
    version: V,
    edge: Edge,
    direction: Direction,
}

impl<V> Interval<V> where V: Ord {
    /// The position of the bound.
    pub closed spec fn position(&self) -> V {
        self.version
    }

    /// The edge of the bound.
    pub closed spec fn bound_edge(&self) -> Edge {
        self.edge
    }

    /// The direction of the bound.
    pub closed spec fn bound_direction(&self) -> Direction {
        self.direction
    }

    /// The bound at `position` with the given edge and direction.
    pub closed spec fn spec_new(position: V, edge: Edge, direction: Direction) -> Self {
        Interval { version: position, edge, direction }
    }

    /// The parts of a bound are those it was made from.
    pub proof fn lemma_spec_new_parts(position: V, edge: Edge, direction: Direction)
        ensures
            Self::spec_new(position, edge, direction).position() == position,
            Self::spec_new(position, edge, direction).bound_edge() == edge,
            Self::spec_new(position, edge, direction).bound_direction() == direction,
    {
    }

    /// A bound is the one made from its own parts.
    pub proof fn lemma_spec_new_of_parts(b: Self)
        ensures
            b == Self::spec_new(b.position(), b.bound_edge(), b.bound_direction()),
    {
    }

    /// Two bounds with the same position, edge and direction are equal.
    pub proof fn lemma_parts_determine(a: Self, b: Self)
        ensures
            a.position() == b.position() && a.bound_edge() == b.bound_edge() && a.bound_direction()
                == b.bound_direction() ==> a == b,
    {
    }

    pub fn new(position: V, edge: Edge, direction: Direction) -> (r: Self)
        ensures
            r == Self::spec_new(position, edge, direction),
            r.position() == position,
            r.bound_edge() == edge,
            r.bound_direction() == direction,
    {
        Self { version: position, direction, edge }
    }

    /// The position of the bound.
    pub fn version(&self) -> (r: &V)
        ensures
            *r == self.position(),
    {
        &self.version
    }

    /// The edge of the bound.
    pub fn edge(&self) -> (r: Edge)
        ensures
            r == self.bound_edge(),
    {
        self.edge
    }

    /// The direction of the bound.
    pub fn direction(&self) -> (r: Direction)
        ensures
            r == self.bound_direction(),
    {
        self.direction
    }

    /// The bound that `dedupe_union` keeps of two in the same direction.
    pub open spec fn spec_kept(x: Self, y: Self) -> Self {
        if Self::union_keeps_first(&x, &y) {
            x
        } else {
            y
        }
    }

    /// Whether `dedupe_union` keeps its first argument: the bound that reaches
    /// further in the common direction, and at an equal position the closed one.
    pub open spec fn union_keeps_first(x: &Self, y: &Self) -> bool {
        if before(x.position(), y.position()) {
            x.bound_direction() == Direction::Right
        } else if before(y.position(), x.position()) {
            x.bound_direction() == Direction::Left
        } else {
            edge_rank(x.bound_edge()) >= edge_rank(y.bound_edge())
        }
    }

    /// The bound that `dedupe_union` gives for `x` and `y`, by value.
    pub open spec fn union_of(x: Self, y: Self) -> Option<Self> {
        if x.bound_direction() != y.bound_direction() {
            None
        } else {
            Some(Self::spec_kept(x, y))
        }
    }

    /// Of two bounds in the same direction, returns the one whose half-line
    /// holds the other's; `None` when the directions differ.
    pub fn dedupe_union<'a>(x: &'a Self, y: &'a Self) -> (r: Option<&'a Self>)
        ensures
            r is None <==> x.bound_direction() != y.bound_direction(),
            r matches Some(z) ==> (z == x || z == y),
            V::obeys_partial_cmp_spec() && x.bound_direction() == y.bound_direction() ==> r == (
            if Self::union_keeps_first(x, y) {
                Some(x)
            } else {
                Some(y)
            }),
            V::obeys_partial_cmp_spec() ==> match r {
                Some(z) => Self::union_of(*x, *y) == Some(*z),
                None => Self::union_of(*x, *y) is None,
            },
            V::obeys_partial_cmp_spec() && is_total_order::<V>() ==> (r matches Some(z) ==> forall|
                w: V,
            | #[trigger] z.contains(w) <==> x.contains(w) || y.contains(w)),
    {
        proof {
            if is_total_order::<V>() && x.bound_direction() == y.bound_direction() {
                assert forall|w: V|
                    #[trigger] Self::spec_kept(*x, *y).contains(w) <==> x.contains(w) || y.contains(
                        w,
                    ) by {
                    lemma_dedupe_union_is_union(*x, *y, w);
                }
            }
        }
        if x.direction != y.direction {
            return None;
        }
        let direction = &x.direction;

        if x.version < y.version {
            return match direction {
                Direction::Right => Some(x),
                Direction::Left => Some(y),
            };
        }
        if y.version < x.version {
            return match direction {
                Direction::Right => Some(y),
                Direction::Left => Some(x),
            };
        }
        if edge_rank_of(&x.edge) >= edge_rank_of(&y.edge) {
            Some(x)
        } else {
            Some(y)
        }
    }
}

/// `a` comes before `b` or is level with it.
pub open spec fn at_most<V: PartialOrd>(a: V, b: V) -> bool {
    a.partial_cmp_spec(&b) matches Some(core::cmp::Ordering::Less | core::cmp::Ordering::Equal)
}

/// `a` comes strictly before `b`.
pub open spec fn before<V: PartialOrd>(a: V, b: V) -> bool {
    a.partial_cmp_spec(&b) == Some(core::cmp::Ordering::Less)
}

/// The comparison of `V`, as its specification states it, is a total order:
/// any two values compare, the comparison read backwards is reversed, and
/// `at_most` is transitive.
pub open spec fn is_total_order<V: PartialOrd>() -> bool {
    &&& forall|a: V, b: V| #[trigger] a.partial_cmp_spec(&b) is Some
    &&& forall|a: V, b: V|
        #[trigger] a.partial_cmp_spec(&b) == Some(core::cmp::Ordering::Less) <==> b.partial_cmp_spec(&a)
            == Some(core::cmp::Ordering::Greater)
    &&& forall|a: V, b: V|
        #[trigger] a.partial_cmp_spec(&b) == Some(core::cmp::Ordering::Equal) ==> b.partial_cmp_spec(&a)
            == Some(core::cmp::Ordering::Equal)
    &&& forall|a: V, b: V, c: V|
        #![trigger a.partial_cmp_spec(&b), b.partial_cmp_spec(&c)]
        at_most(a, b) && at_most(b, c) ==> at_most(a, c)
}

impl<V> Interval<V> where V: Ord {
    /// Whether the bound admits the version `w`.
    pub open spec fn contains(&self, w: V) -> bool {
        let c = w.partial_cmp_spec(&self.position());
        match (self.bound_direction(), self.bound_edge()) {
            (Direction::Right, Edge::Closed) => c matches Some(
                core::cmp::Ordering::Greater | core::cmp::Ordering::Equal,
            ),
            (Direction::Right, Edge::Open) => c == Some(core::cmp::Ordering::Greater),
            (Direction::Left, Edge::Closed) => c matches Some(
                core::cmp::Ordering::Less | core::cmp::Ordering::Equal,
            ),
            (Direction::Left, Edge::Open) => c == Some(core::cmp::Ordering::Less),
        }
    }
}

/// The bound that `dedupe_union` keeps admits exactly the versions that
/// either of the two bounds admits, whenever the versions are totally ordered.
pub proof fn lemma_dedupe_union_is_union<V: Ord>(x: Interval<V>, y: Interval<V>, w: V)
    requires
        is_total_order::<V>(),
        x.bound_direction() == y.bound_direction(),
    ensures
        Interval::spec_kept(x, y).contains(w) <==> (x.contains(w) || y.contains(w)),
{
    let p = x.position();
    let q = y.position();
    // The order facts among the two positions and `w` that the cases use.
    assert(at_most(w, p) && at_most(p, q) ==> at_most(w, q));
    assert(at_most(w, q) && at_most(q, p) ==> at_most(w, p));
    assert(at_most(q, p) && at_most(p, w) ==> at_most(q, w));
    assert(at_most(p, q) && at_most(q, w) ==> at_most(p, w));
}

/// Versions numbered by `u64` are totally ordered, so the laws on
/// `dedupe_union` hold of them.
pub proof fn lemma_u64_is_total_order()
    ensures
        is_total_order::<u64>(),
{
}

/// Whichever order two bounds come in, the bound that `dedupe_union` keeps
/// admits the same versions.
pub proof fn lemma_dedupe_union_commutes_on_versions<V: Ord>(x: Interval<V>, y: Interval<V>, w: V)
    requires
        is_total_order::<V>(),
        x.bound_direction() == y.bound_direction(),
    ensures
        Interval::spec_kept(x, y).contains(w) <==> Interval::spec_kept(y, x).contains(w),
{
    lemma_dedupe_union_is_union(x, y, w);
    lemma_dedupe_union_is_union(y, x, w);
}

/// Positions that compare equal are the same value.
pub open spec fn order_is_equality<V: PartialOrd>() -> bool {
    forall|a: V, b: V| #[trigger] a.partial_cmp_spec(&b) == Some(core::cmp::Ordering::Equal) ==> a == b
}

/// `u64` positions that compare equal are equal.
pub proof fn lemma_u64_order_is_equality()
    ensures
        order_is_equality::<u64>(),
{
}

/// `dedupe_union` gives the same bound, by value, whichever order its two
/// arguments come in, when positions are totally ordered and compare equal
/// only when they are equal.
pub proof fn lemma_dedupe_union_commutes<V: Ord>(x: Interval<V>, y: Interval<V>)
    requires
        is_total_order::<V>(),
        order_is_equality::<V>(),
    ensures
        Interval::union_of(x, y) == Interval::union_of(y, x),
{
    let p = x.position();
    let q = y.position();
    let _ = p.partial_cmp_spec(&q);
    let _ = q.partial_cmp_spec(&p);
    Interval::lemma_parts_determine(x, y);
}

/// Joining three bounds in one direction with `dedupe_union` gives the same
/// bound, by value, however the calls are grouped, when positions are totally
/// ordered and compare equal only when they are equal.
pub proof fn lemma_dedupe_union_associative<V: Ord>(x: Interval<V>, y: Interval<V>, z: Interval<V>)
    requires
        is_total_order::<V>(),
        order_is_equality::<V>(),
        x.bound_direction() == y.bound_direction(),
        y.bound_direction() == z.bound_direction(),
    ensures
        Interval::union_of(Interval::union_of(x, y).unwrap(), z) == Interval::union_of(
            x,
            Interval::union_of(y, z).unwrap(),
        ),
{
    let p = x.position();
    let q = y.position();
    let r = z.position();
    let _ = p.partial_cmp_spec(&q);
    let _ = q.partial_cmp_spec(&p);
    let _ = q.partial_cmp_spec(&r);
    let _ = r.partial_cmp_spec(&q);
    let _ = p.partial_cmp_spec(&r);
    let _ = r.partial_cmp_spec(&p);
    assert(at_most(p, q) && at_most(q, r) ==> at_most(p, r));
    assert(at_most(r, q) && at_most(q, p) ==> at_most(r, p));
    assert(at_most(q, p) && at_most(p, r) ==> at_most(q, r));
    assert(at_most(r, p) && at_most(p, q) ==> at_most(r, q));
    assert(at_most(p, r) && at_most(r, q) ==> at_most(p, q));
    assert(at_most(q, r) && at_most(r, p) ==> at_most(q, p));
    Interval::lemma_parts_determine(x, y);
    Interval::lemma_parts_determine(y, z);
    Interval::lemma_parts_determine(x, z);
}

/// Closed edges rank above open ones.
pub open spec fn edge_rank(edge: Edge) -> int {
    match edge {
        Edge::Open => 0,
        Edge::Closed => 1,
    }
}

fn edge_rank_of(edge: &Edge) -> (r: u8)
    ensures
        r == edge_rank(*edge),
{
    match edge {
        Edge::Open => 0,
        Edge::Closed => 1,
    }
}

} // verus!

//! The peg-role model: the three pegs, the three two-peg subsets (each
//! excluding one peg), raw moves, and validated routes.

use vstd::prelude::*;

verus! {

/// One of the three pegs of the puzzle board.
#[derive(Clone, Copy, Debug, PartialEq, Eq, Structural)]
pub enum ABC {
    A,
    B,
    C,
}

/// The peg distinct from both arguments, whenever the arguments are distinct.
pub open spec fn third(x: ABC, y: ABC) -> ABC {
    match (x, y) {
        (ABC::A, ABC::B) | (ABC::B, ABC::A) => ABC::C,
        (ABC::A, ABC::C) | (ABC::C, ABC::A) => ABC::B,
        (ABC::B, ABC::C) | (ABC::C, ABC::B) => ABC::A,
        (p, _) => p,
    }
}

/// A peg that is statically known not to be C.
#[derive(Clone, Copy, Debug, PartialEq, Eq, Structural)]
pub enum AB {
    A,
    B,
}

impl AB {
    pub open spec fn spec_rev(self) -> AB {
        match self {
            AB::A => AB::B,
            AB::B => AB::A,
        }
    }

    /// The other member of the pair.
    pub fn rev(self) -> (r: AB)
        ensures
            r == self.spec_rev(),
    {
        match self {
            AB::A => AB::B,
            AB::B => AB::A,
        }
    }

    pub open spec fn spec_parent(self) -> ABC {
        match self {
            AB::A => ABC::A,
            AB::B => ABC::B,
        }
    }

    /// This peg, as a plain peg identifier.
    pub fn into_parent(self) -> (r: ABC)
        ensures
            r == self.spec_parent(),
    {
        match self {
            AB::A => ABC::A,
            AB::B => ABC::B,
        }
    }

    pub open spec fn spec_from_parent(p: ABC) -> Option<AB> {
        match p {
            ABC::A => Some(AB::A),
            ABC::B => Some(AB::B),
            ABC::C => None,
        }
    }

    /// Refine a plain peg identifier; fails on the excluded peg.
    pub fn try_from_parent(p: ABC) -> (r: Option<AB>)
        ensures
            r == AB::spec_from_parent(p),
    {
        match p {
            ABC::A => Some(AB::A),
            ABC::B => Some(AB::B),
            ABC::C => None,
        }
    }
}

/// A peg that is statically known not to be B.
#[derive(Clone, Copy, Debug, PartialEq, Eq, Structural)]
pub enum AC {
    A,
    C,
}

impl AC {
    pub open spec fn spec_rev(self) -> AC {
        match self {
            AC::A => AC::C,
            AC::C => AC::A,
        }
    }

    /// The other member of the pair.
    pub fn rev(self) -> (r: AC)
        ensures
            r == self.spec_rev(),
    {
        match self {
            AC::A => AC::C,
            AC::C => AC::A,
        }
    }

    pub open spec fn spec_parent(self) -> ABC {
        match self {
            AC::A => ABC::A,
            AC::C => ABC::C,
        }
    }

    /// This peg, as a plain peg identifier.
    pub fn into_parent(self) -> (r: ABC)
        ensures
            r == self.spec_parent(),
    {
        match self {
            AC::A => ABC::A,
            AC::C => ABC::C,
        }
    }

    pub open spec fn spec_from_parent(p: ABC) -> Option<AC> {
        match p {
            ABC::A => Some(AC::A),
            ABC::C => Some(AC::C),
            ABC::B => None,
        }
    }

    /// Refine a plain peg identifier; fails on the excluded peg.
    pub fn try_from_parent(p: ABC) -> (r: Option<AC>)
        ensures
            r == AC::spec_from_parent(p),
    {
        match p {
            ABC::A => Some(AC::A),
            ABC::C => Some(AC::C),
            ABC::B => None,
        }
    }
}

/// A peg that is statically known not to be A.
#[derive(Clone, Copy, Debug, PartialEq, Eq, Structural)]
pub enum BC {
    B,
    C,
}

impl BC {
    pub open spec fn spec_rev(self) -> BC {
        match self {
            BC::B => BC::C,
            BC::C => BC::B,
        }
    }

    /// The other member of the pair.
    pub fn rev(self) -> (r: BC)
        ensures
            r == self.spec_rev(),
    {
        match self {
            BC::B => BC::C,
            BC::C => BC::B,
        }
    }

    pub open spec fn spec_parent(self) -> ABC {
        match self {
            BC::B => ABC::B,
            BC::C => ABC::C,
        }
    }

    /// This peg, as a plain peg identifier.
    pub fn into_parent(self) -> (r: ABC)
        ensures
            r == self.spec_parent(),
    {
        match self {
            BC::B => ABC::B,
            BC::C => ABC::C,
        }
    }

    pub open spec fn spec_from_parent(p: ABC) -> Option<BC> {
        match p {
            ABC::B => Some(BC::B),
            ABC::C => Some(BC::C),
            ABC::A => None,
        }
    }

    /// Refine a plain peg identifier; fails on the excluded peg.
    pub fn try_from_parent(p: ABC) -> (r: Option<BC>)
        ensures
            r == BC::spec_from_parent(p),
    {
        match p {
            ABC::B => Some(BC::B),
            ABC::C => Some(BC::C),
            ABC::A => None,
        }
    }
}

/// An unvalidated (source, destination) peg pair. The two pegs may be equal;
/// such a degenerate move is a deliberate no-op sentinel, never a transfer.
#[derive(Clone, Copy, Debug, PartialEq, Eq, Structural)]
pub struct Move {
    pub start: ABC,
    pub end: ABC,
}

/// A guaranteed non-degenerate route. The variant is the start peg and its
/// payload is the end peg, so a route from a peg to itself cannot be written.
#[derive(Clone, Copy, Debug, PartialEq, Eq, Structural)]
pub enum Route {
    A(BC),
    B(AC),
    C(AB),
}

/// The route from `start` to `end`, meaningful when the two pegs are distinct.
pub open spec fn spec_route(start: ABC, end: ABC) -> Route {
    match (start, end) {
        (ABC::A, _) => Route::A(if end == ABC::B { BC::B } else { BC::C }),
        (ABC::B, _) => Route::B(if end == ABC::A { AC::A } else { AC::C }),
        (ABC::C, _) => Route::C(if end == ABC::A { AB::A } else { AB::B }),
    }
}

impl Route {
    pub open spec fn spec_start(self) -> ABC {
        match self {
            Route::A(_) => ABC::A,
            Route::B(_) => ABC::B,
            Route::C(_) => ABC::C,
        }
    }

    pub open spec fn spec_end(self) -> ABC {
        match self {
            Route::A(bc) => bc.spec_parent(),
            Route::B(ac) => ac.spec_parent(),
            Route::C(ab) => ab.spec_parent(),
        }
    }

    pub open spec fn spec_middle(self) -> ABC {
        match self {
            Route::A(bc) => bc.spec_rev().spec_parent(),
            Route::B(ac) => ac.spec_rev().spec_parent(),
            Route::C(ab) => ab.spec_rev().spec_parent(),
        }
    }

    /// The start, the implied auxiliary peg, and the end of the route.
    pub fn start_middle_end(self) -> (r: (ABC, ABC, ABC))
        ensures
            r == (self.spec_start(), self.spec_middle(), self.spec_end()),
    {
        match self {
            Route::A(bc) => (ABC::A, bc.rev().into_parent(), bc.into_parent()),
            Route::B(ac) => (ABC::B, ac.rev().into_parent(), ac.into_parent()),
            Route::C(ab) => (ABC::C, ab.rev().into_parent(), ab.into_parent()),
        }
    }

    pub fn start(self) -> (r: ABC)
        ensures
            r == self.spec_start(),
    {
        self.start_middle_end().0
    }

    pub fn middle(self) -> (r: ABC)
        ensures
            r == self.spec_middle(),
    {
        self.start_middle_end().1
    }

    pub fn end(self) -> (r: ABC)
        ensures
            r == self.spec_end(),
    {
        self.start_middle_end().2
    }

    /// What refining a raw move yields: no route for a degenerate move.
    pub open spec fn spec_from_move(m: Move) -> Option<Route> {
        if m.start == m.end {
            None
        } else {
            Some(spec_route(m.start, m.end))
        }
    }

    /// Refine a raw move into a route; fails exactly on degenerate moves.
    pub fn try_from_move(m: Move) -> (r: Option<Route>)
        ensures
            r == Route::spec_from_move(m),
    {
        match m.start {
            ABC::A => match BC::try_from_parent(m.end) {
                Some(bc) => Some(Route::A(bc)),
                None => None,
            },
            ABC::B => match AC::try_from_parent(m.end) {
                Some(ac) => Some(Route::B(ac)),
                None => None,
            },
            ABC::C => match AB::try_from_parent(m.end) {
                Some(ab) => Some(Route::C(ab)),
                None => None,
            },
        }
    }
}

impl Move {
    /// Forget the auxiliary peg of a route, keeping only its endpoints.
    pub fn from_route(route: Route) -> (m: Move)
        ensures
            m == (Move { start: route.spec_start(), end: route.spec_end() }),
    {
        Move { start: route.start(), end: route.end() }
    }
}

/// The three legs of any route are pairwise distinct, the middle one is the
/// peg that is neither endpoint, and a route built from distinct pegs has
/// exactly those endpoints.
pub proof fn lemma_route_parts(start: ABC, end: ABC)
    requires
        start != end,
    ensures
        spec_route(start, end).spec_start() == start,
        spec_route(start, end).spec_end() == end,
        spec_route(start, end).spec_middle() == third(start, end),
        third(start, end) != start,
        third(start, end) != end,
{
}

} // verus!

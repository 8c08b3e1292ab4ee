//! The executable board: three disk stacks, the stacking validator, plays,
//! and the solver that derives the next move of the minimal solution.

use vstd::prelude::*;

use crate::model::{Towers, full_tower};
use crate::pegs::{ABC, Move, Route};

verus! {

/// Rejection of an illegal move; the board is always left untouched.
#[derive(Clone, Copy, Debug, PartialEq, Eq, Structural)]
pub struct Error;

/// A Hanoi board: one stack of disk sizes per peg (the last element of each
/// vector is the topmost disk) and the configured disk count.
pub struct Game {
    a: Vec<usize>,
    b: Vec<usize>,
    c: Vec<usize>,
    count: usize,
}

impl View for Game {
    type V = Towers;

    closed spec fn view(&self) -> Towers {
        Towers { a: self.a@, b: self.b@, c: self.c@, n: self.count as nat }
    }
}

/// The first position of `value` in `s`, if any.
pub fn index_of(s: &Vec<usize>, value: usize) -> (r: Option<usize>)
    ensures
        r matches Some(i) ==> i < s@.len() && s@[i as int] == value,
        r is Some <==> s@.contains(value),
{
    let mut k: usize = 0;
    while k < s.len()
        invariant
            k <= s@.len(),
            forall|j: int| 0 <= j < k ==> s@[j] != value,
        decreases s@.len() - k,
    {
        if s[k] == value {
            return Some(k);
        }
        k += 1;
    }
    None
}

impl Game {
    /// Create a board with `count` disks, all on peg A, largest at the bottom,
    /// smallest on top; the other two pegs start empty.
    pub fn new(count: usize) -> (g: Game)
        ensures
            g@ == Towers::fresh(count as nat),
            g@.wf(),
    {
        let mut a: Vec<usize> = Vec::with_capacity(count);
        let mut i: usize = count;
        while i > 0
            invariant
                i <= count,
                a@ =~= full_tower(count as nat).take(count - i),
            decreases i,
        {
            i -= 1;
            a.push(i);
            proof {
                assert(a@ =~= full_tower(count as nat).take(count - i));
            }
        }
        let g = Game { a, b: Vec::with_capacity(count), c: Vec::with_capacity(count), count };
        proof {
            assert(full_tower(count as nat).take(count as int) =~= full_tower(count as nat));
            assert(g@ =~= Towers::fresh(count as nat));
            crate::model::lemma_fresh_wf(count as nat);
        }
        g
    }

    /// The stack of one peg, read-only.
    pub fn get_ref(&self, tower: ABC) -> (r: &Vec<usize>)
        ensures
            r@ == self@.stack(tower),
    {
        match tower {
            ABC::A => &self.a,
            ABC::B => &self.b,
            ABC::C => &self.c,
        }
    }

    /// The stack of one peg, for mutation.
    fn get_mut(&mut self, tower: ABC) -> (r: &mut Vec<usize>)
        ensures
            (*r)@ == old(self)@.stack(tower),
            final(self)@.stack(tower) == (*final(r))@,
            forall|t2: ABC| t2 != tower ==> final(self)@.stack(t2) == old(self)@.stack(t2),
            final(self)@.n == old(self)@.n,
    {
        match tower {
            ABC::A => &mut self.a,
            ABC::B => &mut self.b,
            ABC::C => &mut self.c,
        }
    }

    /// The topmost (smallest) disk of one peg, if the peg holds any.
    pub fn top(&self, tower: ABC) -> (r: Option<usize>)
        ensures
            self@.stack(tower).len() == 0 ==> r is None,
            self@.stack(tower).len() > 0 ==> r == Some(self@.stack(tower).last()),
    {
        let v = self.get_ref(tower);
        if v.len() == 0 {
            None
        } else {
            Some(v[v.len() - 1])
        }
    }

    /// The stacking rule on two stack tops: the source must hold a disk, and
    /// the destination must be empty or topped by a disk that is not smaller.
    pub fn is_valid_placement(&self, start: Option<usize>, end: Option<usize>) -> (r: bool)
        ensures
            r == (match (start, end) {
                (None, _) => false,
                (Some(_), None) => true,
                (Some(s), Some(e)) => e >= s,
            }),
    {
        match (start, end) {
            (None, _) => false,
            (Some(_), None) => true,
            (Some(s), Some(e)) => e >= s,
        }
    }

    /// Is carrying out `route` legal on the current board?
    pub fn is_valid_route(&self, route: Route) -> (r: bool)
        ensures
            r == self@.valid(route),
    {
        self.is_valid_placement(self.top(route.start()), self.top(route.end()))
    }

    /// Carry out `route` when it is legal (pop the source top, push it on the
    /// destination); otherwise reject and leave the board exactly as it was.
    pub fn play_with_route(&mut self, route: Route) -> (r: Result<(), Error>)
        requires
            old(self)@.wf(),
        ensures
            final(self)@ == old(self)@.submit(route),
            r is Ok <==> old(self)@.valid(route),
            !old(self)@.valid(route) ==> final(self)@ == old(self)@,
            final(self)@.wf(),
    {
        if self.is_valid_route(route) {
            let start = self.get_mut(route.start()).pop().unwrap();
            self.get_mut(route.end()).push(start);
            proof {
                assert(old(self)@.stack(route.spec_start()).drop_last()
                    =~= old(self)@.stack(route.spec_start()).subrange(
                        0,
                        old(self)@.stack(route.spec_start()).len() - 1,
                    ));
                assert(self@ =~= old(self)@.apply(route));
                crate::model::lemma_apply_wf(old(self)@, route);
            }
            Ok(())
        } else {
            Err(Error)
        }
    }

    /// Submit a raw move: a degenerate move is a deliberate no-op that
    /// succeeds without touching the board; any other move is carried out
    /// exactly when it is legal, and rejected without effect otherwise.
    pub fn play_with_move(&mut self, player_move: Move) -> (r: Result<(), Error>)
        requires
            old(self)@.wf(),
        ensures
            Route::spec_from_move(player_move) matches Some(route) ==> {
                &&& final(self)@ == old(self)@.submit(route)
                &&& (r is Ok <==> old(self)@.valid(route))
            },
            Route::spec_from_move(player_move) is None ==> r is Ok && final(self)@ == old(
                self,
            )@,
            final(self)@.wf(),
    {
        match Route::try_from_move(player_move) {
            Some(route) => self.play_with_route(route),
            None => Ok(()),
        }
    }

    /// Find which peg holds disk `unit`, and whether a smaller disk sits above
    /// it there: check A, then B, else it must be C.
    pub fn find_unit(&self, unit: usize) -> (r: (ABC, bool))
        requires
            self@.wf(),
            unit < self@.n,
        ensures
            r.0 == self@.peg_of(unit),
            r.1 == self@.start_blocked(unit),
    {
        proof {
            crate::model::lemma_wf_peg_of(self@, unit);
            crate::model::lemma_descending_no_duplicates(self@.a);
            crate::model::lemma_descending_no_duplicates(self@.b);
            crate::model::lemma_descending_no_duplicates(self@.c);
        }
        if let Some(u) = index_of(&self.a, unit) {
            proof {
                self.lemma_top_index(ABC::A, unit, u as int);
            }
            return (ABC::A, u < self.a.len() - 1);
        }
        if let Some(u) = index_of(&self.b, unit) {
            proof {
                self.lemma_top_index(ABC::B, unit, u as int);
            }
            return (ABC::B, u < self.b.len() - 1);
        }
        let u = index_of(&self.c, unit).unwrap();
        proof {
            self.lemma_top_index(ABC::C, unit, u as int);
        }
        (ABC::C, u < self.c.len() - 1)
    }

    /// Does peg `tower` hold any disk smaller than `unit`?
    fn has_smaller(&self, tower: ABC, unit: usize) -> (r: bool)
        ensures
            r == self@.end_blocked(tower, unit),
    {
        let v = self.get_ref(tower);
        let mut k: usize = 0;
        while k < v.len()
            invariant
                k <= v@.len(),
                v@ == self@.stack(tower),
                forall|j: int| 0 <= j < k ==> v@[j] >= unit,
            decreases v@.len() - k,
        {
            if v[k] < unit {
                return true;
            }
            k += 1;
        }
        false
    }

    /// The next move of the minimal-length solution that carries every disk
    /// toward peg C, derived from the board state alone: scan candidate disks
    /// from the largest down, rerouting around blockages, until a disk can
    /// move to the running target. Reports `None` exactly when the puzzle is
    /// already resolved onto peg C.
    pub fn hint(&self) -> (r: Option<Route>)
        requires
            self@.wf(),
        ensures
            r == self@.hint(),
            r matches Some(route) ==> self@.valid(route),
    {
        proof {
            crate::model::lemma_hint_valid(self@);
        }
        let mut unit: usize = self.count;
        let mut end = ABC::C;
        while unit > 0
            invariant
                self@.wf(),
                unit <= self@.n,
                self@.hint() == self@.hint_from(unit - 1, end),
            decreases unit,
        {
            unit -= 1;
            let (start, start_is_blocked) = self.find_unit(unit);
            match Route::try_from_move(Move { start, end }) {
                None => {
                    // The disk already sits on the running target: skip it.
                }
                Some(route) => {
                    proof {
                        crate::pegs::lemma_route_parts(start, end);
                    }
                    let end_is_blocked = self.has_smaller(route.end(), unit);
                    if start_is_blocked || end_is_blocked {
                        end = route.middle();
                    } else {
                        return Some(route);
                    }
                }
            }
        }
        None
    }

    /// The hint as a raw move; the degenerate sentinel C -> C stands for
    /// "no move remains".
    pub fn hint_move(&self) -> (m: Move)
        requires
            self@.wf(),
        ensures
            self@.hint() matches Some(route) ==> m == (Move {
                start: route.spec_start(),
                end: route.spec_end(),
            }),
            self@.hint() is None ==> m == (Move { start: ABC::C, end: ABC::C }),
    {
        match self.hint() {
            Some(route) => Move::from_route(route),
            None => Move { start: ABC::C, end: ABC::C },
        }
    }

    /// Take a hint and carry it out; reports `None`, touching nothing, when
    /// the solver has no move left.
    pub fn play(&mut self) -> (r: Option<()>)
        requires
            old(self)@.wf(),
        ensures
            final(self)@ == old(self)@.hint_play(),
            r is Some <==> old(self)@.hint() is Some,
            final(self)@.wf(),
    {
        proof {
            crate::model::lemma_hint_valid(old(self)@);
        }
        let route = match self.hint() {
            Some(route) => route,
            None => {
                return None;
            },
        };
        let start = self.get_mut(route.start()).pop().unwrap();
        self.get_mut(route.end()).push(start);
        proof {
            assert(old(self)@.stack(route.spec_start()).drop_last()
                =~= old(self)@.stack(route.spec_start()).subrange(
                    0,
                    old(self)@.stack(route.spec_start()).len() - 1,
                ));
            assert(self@ =~= old(self)@.apply(route));
            crate::model::lemma_apply_wf(old(self)@, route);
        }
        Some(())
    }

    /// A disk found at index `i` of its peg is unblocked exactly when that
    /// index is the stack's last.
    proof fn lemma_top_index(&self, tower: ABC, unit: usize, i: int)
        requires
            self@.wf(),
            0 <= i < self@.stack(tower).len(),
            self@.stack(tower)[i] == unit,
        ensures
            tower == self@.peg_of(unit),
            self@.start_blocked(unit) <==> i + 1 < self@.stack(tower).len(),
    {
        let s = self@.stack(tower);
        assert(s.contains(unit));
        crate::model::lemma_wf_peg_of(self@, unit);
        assert(s[s.len() - 1] == s.last());
        if i + 1 < s.len() {
            assert(s[i] > s[s.len() - 1]);
        }
    }
}

} // verus!

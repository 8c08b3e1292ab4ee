//! The mathematical model of a board: one disk-size sequence per peg, the
//! well-formedness invariant, legality of routes, the effect of a play, and
//! the solver's scan, all as specification functions.

use vstd::multiset::Multiset;
use vstd::prelude::*;
use vstd::seq_lib::group_to_multiset_ensures;

use crate::pegs::{third, spec_route, ABC, Route};

verus! {

/// A board: one disk-size sequence per peg (the last element is the topmost
/// disk) and the configured disk count.
#[verifier::ext_equal]
pub struct Towers {
    pub a: Seq<usize>,
    pub b: Seq<usize>,
    pub c: Seq<usize>,
    pub n: nat,
}

/// Strictly decreasing from bottom (first) to top (last): every disk is
/// smaller than the disk beneath it.
pub open spec fn descending(s: Seq<usize>) -> bool {
    forall|i: int, j: int| 0 <= i < j < s.len() ==> s[i] > s[j]
}

/// The disks 0..n stacked largest-first: the contents of a freshly built peg.
pub open spec fn full_tower(n: nat) -> Seq<usize> {
    Seq::new(n, |i: int| (n - 1 - i) as usize)
}

impl Towers {
    pub open spec fn stack(self, t: ABC) -> Seq<usize> {
        match t {
            ABC::A => self.a,
            ABC::B => self.b,
            ABC::C => self.c,
        }
    }

    /// Every disk on the board, with multiplicity.
    pub open spec fn disks(self) -> Multiset<usize> {
        self.a.to_multiset().add(self.b.to_multiset()).add(self.c.to_multiset())
    }

    /// The board invariant: each stack is strictly decreasing from bottom to
    /// top, and the disks across all three stacks are exactly 0..n, once each.
    pub open spec fn wf(self) -> bool {
        &&& self.n <= usize::MAX
        &&& descending(self.a)
        &&& descending(self.b)
        &&& descending(self.c)
        &&& self.disks() == full_tower(self.n).to_multiset()
    }

    /// A transfer is legal iff the source peg is non-empty and the destination
    /// peg is empty or its top disk is not smaller than the moving disk.
    pub open spec fn valid(self, r: Route) -> bool {
        let s = self.stack(r.spec_start());
        let e = self.stack(r.spec_end());
        s.len() > 0 && (e.len() == 0 || e.last() >= s.last())
    }

    /// One stack of the board after carrying out route `r`.
    pub open spec fn moved_stack(self, r: Route, t: ABC) -> Seq<usize> {
        if t == r.spec_start() {
            self.stack(t).drop_last()
        } else if t == r.spec_end() {
            self.stack(t).push(self.stack(r.spec_start()).last())
        } else {
            self.stack(t)
        }
    }

    /// The board after carrying out route `r` (meaningful when `valid(r)`).
    pub open spec fn apply(self, r: Route) -> Towers {
        Towers {
            a: self.moved_stack(r, ABC::A),
            b: self.moved_stack(r, ABC::B),
            c: self.moved_stack(r, ABC::C),
            n: self.n,
        }
    }

    /// Submitting a route: carried out when legal, otherwise no effect at all.
    pub open spec fn submit(self, r: Route) -> Towers {
        if self.valid(r) {
            self.apply(r)
        } else {
            self
        }
    }

    /// The peg holding disk `v` (meaningful when the board is well formed and
    /// `v < n`): check A, then B, else it must be C.
    pub open spec fn peg_of(self, v: usize) -> ABC {
        if self.a.contains(v) {
            ABC::A
        } else if self.b.contains(v) {
            ABC::B
        } else {
            ABC::C
        }
    }

    /// Is a smaller disk resting on top of disk `v` on its own peg?
    pub open spec fn start_blocked(self, v: usize) -> bool {
        let s = self.stack(self.peg_of(v));
        !(s.len() > 0 && s.last() == v)
    }

    /// Does peg `t` hold a disk smaller than `v`?
    pub open spec fn end_blocked(self, t: ABC, v: usize) -> bool {
        exists|i: int| 0 <= i < self.stack(t).len() && self.stack(t)[i] < v
    }

    /// The solver's scan: candidate disk sizes from `u` down to 0, with `e`
    /// the running target peg. A disk already on the target is skipped; a
    /// blocked candidate retargets the scan to the route's auxiliary peg; the
    /// first unblocked candidate off its target yields the route.
    pub open spec fn hint_from(self, u: int, e: ABC) -> Option<Route>
        decreases u + 1,
    {
        if u < 0 {
            None
        } else {
            let v = u as usize;
            let s = self.peg_of(v);
            if s == e {
                self.hint_from(u - 1, e)
            } else if self.start_blocked(v) || self.end_blocked(e, v) {
                self.hint_from(u - 1, third(s, e))
            } else {
                Some(spec_route(s, e))
            }
        }
    }

    /// The next move of the minimal solution toward peg C, if any remains.
    pub open spec fn hint(self) -> Option<Route> {
        self.hint_from(self.n - 1, ABC::C)
    }

    /// One hint-then-play step: carry out the hinted route, or stand still
    /// when the solver reports that no move remains.
    pub open spec fn hint_play(self) -> Towers {
        match self.hint() {
            Some(r) => self.apply(r),
            None => self,
        }
    }

    /// The puzzle is resolved: peg C holds all n disks in order, A and B are
    /// empty.
    pub open spec fn solved(self) -> bool {
        self.a.len() == 0 && self.b.len() == 0 && self.c == full_tower(self.n)
    }

    /// A fresh board: all n disks on peg A, largest at the bottom.
    pub open spec fn fresh(n: nat) -> Towers {
        Towers { a: full_tower(n), b: Seq::empty(), c: Seq::empty(), n }
    }
}

/// A strictly decreasing stack never holds the same disk size twice.
pub proof fn lemma_descending_no_duplicates(s: Seq<usize>)
    requires
        descending(s),
    ensures
        s.no_duplicates(),
{
    assert forall|i: int, j: int|
        0 <= i < s.len() && 0 <= j < s.len() && i != j implies s[i] != s[j] by {
        if i < j {
            assert(s[i] > s[j]);
        } else {
            assert(s[j] > s[i]);
        }
    }
}

/// The fresh stack is strictly decreasing and holds exactly the sizes below n.
pub proof fn lemma_full_tower(n: nat)
    requires
        n <= usize::MAX,
    ensures
        full_tower(n).len() == n,
        descending(full_tower(n)),
        forall|v: usize| full_tower(n).contains(v) <==> v < n,
{
    assert forall|v: usize| v < n implies full_tower(n).contains(v) by {
        assert(full_tower(n)[n - 1 - v] == v);
    }
}

/// On a well-formed board each disk size below n lies on exactly one peg,
/// the peg that `peg_of` names, and no stack holds any other size.
pub proof fn lemma_wf_peg_of(t: Towers, v: usize)
    requires
        t.wf(),
    ensures
        v < t.n ==> t.stack(t.peg_of(v)).contains(v),
        forall|p: ABC| t.stack(p).contains(v) ==> v < t.n && p == t.peg_of(v),
{
    broadcast use group_to_multiset_ensures;
    broadcast use vstd::multiset::group_multiset_axioms;

    lemma_full_tower(t.n);
    lemma_descending_no_duplicates(full_tower(t.n));
    full_tower(t.n).lemma_multiset_has_no_duplicates();
    let m = full_tower(t.n).to_multiset();
    assert(t.disks().count(v) == m.count(v));
    if v < t.n {
        assert(m.count(v) == 1);
        assert(t.a.to_multiset().count(v) + t.b.to_multiset().count(v)
            + t.c.to_multiset().count(v) == 1);
    } else {
        assert(!full_tower(t.n).contains(v));
        assert(m.count(v) == 0);
    }
}

/// A fresh board is well formed, and every one of its disks lies on peg A.
pub proof fn lemma_fresh_wf(n: nat)
    requires
        n <= usize::MAX,
    ensures
        Towers::fresh(n).wf(),
        forall|w: usize| w < n ==> Towers::fresh(n).peg_of(w) == ABC::A,
{
    broadcast use group_to_multiset_ensures;
    broadcast use vstd::multiset::group_multiset_axioms;

    lemma_full_tower(n);
    let t = Towers::fresh(n);
    assert(t.disks() =~= full_tower(n).to_multiset());
}

/// Carrying out a legal route on a well-formed board keeps it well formed;
/// the moved disk ends up on the route's end peg, and every other disk stays
/// on the peg it was on.
pub proof fn lemma_apply_wf(t: Towers, r: Route)
    requires
        t.wf(),
        t.valid(r),
    ensures
        t.apply(r).wf(),
        t.apply(r).n == t.n,
        t.apply(r).peg_of(t.stack(r.spec_start()).last()) == r.spec_end(),
        forall|w: usize|
            w != t.stack(r.spec_start()).last() ==> t.apply(r).peg_of(w) == t.peg_of(w),
{
    broadcast use group_to_multiset_ensures;
    broadcast use vstd::multiset::group_multiset_axioms;

    let s = r.spec_start();
    let e = r.spec_end();
    assert(s != e);
    let ss = t.stack(s);
    let es = t.stack(e);
    let v = ss.last();
    let tt = t.apply(r);

    assert(ss[ss.len() - 1] == v);
    assert(ss.contains(v));
    lemma_wf_peg_of(t, v);
    assert(t.peg_of(v) == s);

    assert(tt.stack(s) == ss.drop_last());
    assert(tt.stack(e) == es.push(v));
    assert(forall|p: ABC| p != s && p != e ==> tt.stack(p) == t.stack(p));

    // The destination's top disk, when there is one, is strictly larger than
    // the moving disk: validity gives "not smaller", and no disk size occurs
    // on two pegs at once.
    if es.len() > 0 {
        assert(es[es.len() - 1] == es.last());
        assert(es.contains(es.last()));
        lemma_wf_peg_of(t, es.last());
        assert(es.last() != v);
        assert(es.last() > v);
    }

    // Each moved stack is still strictly decreasing.
    assert(descending(ss.drop_last())) by {
        assert forall|i: int, j: int|
            0 <= i < j < ss.drop_last().len() implies ss.drop_last()[i] > ss.drop_last()[j] by {
            assert(ss.drop_last()[i] == ss[i]);
            assert(ss.drop_last()[j] == ss[j]);
        }
    }
    assert(descending(es.push(v))) by {
        assert forall|i: int, j: int|
            0 <= i < j < es.push(v).len() implies es.push(v)[i] > es.push(v)[j] by {
            if j < es.len() {
                assert(es.push(v)[i] == es[i] && es.push(v)[j] == es[j]);
            } else {
                assert(es.push(v)[j] == v);
                assert(es.push(v)[i] == es[i]);
                if i < es.len() - 1 {
                    assert(es[i] > es.last());
                }
            }
        }
    }

    // No disk is created or destroyed: count the disks size by size.
    assert(ss.drop_last() =~= ss.remove(ss.len() - 1));
    assert(ss.drop_last().to_multiset() == ss.to_multiset().remove(v));
    assert(es.push(v).to_multiset() == es.to_multiset().insert(v));
    assert(ss.to_multiset().count(v) > 0);
    assert(tt.disks() =~= t.disks()) by {
        assert forall|x: usize| tt.disks().count(x) == t.disks().count(x) by {
            assert(tt.disks().count(x) == tt.a.to_multiset().count(x)
                + tt.b.to_multiset().count(x) + tt.c.to_multiset().count(x));
            assert(t.disks().count(x) == t.a.to_multiset().count(x)
                + t.b.to_multiset().count(x) + t.c.to_multiset().count(x));
        }
    }
    assert(tt.wf());

    // The moved disk now lies on the end peg.
    assert(es.push(v)[es.len() as int] == v);
    assert(tt.stack(e).contains(v));
    lemma_wf_peg_of(tt, v);
    assert(tt.peg_of(v) == e);

    // Every other disk is still on the peg it was on: membership in each
    // stack is unchanged for sizes other than the moved one.
    lemma_descending_no_duplicates(ss);
    assert forall|w: usize| w != v implies tt.peg_of(w) == t.peg_of(w) by {
        assert forall|p: ABC| tt.stack(p).contains(w) <==> t.stack(p).contains(w) by {
            if p == s {
                if ss.contains(w) {
                    let i = choose|i: int| 0 <= i < ss.len() && ss[i] == w;
                    assert(i != ss.len() - 1);
                    assert(ss.drop_last()[i] == w);
                    assert(ss.drop_last().contains(w));
                }
                if ss.drop_last().contains(w) {
                    let i = choose|i: int| 0 <= i < ss.drop_last().len() && ss.drop_last()[i] == w;
                    assert(ss[i] == w);
                    assert(ss.contains(w));
                }
            } else if p == e {
                if es.contains(w) {
                    let i = choose|i: int| 0 <= i < es.len() && es[i] == w;
                    assert(es.push(v)[i] == w);
                    assert(es.push(v).contains(w));
                }
                if es.push(v).contains(w) {
                    let i = choose|i: int| 0 <= i < es.push(v).len() && es.push(v)[i] == w;
                    assert(i < es.len());
                    assert(es[i] == w);
                    assert(es.contains(w));
                }
            }
        }
        assert(tt.a.contains(w) <==> t.a.contains(w)) by {
            assert(tt.stack(ABC::A).contains(w) <==> t.stack(ABC::A).contains(w));
        }
        assert(tt.b.contains(w) <==> t.b.contains(w)) by {
            assert(tt.stack(ABC::B).contains(w) <==> t.stack(ABC::B).contains(w));
        }
    }
}

/// Whatever route the scan yields is legal, and the disk it moves is one of
/// the sizes the scan has looked at.
pub proof fn lemma_hint_from_props(t: Towers, u: int, e: ABC)
    requires
        t.wf(),
        u < t.n,
    ensures
        t.hint_from(u, e) matches Some(r) ==> {
            &&& t.valid(r)
            &&& t.stack(r.spec_start()).last() <= u
            &&& r == spec_route(t.peg_of(t.stack(r.spec_start()).last()), r.spec_end())
        },
    decreases u + 1,
{
    if u >= 0 {
        let v = u as usize;
        let s = t.peg_of(v);
        if s == e {
            lemma_hint_from_props(t, u - 1, e);
        } else if t.start_blocked(v) || t.end_blocked(e, v) {
            lemma_hint_from_props(t, u - 1, crate::pegs::third(s, e));
        } else {
            crate::pegs::lemma_route_parts(s, e);
            lemma_wf_peg_of(t, v);
            assert(t.stack(s).contains(v));
            assert(t.stack(s).len() > 0);
            assert(t.stack(s).last() == v);
            let es = t.stack(e);
            if es.len() > 0 {
                assert(es[es.len() - 1] == es.last());
                assert(es.last() >= v);
            }
        }
    }
}

/// The scan reports "no move" exactly when every disk it considers already
/// sits on the running target peg.
pub proof fn lemma_hint_from_none(t: Towers, u: int, e: ABC)
    requires
        t.wf(),
        u < t.n,
    ensures
        t.hint_from(u, e) is None <==> (forall|w: usize| w <= u ==> t.peg_of(w) == e),
    decreases u + 1,
{
    if u >= 0 {
        let v = u as usize;
        let s = t.peg_of(v);
        if s == e {
            lemma_hint_from_none(t, u - 1, e);
        } else if t.start_blocked(v) || t.end_blocked(e, v) {
            let m = crate::pegs::third(s, e);
            crate::pegs::lemma_route_parts(s, e);
            lemma_hint_from_none(t, u - 1, m);
            if t.hint_from(u, e) is None {
                // Every smaller disk would lie on the auxiliary peg, so
                // neither blocker can actually hold.
                assert(forall|w: usize| w <= u - 1 ==> t.peg_of(w) == m);
                lemma_wf_peg_of(t, v);
                assert(t.stack(s).contains(v));
                let ss = t.stack(s);
                if t.start_blocked(v) {
                    let l = ss.last();
                    assert(ss[ss.len() - 1] == l);
                    assert(ss.contains(l));
                    lemma_wf_peg_of(t, l);
                    assert(t.peg_of(l) == s);
                    let i = choose|i: int| 0 <= i < ss.len() && ss[i] == v;
                    assert(i < ss.len() - 1);
                    assert(ss[i] > ss[ss.len() - 1]);
                    assert(l < v);
                    assert(t.peg_of(l) == m);
                    assert(false);
                } else {
                    let i = choose|i: int| 0 <= i < t.stack(e).len() && t.stack(e)[i] < v;
                    let w = t.stack(e)[i];
                    assert(t.stack(e).contains(w));
                    lemma_wf_peg_of(t, w);
                    assert(t.peg_of(w) == e);
                    assert(t.peg_of(w) == m);
                    assert(false);
                }
            }
        } else {
            assert(t.hint_from(u, e) is Some);
            assert(t.peg_of(v) != e);
        }
    }
}

/// In a strictly decreasing stack, the disk `j - i` places above index `i` is
/// at least `j - i` sizes smaller.
proof fn lemma_descending_gap(s: Seq<usize>, i: int, j: int)
    requires
        descending(s),
        0 <= i <= j < s.len(),
    ensures
        s[i] >= s[j] + (j - i),
    decreases j - i,
{
    if i < j {
        lemma_descending_gap(s, i + 1, j);
    }
}

/// A strictly decreasing stack holding exactly the disk sizes 0..n is the
/// fresh stack: size n-1-i at each index i.
pub proof fn lemma_descending_full(s: Seq<usize>, n: nat)
    requires
        n <= usize::MAX,
        descending(s),
        s.to_multiset() == full_tower(n).to_multiset(),
    ensures
        s == full_tower(n),
{
    broadcast use group_to_multiset_ensures;
    broadcast use vstd::multiset::group_multiset_axioms;

    lemma_full_tower(n);
    assert(s.to_multiset().len() == s.len());
    assert(full_tower(n).to_multiset().len() == full_tower(n).len());
    assert(s.len() == n);
    assert forall|i: int| 0 <= i < s.len() implies s[i] == n - 1 - i by {
        assert(s.contains(s[i]));
        assert(s.to_multiset().count(s[i]) > 0);
        assert(full_tower(n).to_multiset().count(s[i]) > 0);
        assert(full_tower(n).contains(s[i]));
        assert(s[i] < n);
        assert(s.contains(s[0]));
        assert(s.to_multiset().count(s[0]) > 0);
        assert(full_tower(n).to_multiset().count(s[0]) > 0);
        assert(full_tower(n).contains(s[0]));
        assert(s.contains(s[n - 1]));
        lemma_descending_gap(s, 0, i);
        lemma_descending_gap(s, i, n as int - 1);
    }
    assert(s =~= full_tower(n));
}

/// A well-formed board whose every disk lies on peg C is resolved: A and B
/// are empty and C holds the full tower in order.
pub proof fn lemma_all_on_c_solved(t: Towers)
    requires
        t.wf(),
        forall|w: usize| w < t.n ==> t.peg_of(w) == ABC::C,
    ensures
        t.solved(),
{
    broadcast use group_to_multiset_ensures;
    broadcast use vstd::multiset::group_multiset_axioms;

    if t.a.len() > 0 {
        let v = t.a[0];
        assert(t.a.contains(v));
        lemma_wf_peg_of(t, v);
        assert(t.stack(ABC::A).contains(v));
        assert(false);
    }
    if t.b.len() > 0 {
        let v = t.b[0];
        assert(t.b.contains(v));
        lemma_wf_peg_of(t, v);
        assert(t.stack(ABC::B).contains(v));
        assert(false);
    }
    assert(t.c.to_multiset() =~= full_tower(t.n).to_multiset()) by {
        assert forall|x: usize|
            t.c.to_multiset().count(x) == full_tower(t.n).to_multiset().count(x) by {
            assert(!t.a.contains(x) && !t.b.contains(x));
            assert(t.a.to_multiset().count(x) == 0 && t.b.to_multiset().count(x) == 0);
            assert(t.disks().count(x) == t.a.to_multiset().count(x) + t.b.to_multiset().count(x)
                + t.c.to_multiset().count(x));
        }
    }
    lemma_descending_full(t.c, t.n);
}

/// The solver reports that no move remains exactly when the puzzle is
/// already resolved onto peg C.
pub proof fn lemma_hint_none_iff_solved(t: Towers)
    requires
        t.wf(),
    ensures
        t.hint() is None <==> t.solved(),
{
    lemma_hint_from_none(t, t.n - 1, ABC::C);
    if t.hint() is None {
        lemma_all_on_c_solved(t);
    }
    if t.solved() {
        assert forall|w: usize| w <= t.n - 1 implies t.peg_of(w) == ABC::C by {
            assert(!t.a.contains(w) && !t.b.contains(w));
        }
    }
}

/// The hint of a well-formed board, when there is one, is a legal route.
pub proof fn lemma_hint_valid(t: Towers)
    requires
        t.wf(),
    ensures
        t.hint() matches Some(r) ==> t.valid(r),
        t.hint_play().wf(),
{
    lemma_hint_from_props(t, t.n - 1, ABC::C);
    match t.hint() {
        Some(r) => lemma_apply_wf(t, r),
        None => {},
    }
}

} // verus!

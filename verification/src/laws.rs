//! The laws of the engine: rejection of an illegal move is idempotent, and
//! repeatedly taking the hint resolves any well-formed board onto peg C in
//! exactly the minimal number of moves — 2^n - 1 from a fresh n-disk board.

use vstd::prelude::*;

use crate::model::Towers;
use crate::pegs::{third, ABC, Route};

verus! {

/// Two to the power `k`.
pub open spec fn pow2(k: nat) -> nat
    decreases k,
{
    if k == 0 {
        1
    } else {
        2 * pow2((k - 1) as nat)
    }
}

proof fn lemma_pow2_pos(k: nat)
    ensures
        pow2(k) >= 1,
    decreases k,
{
    if k > 0 {
        lemma_pow2_pos((k - 1) as nat);
    }
}

/// How many moves the minimal solution still needs to bring the disks 0..=u
/// onto peg `e`: a disk already on the target adds nothing of its own, and a
/// disk elsewhere must move once while every smaller disk first clears onto
/// the auxiliary peg and later returns.
pub open spec fn steps_from(t: Towers, u: int, e: ABC) -> nat
    decreases u + 1,
{
    if u < 0 {
        0
    } else {
        let s = t.peg_of(u as usize);
        if s == e {
            steps_from(t, u - 1, e)
        } else {
            pow2(u as nat) + steps_from(t, u - 1, third(s, e))
        }
    }
}

/// How many moves the minimal solution still needs to resolve the board.
pub open spec fn steps_left(t: Towers) -> nat {
    steps_from(t, t.n - 1, ABC::C)
}

/// The board after `k` hint-then-play steps.
pub open spec fn play_n(t: Towers, k: nat) -> Towers
    decreases k,
{
    if k == 0 {
        t
    } else {
        play_n(t.hint_play(), (k - 1) as nat)
    }
}

/// The board after submitting route `r`, `k` times in a row.
pub open spec fn submit_n(t: Towers, r: Route, k: nat) -> Towers
    decreases k,
{
    if k == 0 {
        t
    } else {
        submit_n(t.submit(r), r, (k - 1) as nat)
    }
}

/// Idempotence of rejection: submitting the same illegal move any number of
/// times never changes the board.
pub proof fn lemma_reject_idempotent(t: Towers, r: Route, k: nat)
    requires
        !t.valid(r),
    ensures
        submit_n(t, r, k) == t,
    decreases k,
{
    if k > 0 {
        lemma_reject_idempotent(t, r, (k - 1) as nat);
    }
}

/// A scan whose disks all sit on the target peg needs no moves.
proof fn lemma_steps_all_on(t: Towers, u: int, e: ABC)
    requires
        forall|w: usize| w <= u ==> t.peg_of(w) == e,
    ensures
        steps_from(t, u, e) == 0,
    decreases u + 1,
{
    if u >= 0 {
        assert(t.peg_of(u as usize) == e);
        lemma_steps_all_on(t, u - 1, e);
    }
}

/// When every disk of the scan sits on one peg `m` other than the target, the
/// whole stack must be relocated: 2^(u+1) - 1 moves.
proof fn lemma_steps_all_off(t: Towers, u: int, m: ABC, e: ABC)
    requires
        u >= -1,
        m != e,
        forall|w: usize| w <= u ==> t.peg_of(w) == m,
    ensures
        steps_from(t, u, e) == pow2((u + 1) as nat) - 1,
    decreases u + 1,
{
    if u >= 0 {
        assert((u as usize) <= u);
        assert(t.peg_of(u as usize) == m);
        crate::pegs::lemma_route_parts(m, e);
        lemma_steps_all_off(t, u - 1, m, third(m, e));
        assert(steps_from(t, u - 1, third(m, e)) == pow2(u as nat) - 1);
        assert(steps_from(t, u, e) == pow2(u as nat) + steps_from(t, u - 1, third(m, e)));
        assert(pow2((u + 1) as nat) == 2 * pow2(u as nat));
        lemma_pow2_pos(u as nat);
    }
}

/// The remaining-move count is zero exactly when every scanned disk already
/// sits on the target.
proof fn lemma_steps_zero(t: Towers, u: int, e: ABC)
    ensures
        steps_from(t, u, e) == 0 <==> (forall|w: usize| w <= u ==> t.peg_of(w) == e),
    decreases u + 1,
{
    if u >= 0 {
        let s = t.peg_of(u as usize);
        lemma_steps_zero(t, u - 1, e);
        if s == e {
            if forall|w: usize| w <= u - 1 ==> t.peg_of(w) == e {
                assert forall|w: usize| w <= u implies t.peg_of(w) == e by {
                    if w <= u - 1 {
                    } else {
                        assert(w == u as usize);
                    }
                }
            }
        } else {
            lemma_pow2_pos(u as nat);
            assert(!(forall|w: usize| w <= u ==> t.peg_of(w) == e)) by {
                assert(u as usize <= u && t.peg_of(u as usize) != e);
            }
        }
    }
}

/// Carrying out the route the scan yields brings the remaining-move count
/// down by exactly one.
proof fn lemma_steps_decrement(t: Towers, u: int, e: ABC)
    requires
        t.wf(),
        u < t.n,
    ensures
        t.hint_from(u, e) matches Some(r) ==> {
            &&& steps_from(t, u, e) >= 1
            &&& steps_from(t.apply(r), u, e) == steps_from(t, u, e) - 1
        },
    decreases u + 1,
{
    if u < 0 {
        return;
    }
    let v = u as usize;
    let s = t.peg_of(v);
    match t.hint_from(u, e) {
        None => {},
        Some(r) => {
            crate::model::lemma_hint_from_props(t, u, e);
            let moved = t.stack(r.spec_start()).last();
            crate::model::lemma_apply_wf(t, r);
            let tt = t.apply(r);
            if s == e {
                crate::model::lemma_hint_from_props(t, u - 1, e);
                lemma_steps_decrement(t, u - 1, e);
                assert(moved <= u - 1);
                assert(tt.peg_of(v) == e);
                assert(steps_from(tt, u, e) == steps_from(tt, u - 1, e));
            } else if t.start_blocked(v) || t.end_blocked(e, v) {
                let m = third(s, e);
                crate::pegs::lemma_route_parts(s, e);
                crate::model::lemma_hint_from_props(t, u - 1, m);
                lemma_steps_decrement(t, u - 1, m);
                assert(moved <= u - 1);
                assert(tt.peg_of(v) == s);
                assert(steps_from(tt, u, e) == pow2(u as nat) + steps_from(tt, u - 1, m));
            } else {
                // The scan found its disk: v itself moves from s to e, and
                // every smaller disk already sits on the auxiliary peg.
                crate::pegs::lemma_route_parts(s, e);
                let m = third(s, e);
                crate::model::lemma_wf_peg_of(t, v);
                let ss = t.stack(s);
                assert(ss.contains(v));
                assert(ss.last() == v);
                assert(r == crate::pegs::spec_route(s, e));
                assert(r.spec_start() == s && r.spec_end() == e);
                assert(moved == v);
                assert forall|w: usize| w <= u - 1 implies t.peg_of(w) == m by {
                    assert(w < t.n);
                    crate::model::lemma_wf_peg_of(t, w);
                    let p = t.peg_of(w);
                    assert(t.stack(p).contains(w));
                    if p == s {
                        let i = choose|i: int| 0 <= i < ss.len() && ss[i] == w;
                        assert(ss[ss.len() - 1] == v);
                        if i < ss.len() - 1 {
                            assert(ss[i] > ss[ss.len() - 1]);
                        }
                        assert(false);
                    }
                    if p == e {
                        let es = t.stack(e);
                        let i = choose|i: int| 0 <= i < es.len() && es[i] == w;
                        assert(t.end_blocked(e, v));
                        assert(false);
                    }
                }
                lemma_steps_all_on(t, u - 1, m);
                assert(steps_from(t, u, e) == pow2(u as nat));
                assert(tt.peg_of(v) == e);
                assert forall|w: usize| w <= u - 1 implies tt.peg_of(w) == m by {
                    assert(w != v);
                    assert(tt.peg_of(w) == t.peg_of(w));
                }
                lemma_steps_all_off(tt, u - 1, m, e);
                assert(steps_from(tt, u, e) == steps_from(tt, u - 1, e));
                lemma_pow2_pos(u as nat);
            }
        },
    }
}

/// Taking the hint and playing it, over and over from any well-formed board,
/// resolves the puzzle onto peg C in exactly `steps_left` moves: every board
/// on the way still offers a hint, and the final board offers none.
pub proof fn theorem_hints_solve(t: Towers)
    requires
        t.wf(),
    ensures
        play_n(t, steps_left(t)).solved(),
        play_n(t, steps_left(t)).hint() is None,
        forall|k: nat| k < steps_left(t) ==> play_n(t, k).hint() is Some,
    decreases steps_left(t),
{
    crate::model::lemma_hint_from_none(t, t.n - 1, ABC::C);
    lemma_steps_zero(t, t.n - 1, ABC::C);
    if steps_left(t) == 0 {
        crate::model::lemma_all_on_c_solved(t);
        assert(play_n(t, 0) == t);
    } else {
        match t.hint() {
            None => {
                assert(false);
            },
            Some(r) => {
                lemma_steps_decrement(t, t.n - 1, ABC::C);
                crate::model::lemma_hint_valid(t);
                let t2 = t.hint_play();
                assert(t2 == t.apply(r));
                assert(t2.n == t.n);
                assert(steps_left(t2) == steps_left(t) - 1);
                theorem_hints_solve(t2);
                assert(play_n(t, steps_left(t)) == play_n(t2, (steps_left(t) - 1) as nat));
                assert forall|k: nat| k < steps_left(t) implies play_n(t, k).hint() is Some by {
                    if k > 0 {
                        assert(play_n(t, k) == play_n(t2, (k - 1) as nat));
                    }
                }
            },
        }
    }
}

/// A fresh board with n disks is exactly 2^n - 1 moves from resolution.
pub proof fn lemma_fresh_steps(n: nat)
    requires
        n <= usize::MAX,
    ensures
        steps_left(Towers::fresh(n)) == pow2(n) - 1,
{
    crate::model::lemma_fresh_wf(n);
    if n > 0 {
        lemma_steps_all_off(Towers::fresh(n), n - 1, ABC::A, ABC::C);
    }
}

/// The hint-then-play sequence from a fresh n-disk board produces exactly
/// 2^n - 1 moves before the solver reports that nothing remains, and the
/// final board holds all n disks on peg C in order.
pub proof fn theorem_fresh_solution(n: nat)
    requires
        n <= usize::MAX,
    ensures
        play_n(Towers::fresh(n), (pow2(n) - 1) as nat).solved(),
        play_n(Towers::fresh(n), (pow2(n) - 1) as nat).hint() is None,
        forall|k: nat| k < pow2(n) - 1 ==> play_n(Towers::fresh(n), k).hint() is Some,
{
    crate::model::lemma_fresh_wf(n);
    lemma_fresh_steps(n);
    theorem_hints_solve(Towers::fresh(n));
}

} // verus!

//! Legal-move generation: every terminal board reachable by playing both
//! dice (all four half-moves for doubles), each flipped so the opponent is
//! on roll, deduplicated and ordered by the canonical key.

use vstd::prelude::*;
use crate::position::{State, Action, valid_action_spec, action_applied, is_flip_of, from_slot};
use crate::dice::{Dice, dice_wf};
use crate::ids::key_byte;

verus! {

/// A checker can enter from the bar with `die`: the entry point is open.
pub open spec fn can_enter_spec(s: State, die: int) -> bool {
    s.pips@[25] > 0 && s.pips@[25 - die] >= -1
}

/// A checker on point `i` can make a half-move of `die` pips: a regular move
/// must land on an open point; bearing off asks that every checker has come
/// home, and a larger die bears off only from the highest occupied point.
pub open spec fn can_move_board_spec(s: State, i: int, die: int) -> bool {
    &&& s.pips@[i] >= 1
    &&& if i > die {
        s.pips@[i - die] >= -1
    } else if i == die {
        forall|j: int| 7 <= j <= 25 ==> s.pips@[j] <= 0
    } else {
        forall|j: int| i < j <= 25 ==> s.pips@[j] <= 0
    }
}

/// Some half-move with `die` exists: entry from the bar when a checker waits
/// there, otherwise a board move from some point.
pub open spec fn can_half_move_spec(s: State, die: int) -> bool {
    if s.pips@[25] > 0 {
        can_enter_spec(s, die)
    } else {
        exists|i: int| 1 <= i <= 24 && can_move_board_spec(s, i, die)
    }
}

/// The half-move actions the rules allow for `die`: entry from the bar when
/// a checker waits there, else a board move whose target the die distance
/// fixes.
pub open spec fn half_move_ok(s: State, die: int, a: Action) -> bool {
    if s.pips@[25] > 0 {
        &&& a.from == 25
        &&& a.to + die == 24
        &&& can_enter_spec(s, die)
    } else {
        &&& a.from < 24
        &&& can_move_board_spec(s, a.from + 1, die)
        &&& if a.from + 1 > die {
            a.to + die == a.from
        } else {
            a.to == 24
        }
    }
}

/// `q` is one legal half-move of `die` pips away from `s`.
pub open spec fn half_step(s: State, die: int, q: State) -> bool {
    exists|a: Action| half_move_ok(s, die, a) && #[trigger] action_applied(q, s, a)
}

/// `q` is reached from `s` by legal half-moves of the given dice, in order.
pub open spec fn steps_with(s: State, dies: Seq<int>, q: State) -> bool
    decreases dies.len(),
{
    if dies.len() == 0 {
        q == s
    } else {
        exists|m: State| #[trigger] half_step(s, dies[0], m) && steps_with(m, dies.drop_first(), q)
    }
}

/// The same die `n` times: a double's half-moves.
pub open spec fn rep(d: int, n: nat) -> Seq<int> {
    Seq::new(n, |i: int| d)
}

/// The boards a legal play of the roll can end on: as many half-moves as some
/// order allows — both dice of a mixed roll where possible, else the larger
/// die alone where it can move, else the smaller, else the board is left as
/// it stands; up to four half-moves of a double.
#[verifier::opaque]
pub open spec fn play_result(s: State, dice: Dice, q: State) -> bool {
    match dice {
        Dice::Regular(rd) => {
            let big = rd.big as int;
            let small = rd.small as int;
            if (exists|t: State| steps_with(s, seq![big, small], t)) || (exists|t: State|
                steps_with(s, seq![small, big], t)) {
                steps_with(s, seq![big, small], q) || steps_with(s, seq![small, big], q)
            } else if exists|t: State| half_step(s, big, t) {
                half_step(s, big, q)
            } else if exists|t: State| half_step(s, small, t) {
                half_step(s, small, q)
            } else {
                q == s
            }
        },
        Dice::Double(dv) => {
            let d = dv as int;
            if exists|t: State| steps_with(s, rep(d, 4), t) {
                steps_with(s, rep(d, 4), q)
            } else if exists|t: State| steps_with(s, rep(d, 3), t) {
                steps_with(s, rep(d, 3), q)
            } else if exists|t: State| steps_with(s, rep(d, 2), t) {
                steps_with(s, rep(d, 2), q)
            } else if exists|t: State| half_step(s, d, t) {
                half_step(s, d, q)
            } else {
                q == s
            }
        },
    }
}

/// `q` is among the moves of the roll: the flip of a board some legal play
/// ends on.
pub open spec fn is_move_of(s: State, dice: Dice, q: State) -> bool {
    exists|b: State| #[trigger] play_result(s, dice, b) && is_flip_of(q, b)
}

/// Membership in a run of positions.
pub open spec fn seq_contains(r: Seq<State>, q: State) -> bool {
    exists|k: int| 0 <= k < r.len() && r[k] == q
}

/// An action leads to exactly one board.
pub proof fn lemma_action_deterministic(q1: State, q2: State, s: State, a: Action)
    requires
        action_applied(q1, s, a),
        action_applied(q2, s, a),
    ensures
        q1 == q2,
{
    assert(q1.pips@ =~= q2.pips@);
    assert(q1.pips =~= q2.pips);
}

/// A board has exactly one flip.
pub proof fn lemma_flip_unique(q1: State, q2: State, b: State)
    requires
        is_flip_of(q1, b),
        is_flip_of(q2, b),
    ensures
        q1 == q2,
{
    assert(q1.pips@ =~= q2.pips@);
    assert(q1.pips =~= q2.pips);
}

/// One die: a one-step walk is one half-move.
pub proof fn lemma_steps_one(s: State, d: int, q: State)
    ensures
        steps_with(s, seq![d], q) == half_step(s, d, q),
{
    assert(seq![d].len() == 1);
    assert(seq![d][0] == d);
    assert(seq![d].drop_first() =~= Seq::<int>::empty());
    if steps_with(s, seq![d], q) {
        let m = choose|m: State|
            #[trigger] half_step(s, seq![d][0], m) && steps_with(m, seq![d].drop_first(), q);
        assert(steps_with(m, Seq::<int>::empty(), q));
        assert(m == q);
    }
    if half_step(s, d, q) {
        assert(steps_with(q, Seq::<int>::empty(), q));
        assert(steps_with(q, seq![d].drop_first(), q));
        assert(half_step(s, seq![d][0], q) && steps_with(q, seq![d].drop_first(), q));
    }
}

/// Two dice: a two-step walk is a half-move to a middle board and one more.
pub proof fn lemma_steps_two(s: State, d1: int, d2: int, q: State)
    ensures
        steps_with(s, seq![d1, d2], q) == exists|m: State|
            #[trigger] half_step(s, d1, m) && half_step(m, d2, q),
{
    assert(seq![d1, d2].drop_first() =~= seq![d2]);
    if steps_with(s, seq![d1, d2], q) {
        let m = choose|m: State| #[trigger] half_step(s, d1, m) && steps_with(
            m, seq![d1, d2].drop_first(), q);
        lemma_steps_one(m, d2, q);
    }
    if exists|m: State| #[trigger] half_step(s, d1, m) && half_step(m, d2, q) {
        let m = choose|m: State| #[trigger] half_step(s, d1, m) && half_step(m, d2, q);
        lemma_steps_one(m, d2, q);
        assert(steps_with(m, seq![d1, d2].drop_first(), q));
    }
}

/// A walk of `n + 1` dice is a walk of the first `n` and one more half-move.
pub proof fn lemma_steps_snoc(s: State, dies: Seq<int>, d: int, q: State)
    ensures
        steps_with(s, dies.push(d), q) == exists|m: State|
            #[trigger] steps_with(s, dies, m) && half_step(m, d, q),
    decreases dies.len(),
{
    if dies.len() == 0 {
        assert(dies.push(d) =~= seq![d]);
        lemma_steps_one(s, d, q);
        if exists|m: State| #[trigger] steps_with(s, dies, m) && half_step(m, d, q) {
            let m = choose|m: State| #[trigger] steps_with(s, dies, m) && half_step(m, d, q);
            assert(m == s);
        }
        if half_step(s, d, q) {
            assert(steps_with(s, dies, s));
        }
    } else {
        assert(dies.push(d).drop_first() =~= dies.drop_first().push(d));
        if steps_with(s, dies.push(d), q) {
            let m1 = choose|m1: State|
                #[trigger] half_step(s, dies.push(d)[0], m1) && steps_with(
                    m1, dies.push(d).drop_first(), q);
            lemma_steps_snoc(m1, dies.drop_first(), d, q);
            let m = choose|m: State|
                #[trigger] steps_with(m1, dies.drop_first(), m) && half_step(m, d, q);
            assert(half_step(s, dies[0], m1));
            assert(steps_with(s, dies, m));
        }
        if exists|m: State| #[trigger] steps_with(s, dies, m) && half_step(m, d, q) {
            let m = choose|m: State| #[trigger] steps_with(s, dies, m) && half_step(m, d, q);
            let m1 = choose|m1: State|
                #[trigger] half_step(s, dies[0], m1) && steps_with(m1, dies.drop_first(), m);
            lemma_steps_snoc(m1, dies.drop_first(), d, q);
            assert(steps_with(m1, dies.drop_first().push(d), q));
            assert(half_step(s, dies.push(d)[0], m1) && steps_with(
                m1, dies.push(d).drop_first(), q));
        }
    }
}

/// A walk one die longer witnesses a walk of the shorter run.
pub proof fn lemma_steps_shorten(s: State, d: int, n: nat)
    requires
        exists|q: State| #[trigger] steps_with(s, rep(d, (n + 1) as nat), q),
    ensures
        exists|q: State| #[trigger] steps_with(s, rep(d, n), q),
{
    let q = choose|q: State| #[trigger] steps_with(s, rep(d, (n + 1) as nat), q);
    assert(rep(d, (n + 1) as nat) =~= rep(d, n).push(d));
    lemma_steps_snoc(s, rep(d, n), d, q);
    let m = choose|m: State| #[trigger] steps_with(s, rep(d, n), m) && half_step(m, d, q);
    assert(steps_with(s, rep(d, n), m));
}

/// A double's levels are downward closed: a longer walk of the same die
/// witnesses every shorter one, and one step is one half-move.
pub proof fn lemma_levels_closed(s: State, d: int)
    ensures
        (exists|t: State| #[trigger] steps_with(s, rep(d, 4), t)) ==> (exists|t: State|
            #[trigger] steps_with(s, rep(d, 3), t)),
        (exists|t: State| #[trigger] steps_with(s, rep(d, 3), t)) ==> (exists|t: State|
            #[trigger] steps_with(s, rep(d, 2), t)),
        (exists|t: State| #[trigger] steps_with(s, rep(d, 2), t)) ==> (exists|t: State|
            #[trigger] steps_with(s, rep(d, 1), t)),
        (exists|t: State| #[trigger] steps_with(s, rep(d, 1), t)) == (exists|t: State|
            #[trigger] half_step(s, d, t)),
{
    if exists|t: State| #[trigger] steps_with(s, rep(d, 4), t) {
        assert((3nat + 1) as nat == 4nat);
        lemma_steps_shorten(s, d, 3);
    }
    if exists|t: State| #[trigger] steps_with(s, rep(d, 3), t) {
        assert((2nat + 1) as nat == 3nat);
        lemma_steps_shorten(s, d, 2);
    }
    if exists|t: State| #[trigger] steps_with(s, rep(d, 2), t) {
        assert((1nat + 1) as nat == 2nat);
        lemma_steps_shorten(s, d, 1);
    }
    assert(rep(d, 1) =~= seq![d]);
    if exists|t: State| #[trigger] steps_with(s, rep(d, 1), t) {
        let t = choose|t: State| #[trigger] steps_with(s, rep(d, 1), t);
        lemma_steps_one(s, d, t);
        assert(half_step(s, d, t));
    }
    if exists|t: State| #[trigger] half_step(s, d, t) {
        let t = choose|t: State| #[trigger] half_step(s, d, t);
        lemma_steps_one(s, d, t);
        assert(steps_with(s, rep(d, 1), t));
    }
}

/// The highest point still occupied by the mover, the bar included; 0 when
/// none is.
fn highest_x(s: &State) -> (h: usize)
    requires
        s.wf(),
    ensures
        0 <= h <= 25,
        h > 0 ==> s.pips@[h as int] > 0,
        forall|j: int| h < j <= 25 ==> s.pips@[j] <= 0,
{
    let mut i: usize = 25;
    loop
        invariant
            s.wf(),
            0 <= i <= 25,
            forall|j: int| i < j <= 25 ==> s.pips@[j] <= 0,
        ensures
            0 <= i <= 25,
            i > 0 ==> s.pips@[i as int] > 0,
            forall|j: int| i < j <= 25 ==> s.pips@[j] <= 0,
        decreases i,
    {
        if i == 0 {
            break;
        }
        if s.pips[i] > 0 {
            break;
        }
        i = i - 1;
    }
    i
}

/// All positions after one half-move of `die` pips, in descending order of
/// the point moved from: exactly the targets of the rules' half-moves, and
/// so empty exactly when no half-move exists.
pub fn half_moves(s: &State, die: usize) -> (r: Vec<State>)
    requires
        s.wf(),
        1 <= die <= 6,
    ensures
        forall|k: int|
            0 <= k < r@.len() ==> (#[trigger] r@[k]).wf() && r@[k].x_total() == s.x_total()
                && r@[k].o_total() == s.o_total(),
        forall|q: State| #[trigger] seq_contains(r@, q) == half_step(*s, die as int, q),
        (r@.len() == 0) == !can_half_move_spec(*s, die as int),
    {
    let mut r: Vec<State> = Vec::new();
    if s.pips[25] > 0 {
        if s.pips[25 - die] >= -1 {
            let a = Action { from: 25, to: 24 - die };
            assert(valid_action_spec(*s, a));
            assert(half_move_ok(*s, die as int, a));
            let next = s.apply_action(a);
            r.push(next);
            proof {
                assert(r@[0] == next);
                assert(seq_contains(r@, next));
                assert forall|q: State| #[trigger] seq_contains(r@, q) == half_step(
                    *s, die as int, q) by {
                    if seq_contains(r@, q) {
                        assert(q == next);
                    }
                    if half_step(*s, die as int, q) {
                        let a2 = choose|a2: Action|
                            half_move_ok(*s, die as int, a2) && #[trigger] action_applied(
                                q, *s, a2);
                        assert(a2 == a);
                        lemma_action_deterministic(q, next, *s, a);
                    }
                }
            }
        } else {
            proof {
                assert forall|q: State| #[trigger] seq_contains(r@, q) == half_step(
                    *s, die as int, q) by {
                    if half_step(*s, die as int, q) {
                        let a2 = choose|a2: Action|
                            half_move_ok(*s, die as int, a2) && #[trigger] action_applied(
                                q, *s, a2);
                        assert(can_enter_spec(*s, die as int));
                    }
                }
            }
        }
        return r;
    }
    let h = highest_x(s);
    let mut i: usize = 24;
    loop
        invariant
            s.wf(),
            1 <= die <= 6,
            s.pips@[25] <= 0,
            0 <= h <= 25,
            h > 0 ==> s.pips@[h as int] > 0,
            forall|j: int| h < j <= 25 ==> s.pips@[j] <= 0,
            0 <= i <= 24,
            forall|k: int|
                0 <= k < r@.len() ==> (#[trigger] r@[k]).wf() && r@[k].x_total() == s.x_total()
                    && r@[k].o_total() == s.o_total(),
            forall|q: State| #[trigger] seq_contains(r@, q) == (exists|a: Action|
                half_move_ok(*s, die as int, a) && a.from + 1 > i && #[trigger] action_applied(
                    q, *s, a)),
        ensures
            forall|k: int|
                0 <= k < r@.len() ==> (#[trigger] r@[k]).wf() && r@[k].x_total() == s.x_total()
                    && r@[k].o_total() == s.o_total(),
            forall|q: State| #[trigger] seq_contains(r@, q) == (exists|a: Action|
                half_move_ok(*s, die as int, a) && a.from + 1 > 0 && #[trigger] action_applied(
                    q, *s, a)),
        decreases i,
    {
        if i == 0 {
            break;
        }
        let can = if s.pips[i] < 1 {
            false
        } else if i > die {
            s.pips[i - die] >= -1
        } else if i == die {
            h <= 6
        } else {
            h <= i
        };
        assert(can == can_move_board_spec(*s, i as int, die as int));
        let ghost old_r = r@;
        if can {
            let a = Action {
                from: i - 1,
                to: if i > die {
                    i - die - 1
                } else {
                    24
                },
            };
            assert(valid_action_spec(*s, a));
            assert(half_move_ok(*s, die as int, a));
            let next = s.apply_action(a);
            r.push(next);
        }
        proof {
            assert forall|q: State| #[trigger] seq_contains(r@, q) == (exists|a: Action|
                half_move_ok(*s, die as int, a) && a.from + 1 > i - 1 && #[trigger]
                action_applied(q, *s, a)) by {
                if seq_contains(r@, q) {
                    if seq_contains(old_r, q) {
                    } else {
                        // the element just pushed
                        assert(can);
                        assert(q == r@[r@.len() - 1]);
                    }
                }
                if exists|a: Action|
                    half_move_ok(*s, die as int, a) && a.from + 1 > i - 1 && #[trigger]
                    action_applied(q, *s, a) {
                    let a = choose|a: Action|
                        half_move_ok(*s, die as int, a) && a.from + 1 > i - 1 && #[trigger]
                        action_applied(q, *s, a);
                    if a.from + 1 > i {
                        assert(seq_contains(old_r, q));
                        let k = choose|k: int| 0 <= k < old_r.len() && old_r[k] == q;
                        assert(r@[k] == q);
                        assert(seq_contains(r@, q));
                    } else {
                        // a moves from point i itself
                        assert(a.from + 1 == i);
                        assert(can_move_board_spec(*s, i as int, die as int));
                        assert(can);
                        let pushed = r@[r@.len() - 1];
                        assert(action_applied(pushed, *s, a));
                        lemma_action_deterministic(q, pushed, *s, a);
                        assert(seq_contains(r@, q));
                    }
                }
            }
        }
        i = i - 1;
    }
    proof {
        assert forall|q: State| #[trigger] seq_contains(r@, q) == half_step(*s, die as int, q)
            by {
            if seq_contains(r@, q) {
                let a = choose|a: Action|
                    half_move_ok(*s, die as int, a) && a.from + 1 > 0 && #[trigger]
                    action_applied(q, *s, a);
                assert(half_step(*s, die as int, q));
            }
            if half_step(*s, die as int, q) {
                let a = choose|a: Action|
                    half_move_ok(*s, die as int, a) && #[trigger] action_applied(q, *s, a);
                assert(a.from + 1 > 0);
            }
        }
        if r@.len() > 0 {
            assert(seq_contains(r@, r@[0]));
            assert(can_half_move_spec(*s, die as int)) by {
                let a = choose|a: Action|
                    half_move_ok(*s, die as int, a) && #[trigger] action_applied(
                        r@[0], *s, a);
            }
        }
        if can_half_move_spec(*s, die as int) {
            let i2 = choose|i2: int| 1 <= i2 <= 24 && can_move_board_spec(*s, i2, die as int);
            let a = Action {
                from: (i2 - 1) as usize,
                to: if i2 > die {
                    (i2 - die - 1) as usize
                } else {
                    24
                },
            };
            assert(half_move_ok(*s, die as int, a));
            assert(valid_action_spec(*s, a)) by {
                lemma_half_move_valid(*s, die as int, a);
            }
            let q = lemma_action_exists(*s, a);
            assert(half_step(*s, die as int, q));
            assert(seq_contains(r@, q));
            assert(r@.len() > 0);
        }
    }
    r
}

/// A half-move the rules allow is a valid board action.
pub proof fn lemma_half_move_valid(s: State, die: int, a: Action)
    requires
        s.wf(),
        1 <= die <= 6,
        half_move_ok(s, die, a),
    ensures
        valid_action_spec(s, a),
{
}

/// Some board satisfies any valid action: the action applied.
pub proof fn lemma_action_exists(s: State, a: Action) -> (q: State)
    requires
        s.wf(),
        valid_action_spec(s, a),
    ensures
        action_applied(q, s, a),
{
    broadcast use vstd::array::axiom_spec_array_update;

    let f = from_slot(a);
    let p1 = vstd::array::spec_array_update(s.pips, f, (s.pips@[f] - 1) as i8);
    let after = s.pips@.update(f, (s.pips@[f] - 1) as i8);
    assert(p1@ == after);
    if a.to == 24 {
        let q = State { pips: p1, x_off: (s.x_off + 1) as u8, o_off: s.o_off };
        assert(s.x_off < 255) by {
            crate::position::lemma_x_sum_nonneg(s.pips@, 26);
        }
        assert(action_applied(q, s, a));
        q
    } else {
        let t = a.to + 1;
        if after[t] == -1 {
            let p2 = vstd::array::spec_array_update(p1, t, 1i8);
            let p3 = vstd::array::spec_array_update(p2, 0, (after[0] - 1) as i8);
            let q = State { pips: p3, x_off: s.x_off, o_off: s.o_off };
            assert(q.pips@ =~= after.update(t, 1i8).update(0, (after[0] - 1) as i8));
            assert(action_applied(q, s, a));
            q
        } else {
            let p2 = vstd::array::spec_array_update(p1, t, (after[t] + 1) as i8);
            let q = State { pips: p2, x_off: s.x_off, o_off: s.o_off };
            assert(q.pips@ =~= after.update(t, (after[t] + 1) as i8));
            assert(action_applied(q, s, a));
            q
        }
    }
}

/// Every board reachable by one more half-move of `die` from any of the
/// given boards, and nothing else.
fn expand(list: &Vec<State>, die: usize, tx: Ghost<int>, to: Ghost<int>) -> (r: Vec<State>)
    requires
        1 <= die <= 6,
        forall|k: int|
            0 <= k < list@.len() ==> (#[trigger] list@[k]).wf() && list@[k].x_total() == tx@
                && list@[k].o_total() == to@,
    ensures
        forall|k: int|
            0 <= k < r@.len() ==> (#[trigger] r@[k]).wf() && r@[k].x_total() == tx@
                && r@[k].o_total() == to@,
        forall|q: State| #[trigger] seq_contains(r@, q) == (exists|j: int|
            0 <= j < list@.len() && half_step(#[trigger] list@[j], die as int, q)),
{
    let mut r: Vec<State> = Vec::new();
    let mut k: usize = 0;
    while k < list.len()
        invariant
            1 <= die <= 6,
            0 <= k <= list@.len(),
            forall|k2: int|
                0 <= k2 < list@.len() ==> (#[trigger] list@[k2]).wf() && list@[k2].x_total()
                    == tx@ && list@[k2].o_total() == to@,
            forall|k2: int|
                0 <= k2 < r@.len() ==> (#[trigger] r@[k2]).wf() && r@[k2].x_total() == tx@
                    && r@[k2].o_total() == to@,
            forall|q: State| #[trigger] seq_contains(r@, q) == (exists|j: int|
                0 <= j < k && half_step(#[trigger] list@[j], die as int, q)),
        decreases list@.len() - k,
    {
        let ghost base = list@[k as int];
        let more = half_moves(&list[k], die);
        let mut m: usize = 0;
        while m < more.len()
            invariant
                0 <= k < list@.len(),
                base == list@[k as int],
                0 <= m <= more@.len(),
                forall|q: State| #[trigger] seq_contains(more@, q) == half_step(
                    base, die as int, q),
                forall|k2: int|
                    0 <= k2 < more@.len() ==> (#[trigger] more@[k2]).wf() && more@[k2].x_total()
                        == tx@ && more@[k2].o_total() == to@,
                forall|k2: int|
                    0 <= k2 < r@.len() ==> (#[trigger] r@[k2]).wf() && r@[k2].x_total() == tx@
                        && r@[k2].o_total() == to@,
                forall|q: State| #[trigger] seq_contains(r@, q) == ((exists|j: int|
                    0 <= j < k && half_step(#[trigger] list@[j], die as int, q)) || (exists|
                m2: int|
                    0 <= m2 < m && more@[m2] == q)),
            decreases more@.len() - m,
        {
            let ghost old_r = r@;
            r.push(more[m]);
            proof {
                assert forall|q: State| #[trigger] seq_contains(r@, q) == ((exists|j: int|
                    0 <= j < k && half_step(#[trigger] list@[j], die as int, q)) || (exists|
                m2: int|
                    0 <= m2 < m + 1 && more@[m2] == q)) by {
                    if seq_contains(r@, q) {
                        if seq_contains(old_r, q) {
                        } else {
                            assert(q == r@[r@.len() - 1]);
                            assert(more@[m as int] == q);
                        }
                    }
                    if (exists|j: int|
                        0 <= j < k && half_step(#[trigger] list@[j], die as int, q)) || (exists|
                    m2: int|
                        0 <= m2 < m + 1 && more@[m2] == q) {
                        if exists|m2: int| 0 <= m2 < m + 1 && more@[m2] == q {
                            let m2 = choose|m2: int| 0 <= m2 < m + 1 && more@[m2] == q;
                            if m2 < m {
                                assert(seq_contains(old_r, q));
                                let k2 = choose|k2: int|
                                    0 <= k2 < old_r.len() && old_r[k2] == q;
                                assert(r@[k2] == q);
                            } else {
                                assert(r@[r@.len() - 1] == q);
                            }
                        } else {
                            assert(seq_contains(old_r, q));
                            let k2 = choose|k2: int| 0 <= k2 < old_r.len() && old_r[k2] == q;
                            assert(r@[k2] == q);
                        }
                        assert(seq_contains(r@, q));
                    }
                }
            }
            m = m + 1;
        }
        proof {
            assert forall|q: State| #[trigger] seq_contains(r@, q) == (exists|j: int|
                0 <= j < k + 1 && half_step(#[trigger] list@[j], die as int, q)) by {
                if seq_contains(r@, q) {
                    if exists|m2: int| 0 <= m2 < more@.len() && more@[m2] == q {
                        assert(seq_contains(more@, q));
                        assert(half_step(list@[k as int], die as int, q));
                    }
                }
                if exists|j: int|
                    0 <= j < k + 1 && half_step(#[trigger] list@[j], die as int, q) {
                    let j = choose|j: int|
                        0 <= j < k + 1 && half_step(#[trigger] list@[j], die as int, q);
                    if j == k {
                        assert(seq_contains(more@, q));
                        let m2 = choose|m2: int| 0 <= m2 < more@.len() && more@[m2] == q;
                    }
                }
            }
        }
        k = k + 1;
    }
    r
}

} // verus!

verus! {

/// The ten key bytes of a position, as integers.
pub open spec fn key_seq(s: State) -> Seq<int> {
    Seq::new(10, |j: int| key_byte(s, j))
}

/// Strict lexicographic order on ten-byte keys, from index `i` on.
pub open spec fn lex_lt_from(x: Seq<int>, y: Seq<int>, i: int) -> bool
    decreases 10 - i,
{
    if i >= 10 {
        false
    } else if x[i] < y[i] {
        true
    } else if x[i] > y[i] {
        false
    } else {
        lex_lt_from(x, y, i + 1)
    }
}

/// `a` comes before `b` in canonical-key order.
pub open spec fn id_lt(a: State, b: State) -> bool {
    lex_lt_from(key_seq(a), key_seq(b), 0)
}

/// While two keys agree below `i`, their order is decided from `i` on.
proof fn lemma_lex_prefix(x: Seq<int>, y: Seq<int>, i: int)
    requires
        0 <= i <= 10,
        forall|j: int| 0 <= j < i ==> x[j] == y[j],
    ensures
        lex_lt_from(x, y, 0) == lex_lt_from(x, y, i),
    decreases i,
{
    if i > 0 {
        lemma_lex_prefix_step(x, y, i - 1);
        lemma_lex_prefix(x, y, i - 1);
    }
}

proof fn lemma_lex_prefix_step(x: Seq<int>, y: Seq<int>, i: int)
    requires
        0 <= i < 10,
        x[i] == y[i],
    ensures
        lex_lt_from(x, y, i) == lex_lt_from(x, y, i + 1),
{
}

/// Compares two key byte arrays: -1, 0 or 1 as the first position comes
/// before, at, or after the second in canonical-key order.
fn cmp_keys(a: &[u8; 10], b: &[u8; 10], ga: Ghost<State>, gb: Ghost<State>) -> (r: i8)
    requires
        forall|j: int| 0 <= j < 10 ==> a@[j] as int == key_seq(ga@)[j],
        forall|j: int| 0 <= j < 10 ==> b@[j] as int == key_seq(gb@)[j],
    ensures
        (r == -1) == id_lt(ga@, gb@),
        (r == 1) == id_lt(gb@, ga@),
        (r == 0) == (key_seq(ga@) =~= key_seq(gb@)),
        r == -1 || r == 0 || r == 1,
{
    let mut j: usize = 0;
    loop
        invariant
            forall|j2: int| 0 <= j2 < 10 ==> a@[j2] as int == key_seq(ga@)[j2],
            forall|j2: int| 0 <= j2 < 10 ==> b@[j2] as int == key_seq(gb@)[j2],
            0 <= j <= 10,
            forall|j2: int| 0 <= j2 < j ==> key_seq(ga@)[j2] == key_seq(gb@)[j2],
        ensures
            0 <= j <= 10,
            forall|j2: int| 0 <= j2 < j ==> key_seq(ga@)[j2] == key_seq(gb@)[j2],
            j == 10 || key_seq(ga@)[j as int] != key_seq(gb@)[j as int],
            j == 10 ==> key_seq(ga@) =~= key_seq(gb@),
        decreases 10 - j,
    {
        if j == 10 {
            assert(key_seq(ga@) =~= key_seq(gb@));
            break;
        }
        if a[j] != b[j] {
            break;
        }
        j = j + 1;
    }
    proof {
        lemma_lex_prefix(key_seq(ga@), key_seq(gb@), j as int);
        lemma_lex_prefix(key_seq(gb@), key_seq(ga@), j as int);
    }
    if j == 10 {
        0
    } else if a[j] < b[j] {
        -1
    } else {
        1
    }
}

/// Positions with the same key bytes and the same side totals are the same
/// position: the canonical key is an identity.
pub proof fn lemma_same_key_same_state(a: State, b: State)
    requires
        a.wf(),
        b.wf(),
        a.x_total() == b.x_total(),
        a.o_total() == b.o_total(),
        key_seq(a) =~= key_seq(b),
    ensures
        a == b,
{
    reveal(crate::encoding::enc_bits);
    crate::encoding::lemma_counts_total(a);
    crate::encoding::lemma_counts_total(b);
    crate::encoding::lemma_pstream_len(crate::encoding::counts_of(a), 50);
    crate::encoding::lemma_pstream_len(crate::encoding::counts_of(b), 50);
    assert(crate::encoding::enc_bits(a).len() == 80);
    assert(crate::encoding::enc_bits(b).len() == 80);
    assert forall|i: int| 0 <= i < 80 implies crate::encoding::enc_bits(a)[i]
        == crate::encoding::enc_bits(b)[i] by {
        let j = i / 8;
        let bv = key_byte(a, j);
        assert(key_seq(a)[j] == key_seq(b)[j]);
        assert(0 <= bv < 256);
        crate::ids::lemma_byte_from_val(bv as u8, crate::encoding::enc_bits(a), j);
        crate::ids::lemma_byte_from_val(bv as u8, crate::encoding::enc_bits(b), j);
        assert(crate::encoding::bit_of_byte(bv as u8, i % 8) == crate::encoding::enc_bits(
            a)[8 * j + (i % 8)]);
        assert(8 * j + (i % 8) == i);
    }
    assert(crate::encoding::enc_bits(a) =~= crate::encoding::enc_bits(b));
    crate::encoding::lemma_enc_injective(a, b, a.x_total(), a.o_total());
}

/// Inserts a position into a run of positions kept sorted by canonical key,
/// unless one with the same key is already there; afterwards the run holds
/// exactly what it held before and the position.
#[verifier::rlimit(100)]
fn insert_sorted(
    out: &mut Vec<State>,
    keys: &mut Vec<[u8; 10]>,
    s: State,
    key: [u8; 10],
    tx: Ghost<int>,
    to: Ghost<int>,
)
    requires
        old(out)@.len() == old(keys)@.len(),
        forall|k: int, j: int|
            0 <= k < old(out)@.len() && 0 <= j < 10 ==> #[trigger] (old(keys)@[k])@[j] as int
                == key_seq(old(out)@[k])[j],
        forall|k: int|
            0 <= k && k + 1 < old(out)@.len() ==> id_lt(#[trigger] old(out)@[k], old(out)@[k + 1]),
        forall|k: int|
            0 <= k < old(out)@.len() ==> (#[trigger] old(out)@[k]).wf() && old(out)@[k].x_total()
                == tx@ && old(out)@[k].o_total() == to@,
        forall|j: int| 0 <= j < 10 ==> key@[j] as int == key_seq(s)[j],
        s.wf(),
        s.x_total() == tx@,
        s.o_total() == to@,
    ensures
        final(out)@.len() == final(keys)@.len(),
        final(out)@.len() >= 1,
        final(out)@.len() >= old(out)@.len(),
        forall|k: int, j: int|
            0 <= k < final(out)@.len() && 0 <= j < 10 ==> #[trigger] (final(keys)@[k])@[j] as int
                == key_seq(final(out)@[k])[j],
        forall|k: int|
            0 <= k && k + 1 < final(out)@.len() ==> id_lt(
                #[trigger] final(out)@[k], final(out)@[k + 1]),
        forall|k: int|
            0 <= k < final(out)@.len() ==> (#[trigger] final(out)@[k]).wf()
                && final(out)@[k].x_total() == tx@ && final(out)@[k].o_total() == to@,
        forall|q: State| #[trigger] seq_contains(final(out)@, q) == (seq_contains(
            old(out)@, q) || q == s),
{
    let mut i: usize = 0;
    loop
        invariant
            out@.len() == keys@.len(),
            forall|k: int, j: int|
                0 <= k < out@.len() && 0 <= j < 10 ==> #[trigger] (keys@[k])@[j] as int == key_seq(
                    out@[k])[j],
            forall|k: int| 0 <= k && k + 1 < out@.len() ==> id_lt(#[trigger] out@[k], out@[k + 1]),
            forall|k: int|
                0 <= k < out@.len() ==> (#[trigger] out@[k]).wf() && out@[k].x_total() == tx@
                    && out@[k].o_total() == to@,
            forall|j: int| 0 <= j < 10 ==> key@[j] as int == key_seq(s)[j],
            s.wf() && s.x_total() == tx@ && s.o_total() == to@,
            0 <= i <= out@.len(),
            forall|k: int| 0 <= k < i ==> id_lt(#[trigger] out@[k], s),
            out == old(out),
            keys == old(keys),
        ensures
            0 <= i <= out@.len(),
            forall|k: int| 0 <= k < i ==> id_lt(#[trigger] out@[k], s),
            i < out@.len() ==> !id_lt(out@[i as int], s),
            i < out@.len() ==> (key_seq(out@[i as int]) =~= key_seq(s) || id_lt(
                s, out@[i as int])),
            out == old(out),
            keys == old(keys),
            forall|j: int| 0 <= j < 10 ==> key@[j] as int == key_seq(s)[j],
            s.wf() && s.x_total() == tx@ && s.o_total() == to@,
        decreases out@.len() - i,
    {
        if i == out.len() {
            break;
        }
        let c = cmp_keys(&keys[i], &key, Ghost(out@[i as int]), Ghost(s));
        if c != -1 {
            break;
        }
        i = i + 1;
    }
    if i < out.len() {
        let c = cmp_keys(&keys[i], &key, Ghost(out@[i as int]), Ghost(s));
        if c == 0 {
            proof {
                lemma_same_key_same_state(out@[i as int], s);
                assert(seq_contains(out@, s));
                assert forall|q: State| #[trigger] seq_contains(out@, q) == (seq_contains(
                    old(out)@, q) || q == s) by {}
            }
            return ;
        }
    }
    let ghost old_out = out@;
    let ghost old_keys = keys@;
    out.insert(i, s);
    keys.insert(i, key);
    proof {
        old_out.insert_ensures(i as int, s);
        old_keys.insert_ensures(i as int, key);
        assert(out@ == old_out.insert(i as int, s));
        assert(keys@ == old_keys.insert(i as int, key));
        assert forall|k: int| 0 <= k && k + 1 < out@.len() implies id_lt(
            #[trigger] out@[k], out@[k + 1]) by {
            if k + 1 < i {
                assert(old_out.insert(i as int, s)[k] == old_out[k]);
                assert(old_out.insert(i as int, s)[k + 1] == old_out[k + 1]);
            } else if k + 1 == i {
                assert(old_out.insert(i as int, s)[k] == old_out[k]);
                assert(old_out.insert(i as int, s)[k + 1] == s);
            } else if k == i {
                assert(old_out.insert(i as int, s)[k] == s);
                assert(old_out.insert(i as int, s)[(k + 1 - 1) + 1] == old_out[k + 1 - 1]);
            } else {
                assert(old_out.insert(i as int, s)[(k - 1) + 1] == old_out[k - 1]);
                assert(old_out.insert(i as int, s)[(k + 1 - 1) + 1] == old_out[k + 1 - 1]);
            }
        }
        assert forall|k: int, j: int|
            0 <= k < out@.len() && 0 <= j < 10 implies #[trigger] (keys@[k])@[j] as int == key_seq(
            out@[k])[j] by {
            if k < i {
                assert(old_out.insert(i as int, s)[k] == old_out[k]);
                assert(old_keys.insert(i as int, key)[k] == old_keys[k]);
            } else if k == i {
                assert(old_out.insert(i as int, s)[k] == s);
                assert(old_keys.insert(i as int, key)[k] == key);
            } else {
                assert(old_out.insert(i as int, s)[(k - 1) + 1] == old_out[k - 1]);
                assert(old_keys.insert(i as int, key)[(k - 1) + 1] == old_keys[k - 1]);
            }
        }
        assert forall|q: State| #[trigger] seq_contains(out@, q) == (seq_contains(old_out, q) || q
            == s) by {
            if seq_contains(out@, q) {
                let k = choose|k: int| 0 <= k < out@.len() && out@[k] == q;
                if k < i {
                    assert(old_out.insert(i as int, s)[k] == old_out[k]);
                    assert(seq_contains(old_out, q));
                } else if k == i {
                    assert(old_out.insert(i as int, s)[k] == s);
                } else {
                    assert(old_out.insert(i as int, s)[(k - 1) + 1] == old_out[k - 1]);
                    assert(seq_contains(old_out, q));
                }
            }
            if q == s {
                assert(old_out.insert(i as int, s)[i as int] == s);
                assert(seq_contains(out@, q));
            }
            if seq_contains(old_out, q) {
                let k = choose|k: int| 0 <= k < old_out.len() && old_out[k] == q;
                if k < i {
                    assert(old_out.insert(i as int, s)[k] == old_out[k]);
                    assert(seq_contains(out@, q));
                } else {
                    assert(old_out.insert(i as int, s)[k + 1] == old_out[k]);
                    assert(seq_contains(out@, q));
                }
            }
        }
    }
}

} // verus!

verus! {

impl State {
    /// Every board a legal play of the roll can end on, each flipped so the
    /// opponent is on roll, without duplicates and ordered by canonical key:
    /// the run holds exactly the moves of the roll, nothing more and nothing
    /// less.
    pub fn possible_positions(&self, dice: &Dice) -> (r: Vec<State>)
        requires
            self.wf(),
            dice_wf(*dice),
        ensures
            r@.len() >= 1,
            forall|k: int|
                0 <= k < r@.len() ==> (#[trigger] r@[k]).wf() && r@[k].x_total()
                    == self.o_total() && r@[k].o_total() == self.x_total(),
            forall|q: State| #[trigger] seq_contains(r@, q) == is_move_of(*self, *dice, q),
            forall|k: int| 0 <= k && k + 1 < r@.len() ==> id_lt(#[trigger] r@[k], r@[k + 1]),
    {
        let ghost tx = self.x_total();
        let ghost to = self.o_total();
        let ghost me = *self;
        let mut finals: Vec<State> = Vec::new();
        match dice {
            Dice::Double(d) => {
                let dv = *d;
                let mut cur: Vec<State> = Vec::new();
                cur.push(*self);
                proof {
                    assert(rep(dv as int, 0) =~= Seq::<int>::empty());
                    assert forall|q: State| #[trigger] seq_contains(cur@, q) == steps_with(
                        me, rep(dv as int, 0), q) by {
                        if seq_contains(cur@, q) {
                            assert(q == cur@[0]);
                        }
                        if steps_with(me, rep(dv as int, 0), q) {
                            assert(cur@[0] == q);
                        }
                    }
                }
                let mut step: usize = 0;
                loop
                    invariant
                        self.wf(),
                        1 <= dv <= 6,
                        me == *self,
                        0 <= step <= 4,
                        cur@.len() >= 1,
                        forall|k: int|
                            0 <= k < cur@.len() ==> (#[trigger] cur@[k]).wf()
                                && cur@[k].x_total() == tx && cur@[k].o_total() == to,
                        forall|q: State| #[trigger] seq_contains(cur@, q) == steps_with(
                            me, rep(dv as int, step as nat), q),
                    ensures
                        0 <= step <= 4,
                        cur@.len() >= 1,
                        forall|k: int|
                            0 <= k < cur@.len() ==> (#[trigger] cur@[k]).wf()
                                && cur@[k].x_total() == tx && cur@[k].o_total() == to,
                        forall|q: State| #[trigger] seq_contains(cur@, q) == steps_with(
                            me, rep(dv as int, step as nat), q),
                        step == 4 || !(exists|t: State|
                            #[trigger] steps_with(me, rep(dv as int, (step + 1) as nat), t)),
                    decreases 4 - step,
                {
                    if step == 4 {
                        break;
                    }
                    let next = expand(&cur, dv, Ghost(tx), Ghost(to));
                    proof {
                        assert(rep(dv as int, (step + 1) as nat) =~= rep(
                            dv as int, step as nat).push(dv as int));
                        assert forall|q: State| #[trigger] seq_contains(next@, q) == steps_with(
                            me, rep(dv as int, (step + 1) as nat), q) by {
                            lemma_steps_snoc(me, rep(dv as int, step as nat), dv as int, q);
                            if seq_contains(next@, q) {
                                let j = choose|j: int|
                                    0 <= j < cur@.len() && half_step(
                                        #[trigger] cur@[j], dv as int, q);
                                assert(seq_contains(cur@, cur@[j]));
                                assert(steps_with(me, rep(dv as int, step as nat), cur@[j]));
                            }
                            if steps_with(me, rep(dv as int, (step + 1) as nat), q) {
                                let m = choose|m: State|
                                    #[trigger] steps_with(me, rep(dv as int, step as nat), m)
                                        && half_step(m, dv as int, q);
                                assert(seq_contains(cur@, m));
                                let j = choose|j: int| 0 <= j < cur@.len() && cur@[j] == m;
                                assert(half_step(cur@[j], dv as int, q));
                            }
                        }
                    }
                    if next.len() == 0 {
                        proof {
                            assert forall|t: State|
                                !(#[trigger] steps_with(me, rep(dv as int, (step + 1) as nat),
                                t)) by {
                                if steps_with(me, rep(dv as int, (step + 1) as nat), t) {
                                    assert(seq_contains(next@, t));
                                }
                            }
                        }
                        break;
                    }
                    cur = next;
                    step = step + 1;
                }
                proof {
                    reveal(play_result);
                    let dd = dv as int;
                    lemma_levels_closed(me, dd);
                    assert(seq_contains(cur@, cur@[0]));
                    assert(steps_with(me, rep(dd, step as nat), cur@[0]));
                    assert forall|q: State| #[trigger] seq_contains(cur@, q) == play_result(
                        me, *dice, q) by {
                        if step == 4 {
                            assert(step as nat == 4nat);
                            assert(steps_with(me, rep(dd, 4), cur@[0]));
                            assert(exists|t: State| #[trigger] steps_with(me, rep(dd, 4), t));
                        } else {
                            // The level above the reached one has no walk.
                            assert(!(exists|t: State|
                                #[trigger] steps_with(me, rep(dd, (step + 1) as nat), t)));
                            if step == 3 {
                                assert((step + 1) as nat == 4nat);
                                assert(!(exists|t: State|
                                    #[trigger] steps_with(me, rep(dd, 4), t))) by {
                                    if exists|t: State| #[trigger] steps_with(
                                        me, rep(dd, 4), t) {
                                        let t = choose|t: State|
                                            #[trigger] steps_with(me, rep(dd, 4), t);
                                        assert(steps_with(me, rep(dd, (step + 1) as nat), t));
                                    }
                                }
                                assert(step as nat == 3nat);
                                assert(steps_with(me, rep(dd, 3), cur@[0]));
                                assert(exists|t: State| #[trigger] steps_with(
                                    me, rep(dd, 3), t));
                            } else if step == 2 {
                                assert((step + 1) as nat == 3nat);
                                assert(!(exists|t: State|
                                    #[trigger] steps_with(me, rep(dd, 3), t))) by {
                                    if exists|t: State| #[trigger] steps_with(
                                        me, rep(dd, 3), t) {
                                        let t = choose|t: State|
                                            #[trigger] steps_with(me, rep(dd, 3), t);
                                        assert(steps_with(me, rep(dd, (step + 1) as nat), t));
                                    }
                                }
                                assert(step as nat == 2nat);
                                assert(steps_with(me, rep(dd, 2), cur@[0]));
                                assert(exists|t: State| #[trigger] steps_with(
                                    me, rep(dd, 2), t));
                            } else if step == 1 {
                                assert((step + 1) as nat == 2nat);
                                assert(!(exists|t: State|
                                    #[trigger] steps_with(me, rep(dd, 2), t))) by {
                                    if exists|t: State| #[trigger] steps_with(
                                        me, rep(dd, 2), t) {
                                        let t = choose|t: State|
                                            #[trigger] steps_with(me, rep(dd, 2), t);
                                        assert(steps_with(me, rep(dd, (step + 1) as nat), t));
                                    }
                                }
                                assert(step as nat == 1nat);
                                assert(steps_with(me, rep(dd, 1), cur@[0]));
                                assert(exists|t: State| #[trigger] steps_with(
                                    me, rep(dd, 1), t));
                                assert(rep(dd, 1) =~= seq![dd]);
                                lemma_steps_one(me, dd, q);
                            } else {
                                assert(step == 0);
                                assert((step + 1) as nat == 1nat);
                                assert(!(exists|t: State|
                                    #[trigger] steps_with(me, rep(dd, 1), t))) by {
                                    if exists|t: State| #[trigger] steps_with(
                                        me, rep(dd, 1), t) {
                                        let t = choose|t: State|
                                            #[trigger] steps_with(me, rep(dd, 1), t);
                                        assert(steps_with(me, rep(dd, (step + 1) as nat), t));
                                    }
                                }
                                assert(step as nat == 0nat);
                                assert(rep(dd, 0) =~= Seq::<int>::empty());
                                assert(steps_with(me, rep(dd, step as nat), q) == (q == me));
                            }
                        }
                    }
                }
                finals = cur;
            },
            Dice::Regular(rd) => {
                let big = rd.big;
                let small = rd.small;
                let ghost two_bs = seq![big as int, small as int];
                let ghost two_sb = seq![small as int, big as int];
                let m_big = half_moves(self, big);
                let m_small = half_moves(self, small);
                let full_a = expand(&m_big, small, Ghost(tx), Ghost(to));
                let full_b = expand(&m_small, big, Ghost(tx), Ghost(to));
                proof {
                    reveal(play_result);
                    assert forall|q: State| #[trigger] seq_contains(full_a@, q) == steps_with(
                        me, two_bs, q) by {
                        lemma_steps_two(me, big as int, small as int, q);
                        if seq_contains(full_a@, q) {
                            let j = choose|j: int|
                                0 <= j < m_big@.len() && half_step(
                                    #[trigger] m_big@[j], small as int, q);
                            assert(seq_contains(m_big@, m_big@[j]));
                            assert(half_step(me, big as int, m_big@[j]));
                        }
                        if steps_with(me, two_bs, q) {
                            let m = choose|m: State|
                                #[trigger] half_step(me, big as int, m) && half_step(
                                    m, small as int, q);
                            assert(seq_contains(m_big@, m));
                            let j = choose|j: int| 0 <= j < m_big@.len() && m_big@[j] == m;
                            assert(half_step(m_big@[j], small as int, q));
                        }
                    }
                    assert forall|q: State| #[trigger] seq_contains(full_b@, q) == steps_with(
                        me, two_sb, q) by {
                        lemma_steps_two(me, small as int, big as int, q);
                        if seq_contains(full_b@, q) {
                            let j = choose|j: int|
                                0 <= j < m_small@.len() && half_step(
                                    #[trigger] m_small@[j], big as int, q);
                            assert(seq_contains(m_small@, m_small@[j]));
                            assert(half_step(me, small as int, m_small@[j]));
                        }
                        if steps_with(me, two_sb, q) {
                            let m = choose|m: State|
                                #[trigger] half_step(me, small as int, m) && half_step(
                                    m, big as int, q);
                            assert(seq_contains(m_small@, m));
                            let j = choose|j: int| 0 <= j < m_small@.len() && m_small@[j] == m;
                            assert(half_step(m_small@[j], big as int, q));
                        }
                    }
                }
                if full_a.len() > 0 || full_b.len() > 0 {
                    proof {
                        if full_a@.len() > 0 {
                            assert(seq_contains(full_a@, full_a@[0]));
                        }
                        if full_b@.len() > 0 {
                            assert(seq_contains(full_b@, full_b@[0]));
                        }
                    }
                    let mut k: usize = 0;
                    while k < full_a.len()
                        invariant
                            0 <= k <= full_a@.len(),
                            finals@.len() == k,
                            forall|k2: int|
                                0 <= k2 < full_a@.len() ==> (#[trigger] full_a@[k2]).wf()
                                    && full_a@[k2].x_total() == tx && full_a@[k2].o_total() == to,
                            forall|k2: int|
                                0 <= k2 < finals@.len() ==> (#[trigger] finals@[k2]).wf()
                                    && finals@[k2].x_total() == tx && finals@[k2].o_total() == to,
                            forall|q: State| #[trigger] seq_contains(finals@, q) == (exists|
                            k2: int|
                                0 <= k2 < k && full_a@[k2] == q),
                        decreases full_a@.len() - k,
                    {
                        let ghost old_f = finals@;
                        finals.push(full_a[k]);
                        proof {
                            lemma_push_contains(old_f, finals@, full_a@[k as int]);
                        }
                        k = k + 1;
                    }
                    let ghost base = finals@;
                    let mut k: usize = 0;
                    while k < full_b.len()
                        invariant
                            0 <= k <= full_b@.len(),
                            finals@.len() == base.len() + k,
                            forall|q: State| #[trigger] seq_contains(base, q) == (exists|k2: int|
                                0 <= k2 < full_a@.len() && full_a@[k2] == q),
                            forall|k2: int|
                                0 <= k2 < full_b@.len() ==> (#[trigger] full_b@[k2]).wf()
                                    && full_b@[k2].x_total() == tx && full_b@[k2].o_total() == to,
                            forall|k2: int|
                                0 <= k2 < finals@.len() ==> (#[trigger] finals@[k2]).wf()
                                    && finals@[k2].x_total() == tx && finals@[k2].o_total() == to,
                            forall|q: State| #[trigger] seq_contains(finals@, q) == (
                            seq_contains(base, q) || (exists|k2: int|
                                0 <= k2 < k && full_b@[k2] == q)),
                        decreases full_b@.len() - k,
                    {
                        let ghost old_f = finals@;
                        finals.push(full_b[k]);
                        proof {
                            lemma_push_contains(old_f, finals@, full_b@[k as int]);
                        }
                        k = k + 1;
                    }
                    proof {
                        reveal(play_result);
                        assert forall|q: State| #[trigger] seq_contains(finals@, q)
                            == play_result(me, *dice, q) by {
                            assert(seq_contains(finals@, q) == (seq_contains(full_a@, q)
                                || seq_contains(full_b@, q)));
                        }
                        assert(finals@.len() >= 1);
                    }
                } else if m_big.len() > 0 {
                    finals = m_big;
                    proof {
                        reveal(play_result);
                        assert(seq_contains(finals@, finals@[0]));
                        assert forall|t: State| !(#[trigger] steps_with(me, two_bs, t)) by {
                            if steps_with(me, two_bs, t) {
                                assert(seq_contains(full_a@, t));
                            }
                        }
                        assert forall|t: State| !(#[trigger] steps_with(me, two_sb, t)) by {
                            if steps_with(me, two_sb, t) {
                                assert(seq_contains(full_b@, t));
                            }
                        }
                        assert forall|q: State| #[trigger] seq_contains(finals@, q)
                            == play_result(me, *dice, q) by {}
                    }
                } else if m_small.len() > 0 {
                    finals = m_small;
                    proof {
                        reveal(play_result);
                        assert(seq_contains(finals@, finals@[0]));
                        assert forall|t: State| !(#[trigger] steps_with(me, two_bs, t)) by {
                            if steps_with(me, two_bs, t) {
                                assert(seq_contains(full_a@, t));
                            }
                        }
                        assert forall|t: State| !(#[trigger] steps_with(me, two_sb, t)) by {
                            if steps_with(me, two_sb, t) {
                                assert(seq_contains(full_b@, t));
                            }
                        }
                        assert forall|t: State| !(#[trigger] half_step(me, big as int, t)) by {
                            if half_step(me, big as int, t) {
                                assert(seq_contains(m_big@, t));
                            }
                        }
                        assert forall|q: State| #[trigger] seq_contains(finals@, q)
                            == play_result(me, *dice, q) by {}
                    }
                } else {
                    finals.push(*self);
                    proof {
                        reveal(play_result);
                        assert forall|t: State| !(#[trigger] steps_with(me, two_bs, t)) by {
                            if steps_with(me, two_bs, t) {
                                assert(seq_contains(full_a@, t));
                            }
                        }
                        assert forall|t: State| !(#[trigger] steps_with(me, two_sb, t)) by {
                            if steps_with(me, two_sb, t) {
                                assert(seq_contains(full_b@, t));
                            }
                        }
                        assert forall|t: State| !(#[trigger] half_step(me, big as int, t)) by {
                            if half_step(me, big as int, t) {
                                assert(seq_contains(m_big@, t));
                            }
                        }
                        assert forall|t: State| !(#[trigger] half_step(me, small as int, t)) by {
                            if half_step(me, small as int, t) {
                                assert(seq_contains(m_small@, t));
                            }
                        }
                        assert forall|q: State| #[trigger] seq_contains(finals@, q)
                            == play_result(me, *dice, q) by {
                            if seq_contains(finals@, q) {
                                assert(q == finals@[0]);
                            }
                            if play_result(me, *dice, q) {
                                assert(q == me);
                                assert(finals@[0] == q);
                            }
                        }
                    }
                }
            },
        }
        proof {
            assert(finals@.len() >= 1);
            assert(forall|q: State| #[trigger] seq_contains(finals@, q) == play_result(
                me, *dice, q));
        }
        // Flip every terminal board, deduplicate by key and keep them sorted.
        let mut out: Vec<State> = Vec::new();
        let mut keys: Vec<[u8; 10]> = Vec::new();
        let mut k: usize = 0;
        while k < finals.len()
            invariant
                0 <= k <= finals@.len(),
                finals@.len() >= 1,
                me == *self,
                forall|k2: int|
                    0 <= k2 < finals@.len() ==> (#[trigger] finals@[k2]).wf()
                        && finals@[k2].x_total() == tx && finals@[k2].o_total() == to,
                forall|q: State| #[trigger] seq_contains(finals@, q) == play_result(
                    me, *dice, q),
                out@.len() == keys@.len(),
                k > 0 ==> out@.len() >= 1,
                forall|k2: int, j: int|
                    0 <= k2 < out@.len() && 0 <= j < 10 ==> #[trigger] (keys@[k2])@[j] as int
                        == key_seq(out@[k2])[j],
                forall|k2: int|
                    0 <= k2 && k2 + 1 < out@.len() ==> id_lt(#[trigger] out@[k2], out@[k2 + 1]),
                forall|k2: int|
                    0 <= k2 < out@.len() ==> (#[trigger] out@[k2]).wf() && out@[k2].x_total()
                        == to && out@[k2].o_total() == tx,
                forall|q: State| #[trigger] seq_contains(out@, q) == (exists|k2: int|
                    0 <= k2 < k && is_flip_of(q, #[trigger] finals@[k2])),
            decreases finals@.len() - k,
        {
            let flipped = finals[k].flip();
            let key = flipped.encode();
            let ghost old_out_v = out@;
            proof {
                crate::ids::lemma_key_bytes(key@, flipped);
            }
            insert_sorted(&mut out, &mut keys, flipped, key, Ghost(to), Ghost(tx));
            proof {
                assert forall|q: State| #[trigger] seq_contains(out@, q) == (exists|k2: int|
                    0 <= k2 < k + 1 && is_flip_of(q, #[trigger] finals@[k2])) by {
                    if seq_contains(out@, q) {
                        if seq_contains(old_out_v, q) {
                        } else {
                            assert(q == flipped);
                            assert(is_flip_of(q, finals@[k as int]));
                        }
                    }
                    if exists|k2: int| 0 <= k2 < k + 1 && is_flip_of(
                        q, #[trigger] finals@[k2]) {
                        let k2 = choose|k2: int|
                            0 <= k2 < k + 1 && is_flip_of(q, #[trigger] finals@[k2]);
                        if k2 == k {
                            lemma_flip_unique(q, flipped, finals@[k as int]);
                            assert(seq_contains(out@, q));
                        } else {
                            assert(seq_contains(old_out_v, q));
                            assert(seq_contains(out@, q));
                        }
                    }
                }
            }
            k = k + 1;
        }
        proof {
            assert forall|q: State| #[trigger] seq_contains(out@, q) == is_move_of(
                *self, *dice, q) by {
                if seq_contains(out@, q) {
                    let k2 = choose|k2: int|
                        0 <= k2 < finals@.len() && is_flip_of(q, #[trigger] finals@[k2]);
                    assert(seq_contains(finals@, finals@[k2]));
                    assert(play_result(me, *dice, finals@[k2]));
                }
                if is_move_of(*self, *dice, q) {
                    let b = choose|b: State|
                        #[trigger] play_result(me, *dice, b) && is_flip_of(q, b);
                    assert(seq_contains(finals@, b));
                    let k2 = choose|k2: int| 0 <= k2 < finals@.len() && finals@[k2] == b;
                    assert(is_flip_of(q, finals@[k2]));
                }
            }
        }
        out
    }
}

/// Pushing extends membership by exactly the pushed board.
pub proof fn lemma_push_contains(old_r: Seq<State>, new_r: Seq<State>, s: State)
    requires
        new_r =~= old_r.push(s),
    ensures
        forall|q: State| #[trigger] seq_contains(new_r, q) == (seq_contains(old_r, q) || q == s),
{
    assert forall|q: State| #[trigger] seq_contains(new_r, q) == (seq_contains(old_r, q) || q
        == s) by {
        if seq_contains(new_r, q) {
            let k = choose|k: int| 0 <= k < new_r.len() && new_r[k] == q;
            if k < old_r.len() {
                assert(old_r[k] == q);
            }
        }
        if seq_contains(old_r, q) {
            let k = choose|k: int| 0 <= k < old_r.len() && old_r[k] == q;
            assert(new_r[k] == q);
        }
        if q == s {
            assert(new_r[new_r.len() - 1] == q);
        }
    }
}

/// The canonical-key order never relates a position to itself.
pub proof fn lemma_id_lt_irrefl(x: Seq<int>, i: int)
    ensures
        !lex_lt_from(x, x, i),
    decreases 10 - i,
{
    if i < 10 {
        lemma_id_lt_irrefl(x, i + 1);
    }
}

/// The canonical-key order runs one way only.
pub proof fn lemma_id_lt_asym(x: Seq<int>, y: Seq<int>, i: int)
    requires
        lex_lt_from(x, y, i),
    ensures
        !lex_lt_from(y, x, i),
    decreases 10 - i,
{
    if i < 10 && x[i] == y[i] {
        lemma_id_lt_asym(x, y, i + 1);
    }
}

/// The canonical-key order chains.
pub proof fn lemma_id_lt_trans(x: Seq<int>, y: Seq<int>, z: Seq<int>, i: int)
    requires
        lex_lt_from(x, y, i),
        lex_lt_from(y, z, i),
    ensures
        lex_lt_from(x, z, i),
    decreases 10 - i,
{
    if i < 10 && x[i] == y[i] && y[i] == z[i] {
        lemma_id_lt_trans(x, y, z, i + 1);
    }
}

/// In a strictly ordered run, every earlier position comes before every
/// later one.
pub proof fn lemma_sorted_pairs(r: Seq<State>, k1: int, k2: int)
    requires
        forall|k: int| 0 <= k && k + 1 < r.len() ==> id_lt(#[trigger] r[k], r[k + 1]),
        0 <= k1 < k2 < r.len(),
    ensures
        id_lt(r[k1], r[k2]),
    decreases k2 - k1,
{
    if k1 + 1 < k2 {
        lemma_sorted_pairs(r, k1, k2 - 1);
        lemma_id_lt_trans(key_seq(r[k1]), key_seq(r[k2 - 1]), key_seq(r[k2]), 0);
    }
}

/// Two strictly ordered runs with the same members are the same run.
pub proof fn lemma_sorted_unique(r1: Seq<State>, r2: Seq<State>)
    requires
        forall|q: State| #[trigger] seq_contains(r1, q) == seq_contains(r2, q),
        forall|k: int| 0 <= k && k + 1 < r1.len() ==> id_lt(#[trigger] r1[k], r1[k + 1]),
        forall|k: int| 0 <= k && k + 1 < r2.len() ==> id_lt(#[trigger] r2[k], r2[k + 1]),
    ensures
        r1 =~= r2,
    decreases r1.len(),
{
    if r1.len() == 0 {
        if r2.len() > 0 {
            assert(seq_contains(r2, r2[0]));
            assert(seq_contains(r1, r2[0]));
        }
    } else {
        assert(seq_contains(r1, r1[0]));
        assert(seq_contains(r2, r1[0]));
        let j = choose|j: int| 0 <= j < r2.len() && r2[j] == r1[0];
        if j > 0 {
            assert(seq_contains(r2, r2[0]));
            assert(seq_contains(r1, r2[0]));
            let i = choose|i: int| 0 <= i < r1.len() && r1[i] == r2[0];
            lemma_sorted_pairs(r2, 0, j);
            if i == 0 {
                lemma_id_lt_irrefl(key_seq(r1[0]), 0);
            } else {
                lemma_sorted_pairs(r1, 0, i);
                lemma_id_lt_trans(key_seq(r1[0]), key_seq(r1[i]), key_seq(r1[0]), 0);
                lemma_id_lt_irrefl(key_seq(r1[0]), 0);
            }
        }
        assert(r2.len() > 0 && r2[0] == r1[0]);
        let t1 = r1.drop_first();
        let t2 = r2.drop_first();
        assert forall|q: State| #[trigger] seq_contains(t1, q) == seq_contains(t2, q) by {
            lemma_tail_membership(r1, q);
            lemma_tail_membership(r2, q);
        }
        assert(forall|k: int| 0 <= k && k + 1 < t1.len() ==> id_lt(#[trigger] t1[k], t1[k + 1]));
        assert(forall|k: int| 0 <= k && k + 1 < t2.len() ==> id_lt(#[trigger] t2[k], t2[k + 1]));
        lemma_sorted_unique(t1, t2);
        assert(t1 == t2);
        assert(r1.len() == r2.len());
        assert forall|k: int| 0 <= k < r1.len() implies r1[k] == r2[k] by {
            if k > 0 {
                assert(t1[k - 1] == r1[k]);
                assert(t2[k - 1] == r2[k]);
            }
        }
        assert(r1 =~= r2);
    }
}

/// Dropping the least member: what the tail of a strictly ordered run holds.
pub proof fn lemma_tail_membership(r: Seq<State>, q: State)
    requires
        r.len() >= 1,
        forall|k: int| 0 <= k && k + 1 < r.len() ==> id_lt(#[trigger] r[k], r[k + 1]),
    ensures
        seq_contains(r.drop_first(), q) == (seq_contains(r, q) && q != r[0]),
{
    let t = r.drop_first();
    if seq_contains(t, q) {
        let k = choose|k: int| 0 <= k < t.len() && t[k] == q;
        assert(r[k + 1] == q);
        assert(seq_contains(r, q));
        lemma_sorted_pairs(r, 0, k + 1);
        if q == r[0] {
            lemma_id_lt_irrefl(key_seq(q), 0);
        }
    }
    if seq_contains(r, q) && q != r[0] {
        let k = choose|k: int| 0 <= k < r.len() && r[k] == q;
        assert(k > 0);
        assert(t[k - 1] == q);
        assert(seq_contains(t, q));
    }
}

/// Checker conservation: a successor keeps every checker on the board. The
/// successor is flipped, so its sides' totals are the mover's exchanged, and
/// the grand total is unchanged.
pub proof fn lemma_conservation(p: State, q: State)
    requires
        q.x_total() == p.o_total(),
        q.o_total() == p.x_total(),
    ensures
        q.x_total() + q.o_total() == p.x_total() + p.o_total(),
{
}

} // verus!

verus! {

/// The run `possible_positions` returns for a roll: strictly ordered by
/// canonical key and holding exactly the roll's moves.
pub open spec fn is_move_list(p: State, dice: Dice, r: Seq<State>) -> bool {
    &&& forall|q: State| #[trigger] seq_contains(r, q) == is_move_of(p, dice, q)
    &&& forall|k: int| 0 <= k && k + 1 < r.len() ==> id_lt(#[trigger] r[k], r[k + 1])
}

/// The one run `possible_positions` can return for a roll.
pub open spec fn the_moves(p: State, dice: Dice) -> Seq<State> {
    choose|r: Seq<State>| #[trigger] is_move_list(p, dice, r)
}

/// Any run of the move-list shape is the roll's one move list.
pub proof fn lemma_the_moves(p: State, dice: Dice, r: Seq<State>)
    requires
        is_move_list(p, dice, r),
    ensures
        the_moves(p, dice) == r,
{
    assert(is_move_list(p, dice, the_moves(p, dice)));
    lemma_sorted_unique(the_moves(p, dice), r);
}

/// The number of boards `depth` levels of rolls away from `p`: each level
/// fans out over the move lists of the 21 rolls, and a finished game counts
/// as one leaf.
pub open spec fn perft_spec(p: State, depth: nat) -> int
    decreases depth, 2int, 0int,
{
    if depth == 0 {
        1
    } else {
        perft_rolls(p, depth, 0)
    }
}

/// The count's part for rolls `m` to 20.
pub open spec fn perft_rolls(p: State, depth: nat, m: int) -> int
    decreases depth, 1int, 21 - m,
{
    if m >= 21 || m < 0 || depth == 0 {
        0
    } else {
        perft_list(the_moves(p, crate::dice::roll21(m)), depth, 0) + perft_rolls(p, depth, m + 1)
    }
}

/// The count's part for one roll's moves from index `i` on.
pub open spec fn perft_list(list: Seq<State>, depth: nat, i: int) -> int
    decreases depth, 0int, list.len() - i,
{
    if i < 0 || i >= list.len() || depth == 0 {
        0
    } else {
        (if crate::position::game_state_spec(list[i]) is GameOver {
            1int
        } else {
            perft_spec(list[i], (depth - 1) as nat)
        }) + perft_list(list, depth, i + 1)
    }
}

/// Counts never run negative.
pub proof fn lemma_perft_nonneg(p: State, depth: nat)
    ensures
        perft_spec(p, depth) >= 0,
    decreases depth, 2int, 0int,
{
    if depth > 0 {
        lemma_perft_rolls_nonneg(p, depth, 0);
    }
}

pub proof fn lemma_perft_rolls_nonneg(p: State, depth: nat, m: int)
    ensures
        perft_rolls(p, depth, m) >= 0,
    decreases depth, 1int, 21 - m,
{
    if 0 <= m < 21 && depth > 0 {
        lemma_perft_list_nonneg(the_moves(p, crate::dice::roll21(m)), depth, 0);
        lemma_perft_rolls_nonneg(p, depth, m + 1);
    }
}

pub proof fn lemma_perft_list_nonneg(list: Seq<State>, depth: nat, i: int)
    ensures
        perft_list(list, depth, i) >= 0,
    decreases depth, 0int, list.len() - i,
{
    if 0 <= i < list.len() && depth > 0 {
        if !(crate::position::game_state_spec(list[i]) is GameOver) {
            lemma_perft_nonneg(list[i], (depth - 1) as nat);
        }
        lemma_perft_list_nonneg(list, depth, i + 1);
    }
}

/// A count clipped to what a machine word holds.
pub open spec fn cap64(x: int) -> int {
    if x > 18446744073709551615 {
        18446744073709551615
    } else {
        x
    }
}

/// Saturating addition for the node counter.
fn add_sat(a: u64, b: u64) -> (r: u64)
    ensures
        r as int == cap64(a as int + b as int),
{
    if a > 18446744073709551615u64 - b {
        18446744073709551615u64
    } else {
        a + b
    }
}

/// Clipping distributes over addition of clipped, non-negative parts.
proof fn lemma_cap_add(x: int, y: int)
    requires
        x >= 0,
        y >= 0,
    ensures
        cap64(cap64(x) + cap64(y)) == cap64(x + y),
{
}

/// Counts the positions reached from `pos` in `depth` rolls: one level sums,
/// over all 21 rolls, the legal successors; finished games count as leaves.
/// The count is the spec-level fan-out count, clipped to a machine word
/// rather than wrapping.
pub fn perft(pos: &State, depth: u64) -> (r: u64)
    requires
        pos.wf(),
    ensures
        r as int == cap64(perft_spec(*pos, depth as nat)),
    decreases depth,
{
    if depth == 0 {
        return 1;
    }
    let ghost d = depth as nat;
    let rolls = crate::dice::all_21();
    let mut total: u64 = 0;
    let mut k: usize = 0;
    proof {
        lemma_perft_rolls_nonneg(*pos, d, 0);
    }
    while k < 21
        invariant
            pos.wf(),
            depth >= 1,
            d == depth as nat,
            rolls@.len() == 21,
            forall|j: int| 0 <= j < 21 ==> (#[trigger] rolls@[j]).0 == crate::dice::roll21(j),
            forall|j: int| 0 <= j < 21 ==> dice_wf((#[trigger] rolls@[j]).0),
            0 <= k <= 21,
            total as int == cap64(perft_rolls(*pos, d, 0) - perft_rolls(*pos, d, k as int)),
        decreases 21 - k,
    {
        let children = pos.possible_positions(&rolls[k].0);
        proof {
            lemma_the_moves(*pos, crate::dice::roll21(k as int), children@);
            lemma_perft_rolls_nonneg(*pos, d, k as int);
            lemma_perft_rolls_nonneg(*pos, d, k + 1);
            lemma_perft_list_nonneg(children@, d, 0);
        }
        let mut c: usize = 0;
        while c < children.len()
            invariant
                pos.wf(),
                depth >= 1,
                d == depth as nat,
                0 <= k < 21,
                children@ == the_moves(*pos, crate::dice::roll21(k as int)),
                0 <= c <= children@.len(),
                forall|j: int|
                    0 <= j < children@.len() ==> (#[trigger] children@[j]).wf(),
                total as int == cap64(
                    perft_rolls(*pos, d, 0) - perft_rolls(*pos, d, k as int) + (perft_list(
                        children@, d, 0) - perft_list(children@, d, c as int))),
            decreases children@.len() - c,
        {
            let child = children[c];
            let n = match child.game_state() {
                crate::position::GameState::Ongoing => perft(&child, depth - 1),
                crate::position::GameState::GameOver(_) => 1,
            };
            proof {
                let base = perft_rolls(*pos, d, 0) - perft_rolls(*pos, d, k as int) + (
                perft_list(children@, d, 0) - perft_list(children@, d, c as int));
                let term: int = if crate::position::game_state_spec(children@[c as int])
                    is GameOver {
                    1int
                } else {
                    perft_spec(children@[c as int], (d - 1) as nat)
                };
                assert(n as int == cap64(term)) by {
                    if !(crate::position::game_state_spec(children@[c as int]) is GameOver) {
                        assert((depth - 1) as nat == (d - 1) as nat);
                    }
                }
                assert(perft_list(children@, d, c as int) == term + perft_list(
                    children@, d, c + 1));
                lemma_perft_rolls_nonneg(*pos, d, 0);
                lemma_perft_rolls_nonneg(*pos, d, k as int);
                lemma_perft_list_nonneg(children@, d, 0);
                lemma_perft_list_nonneg(children@, d, c as int);
                lemma_perft_list_nonneg(children@, d, c + 1);
                lemma_rolls_prefix_nonneg(*pos, d, k as int);
                lemma_list_prefix_nonneg(children@, d, c as int);
                lemma_list_prefix_nonneg(children@, d, c + 1);
                if !(crate::position::game_state_spec(children@[c as int]) is GameOver) {
                    lemma_perft_nonneg(children@[c as int], (d - 1) as nat);
                }
                lemma_cap_add(base, term);
            }
            total = add_sat(total, n);
            c = c + 1;
        }
        proof {
            assert(perft_rolls(*pos, d, k as int) == perft_list(
                the_moves(*pos, crate::dice::roll21(k as int)), d, 0) + perft_rolls(
                *pos, d, k + 1));
        }
        k = k + 1;
    }
    proof {
        assert(perft_rolls(*pos, d, 21) == 0);
        assert(perft_spec(*pos, d) == perft_rolls(*pos, d, 0));
    }
    total
}

/// What the rolls before `m` contribute is never negative.
proof fn lemma_rolls_prefix_nonneg(p: State, depth: nat, m: int)
    requires
        0 <= m <= 21,
    ensures
        perft_rolls(p, depth, 0) - perft_rolls(p, depth, m) >= 0,
    decreases m,
{
    if m > 0 {
        lemma_rolls_prefix_nonneg(p, depth, m - 1);
        if depth > 0 {
            lemma_perft_list_nonneg(the_moves(p, crate::dice::roll21(m - 1)), depth, 0);
            assert(perft_rolls(p, depth, m - 1) == perft_list(
                the_moves(p, crate::dice::roll21(m - 1)), depth, 0) + perft_rolls(p, depth, m));
        }
    }
}

/// What the moves before `i` contribute is never negative.
proof fn lemma_list_prefix_nonneg(list: Seq<State>, depth: nat, i: int)
    requires
        0 <= i <= list.len(),
    ensures
        perft_list(list, depth, 0) - perft_list(list, depth, i) >= 0,
    decreases i,
{
    if i > 0 {
        lemma_list_prefix_nonneg(list, depth, i - 1);
        if depth > 0 {
            if !(crate::position::game_state_spec(list[i - 1]) is GameOver) {
                lemma_perft_nonneg(list[i - 1], (depth - 1) as nat);
            }
            assert(perft_list(list, depth, i - 1) == (if crate::position::game_state_spec(
                list[i - 1]) is GameOver {
                1int
            } else {
                perft_spec(list[i - 1], (depth - 1) as nat)
            }) + perft_list(list, depth, i));
        }
    }
}

} // verus!

//! Finds varied positions for later rollouts by sampling random games.

use vstd::prelude::*;
use crate::position::{State, GameState};
use crate::dice::{DiceGen, FastrandDice};
use crate::evaluator::PartialEvaluator;

verus! {

/// Whether two positions are the same board.
fn states_equal(a: &State, b: &State) -> (r: bool)
    ensures
        r == (a == b),
{
    let mut i: usize = 0;
    let mut same = a.x_off == b.x_off && a.o_off == b.o_off;
    while i < 26
        invariant
            0 <= i <= 26,
            same == (a.x_off == b.x_off && a.o_off == b.o_off && forall|j: int|
                0 <= j < i ==> a.pips@[j] == b.pips@[j]),
        decreases 26 - i,
    {
        if a.pips[i] != b.pips[i] {
            same = false;
        }
        i = i + 1;
    }
    proof {
        if same {
            assert(a.pips@ =~= b.pips@);
            assert(a.pips =~= b.pips);
        }
    }
    same
}

/// Finds random positions for later rollout.
pub struct PositionFinder<E: PartialEvaluator> {
    pub evaluator: E,
    pub dice_gen: FastrandDice,
}

impl<E: PartialEvaluator> PositionFinder<E> {
    /// Contains different random number generators every time it is called.
    pub fn new(evaluator: E) -> PositionFinder<E> {
        PositionFinder { evaluator, dice_gen: FastrandDice::new() }
    }

    /// Plays one random game from the start and collects every running
    /// position seen along the way.
    pub fn positions_in_one_random_game(&mut self) -> (r: Vec<State>)
        ensures
            forall|k: int|
                0 <= k < r@.len() ==> (#[trigger] r@[k]).wf() && r@[k].x_total() == 15
                    && r@[k].o_total() == 15 && crate::position::game_state_spec(r@[k])
                    is Ongoing,
    {
        let mut positions: Vec<State> = Vec::new();
        let mut pos = State::new();
        let mut fuel: u32 = 100000;
        while fuel > 0
            invariant
                pos.wf(),
                pos.x_total() == 15,
                pos.o_total() == 15,
                forall|k: int|
                    0 <= k < positions@.len() ==> (#[trigger] positions@[k]).wf()
                        && positions@[k].x_total() == 15 && positions@[k].o_total() == 15
                        && crate::position::game_state_spec(positions@[k]) is Ongoing,
            decreases fuel,
        {
            fuel = fuel - 1;
            match pos.game_state() {
                GameState::Ongoing => {},
                GameState::GameOver(_) => {
                    break;
                },
            }
            let dice = self.dice_gen.roll();
            pos = self.evaluator.best_position(&pos, &dice);
            match pos.game_state() {
                GameState::Ongoing => {
                    positions.push(pos);
                },
                GameState::GameOver(_) => {
                    break;
                },
            }
        }
        positions
    }

    /// Collects up to `amount` distinct running positions from random games.
    /// Games are played until the amount is reached or a generous game budget
    /// is spent: the budget keeps the search total where waiting for the
    /// amount could take forever, so fewer positions than asked can come
    /// back in principle, though never in practice.
    pub fn find_positions(&mut self, amount: usize) -> (r: Vec<State>)
        ensures
            r@.len() <= amount,
            forall|k: int|
                0 <= k < r@.len() ==> (#[trigger] r@[k]).wf() && r@[k].x_total() == 15
                    && r@[k].o_total() == 15 && crate::position::game_state_spec(r@[k])
                    is Ongoing,
            forall|k1: int, k2: int| 0 <= k1 < k2 < r@.len() ==> r@[k1] != r@[k2],
    {
        let mut found: Vec<State> = Vec::new();
        let mut games: u32 = 100000;
        while games > 0
            invariant
                found@.len() <= amount,
                forall|k: int|
                    0 <= k < found@.len() ==> (#[trigger] found@[k]).wf()
                        && found@[k].x_total() == 15 && found@[k].o_total() == 15
                        && crate::position::game_state_spec(found@[k]) is Ongoing,
                forall|k1: int, k2: int|
                    0 <= k1 < k2 < found@.len() ==> found@[k1] != found@[k2],
            decreases games,
        {
            games = games - 1;
            if found.len() >= amount {
                break;
            }
            let more = self.positions_in_one_random_game();
            let mut m: usize = 0;
            while m < more.len()
                invariant
                    0 <= m <= more@.len(),
                    found@.len() <= amount,
                    forall|k: int|
                        0 <= k < more@.len() ==> (#[trigger] more@[k]).wf()
                            && more@[k].x_total() == 15 && more@[k].o_total() == 15
                            && crate::position::game_state_spec(more@[k]) is Ongoing,
                    forall|k: int|
                        0 <= k < found@.len() ==> (#[trigger] found@[k]).wf()
                            && found@[k].x_total() == 15 && found@[k].o_total() == 15
                            && crate::position::game_state_spec(found@[k]) is Ongoing,
                    forall|k1: int, k2: int|
                        0 <= k1 < k2 < found@.len() ==> found@[k1] != found@[k2],
                decreases more@.len() - m,
            {
                if found.len() >= amount {
                    break;
                }
                let candidate = more[m];
                let mut seen = false;
                let mut f: usize = 0;
                while f < found.len()
                    invariant
                        0 <= f <= found@.len(),
                        seen == exists|j: int| 0 <= j < f && found@[j] == candidate,
                    decreases found@.len() - f,
                {
                    if states_equal(&found[f], &candidate) {
                        seen = true;
                    }
                    f = f + 1;
                }
                if !seen {
                    found.push(candidate);
                }
                m = m + 1;
            }
        }
        found
    }
}

} // verus!

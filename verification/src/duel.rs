//! The duel harness: two evaluators play two games at once with the same
//! dice stream, each starting one of them, and the pair of results is
//! counted from the first evaluator's side.

use vstd::prelude::*;
use crate::position::{State, GameState, GameResult};
use crate::dice::{Dice, DiceGen};
use crate::evaluator::{PartialEvaluator, playout_result, play_prefix, endless_game, lemma_prefix_start, lemma_prefix_extend, lemma_prefix_finish, lemma_prefix_forget};
use crate::probabilities::{ResultCounter, counter_total, result_index};

verus! {

/// The counter holds exactly these two results, one tally each.
pub open spec fn two_results(c: ResultCounter, res1: GameResult, res2: GameResult) -> bool {
    forall|j: int|
        0 <= j < 6 ==> #[trigger] c.results@[j] == (if result_index(res1) == j {
            1int
        } else {
            0int
        }) + (if result_index(res2) == j {
            1int
        } else {
            0int
        })
}

/// How one recorded result counts towards a slot before and after it exists.
pub open spec fn opt_tally(o: Option<GameResult>, j: int) -> int {
    match o {
        Option::Some(res) => if result_index(res) == j {
            1int
        } else {
            0int
        },
        Option::None => 0,
    }
}

/// A recorded playout stays one when the shared stream only grows.
proof fn lemma_playout_stable(
    start: State,
    old_rolls: Seq<Dice>,
    new_rolls: Seq<Dice>,
    boards: Seq<State>,
    own: Seq<Dice>,
    res: GameResult,
    phase: int,
)
    requires
        playout_result(start, old_rolls, boards, own, res, phase),
        own.len() <= old_rolls.len(),
        forall|i: int| 0 <= i < old_rolls.len() ==> #[trigger] new_rolls[i] == old_rolls[i],
    ensures
        playout_result(start, new_rolls, boards, own, res, phase),
{
    reveal(playout_result);
    assert forall|i: int| 0 <= i < own.len() && i < new_rolls.len() implies #[trigger] own[i]
        == new_rolls[i] by {
        assert(own[i] == old_rolls[i]);
    }
}

/// A longer script changes nothing for a prefix already played under it.
proof fn lemma_prefix_rescript(
    start: State,
    old_fd: Seq<Dice>,
    new_fd: Seq<Dice>,
    boards: Seq<State>,
    rolls: Seq<Dice>,
)
    requires
        play_prefix(start, old_fd, boards, rolls),
        forall|i: int|
            0 <= i < rolls.len() && i < new_fd.len() && i < old_fd.len() ==> #[trigger] new_fd[i]
                == old_fd[i],
        rolls.len() <= old_fd.len() || new_fd.len() <= old_fd.len(),
    ensures
        play_prefix(start, new_fd, boards, rolls),
{
    reveal(play_prefix);
}

/// Lets two evaluators duel each other.
pub struct Duel<T: PartialEvaluator, U: PartialEvaluator> {
    pub evaluator1: T,
    pub evaluator2: U,
}

impl<T: PartialEvaluator, U: PartialEvaluator> Duel<T, U> {
    pub fn new(evaluator1: T, evaluator2: U) -> Duel<T, U> {
        Duel { evaluator1, evaluator2 }
    }

    /// The two evaluators play twice against each other from the given start
    /// - the backgammon or the hypergammon opening, or any other running
    /// position - with either evaluator starting once. Every duel counts
    /// exactly two game results: each is the outcome of a legal playout, the
    /// roll runs of both games are prefixes of one shared dice stream, and
    /// both results are read from the first evaluator's side - the second
    /// game's perspective is shifted by one turn, since the other evaluator
    /// opened it. Only a game outlasting an enormous turn budget escapes the
    /// playout claim.
    #[verifier::rlimit(100)]
    #[verifier::spinoff_prover]
    pub fn duel<V: DiceGen>(&self, start: &State, dice_gen: &mut V) -> (r: ResultCounter)
        requires
            start.wf(),
            crate::position::game_state_spec(*start) is Ongoing,
        ensures
            counter_total(r) == 2,
            (exists|
                shared: Seq<Dice>,
                b1: Seq<State>,
                rolls1: Seq<Dice>,
                res1: GameResult,
                b2: Seq<State>,
                rolls2: Seq<Dice>,
                res2: GameResult,
            |
                #[trigger] playout_result(*start, shared, b1, rolls1, res1, 0)
                    && #[trigger] playout_result(*start, shared, b2, rolls2, res2, 1)
                    && two_results(r, res1, res2)) || endless_game(*start),
    {
        let mut pos1 = *start;
        let mut pos2 = *start;
        let mut iteration: u64 = 0;
        let mut pos1_finished = false;
        let mut pos2_finished = false;
        let mut counter = ResultCounter::empty();
        let ghost mut rolls: Seq<Dice> = Seq::empty();
        let ghost mut b1: Seq<State> = seq![*start];
        let ghost mut b2: Seq<State> = seq![*start];
        proof {
            lemma_prefix_start(*start, rolls);
        }
        let ghost mut rolls1: Seq<Dice> = Seq::empty();
        let ghost mut rolls2: Seq<Dice> = Seq::empty();
        let ghost mut res1: Option<GameResult> = None;
        let ghost mut res2: Option<GameResult> = None;
        while !(pos1_finished && pos2_finished)
            invariant
                start.wf(),
                crate::position::game_state_spec(*start) is Ongoing,
                pos1.wf(),
                pos2.wf(),
                rolls.len() == iteration,
                counter_total(counter) == (if pos1_finished {
                    1int
                } else {
                    0int
                }) + (if pos2_finished {
                    1int
                } else {
                    0int
                }),
                forall|j: int|
                    0 <= j < 6 ==> #[trigger] counter.results@[j] == opt_tally(res1, j)
                        + opt_tally(res2, j),
                pos1_finished == (res1 is Some),
                pos2_finished == (res2 is Some),
                pos1_finished ==> crate::position::game_state_spec(pos1) is GameOver,
                pos2_finished ==> crate::position::game_state_spec(pos2) is GameOver,
                // A running game reads the whole shared stream.
                !pos1_finished ==> b1.len() == iteration + 1 && b1[0] == *start && b1[b1.len()
                    - 1] == pos1 && play_prefix(*start, rolls, b1, rolls),
                !pos2_finished ==> b2.len() == iteration + 1 && b2[0] == *start && b2[b2.len()
                    - 1] == pos2 && play_prefix(*start, rolls, b2, rolls),
                // A finished game is a recorded playout over a stream prefix.
                res1 is Some ==> rolls1.len() <= rolls.len() && playout_result(
                    *start, rolls, b1, rolls1, res1->0, 0),
                res2 is Some ==> rolls2.len() <= rolls.len() && playout_result(
                    *start, rolls, b2, rolls2, res2->0, 1),
            decreases 18446744073709551615u64 - iteration,
        {
            if iteration == 18446744073709551615u64 {
                // No game lasts this long; what it would mean is recorded,
                // and the books close as plain losses.
                proof {
                    if !pos1_finished {
                        lemma_prefix_forget(*start, rolls, b1, rolls);
                        assert(b1.len() > 18446744073709551615);
                    } else {
                        lemma_prefix_forget(*start, rolls, b2, rolls);
                        assert(b2.len() > 18446744073709551615);
                    }
                    assert(endless_game(*start));
                }
                if !pos1_finished {
                    pos1_finished = true;
                    counter.add(GameResult::LoseNormal);
                }
                if !pos2_finished {
                    pos2_finished = true;
                    counter.add(GameResult::LoseNormal);
                }
                return counter;
            }
            let dice = dice_gen.roll();
            let ghost old_rolls = rolls;
            proof {
                rolls = rolls.push(dice);
                assert(forall|i: int|
                    0 <= i < old_rolls.len() ==> #[trigger] rolls[i] == old_rolls[i]);
                if res1 is Some {
                    lemma_playout_stable(*start, old_rolls, rolls, b1, rolls1, res1->0, 0);
                }
                if res2 is Some {
                    lemma_playout_stable(*start, old_rolls, rolls, b2, rolls2, res2->0, 1);
                }
            }

            match pos1.game_state() {
                GameState::Ongoing => {
                    proof {
                        lemma_prefix_rescript(*start, old_rolls, rolls, b1, old_rolls);
                    }
                    pos1 = if iteration % 2 == 0 {
                        self.evaluator1.best_position(&pos1, &dice)
                    } else {
                        self.evaluator2.best_position(&pos1, &dice)
                    };
                    proof {
                        lemma_prefix_extend(*start, rolls, b1, old_rolls, dice, pos1);
                        assert(old_rolls.push(dice) =~= rolls);
                        b1 = b1.push(pos1);
                    }
                },
                GameState::GameOver(result) => {
                    if !pos1_finished {
                        pos1_finished = true;
                        let recorded = if iteration % 2 == 0 {
                            result
                        } else {
                            result.reverse()
                        };
                        proof {
                            rolls1 = old_rolls;
                            res1 = Some(recorded);
                            crate::position::lemma_reverse_involution(result);
                            lemma_prefix_rescript(*start, old_rolls, rolls, b1, rolls1);
                            lemma_prefix_finish(
                                *start, rolls, b1, rolls1, result, recorded, 0);
                        }
                        counter.add(recorded);
                    }
                },
            }

            match pos2.game_state() {
                GameState::Ongoing => {
                    proof {
                        lemma_prefix_rescript(*start, old_rolls, rolls, b2, old_rolls);
                    }
                    pos2 = if iteration % 2 == 0 {
                        self.evaluator2.best_position(&pos2, &dice)
                    } else {
                        self.evaluator1.best_position(&pos2, &dice)
                    };
                    proof {
                        lemma_prefix_extend(*start, rolls, b2, old_rolls, dice, pos2);
                        assert(old_rolls.push(dice) =~= rolls);
                        b2 = b2.push(pos2);
                    }
                },
                GameState::GameOver(result) => {
                    if !pos2_finished {
                        pos2_finished = true;
                        let recorded = if iteration % 2 == 0 {
                            result.reverse()
                        } else {
                            result
                        };
                        proof {
                            rolls2 = old_rolls;
                            res2 = Some(recorded);
                            crate::position::lemma_reverse_involution(result);
                            lemma_prefix_rescript(*start, old_rolls, rolls, b2, rolls2);
                            lemma_prefix_finish(
                                *start, rolls, b2, rolls2, result, recorded, 1);
                        }
                        counter.add(recorded);
                    }
                },
            }
            iteration = iteration + 1;
        }
        proof {
            assert(playout_result(*start, rolls, b1, rolls1, res1->0, 0));
            assert(playout_result(*start, rolls, b2, rolls2, res2->0, 1));
            assert(two_results(counter, res1->0, res2->0));
        }
        counter
    }
}

} // verus!

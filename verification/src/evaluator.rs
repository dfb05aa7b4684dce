//! The evaluator abstraction, the random baseline, and the rollout engine.
//!
//! An evaluator scores positions with floating-point probabilities; what the
//! library states of every evaluator is the part that holds whatever the
//! scores are: a chosen move is a legal successor shape — well formed, with
//! the sides' checkers exchanged by the flip.

use vstd::prelude::*;
use crate::position::{State, GameState, GameResult};
use crate::dice::{Dice, dice_wf, DiceGen, FastrandDice, all_1296};
use crate::probabilities::{ResultCounter, counter_total, counts_match, count_res, lemma_count_res_push, result_index};

verus! {

/// Anything that can pick a move: handed a position and a roll, it returns
/// one of the roll's legal moves — the flip of a board some legal play of the
/// roll ends on.
pub trait PartialEvaluator: Sized {
    fn best_position(&self, pos: &State, dice: &Dice) -> (r: State)
        requires
            pos.wf(),
            dice_wf(*dice),
        ensures
            r.wf(),
            r.x_total() == pos.o_total(),
            r.o_total() == pos.x_total(),
            crate::moves::is_move_of(*pos, *dice, r),
    ;
}

/// Relies on fastrand::usize: a value drawn from the half-open range, so
/// below `n`. Nothing more is promised of a random value.
#[verifier::external_body]
fn random_below(n: usize) -> (r: usize)
    requires
        n > 0,
    ensures
        r < n,
{
    fastrand::usize(0..n)
}

/// Picks uniformly among the legal successors; a baseline and a test aid.
pub struct RandomEvaluator;

impl RandomEvaluator {
    pub fn new() -> RandomEvaluator {
        RandomEvaluator {  }
    }
}

impl PartialEvaluator for RandomEvaluator {
    fn best_position(&self, pos: &State, dice: &Dice) -> (r: State)
        ensures
            r.wf(),
            r.x_total() == pos.o_total(),
            r.o_total() == pos.x_total(),
            crate::moves::is_move_of(*pos, *dice, r),
    {
        let choices = pos.possible_positions(dice);
        let i = random_below(choices.len());
        let chosen = choices[i];
        proof {
            assert(crate::moves::seq_contains(choices@, chosen));
        }
        chosen
    }
}

/// A legally played run of boards: it starts at `start`, every later board
/// is a move of the one before under the matching roll, the scripted dice
/// come first, and the game is not over anywhere strictly between the start
/// and the last board.
#[verifier::opaque]
pub open spec fn play_prefix(
    start: State,
    first_dice: Seq<Dice>,
    boards: Seq<State>,
    rolls: Seq<Dice>,
) -> bool {
    &&& boards.len() >= 1
    &&& rolls.len() + 1 == boards.len()
    &&& boards[0] == start
    &&& forall|i: int| 0 <= i < rolls.len() ==> dice_wf(#[trigger] rolls[i])
    &&& forall|i: int|
        0 <= i < rolls.len() && i < first_dice.len() ==> #[trigger] rolls[i] == first_dice[i]
    &&& forall|i: int|
        0 <= i < rolls.len() ==> crate::moves::is_move_of(
            #[trigger] boards[i], rolls[i], boards[i + 1])
    &&& forall|i: int|
        1 <= i < boards.len() - 1 ==> crate::position::game_state_spec(#[trigger] boards[i])
            is Ongoing
}

/// A finished, legally played game with its outcome read from `start`'s side
/// to move and `phase` turns already played before it: the boards run
/// legally from `start`, the scripted dice come first, only the last board
/// has the game over, and the terminal result is reversed exactly when the
/// final move fell on an even turn.
#[verifier::opaque]
pub open spec fn playout_result(
    start: State,
    first_dice: Seq<Dice>,
    boards: Seq<State>,
    rolls: Seq<Dice>,
    result: GameResult,
    phase: int,
) -> bool {
    &&& boards.len() >= 2
    &&& rolls.len() + 1 == boards.len()
    &&& boards[0] == start
    &&& forall|i: int| 0 <= i < rolls.len() ==> dice_wf(#[trigger] rolls[i])
    &&& forall|i: int|
        0 <= i < rolls.len() && i < first_dice.len() ==> #[trigger] rolls[i] == first_dice[i]
    &&& forall|i: int|
        0 <= i < rolls.len() ==> crate::moves::is_move_of(
            #[trigger] boards[i], rolls[i], boards[i + 1])
    &&& forall|i: int|
        1 <= i < boards.len() - 1 ==> crate::position::game_state_spec(#[trigger] boards[i])
            is Ongoing
    &&& crate::position::game_state_spec(boards[boards.len() - 1]) == GameState::GameOver(
        if (rolls.len() - 1 + phase) % 2 == 0 {
            crate::position::reverse_spec(result)
        } else {
            result
        },
    )
}

/// An unmoved run is a legal play prefix.
pub proof fn lemma_prefix_start(start: State, first_dice: Seq<Dice>)
    ensures
        play_prefix(start, first_dice, seq![start], Seq::<Dice>::empty()),
{
    reveal(play_prefix);
}

/// One more legal move extends a play prefix, as long as the game was not
/// already over on the board it leaves.
pub proof fn lemma_prefix_extend(
    start: State,
    first_dice: Seq<Dice>,
    boards: Seq<State>,
    rolls: Seq<Dice>,
    d: Dice,
    q: State,
)
    requires
        play_prefix(start, first_dice, boards, rolls),
        dice_wf(d),
        rolls.len() < first_dice.len() ==> d == first_dice[rolls.len() as int],
        crate::moves::is_move_of(boards[boards.len() - 1], d, q),
        boards.len() == 1 || crate::position::game_state_spec(boards[boards.len() - 1])
            is Ongoing,
    ensures
        play_prefix(start, first_dice, boards.push(q), rolls.push(d)),
{
    reveal(play_prefix);
    let nb = boards.push(q);
    let nr = rolls.push(d);
    assert(nb[0] == boards[0]);
    assert forall|i: int| 0 <= i < nr.len() implies dice_wf(#[trigger] nr[i]) by {
        if i < rolls.len() {
            assert(nr[i] == rolls[i]);
        }
    }
    assert forall|i: int|
        0 <= i < nr.len() && i < first_dice.len() implies #[trigger] nr[i] == first_dice[i] by {
        if i < rolls.len() {
            assert(nr[i] == rolls[i]);
        }
    }
    assert forall|i: int| 0 <= i < nr.len() implies crate::moves::is_move_of(
        #[trigger] nb[i], nr[i], nb[i + 1]) by {
        if i < rolls.len() {
            assert(nb[i] == boards[i] && nr[i] == rolls[i] && nb[i + 1] == if i + 1
                < boards.len() {
                boards[i + 1]
            } else {
                q
            });
        } else {
            assert(nb[i] == boards[boards.len() - 1] && nr[i] == d && nb[i + 1] == q);
        }
    }
    assert forall|i: int|
        1 <= i < nb.len() - 1 implies crate::position::game_state_spec(#[trigger] nb[i])
            is Ongoing by {
        assert(nb[i] == boards[i]);
    }
}

/// A play prefix whose last board has the game over is a finished playout;
/// the recorded result absorbs the parity adjustment.
pub proof fn lemma_prefix_finish(
    start: State,
    first_dice: Seq<Dice>,
    boards: Seq<State>,
    rolls: Seq<Dice>,
    raw: GameResult,
    res: GameResult,
    phase: int,
)
    requires
        play_prefix(start, first_dice, boards, rolls),
        boards.len() >= 2,
        crate::position::game_state_spec(boards[boards.len() - 1]) == GameState::GameOver(raw),
        raw == if (rolls.len() - 1 + phase) % 2 == 0 {
            crate::position::reverse_spec(res)
        } else {
            res
        },
    ensures
        playout_result(start, first_dice, boards, rolls, res, phase),
{
    reveal(play_prefix);
    reveal(playout_result);
}

/// Forgetting the script keeps a play prefix a play prefix.
pub proof fn lemma_prefix_forget(
    start: State,
    first_dice: Seq<Dice>,
    boards: Seq<State>,
    rolls: Seq<Dice>,
)
    requires
        play_prefix(start, first_dice, boards, rolls),
    ensures
        play_prefix(start, Seq::<Dice>::empty(), boards, rolls),
{
    reveal(play_prefix);
}

/// Some legal game from `start` outlasts the engine's enormous turn budget:
/// the escape hatch of the game-playing loops, which cannot run forever.
pub open spec fn endless_game(start: State) -> bool {
    exists|boards: Seq<State>, rolls: Seq<Dice>|
        #[trigger] play_prefix(start, Seq::empty(), boards, rolls) && boards.len()
            > 18446744073709551615
}

/// What one counted rollout game may be: the parity-adjusted outcome of a
/// legal playout whose first two rolls are the given pair, unless some legal
/// game from the position outlasts the engine's turn budget.
pub open spec fn rollout_outcome(pos: State, pair: (Dice, Dice), res: GameResult) -> bool {
    ({
        let opening = seq![pair.0, pair.1];
        exists|boards: Seq<State>, rolls: Seq<Dice>|
            #[trigger] playout_result(pos, opening, boards, rolls, res, 0)
    }) || endless_game(pos)
}

/// Estimates a position by playing it out: the first two half-plies fan out
/// over all 1296 ordered dice pairs, the rest of each game is random.
pub struct RolloutEvaluator<E: PartialEvaluator> {
    pub evaluator: E,
}

impl RolloutEvaluator<RandomEvaluator> {
    /// A rollout around the random baseline.
    pub fn new_random() -> RolloutEvaluator<RandomEvaluator> {
        RolloutEvaluator { evaluator: RandomEvaluator::new() }
    }
}

impl<E: PartialEvaluator> RolloutEvaluator<E> {
    pub fn with_evaluator(evaluator: E) -> RolloutEvaluator<E> {
        RolloutEvaluator { evaluator }
    }

    /// Plays one game to the end. The dice for the first moves come from
    /// `first_dice`; after that they come from `dice_gen`. The result is the
    /// parity-adjusted outcome of a legal playout, read from the perspective
    /// of the side to move in `from`; only a game outlasting an enormous
    /// turn budget escapes that claim.
    pub fn single_rollout<U: DiceGen>(
        &self,
        from: &State,
        first_dice: &[Dice],
        dice_gen: &mut U,
    ) -> (r: GameResult)
        requires
            from.wf(),
            forall|k: int| 0 <= k < first_dice@.len() ==> dice_wf(#[trigger] first_dice@[k]),
        ensures
            (exists|boards: Seq<State>, rolls: Seq<Dice>|
                #[trigger] playout_result(*from, first_dice@, boards, rolls, r, 0))
                || endless_game(*from),
    {
        let mut iteration: u64 = 0;
        let mut pos = *from;
        let ghost mut boards: Seq<State> = seq![*from];
        let ghost mut rolls: Seq<Dice> = Seq::empty();
        proof {
            lemma_prefix_start(*from, first_dice@);
        }
        loop
            invariant
                from.wf(),
                pos.wf(),
                forall|k: int| 0 <= k < first_dice@.len() ==> dice_wf(#[trigger] first_dice@[k]),
                boards.len() == iteration + 1,
                rolls.len() == iteration,
                boards[boards.len() - 1] == pos,
                play_prefix(*from, first_dice@, boards, rolls),
                iteration >= 1 ==> crate::position::game_state_spec(pos) is Ongoing,
            decreases 18446744073709551615u64 - iteration,
        {
            let dice = if iteration < first_dice.len() as u64 {
                first_dice[iteration as usize]
            } else {
                dice_gen.roll()
            };
            pos = self.evaluator.best_position(&pos, &dice);
            proof {
                lemma_prefix_extend(*from, first_dice@, boards, rolls, dice, pos);
                rolls = rolls.push(dice);
                boards = boards.push(pos);
            }
            match pos.game_state() {
                GameState::Ongoing => {
                    if iteration == 18446744073709551615u64 {
                        // No game lasts this long; what it would mean is
                        // recorded, and the books close as a plain loss.
                        proof {
                            lemma_prefix_forget(*from, first_dice@, boards, rolls);
                            assert(boards.len() > 18446744073709551615);
                        }
                        return GameResult::LoseNormal;
                    }
                    iteration = iteration + 1;
                },
                GameState::GameOver(result) => {
                    let r = if iteration % 2 == 0 {
                        result.reverse()
                    } else {
                        result
                    };
                    proof {
                        crate::position::lemma_reverse_involution(result);
                        lemma_prefix_finish(
                            *from, first_dice@, boards, rolls, result, r, 0);
                    }
                    return r;
                },
            }
        }
    }

    /// Rolls the position out 1296 times, once per ordered pair of first
    /// rolls, and counts the outcomes: the counter is the exact tally of
    /// 1296 games, game `i` a legal playout opened by pair `i` of the fixed
    /// table.
    #[verifier::rlimit(100)]
    pub fn rollout_counts(&self, pos: &State) -> (r: ResultCounter)
        requires
            pos.wf(),
        ensures
            counter_total(r) == 1296,
            exists|results: Seq<GameResult>|
                #[trigger] counts_match(r, results) && results.len() == 1296 && forall|i: int|
                    0 <= i < 1296 ==> rollout_outcome(
                        *pos, crate::dice::pair1296(i), #[trigger] results[i]),
    {
        let pairs = all_1296();
        let mut counter = ResultCounter::empty();
        let ghost mut results: Seq<GameResult> = Seq::empty();
        let mut k: usize = 0;
        while k < 1296
            invariant
                pos.wf(),
                pairs@.len() == 1296,
                forall|k2: int| 0 <= k2 < 1296 ==> #[trigger] pairs@[k2]
                    == crate::dice::pair1296(k2),
                forall|k2: int|
                    0 <= k2 < 1296 ==> dice_wf((#[trigger] pairs@[k2]).0) && dice_wf(
                        pairs@[k2].1),
                0 <= k <= 1296,
                counter_total(counter) == k,
                results.len() == k,
                counts_match(counter, results),
                forall|i: int|
                    0 <= i < k ==> rollout_outcome(
                        *pos, crate::dice::pair1296(i), #[trigger] results[i]),
            decreases 1296 - k,
        {
            let pair = pairs[k];
            let first: [Dice; 2] = [pair.0, pair.1];
            let mut dice_gen = FastrandDice::new();
            let result = self.single_rollout(pos, &first, &mut dice_gen);
            proof {
                assert(first@ =~= seq![pair.0, pair.1]);
                assert(rollout_outcome(*pos, crate::dice::pair1296(k as int), result));
            }
            counter.add(result);
            proof {
                let ghost old_results = results;
                results = results.push(result);
                assert forall|j: int| 0 <= j < 6 implies #[trigger] counter.results@[j]
                    == count_res(results, j) by {
                    lemma_count_res_push(old_results, result, j);
                }
            }
            k = k + 1;
        }
        counter
    }
}

} // verus!

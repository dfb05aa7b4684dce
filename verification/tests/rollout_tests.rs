use staffa::dice::{Dice, DiceGenMock, FastrandDice};
use staffa::evaluator::{PartialEvaluator, RandomEvaluator, RolloutEvaluator};
use staffa::position::{GameResult, State};
use staffa::probabilities::ResultCounter;
use staffa::duel::Duel;

fn bpos(xs: &[(usize, i8)], os: &[(usize, i8)]) -> State {
    let mut pips = [0i8; 26];
    let mut x_sum: i8 = 0;
    let mut o_sum: i8 = 0;
    for &(p, c) in xs {
        pips[p] = c;
        x_sum += c;
    }
    for &(p, c) in os {
        pips[p] = -c;
        o_sum += c;
    }
    State {
        pips,
        x_off: (15 - x_sum) as u8,
        o_off: (15 - o_sum) as u8,
    }
}

#[test]
fn correct_results_after_first_or_second_half_move() {
    let rollout_eval = RolloutEvaluator::new_random();
    let pos = bpos(&[(6, 1)], &[(19, 1)]);

    // From this position both players are only 6 pips (2 moves) away from
    // finishing, so every game's outcome is fixed by its first two rolls:
    // the mover wins 1053 of the 1296 games and loses 243, whatever the
    // dice afterwards.
    let results = rollout_eval.rollout_counts(&pos);
    assert_eq!(results.sum(), 1296);
    assert_eq!(results.num_of(GameResult::WinNormal), 1053);
    assert_eq!(results.num_of(GameResult::LoseNormal), 243);
}

#[test]
fn rollout_always_lose_gammon() {
    let rollout_eval = RolloutEvaluator::new_random();
    let pos = bpos(&[(17, 15)], &[(24, 8)]);

    let results = rollout_eval.rollout_counts(&pos);
    assert_eq!(results.num_of(GameResult::LoseGammon), 1296);
}

#[test]
fn rollout_always_win_bg() {
    let rollout_eval = RolloutEvaluator::new_random();
    let pos = bpos(&[(1, 8)], &[(2, 15)]);

    let results = rollout_eval.rollout_counts(&pos);
    assert_eq!(results.num_of(GameResult::WinBackgammon), 1296);
}

#[test]
fn single_rollout_win_normal() {
    // Given
    let rollout_eval = RolloutEvaluator::new_random();
    let pos = bpos(&[(12, 1)], &[(13, 1)]);
    // When
    let mut dice_gen = DiceGenMock::new(&[Dice::new(2, 1), Dice::new(2, 1)]);
    let result = rollout_eval.single_rollout(&pos, &[Dice::new(4, 5)], &mut dice_gen);
    // Then
    assert!(dice_gen.assert_all_dice_were_used());
    assert_eq!(result, GameResult::WinNormal);
}

#[test]
fn single_rollout_lose_normal() {
    // Given
    let rollout_eval = RolloutEvaluator::new_random();
    let pos = bpos(&[(12, 1)], &[(13, 1)]);
    // When
    let mut dice_gen = DiceGenMock::new(&[Dice::new(2, 1), Dice::new(2, 1)]);
    let result =
        rollout_eval.single_rollout(&pos, &[Dice::new(1, 2), Dice::new(4, 5)], &mut dice_gen);
    // Then
    assert!(dice_gen.assert_all_dice_were_used());
    assert_eq!(result, GameResult::LoseNormal);
}

#[test]
fn single_rollout_win_gammon() {
    let rollout_eval = RolloutEvaluator::new_random();
    let pos = bpos(&[(1, 4)], &[(12, 15)]);
    let result = rollout_eval.single_rollout(&pos, &[Dice::new(2, 2)], &mut FastrandDice::new());
    assert_eq!(result, GameResult::WinGammon);
}

#[test]
fn single_rollout_lose_gammon() {
    let rollout_eval = RolloutEvaluator::new_random();
    let pos = bpos(&[(12, 15)], &[(24, 1)]);
    let result = rollout_eval.single_rollout(
        &pos,
        &[Dice::new(2, 1), Dice::new(3, 3)],
        &mut FastrandDice::new(),
    );
    assert_eq!(result, GameResult::LoseGammon);
}

#[test]
fn single_rollout_win_bg() {
    let rollout_eval = RolloutEvaluator::new_random();
    let pos = bpos(&[(24, 1)], &[(1, 15)]);
    let result = rollout_eval.single_rollout(&pos, &[Dice::new(6, 6)], &mut FastrandDice::new());
    assert_eq!(result, GameResult::WinBackgammon);
}

#[test]
fn single_rollout_lose_bg() {
    let rollout_eval = RolloutEvaluator::new_random();
    let pos = bpos(&[(24, 15)], &[(1, 1)]);
    let result = rollout_eval.single_rollout(
        &pos,
        &[Dice::new(1, 2), Dice::new(6, 6)],
        &mut FastrandDice::new(),
    );
    assert_eq!(result, GameResult::LoseBackgammon);
}

#[test]
fn counter_arithmetic() {
    let mut counter = ResultCounter::new(1, 2, 3, 4, 5, 6);
    assert_eq!(counter.sum(), 21);
    assert_eq!(counter.num_of(GameResult::WinNormal), 1);
    assert_eq!(counter.num_of(GameResult::LoseBackgammon), 6);
    counter.add(GameResult::WinGammon);
    assert_eq!(counter.num_of(GameResult::WinGammon), 3);
    counter.add_results(GameResult::WinBackgammon, 10);
    assert_eq!(counter.num_of(GameResult::WinBackgammon), 13);
    let other = ResultCounter::new(1, 1, 1, 1, 1, 1);
    let combined = counter.combine(&other);
    assert_eq!(combined.sum(), 21 + 1 + 10 + 6);
    let reversed = ResultCounter::new(1, 2, 3, 4, 5, 6).reversed();
    assert_eq!(reversed.num_of(GameResult::WinNormal), 4);
    assert_eq!(reversed.num_of(GameResult::LoseNormal), 1);
    assert_eq!(reversed.num_of(GameResult::WinBackgammon), 6);
}

fn equity_numerator_of(c: &ResultCounter) -> i64 {
    let wn = c.num_of(GameResult::WinNormal) as i64;
    let wg = c.num_of(GameResult::WinGammon) as i64;
    let wb = c.num_of(GameResult::WinBackgammon) as i64;
    let ln = c.num_of(GameResult::LoseNormal) as i64;
    let lg = c.num_of(GameResult::LoseGammon) as i64;
    let lb = c.num_of(GameResult::LoseBackgammon) as i64;
    (wn - ln) + 2 * (wg - lg) + 3 * (wb - lb)
}

#[test]
fn equity_stays_within_three_games() {
    let counter = ResultCounter::new(7, 2, 9, 4, 0, 11);
    let numerator = equity_numerator_of(&counter);
    let total = counter.sum() as i64;
    assert!(-3 * total <= numerator && numerator <= 3 * total);
    let all_bg_wins = ResultCounter::new(0, 0, 5, 0, 0, 0);
    assert_eq!(equity_numerator_of(&all_bg_wins), 15);
}

#[test]
fn reversal_negates_equity() {
    let counter = ResultCounter::new(7, 2, 9, 4, 0, 11);
    assert_eq!(
        equity_numerator_of(&counter.reversed()),
        -equity_numerator_of(&counter)
    );
    assert_eq!(counter.reversed().sum(), counter.sum());
}

#[test]
fn best_position_is_legal() {
    let evaluator = RandomEvaluator::new();
    let start = State::new();
    let dice = Dice::new(3, 1);
    let chosen = evaluator.best_position(&start, &dice);
    let choices = start.possible_positions(&dice);
    assert!(choices.contains(&chosen));
}

#[test]
fn duel_counts_two_games() {
    let duel = Duel::new(RandomEvaluator::new(), RandomEvaluator::new());
    let mut dice_gen = FastrandDice::with_seed(42);
    let outcome = duel.duel(&State::new(), &mut dice_gen);
    assert_eq!(outcome.sum(), 2);
    let mut total = ResultCounter::empty();
    for seed in 0..10u64 {
        let mut dice_gen = FastrandDice::with_seed(seed);
        total = total.combine(&duel.duel(&State::new(), &mut dice_gen));
    }
    assert_eq!(total.sum(), 20);
}

#[test]
fn duel_plays_the_hypergammon_variant_too() {
    let duel = Duel::new(RandomEvaluator::new(), RandomEvaluator::new());
    let mut dice_gen = FastrandDice::with_seed(7);
    let outcome = duel.duel(&State::hypergammon_new(), &mut dice_gen);
    assert_eq!(outcome.sum(), 2);
}

//! Counting game results. The six-outcome probability distribution itself is
//! floating-point arithmetic and lives with the callers; what is verified
//! here is the exact integer bookkeeping underneath it: the counters, their
//! combination, and the equity numerator with its bounds.

use vstd::prelude::*;
use crate::position::GameResult;

verus! {

/// The slot a result is counted in.
pub open spec fn result_index(r: GameResult) -> int {
    match r {
        GameResult::WinNormal => 0,
        GameResult::WinGammon => 1,
        GameResult::WinBackgammon => 2,
        GameResult::LoseNormal => 3,
        GameResult::LoseGammon => 4,
        GameResult::LoseBackgammon => 5,
    }
}

/// One counter per game result, in the order of `result_index`.
#[derive(Clone, Copy, Debug, PartialEq, Eq, Hash)]
pub struct ResultCounter {
    pub results: [u32; 6],
}

/// How many games a counter has seen.
pub open spec fn counter_total(c: ResultCounter) -> int {
    c.results@[0] + c.results@[1] + c.results@[2] + c.results@[3] + c.results@[4] + c.results@[5]
}

/// The numerator of the cubeless equity over `counter_total` games: wins
/// minus losses, gammons doubled, backgammons tripled.
pub open spec fn equity_numerator(c: ResultCounter) -> int {
    (c.results@[0] - c.results@[3]) + 2 * (c.results@[1] - c.results@[4]) + 3 * (c.results@[2]
        - c.results@[5])
}

/// How many of the results landed in slot `j`.
pub open spec fn count_res(results: Seq<GameResult>, j: int) -> int
    decreases results.len(),
{
    if results.len() == 0 {
        0
    } else {
        count_res(results.drop_last(), j) + if result_index(results.last()) == j {
            1int
        } else {
            0int
        }
    }
}

/// The counter is the exact tally of the results.
pub open spec fn counts_match(c: ResultCounter, results: Seq<GameResult>) -> bool {
    forall|j: int| 0 <= j < 6 ==> #[trigger] c.results@[j] == count_res(results, j)
}

/// Tallying one more result raises its slot alone.
pub proof fn lemma_count_res_push(results: Seq<GameResult>, res: GameResult, j: int)
    ensures
        count_res(results.push(res), j) == count_res(results, j) + if result_index(res) == j {
            1int
        } else {
            0int
        },
{
    assert(results.push(res).drop_last() =~= results);
    assert(results.push(res).last() == res);
}

/// The same results seen from the other player: wins and losses exchanged.
pub open spec fn counter_reversed(c: ResultCounter) -> ResultCounter {
    ResultCounter {
        results: [
            c.results@[3],
            c.results@[4],
            c.results@[5],
            c.results@[0],
            c.results@[1],
            c.results@[2],
        ],
    }
}

impl ResultCounter {
    /// A counter with the six counts given, wins first.
    pub fn new(
        win_normal: u32,
        win_gammon: u32,
        win_bg: u32,
        lose_normal: u32,
        lose_gammon: u32,
        lose_bg: u32,
    ) -> (r: ResultCounter)
        ensures
            r.results@ =~= seq![win_normal, win_gammon, win_bg, lose_normal, lose_gammon, lose_bg],
    {
        ResultCounter {
            results: [win_normal, win_gammon, win_bg, lose_normal, lose_gammon, lose_bg],
        }
    }

    /// A counter that has seen nothing.
    pub fn empty() -> (r: ResultCounter)
        ensures
            r.results@ =~= seq![0u32, 0u32, 0u32, 0u32, 0u32, 0u32],
            counter_total(r) == 0,
    {
        ResultCounter { results: [0, 0, 0, 0, 0, 0] }
    }

    /// Counts one more game with the given result.
    pub fn add(&mut self, result: GameResult)
        requires
            counter_total(*old(self)) < 4294967295,
        ensures
            final(self).results@ =~= old(self).results@.update(
                result_index(result), (old(self).results@[result_index(result)] + 1) as u32),
            counter_total(*final(self)) == counter_total(*old(self)) + 1,
    {
        let i: usize = match result {
            GameResult::WinNormal => 0,
            GameResult::WinGammon => 1,
            GameResult::WinBackgammon => 2,
            GameResult::LoseNormal => 3,
            GameResult::LoseGammon => 4,
            GameResult::LoseBackgammon => 5,
        };
        let v = self.results[i];
        self.results[i] = v + 1;
    }

    /// Counts `amount` games that all ended with the given result.
    pub fn add_results(&mut self, result: GameResult, amount: u32)
        requires
            counter_total(*old(self)) + amount < 4294967296,
        ensures
            counter_total(*final(self)) == counter_total(*old(self)) + amount,
            final(self).results@ =~= old(self).results@.update(
                result_index(result),
                (old(self).results@[result_index(result)] + amount) as u32),
    {
        let i: usize = match result {
            GameResult::WinNormal => 0,
            GameResult::WinGammon => 1,
            GameResult::WinBackgammon => 2,
            GameResult::LoseNormal => 3,
            GameResult::LoseGammon => 4,
            GameResult::LoseBackgammon => 5,
        };
        let v = self.results[i];
        self.results[i] = v + amount;
    }

    /// How many games the counter has seen.
    pub fn sum(&self) -> (r: u32)
        requires
            counter_total(*self) < 4294967296,
        ensures
            r == counter_total(*self),
    {
        self.results[0] + self.results[1] + self.results[2] + self.results[3] + self.results[4]
            + self.results[5]
    }

    /// How many games ended with the given result.
    pub fn num_of(&self, result: GameResult) -> (r: u32)
        ensures
            r == self.results@[result_index(result)],
    {
        let i: usize = match result {
            GameResult::WinNormal => 0,
            GameResult::WinGammon => 1,
            GameResult::WinBackgammon => 2,
            GameResult::LoseNormal => 3,
            GameResult::LoseGammon => 4,
            GameResult::LoseBackgammon => 5,
        };
        self.results[i]
    }

    /// Merges two counters; the result counts every game both have seen.
    pub fn combine(self, counter: &ResultCounter) -> (r: ResultCounter)
        requires
            counter_total(self) + counter_total(*counter) < 4294967296,
        ensures
            forall|i: int|
                0 <= i < 6 ==> #[trigger] r.results@[i] == self.results@[i]
                    + counter.results@[i],
            counter_total(r) == counter_total(self) + counter_total(*counter),
    {
        ResultCounter {
            results: [
                self.results[0] + counter.results[0],
                self.results[1] + counter.results[1],
                self.results[2] + counter.results[2],
                self.results[3] + counter.results[3],
                self.results[4] + counter.results[4],
                self.results[5] + counter.results[5],
            ],
        }
    }

    /// The counter seen from the other player.
    pub fn reversed(&self) -> (r: ResultCounter)
        ensures
            r == counter_reversed(*self),
    {
        let r = ResultCounter {
            results: [
                self.results[3],
                self.results[4],
                self.results[5],
                self.results[0],
                self.results[1],
                self.results[2],
            ],
        };
        proof {
            assert(r.results =~= counter_reversed(*self).results);
        }
        r
    }
}

/// Equity bounds: over any counted results the equity numerator lies within
/// plus and minus three games' worth, so the equity itself lies in the
/// interval from -3 to 3 once divided by the number of games.
pub proof fn lemma_equity_bounds(c: ResultCounter)
    ensures
        -3 * counter_total(c) <= equity_numerator(c),
        equity_numerator(c) <= 3 * counter_total(c),
{
}

/// Duel symmetry, counted exactly: swapping the two players reverses every
/// recorded result, and reversing a counter negates its equity numerator.
pub proof fn lemma_reversal_negates_equity(c: ResultCounter)
    ensures
        equity_numerator(counter_reversed(c)) == -equity_numerator(c),
        counter_total(counter_reversed(c)) == counter_total(c),
{
}

} // verus!

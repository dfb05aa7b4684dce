//! The board model: a backgammon position from the side-to-move's view.
//!
//! `pips[1]` through `pips[24]` are the points, numbered from the on-roll
//! player's home board. A positive entry is that many checkers of the player
//! on roll (`x`), a negative entry that many checkers of the opponent (`o`).
//! `pips[25]` is `x`'s bar (never negative), `pips[0]` is `o`'s bar (never
//! positive). Checkers borne off are counted in `x_off` and `o_off`.

use vstd::prelude::*;

verus! {

/// Index of the bar for the player on roll.
pub const X_BAR: usize = 25;
/// Index of the bar for the opponent.
pub const O_BAR: usize = 0;

/// Outcome of a finished game, from the side-to-move's point of view.
#[derive(Clone, Copy, Debug, PartialEq, Eq, Hash, Structural)]
pub enum GameResult {
    WinNormal,
    WinGammon,
    WinBackgammon,
    LoseNormal,
    LoseGammon,
    LoseBackgammon,
}

/// Whether a game is still running, and if not, how it ended.
#[derive(Clone, Copy, Debug, PartialEq, Eq, Hash, Structural)]
pub enum GameState {
    Ongoing,
    GameOver(GameResult),
}

/// What `reverse` returns: wins become losses of the same size and vice versa.
pub open spec fn reverse_spec(r: GameResult) -> GameResult {
    match r {
        GameResult::WinNormal => GameResult::LoseNormal,
        GameResult::WinGammon => GameResult::LoseGammon,
        GameResult::WinBackgammon => GameResult::LoseBackgammon,
        GameResult::LoseNormal => GameResult::WinNormal,
        GameResult::LoseGammon => GameResult::WinGammon,
        GameResult::LoseBackgammon => GameResult::WinBackgammon,
    }
}

impl GameResult {
    /// The same outcome seen from the other player.
    pub fn reverse(&self) -> (r: GameResult)
        ensures
            r == reverse_spec(*self),
    {
        match self {
            GameResult::WinNormal => GameResult::LoseNormal,
            GameResult::WinGammon => GameResult::LoseGammon,
            GameResult::WinBackgammon => GameResult::LoseBackgammon,
            GameResult::LoseNormal => GameResult::WinNormal,
            GameResult::LoseGammon => GameResult::WinGammon,
            GameResult::LoseBackgammon => GameResult::WinBackgammon,
        }
    }

    pub fn is_win(&self) -> (r: bool)
        ensures
            r == (*self == GameResult::WinNormal || *self == GameResult::WinGammon
                || *self == GameResult::WinBackgammon),
    {
        match self {
            GameResult::WinNormal | GameResult::WinGammon | GameResult::WinBackgammon => true,
            _ => false,
        }
    }
}

/// Reversing twice gives the result back.
pub proof fn lemma_reverse_involution(r: GameResult)
    ensures
        reverse_spec(reverse_spec(r)) == r,
{
}

/// A single position in backgammon without match information.
/// We assume two players `x` (on roll) and `o`.
#[derive(Clone, Copy, Debug, PartialEq, Eq, Hash)]
pub struct State {
    /// Points 1 to 24 plus the two bars at indices 25 (`x`) and 0 (`o`).
    pub pips: [i8; 26],
    /// Checkers `x` has borne off.
    pub x_off: u8,
    /// Checkers `o` has borne off.
    pub o_off: u8,
}

/// Checkers of `x` on pips `[0, n)`, bar included once `n` passes 25.
pub open spec fn x_sum(pips: Seq<i8>, n: int) -> int
    decreases n,
{
    if n <= 0 {
        0
    } else {
        x_sum(pips, n - 1) + if pips[n - 1] > 0 {
            pips[n - 1] as int
        } else {
            0
        }
    }
}

/// Checkers of `o` on pips `[0, n)`, bar included from index 0 on.
pub open spec fn o_sum(pips: Seq<i8>, n: int) -> int
    decreases n,
{
    if n <= 0 {
        0
    } else {
        o_sum(pips, n - 1) + if pips[n - 1] < 0 {
            -(pips[n - 1] as int)
        } else {
            0
        }
    }
}

impl State {
    /// Checkers of `x` on the board or the bar.
    pub open spec fn x_count(self) -> int {
        x_sum(self.pips@, 26)
    }

    /// Checkers of `o` on the board or the bar.
    pub open spec fn o_count(self) -> int {
        o_sum(self.pips@, 26)
    }

    /// All checkers of `x`: on the board, on the bar or borne off.
    pub open spec fn x_total(self) -> int {
        self.x_count() + self.x_off as int
    }

    /// All checkers of `o`: on the board, on the bar or borne off.
    pub open spec fn o_total(self) -> int {
        self.o_count() + self.o_off as int
    }

    /// The invariant every position of this crate satisfies: bars carry the
    /// right sign and neither side owns more than fifteen checkers.
    pub open spec fn wf(self) -> bool {
        &&& self.pips@[25] >= 0
        &&& self.pips@[0] <= 0
        &&& self.x_total() <= 15
        &&& self.o_total() <= 15
        &&& forall|i: int| 0 <= i < 26 ==> -15 <= #[trigger] self.pips@[i] <= 15
    }
}

/// Every prefix sum is at most the full sum.
pub proof fn lemma_x_sum_monotone(pips: Seq<i8>, m: int, n: int)
    requires
        0 <= m <= n,
    ensures
        x_sum(pips, m) <= x_sum(pips, n),
    decreases n,
{
    if n > m {
        lemma_x_sum_monotone(pips, m, n - 1);
    }
}

/// Every prefix sum is at most the full sum.
pub proof fn lemma_o_sum_monotone(pips: Seq<i8>, m: int, n: int)
    requires
        0 <= m <= n,
    ensures
        o_sum(pips, m) <= o_sum(pips, n),
    decreases n,
{
    if n > m {
        lemma_o_sum_monotone(pips, m, n - 1);
    }
}

/// Sums only read the entries below `n`.
pub proof fn lemma_x_sum_congruent(a: Seq<i8>, b: Seq<i8>, n: int)
    requires
        forall|i: int| 0 <= i < n ==> a[i] == b[i],
    ensures
        x_sum(a, n) == x_sum(b, n),
    decreases n,
{
    if n > 0 {
        lemma_x_sum_congruent(a, b, n - 1);
    }
}

/// Sums only read the entries below `n`.
pub proof fn lemma_o_sum_congruent(a: Seq<i8>, b: Seq<i8>, n: int)
    requires
        forall|i: int| 0 <= i < n ==> a[i] == b[i],
    ensures
        o_sum(a, n) == o_sum(b, n),
    decreases n,
{
    if n > 0 {
        lemma_o_sum_congruent(a, b, n - 1);
    }
}

/// Changing one entry changes the sum by the checkers added or removed there.
pub proof fn lemma_x_sum_update(pips: Seq<i8>, n: int, i: int, v: i8)
    requires
        0 <= i < n <= pips.len(),
    ensures
        x_sum(pips.update(i, v), n) == x_sum(pips, n) - (if pips[i] > 0 { pips[i] as int } else { 0 })
            + (if v > 0 { v as int } else { 0 }),
    decreases n,
{
    let updated = pips.update(i, v);
    if n - 1 == i {
        lemma_x_sum_congruent(updated, pips, n - 1);
    } else {
        lemma_x_sum_update(pips, n - 1, i, v);
    }
}

/// Changing one entry changes the sum by the checkers added or removed there.
pub proof fn lemma_o_sum_update(pips: Seq<i8>, n: int, i: int, v: i8)
    requires
        0 <= i < n <= pips.len(),
    ensures
        o_sum(pips.update(i, v), n) == o_sum(pips, n) - (if pips[i] < 0 { -(pips[i] as int) } else { 0 })
            + (if v < 0 { -(v as int) } else { 0 }),
    decreases n,
{
    let updated = pips.update(i, v);
    if n - 1 == i {
        lemma_o_sum_congruent(updated, pips, n - 1);
    } else {
        lemma_o_sum_update(pips, n - 1, i, v);
    }
}

} // verus!

verus! {

/// The backgammon starting position: checkers on 24, 13, 8 and 6 for each
/// side, fifteen checkers per player.
pub open spec fn start_state() -> State {
    State {
        pips: [
            0i8, -2i8, 0i8, 0i8, 0i8, 0i8, 5i8, 0i8, 3i8, 0i8, 0i8, 0i8, -5i8, 5i8, 0i8, 0i8, 0i8, -3i8, 0i8, -5i8, 0i8, 0i8, 0i8, 0i8, 2i8, 0i8,
        ],
        x_off: 0,
        o_off: 0,
    }
}

/// The hypergammon starting position: three checkers per side on the three
/// rearmost points.
pub open spec fn hypergammon_state() -> State {
    State {
        pips: [
            0i8, -1i8, -1i8, -1i8, 0i8, 0i8, 0i8, 0i8, 0i8, 0i8, 0i8, 0i8, 0i8, 0i8, 0i8, 0i8, 0i8, 0i8, 0i8, 0i8, 0i8, 0i8, 1i8, 1i8, 1i8, 0i8,
        ],
        x_off: 0,
        o_off: 0,
    }
}

/// `q` is `p` with the players swapped: point order reversed, counts negated,
/// bars and borne-off counts exchanged.
pub open spec fn is_flip_of(q: State, p: State) -> bool {
    &&& forall|i: int| 0 <= i < 26 ==> q.pips@[i] == -p.pips@[25 - i]
    &&& q.x_off == p.o_off
    &&& q.o_off == p.x_off
}

/// How a finished game is scored for the winner `x`: normal if the loser has
/// borne off, backgammon if the loser still has a checker on the bar or in
/// the winner's home board, gammon otherwise.
pub open spec fn game_state_spec(s: State) -> GameState {
    if s.x_count() == 0 {
        GameState::GameOver(
            if s.o_off > 0 {
                GameResult::WinNormal
            } else if s.pips@[0] < 0 || exists|i: int| 1 <= i <= 6 && s.pips@[i] < 0 {
                GameResult::WinBackgammon
            } else {
                GameResult::WinGammon
            },
        )
    } else if s.o_count() == 0 {
        GameState::GameOver(
            if s.x_off > 0 {
                GameResult::LoseNormal
            } else if s.pips@[25] > 0 || exists|i: int| 19 <= i <= 24 && s.pips@[i] > 0 {
                GameResult::LoseBackgammon
            } else {
                GameResult::LoseGammon
            },
        )
    } else {
        GameState::Ongoing
    }
}

impl State {
    /// The backgammon starting position.
    pub fn new() -> (r: State)
        ensures
            r == start_state(),
            r.wf(),
            r.x_total() == 15,
            r.o_total() == 15,
    {
        let r = State {
            pips: [
                0i8, -2i8, 0i8, 0i8, 0i8, 0i8, 5i8, 0i8, 3i8, 0i8, 0i8, 0i8, -5i8, 5i8, 0i8, 0i8, 0i8, -3i8, 0i8, -5i8, 0i8, 0i8, 0i8, 0i8, 2i8, 0i8,
            ],
            x_off: 0,
            o_off: 0,
        };
        proof {
            lemma_start_wf();
        }
        r
    }

    /// The hypergammon starting position.
    pub fn hypergammon_new() -> (r: State)
        ensures
            r == hypergammon_state(),
            r.wf(),
            r.x_total() == 3,
            r.o_total() == 3,
    {
        let r = State {
            pips: [
                0i8, -1i8, -1i8, -1i8, 0i8, 0i8, 0i8, 0i8, 0i8, 0i8, 0i8, 0i8, 0i8, 0i8, 0i8, 0i8, 0i8, 0i8, 0i8, 0i8, 0i8, 0i8, 1i8, 1i8, 1i8, 0i8,
            ],
            x_off: 0,
            o_off: 0,
        };
        proof {
            lemma_hypergammon_wf();
        }
        r
    }

    /// Checkers on point `pip`: positive for `x`, negative for `o`.
    pub fn pip(&self, pip: usize) -> (r: i8)
        requires
            1 <= pip <= 24,
        ensures
            r == self.pips@[pip as int],
    {
        self.pips[pip]
    }

    /// Checkers of `x` on the bar.
    pub fn x_bar(&self) -> (r: u8)
        requires
            self.wf(),
        ensures
            r == self.pips@[25],
    {
        self.pips[X_BAR] as u8
    }

    /// Checkers of `o` on the bar, as a non-negative number.
    pub fn o_bar(&self) -> (r: u8)
        requires
            self.wf(),
        ensures
            r as int == -(self.pips@[0] as int),
    {
        (-self.pips[O_BAR]) as u8
    }

    /// Checkers `x` has borne off.
    pub fn x_off(&self) -> (r: u8)
        ensures
            r == self.x_off,
    {
        self.x_off
    }

    /// Checkers `o` has borne off.
    pub fn o_off(&self) -> (r: u8)
        ensures
            r == self.o_off,
    {
        self.o_off
    }

    /// The position with the players swapped; the former opponent is then on
    /// roll.
    pub fn flip(&self) -> (r: State)
        requires
            self.wf(),
        ensures
            is_flip_of(r, *self),
            r.wf(),
            r.x_total() == self.o_total(),
            r.o_total() == self.x_total(),
    {
        let mut pips: [i8; 26] = [0; 26];
        let mut i: usize = 0;
        while i < 26
            invariant
                self.wf(),
                0 <= i <= 26,
                pips@.len() == 26,
                forall|j: int| 0 <= j < i ==> pips@[j] == -self.pips@[25 - j],
            decreases 26 - i,
        {
            pips[i] = -self.pips[25 - i];
            i += 1;
        }
        let r = State { pips, x_off: self.o_off, o_off: self.x_off };
        proof {
            lemma_flip_sums(self.pips@, r.pips@, 26);
        }
        r
    }

    /// Checkers of `x` on the board or the bar, counted.
    pub fn count_x(&self) -> (r: u8)
        requires
            self.wf(),
        ensures
            r as int == self.x_count(),
    {
        let mut sum: u8 = 0;
        let mut i: usize = 0;
        while i < 26
            invariant
                self.wf(),
                0 <= i <= 26,
                sum as int == x_sum(self.pips@, i as int),
                sum <= 15,
            decreases 26 - i,
        {
            proof {
                lemma_x_sum_monotone(self.pips@, i + 1, 26);
            }
            if self.pips[i] > 0 {
                sum += self.pips[i] as u8;
            }
            i += 1;
        }
        sum
    }

    /// Checkers of `o` on the board or the bar, counted.
    pub fn count_o(&self) -> (r: u8)
        requires
            self.wf(),
        ensures
            r as int == self.o_count(),
    {
        let mut sum: u8 = 0;
        let mut i: usize = 0;
        while i < 26
            invariant
                self.wf(),
                0 <= i <= 26,
                sum as int == o_sum(self.pips@, i as int),
                sum <= 15,
            decreases 26 - i,
        {
            proof {
                lemma_o_sum_monotone(self.pips@, i + 1, 26);
            }
            if self.pips[i] < 0 {
                sum += (-self.pips[i]) as u8;
            }
            i += 1;
        }
        sum
    }

    /// Whether the game is over, and if so with which result for the side to
    /// move.
    pub fn game_state(&self) -> (r: GameState)
        requires
            self.wf(),
        ensures
            r == game_state_spec(*self),
    {
        if self.count_x() == 0 {
            if self.o_off > 0 {
                GameState::GameOver(GameResult::WinNormal)
            } else {
                let mut behind = self.pips[O_BAR] < 0;
                let mut i: usize = 1;
                while i <= 6
                    invariant
                        1 <= i <= 7,
                        behind == (self.pips@[0] < 0 || exists|j: int|
                            1 <= j < i && self.pips@[j] < 0),
                    decreases 7 - i,
                {
                    if self.pips[i] < 0 {
                        behind = true;
                    }
                    i += 1;
                }
                if behind {
                    GameState::GameOver(GameResult::WinBackgammon)
                } else {
                    GameState::GameOver(GameResult::WinGammon)
                }
            }
        } else if self.count_o() == 0 {
            if self.x_off > 0 {
                GameState::GameOver(GameResult::LoseNormal)
            } else {
                let mut behind = self.pips[X_BAR] > 0;
                let mut i: usize = 19;
                while i <= 24
                    invariant
                        19 <= i <= 25,
                        behind == (self.pips@[25] > 0 || exists|j: int|
                            19 <= j < i && self.pips@[j] > 0),
                    decreases 25 - i,
                {
                    if self.pips[i] > 0 {
                        behind = true;
                    }
                    i += 1;
                }
                if behind {
                    GameState::GameOver(GameResult::LoseBackgammon)
                } else {
                    GameState::GameOver(GameResult::LoseGammon)
                }
            }
        } else {
            GameState::Ongoing
        }
    }
}

/// The starting position satisfies the invariant with fifteen checkers a side.
pub proof fn lemma_start_wf()
    ensures
        start_state().wf(),
        start_state().x_total() == 15,
        start_state().o_total() == 15,
{
    reveal_with_fuel(x_sum, 27);
    reveal_with_fuel(o_sum, 27);
}

/// The hypergammon start satisfies the invariant with three checkers a side.
pub proof fn lemma_hypergammon_wf()
    ensures
        hypergammon_state().wf(),
        hypergammon_state().x_total() == 3,
        hypergammon_state().o_total() == 3,
{
    reveal_with_fuel(x_sum, 27);
    reveal_with_fuel(o_sum, 27);
}

/// Counting one side's checkers in a flipped board counts the other side's
/// checkers in the original: the first `n` entries of the flipped board mirror
/// the last `n` of the original.
pub proof fn lemma_flip_sums(a: Seq<i8>, b: Seq<i8>, n: int)
    requires
        a.len() == 26,
        b.len() == 26,
        forall|i: int| 0 <= i < 26 ==> b[i] == -a[25 - i],
        0 <= n <= 26,
    ensures
        x_sum(b, n) == o_sum(a, 26) - o_sum(a, 26 - n),
        o_sum(b, n) == x_sum(a, 26) - x_sum(a, 26 - n),
    decreases n,
{
    if n > 0 {
        lemma_flip_sums(a, b, n - 1);
    }
}

/// Flipping twice gives the position back.
///
/// `q` is the flip of `p` and `r` the flip of `q`, as the contract of `flip`
/// states them; then `r` is `p` itself.
pub proof fn lemma_flip_involution(p: State, q: State, r: State)
    requires
        is_flip_of(q, p),
        is_flip_of(r, q),
    ensures
        r == p,
{
    assert(r.pips@ =~= p.pips@);
    assert(r.pips =~= p.pips);
}

} // verus!

verus! {

/// A half-move, stored 0-based: `from` is 25 for the bar or a point index
/// 0 to 23; `to` is 24 for bearing off or a point index 0 to 23.
#[derive(Clone, Copy, Debug, PartialEq, Eq, Structural)]
pub struct Action {
    pub from: usize,
    pub to: usize,
}

/// The checkers of one side never fall below any single entry: an entry is at
/// most the side's count.
pub proof fn lemma_x_sum_nonneg(pips: Seq<i8>, n: int)
    ensures
        x_sum(pips, n) >= 0,
    decreases n,
{
    if n > 0 {
        lemma_x_sum_nonneg(pips, n - 1);
    }
}

pub proof fn lemma_o_sum_nonneg(pips: Seq<i8>, n: int)
    ensures
        o_sum(pips, n) >= 0,
    decreases n,
{
    if n > 0 {
        lemma_o_sum_nonneg(pips, n - 1);
    }
}

/// A positive entry is at most the whole count of `x`.
pub proof fn lemma_x_entry_le_sum(pips: Seq<i8>, i: int)
    requires
        0 <= i < 26,
        pips[i] > 0,
    ensures
        pips[i] as int <= x_sum(pips, 26),
{
    lemma_x_sum_nonneg(pips, i);
    lemma_x_sum_monotone(pips, i + 1, 26);
}

/// A negative entry is at least minus the whole count of `o`.
pub proof fn lemma_o_entry_le_sum(pips: Seq<i8>, i: int)
    requires
        0 <= i < 26,
        pips[i] < 0,
    ensures
        -(pips[i] as int) <= o_sum(pips, 26),
{
    lemma_o_sum_nonneg(pips, i);
    lemma_o_sum_monotone(pips, i + 1, 26);
}

/// The board slot an action moves from.
pub open spec fn from_slot(a: Action) -> int {
    if a.from == 25 {
        25
    } else {
        a.from + 1
    }
}

/// An action the side to move can take: it moves a checker of `x` from the
/// bar or a point, and lands off the board, on an open point, on an own
/// point, or on a single opposing checker (a hit).
pub open spec fn valid_action_spec(s: State, a: Action) -> bool {
    &&& (a.from == 25 || a.from < 24)
    &&& a.to <= 24
    &&& s.pips@[from_slot(a)] > 0
    &&& (a.to == 24 || s.pips@.update(from_slot(a), (s.pips@[from_slot(a)] - 1) as i8)[a.to + 1]
        >= -1)
}

/// The board after taking action `a` in state `s`: one checker of `x` leaves
/// `from`, arrives at `to` (or is borne off), and a lone opposing checker on
/// the landing point is sent to the opponent's bar.
pub open spec fn action_applied(r: State, s: State, a: Action) -> bool {
    let f = from_slot(a);
    let after_from = s.pips@.update(f, (s.pips@[f] - 1) as i8);
    if a.to == 24 {
        &&& r.pips@ =~= after_from
        &&& r.x_off == s.x_off + 1
        &&& r.o_off == s.o_off
    } else {
        let t = a.to + 1;
        &&& r.x_off == s.x_off
        &&& r.o_off == s.o_off
        &&& if after_from[t] == -1 {
            r.pips@ =~= after_from.update(t, 1i8).update(0, (after_from[0] - 1) as i8)
        } else {
            r.pips@ =~= after_from.update(t, (after_from[t] + 1) as i8)
        }
    }
}

impl Action {
    /// Builds a half-move from 1-based coordinates, as they are written in
    /// match notation: `26` is the bar, `25` bears off.
    pub fn new(from: usize, to: usize) -> (r: Action)
        requires
            from >= 1,
            to >= 1,
        ensures
            r.from == from - 1,
            r.to == to - 1,
    {
        Action { from: from - 1, to: to - 1 }
    }
}

impl State {
    /// Takes a half-move known to be valid.
    pub fn apply_action(&self, action: Action) -> (r: State)
        requires
            self.wf(),
            valid_action_spec(*self, action),
        ensures
            action_applied(r, *self, action),
            r.wf(),
            r.x_total() == self.x_total(),
            r.o_total() == self.o_total(),
    {
        let ghost s = *self;
        let mut pips = self.pips;
        let mut x_off = self.x_off;
        let mut o_off = self.o_off;
        let f: usize = if action.from == 25 {
            25
        } else {
            action.from + 1
        };
        proof {
            lemma_x_entry_le_sum(s.pips@, f as int);
            lemma_x_sum_update(s.pips@, 26, f as int, (s.pips@[f as int] - 1) as i8);
            lemma_o_sum_update(s.pips@, 26, f as int, (s.pips@[f as int] - 1) as i8);
        }
        pips[f] = pips[f] - 1;
        let ghost mid = pips@;
        if action.to == 24 {
            proof {
                lemma_x_sum_nonneg(s.pips@, 26);
            }
            x_off = x_off + 1;
        } else {
            let t = action.to + 1;
            if pips[t] == -1 {
                proof {
                    lemma_x_sum_update(mid, 26, t as int, 1i8);
                    lemma_o_sum_update(mid, 26, t as int, 1i8);
                    let after_hit = mid.update(t as int, 1i8);
                    lemma_x_sum_update(after_hit, 26, 0, (mid[0] - 1) as i8);
                    lemma_o_sum_update(after_hit, 26, 0, (mid[0] - 1) as i8);
                    lemma_o_entry_le_sum(after_hit.update(0, (mid[0] - 1) as i8), 0);
                }
                pips[t] = 1;
                pips[O_BAR] = pips[O_BAR] - 1;
            } else {
                proof {
                    lemma_x_sum_nonneg(mid, 26);
                    lemma_x_sum_update(mid, 26, t as int, (mid[t as int] + 1) as i8);
                    lemma_o_sum_update(mid, 26, t as int, (mid[t as int] + 1) as i8);
                    lemma_x_entry_le_sum(mid.update(t as int, (mid[t as int] + 1) as i8), t as int);
                }
                pips[t] = pips[t] + 1;
            }
        }
        State { pips, x_off, o_off }
    }

    /// Takes a half-move if it is legal to the extent `valid_action_spec`
    /// describes, and reports `InvalidMove` otherwise.
    pub fn try_apply_action(&self, action: Action) -> (r: Result<State, crate::Error>)
        requires
            self.wf(),
        ensures
            match r {
                Ok(next) => valid_action_spec(*self, action) && action_applied(next, *self, action)
                    && next.wf() && next.x_total() == self.x_total() && next.o_total()
                    == self.o_total(),
                Err(e) => e == crate::Error::InvalidMove && !valid_action_spec(*self, action),
            },
    {
        if !(action.from == 25 || action.from < 24) {
            return Err(crate::Error::InvalidMove);
        }
        if action.to > 24 {
            return Err(crate::Error::InvalidMove);
        }
        let f: usize = if action.from == 25 {
            25
        } else {
            action.from + 1
        };
        if self.pips[f] <= 0 {
            return Err(crate::Error::InvalidMove);
        }
        if action.to < 24 {
            let t = action.to + 1;
            let landing = if t == f {
                self.pips[t] - 1
            } else {
                self.pips[t]
            };
            if landing < -1 {
                return Err(crate::Error::InvalidMove);
            }
        }
        Ok(self.apply_action(action))
    }
}

} // verus!

verus! {

/// A decimal digit.
pub open spec fn is_digit(c: char) -> bool {
    48 <= c as int <= 57
}

/// The first index at or after `i` that is no digit.
pub open spec fn digits_end(s: Seq<char>, i: int) -> int
    decreases s.len() - i,
{
    if i < 0 || i >= s.len() || !is_digit(s[i]) {
        i
    } else {
        digits_end(s, i + 1)
    }
}

/// The value of the digits in `[i, j)`.
pub open spec fn digits_val(s: Seq<char>, i: int, j: int) -> int
    decreases j - i,
{
    if i >= j {
        0
    } else {
        digits_val(s, i, j - 1) * 10 + (s[j - 1] as int - 48)
    }
}

/// What `Action::from` parses: a 1-based source, a slash, a 1-based target,
/// with anything after a further slash ignored. A numeral must fit `usize`
/// and name a point, so a zero is rejected.
pub open spec fn parse_action(s: Seq<char>) -> Option<(int, int)> {
    let e1 = digits_end(s, 0);
    if e1 == 0 || e1 >= s.len() || s[e1] != '/' {
        None
    } else {
        let e2 = digits_end(s, e1 + 1);
        if e2 == e1 + 1 || !(e2 == s.len() || s[e2] == '/') {
            None
        } else {
            let v1 = digits_val(s, 0, e1);
            let v2 = digits_val(s, e1 + 1, e2);
            if v1 == 0 || v2 == 0 || v1 > usize::MAX || v2 > usize::MAX {
                None
            } else {
                Some((v1 - 1, v2 - 1))
            }
        }
    }
}

/// A numeral is never negative.
proof fn lemma_digits_val_nonneg(s: Seq<char>, i: int, j: int)
    requires
        forall|m: int| i <= m < j ==> is_digit(s[m]),
    ensures
        digits_val(s, i, j) >= 0,
    decreases j - i,
{
    if i < j {
        lemma_digits_val_nonneg(s, i, j - 1);
    }
}

/// Reads digits from `i`, returning their end and their value, or nothing
/// when the numeral does not fit `usize`.
fn scan_digits(s: &str, i: usize) -> (r: (usize, Option<usize>))
    requires
        0 <= i <= s@.len(),
    ensures
        r.0 == digits_end(s@, i as int),
        i <= r.0 <= s@.len(),
        match r.1 {
            Some(v) => v as int == digits_val(s@, i as int, r.0 as int),
            None => digits_val(s@, i as int, r.0 as int) > usize::MAX,
        },
{
    let n = s.unicode_len();
    let mut j = i;
    let mut acc: usize = 0;
    let mut over = false;
    proof {
        lemma_digits_end_bounds(s@, i as int);
    }
    loop
        invariant
            n == s@.len(),
            i <= j <= n,
            digits_end(s@, i as int) == digits_end(s@, j as int),
            forall|m: int| i <= m < j ==> is_digit(s@[m]),
            !over ==> acc as int == digits_val(s@, i as int, j as int),
            over ==> digits_val(s@, i as int, j as int) > usize::MAX,
        ensures
            j == digits_end(s@, i as int),
            i <= j <= n,
            !over ==> acc as int == digits_val(s@, i as int, j as int),
            over ==> digits_val(s@, i as int, j as int) > usize::MAX,
        decreases n - j,
    {
        if j >= n {
            break;
        }
        let c = s.get_char(j);
        let u = c as u32;
        if u < 48 || u > 57 {
            break;
        }
        let d = (u - 48) as usize;
        proof {
            lemma_digits_end_step(s@, i as int, j as int);
            lemma_digits_val_nonneg(s@, i as int, j as int);
            assert(digits_val(s@, i as int, j + 1) == digits_val(s@, i as int, j as int) * 10 + (
            s@[j as int] as int - 48));
        }
        if over {
            proof {
                lemma_grow_overflows(digits_val(s@, i as int, j as int), d as int);
            }
        } else {
            if acc > (usize::MAX - d) / 10 {
                proof {
                    lemma_step_overflows(acc as int, d as int, usize::MAX as int);
                }
                over = true;
            } else {
                proof {
                    lemma_step_fits(acc as int, d as int, usize::MAX as int);
                }
                acc = acc * 10 + d;
            }
        }
        j = j + 1;
    }
    (
        j,
        if over {
            None
        } else {
            Some(acc)
        },
    )
}

/// A numeral already too large only grows with another digit.
proof fn lemma_grow_overflows(v: int, d: int)
    requires
        v > usize::MAX,
        d >= 0,
    ensures
        v * 10 + d > usize::MAX,
{
    assert(v * 10 >= v) by (nonlinear_arith)
        requires
            v > 0,
    ;
}

/// Past the division bound, appending the digit overflows.
proof fn lemma_step_overflows(acc: int, d: int, max: int)
    requires
        0 <= d <= 9,
        max >= 10,
        acc > (max - d) / 10,
    ensures
        acc * 10 + d > max,
{
    let q = (max - d) / 10;
    assert(max - d == q * 10 + (max - d) % 10);
    assert(acc >= q + 1);
    assert(acc * 10 >= (q + 1) * 10) by (nonlinear_arith)
        requires
            acc >= q + 1,
    ;
}

/// Within the division bound, appending the digit still fits.
proof fn lemma_step_fits(acc: int, d: int, max: int)
    requires
        0 <= d <= 9,
        max >= 10,
        0 <= acc <= (max - d) / 10,
    ensures
        0 <= acc * 10 + d <= max,
{
    let q = (max - d) / 10;
    assert(max - d == q * 10 + (max - d) % 10);
    assert(acc * 10 <= q * 10) by (nonlinear_arith)
        requires
            acc <= q,
    ;
}

/// A digit extends the scan by one.
proof fn lemma_digits_end_step(s: Seq<char>, i: int, j: int)
    requires
        0 <= i <= j < s.len(),
        digits_end(s, i) == digits_end(s, j),
        is_digit(s[j]),
    ensures
        digits_end(s, j) == digits_end(s, j + 1),
        digits_end(s, i) >= j + 1,
{
    lemma_digits_end_bounds(s, j + 1);
}

/// The scan never runs backwards nor past the end.
proof fn lemma_digits_end_bounds(s: Seq<char>, i: int)
    requires
        0 <= i <= s.len(),
    ensures
        i <= digits_end(s, i) <= s.len(),
    decreases s.len() - i,
{
    if i < s.len() && is_digit(s[i]) {
        lemma_digits_end_bounds(s, i + 1);
    }
}

impl Action {
    /// Parses a half-move written as `from/to` in 1-based match notation.
    pub fn from(ms: &str) -> (r: Option<Action>)
        ensures
            match r {
                Some(a) => parse_action(ms@) == Some((a.from as int, a.to as int)),
                None => parse_action(ms@) is None,
            },
    {
        let n = ms.unicode_len();
        let (e1, v1_fits) = scan_digits(ms, 0);
        if e1 == 0 || e1 >= n {
            return None;
        }
        if ms.get_char(e1) != '/' {
            return None;
        }
        let (e2, v2_fits) = scan_digits(ms, e1 + 1);
        if e2 == e1 + 1 {
            return None;
        }
        if e2 < n {
            if ms.get_char(e2) != '/' {
                return None;
            }
        }
        let v1 = match v1_fits {
            Some(v) => v,
            None => {
                return None;
            },
        };
        let v2 = match v2_fits {
            Some(v) => v,
            None => {
                return None;
            },
        };
        if v1 == 0 || v2 == 0 {
            return None;
        }
        Some(Action { from: v1 - 1, to: v2 - 1 })
    }
}

} // verus!

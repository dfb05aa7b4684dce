//! The hypergammon perfect hash and the solver's enumeration phases.
//!
//! With three checkers a side, each side's distribution over 26 slots (24
//! points, the bar, and off) has a combinatorial rank below `mcomb(26, 3)`;
//! the two ranks concatenate to one table index. The rank is injective over
//! legal distributions, so the equity table needs no collision handling.

use vstd::prelude::*;
use crate::position::{State, x_sum, o_sum, lemma_x_sum_nonneg, lemma_o_sum_nonneg, lemma_x_sum_monotone, lemma_o_sum_monotone};
use crate::encoding::{x_cnt, o_cnt};

verus! {

/// Multiset combinations: the ways to put `k` unordered checkers on `n`
/// slots, by the Pascal-style recurrence.
pub open spec fn mcomb(n: nat, k: nat) -> nat
    decreases n + k,
{
    if k == 0 {
        1
    } else if n == 0 {
        0
    } else {
        mcomb(n, (k - 1) as nat) + mcomb((n - 1) as nat, k)
    }
}

/// The table has one slot per pair of side ranks.
pub open spec fn table_size() -> int {
    mcomb(26, 3) as int * mcomb(26, 3) as int
}

/// `mcomb` never shrinks when slots are added.
pub proof fn lemma_mcomb_mono_n(n: nat, k: nat)
    ensures
        mcomb(n, k) <= mcomb(n + 1, k),
    decreases n + k,
{
    if k > 0 {
        lemma_mcomb_mono_n(n, (k - 1) as nat);
        if n > 0 {
            lemma_mcomb_mono_n((n - 1) as nat, k);
        }
    }
}

/// With at least one slot, `mcomb` never shrinks when checkers are added.
pub proof fn lemma_mcomb_mono_k(n: nat, a: nat, b: nat)
    requires
        n >= 1,
        a <= b,
    ensures
        mcomb(n, a) <= mcomb(n, b),
    decreases b - a,
{
    if a < b {
        lemma_mcomb_mono_k(n, a, (b - 1) as nat);
        assert(mcomb(n, b) == mcomb(n, (b - 1) as nat) + mcomb((n - 1) as nat, b));
    }
}

/// With at least one slot there is always at least one arrangement.
pub proof fn lemma_mcomb_pos(n: nat, k: nat)
    requires
        n >= 1,
    ensures
        mcomb(n, k) >= 1,
    decreases k,
{
    if k > 0 {
        lemma_mcomb_pos(n, (k - 1) as nat);
    }
}

/// Computes `mcomb` for the small arguments the hash needs.
pub fn mcomb_exec(n: u64, k: u64) -> (r: u64)
    requires
        1 <= n <= 26,
        k <= 3,
    ensures
        r == mcomb(n as nat, k as nat),
        r <= 3276,
    decreases n + k,
{
    proof {
        reveal_with_fuel(mcomb, 2);
        lemma_mcomb_mono_k(n as nat, k as nat, 3);
        lemma_mcomb_mono_n_upto(n as nat, 26, 3);
        lemma_mcomb_26_3();
    }
    if k == 0 {
        1
    } else {
        let a = mcomb_exec(n, k - 1);
        let b = if n == 1 {
            0
        } else {
            mcomb_exec(n - 1, k)
        };
        a + b
    }
}

/// One checker: as many arrangements as slots.
pub proof fn lemma_mcomb_1(n: nat)
    ensures
        mcomb(n, 1) == n,
    decreases n,
{
    reveal_with_fuel(mcomb, 3);
    if n > 0 {
        lemma_mcomb_1((n - 1) as nat);
    }
}

/// Two checkers: the triangular numbers.
pub proof fn lemma_mcomb_2(n: nat)
    ensures
        2 * mcomb(n, 2) == n * (n + 1),
    decreases n,
{
    reveal_with_fuel(mcomb, 3);
    if n > 0 {
        let m = (n - 1) as nat;
        lemma_mcomb_2(m);
        lemma_mcomb_1(n);
        assert(mcomb(n, 2) == mcomb(n, 1) + mcomb(m, 2));
        assert(2 * mcomb(m, 2) == m * (m + 1));
        assert(m + 1 == n);
        assert(2 * mcomb(n, 2) == 2 * n + m * n);
        assert(2 * n + m * n == n * (n + 1)) by (nonlinear_arith)
            requires
                m + 1 == n,
        ;
        assert(2 * mcomb(n, 2) == n * (n + 1));
    } else {
        assert(n == 0);
        assert(mcomb(0, 2) == 0);
        assert(2 * mcomb(n, 2) == n * (n + 1)) by (nonlinear_arith)
            requires
                n == 0,
                mcomb(n, 2) == 0,
        ;
    }
}

/// Three checkers: the tetrahedral numbers.
pub proof fn lemma_mcomb_3(n: nat)
    ensures
        6 * mcomb(n, 3) == n * (n + 1) * (n + 2),
    decreases n,
{
    reveal_with_fuel(mcomb, 3);
    if n > 0 {
        let m = (n - 1) as nat;
        lemma_mcomb_3(m);
        lemma_mcomb_2(n);
        assert(mcomb(n, 3) == mcomb(n, 2) + mcomb(m, 3));
        assert(6 * mcomb(m, 3) == m * (m + 1) * (m + 2));
        assert(m + 1 == n);
        assert(6 * mcomb(n, 3) == 3 * (n * (n + 1)) + m * n * (n + 1));
        assert(6 * mcomb(n, 3) == n * (n + 1) * (n + 2)) by (nonlinear_arith)
            requires
                6 * mcomb(n, 3) == 3 * (n * (n + 1)) + m * n * (n + 1),
                m + 1 == n,
        ;
    } else {
        assert(n == 0);
        assert(mcomb(0, 3) == 0);
        assert(6 * mcomb(n, 3) == n * (n + 1) * (n + 2)) by (nonlinear_arith)
            requires
                n == 0,
                mcomb(n, 3) == 0,
        ;
    }
}

/// The table dimension: 3276 side ranks.
pub proof fn lemma_mcomb_26_3()
    ensures
        mcomb(26, 3) == 3276,
{
    lemma_mcomb_3(26);
    assert(26nat * (26nat + 1) * (26nat + 2) == 19656) by (nonlinear_arith);
    assert(6 * mcomb(26, 3) == 19656);
}

/// `mcomb` grows towards 26 slots.
pub proof fn lemma_mcomb_mono_n_upto(n: nat, m: nat, k: nat)
    requires
        n <= m,
    ensures
        mcomb(n, k) <= mcomb(m, k),
    decreases m - n,
{
    if n < m {
        lemma_mcomb_mono_n_upto(n, (m - 1) as nat, k);
        lemma_mcomb_mono_n((m - 1) as nat, k);
    }
}

/// One side's slot counts in hash order: borne-off first, then the points 1
/// to 24. What remains after all 25 steps sits on the bar.
pub open spec fn side_counts_x(s: State) -> Seq<nat> {
    Seq::new(25, |i: int|
        if i == 0 {
            s.x_off as nat
        } else {
            x_cnt(s, i)
        })
}

pub open spec fn side_counts_o(s: State) -> Seq<nat> {
    Seq::new(25, |i: int|
        if i == 0 {
            s.o_off as nat
        } else {
            o_cnt(s, i)
        })
}

/// Sum of the counts in `[a, b)`.
pub open spec fn dsum(d: Seq<nat>, a: int, b: int) -> int
    decreases b - a,
{
    if b <= a {
        0
    } else {
        dsum(d, a, b - 1) + d[b - 1]
    }
}

/// The combinatorial rank of the steps from `i` on, with `rem` checkers
/// still unplaced before step `i`.
pub open spec fn rank(d: Seq<nat>, i: int, rem: int) -> int
    decreases 25 - i,
{
    if i < 0 || i >= 25 {
        0
    } else {
        let r = rem - d[i];
        (if r > 0 {
            mcomb((26 - i) as nat, (r - 1) as nat) as int
        } else {
            0
        }) + rank(d, i + 1, r)
    }
}

/// One side's rank: all 25 steps, three checkers.
pub open spec fn x_index(s: State) -> int {
    rank(side_counts_x(s), 0, 3)
}

pub open spec fn o_index(s: State) -> int {
    rank(side_counts_o(s), 0, 3)
}

/// The perfect-hash index of a hypergammon position.
pub open spec fn dbhash_spec(s: State) -> int {
    x_index(s) * 3276 + o_index(s)
}

pub proof fn lemma_dsum_nonneg(d: Seq<nat>, a: int, b: int)
    ensures
        dsum(d, a, b) >= 0,
    decreases b - a,
{
    if b > a {
        lemma_dsum_nonneg(d, a, b - 1);
    }
}

pub proof fn lemma_dsum_unfold(d: Seq<nat>, a: int, b: int)
    requires
        a < b,
    ensures
        dsum(d, a, b) == d[a] + dsum(d, a + 1, b),
    decreases b - a,
{
    reveal_with_fuel(dsum, 3);
    if a + 1 < b {
        lemma_dsum_unfold(d, a, b - 1);
    }
}

/// The rank of a feasible distribution lies below `mcomb(26 - i, rem)`.
pub proof fn lemma_rank_bound(d: Seq<nat>, i: int, rem: int)
    requires
        0 <= i <= 25,
        dsum(d, i, 25) <= rem,
    ensures
        0 <= rank(d, i, rem),
        rank(d, i, rem) < mcomb((26 - i) as nat, rem as nat),
    decreases 25 - i,
{
    lemma_dsum_nonneg(d, i, 25);
    lemma_mcomb_pos((26 - i) as nat, rem as nat);
    if i < 25 {
        let r = rem - d[i];
        lemma_dsum_unfold(d, i, 25);
        lemma_dsum_nonneg(d, i + 1, 25);
        lemma_rank_bound(d, i + 1, r);
        if r > 0 {
            assert(mcomb((26 - i) as nat, r as nat) == mcomb((26 - i) as nat, (r - 1) as nat)
                + mcomb((25 - i) as nat, r as nat));
            lemma_mcomb_mono_k((26 - i) as nat, r as nat, rem as nat);
        } else {
            lemma_mcomb_mono_k((26 - i) as nat, 0, rem as nat);
        }
    }
}

/// Distinct feasible distributions have distinct ranks.
pub proof fn lemma_rank_injective(d1: Seq<nat>, d2: Seq<nat>, i: int, rem: int)
    requires
        0 <= i <= 25,
        dsum(d1, i, 25) <= rem,
        dsum(d2, i, 25) <= rem,
        rank(d1, i, rem) == rank(d2, i, rem),
    ensures
        forall|j: int| i <= j < 25 ==> d1[j] == d2[j],
    decreases 25 - i,
{
    if i < 25 {
        let r1 = rem - d1[i];
        let r2 = rem - d2[i];
        lemma_dsum_unfold(d1, i, 25);
        lemma_dsum_unfold(d2, i, 25);
        lemma_dsum_nonneg(d1, i + 1, 25);
        lemma_dsum_nonneg(d2, i + 1, 25);
        if r1 == r2 {
            lemma_rank_injective(d1, d2, i + 1, r1);
        } else if r1 < r2 {
            lemma_rank_separates(d1, d2, i, rem, r1, r2);
        } else {
            lemma_rank_separates(d2, d1, i, rem, r2, r1);
        }
    }
}

/// When the first side places more checkers at step `i`, its whole rank
/// stays below the other's opening term.
proof fn lemma_rank_separates(d1: Seq<nat>, d2: Seq<nat>, i: int, rem: int, r1: int, r2: int)
    requires
        0 <= i < 25,
        r1 == rem - d1[i],
        r2 == rem - d2[i],
        r1 < r2,
        dsum(d1, i + 1, 25) <= r1,
        dsum(d2, i + 1, 25) <= r2,
    ensures
        rank(d1, i, rem) < rank(d2, i, rem),
{
    lemma_dsum_nonneg(d1, i + 1, 25);
    lemma_rank_bound(d1, i + 1, r1);
    lemma_rank_bound(d2, i + 1, r2);
    let t1: int = if r1 > 0 {
        mcomb((26 - i) as nat, (r1 - 1) as nat) as int
    } else {
        0
    };
    let t2: int = mcomb((26 - i) as nat, (r2 - 1) as nat) as int;
    assert(rank(d1, i, rem) == t1 + rank(d1, i + 1, r1));
    assert(rank(d2, i, rem) == t2 + rank(d2, i + 1, r2));
    // The first rank stays below the second's opening term.
    if r1 > 0 {
        assert(mcomb((26 - i) as nat, r1 as nat) == mcomb((26 - i) as nat, (r1 - 1) as nat)
            + mcomb((25 - i) as nat, r1 as nat));
        assert(t1 + rank(d1, i + 1, r1) < mcomb((26 - i) as nat, r1 as nat));
        lemma_mcomb_mono_k((26 - i) as nat, r1 as nat, (r2 - 1) as nat);
    } else {
        assert(rank(d1, i + 1, r1) < mcomb((25 - i) as nat, 0));
        lemma_mcomb_pos((26 - i) as nat, (r2 - 1) as nat);
    }
    assert(rank(d1, i, rem) < t2);
    assert(rank(d2, i + 1, r2) >= 0);
}

} // verus!

verus! {

/// Points 1 to `i` of one side, summed.
pub open spec fn x_pts(s: State, i: int) -> int
    decreases i,
{
    if i <= 0 {
        0
    } else {
        x_pts(s, i - 1) + x_cnt(s, i)
    }
}

pub open spec fn o_pts(s: State, i: int) -> int
    decreases i,
{
    if i <= 0 {
        0
    } else {
        o_pts(s, i - 1) + o_cnt(s, i)
    }
}

/// The board prefix of the count sequence sums to the points walked so far.
pub proof fn lemma_dsum_x(s: State, i: int)
    requires
        0 <= i <= 24,
    ensures
        dsum(side_counts_x(s), 1, i + 1) == x_pts(s, i),
    decreases i,
{
    if i > 0 {
        lemma_dsum_x(s, i - 1);
    }
}

pub proof fn lemma_dsum_o(s: State, i: int)
    requires
        0 <= i <= 24,
    ensures
        dsum(side_counts_o(s), 1, i + 1) == o_pts(s, i),
    decreases i,
{
    if i > 0 {
        lemma_dsum_o(s, i - 1);
    }
}

/// Point counts relate to the checker sums of the board model.
pub proof fn lemma_x_pts_sum(s: State, i: int)
    requires
        0 <= i <= 24,
    ensures
        x_pts(s, i) == x_sum(s.pips@, i + 1) - x_sum(s.pips@, 1),
    decreases i,
{
    if i > 0 {
        lemma_x_pts_sum(s, i - 1);
    }
}

pub proof fn lemma_o_pts_sum(s: State, i: int)
    requires
        0 <= i <= 24,
    ensures
        o_pts(s, i) == o_sum(s.pips@, i + 1) - o_sum(s.pips@, 1),
    decreases i,
{
    if i > 0 {
        lemma_o_pts_sum(s, i - 1);
    }
}

/// A hypergammon side's counts are feasible: the 25 hash steps place at most
/// the three checkers, and what remains is the bar.
pub proof fn lemma_side_feasible(s: State)
    requires
        s.wf(),
        s.x_total() == 3,
        s.o_total() == 3,
    ensures
        0 <= dsum(side_counts_x(s), 0, 25) <= 3,
        0 <= dsum(side_counts_o(s), 0, 25) <= 3,
        dsum(side_counts_x(s), 0, 25) == 3 - s.pips@[25],
        dsum(side_counts_o(s), 0, 25) == 3 + s.pips@[0],
{
    lemma_dsum_unfold(side_counts_x(s), 0, 25);
    lemma_dsum_unfold(side_counts_o(s), 0, 25);
    lemma_x_sum_nonneg(s.pips@, 25);
    lemma_o_sum_nonneg(s.pips@, 25);
    lemma_x_sum_monotone(s.pips@, 1, 25);
    lemma_o_sum_monotone(s.pips@, 1, 25);
    lemma_dsum_x(s, 24);
    lemma_dsum_o(s, 24);
    lemma_x_pts_sum(s, 24);
    lemma_o_pts_sum(s, 24);
    reveal_with_fuel(x_sum, 2);
    reveal_with_fuel(o_sum, 2);
    assert(x_sum(s.pips@, 1) == 0);
    assert(o_sum(s.pips@, 1) == (if s.pips@[0] < 0 { -(s.pips@[0] as int) } else { 0int }));
    assert(x_sum(s.pips@, 26) == x_sum(s.pips@, 25) + (if s.pips@[25] > 0 {
        s.pips@[25] as int
    } else {
        0int
    }));
    assert(o_sum(s.pips@, 26) == o_sum(s.pips@, 25) + (if s.pips@[25] < 0 {
        -(s.pips@[25] as int)
    } else {
        0int
    }));
}

/// The perfect hash is injective over the legal three-checker positions:
/// equal indices mean the very same position.
pub proof fn lemma_dbhash_injective(s1: State, s2: State)
    requires
        s1.wf(),
        s2.wf(),
        s1.x_total() == 3,
        s1.o_total() == 3,
        s2.x_total() == 3,
        s2.o_total() == 3,
        dbhash_spec(s1) == dbhash_spec(s2),
    ensures
        s1 == s2,
{
    lemma_side_feasible(s1);
    lemma_side_feasible(s2);
    lemma_rank_bound(side_counts_x(s1), 0, 3);
    lemma_rank_bound(side_counts_o(s1), 0, 3);
    lemma_rank_bound(side_counts_x(s2), 0, 3);
    lemma_rank_bound(side_counts_o(s2), 0, 3);
    lemma_mcomb_26_3();
    // The pairing is injective: both ranks lie below 3276.
    assert(x_index(s1) == x_index(s2) && o_index(s1) == o_index(s2)) by (nonlinear_arith)
        requires
            0 <= x_index(s1) < 3276,
            0 <= x_index(s2) < 3276,
            0 <= o_index(s1) < 3276,
            0 <= o_index(s2) < 3276,
            x_index(s1) * 3276 + o_index(s1) == x_index(s2) * 3276 + o_index(s2),
    ;
    lemma_rank_injective(side_counts_x(s1), side_counts_x(s2), 0, 3);
    lemma_rank_injective(side_counts_o(s1), side_counts_o(s2), 0, 3);
    // Equal counts pin every pip, the bars, and both borne-off counts.
    assert(s1.x_off == s2.x_off) by {
        assert(side_counts_x(s1)[0] == side_counts_x(s2)[0]);
    }
    assert(s1.o_off == s2.o_off) by {
        assert(side_counts_o(s1)[0] == side_counts_o(s2)[0]);
    }
    assert forall|i: int| 0 <= i < 26 implies s1.pips@[i] == s2.pips@[i] by {
        if i == 25 {
            assert(dsum(side_counts_x(s1), 0, 25) == dsum(side_counts_x(s2), 0, 25)) by {
                lemma_dsum_eq_pointwise(side_counts_x(s1), side_counts_x(s2), 0, 25);
            }
        } else if i == 0 {
            assert(dsum(side_counts_o(s1), 0, 25) == dsum(side_counts_o(s2), 0, 25)) by {
                lemma_dsum_eq_pointwise(side_counts_o(s1), side_counts_o(s2), 0, 25);
            }
        } else {
            assert(side_counts_x(s1)[i] == side_counts_x(s2)[i]);
            assert(side_counts_o(s1)[i] == side_counts_o(s2)[i]);
            assert(x_cnt(s1, i) == x_cnt(s2, i));
            assert(o_cnt(s1, i) == o_cnt(s2, i));
        }
    }
    assert(s1.pips@ =~= s2.pips@);
    assert(s1.pips =~= s2.pips);
}

pub proof fn lemma_dsum_eq_pointwise(d1: Seq<nat>, d2: Seq<nat>, a: int, b: int)
    requires
        forall|j: int| a <= j < b ==> d1[j] == d2[j],
    ensures
        dsum(d1, a, b) == dsum(d2, a, b),
    decreases b - a,
{
    if b > a {
        lemma_dsum_eq_pointwise(d1, d2, a, b - 1);
    }
}

} // verus!

verus! {

/// One side's combinatorial rank, walking the off count and the 24 points;
/// what remains at the end is the bar and contributes nothing.
fn side_rank(s: &State, off: u8, x_side: bool) -> (r: u64)
    requires
        s.wf(),
        s.x_total() == 3,
        s.o_total() == 3,
        x_side ==> off == s.x_off,
        !x_side ==> off == s.o_off,
    ensures
        x_side ==> r as int == x_index(*s),
        !x_side ==> r as int == o_index(*s),
        r < 3276,
{
    let ghost d = if x_side {
        side_counts_x(*s)
    } else {
        side_counts_o(*s)
    };
    proof {
        lemma_side_feasible(*s);
        lemma_rank_bound(d, 0, 3);
        lemma_mcomb_26_3();
        lemma_x_sum_nonneg(s.pips@, 26);
        lemma_o_sum_nonneg(s.pips@, 26);
        lemma_dsum_unfold(d, 0, 25);
        lemma_dsum_nonneg(d, 1, 25);
    }
    let mut rem: u64 = 3 - (off as u64);
    let mut idx: u64 = if rem > 0 {
        mcomb_exec(26, rem - 1)
    } else {
        0
    };
    let ghost full: int = if x_side {
        x_index(*s)
    } else {
        o_index(*s)
    };
    proof {
        lemma_rank_bound(d, 1, rem as int);
        reveal_with_fuel(dsum, 3);
        assert(dsum(d, 0, 1) == d[0]);
    }
    let mut i: usize = 1;
    while i <= 24
        invariant
            s.wf(),
            s.x_total() == 3,
            s.o_total() == 3,
            d == if x_side {
                side_counts_x(*s)
            } else {
                side_counts_o(*s)
            },
            full == if x_side {
                x_index(*s)
            } else {
                o_index(*s)
            },
            0 <= full < 3276,
            1 <= i <= 25,
            rem as int == 3 - dsum(d, 0, i as int),
            rem <= 3,
            dsum(d, i as int, 25) <= rem as int,
            idx as int + rank(d, i as int, rem as int) == full,
            idx <= 3275,
        decreases 25 - i,
    {
        let p = s.pips[i];
        let c: u64 = if x_side {
            if p > 0 {
                p as u64
            } else {
                0
            }
        } else {
            if p < 0 {
                (-p) as u64
            } else {
                0
            }
        };
        proof {
            assert(c as int == d[i as int]);
            lemma_dsum_unfold(d, i as int, 25);
            lemma_dsum_nonneg(d, i as int + 1, 25);
            lemma_rank_bound(d, i as int + 1, rem as int - c as int);
        }
        let ghost old_rem = rem as int;
        rem = rem - c;
        if rem > 0 {
            let term = mcomb_exec(26 - (i as u64), rem - 1);
            proof {
                assert(rank(d, i as int, old_rem) == term + rank(
                    d, i as int + 1, rem as int));
            }
            idx = idx + term;
        } else {
            proof {
                assert(rank(d, i as int, old_rem) == rank(d, i as int + 1, rem as int));
            }
        }
        i = i + 1;
    }
    idx
}

impl State {
    /// The perfect-hash index of this three-checker position: the two side
    /// ranks concatenated. Injective over all legal positions, so the equity
    /// table needs one slot per index and no collision handling.
    pub fn dbhash(&self) -> (r: usize)
        requires
            self.wf(),
            self.x_total() == 3,
            self.o_total() == 3,
        ensures
            r as int == dbhash_spec(*self),
            r < 10732176,
    {
        let x = side_rank(self, self.x_off, true);
        let o = side_rank(self, self.o_off, false);
        (x as usize) * 3276 + (o as usize)
    }
}

} // verus!

verus! {

/// Sum of the weights of a transition entry's rolls.
pub open spec fn entry_weight_sum(e: Seq<(u32, Vec<usize>)>) -> int
    decreases e.len(),
{
    if e.len() == 0 {
        0
    } else {
        entry_weight_sum(e.drop_last()) + e.last().0
    }
}

/// Every hash a transition entry names fits the table.
pub open spec fn entry_hashes_ok(e: Seq<(u32, Vec<usize>)>) -> bool {
    forall|m: int, h: int|
        0 <= m < e.len() && 0 <= h < (#[trigger] e[m]).1@.len() ==> #[trigger] e[m].1@[h]
            < 10732176
}

/// The slot is a move's: some move of roll `m` from `pos` hashes to it.
pub open spec fn slot_from_move(pos: State, m: int, slot: usize) -> bool {
    exists|q: State|
        crate::moves::is_move_of(pos, crate::dice::roll21(m), q) && slot as int
            == #[trigger] dbhash_spec(q)
}

/// One record cell stands for roll `m`: it carries the roll's weight and the
/// slots of exactly the roll's moves, and a roll always has at least one
/// move.
pub open spec fn roll_slots_ok(pos: State, m: int, e: (u32, Vec<usize>)) -> bool {
    &&& e.0 == (if crate::dice::roll21(m) is Double {
        1int
    } else {
        2int
    })
    &&& e.1@.len() >= 1
    &&& forall|h: int| 0 <= h < e.1@.len() ==> #[trigger] e.1@[h] < 10732176
    &&& forall|q: State|
        #[trigger] crate::moves::is_move_of(pos, crate::dice::roll21(m), q) ==> exists|h: int|
            0 <= h < e.1@.len() && e.1@[h] as int == dbhash_spec(q)
    &&& forall|h: int| 0 <= h < e.1@.len() ==> slot_from_move(pos, m, #[trigger] e.1@[h])
}

/// A transition record stands for the whole roll table, cell by cell.
pub open spec fn entry_describes(pos: State, e: Seq<(u32, Vec<usize>)>) -> bool {
    &&& e.len() == 21
    &&& forall|m: int| 0 <= m < 21 ==> roll_slots_ok(pos, m, #[trigger] e[m])
}

/// `q` is an opening move: a successor of the hypergammon start under one of
/// the 15 mixed first rolls.
pub open spec fn from_opening(q: State) -> bool {
    exists|m: int|
        0 <= m < 15 && #[trigger] crate::moves::is_move_of(
            crate::position::hypergammon_state(), crate::dice::single15(m), q)
}

/// `q` is a successor of one of the first `upto` members that is still a
/// running game, under one of the 21 rolls.
pub open spec fn from_member(found: Seq<State>, upto: int, q: State) -> bool {
    exists|k2: int, m: int|
        0 <= k2 < upto && 0 <= m < 21 && crate::position::game_state_spec(#[trigger] found[k2])
            is Ongoing && #[trigger] crate::moves::is_move_of(
            found[k2], crate::dice::roll21(m), q)
}

/// `q` is a successor of `pos` under one of the 21 rolls.
pub open spec fn some_move_from(pos: State, q: State) -> bool {
    exists|m: int|
        0 <= m < 21 && #[trigger] crate::moves::is_move_of(pos, crate::dice::roll21(m), q)
}

/// Growing the member run keeps a successor claim, for any bound at least as
/// wide.
proof fn lemma_from_member_grow(
    found: Seq<State>,
    grown: Seq<State>,
    upto: int,
    new_upto: int,
    q: State,
)
    requires
        from_member(found, upto, q),
        upto <= found.len(),
        upto <= new_upto,
        grown.len() >= found.len(),
        forall|k2: int| 0 <= k2 < found.len() ==> #[trigger] grown[k2] == found[k2],
    ensures
        from_member(grown, new_upto, q),
{
    let (k2, m) = choose|k2: int, m: int|
        0 <= k2 < upto && 0 <= m < 21 && crate::position::game_state_spec(#[trigger] found[k2])
            is Ongoing && #[trigger] crate::moves::is_move_of(
            found[k2], crate::dice::roll21(m), q);
    assert(grown[k2] == found[k2]);
    assert(crate::moves::is_move_of(grown[k2], crate::dice::roll21(m), q));
}

/// A successor of the freshest running member is a member's successor.
proof fn lemma_from_last_member(found: Seq<State>, q: State)
    requires
        found.len() >= 1,
        crate::position::game_state_spec(found[found.len() - 1]) is Ongoing,
        some_move_from(found[found.len() - 1], q),
    ensures
        from_member(found, found.len() as int, q),
{
    let m = choose|m: int|
        0 <= m < 21 && #[trigger] crate::moves::is_move_of(
            found[found.len() - 1], crate::dice::roll21(m), q);
    assert(crate::moves::is_move_of(found[found.len() - 1], crate::dice::roll21(m), q));
}

/// How many slots of the visited table are still clear.
pub open spec fn count_false(s: Seq<bool>) -> nat
    decreases s.len(),
{
    if s.len() == 0 {
        0
    } else {
        count_false(s.drop_last()) + (if s.last() {
            0nat
        } else {
            1nat
        })
    }
}

/// Marking a clear slot clears the count by one.
proof fn lemma_count_false_update(s: Seq<bool>, h: int)
    requires
        0 <= h < s.len(),
        !s[h],
    ensures
        count_false(s.update(h, true)) + 1 == count_false(s),
    decreases s.len(),
{
    if h == s.len() - 1 {
        assert(s.update(h, true).drop_last() =~= s.drop_last());
        assert(s.update(h, true).last());
    } else {
        assert(s.update(h, true).drop_last() =~= s.drop_last().update(h, true));
        assert(s.update(h, true).last() == s.last());
        lemma_count_false_update(s.drop_last(), h);
    }
}

/// Pushes every successor of `pos` under every roll of the table onto
/// `pending`: afterwards the run still starts with what it held, and every
/// move of every roll is on it.
fn push_successors(pos: &State, rolls: &Vec<(crate::dice::Dice, u32)>, pending: &mut Vec<State>)
    requires
        pos.wf(),
        pos.x_total() == 3,
        pos.o_total() == 3,
        rolls@.len() == 21,
        forall|j: int| 0 <= j < 21 ==> (#[trigger] rolls@[j]).0 == crate::dice::roll21(j),
        forall|j: int| 0 <= j < 21 ==> crate::dice::dice_wf((#[trigger] rolls@[j]).0),
        forall|k: int|
            0 <= k < old(pending)@.len() ==> (#[trigger] old(pending)@[k]).wf() && old(
            pending)@[k].x_total() == 3 && old(pending)@[k].o_total() == 3,
    ensures
        forall|k: int|
            0 <= k < final(pending)@.len() ==> (#[trigger] final(pending)@[k]).wf() && final(
            pending)@[k].x_total() == 3 && final(pending)@[k].o_total() == 3,
        final(pending)@.len() >= old(pending)@.len(),
        forall|k: int|
            0 <= k < old(pending)@.len() ==> #[trigger] final(pending)@[k] == old(pending)@[k],
        forall|m: int, q: State|
            0 <= m < 21 && #[trigger] crate::moves::is_move_of(*pos, crate::dice::roll21(m), q)
                ==> crate::moves::seq_contains(final(pending)@, q),
        forall|k: int|
            old(pending)@.len() <= k < final(pending)@.len() ==> some_move_from(
                *pos, #[trigger] final(pending)@[k]),
{
    let ghost orig = pending@;
    let mut k: usize = 0;
    while k < 21
        invariant
            pos.wf(),
            pos.x_total() == 3,
            pos.o_total() == 3,
            rolls@.len() == 21,
            forall|j: int| 0 <= j < 21 ==> (#[trigger] rolls@[j]).0 == crate::dice::roll21(j),
            forall|j: int| 0 <= j < 21 ==> crate::dice::dice_wf((#[trigger] rolls@[j]).0),
            0 <= k <= 21,
            orig == old(pending)@,
            forall|j: int|
                0 <= j < pending@.len() ==> (#[trigger] pending@[j]).wf()
                    && pending@[j].x_total() == 3 && pending@[j].o_total() == 3,
            pending@.len() >= orig.len(),
            forall|j: int| 0 <= j < orig.len() ==> #[trigger] pending@[j] == orig[j],
            forall|m: int, q: State|
                0 <= m < k && #[trigger] crate::moves::is_move_of(
                    *pos, crate::dice::roll21(m), q) ==> crate::moves::seq_contains(
                    pending@, q),
            forall|j: int|
                orig.len() <= j < pending@.len() ==> some_move_from(
                    *pos, #[trigger] pending@[j]),
        decreases 21 - k,
    {
        let children = pos.possible_positions(&rolls[k].0);
        let mut c: usize = 0;
        while c < children.len()
            invariant
                0 <= k < 21,
                rolls@.len() == 21,
                forall|j: int| 0 <= j < 21 ==> (#[trigger] rolls@[j]).0 == crate::dice::roll21(
                    j),
                forall|q: State| #[trigger] crate::moves::seq_contains(children@, q)
                    == crate::moves::is_move_of(*pos, crate::dice::roll21(k as int), q),
                0 <= c <= children@.len(),
                forall|j: int|
                    0 <= j < children@.len() ==> (#[trigger] children@[j]).wf()
                        && children@[j].x_total() == 3 && children@[j].o_total() == 3,
                forall|j: int|
                    0 <= j < pending@.len() ==> (#[trigger] pending@[j]).wf()
                        && pending@[j].x_total() == 3 && pending@[j].o_total() == 3,
                pending@.len() >= orig.len(),
                forall|j: int| 0 <= j < orig.len() ==> #[trigger] pending@[j] == orig[j],
                forall|m: int, q: State|
                    0 <= m < k && #[trigger] crate::moves::is_move_of(
                        *pos, crate::dice::roll21(m), q) ==> crate::moves::seq_contains(
                        pending@, q),
                forall|c2: int| 0 <= c2 < c ==> crate::moves::seq_contains(
                    pending@, #[trigger] children@[c2]),
                forall|j: int|
                    orig.len() <= j < pending@.len() ==> some_move_from(
                        *pos, #[trigger] pending@[j]),
            decreases children@.len() - c,
        {
            let ghost old_p = pending@;
            pending.push(children[c]);
            proof {
                crate::moves::lemma_push_contains(old_p, pending@, children@[c as int]);
                assert(crate::moves::seq_contains(children@, children@[c as int]));
                assert(crate::moves::is_move_of(
                    *pos, crate::dice::roll21(k as int), pending@[pending@.len() - 1]));
                assert(some_move_from(*pos, pending@[pending@.len() - 1]));
            }
            c = c + 1;
        }
        proof {
            assert forall|m: int, q: State|
                0 <= m < k + 1 && #[trigger] crate::moves::is_move_of(
                    *pos, crate::dice::roll21(m), q) implies crate::moves::seq_contains(
                pending@, q) by {
                if m == k {
                    assert(crate::moves::seq_contains(children@, q));
                    let c2 = choose|c2: int| 0 <= c2 < children@.len() && children@[c2] == q;
                    assert(crate::moves::seq_contains(pending@, children@[c2]));
                }
            }
        }
        k = k + 1;
    }
}

/// Enumerates the positions reachable from the hypergammon start: the
/// opening half-roll fans out over the 15 mixed rolls, every later turn over
/// all 21. The result is free of duplicates. The search stops early only if
/// a fuel bound far beyond the size of the state space is exhausted.
pub fn unique_positions() -> (r: Vec<State>)
    ensures
        r@.len() >= 1,
        r@[0] == crate::position::hypergammon_state(),
        forall|k: int|
            0 <= k < r@.len() ==> (#[trigger] r@[k]).wf() && r@[k].x_total() == 3
                && r@[k].o_total() == 3,
        forall|k1: int, k2: int|
            0 <= k1 < k2 < r@.len() ==> dbhash_spec(#[trigger] r@[k1]) != dbhash_spec(
                #[trigger] r@[k2]),
        forall|m: int, q: State|
            0 <= m < 15 && #[trigger] crate::moves::is_move_of(
                crate::position::hypergammon_state(), crate::dice::single15(m), q)
                ==> crate::moves::seq_contains(r@, q),
        forall|k: int, m: int, q: State|
            1 <= k < r@.len() && 0 <= m < 21 && crate::position::game_state_spec(r@[k])
                is Ongoing && #[trigger] crate::moves::is_move_of(
                r@[k], crate::dice::roll21(m), q) ==> crate::moves::seq_contains(r@, q),
        forall|k: int|
            1 <= k < r@.len() ==> from_opening(#[trigger] r@[k]) || from_member(r@, k, r@[k]),
{
    let mut visited: Vec<bool> = Vec::new();
    let mut v: usize = 0;
    while v < 10732176
        invariant
            0 <= v <= 10732176,
            visited@.len() == v,
            forall|j: int| 0 <= j < v ==> !(#[trigger] visited@[j]),
        decreases 10732176 - v,
    {
        visited.push(false);
        v = v + 1;
    }
    let start = State::hypergammon_new();
    let mut found: Vec<State> = Vec::new();
    let h0 = start.dbhash();
    visited[h0] = true;
    found.push(start);
    // The opening half-roll: only mixed rolls open a game.
    let singles = crate::dice::all_singles();
    let mut pending: Vec<State> = Vec::new();
    let mut k: usize = 0;
    while k < 15
        invariant
            start == crate::position::hypergammon_state(),
            start.wf(),
            start.x_total() == 3,
            start.o_total() == 3,
            visited@.len() == 10732176,
            0 <= dbhash_spec(start) < 10732176,
            forall|j: int|
                0 <= j < 10732176 ==> #[trigger] visited@[j] == (j == dbhash_spec(start)),
            found@.len() == 1,
            found@[0] == start,
            singles@.len() == 15,
            forall|j: int| 0 <= j < 15 ==> #[trigger] singles@[j] == crate::dice::single15(j),
            forall|j: int| 0 <= j < 15 ==> crate::dice::dice_wf(#[trigger] singles@[j]),
            0 <= k <= 15,
            forall|j: int|
                0 <= j < pending@.len() ==> (#[trigger] pending@[j]).wf()
                    && pending@[j].x_total() == 3 && pending@[j].o_total() == 3,
            forall|j: int| 0 <= j < pending@.len() ==> from_opening(#[trigger] pending@[j]),
            forall|m: int, q: State|
                0 <= m < k && #[trigger] crate::moves::is_move_of(
                    start, crate::dice::single15(m), q) ==> crate::moves::seq_contains(
                    pending@, q),
        decreases 15 - k,
    {
        let children = start.possible_positions(&singles[k]);
        let mut c: usize = 0;
        while c < children.len()
            invariant
                start == crate::position::hypergammon_state(),
                visited@.len() == 10732176,
                0 <= dbhash_spec(start) < 10732176,
                forall|j: int|
                    0 <= j < 10732176 ==> #[trigger] visited@[j] == (j == dbhash_spec(start)),
                found@.len() == 1,
                found@[0] == start,
                singles@.len() == 15,
                forall|j: int| 0 <= j < 15 ==> #[trigger] singles@[j] == crate::dice::single15(
                    j),
                0 <= k < 15,
                forall|q: State| #[trigger] crate::moves::seq_contains(children@, q)
                    == crate::moves::is_move_of(start, crate::dice::single15(k as int), q),
                0 <= c <= children@.len(),
                forall|j: int|
                    0 <= j < children@.len() ==> (#[trigger] children@[j]).wf()
                        && children@[j].x_total() == 3 && children@[j].o_total() == 3,
                forall|j: int|
                    0 <= j < pending@.len() ==> (#[trigger] pending@[j]).wf()
                        && pending@[j].x_total() == 3 && pending@[j].o_total() == 3,
                forall|j: int| 0 <= j < pending@.len() ==> from_opening(
                    #[trigger] pending@[j]),
                forall|m: int, q: State|
                    0 <= m < k && #[trigger] crate::moves::is_move_of(
                        start, crate::dice::single15(m), q) ==> crate::moves::seq_contains(
                        pending@, q),
                forall|c2: int| 0 <= c2 < c ==> crate::moves::seq_contains(
                    pending@, #[trigger] children@[c2]),
            decreases children@.len() - c,
        {
            let ghost old_p = pending@;
            pending.push(children[c]);
            proof {
                crate::moves::lemma_push_contains(old_p, pending@, children@[c as int]);
                assert(crate::moves::seq_contains(children@, children@[c as int]));
                assert(crate::moves::is_move_of(
                    start, crate::dice::single15(k as int), pending@[pending@.len() - 1]));
                assert(from_opening(pending@[pending@.len() - 1]));
            }
            c = c + 1;
        }
        proof {
            assert forall|m: int, q: State|
                0 <= m < k + 1 && #[trigger] crate::moves::is_move_of(
                    start, crate::dice::single15(m), q) implies crate::moves::seq_contains(
                pending@, q) by {
                if m == k {
                    assert(crate::moves::seq_contains(children@, q));
                    let c2 = choose|c2: int| 0 <= c2 < children@.len() && children@[c2] == q;
                    assert(crate::moves::seq_contains(pending@, children@[c2]));
                }
            }
        }
        k = k + 1;
    }
    let rolls = crate::dice::all_21();
    loop
        invariant
            start == crate::position::hypergammon_state(),
            rolls@.len() == 21,
            forall|j: int| 0 <= j < 21 ==> (#[trigger] rolls@[j]).0 == crate::dice::roll21(j),
            forall|j: int| 0 <= j < 21 ==> crate::dice::dice_wf((#[trigger] rolls@[j]).0),
            visited@.len() == 10732176,
            found@.len() >= 1,
            found@[0] == start,
            forall|k2: int|
                0 <= k2 < found@.len() ==> (#[trigger] found@[k2]).wf() && found@[k2].x_total()
                    == 3 && found@[k2].o_total() == 3,
            forall|k2: int|
                0 <= k2 < found@.len() ==> 0 <= dbhash_spec(#[trigger] found@[k2]) < 10732176
                    && visited@[dbhash_spec(found@[k2])],
            forall|k1: int, k2: int|
                0 <= k1 < k2 < found@.len() ==> dbhash_spec(#[trigger] found@[k1])
                    != dbhash_spec(#[trigger] found@[k2]),
            forall|h: int|
                0 <= h < 10732176 && #[trigger] visited@[h] ==> exists|k2: int|
                    0 <= k2 < found@.len() && dbhash_spec(found@[k2]) == h,
            forall|k2: int|
                0 <= k2 < pending@.len() ==> (#[trigger] pending@[k2]).wf()
                    && pending@[k2].x_total() == 3 && pending@[k2].o_total() == 3,
            forall|m: int, q: State|
                0 <= m < 15 && #[trigger] crate::moves::is_move_of(
                    start, crate::dice::single15(m), q) ==> crate::moves::seq_contains(
                    found@, q) || crate::moves::seq_contains(pending@, q),
            forall|k2: int, m: int, q: State|
                1 <= k2 < found@.len() && 0 <= m < 21 && crate::position::game_state_spec(
                    found@[k2]) is Ongoing && #[trigger] crate::moves::is_move_of(
                    found@[k2], crate::dice::roll21(m), q) ==> crate::moves::seq_contains(
                    found@, q) || crate::moves::seq_contains(pending@, q),
            forall|k2: int|
                1 <= k2 < found@.len() ==> from_opening(#[trigger] found@[k2]) || from_member(
                    found@, k2, found@[k2]),
            forall|j: int|
                0 <= j < pending@.len() ==> from_opening(#[trigger] pending@[j]) || from_member(
                    found@, found@.len() as int, pending@[j]),
        ensures
            pending@.len() == 0,
            found@.len() >= 1,
            found@[0] == start,
            forall|k2: int|
                0 <= k2 < found@.len() ==> (#[trigger] found@[k2]).wf() && found@[k2].x_total()
                    == 3 && found@[k2].o_total() == 3,
            forall|k1: int, k2: int|
                0 <= k1 < k2 < found@.len() ==> dbhash_spec(#[trigger] found@[k1])
                    != dbhash_spec(#[trigger] found@[k2]),
            forall|m: int, q: State|
                0 <= m < 15 && #[trigger] crate::moves::is_move_of(
                    start, crate::dice::single15(m), q) ==> crate::moves::seq_contains(
                    found@, q) || crate::moves::seq_contains(pending@, q),
            forall|k2: int, m: int, q: State|
                1 <= k2 < found@.len() && 0 <= m < 21 && crate::position::game_state_spec(
                    found@[k2]) is Ongoing && #[trigger] crate::moves::is_move_of(
                    found@[k2], crate::dice::roll21(m), q) ==> crate::moves::seq_contains(
                    found@, q) || crate::moves::seq_contains(pending@, q),
            forall|k2: int|
                1 <= k2 < found@.len() ==> from_opening(#[trigger] found@[k2]) || from_member(
                    found@, k2, found@[k2]),
            forall|j: int|
                0 <= j < pending@.len() ==> from_opening(#[trigger] pending@[j]) || from_member(
                    found@, found@.len() as int, pending@[j]),
        decreases count_false(visited@), pending@.len(),
    {
        let ghost pend_before = pending@;
        let pos = match pending.pop() {
            Some(pos) => pos,
            None => {
                break;
            },
        };
        proof {
            assert(pending@ =~= pend_before.drop_last());
            assert(pos == pend_before.last());
        }
        let h = pos.dbhash();
        if !visited[h] {
            let ghost visited_before = visited@;
            visited[h] = true;
            proof {
                lemma_count_false_update(visited_before, h as int);
                assert forall|k2: int| 0 <= k2 < found@.len() implies dbhash_spec(
                    #[trigger] found@[k2]) != dbhash_spec(pos) by {}
            }
            let ghost found_before = found@;
            found.push(pos);
            proof {
                crate::moves::lemma_push_contains(found_before, found@, pos);
                // Where every member and every waiting board came from, with
                // one more member on the run.
                assert forall|k2: int|
                    1 <= k2 < found@.len() implies from_opening(#[trigger] found@[k2])
                        || from_member(found@, k2, found@[k2]) by {
                    if k2 < found_before.len() {
                        assert(found@[k2] == found_before[k2]);
                        if from_member(found_before, k2, found_before[k2]) {
                            lemma_from_member_grow(
                                found_before, found@, k2, k2, found_before[k2]);
                        }
                    } else {
                        assert(found@[k2] == pos);
                        assert(crate::moves::seq_contains(pend_before, pos)) by {
                            assert(pend_before[pend_before.len() - 1] == pos);
                        }
                        if from_member(found_before, found_before.len() as int, pos) {
                            lemma_from_member_grow(
                                found_before, found@, found_before.len() as int, k2, pos);
                        }
                    }
                }
                assert forall|j: int|
                    0 <= j < pending@.len() implies from_opening(#[trigger] pending@[j])
                        || from_member(found@, found@.len() as int, pending@[j]) by {
                    assert(pending@[j] == pend_before[j]);
                    if from_member(found_before, found_before.len() as int, pending@[j]) {
                        lemma_from_member_grow(
                            found_before,
                            found@,
                            found_before.len() as int,
                            found@.len() as int,
                            pending@[j],
                        );
                    }
                }
                // Marked slots still point at members.
                assert forall|h2: int| 0 <= h2 < 10732176 && #[trigger] visited@[h2]
                    implies exists|k2: int|
                    0 <= k2 < found@.len() && dbhash_spec(found@[k2]) == h2 by {
                    if h2 == h as int {
                        assert(found@[found@.len() - 1] == pos);
                        assert(dbhash_spec(found@[found@.len() - 1]) == h2);
                    } else {
                        assert(visited_before[h2]);
                        let k2 = choose|k2: int|
                            0 <= k2 < found_before.len() && dbhash_spec(found_before[k2]) == h2;
                        assert(found@[k2] == found_before[k2]);
                    }
                }
            }
            match pos.game_state() {
                crate::position::GameState::Ongoing => {
                    let ghost pend_in = pending@;
                    push_successors(&pos, &rolls, &mut pending);
                    proof {
                        lemma_debts_preserved(found@, pending@, pend_before, pos);
                        assert forall|j: int|
                            0 <= j < pending@.len() implies from_opening(#[trigger] pending@[j])
                                || from_member(found@, found@.len() as int, pending@[j]) by {
                            if j < pend_in.len() {
                                assert(pending@[j] == pend_in[j]);
                            } else {
                                assert(some_move_from(pos, pending@[j]));
                                assert(found@[found@.len() - 1] == pos);
                                lemma_from_last_member(found@, pending@[j]);
                            }
                        }
                    }
                },
                crate::position::GameState::GameOver(_) => {
                    proof {
                        lemma_debts_preserved_no_push(found@, pending@, pend_before);
                    }
                },
            }
        } else {
            proof {
                // The popped board is already a member: its slot is marked
                // and the hash tells boards apart.
                let k0 = choose|k0: int|
                    0 <= k0 < found@.len() && dbhash_spec(found@[k0]) == h as int;
                lemma_dbhash_injective(found@[k0], pos);
                assert(crate::moves::seq_contains(found@, pos)) by {
                    assert(found@[k0] == pos);
                }
                lemma_debts_preserved_no_push(found@, pending@, pend_before);
            }
        }
    }
    found
}

/// Popping and then appending successors keeps every recorded debt: a board
/// owed is still on the run, or is the popped board and now a member.
proof fn lemma_debts_preserved(
    found: Seq<State>,
    pending: Seq<State>,
    pend_before: Seq<State>,
    popped: State,
)
    requires
        pend_before.len() >= 1,
        crate::moves::seq_contains(found, pend_before.last()),
        popped == pend_before.last(),
        pending.len() >= pend_before.len() - 1,
        forall|j: int| 0 <= j < pend_before.len() - 1 ==> #[trigger] pending[j] == pend_before[
            j],
    ensures
        forall|q: State|
            #[trigger] crate::moves::seq_contains(pend_before, q) ==> crate::moves::seq_contains(
                found, q) || crate::moves::seq_contains(pending, q),
{
    assert forall|q: State|
        #[trigger] crate::moves::seq_contains(pend_before, q)
            implies crate::moves::seq_contains(found, q) || crate::moves::seq_contains(
            pending, q) by {
        let j = choose|j: int| 0 <= j < pend_before.len() && pend_before[j] == q;
        if j == pend_before.len() - 1 {
            assert(q == popped);
        } else {
            assert(pending[j] == q);
        }
    }
}

/// The same, when nothing was appended after the pop.
proof fn lemma_debts_preserved_no_push(
    found: Seq<State>,
    pending: Seq<State>,
    pend_before: Seq<State>,
)
    requires
        pend_before.len() >= 1,
        crate::moves::seq_contains(found, pend_before.last()),
        pending =~= pend_before.drop_last(),
    ensures
        forall|q: State|
            #[trigger] crate::moves::seq_contains(pend_before, q) ==> crate::moves::seq_contains(
                found, q) || crate::moves::seq_contains(pending, q),
{
    assert forall|q: State|
        #[trigger] crate::moves::seq_contains(pend_before, q)
            implies crate::moves::seq_contains(found, q) || crate::moves::seq_contains(
            pending, q) by {
        let j = choose|j: int| 0 <= j < pend_before.len() && pend_before[j] == q;
        if j == pend_before.len() - 1 {
            assert(q == pend_before.last());
        } else {
            assert(pending[j] == q);
        }
    }
}

/// Splits positions into the still-running and the finished ones. Nothing is
/// lost or invented: together the two halves are a permutation of the input.
pub fn split_positions(positions: Vec<State>) -> (r: (Vec<State>, Vec<State>))
    requires
        forall|k: int|
            0 <= k < positions@.len() ==> (#[trigger] positions@[k]).wf()
                && positions@[k].x_total() == 3 && positions@[k].o_total() == 3,
    ensures
        forall|k: int|
            0 <= k < r.0@.len() ==> (#[trigger] r.0@[k]).wf() && r.0@[k].x_total() == 3
                && r.0@[k].o_total() == 3 && crate::position::game_state_spec(r.0@[k])
                is Ongoing,
        forall|k: int|
            0 <= k < r.1@.len() ==> (#[trigger] r.1@[k]).wf() && r.1@[k].x_total() == 3
                && r.1@[k].o_total() == 3 && crate::position::game_state_spec(r.1@[k])
                is GameOver,
        r.0@.len() + r.1@.len() == positions@.len(),
        r.0@.to_multiset().add(r.1@.to_multiset()) =~= positions@.to_multiset(),
{
    broadcast use vstd::seq_lib::group_to_multiset_ensures;
    broadcast use vstd::multiset::group_multiset_axioms;

    let mut ongoing: Vec<State> = Vec::new();
    let mut gameover: Vec<State> = Vec::new();
    let mut k: usize = 0;
    while k < positions.len()
        invariant
            forall|k2: int|
                0 <= k2 < positions@.len() ==> (#[trigger] positions@[k2]).wf()
                    && positions@[k2].x_total() == 3 && positions@[k2].o_total() == 3,
            0 <= k <= positions@.len(),
            forall|k2: int|
                0 <= k2 < ongoing@.len() ==> (#[trigger] ongoing@[k2]).wf()
                    && ongoing@[k2].x_total() == 3 && ongoing@[k2].o_total() == 3
                    && crate::position::game_state_spec(ongoing@[k2]) is Ongoing,
            forall|k2: int|
                0 <= k2 < gameover@.len() ==> (#[trigger] gameover@[k2]).wf()
                    && gameover@[k2].x_total() == 3 && gameover@[k2].o_total() == 3
                    && crate::position::game_state_spec(gameover@[k2]) is GameOver,
            ongoing@.len() + gameover@.len() == k,
            ongoing@.to_multiset().add(gameover@.to_multiset()) =~= positions@.take(
                k as int).to_multiset(),
        decreases positions@.len() - k,
    {
        broadcast use vstd::seq_lib::group_to_multiset_ensures;
        broadcast use vstd::multiset::group_multiset_axioms;

        let p = positions[k];
        let ghost old_on = ongoing@;
        let ghost old_go = gameover@;
        match p.game_state() {
            crate::position::GameState::Ongoing => ongoing.push(p),
            crate::position::GameState::GameOver(_) => gameover.push(p),
        }
        proof {
            assert(positions@.take(k + 1) =~= positions@.take(k as int).push(p));
            assert(ongoing@.to_multiset().add(gameover@.to_multiset()) =~= positions@.take(
                k + 1).to_multiset());
        }
        k = k + 1;
    }
    proof {
        assert(positions@.take(positions@.len() as int) =~= positions@);
    }
    (ongoing, gameover)
}

/// For every running position, its table slot and, for each of the 21 rolls,
/// the roll's weight and the slots of the successors. The weights of every
/// entry sum to 36, and every slot fits the table.
/// The table slots of roll `die`'s moves from `pos`; a roll always has at
/// least one move.
fn move_slots(pos: &State, die: &crate::dice::Dice, m: Ghost<int>) -> (hashes: Vec<usize>)
    requires
        pos.wf(),
        pos.x_total() == 3,
        pos.o_total() == 3,
        crate::dice::dice_wf(*die),
        *die == crate::dice::roll21(m@),
    ensures
        hashes@.len() >= 1,
        forall|j: int| 0 <= j < hashes@.len() ==> #[trigger] hashes@[j] < 10732176,
        forall|q: State|
            #[trigger] crate::moves::is_move_of(*pos, crate::dice::roll21(m@), q) ==> exists|
            h: int|
                0 <= h < hashes@.len() && hashes@[h] as int == dbhash_spec(q),
        forall|h: int| 0 <= h < hashes@.len() ==> slot_from_move(*pos, m@, #[trigger] hashes@[h]),
{
    let children = pos.possible_positions(die);
    let mut hashes: Vec<usize> = Vec::new();
    let mut c: usize = 0;
    while c < children.len()
        invariant
            pos.wf(),
            pos.x_total() == 3,
            pos.o_total() == 3,
            0 <= c <= children@.len(),
            forall|j: int|
                0 <= j < children@.len() ==> (#[trigger] children@[j]).wf()
                    && children@[j].x_total() == 3 && children@[j].o_total() == 3,
            hashes@.len() == c,
            forall|j: int| 0 <= j < hashes@.len() ==> #[trigger] hashes@[j] < 10732176,
            forall|j: int|
                0 <= j < c ==> #[trigger] hashes@[j] as int == dbhash_spec(children@[j]),
        decreases children@.len() - c,
    {
        hashes.push(children[c].dbhash());
        c = c + 1;
    }
    proof {
        assert forall|q: State|
            #[trigger] crate::moves::is_move_of(*pos, crate::dice::roll21(m@), q)
                implies exists|h: int|
            0 <= h < hashes@.len() && hashes@[h] as int == dbhash_spec(q) by {
            assert(crate::moves::seq_contains(children@, q));
            let c2 = choose|c2: int| 0 <= c2 < children@.len() && children@[c2] == q;
            assert(hashes@[c2] as int == dbhash_spec(q));
        }
        assert forall|h: int| 0 <= h < hashes@.len() implies slot_from_move(
            *pos, m@, #[trigger] hashes@[h]) by {
            let q = children@[h];
            assert(crate::moves::seq_contains(children@, q)) by {
                assert(children@[h] == q);
            }
            assert(crate::moves::is_move_of(*pos, crate::dice::roll21(m@), q));
            assert(hashes@[h] as int == dbhash_spec(q));
        }
    }
    hashes
}

/// One position's transition record: the 21 rolls in table order, each with
/// its weight and the slots of its moves.
#[verifier::rlimit(100)]
fn roll_entry(pos: &State, rolls: &Vec<(crate::dice::Dice, u32)>) -> (entry: Vec<(
    u32,
    Vec<usize>,
)>)
    requires
        pos.wf(),
        pos.x_total() == 3,
        pos.o_total() == 3,
        rolls@.len() == 21,
        forall|j: int| 0 <= j < 21 ==> (#[trigger] rolls@[j]).0 == crate::dice::roll21(j),
        forall|j: int| 0 <= j < 21 ==> crate::dice::dice_wf((#[trigger] rolls@[j]).0),
        forall|j: int|
            0 <= j < 21 ==> ((#[trigger] rolls@[j]).1 == if rolls@[j].0 is Double {
                1int
            } else {
                2int
            }),
        crate::dice::weight_sum(rolls@) == 36,
    ensures
        entry_weight_sum(entry@) == 36,
        entry_hashes_ok(entry@),
        entry_describes(*pos, entry@),
{
    let mut entry: Vec<(u32, Vec<usize>)> = Vec::new();
    let mut m: usize = 0;
    while m < 21
        invariant
            pos.wf(),
            pos.x_total() == 3,
            pos.o_total() == 3,
            rolls@.len() == 21,
            forall|j: int| 0 <= j < 21 ==> (#[trigger] rolls@[j]).0 == crate::dice::roll21(j),
            forall|j: int| 0 <= j < 21 ==> crate::dice::dice_wf((#[trigger] rolls@[j]).0),
            forall|j: int|
                0 <= j < 21 ==> ((#[trigger] rolls@[j]).1 == if rolls@[j].0 is Double {
                    1int
                } else {
                    2int
                }),
            0 <= m <= 21,
            entry@.len() == m,
            entry_weight_sum(entry@) == crate::dice::weight_sum(rolls@.take(m as int)),
            forall|m2: int| 0 <= m2 < m ==> roll_slots_ok(*pos, m2, #[trigger] entry@[m2]),
        decreases 21 - m,
    {
        let (die, weight) = rolls[m];
        let hashes = move_slots(pos, &die, Ghost(m as int));
        let ghost cell = (weight, hashes);
        proof {
            assert(cell.1 == hashes);
            assert(cell.0 as int == (if crate::dice::roll21(m as int) is Double {
                1int
            } else {
                2int
            }));
            assert(cell.1@.len() >= 1);
            assert(forall|h: int| 0 <= h < cell.1@.len() ==> #[trigger] cell.1@[h] < 10732176);
            assert(forall|q: State|
                #[trigger] crate::moves::is_move_of(*pos, crate::dice::roll21(m as int), q)
                    ==> exists|h: int|
                    0 <= h < cell.1@.len() && cell.1@[h] as int == dbhash_spec(q));
            assert(forall|h: int|
                0 <= h < cell.1@.len() ==> slot_from_move(*pos, m as int, #[trigger] cell.1@[
                h]));
            assert(roll_slots_ok(*pos, m as int, cell));
        }
        let ghost before = entry@;
        entry.push((weight, hashes));
        proof {
            assert(entry@.drop_last() =~= before);
            assert(rolls@.take(m + 1).drop_last() =~= rolls@.take(m as int));
            assert(forall|m2: int| 0 <= m2 < m ==> #[trigger] entry@[m2] == before[m2]);
            assert(entry@[m as int] == cell);
        }
        m = m + 1;
    }
    proof {
        assert(rolls@.take(21) =~= rolls@);
        assert forall|m2: int, h: int|
            0 <= m2 < entry@.len() && 0 <= h < (#[trigger] entry@[m2]).1@.len()
                implies #[trigger] entry@[m2].1@[h] < 10732176 by {
            assert(roll_slots_ok(*pos, m2, entry@[m2]));
        }
    }
    entry
}

/// For every running position, its table slot and its transition record: for
/// each of the 21 rolls the roll's weight and the slots of exactly the
/// roll's moves. The weights of every record sum to 36 and every slot fits
/// the table.
pub fn posmap_entries(ongoing: &Vec<State>) -> (r: Vec<(usize, Vec<(u32, Vec<usize>)>)>)
    requires
        forall|k: int|
            0 <= k < ongoing@.len() ==> (#[trigger] ongoing@[k]).wf() && ongoing@[k].x_total()
                == 3 && ongoing@[k].o_total() == 3,
    ensures
        r@.len() == ongoing@.len(),
        forall|k: int|
            0 <= k < r@.len() ==> (#[trigger] r@[k]).0 == dbhash_spec(ongoing@[k]) && r@[k].0
                < 10732176 && entry_weight_sum(r@[k].1@) == 36 && entry_hashes_ok(r@[k].1@)
                && entry_describes(ongoing@[k], r@[k].1@),
{
    let rolls = crate::dice::all_21();
    let mut r: Vec<(usize, Vec<(u32, Vec<usize>)>)> = Vec::new();
    let mut k: usize = 0;
    while k < ongoing.len()
        invariant
            forall|k2: int|
                0 <= k2 < ongoing@.len() ==> (#[trigger] ongoing@[k2]).wf()
                    && ongoing@[k2].x_total() == 3 && ongoing@[k2].o_total() == 3,
            rolls@.len() == 21,
            forall|j: int| 0 <= j < 21 ==> (#[trigger] rolls@[j]).0 == crate::dice::roll21(j),
            forall|j: int| 0 <= j < 21 ==> crate::dice::dice_wf((#[trigger] rolls@[j]).0),
            forall|j: int|
                0 <= j < 21 ==> ((#[trigger] rolls@[j]).1 == if rolls@[j].0 is Double {
                    1int
                } else {
                    2int
                }),
            crate::dice::weight_sum(rolls@) == 36,
            0 <= k <= ongoing@.len(),
            r@.len() == k,
            forall|k2: int|
                0 <= k2 < r@.len() ==> (#[trigger] r@[k2]).0 == dbhash_spec(ongoing@[k2])
                    && r@[k2].0 < 10732176 && entry_weight_sum(r@[k2].1@) == 36
                    && entry_hashes_ok(r@[k2].1@) && entry_describes(ongoing@[k2], r@[k2].1@),
        decreases ongoing@.len() - k,
    {
        let pos = ongoing[k];
        let entry = roll_entry(&pos, &rolls);
        r.push((pos.dbhash(), entry));
        k = k + 1;
    }
    r
}

} // verus!

verus! {

/// The table really has that many slots.
pub proof fn lemma_table_size()
    ensures
        table_size() == 10732176,
{
    lemma_mcomb_26_3();
    assert(3276int * 3276int == 10732176int) by (nonlinear_arith);
}

/// Checks that an equity table has one slot per pair of side ranks, and
/// reports the shape mismatch otherwise.
pub fn check_table_len(len: usize) -> (r: Result<(), crate::Error>)
    ensures
        match r {
            Ok(u) => len as int == table_size(),
            Err(e) => e == crate::Error::DatabaseShapeMismatch && len as int != table_size(),
        },
{
    proof {
        lemma_table_size();
    }
    if len == 10732176 {
        Ok(())
    } else {
        Err(crate::Error::DatabaseShapeMismatch)
    }
}

} // verus!

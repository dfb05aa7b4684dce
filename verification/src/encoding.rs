//! The canonical 10-byte position key.
//!
//! A position is written as an 80-bit little-endian stream: for the opponent,
//! the points from 24 down to 1, one `1` bit per checker and a `0` after each
//! point, then the opponent's bar the same way; then the same for the player
//! on roll, whose final bar run has no terminator. The rest of the stream is
//! zero. Bit `i` of the stream is bit `i % 8` of byte `i / 8`.

use vstd::prelude::*;
use crate::position::{State, o_sum, x_sum};

verus! {

/// Checkers of `o` on slot `i`, as a count.
pub open spec fn o_cnt(s: State, i: int) -> nat {
    if s.pips@[i] < 0 {
        (-(s.pips@[i] as int)) as nat
    } else {
        0
    }
}

/// Checkers of `x` on slot `i`, as a count.
pub open spec fn x_cnt(s: State, i: int) -> nat {
    if s.pips@[i] > 0 {
        s.pips@[i] as nat
    } else {
        0
    }
}

/// The fifty runs of the key, in stream order: the opponent's points from 24
/// down to 1, the opponent's bar, the mover's points from 1 to 24, the
/// mover's bar.
pub open spec fn counts_of(s: State) -> Seq<nat> {
    Seq::new(50, |k: int|
        if k < 24 {
            o_cnt(s, 24 - k)
        } else if k == 24 {
            o_cnt(s, 0)
        } else if k < 49 {
            x_cnt(s, k - 24)
        } else {
            x_cnt(s, 25)
        })
}

/// `c` ones.
pub open spec fn unary(c: nat) -> Seq<bool> {
    Seq::new(c, |i: int| true)
}

/// The first `k` runs as bits; every run but the last carries a `0`
/// terminator.
pub open spec fn pstream(c: Seq<nat>, k: int) -> Seq<bool>
    decreases k,
{
    if k <= 0 {
        Seq::empty()
    } else {
        pstream(c, k - 1) + unary(c[k - 1]) + if k - 1 < 49 {
            seq![false]
        } else {
            Seq::empty()
        }
    }
}

/// Sum of the first `k` counts.
pub open spec fn csum(c: Seq<nat>, k: int) -> int
    decreases k,
{
    if k <= 0 {
        0
    } else {
        csum(c, k - 1) + c[k - 1]
    }
}

pub proof fn lemma_pstream_len(c: Seq<nat>, k: int)
    requires
        0 <= k <= 50,
    ensures
        pstream(c, k).len() == csum(c, k) + if k <= 49 { k } else { 49 },
    decreases k,
{
    if k > 0 {
        lemma_pstream_len(c, k - 1);
    }
}

pub proof fn lemma_csum_nonneg(c: Seq<nat>, k: int)
    ensures
        csum(c, k) >= 0,
    decreases k,
{
    if k > 0 {
        lemma_csum_nonneg(c, k - 1);
    }
}

/// The sums of one side's runs equal that side's checker count on board and
/// bar.
pub proof fn lemma_counts_sum_o(s: State, k: int)
    requires
        0 <= k <= 25,
    ensures
        csum(counts_of(s), k) == o_sum(s.pips@, 25) - o_sum(s.pips@, 25 - k),
    decreases k,
{
    if k > 0 {
        lemma_counts_sum_o(s, k - 1);
    }
}

pub proof fn lemma_counts_sum_x(s: State, k: int)
    requires
        25 <= k <= 50,
    ensures
        csum(counts_of(s), k) == csum(counts_of(s), 25) + x_sum(s.pips@, k - 24) - x_sum(s.pips@, 1),
    decreases k,
{
    if k > 25 {
        lemma_counts_sum_x(s, k - 1);
    }
}

/// The whole stream of a well-formed position fits: at most 30 checker bits
/// and 49 separators.
pub proof fn lemma_counts_total(s: State)
    ensures
        csum(counts_of(s), 50) == s.o_count() + s.x_count() - x_cnt(s, 0) - o_cnt(s, 25),
        csum(counts_of(s), 25) == s.o_count() - o_cnt(s, 25),
{
    lemma_counts_sum_o(s, 25);
    lemma_counts_sum_x(s, 50);
    reveal_with_fuel(x_sum, 2);
    reveal_with_fuel(o_sum, 2);
    assert(o_sum(s.pips@, 26) == o_sum(s.pips@, 25) + o_cnt(s, 25));
    assert(x_sum(s.pips@, 1) == x_cnt(s, 0));
}

} // verus!

verus! {

/// Two to the power `i`, for one byte's worth of bits.
pub open spec fn pow2_small(i: int) -> int {
    if i == 0 {
        1
    } else if i == 1 {
        2
    } else if i == 2 {
        4
    } else if i == 3 {
        8
    } else if i == 4 {
        16
    } else if i == 5 {
        32
    } else if i == 6 {
        64
    } else {
        128
    }
}

/// Bit `i` of byte `b`, little endian.
#[verifier::opaque]
pub open spec fn bit_of_byte(b: u8, i: int) -> bool {
    ((b as int) / pow2_small(i)) % 2 == 1
}

/// The 80 bits a 10-byte key carries: bit `i` lives in byte `i / 8` at
/// position `i % 8`.
pub open spec fn key_bits(key: Seq<u8>) -> Seq<bool> {
    Seq::new(80, |i: int| bit_of_byte(key[i / 8], i % 8))
}

/// A stream of fewer than 80 bits, filled with zeros to 80.
pub open spec fn pad80(b: Seq<bool>) -> Seq<bool> {
    if b.len() <= 80 {
        b + Seq::new((80 - b.len()) as nat, |i: int| false)
    } else {
        b
    }
}

/// The canonical bit stream of a position.
#[verifier::opaque]
pub open spec fn enc_bits(s: State) -> Seq<bool> {
    pad80(pstream(counts_of(s), 50))
}

/// A byte built from eight bit values carries each of them at its place.
pub proof fn lemma_byte_of_bits(t0: u8, t1: u8, t2: u8, t3: u8, t4: u8, t5: u8, t6: u8, t7: u8)
    requires
        t0 <= 1,
        t1 <= 1,
        t2 <= 1,
        t3 <= 1,
        t4 <= 1,
        t5 <= 1,
        t6 <= 1,
        t7 <= 1,
    ensures
        ({
            let b = (t0 + 2 * t1 + 4 * t2 + 8 * t3 + 16 * t4 + 32 * t5 + 64 * t6 + 128 * t7) as u8;
            &&& bit_of_byte(b, 0) == (t0 == 1)
            &&& bit_of_byte(b, 1) == (t1 == 1)
            &&& bit_of_byte(b, 2) == (t2 == 1)
            &&& bit_of_byte(b, 3) == (t3 == 1)
            &&& bit_of_byte(b, 4) == (t4 == 1)
            &&& bit_of_byte(b, 5) == (t5 == 1)
            &&& bit_of_byte(b, 6) == (t6 == 1)
            &&& bit_of_byte(b, 7) == (t7 == 1)
        }),
{
    reveal(bit_of_byte);
    let b = (t0 + 2 * t1 + 4 * t2 + 8 * t3 + 16 * t4 + 32 * t5 + 64 * t6 + 128 * t7) as int;
    assert(b / 2 == t1 + 2 * t2 + 4 * t3 + 8 * t4 + 16 * t5 + 32 * t6 + 64 * t7);
    assert(b / 4 == t2 + 2 * t3 + 4 * t4 + 8 * t5 + 16 * t6 + 32 * t7);
    assert(b / 8 == t3 + 2 * t4 + 4 * t5 + 8 * t6 + 16 * t7);
    assert(b / 16 == t4 + 2 * t5 + 4 * t6 + 8 * t7);
    assert(b / 32 == t5 + 2 * t6 + 4 * t7);
    assert(b / 64 == t6 + 2 * t7);
    assert(b / 128 == t7);
}

/// Builds one byte out of eight bits of the stream.
#[verifier::rlimit(50)]
fn pack8(bits: &Vec<bool>, base: usize) -> (r: u8)
    requires
        base + 8 <= bits@.len(),
    ensures
        forall|i: int| 0 <= i < 8 ==> bit_of_byte(r, i) == bits@[base + i],
{
    let n = bits.len();
    assert(base + 8 <= n);
    let t0: u8 = if bits[base] { 1 } else { 0 };
    let t1: u8 = if bits[base + 1] { 1 } else { 0 };
    let t2: u8 = if bits[base + 2] { 1 } else { 0 };
    let t3: u8 = if bits[base + 3] { 1 } else { 0 };
    let t4: u8 = if bits[base + 4] { 1 } else { 0 };
    let t5: u8 = if bits[base + 5] { 1 } else { 0 };
    let t6: u8 = if bits[base + 6] { 1 } else { 0 };
    let t7: u8 = if bits[base + 7] { 1 } else { 0 };
    let b: u8 = t0 + 2 * t1 + 4 * t2 + 8 * t3 + 16 * t4 + 32 * t5 + 64 * t6 + 128 * t7;
    proof {
        lemma_byte_of_bits(t0, t1, t2, t3, t4, t5, t6, t7);
        assert(bit_of_byte(b, 0) == bits@[base as int]);
        assert(bit_of_byte(b, 1) == bits@[base + 1]);
        assert(bit_of_byte(b, 2) == bits@[base + 2]);
        assert(bit_of_byte(b, 3) == bits@[base + 3]);
        assert(bit_of_byte(b, 4) == bits@[base + 4]);
        assert(bit_of_byte(b, 5) == bits@[base + 5]);
        assert(bit_of_byte(b, 6) == bits@[base + 6]);
        assert(bit_of_byte(b, 7) == bits@[base + 7]);
        assert(forall|i: int| 0 <= i < 8 ==> bit_of_byte(b, i) == bits@[base + i]);
    }
    b
}

impl State {
    /// The canonical 10-byte key of this position.
    pub fn encode(&self) -> (r: [u8; 10])
        requires
            self.wf(),
        ensures
            key_bits(r@) =~= enc_bits(*self),
    {
        let ghost s = *self;
        let ghost c = counts_of(s);
        proof {
            reveal(enc_bits);
            lemma_counts_total(s);
            lemma_pstream_len(c, 50);
        }
        // The fifty run lengths in stream order.
        let mut counts: Vec<u8> = Vec::new();
        let mut k: usize = 0;
        while k < 50
            invariant
                s.wf(),
                s == *self,
                c == counts_of(s),
                0 <= k <= 50,
                counts@.len() == k,
                forall|j: int| 0 <= j < k ==> counts@[j] as nat == c[j],
            decreases 50 - k,
        {
            let v: i8 = if k < 24 {
                let p = self.pips[24 - k];
                if p < 0 {
                    -p
                } else {
                    0
                }
            } else if k == 24 {
                let p = self.pips[0];
                if p < 0 {
                    -p
                } else {
                    0
                }
            } else if k < 49 {
                let p = self.pips[k - 24];
                if p > 0 {
                    p
                } else {
                    0
                }
            } else {
                let p = self.pips[25];
                if p > 0 {
                    p
                } else {
                    0
                }
            };
            counts.push(v as u8);
            k = k + 1;
        }
        // The bit stream: each run as ones, a zero after every run but the
        // last, zeros to fill the 80 bits.
        let mut bits: Vec<bool> = Vec::new();
        let mut k: usize = 0;
        while k < 50
            invariant
                0 <= k <= 50,
                counts@.len() == 50,
                forall|j: int| 0 <= j < 50 ==> counts@[j] as nat == c[j],
                bits@ =~= pstream(c, k as int),
                csum(c, 50) <= 30,
            decreases 50 - k,
        {
            proof {
                lemma_pstream_len(c, k as int);
                lemma_csum_nonneg(c, k as int);
            }
            let run = counts[k];
            let mut m: u8 = 0;
            while m < run
                invariant
                    m <= run,
                    run as nat == c[k as int],
                    0 <= k < 50,
                    bits@ =~= pstream(c, k as int) + unary(m as nat),
                decreases run - m,
            {
                bits.push(true);
                proof {
                    assert(bits@ =~= pstream(c, k as int) + unary((m + 1) as nat));
                }
                m = m + 1;
            }
            if k < 49 {
                bits.push(false);
            }
            proof {
                assert(bits@ =~= pstream(c, (k + 1) as int));
            }
            k = k + 1;
        }
        proof {
            lemma_pstream_len(c, 50);
        }
        while bits.len() < 80
            invariant
                pstream(c, 50).len() <= bits@.len() <= 80,
                bits@ =~= pad80(pstream(c, 50)).take(bits@.len() as int),
            decreases 80 - bits@.len(),
        {
            bits.push(false);
        }
        let mut key = [0u8; 10];
        let mut j: usize = 0;
        while j < 10
            invariant
                0 <= j <= 10,
                bits@.len() == 80,
                bits@ =~= enc_bits(s),
                forall|i: int| 0 <= i < 8 * j ==> bit_of_byte(key@[i / 8], i % 8) == bits@[i],
            decreases 10 - j,
        {
            let b = pack8(&bits, 8 * j);
            key[j] = b;
            proof {
                assert(forall|i: int|
                    8 * j <= i < 8 * j + 8 ==> #[trigger] (i / 8) == j && i % 8 == i - 8 * j);
            }
            j = j + 1;
        }
        key
    }
}

} // verus!

verus! {

/// Length of the run of ones starting at bit `i`.
pub open spec fn parse_run(bits: Seq<bool>, i: int) -> nat
    decreases bits.len() - i,
{
    if i < 0 || i >= bits.len() || !bits[i] {
        0
    } else {
        (1int + parse_run(bits, i + 1)) as nat
    }
}

/// Where run `k` starts: after the previous run and, for all but the last
/// run, its terminator.
pub open spec fn run_start(bits: Seq<bool>, k: int) -> int
    decreases k,
{
    if k <= 0 {
        0
    } else {
        let s = run_start(bits, k - 1);
        s + parse_run(bits, s) + if k - 1 < 49 {
            1int
        } else {
            0int
        }
    }
}

/// The length of run `k`.
pub open spec fn run_len(bits: Seq<bool>, k: int) -> nat {
    parse_run(bits, run_start(bits, k))
}

/// Sum of the run lengths in `[a, b)`.
pub open spec fn runs_sum(bits: Seq<bool>, a: int, b: int) -> int
    decreases b - a,
{
    if b <= a {
        0
    } else {
        runs_sum(bits, a, b - 1) + run_len(bits, b - 1)
    }
}

/// A key parses: all fifty runs and their terminators lie within the 80
/// bits, and nothing but zeros follows the last run.
pub open spec fn parses_ok(bits: Seq<bool>) -> bool {
    &&& bits.len() == 80
    &&& forall|k: int| 0 <= k < 49 ==> run_start(bits, k) + run_len(bits, k) < 80
    &&& forall|i: int|
        run_start(bits, 49) + run_len(bits, 49) <= i < 80 ==> !bits[i]
}

/// The opponent's checkers a key carries: 24 points and the bar.
pub open spec fn o_side(bits: Seq<bool>) -> int {
    runs_sum(bits, 0, 25)
}

/// The mover's checkers a key carries: 24 points and the bar.
pub open spec fn x_side(bits: Seq<bool>) -> int {
    runs_sum(bits, 25, 50)
}

/// A key decodes for `n` checkers a side: it parses, neither side carries
/// more than `n` checkers, and no point carries checkers of both colours.
pub open spec fn decodable(bits: Seq<bool>, n: int) -> bool {
    &&& parses_ok(bits)
    &&& o_side(bits) <= n
    &&& x_side(bits) <= n
    &&& forall|i: int| 1 <= i <= 24 ==> #[trigger] run_len(bits, 24 - i) == 0 || run_len(bits, 24 + i) == 0
}

/// What a run means: `parse_run` stays in bounds, covers ones only, and
/// stops at a zero.
pub proof fn lemma_parse_run_props(bits: Seq<bool>, i: int)
    requires
        0 <= i <= bits.len(),
    ensures
        i + parse_run(bits, i) <= bits.len(),
        forall|j: int| i <= j < i + parse_run(bits, i) ==> bits[j],
        i + parse_run(bits, i) < bits.len() ==> !bits[i + parse_run(bits, i)],
    decreases bits.len() - i,
{
    if i < bits.len() && bits[i] {
        lemma_parse_run_props(bits, i + 1);
    }
}

/// A run of `m` ones closed by a zero or the end parses to exactly `m`.
pub proof fn lemma_parse_run_exact(bits: Seq<bool>, i: int, m: int)
    requires
        0 <= i,
        m >= 0,
        i + m <= bits.len(),
        forall|j: int| i <= j < i + m ==> bits[j],
        i + m == bits.len() || !bits[i + m],
    ensures
        parse_run(bits, i) == m,
    decreases m,
{
    if m > 0 {
        lemma_parse_run_exact(bits, i + 1, m - 1);
    }
}

/// Shorter prefixes of the run stream are prefixes of longer ones.
pub proof fn lemma_pstream_prefix(c: Seq<nat>, m1: int, m2: int)
    requires
        0 <= m1 <= m2,
    ensures
        pstream(c, m1).len() <= pstream(c, m2).len(),
        forall|p: int| 0 <= p < pstream(c, m1).len() ==> pstream(c, m2)[p] == pstream(c, m1)[p],
    decreases m2,
{
    if m2 > m1 {
        lemma_pstream_prefix(c, m1, m2 - 1);
    }
}

/// Parsing the printed stream of fifty counts gives the counts back: run `k`
/// of the padded stream starts where the print put it and has length `c[k]`.
pub proof fn lemma_parse_of_print(c: Seq<nat>, k: int)
    requires
        c.len() == 50,
        csum(c, 50) + 49 <= 79,
        0 <= k <= 49,
    ensures
        run_start(pad80(pstream(c, 50)), k) == csum(c, k) + k,
        run_len(pad80(pstream(c, 50)), k) == c[k],
    decreases k,
{
    let bits = pad80(pstream(c, 50));
    lemma_pstream_len(c, 50);
    lemma_csum_nonneg(c, k);
    lemma_csum_nonneg(c, 50);
    if k > 0 {
        lemma_parse_of_print(c, k - 1);
        lemma_csum_nonneg(c, k - 1);
    }
    // run k occupies [csum(c, k) + k, csum(c, k) + k + c[k]) in pstream(c, k + 1).
    let start = csum(c, k) + k;
    lemma_pstream_len(c, k);
    lemma_pstream_len(c, k + 1);
    lemma_pstream_prefix(c, k, 50);
    lemma_pstream_prefix(c, k + 1, 50);
    // Sums from k + 1 to 50 are nonnegative, so start + c[k] stays below 80.
    assert(csum(c, 50) >= csum(c, k + 1)) by {
        lemma_csum_monotone(c, k + 1, 50);
    }
    assert(forall|j: int| start <= j < start + c[k] ==> bits[j]) by {
        assert(forall|j: int|
            start <= j < start + c[k] ==> #[trigger] pstream(c, k + 1)[j] == unary(c[k])[j - start]);
    }
    if k < 49 {
        assert(pstream(c, k + 1)[start + c[k]] == false);
        assert(!bits[start + c[k]]);
        lemma_parse_run_exact(bits, start, c[k] as int);
    } else {
        // The final run is followed by padding zeros only.
        assert(!bits[start + c[k]]);
        lemma_parse_run_exact(bits, start, c[k] as int);
    }
}

pub proof fn lemma_csum_monotone(c: Seq<nat>, a: int, b: int)
    requires
        a <= b,
    ensures
        csum(c, a) <= csum(c, b),
    decreases b - a,
{
    if b > a {
        lemma_csum_monotone(c, a, b - 1);
    }
}

} // verus!

verus! {

/// The run lengths a key carries.
pub open spec fn parsed_counts(bits: Seq<bool>) -> Seq<nat> {
    Seq::new(50, |k: int| run_len(bits, k))
}

/// Printing the parsed counts reproduces the key, prefix by prefix: run `k`
/// starts after `k` separators and the checkers before it, and the bits up to
/// there are the printed stream of the first `k` counts.
pub proof fn lemma_print_of_parse(bits: Seq<bool>, k: int)
    requires
        parses_ok(bits),
        0 <= k <= 50,
    ensures
        run_start(bits, k) == csum(parsed_counts(bits), k) + if k <= 49 { k } else { 49int },
        run_start(bits, k) <= 80,
        bits.take(run_start(bits, k)) =~= pstream(parsed_counts(bits), k),
    decreases k,
{
    let c = parsed_counts(bits);
    if k > 0 {
        lemma_print_of_parse(bits, k - 1);
        let s = run_start(bits, k - 1);
        let m = run_len(bits, k - 1) as int;
        lemma_csum_nonneg(c, k - 1);
        assert(s >= 0);
        lemma_parse_run_props(bits, s);
        assert(c[k - 1] == run_len(bits, k - 1));
        assert(bits.take(s).len() == s);
        if k - 1 < 49 {
            assert(run_start(bits, k - 1) + run_len(bits, k - 1) < 80);
            assert(s + m < 80);
            assert(!bits[s + m]);
            assert(run_start(bits, k) == s + m + 1);
        } else {
            assert(s + m <= 80);
            assert(run_start(bits, k) == s + m);
        }
        let prev = pstream(c, k - 1);
        let cur = pstream(c, k);
        assert(prev.len() == s);
        assert(cur.len() == run_start(bits, k));
        assert forall|j: int| 0 <= j < cur.len() implies cur[j] == bits[j] by {
            if j < s {
                assert(bits.take(s)[j] == bits[j]);
                assert(prev[j] == bits[j]);
                assert(cur[j] == prev[j]);
            } else if j < s + m {
                assert(bits[j]);
                assert(cur[j] == unary(c[k - 1])[j - s]);
            } else {
                assert(j == s + m && k - 1 < 49);
                assert(cur[j] == false);
            }
        }
        assert(bits.take(run_start(bits, k)) =~= pstream(c, k));
    }
}

/// Run sums agree with the prefix sums of any matching counts.
pub proof fn lemma_runs_sum_eq(bits: Seq<bool>, c: Seq<nat>, a: int, b: int)
    requires
        0 <= a <= b,
        forall|k: int| a <= k < b ==> #[trigger] run_len(bits, k) == c[k],
    ensures
        runs_sum(bits, a, b) == csum(c, b) - csum(c, a),
    decreases b - a,
{
    if b > a {
        lemma_runs_sum_eq(bits, c, a, b - 1);
    }
}

/// The stream of a well-formed position with `n` checkers a side parses, and
/// its runs are the position's counts.
pub proof fn lemma_state_decodable(s: State, n: int)
    requires
        s.wf(),
        s.x_total() == n,
        s.o_total() == n,
    ensures
        decodable(enc_bits(s), n),
        forall|k: int| 0 <= k <= 49 ==> #[trigger] run_len(enc_bits(s), k) == counts_of(s)[k],
{
    reveal(enc_bits);
    let c = counts_of(s);
    let bits = enc_bits(s);
    lemma_counts_total(s);
    assert(x_cnt(s, 0) == 0);
    assert(o_cnt(s, 25) == 0);
    lemma_pstream_len(c, 50);
    assert(forall|k: int| 0 <= k <= 49 ==> #[trigger] run_len(bits, k) == c[k]
        && run_start(bits, k) == csum(c, k) + k) by {
        assert forall|k: int| 0 <= k <= 49 implies #[trigger] run_len(bits, k) == c[k]
            && run_start(bits, k) == csum(c, k) + k by {
            lemma_parse_of_print(c, k);
        }
    }
    assert(forall|k: int| 0 <= k < 49 ==> run_start(bits, k) + #[trigger] run_len(bits, k) < 80)
        by {
        assert forall|k: int| 0 <= k < 49 implies run_start(bits, k) + #[trigger] run_len(bits, k)
            < 80 by {
            lemma_csum_monotone(c, k + 1, 50);
        }
    }
    assert(forall|i: int| run_start(bits, 49) + run_len(bits, 49) <= i < 80 ==> !bits[i]) by {
        lemma_csum_monotone(c, 50, 50);
    }
    lemma_runs_sum_eq(bits, c, 0, 25);
    lemma_runs_sum_eq(bits, c, 25, 50);
    lemma_counts_sum_o(s, 25);
    lemma_counts_sum_x(s, 50);
    reveal_with_fuel(o_sum, 2);
    reveal_with_fuel(x_sum, 2);
    assert(o_side(bits) == s.o_count() - o_cnt(s, 25));
    assert(x_side(bits) == csum(c, 50) - csum(c, 25));
    assert(forall|i: int| 1 <= i <= 24 ==> #[trigger] run_len(bits, 24 - i) == 0 || run_len(
        bits, 24 + i) == 0);
}

/// Two well-formed positions with the same stream are the same position: the
/// parsed runs pin every pip, both bars and, through the checker total, both
/// borne-off counts.
pub proof fn lemma_enc_injective(s1: State, s2: State, nx: int, no: int)
    requires
        s1.wf(),
        s2.wf(),
        s1.x_total() == nx,
        s1.o_total() == no,
        s2.x_total() == nx,
        s2.o_total() == no,
        enc_bits(s1) == enc_bits(s2),
    ensures
        s1 == s2,
{
    reveal(enc_bits);
    let c1 = counts_of(s1);
    let c2 = counts_of(s2);
    lemma_counts_total(s1);
    lemma_counts_total(s2);
    assert(x_cnt(s1, 0) == 0 && o_cnt(s1, 25) == 0);
    assert(x_cnt(s2, 0) == 0 && o_cnt(s2, 25) == 0);
    assert forall|k: int| 0 <= k <= 49 implies c1[k] == c2[k] by {
        lemma_parse_of_print(c1, k);
        lemma_parse_of_print(c2, k);
        assert(run_len(enc_bits(s1), k) == c1[k]);
        assert(run_len(enc_bits(s2), k) == c2[k]);
    }
    assert forall|i: int| 0 <= i < 26 implies s1.pips@[i] == s2.pips@[i] by {
        if i == 0 {
            assert(o_cnt(s1, 0) == c1[24] && o_cnt(s2, 0) == c2[24]);
        } else if i == 25 {
            assert(x_cnt(s1, 25) == c1[49] && x_cnt(s2, 25) == c2[49]);
        } else {
            assert(o_cnt(s1, i) == c1[24 - i] && o_cnt(s2, i) == c2[24 - i]);
            assert(x_cnt(s1, i) == c1[24 + i] && x_cnt(s2, i) == c2[24 + i]);
        }
    }
    assert(s1.pips@ =~= s2.pips@);
    assert(s1.pips =~= s2.pips);
    lemma_counts_total(s1);
    lemma_counts_total(s2);
    lemma_counts_sum_o(s1, 25);
    lemma_counts_sum_o(s2, 25);
    assert(csum(c1, 25) == csum(c2, 25)) by {
        lemma_csum_eq_pointwise(c1, c2, 25);
    }
    assert(csum(c1, 50) == csum(c2, 50)) by {
        lemma_csum_eq_pointwise(c1, c2, 50);
    }
    assert(s1.x_off == s2.x_off);
    assert(s1.o_off == s2.o_off);
}

pub proof fn lemma_csum_eq_pointwise(c1: Seq<nat>, c2: Seq<nat>, k: int)
    requires
        forall|j: int| 0 <= j < k ==> c1[j] == c2[j],
    ensures
        csum(c1, k) == csum(c2, k),
    decreases k,
{
    if k > 0 {
        lemma_csum_eq_pointwise(c1, c2, k - 1);
    }
}

} // verus!

verus! {

/// Nothing in a sum of runs is negative.
pub proof fn lemma_runs_sum_nonneg(bits: Seq<bool>, a: int, b: int)
    ensures
        runs_sum(bits, a, b) >= 0,
    decreases b - a,
{
    if b > a {
        lemma_runs_sum_nonneg(bits, a, b - 1);
    }
}

/// One run is at most the sum of the runs around it.
pub proof fn lemma_run_le_sum(bits: Seq<bool>, a: int, b: int, j: int)
    requires
        a <= j < b,
    ensures
        run_len(bits, j) as int <= runs_sum(bits, a, b),
    decreases b - a,
{
    lemma_runs_sum_nonneg(bits, a, j);
    if j < b - 1 {
        lemma_run_le_sum(bits, a, b - 1, j);
    }
}

/// Reads bit `i` of the key.
fn get_bit(key: &[u8; 10], i: usize) -> (r: bool)
    requires
        i < 80,
    ensures
        r == key_bits(key@)[i as int],
{
    let j = i / 8;
    let o = i % 8;
    let b = key[j];
    let d: u8 = match o {
        0 => 1,
        1 => 2,
        2 => 4,
        3 => 8,
        4 => 16,
        5 => 32,
        6 => 64,
        _ => 128,
    };
    let r = (b / d) % 2 == 1;
    proof {
        reveal(bit_of_byte);
        assert(d as int == pow2_small(o as int));
        assert(key_bits(key@)[i as int] == bit_of_byte(key@[i as int / 8], i as int % 8));
    }
    r
}

impl State {
    /// Reads a position back from its 10-byte key, for `checkers` checkers a
    /// side. The key is rejected when its bit stream breaks the grammar, when
    /// a side carries more than `checkers` checkers, or when a point carries
    /// checkers of both colours.
    pub fn decode(key: [u8; 10], checkers: u8) -> (r: Result<State, crate::Error>)
        requires
            checkers <= 15,
        ensures
            match r {
                Ok(s) => decodable(key_bits(key@), checkers as int) && s.wf() && s.x_total()
                    == checkers && s.o_total() == checkers && key_bits(key@) =~= enc_bits(s),
                Err(e) => e == crate::Error::InvalidPositionId && !decodable(
                    key_bits(key@), checkers as int),
            },
    {
        let ghost bits = key_bits(key@);
        let mut counts: Vec<u8> = Vec::new();
        let mut idx: usize = 0;
        let mut k: usize = 0;
        while k < 50
            invariant
                bits == key_bits(key@),
                bits.len() == 80,
                0 <= k <= 50,
                counts@.len() == k,
                idx <= 80,
                idx as int == run_start(bits, k as int),
                forall|j: int| 0 <= j < k ==> counts@[j] as nat == run_len(bits, j),
                forall|j: int|
                    0 <= j < k && j < 49 ==> run_start(bits, j) + run_len(bits, j) < 80,
            decreases 50 - k,
        {
            let ghost idx0 = idx as int;
            let mut c: u8 = 0;
            loop
                invariant
                    bits == key_bits(key@),
                    bits.len() == 80,
                    idx0 <= idx as int <= 80,
                    c as int == idx as int - idx0,
                    parse_run(bits, idx0) == (idx as int - idx0) + parse_run(bits, idx as int),
                ensures
                    idx as int == idx0 + c,
                    parse_run(bits, idx0) == c as nat,
                    idx as int <= 80,
                    idx0 <= idx as int,
                    c as int == idx as int - idx0,
                    bits == key_bits(key@),
                decreases 80 - idx,
            {
                if idx >= 80 {
                    break;
                }
                if !get_bit(&key, idx) {
                    break;
                }
                idx = idx + 1;
                c = c + 1;
            }
            counts.push(c);
            if k < 49 {
                if idx >= 80 {
                    proof {
                        assert(run_start(bits, k as int) + run_len(bits, k as int) >= 80);
                        assert(!parses_ok(bits));
                    }
                    return Err(crate::Error::InvalidPositionId);
                }
                idx = idx + 1;
            }
            k = k + 1;
        }
        // Everything after the last run must be zero.
        let ghost rs50 = run_start(bits, 50);
        let mut t: usize = idx;
        while t < 80
            invariant
                bits == key_bits(key@),
                bits.len() == 80,
                idx <= t <= 80,
                idx as int == rs50,
                rs50 == run_start(bits, 49) + run_len(bits, 49),
                forall|i: int| rs50 <= i < t ==> !bits[i],
            decreases 80 - t,
        {
            if get_bit(&key, t) {
                proof {
                    assert(!parses_ok(bits));
                }
                return Err(crate::Error::InvalidPositionId);
            }
            t = t + 1;
        }
        proof {
            assert(parses_ok(bits));
        }
        // Neither side may carry more checkers than the variant grants.
        let mut o_tot: u32 = 0;
        let mut j: usize = 0;
        while j < 25
            invariant
                bits == key_bits(key@),
                bits.len() == 80,
                0 <= j <= 25,
                counts@.len() == 50,
                forall|i: int| 0 <= i < 50 ==> counts@[i] as nat == run_len(bits, i),
                o_tot as int == runs_sum(bits, 0, j as int),
                o_tot <= 255 * j,
            decreases 25 - j,
        {
            proof {
                lemma_runs_sum_nonneg(bits, 0, j as int);
            }
            o_tot = o_tot + counts[j] as u32;
            j = j + 1;
        }
        if o_tot > checkers as u32 {
            return Err(crate::Error::InvalidPositionId);
        }
        let mut x_tot: u32 = 0;
        let mut j: usize = 25;
        while j < 50
            invariant
                bits == key_bits(key@),
                bits.len() == 80,
                25 <= j <= 50,
                counts@.len() == 50,
                forall|i: int| 0 <= i < 50 ==> counts@[i] as nat == run_len(bits, i),
                x_tot as int == runs_sum(bits, 25, j as int),
                x_tot <= 255 * (j - 25),
            decreases 50 - j,
        {
            proof {
                lemma_runs_sum_nonneg(bits, 25, j as int);
            }
            x_tot = x_tot + counts[j] as u32;
            j = j + 1;
        }
        if x_tot > checkers as u32 {
            return Err(crate::Error::InvalidPositionId);
        }
        // No point may carry checkers of both colours.
        let mut i: usize = 1;
        while i <= 24
            invariant
                bits == key_bits(key@),
                bits.len() == 80,
                parses_ok(bits),
                1 <= i <= 25,
                counts@.len() == 50,
                forall|i2: int| 0 <= i2 < 50 ==> counts@[i2] as nat == run_len(bits, i2),
                forall|i2: int|
                    1 <= i2 < i ==> #[trigger] run_len(bits, 24 - i2) == 0 || run_len(
                        bits, 24 + i2) == 0,
            decreases 25 - i,
        {
            if counts[24 - i] > 0 && counts[24 + i] > 0 {
                proof {
                    assert(run_len(bits, 24 - i as int) != 0 && run_len(bits, 24 + i as int) != 0);
                    assert(!decodable(bits, checkers as int));
                }
                return Err(crate::Error::InvalidPositionId);
            }
            i = i + 1;
        }
        // Rebuild the position from the runs.
        let mut pips = [0i8; 26];
        let mut i: usize = 1;
        while i <= 24
            invariant
                bits == key_bits(key@),
                bits.len() == 80,
                parses_ok(bits),
                1 <= i <= 25,
                counts@.len() == 50,
                o_tot <= 15,
                x_tot <= 15,
                o_tot as int == runs_sum(bits, 0, 25),
                x_tot as int == runs_sum(bits, 25, 50),
                forall|i2: int| 0 <= i2 < 50 ==> counts@[i2] as nat == run_len(bits, i2),
                forall|i2: int|
                    1 <= i2 <= 24 ==> #[trigger] run_len(bits, 24 - i2) == 0 || run_len(
                        bits, 24 + i2) == 0,
                pips@.len() == 26,
                pips@[0] == 0,
                pips@[25] == 0,
                forall|i2: int| i <= i2 <= 24 ==> pips@[i2] == 0,
                forall|i2: int|
                    1 <= i2 < i ==> (if counts@[24 + i2] > 0 {
                        pips@[i2] as int == counts@[24 + i2] as int
                    } else {
                        pips@[i2] as int == -(counts@[24 - i2] as int)
                    }),
            decreases 25 - i,
        {
            let oc = counts[24 - i];
            let xc = counts[24 + i];
            proof {
                lemma_run_le_sum(bits, 0, 25, 24 - i as int);
                lemma_run_le_sum(bits, 25, 50, 24 + i as int);
                assert(oc <= 15);
                assert(xc <= 15);
            }
            if xc > 0 {
                pips[i] = xc as i8;
            } else if oc > 0 {
                pips[i] = -(oc as i8);
            }
            i = i + 1;
        }
        proof {
            lemma_run_le_sum(bits, 0, 25, 24);
            lemma_run_le_sum(bits, 25, 50, 49);
            assert(counts@[24] <= 15);
            assert(counts@[49] <= 15);
        }
        pips[0] = -(counts[24] as i8);
        pips[25] = counts[49] as i8;
        let x_off: u8 = checkers - (x_tot as u8);
        let o_off: u8 = checkers - (o_tot as u8);
        let s = State { pips, x_off, o_off };
        proof {
            lemma_decode_builds(s, bits, checkers as int, o_tot as int, x_tot as int);
        }
        Ok(s)
    }
}

} // verus!

verus! {

/// The state decode builds out of the parsed runs is well formed, carries
/// `n` checkers a side, and prints back to the very key that was read.
proof fn lemma_decode_builds(s: State, bits: Seq<bool>, n: int, o_tot: int, x_tot: int)
    requires
        parses_ok(bits),
        0 <= n <= 15,
        o_tot == runs_sum(bits, 0, 25),
        x_tot == runs_sum(bits, 25, 50),
        o_tot <= n,
        x_tot <= n,
        forall|i: int|
            1 <= i <= 24 ==> #[trigger] run_len(bits, 24 - i) == 0 || run_len(bits, 24 + i) == 0,
        s.pips@.len() == 26,
        s.pips@[0] as int == -(run_len(bits, 24) as int),
        s.pips@[25] as int == run_len(bits, 49) as int,
        forall|i: int|
            1 <= i <= 24 ==> (if run_len(bits, 24 + i) > 0 {
                s.pips@[i] as int == run_len(bits, 24 + i) as int
            } else {
                s.pips@[i] as int == -(run_len(bits, 24 - i) as int)
            }),
        s.x_off as int == n - x_tot,
        s.o_off as int == n - o_tot,
    ensures
        decodable(bits, n),
        s.wf(),
        s.x_total() == n,
        s.o_total() == n,
        bits =~= enc_bits(s),
{
    reveal(enc_bits);
    let c = parsed_counts(bits);
    // Each run is bounded by its side's total.
    assert forall|k: int| 0 <= k < 25 implies run_len(bits, k) <= 15 by {
        lemma_run_le_sum(bits, 0, 25, k);
    }
    assert forall|k: int| 25 <= k < 50 implies run_len(bits, k) <= 15 by {
        lemma_run_le_sum(bits, 25, 50, k);
    }
    // The counts of the built state are exactly the parsed runs.
    assert forall|k: int| 0 <= k < 50 implies counts_of(s)[k] == c[k] by {
        if k < 24 {
            let i = 24 - k;
            if run_len(bits, 24 + i) > 0 {
                assert(run_len(bits, 24 - i) == 0);
                assert(s.pips@[i] > 0);
                assert(o_cnt(s, i) == 0);
            } else {
                assert(o_cnt(s, i) == run_len(bits, 24 - i));
            }
        } else if k == 24 {
            assert(o_cnt(s, 0) == run_len(bits, 24));
        } else if k < 49 {
            let i = k - 24;
            if run_len(bits, 24 + i) > 0 {
                assert(x_cnt(s, i) == run_len(bits, 24 + i));
            } else {
                assert(s.pips@[i] <= 0);
                assert(x_cnt(s, i) == 0);
            }
        } else {
            assert(x_cnt(s, 25) == run_len(bits, 49));
        }
    }
    assert(counts_of(s) =~= c);
    // Checker counts per side follow from the run sums.
    lemma_runs_sum_eq(bits, c, 0, 25);
    lemma_runs_sum_eq(bits, c, 25, 50);
    lemma_csum_nonneg(c, 25);
    lemma_counts_sum_o(s, 25);
    lemma_counts_sum_x(s, 50);
    reveal_with_fuel(x_sum, 2);
    reveal_with_fuel(o_sum, 2);
    assert(x_sum(s.pips@, 1) == x_cnt(s, 0));
    assert(x_cnt(s, 0) == 0);
    assert(o_sum(s.pips@, 26) == o_sum(s.pips@, 25) + o_cnt(s, 25));
    assert(o_cnt(s, 25) == 0);
    assert(s.o_count() == o_tot);
    assert(s.x_count() == x_tot);
    // Well-formedness: bounded entries, signed bars, bounded totals.
    assert forall|i: int| 0 <= i < 26 implies -15 <= #[trigger] s.pips@[i] <= 15 by {
        if 1 <= i <= 24 {
            assert(run_len(bits, 24 + i) <= 15 && run_len(bits, 24 - i) <= 15);
        }
    }
    assert(s.wf());
    // The key prints back from the parsed counts.
    lemma_print_of_parse(bits, 50);
    lemma_pstream_len(c, 50);
    let printed = pstream(c, 50);
    assert(bits.take(run_start(bits, 50)) =~= printed);
    assert(run_start(bits, 50) == run_start(bits, 49) + run_len(bits, 49));
    assert forall|p: int| 0 <= p < 80 implies bits[p] == pad80(printed)[p] by {
        if p < printed.len() {
            assert(bits.take(run_start(bits, 50))[p] == bits[p]);
        } else {
            assert(!bits[p]);
        }
    }
    assert(bits =~= pad80(printed));
}

} // verus!

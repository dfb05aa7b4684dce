//! Dice: a legal pair of values, the fixed roll tables, and dice sources.

use vstd::prelude::*;

verus! {

/// Two different dice values; `big` is the larger one.
#[derive(Clone, Copy, Debug, PartialEq, Eq, Hash, Structural)]
pub struct RegularDice {
    pub big: usize,
    pub small: usize,
}

/// A legal pair of dice: two different values, or a double.
#[derive(Clone, Copy, Debug, PartialEq, Eq, Hash, Structural)]
pub enum Dice {
    Regular(RegularDice),
    Double(usize),
}

/// A legal pair: values between 1 and 6, ordered when they differ.
pub open spec fn dice_wf(d: Dice) -> bool {
    match d {
        Dice::Regular(rd) => 1 <= rd.small && rd.small < rd.big && rd.big <= 6,
        Dice::Double(v) => 1 <= v <= 6,
    }
}

/// What `Dice::new` builds from two values.
pub open spec fn dice_new_spec(die1: int, die2: int) -> Dice {
    if die1 == die2 {
        Dice::Double(die1 as usize)
    } else if die1 > die2 {
        Dice::Regular(RegularDice { big: die1 as usize, small: die2 as usize })
    } else {
        Dice::Regular(RegularDice { big: die2 as usize, small: die1 as usize })
    }
}

impl Dice {
    /// Builds the pair, sorting the two values.
    pub fn new(die1: usize, die2: usize) -> (r: Dice)
        requires
            1 <= die1 <= 6,
            1 <= die2 <= 6,
        ensures
            r == dice_new_spec(die1 as int, die2 as int),
            dice_wf(r),
    {
        if die1 == die2 {
            Dice::Double(die1)
        } else if die1 > die2 {
            Dice::Regular(RegularDice { big: die1, small: die2 })
        } else {
            Dice::Regular(RegularDice { big: die2, small: die1 })
        }
    }
}

/// Roll `m` of the fixed 21-entry table, in table order.
pub open spec fn roll21(m: int) -> Dice {
    if m == 0 { Dice::Double(1) }
    else if m == 1 { Dice::Regular(RegularDice { big: 2, small: 1 }) }
    else if m == 2 { Dice::Regular(RegularDice { big: 3, small: 1 }) }
    else if m == 3 { Dice::Regular(RegularDice { big: 4, small: 1 }) }
    else if m == 4 { Dice::Regular(RegularDice { big: 5, small: 1 }) }
    else if m == 5 { Dice::Regular(RegularDice { big: 6, small: 1 }) }
    else if m == 6 { Dice::Double(2) }
    else if m == 7 { Dice::Regular(RegularDice { big: 3, small: 2 }) }
    else if m == 8 { Dice::Regular(RegularDice { big: 4, small: 2 }) }
    else if m == 9 { Dice::Regular(RegularDice { big: 5, small: 2 }) }
    else if m == 10 { Dice::Regular(RegularDice { big: 6, small: 2 }) }
    else if m == 11 { Dice::Double(3) }
    else if m == 12 { Dice::Regular(RegularDice { big: 4, small: 3 }) }
    else if m == 13 { Dice::Regular(RegularDice { big: 5, small: 3 }) }
    else if m == 14 { Dice::Regular(RegularDice { big: 6, small: 3 }) }
    else if m == 15 { Dice::Double(4) }
    else if m == 16 { Dice::Regular(RegularDice { big: 5, small: 4 }) }
    else if m == 17 { Dice::Regular(RegularDice { big: 6, small: 4 }) }
    else if m == 18 { Dice::Double(5) }
    else if m == 19 { Dice::Regular(RegularDice { big: 6, small: 5 }) }
    else { Dice::Double(6) }
}

/// Opening roll `m` of the fixed 15-entry table of mixed rolls.
pub open spec fn single15(m: int) -> Dice {
    if m == 0 { Dice::Regular(RegularDice { big: 2, small: 1 }) }
    else if m == 1 { Dice::Regular(RegularDice { big: 3, small: 1 }) }
    else if m == 2 { Dice::Regular(RegularDice { big: 4, small: 1 }) }
    else if m == 3 { Dice::Regular(RegularDice { big: 5, small: 1 }) }
    else if m == 4 { Dice::Regular(RegularDice { big: 6, small: 1 }) }
    else if m == 5 { Dice::Regular(RegularDice { big: 3, small: 2 }) }
    else if m == 6 { Dice::Regular(RegularDice { big: 4, small: 2 }) }
    else if m == 7 { Dice::Regular(RegularDice { big: 5, small: 2 }) }
    else if m == 8 { Dice::Regular(RegularDice { big: 6, small: 2 }) }
    else if m == 9 { Dice::Regular(RegularDice { big: 4, small: 3 }) }
    else if m == 10 { Dice::Regular(RegularDice { big: 5, small: 3 }) }
    else if m == 11 { Dice::Regular(RegularDice { big: 6, small: 3 }) }
    else if m == 12 { Dice::Regular(RegularDice { big: 5, small: 4 }) }
    else if m == 13 { Dice::Regular(RegularDice { big: 6, small: 4 }) }
    else { Dice::Regular(RegularDice { big: 6, small: 5 }) }
}

/// Throw `k` of the 36 ordered throws.
pub open spec fn die36(k: int) -> Dice {
    dice_new_spec(k / 6 + 1, k % 6 + 1)
}

/// Ordered pair `k` of the 1296 two-throw openings.
pub open spec fn pair1296(k: int) -> (Dice, Dice) {
    (die36(k / 36), die36(k % 36))
}

/// Sum of the weights in a roll table.
pub open spec fn weight_sum(s: Seq<(Dice, u32)>) -> int
    decreases s.len(),
{
    if s.len() == 0 {
        0
    } else {
        weight_sum(s.drop_last()) + s.last().1
    }
}

/// The 21 distinct rolls with how often each appears in 36 throws: doubles
/// once, mixed pairs twice. The weights sum to 36.
pub fn all_21() -> (r: Vec<(Dice, u32)>)
    ensures
        r@.len() == 21,
        forall|k: int| 0 <= k < 21 ==> (#[trigger] r@[k]).0 == roll21(k),
        forall|k: int| 0 <= k < 21 ==> dice_wf((#[trigger] r@[k]).0),
        forall|k: int|
            0 <= k < 21 ==> ((#[trigger] r@[k]).1 == if r@[k].0 is Double {
                1int
            } else {
                2int
            }),
        weight_sum(r@) == 36,
{
    let mut r: Vec<(Dice, u32)> = Vec::new();
    r.push((Dice::Double(1), 1));
    r.push((Dice::new(1, 2), 2));
    r.push((Dice::new(1, 3), 2));
    r.push((Dice::new(1, 4), 2));
    r.push((Dice::new(1, 5), 2));
    r.push((Dice::new(1, 6), 2));
    r.push((Dice::Double(2), 1));
    r.push((Dice::new(2, 3), 2));
    r.push((Dice::new(2, 4), 2));
    r.push((Dice::new(2, 5), 2));
    r.push((Dice::new(2, 6), 2));
    r.push((Dice::Double(3), 1));
    r.push((Dice::new(3, 4), 2));
    r.push((Dice::new(3, 5), 2));
    r.push((Dice::new(3, 6), 2));
    r.push((Dice::Double(4), 1));
    r.push((Dice::new(4, 5), 2));
    r.push((Dice::new(4, 6), 2));
    r.push((Dice::Double(5), 1));
    r.push((Dice::new(5, 6), 2));
    r.push((Dice::Double(6), 1));
    proof {
        reveal_with_fuel(weight_sum, 22);
        assert(weight_sum(r@) == 36);
    }
    r
}

/// The 15 mixed rolls, the possible opening throws.
pub fn all_singles() -> (r: Vec<Dice>)
    ensures
        r@.len() == 15,
        forall|k: int| 0 <= k < 15 ==> #[trigger] r@[k] == single15(k),
        forall|k: int| 0 <= k < 15 ==> dice_wf(#[trigger] r@[k]) && !(r@[k] is Double),
{
    let mut r: Vec<Dice> = Vec::new();
    r.push(Dice::new(1, 2));
    r.push(Dice::new(1, 3));
    r.push(Dice::new(1, 4));
    r.push(Dice::new(1, 5));
    r.push(Dice::new(1, 6));
    r.push(Dice::new(2, 3));
    r.push(Dice::new(2, 4));
    r.push(Dice::new(2, 5));
    r.push(Dice::new(2, 6));
    r.push(Dice::new(3, 4));
    r.push(Dice::new(3, 5));
    r.push(Dice::new(3, 6));
    r.push(Dice::new(4, 5));
    r.push(Dice::new(4, 6));
    r.push(Dice::new(5, 6));
    r
}

/// All 36 ordered throws; mixed pairs appear twice.
pub fn all_36() -> (r: Vec<Dice>)
    ensures
        r@.len() == 36,
        forall|k: int| 0 <= k < 36 ==> dice_wf(#[trigger] r@[k]),
        forall|k: int| 0 <= k < 36 ==> #[trigger] r@[k] == dice_new_spec(k / 6 + 1, k % 6 + 1),
{
    let mut r: Vec<Dice> = Vec::new();
    let mut k: usize = 0;
    while k < 36
        invariant
            0 <= k <= 36,
            r@.len() == k,
            forall|k2: int| 0 <= k2 < k ==> dice_wf(#[trigger] r@[k2]),
            forall|k2: int| 0 <= k2 < k ==> #[trigger] r@[k2] == dice_new_spec(
                k2 / 6 + 1, k2 % 6 + 1),
        decreases 36 - k,
    {
        r.push(Dice::new(k / 6 + 1, k % 6 + 1));
        k = k + 1;
    }
    r
}

/// All 1296 ordered pairs of two throws, the fan-out of a rollout's first
/// two half-plies.
pub fn all_1296() -> (r: Vec<(Dice, Dice)>)
    ensures
        r@.len() == 1296,
        forall|k: int| 0 <= k < 1296 ==> #[trigger] r@[k] == pair1296(k),
        forall|k: int|
            0 <= k < 1296 ==> dice_wf((#[trigger] r@[k]).0) && dice_wf(r@[k].1),
{
    let table = all_36();
    let mut r: Vec<(Dice, Dice)> = Vec::new();
    let mut i: usize = 0;
    while i < 36
        invariant
            table@.len() == 36,
            forall|k: int| 0 <= k < 36 ==> dice_wf(#[trigger] table@[k]),
            0 <= i <= 36,
            r@.len() == 36 * i,
            forall|k: int| 0 <= k < 36 ==> #[trigger] table@[k] == die36(k),
            forall|k: int| 0 <= k < r@.len() ==> #[trigger] r@[k] == pair1296(k),
            forall|k: int|
                0 <= k < r@.len() ==> dice_wf((#[trigger] r@[k]).0) && dice_wf(r@[k].1),
        decreases 36 - i,
    {
        let mut j: usize = 0;
        while j < 36
            invariant
                table@.len() == 36,
                forall|k: int| 0 <= k < 36 ==> dice_wf(#[trigger] table@[k]),
                forall|k: int| 0 <= k < 36 ==> #[trigger] table@[k] == die36(k),
                0 <= i < 36,
                0 <= j <= 36,
                r@.len() == 36 * i + j,
                forall|k: int| 0 <= k < r@.len() ==> #[trigger] r@[k] == pair1296(k),
                forall|k: int|
                    0 <= k < r@.len() ==> dice_wf((#[trigger] r@[k]).0) && dice_wf(r@[k].1),
            decreases 36 - j,
        {
            r.push((table[i], table[j]));
            proof {
                let n = 36 * i + j;
                assert(n / 36 == i && n % 36 == j);
                assert(r@[n as int] == pair1296(n as int));
            }
            j = j + 1;
        }
        i = i + 1;
    }
    r
}

/// A source of dice rolls.
pub trait DiceGen {
    /// Returns dice.
    fn roll(&mut self) -> (r: Dice)
        ensures
            dice_wf(r),
    ;
}

/// Declares fastrand's generator type so fields and signatures can carry it;
/// its values stay opaque and all use goes through the wrappers below.
#[verifier::external_type_specification]
#[verifier::external_body]
pub struct ExRng(fastrand::Rng);

/// Relies on fastrand::Rng::new: a generator seeded from entropy.
#[verifier::external_body]
fn rng_new() -> fastrand::Rng {
    fastrand::Rng::new()
}

/// Relies on fastrand::Rng::with_seed: a generator in the state the seed
/// determines.
#[verifier::external_body]
fn rng_with_seed(seed: u64) -> fastrand::Rng {
    fastrand::Rng::with_seed(seed)
}

/// Relies on fastrand::Rng::usize: a value drawn from the half-open range,
/// so below `n`. Nothing more is promised of a random value.
#[verifier::external_body]
fn rng_usize_below(rng: &mut fastrand::Rng, n: usize) -> (r: usize)
    requires
        n > 0,
    ensures
        r < n,
{
    rng.usize(0..n)
}

/// Random dice from a fastrand generator.
pub struct FastrandDice {
    generator: fastrand::Rng,
}

impl FastrandDice {
    /// A source seeded from entropy; different every time.
    pub fn new() -> FastrandDice {
        FastrandDice { generator: rng_new() }
    }

    /// A source whose whole roll sequence the seed determines.
    pub fn with_seed(seed: u64) -> FastrandDice {
        FastrandDice { generator: rng_with_seed(seed) }
    }
}

impl DiceGen for FastrandDice {
    /// Returns random dice.
    fn roll(&mut self) -> (r: Dice)
        ensures
            dice_wf(r),
    {
        let random = rng_usize_below(&mut self.generator, 36);
        let die1 = random / 6 + 1;
        let die2 = random % 6 + 1;
        Dice::new(die1, die2)
    }
}

/// A scripted dice source for tests: hands out the given rolls in order, and
/// a double ace once the script is exhausted.
pub struct DiceGenMock {
    pub dice: Vec<Dice>,
    pub no_calls: usize,
}

impl DiceGenMock {
    pub fn new(dice: &[Dice]) -> (r: DiceGenMock)
        ensures
            r.dice@ =~= dice@,
            r.no_calls == 0,
    {
        let mut copied: Vec<Dice> = Vec::new();
        let mut i: usize = 0;
        while i < dice.len()
            invariant
                0 <= i <= dice@.len(),
                copied@.len() == i,
                forall|j: int| 0 <= j < i ==> copied@[j] == dice@[j],
            decreases dice@.len() - i,
        {
            copied.push(dice[i]);
            i = i + 1;
        }
        DiceGenMock { dice: copied, no_calls: 0 }
    }

    /// Whether every scripted roll was handed out.
    pub fn assert_all_dice_were_used(&self) -> (r: bool)
        ensures
            r == (self.no_calls == self.dice@.len()),
    {
        self.no_calls == self.dice.len()
    }
}

impl DiceGen for DiceGenMock {
    fn roll(&mut self) -> (r: Dice)
        ensures
            dice_wf(r),
            old(self).no_calls < old(self).dice@.len() ==> final(self).dice == old(self).dice
                && final(self).no_calls == old(self).no_calls + 1 && (dice_wf(
                old(self).dice@[old(self).no_calls as int]) ==> r == old(self).dice@[
            old(self).no_calls as int]),
            old(self).no_calls >= old(self).dice@.len() ==> *final(self) == *old(self) && r
                == Dice::Double(1),
    {
        if self.no_calls < self.dice.len() {
            let d = self.dice[self.no_calls];
            self.no_calls = self.no_calls + 1;
            let ok = match d {
                Dice::Regular(rd) => 1 <= rd.small && rd.small < rd.big && rd.big <= 6,
                Dice::Double(v) => 1 <= v && v <= 6,
            };
            if ok {
                d
            } else {
                Dice::Double(1)
            }
        } else {
            Dice::Double(1)
        }
    }
}

} // verus!

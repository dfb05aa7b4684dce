//! The neural net's input features, as integers.
//!
//! A position becomes 202 features: the two borne-off counts, then for each
//! of the fifty slots — the mover's bar, the mover's 24 points, the
//! opponent's bar, the opponent's 24 points — a four-feature bucket of the
//! slot's checker count. The canonical layout is frozen here; feeding a net
//! is a cast to floats away.

use vstd::prelude::*;
use crate::position::State;

verus! {

/// The four-feature bucket of one checker count: one-hot for one and two
/// checkers, then a flag and the overflow beyond three.
pub open spec fn block_of(c: int) -> Seq<u8> {
    if c <= 0 {
        seq![0u8, 0u8, 0u8, 0u8]
    } else if c == 1 {
        seq![1u8, 0u8, 0u8, 0u8]
    } else if c == 2 {
        seq![0u8, 1u8, 0u8, 0u8]
    } else {
        seq![0u8, 0u8, 1u8, (c - 3) as u8]
    }
}

/// The checker count of feature slot `s`: the mover's bar, the mover's
/// points 1 to 24, the opponent's bar, the opponent's points 1 to 24.
pub open spec fn count_at(pos: State, s: int) -> int {
    if s == 0 {
        pos.pips@[25] as int
    } else if s < 25 {
        if pos.pips@[s] > 0 {
            pos.pips@[s] as int
        } else {
            0
        }
    } else if s == 25 {
        -(pos.pips@[0] as int)
    } else {
        if pos.pips@[s - 25] < 0 {
            -(pos.pips@[s - 25] as int)
        } else {
            0
        }
    }
}

/// Appends the bucket of one count.
fn push_block(out: &mut Vec<u8>, c: u8)
    requires
        c <= 15,
    ensures
        final(out)@.len() == old(out)@.len() + 4,
        forall|j: int| 0 <= j < old(out)@.len() ==> #[trigger] final(out)@[j] == old(out)@[j],
        forall|j: int|
            0 <= j < 4 ==> #[trigger] final(out)@[old(out)@.len() + j] == block_of(c as int)[j],
{
    if c == 0 {
        out.push(0);
        out.push(0);
        out.push(0);
        out.push(0);
    } else if c == 1 {
        out.push(1);
        out.push(0);
        out.push(0);
        out.push(0);
    } else if c == 2 {
        out.push(0);
        out.push(1);
        out.push(0);
        out.push(0);
    } else {
        out.push(0);
        out.push(0);
        out.push(1);
        out.push(c - 3);
    }
}

/// The 202 input features of a position: both borne-off counts, then the
/// bucket of every slot in the canonical order.
pub fn input_counts(pos: &State) -> (r: Vec<u8>)
    requires
        pos.wf(),
    ensures
        r@.len() == 202,
        r@[0] == pos.x_off,
        r@[1] == pos.o_off,
        forall|s: int, j: int|
            0 <= s < 50 && 0 <= j < 4 ==> #[trigger] r@[2 + 4 * s + j] == block_of(
                count_at(*pos, s))[j],
{
    let mut r: Vec<u8> = Vec::new();
    r.push(pos.x_off);
    r.push(pos.o_off);
    let mut s: usize = 0;
    while s < 50
        invariant
            pos.wf(),
            0 <= s <= 50,
            r@.len() == 2 + 4 * s,
            r@[0] == pos.x_off,
            r@[1] == pos.o_off,
            forall|s2: int, j: int|
                0 <= s2 < s && 0 <= j < 4 ==> #[trigger] r@[2 + 4 * s2 + j] == block_of(
                    count_at(*pos, s2))[j],
        decreases 50 - s,
    {
        let c: i8 = if s == 0 {
            pos.pips[25]
        } else if s < 25 {
            let p = pos.pips[s];
            if p > 0 {
                p
            } else {
                0
            }
        } else if s == 25 {
            -pos.pips[0]
        } else {
            let p = pos.pips[s - 25];
            if p < 0 {
                -p
            } else {
                0
            }
        };
        assert(c as int == count_at(*pos, s as int));
        assert(0 <= c <= 15);
        push_block(&mut r, c as u8);
        s = s + 1;
    }
    r
}

} // verus!

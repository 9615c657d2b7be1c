//! The guided move: one symbol pulled toward the harmony's own latest test
//! case and toward a reference test case, in exact fixed-point arithmetic.

use crate::config::UNIT;
use vstd::prelude::*;

verus! {

/// The inertia times either acceleration, nine tenths of seven tenths, as a
/// number of hundredths.
pub const PULL_PERCENT: i128 = 63;

/// One as a number of hundredths of `1 / UNIT`.
pub const SCALE: i128 = 900_719_925_474_099_200;

/// What `symbol` moves to: the value
/// `symbol + 63/100 * r1/UNIT * (own_last - symbol) + 63/100 * r2/UNIT * (reference - symbol)`,
/// cut off toward zero and held within `0..p_values`.
pub open spec fn pulled(
    symbol: usize,
    own_last: usize,
    reference: usize,
    r1: u64,
    r2: u64,
    p_values: usize,
) -> int {
    let scaled = symbol * SCALE + PULL_PERCENT * (r1 * (own_last - symbol) + r2 * (reference
        - symbol));
    if scaled <= 0 {
        0
    } else if scaled / (SCALE as int) >= p_values {
        p_values - 1
    } else {
        scaled / (SCALE as int)
    }
}

/// The test case that `current` moves to, symbol by symbol.
pub open spec fn guided(
    current: Seq<usize>,
    own_last: Seq<usize>,
    reference: Seq<usize>,
    r1: u64,
    r2: u64,
    p_values: usize,
) -> Seq<usize> {
    Seq::new(
        current.len(),
        |i: int| pulled(current[i], own_last[i], reference[i], r1, r2, p_values) as usize,
    )
}

/// Moves one symbol. The draws `r1` and `r2` stand for `r1 / UNIT` and
/// `r2 / UNIT`, both below one.
pub fn pull(
    symbol: usize,
    own_last: usize,
    reference: usize,
    r1: u64,
    r2: u64,
    p_values: usize,
) -> (value: usize)
    requires
        r1 < UNIT,
        r2 < UNIT,
        p_values >= 1,
    ensures
        value == pulled(symbol, own_last, reference, r1, r2, p_values),
        value <= p_values - 1,
{
    let o: i128 = symbol as i128;
    let toward_own: i128 = own_last as i128 - o;
    let toward_reference: i128 = reference as i128 - o;
    let a: i128 = r1 as i128;
    let b: i128 = r2 as i128;
    proof {
        let bound: int = 0x1_0000_0000_0000_0000;
        assert(-bound * UNIT <= a * toward_own <= bound * UNIT) by (nonlinear_arith)
            requires
                0 <= a < UNIT,
                -bound < toward_own < bound,
        ;
        assert(-bound * UNIT <= b * toward_reference <= bound * UNIT) by (nonlinear_arith)
            requires
                0 <= b < UNIT,
                -bound < toward_reference < bound,
        ;
        assert(0 <= o * SCALE <= bound * SCALE) by (nonlinear_arith)
            requires
                0 <= o < bound,
        ;
    }
    let cognitive: i128 = a * toward_own;
    let social: i128 = b * toward_reference;
    let scaled: i128 = o * SCALE + PULL_PERCENT * (cognitive + social);
    if scaled <= 0 {
        0
    } else {
        let whole: i128 = scaled / SCALE;
        if whole >= p_values as i128 {
            p_values - 1
        } else {
            whole as usize
        }
    }
}

/// Moves a test case, symbol by symbol, by the same two draws.
pub fn guided_move(
    current: &Vec<usize>,
    own_last: &Vec<usize>,
    reference: &Vec<usize>,
    r1: u64,
    r2: u64,
    p_values: usize,
) -> (candidate: Vec<usize>)
    requires
        own_last.len() == current.len(),
        reference.len() == current.len(),
        r1 < UNIT,
        r2 < UNIT,
        p_values >= 1,
    ensures
        candidate@ == guided(current@, own_last@, reference@, r1, r2, p_values),
        candidate.len() == current.len(),
        forall|i: int| 0 <= i < candidate.len() ==> #[trigger] candidate[i] <= p_values - 1,
{
    let mut candidate: Vec<usize> = Vec::with_capacity(current.len());
    let mut i: usize = 0;
    while i < current.len()
        invariant
            i <= current.len(),
            own_last.len() == current.len(),
            reference.len() == current.len(),
            r1 < UNIT,
            r2 < UNIT,
            p_values >= 1,
            candidate.len() == i,
            forall|j: int|
                0 <= j < i ==> #[trigger] candidate[j] == pulled(
                    current[j],
                    own_last[j],
                    reference[j],
                    r1,
                    r2,
                    p_values,
                ) && candidate[j] <= p_values - 1,
        decreases current.len() - i,
    {
        let value: usize = pull(current[i], own_last[i], reference[i], r1, r2, p_values);
        candidate.push(value);
        i = i + 1;
    }
    proof {
        assert(candidate@ =~= guided(current@, own_last@, reference@, r1, r2, p_values));
    }
    candidate
}

} // verus!

//! Finding the first breaking height with two balls: jumps of the square root
//! of the height, then single steps.
use vstd::prelude::*;

verus! {

/// Once a ball breaks at some height it breaks at every greater one.
pub open spec fn monotone(breaks: Seq<bool>) -> bool {
    forall|i: int, j: int| 0 <= i < j < breaks.len() && breaks[i] ==> breaks[j]
}

/// The integer square root of `n`, rounded down.
pub fn int_sqrt(n: usize) -> (r: usize)
    ensures
        r * r <= n < (r + 1) * (r + 1),
{
    let mut r: u128 = 0;
    while (r + 1) * (r + 1) <= n as u128
        invariant
            r * r <= n,
            r < 0x1_0000_0000,
            (r + 1) * (r + 1) <= 0x1_0000_0000_0000_0000,
        decreases n - r * r,
    {
        proof {
            assert(r + 1 < 0x1_0000_0000) by (nonlinear_arith)
                requires
                    (r + 1) * (r + 1) <= n,
                    n < 0x1_0000_0000_0000_0000,
            ;
            assert(r * r < (r + 1) * (r + 1)) by (nonlinear_arith)
                requires
                    r >= 0,
            ;
            assert((r + 2) * (r + 2) <= 0x1_0000_0000_0000_0000) by (nonlinear_arith)
                requires
                    r + 1 < 0x1_0000_0000,
            ;
        }
        r = r + 1;
    }
    r as usize
}

/// The lowest height at which a ball breaks, or the height of the building if
/// it breaks nowhere; `None` for an empty building or one whose lowest floor
/// already breaks it.
pub fn search(breaks: Vec<bool>) -> (r: Option<usize>)
    ensures
        r is None <==> breaks@.len() == 0 || breaks@[0],
        r matches Some(i) ==> {
            &&& 1 <= i <= breaks@.len()
            &&& !breaks@[i - 1]
            &&& i == breaks@.len() || breaks@[i as int]
            &&& monotone(breaks@) ==> forall|j: int| 0 <= j < i ==> !breaks@[j]
        },
{
    if breaks.len() == 0 || breaks[0] {
        return None;
    }
    let step = int_sqrt(breaks.len());
    assert(step >= 1) by (nonlinear_arith)
        requires
            breaks@.len() < (step + 1) * (step + 1),
            breaks@.len() >= 1,
    ;
    let mut i: usize = 0;
    while step < breaks.len() - i && !breaks[i + step]
        invariant
            step >= 1,
            i < breaks@.len(),
            !breaks@[i as int],
            monotone(breaks@) ==> forall|j: int| 0 <= j <= i ==> !breaks@[j],
        decreases breaks@.len() - i,
    {
        i = i + step;
    }
    i = i + 1;
    while i < breaks.len() && !breaks[i]
        invariant
            1 <= i <= breaks@.len(),
            !breaks@[i - 1],
            monotone(breaks@) ==> forall|j: int| 0 <= j < i ==> !breaks@[j],
        decreases breaks@.len() - i,
    {
        i = i + 1;
    }
    Some(i)
}

} // verus!

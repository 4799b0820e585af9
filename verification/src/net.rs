use vstd::prelude::*;

verus! {

/// The number of weights and biases in a network with `dim` inputs, hidden layers of `h1`
/// and `h2` units and `outputs` output units.
pub open spec fn param_count_spec(dim: nat, h1: nat, h2: nat, outputs: nat) -> nat {
    h1 * dim + h1 + h2 * h1 + h2 + outputs * h2 + outputs
}

/// The parameter count of a `dim -> h1 -> h2 -> outputs` network.
pub fn param_count(dim: usize, h1: usize, h2: usize, outputs: usize) -> (r: usize)
    requires
        param_count_spec(dim as nat, h1 as nat, h2 as nat, outputs as nat) <= usize::MAX,
    ensures
        r == param_count_spec(dim as nat, h1 as nat, h2 as nat, outputs as nat),
{
    proof {
        assert(h1 * dim >= 0 && h2 * h1 >= 0 && outputs * h2 >= 0) by (nonlinear_arith);
    }
    let a = h1 * dim;
    let b = h2 * h1;
    let c = outputs * h2;
    a + h1 + b + h2 + c + outputs
}

/// `x` held to the range `lo..=hi`.
pub open spec fn clamp_spec(x: int, lo: int, hi: int) -> int {
    if x < lo {
        lo
    } else if x > hi {
        hi
    } else {
        x
    }
}

/// The number of passes over `n` samples: `budget / n` (with `n` taken as at least 1), held
/// to `lo..=hi`.
pub open spec fn epoch_count_spec(budget: nat, n: nat, lo: nat, hi: nat) -> nat {
    clamp_spec((budget / (if n == 0 { 1 } else { n })) as int, lo as int, hi as int) as nat
}

/// The number of training passes for `n` samples under a budget of `budget` sample visits.
pub fn epoch_count(budget: usize, n: usize, lo: usize, hi: usize) -> (r: usize)
    requires
        lo <= hi,
    ensures
        r == epoch_count_spec(budget as nat, n as nat, lo as nat, hi as nat),
        lo <= r <= hi,
{
    let per = budget / if n == 0 { 1 } else { n };
    if per < lo {
        lo
    } else if per > hi {
        hi
    } else {
        per
    }
}

} // verus!

//! Pricing of the builtin-cost withdrawal.
//!
//! The number of steps the withdrawal sequence spends to compute the
//! requested amount is part of the target VM's ABI and is computed by the
//! linked Sierra crate; [`spec_cost_computation_steps`] states the formula
//! its source shows.

use vstd::prelude::*;

use cairo_lang_sierra::extensions::gas::BuiltinCostsType;
use cairo_lang_sierra::extensions::gas::CostTokenType as SierraCostTokenType;

verus! {

/// Steps spent on one builtin token, given how many units of it are
/// requested: none for zero units, two for one unit, three otherwise.
pub open spec fn spec_steps_term(u: int) -> int {
    if u == 0 {
        0
    } else if u == 1 {
        2
    } else {
        3
    }
}

/// The steps needed to compute a requested cost from the per-builtin
/// usage counts, with four more to fetch the cost table when it is not
/// already available and anything is requested at all.
pub open spec fn spec_cost_computation_steps(
    table_available: bool,
    pedersen: int,
    poseidon: int,
    bitwise: int,
    ec_op: int,
) -> int {
    let s = spec_steps_term(pedersen) + spec_steps_term(poseidon) + spec_steps_term(bitwise)
        + spec_steps_term(ec_op);
    if s > 0 && !table_available {
        s + 4
    } else {
        s
    }
}

/// Relies on `cairo_lang_sierra::extensions::gas::BuiltinCostsType::
/// cost_computation_steps` for the number of steps of the builtin-cost
/// computation: per requested token, 0, 2 or 3 steps for 0, 1 or more
/// units, plus 4 to fetch the cost table when it is not available and the
/// sum is positive.
#[verifier::external_body]
pub fn cost_computation_steps(
    table_available: bool,
    pedersen: usize,
    poseidon: usize,
    bitwise: usize,
    ec_op: usize,
) -> (r: usize)
    ensures
        r as int == spec_cost_computation_steps(
            table_available,
            pedersen as int,
            poseidon as int,
            bitwise as int,
            ec_op as int,
        ),
{
    BuiltinCostsType::cost_computation_steps(
        table_available,
        |token| match token {
            SierraCostTokenType::Pedersen => pedersen,
            SierraCostTokenType::Poseidon => poseidon,
            SierraCostTokenType::Bitwise => bitwise,
            SierraCostTokenType::EcOp => ec_op,
            _ => 0,
        },
    )
}

} // verus!

//! Static gas-cost analysis for a linear, branch-annotated intermediate
//! representation.
//!
//! Programs are flat lists of statements; execution models a wallet of
//! resource tokens that is consumed by every statement and replenished by
//! explicit withdrawals.  The analysis computes, for every statement, the
//! minimum wallet value that must be present before the statement executes,
//! and the cost variables that a downstream code generator must emit.

pub mod builtin_costs;
pub mod compute_costs;
pub mod cost_type;
pub mod gas_info;
pub mod laws;
pub mod model;
pub mod objects;
pub mod program;
pub mod topological;

//! The mathematical model of cost values.
//!
//! A cost value is modelled as a finite map from token type to integer,
//! where a token that is absent from the map counts as zero.  Both cost
//! domains use this model: the multi-token pre-cost maps carry an arbitrary
//! key set, while scalar post-cost values always carry exactly the `Const`
//! key.

use vstd::prelude::*;

use crate::objects::CostTokenType;

verus! {

/// The value of token `t` in model `m`, reading an absent key as zero.
pub open spec fn tok_val(m: Map<CostTokenType, int>, t: CostTokenType) -> int {
    if m.dom().contains(t) {
        m[t]
    } else {
        0
    }
}

/// Pointwise sum over the union of the key sets.
pub open spec fn cost_add(a: Map<CostTokenType, int>, b: Map<CostTokenType, int>) -> Map<
    CostTokenType,
    int,
> {
    Map::new(
        |t: CostTokenType| a.dom().contains(t) || b.dom().contains(t),
        |t: CostTokenType| tok_val(a, t) + tok_val(b, t),
    )
}

/// Pointwise difference over the union of the key sets.
pub open spec fn cost_sub(a: Map<CostTokenType, int>, b: Map<CostTokenType, int>) -> Map<
    CostTokenType,
    int,
> {
    Map::new(
        |t: CostTokenType| a.dom().contains(t) || b.dom().contains(t),
        |t: CostTokenType| tok_val(a, t) - tok_val(b, t),
    )
}

/// Pointwise minimum over the intersection of the key sets.
///
/// A token absent from either operand is effectively zero there, and for
/// non-negative values `min(v, 0) == 0`, so such a token need not be stored.
pub open spec fn cost_min2(a: Map<CostTokenType, int>, b: Map<CostTokenType, int>) -> Map<
    CostTokenType,
    int,
> {
    Map::new(
        |t: CostTokenType| a.dom().contains(t) && b.dom().contains(t),
        |t: CostTokenType|
            if a[t] <= b[t] {
                a[t]
            } else {
                b[t]
            },
    )
}

/// Pointwise maximum over the union of the key sets, reading absent keys as
/// zero.
pub open spec fn cost_max2(a: Map<CostTokenType, int>, b: Map<CostTokenType, int>) -> Map<
    CostTokenType,
    int,
> {
    Map::new(
        |t: CostTokenType| a.dom().contains(t) || b.dom().contains(t),
        |t: CostTokenType|
            if tok_val(a, t) >= tok_val(b, t) {
                tok_val(a, t)
            } else {
                tok_val(b, t)
            },
    )
}

/// Left fold of `cost_max2` over a sequence of models, starting from `z`.
pub open spec fn cost_max_seq(z: Map<CostTokenType, int>, s: Seq<Map<CostTokenType, int>>) -> Map<
    CostTokenType,
    int,
>
    decreases s.len(),
{
    if s.len() == 0 {
        z
    } else {
        cost_max2(cost_max_seq(z, s.drop_last()), s.last())
    }
}

/// Each value clamped to be non-negative; the key set is kept.
pub open spec fn cost_rect(a: Map<CostTokenType, int>) -> Map<CostTokenType, int> {
    Map::new(
        |t: CostTokenType| a.dom().contains(t),
        |t: CostTokenType|
            if a[t] >= 0 {
                a[t]
            } else {
                0
            },
    )
}

/// All values of `m` lie within the signed 32-bit range.
pub open spec fn cost_in_i32(m: Map<CostTokenType, int>) -> bool {
    forall|t: CostTokenType| m.dom().contains(t) ==> i32::MIN <= #[trigger] m[t] <= i32::MAX
}

} // verus!

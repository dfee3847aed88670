//! Cost objects: token types, constant costs and pre-cost token multisets.

use vstd::prelude::*;

use crate::model::cost_in_i32;
use crate::model::tok_val;
use crate::program::Function;

verus! {

/// A resource-token flavor tracked by the analysis.
///
/// `Const` is the compile-time-known scalar cost; the remaining variants are
/// the builtin pre-cost tokens.
#[derive(Clone, Copy, Debug, Hash, PartialEq, Eq, Structural)]
pub enum CostTokenType {
    /// A compile-time-known cost unit.
    Const,
    /// One invocation of the pedersen hash builtin.
    Pedersen,
    /// One invocation of the poseidon hades permutation builtin.
    Poseidon,
    /// One invocation of the bitwise builtin.
    Bitwise,
    /// One invocation of the EC op builtin.
    EcOp,
    /// One invocation of the add-mod builtin.
    AddMod,
    /// One invocation of the mul-mod builtin.
    MulMod,
}

/// The pre-cost token types, in the fixed order in which per-token variables
/// are emitted.
pub open spec fn precost_tokens() -> Seq<CostTokenType> {
    seq![
        CostTokenType::Pedersen,
        CostTokenType::Poseidon,
        CostTokenType::Bitwise,
        CostTokenType::EcOp,
        CostTokenType::AddMod,
        CostTokenType::MulMod,
    ]
}

/// The pre-cost token types as a vector, in emission order.
pub fn iter_precost() -> (r: Vec<CostTokenType>)
    ensures
        r@ == precost_tokens(),
{
    let mut r: Vec<CostTokenType> = Vec::new();
    r.push(CostTokenType::Pedersen);
    r.push(CostTokenType::Poseidon);
    r.push(CostTokenType::Bitwise);
    r.push(CostTokenType::EcOp);
    r.push(CostTokenType::AddMod);
    r.push(CostTokenType::MulMod);
    proof {
        assert(r@ =~= precost_tokens());
    }
    r
}

/// Weight of one step in the `Const` scalar.
pub const STEP_COST: i32 = 1;

/// Weight of one memory hole in the `Const` scalar.
pub const HOLE_COST: i32 = 1;

/// Weight of one range check in the `Const` scalar.
pub const RANGE_CHECK_COST: i32 = 1;

/// A compile-time-known cost, as a triple of step, hole and range-check
/// counts, reduced to a single scalar by a fixed linear formula.
#[derive(Clone, Copy, Debug, PartialEq, Eq, Structural)]
pub struct ConstCost {
    pub steps: i32,
    pub holes: i32,
    pub range_checks: i32,
}

/// The scalar that a [`ConstCost`] reduces to.
pub open spec fn const_cost_value(c: ConstCost) -> int {
    c.steps * STEP_COST + c.holes * HOLE_COST + c.range_checks * RANGE_CHECK_COST
}

impl ConstCost {
    /// Reduces the triple to its scalar value.
    pub fn cost(&self) -> (r: i32)
        requires
            i32::MIN <= const_cost_value(*self) <= i32::MAX,
            i32::MIN <= self.steps * STEP_COST <= i32::MAX,
            i32::MIN <= self.steps * STEP_COST + self.holes * HOLE_COST <= i32::MAX,
        ensures
            r == const_cost_value(*self),
    {
        self.steps * STEP_COST + self.holes * HOLE_COST + self.range_checks * RANGE_CHECK_COST
    }
}

/// A pre-cost value: a mapping from token type to signed count, kept as a
/// key-unique association list in insertion order.  An absent token counts
/// as zero.
#[derive(Clone, Debug, PartialEq, Eq)]
pub struct PreCost(pub Vec<(CostTokenType, i32)>);

/// The map denoted by a key-unique association list, with 32-bit values
/// widened to `int`.
pub open spec fn entries_model(s: Seq<(CostTokenType, i32)>) -> Map<CostTokenType, int>
    decreases s.len(),
{
    if s.len() == 0 {
        Map::empty()
    } else {
        entries_model(s.drop_last()).insert(s.last().0, s.last().1 as int)
    }
}

/// The keys of an association list, in order.
pub open spec fn entry_keys(s: Seq<(CostTokenType, i32)>) -> Seq<CostTokenType> {
    s.map_values(|p: (CostTokenType, i32)| p.0)
}

impl PreCost {
    /// Well-formed: no token appears twice.
    pub open spec fn wf(&self) -> bool {
        forall|i: int, j: int|
            0 <= i < j < self.0@.len() ==> (#[trigger] self.0@[i]).0 != (#[trigger] self.0@[j]).0
    }

    /// The empty pre-cost value.
    pub fn empty() -> (r: PreCost)
        ensures
            r.wf(),
            r.0@.len() == 0,
            entries_model(r.0@) == Map::<CostTokenType, int>::empty(),
    {
        PreCost(Vec::new())
    }
}

/// The model's key set is exactly the listed keys, and each listed entry is
/// the model's value for its key, provided the keys are unique.
pub proof fn lemma_entries_model(s: Seq<(CostTokenType, i32)>)
    requires
        forall|i: int, j: int| 0 <= i < j < s.len() ==> (#[trigger] s[i]).0 != (#[trigger] s[j]).0,
    ensures
        forall|t: CostTokenType|
            entries_model(s).dom().contains(t) <==> entry_keys(s).contains(t),
        forall|i: int|
            0 <= i < s.len() ==> entries_model(s).dom().contains((#[trigger] s[i]).0)
                && entries_model(s)[s[i].0] == s[i].1 as int,
        cost_in_i32(entries_model(s)),
        entries_model(s).dom().finite(),
    decreases s.len(),
{
    if s.len() > 0 {
        lemma_entries_model(s.drop_last());
        assert forall|t: CostTokenType|
            entries_model(s).dom().contains(t) <==> entry_keys(s).contains(t) by {
            if entry_keys(s).contains(t) {
                let i = choose|i: int| 0 <= i < entry_keys(s).len() && entry_keys(s)[i] == t;
                if i < s.len() - 1 {
                    assert(entry_keys(s.drop_last())[i] == t);
                    assert(entry_keys(s.drop_last()).contains(t));
                }
            }
            if entries_model(s.drop_last()).dom().contains(t) {
                assert(entry_keys(s.drop_last()).contains(t));
                let i = choose|i: int|
                    0 <= i < entry_keys(s.drop_last()).len() && entry_keys(s.drop_last())[i] == t;
                assert(entry_keys(s.drop_last())[i] == s.drop_last()[i].0);
                assert(s.drop_last()[i] == s[i]);
                assert(entry_keys(s)[i] == t);
                assert(entry_keys(s).contains(t));
            }
            assert(entry_keys(s)[s.len() - 1] == s.last().0);
        }
        assert forall|i: int|
            0 <= i < s.len() implies entries_model(s).dom().contains((#[trigger] s[i]).0)
            && entries_model(s)[s[i].0] == s[i].1 as int by {
            if i < s.len() - 1 {
                assert(s.drop_last()[i] == s[i]);
                assert(s[i].0 != s.last().0);
            }
        }
    }
}

/// All counts of a cost triple are non-negative and its scalar fits in 32
/// bits.
pub open spec fn const_cost_wf(c: ConstCost) -> bool {
    &&& 0 <= c.steps
    &&& 0 <= c.holes
    &&& 0 <= c.range_checks
    &&& const_cost_value(c) <= i32::MAX
}

/// The cost of one outgoing branch of a libfunc.
#[derive(Clone, Debug, PartialEq, Eq)]
pub enum BranchCost {
    /// A branch with a constant cost and a pre-cost token requirement.
    Regular { const_cost: ConstCost, pre_cost: PreCost },
    /// A branch-align statement, whose cost depends on the local
    /// allocation-pointer change.
    BranchAlign,
    /// A function call; the callee's entry-point wallet is part of the
    /// requirement.
    FunctionCall { const_cost: ConstCost, function: Function },
    /// One of the two edges of a gas withdrawal.
    WithdrawGas { const_cost: ConstCost, success: bool, with_builtin_costs: bool },
    /// A redeposit of unused gas.
    RedepositGas,
}

/// A branch cost is well formed for a program of `n` statements.
pub open spec fn branch_cost_wf(bc: BranchCost, n: int) -> bool {
    match bc {
        BranchCost::Regular { const_cost, pre_cost } => const_cost_wf(const_cost)
            && pre_cost.wf(),
        BranchCost::BranchAlign => true,
        BranchCost::FunctionCall { const_cost, function } => const_cost_wf(const_cost) && 0
            <= function.entry_point.0 < n,
        BranchCost::WithdrawGas { const_cost, success, with_builtin_costs } => const_cost_wf(
            const_cost,
        ),
        BranchCost::RedepositGas => true,
    }
}

/// The libfunc cost oracle, tabulated: entry `l` lists the cost of each
/// outgoing branch of the libfunc with identifier `l`.
#[derive(Clone, Debug, PartialEq, Eq)]
pub struct CostTable(pub Vec<Vec<BranchCost>>);

impl CostTable {
    /// Every branch cost of every libfunc is well formed for a program of
    /// `n` statements.
    pub open spec fn wf(&self, n: int) -> bool {
        forall|l: int, j: int|
            0 <= l < self.0@.len() && 0 <= j < self.0@[l]@.len() ==> branch_cost_wf(
                #[trigger] self.0@[l]@[j],
                n,
            )
    }
}

} // verus!

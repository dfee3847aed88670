//! The two-pass gas-cost analysis.
//!
//! [`compute_costs`] computes, for every statement, the minimum wallet
//! value that must be present before the statement executes, and the cost
//! variables the downstream code generator must emit.  The
//! `specific_cost_context` argument selects the pre-cost or the post-cost
//! pass.

use vstd::prelude::*;

use crate::cost_type::scalar_model;
use crate::cost_type::CostTypeTrait;
use crate::gas_info::lemma_var_values_model;
use crate::gas_info::var_key;
use crate::gas_info::CostError;
use crate::gas_info::GasInfo;
use crate::gas_info::TokenCosts;
use crate::gas_info::VariableValues;
use crate::model::cost_add;
use crate::model::cost_in_i32;
use crate::model::cost_sub;
use crate::model::tok_val;
use crate::objects::branch_cost_wf;
use crate::objects::const_cost_value;
use crate::objects::const_cost_wf;
use crate::objects::entries_model;
use crate::objects::iter_precost;
use crate::objects::lemma_entries_model;
use crate::objects::precost_tokens;
use crate::objects::BranchCost;
use crate::objects::ConstCost;
use crate::objects::CostTable;
use crate::objects::CostTokenType;
use crate::objects::PreCost;
use crate::program::spec_next;
use crate::program::stmt_branches;
use crate::program::stmt_targets_in;
use crate::program::BranchInfo;
use crate::program::Invocation;
use crate::program::Program;
use crate::program::Statement;
use crate::program::StatementIdx;

verus! {

/// The wallet value of statement `i` in wallet-model map `w`; zero when the
/// statement's wallet is not (yet) known.
pub open spec fn wmap_at(w: Map<int, Map<CostTokenType, int>>, i: int) -> Map<CostTokenType, int> {
    if w.dom().contains(i) {
        w[i]
    } else {
        Map::empty()
    }
}

/// The statement at index `i`.
pub open spec fn stmt_at(program: &Program, i: int) -> Statement {
    program.statements@[i]
}

/// The branch-cost list index of the statement at `i` (its libfunc).
pub open spec fn libfunc_of(program: &Program, i: int) -> int {
    match stmt_at(program, i) {
        Statement::Invocation(inv) => inv.libfunc_id as int,
        Statement::Return => 0,
    }
}

/// The cost of branch `j` of the invocation at `i`.
pub open spec fn branch_cost_at(program: &Program, table: &CostTable, i: int, j: int) -> BranchCost {
    table.0@[libfunc_of(program, i)]@[j]
}

/// The branch info of branch `j` of the invocation at `i`.
pub open spec fn branch_info_at(program: &Program, i: int, j: int) -> BranchInfo {
    stmt_branches(stmt_at(program, i))[j]
}

/// The statement branch `j` of the invocation at `i` leads to.
pub open spec fn branch_target_at(program: &Program, i: int, j: int) -> int {
    spec_next(i, branch_info_at(program, i, j).target)
}

/// An invocation's libfunc has one cost entry per outgoing branch.
pub open spec fn stmt_costs_match(s: Statement, table: &CostTable) -> bool {
    match s {
        Statement::Invocation(inv) => inv.libfunc_id < table.0@.len() && table.0@[inv.libfunc_id as int]@.len()
            == inv.branches@.len(),
        Statement::Return => true,
    }
}

/// The program and the cost table fit together: targets and entry points
/// stay inside the program, costs are well formed, and every invocation has
/// as many branches as its libfunc has cost entries.
pub open spec fn program_table_wf(program: &Program, table: &CostTable) -> bool {
    &&& program.wf()
    &&& table.wf(program.statements@.len() as int)
    &&& forall|i: int|
        0 <= i < program.statements@.len() ==> stmt_costs_match(
            #[trigger] program.statements@[i],
            table,
        )
}

/// The statements whose wallet value the requirement of one branch reads:
/// the callee entry point for a function call, nothing for a successful
/// withdrawal (the withdrawal decouples the wallet from the continuation),
/// and the branch target otherwise (for a call, both).
pub open spec fn branch_dep_targets(i: int, bi: BranchInfo, bc: BranchCost) -> Seq<StatementIdx> {
    match bc {
        BranchCost::FunctionCall { const_cost, function } => seq![
            function.entry_point,
            StatementIdx(spec_next(i, bi.target) as usize),
        ],
        BranchCost::WithdrawGas { const_cost, success, with_builtin_costs } => if success {
            Seq::empty()
        } else {
            seq![StatementIdx(spec_next(i, bi.target) as usize)]
        },
        _ => seq![StatementIdx(spec_next(i, bi.target) as usize)],
    }
}

/// The dependencies of statement `i` contributed by its first `j` branches.
pub open spec fn stmt_deps_upto(program: &Program, table: &CostTable, i: int, j: int) -> Seq<
    StatementIdx,
>
    decreases j,
{
    if j <= 0 {
        Seq::empty()
    } else {
        stmt_deps_upto(program, table, i, j - 1) + branch_dep_targets(
            i,
            branch_info_at(program, i, j - 1),
            branch_cost_at(program, table, i, j - 1),
        )
    }
}

/// The statements whose wallet value is needed to compute the wallet of
/// statement `i`.
pub open spec fn stmt_deps(program: &Program, table: &CostTable, i: int) -> Seq<StatementIdx> {
    match stmt_at(program, i) {
        Statement::Return => Seq::empty(),
        Statement::Invocation(inv) => stmt_deps_upto(program, table, i, inv.branches@.len() as int),
    }
}

/// The dependency graph of the wallet computation.
pub open spec fn wallet_dep_graph(program: &Program, table: &CostTable) -> Seq<Seq<StatementIdx>> {
    Seq::new(program.statements@.len(), |i: int| stmt_deps(program, table, i))
}

/// Every dependency contributed by the first `j` branches of the
/// invocation at `i` is a statement of the program.
proof fn lemma_stmt_deps_upto_bound(program: &Program, table: &CostTable, i: int, j: int)
    requires
        program_table_wf(program, table),
        0 <= i < program.statements@.len(),
        stmt_at(program, i) is Invocation,
        0 <= j <= stmt_branches(stmt_at(program, i)).len(),
    ensures
        forall|k: int|
            0 <= k < stmt_deps_upto(program, table, i, j).len() ==> 0 <= (#[trigger] stmt_deps_upto(
                program,
                table,
                i,
                j,
            )[k]).0 < program.statements@.len(),
    decreases j,
{
    let n = program.statements@.len() as int;
    if j > 0 {
        lemma_stmt_deps_upto_bound(program, table, i, j - 1);
        let prev = stmt_deps_upto(program, table, i, j - 1);
        let bc = branch_cost_at(program, table, i, j - 1);
        let bi = branch_info_at(program, i, j - 1);
        let tail = branch_dep_targets(i, bi, bc);
        assert(stmt_costs_match(stmt_at(program, i), table));
        assert(branch_cost_wf(bc, n));
        assert(stmt_targets_in(stmt_at(program, i), i, n));
        assert(0 <= spec_next(i, (#[trigger] stmt_branches(stmt_at(program, i))[j - 1]).target)
            < n);
        assert forall|k: int|
            0 <= k < stmt_deps_upto(program, table, i, j).len() implies 0 <= (
        #[trigger] stmt_deps_upto(program, table, i, j)[k]).0 < n by {
            if k < prev.len() {
                assert(stmt_deps_upto(program, table, i, j)[k] == prev[k]);
            } else {
                assert(stmt_deps_upto(program, table, i, j)[k] == tail[k - prev.len()]);
            }
        }
    }
}

/// Each dependency of a well-formed statement is a statement of the
/// program.
pub proof fn lemma_wallet_graph_wf(program: &Program, table: &CostTable)
    requires
        program_table_wf(program, table),
    ensures
        crate::topological::graph_wf(
            wallet_dep_graph(program, table),
            program.statements@.len() as int,
        ),
{
    let n = program.statements@.len() as int;
    let g = wallet_dep_graph(program, table);
    assert forall|i: int, j: int| 0 <= i < n && 0 <= j < g[i].len() implies (#[trigger] g[i][j]).0
        < n by {
        let s = program.statements@[i];
        match s {
            Statement::Return => {},
            Statement::Invocation(inv) => {
                lemma_stmt_deps_upto_bound(program, table, i, inv.branches@.len() as int);
                assert(g[i] == stmt_deps(program, table, i));
                assert(0 <= stmt_deps_upto(program, table, i, inv.branches@.len() as int)[j].0
                    < n);
            },
        }
    }
}

/// The wallet model of one cached statement.
pub open spec fn cached_model<C: CostTypeTrait>(costs: Seq<Option<WalletInfo<C>>>, i: int) -> Map<
    CostTokenType,
    int,
> {
    match costs[i] {
        Option::Some(w) => w.value.model(),
        Option::None => Map::empty(),
    }
}

/// The wallet models held by a cache: one entry per statement whose wallet
/// was computed.
pub open spec fn cache_model<C: CostTypeTrait>(costs: Seq<Option<WalletInfo<C>>>) -> Map<
    int,
    Map<CostTokenType, int>,
> {
    Map::new(
        |i: int| 0 <= i < costs.len() && costs[i] is Some,
        |i: int| cached_model(costs, i),
    )
}

/// Every cached wallet value satisfies its representation invariant.
pub open spec fn cache_inv<C: CostTypeTrait>(costs: Seq<Option<WalletInfo<C>>>) -> bool {
    forall|i: int|
        0 <= i < costs.len() && costs[i] is Some ==> (match #[trigger] costs[i] {
            Option::Some(w) => w.value.inv(),
            Option::None => true,
        })
}

/// The information about the wallet value at a given statement.
pub struct WalletInfo<CostType: CostTypeTrait> {
    /// The minimum wallet value before executing the statement.
    pub value: CostType,
}

impl<CostType: CostTypeTrait> WalletInfo<CostType> {
    /// The wallet that must be present whichever branch is taken: the
    /// per-token maximum of the branches' requirements.
    pub fn merge(branches: Vec<Self>) -> (r: Self)
        requires
            forall|k: int| 0 <= k < branches@.len() ==> (#[trigger] branches@[k]).value.inv(),
        ensures
            r.value.inv(),
            r.value.model() == CostType::max_model(
                branches@.map_values(|w: Self| w.value.model()),
            ),
    {
        let n = branches.len();
        let mut vals: Vec<CostType> = Vec::new();
        let mut i: usize = 0;
        while i < n
            invariant
                n == branches@.len(),
                0 <= i <= n,
                forall|k: int| 0 <= k < n ==> (#[trigger] branches@[k]).value.inv(),
                vals@.len() == i,
                forall|k: int|
                    0 <= k < i ==> (#[trigger] vals@[k]).inv() && vals@[k].model()
                        == branches@[k].value.model(),
            decreases n - i,
        {
            vals.push(branches[i].value.clone_val());
            i = i + 1;
        }
        proof {
            assert(vals@.map_values(|v: CostType| v.model()) =~= branches@.map_values(
                |w: Self| w.value.model(),
            ));
        }
        let max_value = CostType::max_of(vals);
        WalletInfo { value: max_value }
    }

    /// Wraps a cost value as a wallet value.
    pub fn from(value: CostType) -> (r: Self)
        ensures
            r.value == value,
    {
        WalletInfo { value }
    }

    /// Field-wise addition of wallet values.
    pub fn add(self, other: Self) -> (r: Self)
        requires
            self.value.inv(),
            other.value.inv(),
            cost_in_i32(cost_add(self.value.model(), other.value.model())),
        ensures
            r.value.inv(),
            r.value.model() == cost_add(self.value.model(), other.value.model()),
    {
        WalletInfo { value: self.value.add_val(&other.value) }
    }
}

/// The entry list of a full cost map: every listed token, in order, with
/// its (possibly zero) value.
pub open spec fn full_cost_entries(tokens: Seq<CostTokenType>, m: Map<CostTokenType, int>) -> Seq<
    (CostTokenType, i64),
> {
    Seq::new(tokens.len(), |k: int| (tokens[k], tok_val(m, tokens[k]) as i64))
}

/// The policy of one analysis pass: pre-cost or post-cost.  It decides how
/// a branch requirement is computed, how a withdrawal is priced, whether
/// the excess pass runs, and how a cost value surfaces as a token-keyed
/// map.
pub trait SpecificCostContextTrait<C: CostTypeTrait>: Sized {
    /// Whether excess cost should be computed and handled.
    spec fn spec_handles_excess() -> bool;

    /// Validity of this policy for a given program and cost table.
    spec fn wf(&self, program: &Program, table: &CostTable) -> bool;

    /// The tokens of a full cost map, in emission order.
    spec fn full_tokens() -> Seq<CostTokenType>;

    /// The entry list `to_cost_map` produces for a cost value.
    spec fn spec_to_cost_map(cost: &C) -> Seq<(CostTokenType, i64)>;

    /// The token map `to_cost_map` denotes, as a function of the cost
    /// value's model.
    spec fn spec_cost_map_model(m: Map<CostTokenType, int>) -> Map<CostTokenType, int>;

    /// `to_cost_map` reads only the representation of its argument.
    proof fn lemma_to_cost_map_same_repr(a: &C, b: &C)
        requires
            C::same_repr(a, b),
        ensures
            Self::spec_to_cost_map(a) == Self::spec_to_cost_map(b),
    ;

    /// The wallet needed before statement `i` if branch `j` is taken,
    /// given the wallet models `w` of the already solved statements.
    spec fn spec_branch_requirement(
        &self,
        w: Map<int, Map<CostTokenType, int>>,
        program: &Program,
        table: &CostTable,
        i: int,
        j: int,
    ) -> Map<CostTokenType, int>;

    /// The arithmetic for that branch requirement stays in 32-bit range.
    spec fn branch_req_ok(
        &self,
        w: Map<int, Map<CostTokenType, int>>,
        program: &Program,
        table: &CostTable,
        i: int,
        j: int,
    ) -> bool;

    /// The amount a successful withdrawal at `i` must withdraw.
    spec fn spec_withdrawal(
        &self,
        i: int,
        bc: BranchCost,
        wallet: Map<CostTokenType, int>,
        future: Map<CostTokenType, int>,
    ) -> Map<CostTokenType, int>;

    /// Valid inputs for `get_gas_withdrawal`.
    spec fn withdrawal_ok(
        &self,
        i: int,
        bc: BranchCost,
        wallet: Map<CostTokenType, int>,
        future: Map<CostTokenType, int>,
    ) -> bool;

    /// Whether excess cost should be computed and handled.
    fn should_handle_excess() -> (r: bool)
        ensures
            r == Self::spec_handles_excess(),
    ;

    /// Converts a cost value to a token-keyed 64-bit map.
    fn to_cost_map(cost: &C) -> (r: TokenCosts)
        requires
            cost.inv(),
        ensures
            r.wf(),
            r.0@ == Self::spec_to_cost_map(cost),
            crate::gas_info::token_costs_model(r.0@) == Self::spec_cost_map_model(cost.model()),
    ;

    /// Converts a cost value to a token-keyed 64-bit map holding every
    /// relevant token, zero-valued ones included.
    fn to_full_cost_map(cost: &C) -> (r: TokenCosts)
        requires
            cost.inv(),
        ensures
            r.wf(),
            r.0@ == full_cost_entries(Self::full_tokens(), cost.model()),
    ;

    /// Computes the value that a successful withdrawal at `idx` should
    /// withdraw and add to the wallet.
    fn get_gas_withdrawal(
        &self,
        idx: &StatementIdx,
        branch_cost: &BranchCost,
        wallet_value: &C,
        future_wallet_value: C,
    ) -> (r: C)
        requires
            wallet_value.inv(),
            future_wallet_value.inv(),
            self.withdrawal_ok(
                idx.0 as int,
                *branch_cost,
                wallet_value.model(),
                future_wallet_value.model(),
            ),
        ensures
            r.inv(),
            r.model() == self.spec_withdrawal(
                idx.0 as int,
                *branch_cost,
                wallet_value.model(),
                future_wallet_value.model(),
            ),
    ;

    /// Computes the required wallet value for a single branch, reading the
    /// already solved wallets from `costs`.
    fn get_branch_requirement(
        &self,
        costs: &Vec<Option<WalletInfo<C>>>,
        program: &Program,
        table: &CostTable,
        idx: &StatementIdx,
        branch_index: usize,
        branch_info: &BranchInfo,
        branch_cost: &BranchCost,
    ) -> (r: WalletInfo<C>)
        requires
            program_table_wf(program, table),
            self.wf(program, table),
            costs@.len() == program.statements@.len(),
            cache_inv(costs@),
            idx.0 < program.statements@.len(),
            stmt_at(program, idx.0 as int) is Invocation,
            branch_index < stmt_branches(stmt_at(program, idx.0 as int)).len(),
            *branch_info == branch_info_at(program, idx.0 as int, branch_index as int),
            *branch_cost == branch_cost_at(program, table, idx.0 as int, branch_index as int),
            forall|k: int|
                0 <= k < branch_dep_targets(idx.0 as int, *branch_info, *branch_cost).len()
                    ==> cache_model(costs@).dom().contains(
                    (#[trigger] branch_dep_targets(idx.0 as int, *branch_info, *branch_cost)[k]).0 as int,
                ),
            self.branch_req_ok(
                cache_model(costs@),
                program,
                table,
                idx.0 as int,
                branch_index as int,
            ),
        ensures
            r.value.inv(),
            r.value.model() == self.spec_branch_requirement(
                cache_model(costs@),
                program,
                table,
                idx.0 as int,
                branch_index as int,
            ),
    ;

    /// A branch requirement reads only the wallets of the branch's
    /// dependency targets: wallet maps that agree there give the same
    /// requirement.
    proof fn lemma_branch_requirement_frame(
        &self,
        w1: Map<int, Map<CostTokenType, int>>,
        w2: Map<int, Map<CostTokenType, int>>,
        program: &Program,
        table: &CostTable,
        i: int,
        j: int,
    )
        requires
            program_table_wf(program, table),
            0 <= i < program.statements@.len(),
            stmt_at(program, i) is Invocation,
            0 <= j < stmt_branches(stmt_at(program, i)).len(),
            forall|k: int|
                0 <= k < branch_dep_targets(
                    i,
                    branch_info_at(program, i, j),
                    branch_cost_at(program, table, i, j),
                ).len() ==> {
                    let d = (#[trigger] branch_dep_targets(
                        i,
                        branch_info_at(program, i, j),
                        branch_cost_at(program, table, i, j),
                    )[k]).0 as int;
                    w1.dom().contains(d) == w2.dom().contains(d) && wmap_at(w1, d) == wmap_at(
                        w2,
                        d,
                    )
                },
        ensures
            self.spec_branch_requirement(w1, program, table, i, j)
                == self.spec_branch_requirement(w2, program, table, i, j),
            self.branch_req_ok(w1, program, table, i, j) == self.branch_req_ok(
                w2,
                program,
                table,
                i,
                j,
            ),
    ;
}

/// Reads the cached wallet of statement `i`.
fn cache_wallet_at<C: CostTypeTrait>(costs: &Vec<Option<WalletInfo<C>>>, i: usize) -> (r:
    WalletInfo<C>)
    requires
        cache_inv(costs@),
        i < costs@.len(),
        cache_model(costs@).dom().contains(i as int),
    ensures
        r.value.inv(),
        r.value.model() == wmap_at(cache_model(costs@), i as int),
        costs@[i as int] matches Some(wi) ==> C::same_repr(&r.value, &wi.value),
{
    match &costs[i] {
        Option::Some(w) => WalletInfo { value: w.value.clone_val() },
        Option::None => {
            proof {
                assert(!(costs@[i as int] is Some));
                assert(false);
            }
            WalletInfo { value: C::default_val() }
        },
    }
}

/// The pre-cost analysis policy: wallet values are token multisets, taken
/// from the branches' declared pre-costs.
pub struct PreCostContext {}

impl SpecificCostContextTrait<PreCost> for PreCostContext {
    open spec fn spec_handles_excess() -> bool {
        false
    }

    open spec fn wf(&self, program: &Program, table: &CostTable) -> bool {
        true
    }

    open spec fn full_tokens() -> Seq<CostTokenType> {
        precost_tokens()
    }

    open spec fn spec_to_cost_map(cost: &PreCost) -> Seq<(CostTokenType, i64)> {
        cost.0@.map_values(|p: (CostTokenType, i32)| (p.0, p.1 as i64))
    }

    open spec fn spec_cost_map_model(m: Map<CostTokenType, int>) -> Map<CostTokenType, int> {
        m
    }

    proof fn lemma_to_cost_map_same_repr(a: &PreCost, b: &PreCost) {
        assert(Self::spec_to_cost_map(a) =~= Self::spec_to_cost_map(b));
    }

    open spec fn spec_branch_requirement(
        &self,
        w: Map<int, Map<CostTokenType, int>>,
        program: &Program,
        table: &CostTable,
        i: int,
        j: int,
    ) -> Map<CostTokenType, int> {
        let next = wmap_at(w, branch_target_at(program, i, j));
        match branch_cost_at(program, table, i, j) {
            BranchCost::Regular { const_cost, pre_cost } => cost_add(
                entries_model(pre_cost.0@),
                next,
            ),
            BranchCost::BranchAlign => cost_add(Map::empty(), next),
            BranchCost::FunctionCall { const_cost, function } => cost_add(
                wmap_at(w, function.entry_point.0 as int),
                next,
            ),
            BranchCost::WithdrawGas { const_cost, success, with_builtin_costs } => if success {
                Map::empty()
            } else {
                cost_add(Map::empty(), next)
            },
            BranchCost::RedepositGas => cost_add(Map::empty(), next),
        }
    }

    open spec fn branch_req_ok(
        &self,
        w: Map<int, Map<CostTokenType, int>>,
        program: &Program,
        table: &CostTable,
        i: int,
        j: int,
    ) -> bool {
        let next = wmap_at(w, branch_target_at(program, i, j));
        match branch_cost_at(program, table, i, j) {
            BranchCost::Regular { const_cost, pre_cost } => cost_in_i32(
                cost_add(entries_model(pre_cost.0@), next),
            ),
            BranchCost::FunctionCall { const_cost, function } => cost_in_i32(
                cost_add(wmap_at(w, function.entry_point.0 as int), next),
            ),
            _ => true,
        }
    }

    open spec fn spec_withdrawal(
        &self,
        i: int,
        bc: BranchCost,
        wallet: Map<CostTokenType, int>,
        future: Map<CostTokenType, int>,
    ) -> Map<CostTokenType, int> {
        cost_sub(future, wallet)
    }

    open spec fn withdrawal_ok(
        &self,
        i: int,
        bc: BranchCost,
        wallet: Map<CostTokenType, int>,
        future: Map<CostTokenType, int>,
    ) -> bool {
        cost_in_i32(cost_sub(future, wallet))
    }

    fn should_handle_excess() -> (r: bool) {
        false
    }

    fn to_cost_map(cost: &PreCost) -> (r: TokenCosts) {
        let n = cost.0.len();
        let mut entries: Vec<(CostTokenType, i64)> = Vec::new();
        let mut i: usize = 0;
        while i < n
            invariant
                n == cost.0@.len(),
                0 <= i <= n,
                cost.wf(),
                entries@.len() == i,
                forall|k: int|
                    0 <= k < i ==> #[trigger] entries@[k] == (cost.0@[k].0, cost.0@[k].1 as i64),
            decreases n - i,
        {
            let (t, v) = cost.0[i];
            entries.push((t, v as i64));
            i = i + 1;
        }
        let r = TokenCosts(entries);
        proof {
            assert(r.0@ =~= Self::spec_to_cost_map(cost));
            lemma_widened_model(cost.0@, r.0@);
        }
        r
    }

    fn to_full_cost_map(cost: &PreCost) -> (r: TokenCosts) {
        full_map_from_tokens(cost)
    }

    fn get_gas_withdrawal(
        &self,
        idx: &StatementIdx,
        branch_cost: &BranchCost,
        wallet_value: &PreCost,
        future_wallet_value: PreCost,
    ) -> (r: PreCost) {
        future_wallet_value.sub_val(wallet_value)
    }

    fn get_branch_requirement(
        &self,
        costs: &Vec<Option<WalletInfo<PreCost>>>,
        program: &Program,
        table: &CostTable,
        idx: &StatementIdx,
        branch_index: usize,
        branch_info: &BranchInfo,
        branch_cost: &BranchCost,
    ) -> (r: WalletInfo<PreCost>) {
        let ghost w = cache_model(costs@);
        let ghost i = idx.0 as int;
        let ghost j = branch_index as int;
        let branch_cost_value: PreCost = match branch_cost {
            BranchCost::Regular { const_cost: _, pre_cost } => pre_cost.clone_val(),
            BranchCost::BranchAlign => PreCost::default_val(),
            BranchCost::FunctionCall { const_cost: _, function } => {
                proof {
                    assert(branch_dep_targets(i, *branch_info, *branch_cost)[0]
                        == function.entry_point);
                    assert(branch_cost_wf(branch_cost_at(program, table, i, j),
                        program.statements@.len() as int));
                }
                let entry = cache_wallet_at(costs, function.entry_point.0);
                entry.value
            },
            BranchCost::WithdrawGas { const_cost: _, success, with_builtin_costs: _ } => {
                if *success {
                    // A successful withdrawal decouples this statement's
                    // wallet from the continuation: the withdrawn amount,
                    // solved later, will cover it.
                    let r = WalletInfo { value: PreCost::default_val() };
                    proof {
                        assert(r.value.model() =~= self.spec_branch_requirement(
                            w,
                            program,
                            table,
                            i,
                            j,
                        ));
                    }
                    return r;
                } else {
                    PreCost::default_val()
                }
            },
            BranchCost::RedepositGas => PreCost::default_val(),
        };
        proof {
            let tgt = branch_dep_targets(i, *branch_info, *branch_cost);
            match branch_cost {
                BranchCost::FunctionCall { const_cost, function } => {
                    assert(tgt[1] == StatementIdx(spec_next(i, branch_info.target) as usize));
                },
                _ => {
                    assert(tgt[0] == StatementIdx(spec_next(i, branch_info.target) as usize));
                },
            }
            assert(stmt_targets_in(stmt_at(program, i), i, program.statements@.len() as int));
            assert(0 <= spec_next(i, (#[trigger] stmt_branches(stmt_at(program, i))[j]).target)
                < program.statements@.len());
        }
        let next_idx = idx.next(&branch_info.target);
        let future_wallet_value = cache_wallet_at(costs, next_idx.0);
        proof {
            crate::cost_type::lemma_precost_model_in_i32(&branch_cost_value);
            crate::cost_type::lemma_precost_model_in_i32(&future_wallet_value.value);
            assert(cost_in_i32(
                cost_add(branch_cost_value.model(), future_wallet_value.value.model()),
            )) by {
                let s = cost_add(branch_cost_value.model(), future_wallet_value.value.model());
                match branch_cost {
                    BranchCost::Regular { const_cost, pre_cost } => {},
                    BranchCost::FunctionCall { const_cost, function } => {},
                    _ => {
                        assert forall|t: CostTokenType| s.dom().contains(t) implies i32::MIN <= #[trigger] s[t]
                            <= i32::MAX by {
                            assert(tok_val(branch_cost_value.model(), t) == 0);
                        }
                    },
                }
            }
        }
        let r = WalletInfo::from(branch_cost_value).add(future_wallet_value);
        proof {
            assert(r.value.model() == self.spec_branch_requirement(w, program, table, i, j));
        }
        r
    }

    proof fn lemma_branch_requirement_frame(
        &self,
        w1: Map<int, Map<CostTokenType, int>>,
        w2: Map<int, Map<CostTokenType, int>>,
        program: &Program,
        table: &CostTable,
        i: int,
        j: int,
    ) {
        let n = program.statements@.len() as int;
        assert(stmt_targets_in(stmt_at(program, i), i, n));
        assert(0 <= spec_next(i, (#[trigger] stmt_branches(stmt_at(program, i))[j]).target) < n);
        let bi = branch_info_at(program, i, j);
        let bc = branch_cost_at(program, table, i, j);
        let tgt = branch_dep_targets(i, bi, bc);
        let next = spec_next(i, bi.target);
        match bc {
            BranchCost::FunctionCall { const_cost, function } => {
                assert(tgt[0] == function.entry_point);
                assert(tgt[1] == StatementIdx(next as usize));
                assert((tgt[1]).0 as int == next);
            },
            BranchCost::WithdrawGas { const_cost, success, with_builtin_costs } => {
                if !success {
                    assert(tgt[0] == StatementIdx(next as usize));
                    assert((tgt[0]).0 as int == next);
                }
            },
            _ => {
                assert(tgt[0] == StatementIdx(next as usize));
                assert((tgt[0]).0 as int == next);
            },
        }
    }
}

/// The full pre-cost map of a value: every pre-cost token in emission
/// order, absent ones as zero.
fn full_map_from_tokens(cost: &PreCost) -> (r: TokenCosts)
    requires
        cost.wf(),
    ensures
        r.wf(),
        r.0@ == full_cost_entries(precost_tokens(), entries_model(cost.0@)),
{
    proof {
        lemma_entries_model(cost.0@);
    }
    let tokens = iter_precost();
    let n = tokens.len();
    let mut entries: Vec<(CostTokenType, i64)> = Vec::new();
    let mut i: usize = 0;
    while i < n
        invariant
            n == tokens@.len(),
            tokens@ == precost_tokens(),
            0 <= i <= n,
            cost.wf(),
            entries@.len() == i,
            forall|k: int|
                0 <= k < i ==> #[trigger] entries@[k] == (
                    precost_tokens()[k],
                    tok_val(entries_model(cost.0@), precost_tokens()[k]) as i64,
                ),
        decreases n - i,
    {
        proof {
            lemma_entries_model(cost.0@);
        }
        let t = tokens[i];
        let v: i64 = match precost_get(cost, t) {
            Option::Some(x) => x as i64,
            Option::None => 0,
        };
        entries.push((t, v));
        i = i + 1;
    }
    let r = TokenCosts(entries);
    proof {
        assert(r.0@ =~= full_cost_entries(precost_tokens(), entries_model(cost.0@)));
        assert forall|k1: int, k2: int| 0 <= k1 < k2 < r.0@.len() implies (#[trigger] r.0@[k1]).0
            != (#[trigger] r.0@[k2]).0 by {
            assert(r.0@[k1].0 == precost_tokens()[k1]);
            assert(r.0@[k2].0 == precost_tokens()[k2]);
        }
    }
    r
}

/// Widening entry values to 64 bits keeps the denoted token map.
proof fn lemma_widened_model(s: Seq<(CostTokenType, i32)>, t: Seq<(CostTokenType, i64)>)
    requires
        t.len() == s.len(),
        forall|k: int| 0 <= k < s.len() ==> #[trigger] t[k] == (s[k].0, s[k].1 as i64),
    ensures
        crate::gas_info::token_costs_model(t) == entries_model(s),
    decreases s.len(),
{
    if s.len() > 0 {
        assert forall|k: int| 0 <= k < s.drop_last().len() implies #[trigger] t.drop_last()[k] == (
            s.drop_last()[k].0,
            s.drop_last()[k].1 as i64,
        ) by {
            assert(t.drop_last()[k] == t[k]);
            assert(s.drop_last()[k] == s[k]);
        }
        lemma_widened_model(s.drop_last(), t.drop_last());
        assert(t.last() == (s.last().0, s.last().1 as i64));
        assert(crate::gas_info::token_costs_model(t) =~= entries_model(s));
    } else {
        assert(crate::gas_info::token_costs_model(t) =~= entries_model(s));
    }
}

/// The value of token `t` in a pre-cost value, if present.
fn precost_get(cost: &PreCost, t: CostTokenType) -> (r: Option<i32>)
    requires
        cost.wf(),
    ensures
        match r {
            Option::Some(v) => entries_model(cost.0@).dom().contains(t) && v as int
                == entries_model(cost.0@)[t],
            Option::None => !entries_model(cost.0@).dom().contains(t),
        },
{
    proof {
        lemma_entries_model(cost.0@);
    }
    let n = cost.0.len();
    let mut i: usize = 0;
    while i < n
        invariant
            n == cost.0@.len(),
            0 <= i <= n,
            cost.wf(),
            forall|k: int| 0 <= k < i ==> (#[trigger] cost.0@[k]).0 != t,
        decreases n - i,
    {
        let e = cost.0[i];
        if e.0 == t {
            proof {
                lemma_entries_model(cost.0@);
            }
            return Some(e.1);
        }
        i = i + 1;
    }
    proof {
        lemma_entries_model(cost.0@);
        if entries_model(cost.0@).dom().contains(t) {
            assert(crate::objects::entry_keys(cost.0@).contains(t));
            let k = choose|k: int|
                0 <= k < crate::objects::entry_keys(cost.0@).len() && crate::objects::entry_keys(
                    cost.0@,
                )[k] == t;
            assert(cost.0@[k].0 == t);
            assert(false);
        }
    }
    None
}

/// The usage of builtin token `t` at statement `i` recorded by the
/// pre-cost pass; zero when none was recorded.
pub open spec fn precost_usage(gi: &GasInfo, i: int, t: CostTokenType) -> int {
    if gi.variable_values.model().dom().contains(var_key(i, t)) {
        gi.variable_values.model()[var_key(i, t)]
    } else {
        0
    }
}

/// A usable usage of token `t` is recorded at statement `i`: present and
/// convertible to a machine word.
pub open spec fn builtin_input_ok(gi: &GasInfo, i: int, t: CostTokenType) -> bool {
    &&& gi.variable_values.model().dom().contains(var_key(i, t))
    &&& 0 <= gi.variable_values.model()[var_key(i, t)] <= usize::MAX
}

/// Usable usages are recorded for every builtin token the withdrawal
/// formula reads.
pub open spec fn builtin_inputs_ok(gi: &GasInfo, i: int) -> bool {
    &&& builtin_input_ok(gi, i, CostTokenType::Pedersen)
    &&& builtin_input_ok(gi, i, CostTokenType::Poseidon)
    &&& builtin_input_ok(gi, i, CostTokenType::Bitwise)
    &&& builtin_input_ok(gi, i, CostTokenType::EcOp)
}

/// The scalar cost of a gas withdrawal at statement `i`: the branch's
/// constant cost, plus the steps of the builtin-cost computation when
/// builtin costs are withdrawn too.
pub open spec fn spec_withdraw_gas_cost(gi: &GasInfo, i: int, cc: ConstCost, wbc: bool) -> int {
    const_cost_value(cc) + if wbc {
        crate::builtin_costs::spec_cost_computation_steps(
            false,
            precost_usage(gi, i, CostTokenType::Pedersen),
            precost_usage(gi, i, CostTokenType::Poseidon),
            precost_usage(gi, i, CostTokenType::Bitwise),
            precost_usage(gi, i, CostTokenType::EcOp),
        ) * crate::objects::STEP_COST
    } else {
        0
    }
}

/// The scalar cost of a branch alignment with allocation-pointer change
/// `ap`: free when nothing moved, else one step and `ap` holes.
pub open spec fn spec_align_cost(ap: int) -> int {
    if ap == 0 {
        0
    } else {
        crate::objects::STEP_COST + ap * crate::objects::HOLE_COST
    }
}

/// A withdrawal branch's inputs are usable and its cost fits in 32 bits.
pub open spec fn wg_branch_ok(
    gi: &GasInfo,
    program: &Program,
    table: &CostTable,
    i: int,
    j: int,
) -> bool {
    match branch_cost_at(program, table, i, j) {
        BranchCost::WithdrawGas { const_cost, success, with_builtin_costs } => (with_builtin_costs
            ==> builtin_inputs_ok(gi, i)) && 0 <= spec_withdraw_gas_cost(
            gi,
            i,
            const_cost,
            with_builtin_costs,
        ) <= i32::MAX,
        _ => true,
    }
}

/// The post-cost analysis policy: wallet values are scalars; constant
/// costs, alignment costs and withdrawal pricing all reduce to the `Const`
/// token.
pub struct PostcostContext<'a> {
    /// The allocation-pointer change of each statement, as an oracle for
    /// pricing branch alignments.
    pub ap_changes: &'a Vec<usize>,
    /// The result of the pre-cost pass, needed to price withdrawals with
    /// builtin costs.
    pub precost_gas_info: &'a GasInfo,
}

impl<'a> PostcostContext<'a> {
    /// Reads the recorded usage of builtin token `t` at `idx`.
    fn precost_usage_at(&self, idx: &StatementIdx, t: CostTokenType) -> (r: usize)
        requires
            self.precost_gas_info.variable_values.wf(),
            builtin_input_ok(self.precost_gas_info, idx.0 as int, t),
        ensures
            r as int == precost_usage(self.precost_gas_info, idx.0 as int, t),
    {
        match self.precost_gas_info.variable_values.get(*idx, t) {
            Option::Some(v) => v as usize,
            Option::None => {
                proof {
                    assert(false);
                }
                0
            },
        }
    }

    /// Computes the scalar cost of the withdraw-gas libfunc at `idx`.
    fn compute_withdraw_gas_cost(
        &self,
        idx: &StatementIdx,
        const_cost: &ConstCost,
        with_builtin_costs: bool,
    ) -> (r: i32)
        requires
            const_cost_wf(*const_cost),
            self.precost_gas_info.variable_values.wf(),
            with_builtin_costs ==> builtin_inputs_ok(self.precost_gas_info, idx.0 as int),
            0 <= spec_withdraw_gas_cost(
                self.precost_gas_info,
                idx.0 as int,
                *const_cost,
                with_builtin_costs,
            ) <= i32::MAX,
        ensures
            r as int == spec_withdraw_gas_cost(
                self.precost_gas_info,
                idx.0 as int,
                *const_cost,
                with_builtin_costs,
            ),
    {
        let mut amount = const_cost.cost();
        if with_builtin_costs {
            let u_ped = self.precost_usage_at(idx, CostTokenType::Pedersen);
            let u_pos = self.precost_usage_at(idx, CostTokenType::Poseidon);
            let u_bit = self.precost_usage_at(idx, CostTokenType::Bitwise);
            let u_ec = self.precost_usage_at(idx, CostTokenType::EcOp);
            let steps = crate::builtin_costs::cost_computation_steps(
                false,
                u_ped,
                u_pos,
                u_bit,
                u_ec,
            );
            proof {
                assert(steps <= 16);
            }
            let steps_i32 = steps as i32;
            let extra = ConstCost { steps: steps_i32, holes: 0, range_checks: 0 };
            let extra_cost = extra.cost();
            amount = amount + extra_cost;
        }
        amount
    }
}

impl<'a> SpecificCostContextTrait<i32> for PostcostContext<'a> {
    open spec fn spec_handles_excess() -> bool {
        true
    }

    open spec fn wf(&self, program: &Program, table: &CostTable) -> bool {
        let n = program.statements@.len() as int;
        &&& self.ap_changes@.len() == program.statements@.len()
        &&& forall|i: int|
            0 <= i < n ==> #[trigger] self.ap_changes@[i] <= i32::MAX && 0 <= spec_align_cost(
                self.ap_changes@[i] as int,
            ) <= i32::MAX
        &&& self.precost_gas_info.variable_values.wf()
        &&& forall|i: int, j: int|
            0 <= i < n && 0 <= j < stmt_branches(stmt_at(program, i)).len() ==> #[trigger] wg_branch_ok(
                self.precost_gas_info,
                program,
                table,
                i,
                j,
            )
    }

    open spec fn full_tokens() -> Seq<CostTokenType> {
        seq![CostTokenType::Const]
    }

    open spec fn spec_to_cost_map(cost: &i32) -> Seq<(CostTokenType, i64)> {
        if *cost == 0 {
            Seq::empty()
        } else {
            seq![(CostTokenType::Const, *cost as i64)]
        }
    }

    open spec fn spec_cost_map_model(m: Map<CostTokenType, int>) -> Map<CostTokenType, int> {
        if tok_val(m, CostTokenType::Const) == 0 {
            Map::empty()
        } else {
            scalar_model(tok_val(m, CostTokenType::Const))
        }
    }

    proof fn lemma_to_cost_map_same_repr(a: &i32, b: &i32) {
    }

    open spec fn spec_branch_requirement(
        &self,
        w: Map<int, Map<CostTokenType, int>>,
        program: &Program,
        table: &CostTable,
        i: int,
        j: int,
    ) -> Map<CostTokenType, int> {
        let next = wmap_at(w, branch_target_at(program, i, j));
        match branch_cost_at(program, table, i, j) {
            BranchCost::Regular { const_cost, pre_cost } => cost_add(
                scalar_model(const_cost_value(const_cost)),
                next,
            ),
            BranchCost::BranchAlign => cost_add(
                scalar_model(spec_align_cost(self.ap_changes@[i] as int)),
                next,
            ),
            BranchCost::FunctionCall { const_cost, function } => cost_add(
                cost_add(
                    wmap_at(w, function.entry_point.0 as int),
                    scalar_model(const_cost_value(const_cost)),
                ),
                next,
            ),
            BranchCost::WithdrawGas { const_cost, success, with_builtin_costs } => {
                let c = scalar_model(
                    spec_withdraw_gas_cost(
                        self.precost_gas_info,
                        i,
                        const_cost,
                        with_builtin_costs,
                    ),
                );
                if success {
                    c
                } else {
                    cost_add(c, next)
                }
            },
            BranchCost::RedepositGas => cost_add(scalar_model(0), next),
        }
    }

    open spec fn branch_req_ok(
        &self,
        w: Map<int, Map<CostTokenType, int>>,
        program: &Program,
        table: &CostTable,
        i: int,
        j: int,
    ) -> bool {
        let next = wmap_at(w, branch_target_at(program, i, j));
        match branch_cost_at(program, table, i, j) {
            BranchCost::Regular { const_cost, pre_cost } => cost_in_i32(
                cost_add(scalar_model(const_cost_value(const_cost)), next),
            ),
            BranchCost::BranchAlign => cost_in_i32(
                cost_add(scalar_model(spec_align_cost(self.ap_changes@[i] as int)), next),
            ),
            BranchCost::FunctionCall { const_cost, function } => cost_in_i32(
                cost_add(
                    wmap_at(w, function.entry_point.0 as int),
                    scalar_model(const_cost_value(const_cost)),
                ),
            ) && cost_in_i32(
                cost_add(
                    cost_add(
                        wmap_at(w, function.entry_point.0 as int),
                        scalar_model(const_cost_value(const_cost)),
                    ),
                    next,
                ),
            ),
            BranchCost::WithdrawGas { const_cost, success, with_builtin_costs } => success
                || cost_in_i32(
                cost_add(
                    scalar_model(
                        spec_withdraw_gas_cost(
                            self.precost_gas_info,
                            i,
                            const_cost,
                            with_builtin_costs,
                        ),
                    ),
                    next,
                ),
            ),
            BranchCost::RedepositGas => true,
        }
    }

    open spec fn spec_withdrawal(
        &self,
        i: int,
        bc: BranchCost,
        wallet: Map<CostTokenType, int>,
        future: Map<CostTokenType, int>,
    ) -> Map<CostTokenType, int> {
        match bc {
            BranchCost::WithdrawGas { const_cost, success, with_builtin_costs } => scalar_model(
                tok_val(future, CostTokenType::Const) + spec_withdraw_gas_cost(
                    self.precost_gas_info,
                    i,
                    const_cost,
                    with_builtin_costs,
                ) - tok_val(wallet, CostTokenType::Const),
            ),
            _ => scalar_model(0),
        }
    }

    open spec fn withdrawal_ok(
        &self,
        i: int,
        bc: BranchCost,
        wallet: Map<CostTokenType, int>,
        future: Map<CostTokenType, int>,
    ) -> bool {
        match bc {
            BranchCost::WithdrawGas { const_cost, success, with_builtin_costs } => {
                let wgc = spec_withdraw_gas_cost(
                    self.precost_gas_info,
                    i,
                    const_cost,
                    with_builtin_costs,
                );
                &&& success
                &&& const_cost_wf(const_cost)
                &&& self.precost_gas_info.variable_values.wf()
                &&& with_builtin_costs ==> builtin_inputs_ok(self.precost_gas_info, i)
                &&& 0 <= wgc <= i32::MAX
                &&& i32::MIN <= tok_val(future, CostTokenType::Const) + wgc <= i32::MAX
                &&& i32::MIN <= tok_val(future, CostTokenType::Const) + wgc - tok_val(
                    wallet,
                    CostTokenType::Const,
                ) <= i32::MAX
            },
            _ => false,
        }
    }

    fn should_handle_excess() -> (r: bool) {
        true
    }

    fn to_cost_map(cost: &i32) -> (r: TokenCosts) {
        if *cost == 0 {
            let r = TokenCosts(Vec::new());
            proof {
                assert(crate::gas_info::token_costs_model(r.0@) =~= Self::spec_cost_map_model(
                    cost.model(),
                ));
            }
            r
        } else {
            let mut entries: Vec<(CostTokenType, i64)> = Vec::new();
            entries.push((CostTokenType::Const, *cost as i64));
            let r = TokenCosts(entries);
            proof {
                assert(r.0@ =~= Self::spec_to_cost_map(cost));
                assert(r.0@.drop_last() =~= Seq::<(CostTokenType, i64)>::empty());
                assert(r.0@.last() == (CostTokenType::Const, *cost as i64));
                assert(crate::gas_info::token_costs_model(r.0@)
                    == crate::gas_info::token_costs_model(r.0@.drop_last()).insert(
                    CostTokenType::Const,
                    (*cost as i64) as int,
                ));
                assert(tok_val(cost.model(), CostTokenType::Const) == *cost as int);
                assert(crate::gas_info::token_costs_model(r.0@) =~= Self::spec_cost_map_model(
                    cost.model(),
                ));
            }
            r
        }
    }

    fn to_full_cost_map(cost: &i32) -> (r: TokenCosts) {
        let mut entries: Vec<(CostTokenType, i64)> = Vec::new();
        entries.push((CostTokenType::Const, *cost as i64));
        let r = TokenCosts(entries);
        proof {
            assert(tok_val(cost.model(), CostTokenType::Const) == *cost as int);
            assert(r.0@ =~= full_cost_entries(Self::full_tokens(), cost.model()));
        }
        r
    }

    fn get_gas_withdrawal(
        &self,
        idx: &StatementIdx,
        branch_cost: &BranchCost,
        wallet_value: &i32,
        future_wallet_value: i32,
    ) -> (r: i32) {
        match branch_cost {
            BranchCost::WithdrawGas { const_cost, success: _, with_builtin_costs } => {
                proof {
                    assert(tok_val(wallet_value.model(), CostTokenType::Const)
                        == *wallet_value as int);
                    assert(tok_val(future_wallet_value.model(), CostTokenType::Const)
                        == future_wallet_value as int);
                }
                let withdraw_gas_cost = self.compute_withdraw_gas_cost(
                    idx,
                    const_cost,
                    *with_builtin_costs,
                );
                let r = future_wallet_value + withdraw_gas_cost - *wallet_value;
                proof {
                    assert(r.model() =~= self.spec_withdrawal(
                        idx.0 as int,
                        *branch_cost,
                        wallet_value.model(),
                        future_wallet_value.model(),
                    ));
                }
                r
            },
            _ => {
                proof {
                    assert(false);
                }
                0
            },
        }
    }

    fn get_branch_requirement(
        &self,
        costs: &Vec<Option<WalletInfo<i32>>>,
        program: &Program,
        table: &CostTable,
        idx: &StatementIdx,
        branch_index: usize,
        branch_info: &BranchInfo,
        branch_cost: &BranchCost,
    ) -> (r: WalletInfo<i32>) {
        let ghost w = cache_model(costs@);
        let ghost i = idx.0 as int;
        let ghost j = branch_index as int;
        let ghost n = program.statements@.len() as int;
        proof {
            assert(branch_cost_wf(branch_cost_at(program, table, i, j), n));
        }
        let branch_cost_val: i32 = match branch_cost {
            BranchCost::Regular { const_cost, pre_cost: _ } => const_cost.cost(),
            BranchCost::BranchAlign => {
                let ap_change = self.ap_changes[idx.0];
                if ap_change == 0 {
                    0
                } else {
                    let cc = ConstCost { steps: 1, holes: ap_change as i32, range_checks: 0 };
                    cc.cost()
                }
            },
            BranchCost::FunctionCall { const_cost, function } => {
                proof {
                    assert(branch_dep_targets(i, *branch_info, *branch_cost)[0]
                        == function.entry_point);
                }
                let entry = cache_wallet_at(costs, function.entry_point.0);
                let cc = const_cost.cost();
                entry.value.add_val(&cc)
            },
            BranchCost::WithdrawGas { const_cost, success, with_builtin_costs } => {
                proof {
                    assert(wg_branch_ok(self.precost_gas_info, program, table, i, j));
                }
                let cost = self.compute_withdraw_gas_cost(idx, const_cost, *with_builtin_costs);
                // A successful withdrawal decouples this statement's wallet
                // from the continuation: the withdrawn amount covers it.
                if *success {
                    let r = WalletInfo { value: cost };
                    proof {
                        assert(r.value.model() =~= self.spec_branch_requirement(
                            w,
                            program,
                            table,
                            i,
                            j,
                        ));
                    }
                    return r;
                }
                cost
            },
            BranchCost::RedepositGas => 0,
        };
        proof {
            let tgt = branch_dep_targets(i, *branch_info, *branch_cost);
            match branch_cost {
                BranchCost::FunctionCall { const_cost, function } => {
                    assert(tgt[1] == StatementIdx(spec_next(i, branch_info.target) as usize));
                },
                _ => {
                    assert(tgt[0] == StatementIdx(spec_next(i, branch_info.target) as usize));
                },
            }
            assert(stmt_targets_in(stmt_at(program, i), i, n));
            assert(0 <= spec_next(i, (#[trigger] stmt_branches(stmt_at(program, i))[j]).target)
                < n);
        }
        let next_idx = idx.next(&branch_info.target);
        let future_wallet_value = cache_wallet_at(costs, next_idx.0);
        proof {
            assert(cost_in_i32(
                cost_add(branch_cost_val.model(), future_wallet_value.value.model()),
            )) by {
                let s = cost_add(branch_cost_val.model(), future_wallet_value.value.model());
                match branch_cost {
                    BranchCost::RedepositGas => {
                        assert forall|t: CostTokenType| s.dom().contains(t) implies i32::MIN <= #[trigger] s[t]
                            <= i32::MAX by {
                            assert(tok_val(branch_cost_val.model(), t) == 0);
                            assert(tok_val(future_wallet_value.value.model(), t)
                                == future_wallet_value.value as int);
                        }
                    },
                    _ => {},
                }
            }
        }
        let r = WalletInfo::from(branch_cost_val).add(future_wallet_value);
        proof {
            assert(r.value.model() =~= self.spec_branch_requirement(w, program, table, i, j));
        }
        r
    }
    proof fn lemma_branch_requirement_frame(
        &self,
        w1: Map<int, Map<CostTokenType, int>>,
        w2: Map<int, Map<CostTokenType, int>>,
        program: &Program,
        table: &CostTable,
        i: int,
        j: int,
    ) {
        let n = program.statements@.len() as int;
        assert(stmt_targets_in(stmt_at(program, i), i, n));
        assert(0 <= spec_next(i, (#[trigger] stmt_branches(stmt_at(program, i))[j]).target) < n);
        let bi = branch_info_at(program, i, j);
        let bc = branch_cost_at(program, table, i, j);
        let tgt = branch_dep_targets(i, bi, bc);
        let next = spec_next(i, bi.target);
        match bc {
            BranchCost::FunctionCall { const_cost, function } => {
                assert(tgt[0] == function.entry_point);
                assert(tgt[1] == StatementIdx(next as usize));
                assert((tgt[1]).0 as int == next);
            },
            BranchCost::WithdrawGas { const_cost, success, with_builtin_costs } => {
                if !success {
                    assert(tgt[0] == StatementIdx(next as usize));
                    assert((tgt[0]).0 as int == next);
                }
            },
            _ => {
                assert(tgt[0] == StatementIdx(next as usize));
                assert((tgt[0]).0 as int == next);
            },
        }
    }
}

/// The wallet the analysis assigns to statement `i`, given the wallet
/// models `w` of the already solved statements: zero for a return, the
/// maximum of the branch requirements for an invocation.
pub open spec fn stmt_wallet_model<C: CostTypeTrait, S: SpecificCostContextTrait<C>>(
    ctx: &S,
    w: Map<int, Map<CostTokenType, int>>,
    program: &Program,
    table: &CostTable,
    i: int,
) -> Map<CostTokenType, int> {
    match stmt_at(program, i) {
        Statement::Return => C::zero_model(),
        Statement::Invocation(inv) => C::max_model(
            Seq::new(
                inv.branches@.len(),
                |j: int| ctx.spec_branch_requirement(w, program, table, i, j),
            ),
        ),
    }
}

/// All wallet dependencies of statement `i` are solved in `w`.
pub open spec fn stmt_deps_in(
    program: &Program,
    table: &CostTable,
    i: int,
    w: Map<int, Map<CostTokenType, int>>,
) -> bool {
    forall|k: int|
        0 <= k < stmt_deps(program, table, i).len() ==> w.dom().contains(
            (#[trigger] stmt_deps(program, table, i)[k]).0 as int,
        )
}

/// All wallet dependencies of branch `j` of statement `i` are solved in
/// `w`.
pub open spec fn branch_deps_in(
    program: &Program,
    table: &CostTable,
    i: int,
    j: int,
    w: Map<int, Map<CostTokenType, int>>,
) -> bool {
    forall|k: int|
        0 <= k < branch_dep_targets(
            i,
            branch_info_at(program, i, j),
            branch_cost_at(program, table, i, j),
        ).len() ==> w.dom().contains(
            (#[trigger] branch_dep_targets(
                i,
                branch_info_at(program, i, j),
                branch_cost_at(program, table, i, j),
            )[k]).0 as int,
        )
}

/// `w` solves a dependency-closed set of statements: each solved statement
/// is a statement of the program, all its dependencies are solved, and its
/// wallet satisfies the wallet equation.
pub open spec fn partial_wallet_fixpoint<C: CostTypeTrait, S: SpecificCostContextTrait<C>>(
    ctx: &S,
    w: Map<int, Map<CostTokenType, int>>,
    program: &Program,
    table: &CostTable,
) -> bool {
    forall|i: int|
        #[trigger] w.dom().contains(i) ==> 0 <= i < program.statements@.len() && stmt_deps_in(
            program,
            table,
            i,
            w,
        ) && w[i] == stmt_wallet_model::<C, S>(ctx, w, program, table, i)
}

/// `w` solves every statement of the program, each wallet satisfying its
/// equation.
pub open spec fn wallet_fixpoint<C: CostTypeTrait, S: SpecificCostContextTrait<C>>(
    ctx: &S,
    w: Map<int, Map<CostTokenType, int>>,
    program: &Program,
    table: &CostTable,
) -> bool {
    &&& forall|i: int| 0 <= i < program.statements@.len() ==> #[trigger] w.dom().contains(i)
    &&& partial_wallet_fixpoint::<C, S>(ctx, w, program, table)
}

/// The arithmetic of every branch requirement stays in 32-bit range,
/// whichever dependency-closed partial solution it is computed over.  This
/// is the machine limit under which the analysis can run at all.
pub open spec fn analysis_in_bounds<C: CostTypeTrait, S: SpecificCostContextTrait<C>>(
    ctx: &S,
    program: &Program,
    table: &CostTable,
) -> bool {
    forall|w: Map<int, Map<CostTokenType, int>>, i: int, j: int|
        partial_wallet_fixpoint::<C, S>(ctx, w, program, table) && 0 <= i
            < program.statements@.len() && stmt_at(program, i) is Invocation && 0 <= j
            < stmt_branches(stmt_at(program, i)).len() && branch_deps_in(program, table, i, j, w)
            ==> #[trigger] ctx.branch_req_ok(w, program, table, i, j)
}

/// Target `kk` of branch `j` of statement `i` appears among the
/// dependencies contributed by the first `nb` branches.
pub open spec fn target_in_upto(
    program: &Program,
    table: &CostTable,
    i: int,
    j: int,
    nb: int,
    kk: int,
) -> bool {
    exists|k: int|
        0 <= k < stmt_deps_upto(program, table, i, nb).len() && stmt_deps_upto(
            program,
            table,
            i,
            nb,
        )[k] == branch_dep_targets(
            i,
            branch_info_at(program, i, j),
            branch_cost_at(program, table, i, j),
        )[kk]
}

/// Every dependency target of branch `j` appears among the dependencies of
/// the statement's first `nb` branches.
pub proof fn lemma_branch_targets_in_deps(
    program: &Program,
    table: &CostTable,
    i: int,
    j: int,
    nb: int,
)
    requires
        0 <= j < nb,
    ensures
        forall|kk: int|
            0 <= kk < branch_dep_targets(
                i,
                branch_info_at(program, i, j),
                branch_cost_at(program, table, i, j),
            ).len() ==> #[trigger] target_in_upto(program, table, i, j, nb, kk),
    decreases nb,
{
    let tgt = branch_dep_targets(
        i,
        branch_info_at(program, i, j),
        branch_cost_at(program, table, i, j),
    );
    let prev = stmt_deps_upto(program, table, i, nb - 1);
    if j == nb - 1 {
        assert forall|kk: int| 0 <= kk < tgt.len() implies #[trigger] target_in_upto(
            program,
            table,
            i,
            j,
            nb,
            kk,
        ) by {
            assert(stmt_deps_upto(program, table, i, nb)[prev.len() + kk] == tgt[kk]);
        }
    } else {
        lemma_branch_targets_in_deps(program, table, i, j, nb - 1);
        assert forall|kk: int| 0 <= kk < tgt.len() implies #[trigger] target_in_upto(
            program,
            table,
            i,
            j,
            nb,
            kk,
        ) by {
            assert(target_in_upto(program, table, i, j, nb - 1, kk));
            let k = choose|k: int|
                0 <= k < prev.len() && prev[k] == branch_dep_targets(
                    i,
                    branch_info_at(program, i, j),
                    branch_cost_at(program, table, i, j),
                )[kk];
            assert(stmt_deps_upto(program, table, i, nb)[k] == prev[k]);
        }
    }
}

/// Wallet maps that agree on the dependencies of statement `i` assign it
/// the same wallet, and admit the same arithmetic bounds.
pub proof fn lemma_stmt_wallet_frame<C: CostTypeTrait, S: SpecificCostContextTrait<C>>(
    ctx: &S,
    w1: Map<int, Map<CostTokenType, int>>,
    w2: Map<int, Map<CostTokenType, int>>,
    program: &Program,
    table: &CostTable,
    i: int,
)
    requires
        program_table_wf(program, table),
        0 <= i < program.statements@.len(),
        forall|k: int|
            0 <= k < stmt_deps(program, table, i).len() ==> {
                let d = (#[trigger] stmt_deps(program, table, i)[k]).0 as int;
                w1.dom().contains(d) == w2.dom().contains(d) && wmap_at(w1, d) == wmap_at(w2, d)
            },
    ensures
        stmt_wallet_model::<C, S>(ctx, w1, program, table, i) == stmt_wallet_model::<C, S>(
            ctx,
            w2,
            program,
            table,
            i,
        ),
        forall|j: int|
            stmt_at(program, i) is Invocation && 0 <= j < stmt_branches(
                stmt_at(program, i),
            ).len() ==> #[trigger] ctx.branch_req_ok(w1, program, table, i, j)
                == ctx.branch_req_ok(w2, program, table, i, j),
{
    match stmt_at(program, i) {
        Statement::Return => {},
        Statement::Invocation(inv) => {
            let nb = inv.branches@.len() as int;
            assert forall|j: int| 0 <= j < nb implies ctx.spec_branch_requirement(
                w1,
                program,
                table,
                i,
                j,
            ) == #[trigger] ctx.spec_branch_requirement(w2, program, table, i, j) by {
                lemma_branch_frame_one(ctx, w1, w2, program, table, i, j);
            }
            assert forall|j: int| 0 <= j < nb implies #[trigger] ctx.branch_req_ok(
                w1,
                program,
                table,
                i,
                j,
            ) == ctx.branch_req_ok(w2, program, table, i, j) by {
                lemma_branch_frame_one(ctx, w1, w2, program, table, i, j);
            }
            assert(Seq::new(
                inv.branches@.len(),
                |j: int| ctx.spec_branch_requirement(w1, program, table, i, j),
            ) =~= Seq::new(
                inv.branches@.len(),
                |j: int| ctx.spec_branch_requirement(w2, program, table, i, j),
            ));
        },
    }
}

/// The frame property for one branch, lifted from statement-level
/// dependency agreement.
pub proof fn lemma_branch_frame_one<C: CostTypeTrait, S: SpecificCostContextTrait<C>>(
    ctx: &S,
    w1: Map<int, Map<CostTokenType, int>>,
    w2: Map<int, Map<CostTokenType, int>>,
    program: &Program,
    table: &CostTable,
    i: int,
    j: int,
)
    requires
        program_table_wf(program, table),
        0 <= i < program.statements@.len(),
        stmt_at(program, i) is Invocation,
        0 <= j < stmt_branches(stmt_at(program, i)).len(),
        forall|k: int|
            0 <= k < stmt_deps(program, table, i).len() ==> {
                let d = (#[trigger] stmt_deps(program, table, i)[k]).0 as int;
                w1.dom().contains(d) == w2.dom().contains(d) && wmap_at(w1, d) == wmap_at(w2, d)
            },
    ensures
        ctx.spec_branch_requirement(w1, program, table, i, j) == ctx.spec_branch_requirement(
            w2,
            program,
            table,
            i,
            j,
        ),
        ctx.branch_req_ok(w1, program, table, i, j) == ctx.branch_req_ok(w2, program, table, i, j),
{
    let nb = stmt_branches(stmt_at(program, i)).len() as int;
    let tgt = branch_dep_targets(
        i,
        branch_info_at(program, i, j),
        branch_cost_at(program, table, i, j),
    );
    lemma_branch_targets_in_deps(program, table, i, j, nb);
    assert forall|k: int| 0 <= k < tgt.len() implies {
        let d = (#[trigger] tgt[k]).0 as int;
        w1.dom().contains(d) == w2.dom().contains(d) && wmap_at(w1, d) == wmap_at(w2, d)
    } by {
        assert(target_in_upto(program, table, i, j, nb, k));
        let kd = choose|kd: int|
            0 <= kd < stmt_deps_upto(program, table, i, nb).len() && stmt_deps_upto(
                program,
                table,
                i,
                nb,
            )[kd] == branch_dep_targets(
                i,
                branch_info_at(program, i, j),
                branch_cost_at(program, table, i, j),
            )[k];
        assert(stmt_deps(program, table, i)[kd] == tgt[k]);
    }
    ctx.lemma_branch_requirement_frame(w1, w2, program, table, i, j);
}

/// Computes the statements whose wallet value is needed by the branch
/// requirements of `idx`.
fn get_branch_requirements_dependencies(
    program: &Program,
    table: &CostTable,
    idx: &StatementIdx,
    invocation: &Invocation,
    libfunc_cost: &Vec<BranchCost>,
) -> (res: Vec<StatementIdx>)
    requires
        program_table_wf(program, table),
        idx.0 < program.statements@.len(),
        stmt_at(program, idx.0 as int) == Statement::Invocation(*invocation),
        libfunc_cost@ == table.0@[invocation.libfunc_id as int]@,
    ensures
        res@ == stmt_deps(program, table, idx.0 as int),
{
    let ghost i = idx.0 as int;
    let nb = invocation.branches.len();
    proof {
        assert(stmt_costs_match(stmt_at(program, i), table));
    }
    let mut res: Vec<StatementIdx> = Vec::new();
    let mut j: usize = 0;
    while j < nb
        invariant
            nb == invocation.branches@.len(),
            0 <= j <= nb,
            program_table_wf(program, table),
            idx.0 < program.statements@.len(),
            stmt_at(program, i) == Statement::Invocation(*invocation),
            libfunc_cost@ == table.0@[invocation.libfunc_id as int]@,
            i == idx.0 as int,
            res@ == stmt_deps_upto(program, table, i, j as int),
        decreases nb - j,
    {
        let branch_info = &invocation.branches[j];
        let branch_cost = &libfunc_cost[j];
        let ghost res0 = res@;
        proof {
            assert(branch_info_at(program, i, j as int) == *branch_info);
            assert(branch_cost_at(program, table, i, j as int) == *branch_cost);
            assert(stmt_targets_in(stmt_at(program, i), i, program.statements@.len() as int));
            assert(0 <= spec_next(
                i,
                (#[trigger] stmt_branches(stmt_at(program, i))[j as int]).target,
            ) < program.statements@.len());
        }
        match branch_cost {
            BranchCost::FunctionCall { const_cost: _, function } => {
                res.push(function.entry_point);
                res.push(idx.next(&branch_info.target));
            },
            BranchCost::WithdrawGas { const_cost: _, success, with_builtin_costs: _ } => {
                // A successful withdrawal contributes no dependency: the
                // wallet after it is set by the withdrawal itself.
                if !*success {
                    res.push(idx.next(&branch_info.target));
                }
            },
            _ => {
                res.push(idx.next(&branch_info.target));
            },
        }
        proof {
            assert(res@ =~= res0 + branch_dep_targets(
                i,
                branch_info_at(program, i, j as int),
                branch_cost_at(program, table, i, j as int),
            ));
        }
        j = j + 1;
    }
    res
}

/// Computes the required wallet value for each branch of `idx`.
fn get_branch_requirements<C: CostTypeTrait, S: SpecificCostContextTrait<C>>(
    specific_context: &S,
    costs: &Vec<Option<WalletInfo<C>>>,
    program: &Program,
    table: &CostTable,
    idx: &StatementIdx,
    invocation: &Invocation,
) -> (res: Vec<WalletInfo<C>>)
    requires
        program_table_wf(program, table),
        specific_context.wf(program, table),
        analysis_in_bounds::<C, S>(specific_context, program, table),
        costs@.len() == program.statements@.len(),
        cache_inv(costs@),
        partial_wallet_fixpoint::<C, S>(specific_context, cache_model(costs@), program, table),
        idx.0 < program.statements@.len(),
        stmt_at(program, idx.0 as int) == Statement::Invocation(*invocation),
        stmt_deps_in(program, table, idx.0 as int, cache_model(costs@)),
    ensures
        res@.len() == invocation.branches@.len(),
        forall|j: int|
            0 <= j < res@.len() ==> (#[trigger] res@[j]).value.inv() && res@[j].value.model()
                == specific_context.spec_branch_requirement(
                cache_model(costs@),
                program,
                table,
                idx.0 as int,
                j,
            ),
{
    let ghost i = idx.0 as int;
    let ghost w = cache_model(costs@);
    let nb = invocation.branches.len();
    proof {
        assert(stmt_costs_match(stmt_at(program, i), table));
    }
    let libfunc_cost: &Vec<BranchCost> = &table.0[invocation.libfunc_id];
    let mut res: Vec<WalletInfo<C>> = Vec::new();
    let mut j: usize = 0;
    while j < nb
        invariant
            nb == invocation.branches@.len(),
            0 <= j <= nb,
            program_table_wf(program, table),
            specific_context.wf(program, table),
            analysis_in_bounds::<C, S>(specific_context, program, table),
            costs@.len() == program.statements@.len(),
            cache_inv(costs@),
            partial_wallet_fixpoint::<C, S>(specific_context, w, program, table),
            w == cache_model(costs@),
            idx.0 < program.statements@.len(),
            i == idx.0 as int,
            stmt_at(program, i) == Statement::Invocation(*invocation),
            stmt_deps_in(program, table, i, w),
            libfunc_cost@ == table.0@[invocation.libfunc_id as int]@,
            res@.len() == j,
            forall|jj: int|
                0 <= jj < j ==> (#[trigger] res@[jj]).value.inv() && res@[jj].value.model()
                    == specific_context.spec_branch_requirement(w, program, table, i, jj),
        decreases nb - j,
    {
        let branch_info = &invocation.branches[j];
        let branch_cost = &libfunc_cost[j];
        proof {
            assert(branch_info_at(program, i, j as int) == *branch_info);
            assert(branch_cost_at(program, table, i, j as int) == *branch_cost);
            lemma_branch_targets_in_deps(
                program,
                table,
                i,
                j as int,
                invocation.branches@.len() as int,
            );
            let ghost nb2 = invocation.branches@.len() as int;
            assert forall|k: int|
                0 <= k < branch_dep_targets(i, *branch_info, *branch_cost).len()
                implies cache_model(costs@).dom().contains(
                (#[trigger] branch_dep_targets(i, *branch_info, *branch_cost)[k]).0 as int,
            ) by {
                assert(target_in_upto(program, table, i, j as int, nb2, k));
                let kd = choose|kd: int|
                    0 <= kd < stmt_deps_upto(program, table, i, nb2).len() && stmt_deps_upto(
                        program,
                        table,
                        i,
                        nb2,
                    )[kd] == branch_dep_targets(
                        i,
                        branch_info_at(program, i, j as int),
                        branch_cost_at(program, table, i, j as int),
                    )[k];
                assert(stmt_deps(program, table, i)[kd] == branch_dep_targets(
                    i,
                    *branch_info,
                    *branch_cost,
                )[k]);
                assert(w.dom().contains((stmt_deps(program, table, i)[kd]).0 as int));
            }
            assert(branch_deps_in(program, table, i, j as int, w));
            assert(specific_context.branch_req_ok(w, program, table, i, j as int));
        }
        let req = specific_context.get_branch_requirement(
            costs,
            program,
            table,
            idx,
            j,
            branch_info,
            branch_cost,
        );
        res.push(req);
        j = j + 1;
    }
    res
}

/// Helper struct for computing the wallet value at each statement.
pub struct CostContext<'a, CostType: CostTypeTrait> {
    /// The analysed program.
    pub program: &'a Program,
    /// The libfunc cost oracle, tabulated.
    pub table: &'a CostTable,
    /// The wallet value before each statement, once computed.
    pub costs: Vec<Option<WalletInfo<CostType>>>,
}

impl<'a, CostType: CostTypeTrait> CostContext<'a, CostType> {
    /// The cache holds one slot per statement and every cached value is
    /// well formed.
    pub open spec fn inv(&self) -> bool {
        &&& self.costs@.len() == self.program.statements@.len()
        &&& cache_inv(self.costs@)
    }

    /// The wallet models solved so far.
    pub open spec fn wallets(&self) -> Map<int, Map<CostTokenType, int>> {
        cache_model(self.costs@)
    }

    /// The cost of a libfunc for every output branch.
    pub fn get_cost(&self, libfunc_id: usize) -> (r: &Vec<BranchCost>)
        requires
            libfunc_id < self.table.0@.len(),
        ensures
            r@ == self.table.0@[libfunc_id as int]@,
    {
        &self.table.0[libfunc_id]
    }

    /// The required value in the wallet before executing statement `idx`.
    /// [`Self::prepare_wallet`] must have solved the statement already.
    pub fn wallet_at(&self, idx: &StatementIdx) -> (r: WalletInfo<CostType>)
        requires
            self.inv(),
            idx.0 < self.program.statements@.len(),
            self.wallets().dom().contains(idx.0 as int),
        ensures
            r.value.inv(),
            r.value.model() == self.wallets()[idx.0 as int],
            self.costs@[idx.0 as int] matches Some(wi) ==> CostType::same_repr(
                &r.value,
                &wi.value,
            ),
    {
        cache_wallet_at(&self.costs, idx.0)
    }

    /// Computes the wallet value of `idx` from its already solved
    /// dependencies.
    fn no_cache_compute_wallet_at<S: SpecificCostContextTrait<CostType>>(
        &self,
        idx: &StatementIdx,
        specific_cost_context: &S,
    ) -> (res: WalletInfo<CostType>)
        requires
            self.inv(),
            program_table_wf(self.program, self.table),
            specific_cost_context.wf(self.program, self.table),
            analysis_in_bounds::<CostType, S>(specific_cost_context, self.program, self.table),
            partial_wallet_fixpoint::<CostType, S>(
                specific_cost_context,
                self.wallets(),
                self.program,
                self.table,
            ),
            idx.0 < self.program.statements@.len(),
            stmt_deps_in(self.program, self.table, idx.0 as int, self.wallets()),
        ensures
            res.value.inv(),
            res.value.model() == stmt_wallet_model::<CostType, S>(
                specific_cost_context,
                self.wallets(),
                self.program,
                self.table,
                idx.0 as int,
            ),
    {
        let ghost i = idx.0 as int;
        match self.program.get_statement(idx) {
            Statement::Return => WalletInfo { value: CostType::default_val() },
            Statement::Invocation(invocation) => {
                let branch_requirements = get_branch_requirements(
                    specific_cost_context,
                    &self.costs,
                    self.program,
                    self.table,
                    idx,
                    invocation,
                );
                let r = WalletInfo::merge(branch_requirements);
                proof {
                    assert(branch_requirements@.map_values(
                        |wi: WalletInfo<CostType>| wi.value.model(),
                    ) =~= Seq::new(
                        invocation.branches@.len(),
                        |j: int|
                            specific_cost_context.spec_branch_requirement(
                                self.wallets(),
                                self.program,
                                self.table,
                                i,
                                j,
                            ),
                    ));
                }
                r
            },
        }
    }

    /// Solves the wallet equation of every statement, filling the cache in
    /// reverse topological order of the wallet dependency graph.  Fails if
    /// and only if that graph has a cycle.
    pub fn prepare_wallet<S: SpecificCostContextTrait<CostType>>(
        &mut self,
        specific_cost_context: &S,
    ) -> (r: Result<(), CostError>)
        requires
            old(self).inv(),
            forall|i: int| 0 <= i < old(self).costs@.len() ==> old(self).costs@[i] is None,
            program_table_wf(old(self).program, old(self).table),
            specific_cost_context.wf(old(self).program, old(self).table),
            analysis_in_bounds::<CostType, S>(
                specific_cost_context,
                old(self).program,
                old(self).table,
            ),
        ensures
            final(self).program == old(self).program,
            final(self).table == old(self).table,
            final(self).inv(),
            match r {
                Ok(_) => wallet_fixpoint::<CostType, S>(
                    specific_cost_context,
                    final(self).wallets(),
                    final(self).program,
                    final(self).table,
                ) && exists|o: Seq<StatementIdx>|
                    crate::topological::valid_order(
                        wallet_dep_graph(final(self).program, final(self).table),
                        final(self).program.statements@.len() as int,
                        o,
                    ),
                Err(e) => e == CostError::CycleDetected && final(self).costs@ == old(
                    self,
                ).costs@ && exists|c: Seq<StatementIdx>|
                    crate::topological::is_cycle(
                        wallet_dep_graph(final(self).program, final(self).table),
                        final(self).program.statements@.len() as int,
                        c,
                    ),
            },
    {
        let n = self.program.statements.len();
        let ghost g = wallet_dep_graph(self.program, self.table);
        let mut deps: Vec<Vec<StatementIdx>> = Vec::new();
        let mut i: usize = 0;
        while i < n
            invariant
                0 <= i <= n,
                n == self.program.statements@.len(),
                self.inv(),
                self.program == old(self).program,
                self.table == old(self).table,
                self.costs@ == old(self).costs@,
                program_table_wf(self.program, self.table),
                deps@.len() == i,
                forall|k: int|
                    0 <= k < i ==> (#[trigger] deps@[k])@ == stmt_deps(self.program, self.table, k),
            decreases n - i,
        {
            let idx = StatementIdx(i);
            let d: Vec<StatementIdx> = match self.program.get_statement(&idx) {
                Statement::Return => {
                    // A return needs no wallet from anywhere else.
                    Vec::new()
                },
                Statement::Invocation(invocation) => {
                    let libfunc_cost = self.get_cost(invocation.libfunc_id);
                    get_branch_requirements_dependencies(
                        self.program,
                        self.table,
                        &idx,
                        invocation,
                        libfunc_cost,
                    )
                },
            };
            deps.push(d);
            i = i + 1;
        }
        proof {
            assert(crate::topological::graph_view(deps@) =~= g) by {
                assert forall|k: int| 0 <= k < n implies crate::topological::graph_view(deps@)[k]
                    == g[k] by {
                    assert(crate::topological::graph_view(deps@)[k] == deps@[k]@);
                }
            }
            lemma_wallet_graph_wf(self.program, self.table);
        }
        let order = match crate::topological::compute_topological_order(n, &deps) {
            Ok(o) => o,
            Err(e) => {
                return Err(e);
            },
        };
        let m = order.len();
        let mut k: usize = 0;
        while k < m
            invariant
                0 <= k <= m,
                m == order@.len(),
                n == self.program.statements@.len(),
                self.program == old(self).program,
                self.table == old(self).table,
                self.inv(),
                program_table_wf(self.program, self.table),
                specific_cost_context.wf(self.program, self.table),
                analysis_in_bounds::<CostType, S>(
                    specific_cost_context,
                    self.program,
                    self.table,
                ),
                g == wallet_dep_graph(self.program, self.table),
                crate::topological::valid_order(g, n as int, order@),
                partial_wallet_fixpoint::<CostType, S>(
                    specific_cost_context,
                    self.wallets(),
                    self.program,
                    self.table,
                ),
                forall|mm: int|
                    0 <= mm < k ==> self.wallets().dom().contains(
                        (#[trigger] order@[mm]).0 as int,
                    ),
                forall|i2: int|
                    #[trigger] self.wallets().dom().contains(i2) ==> exists|mm: int|
                        0 <= mm < k && order@[mm].0 as int == i2,
            decreases m - k,
        {
            let current_idx = order[k];
            let ghost i2 = current_idx.0 as int;
            let ghost w0 = self.wallets();
            proof {
                // The dependencies of the current statement were placed
                // earlier in the order, so they are already solved.
                assert(crate::topological::deps_before(g, order@, k as int));
                assert(g[i2] == stmt_deps(self.program, self.table, i2));
                assert forall|kk: int|
                    0 <= kk < stmt_deps(self.program, self.table, i2).len()
                    implies w0.dom().contains(
                    (#[trigger] stmt_deps(self.program, self.table, i2)[kk]).0 as int,
                ) by {
                    assert(crate::topological::placed_before(order@, k as int, g[i2][kk]));
                    let mm = choose|mm: int| 0 <= mm < k && order@[mm] == g[i2][kk];
                    assert(w0.dom().contains((order@[mm]).0 as int));
                }
                // The current statement is not yet solved.
                if w0.dom().contains(i2) {
                    let mm = choose|mm: int| 0 <= mm < k && order@[mm].0 as int == i2;
                    assert(order@[mm] == order@[k as int]);
                    assert(false);
                }
            }
            let ghost costs0 = self.costs@;
            let res = self.no_cache_compute_wallet_at(&current_idx, specific_cost_context);
            self.costs.set(current_idx.0, Some(res));
            proof {
                let w1 = self.wallets();
                assert(self.costs@ == costs0.update(i2, Some(res)));
                assert forall|x: int| #[trigger] w1.dom().contains(x) implies w0.insert(
                    i2,
                    res.value.model(),
                ).dom().contains(x) && w1[x] == w0.insert(i2, res.value.model())[x] by {
                    if x != i2 {
                        assert(self.costs@[x] == costs0[x]);
                    }
                }
                assert forall|x: int| #[trigger] w0.insert(i2, res.value.model()).dom().contains(
                    x,
                ) implies w1.dom().contains(x) by {
                    if x != i2 {
                        assert(self.costs@[x] == costs0[x]);
                    }
                }
                assert(w1 =~= w0.insert(i2, res.value.model()));
                // Old equations persist: the new entry is not among any
                // solved statement's dependencies' values read so far.
                assert forall|i3: int| #[trigger] w1.dom().contains(i3) implies 0 <= i3 < n
                    && stmt_deps_in(self.program, self.table, i3, w1) && w1[i3]
                    == stmt_wallet_model::<CostType, S>(
                    specific_cost_context,
                    w1,
                    self.program,
                    self.table,
                    i3,
                ) by {
                    if i3 == i2 {
                        assert(stmt_deps_in(self.program, self.table, i2, w1));
                        lemma_stmt_wallet_frame::<CostType, S>(
                            specific_cost_context,
                            w0,
                            w1,
                            self.program,
                            self.table,
                            i2,
                        );
                    } else {
                        assert(w0.dom().contains(i3));
                        assert(stmt_deps_in(self.program, self.table, i3, w0));
                        lemma_stmt_wallet_frame::<CostType, S>(
                            specific_cost_context,
                            w0,
                            w1,
                            self.program,
                            self.table,
                            i3,
                        );
                    }
                }
                assert forall|mm: int| 0 <= mm < k + 1 implies self.wallets().dom().contains(
                    (#[trigger] order@[mm]).0 as int,
                ) by {}
                assert forall|i3: int| #[trigger] self.wallets().dom().contains(i3)
                    implies exists|mm: int| 0 <= mm < k + 1 && order@[mm].0 as int == i3 by {
                    if i3 == i2 {
                        assert(order@[k as int].0 as int == i3);
                    } else {
                        let mm = choose|mm: int| 0 <= mm < k && order@[mm].0 as int == i3;
                        assert(order@[mm].0 as int == i3);
                    }
                }
            }
            k = k + 1;
        }
        proof {
            assert forall|i3: int| 0 <= i3 < n implies #[trigger] self.wallets().dom().contains(
                i3,
            ) by {
                assert(order@.contains(StatementIdx(i3 as usize)));
                let mm = choose|mm: int| 0 <= mm < order@.len() && order@[mm] == StatementIdx(
                    i3 as usize,
                );
                assert(self.wallets().dom().contains((order@[mm]).0 as int));
            }
        }
        Ok(())
    }
}

/// The positive part of an amount.
pub open spec fn wd_clamp(x: int) -> int {
    if x >= 0 {
        x
    } else {
        0
    }
}

/// Whether a branch cost is the success edge of a gas withdrawal.
pub open spec fn is_wd_success(bc: BranchCost) -> bool {
    match bc {
        BranchCost::WithdrawGas { const_cost, success, with_builtin_costs } => success,
        _ => false,
    }
}

/// The variables a successful withdrawal emits: per token, in order, the
/// positive part of the withdrawal at the withdrawing statement and the
/// positive part of its negation at the branch target.
pub open spec fn wd_entry_pairs(
    tokens: Seq<CostTokenType>,
    i: int,
    tgt: int,
    wd: Map<CostTokenType, int>,
) -> Seq<((int, CostTokenType), int)> {
    Seq::new(
        2 * tokens.len(),
        |k: int|
            if k % 2 == 0 {
                ((i, tokens[k / 2]), wd_clamp(tok_val(wd, tokens[k / 2])))
            } else {
                ((tgt, tokens[k / 2]), wd_clamp(-tok_val(wd, tokens[k / 2])))
            },
    )
}

/// The variables branch `j` of statement `i` emits: the withdrawal split
/// for a successful withdrawal, the branch-align deduction
/// `wallet - requirement` at the target of every branch of a multi-branch
/// invocation, nothing otherwise.
pub open spec fn branch_var_entries<C: CostTypeTrait, S: SpecificCostContextTrait<C>>(
    ctx: &S,
    w: Map<int, Map<CostTokenType, int>>,
    program: &Program,
    table: &CostTable,
    i: int,
    j: int,
) -> Seq<((int, CostTokenType), int)> {
    let bc = branch_cost_at(program, table, i, j);
    let tgt = branch_target_at(program, i, j);
    if is_wd_success(bc) {
        wd_entry_pairs(
            S::full_tokens(),
            i,
            tgt,
            ctx.spec_withdrawal(i, bc, wmap_at(w, i), wmap_at(w, tgt)),
        )
    } else if stmt_branches(stmt_at(program, i)).len() > 1 {
        let diff = cost_sub(wmap_at(w, i), ctx.spec_branch_requirement(w, program, table, i, j));
        Seq::new(
            S::full_tokens().len(),
            |k: int| ((tgt, S::full_tokens()[k]), tok_val(diff, S::full_tokens()[k])),
        )
    } else {
        Seq::empty()
    }
}

/// The variables emitted by the first `j` branches of statement `i`.
pub open spec fn stmt_var_upto<C: CostTypeTrait, S: SpecificCostContextTrait<C>>(
    ctx: &S,
    w: Map<int, Map<CostTokenType, int>>,
    program: &Program,
    table: &CostTable,
    i: int,
    j: int,
) -> Seq<((int, CostTokenType), int)>
    decreases j,
{
    if j <= 0 {
        Seq::empty()
    } else {
        stmt_var_upto::<C, S>(ctx, w, program, table, i, j - 1) + branch_var_entries::<C, S>(
            ctx,
            w,
            program,
            table,
            i,
            j - 1,
        )
    }
}

/// The variables statement `i` emits.
pub open spec fn stmt_var_entries<C: CostTypeTrait, S: SpecificCostContextTrait<C>>(
    ctx: &S,
    w: Map<int, Map<CostTokenType, int>>,
    program: &Program,
    table: &CostTable,
    i: int,
) -> Seq<((int, CostTokenType), int)> {
    match stmt_at(program, i) {
        Statement::Return => Seq::empty(),
        Statement::Invocation(inv) => stmt_var_upto::<C, S>(
            ctx,
            w,
            program,
            table,
            i,
            inv.branches@.len() as int,
        ),
    }
}

/// The variables emitted by the first `i` statements.
pub open spec fn var_entries_upto<C: CostTypeTrait, S: SpecificCostContextTrait<C>>(
    ctx: &S,
    w: Map<int, Map<CostTokenType, int>>,
    program: &Program,
    table: &CostTable,
    i: int,
) -> Seq<((int, CostTokenType), int)>
    decreases i,
{
    if i <= 0 {
        Seq::empty()
    } else {
        var_entries_upto::<C, S>(ctx, w, program, table, i - 1) + stmt_var_entries::<C, S>(
            ctx,
            w,
            program,
            table,
            i - 1,
        )
    }
}

/// The spec-level reading of a stored variable list.
pub open spec fn var_view(s: Seq<((StatementIdx, CostTokenType), i64)>) -> Seq<
    ((int, CostTokenType), int),
> {
    s.map_values(
        |p: ((StatementIdx, CostTokenType), i64)| ((p.0.0.0 as int, p.0.1), p.1 as int),
    )
}

/// The keys of a spec-level variable list.
pub open spec fn var_entry_keys(s: Seq<((int, CostTokenType), int)>) -> Seq<(int, CostTokenType)> {
    s.map_values(|p: ((int, CostTokenType), int)| p.0)
}

/// The arithmetic of the variables branch `j` of statement `i` emits stays
/// in range.
pub open spec fn branch_analyze_ok<C: CostTypeTrait, S: SpecificCostContextTrait<C>>(
    ctx: &S,
    w: Map<int, Map<CostTokenType, int>>,
    program: &Program,
    table: &CostTable,
    i: int,
    j: int,
) -> bool {
    let bc = branch_cost_at(program, table, i, j);
    let tgt = branch_target_at(program, i, j);
    if is_wd_success(bc) {
        ctx.withdrawal_ok(i, bc, wmap_at(w, i), wmap_at(w, tgt))
    } else if stmt_branches(stmt_at(program, i)).len() > 1 {
        cost_in_i32(cost_sub(wmap_at(w, i), ctx.spec_branch_requirement(w, program, table, i, j)))
    } else {
        true
    }
}

/// The arithmetic of all variables statement `i` emits stays in range.
pub open spec fn stmt_analyze_ok<C: CostTypeTrait, S: SpecificCostContextTrait<C>>(
    ctx: &S,
    w: Map<int, Map<CostTokenType, int>>,
    program: &Program,
    table: &CostTable,
    i: int,
) -> bool {
    forall|j: int|
        0 <= j < stmt_branches(stmt_at(program, i)).len() ==> #[trigger] branch_analyze_ok::<C, S>(
            ctx,
            w,
            program,
            table,
            i,
            j,
        )
}

/// The emitted variables are well defined for wallet solution `w`: no
/// (statement, token) pair is written twice, and all amounts stay in
/// range.
pub open spec fn vars_ok<C: CostTypeTrait, S: SpecificCostContextTrait<C>>(
    ctx: &S,
    w: Map<int, Map<CostTokenType, int>>,
    program: &Program,
    table: &CostTable,
) -> bool {
    &&& var_entry_keys(
        var_entries_upto::<C, S>(ctx, w, program, table, program.statements@.len() as int),
    ).no_duplicates()
    &&& forall|i: int|
        0 <= i < program.statements@.len() ==> #[trigger] stmt_analyze_ok::<C, S>(
            ctx,
            w,
            program,
            table,
            i,
        )
}

/// Whatever wallet solution the preparation pass finds, the emitted
/// variables are well defined.
pub open spec fn variables_feasible<C: CostTypeTrait, S: SpecificCostContextTrait<C>>(
    ctx: &S,
    program: &Program,
    table: &CostTable,
) -> bool {
    forall|w: Map<int, Map<CostTokenType, int>>|
        wallet_fixpoint::<C, S>(ctx, w, program, table) ==> #[trigger] vars_ok::<C, S>(
            ctx,
            w,
            program,
            table,
        )
}

/// Earlier statement-variable prefixes embed into later ones.
proof fn lemma_stmt_var_prefix<C: CostTypeTrait, S: SpecificCostContextTrait<C>>(
    ctx: &S,
    w: Map<int, Map<CostTokenType, int>>,
    program: &Program,
    table: &CostTable,
    i: int,
    j1: int,
    j2: int,
)
    requires
        0 <= j1 <= j2,
    ensures
        stmt_var_upto::<C, S>(ctx, w, program, table, i, j1).len() <= stmt_var_upto::<C, S>(
            ctx,
            w,
            program,
            table,
            i,
            j2,
        ).len(),
        forall|m: int|
            0 <= m < stmt_var_upto::<C, S>(ctx, w, program, table, i, j1).len()
                ==> #[trigger] stmt_var_upto::<C, S>(ctx, w, program, table, i, j2)[m]
                == stmt_var_upto::<C, S>(ctx, w, program, table, i, j1)[m],
    decreases j2,
{
    if j1 < j2 {
        lemma_stmt_var_prefix::<C, S>(ctx, w, program, table, i, j1, j2 - 1);
    }
}

/// Earlier program-variable prefixes embed into later ones.
proof fn lemma_var_upto_prefix<C: CostTypeTrait, S: SpecificCostContextTrait<C>>(
    ctx: &S,
    w: Map<int, Map<CostTokenType, int>>,
    program: &Program,
    table: &CostTable,
    i1: int,
    i2: int,
)
    requires
        0 <= i1 <= i2,
    ensures
        var_entries_upto::<C, S>(ctx, w, program, table, i1).len() <= var_entries_upto::<C, S>(
            ctx,
            w,
            program,
            table,
            i2,
        ).len(),
        forall|m: int|
            0 <= m < var_entries_upto::<C, S>(ctx, w, program, table, i1).len()
                ==> #[trigger] var_entries_upto::<C, S>(ctx, w, program, table, i2)[m]
                == var_entries_upto::<C, S>(ctx, w, program, table, i1)[m],
    decreases i2,
{
    if i1 < i2 {
        lemma_var_upto_prefix::<C, S>(ctx, w, program, table, i1, i2 - 1);
    }
}

/// A key about to be recorded is fresh: it is not among the old entries
/// and not among the already recorded entries of this statement.
proof fn lemma_key_fresh(
    cur: Seq<((StatementIdx, CostTokenType), i64)>,
    old_v: Seq<((int, CostTokenType), int)>,
    stmt_e: Seq<((int, CostTokenType), int)>,
    p: int,
    pos: int,
)
    requires
        var_view(cur) == old_v + stmt_e.subrange(0, p),
        forall|i1: int, i2: int|
            0 <= i1 < i2 < cur.len() ==> crate::gas_info::entry_key(#[trigger] cur[i1])
                != crate::gas_info::entry_key(#[trigger] cur[i2]),
        0 <= p <= pos < stmt_e.len(),
        forall|a: int, b: int|
            0 <= a < b < stmt_e.len() ==> (#[trigger] stmt_e[a]).0 != (#[trigger] stmt_e[b]).0,
        forall|a: int| 0 <= a < old_v.len() ==> (#[trigger] old_v[a]).0 != stmt_e[pos].0,
    ensures
        !crate::gas_info::var_values_model(cur).dom().contains(stmt_e[pos].0),
{
    lemma_var_values_model(cur);
    if crate::gas_info::var_values_model(cur).dom().contains(stmt_e[pos].0) {
        let m = choose|m: int|
            0 <= m < cur.len() && crate::gas_info::entry_key(#[trigger] cur[m]) == stmt_e[pos].0;
        assert(var_view(cur)[m].0 == crate::gas_info::entry_key(cur[m]));
        if m < old_v.len() {
            assert(old_v[m].0 == stmt_e[pos].0);
            assert(false);
        } else {
            assert(var_view(cur).len() == old_v.len() + p);
            assert(var_view(cur)[m] == (old_v + stmt_e.subrange(0, p))[m]);
            assert((old_v + stmt_e.subrange(0, p))[m] == stmt_e.subrange(0, p)[m - old_v.len()]);
            assert(stmt_e.subrange(0, p)[m - old_v.len()] == stmt_e[m - old_v.len()]);
            assert((stmt_e[m - old_v.len()]).0 == stmt_e[pos].0);
            assert(false);
        }
    }
}

/// For every `branch_align` and `withdraw_gas` statement, computes the
/// required cost variables.
///
/// * For `branch_align` this is the amount of cost reduced from the
///   wallet.
/// * For `withdraw_gas` this is the amount that should be withdrawn and
///   added to the wallet.
pub fn analyze_gas_statements<'c, C: CostTypeTrait, S: SpecificCostContextTrait<C>>(
    context: &CostContext<'c, C>,
    specific_context: &S,
    idx: &StatementIdx,
    variable_values: &mut VariableValues,
)
    requires
        context.inv(),
        program_table_wf(context.program, context.table),
        specific_context.wf(context.program, context.table),
        analysis_in_bounds::<C, S>(specific_context, context.program, context.table),
        wallet_fixpoint::<C, S>(
            specific_context,
            context.wallets(),
            context.program,
            context.table,
        ),
        idx.0 < context.program.statements@.len(),
        old(variable_values).wf(),
        stmt_analyze_ok::<C, S>(
            specific_context,
            context.wallets(),
            context.program,
            context.table,
            idx.0 as int,
        ),
        forall|a: int, b: int|
            0 <= a < b < stmt_var_entries::<C, S>(
                specific_context,
                context.wallets(),
                context.program,
                context.table,
                idx.0 as int,
            ).len() ==> (#[trigger] stmt_var_entries::<C, S>(
                specific_context,
                context.wallets(),
                context.program,
                context.table,
                idx.0 as int,
            )[a]).0 != (#[trigger] stmt_var_entries::<C, S>(
                specific_context,
                context.wallets(),
                context.program,
                context.table,
                idx.0 as int,
            )[b]).0,
        forall|a: int|
            0 <= a < stmt_var_entries::<C, S>(
                specific_context,
                context.wallets(),
                context.program,
                context.table,
                idx.0 as int,
            ).len() ==> !old(variable_values).model().dom().contains(
                (#[trigger] stmt_var_entries::<C, S>(
                    specific_context,
                    context.wallets(),
                    context.program,
                    context.table,
                    idx.0 as int,
                )[a]).0,
            ),
    ensures
        final(variable_values).wf(),
        var_view(final(variable_values).0@) == var_view(old(variable_values).0@)
            + stmt_var_entries::<C, S>(
            specific_context,
            context.wallets(),
            context.program,
            context.table,
            idx.0 as int,
        ),
{
    let ghost w = context.wallets();
    let ghost i = idx.0 as int;
    let ghost n = context.program.statements@.len() as int;
    let ghost stmt_e = stmt_var_entries::<C, S>(
        specific_context,
        w,
        context.program,
        context.table,
        i,
    );
    let ghost old_v = var_view(old(variable_values).0@);
    proof {
        lemma_var_values_model(variable_values.0@);
        assert forall|a: int, p: int|
            0 <= a < old_v.len() && 0 <= p < stmt_e.len() implies (#[trigger] old_v[a]).0 != (
        #[trigger] stmt_e[p]).0 by {
            assert(crate::gas_info::entry_key(variable_values.0@[a]) == old_v[a].0);
            assert(variable_values.model().dom().contains(
                crate::gas_info::entry_key(variable_values.0@[a]),
            ));
        }
    }
    let invocation = match context.program.get_statement(idx) {
        Statement::Invocation(invocation) => invocation,
        Statement::Return => {
            proof {
                assert(var_view(variable_values.0@) =~= old_v + stmt_e);
            }
            return ;
        },
    };
    proof {
        assert(stmt_costs_match(stmt_at(context.program, i), context.table));
        lemma_wallet_graph_wf(context.program, context.table);
        assert forall|k: int|
            0 <= k < stmt_deps(context.program, context.table, i).len() implies w.dom().contains(
            (#[trigger] stmt_deps(context.program, context.table, i)[k]).0 as int,
        ) by {
            assert(wallet_dep_graph(context.program, context.table)[i] == stmt_deps(
                context.program,
                context.table,
                i,
            ));
            assert((stmt_deps(context.program, context.table, i)[k]).0 < n);
        }
    }
    let libfunc_cost = context.get_cost(invocation.libfunc_id);
    let branch_requirements = get_branch_requirements(
        specific_context,
        &context.costs,
        context.program,
        context.table,
        idx,
        invocation,
    );
    let wallet_info = context.wallet_at(idx);
    let nb = invocation.branches.len();
    let mut j: usize = 0;
    while j < nb
        invariant
            nb == invocation.branches@.len(),
            0 <= j <= nb,
            context.inv(),
            program_table_wf(context.program, context.table),
            specific_context.wf(context.program, context.table),
            analysis_in_bounds::<C, S>(specific_context, context.program, context.table),
            wallet_fixpoint::<C, S>(specific_context, w, context.program, context.table),
            w == context.wallets(),
            i == idx.0 as int,
            n == context.program.statements@.len() as int,
            idx.0 < context.program.statements@.len(),
            stmt_at(context.program, i) == Statement::Invocation(*invocation),
            libfunc_cost@ == context.table.0@[invocation.libfunc_id as int]@,
            stmt_e == stmt_var_entries::<C, S>(
                specific_context,
                w,
                context.program,
                context.table,
                i,
            ),
            stmt_analyze_ok::<C, S>(specific_context, w, context.program, context.table, i),
            forall|a: int, b: int|
                0 <= a < b < stmt_e.len() ==> (#[trigger] stmt_e[a]).0 != (#[trigger] stmt_e[b]).0,
            forall|a: int, p: int|
                0 <= a < old_v.len() && 0 <= p < stmt_e.len() ==> (#[trigger] old_v[a]).0 != (
                #[trigger] stmt_e[p]).0,
            wallet_info.value.inv(),
            wallet_info.value.model() == wmap_at(w, i),
            branch_requirements@.len() == nb,
            forall|jj: int|
                0 <= jj < nb ==> (#[trigger] branch_requirements@[jj]).value.inv()
                    && branch_requirements@[jj].value.model()
                    == specific_context.spec_branch_requirement(
                    w,
                    context.program,
                    context.table,
                    i,
                    jj,
                ),
            variable_values.wf(),
            var_view(variable_values.0@) == old_v + stmt_e.subrange(
                0,
                stmt_var_upto::<C, S>(
                    specific_context,
                    w,
                    context.program,
                    context.table,
                    i,
                    j as int,
                ).len() as int,
            ),
            stmt_var_upto::<C, S>(
                specific_context,
                w,
                context.program,
                context.table,
                i,
                j as int,
            ).len() <= stmt_e.len(),
        decreases nb - j,
    {
        let ghost lj = stmt_var_upto::<C, S>(
            specific_context,
            w,
            context.program,
            context.table,
            i,
            j as int,
        ).len() as int;
        let ghost be = branch_var_entries::<C, S>(
            specific_context,
            w,
            context.program,
            context.table,
            i,
            j as int,
        );
        let branch_info = &invocation.branches[j];
        let branch_cost = &libfunc_cost[j];
        proof {
            assert(branch_info_at(context.program, i, j as int) == *branch_info);
            assert(branch_cost_at(context.program, context.table, i, j as int) == *branch_cost);
            assert(branch_analyze_ok::<C, S>(
                specific_context,
                w,
                context.program,
                context.table,
                i,
                j as int,
            ));
            assert(stmt_targets_in(stmt_at(context.program, i), i, n));
            assert(0 <= spec_next(
                i,
                (#[trigger] stmt_branches(stmt_at(context.program, i))[j as int]).target,
            ) < n);
            lemma_stmt_var_prefix::<C, S>(
                specific_context,
                w,
                context.program,
                context.table,
                i,
                j as int + 1,
                nb as int,
            );
            lemma_stmt_var_prefix::<C, S>(
                specific_context,
                w,
                context.program,
                context.table,
                i,
                j as int,
                j as int + 1,
            );
            assert(stmt_var_upto::<C, S>(
                specific_context,
                w,
                context.program,
                context.table,
                i,
                j as int + 1,
            ) == stmt_var_upto::<C, S>(
                specific_context,
                w,
                context.program,
                context.table,
                i,
                j as int,
            ) + be);
            assert forall|kk: int| 0 <= kk < be.len() implies #[trigger] be[kk] == stmt_e[lj + kk] by {
                assert(stmt_e[lj + kk] == stmt_var_upto::<C, S>(
                    specific_context,
                    w,
                    context.program,
                    context.table,
                    i,
                    j as int + 1,
                )[lj + kk]);
            }
        }
        let next_idx = idx.next(&branch_info.target);
        let ghost tgt = next_idx.0 as int;
        let future_wallet_info = context.wallet_at(&next_idx);
        let is_wd: bool = match branch_cost {
            BranchCost::WithdrawGas { const_cost: _, success, with_builtin_costs: _ } => *success,
            _ => false,
        };
        if is_wd {
            proof {
                assert(is_wd_success(*branch_cost));
                assert(specific_context.withdrawal_ok(i, *branch_cost, wmap_at(w, i), wmap_at(w, tgt)));
            }
            let withdrawal = specific_context.get_gas_withdrawal(
                idx,
                branch_cost,
                &wallet_info.value,
                future_wallet_info.value,
            );
            proof {
                withdrawal.lemma_model_in_i32();
            }
            let ghost wdm = withdrawal.model();
            let tcm = S::to_full_cost_map(&withdrawal);
            let tn = tcm.0.len();
            proof {
                assert(be =~= wd_entry_pairs(S::full_tokens(), i, tgt, wdm));
                assert(be.len() == 2 * tn);
            }
            let mut k2: usize = 0;
            while k2 < tn
                invariant
                    tn == tcm.0@.len(),
                    tn == S::full_tokens().len(),
                    0 <= k2 <= tn,
                    tcm.0@ == full_cost_entries(S::full_tokens(), wdm),
                    cost_in_i32(wdm),
                    be == wd_entry_pairs(S::full_tokens(), i, tgt, wdm),
                    be.len() == 2 * tn,
                    i == idx.0 as int,
                    tgt == next_idx.0 as int,
                    lj + be.len() <= stmt_e.len(),
                    lj >= 0,
                    forall|kk: int| 0 <= kk < be.len() ==> #[trigger] be[kk] == stmt_e[lj + kk],
                    forall|a: int, b: int|
                        0 <= a < b < stmt_e.len() ==> (#[trigger] stmt_e[a]).0 != (
                        #[trigger] stmt_e[b]).0,
                    forall|a: int, p: int|
                        0 <= a < old_v.len() && 0 <= p < stmt_e.len() ==> (#[trigger] old_v[a]).0
                            != (#[trigger] stmt_e[p]).0,
                    variable_values.wf(),
                    var_view(variable_values.0@) == old_v + stmt_e.subrange(0, lj + 2 * k2),
                decreases tn - k2,
            {
                let (token_type, amount) = tcm.0[k2];
                let ghost pos1 = lj + 2 * k2;
                let ghost pos2 = lj + 2 * k2 + 1;
                proof {
                    assert(tcm.0@[k2 as int] == (
                        S::full_tokens()[k2 as int],
                        tok_val(wdm, S::full_tokens()[k2 as int]) as i64,
                    ));
                    assert(wdm.dom().contains(token_type) ==> i32::MIN <= wdm[token_type]
                        <= i32::MAX);
                    assert(amount as int == tok_val(wdm, token_type));
                    assert(be[2 * k2] == ((i, token_type), wd_clamp(tok_val(wdm, token_type))));
                    assert(be[2 * k2 + 1] == (
                        (tgt, token_type),
                        wd_clamp(-tok_val(wdm, token_type)),
                    ));
                    assert(stmt_e[pos1] == be[2 * k2]);
                    assert(stmt_e[pos2] == be[2 * k2 + 1]);
                }
                let pos_amount: i64 = if amount >= 0 {
                    amount
                } else {
                    0
                };
                let neg_amount: i64 = if amount <= 0 {
                    0 - amount
                } else {
                    0
                };
                proof {
                    lemma_key_fresh(variable_values.0@, old_v, stmt_e, pos1, pos1);
                    assert(var_key(idx.0 as int, token_type) == stmt_e[pos1].0);
                }
                let ghost cur0 = variable_values.0@;
                variable_values.insert(*idx, token_type, pos_amount);
                proof {
                    assert(var_view(variable_values.0@) =~= var_view(cur0).push(
                        ((idx.0 as int, token_type), pos_amount as int),
                    ));
                    assert(((idx.0 as int, token_type), pos_amount as int) == stmt_e[pos1]);
                    assert(var_view(variable_values.0@) =~= old_v + stmt_e.subrange(0, pos1 + 1));
                    lemma_key_fresh(variable_values.0@, old_v, stmt_e, pos2, pos2);
                    assert(var_key(next_idx.0 as int, token_type) == stmt_e[pos2].0);
                }
                let ghost cur1 = variable_values.0@;
                variable_values.insert(next_idx, token_type, neg_amount);
                proof {
                    assert(var_view(variable_values.0@) =~= var_view(cur1).push(
                        ((next_idx.0 as int, token_type), neg_amount as int),
                    ));
                    assert(((next_idx.0 as int, token_type), neg_amount as int) == stmt_e[pos2]);
                    assert(var_view(variable_values.0@) =~= old_v + stmt_e.subrange(0, pos2 + 1));
                }
                k2 = k2 + 1;
            }
            proof {
                assert(var_view(variable_values.0@) == old_v + stmt_e.subrange(0, lj + be.len()));
                assert(stmt_var_upto::<C, S>(
                    specific_context,
                    w,
                    context.program,
                    context.table,
                    i,
                    j as int + 1,
                ).len() == lj + be.len());
            }
        } else if nb > 1 {
            proof {
                assert(!is_wd_success(*branch_cost));
                assert(cost_in_i32(
                    cost_sub(
                        wmap_at(w, i),
                        specific_context.spec_branch_requirement(
                            w,
                            context.program,
                            context.table,
                            i,
                            j as int,
                        ),
                    ),
                ));
            }
            let cost = wallet_info.value.clone_val().sub_val(&branch_requirements[j].value);
            proof {
                cost.lemma_model_in_i32();
            }
            let ghost dm = cost.model();
            let tcm = S::to_full_cost_map(&cost);
            let tn = tcm.0.len();
            proof {
                assert(be =~= Seq::new(
                    S::full_tokens().len(),
                    |k: int| ((tgt, S::full_tokens()[k]), tok_val(dm, S::full_tokens()[k])),
                ));
                assert(be.len() == tn);
            }
            let mut k2: usize = 0;
            while k2 < tn
                invariant
                    tn == tcm.0@.len(),
                    tn == S::full_tokens().len(),
                    0 <= k2 <= tn,
                    tcm.0@ == full_cost_entries(S::full_tokens(), dm),
                    cost_in_i32(dm),
                    be == Seq::new(
                        S::full_tokens().len(),
                        |k: int| ((tgt, S::full_tokens()[k]), tok_val(dm, S::full_tokens()[k])),
                    ),
                    be.len() == tn,
                    i == idx.0 as int,
                    tgt == next_idx.0 as int,
                    lj + be.len() <= stmt_e.len(),
                    lj >= 0,
                    forall|kk: int| 0 <= kk < be.len() ==> #[trigger] be[kk] == stmt_e[lj + kk],
                    forall|a: int, b: int|
                        0 <= a < b < stmt_e.len() ==> (#[trigger] stmt_e[a]).0 != (
                        #[trigger] stmt_e[b]).0,
                    forall|a: int, p: int|
                        0 <= a < old_v.len() && 0 <= p < stmt_e.len() ==> (#[trigger] old_v[a]).0
                            != (#[trigger] stmt_e[p]).0,
                    variable_values.wf(),
                    var_view(variable_values.0@) == old_v + stmt_e.subrange(0, lj + k2),
                decreases tn - k2,
            {
                let (token_type, amount) = tcm.0[k2];
                let ghost pos1 = lj + k2;
                proof {
                    assert(tcm.0@[k2 as int] == (
                        S::full_tokens()[k2 as int],
                        tok_val(dm, S::full_tokens()[k2 as int]) as i64,
                    ));
                    assert(dm.dom().contains(token_type) ==> i32::MIN <= dm[token_type]
                        <= i32::MAX);
                    assert(amount as int == tok_val(dm, token_type));
                    assert(be[k2 as int] == ((tgt, token_type), tok_val(dm, token_type)));
                    assert(stmt_e[pos1] == be[k2 as int]);
                    lemma_key_fresh(variable_values.0@, old_v, stmt_e, pos1, pos1);
                    assert(var_key(next_idx.0 as int, token_type) == stmt_e[pos1].0);
                }
                let ghost cur0 = variable_values.0@;
                variable_values.insert(next_idx, token_type, amount);
                proof {
                    assert(var_view(variable_values.0@) =~= var_view(cur0).push(
                        ((next_idx.0 as int, token_type), amount as int),
                    ));
                    assert(((next_idx.0 as int, token_type), amount as int) == stmt_e[pos1]);
                    assert(var_view(variable_values.0@) =~= old_v + stmt_e.subrange(0, pos1 + 1));
                }
                k2 = k2 + 1;
            }
            proof {
                assert(var_view(variable_values.0@) == old_v + stmt_e.subrange(0, lj + be.len()));
                assert(stmt_var_upto::<C, S>(
                    specific_context,
                    w,
                    context.program,
                    context.table,
                    i,
                    j as int + 1,
                ).len() == lj + be.len());
            }
        } else {
            proof {
                assert(!is_wd_success(*branch_cost));
                assert(be =~= Seq::<((int, CostTokenType), int)>::empty());
                assert(stmt_var_upto::<C, S>(
                    specific_context,
                    w,
                    context.program,
                    context.table,
                    i,
                    j as int + 1,
                ).len() == lj);
            }
        }
        j = j + 1;
    }
    proof {
        assert(stmt_var_upto::<C, S>(
            specific_context,
            w,
            context.program,
            context.table,
            i,
            nb as int,
        ) == stmt_e);
        assert(stmt_e.subrange(0, stmt_e.len() as int) =~= stmt_e);
    }
}

/// The branch targets of statement `i`, one per outgoing branch; unlike
/// the wallet dependencies, successful withdrawals are included and callee
/// bodies are not entered.
pub open spec fn full_stmt_targets(program: &Program, i: int) -> Seq<StatementIdx> {
    Seq::new(
        stmt_branches(stmt_at(program, i)).len(),
        |j: int| StatementIdx(spec_next(i, stmt_branches(stmt_at(program, i))[j].target) as usize),
    )
}

/// The dependency graph of the excess computation: every branch edge.
pub open spec fn full_dep_graph(program: &Program) -> Seq<Seq<StatementIdx>> {
    Seq::new(program.statements@.len(), |i: int| full_stmt_targets(program, i))
}

/// Each branch target of a well-formed program is a statement of the
/// program.
proof fn lemma_full_graph_wf(program: &Program)
    requires
        program.wf(),
    ensures
        crate::topological::graph_wf(full_dep_graph(program), program.statements@.len() as int),
{
    let n = program.statements@.len() as int;
    let g = full_dep_graph(program);
    assert forall|i: int, j: int| 0 <= i < n && 0 <= j < g[i].len() implies (#[trigger] g[i][j]).0
        < n by {
        assert(stmt_targets_in(program.statements@[i], i, n));
        assert(0 <= spec_next(i, (#[trigger] stmt_branches(stmt_at(program, i))[j]).target) < n);
    }
}

/// Every recorded excess is the zero of the algebra.  With the statement
/// adjustments for withdrawals, redeposits and alignment left as
/// extension points, the propagation can only spread zeros.
pub open spec fn excess_zero<C: CostTypeTrait>(s: Seq<Option<C>>) -> bool {
    forall|i: int|
        0 <= i < s.len() && s[i] is Some ==> (match #[trigger] s[i] {
            Option::Some(e) => e.inv() && e.model() == C::zero_model(),
            Option::None => true,
        })
}

impl<'a, CostType: CostTypeTrait> CostContext<'a, CostType> {
    /// Handles the excess at the given statement by pushing it to the next
    /// statement(s), taking the per-token minimum where one arrives from
    /// several predecessors; a successor whose excess is already finalized
    /// keeps it, and a return drops its excess.  Statement-specific
    /// adjustments (withdrawals using the excess, redeposits consuming it,
    /// alignments adding to it) are extension points not yet taken.
    fn handle_excess_at<S: SpecificCostContextTrait<CostType>>(
        &self,
        idx: &StatementIdx,
        specific_cost_context: &S,
        excess: &mut Vec<Option<CostType>>,
        finalized_excess_statements: &mut Vec<bool>,
    )
        requires
            self.inv(),
            program_table_wf(self.program, self.table),
            specific_cost_context.wf(self.program, self.table),
            analysis_in_bounds::<CostType, S>(specific_cost_context, self.program, self.table),
            wallet_fixpoint::<CostType, S>(
                specific_cost_context,
                self.wallets(),
                self.program,
                self.table,
            ),
            idx.0 < self.program.statements@.len(),
            old(excess)@.len() == self.program.statements@.len(),
            old(finalized_excess_statements)@.len() == self.program.statements@.len(),
            excess_zero(old(excess)@),
        ensures
            final(excess)@.len() == old(excess)@.len(),
            excess_zero(final(excess)@),
            final(finalized_excess_statements)@ == old(finalized_excess_statements)@.update(
                idx.0 as int,
                true,
            ),
    {
        let ghost n = self.program.statements@.len() as int;
        let ghost i = idx.0 as int;
        let ghost w = self.wallets();
        finalized_excess_statements.set(idx.0, true);
        let current_excess: CostType = match &excess[idx.0] {
            Option::Some(e) => e.clone_val(),
            Option::None => CostType::default_val(),
        };
        let invocation = match self.program.get_statement(idx) {
            Statement::Invocation(invocation) => invocation,
            Statement::Return => {
                // Excess cannot be handled at a return; it is dropped.
                return ;
            },
        };
        proof {
            assert(stmt_costs_match(stmt_at(self.program, i), self.table));
            lemma_wallet_graph_wf(self.program, self.table);
            assert forall|k: int|
                0 <= k < stmt_deps(self.program, self.table, i).len() implies w.dom().contains(
                (#[trigger] stmt_deps(self.program, self.table, i)[k]).0 as int,
            ) by {
                assert(wallet_dep_graph(self.program, self.table)[i] == stmt_deps(
                    self.program,
                    self.table,
                    i,
                ));
                assert((stmt_deps(self.program, self.table, i)[k]).0 < n);
            }
        }
        // The branch requirements will feed the statement-specific excess
        // adjustments once those extension points are taken; the
        // propagation below does not read them yet.
        let _branch_requirements = get_branch_requirements(
            specific_cost_context,
            &self.costs,
            self.program,
            self.table,
            idx,
            invocation,
        );
        let nb = invocation.branches.len();
        let mut j: usize = 0;
        while j < nb
            invariant
                nb == invocation.branches@.len(),
                0 <= j <= nb,
                self.inv(),
                program_table_wf(self.program, self.table),
                i == idx.0 as int,
                n == self.program.statements@.len() as int,
                idx.0 < self.program.statements@.len(),
                stmt_at(self.program, i) == Statement::Invocation(*invocation),
                current_excess.inv(),
                current_excess.model() == CostType::zero_model(),
                excess@.len() == n,
                old(excess)@.len() == n,
                excess_zero(excess@),
                finalized_excess_statements@.len() == n,
                old(finalized_excess_statements)@.len() == n,
                finalized_excess_statements@ == old(finalized_excess_statements)@.update(
                    i,
                    true,
                ),
            decreases nb - j,
        {
            let branch_info = &invocation.branches[j];
            proof {
                assert(stmt_targets_in(stmt_at(self.program, i), i, n));
                assert(0 <= spec_next(
                    i,
                    (#[trigger] stmt_branches(stmt_at(self.program, i))[j as int]).target,
                ) < n);
            }
            let branch_statement = idx.next(&branch_info.target);
            // Statements whose excess is already finalized keep it; the
            // remaining successors are still updated.
            if !finalized_excess_statements[branch_statement.0] {
                let actual_excess = current_excess.clone_val();
                let updated: Option<CostType> = match &excess[branch_statement.0] {
                    Option::Some(existing) => {
                        let m = CostType::min2(existing, &actual_excess);
                        proof {
                            assert(m.model() =~= CostType::zero_model());
                        }
                        Option::Some(m)
                    },
                    Option::None => Option::Some(actual_excess),
                };
                excess.set(branch_statement.0, updated);
            }
            j = j + 1;
        }
    }

    /// Computes the target value for each statement: its wallet value plus
    /// the excess arriving there.  Walks every branch edge backwards, so it
    /// fails exactly when the branch graph (withdraw successes included)
    /// has a cycle.
    pub fn compute_target_values<S: SpecificCostContextTrait<CostType>>(
        &self,
        specific_cost_context: &S,
    ) -> (r: Result<Vec<CostType>, CostError>)
        requires
            self.inv(),
            program_table_wf(self.program, self.table),
            specific_cost_context.wf(self.program, self.table),
            analysis_in_bounds::<CostType, S>(specific_cost_context, self.program, self.table),
            wallet_fixpoint::<CostType, S>(
                specific_cost_context,
                self.wallets(),
                self.program,
                self.table,
            ),
        ensures
            match r {
                Ok(m) => m@.len() == self.program.statements@.len() && (forall|i: int|
                    0 <= i < m@.len() ==> (#[trigger] m@[i]).inv() && m@[i].model() == cost_add(
                        wmap_at(self.wallets(), i),
                        CostType::zero_model(),
                    )) && exists|o: Seq<StatementIdx>|
                    crate::topological::valid_order(
                        full_dep_graph(self.program),
                        self.program.statements@.len() as int,
                        o,
                    ),
                Err(e) => e == CostError::CycleDetected && exists|c: Seq<StatementIdx>|
                    crate::topological::is_cycle(
                        full_dep_graph(self.program),
                        self.program.statements@.len() as int,
                        c,
                    ),
            },
    {
        let n = self.program.statements.len();
        let ghost g = full_dep_graph(self.program);
        let mut deps: Vec<Vec<StatementIdx>> = Vec::new();
        let mut i: usize = 0;
        while i < n
            invariant
                0 <= i <= n,
                n == self.program.statements@.len(),
                program_table_wf(self.program, self.table),
                deps@.len() == i,
                forall|k: int|
                    0 <= k < i ==> (#[trigger] deps@[k])@ == full_stmt_targets(self.program, k),
            decreases n - i,
        {
            let idx = StatementIdx(i);
            let ghost ii = i as int;
            let mut d: Vec<StatementIdx> = Vec::new();
            match self.program.get_statement(&idx) {
                Statement::Return => {},
                Statement::Invocation(invocation) => {
                    let nb = invocation.branches.len();
                    let mut j: usize = 0;
                    while j < nb
                        invariant
                            nb == invocation.branches@.len(),
                            0 <= j <= nb,
                            program_table_wf(self.program, self.table),
                            ii == idx.0 as int,
                            idx.0 < self.program.statements@.len(),
                            stmt_at(self.program, ii) == Statement::Invocation(*invocation),
                            d@.len() == j,
                            forall|k: int|
                                0 <= k < j ==> #[trigger] d@[k] == full_stmt_targets(
                                    self.program,
                                    ii,
                                )[k],
                        decreases nb - j,
                    {
                        let branch_info = &invocation.branches[j];
                        proof {
                            assert(stmt_targets_in(
                                stmt_at(self.program, ii),
                                ii,
                                self.program.statements@.len() as int,
                            ));
                            assert(0 <= spec_next(
                                ii,
                                (#[trigger] stmt_branches(stmt_at(self.program, ii))[j as int]).target,
                            ) < self.program.statements@.len());
                        }
                        d.push(idx.next(&branch_info.target));
                        j = j + 1;
                    }
                },
            }
            proof {
                assert(d@ =~= full_stmt_targets(self.program, ii));
            }
            deps.push(d);
            i = i + 1;
        }
        proof {
            assert(crate::topological::graph_view(deps@) =~= g) by {
                assert forall|k: int| 0 <= k < n implies crate::topological::graph_view(deps@)[k]
                    == g[k] by {
                    assert(crate::topological::graph_view(deps@)[k] == deps@[k]@);
                }
            }
            lemma_full_graph_wf(self.program);
        }
        let order = match crate::topological::compute_topological_order(n, &deps) {
            Ok(o) => o,
            Err(e) => {
                return Err(e);
            },
        };
        let mut excess: Vec<Option<CostType>> = Vec::new();
        let mut finalized_excess_statements: Vec<bool> = Vec::new();
        let mut i2: usize = 0;
        while i2 < n
            invariant
                0 <= i2 <= n,
                excess@.len() == i2,
                finalized_excess_statements@.len() == i2,
                forall|k: int| 0 <= k < i2 ==> (#[trigger] excess@[k]) is None,
            decreases n - i2,
        {
            excess.push(Option::None);
            finalized_excess_statements.push(false);
            i2 = i2 + 1;
        }
        let mut k: usize = order.len();
        while k > 0
            invariant
                0 <= k <= order@.len(),
                n == self.program.statements@.len(),
                self.inv(),
                program_table_wf(self.program, self.table),
                specific_cost_context.wf(self.program, self.table),
                analysis_in_bounds::<CostType, S>(
                    specific_cost_context,
                    self.program,
                    self.table,
                ),
                wallet_fixpoint::<CostType, S>(
                    specific_cost_context,
                    self.wallets(),
                    self.program,
                    self.table,
                ),
                crate::topological::valid_order(g, n as int, order@),
                excess@.len() == n,
                finalized_excess_statements@.len() == n,
                excess_zero(excess@),
            decreases k,
        {
            k = k - 1;
            let oidx = order[k];
            self.handle_excess_at(
                &oidx,
                specific_cost_context,
                &mut excess,
                &mut finalized_excess_statements,
            );
        }
        let mut res: Vec<CostType> = Vec::new();
        let mut i3: usize = 0;
        while i3 < n
            invariant
                0 <= i3 <= n,
                n == self.program.statements@.len(),
                self.inv(),
                program_table_wf(self.program, self.table),
                wallet_fixpoint::<CostType, S>(
                    specific_cost_context,
                    self.wallets(),
                    self.program,
                    self.table,
                ),
                excess@.len() == n,
                excess_zero(excess@),
                res@.len() == i3,
                forall|k2: int|
                    0 <= k2 < i3 ==> (#[trigger] res@[k2]).inv() && res@[k2].model() == cost_add(
                        wmap_at(self.wallets(), k2),
                        CostType::zero_model(),
                    ),
            decreases n - i3,
        {
            let idx3 = StatementIdx(i3);
            let wi = self.wallet_at(&idx3);
            let e_i: CostType = match &excess[i3] {
                Option::Some(e) => e.clone_val(),
                Option::None => CostType::default_val(),
            };
            proof {
                wi.value.lemma_model_in_i32();
                CostType::lemma_zero_model_zero();
                assert(cost_in_i32(cost_add(wi.value.model(), e_i.model()))) by {
                    let s = cost_add(wi.value.model(), e_i.model());
                    assert forall|t: CostTokenType| s.dom().contains(t) implies i32::MIN <= #[trigger] s[t]
                        <= i32::MAX by {
                        assert(tok_val(e_i.model(), t) == 0);
                    }
                }
            }
            res.push(wi.value.add_val(&e_i));
            i3 = i3 + 1;
        }
        Ok(res)
    }
}

/// A function's cost map is exactly the entry list `to_cost_map` yields
/// for the wallet value solved at statement `e`.
pub open spec fn fc_entry_pinned<C: CostTypeTrait, S: SpecificCostContextTrait<C>>(
    costs: Seq<Option<WalletInfo<C>>>,
    tc: TokenCosts,
    e: int,
) -> bool {
    &&& costs[e] is Some
    &&& (costs[e] matches Some(wi) ==> tc.0@ == S::spec_to_cost_map(&wi.value))
}

/// The produced gas information matches the solved wallet cache `costs`:
/// the variables are exactly the per-statement emissions in statement
/// order, and each function's cost map is the entry list `to_cost_map`
/// yields for the wallet value at its entry point.
pub open spec fn gas_info_matches<C: CostTypeTrait, S: SpecificCostContextTrait<C>>(
    ctx: &S,
    costs: Seq<Option<WalletInfo<C>>>,
    program: &Program,
    table: &CostTable,
    gi: GasInfo,
) -> bool {
    let w = cache_model(costs);
    &&& gi.variable_values.wf()
    &&& var_view(gi.variable_values.0@) == var_entries_upto::<C, S>(
        ctx,
        w,
        program,
        table,
        program.statements@.len() as int,
    )
    &&& gi.function_costs@.len() == program.funcs@.len()
    &&& forall|f: int|
        0 <= f < program.funcs@.len() ==> (#[trigger] gi.function_costs@[f]).0
            == program.funcs@[f].id && gi.function_costs@[f].1.wf() && fc_entry_pinned::<C, S>(
            costs,
            gi.function_costs@[f].1,
            program.funcs@[f].entry_point.0 as int,
        ) && crate::gas_info::token_costs_model(gi.function_costs@[f].1.0@)
            == S::spec_cost_map_model(wmap_at(w, program.funcs@[f].entry_point.0 as int))
}

/// A successful analysis result: some solved wallet cache satisfies the
/// wallet equations and the produced gas information matches it.
pub open spec fn compute_costs_ok<C: CostTypeTrait, S: SpecificCostContextTrait<C>>(
    ctx: &S,
    program: &Program,
    table: &CostTable,
    gi: GasInfo,
) -> bool {
    exists|costs: Seq<Option<WalletInfo<C>>>|
        #[trigger] gas_info_matches::<C, S>(ctx, costs, program, table, gi) && costs.len()
            == program.statements@.len() && cache_inv(costs) && wallet_fixpoint::<C, S>(
            ctx,
            cache_model(costs),
            program,
            table,
        )
}

/// Computes the gas information for a program: the cost variables each
/// withdrawal and branch alignment must emit, and the wallet cost of each
/// function's entry point.  The `specific_cost_context` argument selects
/// the pre-cost or the post-cost pass.  Fails exactly when the dependency
/// graph of the pass has a cycle.
pub fn compute_costs<CostType: CostTypeTrait, SpecificCostContext: SpecificCostContextTrait<
    CostType,
>>(
    program: &Program,
    table: &CostTable,
    specific_cost_context: &SpecificCostContext,
) -> (r: Result<GasInfo, CostError>)
    requires
        program_table_wf(program, table),
        specific_cost_context.wf(program, table),
        analysis_in_bounds::<CostType, SpecificCostContext>(specific_cost_context, program, table),
        variables_feasible::<CostType, SpecificCostContext>(specific_cost_context, program, table),
    ensures
        match r {
            Ok(gas_info) => compute_costs_ok::<CostType, SpecificCostContext>(
                specific_cost_context,
                program,
                table,
                gas_info,
            ),
            Err(e) => e == CostError::CycleDetected && ((exists|c: Seq<StatementIdx>|
                crate::topological::is_cycle(
                    wallet_dep_graph(program, table),
                    program.statements@.len() as int,
                    c,
                )) || (SpecificCostContext::spec_handles_excess() && (exists|c: Seq<StatementIdx>|
                crate::topological::is_cycle(
                    full_dep_graph(program),
                    program.statements@.len() as int,
                    c,
                )))),
        },
        r is Ok ==> exists|o: Seq<StatementIdx>|
            crate::topological::valid_order(
                wallet_dep_graph(program, table),
                program.statements@.len() as int,
                o,
            ),
        r is Ok && SpecificCostContext::spec_handles_excess() ==> exists|o: Seq<StatementIdx>|
            crate::topological::valid_order(
                full_dep_graph(program),
                program.statements@.len() as int,
                o,
            ),
{
    let n = program.statements.len();
    let mut costs: Vec<Option<WalletInfo<CostType>>> = Vec::new();
    let mut i0: usize = 0;
    while i0 < n
        invariant
            0 <= i0 <= n,
            costs@.len() == i0,
            forall|k: int| 0 <= k < i0 ==> (#[trigger] costs@[k]) is None,
        decreases n - i0,
    {
        costs.push(Option::None);
        i0 = i0 + 1;
    }
    let mut context = CostContext { program, table, costs };
    match context.prepare_wallet(specific_cost_context) {
        Ok(_) => {},
        Err(e) => {
            return Err(e);
        },
    }
    if SpecificCostContext::should_handle_excess() {
        // Compute the excess cost and the corresponding target value for
        // each statement; only the cycle check feeds back into this pass.
        match context.compute_target_values(specific_cost_context) {
            Ok(_target_values) => {},
            Err(e) => {
                return Err(e);
            },
        }
    }
    let ghost w = context.wallets();
    let ghost ghost_costs = context.costs@;
    proof {
        assert(vars_ok::<CostType, SpecificCostContext>(
            specific_cost_context,
            w,
            program,
            table,
        ));
    }
    let ghost all_e = var_entries_upto::<CostType, SpecificCostContext>(
        specific_cost_context,
        w,
        program,
        table,
        n as int,
    );
    let mut variable_values = VariableValues::new();
    let mut i: usize = 0;
    while i < n
        invariant
            0 <= i <= n,
            n == program.statements@.len(),
            context.program == program,
            context.table == table,
            context.inv(),
            context.wallets() == w,
            ghost_costs == context.costs@,
            program_table_wf(program, table),
            specific_cost_context.wf(program, table),
            analysis_in_bounds::<CostType, SpecificCostContext>(
                specific_cost_context,
                program,
                table,
            ),
            wallet_fixpoint::<CostType, SpecificCostContext>(
                specific_cost_context,
                w,
                program,
                table,
            ),
            vars_ok::<CostType, SpecificCostContext>(specific_cost_context, w, program, table),
            all_e == var_entries_upto::<CostType, SpecificCostContext>(
                specific_cost_context,
                w,
                program,
                table,
                n as int,
            ),
            variable_values.wf(),
            var_view(variable_values.0@) == var_entries_upto::<CostType, SpecificCostContext>(
                specific_cost_context,
                w,
                program,
                table,
                i as int,
            ),
        decreases n - i,
    {
        let sidx = StatementIdx(i);
        let ghost ii = i as int;
        let ghost stmt_e = stmt_var_entries::<CostType, SpecificCostContext>(
            specific_cost_context,
            w,
            program,
            table,
            ii,
        );
        let ghost upto_i = var_entries_upto::<CostType, SpecificCostContext>(
            specific_cost_context,
            w,
            program,
            table,
            ii,
        );
        proof {
            lemma_var_upto_prefix::<CostType, SpecificCostContext>(
                specific_cost_context,
                w,
                program,
                table,
                ii,
                n as int,
            );
            lemma_var_upto_prefix::<CostType, SpecificCostContext>(
                specific_cost_context,
                w,
                program,
                table,
                ii + 1,
                n as int,
            );
            assert(var_entries_upto::<CostType, SpecificCostContext>(
                specific_cost_context,
                w,
                program,
                table,
                ii + 1,
            ) == upto_i + stmt_e);
            let li = upto_i.len() as int;
            // Every entry of this statement sits at position li + a of the
            // full emission list, whose keys are duplicate free.
            assert forall|a: int| 0 <= a < stmt_e.len() implies #[trigger] stmt_e[a] == all_e[li
                + a] by {
                assert(var_entries_upto::<CostType, SpecificCostContext>(
                    specific_cost_context,
                    w,
                    program,
                    table,
                    ii + 1,
                )[li + a] == stmt_e[a]);
                assert(all_e[li + a] == var_entries_upto::<CostType, SpecificCostContext>(
                    specific_cost_context,
                    w,
                    program,
                    table,
                    ii + 1,
                )[li + a]);
            }
            assert forall|a: int, b: int| 0 <= a < b < stmt_e.len() implies (
            #[trigger] stmt_e[a]).0 != (#[trigger] stmt_e[b]).0 by {
                assert(var_entry_keys(all_e)[li + a] == all_e[li + a].0);
                assert(var_entry_keys(all_e)[li + b] == all_e[li + b].0);
            }
            lemma_var_values_model(variable_values.0@);
            assert forall|a: int| 0 <= a < stmt_e.len() implies !variable_values.model().dom().contains(
                (#[trigger] stmt_e[a]).0,
            ) by {
                if variable_values.model().dom().contains(stmt_e[a].0) {
                    let m = choose|m: int|
                        0 <= m < variable_values.0@.len() && crate::gas_info::entry_key(
                            #[trigger] variable_values.0@[m],
                        ) == stmt_e[a].0;
                    assert(var_view(variable_values.0@)[m].0 == crate::gas_info::entry_key(
                        variable_values.0@[m],
                    ));
                    assert(upto_i[m] == all_e[m]);
                    assert(var_entry_keys(all_e)[m] == all_e[m].0);
                    assert(var_entry_keys(all_e)[li + a] == all_e[li + a].0);
                    assert(false);
                }
            }
            assert(stmt_analyze_ok::<CostType, SpecificCostContext>(
                specific_cost_context,
                w,
                program,
                table,
                ii,
            ));
        }
        analyze_gas_statements(&context, specific_cost_context, &sidx, &mut variable_values);
        proof {
            assert(var_view(variable_values.0@) == upto_i + stmt_e);
        }
        i = i + 1;
    }
    let mut function_costs: Vec<(u64, crate::gas_info::TokenCosts)> = Vec::new();
    let nf = program.funcs.len();
    let mut f: usize = 0;
    while f < nf
        invariant
            0 <= f <= nf,
            nf == program.funcs@.len(),
            n == program.statements@.len(),
            context.program == program,
            context.table == table,
            context.inv(),
            context.wallets() == w,
            ghost_costs == context.costs@,
            program_table_wf(program, table),
            wallet_fixpoint::<CostType, SpecificCostContext>(
                specific_cost_context,
                w,
                program,
                table,
            ),
            function_costs@.len() == f,
            forall|k: int|
                0 <= k < f ==> (#[trigger] function_costs@[k]).0 == program.funcs@[k].id
                    && function_costs@[k].1.wf() && crate::gas_info::token_costs_model(
                    function_costs@[k].1.0@,
                ) == SpecificCostContext::spec_cost_map_model(
                    wmap_at(w, program.funcs@[k].entry_point.0 as int),
                ),
            forall|k: int|
                0 <= k < f ==> #[trigger] fc_entry_pinned::<CostType, SpecificCostContext>(
                    context.costs@,
                    function_costs@[k].1,
                    program.funcs@[k].entry_point.0 as int,
                ),
        decreases nf - f,
    {
        let func = program.funcs[f];
        let ghost e = program.funcs@[f as int].entry_point.0 as int;
        proof {
            assert(program.funcs@[f as int].entry_point.0 < n);
            assert(w.dom().contains(e));
            assert(context.costs@[e] is Some);
        }
        let wi = context.wallet_at(&func.entry_point);
        let res_map = SpecificCostContext::to_cost_map(&wi.value);
        proof {
            match context.costs@[e] {
                Option::Some(cached) => {
                    assert(CostType::same_repr(&wi.value, &cached.value));
                    SpecificCostContext::lemma_to_cost_map_same_repr(&wi.value, &cached.value);
                    assert(res_map.0@ == SpecificCostContext::spec_to_cost_map(&cached.value));
                },
                Option::None => {
                    assert(false);
                },
            }
            assert(fc_entry_pinned::<CostType, SpecificCostContext>(
                context.costs@,
                res_map,
                e,
            ));
        }
        function_costs.push((func.id, res_map));
        f = f + 1;
    }
    let gas_info = GasInfo { variable_values, function_costs };
    proof {
        assert(gas_info_matches::<CostType, SpecificCostContext>(
            specific_cost_context,
            context.costs@,
            program,
            table,
            gas_info,
        ));
        assert(wallet_fixpoint::<CostType, SpecificCostContext>(
            specific_cost_context,
            cache_model(context.costs@),
            program,
            table,
        ));
        assert(context.costs@.len() == program.statements@.len());
        assert(cache_inv(context.costs@));
        assert(compute_costs_ok::<CostType, SpecificCostContext>(
            specific_cost_context,
            program,
            table,
            gas_info,
        ));
    }
    Ok(gas_info)
}

} // verus!

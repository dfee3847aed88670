//! Properties of the analysis, stated and proved from its contracts.

use vstd::prelude::*;

use crate::compute_costs::branch_cost_at;
use crate::compute_costs::cache_model;
use crate::compute_costs::branch_var_entries;
use crate::compute_costs::gas_info_matches;
use crate::compute_costs::lemma_branch_frame_one;
use crate::compute_costs::lemma_stmt_wallet_frame;
use crate::compute_costs::lemma_wallet_graph_wf;
use crate::compute_costs::stmt_deps;
use crate::compute_costs::stmt_wallet_model;
use crate::compute_costs::var_view;
use crate::compute_costs::wallet_dep_graph;
use crate::compute_costs::cached_model;
use crate::compute_costs::fc_entry_pinned;
use crate::compute_costs::WalletInfo;
use crate::compute_costs::branch_target_at;
use crate::compute_costs::is_wd_success;
use crate::compute_costs::lemma_branch_targets_in_deps;
use crate::compute_costs::target_in_upto;
use crate::compute_costs::stmt_deps_upto;
use crate::compute_costs::branch_dep_targets;
use crate::compute_costs::branch_info_at;
use crate::compute_costs::program_table_wf;
use crate::compute_costs::stmt_at;
use crate::compute_costs::stmt_var_entries;
use crate::compute_costs::stmt_var_upto;
use crate::compute_costs::var_entries_upto;
use crate::compute_costs::wallet_fixpoint;
use crate::compute_costs::wd_clamp;
use crate::compute_costs::wd_entry_pairs;
use crate::compute_costs::wmap_at;
use crate::compute_costs::PostcostContext;
use crate::compute_costs::PreCostContext;
use crate::compute_costs::SpecificCostContextTrait;
use crate::cost_type::scalar_max_fold;
use crate::cost_type::scalar_model;
use crate::cost_type::CostTypeTrait;
use crate::model::cost_max2;
use crate::model::cost_max_seq;
use crate::model::tok_val;
use crate::gas_info::GasInfo;
use crate::objects::branch_cost_wf;
use crate::objects::const_cost_value;
use crate::objects::precost_tokens;
use crate::objects::BranchCost;
use crate::objects::CostTable;
use crate::objects::CostTokenType;
use crate::objects::PreCost;
use crate::program::spec_next;
use crate::program::stmt_branches;
use crate::program::stmt_targets_in;
use crate::program::StatementIdx;
use crate::topological::placed_before;
use crate::topological::valid_order;
use crate::program::Program;
use crate::program::Statement;

verus! {

/// Both wallet maps solve every statement and assign it the same wallet.
pub open spec fn wallets_agree(
    w1: Map<int, Map<CostTokenType, int>>,
    w2: Map<int, Map<CostTokenType, int>>,
    n: int,
) -> bool {
    forall|d: int|
        0 <= d < n ==> w1.dom().contains(d) && w2.dom().contains(d) && wmap_at(w1, d)
            == #[trigger] wmap_at(w2, d)
}

/// The union-max with zero-fill of a sequence of token maps is
/// non-negative wherever any of them lacks a token, and at least every
/// single map everywhere.
proof fn lemma_max_seq_nonneg(ms: Seq<Map<CostTokenType, int>>)
    ensures
        forall|t: CostTokenType|
            tok_val(cost_max_seq(Map::<CostTokenType, int>::empty(), ms), t) >= 0,
    decreases ms.len(),
{
    if ms.len() > 0 {
        lemma_max_seq_nonneg(ms.drop_last());
        let prev = cost_max_seq(Map::<CostTokenType, int>::empty(), ms.drop_last());
        assert(cost_max_seq(Map::<CostTokenType, int>::empty(), ms) == cost_max2(
            prev,
            ms.last(),
        ));
        assert forall|t: CostTokenType|
            tok_val(cost_max2(prev, ms.last()), t) >= 0 by {
            assert(tok_val(prev, t) >= 0);
            if cost_max2(prev, ms.last()).dom().contains(t) {
                assert(cost_max2(prev, ms.last())[t] >= tok_val(prev, t));
            }
        }
    }
}

/// The union-max with zero-fill dominates each of its operands pointwise.
proof fn lemma_max_seq_ge(ms: Seq<Map<CostTokenType, int>>, k: int)
    requires
        0 <= k < ms.len(),
    ensures
        forall|t: CostTokenType|
            tok_val(cost_max_seq(Map::<CostTokenType, int>::empty(), ms), t) >= tok_val(
                ms[k],
                t,
            ),
    decreases ms.len(),
{
    lemma_max_seq_nonneg(ms.drop_last());
    if k == ms.len() - 1 {
        assert forall|t: CostTokenType|
            tok_val(cost_max_seq(Map::<CostTokenType, int>::empty(), ms), t) >= tok_val(
            ms[k],
            t,
        ) by {
            let prev = cost_max_seq(Map::<CostTokenType, int>::empty(), ms.drop_last());
            assert(cost_max_seq(Map::<CostTokenType, int>::empty(), ms) == cost_max2(
                prev,
                ms.last(),
            ));
        }
    } else {
        lemma_max_seq_ge(ms.drop_last(), k);
        assert forall|t: CostTokenType|
            tok_val(cost_max_seq(Map::<CostTokenType, int>::empty(), ms), t) >= tok_val(
            ms[k],
            t,
        ) by {
            let prev = cost_max_seq(Map::<CostTokenType, int>::empty(), ms.drop_last());
            assert(ms.drop_last()[k] == ms[k]);
            assert(tok_val(prev, t) >= tok_val(ms[k], t));
            assert(cost_max_seq(Map::<CostTokenType, int>::empty(), ms) == cost_max2(
                prev,
                ms.last(),
            ));
        }
    }
}

/// The running maximum of the `Const` values dominates each operand's
/// `Const` value.
proof fn lemma_scalar_fold_ge(ms: Seq<Map<CostTokenType, int>>, k: int)
    requires
        0 <= k < ms.len(),
    ensures
        scalar_max_fold(ms) >= tok_val(ms[k], CostTokenType::Const),
    decreases ms.len(),
{
    if ms.len() > 1 && k < ms.len() - 1 {
        lemma_scalar_fold_ge(ms.drop_last(), k);
        assert(ms.drop_last()[k] == ms[k]);
    }
}

/// In the pre-cost pass, a solved statement's wallet covers the
/// requirement of each of its branches, token by token.  The deduction
/// emitted at the branch's target is exactly the difference.
pub proof fn lemma_wallet_covers_branch_precost(
    ctx: &PreCostContext,
    w: Map<int, Map<CostTokenType, int>>,
    program: &Program,
    table: &CostTable,
    i: int,
    j: int,
)
    requires
        program_table_wf(program, table),
        wallet_fixpoint::<PreCost, PreCostContext>(ctx, w, program, table),
        0 <= i < program.statements@.len(),
        stmt_at(program, i) is Invocation,
        0 <= j < stmt_branches(stmt_at(program, i)).len(),
    ensures
        forall|t: CostTokenType|
            tok_val(wmap_at(w, i), t) >= tok_val(
                ctx.spec_branch_requirement(w, program, table, i, j),
                t,
            ),
        !is_wd_success(branch_cost_at(program, table, i, j)) && stmt_branches(
            stmt_at(program, i),
        ).len() > 1 ==> forall|k: int|
            0 <= k < precost_tokens().len()
                ==> #[trigger] branch_var_entries::<PreCost, PreCostContext>(
                ctx,
                w,
                program,
                table,
                i,
                j,
            )[k] == (
                (branch_target_at(program, i, j), precost_tokens()[k]),
                tok_val(wmap_at(w, i), precost_tokens()[k]) - tok_val(
                    ctx.spec_branch_requirement(w, program, table, i, j),
                    precost_tokens()[k],
                ),
            ) && branch_var_entries::<PreCost, PreCostContext>(ctx, w, program, table, i, j)[k].1
                >= 0,
{
    match stmt_at(program, i) {
        Statement::Return => {},
        Statement::Invocation(inv) => {
            let reqs = Seq::new(
                inv.branches@.len(),
                |jj: int| ctx.spec_branch_requirement(w, program, table, i, jj),
            );
            assert(w.dom().contains(i));
            assert(w[i] == <PreCost as CostTypeTrait>::max_model(reqs));
            lemma_max_seq_ge(reqs, j);
            assert(reqs[j] == ctx.spec_branch_requirement(w, program, table, i, j));
            let req = ctx.spec_branch_requirement(w, program, table, i, j);
            if !is_wd_success(branch_cost_at(program, table, i, j)) && stmt_branches(
                stmt_at(program, i),
            ).len() > 1 {
                let diff = crate::model::cost_sub(wmap_at(w, i), req);
                assert forall|k: int| 0 <= k < precost_tokens().len() implies tok_val(
                    diff,
                    precost_tokens()[k],
                ) == tok_val(wmap_at(w, i), precost_tokens()[k]) - tok_val(
                    req,
                    precost_tokens()[k],
                ) by {}
            }
        },
    }
}

/// In the post-cost pass, a solved statement's wallet covers the `Const`
/// requirement of each of its branches.  The deduction emitted at the
/// branch's target is exactly the difference.
pub proof fn lemma_wallet_covers_branch_postcost(
    ctx: &PostcostContext,
    w: Map<int, Map<CostTokenType, int>>,
    program: &Program,
    table: &CostTable,
    i: int,
    j: int,
)
    requires
        program_table_wf(program, table),
        wallet_fixpoint::<i32, PostcostContext>(ctx, w, program, table),
        0 <= i < program.statements@.len(),
        stmt_at(program, i) is Invocation,
        0 <= j < stmt_branches(stmt_at(program, i)).len(),
    ensures
        tok_val(wmap_at(w, i), CostTokenType::Const) >= tok_val(
            ctx.spec_branch_requirement(w, program, table, i, j),
            CostTokenType::Const,
        ),
        !is_wd_success(branch_cost_at(program, table, i, j)) && stmt_branches(
            stmt_at(program, i),
        ).len() > 1 ==> branch_var_entries::<i32, PostcostContext>(ctx, w, program, table, i, j)
            == seq![
            (
                (branch_target_at(program, i, j), CostTokenType::Const),
                tok_val(wmap_at(w, i), CostTokenType::Const) - tok_val(
                    ctx.spec_branch_requirement(w, program, table, i, j),
                    CostTokenType::Const,
                ),
            ),
        ] && branch_var_entries::<i32, PostcostContext>(ctx, w, program, table, i, j)[0].1 >= 0,
{
    match stmt_at(program, i) {
        Statement::Return => {},
        Statement::Invocation(inv) => {
            let reqs = Seq::new(
                inv.branches@.len(),
                |jj: int| ctx.spec_branch_requirement(w, program, table, i, jj),
            );
            assert(w.dom().contains(i));
            assert(w[i] == <i32 as CostTypeTrait>::max_model(reqs));
            lemma_scalar_fold_ge(reqs, j);
            assert(reqs[j] == ctx.spec_branch_requirement(w, program, table, i, j));
            assert(tok_val(scalar_model(scalar_max_fold(reqs)), CostTokenType::Const)
                == scalar_max_fold(reqs));
            let req = ctx.spec_branch_requirement(w, program, table, i, j);
            if !is_wd_success(branch_cost_at(program, table, i, j)) && stmt_branches(
                stmt_at(program, i),
            ).len() > 1 {
                let diff = crate::model::cost_sub(wmap_at(w, i), req);
                assert(tok_val(diff, CostTokenType::Const) == tok_val(
                    wmap_at(w, i),
                    CostTokenType::Const,
                ) - tok_val(req, CostTokenType::Const));
                assert(branch_var_entries::<i32, PostcostContext>(ctx, w, program, table, i, j)
                    =~= seq![
                    (
                        (branch_target_at(program, i, j), CostTokenType::Const),
                        tok_val(wmap_at(w, i), CostTokenType::Const) - tok_val(
                            req,
                            CostTokenType::Const,
                        ),
                    ),
                ]);
            }
        },
    }
}

/// The variable pair a successful withdrawal emits for one token
/// decomposes the withdrawal amount: the entry at the withdrawing
/// statement carries its positive part, the entry at the branch target its
/// negative part, both are non-negative, and at most one of them is
/// non-zero.
pub proof fn lemma_withdrawal_split(
    tokens: Seq<CostTokenType>,
    i: int,
    tgt: int,
    wd: Map<CostTokenType, int>,
    k: int,
)
    requires
        0 <= k < tokens.len(),
    ensures
        wd_entry_pairs(tokens, i, tgt, wd)[2 * k].0 == (i, tokens[k]),
        wd_entry_pairs(tokens, i, tgt, wd)[2 * k + 1].0 == (tgt, tokens[k]),
        wd_entry_pairs(tokens, i, tgt, wd)[2 * k].1 >= 0,
        wd_entry_pairs(tokens, i, tgt, wd)[2 * k + 1].1 >= 0,
        wd_entry_pairs(tokens, i, tgt, wd)[2 * k].1 - wd_entry_pairs(tokens, i, tgt, wd)[2 * k
            + 1].1 == tok_val(wd, tokens[k]),
        wd_entry_pairs(tokens, i, tgt, wd)[2 * k].1 == 0 || wd_entry_pairs(tokens, i, tgt, wd)[2
            * k + 1].1 == 0,
{
    let pairs = wd_entry_pairs(tokens, i, tgt, wd);
    assert((2 * k) % 2 == 0);
    assert((2 * k + 1) % 2 == 1);
    assert((2 * k) / 2 == k);
    assert((2 * k + 1) / 2 == k);
    assert(pairs[2 * k] == ((i, tokens[k]), wd_clamp(tok_val(wd, tokens[k]))));
    assert(pairs[2 * k + 1] == ((tgt, tokens[k]), wd_clamp(-tok_val(wd, tokens[k]))));
}

/// A program without gas withdrawals or multi-branch invocations emits no
/// variables at all, whatever the wallets are.
pub proof fn lemma_no_emitters_no_variables<C: CostTypeTrait, S: SpecificCostContextTrait<C>>(
    ctx: &S,
    w: Map<int, Map<CostTokenType, int>>,
    program: &Program,
    table: &CostTable,
    i: int,
)
    requires
        forall|i2: int, j: int|
            0 <= i2 < program.statements@.len() && 0 <= j < stmt_branches(
                stmt_at(program, i2),
            ).len() ==> !is_wd_success(#[trigger] branch_cost_at(program, table, i2, j)),
        forall|i2: int|
            0 <= i2 < program.statements@.len() ==> stmt_branches(
                #[trigger] program.statements@[i2],
            ).len() <= 1,
        0 <= i <= program.statements@.len(),
    ensures
        var_entries_upto::<C, S>(ctx, w, program, table, i) == Seq::<
            ((int, CostTokenType), int),
        >::empty(),
    decreases i,
{
    if i > 0 {
        lemma_no_emitters_no_variables::<C, S>(ctx, w, program, table, i - 1);
        lemma_stmt_no_emitters::<C, S>(
            ctx,
            w,
            program,
            table,
            i - 1,
            stmt_branches(stmt_at(program, i - 1)).len() as int,
        );
        assert(var_entries_upto::<C, S>(ctx, w, program, table, i) =~= Seq::<
            ((int, CostTokenType), int),
        >::empty());
    }
}

/// One statement without withdrawals or a second branch emits nothing.
proof fn lemma_stmt_no_emitters<C: CostTypeTrait, S: SpecificCostContextTrait<C>>(
    ctx: &S,
    w: Map<int, Map<CostTokenType, int>>,
    program: &Program,
    table: &CostTable,
    i: int,
    j: int,
)
    requires
        0 <= i < program.statements@.len(),
        forall|jj: int|
            0 <= jj < stmt_branches(stmt_at(program, i)).len() ==> !is_wd_success(
                #[trigger] branch_cost_at(program, table, i, jj),
            ),
        stmt_branches(stmt_at(program, i)).len() <= 1,
        0 <= j <= stmt_branches(stmt_at(program, i)).len(),
    ensures
        stmt_var_upto::<C, S>(ctx, w, program, table, i, j) == Seq::<
            ((int, CostTokenType), int),
        >::empty(),
        stmt_var_entries::<C, S>(ctx, w, program, table, i) == Seq::<
            ((int, CostTokenType), int),
        >::empty(),
    decreases j,
{
    if j > 0 {
        lemma_stmt_no_emitters::<C, S>(ctx, w, program, table, i, j - 1);
        assert(stmt_var_upto::<C, S>(ctx, w, program, table, i, j) =~= Seq::<
            ((int, CostTokenType), int),
        >::empty());
    }
    match stmt_at(program, i) {
        Statement::Return => {},
        Statement::Invocation(inv) => {
            if j == stmt_branches(stmt_at(program, i)).len() {
            }
        },
    }
}

/// Two wallet solutions agree on every statement placed in the first `k`
/// positions of a dependency-respecting order.
proof fn lemma_fixpoint_agree_upto<C: CostTypeTrait, S: SpecificCostContextTrait<C>>(
    ctx: &S,
    w1: Map<int, Map<CostTokenType, int>>,
    w2: Map<int, Map<CostTokenType, int>>,
    program: &Program,
    table: &CostTable,
    o: Seq<StatementIdx>,
    k: int,
)
    requires
        program_table_wf(program, table),
        valid_order(wallet_dep_graph(program, table), program.statements@.len() as int, o),
        wallet_fixpoint::<C, S>(ctx, w1, program, table),
        wallet_fixpoint::<C, S>(ctx, w2, program, table),
        0 <= k <= o.len(),
    ensures
        forall|m: int|
            0 <= m < k ==> wmap_at(w1, (#[trigger] o[m]).0 as int) == wmap_at(
                w2,
                (o[m]).0 as int,
            ),
    decreases k,
{
    let n = program.statements@.len() as int;
    let g = wallet_dep_graph(program, table);
    if k > 0 {
        lemma_fixpoint_agree_upto::<C, S>(ctx, w1, w2, program, table, o, k - 1);
        let i = (o[k - 1]).0 as int;
        lemma_wallet_graph_wf(program, table);
        assert(crate::topological::deps_before(g, o, k - 1));
        assert(g[i] == stmt_deps(program, table, i));
        assert forall|kk: int|
            0 <= kk < stmt_deps(program, table, i).len() implies {
            let d = (#[trigger] stmt_deps(program, table, i)[kk]).0 as int;
            w1.dom().contains(d) == w2.dom().contains(d) && wmap_at(w1, d) == wmap_at(w2, d)
        } by {
            assert(placed_before(o, k - 1, g[i][kk]));
            let m = choose|m: int| 0 <= m < k - 1 && o[m] == g[i][kk];
            assert(wmap_at(w1, (o[m]).0 as int) == wmap_at(w2, (o[m]).0 as int));
            assert((g[i][kk]).0 < n);
            let d = (stmt_deps(program, table, i)[kk]).0 as int;
            assert(d == (o[m]).0 as int);
            assert(w1.dom().contains(d));
            assert(w2.dom().contains(d));
        }
        lemma_stmt_wallet_frame::<C, S>(ctx, w1, w2, program, table, i);
        assert(w1.dom().contains(i));
        assert(w2.dom().contains(i));
        assert(w1[i] == stmt_wallet_model::<C, S>(ctx, w1, program, table, i));
        assert(w2[i] == stmt_wallet_model::<C, S>(ctx, w2, program, table, i));
        assert(wmap_at(w1, i) == wmap_at(w2, i));
    }
}

/// The wallet solution is unique: any two solutions of the wallet
/// equations agree on every statement, provided a dependency-respecting
/// order exists at all.
pub proof fn lemma_wallet_fixpoint_unique<C: CostTypeTrait, S: SpecificCostContextTrait<C>>(
    ctx: &S,
    w1: Map<int, Map<CostTokenType, int>>,
    w2: Map<int, Map<CostTokenType, int>>,
    program: &Program,
    table: &CostTable,
    o: Seq<StatementIdx>,
)
    requires
        program_table_wf(program, table),
        valid_order(wallet_dep_graph(program, table), program.statements@.len() as int, o),
        wallet_fixpoint::<C, S>(ctx, w1, program, table),
        wallet_fixpoint::<C, S>(ctx, w2, program, table),
    ensures
        forall|i: int|
            0 <= i < program.statements@.len() ==> wmap_at(w1, i) == #[trigger] wmap_at(w2, i),
{
    let n = program.statements@.len() as int;
    lemma_fixpoint_agree_upto::<C, S>(ctx, w1, w2, program, table, o, o.len() as int);
    assert forall|i: int| 0 <= i < n implies wmap_at(w1, i) == #[trigger] wmap_at(w2, i) by {
        assert(o.contains(StatementIdx(i as usize)));
        let m = choose|m: int| 0 <= m < o.len() && o[m] == StatementIdx(i as usize);
        assert(wmap_at(w1, (o[m]).0 as int) == wmap_at(w2, (o[m]).0 as int));
    }
}

/// The variables emitted by the first `i` statements depend only on the
/// wallets of the program's statements.
proof fn lemma_var_entries_agree<C: CostTypeTrait, S: SpecificCostContextTrait<C>>(
    ctx: &S,
    w1: Map<int, Map<CostTokenType, int>>,
    w2: Map<int, Map<CostTokenType, int>>,
    program: &Program,
    table: &CostTable,
    i: int,
)
    requires
        program_table_wf(program, table),
        wallets_agree(w1, w2, program.statements@.len() as int),
        0 <= i <= program.statements@.len(),
    ensures
        var_entries_upto::<C, S>(ctx, w1, program, table, i) == var_entries_upto::<C, S>(
            ctx,
            w2,
            program,
            table,
            i,
        ),
    decreases i,
{
    if i > 0 {
        lemma_var_entries_agree::<C, S>(ctx, w1, w2, program, table, i - 1);
        lemma_stmt_entries_agree::<C, S>(
            ctx,
            w1,
            w2,
            program,
            table,
            i - 1,
            stmt_branches(stmt_at(program, i - 1)).len() as int,
        );
    }
}

/// The variables emitted by one statement depend only on the wallets of
/// the program's statements.
proof fn lemma_stmt_entries_agree<C: CostTypeTrait, S: SpecificCostContextTrait<C>>(
    ctx: &S,
    w1: Map<int, Map<CostTokenType, int>>,
    w2: Map<int, Map<CostTokenType, int>>,
    program: &Program,
    table: &CostTable,
    i: int,
    j: int,
)
    requires
        program_table_wf(program, table),
        wallets_agree(w1, w2, program.statements@.len() as int),
        0 <= i < program.statements@.len(),
        0 <= j <= stmt_branches(stmt_at(program, i)).len(),
    ensures
        stmt_var_upto::<C, S>(ctx, w1, program, table, i, j) == stmt_var_upto::<C, S>(
            ctx,
            w2,
            program,
            table,
            i,
            j,
        ),
        j == stmt_branches(stmt_at(program, i)).len() ==> stmt_var_entries::<C, S>(
            ctx,
            w1,
            program,
            table,
            i,
        ) == stmt_var_entries::<C, S>(ctx, w2, program, table, i),
    decreases j,
{
    let n = program.statements@.len() as int;
    if j > 0 {
        lemma_stmt_entries_agree::<C, S>(ctx, w1, w2, program, table, i, j - 1);
        lemma_wallet_graph_wf(program, table);
        assert(stmt_targets_in(stmt_at(program, i), i, n));
        assert(0 <= spec_next(i, (#[trigger] stmt_branches(stmt_at(program, i))[j - 1]).target)
            < n);
        let tgt = branch_target_at(program, i, j - 1);
        assert(wmap_at(w1, i) == wmap_at(w2, i));
        assert(wmap_at(w1, tgt) == wmap_at(w2, tgt));
        let bc = branch_cost_at(program, table, i, j - 1);
        if is_wd_success(bc) {
        } else if stmt_branches(stmt_at(program, i)).len() > 1 {
            assert forall|kk: int|
                0 <= kk < stmt_deps(program, table, i).len() implies {
                let d = (#[trigger] stmt_deps(program, table, i)[kk]).0 as int;
                w1.dom().contains(d) == w2.dom().contains(d) && wmap_at(w1, d) == wmap_at(
                    w2,
                    d,
                )
            } by {
                assert(wallet_dep_graph(program, table)[i] == stmt_deps(program, table, i));
                assert((stmt_deps(program, table, i)[kk]).0 < n);
                let d = (stmt_deps(program, table, i)[kk]).0 as int;
                assert(wmap_at(w1, d) == wmap_at(w2, d));
                assert(w1.dom().contains(d));
                assert(w2.dom().contains(d));
            }
            lemma_branch_frame_one::<C, S>(ctx, w1, w2, program, table, i, j - 1);
            assert(branch_var_entries::<C, S>(ctx, w1, program, table, i, j - 1)
                =~= branch_var_entries::<C, S>(ctx, w2, program, table, i, j - 1));
        }
        assert(branch_var_entries::<C, S>(ctx, w1, program, table, i, j - 1)
            == branch_var_entries::<C, S>(ctx, w2, program, table, i, j - 1));
    }
}

/// Two analysis results for the same inputs carry the same variables and
/// the same function costs: the produced gas information is a function of
/// the program and the cost table.
pub proof fn lemma_compute_costs_deterministic<C: CostTypeTrait, S: SpecificCostContextTrait<C>>(
    ctx: &S,
    program: &Program,
    table: &CostTable,
    o: Seq<StatementIdx>,
    costs1: Seq<Option<WalletInfo<C>>>,
    costs2: Seq<Option<WalletInfo<C>>>,
    gi1: GasInfo,
    gi2: GasInfo,
)
    requires
        program_table_wf(program, table),
        valid_order(wallet_dep_graph(program, table), program.statements@.len() as int, o),
        wallet_fixpoint::<C, S>(ctx, cache_model(costs1), program, table),
        wallet_fixpoint::<C, S>(ctx, cache_model(costs2), program, table),
        gas_info_matches::<C, S>(ctx, costs1, program, table, gi1),
        gas_info_matches::<C, S>(ctx, costs2, program, table, gi2),
    ensures
        var_view(gi1.variable_values.0@) == var_view(gi2.variable_values.0@),
        gi1.function_costs@.len() == gi2.function_costs@.len(),
        forall|f: int|
            0 <= f < gi1.function_costs@.len() ==> (#[trigger] gi1.function_costs@[f]).0
                == gi2.function_costs@[f].0 && crate::gas_info::token_costs_model(
                gi1.function_costs@[f].1.0@,
            ) == crate::gas_info::token_costs_model(gi2.function_costs@[f].1.0@),
{
    let n = program.statements@.len() as int;
    let w1 = cache_model(costs1);
    let w2 = cache_model(costs2);
    lemma_wallet_fixpoint_unique::<C, S>(ctx, w1, w2, program, table, o);
    assert(wallets_agree(w1, w2, n));
    lemma_var_entries_agree::<C, S>(ctx, w1, w2, program, table, n);
    assert forall|f: int| 0 <= f < gi1.function_costs@.len() implies (
    #[trigger] gi1.function_costs@[f]).0 == gi2.function_costs@[f].0
        && crate::gas_info::token_costs_model(gi1.function_costs@[f].1.0@)
        == crate::gas_info::token_costs_model(gi2.function_costs@[f].1.0@) by {
        assert(program.funcs@[f].entry_point.0 < program.statements@.len());
        assert(wmap_at(w1, program.funcs@[f].entry_point.0 as int) == wmap_at(
            w2,
            program.funcs@[f].entry_point.0 as int,
        ));
    }
}

/// One branch of a zero-cost post-cost program: every constant cost
/// reduces to zero, alignments move nothing, and no gas is withdrawn.
pub open spec fn zero_branch_cost(
    ctx: &PostcostContext,
    program: &Program,
    table: &CostTable,
    i: int,
    j: int,
) -> bool {
    match branch_cost_at(program, table, i, j) {
        BranchCost::Regular { const_cost, pre_cost } => const_cost_value(const_cost) == 0,
        BranchCost::BranchAlign => ctx.ap_changes@[i] == 0,
        BranchCost::FunctionCall { const_cost, function } => const_cost_value(const_cost) == 0,
        BranchCost::WithdrawGas { const_cost, success, with_builtin_costs } => false,
        BranchCost::RedepositGas => true,
    }
}

/// All inputs of the post-cost pass are zero cost.
pub open spec fn zero_cost_inputs(ctx: &PostcostContext, program: &Program, table: &CostTable) -> bool {
    forall|i: int, j: int|
        0 <= i < program.statements@.len() && 0 <= j < stmt_branches(
            stmt_at(program, i),
        ).len() ==> #[trigger] zero_branch_cost(ctx, program, table, i, j)
}

/// The running maximum of all-zero `Const` values is zero.
proof fn lemma_scalar_fold_zero(ms: Seq<Map<CostTokenType, int>>)
    requires
        forall|k: int| 0 <= k < ms.len() ==> tok_val(#[trigger] ms[k], CostTokenType::Const) == 0,
    ensures
        scalar_max_fold(ms) == 0,
    decreases ms.len(),
{
    if ms.len() > 1 {
        assert forall|k: int|
            0 <= k < ms.drop_last().len() implies tok_val(
            #[trigger] ms.drop_last()[k],
            CostTokenType::Const,
        ) == 0 by {
            assert(ms.drop_last()[k] == ms[k]);
        }
        lemma_scalar_fold_zero(ms.drop_last());
    }
}

/// Under zero cost inputs, the post-cost pass assigns every statement a
/// zero wallet and every function an empty cost map; with neither
/// withdrawals nor multi-branch invocations present, it emits no
/// variables.
pub proof fn lemma_zero_costs_zero_results(
    ctx: &PostcostContext,
    w: Map<int, Map<CostTokenType, int>>,
    program: &Program,
    table: &CostTable,
    o: Seq<StatementIdx>,
)
    requires
        program_table_wf(program, table),
        valid_order(wallet_dep_graph(program, table), program.statements@.len() as int, o),
        wallet_fixpoint::<i32, PostcostContext>(ctx, w, program, table),
        zero_cost_inputs(ctx, program, table),
        forall|i: int|
            0 <= i < program.statements@.len() ==> stmt_branches(
                #[trigger] program.statements@[i],
            ).len() <= 1,
    ensures
        forall|i: int| 0 <= i < program.statements@.len() ==> #[trigger] wmap_at(w, i)
            == scalar_model(0),
        var_entries_upto::<i32, PostcostContext>(
            ctx,
            w,
            program,
            table,
            program.statements@.len() as int,
        ) == Seq::<((int, CostTokenType), int)>::empty(),
        forall|f: int|
            0 <= f < program.funcs@.len()
                ==> #[trigger] PostcostContext::spec_cost_map_model(
                wmap_at(w, program.funcs@[f].entry_point.0 as int),
            ) == Map::<CostTokenType, int>::empty(),
{
    let n = program.statements@.len() as int;
    let w0 = Map::new(|i: int| 0 <= i < n, |i: int| scalar_model(0));
    lemma_wallet_graph_wf(program, table);
    assert forall|i: int| #[trigger] w0.dom().contains(i) implies 0 <= i < n
        && crate::compute_costs::stmt_deps_in(program, table, i, w0) && w0[i]
        == stmt_wallet_model::<i32, PostcostContext>(ctx, w0, program, table, i) by {
        assert forall|kk: int|
            0 <= kk < stmt_deps(program, table, i).len() implies w0.dom().contains(
            (#[trigger] stmt_deps(program, table, i)[kk]).0 as int,
        ) by {
            assert(wallet_dep_graph(program, table)[i] == stmt_deps(program, table, i));
            assert((stmt_deps(program, table, i)[kk]).0 < n);
        }
        match stmt_at(program, i) {
            Statement::Return => {
                assert(w0[i] =~= <i32 as CostTypeTrait>::zero_model());
            },
            Statement::Invocation(inv) => {
                let reqs = Seq::new(
                    inv.branches@.len(),
                    |j: int| ctx.spec_branch_requirement(w0, program, table, i, j),
                );
                assert forall|j: int| 0 <= j < inv.branches@.len() implies tok_val(
                    #[trigger] reqs[j],
                    CostTokenType::Const,
                ) == 0 && reqs[j] == scalar_model(0) by {
                    assert(zero_branch_cost(ctx, program, table, i, j));
                    assert(stmt_targets_in(stmt_at(program, i), i, n));
                    assert(0 <= spec_next(
                        i,
                        (#[trigger] stmt_branches(stmt_at(program, i))[j]).target,
                    ) < n);
                    let tgt = branch_target_at(program, i, j);
                    assert(wmap_at(w0, tgt) == scalar_model(0));
                    match branch_cost_at(program, table, i, j) {
                        BranchCost::Regular { const_cost, pre_cost } => {
                            assert(reqs[j] =~= scalar_model(0));
                        },
                        BranchCost::BranchAlign => {
                            assert(crate::compute_costs::spec_align_cost(
                                ctx.ap_changes@[i] as int,
                            ) == 0);
                            assert(reqs[j] =~= scalar_model(0));
                        },
                        BranchCost::FunctionCall { const_cost, function } => {
                            assert(branch_cost_wf(branch_cost_at(program, table, i, j), n));
                            assert(wmap_at(w0, function.entry_point.0 as int) == scalar_model(
                                0,
                            ));
                            assert(reqs[j] =~= scalar_model(0));
                        },
                        BranchCost::WithdrawGas { const_cost, success, with_builtin_costs } => {
                            assert(false);
                        },
                        BranchCost::RedepositGas => {
                            assert(reqs[j] =~= scalar_model(0));
                        },
                    }
                }
                lemma_scalar_fold_zero(reqs);
                assert(w0[i] =~= scalar_model(scalar_max_fold(reqs)));
            },
        }
    }
    assert(wallet_fixpoint::<i32, PostcostContext>(ctx, w0, program, table));
    lemma_wallet_fixpoint_unique::<i32, PostcostContext>(ctx, w, w0, program, table, o);
    assert forall|i: int| 0 <= i < n implies #[trigger] wmap_at(w, i) == scalar_model(0) by {
        assert(wmap_at(w0, i) == scalar_model(0));
    }
    assert forall|i2: int, j: int|
        0 <= i2 < n && 0 <= j < stmt_branches(stmt_at(program, i2)).len() implies !is_wd_success(
        #[trigger] branch_cost_at(program, table, i2, j),
    ) by {
        assert(zero_branch_cost(ctx, program, table, i2, j));
    }
    lemma_no_emitters_no_variables::<i32, PostcostContext>(ctx, w, program, table, n);
    assert forall|f: int|
        0 <= f < program.funcs@.len() implies #[trigger] PostcostContext::spec_cost_map_model(
        wmap_at(w, program.funcs@[f].entry_point.0 as int),
    ) == Map::<CostTokenType, int>::empty() by {
        assert(program.funcs@[f].entry_point.0 < n);
        assert(wmap_at(w, program.funcs@[f].entry_point.0 as int) == scalar_model(0));
        assert(tok_val(scalar_model(0), CostTokenType::Const) == 0);
    }
}

/// A dependency cycle in the wallet graph forces the analysis to fail: no
/// run of it can both satisfy its contract and succeed, because success
/// comes with a dependency-respecting order, which a cycle rules out.
pub proof fn lemma_cycle_forces_failure(
    program: &Program,
    table: &CostTable,
    c: Seq<StatementIdx>,
    o: Seq<StatementIdx>,
)
    requires
        program_table_wf(program, table),
        crate::topological::is_cycle(
            wallet_dep_graph(program, table),
            program.statements@.len() as int,
            c,
        ),
    ensures
        !valid_order(wallet_dep_graph(program, table), program.statements@.len() as int, o),
{
    lemma_wallet_graph_wf(program, table);
    if valid_order(wallet_dep_graph(program, table), program.statements@.len() as int, o) {
        crate::topological::lemma_valid_order_acyclic(
            wallet_dep_graph(program, table),
            program.statements@.len() as int,
            o,
            c,
        );
    }
}

/// Every solved wallet is the branch merge its statement calls for: zero
/// at a return, and the per-token maximum of the branch requirements at an
/// invocation.
pub proof fn lemma_wallet_is_branch_merge<C: CostTypeTrait, S: SpecificCostContextTrait<C>>(
    ctx: &S,
    w: Map<int, Map<CostTokenType, int>>,
    program: &Program,
    table: &CostTable,
    i: int,
)
    requires
        wallet_fixpoint::<C, S>(ctx, w, program, table),
        0 <= i < program.statements@.len(),
    ensures
        stmt_at(program, i) is Return ==> wmap_at(w, i) == C::zero_model(),
        forall|inv: crate::program::Invocation|
            stmt_at(program, i) == Statement::Invocation(inv) ==> wmap_at(w, i) == C::max_model(
                Seq::new(
                    inv.branches@.len(),
                    |j: int| ctx.spec_branch_requirement(w, program, table, i, j),
                ),
            ),
{
    assert(w.dom().contains(i));
    assert(w[i] == stmt_wallet_model::<C, S>(ctx, w, program, table, i));
}

/// The produced variable map never writes one (statement, token) pair
/// twice.
pub proof fn lemma_variables_unique<C: CostTypeTrait, S: SpecificCostContextTrait<C>>(
    ctx: &S,
    costs: Seq<Option<WalletInfo<C>>>,
    program: &Program,
    table: &CostTable,
    gi: GasInfo,
)
    requires
        gas_info_matches::<C, S>(ctx, costs, program, table, gi),
    ensures
        forall|p: int, q: int|
            0 <= p < q < gi.variable_values.0@.len() ==> crate::gas_info::entry_key(
                #[trigger] gi.variable_values.0@[p],
            ) != crate::gas_info::entry_key(#[trigger] gi.variable_values.0@[q]),
{
}

/// Statement `u` has a branch that leads to `v` and is not the success
/// edge of a gas withdrawal.
pub open spec fn non_withdraw_edge(
    program: &Program,
    table: &CostTable,
    u: int,
    v: StatementIdx,
) -> bool {
    exists|j: int|
        0 <= j < stmt_branches(stmt_at(program, u)).len() && spec_next(
            u,
            (#[trigger] stmt_branches(stmt_at(program, u))[j]).target,
        ) == v.0 as int && !is_wd_success(branch_cost_at(program, table, u, j))
}

/// Edge `k` of `c` is a non-withdraw branch edge.
pub open spec fn cycle_non_withdraw_edge(
    program: &Program,
    table: &CostTable,
    c: Seq<StatementIdx>,
    k: int,
) -> bool {
    non_withdraw_edge(program, table, (c[k]).0 as int, c[k + 1])
}

/// A non-withdraw branch edge is a wallet dependency edge.
proof fn lemma_edge_in_deps(program: &Program, table: &CostTable, u: int, v: StatementIdx)
    requires
        program_table_wf(program, table),
        0 <= u < program.statements@.len(),
        non_withdraw_edge(program, table, u, v),
    ensures
        stmt_deps(program, table, u).contains(v),
{
    let n = program.statements@.len() as int;
    let j = choose|j: int|
        0 <= j < stmt_branches(stmt_at(program, u)).len() && spec_next(
            u,
            (#[trigger] stmt_branches(stmt_at(program, u))[j]).target,
        ) == v.0 as int && !is_wd_success(branch_cost_at(program, table, u, j));
    match stmt_at(program, u) {
        Statement::Return => {
            assert(false);
        },
        Statement::Invocation(inv) => {
            let nb = inv.branches@.len() as int;
            let bi = branch_info_at(program, u, j);
            let bc = branch_cost_at(program, table, u, j);
            let tgt = branch_dep_targets(u, bi, bc);
            assert(stmt_targets_in(stmt_at(program, u), u, n));
            assert(0 <= spec_next(u, (#[trigger] stmt_branches(stmt_at(program, u))[j]).target)
                < n);
            let next = spec_next(u, bi.target);
            assert(StatementIdx(next as usize) == v);
            lemma_branch_targets_in_deps(program, table, u, j, nb);
            let kk: int = match bc {
                BranchCost::FunctionCall { const_cost, function } => 1,
                _ => 0,
            };
            assert(tgt[kk] == v);
            assert(target_in_upto(program, table, u, j, nb, kk));
            let kd = choose|kd: int|
                0 <= kd < stmt_deps_upto(program, table, u, nb).len() && stmt_deps_upto(
                    program,
                    table,
                    u,
                    nb,
                )[kd] == branch_dep_targets(
                    u,
                    branch_info_at(program, u, j),
                    branch_cost_at(program, table, u, j),
                )[kk];
            assert(stmt_deps(program, table, u)[kd] == v);
        },
    }
}

/// A branch-target cycle none of whose edges is a successful withdrawal
/// is a cycle of the wallet dependency graph, so no dependency-respecting
/// order exists and the analysis must fail on such a program.
pub proof fn lemma_non_withdraw_cycle_forces_failure(
    program: &Program,
    table: &CostTable,
    c: Seq<StatementIdx>,
)
    requires
        program_table_wf(program, table),
        c.len() >= 1,
        forall|k: int| 0 <= k < c.len() ==> (#[trigger] c[k]).0 < program.statements@.len(),
        forall|k: int|
            0 <= k < c.len() - 1 ==> #[trigger] cycle_non_withdraw_edge(program, table, c, k),
        non_withdraw_edge(program, table, (c[c.len() - 1]).0 as int, c[0]),
    ensures
        crate::topological::is_cycle(
            wallet_dep_graph(program, table),
            program.statements@.len() as int,
            c,
        ),
        forall|o: Seq<StatementIdx>|
            !crate::topological::valid_order(
                wallet_dep_graph(program, table),
                program.statements@.len() as int,
                o,
            ),
{
    let n = program.statements@.len() as int;
    let g = wallet_dep_graph(program, table);
    assert forall|k: int| 0 <= k < c.len() - 1 implies #[trigger] crate::topological::cycle_edge(
        g,
        c,
        k,
    ) by {
        assert(cycle_non_withdraw_edge(program, table, c, k));
        lemma_edge_in_deps(program, table, (c[k]).0 as int, c[k + 1]);
        assert(g[(c[k]).0 as int] == stmt_deps(program, table, (c[k]).0 as int));
    }
    lemma_edge_in_deps(program, table, (c[c.len() - 1]).0 as int, c[0]);
    assert(g[(c[c.len() - 1]).0 as int] == stmt_deps(program, table, (c[c.len() - 1]).0 as int));
    assert(crate::topological::is_cycle(g, n, c));
    assert forall|o: Seq<StatementIdx>| !crate::topological::valid_order(g, n, o) by {
        lemma_cycle_forces_failure(program, table, c, o);
    }
}

/// Post-cost reruns on identical inputs produce identical content: the
/// same variable entry list and, for each function, the same identifier
/// and the same cost entry list.  A scalar wallet value is determined by
/// its token map, so here even the entry lists are pinned.
pub proof fn lemma_postcost_reruns_identical(
    ctx: &PostcostContext,
    program: &Program,
    table: &CostTable,
    o: Seq<StatementIdx>,
    costs1: Seq<Option<WalletInfo<i32>>>,
    costs2: Seq<Option<WalletInfo<i32>>>,
    gi1: GasInfo,
    gi2: GasInfo,
)
    requires
        program_table_wf(program, table),
        valid_order(wallet_dep_graph(program, table), program.statements@.len() as int, o),
        wallet_fixpoint::<i32, PostcostContext>(ctx, cache_model(costs1), program, table),
        wallet_fixpoint::<i32, PostcostContext>(ctx, cache_model(costs2), program, table),
        gas_info_matches::<i32, PostcostContext>(ctx, costs1, program, table, gi1),
        gas_info_matches::<i32, PostcostContext>(ctx, costs2, program, table, gi2),
    ensures
        gi1.variable_values.0@ == gi2.variable_values.0@,
        gi1.function_costs@.len() == gi2.function_costs@.len(),
        forall|f: int|
            0 <= f < gi1.function_costs@.len() ==> (#[trigger] gi1.function_costs@[f]).0
                == gi2.function_costs@[f].0 && gi1.function_costs@[f].1.0@
                == gi2.function_costs@[f].1.0@,
{
    let n = program.statements@.len() as int;
    let w1 = cache_model(costs1);
    let w2 = cache_model(costs2);
    lemma_compute_costs_deterministic::<i32, PostcostContext>(
        ctx,
        program,
        table,
        o,
        costs1,
        costs2,
        gi1,
        gi2,
    );
    lemma_wallet_fixpoint_unique::<i32, PostcostContext>(ctx, w1, w2, program, table, o);
    // The variable entry lists agree exactly: the spec-level view is
    // injective on the stored entries.
    let s1 = gi1.variable_values.0@;
    let s2 = gi2.variable_values.0@;
    assert forall|k: int| 0 <= k < s1.len() implies #[trigger] s1[k] == s2[k] by {
        assert(var_view(s1)[k] == var_view(s2)[k]);
        assert(var_view(s1)[k] == ((s1[k].0.0.0 as int, s1[k].0.1), s1[k].1 as int));
        assert(var_view(s2)[k] == ((s2[k].0.0.0 as int, s2[k].0.1), s2[k].1 as int));
        assert(s1[k].0.0.0 == s2[k].0.0.0);
        assert(s1[k].1 == s2[k].1);
    }
    assert(s1 =~= s2);
    // Each function's cost list is the entry list of its scalar wallet
    // value, which its token map determines.
    assert forall|f: int|
        0 <= f < gi1.function_costs@.len() implies (#[trigger] gi1.function_costs@[f]).0
        == gi2.function_costs@[f].0 && gi1.function_costs@[f].1.0@
        == gi2.function_costs@[f].1.0@ by {
        let e = program.funcs@[f].entry_point.0 as int;
        assert(fc_entry_pinned::<i32, PostcostContext>(costs1, gi1.function_costs@[f].1, e));
        assert(fc_entry_pinned::<i32, PostcostContext>(costs2, gi2.function_costs@[f].1, e));
        assert(program.funcs@[f].entry_point.0 < n);
        assert(wmap_at(w1, e) == wmap_at(w2, e));
        match costs1[e] {
            Option::Some(v1) => {
                match costs2[e] {
                    Option::Some(v2) => {
                        assert(w1[e] == cached_model(costs1, e));
                        assert(w2[e] == cached_model(costs2, e));
                        assert(scalar_model(v1.value as int)[CostTokenType::Const]
                            == scalar_model(v2.value as int)[CostTokenType::Const]);
                        assert(v1.value == v2.value);
                    },
                    Option::None => {
                        assert(false);
                    },
                }
            },
            Option::None => {
                assert(false);
            },
        }
    }
}

/// In the post-cost pass, the wallet at a call site covers the callee's
/// entry-point wallet plus the call's constant cost plus the wallet of the
/// return target.
pub proof fn lemma_function_call_cost(
    ctx: &PostcostContext,
    w: Map<int, Map<CostTokenType, int>>,
    program: &Program,
    table: &CostTable,
    i: int,
    j: int,
)
    requires
        program_table_wf(program, table),
        wallet_fixpoint::<i32, PostcostContext>(ctx, w, program, table),
        0 <= i < program.statements@.len(),
        stmt_at(program, i) is Invocation,
        0 <= j < stmt_branches(stmt_at(program, i)).len(),
        branch_cost_at(program, table, i, j) is FunctionCall,
    ensures
        forall|cc: crate::objects::ConstCost, func: crate::program::Function|
            branch_cost_at(program, table, i, j) == (BranchCost::FunctionCall {
                const_cost: cc,
                function: func,
            }) ==> tok_val(wmap_at(w, i), CostTokenType::Const) >= tok_val(
                wmap_at(w, func.entry_point.0 as int),
                CostTokenType::Const,
            ) + const_cost_value(cc) + tok_val(
                wmap_at(w, branch_target_at(program, i, j)),
                CostTokenType::Const,
            ),
{
    lemma_wallet_covers_branch_postcost(ctx, w, program, table, i, j);
    assert forall|cc: crate::objects::ConstCost, func: crate::program::Function|
        branch_cost_at(program, table, i, j) == (BranchCost::FunctionCall {
            const_cost: cc,
            function: func,
        }) implies tok_val(wmap_at(w, i), CostTokenType::Const) >= tok_val(
        wmap_at(w, func.entry_point.0 as int),
        CostTokenType::Const,
    ) + const_cost_value(cc) + tok_val(
        wmap_at(w, branch_target_at(program, i, j)),
        CostTokenType::Const,
    ) by {
        let req = ctx.spec_branch_requirement(w, program, table, i, j);
        let inner = crate::model::cost_add(
            wmap_at(w, func.entry_point.0 as int),
            scalar_model(const_cost_value(cc)),
        );
        assert(tok_val(inner, CostTokenType::Const) == tok_val(
            wmap_at(w, func.entry_point.0 as int),
            CostTokenType::Const,
        ) + const_cost_value(cc));
        assert(tok_val(req, CostTokenType::Const) == tok_val(inner, CostTokenType::Const)
            + tok_val(wmap_at(w, branch_target_at(program, i, j)), CostTokenType::Const));
    }
}

} // verus!

//! End-to-end scenarios for the gas-cost analysis.

use sierra_gas_costs::compute_costs::compute_costs;
use sierra_gas_costs::compute_costs::PostcostContext;
use sierra_gas_costs::compute_costs::PreCostContext;
use sierra_gas_costs::gas_info::CostError;
use sierra_gas_costs::gas_info::GasInfo;
use sierra_gas_costs::gas_info::TokenCosts;
use sierra_gas_costs::gas_info::VariableValues;
use sierra_gas_costs::objects::BranchCost;
use sierra_gas_costs::objects::ConstCost;
use sierra_gas_costs::objects::CostTable;
use sierra_gas_costs::objects::CostTokenType;
use sierra_gas_costs::objects::PreCost;
use sierra_gas_costs::program::BranchInfo;
use sierra_gas_costs::program::BranchTarget;
use sierra_gas_costs::program::Function;
use sierra_gas_costs::program::Invocation;
use sierra_gas_costs::program::Program;
use sierra_gas_costs::program::Statement;
use sierra_gas_costs::program::StatementIdx;

fn const_cost(steps: i32) -> ConstCost {
    ConstCost { steps, holes: 0, range_checks: 0 }
}

fn regular(steps: i32) -> BranchCost {
    BranchCost::Regular { const_cost: const_cost(steps), pre_cost: PreCost(vec![]) }
}

fn invocation(libfunc_id: usize, targets: Vec<BranchTarget>) -> Statement {
    Statement::Invocation(Invocation {
        libfunc_id,
        branches: targets.into_iter().map(|target| BranchInfo { target }).collect(),
    })
}

fn fallthrough() -> BranchTarget {
    BranchTarget::Fallthrough
}

fn jump(i: usize) -> BranchTarget {
    BranchTarget::Statement(StatementIdx(i))
}

fn run_pre(program: &Program, table: &CostTable) -> Result<GasInfo, CostError> {
    compute_costs(program, table, &PreCostContext {})
}

fn run_post(
    program: &Program,
    table: &CostTable,
    ap_changes: &Vec<usize>,
    precost: &GasInfo,
) -> Result<GasInfo, CostError> {
    compute_costs(
        program,
        table,
        &PostcostContext { ap_changes, precost_gas_info: precost },
    )
}

fn empty_vars() -> VariableValues {
    VariableValues(vec![])
}

/// One statement: a return.  Both passes yield empty variables and an
/// empty cost map for the function.
#[test]
fn trivial_return() {
    let program = Program {
        statements: vec![Statement::Return],
        funcs: vec![Function { id: 1, entry_point: StatementIdx(0) }],
    };
    let table = CostTable(vec![]);
    let pre = run_pre(&program, &table).unwrap();
    assert_eq!(pre.variable_values, empty_vars());
    assert_eq!(pre.function_costs, vec![(1, TokenCosts(vec![]))]);
    let post = run_post(&program, &table, &vec![0], &pre).unwrap();
    assert_eq!(post.variable_values, empty_vars());
    assert_eq!(post.function_costs, vec![(1, TokenCosts(vec![]))]);
}

/// A single-branch invocation of cost 5 before a return: no variables, and
/// the function costs 5 `Const`.
#[test]
fn linear_invocation() {
    let program = Program {
        statements: vec![invocation(0, vec![fallthrough()]), Statement::Return],
        funcs: vec![Function { id: 7, entry_point: StatementIdx(0) }],
    };
    let table = CostTable(vec![vec![regular(5)]]);
    let pre = run_pre(&program, &table).unwrap();
    assert_eq!(pre.variable_values, empty_vars());
    assert_eq!(pre.function_costs, vec![(7, TokenCosts(vec![]))]);
    let post = run_post(&program, &table, &vec![0, 0], &pre).unwrap();
    assert_eq!(post.variable_values, empty_vars());
    assert_eq!(post.function_costs, vec![(7, TokenCosts(vec![(CostTokenType::Const, 5)]))]);
}

/// A two-branch invocation with branch costs 3 and 7: the wallet is the
/// larger requirement, and each branch target receives the deduction
/// wallet minus requirement.
#[test]
fn two_branches() {
    let program = Program {
        statements: vec![
            invocation(0, vec![jump(1), jump(2)]),
            Statement::Return,
            Statement::Return,
        ],
        funcs: vec![Function { id: 3, entry_point: StatementIdx(0) }],
    };
    let table = CostTable(vec![vec![regular(3), regular(7)]]);
    let pre = run_pre(&program, &table).unwrap();
    let post = run_post(&program, &table, &vec![0, 0, 0], &pre).unwrap();
    assert_eq!(
        post.variable_values,
        VariableValues(vec![
            ((StatementIdx(1), CostTokenType::Const), 4),
            ((StatementIdx(2), CostTokenType::Const), 0),
        ])
    );
    assert_eq!(post.function_costs, vec![(3, TokenCosts(vec![(CostTokenType::Const, 7)]))]);
}

/// A successful withdrawal of constant cost 2 before an invocation of cost
/// 10: the withdrawal must supply the downstream cost plus its own, less
/// what the wallet already holds.
#[test]
fn withdraw_success() {
    let program = Program {
        statements: vec![
            invocation(0, vec![fallthrough()]),
            invocation(1, vec![fallthrough()]),
            Statement::Return,
        ],
        funcs: vec![Function { id: 9, entry_point: StatementIdx(0) }],
    };
    let table = CostTable(vec![
        vec![BranchCost::WithdrawGas {
            const_cost: const_cost(2),
            success: true,
            with_builtin_costs: false,
        }],
        vec![regular(10)],
    ]);
    let pre = run_pre(&program, &table).unwrap();
    let post = run_post(&program, &table, &vec![0, 0, 0], &pre).unwrap();
    // The wallet before the withdrawal is the withdrawal's own constant
    // cost (2); the future wallet is 10; the amount withdrawn is
    // 10 + 2 - 2 = 10, recorded at the withdrawing statement, with a zero
    // deduction at its successor.
    assert_eq!(
        post.variable_values,
        VariableValues(vec![
            ((StatementIdx(0), CostTokenType::Const), 10),
            ((StatementIdx(1), CostTokenType::Const), 0),
        ])
    );
    assert_eq!(post.function_costs, vec![(9, TokenCosts(vec![(CostTokenType::Const, 2)]))]);
}

/// The pre-cost pass emits one zero variable pair per builtin token at a
/// successful withdrawal, in token order.
#[test]
fn withdraw_success_precost_variables() {
    let program = Program {
        statements: vec![
            invocation(0, vec![fallthrough()]),
            invocation(1, vec![fallthrough()]),
            Statement::Return,
        ],
        funcs: vec![Function { id: 9, entry_point: StatementIdx(0) }],
    };
    let table = CostTable(vec![
        vec![BranchCost::WithdrawGas {
            const_cost: const_cost(2),
            success: true,
            with_builtin_costs: false,
        }],
        vec![regular(10)],
    ]);
    let pre = run_pre(&program, &table).unwrap();
    let tokens = [
        CostTokenType::Pedersen,
        CostTokenType::Poseidon,
        CostTokenType::Bitwise,
        CostTokenType::EcOp,
        CostTokenType::AddMod,
        CostTokenType::MulMod,
    ];
    let mut expected = vec![];
    for t in tokens {
        expected.push(((StatementIdx(0), t), 0));
        expected.push(((StatementIdx(1), t), 0));
    }
    assert_eq!(pre.variable_values, VariableValues(expected));
    assert_eq!(pre.function_costs, vec![(9, TokenCosts(vec![]))]);
}

/// A function call: the caller's wallet includes the callee's entry-point
/// wallet plus the call's constant cost.
#[test]
fn function_call() {
    let g = Function { id: 1, entry_point: StatementIdx(0) };
    let f = Function { id: 2, entry_point: StatementIdx(2) };
    let program = Program {
        statements: vec![
            invocation(0, vec![fallthrough()]),
            Statement::Return,
            invocation(1, vec![fallthrough()]),
            Statement::Return,
        ],
        funcs: vec![g, f],
    };
    let table = CostTable(vec![
        vec![regular(4)],
        vec![BranchCost::FunctionCall { const_cost: const_cost(1), function: g }],
    ]);
    let pre = run_pre(&program, &table).unwrap();
    let post = run_post(&program, &table, &vec![0, 0, 0, 0], &pre).unwrap();
    assert_eq!(post.variable_values, empty_vars());
    assert_eq!(
        post.function_costs,
        vec![
            (1, TokenCosts(vec![(CostTokenType::Const, 4)])),
            (2, TokenCosts(vec![(CostTokenType::Const, 5)])),
        ]
    );
}

/// A branch cycle without a successful withdrawal cannot be ordered: the
/// analysis reports the cycle.
#[test]
fn cycle_detected() {
    let program = Program {
        statements: vec![invocation(0, vec![jump(0)])],
        funcs: vec![],
    };
    let table = CostTable(vec![vec![regular(1)]]);
    assert_eq!(run_pre(&program, &table), Err(CostError::CycleDetected));
    let empty = GasInfo { variable_values: empty_vars(), function_costs: vec![] };
    assert_eq!(
        run_post(&program, &table, &vec![0], &empty),
        Err(CostError::CycleDetected)
    );
}

/// A loop closed by a successful withdrawal is fine for the wallet pass,
/// but the excess pass of the post-cost run follows the success edge too
/// and reports the cycle.
#[test]
fn withdraw_closed_loop() {
    let program = Program {
        statements: vec![
            invocation(0, vec![fallthrough()]),
            invocation(1, vec![jump(0)]),
        ],
        funcs: vec![Function { id: 4, entry_point: StatementIdx(0) }],
    };
    let table = CostTable(vec![
        vec![BranchCost::WithdrawGas {
            const_cost: const_cost(0),
            success: true,
            with_builtin_costs: false,
        }],
        vec![regular(1)],
    ]);
    let pre = run_pre(&program, &table).unwrap();
    assert_eq!(pre.function_costs, vec![(4, TokenCosts(vec![]))]);
    assert_eq!(
        run_post(&program, &table, &vec![0, 0], &pre),
        Err(CostError::CycleDetected)
    );
}

/// Withdrawing with builtin costs prices the computation steps of the
/// requested amounts: one pedersen unit costs 2 steps, two bitwise units
/// cost 3, plus 4 steps to fetch the cost table.
#[test]
fn withdraw_with_builtin_costs() {
    let program = Program {
        statements: vec![
            invocation(0, vec![fallthrough()]),
            invocation(1, vec![fallthrough()]),
            Statement::Return,
        ],
        funcs: vec![Function { id: 9, entry_point: StatementIdx(0) }],
    };
    let table = CostTable(vec![
        vec![BranchCost::WithdrawGas {
            const_cost: const_cost(2),
            success: true,
            with_builtin_costs: true,
        }],
        vec![regular(10)],
    ]);
    let precost_info = GasInfo {
        variable_values: VariableValues(vec![
            ((StatementIdx(0), CostTokenType::Pedersen), 1),
            ((StatementIdx(0), CostTokenType::Poseidon), 0),
            ((StatementIdx(0), CostTokenType::Bitwise), 2),
            ((StatementIdx(0), CostTokenType::EcOp), 0),
        ]),
        function_costs: vec![],
    };
    let post = run_post(&program, &table, &vec![0, 0, 0], &precost_info).unwrap();
    // Steps: 2 (one pedersen) + 3 (two bitwise) + 4 (table fetch) = 9, so
    // the withdrawal costs 2 + 9 = 11; the wallet before it is 11 and the
    // amount withdrawn is 10 + 11 - 11 = 10.
    assert_eq!(
        post.variable_values,
        VariableValues(vec![
            ((StatementIdx(0), CostTokenType::Const), 10),
            ((StatementIdx(1), CostTokenType::Const), 0),
        ])
    );
    assert_eq!(post.function_costs, vec![(9, TokenCosts(vec![(CostTokenType::Const, 11)]))]);
}

/// A branch alignment is free when the allocation pointer does not move,
/// and costs one step plus one hole per cell otherwise.
#[test]
fn branch_align_costs() {
    let program = Program {
        statements: vec![
            invocation(0, vec![jump(1), jump(3)]),
            invocation(1, vec![fallthrough()]),
            Statement::Return,
            invocation(1, vec![fallthrough()]),
            Statement::Return,
        ],
        funcs: vec![Function { id: 5, entry_point: StatementIdx(0) }],
    };
    let table = CostTable(vec![
        vec![regular(3), regular(3)],
        vec![BranchCost::BranchAlign],
    ]);
    let pre = run_pre(&program, &table).unwrap();
    // Alignment at statement 1 moves the pointer by 2 (1 step + 2 holes =
    // cost 3); at statement 3 it does not move (cost 0).
    let post = run_post(&program, &table, &vec![0, 2, 0, 0, 0], &pre).unwrap();
    assert_eq!(
        post.variable_values,
        VariableValues(vec![
            ((StatementIdx(1), CostTokenType::Const), 0),
            ((StatementIdx(3), CostTokenType::Const), 3),
        ])
    );
    assert_eq!(post.function_costs, vec![(5, TokenCosts(vec![(CostTokenType::Const, 6)]))]);
}

/// Running the analysis twice on identical inputs yields equal results.
#[test]
fn deterministic_reruns() {
    let program = Program {
        statements: vec![
            invocation(0, vec![jump(1), jump(2)]),
            Statement::Return,
            Statement::Return,
        ],
        funcs: vec![Function { id: 3, entry_point: StatementIdx(0) }],
    };
    let table = CostTable(vec![vec![regular(3), regular(7)]]);
    let pre1 = run_pre(&program, &table).unwrap();
    let pre2 = run_pre(&program, &table).unwrap();
    assert_eq!(pre1, pre2);
    let post1 = run_post(&program, &table, &vec![0, 0, 0], &pre1).unwrap();
    let post2 = run_post(&program, &table, &vec![0, 0, 0], &pre2).unwrap();
    assert_eq!(post1, post2);
}

/// The pre-cost pass: a branch's declared token requirement flows into the
/// function's entry cost.
#[test]
fn precost_tokens_flow_to_function_cost() {
    let program = Program {
        statements: vec![invocation(0, vec![fallthrough()]), Statement::Return],
        funcs: vec![Function { id: 6, entry_point: StatementIdx(0) }],
    };
    let table = CostTable(vec![vec![BranchCost::Regular {
        const_cost: const_cost(5),
        pre_cost: PreCost(vec![(CostTokenType::Pedersen, 2), (CostTokenType::EcOp, 1)]),
    }]]);
    let pre = run_pre(&program, &table).unwrap();
    assert_eq!(pre.variable_values, empty_vars());
    assert_eq!(
        pre.function_costs,
        vec![(6, TokenCosts(vec![(CostTokenType::Pedersen, 2), (CostTokenType::EcOp, 1)]))]
    );
}

/// The pre-cost pass merges two branches' token requirements per token and
/// emits the per-branch differences at the branch targets.
#[test]
fn precost_two_branches_union_max() {
    let program = Program {
        statements: vec![
            invocation(0, vec![jump(1), jump(2)]),
            Statement::Return,
            Statement::Return,
        ],
        funcs: vec![Function { id: 8, entry_point: StatementIdx(0) }],
    };
    let table = CostTable(vec![vec![
        BranchCost::Regular {
            const_cost: const_cost(0),
            pre_cost: PreCost(vec![(CostTokenType::Pedersen, 2)]),
        },
        BranchCost::Regular {
            const_cost: const_cost(0),
            pre_cost: PreCost(vec![(CostTokenType::Bitwise, 3)]),
        },
    ]]);
    let pre = run_pre(&program, &table).unwrap();
    // The wallet is {Pedersen: 2, Bitwise: 3}; each branch target receives
    // the wallet minus that branch's requirement, over all tokens.
    assert_eq!(
        pre.function_costs,
        vec![(8, TokenCosts(vec![(CostTokenType::Pedersen, 2), (CostTokenType::Bitwise, 3)]))]
    );
    let expected = vec![
        ((StatementIdx(1), CostTokenType::Pedersen), 0),
        ((StatementIdx(1), CostTokenType::Poseidon), 0),
        ((StatementIdx(1), CostTokenType::Bitwise), 3),
        ((StatementIdx(1), CostTokenType::EcOp), 0),
        ((StatementIdx(1), CostTokenType::AddMod), 0),
        ((StatementIdx(1), CostTokenType::MulMod), 0),
        ((StatementIdx(2), CostTokenType::Pedersen), 2),
        ((StatementIdx(2), CostTokenType::Poseidon), 0),
        ((StatementIdx(2), CostTokenType::Bitwise), 0),
        ((StatementIdx(2), CostTokenType::EcOp), 0),
        ((StatementIdx(2), CostTokenType::AddMod), 0),
        ((StatementIdx(2), CostTokenType::MulMod), 0),
    ];
    assert_eq!(pre.variable_values, VariableValues(expected));
}

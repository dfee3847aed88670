//! The analysed intermediate representation: a flat list of statements with
//! branch targets, and a list of functions with entry points.
//!
//! Only what the analysis reads is modelled: a statement is either a return
//! or an invocation of a libfunc with one outgoing branch per possible
//! continuation.

use vstd::prelude::*;

verus! {

/// The index of a statement in the program's statement list.
#[derive(Clone, Copy, Debug, Hash, PartialEq, Eq, Structural)]
pub struct StatementIdx(pub usize);

/// The destination of one outgoing branch of an invocation.
#[derive(Clone, Copy, Debug, PartialEq, Eq, Structural)]
pub enum BranchTarget {
    /// The statement right after the invocation.
    Fallthrough,
    /// An explicit statement index.
    Statement(StatementIdx),
}

/// One outgoing branch of an invocation.
#[derive(Clone, Copy, Debug, PartialEq, Eq, Structural)]
pub struct BranchInfo {
    pub target: BranchTarget,
}

/// The index of the statement a branch leads to, when taken from `idx`.
pub open spec fn spec_next(idx: int, target: BranchTarget) -> int {
    match target {
        BranchTarget::Fallthrough => idx + 1,
        BranchTarget::Statement(s) => s.0 as int,
    }
}

impl StatementIdx {
    /// The statement a branch with the given target leads to.
    pub fn next(&self, target: &BranchTarget) -> (r: StatementIdx)
        requires
            self.0 < usize::MAX,
        ensures
            r.0 == spec_next(self.0 as int, *target),
    {
        match target {
            BranchTarget::Fallthrough => StatementIdx(self.0 + 1),
            BranchTarget::Statement(s) => *s,
        }
    }
}

/// An invocation of the libfunc with the given identifier; the branches are
/// its possible continuations, one per entry of the libfunc's cost list.
#[derive(Clone, Debug, PartialEq, Eq)]
pub struct Invocation {
    /// Index of the invoked libfunc in the cost table.
    pub libfunc_id: usize,
    pub branches: Vec<BranchInfo>,
}

/// A single statement.
#[derive(Clone, Debug, PartialEq, Eq)]
pub enum Statement {
    Invocation(Invocation),
    Return,
}

/// A function of the program: an identifier and the statement at which a
/// call to it starts executing.
#[derive(Clone, Copy, Debug, PartialEq, Eq, Structural)]
pub struct Function {
    pub id: u64,
    pub entry_point: StatementIdx,
}

/// The outgoing branches of a statement: none for a return, the declared
/// branches for an invocation.
pub open spec fn stmt_branches(s: Statement) -> Seq<BranchInfo> {
    match s {
        Statement::Invocation(inv) => inv.branches@,
        Statement::Return => Seq::empty(),
    }
}

/// Every branch of statement `s`, sitting at index `i`, leads to a statement
/// index below `n`.
pub open spec fn stmt_targets_in(s: Statement, i: int, n: int) -> bool {
    forall|j: int|
        0 <= j < stmt_branches(s).len() ==> 0 <= spec_next(
            i,
            (#[trigger] stmt_branches(s)[j]).target,
        ) < n
}

/// A program: a flat statement list and the functions defined over it.
#[derive(Clone, Debug, PartialEq, Eq)]
pub struct Program {
    pub statements: Vec<Statement>,
    pub funcs: Vec<Function>,
}

impl Program {
    /// The statement at `idx`.
    pub fn get_statement(&self, idx: &StatementIdx) -> (r: &Statement)
        requires
            idx.0 < self.statements@.len(),
        ensures
            *r == self.statements@[idx.0 as int],
    {
        &self.statements[idx.0]
    }

    /// All branch targets lead to statements of the program, and function
    /// entry points do too.
    pub open spec fn wf(&self) -> bool {
        let n = self.statements@.len() as int;
        &&& n < usize::MAX
        &&& forall|i: int|
            0 <= i < n ==> stmt_targets_in(#[trigger] self.statements@[i], i, n)
        &&& forall|f: int|
            0 <= f < self.funcs@.len() ==> (#[trigger] self.funcs@[f]).entry_point.0 < n
    }
}

} // verus!

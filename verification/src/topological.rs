//! Reverse topological ordering of statements.
//!
//! Given the number of statements and one dependency list per statement,
//! produces an ordering in which every statement appears exactly once, after
//! all of its dependencies.  The walk is an iterative depth-first search, so
//! deeply nested programs cannot overflow the call stack.  A back edge is a
//! cycle, and is surfaced as [`CostError::CycleDetected`].

use vstd::prelude::*;

use crate::gas_info::CostError;
use crate::program::StatementIdx;

verus! {

/// Status of one statement during the depth-first walk.
#[derive(Clone, Copy, Debug, PartialEq, Eq, Structural)]
pub enum TopologicalOrderStatus {
    /// The statement was not visited yet.
    NotStarted,
    /// The statement is on the walk's stack.
    InProgress,
    /// The statement and all its dependencies were ordered.
    Done,
}

/// The dependency graph is well formed for `n` statements: one dependency
/// list per statement, and every dependency is a statement of the program.
pub open spec fn graph_wf(g: Seq<Seq<StatementIdx>>, n: int) -> bool {
    &&& g.len() == n
    &&& forall|i: int, j: int| 0 <= i < n && 0 <= j < g[i].len() ==> (#[trigger] g[i][j]).0 < n
}

/// The graph held by a vector of dependency lists.
pub open spec fn graph_view(deps: Seq<Vec<StatementIdx>>) -> Seq<Seq<StatementIdx>> {
    deps.map_values(|v: Vec<StatementIdx>| v@)
}

/// Some element of `o` strictly before position `k` equals `d`.
pub open spec fn placed_before(o: Seq<StatementIdx>, k: int, d: StatementIdx) -> bool {
    exists|m: int| 0 <= m < k && o[m] == d
}

/// Every dependency of the statement at position `k` of `o` is placed
/// strictly before `k`.
pub open spec fn deps_before(g: Seq<Seq<StatementIdx>>, o: Seq<StatementIdx>, k: int) -> bool {
    forall|j: int|
        0 <= j < g[o[k].0 as int].len() ==> placed_before(o, k, #[trigger] g[o[k].0 as int][j])
}

/// `o` is a reverse topological ordering of the `n` statements under graph
/// `g`: it lists every statement exactly once, each after all of its
/// dependencies.
pub open spec fn valid_order(g: Seq<Seq<StatementIdx>>, n: int, o: Seq<StatementIdx>) -> bool {
    &&& forall|k: int| 0 <= k < o.len() ==> (#[trigger] o[k]).0 < n
    &&& forall|k1: int, k2: int| 0 <= k1 < k2 < o.len() ==> o[k1] != o[k2]
    &&& forall|i: usize| i < n ==> o.contains(StatementIdx(i))
    &&& forall|k: int| 0 <= k < o.len() ==> deps_before(g, o, k)
}

/// The edge of a cycle from its `k`-th to its `k + 1`-th statement.
pub open spec fn cycle_edge(g: Seq<Seq<StatementIdx>>, c: Seq<StatementIdx>, k: int) -> bool {
    g[c[k].0 as int].contains(c[k + 1])
}

/// `c` is a dependency cycle in `g`: consecutive statements are linked by
/// dependency edges, and the last depends on the first.
pub open spec fn is_cycle(g: Seq<Seq<StatementIdx>>, n: int, c: Seq<StatementIdx>) -> bool {
    &&& c.len() >= 1
    &&& forall|k: int| 0 <= k < c.len() ==> (#[trigger] c[k]).0 < n
    &&& forall|k: int| 0 <= k < c.len() - 1 ==> #[trigger] cycle_edge(g, c, k)
    &&& g[c[c.len() - 1].0 as int].contains(c[0])
}

/// Some stack entry is for statement `d`.
pub open spec fn stack_holds(stack: Seq<(StatementIdx, usize)>, d: StatementIdx) -> bool {
    exists|k: int| 0 <= k < stack.len() && (#[trigger] stack[k]).0 == d
}

/// Entry `k + 1` of the stack is the dependency of entry `k` just before
/// entry `k`'s cursor.
pub open spec fn stack_link(
    g: Seq<Seq<StatementIdx>>,
    stack: Seq<(StatementIdx, usize)>,
    k: int,
) -> bool {
    &&& stack[k].1 >= 1
    &&& stack[k].1 - 1 < g[stack[k].0.0 as int].len()
    &&& g[stack[k].0.0 as int][stack[k].1 - 1] == stack[k + 1].0
}

/// All dependencies of the top entry's statement before its cursor are
/// done.
pub open spec fn top_children_done(
    g: Seq<Seq<StatementIdx>>,
    st: Seq<TopologicalOrderStatus>,
    stack: Seq<(StatementIdx, usize)>,
) -> bool {
    forall|j: int|
        0 <= j < stack.last().1 ==> st[(#[trigger] g[stack.last().0.0 as int][j]).0 as int]
            == TopologicalOrderStatus::Done
}

/// The invariant of the depth-first walk, relating statuses, the order
/// built so far, and the walk's explicit stack of (statement, next
/// dependency to visit) entries.
pub open spec fn dfs_inv(
    g: Seq<Seq<StatementIdx>>,
    n: int,
    st: Seq<TopologicalOrderStatus>,
    order: Seq<StatementIdx>,
    stack: Seq<(StatementIdx, usize)>,
) -> bool {
    &&& st.len() == n
    // Ordered statements are exactly those marked done, each listed once,
    // after all of their dependencies.
    &&& forall|k: int|
        0 <= k < order.len() ==> (#[trigger] order[k]).0 < n && st[order[k].0 as int]
            == TopologicalOrderStatus::Done
    &&& forall|k1: int, k2: int| 0 <= k1 < k2 < order.len() ==> order[k1] != order[k2]
    &&& forall|i: usize|
        i < n && st[i as int] == TopologicalOrderStatus::Done ==> order.contains(StatementIdx(i))
    &&& forall|k: int| 0 <= k < order.len() ==> deps_before(g, order, k)
    // Stacked statements are exactly those marked in-progress, each once.
    &&& forall|k: int|
        0 <= k < stack.len() ==> (#[trigger] stack[k]).0.0 < n && st[stack[k].0.0 as int]
            == TopologicalOrderStatus::InProgress && stack[k].1 <= g[stack[k].0.0 as int].len()
    &&& forall|k1: int, k2: int| 0 <= k1 < k2 < stack.len() ==> stack[k1].0 != stack[k2].0
    &&& forall|i: usize|
        i < n && st[i as int] == TopologicalOrderStatus::InProgress ==> stack_holds(
            stack,
            StatementIdx(i),
        )
    // Consecutive stack entries are linked by dependency edges, and each
    // entry's other visited dependencies are done.
    &&& forall|k: int| 0 <= k < stack.len() - 1 ==> #[trigger] stack_link(g, stack, k)
    &&& forall|k: int, j: int|
        0 <= k < stack.len() - 1 && 0 <= j < stack[k].1 - 1 ==> st[(#[trigger] g[stack[k].0.0 as int][j]).0 as int]
            == TopologicalOrderStatus::Done
    &&& stack.len() > 0 ==> top_children_done(g, st, stack)
}

/// Dependency-list work remaining on the stack, for termination.
pub open spec fn rem_work(g: Seq<Seq<StatementIdx>>, stack: Seq<(StatementIdx, usize)>) -> int
    decreases stack.len(),
{
    if stack.len() == 0 {
        0
    } else {
        rem_work(g, stack.drop_last()) + g[stack.last().0.0 as int].len() - stack.last().1 + 1
    }
}

/// Remaining work is non-negative while every cursor is within bounds.
proof fn lemma_rem_work_nonneg(g: Seq<Seq<StatementIdx>>, stack: Seq<(StatementIdx, usize)>)
    requires
        forall|k: int|
            0 <= k < stack.len() ==> (#[trigger] stack[k]).1 <= g[stack[k].0.0 as int].len(),
    ensures
        rem_work(g, stack) >= 0,
    decreases stack.len(),
{
    if stack.len() > 0 {
        assert(forall|k: int|
            0 <= k < stack.drop_last().len() ==> (#[trigger] stack.drop_last()[k]).1 <= g[stack.drop_last()[k].0.0 as int].len());
        lemma_rem_work_nonneg(g, stack.drop_last());
    }
}

/// Advancing the top cursor by one reduces the remaining work by one.
proof fn lemma_rem_work_step(
    g: Seq<Seq<StatementIdx>>,
    s2: Seq<(StatementIdx, usize)>,
    s1: Seq<(StatementIdx, usize)>,
)
    requires
        s1.len() > 0,
        s2.len() == s1.len(),
        s2.drop_last() == s1.drop_last(),
        s2.last().0 == s1.last().0,
        s2.last().1 == s1.last().1 + 1,
    ensures
        rem_work(g, s2) == rem_work(g, s1) - 1,
{
}

/// A duplicate-free sequence of statement indices below `n` has at most `n`
/// elements.
proof fn lemma_distinct_le(s: Seq<StatementIdx>, n: int)
    requires
        n >= 0,
        s.no_duplicates(),
        forall|k: int| 0 <= k < s.len() ==> (#[trigger] s[k]).0 < n,
    ensures
        s.len() <= n,
{
    let f = |d: StatementIdx| d.0 as int;
    let ints = s.map_values(f);
    assert(vstd::relations::injective(f)) by {
        assert forall|x: StatementIdx, y: StatementIdx| #[trigger] f(x) == #[trigger] f(y) implies x
            == y by {}
    }
    s.lemma_no_duplicates_injective(f);
    ints.unique_seq_to_set();
    assert(ints.to_set().subset_of(vstd::set_lib::set_int_range(0, n))) by {
        assert forall|x: int| ints.to_set().contains(x) implies vstd::set_lib::set_int_range(
            0,
            n,
        ).contains(x) by {
            let k = choose|k: int| 0 <= k < ints.len() && ints[k] == x;
            assert(ints[k] == f(s[k]));
        }
    }
    vstd::set_lib::lemma_int_range(0, n);
    vstd::set_lib::lemma_len_subset(ints.to_set(), vstd::set_lib::set_int_range(0, n));
}

/// The order and the stack together never hold more than `n` statements.
proof fn lemma_sizes(
    g: Seq<Seq<StatementIdx>>,
    n: int,
    st: Seq<TopologicalOrderStatus>,
    order: Seq<StatementIdx>,
    stack: Seq<(StatementIdx, usize)>,
)
    requires
        n >= 0,
        dfs_inv(g, n, st, order, stack),
    ensures
        order.len() + stack.len() <= n,
{
    let comb = order + stack.map_values(|e: (StatementIdx, usize)| e.0);
    assert forall|k1: int, k2: int| 0 <= k1 < k2 < comb.len() implies comb[k1] != comb[k2] by {
        if k1 < order.len() && k2 >= order.len() {
            assert(comb[k1] == order[k1]);
            assert(comb[k2] == stack[k2 - order.len()].0);
        } else if k1 >= order.len() {
            assert(comb[k1] == stack[k1 - order.len()].0);
            assert(comb[k2] == stack[k2 - order.len()].0);
        }
    }
    assert(comb.no_duplicates());
    assert forall|k: int| 0 <= k < comb.len() implies (#[trigger] comb[k]).0 < n by {
        if k >= order.len() {
            assert(comb[k] == stack[k - order.len()].0);
        }
    }
    lemma_distinct_le(comb, n);
}

/// If `d` is a dependency of `v`, then `d`'s position in a valid order is
/// strictly before `v`'s.
proof fn lemma_pos_decreases(
    g: Seq<Seq<StatementIdx>>,
    n: int,
    o: Seq<StatementIdx>,
    v: StatementIdx,
    d: StatementIdx,
    pv: int,
    pd: int,
)
    requires
        graph_wf(g, n),
        valid_order(g, n, o),
        0 <= pv < o.len(),
        0 <= pd < o.len(),
        o[pv] == v,
        o[pd] == d,
        v.0 < n,
        g[v.0 as int].contains(d),
    ensures
        pd < pv,
{
    let j = choose|j: int| 0 <= j < g[v.0 as int].len() && g[v.0 as int][j] == d;
    assert(deps_before(g, o, pv));
    assert(placed_before(o, pv, g[o[pv].0 as int][j]));
    let m = choose|m: int| 0 <= m < pv && o[m] == d;
    if m != pd {
        assert(o[m] == o[pd]);
        assert(false);
    }
}

/// Along a cycle, the position of the `k`-th statement is at least `k`
/// positions before the position of the first.
proof fn lemma_cycle_positions(
    g: Seq<Seq<StatementIdx>>,
    n: int,
    o: Seq<StatementIdx>,
    c: Seq<StatementIdx>,
    k: int,
    pos: spec_fn(StatementIdx) -> int,
)
    requires
        graph_wf(g, n),
        valid_order(g, n, o),
        is_cycle(g, n, c),
        0 <= k < c.len(),
        forall|m: int|
            0 <= m < c.len() ==> 0 <= #[trigger] pos(c[m]) < o.len() && o[pos(c[m])] == c[m],
        forall|m: int| 0 <= m < c.len() - 1 ==> #[trigger] pos(c[m + 1]) < pos(c[m]),
    ensures
        pos(c[k]) <= pos(c[0]) - k,
    decreases k,
{
    if k > 0 {
        lemma_cycle_positions(g, n, o, c, k - 1, pos);
        assert(pos(c[(k - 1) + 1]) < pos(c[k - 1]));
    }
}

/// No dependency cycle can exist where a reverse topological ordering does:
/// along the cycle, positions in the ordering would decrease forever.
pub proof fn lemma_valid_order_acyclic(
    g: Seq<Seq<StatementIdx>>,
    n: int,
    o: Seq<StatementIdx>,
    c: Seq<StatementIdx>,
)
    requires
        graph_wf(g, n),
        valid_order(g, n, o),
    ensures
        !is_cycle(g, n, c),
{
    if !is_cycle(g, n, c) {
        return;
    }
    let pos = |d: StatementIdx| choose|m: int| 0 <= m < o.len() && o[m] == d;
    assert forall|k: int| 0 <= k < c.len() implies 0 <= #[trigger] pos(c[k]) < o.len() && o[pos(
        c[k],
    )] == c[k] by {
        assert(o.contains(StatementIdx(c[k].0)));
        assert(StatementIdx(c[k].0) == c[k]);
        let m = choose|m: int| 0 <= m < o.len() && o[m] == c[k];
        assert(o[pos(c[k])] == c[k]);
    }
    assert forall|m: int| 0 <= m < c.len() - 1 implies #[trigger] pos(c[m + 1]) < pos(c[m]) by {
        assert(cycle_edge(g, c, m));
        lemma_pos_decreases(g, n, o, c[m], c[m + 1], pos(c[m]), pos(c[m + 1]));
    }
    lemma_cycle_positions(g, n, o, c, c.len() - 1, pos);
    // The last statement of the cycle depends on the first, so the first
    // sits strictly before it; yet it also sits `c.len() - 1` positions
    // after it.
    let last = c[c.len() - 1];
    lemma_pos_decreases(g, n, o, last, c[0], pos(last), pos(c[0]));
}

/// Computes a reverse topological ordering of the `n_statements` statements
/// whose dependency lists are given by `deps`: every statement appears
/// exactly once, after all of its dependencies.  Fails if and only if the
/// dependency graph has a cycle.
pub fn compute_topological_order(
    n_statements: usize,
    deps: &Vec<Vec<StatementIdx>>,
) -> (r: Result<Vec<StatementIdx>, CostError>)
    requires
        graph_wf(graph_view(deps@), n_statements as int),
    ensures
        match r {
            Ok(o) => valid_order(graph_view(deps@), n_statements as int, o@),
            Err(e) => e == CostError::CycleDetected && exists|c: Seq<StatementIdx>|
                is_cycle(graph_view(deps@), n_statements as int, c),
        },
{
    let n = n_statements;
    let ghost g = graph_view(deps@);
    proof {
        assert(forall|x: int| 0 <= x < g.len() ==> g[x] == (#[trigger] deps@[x])@);
    }
    let mut status: Vec<TopologicalOrderStatus> = Vec::new();
    let mut i: usize = 0;
    while i < n
        invariant
            i <= n,
            status@.len() == i,
            forall|k: int| 0 <= k < i ==> status@[k] == TopologicalOrderStatus::NotStarted,
        decreases n - i,
    {
        status.push(TopologicalOrderStatus::NotStarted);
        i = i + 1;
    }
    let mut order: Vec<StatementIdx> = Vec::new();
    let mut root: usize = 0;
    while root < n
        invariant
            root <= n,
            n == n_statements,
            g == graph_view(deps@),
            forall|x: int| 0 <= x < g.len() ==> g[x] == (#[trigger] deps@[x])@,
            graph_wf(g, n as int),
            dfs_inv(g, n as int, status@, order@, Seq::empty()),
            forall|i: int| 0 <= i < root ==> status@[i] == TopologicalOrderStatus::Done,
        decreases n - root,
    {
        if status[root] == TopologicalOrderStatus::NotStarted {
            let mut stack: Vec<(StatementIdx, usize)> = Vec::new();
            status.set(root, TopologicalOrderStatus::InProgress);
            stack.push((StatementIdx(root), 0));
            proof {
                assert(stack@[0].0 == StatementIdx(root));
                assert forall|i: usize|
                    i < n && status@[i as int] == TopologicalOrderStatus::InProgress
                    implies stack_holds(stack@, StatementIdx(i)) by {
                    assert(i == root);
                    assert(stack@[0].0 == StatementIdx(i));
                }
            }
            while stack.len() > 0
                invariant
                    n == n_statements,
                    g == graph_view(deps@),
            forall|x: int| 0 <= x < g.len() ==> g[x] == (#[trigger] deps@[x])@,
                    graph_wf(g, n as int),
                    dfs_inv(g, n as int, status@, order@, stack@),
                    root < n,
                    status@[root as int] != TopologicalOrderStatus::NotStarted,
                    forall|i: int| 0 <= i < root ==> status@[i] == TopologicalOrderStatus::Done,
                decreases n - order@.len() - stack@.len(), rem_work(g, stack@),
            {
                let ghost st0 = status@;
                let ghost stack0 = stack@;
                let ghost order0 = order@;
                let top = stack.len() - 1;
                let (v, cursor) = stack[top];
                if cursor < deps[v.0].len() {
                    let d = deps[v.0][cursor];
                    stack.set(top, (v, cursor + 1));
                    proof {
                        assert(stack@.drop_last() == stack0.drop_last());
                        assert forall|k: int| 0 <= k < stack@.len() - 1 implies #[trigger] stack_link(
                            g,
                            stack@,
                            k,
                        ) by {
                            assert(stack_link(g, stack0, k));
                            assert(stack@[k] == stack0[k]);
                            assert(stack@[k + 1].0 == stack0[k + 1].0);
                        }
                    }
                    if status[d.0] == TopologicalOrderStatus::Done {
                        proof {
                            assert forall|k: int| 0 <= k < stack@.len() implies (
                            #[trigger] stack@[k]).0 == stack0[k].0 by {}
                            assert forall|i: usize|
                                i < n && status@[i as int] == TopologicalOrderStatus::InProgress
                                implies stack_holds(stack@, StatementIdx(i)) by {
                                assert(stack_holds(stack0, StatementIdx(i)));
                                let k = choose|k: int|
                                    0 <= k < stack0.len() && (#[trigger] stack0[k]).0
                                        == StatementIdx(i);
                                assert(stack@[k].0 == StatementIdx(i));
                            }
                            assert forall|j: int| 0 <= j < stack@.last().1 implies status@[(
                            #[trigger] g[stack@.last().0.0 as int][j]).0 as int]
                                == TopologicalOrderStatus::Done by {
                                assert(stack@.last() == (v, (cursor + 1) as usize));
                                if j < cursor {
                                    assert(top_children_done(g, st0, stack0));
                                    assert(stack0.last() == (v, cursor));
                                } else {
                                    assert(g[stack@.last().0.0 as int][j] == d);
                                }
                            }
                            lemma_rem_work_step(g, stack@, stack0);
                            lemma_sizes(g, n as int, status@, order@, stack@);
                            lemma_rem_work_nonneg(g, stack@);
                        }
                    } else if status[d.0] == TopologicalOrderStatus::InProgress {
                        proof {
                            assert(stack_holds(stack0, d));
                            let p = choose|k: int|
                                0 <= k < stack0.len() && (#[trigger] stack0[k]).0 == d;
                            let c = Seq::new(
                                (stack0.len() - p) as nat,
                                |k: int| stack0[p + k].0,
                            );
                            assert forall|k: int| 0 <= k < c.len() - 1 implies #[trigger] cycle_edge(
                                g,
                                c,
                                k,
                            ) by {
                                assert(stack_link(g, stack0, p + k));
                                assert(c[k] == stack0[p + k].0);
                                assert(c[k + 1] == stack0[p + k + 1].0);
                                assert(g[c[k].0 as int][stack0[p + k].1 - 1] == c[k + 1]);
                            }
                            assert(c[c.len() - 1] == stack0[stack0.len() - 1].0);
                            assert(stack0[stack0.len() - 1] == (v, cursor));
                            assert(g[v.0 as int][cursor as int] == d);
                            assert(g[v.0 as int].contains(d));
                            assert(c[0] == d);
                            assert(is_cycle(g, n as int, c));
                        }
                        return Err(CostError::CycleDetected);
                    } else {
                        status.set(d.0, TopologicalOrderStatus::InProgress);
                        stack.push((d, 0));
                        proof {
                            let ghost s2 = stack@;
                            assert(s2.drop_last().drop_last() == stack0.drop_last());
                            assert forall|k: int| 0 <= k < s2.len() - 1 implies #[trigger] stack_link(
                                g,
                                s2,
                                k,
                            ) by {
                                if k < s2.len() - 2 {
                                    assert(stack_link(g, stack0, k));
                                    assert(s2[k] == stack0[k]);
                                    assert(s2[k + 1].0 == stack0[k + 1].0);
                                } else {
                                    assert(s2[k] == (v, (cursor + 1) as usize));
                                    assert(g[v.0 as int][cursor as int] == d);
                                    assert(s2[k + 1].0 == d);
                                }
                            }
                            assert forall|i: usize|
                                i < n && status@[i as int] == TopologicalOrderStatus::InProgress
                                implies stack_holds(s2, StatementIdx(i)) by {
                                if i == d.0 {
                                    assert(s2[s2.len() - 1].0 == StatementIdx(i));
                                } else {
                                    assert(st0[i as int] == TopologicalOrderStatus::InProgress);
                                    assert(stack_holds(stack0, StatementIdx(i)));
                                    let k = choose|k: int|
                                        0 <= k < stack0.len() && (#[trigger] stack0[k]).0
                                            == StatementIdx(i);
                                    assert(s2[k].0 == StatementIdx(i));
                                }
                            }
                            assert forall|k: int, j: int|
                                0 <= k < s2.len() - 1 && 0 <= j < s2[k].1 - 1 implies status@[(
                            #[trigger] g[s2[k].0.0 as int][j]).0 as int]
                                == TopologicalOrderStatus::Done by {
                                if k < s2.len() - 2 {
                                    assert(s2[k] == stack0[k]);
                                    assert(st0[g[s2[k].0.0 as int][j].0 as int]
                                        == TopologicalOrderStatus::Done);
                                    assert(g[s2[k].0.0 as int][j].0 != d.0);
                                } else {
                                    assert(s2[k] == (v, (cursor + 1) as usize));
                                    assert(top_children_done(g, st0, stack0));
                                    assert(stack0.last() == (v, cursor));
                                    assert(st0[g[v.0 as int][j].0 as int]
                                        == TopologicalOrderStatus::Done);
                                    assert(g[v.0 as int][j].0 != d.0);
                                }
                            }
                            lemma_sizes(g, n as int, status@, order@, stack@);
                            lemma_rem_work_nonneg(g, stack@);
                        }
                    }
                } else {
                    let _popped = stack.pop();
                    status.set(v.0, TopologicalOrderStatus::Done);
                    order.push(v);
                    proof {
                        assert(stack@ == stack0.drop_last());
                        let o2 = order@;
                        // The new order entry has all its dependencies done
                        // and therefore already placed; older entries keep
                        // their placements.
                        assert forall|k: int| 0 <= k < o2.len() implies deps_before(g, o2, k) by {
                            if k < o2.len() - 1 {
                                assert(deps_before(g, order0, k));
                                assert(o2[k] == order0[k]);
                                assert forall|j: int|
                                    0 <= j < g[o2[k].0 as int].len() implies placed_before(
                                    o2,
                                    k,
                                    #[trigger] g[o2[k].0 as int][j],
                                ) by {
                                    assert(placed_before(order0, k, g[o2[k].0 as int][j]));
                                    let m = choose|m: int|
                                        0 <= m < k && order0[m] == g[o2[k].0 as int][j];
                                    assert(o2[m] == g[o2[k].0 as int][j]);
                                }
                            } else {
                                assert(o2[k] == v);
                                assert(top_children_done(g, st0, stack0));
                                assert(stack0.last() == (v, cursor));
                                assert forall|j: int|
                                    0 <= j < g[v.0 as int].len() implies placed_before(
                                    o2,
                                    k,
                                    #[trigger] g[v.0 as int][j],
                                ) by {
                                    let dd = g[v.0 as int][j];
                                    assert(st0[dd.0 as int] == TopologicalOrderStatus::Done);
                                    assert(order0.contains(StatementIdx(dd.0)));
                                    let m = choose|m: int|
                                        0 <= m < order0.len() && order0[m] == StatementIdx(dd.0);
                                    assert(o2[m] == dd);
                                }
                            }
                        }
                        // Done statements are all placed in the new order.
                        assert forall|i: usize|
                            i < n && status@[i as int] == TopologicalOrderStatus::Done
                            implies o2.contains(StatementIdx(i)) by {
                            if i == v.0 {
                                assert(o2[o2.len() - 1] == StatementIdx(i));
                            } else {
                                assert(st0[i as int] == TopologicalOrderStatus::Done);
                                assert(order0.contains(StatementIdx(i)));
                                let m = choose|m: int|
                                    0 <= m < order0.len() && order0[m] == StatementIdx(i);
                                assert(o2[m] == StatementIdx(i));
                            }
                        }
                        // In-progress statements are all still stacked.
                        assert forall|i: usize|
                            i < n && status@[i as int] == TopologicalOrderStatus::InProgress
                            implies stack_holds(stack@, StatementIdx(i)) by {
                            assert(st0[i as int] == TopologicalOrderStatus::InProgress);
                            assert(stack_holds(stack0, StatementIdx(i)));
                            let k = choose|k: int|
                                0 <= k < stack0.len() && (#[trigger] stack0[k]).0 == StatementIdx(
                                    i,
                                );
                            assert(k < stack0.len() - 1);
                            assert(stack@[k].0 == StatementIdx(i));
                        }
                        // The statement under the popped one sees its just
                        // finished dependency done, and all earlier ones
                        // stay done.
                        if stack@.len() > 0 {
                            assert(stack_link(g, stack0, stack0.len() - 2));
                            assert forall|j: int| 0 <= j < stack@.last().1 implies status@[(
                            #[trigger] g[stack@.last().0.0 as int][j]).0 as int]
                                == TopologicalOrderStatus::Done by {
                                assert(stack@.last() == stack0[stack0.len() - 2]);
                                if j < stack@.last().1 - 1 {
                                    assert(st0[g[stack0[stack0.len() - 2].0.0 as int][j].0 as int]
                                        == TopologicalOrderStatus::Done);
                                } else {
                                    assert(g[stack@.last().0.0 as int][j] == v);
                                }
                            }
                            assert forall|k: int| 0 <= k < stack@.len() - 1 implies #[trigger] stack_link(
                                g,
                                stack@,
                                k,
                            ) by {
                                assert(stack_link(g, stack0, k));
                                assert(stack@[k] == stack0[k]);
                                assert(stack@[k + 1].0 == stack0[k + 1].0);
                            }
                        }
                        lemma_sizes(g, n as int, status@, order@, stack@);
                        lemma_rem_work_nonneg(g, stack@);
                    }
                }
            }
            proof {
                assert(stack@ =~= Seq::<(StatementIdx, usize)>::empty());
                if status@[root as int] == TopologicalOrderStatus::InProgress {
                    assert(stack_holds(stack@, StatementIdx(root)));
                    assert(false);
                }
            }
        } else {
            proof {
                if status@[root as int] == TopologicalOrderStatus::InProgress {
                    assert(stack_holds(Seq::<(StatementIdx, usize)>::empty(), StatementIdx(root)));
                    assert(false);
                }
            }
        }
        root = root + 1;
    }
    proof {
        assert forall|i: usize| i < n implies order@.contains(StatementIdx(i)) by {
            assert(status@[i as int] == TopologicalOrderStatus::Done);
        }
    }
    Ok(order)
}

} // verus!

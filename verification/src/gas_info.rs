//! The analysis result: emitted cost variables and per-function entry costs,
//! plus the single structured analysis error.

use vstd::prelude::*;

use crate::objects::CostTokenType;
use crate::program::StatementIdx;

verus! {

/// The analysis failed; the caller may fall back to an equation solver.
#[derive(Clone, Copy, Debug, PartialEq, Eq, Structural)]
pub enum CostError {
    /// The statement dependency graph contains a cycle, so no topological
    /// ordering exists.
    CycleDetected,
}

/// A token-keyed map of 64-bit amounts, kept as a key-unique association
/// list in insertion order.
#[derive(Clone, Debug, PartialEq, Eq)]
pub struct TokenCosts(pub Vec<(CostTokenType, i64)>);

/// The keys of a token association list, in order.
pub open spec fn token_keys(s: Seq<(CostTokenType, i64)>) -> Seq<CostTokenType> {
    s.map_values(|p: (CostTokenType, i64)| p.0)
}

/// The map denoted by a key-unique token association list.
pub open spec fn token_costs_model(s: Seq<(CostTokenType, i64)>) -> Map<CostTokenType, int>
    decreases s.len(),
{
    if s.len() == 0 {
        Map::empty()
    } else {
        token_costs_model(s.drop_last()).insert(s.last().0, s.last().1 as int)
    }
}

impl TokenCosts {
    /// The token map this value denotes.
    pub open spec fn model(&self) -> Map<CostTokenType, int> {
        token_costs_model(self.0@)
    }

    /// Well-formed: no token appears twice.
    pub open spec fn wf(&self) -> bool {
        forall|i: int, j: int|
            0 <= i < j < self.0@.len() ==> (#[trigger] self.0@[i]).0 != (#[trigger] self.0@[j]).0
    }
}

/// The model's key set is the listed keys, and each listed entry gives the
/// model's value for its key, provided the keys are unique.
pub proof fn lemma_token_costs_model(s: Seq<(CostTokenType, i64)>)
    requires
        forall|i: int, j: int| 0 <= i < j < s.len() ==> (#[trigger] s[i]).0 != (#[trigger] s[j]).0,
    ensures
        forall|t: CostTokenType|
            token_costs_model(s).dom().contains(t) <==> token_keys(s).contains(t),
        forall|i: int|
            0 <= i < s.len() ==> token_costs_model(s).dom().contains((#[trigger] s[i]).0)
                && token_costs_model(s)[s[i].0] == s[i].1 as int,
    decreases s.len(),
{
    if s.len() > 0 {
        lemma_token_costs_model(s.drop_last());
        assert forall|t: CostTokenType|
            token_costs_model(s).dom().contains(t) <==> token_keys(s).contains(t) by {
            if token_keys(s).contains(t) {
                let i = choose|i: int| 0 <= i < token_keys(s).len() && token_keys(s)[i] == t;
                if i < s.len() - 1 {
                    assert(token_keys(s.drop_last())[i] == t);
                    assert(token_keys(s.drop_last()).contains(t));
                }
            }
            if token_costs_model(s.drop_last()).dom().contains(t) {
                assert(token_keys(s.drop_last()).contains(t));
                let i = choose|i: int|
                    0 <= i < token_keys(s.drop_last()).len() && token_keys(s.drop_last())[i] == t;
                assert(s.drop_last()[i] == s[i]);
                assert(token_keys(s)[i] == t);
                assert(token_keys(s).contains(t));
            }
            assert(token_keys(s)[s.len() - 1] == s.last().0);
        }
        assert forall|i: int|
            0 <= i < s.len() implies token_costs_model(s).dom().contains((#[trigger] s[i]).0)
            && token_costs_model(s)[s[i].0] == s[i].1 as int by {
            if i < s.len() - 1 {
                assert(s.drop_last()[i] == s[i]);
                assert(s[i].0 != s.last().0);
            }
        }
    }
}

/// The key under which a cost variable is recorded: the statement it is
/// emitted at, and the token it prices.
pub open spec fn var_key(idx: int, t: CostTokenType) -> (int, CostTokenType) {
    (idx, t)
}

/// The variables the analysis emits: a map from statement index and token
/// type to a 64-bit amount, kept as a key-unique association list in
/// insertion order.  Inserting the same key twice is a programmer error and
/// is ruled out by `insert`'s precondition.
#[derive(Clone, Debug, PartialEq, Eq)]
pub struct VariableValues(pub Vec<((StatementIdx, CostTokenType), i64)>);

/// The map denoted by a key-unique variable association list.
pub open spec fn var_values_model(s: Seq<((StatementIdx, CostTokenType), i64)>) -> Map<
    (int, CostTokenType),
    int,
>
    decreases s.len(),
{
    if s.len() == 0 {
        Map::empty()
    } else {
        var_values_model(s.drop_last()).insert(
            (s.last().0.0.0 as int, s.last().0.1),
            s.last().1 as int,
        )
    }
}

/// The spec-level key of one stored entry.
pub open spec fn entry_key(p: ((StatementIdx, CostTokenType), i64)) -> (int, CostTokenType) {
    (p.0.0.0 as int, p.0.1)
}

impl VariableValues {
    /// The variable map this value denotes.
    pub open spec fn model(&self) -> Map<(int, CostTokenType), int> {
        var_values_model(self.0@)
    }

    /// Well-formed: no (statement, token) pair appears twice.
    pub open spec fn wf(&self) -> bool {
        forall|i: int, j: int|
            0 <= i < j < self.0@.len() ==> entry_key(#[trigger] self.0@[i]) != entry_key(
                #[trigger] self.0@[j],
            )
    }

    /// The empty variable map.
    pub fn new() -> (r: VariableValues)
        ensures
            r.wf(),
            r.model() == Map::<(int, CostTokenType), int>::empty(),
            r.0@.len() == 0,
    {
        VariableValues(Vec::new())
    }

    /// Records a variable.  The key must not have been recorded before.
    pub fn insert(&mut self, idx: StatementIdx, token: CostTokenType, value: i64)
        requires
            old(self).wf(),
            !old(self).model().dom().contains(var_key(idx.0 as int, token)),
        ensures
            final(self).wf(),
            final(self).model() == old(self).model().insert(
                var_key(idx.0 as int, token),
                value as int,
            ),
            final(self).0@ == old(self).0@.push(((idx, token), value)),
    {
        proof {
            lemma_var_values_model(self.0@);
        }
        self.0.push(((idx, token), value));
        proof {
            assert(self.0@.drop_last() == old(self).0@);
        }
    }

    /// Looks a variable up.
    pub fn get(&self, idx: StatementIdx, token: CostTokenType) -> (r: Option<i64>)
        requires
            self.wf(),
        ensures
            match r {
                Some(v) => self.model().dom().contains(var_key(idx.0 as int, token))
                    && v as int == self.model()[var_key(idx.0 as int, token)],
                None => !self.model().dom().contains(var_key(idx.0 as int, token)),
            },
    {
        proof {
            lemma_var_values_model(self.0@);
        }
        let n = self.0.len();
        let mut i: usize = 0;
        while i < n
            invariant
                n == self.0@.len(),
                0 <= i <= n,
                self.wf(),
                forall|j: int|
                    0 <= j < i ==> entry_key(#[trigger] self.0@[j]) != var_key(
                        idx.0 as int,
                        token,
                    ),
                forall|j: int|
                    0 <= j < self.0@.len() ==> self.model().dom().contains(entry_key(
                        #[trigger] self.0@[j],
                    )) && self.model()[entry_key(self.0@[j])] == self.0@[j].1 as int,
                forall|k: (int, CostTokenType)|
                    self.model().dom().contains(k) ==> exists|j: int|
                        0 <= j < self.0@.len() && entry_key(#[trigger] self.0@[j]) == k,
            decreases n - i,
        {
            let e = self.0[i];
            if e.0.0.0 == idx.0 && e.0.1 == token {
                return Some(e.1);
            }
            i = i + 1;
        }
        return None;
    }
}

/// Every listed entry is in the model at its value; every model key has a
/// listed entry; key-unique lists only.
pub proof fn lemma_var_values_model(s: Seq<((StatementIdx, CostTokenType), i64)>)
    requires
        forall|i: int, j: int|
            0 <= i < j < s.len() ==> entry_key(#[trigger] s[i]) != entry_key(#[trigger] s[j]),
    ensures
        forall|i: int|
            0 <= i < s.len() ==> var_values_model(s).dom().contains(entry_key(#[trigger] s[i]))
                && var_values_model(s)[entry_key(s[i])] == s[i].1 as int,
        forall|k: (int, CostTokenType)|
            var_values_model(s).dom().contains(k) ==> exists|j: int|
                0 <= j < s.len() && entry_key(#[trigger] s[j]) == k,
    decreases s.len(),
{
    if s.len() > 0 {
        lemma_var_values_model(s.drop_last());
        assert forall|i: int|
            0 <= i < s.len() implies var_values_model(s).dom().contains(entry_key(#[trigger] s[i]))
            && var_values_model(s)[entry_key(s[i])] == s[i].1 as int by {
            if i < s.len() - 1 {
                assert(s.drop_last()[i] == s[i]);
                assert(entry_key(s[i]) != entry_key(s[s.len() - 1]));
            }
        }
        assert forall|k: (int, CostTokenType)|
            var_values_model(s).dom().contains(k) implies exists|j: int|
            0 <= j < s.len() && entry_key(#[trigger] s[j]) == k by {
            if k != entry_key(s[s.len() - 1]) {
                assert(var_values_model(s) == var_values_model(s.drop_last()).insert(
                    entry_key(s[s.len() - 1]),
                    s[s.len() - 1].1 as int,
                ));
                assert(var_values_model(s.drop_last()).dom().contains(k));
                let j = choose|j: int|
                    0 <= j < s.drop_last().len() && entry_key(#[trigger] s.drop_last()[j]) == k;
                assert(s.drop_last()[j] == s[j]);
                assert(entry_key(s[j]) == k);
            }
        }
    }
}

/// The full output of one analysis run.
#[derive(Clone, Debug, PartialEq, Eq)]
pub struct GasInfo {
    /// The emitted cost variables.
    pub variable_values: VariableValues,
    /// For each function, the token-keyed cost of its entry point, in
    /// declaration order.
    pub function_costs: Vec<(u64, TokenCosts)>,
}

} // verus!

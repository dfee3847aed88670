//! The cost algebra: a common interface over the scalar post-cost domain
//! (`i32`, carrying only the `Const` token) and the multi-token pre-cost
//! domain ([`PreCost`]).
//!
//! Every operation's contract is stated over the token-map model of
//! [`crate::model`].

use vstd::prelude::*;

use crate::model::cost_add;
use crate::model::cost_in_i32;
use crate::model::cost_max2;
use crate::model::cost_max_seq;
use crate::model::cost_min2;
use crate::model::cost_rect;
use crate::model::cost_sub;
use crate::model::tok_val;
use crate::objects::entries_model;
use crate::objects::entry_keys;
use crate::objects::lemma_entries_model;
use crate::objects::CostTokenType;
use crate::objects::PreCost;

verus! {

/// The cost type of an analysis pass: either the scalar post-cost (`i32`)
/// or the token multiset pre-cost ([`PreCost`]).
///
/// `min2` and `max_of` assume non-negative values where the analysis
/// documents that assumption; their contracts nevertheless state the exact
/// result for every input.
pub trait CostTypeTrait: Sized {
    /// The token map a value denotes; an absent token counts as zero.
    spec fn model(&self) -> Map<CostTokenType, int>;

    /// The representation invariant of a value.
    spec fn inv(&self) -> bool;

    /// The model of the additive identity.
    spec fn zero_model() -> Map<CostTokenType, int>;

    /// The model of the maximum of a sequence of values.
    spec fn max_model(ms: Seq<Map<CostTokenType, int>>) -> Map<CostTokenType, int>;

    /// The two values have identical representations, not merely equal
    /// models.
    spec fn same_repr(a: &Self, b: &Self) -> bool;

    /// The additive identity.
    fn default_val() -> (r: Self)
        ensures
            r.inv(),
            r.model() == Self::zero_model(),
    ;

    /// An identical copy.
    fn clone_val(&self) -> (r: Self)
        requires
            self.inv(),
        ensures
            Self::same_repr(&r, self),
            r.inv(),
            r.model() == self.model(),
    ;

    /// Pointwise sum.
    fn add_val(&self, other: &Self) -> (r: Self)
        requires
            self.inv(),
            other.inv(),
            cost_in_i32(cost_add(self.model(), other.model())),
        ensures
            r.inv(),
            r.model() == cost_add(self.model(), other.model()),
    ;

    /// Pointwise difference.
    fn sub_val(&self, other: &Self) -> (r: Self)
        requires
            self.inv(),
            other.inv(),
            cost_in_i32(cost_sub(self.model(), other.model())),
        ensures
            r.inv(),
            r.model() == cost_sub(self.model(), other.model()),
    ;

    /// The minimum of two values, for each token type.
    fn min2(value1: &Self, value2: &Self) -> (r: Self)
        requires
            value1.inv(),
            value2.inv(),
        ensures
            r.inv(),
            r.model() == cost_min2(value1.model(), value2.model()),
    ;

    /// The maximum of the given values, for each token type.
    fn max_of(values: Vec<Self>) -> (r: Self)
        requires
            forall|k: int| 0 <= k < values@.len() ==> (#[trigger] values@[k]).inv(),
        ensures
            r.inv(),
            r.model() == Self::max_model(values@.map_values(|v: Self| v.model())),
    ;

    /// Each token's value clamped to be non-negative.
    fn rectify(value: &Self) -> (r: Self)
        requires
            value.inv(),
        ensures
            r.inv(),
            r.model() == cost_rect(value.model()),
    ;

    /// The model of a well-formed value stays in 32-bit range.
    proof fn lemma_model_in_i32(&self)
        requires
            self.inv(),
        ensures
            cost_in_i32(self.model()),
    ;

    /// The zero model stays in 32-bit range.
    proof fn lemma_zero_model_in_i32()
        ensures
            cost_in_i32(Self::zero_model()),
    ;

    /// Every token of the zero model counts zero.
    proof fn lemma_zero_model_zero()
        ensures
            forall|t: CostTokenType| tok_val(Self::zero_model(), t) == 0,
    ;
}

/// The model of a scalar post-cost value: the `Const` token alone.
pub open spec fn scalar_model(v: int) -> Map<CostTokenType, int> {
    Map::empty().insert(CostTokenType::Const, v)
}

/// The running maximum of the `Const` values of `ms`: the maximum of the
/// values for a non-empty sequence, zero for an empty one.
pub open spec fn scalar_max_fold(ms: Seq<Map<CostTokenType, int>>) -> int
    decreases ms.len(),
{
    if ms.len() == 0 {
        0
    } else if ms.len() == 1 {
        tok_val(ms[0], CostTokenType::Const)
    } else {
        let prev = scalar_max_fold(ms.drop_last());
        let last = tok_val(ms.last(), CostTokenType::Const);
        if prev >= last {
            prev
        } else {
            last
        }
    }
}

impl CostTypeTrait for i32 {
    open spec fn model(&self) -> Map<CostTokenType, int> {
        scalar_model(*self as int)
    }

    open spec fn inv(&self) -> bool {
        true
    }

    open spec fn zero_model() -> Map<CostTokenType, int> {
        scalar_model(0)
    }

    open spec fn max_model(ms: Seq<Map<CostTokenType, int>>) -> Map<CostTokenType, int> {
        scalar_model(scalar_max_fold(ms))
    }

    open spec fn same_repr(a: &Self, b: &Self) -> bool {
        a == b
    }

    fn default_val() -> (r: Self) {
        0
    }

    fn clone_val(&self) -> (r: Self) {
        *self
    }

    fn add_val(&self, other: &Self) -> (r: Self) {
        proof {
            let m = cost_add(self.model(), other.model());
            assert(m.dom().contains(CostTokenType::Const));
            assert(m[CostTokenType::Const] == *self + *other);
        }
        let r = *self + *other;
        proof {
            assert(r.model() =~= cost_add(self.model(), other.model()));
        }
        r
    }

    fn sub_val(&self, other: &Self) -> (r: Self) {
        proof {
            let m = cost_sub(self.model(), other.model());
            assert(m.dom().contains(CostTokenType::Const));
            assert(m[CostTokenType::Const] == *self - *other);
        }
        let r = *self - *other;
        proof {
            assert(r.model() =~= cost_sub(self.model(), other.model()));
        }
        r
    }

    fn min2(value1: &Self, value2: &Self) -> (r: Self) {
        let r = if *value1 <= *value2 {
            *value1
        } else {
            *value2
        };
        proof {
            assert(r.model() =~= cost_min2(value1.model(), value2.model()));
        }
        r
    }

    fn max_of(values: Vec<Self>) -> (r: Self) {
        let ghost ms = values@.map_values(|v: Self| v.model());
        let n = values.len();
        let mut r: i32 = 0;
        let mut i: usize = 0;
        while i < n
            invariant
                n == values@.len(),
                0 <= i <= n,
                ms == values@.map_values(|v: Self| v.model()),
                i > 0 ==> r as int == scalar_max_fold(ms.subrange(0, i as int)),
                i == 0 ==> r == 0,
            decreases n - i,
        {
            let v = values[i];
            proof {
                assert(ms[i as int] == values@[i as int].model());
                assert(tok_val(ms[i as int], CostTokenType::Const) == v as int);
                assert(ms.subrange(0, i as int + 1).drop_last() =~= ms.subrange(0, i as int));
                assert(ms.subrange(0, i as int + 1).last() == ms[i as int]);
            }
            if i == 0 {
                r = v;
                proof {
                    assert(ms.subrange(0, 1).len() == 1);
                    assert(ms.subrange(0, 1)[0] == ms[0]);
                }
            } else if v > r {
                r = v;
            }
            i = i + 1;
        }
        proof {
            assert(ms.subrange(0, n as int) =~= ms);
            if n == 0 {
                assert(ms.len() == 0);
            }
            assert(r.model() =~= Self::max_model(ms));
        }
        r
    }

    fn rectify(value: &Self) -> (r: Self) {
        let r = if *value >= 0 {
            *value
        } else {
            0
        };
        proof {
            assert(r.model() =~= cost_rect(value.model()));
        }
        r
    }

    proof fn lemma_model_in_i32(&self) {
    }

    proof fn lemma_zero_model_in_i32() {
    }

    proof fn lemma_zero_model_zero() {
    }
}

/// How [`combine`] merges two values of one token.
#[derive(Clone, Copy, Debug, PartialEq, Eq, Structural)]
enum CombineOp {
    /// Pointwise sum over the union of the key sets.
    Sum,
    /// Pointwise difference over the union of the key sets.
    Diff,
    /// Pointwise maximum over the union of the key sets, reading absent
    /// keys as zero.
    MaxZ,
}

/// The merged value of one token under `op`.
spec fn combine_val(op: CombineOp, x: int, y: int) -> int {
    match op {
        CombineOp::Sum => x + y,
        CombineOp::Diff => x - y,
        CombineOp::MaxZ => if x >= y {
            x
        } else {
            y
        },
    }
}

/// The merged map under `op`.
spec fn combine_model(
    op: CombineOp,
    a: Map<CostTokenType, int>,
    b: Map<CostTokenType, int>,
) -> Map<CostTokenType, int> {
    match op {
        CombineOp::Sum => cost_add(a, b),
        CombineOp::Diff => cost_sub(a, b),
        CombineOp::MaxZ => cost_max2(a, b),
    }
}

/// Position of token `t` in `entries`, if present.
fn find_token(entries: &Vec<(CostTokenType, i32)>, t: CostTokenType) -> (r: Option<usize>)
    ensures
        match r {
            Some(k) => k < entries@.len() && entries@[k as int].0 == t,
            None => forall|k: int| 0 <= k < entries@.len() ==> (#[trigger] entries@[k]).0 != t,
        },
{
    let n = entries.len();
    let mut i: usize = 0;
    while i < n
        invariant
            n == entries@.len(),
            0 <= i <= n,
            forall|k: int| 0 <= k < i ==> (#[trigger] entries@[k]).0 != t,
        decreases n - i,
    {
        if entries[i].0 == t {
            return Some(i);
        }
        i = i + 1;
    }
    None
}

/// Some entry of `s` carries token `t`.
spec fn has_token(s: Seq<(CostTokenType, i32)>, t: CostTokenType) -> bool {
    exists|k: int| 0 <= k < s.len() && (#[trigger] s[k]).0 == t
}

/// Merges two pre-cost values over the union of their key sets: first the
/// keys of `a` in their order, then the new keys of `b` in theirs.
fn combine(a: &PreCost, b: &PreCost, op: CombineOp) -> (r: PreCost)
    requires
        a.wf(),
        b.wf(),
        op == CombineOp::Sum ==> cost_in_i32(cost_add(a.model(), b.model())),
        op == CombineOp::Diff ==> cost_in_i32(cost_sub(a.model(), b.model())),
    ensures
        r.wf(),
        r.model() == combine_model(op, a.model(), b.model()),
{
    let ghost am = a.model();
    let ghost bm = b.model();
    let ghost target = combine_model(op, am, bm);
    proof {
        lemma_entries_model(a.0@);
        lemma_entries_model(b.0@);
    }
    let mut res: Vec<(CostTokenType, i32)> = Vec::new();
    let alen = a.0.len();
    let mut i: usize = 0;
    while i < alen
        invariant
            alen == a.0@.len(),
            0 <= i <= alen,
            a.wf(),
            b.wf(),
            am == a.model(),
            bm == b.model(),
            op == CombineOp::Sum ==> cost_in_i32(cost_add(am, bm)),
            op == CombineOp::Diff ==> cost_in_i32(cost_sub(am, bm)),
            res@.len() == i,
            forall|k: int| 0 <= k < i ==> (#[trigger] res@[k]).0 == a.0@[k].0,
            forall|k1: int, k2: int|
                0 <= k1 < k2 < res@.len() ==> (#[trigger] res@[k1]).0 != (#[trigger] res@[k2]).0,
            forall|k: int|
                0 <= k < i ==> (#[trigger] res@[k]).1 as int == combine_val(
                    op,
                    tok_val(am, res@[k].0),
                    tok_val(bm, res@[k].0),
                ),
        decreases alen - i,
    {
        proof {
            lemma_entries_model(a.0@);
            lemma_entries_model(b.0@);
        }
        let (t, va) = a.0[i];
        proof {
            assert(am.dom().contains(t) && am[t] == va as int);
            assert(combine_model(op, am, bm).dom().contains(t));
            assert(combine_model(op, am, bm)[t] == combine_val(op, tok_val(am, t), tok_val(bm, t)));
        }
        let value: i32 = match find_token(&b.0, t) {
            Some(k) => {
                let vb = b.0[k].1;
                proof {
                    assert(bm.dom().contains(t) && bm[t] == vb as int);
                }
                match op {
                    CombineOp::Sum => va + vb,
                    CombineOp::Diff => va - vb,
                    CombineOp::MaxZ => if va >= vb {
                        va
                    } else {
                        vb
                    },
                }
            },
            None => {
                proof {
                    if bm.dom().contains(t) {
                        assert(entry_keys(b.0@).contains(t));
                        let k = choose|k: int|
                            0 <= k < entry_keys(b.0@).len() && entry_keys(b.0@)[k] == t;
                        assert(b.0@[k].0 == t);
                        assert(false);
                    }
                }
                match op {
                    CombineOp::Sum => va,
                    CombineOp::Diff => va,
                    CombineOp::MaxZ => if va >= 0 {
                        va
                    } else {
                        0
                    },
                }
            },
        };
        res.push((t, value));
        i = i + 1;
    }
    let blen = b.0.len();
    let mut j: usize = 0;
    while j < blen
        invariant
            alen == a.0@.len(),
            blen == b.0@.len(),
            0 <= j <= blen,
            a.wf(),
            b.wf(),
            am == a.model(),
            bm == b.model(),
            op == CombineOp::Sum ==> cost_in_i32(cost_add(am, bm)),
            op == CombineOp::Diff ==> cost_in_i32(cost_sub(am, bm)),
            res@.len() >= alen,
            forall|k: int| 0 <= k < alen ==> (#[trigger] res@[k]).0 == a.0@[k].0,
            forall|k1: int, k2: int|
                0 <= k1 < k2 < res@.len() ==> (#[trigger] res@[k1]).0 != (#[trigger] res@[k2]).0,
            forall|k: int|
                alen <= k < res@.len() ==> bm.dom().contains((#[trigger] res@[k]).0)
                    && !am.dom().contains(res@[k].0) && has_token(b.0@.subrange(0, j as int), res@[k].0),
            forall|k: int|
                0 <= k < res@.len() ==> (#[trigger] res@[k]).1 as int == combine_val(
                    op,
                    tok_val(am, res@[k].0),
                    tok_val(bm, res@[k].0),
                ),
            forall|m: int| 0 <= m < j ==> has_token(res@, (#[trigger] b.0@[m]).0),
        decreases blen - j,
    {
        proof {
            lemma_entries_model(a.0@);
            lemma_entries_model(b.0@);
        }
        let (t, vb) = b.0[j];
        let ghost res_at = res@;
        proof {
            assert(bm.dom().contains(t) && bm[t] == vb as int);
        }
        match find_token(&a.0, t) {
            Some(k) => {
                proof {
                    assert(res@[k as int].0 == t);
                    assert(has_token(res@, t));
                }
            },
            None => {
                proof {
                    if am.dom().contains(t) {
                        assert(entry_keys(a.0@).contains(t));
                        let k = choose|k: int|
                            0 <= k < entry_keys(a.0@).len() && entry_keys(a.0@)[k] == t;
                        assert(a.0@[k].0 == t);
                        assert(false);
                    }
                    assert(combine_model(op, am, bm).dom().contains(t));
                    assert(tok_val(am, t) == 0);
                    if op == CombineOp::Diff {
                        assert(cost_sub(am, bm)[t] == 0 - (vb as int));
                    }
                }
                let value: i32 = match op {
                    CombineOp::Sum => vb,
                    CombineOp::Diff => 0 - vb,
                    CombineOp::MaxZ => if vb >= 0 {
                        vb
                    } else {
                        0
                    },
                };
                res.push((t, value));
                proof {
                    assert(res@[res@.len() - 1].0 == t);
                    assert(has_token(res@, t));
                    assert forall|k: int|
                        alen <= k < res@.len() implies bm.dom().contains((#[trigger] res@[k]).0)
                        && !am.dom().contains(res@[k].0) && has_token(
                        b.0@.subrange(0, j as int + 1),
                        res@[k].0,
                    ) by {
                        if k < res_at.len() {
                            assert(res@[k] == res_at[k]);
                            assert(has_token(b.0@.subrange(0, j as int), res_at[k].0));
                            let m = choose|m: int|
                                0 <= m < j && (#[trigger] b.0@.subrange(0, j as int)[m]).0
                                    == res_at[k].0;
                            assert(b.0@.subrange(0, j as int + 1)[m].0 == res_at[k].0);
                        } else {
                            assert(res@[k] == (t, value));
                            assert(b.0@.subrange(0, j as int + 1)[j as int].0 == t);
                        }
                    }
                    assert forall|k1: int, k2: int|
                        0 <= k1 < k2 < res@.len() implies (#[trigger] res@[k1]).0 != (
                    #[trigger] res@[k2]).0 by {
                        if k2 == res@.len() - 1 {
                            assert(res@[k2].0 == t);
                            if k1 < alen {
                                assert(am.dom().contains(res_at[k1].0));
                            } else {
                                if res_at[k1].0 == t {
                                    assert(has_token(b.0@.subrange(0, j as int), t));
                                    let m = choose|m: int|
                                        0 <= m < j && (#[trigger] b.0@.subrange(0, j as int)[m]).0
                                            == t;
                                    assert(b.0@[m].0 == t);
                                    assert(b.0@[j as int].0 == t);
                                    assert(false);
                                }
                            }
                        } else {
                            assert(res@[k1] == res_at[k1]);
                            assert(res@[k2] == res_at[k2]);
                        }
                    }
                }
            },
        }
        proof {
            assert forall|m: int| 0 <= m < j + 1 implies has_token(res@, (#[trigger] b.0@[m]).0) by {
                if m < j {
                    assert(has_token(res_at, b.0@[m].0));
                    let k = choose|k: int|
                        0 <= k < res_at.len() && (#[trigger] res_at[k]).0 == b.0@[m].0;
                    assert(res@[k].0 == b.0@[m].0);
                } else {
                    assert(has_token(res@, t));
                }
            }
        }
        j = j + 1;
    }
    let r = PreCost(res);
    proof {
        assert(r.wf());
        lemma_entries_model(r.0@);
        assert forall|t: CostTokenType| #[trigger] r.model().dom().contains(t) implies target.dom().contains(t)
            && r.model()[t] == target[t] by {
            assert(entry_keys(r.0@).contains(t));
            let k = choose|k: int| 0 <= k < entry_keys(r.0@).len() && entry_keys(r.0@)[k] == t;
            assert(r.0@[k].0 == t);
            if k < alen {
                assert(am.dom().contains(t));
            }
            assert(r.model()[t] == r.0@[k].1 as int);
        }
        assert forall|t: CostTokenType| #[trigger] target.dom().contains(t) implies r.model().dom().contains(
            t,
        ) by {
            if am.dom().contains(t) {
                assert(entry_keys(a.0@).contains(t));
                let k = choose|k: int| 0 <= k < entry_keys(a.0@).len() && entry_keys(a.0@)[k] == t;
                assert(a.0@[k].0 == t);
                assert(r.0@[k].0 == t);
                assert(entry_keys(r.0@)[k] == t);
                assert(entry_keys(r.0@).contains(t));
            } else {
                assert(bm.dom().contains(t));
                assert(entry_keys(b.0@).contains(t));
                let m = choose|m: int| 0 <= m < entry_keys(b.0@).len() && entry_keys(b.0@)[m] == t;
                assert(b.0@[m].0 == t);
                assert(has_token(r.0@, t));
                let k = choose|k: int| 0 <= k < r.0@.len() && (#[trigger] r.0@[k]).0 == t;
                assert(entry_keys(r.0@)[k] == t);
                assert(entry_keys(r.0@).contains(t));
            }
        }
        assert(r.model() =~= target);
    }
    r
}

impl CostTypeTrait for PreCost {
    open spec fn model(&self) -> Map<CostTokenType, int> {
        entries_model(self.0@)
    }

    open spec fn inv(&self) -> bool {
        self.wf()
    }

    open spec fn zero_model() -> Map<CostTokenType, int> {
        Map::empty()
    }

    open spec fn max_model(ms: Seq<Map<CostTokenType, int>>) -> Map<CostTokenType, int> {
        cost_max_seq(Map::empty(), ms)
    }

    open spec fn same_repr(a: &Self, b: &Self) -> bool {
        a.0@ == b.0@
    }

    fn default_val() -> (r: Self) {
        let r = PreCost::empty();
        proof {
            assert(r.model() == entries_model(r.0@));
        }
        r
    }

    fn clone_val(&self) -> (r: Self) {
        let n = self.0.len();
        let mut v: Vec<(CostTokenType, i32)> = Vec::new();
        let mut i: usize = 0;
        while i < n
            invariant
                n == self.0@.len(),
                0 <= i <= n,
                v@ == self.0@.subrange(0, i as int),
            decreases n - i,
        {
            v.push(self.0[i]);
            proof {
                assert(v@ =~= self.0@.subrange(0, i as int + 1));
            }
            i = i + 1;
        }
        proof {
            assert(v@ =~= self.0@);
        }
        PreCost(v)
    }

    fn add_val(&self, other: &Self) -> (r: Self) {
        combine(self, other, CombineOp::Sum)
    }

    fn sub_val(&self, other: &Self) -> (r: Self) {
        combine(self, other, CombineOp::Diff)
    }

    fn min2(value1: &Self, value2: &Self) -> (r: Self) {
        let ghost m1 = value1.model();
        let ghost m2 = value2.model();
        proof {
            lemma_entries_model(value1.0@);
            lemma_entries_model(value2.0@);
        }
        let mut res: Vec<(CostTokenType, i32)> = Vec::new();
        let n = value1.0.len();
        let mut i: usize = 0;
        while i < n
            invariant
                n == value1.0@.len(),
                0 <= i <= n,
                value1.wf(),
                value2.wf(),
                m1 == value1.model(),
                m2 == value2.model(),
                forall|k: int|
                    0 <= k < res@.len() ==> has_token(
                        value1.0@.subrange(0, i as int),
                        (#[trigger] res@[k]).0,
                    ),
                forall|k1: int, k2: int|
                    0 <= k1 < k2 < res@.len() ==> (#[trigger] res@[k1]).0 != (
                    #[trigger] res@[k2]).0,
                forall|k: int|
                    0 <= k < res@.len() ==> cost_min2(m1, m2).dom().contains(
                        (#[trigger] res@[k]).0,
                    ) && res@[k].1 as int == cost_min2(m1, m2)[res@[k].0],
                forall|m: int|
                    0 <= m < i && m2.dom().contains((#[trigger] value1.0@[m]).0) ==> has_token(
                        res@,
                        value1.0@[m].0,
                    ),
            decreases n - i,
        {
            proof {
                lemma_entries_model(value1.0@);
                lemma_entries_model(value2.0@);
            }
            let (t, v1) = value1.0[i];
            let ghost res0 = res@;
            match find_token(&value2.0, t) {
                Some(k) => {
                    let v2 = value2.0[k].1;
                    proof {
                        assert(m1.dom().contains(t) && m1[t] == v1 as int);
                        assert(m2.dom().contains(t) && m2[t] == v2 as int);
                        assert(cost_min2(m1, m2).dom().contains(t));
                        if has_token(res0, t) {
                            let kk = choose|kk: int|
                                0 <= kk < res0.len() && (#[trigger] res0[kk]).0 == t;
                            assert(has_token(value1.0@.subrange(0, i as int), t));
                            let mm = choose|mm: int|
                                0 <= mm < i && (#[trigger] value1.0@.subrange(0, i as int)[mm]).0
                                    == t;
                            assert(value1.0@[mm].0 == t);
                            assert(value1.0@[i as int].0 == t);
                            assert(false);
                        }
                    }
                    let value: i32 = if v1 <= v2 {
                        v1
                    } else {
                        v2
                    };
                    res.push((t, value));
                    proof {
                        assert(res@[res@.len() - 1].0 == t);
                        assert(has_token(res@, t));
                        assert forall|k: int|
                            0 <= k < res@.len() implies has_token(
                            value1.0@.subrange(0, i as int + 1),
                            (#[trigger] res@[k]).0,
                        ) by {
                            if k < res0.len() {
                                assert(res@[k] == res0[k]);
                                let mm = choose|mm: int|
                                    0 <= mm < i && (#[trigger] value1.0@.subrange(
                                        0,
                                        i as int,
                                    )[mm]).0 == res0[k].0;
                                assert(value1.0@.subrange(0, i as int + 1)[mm].0 == res0[k].0);
                            } else {
                                assert(value1.0@.subrange(0, i as int + 1)[i as int].0 == t);
                            }
                        }
                        assert forall|k1: int, k2: int|
                            0 <= k1 < k2 < res@.len() implies (#[trigger] res@[k1]).0 != (
                        #[trigger] res@[k2]).0 by {
                            if k2 == res@.len() - 1 {
                                if res0[k1].0 == t {
                                    assert(has_token(res0, t));
                                }
                            } else {
                                assert(res@[k1] == res0[k1]);
                                assert(res@[k2] == res0[k2]);
                            }
                        }
                    }
                },
                None => {
                    proof {
                        if m2.dom().contains(t) {
                            assert(entry_keys(value2.0@).contains(t));
                            let k = choose|k: int|
                                0 <= k < entry_keys(value2.0@).len() && entry_keys(value2.0@)[k]
                                    == t;
                            assert(value2.0@[k].0 == t);
                            assert(false);
                        }
                        assert forall|k: int|
                            0 <= k < res@.len() implies has_token(
                            value1.0@.subrange(0, i as int + 1),
                            (#[trigger] res@[k]).0,
                        ) by {
                            let mm = choose|mm: int|
                                0 <= mm < i && (#[trigger] value1.0@.subrange(0, i as int)[mm]).0
                                    == res@[k].0;
                            assert(value1.0@.subrange(0, i as int + 1)[mm].0 == res@[k].0);
                        }
                    }
                },
            }
            proof {
                assert forall|m: int|
                    0 <= m < i + 1 && m2.dom().contains((#[trigger] value1.0@[m]).0)
                    implies has_token(res@, value1.0@[m].0) by {
                    if m < i {
                        assert(has_token(res0, value1.0@[m].0));
                        let k = choose|k: int|
                            0 <= k < res0.len() && (#[trigger] res0[k]).0 == value1.0@[m].0;
                        assert(res@[k].0 == value1.0@[m].0);
                    } else {
                        assert(value1.0@[m].0 == t);
                        assert(has_token(res@, t));
                    }
                }
            }
            i = i + 1;
        }
        let r = PreCost(res);
        proof {
            assert(r.wf());
            lemma_entries_model(r.0@);
            assert forall|t: CostTokenType| #[trigger] r.model().dom().contains(t) implies cost_min2(
                m1,
                m2,
            ).dom().contains(t) && r.model()[t] == cost_min2(m1, m2)[t] by {
                assert(entry_keys(r.0@).contains(t));
                let k = choose|k: int| 0 <= k < entry_keys(r.0@).len() && entry_keys(r.0@)[k] == t;
                assert(r.0@[k].0 == t);
                assert(r.model()[t] == r.0@[k].1 as int);
            }
            assert forall|t: CostTokenType| #[trigger] cost_min2(m1, m2).dom().contains(t)
                implies r.model().dom().contains(t) by {
                assert(m1.dom().contains(t));
                assert(entry_keys(value1.0@).contains(t));
                let m = choose|m: int|
                    0 <= m < entry_keys(value1.0@).len() && entry_keys(value1.0@)[m] == t;
                assert(value1.0@[m].0 == t);
                assert(m2.dom().contains(t));
                assert(has_token(r.0@, t));
                let k = choose|k: int| 0 <= k < r.0@.len() && (#[trigger] r.0@[k]).0 == t;
                assert(entry_keys(r.0@)[k] == t);
                assert(entry_keys(r.0@).contains(t));
            }
            assert(r.model() =~= cost_min2(m1, m2));
        }
        r
    }

    fn max_of(values: Vec<Self>) -> (r: Self) {
        let ghost ms = values@.map_values(|v: Self| v.model());
        let n = values.len();
        let mut r = PreCost::empty();
        let mut i: usize = 0;
        while i < n
            invariant
                n == values@.len(),
                0 <= i <= n,
                ms == values@.map_values(|v: Self| v.model()),
                forall|k: int| 0 <= k < values@.len() ==> (#[trigger] values@[k]).inv(),
                r.wf(),
                r.model() == cost_max_seq(Map::<CostTokenType, int>::empty(), ms.subrange(0, i as int)),
            decreases n - i,
        {
            proof {
                assert(ms[i as int] == values@[i as int].model());
                assert(ms.subrange(0, i as int + 1).drop_last() =~= ms.subrange(0, i as int));
                assert(ms.subrange(0, i as int + 1).last() == ms[i as int]);
            }
            r = combine(&r, &values[i], CombineOp::MaxZ);
            i = i + 1;
        }
        proof {
            assert(ms.subrange(0, n as int) =~= ms);
            assert(r.model() == cost_max_seq(Map::<CostTokenType, int>::empty(), ms));
            assert(Self::max_model(ms) == cost_max_seq(Map::<CostTokenType, int>::empty(), ms));
        }
        r
    }

    fn rectify(value: &Self) -> (r: Self) {
        let ghost m = value.model();
        proof {
            lemma_entries_model(value.0@);
        }
        let n = value.0.len();
        let mut res: Vec<(CostTokenType, i32)> = Vec::new();
        let mut i: usize = 0;
        while i < n
            invariant
                n == value.0@.len(),
                0 <= i <= n,
                value.wf(),
                m == value.model(),
                res@.len() == i,
                forall|k: int| 0 <= k < i ==> (#[trigger] res@[k]).0 == value.0@[k].0,
                forall|k: int|
                    0 <= k < i ==> (#[trigger] res@[k]).1 as int == cost_rect(m)[res@[k].0],
            decreases n - i,
        {
            proof {
                lemma_entries_model(value.0@);
            }
            let (t, v) = value.0[i];
            proof {
                assert(m.dom().contains(t) && m[t] == v as int);
                assert(cost_rect(m).dom().contains(t));
            }
            let value2: i32 = if v >= 0 {
                v
            } else {
                0
            };
            res.push((t, value2));
            i = i + 1;
        }
        let r = PreCost(res);
        proof {
            assert(r.wf());
            lemma_entries_model(r.0@);
            assert forall|t: CostTokenType| #[trigger] r.model().dom().contains(t)
                implies cost_rect(m).dom().contains(t) && r.model()[t] == cost_rect(m)[t] by {
                assert(entry_keys(r.0@).contains(t));
                let k = choose|k: int| 0 <= k < entry_keys(r.0@).len() && entry_keys(r.0@)[k] == t;
                assert(r.0@[k].0 == t);
                assert(r.model()[t] == r.0@[k].1 as int);
            }
            assert forall|t: CostTokenType| #[trigger] cost_rect(m).dom().contains(t)
                implies r.model().dom().contains(t) by {
                assert(entry_keys(value.0@).contains(t));
                let k = choose|k: int|
                    0 <= k < entry_keys(value.0@).len() && entry_keys(value.0@)[k] == t;
                assert(value.0@[k].0 == t);
                assert(r.0@[k].0 == t);
                assert(entry_keys(r.0@)[k] == t);
                assert(entry_keys(r.0@).contains(t));
            }
            assert(r.model() =~= cost_rect(m));
        }
        r
    }

    proof fn lemma_model_in_i32(&self) {
        lemma_entries_model(self.0@);
    }

    proof fn lemma_zero_model_in_i32() {
    }

    proof fn lemma_zero_model_zero() {
    }
}

/// The model of any well-formed pre-cost value stays in 32-bit range.
pub proof fn lemma_precost_model_in_i32(c: &PreCost)
    requires
        c.wf(),
    ensures
        cost_in_i32(c.model()),
{
    lemma_entries_model(c.0@);
}

} // verus!

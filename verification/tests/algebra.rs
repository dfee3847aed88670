//! Concrete checks of the cost algebra.

use sierra_gas_costs::cost_type::CostTypeTrait;
use sierra_gas_costs::objects::CostTokenType;
use sierra_gas_costs::objects::PreCost;

fn pre(entries: Vec<(CostTokenType, i32)>) -> PreCost {
    PreCost(entries)
}

/// Pre-cost `min2` keeps only the tokens present in both operands, at the
/// smaller value.
#[test]
fn precost_min2_is_intersection_min() {
    let a = pre(vec![
        (CostTokenType::Pedersen, 3),
        (CostTokenType::Bitwise, 5),
        (CostTokenType::EcOp, 1),
    ]);
    let b = pre(vec![(CostTokenType::Bitwise, 2), (CostTokenType::Pedersen, 7)]);
    let m = <PreCost as CostTypeTrait>::min2(&a, &b);
    assert_eq!(
        m,
        pre(vec![(CostTokenType::Pedersen, 3), (CostTokenType::Bitwise, 2)])
    );
}

/// Pre-cost `max_of` unions the key sets, reading absent tokens as zero.
#[test]
fn precost_max_is_union_max_with_zero_fill() {
    let a = pre(vec![(CostTokenType::Pedersen, 3), (CostTokenType::Bitwise, 5)]);
    let b = pre(vec![(CostTokenType::Bitwise, 9), (CostTokenType::EcOp, -2)]);
    let m = <PreCost as CostTypeTrait>::max_of(vec![a, b]);
    // Bitwise takes the larger value; EcOp is compared against the zero of
    // the first operand and clamps to zero.
    assert_eq!(
        m,
        pre(vec![
            (CostTokenType::Pedersen, 3),
            (CostTokenType::Bitwise, 9),
            (CostTokenType::EcOp, 0),
        ])
    );
}

/// Pre-cost sums and differences act pointwise on the union of keys.
#[test]
fn precost_add_sub_pointwise() {
    let a = pre(vec![(CostTokenType::Pedersen, 3), (CostTokenType::Bitwise, 5)]);
    let b = pre(vec![(CostTokenType::Bitwise, 2), (CostTokenType::EcOp, 4)]);
    let s = a.add_val(&b);
    assert_eq!(
        s,
        pre(vec![
            (CostTokenType::Pedersen, 3),
            (CostTokenType::Bitwise, 7),
            (CostTokenType::EcOp, 4),
        ])
    );
    let d = a.sub_val(&b);
    assert_eq!(
        d,
        pre(vec![
            (CostTokenType::Pedersen, 3),
            (CostTokenType::Bitwise, 3),
            (CostTokenType::EcOp, -4),
        ])
    );
}

/// Rectification clamps every value to be non-negative, keeping the keys.
#[test]
fn precost_rectify_clamps() {
    let a = pre(vec![(CostTokenType::Pedersen, -3), (CostTokenType::Bitwise, 5)]);
    let r = <PreCost as CostTypeTrait>::rectify(&a);
    assert_eq!(
        r,
        pre(vec![(CostTokenType::Pedersen, 0), (CostTokenType::Bitwise, 5)])
    );
}

/// The scalar instance: plain minimum, maximum over the values with zero
/// for an empty collection, and clamping at zero.
#[test]
fn scalar_instance() {
    assert_eq!(<i32 as CostTypeTrait>::min2(&3, &-5), -5);
    assert_eq!(<i32 as CostTypeTrait>::max_of(vec![3, -5, 7]), 7);
    assert_eq!(<i32 as CostTypeTrait>::max_of(vec![-3, -5]), -3);
    assert_eq!(<i32 as CostTypeTrait>::max_of(vec![]), 0);
    assert_eq!(<i32 as CostTypeTrait>::rectify(&-4), 0);
    assert_eq!(<i32 as CostTypeTrait>::rectify(&4), 4);
    assert_eq!(3i32.add_val(&4), 7);
    assert_eq!(3i32.sub_val(&4), -1);
}

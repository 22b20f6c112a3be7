use kiss_conformance::per_output::{output_class, RecipeNode};
use kiss_conformance::DeterminismClass::{ExactByte, OrderInvariant, UlpTolerance};

fn recipe() -> Vec<RecipeNode> {
    vec![
        RecipeNode::value(ExactByte, &[]),
        RecipeNode::value(ExactByte, &[0]),
        RecipeNode::value(OrderInvariant, &[0]),
        RecipeNode::value(UlpTolerance, &[0]),
        RecipeNode::selection(&[2]),
        RecipeNode::selection(&[3]),
        RecipeNode::selection(&[3]),
        RecipeNode::selection(&[1]),
    ]
}

#[test]
fn test_ops_per_output_determinism_class() {
    let r = recipe();
    assert_eq!(output_class(&r, 1), ExactByte);
    assert_eq!(output_class(&r, 2), OrderInvariant);
    assert_eq!(output_class(&r, 3), UlpTolerance);
    assert_eq!(output_class(&r, 4), OrderInvariant);
    assert_eq!(output_class(&r, 5), OrderInvariant);
    assert_ne!(output_class(&r, 5), UlpTolerance);
    assert_eq!(output_class(&r, 6), OrderInvariant);
    assert_ne!(output_class(&r, 6), UlpTolerance);
    assert_eq!(output_class(&r, 7), ExactByte);
}

#[test]
fn test_ops_comparison_mask_is_selection() {
    let dag = vec![
        RecipeNode::value(ExactByte, &[]),
        RecipeNode::from_op("exp", &[0]),
        RecipeNode::value(ExactByte, &[]),
        RecipeNode::from_op("cmp_lt", &[1, 2]),
    ];
    assert_eq!(output_class(&dag, 3), OrderInvariant);
    assert_ne!(output_class(&dag, 3), UlpTolerance);

    let mut value_lane = dag.clone();
    value_lane[3] = RecipeNode::value(ExactByte, &[1, 2]);
    assert_eq!(output_class(&value_lane, 3), UlpTolerance);

    let exact = vec![
        RecipeNode::value(ExactByte, &[]),
        RecipeNode::value(ExactByte, &[]),
        RecipeNode::from_op("cmp_lt", &[0, 1]),
    ];
    assert_eq!(output_class(&exact, 2), ExactByte);

    let relu = vec![
        RecipeNode::value(ExactByte, &[]),
        RecipeNode::from_op("exp", &[0]),
        RecipeNode::value(ExactByte, &[]),
        RecipeNode::value(ExactByte, &[1, 2]),
        RecipeNode::from_op("cmp_gt", &[1, 2]),
    ];
    assert_eq!(output_class(&relu, 3), UlpTolerance);
    assert_eq!(output_class(&relu, 4), OrderInvariant);
    assert_ne!(output_class(&relu, 4), UlpTolerance);
}

#[test]
fn a_deep_non_exact_producer_reaches_the_output() {
    // 0 -> 1 -> 2 -> 3: only the leaf is order-invariant, yet the root's value
    // output inherits it through the whole chain.
    let chain = vec![
        RecipeNode::value(OrderInvariant, &[]),
        RecipeNode::value(ExactByte, &[0]),
        RecipeNode::value(ExactByte, &[1]),
        RecipeNode::value(ExactByte, &[2]),
    ];
    assert_eq!(output_class(&chain, 3), OrderInvariant);
    // a node outside the root's sub-DAG does not contribute
    let side = vec![
        RecipeNode::value(UlpTolerance, &[]),
        RecipeNode::value(ExactByte, &[]),
        RecipeNode::selection(&[1]),
    ];
    assert_eq!(output_class(&side, 2), ExactByte);
    assert_eq!(output_class(&side, 0), UlpTolerance);
}

use decision_tree_builder::{
    find_best_decision, majority, to_counts, value_conforms, BuildError, Decision, DecisionTree,
    GainRatio, Schema, Test, TreeBuilder, Value,
};

const T: u64 = 1;
const F: u64 = 0;

fn entropy(counts: &[usize]) -> f64 {
    let total: usize = counts.iter().sum();
    let mut h = 0.0;
    for &c in counts {
        if c > 0 {
            let p = c as f64 / total as f64;
            h -= p * p.log2();
        }
    }
    h
}

/// Gain ratio of a split, from the per-label counts of its two branches.
fn gain_ratio(yes: &Vec<usize>, no: &Vec<usize>) -> GainRatio {
    let parent: Vec<usize> = yes.iter().zip(no.iter()).map(|(a, b)| a + b).collect();
    let total: usize = parent.iter().sum();
    let n_yes: usize = yes.iter().sum();
    let n_no: usize = no.iter().sum();
    let info = (n_yes as f64 / total as f64) * entropy(yes) + (n_no as f64 / total as f64) * entropy(no);
    let split_info = entropy(&[n_yes, n_no]);
    let g = if split_info == 0.0 { 0.0 } else { (entropy(&parent) - info) / split_info };
    GainRatio::from_bits(g.to_bits())
}

fn value_of(g: GainRatio) -> f64 {
    f64::from_bits(g.bits)
}

fn b(v: bool) -> Value {
    Value::Boolean(v)
}

fn o(v: i64) -> Value {
    Value::Ordinal(v)
}

fn pair(a: Value, b: Value) -> Value {
    Value::Tuple2(Box::new(a), Box::new(b))
}

fn pair_schema(a: Schema, b: Schema) -> Schema {
    Schema::Tuple2(Box::new(a), Box::new(b))
}

fn labels_of(data: &[(Value, u64)]) -> Vec<u64> {
    to_counts(data).iter().map(|e| e.0).collect()
}

fn best(schema: &Schema, data: &[(Value, u64)]) -> Decision {
    let labels = labels_of(data);
    let mut prefix = Vec::new();
    let d = find_best_decision(schema, &mut prefix, data, &labels, &gain_ratio).unwrap();
    assert!(prefix.is_empty());
    d
}

fn leaf_label(t: &DecisionTree) -> u64 {
    match t {
        DecisionTree::Leaf { label, .. } => *label,
        DecisionTree::Node { .. } => panic!("expected a leaf"),
    }
}

fn node(t: &DecisionTree) -> (&Decision, &DecisionTree, &DecisionTree) {
    match t {
        DecisionTree::Node { decision, yes, no } => (decision, yes, no),
        DecisionTree::Leaf { .. } => panic!("expected a node"),
    }
}

#[test]
fn implementations_test_bool() {
    let data = [(b(true), T), (b(false), F), (b(false), F), (b(false), F), (b(false), F)];
    let d = best(&Schema::Boolean, &data);
    assert!(matches!(d, Decision::Boolean(_)));
    assert!((value_of(d.gain_ratio()) - 1.0).abs() < 1e-12);
    assert_eq!(d.max_branch_width(), 1);
    assert_eq!(d.test(), Test::IsTrue);
}

#[test]
fn implementations_test_ref_bool() {
    let data = [(b(true), T), (b(false), F), (b(false), F), (b(false), F), (b(false), F)];
    let d = best(&Schema::Boolean, &data);
    assert!((value_of(d.gain_ratio()) - 1.0).abs() < 1e-12);
    assert!(d.holds(&b(true)));
    assert!(!d.holds(&b(false)));
}

#[test]
fn implementations_test_usize() {
    let data = [(o(0), T), (o(1), T), (o(2), F), (o(3), F), (o(4), F)];
    let d = best(&Schema::Ordinal, &data);
    assert_eq!(d.test(), Test::LessThan(2));
    assert!(d.path().is_empty());
    assert!((value_of(d.gain_ratio()) - 1.0).abs() < 1e-12);
    assert_eq!(d.max_branch_width(), 3);
}

#[test]
fn implementations_test_tuple() {
    let schema = pair_schema(Schema::Ordinal, Schema::Ordinal);
    let data = [
        (pair(o(0), o(0)), T),
        (pair(o(0), o(1)), F),
        (pair(o(1), o(0)), F),
        (pair(o(1), o(1)), F),
    ];
    let d = best(&schema, &data);
    // both fields split as well; the first is kept
    assert_eq!(d.path(), vec![0]);
    assert_eq!(d.test(), Test::LessThan(1));
    assert!((value_of(d.gain_ratio()) - 0.31127812445913283).abs() < 1e-12);
}

#[test]
fn implementations_test_recursive_tuple() {
    let schema = pair_schema(
        pair_schema(Schema::Ordinal, Schema::Ordinal),
        pair_schema(Schema::Boolean, Schema::Boolean),
    );
    let data = [
        (pair(pair(o(0), o(0)), pair(b(true), b(true))), T),
        (pair(pair(o(0), o(1)), pair(b(false), b(false))), F),
        (pair(pair(o(1), o(0)), pair(b(true), b(true))), F),
        (pair(pair(o(1), o(1)), pair(b(false), b(false))), F),
    ];
    let d = best(&schema, &data);
    assert_eq!(d.path(), vec![0, 0]);
    assert_eq!(d.test(), Test::LessThan(1));
}

#[test]
fn implementations_test_list() {
    let schema = Schema::Array(vec![Schema::Boolean, Schema::Boolean]);
    let list = |x: bool, y: bool| Value::Array(vec![b(x), b(y)]);
    let data = [(list(true, true), T), (list(true, false), F), (list(false, true), F), (list(false, false), T)];
    let d = best(&schema, &data);
    assert!(matches!(d, Decision::Array(_)));
    assert_eq!(d.path(), vec![0]);
    assert_eq!(value_of(d.gain_ratio()), 0.0);
}

#[test]
fn playground_test_bool() {
    let data = [(b(true), T), (b(false), F), (b(false), F), (b(false), F), (b(false), F)];
    let d = best(&Schema::Boolean, &data);
    assert!((value_of(d.gain_ratio()) - 1.0).abs() < 1e-12);
}

#[test]
fn playground_test_ref_bool() {
    let data = [(b(true), T), (b(false), F), (b(false), F), (b(false), F), (b(false), F)];
    let d = best(&Schema::Boolean, &data);
    assert_eq!(d.max_branch_width(), 1);
}

#[test]
fn playground_test_usize() {
    let data = [(o(0), T), (o(1), T), (o(2), F), (o(3), F), (o(4), F)];
    let d = best(&Schema::Ordinal, &data);
    assert_eq!(d.test(), Test::LessThan(2));
}

#[test]
fn playground_test_tuple() {
    let schema = pair_schema(Schema::Ordinal, Schema::Ordinal);
    let data = [
        (pair(o(0), o(0)), T),
        (pair(o(0), o(1)), F),
        (pair(o(1), o(0)), F),
        (pair(o(1), o(1)), F),
    ];
    let d = best(&schema, &data);
    assert_eq!(d.path(), vec![0]);
}

#[test]
fn playground_test_recursive_tuple() {
    let schema = pair_schema(
        pair_schema(Schema::Ordinal, Schema::Ordinal),
        pair_schema(Schema::Boolean, Schema::Boolean),
    );
    let data = [
        (pair(pair(o(0), o(0)), pair(b(true), b(true))), T),
        (pair(pair(o(0), o(1)), pair(b(false), b(false))), F),
        (pair(pair(o(1), o(0)), pair(b(true), b(true))), F),
        (pair(pair(o(1), o(1)), pair(b(false), b(false))), F),
    ];
    let d = best(&schema, &data);
    assert_eq!(d.path(), vec![0, 0]);
}

#[test]
fn playground_test_list() {
    let schema = Schema::Array(vec![Schema::Boolean, Schema::Boolean]);
    let list = |x: bool, y: bool| Value::Array(vec![b(x), b(y)]);
    let data = [(list(true, true), T), (list(true, false), F), (list(false, true), F), (list(false, false), T)];
    let d = best(&schema, &data);
    assert_eq!(d.path(), vec![0]);
}

#[test]
fn playground3_test_bool() {
    let inner = || Schema::Array(vec![Schema::Boolean, Schema::Boolean]);
    let schema = Schema::Array(vec![inner(), inner()]);
    let rec = |aa: bool, ab: bool, ba: bool, bb: bool| {
        Value::Array(vec![Value::Array(vec![b(aa), b(ab)]), Value::Array(vec![b(ba), b(bb)])])
    };
    let mut data = [(rec(true, true, false, true), T), (rec(true, true, true, true), F)];
    let tree = TreeBuilder::default().build(&schema, &mut data, &gain_ratio).unwrap();
    let (decision, yes, no) = node(&tree);
    assert_eq!(decision.path(), vec![1, 0]);
    assert_eq!(decision.test(), Test::IsTrue);
    assert_eq!(leaf_label(yes), F);
    assert_eq!(leaf_label(no), T);
}

#[test]
fn tree_builder_test_bool() {
    let mut data = [(b(true), 1), (b(false), 2)];
    let tree = TreeBuilder::default().build(&Schema::Boolean, &mut data, &gain_ratio).unwrap();
    let (decision, yes, no) = node(&tree);
    assert_eq!(decision.test(), Test::IsTrue);
    assert!(decision.path().is_empty());
    assert_eq!(leaf_label(yes), 1);
    assert_eq!(leaf_label(no), 2);
}

#[test]
fn eq_macro_test_enum() {
    // the enum's variants A and B as category codes 0 and 1
    let mut data = [(Value::Categorical(0), 1), (Value::Categorical(1), 2)];
    let tree = TreeBuilder::default().build(&Schema::Categorical, &mut data, &gain_ratio).unwrap();
    let (decision, yes, no) = node(&tree);
    assert_eq!(decision.test(), Test::EqualTo(0));
    assert_eq!(leaf_label(yes), 1);
    assert_eq!(leaf_label(no), 2);
}

#[test]
fn ord_macro_test_enum() {
    // the enum orders A above B: A as rank 1, B as rank 0
    let mut data = [(o(1), 1), (o(0), 2)];
    let tree = TreeBuilder::default().build(&Schema::Ordinal, &mut data, &gain_ratio).unwrap();
    let (decision, yes, no) = node(&tree);
    assert_eq!(decision.test(), Test::LessThan(1));
    assert_eq!(leaf_label(yes), 2);
    assert_eq!(leaf_label(no), 1);
}

#[test]
fn single_boolean_split_scenario() {
    let mut data = [(b(false), T), (b(true), F)];
    let tree = TreeBuilder::default().build(&Schema::Boolean, &mut data, &gain_ratio).unwrap();
    let (decision, yes, no) = node(&tree);
    assert_eq!(decision.test(), Test::IsTrue);
    assert_eq!(value_of(decision.gain_ratio()), 1.0);
    assert_eq!(leaf_label(yes), F);
    assert_eq!(leaf_label(no), T);
    assert!(matches!(yes, DecisionTree::Leaf { conflicts: None, .. }));
    assert_eq!(tree.predict(&b(false)), T);
    assert_eq!(tree.predict(&b(true)), F);
}

#[test]
fn uninformative_ordinals_scenario() {
    let schema = pair_schema(Schema::Ordinal, Schema::Ordinal);
    let mut data = [
        (pair(o(0), o(0)), F),
        (pair(o(0), o(0)), T),
        (pair(o(1), o(1)), T),
        (pair(o(1), o(1)), F),
    ];
    let builder = TreeBuilder { max_depth: 100, show_conflicted_leaves: true };
    let tree = builder.build(&schema, &mut data, &gain_ratio).unwrap();
    let (decision, yes, no) = node(&tree);
    assert_eq!(value_of(decision.gain_ratio()), 0.0);
    assert_eq!(decision.path(), vec![0]);
    assert_eq!(decision.test(), Test::LessThan(1));
    // no attribute separates the remaining examples: majority vote, a tie won by the
    // least label, with the conflicting counts reported
    for leaf in [yes, no] {
        match leaf {
            DecisionTree::Leaf { label, conflicts } => {
                assert_eq!(*label, F);
                let mut c = conflicts.clone().unwrap();
                c.sort();
                assert_eq!(c, vec![(F, 1), (T, 1)]);
            }
            DecisionTree::Node { .. } => panic!("expected a leaf"),
        }
    }
}

#[test]
fn composite_picks_categorical_component_scenario() {
    let schema = pair_schema(Schema::Ordinal, Schema::Categorical);
    let data = [
        (pair(o(0), Value::Categorical(7)), T),
        (pair(o(1), Value::Categorical(7)), T),
        (pair(o(0), Value::Categorical(9)), F),
        (pair(o(1), Value::Categorical(9)), F),
    ];
    let d = best(&schema, &data);
    assert!(matches!(d, Decision::Tuple2(decision_tree_builder::Tuple2Decision::B(_))));
    assert_eq!(d.path(), vec![1]);
    assert_eq!(d.test(), Test::EqualTo(7));
    assert_eq!(value_of(d.gain_ratio()), 1.0);
}

#[test]
fn single_label_is_immediate_leaf_scenario() {
    let mut data = [(o(3), T), (o(1), T), (o(2), T)];
    let builder = TreeBuilder { max_depth: 100, show_conflicted_leaves: true };
    let tree = builder.build(&Schema::Ordinal, &mut data, &gain_ratio).unwrap();
    assert!(matches!(tree, DecisionTree::Leaf { label: T, conflicts: None }));
    assert_eq!(data, [(o(3), T), (o(1), T), (o(2), T)]);
}

#[test]
fn depth_limit_forces_majority_leaves() {
    let mut data = [(o(0), T), (o(1), F), (o(2), T), (o(3), F), (o(4), F)];
    let builder = TreeBuilder { max_depth: 0, show_conflicted_leaves: false };
    let tree = builder.build(&Schema::Ordinal, &mut data, &gain_ratio).unwrap();
    let (_, yes, no) = node(&tree);
    assert!(matches!(yes, DecisionTree::Leaf { conflicts: None, .. }));
    assert!(matches!(no, DecisionTree::Leaf { conflicts: None, .. }));
}

#[test]
fn equally_ranked_thresholds_keep_the_first_value() {
    // a later-proposed threshold that ranks higher still wins
    let data = [(o(4), F), (o(2), F), (o(1), T), (o(3), F), (o(5), F)];
    let d = best(&Schema::Ordinal, &data);
    assert_eq!(d.test(), Test::LessThan(2));
    let data = [(o(1), T), (o(2), F), (o(3), F), (o(4), F), (o(5), T)];
    let d = best(&Schema::Ordinal, &data);
    // 2 and 5 tie; 2 is proposed by an earlier record
    assert_eq!(d.test(), Test::LessThan(2));
}

#[test]
fn grown_tree_classifies_its_examples() {
    let schema = Schema::Array(vec![Schema::Ordinal, Schema::Boolean, Schema::Categorical]);
    let rec = |x: i64, y: bool, z: u64| Value::Array(vec![o(x), b(y), Value::Categorical(z)]);
    let mut data = vec![
        (rec(1, true, 3), 10),
        (rec(5, true, 3), 11),
        (rec(2, false, 4), 12),
        (rec(7, false, 3), 11),
        (rec(3, true, 4), 12),
        (rec(9, false, 4), 10),
        (rec(4, false, 5), 12),
    ];
    let tree = TreeBuilder::default().build(&schema, &mut data, &gain_ratio).unwrap();
    assert_eq!(data.len(), 7);
    for (v, l) in &data {
        assert_eq!(tree.predict(v), *l);
    }
}

#[test]
fn empty_examples_are_rejected() {
    let mut data: Vec<(Value, u64)> = Vec::new();
    let r = TreeBuilder::default().build(&Schema::Boolean, &mut data, &gain_ratio);
    assert_eq!(r.err(), Some(BuildError::EmptyExamples));
}

#[test]
fn record_of_wrong_shape_is_rejected() {
    let schema = pair_schema(Schema::Ordinal, Schema::Boolean);
    let mut data = [(pair(o(1), b(true)), T), (pair(o(1), o(2)), F), (b(true), F)];
    let r = TreeBuilder::default().build(&schema, &mut data, &gain_ratio);
    assert_eq!(r.err(), Some(BuildError::SchemaMismatch(1)));
    assert_eq!(data[1], (pair(o(1), o(2)), F));
}

#[test]
fn conformance_checks_every_field() {
    let schema = Schema::Array(vec![Schema::Boolean, pair_schema(Schema::Ordinal, Schema::Categorical)]);
    let good = Value::Array(vec![b(true), pair(o(4), Value::Categorical(2))]);
    let short = Value::Array(vec![b(true)]);
    let wrong = Value::Array(vec![b(true), pair(o(4), o(2))]);
    assert!(value_conforms(&good, &schema));
    assert!(!value_conforms(&short, &schema));
    assert!(!value_conforms(&wrong, &schema));
}

#[test]
fn counts_and_majority() {
    let data = [((), 4u64), ((), 2), ((), 4), ((), 2), ((), 9)];
    let counts = to_counts(&data);
    assert_eq!(counts, vec![(4, 2), (2, 2), (9, 1)]);
    // a tie between 4 and 2 goes to the least label
    assert_eq!(majority(&counts), 2);
    assert_eq!(majority(&vec![(5, 1), (3, 4), (8, 2)]), 3);
}

#[test]
fn decision_follows_its_path() {
    let schema = pair_schema(Schema::Boolean, Schema::Array(vec![Schema::Ordinal, Schema::Ordinal]));
    let rec = |x: i64, y: i64| pair(b(true), Value::Array(vec![o(x), o(y)]));
    let data = [(rec(0, 5), T), (rec(0, 1), F), (rec(0, 6), T), (rec(0, 2), F)];
    let d = best(&schema, &data);
    assert_eq!(d.path(), vec![1, 1]);
    assert_eq!(d.test(), Test::LessThan(5));
    assert!(d.holds(&rec(9, 4)));
    assert!(!d.holds(&rec(0, 5)));
    assert!(!d.holds(&b(true)));
}

#[test]
fn empty_branch_split_scores_exactly_zero() {
    let data = [(o(4), T), (o(4), F), (o(4), F)];
    let labels = labels_of(&data);
    // nothing is below 4: one branch is empty
    let e = decision_tree_builder::evaluate(&data, &Vec::new(), Test::LessThan(4), &labels, &gain_ratio);
    assert_eq!(e.gain_ratio.bits, 0);
    assert_eq!(e.max_branch_width, 3);
    // a scorer that would give NaN is not consulted for it
    let nan_scorer = |_: &Vec<usize>, _: &Vec<usize>| GainRatio::from_bits(f64::NAN.to_bits());
    let e = decision_tree_builder::evaluate(&data, &Vec::new(), Test::LessThan(4), &labels, &nan_scorer);
    assert!(!e.gain_ratio.is_nan());
    let e = decision_tree_builder::evaluate(&data, &Vec::new(), Test::LessThan(5), &labels, &nan_scorer);
    assert_eq!(e.gain_ratio.bits, 0);
}

#[test]
fn evaluate_counts_branches_per_label() {
    let data = [(o(1), T), (o(2), F), (o(3), T), (o(4), F), (o(5), F)];
    let labels = labels_of(&data);
    assert_eq!(labels, vec![T, F]);
    let seen = std::cell::RefCell::new(Vec::new());
    let recording = |yes: &Vec<usize>, no: &Vec<usize>| {
        seen.borrow_mut().push((yes.clone(), no.clone()));
        GainRatio::from_bits(0.25f64.to_bits())
    };
    let e = decision_tree_builder::evaluate(&data, &Vec::new(), Test::LessThan(4), &labels, &recording);
    assert_eq!(seen.borrow().clone(), vec![(vec![2, 1], vec![0, 2])]);
    assert_eq!(f64::from_bits(e.gain_ratio.bits), 0.25);
    assert_eq!(e.max_branch_width, 3);
}

//! Top-down induction of the decision tree.
use vstd::prelude::*;
use crate::counts::{in_first_occurrence_order, is_distribution, label_pred, is_majority, label_count, lemma_count_where_perm, lemma_label_count_positive, lemma_perm_contains, majority, to_counts};
use crate::decision::Decision;
use crate::eval::GainRatio;
use crate::partition::split_data;
use crate::schema::{Schema, Value, conforms, value_conforms};
use crate::strategy::{find_best_decision, is_best, is_first_best, labels_cover, lemma_best_perm, valid_scorer};

verus! {

broadcast use vstd::seq_lib::group_to_multiset_ensures;

/// The decision procedure: tests on attributes that end in predicted labels.
#[derive(Debug)]
pub enum DecisionTree {
    /// A predicted label; when the examples that reached it disagree and conflicts
    /// are reported, their label distribution too.
    Leaf { label: u64, conflicts: Option<Vec<(u64, usize)>> },
    /// A test: records that meet it follow `yes`, the others `no`.
    Node { decision: Decision, yes: Box<DecisionTree>, no: Box<DecisionTree> },
}

/// Why no tree can be built.
#[derive(Debug, Clone, Copy, PartialEq, Eq, Structural)]
pub enum BuildError {
    /// There are no examples.
    EmptyExamples,
    /// The record of the example at this position does not have the shape of the schema.
    SchemaMismatch(usize),
}

/// The settings of an induction.
#[derive(Debug)]
pub struct TreeBuilder {
    /// Nodes deeper than this become leaves by majority vote (the root is at depth 0).
    pub max_depth: usize,
    /// Whether leaves whose examples disagree carry their label distribution.
    pub show_conflicted_leaves: bool,
}

/// The depth of the node under construction.
struct TreeBuilderContext {
    depth: usize,
}

impl TreeBuilderContext {
    fn new() -> (r: Self)
        ensures
            r.depth == 0,
    {
        TreeBuilderContext { depth: 0 }
    }

    fn next(&self) -> (r: Self)
        requires
            self.depth < usize::MAX,
        ensures
            r.depth == self.depth + 1,
    {
        TreeBuilderContext { depth: self.depth + 1 }
    }
}

impl Default for TreeBuilder {
    fn default() -> (r: Self)
        ensures
            r.max_depth == 100,
            !r.show_conflicted_leaves,
    {
        TreeBuilder { max_depth: 100, show_conflicted_leaves: false }
    }
}

/// Whether `labels` lists the labels of `s`, each once, in the order of their first
/// occurrence.
pub open spec fn is_label_list(s: Seq<(Value, u64)>, labels: Seq<u64>) -> bool {
    exists|counts: Seq<(u64, usize)>|
        #![trigger is_distribution(counts, s)]
        is_distribution(counts, s) && in_first_occurrence_order(counts, s) && labels.len()
            == counts.len() && forall|i: int| 0 <= i < labels.len() ==> #[trigger] labels[i] == counts[i].0
}

/// Whether all examples of `s` carry the same label.
pub open spec fn is_pure(s: Seq<(Value, u64)>) -> bool {
    forall|i: int, j: int| 0 <= i < s.len() && 0 <= j < s.len() ==> #[trigger] s[i].1 == #[trigger] s[j].1
}

/// Whether the first `k` examples of `s` meet the decision and the rest do not.
pub open spec fn is_split(d: Decision, s: Seq<(Value, u64)>, k: int) -> bool {
    &&& 0 <= k <= s.len()
    &&& forall|i: int| 0 <= i < k ==> #[trigger] d.spec_holds(s[i].0)
    &&& forall|i: int| k <= i < s.len() ==> !#[trigger] d.spec_holds(s[i].0)
}

/// Whether the decision sends every example of `s` to the same branch.
pub open spec fn is_degenerate(d: Decision, s: Seq<(Value, u64)>) -> bool {
    (forall|i: int| 0 <= i < s.len() ==> #[trigger] d.spec_holds(s[i].0)) || (forall|i: int|
        0 <= i < s.len() ==> !#[trigger] d.spec_holds(s[i].0))
}

/// The label that the tree predicts for the record `v`.
pub open spec fn classify(t: DecisionTree, v: Value) -> u64
    decreases t,
{
    match t {
        DecisionTree::Leaf { label, .. } => label,
        DecisionTree::Node { decision, yes, no } => if decision.spec_holds(v) {
            classify(*yes, v)
        } else {
            classify(*no, v)
        },
    }
}

/// The number of tests on the longest path from the root to a leaf.
pub open spec fn height(t: DecisionTree) -> nat
    decreases t,
{
    match t {
        DecisionTree::Leaf { .. } => 0,
        DecisionTree::Node { yes, no, .. } => 1 + if height(*yes) >= height(*no) {
            height(*yes)
        } else {
            height(*no)
        },
    }
}

impl DecisionTree {
    /// The label that the tree predicts for the record `v`.
    pub fn predict(&self, v: &Value) -> (r: u64)
        ensures
            r == classify(*self, *v),
        decreases self,
    {
        match self {
            DecisionTree::Leaf { label, .. } => *label,
            DecisionTree::Node { decision, yes, no } => {
                if decision.holds(v) {
                    yes.predict(v)
                } else {
                    no.predict(v)
                }
            },
        }
    }
}

/// The number of leaves of the tree.
pub open spec fn leaf_count(t: DecisionTree) -> nat
    decreases t,
{
    match t {
        DecisionTree::Leaf { .. } => 1,
        DecisionTree::Node { yes, no, .. } => leaf_count(*yes) + leaf_count(*no),
    }
}

impl TreeBuilder {
    /// Whether a leaf with this label and conflict report is right for the examples
    /// `s`: the label is the majority vote, and the distribution is attached exactly
    /// when conflicts are reported and the examples disagree.
    pub open spec fn leaf_fits(
        self,
        label: u64,
        conflicts: Option<Vec<(u64, usize)>>,
        s: Seq<(Value, u64)>,
    ) -> bool {
        &&& s.len() > 0
        &&& is_majority(s, label)
        &&& match conflicts {
            Some(c) => self.show_conflicted_leaves && !is_pure(s) && is_distribution(c@, s),
            None => !self.show_conflicted_leaves || is_pure(s),
        }
    }

    /// Whether induction stops at the examples `s` at this depth: they share one
    /// label, the depth is exhausted, or a best split found for them leaves one branch
    /// empty (or there is no attribute to split on).
    pub open spec fn stops<F: Fn(&Vec<usize>, &Vec<usize>) -> GainRatio>(
        self,
        schema: Schema,
        scorer: F,
        s: Seq<(Value, u64)>,
        depth: int,
    ) -> bool {
        ||| is_pure(s)
        ||| depth > self.max_depth
        ||| exists|labels: Seq<u64>, r: Option<Decision>|
            labels_cover(s, labels) && #[trigger] is_best(scorer, schema, Seq::empty(), s, labels, r)
                && (r is None || is_degenerate(r->0, s))
    }

    /// Whether `t` is the tree that induction grows from the examples `s`, in the
    /// order they are left in, starting at `depth`: a leaf where induction stops, and
    /// otherwise a node on a best split, whose examples meeting the test come first
    /// and grow the `yes` subtree, the rest the `no` subtree.
    pub open spec fn grown_from<F: Fn(&Vec<usize>, &Vec<usize>) -> GainRatio>(
        self,
        schema: Schema,
        scorer: F,
        t: DecisionTree,
        s: Seq<(Value, u64)>,
        depth: int,
    ) -> bool
        decreases t,
    {
        match t {
            DecisionTree::Leaf { label, conflicts } => self.stops(schema, scorer, s, depth)
                && self.leaf_fits(label, conflicts, s),
            DecisionTree::Node { decision, yes, no } => {
                &&& !is_pure(s)
                &&& depth <= self.max_depth
                &&& exists|labels: Seq<u64>|
                    labels_cover(s, labels) && #[trigger] is_best(
                        scorer,
                        schema,
                        Seq::empty(),
                        s,
                        labels,
                        Some(decision),
                    )
                &&& exists|k: int|
                    0 < k < s.len() && #[trigger] is_split(decision, s, k) && self.grown_from(
                        schema,
                        scorer,
                        *yes,
                        s.take(k),
                        depth + 1,
                    ) && self.grown_from(schema, scorer, *no, s.skip(k), depth + 1)
            },
        }
    }

    /// Whether induction stops at the examples `s`, in the order they reach the node:
    /// they share one label, the depth is exhausted, or the first best split for them
    /// in search order leaves one branch empty (or there is no attribute to split on).
    pub open spec fn stops_at<F: Fn(&Vec<usize>, &Vec<usize>) -> GainRatio>(
        self,
        schema: Schema,
        scorer: F,
        s: Seq<(Value, u64)>,
        depth: int,
    ) -> bool {
        ||| is_pure(s)
        ||| depth > self.max_depth
        ||| exists|labels: Seq<u64>, r: Option<Decision>|
            is_label_list(s, labels) && #[trigger] is_first_best(
                scorer,
                schema,
                Seq::empty(),
                s,
                labels,
                r,
            ) && (r is None || is_degenerate(r->0, s))
    }

    /// Whether `t` is the tree that induction chooses for the examples `s` in the order
    /// they reach the node: at each node the first best split in search order, the
    /// candidates scored with the node's labels in order of first occurrence; the
    /// examples are then grouped by the test (in some order inside each group) and the
    /// groups grow the subtrees.
    pub open spec fn chosen_from<F: Fn(&Vec<usize>, &Vec<usize>) -> GainRatio>(
        self,
        schema: Schema,
        scorer: F,
        t: DecisionTree,
        s: Seq<(Value, u64)>,
        depth: int,
    ) -> bool
        decreases t,
    {
        match t {
            DecisionTree::Leaf { .. } => self.stops_at(schema, scorer, s, depth),
            DecisionTree::Node { decision, yes, no } => {
                &&& !is_pure(s)
                &&& depth <= self.max_depth
                &&& exists|labels: Seq<u64>|
                    is_label_list(s, labels) && #[trigger] is_first_best(
                        scorer,
                        schema,
                        Seq::empty(),
                        s,
                        labels,
                        Some(decision),
                    )
                &&& exists|parted: Seq<(Value, u64)>, k: int|
                    0 < k < s.len() && parted.to_multiset() == s.to_multiset() && #[trigger] is_split(
                        decision,
                        parted,
                        k,
                    ) && self.chosen_from(schema, scorer, *yes, parted.take(k), depth + 1)
                        && self.chosen_from(schema, scorer, *no, parted.skip(k), depth + 1)
            },
        }
    }

    /// Builds the decision tree for the examples `data` over the attributes of
    /// `schema`, scoring each candidate split with `scorer` (the gain ratio of two
    /// branch label distributions, each a count per label in one shared label order).
    /// The examples are reordered in place, so that the examples of every subtree lie
    /// next to each other; none is added or removed. Fails when there are no examples,
    /// or when a record does not have the shape of the schema (the first such one is
    /// named); `data` is then left as it was. Examples that all carry one label give a
    /// single leaf and are left in place. At each node the split is the first best one
    /// in search order for the examples in the order they reach the node; below the
    /// root that order depends on how partitioning arranges each group, which is left
    /// open.
    pub fn build<F: Fn(&Vec<usize>, &Vec<usize>) -> GainRatio>(
        &self,
        schema: &Schema,
        data: &mut [(Value, u64)],
        scorer: &F,
    ) -> (r: Result<DecisionTree, BuildError>)
        requires
            valid_scorer(*scorer),
        ensures
            r is Ok <==> old(data)@.len() > 0 && forall|i: int|
                0 <= i < old(data)@.len() ==> conforms(#[trigger] old(data)@[i].0, *schema),
            match r {
                Ok(t) => {
                    &&& final(data)@.to_multiset() == old(data)@.to_multiset()
                    &&& self.grown_from(*schema, *scorer, t, final(data)@, 0)
                    &&& self.chosen_from(*schema, *scorer, t, old(data)@, 0)
                    &&& is_pure(old(data)@) ==> final(data)@ == old(data)@
                },
                Err(BuildError::EmptyExamples) => old(data)@.len() == 0 && final(data)@ == old(
                    data,
                )@,
                Err(BuildError::SchemaMismatch(i)) => {
                    &&& old(data)@.len() > 0
                    &&& i < old(data)@.len()
                    &&& !conforms(old(data)@[i as int].0, *schema)
                    &&& forall|j: int| 0 <= j < i ==> conforms(#[trigger] old(data)@[j].0, *schema)
                    &&& final(data)@ == old(data)@
                },
            },
    {
        if data.len() == 0 {
            return Err(BuildError::EmptyExamples);
        }
        let mut i: usize = 0;
        while i < data.len()
            invariant
                i <= data@.len(),
                data@ == old(data)@,
                forall|j: int| 0 <= j < i ==> conforms(#[trigger] data@[j].0, *schema),
            decreases data@.len() - i,
        {
            if !value_conforms(&data[i].0, schema) {
                return Err(BuildError::SchemaMismatch(i));
            }
            i += 1;
        }
        let context = TreeBuilderContext::new();
        Ok(self.build_branch(schema, &context, data, scorer))
    }

    /// A leaf for the examples `data`, whose label distribution is `counts`.
    fn make_leaf(&self, data: &[(Value, u64)], counts: Vec<(u64, usize)>) -> (r: DecisionTree)
        requires
            data@.len() > 0,
            is_distribution(counts@, data@),
        ensures
            r matches DecisionTree::Leaf { label, conflicts } && self.leaf_fits(
                label,
                conflicts,
                data@,
            ),
            r is Leaf,
    {
        proof {
            lemma_pure_iff_single(data@, counts@);
        }
        let label = majority(&counts);
        proof {
            lemma_majority(data@, counts@, label);
        }
        let conflicts = if self.show_conflicted_leaves && counts.len() > 1 {
            Some(counts)
        } else {
            None
        };
        DecisionTree::Leaf { label, conflicts }
    }

    /// A node on the first best split of `s`, grouped into `parted` at `k`, whose
    /// subtrees were grown from the two groups and left them as `fin` holds them.
    proof fn lemma_node<F: Fn(&Vec<usize>, &Vec<usize>) -> GainRatio>(
        self,
        schema: Schema,
        scorer: F,
        decision: Decision,
        yes: DecisionTree,
        no: DecisionTree,
        s: Seq<(Value, u64)>,
        parted: Seq<(Value, u64)>,
        fin: Seq<(Value, u64)>,
        labels: Seq<u64>,
        k: int,
        depth: int,
    )
        requires
            !is_pure(s),
            depth <= self.max_depth,
            is_label_list(s, labels),
            labels_cover(s, labels),
            is_first_best(scorer, schema, Seq::empty(), s, labels, Some(decision)),
            parted.to_multiset() == s.to_multiset(),
            parted.len() == s.len() == fin.len(),
            0 < k < s.len(),
            is_split(decision, parted, k),
            fin.take(k).to_multiset() == parted.take(k).to_multiset(),
            fin.skip(k).to_multiset() == parted.skip(k).to_multiset(),
            self.grown_from(schema, scorer, yes, fin.take(k), depth + 1),
            self.grown_from(schema, scorer, no, fin.skip(k), depth + 1),
            self.chosen_from(schema, scorer, yes, parted.take(k), depth + 1),
            self.chosen_from(schema, scorer, no, parted.skip(k), depth + 1),
        ensures
            fin.to_multiset() == s.to_multiset(),
            self.grown_from(
                schema,
                scorer,
                DecisionTree::Node { decision, yes: Box::new(yes), no: Box::new(no) },
                fin,
                depth,
            ),
            self.chosen_from(
                schema,
                scorer,
                DecisionTree::Node { decision, yes: Box::new(yes), no: Box::new(no) },
                s,
                depth,
            ),
    {
        let (pa, pb) = (parted.take(k), parted.skip(k));
        let (fa, fb) = (fin.take(k), fin.skip(k));
        assert(parted =~= pa + pb);
        assert(fin =~= fa + fb);
        vstd::seq_lib::lemma_multiset_commutative(pa, pb);
        vstd::seq_lib::lemma_multiset_commutative(fa, fb);
        assert(fin.to_multiset() == s.to_multiset());
        lemma_best_perm(scorer, schema, Seq::empty(), s, fin, labels, Some(decision));
        lemma_pure_perm(s, fin);
        assert forall|i: int| 0 <= i < k implies #[trigger] decision.spec_holds(fin[i].0) by {
            lemma_perm_contains(fa, pa, i);
            let j = choose|j: int| 0 <= j < pa.len() && pa[j] == fa[i];
            assert(decision.spec_holds(parted[j].0));
        }
        assert forall|i: int| k <= i < fin.len() implies !#[trigger] decision.spec_holds(fin[i].0) by {
            lemma_perm_contains(fb, pb, i - k);
            let j = choose|j: int| 0 <= j < pb.len() && pb[j] == fb[i - k];
            assert(!decision.spec_holds(parted[j + k].0));
        }
        assert(is_split(decision, fin, k));
    }

    /// Grows the tree for `data`, reordering it in place.
    fn build_branch<F: Fn(&Vec<usize>, &Vec<usize>) -> GainRatio>(
        &self,
        schema: &Schema,
        context: &TreeBuilderContext,
        data: &mut [(Value, u64)],
        scorer: &F,
    ) -> (r: DecisionTree)
        requires
            old(data)@.len() > 0,
            context.depth + old(data)@.len() <= usize::MAX,
            valid_scorer(*scorer),
        ensures
            final(data)@.to_multiset() == old(data)@.to_multiset(),
            final(data)@.len() == old(data)@.len(),
            self.grown_from(*schema, *scorer, r, final(data)@, context.depth as int),
            self.chosen_from(*schema, *scorer, r, old(data)@, context.depth as int),
            is_pure(old(data)@) || context.depth > self.max_depth ==> final(data)@ == old(data)@,
        decreases old(data)@.len(),
    {
        let ghost s = data@;
        let counts = to_counts(data);
        proof {
            lemma_pure_iff_single(s, counts@);
        }
        if counts.len() < 2 || context.depth > self.max_depth {
            return self.make_leaf(data, counts);
        }
        let mut labels: Vec<u64> = Vec::new();
        let mut j: usize = 0;
        while j < counts.len()
            invariant
                j <= counts@.len(),
                labels@.len() == j,
                forall|i: int| 0 <= i < j ==> #[trigger] labels@[i] == counts@[i].0,
            decreases counts@.len() - j,
        {
            labels.push(counts[j].0);
            j += 1;
        }
        proof {
            lemma_labels_cover(s, counts@, labels@);
            assert(is_label_list(s, labels@)) by {
                assert(is_distribution(counts@, s));
            }
        }
        let mut prefix: Vec<usize> = Vec::new();
        let found = find_best_decision(schema, &mut prefix, data, &labels, scorer);
        assert(prefix@ =~= Seq::<usize>::empty());
        let decision = match found {
            Some(d) => d,
            None => {
                assert(is_best(*scorer, *schema, Seq::empty(), s, labels@, None));
                return self.make_leaf(data, counts);
            },
        };
        assert(is_best(*scorer, *schema, Seq::empty(), s, labels@, Some(decision)));
        let chosen = &decision;
        let meets = |e: &(Value, u64)| -> (b: bool)
            ensures
                b == chosen.spec_holds(e.0),
            { chosen.holds(&e.0) };
        let split = split_data(data, meets);
        let ghost parted = data@;
        proof {
            lemma_best_perm(*scorer, *schema, Seq::empty(), s, parted, labels@, Some(decision));
            assert(is_split(decision, parted, split as int));
        }
        if split == 0 || split == data.len() {
            proof {
                assert(is_degenerate(decision, parted));
                lemma_distribution_perm(s, parted, counts@);
                lemma_degenerate_perm(decision, parted, s);
                assert(is_first_best(*scorer, *schema, Seq::empty(), s, labels@, Some(decision)));
            }
            return self.make_leaf(data, counts);
        }
        let next = context.next();
        let (a, b) = data.split_at_mut(split);
        let ghost (pa, pb) = (a@, b@);
        let yes = self.build_branch(schema, &next, a, scorer);
        let no = self.build_branch(schema, &next, b, scorer);
        let ghost (fa, fb) = (a@, b@);
        let ghost fin = data@;
        proof {
            let k = split as int;
            assert(fin =~= fa + fb);
            assert(fin.take(k) =~= fa);
            assert(fin.skip(k) =~= fb);
            assert(pa =~= parted.take(k));
            assert(pb =~= parted.skip(k));
            self.lemma_node(*schema, *scorer, decision, yes, no, s, parted, fin, labels@, k, context.depth as int);
        }
        DecisionTree::Node { decision, yes: Box::new(yes), no: Box::new(no) }
    }
}

/// How many examples of `s` a node with decision `d` sends to its `yes` subtree.
pub open spec fn split_index(d: Decision, s: Seq<(Value, u64)>) -> int {
    choose|k: int| 0 < k < s.len() && #[trigger] is_split(d, s, k)
}

/// Whether the record `v`, in the tree grown from `s`, ends in a leaf whose examples
/// all carry one label.
pub open spec fn ends_in_pure_leaf(t: DecisionTree, s: Seq<(Value, u64)>, v: Value) -> bool
    decreases t,
{
    match t {
        DecisionTree::Leaf { .. } => is_pure(s),
        DecisionTree::Node { decision, yes, no } => {
            let k = split_index(decision, s);
            if decision.spec_holds(v) {
                ends_in_pure_leaf(*yes, s.take(k), v)
            } else {
                ends_in_pure_leaf(*no, s.skip(k), v)
            }
        },
    }
}

/// A decision splits the examples at one index at most.
proof fn lemma_split_unique(d: Decision, s: Seq<(Value, u64)>, k1: int, k2: int)
    requires
        is_split(d, s, k1),
        is_split(d, s, k2),
    ensures
        k1 == k2,
{
    if k1 < k2 {
        assert(d.spec_holds(s[k1].0));
    }
    if k2 < k1 {
        assert(d.spec_holds(s[k2].0));
    }
}

/// Examples that all carry one label grow a single leaf with that label: the
/// induction stops there without searching for a split.
pub proof fn lemma_pure_examples_leaf<F: Fn(&Vec<usize>, &Vec<usize>) -> GainRatio>(
    builder: TreeBuilder,
    schema: Schema,
    scorer: F,
    t: DecisionTree,
    s: Seq<(Value, u64)>,
    depth: int,
)
    requires
        builder.grown_from(schema, scorer, t, s, depth),
        is_pure(s),
    ensures
        t matches DecisionTree::Leaf { label, conflicts } && label == s[0].1 && conflicts is None,
{
    if let DecisionTree::Leaf { label, conflicts } = t {
        lemma_label_count_positive(s, label);
        let i = choose|i: int| 0 <= i < s.len() && #[trigger] s[i].1 == label;
        assert(s[0].1 == s[i].1);
    }
}

/// Every example that ends in a leaf whose examples all carry one label is
/// classified as its own label.
pub proof fn lemma_pure_leaves_agree<F: Fn(&Vec<usize>, &Vec<usize>) -> GainRatio>(
    builder: TreeBuilder,
    schema: Schema,
    scorer: F,
    t: DecisionTree,
    s: Seq<(Value, u64)>,
    depth: int,
    i: int,
)
    requires
        builder.grown_from(schema, scorer, t, s, depth),
        0 <= i < s.len(),
        ends_in_pure_leaf(t, s, s[i].0),
    ensures
        classify(t, s[i].0) == s[i].1,
    decreases t,
{
    match t {
        DecisionTree::Leaf { label, .. } => {
            lemma_label_count_positive(s, label);
            let j = choose|j: int| 0 <= j < s.len() && #[trigger] s[j].1 == label;
            assert(s[i].1 == s[j].1);
        },
        DecisionTree::Node { decision, yes, no } => {
            let k = choose|k: int|
                0 < k < s.len() && #[trigger] is_split(decision, s, k) && builder.grown_from(
                    schema,
                    scorer,
                    *yes,
                    s.take(k),
                    depth + 1,
                ) && builder.grown_from(schema, scorer, *no, s.skip(k), depth + 1);
            lemma_split_unique(decision, s, k, split_index(decision, s));
            if decision.spec_holds(s[i].0) {
                assert(i < k);
                assert(s.take(k)[i] == s[i]);
                lemma_pure_leaves_agree(builder, schema, scorer, *yes, s.take(k), depth + 1, i);
            } else {
                assert(i >= k);
                assert(s.skip(k)[i - k] == s[i]);
                lemma_pure_leaves_agree(builder, schema, scorer, *no, s.skip(k), depth + 1, i - k);
            }
        },
    }
}

/// The tree is finite and small: each test splits its examples into two non-empty
/// parts, so every leaf is reached by at least one example, there are no more leaves
/// than examples, no path has as many tests as there are examples, and no test stands
/// deeper than the depth limit.
pub proof fn lemma_height_bounds<F: Fn(&Vec<usize>, &Vec<usize>) -> GainRatio>(
    builder: TreeBuilder,
    schema: Schema,
    scorer: F,
    t: DecisionTree,
    s: Seq<(Value, u64)>,
    depth: int,
)
    requires
        builder.grown_from(schema, scorer, t, s, depth),
        depth >= 0,
    ensures
        1 <= leaf_count(t) <= s.len(),
        height(t) < s.len(),
        depth <= builder.max_depth + 1 ==> height(t) + depth <= builder.max_depth + 1,
    decreases t,
{
    if let DecisionTree::Node { decision, yes, no } = t {
        let k = choose|k: int|
            0 < k < s.len() && #[trigger] is_split(decision, s, k) && builder.grown_from(
                schema,
                scorer,
                *yes,
                s.take(k),
                depth + 1,
            ) && builder.grown_from(schema, scorer, *no, s.skip(k), depth + 1);
        lemma_height_bounds(builder, schema, scorer, *yes, s.take(k), depth + 1);
        lemma_height_bounds(builder, schema, scorer, *no, s.skip(k), depth + 1);
    }
}

/// Whether a decision sends all examples one way does not depend on their order.
proof fn lemma_degenerate_perm(d: Decision, s1: Seq<(Value, u64)>, s2: Seq<(Value, u64)>)
    requires
        s1.to_multiset() == s2.to_multiset(),
        is_degenerate(d, s1),
    ensures
        is_degenerate(d, s2),
{
    if forall|i: int| 0 <= i < s1.len() ==> #[trigger] d.spec_holds(s1[i].0) {
        assert forall|i: int| 0 <= i < s2.len() implies #[trigger] d.spec_holds(s2[i].0) by {
            lemma_perm_contains(s2, s1, i);
            let j = choose|j: int| 0 <= j < s1.len() && s1[j] == s2[i];
            assert(d.spec_holds(s1[j].0));
        }
    } else {
        assert forall|i: int| 0 <= i < s2.len() implies !#[trigger] d.spec_holds(s2[i].0) by {
            lemma_perm_contains(s2, s1, i);
            let j = choose|j: int| 0 <= j < s1.len() && s1[j] == s2[i];
            assert(!d.spec_holds(s1[j].0));
        }
    }
}

/// Whether the examples share one label does not depend on their order.
proof fn lemma_pure_perm(s1: Seq<(Value, u64)>, s2: Seq<(Value, u64)>)
    requires
        s1.to_multiset() == s2.to_multiset(),
    ensures
        is_pure(s1) == is_pure(s2),
{
    if is_pure(s1) {
        assert forall|i: int, j: int| 0 <= i < s2.len() && 0 <= j < s2.len() implies #[trigger] s2[i].1
            == #[trigger] s2[j].1 by {
            lemma_perm_contains(s2, s1, i);
            lemma_perm_contains(s2, s1, j);
            let a = choose|a: int| 0 <= a < s1.len() && s1[a] == s2[i];
            let b = choose|b: int| 0 <= b < s1.len() && s1[b] == s2[j];
            assert(s1[a].1 == s1[b].1);
        }
    }
    if is_pure(s2) {
        assert forall|i: int, j: int| 0 <= i < s1.len() && 0 <= j < s1.len() implies #[trigger] s1[i].1
            == #[trigger] s1[j].1 by {
            lemma_perm_contains(s1, s2, i);
            lemma_perm_contains(s1, s2, j);
            let a = choose|a: int| 0 <= a < s2.len() && s2[a] == s1[i];
            let b = choose|b: int| 0 <= b < s2.len() && s2[b] == s1[j];
            assert(s2[a].1 == s2[b].1);
        }
    }
}

/// The label distribution does not depend on the order of the examples.
proof fn lemma_distribution_perm(
    s1: Seq<(Value, u64)>,
    s2: Seq<(Value, u64)>,
    counts: Seq<(u64, usize)>,
)
    requires
        s1.to_multiset() == s2.to_multiset(),
        is_distribution(counts, s1),
    ensures
        is_distribution(counts, s2),
{
    assert forall|l: u64| #[trigger] label_count(s2, l) == label_count(s1, l) by {
        lemma_count_where_perm(s1, s2, label_pred::<Value>(l));
    }
}

/// The examples share one label exactly when their label distribution has a single
/// entry; this is how induction recognises a node whose entropy is zero.
pub proof fn lemma_pure_iff_single(s: Seq<(Value, u64)>, counts: Seq<(u64, usize)>)
    requires
        s.len() > 0,
        is_distribution(counts, s),
    ensures
        counts.len() >= 1,
        is_pure(s) <==> counts.len() == 1,
{
    lemma_label_count_positive(s, s[0].1);
    assert(label_count(s, s[0].1) > 0);
    if counts.len() == 1 {
        assert forall|i: int, j: int| 0 <= i < s.len() && 0 <= j < s.len() implies #[trigger] s[i].1
            == #[trigger] s[j].1 by {
            lemma_label_count_positive(s, s[i].1);
            lemma_label_count_positive(s, s[j].1);
        }
    }
    if counts.len() > 1 {
        let (l0, l1) = (counts[0].0, counts[1].0);
        assert(counts[0].1 > 0 && counts[1].1 > 0);
        assert(l0 != l1);
        lemma_label_count_positive(s, l0);
        lemma_label_count_positive(s, l1);
        let i = choose|i: int| 0 <= i < s.len() && #[trigger] s[i].1 == l0;
        let j = choose|j: int| 0 <= j < s.len() && #[trigger] s[j].1 == l1;
        assert(s[i].1 != s[j].1);
    }
}

/// The label that majority vote picks from the distribution is the majority label
/// of the examples.
proof fn lemma_majority(s: Seq<(Value, u64)>, counts: Seq<(u64, usize)>, r: u64)
    requires
        is_distribution(counts, s),
        exists|j: int| 0 <= j < counts.len() && #[trigger] counts[j].0 == r && forall|i: int|
            0 <= i < counts.len() ==> (#[trigger] counts[i].1 < counts[j].1 || (counts[i].1
                == counts[j].1 && r <= counts[i].0)),
    ensures
        is_majority(s, r),
{
    let j = choose|j: int| 0 <= j < counts.len() && #[trigger] counts[j].0 == r && forall|i: int|
        0 <= i < counts.len() ==> (#[trigger] counts[i].1 < counts[j].1 || (counts[i].1
            == counts[j].1 && r <= counts[i].0));
    assert forall|m: u64| #[trigger] label_count(s, m) <= label_count(s, r) && (label_count(s, m)
        == label_count(s, r) ==> r <= m) by {
        assert(counts[j].1 == label_count(s, r));
        if label_count(s, m) > 0 {
            let i = choose|i: int| 0 <= i < counts.len() && #[trigger] counts[i].0 == m;
            assert(counts[i].1 == label_count(s, m));
        }
    }
}

/// The label list drawn from a distribution covers the examples.
proof fn lemma_labels_cover(s: Seq<(Value, u64)>, counts: Seq<(u64, usize)>, labels: Seq<u64>)
    requires
        is_distribution(counts, s),
        labels.len() == counts.len(),
        forall|i: int| 0 <= i < labels.len() ==> #[trigger] labels[i] == counts[i].0,
    ensures
        labels_cover(s, labels),
{
    assert forall|i: int, j: int| 0 <= i < j < labels.len() implies labels[i] != labels[j] by {
        assert(counts[i].0 != counts[j].0);
    }
    assert forall|i: int| #![trigger s[i]] 0 <= i < s.len() implies labels.contains(s[i].1) by {
        lemma_label_count_positive(s, s[i].1);
        assert(label_count(s, s[i].1) > 0);
        let j = choose|j: int| 0 <= j < counts.len() && #[trigger] counts[j].0 == s[i].1;
        assert(labels[j] == s[i].1);
        assert(0 <= j < labels.len());
    }
}

} // verus!

//! Search for the best split: every candidate test on every attribute of the schema
//! is scored, and the best one by the ranking of `DecisionEval` is kept.
use vstd::prelude::*;
use crate::decision::{ArrayDecision, BoolDecision, Decision, EqDecision, OrdDecision, Tuple2Decision};
use crate::counts::{count_where, label_count, label_pred, lemma_count_where_all, lemma_count_where_mono, lemma_count_where_perm, lemma_count_where_split, lemma_perm_contains};
use crate::eval::{DecisionEval, GainRatio, better, lemma_rank_negative_transitive, lemma_rank_transitive};
use crate::schema::{Schema, Test, Value, holds_at, schema_at, schema_child, value_at};

verus! {

/// Whether the scoring function accepts every pair of branch distributions.
pub open spec fn scorer_total<F: Fn(&Vec<usize>, &Vec<usize>) -> GainRatio>(f: F) -> bool {
    forall|a: &Vec<usize>, b: &Vec<usize>| #[trigger] f.requires((a, b))
}

/// Whether the scoring function gives the same gain ratio whenever it is handed the
/// same two branch distributions.
pub open spec fn scorer_deterministic<F: Fn(&Vec<usize>, &Vec<usize>) -> GainRatio>(
    f: F,
) -> bool {
    forall|a1: &Vec<usize>, b1: &Vec<usize>, a2: &Vec<usize>, b2: &Vec<usize>, g1: GainRatio, g2: GainRatio|
        #![trigger f.ensures((a1, b1), g1), f.ensures((a2, b2), g2)]
        a1@ == a2@ && b1@ == b2@ && f.ensures((a1, b1), g1) && f.ensures((a2, b2), g2) ==> g1
            == g2
}

/// A scoring function that may be used: total and deterministic.
pub open spec fn valid_scorer<F: Fn(&Vec<usize>, &Vec<usize>) -> GainRatio>(f: F) -> bool {
    scorer_total(f) && scorer_deterministic(f)
}

/// Whether the scoring function may answer `g` for the branch distributions `a`
/// and `b`.
pub open spec fn produces<F: Fn(&Vec<usize>, &Vec<usize>) -> GainRatio>(
    f: F,
    a: Seq<usize>,
    b: Seq<usize>,
    g: GainRatio,
) -> bool {
    exists|a1: &Vec<usize>, b1: &Vec<usize>|
        a1@ == a && b1@ == b && #[trigger] f.ensures((a1, b1), g)
}

/// The gain ratio that the scoring function gives for the branch distributions `a`
/// and `b` (each a count per label, in the order of the node's label list).
pub open spec fn gain_of<F: Fn(&Vec<usize>, &Vec<usize>) -> GainRatio>(
    f: F,
    a: Seq<usize>,
    b: Seq<usize>,
) -> GainRatio {
    choose|g: GainRatio| #[trigger] produces(f, a, b, g)
}

/// Whether an example carries the label `l` and meets (`side`) or fails (`!side`)
/// the test `t` at `path`.
pub open spec fn side_label_pred(path: Seq<usize>, t: Test, side: bool, l: u64) -> spec_fn(
    (Value, u64),
) -> bool {
    |e: (Value, u64)| e.1 == l && holds_at(e.0, path, t) == side
}

/// Whether an example meets (`side`) or fails (`!side`) the test `t` at `path`.
pub open spec fn side_pred(path: Seq<usize>, t: Test, side: bool) -> spec_fn((Value, u64)) -> bool {
    |e: (Value, u64)| holds_at(e.0, path, t) == side
}

/// How many examples of `s` carry the label `l` and meet (`side`) or fail (`!side`)
/// the test `t` at `path`.
pub open spec fn side_label_count(
    s: Seq<(Value, u64)>,
    path: Seq<usize>,
    t: Test,
    side: bool,
    l: u64,
) -> nat {
    count_where(s, side_label_pred(path, t, side, l))
}

/// How many examples of `s` meet (`side`) or fail (`!side`) the test `t` at `path`.
pub open spec fn side_size(s: Seq<(Value, u64)>, path: Seq<usize>, t: Test, side: bool) -> nat {
    count_where(s, side_pred(path, t, side))
}

/// The label distribution of one branch, as a count per entry of `labels`.
pub open spec fn branch_counts(
    s: Seq<(Value, u64)>,
    path: Seq<usize>,
    t: Test,
    side: bool,
    labels: Seq<u64>,
) -> Seq<usize> {
    Seq::new(labels.len(), |j: int| side_label_count(s, path, t, side, labels[j]) as usize)
}

/// How many entries of `cs` are not zero.
pub open spec fn nonzero(cs: Seq<usize>) -> nat
    decreases cs.len(),
{
    if cs.len() == 0 {
        0
    } else {
        nonzero(cs.drop_last()) + if cs.last() != 0 {
            1nat
        } else {
            0nat
        }
    }
}

pub open spec fn max_nat(a: nat, b: nat) -> nat {
    if a >= b {
        a
    } else {
        b
    }
}

/// The width of a candidate split: for a threshold on an ordinal attribute the size
/// of the larger branch, otherwise the larger number of distinct labels in a branch.
pub open spec fn candidate_width(
    s: Seq<(Value, u64)>,
    path: Seq<usize>,
    t: Test,
    labels: Seq<u64>,
) -> nat {
    match t {
        Test::LessThan(_) => max_nat(side_size(s, path, t, true), side_size(s, path, t, false)),
        _ => max_nat(
            nonzero(branch_counts(s, path, t, true, labels)),
            nonzero(branch_counts(s, path, t, false, labels)),
        ),
    }
}

/// The gain ratio of a candidate split: zero when a branch is empty (the split
/// information is then zero), otherwise what the scoring function gives.
pub open spec fn candidate_gain<F: Fn(&Vec<usize>, &Vec<usize>) -> GainRatio>(
    f: F,
    s: Seq<(Value, u64)>,
    path: Seq<usize>,
    t: Test,
    labels: Seq<u64>,
) -> GainRatio {
    if side_size(s, path, t, true) == 0 || side_size(s, path, t, false) == 0 {
        GainRatio::zero_spec()
    } else {
        gain_of(f, branch_counts(s, path, t, true, labels), branch_counts(s, path, t, false, labels))
    }
}

/// The evaluation of splitting `s` by the test `t` at `path`.
pub open spec fn candidate_eval<F: Fn(&Vec<usize>, &Vec<usize>) -> GainRatio>(
    f: F,
    s: Seq<(Value, u64)>,
    path: Seq<usize>,
    t: Test,
    labels: Seq<u64>,
) -> DecisionEval {
    DecisionEval {
        gain_ratio: candidate_gain(f, s, path, t, labels),
        max_branch_width: candidate_width(s, path, t, labels) as usize,
    }
}

/// Whether `labels` lists each label of `s` exactly once.
pub open spec fn labels_cover(s: Seq<(Value, u64)>, labels: Seq<u64>) -> bool {
    &&& forall|i: int, j: int| 0 <= i < j < labels.len() ==> labels[i] != labels[j]
    &&& forall|i: int| #![trigger s[i]] 0 <= i < s.len() ==> labels.contains(s[i].1)
}

/// A call of the scoring function gives the gain ratio that `gain_of` names.
proof fn lemma_gain_of<F: Fn(&Vec<usize>, &Vec<usize>) -> GainRatio>(
    f: F,
    a: &Vec<usize>,
    b: &Vec<usize>,
    g: GainRatio,
)
    requires
        scorer_deterministic(f),
        f.ensures((a, b), g),
    ensures
        gain_of(f, a@, b@) == g,
{
    let g2 = gain_of(f, a@, b@);
    assert(produces(f, a@, b@, g));
    assert(produces(f, a@, b@, g2));
    let (a1, b1) = choose|a1: &Vec<usize>, b1: &Vec<usize>|
        a1@ == a@ && b1@ == b@ && #[trigger] f.ensures((a1, b1), g2);
    assert(f.ensures((a1, b1), g2));
}

/// `n` zeros.
fn zeros(n: usize) -> (r: Vec<usize>)
    ensures
        r@.len() == n,
        forall|j: int| 0 <= j < n ==> #[trigger] r@[j] == 0,
{
    let mut r: Vec<usize> = Vec::new();
    while r.len() < n
        invariant
            r@.len() <= n,
            forall|j: int| 0 <= j < r@.len() ==> #[trigger] r@[j] == 0,
        decreases n - r@.len(),
    {
        r.push(0);
    }
    r
}

/// How many entries of `cs` are not zero.
fn count_nonzero(cs: &Vec<usize>) -> (r: usize)
    ensures
        r == nonzero(cs@),
{
    let mut r: usize = 0;
    let mut j: usize = 0;
    while j < cs.len()
        invariant
            j <= cs@.len(),
            r == nonzero(cs@.take(j as int)),
            r <= j,
        decreases cs@.len() - j,
    {
        assert(cs@.take(j + 1).drop_last() =~= cs@.take(j as int));
        if cs[j] != 0 {
            r += 1;
        }
        j += 1;
    }
    assert(cs@.take(cs@.len() as int) =~= cs@);
    r
}

/// The position of `l` in `labels`.
fn label_position(labels: &Vec<u64>, l: u64) -> (r: usize)
    requires
        exists|j: int| 0 <= j < labels@.len() && #[trigger] labels@[j] == l,
    ensures
        r < labels@.len() && labels@[r as int] == l,
{
    let mut j: usize = 0;
    while j < labels.len()
        invariant
            j <= labels@.len(),
            forall|i: int| 0 <= i < j ==> #[trigger] labels@[i] != l,
            exists|i: int| 0 <= i < labels@.len() && #[trigger] labels@[i] == l,
        decreases labels@.len() - j,
    {
        if labels[j] == l {
            return j;
        }
        j += 1;
    }
    j
}

/// Scores the split of `data` by the test `t` on the attribute at `path`.
pub fn evaluate<F: Fn(&Vec<usize>, &Vec<usize>) -> GainRatio>(
    data: &[(Value, u64)],
    path: &Vec<usize>,
    t: Test,
    labels: &Vec<u64>,
    scorer: &F,
) -> (r: DecisionEval)
    requires
        labels_cover(data@, labels@),
        valid_scorer(*scorer),
    ensures
        r == candidate_eval(*scorer, data@, path@, t, labels@),
{
    let n = data.len();
    let m = labels.len();
    let mut yes = zeros(m);
    let mut no = zeros(m);
    let mut n_yes: usize = 0;
    let mut n_no: usize = 0;
    let mut k: usize = 0;
    while k < n
        invariant
            k <= n == data@.len(),
            m == labels@.len() == yes@.len() == no@.len(),
            labels_cover(data@, labels@),
            n_yes == side_size(data@.take(k as int), path@, t, true),
            n_no == side_size(data@.take(k as int), path@, t, false),
            n_yes <= k && n_no <= k,
            forall|j: int|
                0 <= j < m ==> #[trigger] yes@[j] == side_label_count(
                    data@.take(k as int),
                    path@,
                    t,
                    true,
                    labels@[j],
                ) && yes@[j] <= k,
            forall|j: int|
                0 <= j < m ==> #[trigger] no@[j] == side_label_count(
                    data@.take(k as int),
                    path@,
                    t,
                    false,
                    labels@[j],
                ) && no@[j] <= k,
        decreases n - k,
    {
        let ghost prev = data@.take(k as int);
        let ghost next = data@.take(k + 1);
        proof {
            assert(next.drop_last() =~= prev);
            assert forall|sd: bool, lb: u64| #[trigger] side_label_count(next, path@, t, sd, lb)
                == side_label_count(prev, path@, t, sd, lb) + if next.last().1 == lb && holds_at(
                next.last().0,
                path@,
                t,
            ) == sd {
                1nat
            } else {
                0nat
            } by {}
            assert forall|sd: bool| #[trigger] side_size(next, path@, t, sd) == side_size(
                prev,
                path@,
                t,
                sd,
            ) + if holds_at(next.last().0, path@, t) == sd {
                1nat
            } else {
                0nat
            } by {}
        }
        let side = match data[k].0.at(path) {
            Some(w) => t.holds(w),
            None => false,
        };
        assert(side == holds_at(next.last().0, path@, t));
        let l = data[k].1;
        let j = label_position(labels, l);
        if side {
            let c = yes[j];
            yes.set(j, c + 1);
            n_yes += 1;
        } else {
            let c = no[j];
            no.set(j, c + 1);
            n_no += 1;
        }
        proof {
            assert forall|i: int| 0 <= i < m implies #[trigger] yes@[i] == side_label_count(
                next,
                path@,
                t,
                true,
                labels@[i],
            ) && yes@[i] <= k + 1 by {
                if i != j {
                    assert(labels@[i] != l);
                }
            }
            assert forall|i: int| 0 <= i < m implies #[trigger] no@[i] == side_label_count(
                next,
                path@,
                t,
                false,
                labels@[i],
            ) && no@[i] <= k + 1 by {
                if i != j {
                    assert(labels@[i] != l);
                }
            }
        }
        k += 1;
    }
    proof {
        assert(data@.take(n as int) =~= data@);
        assert(yes@ =~= branch_counts(data@, path@, t, true, labels@));
        assert(no@ =~= branch_counts(data@, path@, t, false, labels@));
    }
    let width: usize = match t {
        Test::LessThan(_) => if n_yes >= n_no {
            n_yes
        } else {
            n_no
        },
        _ => {
            let a = count_nonzero(&yes);
            let b = count_nonzero(&no);
            if a >= b {
                a
            } else {
                b
            }
        },
    };
    let gain_ratio = if n_yes == 0 || n_no == 0 {
        GainRatio::zero()
    } else {
        let g = scorer(&yes, &no);
        proof {
            lemma_gain_of(*scorer, &yes, &no, g);
        }
        g
    };
    DecisionEval { gain_ratio, max_branch_width: width }
}

/// The test that a value of a leaf attribute proposes: its own value as threshold
/// (ordinal) or as test value (categorical).
pub open spec fn leaf_test(leaf: Schema, w: Value) -> Option<Test> {
    match (leaf, w) {
        (Schema::Ordinal, Value::Ordinal(x)) => Some(Test::LessThan(x)),
        (Schema::Categorical, Value::Categorical(x)) => Some(Test::EqualTo(x)),
        _ => None,
    }
}

/// Whether the record `v` proposes the test `t` for the attribute of kind `leaf` at
/// `path`.
pub open spec fn proposes(v: Value, path: Seq<usize>, leaf: Schema, t: Test) -> bool {
    value_at(v, path) matches Some(w) && leaf_test(leaf, w) == Some(t)
}

/// Whether `t` on the attribute at `q` (inside the attribute `sub`, found at `prefix`
/// in the records of `s`) is a candidate split: a boolean attribute is tested for
/// `true`; an ordinal or categorical one against a value that some record holds there.
pub open spec fn is_candidate(
    sub: Schema,
    prefix: Seq<usize>,
    s: Seq<(Value, u64)>,
    q: Seq<usize>,
    t: Test,
) -> bool {
    match schema_at(sub, q) {
        Some(Schema::Boolean) => t == Test::IsTrue,
        Some(leaf) => exists|i: int| 0 <= i < s.len() && #[trigger] proposes(s[i].0, prefix + q, leaf, t),
        None => false,
    }
}

/// No candidate split of `sub` ranks above `e`.
pub open spec fn none_better<F: Fn(&Vec<usize>, &Vec<usize>) -> GainRatio>(
    f: F,
    sub: Schema,
    prefix: Seq<usize>,
    s: Seq<(Value, u64)>,
    labels: Seq<u64>,
    e: DecisionEval,
) -> bool {
    forall|q: Seq<usize>, t: Test|
        #[trigger] is_candidate(sub, prefix, s, q, t) ==> !better(
            candidate_eval(f, s, prefix + q, t, labels),
            e,
        )
}

/// `d` is a candidate split of `sub`, carrying its own evaluation.
pub open spec fn is_scored_candidate<F: Fn(&Vec<usize>, &Vec<usize>) -> GainRatio>(
    f: F,
    sub: Schema,
    prefix: Seq<usize>,
    s: Seq<(Value, u64)>,
    labels: Seq<u64>,
    d: Decision,
) -> bool {
    &&& is_candidate(sub, prefix, s, d.path_spec(), d.test_spec())
    &&& d.eval_spec() == candidate_eval(f, s, prefix + d.path_spec(), d.test_spec(), labels)
}

/// Whether, at the leaf attribute of kind `leaf` at `path`, some record proposes `t1`
/// before any record proposes `t2`.
pub open spec fn proposed_first(
    s: Seq<(Value, u64)>,
    path: Seq<usize>,
    leaf: Schema,
    t1: Test,
    t2: Test,
) -> bool {
    exists|i: int|
        0 <= i < s.len() && #[trigger] proposes(s[i].0, path, leaf, t1) && forall|j: int|
            0 <= j <= i ==> !#[trigger] proposes(s[j].0, path, leaf, t2)
}

/// Whether the candidate `t1` at `q1` comes before the candidate `t2` at `q2` in the
/// order of the search over `sub`: fields in the order of their positions, and inside
/// a leaf attribute values in the order of the first record that holds them.
pub open spec fn comes_before(
    sub: Schema,
    prefix: Seq<usize>,
    s: Seq<(Value, u64)>,
    q1: Seq<usize>,
    t1: Test,
    q2: Seq<usize>,
    t2: Test,
) -> bool
    decreases q1.len(),
{
    if q1.len() == 0 && q2.len() == 0 {
        proposed_first(s, prefix, sub, t1, t2)
    } else if q1.len() == 0 || q2.len() == 0 {
        false
    } else if q1[0] != q2[0] {
        q1[0] < q2[0]
    } else {
        match schema_child(sub, q1[0] as int) {
            Some(c) => comes_before(
                c,
                prefix.push(q1[0]),
                s,
                q1.drop_first(),
                t1,
                q2.drop_first(),
                t2,
            ),
            None => false,
        }
    }
}

/// Every candidate of `sub` that comes before `d` in the search order ranks strictly
/// below it: of equally ranked candidates, `d` is the first.
pub open spec fn first_of_best<F: Fn(&Vec<usize>, &Vec<usize>) -> GainRatio>(
    f: F,
    sub: Schema,
    prefix: Seq<usize>,
    s: Seq<(Value, u64)>,
    labels: Seq<u64>,
    d: Decision,
) -> bool {
    forall|q: Seq<usize>, t: Test|
        #![trigger comes_before(sub, prefix, s, q, t, d.path_spec(), d.test_spec())]
        is_candidate(sub, prefix, s, q, t) && comes_before(
            sub,
            prefix,
            s,
            q,
            t,
            d.path_spec(),
            d.test_spec(),
        ) ==> better(d.eval_spec(), candidate_eval(f, s, prefix + q, t, labels))
}

/// `r` is a best split of `sub`: a scored candidate that no candidate ranks above,
/// or nothing when `sub` has no candidate.
pub open spec fn is_best<F: Fn(&Vec<usize>, &Vec<usize>) -> GainRatio>(
    f: F,
    sub: Schema,
    prefix: Seq<usize>,
    s: Seq<(Value, u64)>,
    labels: Seq<u64>,
    r: Option<Decision>,
) -> bool {
    match r {
        Some(d) => {
            &&& is_scored_candidate(f, sub, prefix, s, labels, d)
            &&& none_better(f, sub, prefix, s, labels, d.eval_spec())
        },
        None => forall|q: Seq<usize>, t: Test| !#[trigger] is_candidate(sub, prefix, s, q, t),
    }
}

/// `r` is the first best split of `sub` in the search order: a best split that every
/// candidate coming before it ranks strictly below.
pub open spec fn is_first_best<F: Fn(&Vec<usize>, &Vec<usize>) -> GainRatio>(
    f: F,
    sub: Schema,
    prefix: Seq<usize>,
    s: Seq<(Value, u64)>,
    labels: Seq<u64>,
    r: Option<Decision>,
) -> bool {
    &&& is_best(f, sub, prefix, s, labels, r)
    &&& r matches Some(d) ==> first_of_best(f, sub, prefix, s, labels, d)
}

/// A candidate inside the field `i` of `sub` is a candidate of that field, found one
/// step further down.
proof fn lemma_field_candidate(
    sub: Schema,
    prefix: Seq<usize>,
    s: Seq<(Value, u64)>,
    i: usize,
    q: Seq<usize>,
    t: Test,
)
    requires
        schema_child(sub, i as int) is Some,
        q.len() > 0,
        q[0] == i,
    ensures
        is_candidate(sub, prefix, s, q, t) == is_candidate(
            schema_child(sub, i as int)->0,
            prefix.push(i),
            s,
            q.drop_first(),
            t,
        ),
        prefix + q == prefix.push(i) + q.drop_first(),
{
    assert(prefix + q =~= prefix.push(i) + q.drop_first());
}

/// A leaf attribute has candidates at its own path only.
proof fn lemma_leaf_candidates(sub: Schema, prefix: Seq<usize>, s: Seq<(Value, u64)>, q: Seq<usize>, t: Test)
    requires
        sub is Boolean || sub is Ordinal || sub is Categorical,
        is_candidate(sub, prefix, s, q, t),
    ensures
        q.len() == 0,
        prefix + q == prefix,
{
    if q.len() > 0 {
        assert(schema_child(sub, q[0] as int) is None);
    }
    assert(prefix + q =~= prefix);
}

/// The test that the value at `path` in `v` proposes for a leaf attribute of kind `leaf`.
fn proposal_at(leaf: &Schema, v: &Value, path: &Vec<usize>) -> (r: Option<Test>)
    ensures
        forall|t: Test| proposes(*v, path@, *leaf, t) <==> r == Some(t),
{
    match v.at(path) {
        Some(Value::Ordinal(x)) => match leaf {
            Schema::Ordinal => Some(Test::LessThan(*x)),
            _ => None,
        },
        Some(Value::Categorical(x)) => match leaf {
            Schema::Categorical => Some(Test::EqualTo(*x)),
            _ => None,
        },
        _ => None,
    }
}

/// Whether one of the first `k` examples already proposes the test `t`.
fn proposed_before(leaf: &Schema, data: &[(Value, u64)], path: &Vec<usize>, k: usize, t: Test) -> (r: bool)
    requires
        k <= data@.len(),
    ensures
        r <==> exists|j: int| 0 <= j < k && #[trigger] proposes(data@[j].0, path@, *leaf, t),
{
    let mut j: usize = 0;
    while j < k
        invariant
            j <= k <= data@.len(),
            forall|i: int| 0 <= i < j ==> !#[trigger] proposes(data@[i].0, path@, *leaf, t),
        decreases k - j,
    {
        if let Some(u) = proposal_at(leaf, &data[j].0, path) {
            if u == t {
                assert(proposes(data@[j as int].0, path@, *leaf, t));
                return true;
            }
        }
        j += 1;
    }
    false
}

/// The best threshold (ordinal) or test value (categorical) for the leaf attribute
/// at `path`: each distinct value that a record holds there is tried once, in the
/// order of the records; on equal rank the earlier one is kept.
fn best_test_value<F: Fn(&Vec<usize>, &Vec<usize>) -> GainRatio>(
    leaf: &Schema,
    data: &[(Value, u64)],
    path: &Vec<usize>,
    labels: &Vec<u64>,
    scorer: &F,
) -> (r: Option<Decision>)
    requires
        *leaf is Ordinal || *leaf is Categorical,
        labels_cover(data@, labels@),
        valid_scorer(*scorer),
    ensures
        is_first_best(*scorer, *leaf, path@, data@, labels@, r),
{
    let ghost p = path@;
    let ghost s = data@;
    let ghost empty = Seq::<usize>::empty();
    assert(p + empty =~= p);
    let mut best: Option<(DecisionEval, Test)> = None;
    let ghost mut ib: int = 0;
    let mut k: usize = 0;
    while k < data.len()
        invariant
            k <= s.len() == data@.len(),
            s == data@,
            p == path@,
            p + empty == p,
            *leaf is Ordinal || *leaf is Categorical,
            labels_cover(data@, labels@),
            valid_scorer(*scorer),
            best matches Some(b) ==> {
                &&& is_candidate(*leaf, p, s, empty, b.1)
                &&& b.0 == candidate_eval(*scorer, s, p, b.1, labels@)
            },
            forall|i: int, t: Test|
                0 <= i < k && #[trigger] proposes(s[i].0, p, *leaf, t) ==> (best is Some
                    && !better(candidate_eval(*scorer, s, p, t, labels@), (best->0).0)),
            best is Some ==> {
                &&& 0 <= ib < k
                &&& proposes(s[ib].0, p, *leaf, (best->0).1)
                &&& forall|j: int| 0 <= j < ib ==> !#[trigger] proposes(s[j].0, p, *leaf, (best->0).1)
            },
            best is Some ==> forall|i: int, t: Test|
                0 <= i < ib && #[trigger] proposes(s[i].0, p, *leaf, t) ==> better(
                    (best->0).0,
                    candidate_eval(*scorer, s, p, t, labels@),
                ),
        decreases s.len() - k,
    {
        let proposed = proposal_at(leaf, &data[k].0, path);
        assert(forall|t: Test| proposes(s[k as int].0, p, *leaf, t) <==> proposed == Some(t));
        let fresh = match proposed {
            Some(t) => !proposed_before(leaf, data, path, k, t),
            None => false,
        };
        if fresh {
            let t = proposed.unwrap();
            let e = evaluate(data, path, t, labels, scorer);
            assert(is_candidate(*leaf, p, s, empty, t)) by {
                assert(proposes(s[k as int].0, p + empty, *leaf, t));
            }
            let replace = match &best {
                Some(b) => e.is_better_than(&b.0),
                None => true,
            };
            if replace {
                proof {
                    if best is Some {
                        let b = best->0;
                        assert forall|i: int, t2: Test|
                            0 <= i < k && #[trigger] proposes(s[i].0, p, *leaf, t2) implies !better(
                            candidate_eval(*scorer, s, p, t2, labels@),
                            e,
                        ) by {
                            lemma_rank_transitive(candidate_eval(*scorer, s, p, t2, labels@), e, b.0);
                        }
                    }
                    assert forall|i: int, t2: Test|
                        0 <= i < k && #[trigger] proposes(s[i].0, p, *leaf, t2) implies better(
                        e,
                        candidate_eval(*scorer, s, p, t2, labels@),
                    ) by {
                        let b = best->0;
                        lemma_rank_negative_transitive(e, candidate_eval(*scorer, s, p, t2, labels@), b.0);
                    }
                    ib = k as int;
                }
                best = Some((e, t));
            }
        }
        proof {
            if proposed is Some && !fresh {
                let t = proposed->0;
                let j = choose|j: int| 0 <= j < k && #[trigger] proposes(s[j].0, p, *leaf, t);
            }
        }
        k += 1;
    }
    match best {
        Some((e, t)) => {
            let d = match t {
                Test::LessThan(x) => Decision::Ordinal(OrdDecision { decision_eval: e, threshold: x }),
                Test::EqualTo(x) => Decision::Categorical(EqDecision { decision_eval: e, val: x }),
                Test::IsTrue => Decision::Boolean(BoolDecision { decision_eval: e }),
            };
            proof {
                assert(t is LessThan || t is EqualTo) by {
                    let i = choose|i: int| 0 <= i < s.len() && #[trigger] proposes(s[i].0, p + empty, *leaf, t);
                }
                assert(d.path_spec() == empty);
                assert(d.test_spec() == t);
                assert forall|q: Seq<usize>, t2: Test|
                    #[trigger] is_candidate(*leaf, p, s, q, t2) implies !better(
                    candidate_eval(*scorer, s, p + q, t2, labels@),
                    e,
                ) by {
                    lemma_leaf_candidates(*leaf, p, s, q, t2);
                    let i = choose|i: int| 0 <= i < s.len() && #[trigger] proposes(s[i].0, p + q, *leaf, t2);
                    assert(proposes(s[i].0, p, *leaf, t2));
                }
                assert forall|q: Seq<usize>, t2: Test|
                    is_candidate(*leaf, p, s, q, t2) && #[trigger] comes_before(
                        *leaf,
                        p,
                        s,
                        q,
                        t2,
                        empty,
                        t,
                    ) implies better(e, candidate_eval(*scorer, s, p + q, t2, labels@)) by {
                    lemma_leaf_candidates(*leaf, p, s, q, t2);
                    let i = choose|i: int|
                        0 <= i < s.len() && #[trigger] proposes(s[i].0, p, *leaf, t2) && forall|j: int|
                            0 <= j <= i ==> !#[trigger] proposes(s[j].0, p, *leaf, t);
                    assert(i < ib);
                }
            }
            Some(d)
        },
        None => {
            proof {
                assert forall|q: Seq<usize>, t2: Test| !#[trigger] is_candidate(*leaf, p, s, q, t2) by {
                    if is_candidate(*leaf, p, s, q, t2) {
                        lemma_leaf_candidates(*leaf, p, s, q, t2);
                        let i = choose|i: int| 0 <= i < s.len() && #[trigger] proposes(s[i].0, p + q, *leaf, t2);
                        assert(proposes(s[i].0, p, *leaf, t2));
                    }
                }
            }
            None
        },
    }
}

/// The number of fields of a composite schema; 0 for a leaf.
fn field_count(s: &Schema) -> (r: usize)
    ensures
        forall|i: int| #[trigger] schema_child(*s, i) is Some <==> 0 <= i < r,
        (*s is Boolean || *s is Ordinal || *s is Categorical) ==> r == 0,
{
    match s {
        Schema::Tuple2(_, _) => 2,
        Schema::Array(fs) => fs.len(),
        _ => 0,
    }
}

/// The field `i` of a composite schema.
fn schema_field(s: &Schema, i: usize) -> (r: &Schema)
    requires
        schema_child(*s, i as int) is Some,
    ensures
        schema_child(*s, i as int) == Some(*r),
        decreases_to!(*s => *r),
{
    match s {
        Schema::Tuple2(a, b) => {
            if i == 0 {
                a
            } else {
                b
            }
        },
        Schema::Array(fs) => {
            proof {
                let ss = s->Array_0;
                assert(decreases_to!(*s => ss));
            }
            &fs[i]
        },
        _ => {
            proof {
                assert(false);
            }
            s
        },
    }
}

/// The decision on field `i` of a composite schema made from the decision found
/// inside that field.
fn wrap_field(s: &Schema, i: usize, inner: Decision) -> (r: Decision)
    requires
        schema_child(*s, i as int) is Some,
    ensures
        r.path_spec() == seq![i] + inner.path_spec(),
        r.test_spec() == inner.test_spec(),
        r.eval_spec() == inner.eval_spec(),
{
    match s {
        Schema::Tuple2(_, _) => {
            if i == 0 {
                Decision::Tuple2(Tuple2Decision::A(Box::new(inner)))
            } else {
                Decision::Tuple2(Tuple2Decision::B(Box::new(inner)))
            }
        },
        _ => Decision::Array(ArrayDecision { index: i, inner_decision: Box::new(inner) }),
    }
}

/// Finds the best split of `data` over every attribute of `schema`, whose records sit
/// at `prefix` inside the records of `data`. Composite attributes are searched field
/// by field; on equal rank the earlier field is kept.
pub fn find_best_decision<F: Fn(&Vec<usize>, &Vec<usize>) -> GainRatio>(
    schema: &Schema,
    prefix: &mut Vec<usize>,
    data: &[(Value, u64)],
    labels: &Vec<u64>,
    scorer: &F,
) -> (r: Option<Decision>)
    requires
        labels_cover(data@, labels@),
        valid_scorer(*scorer),
    ensures
        final(prefix)@ == old(prefix)@,
        is_first_best(*scorer, *schema, old(prefix)@, data@, labels@, r),
    decreases schema,
{
    let ghost p = prefix@;
    let ghost s = data@;
    match schema {
        Schema::Boolean => {
            let e = evaluate(data, prefix, Test::IsTrue, labels, scorer);
            let d = Decision::Boolean(BoolDecision { decision_eval: e });
            proof {
                let empty = Seq::<usize>::empty();
                assert(p + empty =~= p);
                assert(d.path_spec() == empty);
                assert forall|q: Seq<usize>, t: Test|
                    #[trigger] is_candidate(*schema, p, s, q, t) implies !better(
                    candidate_eval(*scorer, s, p + q, t, labels@),
                    e,
                ) by {
                    lemma_leaf_candidates(*schema, p, s, q, t);
                }
            }
            return Some(d);
        },
        Schema::Ordinal | Schema::Categorical => {
            return best_test_value(schema, data, prefix, labels, scorer);
        },
        _ => {},
    }
    let n = field_count(schema);
    let mut best: Option<Decision> = None;
    let mut i: usize = 0;
    proof {
        assert forall|q: Seq<usize>, t: Test| #[trigger] is_candidate(*schema, p, s, q, t) implies q.len() > 0 by {
            if q.len() == 0 {
                assert(schema_at(*schema, q) == Some(*schema));
            }
        }
    }
    while i < n
        invariant
            i <= n,
            prefix@ == p,
            s == data@,
            labels_cover(data@, labels@),
            valid_scorer(*scorer),
            forall|j: int| #[trigger] schema_child(*schema, j) is Some <==> 0 <= j < n,
            forall|q: Seq<usize>, t: Test| #[trigger] is_candidate(*schema, p, s, q, t) ==> q.len() > 0,
            best matches Some(d) ==> is_scored_candidate(*scorer, *schema, p, s, labels@, d),
            best matches Some(d) ==> first_of_best(*scorer, *schema, p, s, labels@, d),
            forall|q: Seq<usize>, t: Test|
                #[trigger] is_candidate(*schema, p, s, q, t) && q[0] < i ==> (best is Some && !better(
                    candidate_eval(*scorer, s, p + q, t, labels@),
                    best->0.eval_spec(),
                )),
        decreases n - i,
    {
        let field = schema_field(schema, i);
        prefix.push(i);
        let found = find_best_decision(field, prefix, data, labels, scorer);
        prefix.pop();
        assert(prefix@ =~= p);
        let ghost pi = p.push(i);
        if let Some(inner) = found {
            let ghost ei = inner.eval_spec();
            let replace = match &best {
                Some(b) => inner.decision_eval().is_better_than(&b.decision_eval()),
                None => true,
            };
            proof {
                // the candidates inside field `i` rank no higher than `inner`
                assert forall|q: Seq<usize>, t: Test|
                    #[trigger] is_candidate(*schema, p, s, q, t) && q[0] == i implies !better(
                    candidate_eval(*scorer, s, p + q, t, labels@),
                    ei,
                ) by {
                    lemma_field_candidate(*schema, p, s, i, q, t);
                    assert(is_candidate(*field, pi, s, q.drop_first(), t));
                }
            }
            if replace {
                proof {
                    lemma_field_candidate(*schema, p, s, i, seq![i] + inner.path_spec(), inner.test_spec());
                    assert((seq![i] + inner.path_spec()).drop_first() =~= inner.path_spec());
                    if best is Some {
                        let eb = best->0.eval_spec();
                        assert forall|q: Seq<usize>, t: Test|
                            #[trigger] is_candidate(*schema, p, s, q, t) && q[0] < i implies !better(
                            candidate_eval(*scorer, s, p + q, t, labels@),
                            ei,
                        ) by {
                            lemma_rank_transitive(candidate_eval(*scorer, s, p + q, t, labels@), ei, eb);
                        }
                    }
                }
                let ghost (px, tx) = (inner.path_spec(), inner.test_spec());
                let ghost dn_path = seq![i] + px;
                proof {
                    assert(dn_path[0] == i);
                    assert(dn_path.drop_first() =~= px);
                    assert forall|q: Seq<usize>, t: Test|
                        is_candidate(*schema, p, s, q, t) && #[trigger] comes_before(
                            *schema,
                            p,
                            s,
                            q,
                            t,
                            dn_path,
                            tx,
                        ) implies better(ei, candidate_eval(*scorer, s, p + q, t, labels@)) by {
                        let c = candidate_eval(*scorer, s, p + q, t, labels@);
                        if q[0] < i {
                            let eb = best->0.eval_spec();
                            lemma_rank_negative_transitive(ei, c, eb);
                        } else {
                            lemma_field_candidate(*schema, p, s, i, q, t);
                            assert(comes_before(*field, pi, s, q.drop_first(), t, px, tx));
                            assert(is_candidate(*field, pi, s, q.drop_first(), t));
                        }
                    }
                }
                let d = wrap_field(schema, i, inner);
                assert(first_of_best(*scorer, *schema, p, s, labels@, d)) by {
                    assert(d.path_spec() == dn_path);
                }
                best = Some(d);
            } else {
                proof {
                    let eb = best->0.eval_spec();
                    assert forall|q: Seq<usize>, t: Test|
                        #[trigger] is_candidate(*schema, p, s, q, t) && q[0] == i implies !better(
                        candidate_eval(*scorer, s, p + q, t, labels@),
                        eb,
                    ) by {
                        lemma_rank_negative_transitive(candidate_eval(*scorer, s, p + q, t, labels@), ei, eb);
                    }
                }
            }
        } else {
            proof {
                assert forall|q: Seq<usize>, t: Test|
                    #[trigger] is_candidate(*schema, p, s, q, t) implies q[0] != i by {
                    if q[0] == i {
                        lemma_field_candidate(*schema, p, s, i, q, t);
                        assert(!is_candidate(*field, pi, s, q.drop_first(), t));
                    }
                }
            }
        }
        i += 1;
    }
    proof {
        assert forall|q: Seq<usize>, t: Test| #[trigger] is_candidate(*schema, p, s, q, t) implies q[0] < n by {
            assert(schema_at(*schema, q) is Some);
            assert(schema_child(*schema, q[0] as int) is Some);
        }
    }
    best
}

/// The evaluation of a split depends on which examples there are, not on their
/// order.
pub proof fn lemma_candidate_eval_perm<F: Fn(&Vec<usize>, &Vec<usize>) -> GainRatio>(
    f: F,
    s1: Seq<(Value, u64)>,
    s2: Seq<(Value, u64)>,
    path: Seq<usize>,
    t: Test,
    labels: Seq<u64>,
)
    requires
        s1.to_multiset() == s2.to_multiset(),
    ensures
        candidate_eval(f, s1, path, t, labels) == candidate_eval(f, s2, path, t, labels),
{
    lemma_count_where_perm(s1, s2, side_pred(path, t, true));
    lemma_count_where_perm(s1, s2, side_pred(path, t, false));
    assert forall|j: int, sd: bool| 0 <= j < labels.len() implies #[trigger] side_label_count(
        s1,
        path,
        t,
        sd,
        labels[j],
    ) == side_label_count(s2, path, t, sd, labels[j]) by {
        lemma_count_where_perm(s1, s2, side_label_pred(path, t, sd, labels[j]));
    }
    assert(branch_counts(s1, path, t, true, labels) =~= branch_counts(s2, path, t, true, labels));
    assert(branch_counts(s1, path, t, false, labels) =~= branch_counts(s2, path, t, false, labels));
}

/// Whether a split is a candidate depends on which examples there are, not on their
/// order.
pub proof fn lemma_candidate_perm(
    sub: Schema,
    prefix: Seq<usize>,
    s1: Seq<(Value, u64)>,
    s2: Seq<(Value, u64)>,
    q: Seq<usize>,
    t: Test,
)
    requires
        s1.to_multiset() == s2.to_multiset(),
    ensures
        is_candidate(sub, prefix, s1, q, t) == is_candidate(sub, prefix, s2, q, t),
{
    if let Some(leaf) = schema_at(sub, q) {
        if exists|i: int| 0 <= i < s1.len() && #[trigger] proposes(s1[i].0, prefix + q, leaf, t) {
            let i = choose|i: int| 0 <= i < s1.len() && #[trigger] proposes(s1[i].0, prefix + q, leaf, t);
            lemma_perm_contains(s1, s2, i);
            let j = choose|j: int| 0 <= j < s2.len() && s2[j] == s1[i];
            assert(proposes(s2[j].0, prefix + q, leaf, t));
        }
        if exists|i: int| 0 <= i < s2.len() && #[trigger] proposes(s2[i].0, prefix + q, leaf, t) {
            let i = choose|i: int| 0 <= i < s2.len() && #[trigger] proposes(s2[i].0, prefix + q, leaf, t);
            lemma_perm_contains(s2, s1, i);
            let j = choose|j: int| 0 <= j < s1.len() && s1[j] == s2[i];
            assert(proposes(s1[j].0, prefix + q, leaf, t));
        }
    }
}

/// A best split of some examples is a best split of the same examples in any order.
pub proof fn lemma_best_perm<F: Fn(&Vec<usize>, &Vec<usize>) -> GainRatio>(
    f: F,
    sub: Schema,
    prefix: Seq<usize>,
    s1: Seq<(Value, u64)>,
    s2: Seq<(Value, u64)>,
    labels: Seq<u64>,
    r: Option<Decision>,
)
    requires
        s1.to_multiset() == s2.to_multiset(),
        labels_cover(s1, labels),
        is_best(f, sub, prefix, s1, labels, r),
    ensures
        labels_cover(s2, labels),
        is_best(f, sub, prefix, s2, labels, r),
{
    assert forall|q: Seq<usize>, t: Test|
        #[trigger] is_candidate(sub, prefix, s2, q, t) == is_candidate(sub, prefix, s1, q, t)
            && candidate_eval(f, s2, prefix + q, t, labels) == candidate_eval(
            f,
            s1,
            prefix + q,
            t,
            labels,
        ) by {
        lemma_candidate_perm(sub, prefix, s1, s2, q, t);
        lemma_candidate_eval_perm(f, s1, s2, prefix + q, t, labels);
    }
    if let Some(d) = r {
        lemma_candidate_perm(sub, prefix, s1, s2, d.path_spec(), d.test_spec());
        lemma_candidate_eval_perm(f, s1, s2, prefix + d.path_spec(), d.test_spec(), labels);
    }
    assert forall|i: int| #![trigger s2[i]] 0 <= i < s2.len() implies labels.contains(s2[i].1) by {
        lemma_perm_contains(s2, s1, i);
        let k = choose|k: int| 0 <= k < s1.len() && s1[k] == s2[i];
        assert(s1[k].1 == s2[i].1);
    }
}

/// A split that leaves a branch empty has split information zero; its gain ratio is
/// then exactly zero, a number and not a NaN, whatever the scoring function would say.
pub proof fn lemma_empty_branch_scores_zero<F: Fn(&Vec<usize>, &Vec<usize>) -> GainRatio>(
    f: F,
    s: Seq<(Value, u64)>,
    path: Seq<usize>,
    t: Test,
    labels: Seq<u64>,
)
    requires
        side_size(s, path, t, true) == 0 || side_size(s, path, t, false) == 0,
    ensures
        candidate_eval(f, s, path, t, labels).gain_ratio == GainRatio::zero_spec(),
        !candidate_eval(f, s, path, t, labels).gain_ratio.is_nan_spec(),
        candidate_eval(f, s, path, t, labels).gain_ratio.key() == 0,
{
}

/// `nonzero` of a sequence of zeros is 0, and of a sequence without zeros its length.
proof fn lemma_nonzero_extremes(cs: Seq<usize>)
    ensures
        (forall|j: int| 0 <= j < cs.len() ==> #[trigger] cs[j] == 0) ==> nonzero(cs) == 0,
        (forall|j: int| 0 <= j < cs.len() ==> #[trigger] cs[j] != 0) ==> nonzero(cs) == cs.len(),
    decreases cs.len(),
{
    if cs.len() > 0 {
        lemma_nonzero_extremes(cs.drop_last());
        if forall|j: int| 0 <= j < cs.len() ==> #[trigger] cs[j] == 0 {
            assert forall|j: int| 0 <= j < cs.drop_last().len() implies #[trigger] cs.drop_last()[j] == 0 by {
                assert(cs[j] == 0);
            }
        }
        if forall|j: int| 0 <= j < cs.len() ==> #[trigger] cs[j] != 0 {
            assert forall|j: int| 0 <= j < cs.drop_last().len() implies #[trigger] cs.drop_last()[j] != 0 by {
                assert(cs[j] != 0);
            }
        }
    }
}

/// A split that leaves a branch empty has the width of the undivided examples: the
/// number of their distinct labels, or for a threshold the number of examples.
pub proof fn lemma_empty_branch_width<F: Fn(&Vec<usize>, &Vec<usize>) -> GainRatio>(
    f: F,
    s: Seq<(Value, u64)>,
    path: Seq<usize>,
    t: Test,
    labels: Seq<u64>,
    empty_side: bool,
)
    requires
        side_size(s, path, t, empty_side) == 0,
        labels_cover(s, labels),
        forall|j: int| 0 <= j < labels.len() ==> label_count(s, #[trigger] labels[j]) > 0,
        s.len() <= usize::MAX,
        labels.len() <= usize::MAX,
    ensures
        t is LessThan ==> candidate_eval(f, s, path, t, labels).max_branch_width == s.len(),
        !(t is LessThan) ==> candidate_eval(f, s, path, t, labels).max_branch_width == labels.len(),
{
    let full_side = !empty_side;
    lemma_count_where_split(
        s,
        |e: (Value, u64)| true,
        side_pred(path, t, empty_side),
        side_pred(path, t, full_side),
    );
    lemma_count_where_all(s, |e: (Value, u64)| true);
    assert(side_size(s, path, t, full_side) == s.len());
    let empty_counts = branch_counts(s, path, t, empty_side, labels);
    let full_counts = branch_counts(s, path, t, full_side, labels);
    assert forall|j: int| 0 <= j < labels.len() implies #[trigger] empty_counts[j] == 0 && full_counts[j] != 0 by {
        let l = labels[j];
        lemma_count_where_mono(s, side_label_pred(path, t, empty_side, l), side_pred(path, t, empty_side));
        lemma_count_where_split(
            s,
            label_pred::<Value>(l),
            side_label_pred(path, t, empty_side, l),
            side_label_pred(path, t, full_side, l),
        );
        lemma_count_where_mono(s, side_label_pred(path, t, full_side, l), label_pred::<Value>(l));
        assert(side_label_count(s, path, t, full_side, l) <= s.len()) by {
            lemma_count_where_mono(s, side_label_pred(path, t, full_side, l), side_pred(path, t, full_side));
        }
    }
    assert(full_counts.len() == labels.len() && empty_counts.len() == labels.len());
    assert forall|j: int| 0 <= j < full_counts.len() implies #[trigger] full_counts[j] != 0 by {
        assert(empty_counts[j] == 0 && full_counts[j] != 0);
    }
    lemma_nonzero_extremes(empty_counts);
    lemma_nonzero_extremes(full_counts);
    assert(nonzero(empty_counts) == 0);
    assert(nonzero(full_counts) == labels.len());
    if empty_side {
        assert(candidate_width(s, path, t, labels) == max_nat(nonzero(full_counts), nonzero(empty_counts)) || t is LessThan);
    } else {
        assert(candidate_width(s, path, t, labels) == max_nat(nonzero(empty_counts), nonzero(full_counts)) || t is LessThan);
    }
}

} // verus!

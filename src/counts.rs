//! Label distributions of example sets, and majority vote.
use vstd::prelude::*;

verus! {

/// How many elements of `s` satisfy `p`.
pub open spec fn count_where<T>(s: Seq<T>, p: spec_fn(T) -> bool) -> nat
    decreases s.len(),
{
    if s.len() == 0 {
        0
    } else {
        count_where(s.drop_last(), p) + if p(s.last()) {
            1nat
        } else {
            0nat
        }
    }
}

/// Removing the element at `i` takes it out of the count.
pub proof fn lemma_count_where_remove<T>(s: Seq<T>, i: int, p: spec_fn(T) -> bool)
    requires
        0 <= i < s.len(),
    ensures
        count_where(s, p) == count_where(s.remove(i), p) + if p(s[i]) {
            1nat
        } else {
            0nat
        },
    decreases s.len(),
{
    if i == s.len() - 1 {
        assert(s.remove(i) =~= s.drop_last());
    } else {
        assert(s.remove(i).drop_last() =~= s.drop_last().remove(i));
        assert(s.remove(i).last() == s.last());
        lemma_count_where_remove(s.drop_last(), i, p);
    }
}

/// Counts do not depend on the order of the elements.
pub proof fn lemma_count_where_perm<T>(s1: Seq<T>, s2: Seq<T>, p: spec_fn(T) -> bool)
    requires
        s1.to_multiset() == s2.to_multiset(),
    ensures
        count_where(s1, p) == count_where(s2, p),
    decreases s1.len(),
{
    broadcast use vstd::seq_lib::group_to_multiset_ensures;

    vstd::seq_lib::to_multiset_len(s1);
    vstd::seq_lib::to_multiset_len(s2);
    if s1.len() == 0 {
        assert(s2.len() == 0);
    } else {
        let x = s1.last();
        assert(s1.contains(x)) by {
            assert(s1[s1.len() - 1] == x);
        }
        vstd::seq_lib::to_multiset_contains(s1, x);
        vstd::seq_lib::to_multiset_contains(s2, x);
        assert(s2.contains(x));
        let j = choose|j: int| 0 <= j < s2.len() && s2[j] == x;
        vstd::seq_lib::to_multiset_remove(s2, j);
        assert(s1 =~= s1.drop_last().push(x));
        vstd::seq_lib::to_multiset_build(s1.drop_last(), x);
        assert(s1.drop_last().to_multiset() =~= s2.remove(j).to_multiset());
        lemma_count_where_perm(s1.drop_last(), s2.remove(j), p);
        lemma_count_where_remove(s2, j, p);
    }
}

/// A weaker predicate counts at least as many elements.
pub proof fn lemma_count_where_mono<T>(s: Seq<T>, p: spec_fn(T) -> bool, q: spec_fn(T) -> bool)
    requires
        forall|x: T| #[trigger] p(x) ==> q(x),
    ensures
        count_where(s, p) <= count_where(s, q),
    decreases s.len(),
{
    if s.len() > 0 {
        lemma_count_where_mono(s.drop_last(), p, q);
    }
}

/// When `p` holds exactly where one of the exclusive `q` and `r` holds, its count is
/// the sum of theirs.
pub proof fn lemma_count_where_split<T>(
    s: Seq<T>,
    p: spec_fn(T) -> bool,
    q: spec_fn(T) -> bool,
    r: spec_fn(T) -> bool,
)
    requires
        forall|x: T| #[trigger] p(x) == (q(x) || r(x)),
        forall|x: T| !(#[trigger] q(x) && r(x)),
    ensures
        count_where(s, p) == count_where(s, q) + count_where(s, r),
    decreases s.len(),
{
    if s.len() > 0 {
        lemma_count_where_split(s.drop_last(), p, q, r);
        assert(p(s.last()) == (q(s.last()) || r(s.last())));
        assert(!(q(s.last()) && r(s.last())));
    }
}

/// A predicate that holds everywhere counts every element.
pub proof fn lemma_count_where_all<T>(s: Seq<T>, p: spec_fn(T) -> bool)
    requires
        forall|x: T| #[trigger] p(x),
    ensures
        count_where(s, p) == s.len(),
    decreases s.len(),
{
    if s.len() > 0 {
        lemma_count_where_all(s.drop_last(), p);
        assert(p(s.last()));
    }
}

/// Orders of the same elements hold the same elements.
pub proof fn lemma_perm_contains<T>(s1: Seq<T>, s2: Seq<T>, i: int)
    requires
        s1.to_multiset() == s2.to_multiset(),
        0 <= i < s1.len(),
    ensures
        exists|j: int| 0 <= j < s2.len() && s2[j] == s1[i],
{
    broadcast use vstd::seq_lib::group_to_multiset_ensures;

    assert(s1.contains(s1[i]));
    vstd::seq_lib::to_multiset_contains(s1, s1[i]);
    vstd::seq_lib::to_multiset_contains(s2, s1[i]);
    assert(s2.contains(s1[i]));
}

/// Whether an example carries the label `l`.
pub open spec fn label_pred<D>(l: u64) -> spec_fn((D, u64)) -> bool {
    |e: (D, u64)| e.1 == l
}

/// How many examples of `s` carry the label `l`.
pub open spec fn label_count<D>(s: Seq<(D, u64)>, l: u64) -> nat {
    count_where(s, label_pred(l))
}

/// Whether no label occurs twice among the entries.
pub open spec fn distinct_labels(counts: Seq<(u64, usize)>) -> bool {
    forall|i: int, j: int|
        0 <= i < j < counts.len() ==> #[trigger] counts[i].0 != #[trigger] counts[j].0
}

/// Whether `counts` is the label distribution of `s`: one entry per label that
/// occurs in `s`, holding the number of its occurrences.
pub open spec fn is_distribution<D>(counts: Seq<(u64, usize)>, s: Seq<(D, u64)>) -> bool {
    &&& distinct_labels(counts)
    &&& forall|j: int|
        0 <= j < counts.len() ==> #[trigger] counts[j].1 == label_count(s, counts[j].0)
            && counts[j].1 > 0
    &&& forall|l: u64|
        label_count(s, l) > 0 ==> exists|j: int| 0 <= j < counts.len() && #[trigger] counts[j].0 == l
}

/// Whether `l` is the label that majority vote picks in `s`: no label occurs more
/// often, and of the labels that occur as often, `l` is the least.
pub open spec fn is_majority<D>(s: Seq<(D, u64)>, l: u64) -> bool {
    &&& label_count(s, l) > 0
    &&& forall|m: u64| #[trigger] label_count(s, m) <= label_count(s, l)
    &&& forall|m: u64| #[trigger] label_count(s, m) == label_count(s, l) ==> l <= m
}

/// A label occurs in `s` exactly when some example carries it.
pub proof fn lemma_label_count_positive<D>(s: Seq<(D, u64)>, l: u64)
    ensures
        label_count(s, l) > 0 <==> exists|i: int| 0 <= i < s.len() && #[trigger] s[i].1 == l,
        label_count(s, l) <= s.len(),
    decreases s.len(),
{
    if s.len() > 0 {
        assert(label_count(s, l) == label_count(s.drop_last(), l) + if s.last().1 == l {
            1nat
        } else {
            0nat
        });
        lemma_label_count_positive(s.drop_last(), l);
        if label_count(s.drop_last(), l) > 0 {
            let i = choose|i: int| 0 <= i < s.drop_last().len() && #[trigger] s.drop_last()[i].1 == l;
            assert(s[i].1 == l);
        }
        if exists|i: int| 0 <= i < s.len() && #[trigger] s[i].1 == l {
            let i = choose|i: int| 0 <= i < s.len() && #[trigger] s[i].1 == l;
            if i < s.len() - 1 {
                assert(s.drop_last()[i].1 == l);
            }
        }
    }
}

/// The position of the entry for `l`, if there is one.
pub fn find_label(counts: &Vec<(u64, usize)>, l: u64) -> (r: Option<usize>)
    ensures
        r matches Some(j) ==> j < counts@.len() && counts@[j as int].0 == l,
        r is None ==> forall|j: int| 0 <= j < counts@.len() ==> #[trigger] counts@[j].0 != l,
{
    let mut j: usize = 0;
    while j < counts.len()
        invariant
            j <= counts@.len(),
            forall|i: int| 0 <= i < j ==> #[trigger] counts@[i].0 != l,
        decreases counts@.len() - j,
    {
        if counts[j].0 == l {
            return Some(j);
        }
        j += 1;
    }
    None
}

/// Whether the entries of `counts` list their labels in the order in which they first
/// occur in `s`: every occurrence of a later entry's label comes after some
/// occurrence of each earlier entry's label.
pub open spec fn in_first_occurrence_order<D>(counts: Seq<(u64, usize)>, s: Seq<(D, u64)>) -> bool {
    forall|j1: int, j2: int, i: int|
        #![trigger counts[j1], counts[j2], s[i]]
        0 <= j1 < j2 < counts.len() && 0 <= i < s.len() && s[i].1 == counts[j2].0
            ==> occurs_before(s, i, counts[j1].0)
}

/// Whether one of the first `i` examples of `s` carries the label `l`.
pub open spec fn occurs_before<D>(s: Seq<(D, u64)>, i: int, l: u64) -> bool {
    exists|i2: int| #![trigger s[i2]] 0 <= i2 < i && s[i2].1 == l
}

/// The label distribution of `data`, its labels in the order of their first
/// occurrence.
pub fn to_counts<D>(data: &[(D, u64)]) -> (r: Vec<(u64, usize)>)
    ensures
        is_distribution(r@, data@),
        in_first_occurrence_order(r@, data@),
{
    let mut r: Vec<(u64, usize)> = Vec::new();
    let n = data.len();
    let mut k: usize = 0;
    while k < n
        invariant
            k <= n == data@.len(),
            is_distribution(r@, data@.take(k as int)),
            in_first_occurrence_order(r@, data@.take(k as int)),
        decreases n - k,
    {
        let ghost prev = data@.take(k as int);
        let ghost next = data@.take(k + 1);
        let l = data[k].1;
        proof {
            assert(next.drop_last() =~= prev);
            assert(next.last().1 == l);
            lemma_label_count_positive(prev, l);
        }
        let ghost old_r = r@;
        let ghost mut pos: int = 0;
        match find_label(&r, l) {
            Some(j) => {
                let c = r[j].1;
                proof {
                    lemma_label_count_positive(prev, l);
                }
                r.set(j, (l, c + 1));
                proof {
                    pos = j as int;
                }
            },
            None => {
                r.push((l, 1));
                proof {
                    pos = old_r.len() as int;
                }
            },
        }
        proof {
            assert(0 <= pos < r@.len() && r@[pos].0 == l);
            assert forall|m: u64| #[trigger] label_count(next, m) == label_count(prev, m) + if m
                == l {
                1nat
            } else {
                0nat
            } by {
                assert(count_where(next, label_pred::<D>(m)) == count_where(
                    prev,
                    label_pred::<D>(m),
                ) + if next.last().1 == m {
                    1nat
                } else {
                    0nat
                });
            }
            assert forall|j: int| 0 <= j < old_r.len() implies #[trigger] r@[j].0 == old_r[j].0 by {}
            assert forall|m: u64| label_count(next, m) > 0 implies exists|j: int|
                0 <= j < r@.len() && #[trigger] r@[j].0 == m by {
                if m != l {
                    assert(label_count(prev, m) > 0);
                    let j = choose|j: int| 0 <= j < old_r.len() && #[trigger] old_r[j].0 == m;
                    assert(r@[j].0 == m);
                } else {
                    assert(r@[pos].0 == l);
                }
            }
            assert forall|j1: int, j2: int, i: int|
                #![trigger r@[j1], r@[j2], next[i]]
                0 <= j1 < j2 < r@.len() && 0 <= i < next.len() && next[i].1 == r@[j2].0 implies occurs_before(next, i, r@[j1].0) by {
                if i < k {
                    assert(next[i] == prev[i]);
                    assert(j2 < old_r.len()) by {
                        if j2 >= old_r.len() {
                            // the new entry's label did not occur before
                            assert(prev[i].1 == l);
                            lemma_label_count_positive(prev, l);
                            assert(label_count(prev, l) > 0);
                            let j = choose|j: int| 0 <= j < old_r.len() && #[trigger] old_r[j].0 == l;
                            assert(r@.len() == old_r.len());
                        }
                    }
                    assert(old_r[j1].0 == r@[j1].0 && old_r[j2].0 == r@[j2].0);
                    assert(prev[i].1 == old_r[j2].0);
                    assert(occurs_before(prev, i, old_r[j1].0));
                    let i2 = choose|i2: int| #![trigger prev[i2]] 0 <= i2 < i && prev[i2].1 == old_r[j1].0;
                    assert(next[i2] == prev[i2]);
                } else {
                    assert(j1 < old_r.len());
                    assert(old_r[j1].1 > 0);
                    lemma_label_count_positive(prev, old_r[j1].0);
                    let i2 = choose|i2: int| 0 <= i2 < prev.len() && #[trigger] prev[i2].1 == old_r[j1].0;
                    assert(next[i2] == prev[i2]);
                }
            }
            assert(in_first_occurrence_order(r@, next));
        }
        k += 1;
    }
    assert(data@.take(n as int) =~= data@);
    r
}

/// Majority vote over a label distribution: the most frequent label, the least one
/// among equally frequent labels.
pub fn majority(counts: &Vec<(u64, usize)>) -> (r: u64)
    requires
        counts@.len() > 0,
    ensures
        exists|j: int| 0 <= j < counts@.len() && #[trigger] counts@[j].0 == r && forall|i: int|
            0 <= i < counts@.len() ==> (#[trigger] counts@[i].1 < counts@[j].1 || (counts@[i].1
                == counts@[j].1 && r <= counts@[i].0)),
{
    let mut best: usize = 0;
    let mut i: usize = 1;
    while i < counts.len()
        invariant
            best < i <= counts@.len(),
            forall|m: int|
                0 <= m < i ==> (#[trigger] counts@[m].1 < counts@[best as int].1 || (counts@[m].1
                    == counts@[best as int].1 && counts@[best as int].0 <= counts@[m].0)),
        decreases counts@.len() - i,
    {
        let (l, c) = counts[i];
        let (bl, bc) = counts[best];
        if c > bc || (c == bc && l < bl) {
            best = i;
        }
        i += 1;
    }
    counts[best].0
}

} // verus!

//! In-place two-way partitioning of a slice.
use vstd::prelude::*;

verus! {

broadcast use vstd::seq_lib::group_to_multiset_ensures;

/// Exchanges the elements at positions `a` and `b` (`a < b`).
fn swap_elements<T>(data: &mut [T], a: usize, b: usize)
    requires
        a < b < old(data)@.len(),
    ensures
        final(data)@ == old(data)@.update(a as int, old(data)@[b as int]).update(
            b as int,
            old(data)@[a as int],
        ),
        final(data)@.to_multiset() == old(data)@.to_multiset(),
{
    proof {
        let s = old(data)@;
        let s1 = s.update(a as int, s[b as int]);
        vstd::seq_lib::to_multiset_update(s, a as int, s[b as int]);
        vstd::seq_lib::to_multiset_update(s1, b as int, s[a as int]);
        assert(s1[b as int] == s[b as int]);
        assert(s.to_multiset().insert(s[b as int]).remove(s[a as int]).insert(s[a as int]).remove(
            s[b as int],
        ) =~= s.to_multiset());
    }
    let (l, r) = data.split_at_mut(b);
    core::mem::swap(&mut l[a], &mut r[0]);
}

/// Reorders `data` so that the elements satisfying `predicate` come first and
/// returns how many there are. Two cursors move towards each other: the left one
/// skips elements that satisfy the predicate, the right one skips elements that do
/// not, and the pair where both stop is exchanged. The relative order inside each
/// group is not kept. An empty slice gives 0.
pub fn split_data<T, F: Fn(&T) -> bool>(data: &mut [T], predicate: F) -> (split: usize)
    requires
        forall|x: &T| predicate.requires((x,)),
    ensures
        split <= final(data)@.len(),
        final(data)@.len() == old(data)@.len(),
        final(data)@.to_multiset() == old(data)@.to_multiset(),
        forall|i: int| 0 <= i < split ==> predicate.ensures((&final(data)@[i],), true),
        forall|i: int|
            split <= i < final(data)@.len() ==> predicate.ensures((&final(data)@[i],), false),
{
    let n = data.len();
    if n == 0 {
        return 0;
    }
    let mut a: usize = 0;
    let mut b: usize = n - 1;
    while a != b
        invariant
            a <= b < n,
            n == data@.len(),
            data@.len() == old(data)@.len(),
            data@.to_multiset() == old(data)@.to_multiset(),
            forall|x: &T| predicate.requires((x,)),
            forall|i: int| 0 <= i < a ==> predicate.ensures((&data@[i],), true),
            forall|i: int| b < i < n ==> predicate.ensures((&data@[i],), false),
        decreases b - a,
    {
        let ghost (a0, b0) = (a, b);
        while a < b && predicate(&data[a])
            invariant
                a0 <= a <= b == b0 < n,
                n == data@.len(),
                forall|x: &T| predicate.requires((x,)),
                forall|i: int| 0 <= i < a ==> predicate.ensures((&data@[i],), true),
            decreases b - a,
        {
            a += 1;
        }
        while a < b && !predicate(&data[b])
            invariant
                a0 <= a <= b <= b0 < n,
                n == data@.len(),
                forall|x: &T| predicate.requires((x,)),
                forall|i: int| b < i < n ==> predicate.ensures((&data@[i],), false),
            decreases b - a,
        {
            b -= 1;
        }
        if a < b {
            // here the element at `a` fails the predicate and the one at `b` meets it
            swap_elements(data, a, b);
            a += 1;
        }
    }
    if predicate(&data[a]) {
        a + 1
    } else {
        a
    }
}

} // verus!

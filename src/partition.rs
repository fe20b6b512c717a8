use vstd::prelude::*;

verus! {

broadcast use vstd::seq_lib::group_to_multiset_ensures;

/// Exchanges the items at `i` and `j`.
fn swap_items(arr: &mut [i32], i: usize, j: usize)
    requires
        i < old(arr)@.len(),
        j < old(arr)@.len(),
    ensures
        final(arr)@ == old(arr)@.update(i as int, old(arr)@[j as int]).update(
            j as int,
            old(arr)@[i as int],
        ),
        final(arr)@.to_multiset() == old(arr)@.to_multiset(),
{
    let a = arr[i];
    let b = arr[j];
    arr[i] = b;
    arr[j] = a;
    proof {
        let s = old(arr)@;
        let s1 = s.update(i as int, b);
        vstd::seq_lib::to_multiset_update(s, i as int, b);
        vstd::seq_lib::to_multiset_update(s1, j as int, a);
        if i != j {
            assert(s1[j as int] == b);
        }
        assert(s1.update(j as int, a).to_multiset() =~= s.to_multiset());
    }
}

/// Lomuto partition around the last item: afterwards the pivot stands at the
/// returned index, everything before it is at most the pivot and everything
/// after it is greater. The items are only rearranged.
pub fn partition(arr: &mut [i32]) -> (p: usize)
    requires
        old(arr)@.len() >= 1,
    ensures
        p < final(arr)@.len(),
        final(arr)@.len() == old(arr)@.len(),
        final(arr)@.to_multiset() == old(arr)@.to_multiset(),
        final(arr)@[p as int] == old(arr)@[old(arr)@.len() - 1],
        forall|k: int| 0 <= k < p ==> #[trigger] final(arr)@[k] <= final(arr)@[p as int],
        forall|k: int|
            p < k < final(arr)@.len() ==> #[trigger] final(arr)@[k] > final(arr)@[p as int],
{
    let len = arr.len();
    let pivot = arr[len - 1];
    let mut i: usize = 0;
    let mut j: usize = 0;
    while j < len - 1
        invariant
            len == arr@.len() == old(arr)@.len(),
            len >= 1,
            i <= j <= len - 1,
            pivot == old(arr)@[len - 1],
            arr@[len - 1] == pivot,
            arr@.to_multiset() == old(arr)@.to_multiset(),
            forall|k: int| 0 <= k < i ==> #[trigger] arr@[k] <= pivot,
            forall|k: int| i <= k < j ==> #[trigger] arr@[k] > pivot,
        decreases len - 1 - j,
    {
        if arr[j] <= pivot {
            swap_items(arr, i, j);
            i = i + 1;
        }
        j = j + 1;
    }
    swap_items(arr, i, len - 1);
    i
}

} // verus!

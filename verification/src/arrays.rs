//! Arrays of a fixed length, described place by place.

use vstd::prelude::*;

verus! {

/// The first `k` places of an array filled from `values`, the rest with `rest`.
pub open spec fn array_prefix<T: Copy, const N: usize>(values: Seq<T>, rest: T, k: nat) -> [T; N]
    decreases k,
{
    if k == 0 {
        vstd::array::spec_array_fill_for_copy_type::<T, N>(rest)
    } else {
        vstd::array::spec_array_update(
            array_prefix::<T, N>(values, rest, (k - 1) as nat),
            k - 1,
            values[k - 1],
        )
    }
}

/// What `array_prefix` holds, place by place.
pub proof fn lemma_array_prefix<T: Copy, const N: usize>(values: Seq<T>, rest: T, k: nat)
    requires
        k <= N,
    ensures
        forall|i: int|
            0 <= i < N ==> #[trigger] array_prefix::<T, N>(values, rest, k)@[i] == if i < k {
                values[i]
            } else {
                rest
            },
    decreases k,
{
    broadcast use vstd::array::group_array_axioms;

    let built = array_prefix::<T, N>(values, rest, k);
    if k > 0 {
        let before = array_prefix::<T, N>(values, rest, (k - 1) as nat);
        lemma_array_prefix::<T, N>(values, rest, (k - 1) as nat);
        assert(built@ == before@.update(k - 1, values[k - 1]));
        assert forall|i: int| 0 <= i < N implies #[trigger] built@[i] == if i < k {
            values[i]
        } else {
            rest
        } by {
            assert(before@[i] == if i < k - 1 {
                values[i]
            } else {
                rest
            });
        }
    } else {
        assert forall|i: int| 0 <= i < N implies #[trigger] built@[i] == rest by {}
    }
}

/// Two arrays with the same values in every place are the same array.
pub proof fn lemma_array_ext<T, const N: usize>(a: [T; N], b: [T; N])
    requires
        forall|i: int| 0 <= i < N ==> a@[i] == b@[i],
    ensures
        a == b,
{
    broadcast use vstd::array::group_array_axioms;

    assert(a =~= b);
}

/// The array that holds the `N` values of `values`.
pub open spec fn array_of<T: Copy, const N: usize>(values: Seq<T>) -> [T; N] {
    array_prefix::<T, N>(values, values[0], N as nat)
}

/// What `array_of` holds, place by place.
pub proof fn lemma_array_of<T: Copy, const N: usize>(values: Seq<T>)
    ensures
        forall|i: int| 0 <= i < N ==> #[trigger] array_of::<T, N>(values)@[i] == values[i],
{
    lemma_array_prefix::<T, N>(values, values[0], N as nat);
}

} // verus!

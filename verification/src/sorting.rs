//! Stable ordering of item positions by a per-item key.

use vstd::prelude::*;

verus! {

/// Item `a` comes before item `b`: a smaller key, or the same key and an
/// earlier position.
pub open spec fn key_position_lt(keys: Seq<u32>, a: usize, b: usize) -> bool {
    keys[a as int] < keys[b as int] || (keys[a as int] == keys[b as int] && a < b)
}

/// `s` is strictly increasing by key, ties broken by position.
pub open spec fn sorted_by_key_position(keys: Seq<u32>, s: Seq<usize>) -> bool {
    forall|i: int, j: int|
        0 <= i < j < s.len() ==> key_position_lt(keys, #[trigger] s[i], #[trigger] s[j])
}

/// Every entry of `s` is a position of `keys`.
pub open spec fn all_below(s: Seq<usize>, n: nat) -> bool {
    forall|i: int| 0 <= i < s.len() ==> #[trigger] s[i] < n
}

proof fn lemma_swap_multiset(s: Seq<usize>, j: int)
    requires
        1 <= j < s.len(),
    ensures
        s.update(j - 1, s[j]).update(j, s[j - 1]).to_multiset() == s.to_multiset(),
{
    let x = s[j - 1];
    let y = s[j];
    let s1 = s.update(j - 1, y);
    vstd::seq_lib::to_multiset_update(s, j - 1, y);
    vstd::seq_lib::to_multiset_update(s1, j, x);
    assert(s1[j] == y);
    broadcast use vstd::multiset::group_multiset_axioms;

    assert(s.contains(x)) by {
        assert(s[j - 1] == x);
    }
    vstd::seq_lib::to_multiset_contains(s, x);
    assert(s.to_multiset().count(x) > 0);
    assert(s.to_multiset().insert(y).remove(x).insert(x).remove(y) =~= s.to_multiset());
}

/// Sorts distinct item positions by `keys[position]`, keeping positions with
/// equal keys in increasing order (insertion sort).
pub fn sort_by_key_position(items: &mut Vec<usize>, keys: &Vec<u32>)
    requires
        all_below(old(items)@, keys@.len()),
        old(items)@.no_duplicates(),
    ensures
        final(items)@.to_multiset() == old(items)@.to_multiset(),
        final(items)@.len() == old(items)@.len(),
        sorted_by_key_position(keys@, final(items)@),
        all_below(final(items)@, keys@.len()),
        final(items)@.no_duplicates(),
{
    let n = items.len();
    let ghost original = items@;
    let mut i: usize = 0;
    while i < n
        invariant
            n == items.len(),
            0 <= i <= n,
            items@.to_multiset() == original.to_multiset(),
            all_below(items@, keys@.len()),
            items@.no_duplicates(),
            forall|a: int, b: int|
                0 <= a < b < i ==> key_position_lt(keys@, #[trigger] items[a], #[trigger] items[b]),
        decreases n - i,
    {
        let mut j = i;
        while j > 0 && (keys[items[j]] < keys[items[j - 1]] || (keys[items[j]] == keys[items[j - 1]]
            && items[j] < items[j - 1]))
            invariant
                n == items.len(),
                0 <= j <= i < n,
                items@.to_multiset() == original.to_multiset(),
                all_below(items@, keys@.len()),
                items@.no_duplicates(),
                forall|a: int, b: int|
                    0 <= a < b <= i && a != j && b != j ==> key_position_lt(
                        keys@,
                        #[trigger] items[a],
                        #[trigger] items[b],
                    ),
                forall|b: int| j < b <= i ==> key_position_lt(keys@, items[j as int], #[trigger] items[b]),
            decreases j,
        {
            let x = items[j - 1];
            let y = items[j];
            proof {
                lemma_swap_multiset(items@, j as int);
            }
            items.set(j - 1, y);
            items.set(j, x);
            j = j - 1;
        }
        proof {
            if j > 0 {
                assert(items[j - 1] != items[j as int]);
                assert(key_position_lt(keys@, items[j - 1], items[j as int]));
            }
        }
        i = i + 1;
    }
    proof {
        vstd::seq_lib::to_multiset_len(items@);
        vstd::seq_lib::to_multiset_len(original);
    }
}

} // verus!

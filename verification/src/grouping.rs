//! Grouping of items by an integer key, in order of first appearance.

use std::collections::HashMap;
use std::hash::BuildHasherDefault;
use nohash_hasher::NoHashHasher;
use vstd::prelude::*;

verus! {

/// `nohash_hasher::NoHashHasher`, the hasher that hands an integer key on as
/// its own hash; it is only carried as a type here.
#[verifier::external_type_specification]
#[verifier::external_body]
#[verifier::reject_recursive_types(T)]
pub struct ExNoHashHasher<T>(NoHashHasher<T>);

/// `std::hash::BuildHasherDefault`, which builds hashers with `Default`; it
/// is only carried as a type here.
#[verifier::external_type_specification]
#[verifier::external_body]
#[verifier::reject_recursive_types(H)]
pub struct ExBuildHasherDefault<H>(BuildHasherDefault<H>);

/// A hash index from `u64` keys to group numbers, hashed by
/// `nohash_hasher`'s identity hasher.
pub type KeyIndex = HashMap<u64, usize, BuildHasherDefault<NoHashHasher<u64>>>;

/// What a key index holds: the group number stored under each key. The index
/// is a `HashMap` that uses `nohash_hasher`'s identity hasher on its `u64`
/// keys; a `u64` hashes itself with a single `write_u64`, which that hasher
/// accepts and turns into the key itself, so equal keys hash alike and the
/// map behaves as a map of its keys.
pub uninterp spec fn key_index_contents(m: KeyIndex) -> Map<u64, usize>;

/// The contents of an empty key index.
pub open spec fn no_keys() -> Map<u64, usize> {
    Map::empty()
}

/// Calls `HashMap::default()` (with the identity hasher); claims that the new
/// map holds no key.
#[verifier::external_body]
fn key_index_new() -> (index: KeyIndex)
    ensures
        key_index_contents(index) == no_keys(),
{
    HashMap::default()
}

/// Calls `HashMap::get`; claims that it returns the value stored under `key`,
/// or `None` when the map holds no such key.
#[verifier::external_body]
fn key_index_get(m: &KeyIndex, key: u64) -> (r: Option<usize>)
    ensures
        r == (if key_index_contents(*m).dom().contains(key) {
            Some(key_index_contents(*m)[key])
        } else {
            None
        }),
{
    m.get(&key).copied()
}

/// Calls `HashMap::insert`; claims that afterwards the map holds `value`
/// under `key` and is otherwise unchanged. Its return value, the value that
/// was replaced, is dropped.
#[verifier::external_body]
fn key_index_insert(
    m: &mut KeyIndex,
    key: u64,
    value: usize,
)
    ensures
        key_index_contents(*final(m)) == key_index_contents(*old(m)).insert(key, value),
{
    m.insert(key, value);
}

/// The distinct keys of `s`, in the order in which each first appears.
pub open spec fn distinct_keys(s: Seq<u64>) -> Seq<u64>
    decreases s.len(),
{
    if s.len() == 0 {
        Seq::empty()
    } else {
        let prev = distinct_keys(s.drop_last());
        if prev.contains(s.last()) {
            prev
        } else {
            prev.push(s.last())
        }
    }
}

/// The positions of `s` that hold `k`, in increasing order.
pub open spec fn positions_of(s: Seq<u64>, k: u64) -> Seq<usize>
    decreases s.len(),
{
    if s.len() == 0 {
        Seq::empty()
    } else {
        let prev = positions_of(s.drop_last(), k);
        if s.last() == k {
            prev.push((s.len() - 1) as usize)
        } else {
            prev
        }
    }
}

/// Items grouped by key: `keys[g]` is the key of group `g`, and `members[g]`
/// the positions of the items that carry it.
pub struct KeyGroups {
    pub keys: Vec<u64>,
    pub members: Vec<Vec<usize>>,
}

impl KeyGroups {
    /// The groups of the key sequence `s`: one per distinct key, in order of
    /// first appearance, each with the positions of its key in order.
    pub open spec fn groups_of(self, s: Seq<u64>) -> bool {
        &&& self.keys@ == distinct_keys(s)
        &&& self.members.len() == self.keys.len()
        &&& forall|g: int|
            0 <= g < self.members.len() ==> #[trigger] self.members[g]@ == positions_of(
                s,
                self.keys[g],
            )
    }
}

/// A key has a group exactly when some item carries it.
pub proof fn lemma_distinct_keys_contains(s: Seq<u64>, k: u64)
    ensures
        distinct_keys(s).contains(k) <==> s.contains(k),
    decreases s.len(),
{
    if s.len() > 0 {
        let p = s.drop_last();
        let prev = distinct_keys(p);
        lemma_distinct_keys_contains(p, k);
        if p.contains(k) {
            let i = choose|i: int| 0 <= i < p.len() && p[i] == k;
            assert(s[i] == k);
            if !prev.contains(s.last()) {
                let j = choose|j: int| 0 <= j < prev.len() && prev[j] == k;
                assert(prev.push(s.last())[j] == k);
            }
        }
        if s.contains(k) && !p.contains(k) {
            let i = choose|i: int| 0 <= i < s.len() && s[i] == k;
            if i < s.len() - 1 {
                assert(p[i] == k);
            }
            assert(s.last() == k);
            assert(prev.push(s.last())[prev.len() as int] == k);
        }
        if distinct_keys(s).contains(k) && !prev.contains(k) {
            let j = choose|j: int| 0 <= j < distinct_keys(s).len() && distinct_keys(s)[j] == k;
            if !prev.contains(s.last()) && j < prev.len() {
                assert(prev[j] == k);
            }
            assert(s[s.len() - 1] == k);
        }
    }
}

/// No two groups share a key.
pub proof fn lemma_distinct_keys_no_duplicates(s: Seq<u64>)
    ensures
        distinct_keys(s).no_duplicates(),
    decreases s.len(),
{
    if s.len() > 0 {
        lemma_distinct_keys_no_duplicates(s.drop_last());
    }
}

proof fn lemma_positions_absent(s: Seq<u64>, k: u64)
    requires
        !s.contains(k),
    ensures
        positions_of(s, k) == Seq::<usize>::empty(),
    decreases s.len(),
{
    if s.len() > 0 {
        if s.drop_last().contains(k) {
            let i = choose|i: int| 0 <= i < s.drop_last().len() && s.drop_last()[i] == k;
            assert(s[i] == k);
        }
        lemma_positions_absent(s.drop_last(), k);
        assert(s[s.len() - 1] != k);
    }
}

/// Groups the items by key, in order of first appearance, with a hash index
/// from key to group number.
pub fn group_by_key(keys: &Vec<u64>) -> (r: KeyGroups)
    ensures
        r.groups_of(keys@),
{
    let mut index = key_index_new();
    let mut out_keys: Vec<u64> = Vec::new();
    let mut members: Vec<Vec<usize>> = Vec::new();
    let n = keys.len();
    let mut i: usize = 0;
    while i < n
        invariant
            n == keys.len(),
            0 <= i <= n,
            out_keys@ == distinct_keys(keys@.take(i as int)),
            members.len() == out_keys.len(),
            forall|g: int|
                0 <= g < members.len() ==> #[trigger] members[g]@ == positions_of(
                    keys@.take(i as int),
                    out_keys[g],
                ),
            forall|k: u64|
                #[trigger] key_index_contents(index).dom().contains(k) <==> out_keys@.contains(k),
            forall|k: u64|
                key_index_contents(index).dom().contains(k) ==> {
                    &&& #[trigger] key_index_contents(index)[k] < out_keys.len()
                    &&& out_keys[key_index_contents(index)[k] as int] == k
                },
        decreases n - i,
    {
        let k = keys[i];
        let ghost prefix = keys@.take(i as int);
        let ghost next = keys@.take(i + 1);
        assert(next.drop_last() == prefix);
        assert(next.last() == k);
        proof {
            lemma_distinct_keys_no_duplicates(prefix);
        }
        match key_index_get(&index, k) {
            Some(g) => {
                assert(out_keys@.contains(k));
                let mut group = Vec::new();
                std::mem::swap(&mut group, &mut members[g]);
                group.push(i);
                std::mem::swap(&mut group, &mut members[g]);
                assert forall|h: int| 0 <= h < members.len() implies #[trigger] members[h]@
                    == positions_of(next, out_keys[h]) by {
                    if h != g {
                        assert(out_keys[h] != out_keys[g as int]);
                    }
                }
            },
            None => {
                assert(!out_keys@.contains(k));
                proof {
                    lemma_distinct_keys_contains(prefix, k);
                    lemma_positions_absent(prefix, k);
                }
                let g = out_keys.len();
                let ghost old_keys = out_keys@;
                key_index_insert(&mut index, k, g);
                out_keys.push(k);
                let mut group = Vec::new();
                group.push(i);
                members.push(group);
                assert forall|h: int| 0 <= h < members.len() implies #[trigger] members[h]@
                    == positions_of(next, out_keys[h]) by {
                    if h < g {
                        assert(out_keys[h] != k);
                    } else {
                        assert(positions_of(next, k) == seq![i]);
                    }
                }
                assert forall|kk: u64| #[trigger]
                    key_index_contents(index).dom().contains(kk) <==> out_keys@.contains(kk) by {
                    if out_keys@.contains(kk) && kk != k {
                        let j = choose|j: int| 0 <= j < out_keys.len() && out_keys[j] == kk;
                        assert(old_keys[j] == kk);
                    }
                    if old_keys.contains(kk) {
                        let j = choose|j: int| 0 <= j < old_keys.len() && old_keys[j] == kk;
                        assert(out_keys[j] == kk);
                    }
                    if kk == k {
                        assert(out_keys[g as int] == k);
                    }
                }
            },
        }
        i = i + 1;
    }
    assert(keys@.take(n as int) == keys@);
    KeyGroups { keys: out_keys, members }
}

/// The number of items in the groups of the keys `d`.
pub open spec fn total_members(s: Seq<u64>, d: Seq<u64>) -> nat
    decreases d.len(),
{
    if d.len() == 0 {
        0
    } else {
        total_members(s, d.drop_last()) + positions_of(s, d.last()).len()
    }
}

/// The positions of `k` are increasing positions of `s` that hold `k`, and
/// every position that holds `k` is among them.
pub proof fn lemma_positions_exact(s: Seq<u64>, k: u64)
    requires
        s.len() <= usize::MAX,
    ensures
        forall|j: int|
            0 <= j < positions_of(s, k).len() ==> #[trigger] positions_of(s, k)[j] < s.len()
                && s[positions_of(s, k)[j] as int] == k,
        forall|j1: int, j2: int|
            0 <= j1 < j2 < positions_of(s, k).len() ==> #[trigger] positions_of(s, k)[j1]
                < #[trigger] positions_of(s, k)[j2],
        forall|i: int| 0 <= i < s.len() && s[i] == k ==> positions_of(s, k).contains(i as usize),
    decreases s.len(),
{
    if s.len() > 0 {
        let p = s.drop_last();
        let ps = positions_of(p, k);
        let qs = positions_of(s, k);
        lemma_positions_exact(p, k);
        assert forall|j: int| 0 <= j < qs.len() implies #[trigger] qs[j] < s.len() && s[qs[j] as int]
            == k by {
            if j < ps.len() {
                assert(qs[j] == ps[j]);
                assert(s[ps[j] as int] == p[ps[j] as int]);
            }
        }
        assert forall|j1: int, j2: int| 0 <= j1 < j2 < qs.len() implies #[trigger] qs[j1]
            < #[trigger] qs[j2] by {
            assert(qs[j1] == ps[j1]);
            if j2 < ps.len() {
                assert(qs[j2] == ps[j2]);
            } else {
                assert(ps[j1] < p.len());
            }
        }
        assert forall|i: int| 0 <= i < s.len() && s[i] == k implies qs.contains(i as usize) by {
            if i < s.len() - 1 {
                assert(p[i] == k);
                let j = choose|j: int| 0 <= j < ps.len() && ps[j] == i as usize;
                assert(qs[j] == i as usize);
            } else {
                assert(qs[ps.len() as int] == i as usize);
            }
        }
    }
}

/// Every item lies in the group of its own key and in no other.
pub proof fn lemma_item_in_one_group(s: Seq<u64>, i: int, k: u64)
    requires
        s.len() <= usize::MAX,
        0 <= i < s.len(),
    ensures
        distinct_keys(s).contains(s[i]),
        positions_of(s, k).contains(i as usize) <==> s[i] == k,
{
    lemma_positions_exact(s, k);
    lemma_distinct_keys_contains(s, s[i]);
    assert(s.contains(s[i]));
    if positions_of(s, k).contains(i as usize) {
        let j = choose|j: int|
            0 <= j < positions_of(s, k).len() && positions_of(s, k)[j] == i as usize;
        assert(s[positions_of(s, k)[j] as int] == k);
    }
}

proof fn lemma_total_members_push(s: Seq<u64>, k: u64, d: Seq<u64>)
    requires
        d.no_duplicates(),
    ensures
        total_members(s.push(k), d) == total_members(s, d) + (if d.contains(k) {
            1int
        } else {
            0int
        }),
    decreases d.len(),
{
    if d.len() > 0 {
        let q = d.drop_last();
        assert(q.no_duplicates());
        lemma_total_members_push(s, k, q);
        assert(s.push(k).drop_last() == s);
        if d.last() == k {
            assert(!q.contains(k));
        }
        if q.contains(k) {
            let j = choose|j: int| 0 <= j < q.len() && q[j] == k;
            assert(d[j] == k);
        }
        if d.contains(k) && d.last() != k {
            let j = choose|j: int| 0 <= j < d.len() && d[j] == k;
            assert(q[j] == k);
        }
    }
}

/// The groups share the items out: their sizes add up to the number of items.
pub proof fn lemma_group_sizes_sum(s: Seq<u64>)
    ensures
        total_members(s, distinct_keys(s)) == s.len(),
    decreases s.len(),
{
    if s.len() > 0 {
        let p = s.drop_last();
        let k = s.last();
        assert(p.push(k) == s);
        lemma_group_sizes_sum(p);
        lemma_distinct_keys_no_duplicates(p);
        lemma_total_members_push(p, k, distinct_keys(p));
        if !distinct_keys(p).contains(k) {
            lemma_distinct_keys_contains(p, k);
            lemma_positions_absent(p, k);
            assert(distinct_keys(s).drop_last() == distinct_keys(p));
        }
    }
}

/// There are never more groups than items.
pub proof fn lemma_group_count_bounded(s: Seq<u64>)
    ensures
        distinct_keys(s).len() <= s.len(),
    decreases s.len(),
{
    if s.len() > 0 {
        lemma_group_count_bounded(s.drop_last());
    }
}

/// `p` is a permutation of `0..n`, with `inv` its inverse.
pub open spec fn is_permutation(p: Seq<int>, inv: Seq<int>, n: nat) -> bool {
    &&& p.len() == n
    &&& inv.len() == n
    &&& forall|i: int| 0 <= i < n ==> 0 <= #[trigger] p[i] < n && inv[p[i]] == i
    &&& forall|j: int| 0 <= j < n ==> 0 <= #[trigger] inv[j] < n && p[inv[j]] == j
}

/// `s` reordered by `p`: its item `i` is item `p[i]` of `s`.
pub open spec fn permuted<A>(s: Seq<A>, p: Seq<int>) -> Seq<A> {
    Seq::new(p.len(), |i: int| s[p[i]])
}

/// Position `m` of a reordered sequence, as a position of the original.
pub open spec fn original_position(p: Seq<int>) -> spec_fn(usize) -> usize {
    |m: usize| p[m as int] as usize
}

/// Two sequences without duplicates that hold the same elements hold them
/// the same number of times.
pub proof fn lemma_same_elements_same_multiset<A>(a: Seq<A>, b: Seq<A>)
    requires
        a.no_duplicates(),
        b.no_duplicates(),
        forall|x: A| a.contains(x) <==> b.contains(x),
    ensures
        a.to_multiset() == b.to_multiset(),
{
    a.lemma_multiset_has_no_duplicates();
    b.lemma_multiset_has_no_duplicates();
    assert forall|x: A| a.to_multiset().count(x) == b.to_multiset().count(x) by {
        vstd::seq_lib::to_multiset_contains(a, x);
        vstd::seq_lib::to_multiset_contains(b, x);
        if a.contains(x) {
            assert(a.to_multiset().contains(x));
            assert(b.to_multiset().contains(x));
        } else {
            assert(!a.to_multiset().contains(x));
            assert(!b.to_multiset().contains(x));
        }
    }
    assert(a.to_multiset() =~= b.to_multiset());
}

/// Grouping does not depend on the order of the items: reordered, the items
/// form groups with the same keys, as many of them, and each group holds
/// the same items (item `j` becomes item `inv[j]`); only the order of the
/// groups and of the positions within a group follows the order of input.
pub proof fn lemma_groups_permutation(s: Seq<u64>, p: Seq<int>, inv: Seq<int>)
    requires
        s.len() <= usize::MAX,
        is_permutation(p, inv, s.len()),
    ensures
        forall|k: u64|
            #[trigger] distinct_keys(permuted(s, p)).contains(k) <==> distinct_keys(s).contains(k),
        distinct_keys(permuted(s, p)).len() == distinct_keys(s).len(),
        forall|k: u64, j: int|
            0 <= j < s.len() ==> (#[trigger] positions_of(s, k).contains(j as usize) <==> positions_of(
                permuted(s, p),
                k,
            ).contains(inv[j] as usize)),
        forall|k: u64|
            (#[trigger] positions_of(permuted(s, p), k)).map_values(original_position(p)).to_multiset()
                == positions_of(s, k).to_multiset(),
{
    let t = permuted(s, p);
    let n = s.len();
    assert forall|k: u64| #[trigger] t.contains(k) <==> s.contains(k) by {
        if t.contains(k) {
            let i = choose|i: int| 0 <= i < t.len() && t[i] == k;
            assert(s[p[i]] == k);
        }
        if s.contains(k) {
            let j = choose|j: int| 0 <= j < n && s[j] == k;
            assert(t[inv[j]] == k);
        }
    }
    assert forall|k: u64| #[trigger] distinct_keys(t).contains(k) <==> distinct_keys(s).contains(k) by {
        lemma_distinct_keys_contains(t, k);
        lemma_distinct_keys_contains(s, k);
    }
    lemma_distinct_keys_no_duplicates(t);
    lemma_distinct_keys_no_duplicates(s);
    distinct_keys(t).unique_seq_to_set();
    distinct_keys(s).unique_seq_to_set();
    assert(distinct_keys(t).to_set() =~= distinct_keys(s).to_set());
    assert forall|k: u64, j: int| 0 <= j < s.len() implies (#[trigger] positions_of(s, k).contains(
        j as usize,
    ) <==> positions_of(t, k).contains(inv[j] as usize)) by {
        lemma_item_in_one_group(s, j, k);
        lemma_item_in_one_group(t, inv[j], k);
        assert(t[inv[j]] == s[j]);
    }
    assert forall|k: u64|
        (#[trigger] positions_of(t, k)).map_values(original_position(p)).to_multiset()
            == positions_of(s, k).to_multiset() by {
        let a = positions_of(s, k);
        let b = positions_of(t, k);
        let mb = b.map_values(original_position(p));
        lemma_positions_exact(s, k);
        lemma_positions_exact(t, k);
        assert(a.no_duplicates()) by {
            assert forall|x: int, y: int| 0 <= x < a.len() && 0 <= y < a.len() && x != y
                implies a[x] != a[y] by {
                if x < y {
                    assert(a[x] < a[y]);
                } else {
                    assert(a[y] < a[x]);
                }
            }
        }
        assert(mb.no_duplicates()) by {
            assert forall|x: int, y: int| 0 <= x < mb.len() && 0 <= y < mb.len() && x != y
                implies mb[x] != mb[y] by {
                if x < y {
                    assert(b[x] < b[y]);
                } else {
                    assert(b[y] < b[x]);
                }
                assert(inv[p[b[x] as int]] == b[x] as int);
                assert(inv[p[b[y] as int]] == b[y] as int);
            }
        }
        assert forall|x: usize| #[trigger] mb.contains(x) <==> a.contains(x) by {
            if mb.contains(x) {
                let u = choose|u: int| 0 <= u < mb.len() && mb[u] == x;
                let m = b[u];
                assert(t[m as int] == k);
                assert(s[p[m as int]] == k);
                lemma_item_in_one_group(s, p[m as int], k);
            }
            if a.contains(x) {
                let u = choose|u: int| 0 <= u < a.len() && a[u] == x;
                assert(a[u] < n && s[a[u] as int] == k);
                let m = inv[x as int];
                assert(t[m] == k);
                lemma_item_in_one_group(t, m, k);
                let w = choose|w: int| 0 <= w < b.len() && b[w] == m as usize;
                assert(mb[w] == x);
            }
        }
        lemma_same_elements_same_multiset(mb, a);
    }
}

} // verus!

//! Sets of ids held as vectors: how many distinct `u32`s there can be,
//! and sorting.

use vstd::prelude::*;
use vstd::set_lib::{lemma_int_range, lemma_len_subset, set_int_range};

verus! {

broadcast use vstd::seq_lib::to_multiset_update, vstd::multiset::group_multiset_properties;

/// There are at most 2^32 distinct `u32` values.
pub proof fn lemma_u32_distinct_bound(s: Seq<u32>)
    requires
        s.no_duplicates(),
    ensures
        s.len() <= 0x1_0000_0000,
{
    let t = s.map_values(|x: u32| x as int);
    assert(t.no_duplicates()) by {
        assert forall|i: int, j: int| 0 <= i < t.len() && 0 <= j < t.len() && i != j implies t[i] != t[j] by {
            assert(s[i] != s[j]);
        }
    }
    t.unique_seq_to_set();
    lemma_int_range(0, 0x1_0000_0000);
    assert(t.to_set().subset_of(set_int_range(0, 0x1_0000_0000))) by {
        assert forall|x: int| t.to_set().contains(x) implies set_int_range(0, 0x1_0000_0000).contains(x) by {
            let i = choose|i: int| 0 <= i < t.len() && t[i] == x;
            assert(t[i] == s[i] as int);
        }
    }
    lemma_len_subset(t.to_set(), set_int_range(0, 0x1_0000_0000));
}

pub open spec fn ascending(s: Seq<u32>) -> bool {
    forall|i: int, j: int| 0 <= i < j < s.len() ==> s[i] < s[j]
}

/// Swapping two places of a sequence keeps its multiset.
pub proof fn lemma_swap_keeps<T>(s: Seq<T>, i: int, j: int)
    requires
        0 <= i < s.len(),
        0 <= j < s.len(),
    ensures
        s.update(i, s[j]).update(j, s[i]).to_multiset() == s.to_multiset(),
{
    broadcast use vstd::seq_lib::to_multiset_contains;

    let m = s.to_multiset();
    let t = s.update(i, s[j]);
    assert(t[j] == s[j]);
    assert(s.contains(s[i]));
    assert(s.contains(s[j]));
    let m1 = m.insert(s[j]).remove(s[i]);
    assert(t.to_multiset() == m1);
    let m2 = m1.insert(s[i]).remove(s[j]);
    assert(t.update(j, s[i]).to_multiset() == m2);
    assert forall|x: T| #[trigger] m2.count(x) == m.count(x) by {
    }
    assert(m2 =~= m);
}

/// Sort distinct ids ascending.
pub fn sort_ids(v: &mut Vec<u32>)
    requires
        old(v)@.no_duplicates(),
    ensures
        final(v)@.to_multiset() == old(v)@.to_multiset(),
        ascending(final(v)@),
        final(v)@.no_duplicates(),
{
    let n = v.len();
    let mut i: usize = 1;
    if n == 0 {
        return;
    }
    while i < n
        invariant
            n == v@.len(),
            1 <= i <= n,
            v@.to_multiset() == old(v)@.to_multiset(),
            ascending(v@.take(i as int)),
            v@.no_duplicates(),
        decreases n - i,
    {
        assert forall|a: int, b: int| 0 <= a < b < i implies v@[a] < v@[b] by {
            assert(v@.take(i as int)[a] == v@[a]);
            assert(v@.take(i as int)[b] == v@[b]);
        }
        let mut j = i;
        while j > 0 && v[j - 1] > v[j]
            invariant
                n == v@.len(),
                0 <= j <= i < n,
                v@.to_multiset() == old(v)@.to_multiset(),
                v@.no_duplicates(),
                forall|a: int, b: int| 0 <= a < b <= i && a != j && b != j ==> v@[a] < v@[b],
                forall|b: int| j < b <= i ==> v@[j as int] < v@[b],
            decreases j,
        {
            let ghost s = v@;
            let x = v[j - 1];
            let y = v[j];
            v.set(j - 1, y);
            v.set(j, x);
            proof {
                lemma_swap_keeps(s, j - 1, j as int);
                assert(v@ == s.update(j - 1, s[j as int]).update(j as int, s[j - 1]));
                assert forall|a: int, b: int| 0 <= a < v@.len() && 0 <= b < v@.len() && a != b implies v@[a]
                    != v@[b] by {
                    let pa = if a == j - 1 { j as int } else if a == j { j - 1 } else { a };
                    let pb = if b == j - 1 { j as int } else if b == j { j - 1 } else { b };
                    assert(v@[a] == s[pa]);
                    assert(v@[b] == s[pb]);
                }
            }
            j = j - 1;
        }
        assert forall|a: int, b: int| 0 <= a < b <= i implies v@[a] < v@[b] by {
            if a == j && b != j {
            } else if b == j && a != j {
                assert(v@[j - 1] != v@[j as int]);
                assert(v@[j - 1] <= v@[j as int]);
                if a < j - 1 {
                    assert(v@[a] < v@[j - 1]);
                }
            }
        }
        i = i + 1;
        assert(ascending(v@.take(i as int)));
    }
    assert(v@.take(n as int) =~= v@);
}

} // verus!

//! Keyed tallies kept as lists of (key, value) pairs, each key once, in
//! the order the keys first appeared.

use vstd::prelude::*;
use crate::chars::str_eq;

verus! {

/// No key occurs twice.
pub open spec fn unique_keys<V>(s: Seq<(String, V)>) -> bool {
    forall|i: int, j: int| 0 <= i < j < s.len() ==> #[trigger] s[i].0@ != #[trigger] s[j].0@
}

/// The position of `k` among the first `n` entries, if any.
pub open spec fn key_pos<V>(s: Seq<(String, V)>, k: Seq<char>, n: int) -> Option<int>
    decreases n,
{
    if n <= 0 || n > s.len() {
        None
    } else {
        match key_pos(s, k, n - 1) {
            Some(i) => Some(i),
            None => if s[n - 1].0@ == k { Some(n - 1) } else { None },
        }
    }
}

proof fn lemma_key_pos<V>(s: Seq<(String, V)>, k: Seq<char>, n: int)
    requires
        0 <= n <= s.len(),
    ensures
        match key_pos(s, k, n) {
            Some(i) => 0 <= i < n && s[i].0@ == k,
            None => forall|j: int| 0 <= j < n ==> s[j].0@ != k,
        },
    decreases n,
{
    if n > 0 {
        lemma_key_pos(s, k, n - 1);
    }
}

/// Where key `k` sits in `v`.
pub fn find_key<V>(v: &Vec<(String, V)>, k: &str) -> (r: Option<usize>)
    ensures
        match r {
            Some(i) => key_pos(v@, k@, v@.len() as int) == Some(i as int) && i < v@.len(),
            None => key_pos(v@, k@, v@.len() as int) is None,
        },
{
    let mut i: usize = 0;
    while i < v.len()
        invariant
            i <= v@.len(),
            key_pos(v@, k@, i as int) is None,
        decreases v@.len() - i,
    {
        if str_eq(v[i].0.as_str(), k) {
            proof { lemma_key_pos_sticks(v@, k@, i + 1, v@.len() as int); }
            return Some(i);
        }
        i = i + 1;
    }
    None
}

proof fn lemma_key_pos_sticks<V>(s: Seq<(String, V)>, k: Seq<char>, a: int, b: int)
    requires
        0 <= a <= b <= s.len(),
        key_pos(s, k, a) is Some,
    ensures
        key_pos(s, k, b) == key_pos(s, k, a),
    decreases b - a,
{
    if a < b {
        lemma_key_pos_sticks(s, k, a, b - 1);
    }
}

/// Count one more under `k`: its count goes up by one, or it is added
/// last with count 1. Keys stay unique.
pub fn bump(v: &mut Vec<(String, u64)>, k: &str)
    requires
        unique_keys(old(v)@),
        forall|i: int| 0 <= i < old(v)@.len() ==> (#[trigger] old(v)@[i]).1 < u64::MAX,
    ensures
        unique_keys(final(v)@),
        match key_pos(old(v)@, k@, old(v)@.len() as int) {
            Some(i) => final(v)@.len() == old(v)@.len() && final(v)@[i].0@ == k@
                && final(v)@[i].1 == old(v)@[i].1 + 1
                && forall|j: int| 0 <= j < old(v)@.len() && j != i ==> #[trigger] final(v)@[j] == old(v)@[j],
            None => final(v)@.len() == old(v)@.len() + 1 && final(v)@[old(v)@.len() as int].0@ == k@
                && final(v)@[old(v)@.len() as int].1 == 1
                && forall|j: int| 0 <= j < old(v)@.len() ==> #[trigger] final(v)@[j] == old(v)@[j],
        },
{
    proof { lemma_key_pos(v@, k@, v@.len() as int); }
    match find_key(v, k) {
        Some(i) => {
            let n = v[i].1 + 1;
            let key = v[i].0.clone();
            let ghost before = v@;
            v.set(i, (key, n));
            proof {
                assert(v@[i as int].0@ == before[i as int].0@);
                assert forall|a: int, b: int| 0 <= a < b < v@.len() implies #[trigger] v@[a].0@ != #[trigger] v@[b].0@ by {
                    assert(v@[a].0@ == before[a].0@);
                    assert(v@[b].0@ == before[b].0@);
                }
            }
        },
        None => {
            let ghost before = v@;
            v.push((String::from_str(k), 1));
            proof {
                assert forall|a: int, b: int| 0 <= a < b < v@.len() implies #[trigger] v@[a].0@ != #[trigger] v@[b].0@ by {
                    if b == before.len() {
                        assert(before[a].0@ != k@);
                    } else {
                        assert(v@[a] == before[a]);
                        assert(v@[b] == before[b]);
                    }
                }
            }
        },
    }
}

/// The position of `k`, adding it last with value `d` when absent. Keys
/// stay unique.
pub fn slot<V>(v: &mut Vec<(String, V)>, k: &str, d: V) -> (i: usize)
    requires
        unique_keys(old(v)@),
    ensures
        unique_keys(final(v)@),
        i < final(v)@.len(),
        final(v)@[i as int].0@ == k@,
        match key_pos(old(v)@, k@, old(v)@.len() as int) {
            Some(p) => i == p && final(v)@ == old(v)@,
            None => i == old(v)@.len() && final(v)@.len() == old(v)@.len() + 1 && final(v)@[i as int].1 == d
                && forall|j: int| 0 <= j < old(v)@.len() ==> #[trigger] final(v)@[j] == old(v)@[j],
        },
{
    proof { lemma_key_pos(v@, k@, v@.len() as int); }
    match find_key(v, k) {
        Some(i) => i,
        None => {
            let ghost before = v@;
            let n = v.len();
            v.push((String::from_str(k), d));
            proof {
                assert forall|a: int, b: int| 0 <= a < b < v@.len() implies #[trigger] v@[a].0@ != #[trigger] v@[b].0@ by {
                    if b == before.len() {
                        assert(before[a].0@ != k@);
                    } else {
                        assert(v@[a] == before[a]);
                        assert(v@[b] == before[b]);
                    }
                }
            }
            n
        },
    }
}

} // verus!

//! The most common string of a list: highest count first, ties broken by
//! the smaller string.
use vstd::prelude::*;
use crate::order::{compare_str, lemma_lt_irreflexive, lemma_lt_transitive, lemma_lt_trichotomy, seq_le, seq_lt};
use crate::text::{copy_string, views};

verus! {

/// How often `k` occurs in `keys`.
pub open spec fn occurrences(keys: Seq<Seq<char>>, k: Seq<char>) -> nat
    decreases keys.len(),
{
    if keys.len() == 0 {
        0
    } else {
        occurrences(keys.drop_last(), k) + if keys.last() == k {
            1nat
        } else {
            0nat
        }
    }
}

/// `k` occurs in `keys` at least as often as every other key, and sorts
/// first among the keys that occur as often.
pub open spec fn is_most_common(keys: Seq<Seq<char>>, k: Seq<char>) -> bool {
    &&& keys.contains(k)
    &&& forall|j: int|
        0 <= j < keys.len() ==> occurrences(keys, #[trigger] keys[j]) < occurrences(keys, k) || (occurrences(
            keys,
            keys[j],
        ) == occurrences(keys, k) && seq_le(k, keys[j]))
}

/// At most one key is the most common.
pub proof fn law_most_common_is_unique(keys: Seq<Seq<char>>, a: Seq<char>, b: Seq<char>)
    requires
        is_most_common(keys, a),
        is_most_common(keys, b),
    ensures
        a == b,
{
    let i = choose|i: int| 0 <= i < keys.len() && keys[i] == a;
    let j = choose|j: int| 0 <= j < keys.len() && keys[j] == b;
    assert(occurrences(keys, keys[j]) == occurrences(keys, b));
    assert(occurrences(keys, keys[i]) == occurrences(keys, a));
    lemma_lt_trichotomy(a, b);
}

proof fn lemma_occurrences_push(keys: Seq<Seq<char>>, x: Seq<char>, k: Seq<char>)
    ensures
        occurrences(keys.push(x), k) == occurrences(keys, k) + if x == k {
            1nat
        } else {
            0nat
        },
{
    assert(keys.push(x).drop_last() =~= keys);
}

/// How often `k` occurs in `keys`.
fn count_of(keys: &Vec<String>, k: &String) -> (n: usize)
    ensures
        n == occurrences(views(keys@), k@),
{
    let ghost kv = views(keys@);
    let mut n: usize = 0;
    let mut i: usize = 0;
    while i < keys.len()
        invariant
            i <= keys@.len(),
            kv == views(keys@),
            n == occurrences(kv.take(i as int), k@),
            n <= i,
        decreases keys@.len() - i,
    {
        proof {
            assert(kv.take(i + 1) =~= kv.take(i as int).push(kv[i as int]));
            lemma_occurrences_push(kv.take(i as int), kv[i as int], k@);
        }
        if compare_str(keys[i].as_str(), k.as_str()) == 0 {
            n = n + 1;
        }
        i = i + 1;
    }
    assert(kv.take(keys@.len() as int) =~= kv);
    n
}

/// The most common key, `None` for no keys.
pub fn most_common(keys: &Vec<String>) -> (r: Option<String>)
    ensures
        keys@.len() == 0 ==> r is None,
        keys@.len() > 0 ==> (r matches Some(k) && is_most_common(views(keys@), k@)),
{
    let ghost kv = views(keys@);
    if keys.len() == 0 {
        return None;
    }
    let mut best: usize = 0;
    let mut best_n = count_of(keys, &keys[0]);
    let mut i: usize = 1;
    while i < keys.len()
        invariant
            1 <= i <= keys@.len(),
            kv == views(keys@),
            best < i,
            best_n == occurrences(kv, kv[best as int]),
            forall|j: int|
                0 <= j < i ==> occurrences(kv, #[trigger] kv[j]) < best_n || (occurrences(kv, kv[j]) == best_n
                    && seq_le(kv[best as int], kv[j])),
        decreases keys@.len() - i,
    {
        let n = count_of(keys, &keys[i]);
        if n > best_n || (n == best_n && compare_str(keys[i].as_str(), keys[best].as_str()) < 0) {
            proof {
                assert forall|j: int| 0 <= j < i + 1 implies occurrences(kv, #[trigger] kv[j]) < n || (occurrences(
                    kv,
                    kv[j],
                ) == n && seq_le(kv[i as int], kv[j])) by {
                    if j < i && occurrences(kv, kv[j]) == n && n == best_n {
                        if seq_lt(kv[best as int], kv[j]) {
                            lemma_lt_transitive(kv[i as int], kv[best as int], kv[j]);
                        }
                    }
                }
            }
            best = i;
            best_n = n;
        } else {
            proof {
                lemma_lt_trichotomy(keys@[i as int]@, keys@[best as int]@);
            }
        }
        i = i + 1;
    }
    proof {
        assert(kv[best as int] == keys@[best as int]@);
        assert(kv.contains(kv[best as int]));
    }
    Some(copy_string(&keys[best]))
}

} // verus!

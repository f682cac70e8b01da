//! Grouping of keyed values.

use itertools::Itertools;
use std::collections::{HashMap, HashSet};
use vstd::prelude::*;

verus! {

broadcast use vstd::std_specs::hash::group_hash_axioms;

/// The values that are paired with `key`, in the order of the pairs.
pub open spec fn values_with_key<V>(pairs: Seq<(u32, V)>, key: u32) -> Seq<V>
    decreases pairs.len(),
{
    if pairs.len() == 0 {
        Seq::empty()
    } else {
        let front = values_with_key(pairs.drop_last(), key);
        if pairs.last().0 == key {
            front.push(pairs.last().1)
        } else {
            front
        }
    }
}

/// A value is paired with `key` exactly when one of the pairs says so.
pub proof fn lemma_values_with_key<V>(pairs: Seq<(u32, V)>, key: u32, value: V)
    ensures
        values_with_key(pairs, key).contains(value) <==> exists|i: int|
            0 <= i < pairs.len() && #[trigger] pairs[i] == (key, value),
        values_with_key(pairs, key).len() > 0 <==> exists|i: int|
            0 <= i < pairs.len() && (#[trigger] pairs[i]).0 == key,
    decreases pairs.len(),
{
    if pairs.len() > 0 {
        let front = pairs.drop_last();
        let last = pairs.len() - 1;
        lemma_values_with_key(front, key, value);
        let group = values_with_key(pairs, key);
        let front_group = values_with_key(front, key);
        if exists|i: int| 0 <= i < front.len() && #[trigger] front[i] == (key, value) {
            let i = choose|i: int| 0 <= i < front.len() && #[trigger] front[i] == (key, value);
            assert(pairs[i] == (key, value));
            let j = choose|j: int| 0 <= j < front_group.len() && front_group[j] == value;
            assert(group[j] == value);
        }
        if exists|i: int| 0 <= i < front.len() && (#[trigger] front[i]).0 == key {
            let i = choose|i: int| 0 <= i < front.len() && (#[trigger] front[i]).0 == key;
            assert(pairs[i].0 == key);
        }
        if pairs[last] == (key, value) {
            assert(group.last() == value);
        }
        if group.contains(value) {
            let j = choose|j: int| 0 <= j < group.len() && group[j] == value;
            if j < front_group.len() {
                assert(front_group[j] == value);
                let i = choose|i: int| 0 <= i < front.len() && #[trigger] front[i] == (key, value);
                assert(pairs[i] == (key, value));
            } else {
                assert(pairs[last] == (key, value));
            }
        }
        if exists|i: int| 0 <= i < pairs.len() && #[trigger] pairs[i] == (key, value) {
            let i = choose|i: int| 0 <= i < pairs.len() && #[trigger] pairs[i] == (key, value);
            if i < last {
                assert(front[i] == (key, value));
            }
        }
        if exists|i: int| 0 <= i < pairs.len() && (#[trigger] pairs[i]).0 == key {
            let i = choose|i: int| 0 <= i < pairs.len() && (#[trigger] pairs[i]).0 == key;
            if i < last {
                assert(front[i].0 == key);
            }
        }
    }
}

/// Groups values by key with `Itertools::into_group_map`.
///
/// Trusted: the returned map has an entry for exactly the keys that occur
/// among the pairs, and the entry of a key lists the values paired with it in
/// the order in which the pairs came.
#[verifier::external_body]
pub(crate) fn group_by_key<V>(pairs: Vec<(u32, V)>) -> (groups: HashMap<u32, Vec<V>>)
    ensures
        forall|key: u32| #[trigger]
            groups@.contains_key(key) <==> values_with_key(pairs@, key).len() > 0,
        forall|key: u32| #[trigger]
            groups@.contains_key(key) ==> groups@[key]@ == values_with_key(pairs@, key),
{
    pairs.into_iter().into_group_map()
}

/// The keys of the pairs, each once, in order of first mention.
pub open spec fn distinct_keys<V>(pairs: Seq<(u32, V)>) -> Seq<u32>
    decreases pairs.len(),
{
    if pairs.len() == 0 {
        Seq::empty()
    } else {
        let front = distinct_keys(pairs.drop_last());
        if front.contains(pairs.last().0) {
            front
        } else {
            front.push(pairs.last().0)
        }
    }
}

/// How many values the listed keys have between them.
pub open spec fn grouped_len<V>(keys: Seq<u32>, pairs: Seq<(u32, V)>) -> nat
    decreases keys.len(),
{
    if keys.len() == 0 {
        0
    } else {
        grouped_len(keys.drop_last(), pairs) + values_with_key(pairs, keys.last()).len()
    }
}

/// A key is among the distinct keys exactly when it has a value, and no key
/// is listed twice.
pub proof fn lemma_distinct_keys<V>(pairs: Seq<(u32, V)>)
    ensures
        distinct_keys(pairs).no_duplicates(),
        forall|key: u32| #[trigger]
            distinct_keys(pairs).contains(key) <==> values_with_key(pairs, key).len() > 0,
    decreases pairs.len(),
{
    if pairs.len() > 0 {
        let front = pairs.drop_last();
        lemma_distinct_keys(front);
        let keys = distinct_keys(pairs);
        let before = distinct_keys(front);
        let last_key = pairs.last().0;
        assert forall|key: u32| #[trigger]
            keys.contains(key) <==> values_with_key(pairs, key).len() > 0 by {
            assert(before.contains(key) <==> values_with_key(front, key).len() > 0);
            if before.contains(key) {
                let j = choose|j: int| 0 <= j < before.len() && before[j] == key;
                assert(keys[j] == key);
            }
            if key == last_key && !before.contains(last_key) {
                assert(keys.last() == key);
            }
            if keys.contains(key) && key != last_key {
                let j = choose|j: int| 0 <= j < keys.len() && keys[j] == key;
                assert(before[j] == key);
            }
        }
    }
}

proof fn lemma_grouped_len_push<V>(keys: Seq<u32>, pairs: Seq<(u32, V)>, pair: (u32, V))
    requires
        keys.no_duplicates(),
    ensures
        grouped_len(keys, pairs.push(pair)) == grouped_len(keys, pairs) + if keys.contains(pair.0) {
            1nat
        } else {
            0nat
        },
    decreases keys.len(),
{
    assert(pairs.push(pair).drop_last() == pairs);
    if keys.len() > 0 {
        let front = keys.drop_last();
        lemma_grouped_len_push(front, pairs, pair);
        if front.contains(pair.0) {
            let j = choose|j: int| 0 <= j < front.len() && front[j] == pair.0;
            assert(keys[j] == pair.0);
            assert(keys.last() != pair.0);
        }
        if keys.last() == pair.0 {
            assert(keys.contains(pair.0));
        } else if keys.contains(pair.0) {
            let j = choose|j: int| 0 <= j < keys.len() && keys[j] == pair.0;
            assert(front[j] == pair.0);
        }
    }
}

/// The distinct keys have all the values between them.
pub proof fn lemma_grouped_len_total<V>(pairs: Seq<(u32, V)>)
    ensures
        grouped_len(distinct_keys(pairs), pairs) == pairs.len(),
    decreases pairs.len(),
{
    if pairs.len() > 0 {
        let front = pairs.drop_last();
        let last = pairs.last();
        let before = distinct_keys(front);
        lemma_grouped_len_total(front);
        lemma_distinct_keys(front);
        assert(front.push(last) == pairs);
        lemma_grouped_len_push(before, front, last);
        if !before.contains(last.0) {
            assert(before.push(last.0).drop_last() == before);
            assert(values_with_key(front, last.0).len() == 0);
        }
    }
}

/// A prefix of the keys has no more values than all of them.
pub proof fn lemma_grouped_len_prefix<V>(keys: Seq<u32>, pairs: Seq<(u32, V)>, n: int)
    requires
        0 <= n <= keys.len(),
    ensures
        grouped_len(keys.take(n), pairs) <= grouped_len(keys, pairs),
    decreases keys.len() - n,
{
    if n < keys.len() {
        lemma_grouped_len_prefix(keys, pairs, n + 1);
        assert(keys.take(n + 1).drop_last() == keys.take(n));
    } else {
        assert(keys.take(n) == keys);
    }
}

/// Lists the keys of the pairs, each once, in order of first mention.
pub fn first_mentions<V>(pairs: &Vec<(u32, V)>) -> (keys: Vec<u32>)
    ensures
        keys@ == distinct_keys(pairs@),
{
    let mut keys: Vec<u32> = Vec::new();
    let mut seen: HashSet<u32> = HashSet::new();
    let mut i: usize = 0;
    while i < pairs.len()
        invariant
            i <= pairs.len(),
            forall|key: u32| seen@.contains(key) <==> keys@.contains(key),
            keys@ == distinct_keys(pairs@.take(i as int)),
        decreases pairs.len() - i,
    {
        let key = pairs[i].0;
        let ghost before = keys@;
        proof {
            assert(pairs@.take(i + 1).drop_last() == pairs@.take(i as int));
        }
        if seen.insert(key) {
            keys.push(key);
            proof {
                assert forall|other: u32| seen@.contains(other) <==> keys@.contains(other) by {
                    if before.contains(other) {
                        let j = choose|j: int| 0 <= j < before.len() && before[j] == other;
                        assert(keys@[j] == other);
                    }
                    if other == key {
                        assert(keys@.last() == other);
                    }
                    if keys@.contains(other) && other != key {
                        let j = choose|j: int| 0 <= j < keys@.len() && keys@[j] == other;
                        assert(before[j] == other);
                    }
                }
            }
        }
        i += 1;
    }
    proof {
        assert(pairs@.take(i as int) == pairs@);
    }
    keys
}

} // verus!

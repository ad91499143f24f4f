//! Rank keys in ascending order.
//!
//! A population keeps its agents under integer rank keys. This module says
//! what the ascending sequence of a set of keys is, and reads it off a map.

use crate::fitness::Score;
use std::collections::BTreeMap;
use vstd::prelude::*;
use vstd::std_specs::btree::increasing_seq;
use vstd::std_specs::btree::spec_keys_iter;
use vstd::std_specs::cmp::OrdSpec;
use vstd::std_specs::iter::IteratorSpec;

verus! {

/// Whether each key is below the keys that follow it.
pub open spec fn ascending(keys: Seq<Score>) -> bool {
    forall|i: int, j: int| 0 <= i < j < keys.len() ==> keys[i] < keys[j]
}

/// Whether `keys` lists exactly the members of `domain`, in ascending order.
pub open spec fn is_ranking(keys: Seq<Score>, domain: Set<Score>) -> bool {
    &&& ascending(keys)
    &&& forall|key: Score| keys.contains(key) <==> domain.contains(key)
}

/// The members of `domain` in ascending order.
pub open spec fn ranking_of(domain: Set<Score>) -> Seq<Score> {
    choose|keys: Seq<Score>| is_ranking(keys, domain)
}

/// A set of keys has at most one ranking.
pub proof fn lemma_ranking_unique(first: Seq<Score>, second: Seq<Score>, domain: Set<Score>)
    requires
        is_ranking(first, domain),
        is_ranking(second, domain),
    ensures
        first == second,
    decreases first.len(),
{
    if first.len() == 0 {
        if second.len() > 0 {
            assert(second.contains(second[0]));
            assert(first.contains(second[0]));
        }
        assert(first =~= second);
    } else {
        let top = first.last();
        assert(first.contains(top));
        assert(second.contains(top));
        assert(second.contains(second.last()));
        assert(first.contains(second.last()));
        assert(second.last() == top);
        let rest = domain.remove(top);
        let first_rest = first.drop_last();
        let second_rest = second.drop_last();
        assert forall|key: Score| first_rest.contains(key) <==> rest.contains(key) by {
            if first_rest.contains(key) {
                let i = choose|i: int| 0 <= i < first_rest.len() && first_rest[i] == key;
                assert(first[i] == key);
                assert(first.contains(key));
            }
            if rest.contains(key) {
                assert(first.contains(key));
                let i = choose|i: int| 0 <= i < first.len() && first[i] == key;
                assert(first_rest[i] == key);
            }
        }
        assert forall|key: Score| second_rest.contains(key) <==> rest.contains(key) by {
            if second_rest.contains(key) {
                let i = choose|i: int| 0 <= i < second_rest.len() && second_rest[i] == key;
                assert(second[i] == key);
                assert(second.contains(key));
            }
            if rest.contains(key) {
                assert(second.contains(key));
                let i = choose|i: int| 0 <= i < second.len() && second[i] == key;
                assert(second_rest[i] == key);
            }
        }
        lemma_ranking_unique(first_rest, second_rest, rest);
        assert(first =~= first_rest.push(top));
        assert(second =~= second_rest.push(top));
    }
}

/// A ranking of `domain` is the ranking of `domain`.
pub proof fn lemma_ranking_of(keys: Seq<Score>, domain: Set<Score>)
    requires
        is_ranking(keys, domain),
    ensures
        ranking_of(domain) == keys,
{
    lemma_ranking_unique(ranking_of(domain), keys, domain);
}

/// Every finite set of keys has a ranking.
pub proof fn lemma_ranking_exists(domain: Set<Score>)
    requires
        domain.finite(),
    ensures
        is_ranking(ranking_of(domain), domain),
    decreases domain.len(),
{
    if domain.len() == 0 {
        let none = Seq::<Score>::empty();
        assert forall|key: Score| none.contains(key) <==> domain.contains(key) by {
            if domain.contains(key) {
                assert(domain.remove(key).len() + 1 == domain.len());
            }
        }
        assert(is_ranking(none, domain));
    } else {
        let pivot = domain.choose();
        let lower_keys = domain.filter(|key: Score| key < pivot);
        let upper_keys = domain.filter(|key: Score| key > pivot);
        let rest = domain.remove(pivot);
        assert(lower_keys.subset_of(rest));
        assert(upper_keys.subset_of(rest));
        vstd::set_lib::lemma_len_subset(lower_keys, rest);
        vstd::set_lib::lemma_len_subset(upper_keys, rest);
        lemma_ranking_exists(lower_keys);
        lemma_ranking_exists(upper_keys);
        let lower = ranking_of(lower_keys);
        let upper = ranking_of(upper_keys);
        let whole = lower.push(pivot) + upper;
        assert forall|i: int, j: int| 0 <= i < j < whole.len() implies whole[i] < whole[j] by {
            if i < lower.len() {
                assert(lower.contains(whole[i]));
                assert(lower_keys.contains(whole[i]));
            }
            if j > lower.len() {
                assert(upper[j - lower.len() - 1] == whole[j]);
                assert(upper.contains(whole[j]));
                assert(upper_keys.contains(whole[j]));
            }
            if i > lower.len() {
                assert(upper[i - lower.len() - 1] == whole[i]);
            }
        }
        assert forall|key: Score| whole.contains(key) <==> domain.contains(key) by {
            if whole.contains(key) {
                let i = choose|i: int| 0 <= i < whole.len() && whole[i] == key;
                if i < lower.len() {
                    assert(lower.contains(key));
                    assert(lower_keys.contains(key));
                } else if i > lower.len() {
                    assert(upper[i - lower.len() - 1] == key);
                    assert(upper.contains(key));
                    assert(upper_keys.contains(key));
                }
            }
            if domain.contains(key) {
                if key < pivot {
                    assert(lower_keys.contains(key));
                    assert(lower.contains(key));
                    let i = choose|i: int| 0 <= i < lower.len() && lower[i] == key;
                    assert(whole[i] == key);
                } else if key > pivot {
                    assert(upper_keys.contains(key));
                    assert(upper.contains(key));
                    let i = choose|i: int| 0 <= i < upper.len() && upper[i] == key;
                    assert(whole[lower.len() + 1 + i] == key);
                } else {
                    assert(whole[lower.len() as int] == key);
                }
            }
        }
        assert(is_ranking(whole, domain));
    }
}

/// A ranking has as many keys as its set has members, each once.
pub proof fn lemma_ranking_length(keys: Seq<Score>, domain: Set<Score>)
    requires
        is_ranking(keys, domain),
    ensures
        domain.finite(),
        keys.len() == domain.len(),
        keys.no_duplicates(),
{
    assert(keys.no_duplicates()) by {
        assert forall|i: int, j: int| 0 <= i < keys.len() && 0 <= j < keys.len() && i != j implies keys[i]
            != keys[j] by {
            if i < j {
                assert(keys[i] < keys[j]);
            } else {
                assert(keys[j] < keys[i]);
            }
        }
    }
    assert(keys.to_set() =~= domain);
    keys.unique_seq_to_set();
}

/// What std's order on references to keys says of the keys themselves.
proof fn lemma_increasing_is_ascending(keys: Seq<&Score>)
    requires
        increasing_seq(keys),
    ensures
        forall|i: int, j: int| 0 <= i < j < keys.len() ==> *keys[i] < *keys[j],
{
    assert forall|i: int, j: int| 0 <= i < j < keys.len() implies *keys[i] < *keys[j] by {
        let lower: &Score = keys[i];
        let upper: &Score = keys[j];
        assert(OrdSpec::cmp_spec(&lower, &upper) is Less);
    }
}

/// The keys of `map`, in ascending order.
pub fn ranked_keys<V>(map: &BTreeMap<Score, V>) -> (keys: Vec<Score>)
    ensures
        is_ranking(keys@, map@.dom()),
        keys@ == ranking_of(map@.dom()),
        keys@.len() == map@.dom().len(),
{
    let mut keys: Vec<Score> = Vec::new();
    let ghost listed = spec_keys_iter(map).remaining();
    for key in walk: map.keys()
        invariant
            walk.seq() == listed,
            keys@.len() == walk.index(),
            forall|i: int| 0 <= i < keys@.len() ==> keys@[i] == *listed[i],
    {
        keys.push(*key);
    }
    proof {
        assert(keys@ =~= listed.unref());
        lemma_increasing_is_ascending(listed);
        assert(keys@.to_set() == map@.dom());
        assert forall|key: Score| keys@.contains(key) <==> map@.dom().contains(key) by {
            assert(keys@.to_set().contains(key) <==> keys@.contains(key));
        }
        lemma_ranking_of(keys@, map@.dom());
    }
    keys
}

} // verus!

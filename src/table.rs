//! The map view of a sequence of records keyed by instance id.

use vstd::prelude::*;
use crate::model::{DescriptionView, InstanceDescription};

verus! {

/// The key of a stored record.
pub open spec fn key_of(d: DescriptionView) -> Seq<char> {
    d.instance_id->Some_0
}

pub open spec fn views(s: Seq<InstanceDescription>) -> Seq<DescriptionView> {
    s.map_values(|d: InstanceDescription| d@)
}

pub open spec fn keys_unique(s: Seq<DescriptionView>) -> bool {
    forall|i: int, j: int|
        0 <= i < s.len() && 0 <= j < s.len() && i != j ==> key_of(#[trigger] s[i]) != key_of(
            #[trigger] s[j],
        )
}

pub open spec fn has_key(s: Seq<DescriptionView>, k: Seq<char>) -> bool {
    exists|i: int| 0 <= i < s.len() && key_of(#[trigger] s[i]) == k
}

pub open spec fn index_of_key(s: Seq<DescriptionView>, k: Seq<char>) -> int {
    choose|i: int| 0 <= i < s.len() && key_of(#[trigger] s[i]) == k
}

/// The records of `s` by key.
pub open spec fn table(s: Seq<DescriptionView>) -> Map<Seq<char>, DescriptionView> {
    Map::new(|k: Seq<char>| has_key(s, k), |k: Seq<char>| s[index_of_key(s, k)])
}

pub proof fn lemma_table_at(s: Seq<DescriptionView>, i: int)
    requires
        keys_unique(s),
        0 <= i < s.len(),
    ensures
        table(s).contains_key(key_of(s[i])),
        table(s)[key_of(s[i])] == s[i],
{
    assert(has_key(s, key_of(s[i])));
    let j = index_of_key(s, key_of(s[i]));
    assert(key_of(s[j]) == key_of(s[i]));
}

pub proof fn lemma_table_update(s: Seq<DescriptionView>, i: int, d: DescriptionView)
    requires
        keys_unique(s),
        0 <= i < s.len(),
        key_of(d) == key_of(s[i]),
    ensures
        keys_unique(s.update(i, d)),
        table(s.update(i, d)) =~= table(s).insert(key_of(s[i]), d),
{
    let t = s.update(i, d);
    assert(keys_unique(t)) by {
        assert forall|a: int, b: int|
            0 <= a < t.len() && 0 <= b < t.len() && a != b implies key_of(#[trigger] t[a])
            != key_of(#[trigger] t[b]) by {
            assert(key_of(t[a]) == key_of(s[a]));
            assert(key_of(t[b]) == key_of(s[b]));
        }
    }
    assert forall|k: Seq<char>| has_key(t, k) == (has_key(s, k) || k == key_of(s[i])) by {
        if has_key(s, k) {
            let j = choose|j: int| 0 <= j < s.len() && key_of(#[trigger] s[j]) == k;
            assert(key_of(t[j]) == key_of(s[j]));
        }
        if has_key(t, k) {
            let j = choose|j: int| 0 <= j < t.len() && key_of(#[trigger] t[j]) == k;
            assert(key_of(t[j]) == key_of(s[j]));
        }
        if k == key_of(s[i]) {
            assert(key_of(t[i]) == k);
        }
    }
    assert forall|k: Seq<char>| #[trigger] table(t).contains_key(k) implies table(t)[k] == table(
        s,
    ).insert(key_of(s[i]), d)[k] by {
        let j = index_of_key(t, k);
        assert(key_of(t[j]) == k);
        if j == i {
        } else {
            assert(key_of(s[j]) == k);
            assert(has_key(s, k));
            let j2 = index_of_key(s, k);
            assert(key_of(s[j2]) == k);
            assert(j2 == j);
        }
    }
}

pub proof fn lemma_table_push(s: Seq<DescriptionView>, d: DescriptionView)
    requires
        keys_unique(s),
        !table(s).contains_key(key_of(d)),
    ensures
        keys_unique(s.push(d)),
        table(s.push(d)) =~= table(s).insert(key_of(d), d),
{
    let t = s.push(d);
    assert(keys_unique(t)) by {
        assert forall|a: int, b: int|
            0 <= a < t.len() && 0 <= b < t.len() && a != b implies key_of(#[trigger] t[a])
            != key_of(#[trigger] t[b]) by {
            if a < s.len() && b < s.len() {
                assert(t[a] == s[a] && t[b] == s[b]);
            } else if a < s.len() {
                assert(t[a] == s[a]);
                assert(has_key(s, key_of(s[a])));
            } else if b < s.len() {
                assert(t[b] == s[b]);
                assert(has_key(s, key_of(s[b])));
            }
        }
    }
    assert forall|k: Seq<char>| has_key(t, k) == (has_key(s, k) || k == key_of(d)) by {
        if has_key(s, k) {
            let j = choose|j: int| 0 <= j < s.len() && key_of(#[trigger] s[j]) == k;
            assert(t[j] == s[j]);
        }
        if has_key(t, k) {
            let j = choose|j: int| 0 <= j < t.len() && key_of(#[trigger] t[j]) == k;
            if j < s.len() {
                assert(t[j] == s[j]);
            }
        }
        if k == key_of(d) {
            assert(t[s.len() as int] == d);
        }
    }
    assert forall|k: Seq<char>| #[trigger] table(t).contains_key(k) implies table(t)[k] == table(
        s,
    ).insert(key_of(d), d)[k] by {
        let j = index_of_key(t, k);
        assert(key_of(t[j]) == k);
        if j == s.len() {
        } else {
            assert(t[j] == s[j]);
            assert(has_key(s, k));
            let j2 = index_of_key(s, k);
            assert(key_of(s[j2]) == k);
            assert(j2 == j);
        }
    }
}

} // verus!

//! The set reconciler: given two key-to-record indexes, derive the keys only
//! in the first, the keys only in the second, and the keys in both.

use vstd::prelude::*;

use crate::index::{map_of_entries, EntryView, RecordIndex};

verus! {

/// The keys of the entries whose key is absent from `other`, in entry order.
pub open spec fn diff_keys(es: Seq<EntryView>, other: Set<Seq<char>>) -> Seq<Seq<char>>
    decreases es.len(),
{
    if es.len() == 0 {
        Seq::empty()
    } else {
        let init = diff_keys(es.drop_last(), other);
        if !other.contains(es.last().key) {
            init.push(es.last().key)
        } else {
            init
        }
    }
}

/// The keys of the entries whose key is also in `other`, in entry order.
pub open spec fn inter_keys(es: Seq<EntryView>, other: Set<Seq<char>>) -> Seq<Seq<char>>
    decreases es.len(),
{
    if es.len() == 0 {
        Seq::empty()
    } else {
        let init = inter_keys(es.drop_last(), other);
        if other.contains(es.last().key) {
            init.push(es.last().key)
        } else {
            init
        }
    }
}

/// As a set, the one-sided keys are exactly the set difference.
pub proof fn lemma_diff_keys_set(es: Seq<EntryView>, other: Set<Seq<char>>)
    ensures
        diff_keys(es, other).to_set() == map_of_entries(es).dom().difference(other),
    decreases es.len(),
{
    if es.len() == 0 {
        assert(diff_keys(es, other).to_set() =~= map_of_entries(es).dom().difference(other)) by {
            assert(forall|k: Seq<char>| !(#[trigger] Seq::<Seq<char>>::empty().contains(k)));
        }
    } else {
        lemma_diff_keys_set(es.drop_last(), other);
        let init = diff_keys(es.drop_last(), other);
        if !other.contains(es.last().key) {
            assert(init.push(es.last().key) =~= init + seq![es.last().key]);
            Seq::<Seq<char>>::lemma_to_set_insert_commutes(init, es.last().key);
            assert(diff_keys(es, other).to_set() =~= map_of_entries(es).dom().difference(other));
        } else {
            assert(diff_keys(es, other).to_set() =~= map_of_entries(es).dom().difference(other));
        }
    }
}

/// As a set, the shared keys are exactly the set intersection.
pub proof fn lemma_inter_keys_set(es: Seq<EntryView>, other: Set<Seq<char>>)
    ensures
        inter_keys(es, other).to_set() == map_of_entries(es).dom().intersect(other),
    decreases es.len(),
{
    if es.len() == 0 {
        assert(inter_keys(es, other).to_set() =~= map_of_entries(es).dom().intersect(other)) by {
            assert(forall|k: Seq<char>| !(#[trigger] Seq::<Seq<char>>::empty().contains(k)));
        }
    } else {
        lemma_inter_keys_set(es.drop_last(), other);
        let init = inter_keys(es.drop_last(), other);
        if other.contains(es.last().key) {
            assert(init.push(es.last().key) =~= init + seq![es.last().key]);
            Seq::<Seq<char>>::lemma_to_set_insert_commutes(init, es.last().key);
            assert(inter_keys(es, other).to_set() =~= map_of_entries(es).dom().intersect(other));
        } else {
            assert(inter_keys(es, other).to_set() =~= map_of_entries(es).dom().intersect(other));
        }
    }
}

/// The keys present in `a` and absent from `b`, in `a`'s entry order.
pub fn difference_keys(a: &RecordIndex, b: &RecordIndex) -> (r: Vec<String>)
    ensures
        r.deep_view() == diff_keys(a@, b.key_set()),
        r.deep_view().to_set() == a.key_set().difference(b.key_set()),
{
    let ghost es = a@;
    let mut r: Vec<String> = Vec::new();
    let mut i: usize = 0;
    proof {
        assert(r.deep_view() =~= Seq::<Seq<char>>::empty());
        assert(es.take(0) =~= Seq::<EntryView>::empty());
    }
    let n = a.entries.len();
    while i < n
        invariant
            0 <= i <= n,
            n == es.len(),
            es == a@,
            a.entries@.len() == es.len(),
            r.deep_view() == diff_keys(es.take(i as int), b.key_set()),
        decreases n - i,
    {
        proof {
            assert(a.entries@[i as int]@ == es[i as int]);
            assert(es.take(i + 1).drop_last() =~= es.take(i as int));
            assert(es.take(i + 1).last() == es[i as int]);
        }
        let ghost r_old = r.deep_view();
        if !b.contains_key(&a.entries[i].key) {
            let k = a.entries[i].key.clone();
            r.push(k);
            proof {
                assert(r.deep_view() =~= r_old.push(es[i as int].key));
            }
        }
        i = i + 1;
    }
    proof {
        assert(es.take(n as int) =~= es);
        lemma_diff_keys_set(es, b.key_set());
    }
    r
}

/// The keys present in both `a` and `b`, in `a`'s entry order.
pub fn intersection_keys(a: &RecordIndex, b: &RecordIndex) -> (r: Vec<String>)
    ensures
        r.deep_view() == inter_keys(a@, b.key_set()),
        r.deep_view().to_set() == a.key_set().intersect(b.key_set()),
{
    let ghost es = a@;
    let mut r: Vec<String> = Vec::new();
    let mut i: usize = 0;
    proof {
        assert(r.deep_view() =~= Seq::<Seq<char>>::empty());
        assert(es.take(0) =~= Seq::<EntryView>::empty());
    }
    let n = a.entries.len();
    while i < n
        invariant
            0 <= i <= n,
            n == es.len(),
            es == a@,
            a.entries@.len() == es.len(),
            r.deep_view() == inter_keys(es.take(i as int), b.key_set()),
        decreases n - i,
    {
        proof {
            assert(a.entries@[i as int]@ == es[i as int]);
            assert(es.take(i + 1).drop_last() =~= es.take(i as int));
            assert(es.take(i + 1).last() == es[i as int]);
        }
        let ghost r_old = r.deep_view();
        if b.contains_key(&a.entries[i].key) {
            let k = a.entries[i].key.clone();
            r.push(k);
            proof {
                assert(r.deep_view() =~= r_old.push(es[i as int].key));
            }
        }
        i = i + 1;
    }
    proof {
        assert(es.take(n as int) =~= es);
        lemma_inter_keys_set(es, b.key_set());
    }
    r
}

/// Partition completeness: the three reconciled key sets are pairwise
/// disjoint, and their union is exactly the union of the two inputs' keys.
pub proof fn lemma_partition_completeness(s1: Set<Seq<char>>, s2: Set<Seq<char>>)
    ensures
        s1.difference(s2).intersect(s2.difference(s1)) == Set::<Seq<char>>::empty(),
        s1.difference(s2).intersect(s1.intersect(s2)) == Set::<Seq<char>>::empty(),
        s2.difference(s1).intersect(s1.intersect(s2)) == Set::<Seq<char>>::empty(),
        s1.difference(s2).union(s2.difference(s1)).union(s1.intersect(s2)) == s1.union(s2),
{
    assert(s1.difference(s2).intersect(s2.difference(s1)) =~= Set::<Seq<char>>::empty());
    assert(s1.difference(s2).intersect(s1.intersect(s2)) =~= Set::<Seq<char>>::empty());
    assert(s2.difference(s1).intersect(s1.intersect(s2)) =~= Set::<Seq<char>>::empty());
    assert(s1.difference(s2).union(s2.difference(s1)).union(s1.intersect(s2)) =~= s1.union(s2));
}

} // verus!

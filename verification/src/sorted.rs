//! Ordered collections of the standard library, read in their order.

use vstd::prelude::*;
use std::collections::BTreeMap;
use std::collections::BTreeSet;
use vstd::laws_cmp::obeys_cmp;
use vstd::std_specs::btree::axiom_increasing_seq_meaning;
use vstd::std_specs::btree::axiom_spec_btree_keys_iter;
use vstd::std_specs::btree::axiom_spec_keys_iter;
use vstd::std_specs::btree::increasing_seq;
use vstd::std_specs::cmp::OrdSpec;
use vstd::std_specs::iter::IteratorSpec;
use std::cmp::Ordering;

verus! {

/// In an increasing sequence an earlier item is less than a later one.
pub proof fn lemma_increasing_seq_is_ordered<K: Ord>(s: Seq<K>, i: int, j: int)
    requires
        obeys_cmp::<K>(),
        increasing_seq(s),
        0 <= i < j < s.len(),
    ensures
        s[i].cmp_spec(&s[j]) == Ordering::Less,
{
    axiom_increasing_seq_meaning(s);
}

/// No number occurs twice in `s`, and each is less than those after it.
pub open spec fn strictly_ascending(s: Seq<u32>) -> bool {
    forall|i: int, j: int| 0 <= i < j < s.len() ==> s[i] < s[j]
}

/// The least key of `map`, if it has any.
pub(crate) fn least_key<V>(map: &BTreeMap<u32, V>) -> (r: Option<u32>)
    ensures
        match r {
            Some(k) => map@.contains_key(k) && forall|j: u32| map@.contains_key(j) ==> k <= j,
            None => forall|j: u32| !map@.contains_key(j),
        },
{
    let keys = map.keys();
    let ghost all = keys.remaining();
    proof {
        axiom_spec_keys_iter(map);
        assert forall|i: int, j: int| 0 <= i < j < all.len() implies *all[i] < *all[j] by {
            lemma_increasing_seq_is_ordered::<&u32>(all, i, j);
        }
    }
    for k in it: keys
        invariant
            it.index() == 0,
            it.seq() == all,
            all.unref().to_set() == map@.dom(),
            forall|i: int, j: int| 0 <= i < j < all.len() ==> *all[i] < *all[j],
    {
        proof {
            assert(all.unref()[0] == *k);
            assert(all.unref().to_set().contains(*k));
            assert forall|j: u32| map@.contains_key(j) implies *k <= j by {
                assert(all.unref().to_set().contains(j));
                let at = choose|at: int| 0 <= at < all.len() && all.unref()[at] == j;
                assert(*all[at] == j);
            }
        }
        return Some(*k);
    }
    proof {
        assert forall|j: u32| !map@.contains_key(j) by {
            if map@.contains_key(j) {
                assert(all.unref().to_set().contains(j));
            }
        }
    }
    None
}

/// The members of `set`, least first.
pub(crate) fn ascending(set: &BTreeSet<u32>) -> (r: Vec<u32>)
    ensures
        strictly_ascending(r@),
        r@.to_set() == set@,
{
    let members = set.iter();
    let ghost all = members.remaining();
    proof {
        axiom_spec_btree_keys_iter(set);
        assert forall|i: int, j: int| 0 <= i < j < all.len() implies *all[i] < *all[j] by {
            lemma_increasing_seq_is_ordered::<&u32>(all, i, j);
        }
    }
    let mut out: Vec<u32> = Vec::new();
    for member in it: members
        invariant
            it.seq() == all,
            out@.len() == it.index(),
            forall|i: int| 0 <= i < out@.len() ==> out@[i] == *all[i],
    {
        out.push(*member);
    }
    proof {
        assert(out@ =~= all.unref());
    }
    out
}

} // verus!

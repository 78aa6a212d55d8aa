//! Sets of process ids, and the order in which they are gone through.

use std::collections::HashMap;
use std::collections::HashSet;
use vstd::prelude::*;

verus! {

broadcast use vstd::std_specs::hash::group_hash_axioms;

/// Whether `listed` holds every member of `members` once, in any order, and nothing
/// else.
pub open spec fn lists(listed: Seq<i32>, members: Set<i32>) -> bool {
    &&& listed.no_duplicates()
    &&& forall|p: i32| listed.contains(p) <==> members.contains(p)
}

/// A list with one more entry holds that entry besides its own.
pub proof fn lemma_push_contains<T>(s: Seq<T>, x: T)
    ensures
        forall|p: T| #[trigger] s.push(x).contains(p) <==> s.contains(p) || p == x,
{
    assert forall|p: T| #[trigger] s.push(x).contains(p) <==> s.contains(p) || p == x by {
        if s.contains(p) {
            let i = choose|i: int| 0 <= i < s.len() && s[i] == p;
            assert(s.push(x)[i] == p);
        }
        assert(s.push(x)[s.len() as int] == x);
    }
}

/// The members of a set, in the order in which the set is walked.
pub fn members_of(set: &HashSet<i32>) -> (listed: Vec<i32>)
    ensures
        lists(listed@, set@),
{
    let mut listed: Vec<i32> = Vec::new();
    for p in it: set.iter()
        invariant
            listed@ == it.seq().unref().take(it.index() as int),
    {
        listed.push(*p);
    }
    proof {
        let walk = vstd::std_specs::iter::IteratorSpec::remaining(
            &vstd::std_specs::hash::spec_hash_keys_iter(set),
        );
        assert(listed@ =~= walk.unref());
        assert forall|p: i32| listed@.contains(p) <==> set@.contains(p) by {
            assert(walk.unref().to_set().contains(p) <==> set@.contains(p));
        }
    }
    listed
}

/// The keys of a map, in the order in which the map is walked.
pub fn keys_of<V>(map: &HashMap<i32, V>) -> (listed: Vec<i32>)
    ensures
        lists(listed@, map@.dom()),
{
    let mut listed: Vec<i32> = Vec::new();
    for p in it: map.keys()
        invariant
            listed@ == it.seq().unref().take(it.index() as int),
    {
        listed.push(*p);
    }
    proof {
        let walk = vstd::std_specs::iter::IteratorSpec::remaining(
            &vstd::std_specs::hash::spec_keys_iter(map),
        );
        assert(listed@ =~= walk.unref());
        assert forall|p: i32| listed@.contains(p) <==> map@.dom().contains(p) by {
            assert(walk.unref().to_set().contains(p) <==> map@.dom().contains(p));
        }
    }
    listed
}

/// A set with the same members.
pub fn copy_of(set: &HashSet<i32>) -> (copy: HashSet<i32>)
    ensures
        copy@ == set@,
{
    let listed = members_of(set);
    let mut copy: HashSet<i32> = HashSet::new();
    let mut i: usize = 0;
    while i < listed.len()
        invariant
            i <= listed@.len(),
            forall|p: i32| copy@.contains(p) <==> listed@.take(i as int).contains(p),
        decreases listed@.len() - i,
    {
        let ghost before = listed@.take(i as int);
        copy.insert(listed[i]);
        i += 1;
        proof {
            assert(listed@.take(i as int) =~= before.push(listed@[i - 1]));
            lemma_push_contains(before, listed@[i - 1]);
        }
    }
    assert(listed@.take(i as int) =~= listed@);
    assert(copy@ =~= set@);
    copy
}

} // verus!

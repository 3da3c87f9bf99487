//! Helpers on maps with integer keys.

use std::collections::HashMap;
use vstd::prelude::*;

verus! {

broadcast use vstd::std_specs::hash::group_hash_axioms;

/// The keys of a map, each once, in any order.
pub(crate) fn key_list<V>(map: &HashMap<u32, V>) -> (keys: Vec<u32>)
    ensures
        keys@.no_duplicates(),
        keys@.to_set() == map@.dom(),
{
    let mut keys: Vec<u32> = Vec::new();
    for key in it: map.keys()
        invariant
            it.seq().no_duplicates(),
            keys@.len() == it.index(),
            it.seq().unref().to_set() == map@.dom(),
            keys@ == it.seq().unref().take(it.index() as int),
            it.index() == it.seq().len() ==> keys@ == it.seq().unref(),
    {
        keys.push(*key);
        proof {
            assert(keys@ =~= it.seq().unref().take(it.index() + 1));
        }
    }
    keys
}

/// What the first `i + 1` elements of a list without duplicates hold.
pub(crate) proof fn lemma_take_succ_contains(s: Seq<u32>, i: int)
    requires
        0 <= i < s.len(),
        s.no_duplicates(),
    ensures
        forall|k: u32| #[trigger]
            s.take(i + 1).contains(k) <==> k == s[i] || s.take(i).contains(k),
        !s.take(i).contains(s[i]),
{
    assert forall|k: u32| #[trigger] s.take(i + 1).contains(k) <==> k == s[i] || s.take(
        i,
    ).contains(k) by {
        if s.take(i).contains(k) {
            let j = s.take(i).index_of(k);
            assert(s.take(i + 1)[j] == k);
        }
        if s.take(i + 1).contains(k) && k != s[i] {
            let j = s.take(i + 1).index_of(k);
            assert(s.take(i)[j] == k);
        }
        assert(s.take(i + 1)[i] == s[i]);
    }
}

/// What a list holds after a new element was pushed.
pub(crate) proof fn lemma_push_contains(s: Seq<u32>, x: u32)
    requires
        s.no_duplicates(),
        !s.contains(x),
    ensures
        s.push(x).no_duplicates(),
        forall|k: u32| #[trigger] s.push(x).contains(k) <==> k == x || s.contains(k),
{
    assert forall|k: u32| #[trigger] s.push(x).contains(k) <==> k == x || s.contains(k) by {
        if s.contains(k) {
            let j = s.index_of(k);
            assert(s.push(x)[j] == k);
        }
        assert(s.push(x)[s.len() as int] == x);
    }
}

/// As many ids are below `n` as `n` says.
pub(crate) proof fn lemma_ids_below(n: nat)
    requires
        n <= 0x1_0000_0000,
    ensures
        Set::new(|id: u32| id < n).finite(),
        Set::new(|id: u32| id < n).len() == n,
    decreases n,
{
    let below = Set::new(|id: u32| id < n);
    if n == 0 {
        assert(below =~= Set::empty());
    } else {
        lemma_ids_below((n - 1) as nat);
        let fewer = Set::new(|id: u32| id < n - 1);
        assert(below =~= fewer.insert((n - 1) as u32));
    }
}

} // verus!

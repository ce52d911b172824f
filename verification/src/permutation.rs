//! A shared fact about permutations: exchanging two positions of a
//! sequence keeps its multiset of elements.

use vstd::prelude::*;

verus! {

/// Writing `s[j]` at `i` and `s[i]` at `j` keeps the elements.
pub proof fn lemma_swap_multiset<A>(s: Seq<A>, i: int, j: int)
    requires
        0 <= i < s.len(),
        0 <= j < s.len(),
    ensures
        s.update(i, s[j]).update(j, s[i]).to_multiset() == s.to_multiset(),
{
    broadcast use vstd::seq_lib::to_multiset_update;
    broadcast use vstd::seq_lib::to_multiset_contains;
    broadcast use vstd::multiset::group_multiset_axioms;

    if i == j {
        assert(s.update(i, s[j]).update(j, s[i]) =~= s);
    } else {
        let s1 = s.update(i, s[j]);
        let s2 = s1.update(j, s[i]);
        assert(s.contains(s[i])) by {
            assert(0 <= i < s.len() && s[i] == s[i]);
        }
        assert(s1.contains(s1[j])) by {
            assert(0 <= j < s1.len() && s1[j] == s1[j]);
        }
        assert(s1.to_multiset() == s.to_multiset().insert(s[j]).remove(s[i]));
        assert(s2.to_multiset() == s1.to_multiset().insert(s[i]).remove(s[j]));
        assert(s2.to_multiset() =~= s.to_multiset());
    }
}

} // verus!

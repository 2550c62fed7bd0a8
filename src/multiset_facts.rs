use vstd::prelude::*;

verus! {

broadcast use vstd::multiset::group_multiset_axioms, vstd::seq_lib::group_to_multiset_ensures;

/// Writing `v` at position `i` trades one copy of the old element for one copy of `v`.
pub proof fn lemma_update_to_multiset<A>(s: Seq<A>, i: int, v: A)
    requires
        0 <= i < s.len(),
    ensures
        s.update(i, v).to_multiset() =~= s.to_multiset().remove(s[i]).insert(v),
{
    let u = s.update(i, v);
    assert(u.remove(i) =~= s.remove(i));
    assert(u[i] == v);
    let mu = u.to_multiset();
    assert(mu.remove(v) =~= s.to_multiset().remove(s[i]));
    assert(u.contains(v));
    assert(mu.count(v) > 0);
    assert(mu =~= mu.remove(v).insert(v));
}

/// Exchanging two positions keeps the multiset of elements.
pub proof fn lemma_swap_to_multiset<A>(s: Seq<A>, i: int, j: int)
    requires
        0 <= i < s.len(),
        0 <= j < s.len(),
    ensures
        s.update(i, s[j]).update(j, s[i]).to_multiset() =~= s.to_multiset(),
{
    let t = s.update(i, s[j]);
    lemma_update_to_multiset(s, i, s[j]);
    lemma_update_to_multiset(t, j, s[i]);
    assert(s.contains(s[i]));
    assert(s.contains(s[j]));
}

/// Dropping the last element removes one copy of it.
pub proof fn lemma_drop_last_to_multiset<A>(s: Seq<A>)
    requires
        s.len() > 0,
    ensures
        s.drop_last().to_multiset() =~= s.to_multiset().remove(s.last()),
{
    assert(s.drop_last() =~= s.remove(s.len() - 1));
}

} // verus!

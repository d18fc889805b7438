//! Counting lemmas relating sequences without duplicates to the sets they hold.
use vstd::prelude::*;

verus! {

/// Filtering a sequence without duplicates keeps as many elements as filtering
/// the set of its elements.
pub proof fn lemma_filter_card<A>(s: Seq<A>, p: spec_fn(A) -> bool)
    requires
        s.no_duplicates(),
    ensures
        s.filter(p).len() == s.to_set().filter(p).len(),
        s.to_set().finite(),
        s.to_set().filter(p).finite(),
    decreases s.len(),
{
    broadcast use vstd::seq_lib::seq_to_set_is_finite;
    broadcast use vstd::set::group_set_axioms;
    broadcast use vstd::set_lib::group_set_properties;

    if s.len() == 0 {
        reveal(Seq::filter);
        assert(s.filter(p) =~= Seq::<A>::empty());
        assert(s.to_set().filter(p) =~= Set::<A>::empty());
    } else {
        let t = s.drop_last();
        let x = s.last();
        assert(t.push(x) =~= s);
        assert(t.no_duplicates());
        lemma_filter_card(t, p);
        t.lemma_filter_push(x, p);
        assert(s.to_set() =~= t.to_set().insert(x));
        assert(!t.to_set().contains(x)) by {
            if t.contains(x) {
                let k = choose|k: int| 0 <= k < t.len() && t[k] == x;
                assert(s[k] == s[s.len() - 1]);
            }
        }
        if p(x) {
            assert(s.to_set().filter(p) =~= t.to_set().filter(p).insert(x));
        } else {
            assert(s.to_set().filter(p) =~= t.to_set().filter(p));
        }
    }
}

/// A sequence without duplicates has as many elements as the set it holds.
pub proof fn lemma_seq_set_card<A>(s: Seq<A>)
    requires
        s.no_duplicates(),
    ensures
        s.len() == s.to_set().len(),
        s.to_set().finite(),
{
    broadcast use vstd::seq_lib::seq_to_set_is_finite;

    s.unique_seq_to_set();
}

} // verus!

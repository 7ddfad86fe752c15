use vstd::prelude::*;

verus! {

/// The position of the first element of highest rank.
pub open spec fn first_top<T>(s: Seq<T>, rank: spec_fn(T) -> int) -> int
    decreases s.len(),
{
    if s.len() <= 1 {
        0
    } else {
        let k = first_top(s.drop_last(), rank);
        if rank(s.last()) > rank(s[k]) { s.len() - 1 } else { k }
    }
}

/// `s` sorted by rank, highest first, keeping the given order among equal ranks
/// (a stable sort): repeatedly the first element of highest rank is taken out.
pub open spec fn ranked<T>(s: Seq<T>, rank: spec_fn(T) -> int) -> Seq<T>
    decreases s.len(),
{
    if s.len() == 0 {
        seq![]
    } else {
        let k = first_top(s, rank);
        proof {
            lemma_first_top(s, rank);
        }
        seq![s[k]] + ranked(s.remove(k), rank)
    }
}

/// `first_top` lies in range, has the highest rank, and no earlier element has it.
pub proof fn lemma_first_top<T>(s: Seq<T>, rank: spec_fn(T) -> int)
    requires
        s.len() >= 1,
    ensures
        0 <= first_top(s, rank) < s.len(),
        forall|i: int| 0 <= i < s.len() ==> rank(#[trigger] s[i]) <= rank(s[first_top(s, rank)]),
        forall|i: int| 0 <= i < first_top(s, rank) ==> rank(#[trigger] s[i]) < rank(s[first_top(s, rank)]),
    decreases s.len(),
{
    if s.len() > 1 {
        let t = s.drop_last();
        lemma_first_top(t, rank);
        let k = first_top(t, rank);
        assert forall|i: int| 0 <= i < t.len() implies #[trigger] t[i] == s[i] by {}
        assert(t[k] == s[k]);
        assert forall|i: int| 0 <= i < s.len() implies rank(#[trigger] s[i]) <= rank(s[first_top(s, rank)]) by {
            if i < t.len() {
                assert(t[i] == s[i]);
            }
        }
        assert forall|i: int| 0 <= i < first_top(s, rank) implies rank(#[trigger] s[i]) < rank(s[first_top(s, rank)]) by {
            assert(t[i] == s[i]);
        }
    }
}

/// Ranking keeps every element exactly once and puts higher ranks first.
pub proof fn lemma_ranked<T>(s: Seq<T>, rank: spec_fn(T) -> int)
    ensures
        ranked(s, rank).len() == s.len(),
        ranked(s, rank).to_multiset() == s.to_multiset(),
        forall|i: int, j: int|
            0 <= i < j < s.len() ==> rank(#[trigger] ranked(s, rank)[i]) >= rank(#[trigger] ranked(s, rank)[j]),
    decreases s.len(),
{
    broadcast use vstd::seq_lib::group_to_multiset_ensures, vstd::multiset::group_multiset_axioms;
    if s.len() > 0 {
        let k = first_top(s, rank);
        lemma_first_top(s, rank);
        let r = s.remove(k);
        lemma_ranked(r, rank);
        let p = ranked(s, rank);
        let pr = ranked(r, rank);
        let x = s[k];
        assert(p == seq![x] + pr);
        vstd::seq_lib::lemma_multiset_commutative(seq![x], pr);
        assert(seq![x] =~= Seq::<T>::empty().push(x));
        assert(s.contains(x));
        assert(p.to_multiset() =~= s.to_multiset());
        assert forall|j: int| 0 <= j < pr.len() implies rank(#[trigger] pr[j]) <= rank(x) by {
            assert(pr.to_multiset().count(pr[j]) > 0);
            assert(r.contains(pr[j]));
            let m = choose|m: int| 0 <= m < r.len() && r[m] == pr[j];
            if m < k {
                assert(r[m] == s[m]);
            } else {
                assert(r[m] == s[m + 1]);
            }
        }
        assert forall|i: int, j: int| 0 <= i < j < s.len() implies rank(#[trigger] p[i]) >= rank(#[trigger] p[j]) by {
            if i == 0 {
                assert(p[j] == pr[j - 1]);
            } else {
                assert(p[i] == pr[i - 1] && p[j] == pr[j - 1]);
            }
        }
    }
}

} // verus!

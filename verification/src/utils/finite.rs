//! Finite sets of bounded sequences, the measure by which searches over
//! such sequences are known to end.

use vstd::prelude::*;

verus! {

/// The sequences of `len` numbers below `bound`.
pub open spec fn bounded_seqs(len: nat, bound: nat) -> Set<Seq<nat>> {
    Set::new(|s: Seq<nat>| s.len() == len && forall|i: int| 0 <= i < len ==> s[i] < bound)
}

/// The sequences of `len + 1` numbers below `bound` whose last number is below `last_below`.
pub open spec fn bounded_seqs_ending(len: nat, bound: nat, last_below: nat) -> Set<Seq<nat>> {
    Set::new(
        |s: Seq<nat>|
            s.len() == len + 1 && (forall|i: int| 0 <= i < len + 1 ==> s[i] < bound) && s.last()
                < last_below,
    )
}

/// The sequences of at most `len` numbers below `bound`.
pub open spec fn bounded_seqs_up_to(len: nat, bound: nat) -> Set<Seq<nat>> {
    Set::new(|s: Seq<nat>| s.len() <= len && forall|i: int| 0 <= i < s.len() ==> s[i] < bound)
}

/// There are finitely many sequences of a given length over a bounded range.
pub proof fn lemma_bounded_seqs_finite(len: nat, bound: nat)
    ensures
        bounded_seqs(len, bound).finite(),
    decreases len, 0nat,
{
    if len == 0 {
        assert(bounded_seqs(0, bound) =~= set![Seq::<nat>::empty()]) by {
            assert forall|s: Seq<nat>| bounded_seqs(0, bound).contains(s) implies s
                == Seq::<nat>::empty() by {
                assert(s =~= Seq::<nat>::empty());
            }
        }
    } else {
        lemma_bounded_seqs_ending_finite((len - 1) as nat, bound, bound);
        assert(bounded_seqs(len, bound) =~= bounded_seqs_ending((len - 1) as nat, bound, bound));
    }
}

/// There are finitely many sequences of a given length over a bounded
/// range whose last number is below a given one.
pub proof fn lemma_bounded_seqs_ending_finite(len: nat, bound: nat, last_below: nat)
    ensures
        bounded_seqs_ending(len, bound, last_below).finite(),
    decreases len, 1nat, last_below,
{
    if last_below == 0 {
        assert(bounded_seqs_ending(len, bound, 0) =~= Set::<Seq<nat>>::empty());
    } else {
        let v = (last_below - 1) as nat;
        lemma_bounded_seqs_ending_finite(len, bound, v);
        let smaller = bounded_seqs_ending(len, bound, v);
        let all = bounded_seqs_ending(len, bound, last_below);
        if v < bound {
            lemma_bounded_seqs_finite(len, bound);
            let fronts = bounded_seqs(len, bound);
            let extend = |s: Seq<nat>| s.push(v);
            fronts.lemma_map_finite(extend);
            let with_v = fronts.map(extend);
            assert(all =~= smaller.union(with_v)) by {
                assert forall|s: Seq<nat>| all.contains(s) implies smaller.union(with_v).contains(
                    s,
                ) by {
                    if s.last() == v {
                        let front = s.drop_last();
                        assert(fronts.contains(front)) by {
                            assert forall|i: int| 0 <= i < len implies front[i] < bound by {
                                assert(front[i] == s[i]);
                            }
                        }
                        assert(extend(front) =~= s);
                        assert(with_v.contains(s));
                    } else {
                        assert(smaller.contains(s));
                    }
                }
                assert forall|s: Seq<nat>| smaller.union(with_v).contains(s) implies all.contains(
                    s,
                ) by {
                    if with_v.contains(s) {
                        let front = choose|front: Seq<nat>|
                            fronts.contains(front) && extend(front) == s;
                        assert forall|i: int| 0 <= i < len + 1 implies s[i] < bound by {
                            if i < len {
                                assert(s[i] == front[i]);
                            }
                        }
                    }
                }
            }
        } else {
            assert(all =~= smaller) by {
                assert forall|s: Seq<nat>| all.contains(s) implies smaller.contains(s) by {
                    assert(s[len as int] < bound);
                }
            }
        }
    }
}

/// There are finitely many sequences up to a given length over a bounded range.
pub proof fn lemma_bounded_seqs_up_to_finite(len: nat, bound: nat)
    ensures
        bounded_seqs_up_to(len, bound).finite(),
    decreases len,
{
    lemma_bounded_seqs_finite(len, bound);
    if len == 0 {
        assert(bounded_seqs_up_to(0, bound) =~= bounded_seqs(0, bound));
    } else {
        lemma_bounded_seqs_up_to_finite((len - 1) as nat, bound);
        assert(bounded_seqs_up_to(len, bound) =~= bounded_seqs_up_to((len - 1) as nat, bound).union(
            bounded_seqs(len, bound),
        ));
    }
}

/// Adding a member of a finite set to a subset leaves fewer members outside the subset.
pub proof fn lemma_fewer_left(all: Set<Seq<nat>>, seen: Set<Seq<nat>>, one: Seq<nat>)
    requires
        all.finite(),
        all.contains(one),
        !seen.contains(one),
    ensures
        all.difference(seen.insert(one)).len() < all.difference(seen).len(),
        all.difference(seen).finite(),
{
    let before = all.difference(seen);
    vstd::set_lib::lemma_len_difference(all, seen);
    assert(before.contains(one));
    assert(all.difference(seen.insert(one)) =~= before.remove(one));
}

} // verus!

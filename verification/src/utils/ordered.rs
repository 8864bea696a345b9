//! Canonical orderings: the ascending sequence of a set of ids, and a stable
//! sort of `(id, quantity)` pairs by id.

use vstd::prelude::*;
use std::collections::HashMap;
use vstd::std_specs::iter::IteratorSpec;

verus! {

broadcast use vstd::std_specs::hash::group_hash_axioms;

/// Each id is smaller than every id after it.
pub open spec fn strictly_ascending(s: Seq<u32>) -> bool {
    forall|i: int, j: int| 0 <= i < j < s.len() ==> s[i] < s[j]
}

/// The members of `set` that are below `bound`, smallest first.
pub open spec fn members_below(set: Set<u32>, bound: nat) -> Seq<u32>
    decreases bound,
{
    if bound == 0 {
        Seq::empty()
    } else {
        let rest = members_below(set, (bound - 1) as nat);
        if bound - 1 <= u32::MAX && set.contains((bound - 1) as u32) {
            rest.push((bound - 1) as u32)
        } else {
            rest
        }
    }
}

/// The members of `set`, smallest first.
pub open spec fn ascending(set: Set<u32>) -> Seq<u32> {
    members_below(set, 0x1_0000_0000)
}

/// `members_below` lists exactly the members below the bound, in ascending order.
pub proof fn lemma_members_below(set: Set<u32>, bound: nat)
    ensures
        strictly_ascending(members_below(set, bound)),
        forall|k: u32|
            #![trigger members_below(set, bound).contains(k)]
            #![trigger set.contains(k)]
            members_below(set, bound).contains(k) <==> (set.contains(k) && k < bound),
    decreases bound,
{
    if bound > 0 {
        let rest = members_below(set, (bound - 1) as nat);
        lemma_members_below(set, (bound - 1) as nat);
        let all = members_below(set, bound);
        if bound - 1 <= u32::MAX && set.contains((bound - 1) as u32) {
            let top = (bound - 1) as u32;
            assert forall|i: int, j: int| 0 <= i < j < all.len() implies all[i] < all[j] by {
                assert(all[i] == rest[i]);
                assert(rest.contains(rest[i]));
                if j < rest.len() {
                    assert(all[j] == rest[j]);
                } else {
                    assert(all[j] == top);
                }
            }
            assert forall|k: u32| all.contains(k) <==> (set.contains(k) && k < bound) by {
                if all.contains(k) {
                    let i = choose|i: int| 0 <= i < all.len() && all[i] == k;
                    if i < rest.len() {
                        assert(rest.contains(k));
                    }
                }
                if set.contains(k) && k < bound {
                    if k == top {
                        assert(all[rest.len() as int] == k);
                    } else {
                        assert(rest.contains(k));
                        let i = choose|i: int| 0 <= i < rest.len() && rest[i] == k;
                        assert(all[i] == k);
                    }
                }
            }
        } else {
            assert forall|k: u32| all.contains(k) <==> (set.contains(k) && k < bound) by {
                if set.contains(k) && k < bound {
                    if k == bound - 1 {
                        assert(k == (bound - 1) as u32);
                    }
                    assert(rest.contains(k));
                }
            }
        }
    }
}

/// Two ascending sequences with the same members are the same sequence.
pub proof fn lemma_ascending_unique(a: Seq<u32>, b: Seq<u32>)
    requires
        strictly_ascending(a),
        strictly_ascending(b),
        forall|k: u32| a.contains(k) <==> b.contains(k),
    ensures
        a == b,
    decreases a.len(),
{
    if a.len() == 0 {
        if b.len() > 0 {
            assert(b.contains(b[0]));
        }
        assert(a =~= b);
    } else {
        assert(a.contains(a.last()));
        let at_b = choose|i: int| 0 <= i < b.len() && b[i] == a.last();
        assert(b.contains(b.last()));
        let at_a = choose|i: int| 0 <= i < a.len() && a[i] == b.last();
        assert(a.last() == b.last());
        let a0 = a.drop_last();
        let b0 = b.drop_last();
        assert forall|k: u32| a0.contains(k) <==> b0.contains(k) by {
            if a0.contains(k) {
                let i = choose|i: int| 0 <= i < a0.len() && a0[i] == k;
                assert(a[i] == k);
                assert(a.contains(k));
                let j = choose|j: int| 0 <= j < b.len() && b[j] == k;
                assert(b0[j] == k);
            }
            if b0.contains(k) {
                let i = choose|i: int| 0 <= i < b0.len() && b0[i] == k;
                assert(b[i] == k);
                assert(b.contains(k));
                let j = choose|j: int| 0 <= j < a.len() && a[j] == k;
                assert(a0[j] == k);
            }
        }
        lemma_ascending_unique(a0, b0);
        assert(a =~= a0.push(a.last()));
        assert(b =~= b0.push(b.last()));
    }
}

/// An ascending sequence with the members of `set` is `ascending(set)`.
pub proof fn lemma_ascending_is(set: Set<u32>, s: Seq<u32>)
    requires
        strictly_ascending(s),
        forall|k: u32| s.contains(k) <==> set.contains(k),
    ensures
        s == ascending(set),
{
    lemma_members_below(set, 0x1_0000_0000);
    lemma_ascending_unique(s, ascending(set));
}

/// `ascending(set)` is ascending and has exactly the members of `set`.
pub proof fn lemma_ascending(set: Set<u32>)
    ensures
        strictly_ascending(ascending(set)),
        ascending(set).no_duplicates(),
        forall|k: u32| ascending(set).contains(k) <==> set.contains(k),
        ascending(set).len() <= 0x1_0000_0000,
{
    lemma_members_below(set, 0x1_0000_0000);
    lemma_ascending_len(ascending(set));
}

/// An ascending sequence of 32-bit ids has at most 2^32 entries.
pub proof fn lemma_ascending_len(s: Seq<u32>)
    requires
        strictly_ascending(s),
    ensures
        s.len() <= 0x1_0000_0000,
        forall|i: int| 0 <= i < s.len() ==> s[i] >= i,
    decreases s.len(),
{
    if s.len() > 0 {
        let front = s.drop_last();
        lemma_ascending_len(front);
        assert forall|i: int| 0 <= i < s.len() implies s[i] >= i by {
            if i < front.len() {
                assert(front[i] == s[i]);
            } else if i > 0 {
                assert(front[i - 1] == s[i - 1]);
                assert(s[i - 1] < s[i]);
            }
        }
        assert(s[s.len() - 1] >= s.len() - 1);
    }
}

/// The number of leading pairs whose id is at most `key`.
pub open spec fn slot(s: Seq<(u32, u32)>, key: u32) -> nat
    decreases s.len(),
{
    if s.len() == 0 || key < s[0].0 {
        0
    } else {
        1 + slot(s.drop_first(), key)
    }
}

/// `pair` placed behind the leading pairs whose id is not larger than its own.
pub open spec fn insert_by_key(s: Seq<(u32, u32)>, pair: (u32, u32)) -> Seq<(u32, u32)> {
    s.insert(slot(s, pair.0) as int, pair)
}

/// The pairs ordered by id, pairs with equal ids in their original order.
pub open spec fn sorted_by_key(items: Seq<(u32, u32)>) -> Seq<(u32, u32)>
    decreases items.len(),
{
    if items.len() == 0 {
        Seq::empty()
    } else {
        insert_by_key(sorted_by_key(items.drop_last()), items.last())
    }
}

/// No id is larger than an id behind it.
pub open spec fn keys_non_decreasing(s: Seq<(u32, u32)>) -> bool {
    forall|i: int, j: int| 0 <= i < j < s.len() ==> s[i].0 <= s[j].0
}

/// Each id is smaller than every id behind it.
pub open spec fn keys_ascending(s: Seq<(u32, u32)>) -> bool {
    forall|i: int, j: int| 0 <= i < j < s.len() ==> s[i].0 < s[j].0
}

/// No two pairs share an id.
pub open spec fn keys_distinct(s: Seq<(u32, u32)>) -> bool {
    forall|i: int, j: int| 0 <= i < j < s.len() ==> s[i].0 != s[j].0
}

/// What `slot` counts: the pairs before it have ids up to `key`, the pair at it a larger one.
pub proof fn lemma_slot(s: Seq<(u32, u32)>, key: u32)
    ensures
        slot(s, key) <= s.len(),
        forall|k: int| 0 <= k < slot(s, key) ==> s[k].0 <= key,
        slot(s, key) < s.len() ==> key < s[slot(s, key) as int].0,
    decreases s.len(),
{
    if s.len() == 0 || key < s[0].0 {
    } else {
        let rest = s.drop_first();
        lemma_slot(rest, key);
        assert forall|k: int| 0 <= k < slot(s, key) implies s[k].0 <= key by {
            if k > 0 {
                assert(rest[k - 1] == s[k]);
            }
        }
        if slot(s, key) < s.len() {
            assert(rest[slot(rest, key) as int] == s[slot(s, key) as int]);
        }
    }
}

/// A position with the properties of `slot` is `slot`.
pub proof fn lemma_slot_is(s: Seq<(u32, u32)>, key: u32, j: int)
    requires
        0 <= j <= s.len(),
        forall|k: int| 0 <= k < j ==> s[k].0 <= key,
        j < s.len() ==> key < s[j].0,
    ensures
        slot(s, key) == j,
{
    lemma_slot(s, key);
    let found = slot(s, key) as int;
    if found < j {
        assert(s[found].0 <= key);
    } else if j < found {
        assert(s[j].0 <= key);
    }
}

/// Inserting by id keeps an ordered sequence ordered and adds exactly the pair.
pub proof fn lemma_insert_by_key(s: Seq<(u32, u32)>, pair: (u32, u32))
    ensures
        insert_by_key(s, pair).len() == s.len() + 1,
        insert_by_key(s, pair).to_multiset() == s.to_multiset().insert(pair),
        forall|x: (u32, u32)| insert_by_key(s, pair).contains(x) <==> (x == pair || s.contains(x)),
        keys_non_decreasing(s) ==> keys_non_decreasing(insert_by_key(s, pair)),
        keys_ascending(s) && (forall|i: int| 0 <= i < s.len() ==> s[i].0 != pair.0)
            ==> keys_ascending(insert_by_key(s, pair)),
{
    lemma_slot(s, pair.0);
    let at = slot(s, pair.0) as int;
    let r = insert_by_key(s, pair);
    vstd::seq_lib::to_multiset_insert(s, at, pair);
    assert forall|x: (u32, u32)| r.contains(x) <==> (x == pair || s.contains(x)) by {
        if r.contains(x) {
            let i = choose|i: int| 0 <= i < r.len() && r[i] == x;
            if i < at {
                assert(s[i] == x);
            } else if i > at {
                assert(s[i - 1] == x);
            }
        }
        if s.contains(x) {
            let i = choose|i: int| 0 <= i < s.len() && s[i] == x;
            if i < at {
                assert(r[i] == x);
            } else {
                assert(r[i + 1] == x);
            }
        }
        assert(r[at] == pair);
    }
    if keys_non_decreasing(s) {
        assert forall|i: int, j: int| 0 <= i < j < r.len() implies r[i].0 <= r[j].0 by {
            if j < at {
            } else if i > at {
                assert(r[i] == s[i - 1] && r[j] == s[j - 1]);
            } else if i == at {
                assert(r[j] == s[j - 1]);
                assert(s[at].0 <= s[j - 1].0 || at == j - 1);
            } else if j == at {
            } else {
                assert(r[j] == s[j - 1]);
            }
        }
    }
    if keys_ascending(s) && (forall|i: int| 0 <= i < s.len() ==> s[i].0 != pair.0) {
        assert forall|i: int, j: int| 0 <= i < j < r.len() implies r[i].0 < r[j].0 by {
            if j < at {
            } else if i > at {
                assert(r[i] == s[i - 1] && r[j] == s[j - 1]);
            } else if i == at {
                assert(r[j] == s[j - 1]);
                assert(s[at].0 <= s[j - 1].0 || at == j - 1);
            } else if j == at {
                assert(s[i].0 != pair.0);
            } else {
                assert(r[j] == s[j - 1]);
            }
        }
    }
}

/// Sorting by id orders the pairs and keeps each of them.
pub proof fn lemma_sorted_by_key(items: Seq<(u32, u32)>)
    ensures
        sorted_by_key(items).len() == items.len(),
        sorted_by_key(items).to_multiset() == items.to_multiset(),
        forall|x: (u32, u32)| sorted_by_key(items).contains(x) <==> items.contains(x),
        keys_non_decreasing(sorted_by_key(items)),
        keys_distinct(items) ==> keys_ascending(sorted_by_key(items)),
    decreases items.len(),
{
    if items.len() == 0 {
        assert(items.to_multiset() =~= sorted_by_key(items).to_multiset()) by {
            assert(items =~= Seq::empty());
        }
    } else {
        let front = items.drop_last();
        let last = items.last();
        let sorted_front = sorted_by_key(front);
        let r = sorted_by_key(items);
        lemma_sorted_by_key(front);
        lemma_insert_by_key(sorted_front, last);
        assert(items =~= front.push(last));
        vstd::seq_lib::to_multiset_build(front, last);
        assert forall|x: (u32, u32)| r.contains(x) <==> items.contains(x) by {
            if items.contains(x) {
                let i = choose|i: int| 0 <= i < items.len() && items[i] == x;
                if i < front.len() {
                    assert(front[i] == x);
                    assert(front.contains(x));
                }
            }
            if front.contains(x) {
                let i = choose|i: int| 0 <= i < front.len() && front[i] == x;
                assert(items[i] == x);
            }
            assert(items[items.len() - 1] == last);
        }
        if keys_distinct(items) {
            assert(keys_distinct(front)) by {
                assert forall|i: int, j: int| 0 <= i < j < front.len() implies front[i].0
                    != front[j].0 by {
                    assert(front[i] == items[i] && front[j] == items[j]);
                }
            }
            assert forall|i: int| 0 <= i < sorted_front.len() implies sorted_front[i].0
                != last.0 by {
                assert(sorted_front.contains(sorted_front[i]));
                assert(front.contains(sorted_front[i]));
                let k = choose|k: int| 0 <= k < front.len() && front[k] == sorted_front[i];
                assert(items[k] == front[k]);
                assert(items[k].0 != items[items.len() - 1].0);
            }
        }
    }
}

/// Orders `(id, quantity)` pairs by id. Pairs with equal ids stay in the
/// order in which they came.
pub fn sort_remaining_items(items: Vec<(u32, u32)>) -> (sorted: Vec<(u32, u32)>)
    ensures
        sorted@ == sorted_by_key(items@),
        sorted@.to_multiset() == items@.to_multiset(),
        keys_non_decreasing(sorted@),
{
    let mut sorted: Vec<(u32, u32)> = Vec::new();
    let mut i: usize = 0;
    while i < items.len()
        invariant
            i <= items.len(),
            sorted@ == sorted_by_key(items@.take(i as int)),
        decreases items.len() - i,
    {
        let pair: (u32, u32) = items[i];
        let mut j: usize = 0;
        while j < sorted.len() && sorted[j].0 <= pair.0
            invariant
                j <= sorted.len(),
                forall|k: int| 0 <= k < j ==> sorted@[k].0 <= pair.0,
            decreases sorted.len() - j,
        {
            j += 1;
        }
        proof {
            lemma_slot_is(sorted@, pair.0, j as int);
            assert(items@.take(i + 1).drop_last() == items@.take(i as int));
            lemma_sorted_by_key(items@.take(i as int));
        }
        sorted.insert(j, pair);
        i += 1;
    }
    proof {
        assert(items@.take(items.len() as int) == items@);
        lemma_sorted_by_key(items@);
    }
    sorted
}

/// Whether `id` occurs in `ids`.
pub fn contains_id(ids: &[u32], id: u32) -> (r: bool)
    ensures
        r == ids@.contains(id),
{
    let mut i: usize = 0;
    while i < ids.len()
        invariant
            i <= ids.len(),
            forall|k: int| 0 <= k < i ==> ids@[k] != id,
        decreases ids.len() - i,
    {
        if ids[i] == id {
            return true;
        }
        i += 1;
    }
    false
}

/// The pairs of `m`, by ascending key.
pub open spec fn entries_of(m: Map<u32, u32>) -> Seq<(u32, u32)> {
    Seq::new(ascending(m.dom()).len(), |i: int| (ascending(m.dom())[i], m[ascending(m.dom())[i]]))
}

/// The sum of the quantities of `pairs`.
pub open spec fn quantity_sum(pairs: Seq<(u32, u32)>) -> nat
    decreases pairs.len(),
{
    if pairs.len() == 0 {
        0
    } else {
        quantity_sum(pairs.drop_last()) + pairs.last().1 as nat
    }
}

/// The quantities of a leading part sum to no more than those of the whole.
pub proof fn lemma_quantity_sum_prefix(pairs: Seq<(u32, u32)>, n: int)
    requires
        0 <= n <= pairs.len(),
    ensures
        quantity_sum(pairs.take(n)) <= quantity_sum(pairs),
    decreases pairs.len(),
{
    if n == pairs.len() {
        assert(pairs.take(n) == pairs);
    } else {
        lemma_quantity_sum_prefix(pairs.drop_last(), n);
        assert(pairs.drop_last().take(n) == pairs.take(n));
    }
}

/// `entries_of` has one pair for each key, in ascending order of the keys.
pub proof fn lemma_entries_of(m: Map<u32, u32>)
    ensures
        keys_ascending(entries_of(m)),
        entries_of(m).len() == ascending(m.dom()).len(),
        entries_of(m).len() <= 0x1_0000_0000,
        forall|i: int|
            0 <= i < entries_of(m).len() ==> m.contains_key(#[trigger] entries_of(m)[i].0)
                && entries_of(m)[i].1 == m[entries_of(m)[i].0],
        forall|k: u32|
            m.contains_key(k) ==> exists|i: int|
                0 <= i < entries_of(m).len() && #[trigger] entries_of(m)[i] == (k, m[k]),
{
    lemma_ascending(m.dom());
    let keys = ascending(m.dom());
    let entries = entries_of(m);
    assert forall|i: int| 0 <= i < entries.len() implies m.contains_key(#[trigger] entries[i].0)
        && entries[i].1 == m[entries[i].0] by {
        assert(keys.contains(keys[i]));
    }
    assert forall|k: u32| m.contains_key(k) implies exists|i: int|
        0 <= i < entries.len() && #[trigger] entries[i] == (k, m[k]) by {
        assert(keys.contains(k));
        let i = choose|i: int| 0 <= i < keys.len() && keys[i] == k;
        assert(entries[i] == (k, m[k]));
    }
}

/// The pairs of `m`, by ascending key.
pub fn sorted_entries(m: &HashMap<u32, u32>) -> (entries: Vec<(u32, u32)>)
    ensures
        entries@ == entries_of(m@),
{
    let keys: Vec<u32> = sorted_keys(m);
    let mut entries: Vec<(u32, u32)> = Vec::new();
    let mut i: usize = 0;
    proof {
        lemma_ascending(m@.dom());
    }
    while i < keys.len()
        invariant
            i <= keys.len(),
            keys@ == ascending(m@.dom()),
            forall|k: u32| ascending(m@.dom()).contains(k) <==> m@.dom().contains(k),
            entries@.len() == i,
            forall|k: int| 0 <= k < i ==> entries@[k] == entries_of(m@)[k],
        decreases keys.len() - i,
    {
        let key: u32 = keys[i];
        assert(keys@.contains(key));
        let quantity: u32 = match m.get(&key) {
            Some(q) => *q,
            None => 0,
        };
        entries.push((key, quantity));
        i += 1;
    }
    assert(entries@ =~= entries_of(m@));
    entries
}

/// The keys of `m`, smallest first.
pub fn sorted_keys<V>(m: &HashMap<u32, V>) -> (keys: Vec<u32>)
    ensures
        keys@ == ascending(m@.dom()),
{
    let mut pairs: Vec<(u32, u32)> = Vec::new();
    let ghost all: Seq<u32> = m.keys().remaining().unref();
    for key in it: m.keys()
        invariant
            it.seq().unref() == all,
            pairs@.len() == it.index(),
            forall|i: int| 0 <= i < it.index() ==> pairs@[i] == (all[i], 0u32),
    {
        pairs.push((*key, 0));
    }
    assert(keys_distinct(pairs@));
    let sorted: Vec<(u32, u32)> = sort_remaining_items(pairs);
    proof {
        lemma_sorted_by_key(pairs@);
    }
    let mut keys: Vec<u32> = Vec::new();
    let mut i: usize = 0;
    while i < sorted.len()
        invariant
            i <= sorted.len(),
            keys@.len() == i,
            forall|k: int| 0 <= k < i ==> keys@[k] == sorted@[k].0,
        decreases sorted.len() - i,
    {
        keys.push(sorted[i].0);
        i += 1;
    }
    proof {
        assert(strictly_ascending(keys@));
        assert forall|k: u32| keys@.contains(k) <==> m@.dom().contains(k) by {
            if keys@.contains(k) {
                let i = choose|i: int| 0 <= i < keys@.len() && keys@[i] == k;
                assert(sorted@.contains(sorted@[i]));
                assert(pairs@.contains(sorted@[i]));
                let j = choose|j: int| 0 <= j < pairs@.len() && pairs@[j] == sorted@[i];
                assert(all[j] == k);
                assert(all.to_set().contains(k));
            }
            if m@.dom().contains(k) {
                assert(all.to_set().contains(k));
                let j = choose|j: int| 0 <= j < all.len() && all[j] == k;
                assert(pairs@[j] == (k, 0u32));
                assert(pairs@.contains((k, 0u32)));
                assert(sorted@.contains((k, 0u32)));
                let i = choose|i: int| 0 <= i < sorted@.len() && sorted@[i] == (k, 0u32);
                assert(keys@[i] == k);
            }
        }
        lemma_ascending_is(m@.dom(), keys@);
    }
    keys
}

} // verus!

//! Offers of one product, ordered by price, and the cheapest way to buy a
//! quantity from them.

use vstd::prelude::*;
use crate::models::store::{price_of, stock_of, supply};
use crate::models::{Cost, ProductId, Store, StoreId, TotalCost};

verus! {

/// What one store offers of one product.
#[derive(Debug, Clone, Copy, PartialEq, Eq, Structural)]
pub struct Offer {
    /// Price of one unit.
    pub price: Cost,
    /// The store that sells.
    pub store: StoreId,
    /// Units on the shelf.
    pub stock: u32,
}

/// `a` is taken no later than `b`: it is cheaper, or as cheap and from the
/// store with the smaller id.
pub open spec fn offer_le(a: Offer, b: Offer) -> bool {
    a.price < b.price || (a.price == b.price && a.store <= b.store)
}

/// No offer is taken later than one behind it.
pub open spec fn offers_sorted(s: Seq<Offer>) -> bool {
    forall|i: int, j: int| 0 <= i < j < s.len() ==> s[i].price <= s[j].price
}

/// The number of leading offers that are taken before `o`.
pub open spec fn offer_slot(s: Seq<Offer>, o: Offer) -> nat
    decreases s.len(),
{
    if s.len() == 0 || offer_le(o, s[0]) {
        0
    } else {
        1 + offer_slot(s.drop_first(), o)
    }
}

/// `o` placed behind the leading offers that are taken before it.
pub open spec fn insert_offer(s: Seq<Offer>, o: Offer) -> Seq<Offer> {
    s.insert(offer_slot(s, o) as int, o)
}

/// What `store` offers of `product`.
pub open spec fn offer_of(stores: Map<StoreId, Store>, store: StoreId,
    product: ProductId) -> Offer {
    Offer {
        price: price_of(stores, store, product),
        store,
        stock: stock_of(stores, store, product) as u32,
    }
}

/// The offers of `product` from those stores of `ids` that are in `among`
/// and have the product on the shelf, cheapest first.
pub open spec fn offers(
    stores: Map<StoreId, Store>,
    ids: Seq<StoreId>,
    among: Set<StoreId>,
    product: ProductId,
) -> Seq<Offer>
    decreases ids.len(),
{
    if ids.len() == 0 {
        Seq::empty()
    } else {
        let front = offers(stores, ids.drop_last(), among, product);
        if among.contains(ids.last()) && stock_of(stores, ids.last(), product) > 0 {
            insert_offer(front, offer_of(stores, ids.last(), product))
        } else {
            front
        }
    }
}

/// The units that the offers hold together.
pub open spec fn units(s: Seq<Offer>) -> nat
    decreases s.len(),
{
    if s.len() == 0 {
        0
    } else {
        s[0].stock as nat + units(s.drop_first())
    }
}

/// The smaller of two quantities.
pub open spec fn least(a: nat, b: nat) -> nat {
    if a <= b {
        a
    } else {
        b
    }
}

/// The price of buying `need` units from the offers in their order, each
/// offer used up before the next is touched. Where the offers hold fewer
/// units, the price of all they hold.
pub open spec fn fill_cost(s: Seq<Offer>, need: nat) -> nat
    decreases s.len(),
{
    if s.len() == 0 || need == 0 {
        0
    } else {
        let taken = least(s[0].stock as nat, need);
        s[0].price as nat * taken + fill_cost(s.drop_first(), (need - taken) as nat)
    }
}

/// What `offer_slot` counts.
pub proof fn lemma_offer_slot(s: Seq<Offer>, o: Offer)
    ensures
        offer_slot(s, o) <= s.len(),
        forall|k: int| 0 <= k < offer_slot(s, o) ==> !offer_le(o, s[k]),
        offer_slot(s, o) < s.len() ==> offer_le(o, s[offer_slot(s, o) as int]),
    decreases s.len(),
{
    if s.len() == 0 || offer_le(o, s[0]) {
    } else {
        let rest = s.drop_first();
        lemma_offer_slot(rest, o);
        assert forall|k: int| 0 <= k < offer_slot(s, o) implies !offer_le(o, s[k]) by {
            if k > 0 {
                assert(rest[k - 1] == s[k]);
            }
        }
        if offer_slot(s, o) < s.len() {
            assert(rest[offer_slot(rest, o) as int] == s[offer_slot(s, o) as int]);
        }
    }
}

/// A position with the properties of `offer_slot` is `offer_slot`.
pub proof fn lemma_offer_slot_is(s: Seq<Offer>, o: Offer, j: int)
    requires
        0 <= j <= s.len(),
        forall|k: int| 0 <= k < j ==> !offer_le(o, s[k]),
        j < s.len() ==> offer_le(o, s[j]),
    ensures
        offer_slot(s, o) == j,
{
    lemma_offer_slot(s, o);
    let found = offer_slot(s, o) as int;
    if found < j {
        assert(!offer_le(o, s[found]));
    } else if j < found {
        assert(!offer_le(o, s[j]));
    }
}

/// How `insert_offer` unfolds at the head of the sequence.
pub proof fn lemma_insert_offer_head(s: Seq<Offer>, o: Offer)
    ensures
        s.len() == 0 || offer_le(o, s[0]) ==> insert_offer(s, o) == seq![o] + s,
        s.len() > 0 && !offer_le(o, s[0]) ==> insert_offer(s, o)[0] == s[0] && insert_offer(
            s,
            o,
        ).drop_first() == insert_offer(s.drop_first(), o),
        insert_offer(s, o).len() == s.len() + 1,
{
    lemma_offer_slot(s, o);
    if s.len() == 0 || offer_le(o, s[0]) {
        assert(insert_offer(s, o) =~= seq![o] + s);
    } else {
        lemma_offer_slot(s.drop_first(), o);
        assert(insert_offer(s, o).drop_first() =~= insert_offer(s.drop_first(), o));
    }
}

/// Inserting keeps the order by price and adds the units of the offer.
pub proof fn lemma_insert_offer(s: Seq<Offer>, o: Offer)
    ensures
        insert_offer(s, o).len() == s.len() + 1,
        units(insert_offer(s, o)) == units(s) + o.stock,
        offers_sorted(s) ==> offers_sorted(insert_offer(s, o)),
        forall|x: Offer| insert_offer(s, o).contains(x) <==> (x == o || s.contains(x)),
    decreases s.len(),
{
    lemma_insert_offer_head(s, o);
    lemma_offer_slot(s, o);
    let r = insert_offer(s, o);
    let at = offer_slot(s, o) as int;
    if s.len() == 0 || offer_le(o, s[0]) {
        assert(r.drop_first() =~= s);
    } else {
        lemma_insert_offer(s.drop_first(), o);
    }
    assert forall|x: Offer| r.contains(x) <==> (x == o || s.contains(x)) by {
        if r.contains(x) {
            let i = choose|i: int| 0 <= i < r.len() && r[i] == x;
            if i < at {
                assert(s[i] == x);
            } else if i > at {
                assert(s[i - 1] == x);
            }
        }
        if s.contains(x) {
            let i = choose|i: int| 0 <= i < s.len() && s[i] == x;
            if i < at {
                assert(r[i] == x);
            } else {
                assert(r[i + 1] == x);
            }
        }
        assert(r[at] == o);
    }
    if offers_sorted(s) {
        assert forall|i: int, j: int| 0 <= i < j < r.len() implies r[i].price <= r[j].price by {
            if j < at {
            } else if i > at {
                assert(r[i] == s[i - 1] && r[j] == s[j - 1]);
            } else if i == at {
                assert(r[j] == s[j - 1]);
                assert(offer_le(o, s[at]));
                assert(s[at].price <= s[j - 1].price || at == j - 1);
            } else if j == at {
                assert(!offer_le(o, s[i]));
            } else {
                assert(r[j] == s[j - 1]);
            }
        }
    }
}

/// What `offers` holds: for each offer a store of `ids` in `among` with that
/// stock and price; the order is by price; the units add up to `supply`.
pub proof fn lemma_offers(
    stores: Map<StoreId, Store>,
    ids: Seq<StoreId>,
    among: Set<StoreId>,
    product: ProductId,
)
    ensures
        offers_sorted(offers(stores, ids, among, product)),
        units(offers(stores, ids, among, product)) == supply(stores, ids, among, product),
        offers(stores, ids, among, product).len() <= ids.len(),
        forall|k: int|
            0 <= k < offers(stores, ids, among, product).len() ==> {
                let o = #[trigger] offers(stores, ids, among, product)[k];
                &&& ids.contains(o.store)
                &&& among.contains(o.store)
                &&& o == offer_of(stores, o.store, product)
                &&& o.stock > 0
            },
    decreases ids.len(),
{
    if ids.len() > 0 {
        let front_ids = ids.drop_last();
        let front = offers(stores, front_ids, among, product);
        lemma_offers(stores, front_ids, among, product);
        let all = offers(stores, ids, among, product);
        if among.contains(ids.last()) && stock_of(stores, ids.last(), product) > 0 {
            let o = offer_of(stores, ids.last(), product);
            lemma_insert_offer(front, o);
        }
        assert forall|k: int| 0 <= k < all.len() implies {
            let o = #[trigger] all[k];
            &&& ids.contains(o.store)
            &&& among.contains(o.store)
            &&& o == offer_of(stores, o.store, product)
            &&& o.stock > 0
        } by {
            let o = all[k];
            assert(all.contains(o));
            if front.contains(o) {
                let i = choose|i: int| 0 <= i < front.len() && front[i] == o;
                assert(front_ids.contains(front[i].store));
                let j = choose|j: int| 0 <= j < front_ids.len() && front_ids[j] == o.store;
                assert(ids[j] == o.store);
            } else {
                assert(ids[ids.len() - 1] == o.store);
            }
        }
    }
}

/// Buying costs at most the highest representable unit price for each unit.
pub proof fn lemma_fill_cost_bound(s: Seq<Offer>, need: nat)
    ensures
        fill_cost(s, need) <= need * 0xFFFF_FFFF_FFFF_FFFF,
    decreases s.len(),
{
    if s.len() == 0 || need == 0 {
    } else {
        let taken = least(s[0].stock as nat, need);
        lemma_fill_cost_bound(s.drop_first(), (need - taken) as nat);
        assert(s[0].price as nat * taken + (need - taken) * 0xFFFF_FFFF_FFFF_FFFF <= need
            * 0xFFFF_FFFF_FFFF_FFFF) by (nonlinear_arith)
            requires
                s[0].price <= 0xFFFF_FFFF_FFFF_FFFF,
                taken <= need,
        ;
    }
}

/// Where no offer is cheaper than `floor`, the last `fewer` of `need`
/// units cost at least `floor` each.
pub proof fn lemma_fill_marginal(s: Seq<Offer>, need: nat, fewer: nat, floor: nat)
    requires
        forall|k: int| 0 <= k < s.len() ==> (#[trigger] s[k]).price >= floor,
        fewer <= need <= units(s),
    ensures
        fill_cost(s, need) >= fill_cost(s, (need - fewer) as nat) + floor * fewer,
    decreases s.len(),
{
    if need == 0 || s.len() == 0 {
        assert(floor * fewer == 0) by (nonlinear_arith)
            requires
                fewer == 0,
        ;
    } else {
        let head = s[0];
        let tail = s.drop_first();
        let taken = least(head.stock as nat, need);
        let taken_less = least(head.stock as nat, (need - fewer) as nat);
        let gap = (taken - taken_less) as nat;
        let rest = (fewer - gap) as nat;
        assert forall|k: int| 0 <= k < tail.len() implies (#[trigger] tail[k]).price >= floor by {
            assert(tail[k] == s[k + 1]);
        }
        lemma_fill_marginal(tail, (need - taken) as nat, rest, floor);
        assert(head.price >= floor);
        assert(head.price as nat * taken + floor * rest >= head.price as nat * taken_less + floor
            * fewer) by (nonlinear_arith)
            requires
                head.price >= floor,
                taken == taken_less + gap,
                fewer == rest + gap,
        ;
    }
}

/// With one more offer, `need` units cost no more than any number of them
/// taken from the new offer and the others from the offers as they were.
pub proof fn lemma_insert_no_worse(s: Seq<Offer>, o: Offer, need: nat, from_new: nat)
    requires
        offers_sorted(s),
        from_new <= o.stock,
        from_new <= need,
        need - from_new <= units(s),
    ensures
        fill_cost(insert_offer(s, o), need) <= o.price as nat * from_new + fill_cost(
            s,
            (need - from_new) as nat,
        ),
    decreases s.len(),
{
    lemma_insert_offer_head(s, o);
    let all = insert_offer(s, o);
    if need == 0 {
        assert(o.price as nat * from_new == 0) by (nonlinear_arith)
            requires
                from_new == 0,
        ;
    } else if s.len() == 0 || offer_le(o, s[0]) {
        let most = least(o.stock as nat, need);
        assert(all.drop_first() =~= s);
        assert(all[0] == o);
        assert forall|k: int| 0 <= k < s.len() implies (#[trigger] s[k]).price >= o.price by {
            if k > 0 {
                assert(s[0].price <= s[k].price);
            }
        }
        lemma_fill_marginal(s, (need - from_new) as nat, (most - from_new) as nat, o.price as nat);
        assert(((need - from_new) as nat - (most - from_new) as nat) as nat
            == (need - most) as nat);
        assert(fill_cost(all, need) == o.price as nat * most + fill_cost(
            all.drop_first(),
            (need - most) as nat,
        ));
        assert(o.price as nat * most == o.price as nat * from_new + o.price as nat * ((most
            - from_new) as nat)) by (nonlinear_arith)
            requires
                from_new <= most,
        ;
    } else {
        let head = s[0];
        let tail = s.drop_first();
        let taken = least(head.stock as nat, need);
        let taken_less = least(head.stock as nat, (need - from_new) as nat);
        let gap = (taken - taken_less) as nat;
        let rest = (from_new - gap) as nat;
        assert(offers_sorted(tail)) by {
            assert forall|i: int, j: int| 0 <= i < j < tail.len() implies tail[i].price
                <= tail[j].price by {
                assert(tail[i] == s[i + 1] && tail[j] == s[j + 1]);
            }
        }
        lemma_insert_no_worse(tail, o, (need - taken) as nat, rest);
        assert(head.price <= o.price);
        assert(all[0] == head);
        assert(fill_cost(all, need) == head.price as nat * taken + fill_cost(
            insert_offer(tail, o),
            (need - taken) as nat,
        ));
        assert(((need - taken) as nat - rest) as nat
            == ((need - from_new) as nat - taken_less) as nat);
        assert(fill_cost(tail, 0) == 0);
        assert(fill_cost(s, (need - from_new) as nat) == head.price as nat * taken_less
            + fill_cost(tail, ((need - from_new) as nat - taken_less) as nat)) by {
            if need - from_new == 0 {
                assert(head.price as nat * 0 == 0) by (nonlinear_arith);
            }
        }
        assert(head.price as nat * taken + o.price as nat * rest <= o.price as nat * from_new
            + head.price as nat * taken_less) by (nonlinear_arith)
            requires
                head.price <= o.price,
                taken == taken_less + gap,
                from_new == rest + gap,
        ;
    }
}

/// With one more offer, the price of `need` units is the price of some
/// number of them from the new offer and of the others from the offers as
/// they were. The result is that number.
pub proof fn lemma_insert_splits(s: Seq<Offer>, o: Offer, need: nat) -> (from_new: nat)
    requires
        need <= units(s) + o.stock,
    ensures
        from_new <= o.stock,
        from_new <= need,
        need - from_new <= units(s),
        fill_cost(insert_offer(s, o), need) == o.price as nat * from_new + fill_cost(
            s,
            (need - from_new) as nat,
        ),
    decreases s.len(),
{
    lemma_insert_offer_head(s, o);
    let all = insert_offer(s, o);
    if need == 0 {
        assert(o.price as nat * 0 == 0) by (nonlinear_arith);
        0
    } else if s.len() == 0 || offer_le(o, s[0]) {
        assert(all.drop_first() =~= s);
        assert(all[0] == o);
        let most = least(o.stock as nat, need);
        assert(fill_cost(all, need) == o.price as nat * most + fill_cost(
            all.drop_first(),
            (need - most) as nat,
        ));
        most
    } else {
        let head = s[0];
        let tail = s.drop_first();
        let taken = least(head.stock as nat, need);
        let from_new = lemma_insert_splits(tail, o, (need - taken) as nat);
        assert(least(head.stock as nat, (need - from_new) as nat) == taken);
        assert(all[0] == head);
        assert(fill_cost(all, need) == head.price as nat * taken + fill_cost(
            insert_offer(tail, o),
            (need - taken) as nat,
        ));
        assert(fill_cost(tail, 0) == 0);
        assert(fill_cost(s, (need - from_new) as nat) == head.price as nat * taken + fill_cost(
            tail,
            ((need - from_new) as nat - taken) as nat,
        )) by {
            if need - from_new == 0 {
                assert(head.price as nat * 0 == 0) by (nonlinear_arith);
            }
        }
        assert(((need - taken) as nat - from_new) as nat
            == ((need - from_new) as nat - taken) as nat);
        from_new
    }
}

/// The units that a purchase takes, over all offers.
pub open spec fn purchase_units(taken: Seq<nat>) -> nat
    decreases taken.len(),
{
    if taken.len() == 0 {
        0
    } else {
        taken[0] + purchase_units(taken.drop_first())
    }
}

/// The price of a purchase that takes `taken[i]` units from the offer `s[i]`.
pub open spec fn purchase_cost(s: Seq<Offer>, taken: Seq<nat>) -> nat
    decreases s.len(),
{
    if s.len() == 0 || taken.len() == 0 {
        0
    } else {
        s[0].price as nat * taken[0] + purchase_cost(s.drop_first(), taken.drop_first())
    }
}

/// Whether `taken` is a purchase from the offers `s`: from each offer no
/// more than it holds.
pub open spec fn is_purchase(s: Seq<Offer>, taken: Seq<nat>) -> bool {
    taken.len() == s.len() && forall|i: int| 0 <= i < s.len()
        ==> taken[i] <= (#[trigger] s[i]).stock
}

/// The law of the cheapest purchase: no purchase from offers in the order
/// of their prices costs less than taking the same number of units from
/// the cheapest offers first.
pub proof fn fill_cost_is_least(s: Seq<Offer>, taken: Seq<nat>)
    requires
        offers_sorted(s),
        is_purchase(s, taken),
    ensures
        purchase_units(taken) <= units(s),
        fill_cost(s, purchase_units(taken)) <= purchase_cost(s, taken),
    decreases s.len(),
{
    if s.len() > 0 {
        let head = s[0];
        let tail = s.drop_first();
        let rest = taken.drop_first();
        let need = purchase_units(taken);
        assert(offers_sorted(tail)) by {
            assert forall|i: int, j: int| 0 <= i < j < tail.len() implies tail[i].price
                <= tail[j].price by {
                assert(tail[i] == s[i + 1] && tail[j] == s[j + 1]);
            }
        }
        assert(is_purchase(tail, rest)) by {
            assert forall|i: int| 0 <= i < tail.len()
                implies rest[i] <= (#[trigger] tail[i]).stock by {
                assert(tail[i] == s[i + 1]);
                assert(rest[i] == taken[i + 1]);
            }
        }
        fill_cost_is_least(tail, rest);
        if need > 0 {
            let most = least(head.stock as nat, need);
            assert(taken[0] <= head.stock);
            assert forall|k: int| 0 <= k < tail.len() implies (#[trigger] tail[k]).price
                >= head.price by {
                assert(tail[k] == s[k + 1]);
                assert(s[0].price <= s[k + 1].price);
            }
            lemma_fill_marginal(
                tail,
                purchase_units(rest),
                (most - taken[0]) as nat,
                head.price as nat,
            );
            assert((purchase_units(rest) - (most - taken[0]) as nat) as nat
                == (need - most) as nat);
            assert(head.price as nat * most == head.price as nat * taken[0] + head.price as nat * ((
            most - taken[0]) as nat)) by (nonlinear_arith)
                requires
                    taken[0] <= most,
            ;
        }
    }
}

/// The more stores may be used, the less the purchase costs: with the
/// stores of `big`, any quantity that the stores of `small` can supply
/// costs no more than with those of `small`.
pub proof fn lemma_offers_monotone(
    stores: Map<StoreId, Store>,
    ids: Seq<StoreId>,
    small: Set<StoreId>,
    big: Set<StoreId>,
    product: ProductId,
)
    requires
        small.subset_of(big),
    ensures
        supply(stores, ids, small, product) <= supply(stores, ids, big, product),
        forall|need: nat|
            need <= supply(stores, ids, small, product) ==> #[trigger] fill_cost(
                offers(stores, ids, big, product),
                need,
            ) <= fill_cost(offers(stores, ids, small, product), need),
    decreases ids.len(),
{
    lemma_offers(stores, ids, small, product);
    lemma_offers(stores, ids, big, product);
    if ids.len() > 0 {
        let front = ids.drop_last();
        let store = ids.last();
        lemma_offers_monotone(stores, front, small, big, product);
        lemma_offers(stores, front, small, product);
        lemma_offers(stores, front, big, product);
        let with_big = offers(stores, front, big, product);
        let with_small = offers(stores, front, small, product);
        let o = offer_of(stores, store, product);
        assert forall|need: nat| need <= supply(stores, ids, small, product)
            implies #[trigger] fill_cost(
            offers(stores, ids, big, product),
            need,
        ) <= fill_cost(offers(stores, ids, small, product), need) by {
            if big.contains(store) && stock_of(stores, store, product) > 0 {
                if small.contains(store) {
                    let from_new = lemma_insert_splits(with_small, o, need);
                    lemma_insert_no_worse(with_big, o, need, from_new);
                    assert(fill_cost(with_big, (need - from_new) as nat) <= fill_cost(
                        with_small,
                        (need - from_new) as nat,
                    ));
                } else {
                    lemma_insert_no_worse(with_big, o, need, 0);
                    assert(o.price as nat * 0 == 0) by (nonlinear_arith);
                    assert(fill_cost(with_big, need) <= fill_cost(with_small, need));
                }
            } else {
                assert(fill_cost(with_big, need) <= fill_cost(with_small, need));
            }
        }
    }
}

/// The price of `need` units bought from `offers` in their order, or `None`
/// where they hold fewer units.
pub fn fill(offers: &Vec<Offer>, need: u32) -> (r: Option<TotalCost>)
    ensures
        r == if units(offers@) >= need {
            Some(fill_cost(offers@, need as nat) as TotalCost)
        } else {
            None
        },
        r is Some ==> r->0 == fill_cost(offers@, need as nat),
{
    let mut remaining: u32 = need;
    let mut cost: u128 = 0;
    let mut i: usize = 0;
    assert(offers@.skip(0) == offers@);
    while i < offers.len() && remaining > 0
        invariant
            i <= offers.len(),
            remaining <= need,
            cost + fill_cost(offers@.skip(i as int), remaining as nat) == fill_cost(
                offers@,
                need as nat,
            ),
            (units(offers@) >= need) == (units(offers@.skip(i as int)) >= remaining),
            cost <= (need - remaining) * 0xFFFF_FFFF_FFFF_FFFF,
        decreases offers.len() - i,
    {
        let offer: Offer = offers[i];
        let taken: u32 = if offer.stock <= remaining {
            offer.stock
        } else {
            remaining
        };
        proof {
            let rest = offers@.skip(i as int);
            assert(rest[0] == offer);
            assert(rest.drop_first() == offers@.skip(i + 1));
            assert(offer.price as nat * taken as nat <= taken * 0xFFFF_FFFF_FFFF_FFFF)
                by (nonlinear_arith)
                requires
                    offer.price <= 0xFFFF_FFFF_FFFF_FFFF,
            ;
            assert(need * 0xFFFF_FFFF_FFFF_FFFF <= 0xFFFF_FFFF * 0xFFFF_FFFF_FFFF_FFFF)
                by (nonlinear_arith)
                requires
                    need <= 0xFFFF_FFFF,
            ;
            assert((need - remaining) * 0xFFFF_FFFF_FFFF_FFFF + taken * 0xFFFF_FFFF_FFFF_FFFF
                == (need - (remaining - taken)) * 0xFFFF_FFFF_FFFF_FFFF) by (nonlinear_arith);
            assert((need - (remaining - taken)) * 0xFFFF_FFFF_FFFF_FFFF <= need
                * 0xFFFF_FFFF_FFFF_FFFF) by (nonlinear_arith)
                requires
                    taken <= remaining <= need,
            ;
        }
        cost = cost + (offer.price as u128) * (taken as u128);
        remaining = remaining - taken;
        i += 1;
    }
    proof {
        lemma_fill_cost_bound(offers@, need as nat);
        assert(need * 0xFFFF_FFFF_FFFF_FFFF <= 0xFFFF_FFFF * 0xFFFF_FFFF_FFFF_FFFF)
            by (nonlinear_arith)
            requires
                need <= 0xFFFF_FFFF,
        ;
        if i == offers.len() {
            assert(offers@.skip(i as int).len() == 0);
        }
    }
    if remaining > 0 {
        None
    } else {
        Some(cost)
    }
}

} // verus!

//! The price of a shopping list along a route, and its lower bound over all routes.

use vstd::prelude::*;
use crate::algorithms::bsl_psd::offers::{
    fill, fill_cost, lemma_fill_cost_bound, lemma_offer_slot_is, lemma_offers, offer_le,
    offer_of, offers, units, Offer,
};
use crate::algorithms::bsl_psd::BSLPSD;
use crate::models::store::{stock_at, supply};
use crate::models::{Cost, Location, ProductId, ShoppingList, Store, StoreId, TotalCost};
use crate::utils::ordered::{contains_id, entries_of, lemma_entries_of};

verus! {

broadcast use vstd::std_specs::hash::group_hash_axioms;

/// The stores that count along `route`: all of them, or those that the route visits.
pub open spec fn reach(route: Seq<StoreId>, every_store: bool) -> Set<StoreId> {
    if every_store {
        Set::full()
    } else {
        route.to_set()
    }
}

/// The lowest price of `need` units of `product` bought in those stores of
/// `ids` that are in `among`, or `None` where they offer fewer units.
pub open spec fn product_cost(
    stores: Map<StoreId, Store>,
    ids: Seq<StoreId>,
    among: Set<StoreId>,
    product: ProductId,
    need: u32,
) -> Option<nat> {
    if supply(stores, ids, among, product) >= need {
        Some(fill_cost(offers(stores, ids, among, product), need as nat))
    } else {
        None
    }
}

/// The lowest price of all of `demand` bought in those stores of `ids` that
/// are in `among`, or `None` where one of the products is offered in too
/// small a quantity.
pub open spec fn list_cost(
    stores: Map<StoreId, Store>,
    ids: Seq<StoreId>,
    among: Set<StoreId>,
    demand: Seq<(ProductId, u32)>,
) -> Option<nat>
    decreases demand.len(),
{
    if demand.len() == 0 {
        Some(0)
    } else {
        match (
            list_cost(stores, ids, among, demand.drop_last()),
            product_cost(stores, ids, among, demand.last().0, demand.last().1),
        ) {
            (Some(front), Some(last)) => Some(front + last),
            _ => None,
        }
    }
}

/// Whether those stores of `ids` that are in `among` offer every product of
/// `items` in the wanted quantity.
pub open spec fn covers(
    stores: Map<StoreId, Store>,
    ids: Seq<StoreId>,
    among: Set<StoreId>,
    items: Map<ProductId, u32>,
) -> bool {
    forall|product: ProductId| #[trigger]
        items.contains_key(product) ==> supply(stores, ids, among, product) >= items[product]
}

/// The price of a list is at most the highest representable unit price for each unit.
pub proof fn lemma_list_cost_bound(
    stores: Map<StoreId, Store>,
    ids: Seq<StoreId>,
    among: Set<StoreId>,
    demand: Seq<(ProductId, u32)>,
)
    ensures
        list_cost(stores, ids, among, demand) is Some ==> list_cost(
            stores,
            ids,
            among,
            demand,
        )->0 <= demand.len() * (0xFFFF_FFFF * 0xFFFF_FFFF_FFFF_FFFF),
    decreases demand.len(),
{
    if demand.len() > 0 {
        lemma_list_cost_bound(stores, ids, among, demand.drop_last());
        lemma_fill_cost_bound(
            offers(stores, ids, among, demand.last().0),
            demand.last().1 as nat,
        );
        assert(demand.last().1 * 0xFFFF_FFFF_FFFF_FFFF <= 0xFFFF_FFFF * 0xFFFF_FFFF_FFFF_FFFF)
            by (nonlinear_arith)
            requires
                demand.last().1 <= 0xFFFF_FFFF,
        ;
        assert((demand.len() - 1) * (0xFFFF_FFFF * 0xFFFF_FFFF_FFFF_FFFF) + 0xFFFF_FFFF
            * 0xFFFF_FFFF_FFFF_FFFF == demand.len() * (0xFFFF_FFFF * 0xFFFF_FFFF_FFFF_FFFF))
            by (nonlinear_arith);
    }
}

/// A list has a price exactly where every product of it is offered in the wanted quantity.
pub proof fn lemma_list_cost_some(
    stores: Map<StoreId, Store>,
    ids: Seq<StoreId>,
    among: Set<StoreId>,
    demand: Seq<(ProductId, u32)>,
)
    ensures
        list_cost(stores, ids, among, demand) is Some <==> (forall|k: int|
            0 <= k < demand.len() ==> supply(stores, ids, among, #[trigger] demand[k].0)
                >= demand[k].1),
    decreases demand.len(),
{
    if demand.len() > 0 {
        let front = demand.drop_last();
        lemma_list_cost_some(stores, ids, among, front);
        if list_cost(stores, ids, among, demand) is Some {
            assert forall|k: int| 0 <= k < demand.len() implies supply(
                stores,
                ids,
                among,
                #[trigger] demand[k].0,
            ) >= demand[k].1 by {
                if k < front.len() {
                    assert(front[k] == demand[k]);
                }
            }
        }
        if forall|k: int|
            0 <= k < demand.len() ==> supply(stores, ids, among, #[trigger] demand[k].0)
                >= demand[k].1 {
            assert forall|k: int| 0 <= k < front.len() implies supply(
                stores,
                ids,
                among,
                #[trigger] front[k].0,
            ) >= front[k].1 by {
                assert(front[k] == demand[k]);
            }
            assert(demand[demand.len() - 1] == demand.last());
        }
    }
}

impl BSLPSD {
    /// The lowest price of the items bought in the stores that `route`
    /// visits, or `None` where those stores cannot supply them. Each store
    /// counts once, however often the route visits it, and a store that the
    /// planner does not know counts for nothing.
    pub open spec fn min_cost(&self, route: Seq<StoreId>, items: Map<ProductId, u32>) -> Option<
        nat,
    > {
        list_cost(self.stores@, self.store_ids@, route.to_set(), entries_of(items))
    }

    /// The lowest price of the items bought anywhere, or `None` where all
    /// the stores together cannot supply them.
    pub open spec fn lower_bound(&self, items: Map<ProductId, u32>) -> Option<nat> {
        list_cost(self.stores@, self.store_ids@, Set::full(), entries_of(items))
    }

    /// Whether the stores that `route` visits can supply the items.
    pub open spec fn fulfils(&self, route: Seq<StoreId>, items: Map<ProductId, u32>) -> bool {
        covers(self.stores@, self.store_ids@, route.to_set(), items)
    }

    /// Whether all the stores together can supply the items.
    pub open spec fn feasible(&self, items: Map<ProductId, u32>) -> bool {
        covers(self.stores@, self.store_ids@, Set::full(), items)
    }

    /// A route has a price exactly where it can supply the items.
    pub proof fn lemma_min_cost_some(&self, among: Set<StoreId>, items: Map<ProductId, u32>)
        ensures
            list_cost(self.stores@, self.store_ids@, among, entries_of(items)) is Some <==> covers(
                self.stores@,
                self.store_ids@,
                among,
                items,
            ),
    {
        let demand = entries_of(items);
        lemma_entries_of(items);
        lemma_list_cost_some(self.stores@, self.store_ids@, among, demand);
        if covers(self.stores@, self.store_ids@, among, items) {
            assert forall|k: int| 0 <= k < demand.len() implies supply(
                self.stores@,
                self.store_ids@,
                among,
                #[trigger] demand[k].0,
            ) >= demand[k].1 by {}
        }
        if list_cost(self.stores@, self.store_ids@, among, demand) is Some {
            assert forall|product: ProductId| items.contains_key(product) implies supply(
                self.stores@,
                self.store_ids@,
                among,
                product,
            ) >= items[product] by {
                let k = choose|k: int|
                    0 <= k < demand.len() && #[trigger] demand[k] == (product, items[product]);
                assert(supply(self.stores@, self.store_ids@, among, demand[k].0) >= demand[k].1);
            }
        }
    }

    /// What `store` offers of `product`.
    fn offer_at(&self, store: StoreId, product: ProductId) -> (r: Offer)
        ensures
            r == offer_of(self.stores@, store, product),
    {
        match self.stores.get(&store) {
            Some(found) => {
                let price: Cost = match found.get_product_cost(&product) {
                    Some(cost) => cost,
                    None => 0,
                };
                Offer { price, store, stock: found.available(&product) }
            },
            None => Offer { price: 0, store, stock: 0 },
        }
    }

    /// The offers of `product` along `route`, or from every store, cheapest first.
    pub fn offers_for(&self, product: ProductId, route: &[StoreId], every_store: bool) -> (r: Vec<
        Offer,
    >)
        ensures
            r@ == offers(self.stores@, self.store_ids@, reach(route@, every_store), product),
    {
        let ghost among = reach(route@, every_store);
        let mut found: Vec<Offer> = Vec::new();
        let mut i: usize = 0;
        while i < self.store_ids.len()
            invariant
                i <= self.store_ids.len(),
                among == reach(route@, every_store),
                found@ == offers(self.stores@, self.store_ids@.take(i as int), among, product),
            decreases self.store_ids.len() - i,
        {
            let store: StoreId = self.store_ids[i];
            proof {
                assert(self.store_ids@.take(i + 1).drop_last() == self.store_ids@.take(i as int));
            }
            if every_store || contains_id(route, store) {
                let offer: Offer = self.offer_at(store, product);
                if offer.stock > 0 {
                    let mut j: usize = 0;
                    while j < found.len() && !(offer.price < found[j].price || (offer.price
                        == found[j].price && offer.store <= found[j].store))
                        invariant
                            j <= found.len(),
                            forall|k: int| 0 <= k < j ==> !offer_le(offer, found@[k]),
                        decreases found.len() - j,
                    {
                        j += 1;
                    }
                    proof {
                        lemma_offer_slot_is(found@, offer, j as int);
                    }
                    found.insert(j, offer);
                }
            }
            i += 1;
        }
        proof {
            assert(self.store_ids@.take(self.store_ids.len() as int) == self.store_ids@);
        }
        found
    }

    /// The units of `product` on offer along `route`, or in every store.
    pub fn supply_for(&self, product: ProductId, route: &[StoreId], every_store: bool) -> (r: u128)
        ensures
            r == supply(self.stores@, self.store_ids@, reach(route@, every_store), product),
    {
        let ghost among = reach(route@, every_store);
        let mut total: u128 = 0;
        let mut i: usize = 0;
        while i < self.store_ids.len()
            invariant
                i <= self.store_ids.len(),
                among == reach(route@, every_store),
                total == supply(self.stores@, self.store_ids@.take(i as int), among, product),
                total <= i * 0xFFFF_FFFF,
            decreases self.store_ids.len() - i,
        {
            let store: StoreId = self.store_ids[i];
            proof {
                assert(self.store_ids@.take(i + 1).drop_last() == self.store_ids@.take(i as int));
            }
            if every_store || contains_id(route, store) {
                let here: u32 = stock_at(&self.stores, store, product);
                total = total + here as u128;
            }
            i += 1;
        }
        proof {
            assert(self.store_ids@.take(self.store_ids.len() as int) == self.store_ids@);
        }
        total
    }

    /// Whether the stores of `route` together offer every product of
    /// `shopping_list` in the wanted quantity.
    pub fn satisfies_list_with_inventory(&self, route: &[StoreId],
        shopping_list: &ShoppingList) -> (r:
        bool)
        ensures
            r == self.fulfils(route@, shopping_list.items@),
    {
        self.covered(route, shopping_list, false)
    }

    /// Whether the stores of `route`, or all stores, offer every product of
    /// `shopping_list` in the wanted quantity.
    pub fn covered(&self, route: &[StoreId], shopping_list: &ShoppingList, every_store: bool) -> (r:
        bool)
        ensures
            r == covers(
                self.stores@,
                self.store_ids@,
                reach(route@, every_store),
                shopping_list.items@,
            ),
    {
        let demand: Vec<(ProductId, u32)> = shopping_list.sorted_items();
        let ghost among = reach(route@, every_store);
        let ghost items = shopping_list.items@;
        proof {
            lemma_entries_of(items);
        }
        let mut i: usize = 0;
        while i < demand.len()
            invariant
                i <= demand.len(),
                demand@ == entries_of(items),
                items == shopping_list.items@,
                among == reach(route@, every_store),
                forall|k: int|
                    0 <= k < demand@.len() ==> items.contains_key(#[trigger] demand@[k].0)
                        && demand@[k].1 == items[demand@[k].0],
                forall|k: int|
                    0 <= k < i ==> supply(self.stores@, self.store_ids@, among, demand@[k].0)
                        >= demand@[k].1,
            decreases demand.len() - i,
        {
            let on_offer: u128 = self.supply_for(demand[i].0, route, every_store);
            if on_offer < demand[i].1 as u128 {
                proof {
                    assert(items.contains_key(demand@[i as int].0));
                }
                return false;
            }
            i += 1;
        }
        proof {
            assert forall|product: ProductId| items.contains_key(product) implies supply(
                self.stores@,
                self.store_ids@,
                among,
                product,
            ) >= items[product] by {
                let k = choose|k: int|
                    0 <= k < demand@.len() && #[trigger] demand@[k] == (product, items[product]);
                assert(supply(self.stores@, self.store_ids@, among, demand@[k].0) >= demand@[k].1);
            }
        }
        true
    }

    /// The offers of `product` from every store, cheapest first, read off the inverted index.
    pub fn indexed_offers(&self, product: ProductId) -> (r: Vec<Offer>)
        requires
            self.indexed(),
        ensures
            r@ == offers(self.stores@, self.store_ids@, Set::full(), product),
    {
        let ghost expected = offers(self.stores@, self.store_ids@, Set::full(), product);
        let mut found: Vec<Offer> = Vec::new();
        proof {
            lemma_offers(self.stores@, self.store_ids@, Set::full(), product);
            assert(self.product_to_stores@.contains_key(product) <==> expected.len() > 0);
        }
        match self.product_to_stores.get(&product) {
            Some(entry) => {
                let mut k: usize = 0;
                while k < entry.len()
                    invariant
                        k <= entry.len(),
                        entry@ == expected.map_values(|o: Offer| (o.store, o.price)),
                        forall|n: int|
                            0 <= n < expected.len() ==> (#[trigger] expected[n]) == offer_of(
                                self.stores@,
                                expected[n].store,
                                product,
                            ),
                        found@.len() == k,
                        forall|n: int| 0 <= n < k ==> found@[n] == expected[n],
                    decreases entry.len() - k,
                {
                    let store: StoreId = entry[k].0;
                    let price: Cost = entry[k].1;
                    let stock: u32 = stock_at(&self.stores, store, product);
                    proof {
                        let o = expected[k as int];
                        assert(entry@[k as int] == (o.store, o.price));
                    }
                    found.push(Offer { price, store, stock });
                    k += 1;
                }
                assert(found@ =~= expected);
            },
            None => {
                assert(found@ =~= expected);
            },
        }
        found
    }

    /// The lowest price at which `shopping_list` can be bought when every
    /// store may be used, whatever the way between them; `None` where
    /// all the stores together cannot supply the list.
    pub fn find_min_cost_route(
        &self,
        shopping_list: &ShoppingList,
        shopper_location: Location,
        customer_location: Location,
    ) -> (r: Option<TotalCost>)
        requires
            self.indexed(),
        ensures
            r is Some <==> self.feasible(shopping_list.items@),
            r is Some <==> self.lower_bound(shopping_list.items@) is Some,
            r is Some ==> r->0 == self.lower_bound(shopping_list.items@)->0,
    {
        let demand: Vec<(ProductId, u32)> = shopping_list.sorted_items();
        let ghost among = Set::<StoreId>::full();
        let ghost wanted = entries_of(shopping_list.items@);
        proof {
            lemma_entries_of(shopping_list.items@);
            self.lemma_min_cost_some(among, shopping_list.items@);
        }
        let mut total: u128 = 0;
        let mut i: usize = 0;
        while i < demand.len()
            invariant
                i <= demand.len(),
                self.indexed(),
                demand@ == wanted,
                wanted == entries_of(shopping_list.items@),
                demand@.len() <= 0x1_0000_0000,
                among == Set::<StoreId>::full(),
                list_cost(self.stores@, self.store_ids@, among, demand@.take(i as int)) == Some(
                    total as nat,
                ),
            decreases demand.len() - i,
        {
            let product: ProductId = demand[i].0;
            let need: u32 = demand[i].1;
            let found: Vec<Offer> = self.indexed_offers(product);
            proof {
                assert(demand@.take(i + 1).drop_last() == demand@.take(i as int));
                lemma_offers(self.stores@, self.store_ids@, among, product);
                lemma_list_cost_bound(self.stores@, self.store_ids@, among, demand@.take(i + 1));
                assert((i + 1) * (0xFFFF_FFFF * 0xFFFF_FFFF_FFFF_FFFF) <= 0x1_0000_0000 * (
                0xFFFF_FFFF * 0xFFFF_FFFF_FFFF_FFFF)) by (nonlinear_arith)
                    requires
                        i + 1 <= 0x1_0000_0000,
                ;
            }
            match fill(&found, need) {
                Some(price) => {
                    total = total + price;
                },
                None => {
                    proof {
                        lemma_list_cost_none_from(
                            self.stores@,
                            self.store_ids@,
                            among,
                            demand@,
                            i + 1,
                        );
                        self.lemma_min_cost_some(among, shopping_list.items@);
                    }
                    return None;
                },
            }
            i += 1;
        }
        proof {
            assert(demand@.take(demand.len() as int) == demand@);
            self.lemma_min_cost_some(among, shopping_list.items@);
        }
        Some(total)
    }

    /// The lowest price of `shopping_list` bought in the stores of `route`,
    /// or `None` where they cannot supply it.
    pub fn route_cost(&self, route: &[StoreId], shopping_list: &ShoppingList) -> (r: Option<
        TotalCost,
    >)
        ensures
            r is Some <==> self.fulfils(route@, shopping_list.items@),
            r is Some <==> self.min_cost(route@, shopping_list.items@) is Some,
            r is Some ==> r->0 == self.min_cost(route@, shopping_list.items@)->0,
    {
        let demand: Vec<(ProductId, u32)> = shopping_list.sorted_items();
        proof {
            lemma_entries_of(shopping_list.items@);
            self.lemma_min_cost_some(route@.to_set(), shopping_list.items@);
        }
        self.cost_over(&demand, route, false)
    }
}

} // verus!

verus! {

impl BSLPSD {
    /// The lowest price of `demand` along `route`, or over every store.
    pub fn cost_over(
        &self,
        demand: &Vec<(ProductId, u32)>,
        route: &[StoreId],
        every_store: bool,
    ) -> (r: Option<TotalCost>)
        requires
            demand@.len() <= 0x1_0000_0000,
        ensures
            r is Some <==> list_cost(
                self.stores@,
                self.store_ids@,
                reach(route@, every_store),
                demand@,
            ) is Some,
            r is Some ==> r->0 == list_cost(
                self.stores@,
                self.store_ids@,
                reach(route@, every_store),
                demand@,
            )->0,
    {
        let ghost among = reach(route@, every_store);
        let mut total: u128 = 0;
        let mut i: usize = 0;
        while i < demand.len()
            invariant
                i <= demand.len(),
                demand@.len() <= 0x1_0000_0000,
                among == reach(route@, every_store),
                list_cost(self.stores@, self.store_ids@, among, demand@.take(i as int)) == Some(
                    total as nat,
                ),
            decreases demand.len() - i,
        {
            let product: ProductId = demand[i].0;
            let need: u32 = demand[i].1;
            let found: Vec<Offer> = self.offers_for(product, route, every_store);
            proof {
                assert(demand@.take(i + 1).drop_last() == demand@.take(i as int));
                lemma_offers(self.stores@, self.store_ids@, among, product);
                lemma_list_cost_bound(self.stores@, self.store_ids@, among, demand@.take(i + 1));
                assert((i + 1) * (0xFFFF_FFFF * 0xFFFF_FFFF_FFFF_FFFF) <= 0x1_0000_0000 * (
                0xFFFF_FFFF * 0xFFFF_FFFF_FFFF_FFFF)) by (nonlinear_arith)
                    requires
                        i + 1 <= 0x1_0000_0000,
                ;
            }
            match fill(&found, need) {
                Some(price) => {
                    total = total + price;
                },
                None => {
                    proof {
                        lemma_list_cost_none_from(
                            self.stores@,
                            self.store_ids@,
                            among,
                            demand@,
                            i + 1,
                        );
                    }
                    return None;
                },
            }
            i += 1;
        }
        proof {
            assert(demand@.take(demand.len() as int) == demand@);
        }
        Some(total)
    }
}

/// Where a leading part of the demand has no price, the whole has none.
pub proof fn lemma_list_cost_none_from(
    stores: Map<StoreId, Store>,
    ids: Seq<StoreId>,
    among: Set<StoreId>,
    demand: Seq<(ProductId, u32)>,
    n: int,
)
    requires
        0 <= n <= demand.len(),
        list_cost(stores, ids, among, demand.take(n)) is None,
    ensures
        list_cost(stores, ids, among, demand) is None,
    decreases demand.len(),
{
    if n == demand.len() {
        assert(demand.take(n) == demand);
    } else {
        assert(demand.drop_last().take(n) == demand.take(n));
        lemma_list_cost_none_from(stores, ids, among, demand.drop_last(), n);
    }
}

} // verus!

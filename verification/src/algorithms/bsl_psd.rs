//! The skyline planner: a catalogue of stores with travel times between
//! them, and the search for the routes that no other route beats in both
//! travel time and purchase cost.

use vstd::prelude::*;
use std::collections::HashMap;
use crate::algorithms::bsl_psd::offers::{lemma_offers, offers, Offer};
use crate::models::{Cost, ProductId, Store, StoreId, Time, TravelMatrix};
use crate::utils::ordered::{ascending, lemma_ascending, sorted_keys};

pub mod cost;
pub mod monitor;
pub mod expand;
pub mod fulfilment;
pub mod laws;
pub mod timing;
pub mod offers;
pub mod plan;
pub mod search;
pub mod solve;

pub use crate::utils::ordered::sort_remaining_items;

verus! {

broadcast use vstd::std_specs::hash::group_hash_axioms;

/// Solver for the personal shopper's dilemma with inventories.
#[derive(Debug, Clone)]
pub struct BSLPSD {
    /// The stores, by store id.
    pub stores: HashMap<StoreId, Store>,
    /// The ids of the stores that the planner works on, smallest first.
    pub store_ids: Vec<StoreId>,
    /// Travel times between the stores.
    pub travel_times: TravelMatrix,
    /// For each product on some shelf, the stores that sell it with their
    /// unit prices, cheapest first.
    pub product_to_stores: HashMap<ProductId, Vec<(StoreId, Cost)>>,
}

/// The entry of the inverted index for `product`: store and unit price of
/// each offer, cheapest first.
pub open spec fn index_entry(
    stores: Map<StoreId, Store>,
    ids: Seq<StoreId>,
    product: ProductId,
) -> Seq<(StoreId, Cost)> {
    offers(stores, ids, Set::full(), product).map_values(|o: Offer| (o.store, o.price))
}

impl BSLPSD {
    /// The planner works on exactly the stores of the catalogue, by ascending id.
    pub open spec fn wf(&self) -> bool {
        self.store_ids@ == ascending(self.stores@.dom())
    }

    /// The inverted index is that of the stores as they are now.
    pub open spec fn indexed(&self) -> bool {
        forall|product: ProductId|
            {
                &&& #[trigger] self.product_to_stores@.contains_key(product) <==> offers(
                    self.stores@,
                    self.store_ids@,
                    Set::full(),
                    product,
                ).len() > 0
                &&& self.product_to_stores@.contains_key(product)
                    ==> self.product_to_stores@[product]@ == index_entry(
                    self.stores@,
                    self.store_ids@,
                    product,
                )
            }
    }

    /// Creates a planner over `stores`, without travel times.
    pub fn new(stores: HashMap<StoreId, Store>) -> (r: Self)
        ensures
            r.stores == stores,
            r.wf(),
            r.travel_times.times@ == Map::<u64, Time>::empty(),
            r.product_to_stores@ == Map::<ProductId, Vec<(StoreId, Cost)>>::empty(),
    {
        let store_ids: Vec<StoreId> = sorted_keys(&stores);
        Self {
            stores,
            store_ids,
            travel_times: TravelMatrix::new(),
            product_to_stores: HashMap::new(),
        }
    }

    /// Creates a planner over `stores` with the given travel times.
    pub fn new_with_travel_times(stores: HashMap<StoreId, Store>, travel_times: TravelMatrix) -> (r:
        Self)
        ensures
            r.stores == stores,
            r.wf(),
            r.travel_times == travel_times,
            r.product_to_stores@ == Map::<ProductId, Vec<(StoreId, Cost)>>::empty(),
    {
        let store_ids: Vec<StoreId> = sorted_keys(&stores);
        Self { stores, store_ids, travel_times, product_to_stores: HashMap::new() }
    }

    /// Makes the planner ready for queries: takes the stores as they are
    /// now as the stores to work on, and builds the inverted index from them.
    pub fn precompute_data(&mut self)
        ensures
            final(self).wf(),
            final(self).indexed(),
            final(self).stores == old(self).stores,
            final(self).travel_times == old(self).travel_times,
    {
        self.store_ids = sorted_keys(&self.stores);
        self.build_inverted_list();
    }

    /// Builds the inverted index: for each product that some store has on the
    /// shelf, the stores that sell it, cheapest first.
    pub fn build_inverted_list(&mut self)
        ensures
            final(self).indexed(),
            final(self).stores == old(self).stores,
            final(self).store_ids == old(self).store_ids,
            final(self).travel_times == old(self).travel_times,
    {
        let mut index: HashMap<ProductId, Vec<(StoreId, Cost)>> = HashMap::new();
        let ghost stores = self.stores@;
        let ghost ids = self.store_ids@;
        let mut i: usize = 0;
        while i < self.store_ids.len()
            invariant
                i <= self.store_ids.len(),
                self.stores@ == stores,
                self.store_ids@ == ids,
                *self == *old(self),
                forall|p: ProductId| #[trigger]
                    index@.contains_key(p) ==> offers(stores, ids, Set::full(), p).len() > 0
                        && index@[p]@ == index_entry(stores, ids, p),
                forall|k: int, p: ProductId|
                    0 <= k < i && stores.contains_key(ids[k])
                        && #[trigger] stores[ids[k]].products@.contains_key(
                        p,
                    ) && offers(stores, ids, Set::full(), p).len() > 0 ==> index@.contains_key(p),
            decreases self.store_ids.len() - i,
        {
            let store_id: StoreId = self.store_ids[i];
            match self.stores.get(&store_id) {
                Some(store) => {
                    let listed: Vec<ProductId> = sorted_keys(&store.products);
                    proof {
                        lemma_ascending(store.products@.dom());
                    }
                    let mut j: usize = 0;
                    while j < listed.len()
                        invariant
                            j <= listed.len(),
                            i < self.store_ids.len(),
                            self.stores@ == stores,
                            self.store_ids@ == ids,
                            *self == *old(self),
                            forall|p: ProductId| #[trigger]
                                index@.contains_key(p) ==> offers(
                                    stores,
                                    ids,
                                    Set::full(),
                                    p,
                                ).len() > 0 && index@[p]@ == index_entry(stores, ids, p),
                            forall|k: int, p: ProductId|
                                0 <= k < i && stores.contains_key(ids[k])
                                    && #[trigger] stores[ids[k]].products@.contains_key(
                                    p,
                                ) && offers(stores, ids, Set::full(), p).len() > 0
                                    ==> index@.contains_key(p),
                            forall|k: int|
                                0 <= k < j && offers(stores, ids, Set::full(), listed@[k]).len()
                                    > 0 ==> index@.contains_key(#[trigger] listed@[k]),
                        decreases listed.len() - j,
                    {
                        let product: ProductId = listed[j];
                        if !index.contains_key(&product) {
                            let found: Vec<Offer> = self.offers_for(
                                product,
                                self.store_ids.as_slice(),
                                true,
                            );
                            if found.len() > 0 {
                                let mut entry: Vec<(StoreId, Cost)> = Vec::new();
                                let mut k: usize = 0;
                                while k < found.len()
                                    invariant
                                        k <= found.len(),
                                        entry@.len() == k,
                                        forall|n: int|
                                            0 <= n < k ==> entry@[n] == (
                                                found@[n].store,
                                                found@[n].price,
                                            ),
                                    decreases found.len() - k,
                                {
                                    entry.push((found[k].store, found[k].price));
                                    k += 1;
                                }
                                assert(entry@ =~= index_entry(stores, ids, product));
                                index.insert(product, entry);
                            }
                        }
                        j += 1;
                    }
                    proof {
                        assert forall|p: ProductId| #[trigger]
                            store.products@.contains_key(p) && offers(
                                stores,
                                ids,
                                Set::full(),
                                p,
                            ).len() > 0 implies index@.contains_key(p) by {
                            assert(listed@.contains(p));
                            let k = choose|k: int| 0 <= k < listed@.len() && listed@[k] == p;
                            assert(index@.contains_key(listed@[k]));
                        }
                    }
                },
                None => {},
            }
            i += 1;
        }
        self.product_to_stores = index;
        proof {
            assert forall|product: ProductId|
                {
                    &&& #[trigger] self.product_to_stores@.contains_key(product) <==> offers(
                        self.stores@,
                        self.store_ids@,
                        Set::full(),
                        product,
                    ).len() > 0
                    &&& self.product_to_stores@.contains_key(product)
                        ==> self.product_to_stores@[product]@ == index_entry(
                        self.stores@,
                        self.store_ids@,
                        product,
                    )
                } by {
                let found = offers(stores, ids, Set::full(), product);
                if found.len() > 0 {
                    lemma_offers(stores, ids, Set::full(), product);
                    let o = found[0];
                    let k = choose|k: int| 0 <= k < ids.len() && ids[k] == o.store;
                    assert(stores.contains_key(ids[k]));
                    assert(stores[ids[k]].products@.contains_key(product));
                }
            }
        }
    }

    /// The inventory of every store the planner works on, as it is now.
    pub fn snapshot_inventory(&self) -> (r: HashMap<StoreId, HashMap<ProductId, u32>>)
        ensures
            forall|store: StoreId|
                r@.contains_key(store) <==> (self.store_ids@.contains(store)
                    && self.stores@.contains_key(store)),
            forall|store: StoreId| #[trigger]
                r@.contains_key(store) ==> r@[store]@ == self.stores@[store].inventory@,
    {
        let mut snapshot: HashMap<StoreId, HashMap<ProductId, u32>> = HashMap::new();
        let mut i: usize = 0;
        while i < self.store_ids.len()
            invariant
                i <= self.store_ids.len(),
                forall|store: StoreId|
                    snapshot@.contains_key(store) <==> (self.store_ids@.take(i as int).contains(
                        store,
                    ) && self.stores@.contains_key(store)),
                forall|store: StoreId| #[trigger]
                    snapshot@.contains_key(store) ==> snapshot@[store]@
                        == self.stores@[store].inventory@,
            decreases self.store_ids.len() - i,
        {
            let store_id: StoreId = self.store_ids[i];
            let ghost before = self.store_ids@.take(i as int);
            let ghost after = self.store_ids@.take(i + 1);
            proof {
                assert(after == before.push(store_id));
                assert forall|store: StoreId| after.contains(store) <==> (before.contains(store)
                    || store == store_id) by {
                    if after.contains(store) {
                        let k = choose|k: int| 0 <= k < after.len() && after[k] == store;
                        if k < before.len() {
                            assert(before[k] == store);
                        }
                    }
                    if before.contains(store) {
                        let k = choose|k: int| 0 <= k < before.len() && before[k] == store;
                        assert(after[k] == store);
                    }
                    assert(after[before.len() as int] == store_id);
                }
            }
            match self.stores.get(&store_id) {
                Some(store) => {
                    snapshot.insert(store_id, store.inventory.clone());
                },
                None => {},
            }
            i += 1;
        }
        proof {
            assert(self.store_ids@.take(self.store_ids.len() as int) == self.store_ids@);
        }
        snapshot
    }

    /// Whether the travel time between every two different stores is known,
    /// in both directions.
    pub fn verify_travel_times(&self) -> (r: bool)
        ensures
            r == (forall|i: int, j: int|
                0 <= i < self.store_ids@.len() && 0 <= j < self.store_ids@.len() && i != j
                    ==> self.travel_times.time(self.store_ids@[i], self.store_ids@[j]) is Some),
    {
        let mut i: usize = 0;
        while i < self.store_ids.len()
            invariant
                i <= self.store_ids.len(),
                forall|a: int, b: int|
                    0 <= a < i && 0 <= b < self.store_ids@.len() && a != b
                        ==> self.travel_times.time(self.store_ids@[a], self.store_ids@[b]) is Some,
            decreases self.store_ids.len() - i,
        {
            let mut j: usize = 0;
            while j < self.store_ids.len()
                invariant
                    i < self.store_ids.len(),
                    j <= self.store_ids.len(),
                    forall|a: int, b: int|
                        0 <= a < i && 0 <= b < self.store_ids@.len() && a != b
                            ==> self.travel_times.time(self.store_ids@[a], self.store_ids@[b])
                            is Some,
                    forall|b: int|
                        0 <= b < j && i != b ==> self.travel_times.time(
                            self.store_ids@[i as int],
                            self.store_ids@[b],
                        ) is Some,
                decreases self.store_ids.len() - j,
            {
                if i != j {
                    if self.travel_times.get(self.store_ids[i], self.store_ids[j]).is_none() {
                        return false;
                    }
                }
                j += 1;
            }
            i += 1;
        }
        true
    }
}

} // verus!

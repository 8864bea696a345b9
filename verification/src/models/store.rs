//! Stores: what they sell, at what price, and how much of it is on the shelf.

use vstd::prelude::*;
use std::collections::HashMap;
use vstd::std_specs::iter::IteratorSpec;
use crate::models::{Cost, Location, Product, ProductId, StoreId};

verus! {

broadcast use vstd::std_specs::hash::group_hash_axioms;

/// A store where products can be bought.
#[derive(Debug, Clone)]
pub struct Store {
    /// Identifier of the store.
    pub id: StoreId,
    /// Where the store is.
    pub location: Location,
    /// The products the store lists, by product id.
    pub products: HashMap<ProductId, Product>,
    /// Units on the shelf, by product id.
    pub inventory: HashMap<ProductId, u32>,
}

/// The inventory a store starts with for each product it lists.
pub const DEFAULT_INVENTORY: u32 = 10;

impl Store {
    /// The recorded inventory level of `product`; zero where none is recorded.
    pub open spec fn level(&self, product: ProductId) -> u32 {
        if self.inventory@.contains_key(product) {
            self.inventory@[product]
        } else {
            0
        }
    }

    /// The units of `product` that can be bought here: its inventory level
    /// where the store lists the product, zero otherwise.
    pub open spec fn stock(&self, product: ProductId) -> u32 {
        if self.products@.contains_key(product) {
            self.level(product)
        } else {
            0
        }
    }

    /// The unit price of `product` here; zero where the store does not list it.
    pub open spec fn price(&self, product: ProductId) -> Cost {
        if self.products@.contains_key(product) {
            self.products@[product].cost
        } else {
            0
        }
    }

    /// Every product with a recorded inventory is listed.
    pub open spec fn wf(&self) -> bool {
        forall|product: ProductId|
            self.inventory@.contains_key(product) ==> self.products@.contains_key(product)
    }

    /// Creates a store that holds `DEFAULT_INVENTORY` units of each listed product.
    pub fn new(id: StoreId, location: Location, products: HashMap<ProductId, Product>) -> (r: Self)
        ensures
            r.id == id,
            r.location == location,
            r.products == products,
            r.inventory@.dom() == products@.dom(),
            forall|product: ProductId|
                products@.contains_key(product) ==> r.inventory@[product] == DEFAULT_INVENTORY,
            r.wf(),
    {
        let mut inventory: HashMap<ProductId, u32> = HashMap::new();
        let ghost all: Seq<ProductId> = products.keys().remaining().unref();
        for key in it: products.keys()
            invariant
                it.seq().unref() == all,
                forall|product: ProductId|
                    inventory@.contains_key(product) <==> all.take(it.index()).contains(product),
                forall|product: ProductId|
                    inventory@.contains_key(product) ==> inventory@[product] == DEFAULT_INVENTORY,
        {
            let ghost before = all.take(it.index());
            inventory.insert(*key, DEFAULT_INVENTORY);
            proof {
                let after = all.take(it.index() + 1);
                assert(after == before.push(*key));
                assert forall|product: ProductId|
                    inventory@.contains_key(product) <==> after.contains(product) by {
                    if after.contains(product) {
                        let j = choose|j: int| 0 <= j < after.len() && after[j] == product;
                        if j < before.len() {
                            assert(before[j] == product);
                        }
                    }
                    if before.contains(product) {
                        let j = choose|j: int| 0 <= j < before.len() && before[j] == product;
                        assert(after[j] == product);
                    }
                    assert(after[before.len() as int] == *key);
                }
            }
        }
        proof {
            assert(all.take(all.len() as int) == all);
            assert(inventory@.dom() =~= all.to_set());
        }
        Self { id, location, products, inventory }
    }

    /// Creates a store with the given inventory.
    pub fn new_with_inventory(
        id: StoreId,
        location: Location,
        products: HashMap<ProductId, Product>,
        inventory: HashMap<ProductId, u32>,
    ) -> (r: Self)
        ensures
            r.id == id,
            r.location == location,
            r.products == products,
            r.inventory == inventory,
    {
        Self { id, location, products, inventory }
    }

    /// Whether the store lists `product_id`.
    pub fn has_product(&self, product_id: &ProductId) -> (r: bool)
        ensures
            r == self.products@.contains_key(*product_id),
    {
        self.products.contains_key(product_id)
    }

    /// The unit price of `product_id`, if the store lists it.
    pub fn get_product_cost(&self, product_id: &ProductId) -> (r: Option<Cost>)
        ensures
            r == if self.products@.contains_key(*product_id) {
                Some(self.products@[*product_id].cost)
            } else {
                None
            },
    {
        match self.products.get(product_id) {
            Some(product) => Some(product.cost),
            None => None,
        }
    }

    /// The ids of the listed products, each once, in no particular order.
    pub fn get_available_product_ids(&self) -> (r: Vec<ProductId>)
        ensures
            r@.no_duplicates(),
            r@.to_set() == self.products@.dom(),
    {
        let mut ids: Vec<ProductId> = Vec::new();
        let ghost all: Seq<ProductId> = self.products.keys().remaining().unref();
        for key in it: self.products.keys()
            invariant
                it.seq().unref() == all,
                ids@ == all.take(it.index()),
        {
            ids.push(*key);
        }
        proof {
            assert(ids@ == all);
        }
        ids
    }

    /// Whether at least `quantity` units of `product_id` are recorded.
    pub fn has_sufficient_quantity(&self, product_id: &ProductId, quantity: u32) -> (r: bool)
        ensures
            r == (self.inventory@.contains_key(*product_id) && self.inventory@[*product_id]
                >= quantity),
    {
        match self.inventory.get(product_id) {
            Some(available) => *available >= quantity,
            None => false,
        }
    }

    /// Takes `quantity` units of `product_id` off the shelf if that many are
    /// recorded, and says whether it did.
    pub fn reduce_inventory(&mut self, product_id: &ProductId, quantity: u32) -> (r: bool)
        ensures
            r == (old(self).inventory@.contains_key(*product_id)
                && old(self).inventory@[*product_id]
                >= quantity),
            r ==> final(self).inventory@ == old(self).inventory@.insert(
                *product_id,
                (old(self).inventory@[*product_id] - quantity) as u32,
            ),
            !r ==> final(self).inventory@ == old(self).inventory@,
            final(self).id == old(self).id,
            final(self).location == old(self).location,
            final(self).products == old(self).products,
    {
        let current: Option<u32> = match self.inventory.get(product_id) {
            Some(available) => Some(*available),
            None => None,
        };
        match current {
            Some(available) => {
                if available >= quantity {
                    self.inventory.insert(*product_id, available - quantity);
                    true
                } else {
                    false
                }
            },
            None => false,
        }
    }

    /// The recorded inventory level of `product_id`, zero where none is recorded.
    pub fn get_inventory_level(&self, product_id: &ProductId) -> (r: u32)
        ensures
            r == self.level(*product_id),
    {
        match self.inventory.get(product_id) {
            Some(available) => *available,
            None => 0,
        }
    }

    /// The units of `product_id` that can be bought here.
    pub fn available(&self, product_id: &ProductId) -> (r: u32)
        ensures
            r == self.stock(*product_id),
    {
        if self.has_product(product_id) {
            self.get_inventory_level(product_id)
        } else {
            0
        }
    }

    /// Adds `quantity` units of `product_id` to the shelf if the store lists
    /// the product, and does nothing otherwise.
    pub fn restock(&mut self, product_id: &ProductId, quantity: u32)
        requires
            old(self).products@.contains_key(*product_id) ==> old(self).level(*product_id)
                + quantity <= u32::MAX,
        ensures
            final(self).inventory@ == if old(self).products@.contains_key(*product_id) {
                old(self).inventory@.insert(
                    *product_id,
                    (old(self).level(*product_id) + quantity) as u32,
                )
            } else {
                old(self).inventory@
            },
            final(self).id == old(self).id,
            final(self).location == old(self).location,
            final(self).products == old(self).products,
    {
        if self.has_product(product_id) {
            let current: u32 = self.get_inventory_level(product_id);
            self.inventory.insert(*product_id, current + quantity);
        }
    }
}

/// The units of `product` that `store` offers in `stores`; zero for an unknown store.
pub open spec fn stock_of(stores: Map<StoreId, Store>, store: StoreId, product: ProductId) -> nat {
    if stores.contains_key(store) {
        stores[store].stock(product) as nat
    } else {
        0
    }
}

/// The unit price of `product` at `store`; zero for an unknown store.
pub open spec fn price_of(stores: Map<StoreId, Store>, store: StoreId, product: ProductId) -> Cost {
    if stores.contains_key(store) {
        stores[store].price(product)
    } else {
        0
    }
}

/// The units of `product` on offer in those stores of `ids` that are in `among`.
pub open spec fn supply(
    stores: Map<StoreId, Store>,
    ids: Seq<StoreId>,
    among: Set<StoreId>,
    product: ProductId,
) -> nat
    decreases ids.len(),
{
    if ids.len() == 0 {
        0
    } else {
        supply(stores, ids.drop_last(), among, product) + if among.contains(ids.last()) {
            stock_of(stores, ids.last(), product)
        } else {
            0
        }
    }
}

/// What `store` offers of `product`, looked up in `stores`.
pub fn stock_at(stores: &HashMap<StoreId, Store>, store: StoreId, product: ProductId) -> (r: u32)
    ensures
        r == stock_of(stores@, store, product),
{
    match stores.get(&store) {
        Some(found) => found.available(&product),
        None => 0,
    }
}

/// The units of `product` on offer over all the stores of `ids`.
pub fn total_supply(stores: &HashMap<StoreId, Store>, ids: &Vec<StoreId>, product: ProductId) -> (r:
    u64)
    requires
        ids@.len() <= 0x1_0000_0000,
    ensures
        r == supply(stores@, ids@, Set::full(), product),
{
    let mut total: u64 = 0;
    let mut i: usize = 0;
    while i < ids.len()
        invariant
            i <= ids.len(),
            ids@.len() <= 0x1_0000_0000,
            total == supply(stores@, ids@.take(i as int), Set::full(), product),
            total <= i * 0xFFFF_FFFF,
        decreases ids.len() - i,
    {
        let here: u32 = stock_at(stores, ids[i], product);
        proof {
            assert(ids@.take(i + 1).drop_last() == ids@.take(i as int));
        }
        total = total + here as u64;
        i += 1;
    }
    proof {
        assert(ids@.take(ids.len() as int) == ids@);
    }
    total
}

} // verus!

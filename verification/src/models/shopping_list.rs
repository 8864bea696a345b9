//! Shopping lists: which products a customer wants, and how many of each.

use vstd::prelude::*;
use std::collections::HashMap;
use crate::models::store::{supply, total_supply};
use crate::models::{ProductId, Store, StoreId};
use crate::utils::ordered::{
    ascending, entries_of, keys_ascending, lemma_ascending, lemma_entries_of,
    lemma_quantity_sum_prefix, quantity_sum, sorted_entries, sorted_keys,
};

verus! {

broadcast use vstd::std_specs::hash::group_hash_axioms;

/// A customer's shopping list.
#[derive(Debug, Clone)]
pub struct ShoppingList {
    /// The wanted quantity of each product, by product id.
    pub items: HashMap<ProductId, u32>,
    /// Priority of the list among several orders.
    pub priority: u32,
}

/// The units of `product` on offer over all of `stores`.
pub open spec fn offered(stores: Map<StoreId, Store>, product: ProductId) -> nat {
    supply(stores, ascending(stores.dom()), Set::full(), product)
}

/// Whether `store` has a product of `items` on its shelf.
pub open spec fn is_relevant(store: Store, items: Map<ProductId, u32>) -> bool {
    exists|product: ProductId| items.contains_key(product) && store.stock(product) > 0
}

/// The stores of `ids` that have a product of `items` on their shelf, in the order of `ids`.
pub open spec fn relevant_stores(
    stores: Map<StoreId, Store>,
    ids: Seq<StoreId>,
    items: Map<ProductId, u32>,
) -> Seq<Store>
    decreases ids.len(),
{
    if ids.len() == 0 {
        Seq::empty()
    } else {
        let front = relevant_stores(stores, ids.drop_last(), items);
        if stores.contains_key(ids.last()) && is_relevant(stores[ids.last()], items) {
            front.push(stores[ids.last()])
        } else {
            front
        }
    }
}

/// The smaller of a wanted quantity and what is on offer.
pub open spec fn capped(wanted: u32, on_offer: nat) -> u32 {
    if on_offer < wanted {
        on_offer as u32
    } else {
        wanted
    }
}

impl ShoppingList {
    /// The items of the list as `(product, quantity)` pairs by ascending product id.
    pub open spec fn demand(&self) -> Seq<(ProductId, u32)> {
        entries_of(self.items@)
    }

    /// The number of units on the list, over all products.
    pub open spec fn total_quantity(&self) -> nat {
        quantity_sum(self.demand())
    }

    /// Whether the stores together offer every product in the wanted quantity.
    pub open spec fn fulfillable_by(&self, stores: Map<StoreId, Store>) -> bool {
        forall|product: ProductId|
            self.items@.contains_key(product) ==> offered(stores, product)
                >= self.items@[product]
    }

    /// Creates an empty list with priority zero.
    pub fn new() -> (r: Self)
        ensures
            r.items@ == Map::<ProductId, u32>::empty(),
            r.priority == 0,
    {
        Self { items: HashMap::new(), priority: 0 }
    }

    /// Creates an empty list with the given priority.
    pub fn new_with_priority(priority: u32) -> (r: Self)
        ensures
            r.items@ == Map::<ProductId, u32>::empty(),
            r.priority == priority,
    {
        Self { items: HashMap::new(), priority }
    }

    /// The wanted quantity of `product`; zero where the list does not name it.
    pub open spec fn wanted(&self, product: ProductId) -> u32 {
        if self.items@.contains_key(product) {
            self.items@[product]
        } else {
            0
        }
    }

    /// Adds `quantity` units of `product_id` to the list. A quantity of zero
    /// changes nothing.
    pub fn add_item(&mut self, product_id: ProductId, quantity: u32)
        requires
            old(self).wanted(product_id) + quantity <= u32::MAX,
        ensures
            final(self).items@ == if quantity > 0 {
                old(self).items@.insert(
                    product_id,
                    (old(self).wanted(product_id) + quantity) as u32,
                )
            } else {
                old(self).items@
            },
            final(self).priority == old(self).priority,
    {
        if quantity > 0 {
            let current: u32 = match self.items.get(&product_id) {
                Some(q) => *q,
                None => 0,
            };
            self.items.insert(product_id, current + quantity);
        }
    }

    /// Takes `product_id` off the list.
    pub fn remove_item(&mut self, product_id: &ProductId)
        ensures
            final(self).items@ == old(self).items@.remove(*product_id),
            final(self).priority == old(self).priority,
    {
        self.items.remove(product_id);
    }

    /// Sets the wanted quantity of `product_id`; a quantity of zero takes the
    /// product off the list.
    pub fn update_quantity(&mut self, product_id: ProductId, quantity: u32)
        ensures
            final(self).items@ == if quantity > 0 {
                old(self).items@.insert(product_id, quantity)
            } else {
                old(self).items@.remove(product_id)
            },
            final(self).priority == old(self).priority,
    {
        if quantity > 0 {
            self.items.insert(product_id, quantity);
        } else {
            self.items.remove(&product_id);
        }
    }

    /// The number of different products on the list.
    pub fn unique_product_count(&self) -> (r: usize)
        ensures
            r == self.items@.dom().len(),
    {
        self.items.len()
    }

    /// The number of units on the list, over all products.
    pub fn total_item_count(&self) -> (r: u32)
        requires
            self.total_quantity() <= u32::MAX,
        ensures
            r == self.total_quantity(),
    {
        let entries: Vec<(ProductId, u32)> = sorted_entries(&self.items);
        let mut total: u32 = 0;
        let mut i: usize = 0;
        while i < entries.len()
            invariant
                i <= entries.len(),
                entries@ == self.demand(),
                self.total_quantity() <= u32::MAX,
                total == quantity_sum(entries@.take(i as int)),
            decreases entries.len() - i,
        {
            proof {
                assert(entries@.take(i + 1).drop_last() == entries@.take(i as int));
                lemma_quantity_sum_prefix(entries@, i + 1);
            }
            total = total + entries[i].1;
            i += 1;
        }
        proof {
            assert(entries@.take(entries.len() as int) == entries@);
        }
        total
    }

    /// Sets the priority of the list.
    pub fn set_priority(&mut self, priority: u32)
        ensures
            final(self).priority == priority,
            final(self).items == old(self).items,
    {
        self.priority = priority;
    }

    /// The priority of the list.
    pub fn get_priority(&self) -> (r: u32)
        ensures
            r == self.priority,
    {
        self.priority
    }

    /// The items of the list as `(product, quantity)` pairs by ascending product id.
    pub fn sorted_items(&self) -> (r: Vec<(ProductId, u32)>)
        ensures
            r@ == self.demand(),
    {
        sorted_entries(&self.items)
    }

    /// Whether the stores together offer every product of the list in the
    /// wanted quantity.
    pub fn can_be_fulfilled_by(&self, stores: &HashMap<StoreId, Store>) -> (r: bool)
        ensures
            r == self.fulfillable_by(stores@),
    {
        let ids: Vec<StoreId> = sorted_keys(stores);
        let entries: Vec<(ProductId, u32)> = sorted_entries(&self.items);
        proof {
            lemma_ascending(stores@.dom());
            lemma_entries_of(self.items@);
        }
        let mut i: usize = 0;
        while i < entries.len()
            invariant
                i <= entries.len(),
                entries@ == self.demand(),
                ids@ == ascending(stores@.dom()),
                ids@.len() <= 0x1_0000_0000,
                forall|k: int|
                    0 <= k < entries@.len() ==> self.items@.contains_key(
                        #[trigger] entries@[k].0,
                    ) && entries@[k].1 == self.items@[entries@[k].0],
                forall|k: int|
                    0 <= k < i ==> offered(stores@, entries@[k].0) >= entries@[k].1,
            decreases entries.len() - i,
        {
            let on_offer: u64 = total_supply(stores, &ids, entries[i].0);
            if on_offer < entries[i].1 as u64 {
                proof {
                    let product = entries@[i as int].0;
                    assert(self.items@.contains_key(product));
                }
                return false;
            }
            i += 1;
        }
        proof {
            assert forall|product: ProductId| self.items@.contains_key(product) implies offered(
                stores@,
                product,
            ) >= self.items@[product] by {
                let k = choose|k: int|
                    0 <= k < entries@.len() && #[trigger] entries@[k] == (
                        product,
                        self.items@[product],
                    );
                assert(offered(stores@, entries@[k].0) >= entries@[k].1);
            }
        }
        true
    }

    /// The stores that have at least one product of the list on the shelf, by
    /// ascending store id.
    pub fn find_relevant_stores<'a>(&self, stores: &'a HashMap<StoreId, Store>) -> (r: Vec<
        &'a Store,
    >)
        ensures
            r@.len() == relevant_stores(stores@, ascending(stores@.dom()), self.items@).len(),
            forall|i: int|
                0 <= i < r@.len() ==> *r@[i] == relevant_stores(
                    stores@,
                    ascending(stores@.dom()),
                    self.items@,
                )[i],
    {
        let ids: Vec<StoreId> = sorted_keys(stores);
        let entries: Vec<(ProductId, u32)> = sorted_entries(&self.items);
        let mut found: Vec<&'a Store> = Vec::new();
        let mut i: usize = 0;
        proof {
            lemma_entries_of(self.items@);
        }
        while i < ids.len()
            invariant
                i <= ids.len(),
                ids@ == ascending(stores@.dom()),
                entries@ == self.demand(),
                forall|k: int|
                    0 <= k < entries@.len() ==> self.items@.contains_key(
                        #[trigger] entries@[k].0,
                    ),
                forall|p: ProductId|
                    self.items@.contains_key(p) ==> exists|k: int|
                        0 <= k < entries@.len() && #[trigger] entries@[k] == (p, self.items@[p]),
                found@.len() == relevant_stores(stores@, ids@.take(i as int), self.items@).len(),
                forall|k: int|
                    0 <= k < found@.len() ==> *found@[k] == relevant_stores(
                        stores@,
                        ids@.take(i as int),
                        self.items@,
                    )[k],
            decreases ids.len() - i,
        {
            proof {
                assert(ids@.take(i + 1).drop_last() == ids@.take(i as int));
            }
            match stores.get(&ids[i]) {
                Some(store) => {
                    let mut j: usize = 0;
                    let mut stocked: bool = false;
                    while j < entries.len() && !stocked
                        invariant
                            j <= entries.len(),
                            forall|k: int|
                                0 <= k < (if stocked { j - 1 } else { j as int })
                                    ==> store.stock(entries@[k].0) == 0,
                            stocked ==> j > 0 && store.stock(entries@[j - 1].0) > 0,
                        decreases entries.len() - j + if stocked { 0int } else { 1int },
                    {
                        if store.available(&entries[j].0) > 0 {
                            stocked = true;
                        }
                        j += 1;
                    }
                    proof {
                        if stocked {
                            assert(self.items@.contains_key(entries@[j - 1].0));
                            assert(is_relevant(*store, self.items@));
                        } else {
                            assert(!is_relevant(*store, self.items@)) by {
                                if is_relevant(*store, self.items@) {
                                    let p = choose|p: ProductId|
                                        self.items@.contains_key(p) && store.stock(p) > 0;
                                    let k = choose|k: int|
                                        0 <= k < entries@.len() && #[trigger] entries@[k] == (
                                            p,
                                            self.items@[p],
                                        );
                                    assert(store.stock(entries@[k].0) == 0);
                                }
                            }
                        }
                    }
                    if stocked {
                        found.push(store);
                    }
                },
                None => {},
            }
            i += 1;
        }
        proof {
            assert(ids@.take(ids.len() as int) == ids@);
        }
        found
    }

    /// The part of the list that the stores can supply: each product that is
    /// on offer somewhere, in the wanted quantity or in what is on offer,
    /// whichever is smaller.
    pub fn create_fulfillable_list(&self, stores: &HashMap<StoreId, Store>) -> (r: ShoppingList)
        ensures
            r.priority == self.priority,
            forall|p: ProductId|
                r.items@.contains_key(p) <==> (self.items@.contains_key(p) && self.items@[p] > 0
                    && offered(stores@, p) > 0),
            forall|p: ProductId|
                r.items@.contains_key(p) ==> r.items@[p] == capped(
                    self.items@[p],
                    offered(stores@, p),
                ),
    {
        let ids: Vec<StoreId> = sorted_keys(stores);
        let entries: Vec<(ProductId, u32)> = sorted_entries(&self.items);
        let mut items: HashMap<ProductId, u32> = HashMap::new();
        proof {
            lemma_ascending(stores@.dom());
            lemma_entries_of(self.items@);
        }
        let mut i: usize = 0;
        while i < entries.len()
            invariant
                i <= entries.len(),
                entries@ == self.demand(),
                ids@ == ascending(stores@.dom()),
                ids@.len() <= 0x1_0000_0000,
                keys_ascending(entries@),
                forall|k: int|
                    0 <= k < entries@.len() ==> self.items@.contains_key(
                        #[trigger] entries@[k].0,
                    ) && entries@[k].1 == self.items@[entries@[k].0],
                forall|p: ProductId|
                    items@.contains_key(p) <==> (exists|k: int|
                        0 <= k < i && #[trigger] entries@[k].0 == p && entries@[k].1 > 0
                            && offered(stores@, p) > 0),
                forall|p: ProductId|
                    items@.contains_key(p) ==> items@[p] == capped(
                        self.items@[p],
                        offered(stores@, p),
                    ),
            decreases entries.len() - i,
        {
            let product: ProductId = entries[i].0;
            let wanted: u32 = entries[i].1;
            let on_offer: u64 = total_supply(stores, &ids, product);
            let ghost before = items@;
            if on_offer > 0 && wanted > 0 {
                let quantity: u32 = if on_offer < wanted as u64 {
                    on_offer as u32
                } else {
                    wanted
                };
                items.insert(product, quantity);
            }
            proof {
                assert forall|p: ProductId|
                    items@.contains_key(p) <==> (exists|k: int|
                        0 <= k < i + 1 && #[trigger] entries@[k].0 == p && entries@[k].1 > 0
                            && offered(stores@, p) > 0) by {
                    if items@.contains_key(p) {
                        if before.contains_key(p) {
                            let k = choose|k: int|
                                0 <= k < i && #[trigger] entries@[k].0 == p && entries@[k].1 > 0
                                    && offered(stores@, p) > 0;
                            assert(0 <= k < i + 1);
                        } else {
                            assert(entries@[i as int].0 == p);
                        }
                    }
                    if exists|k: int|
                        0 <= k < i + 1 && #[trigger] entries@[k].0 == p && entries@[k].1 > 0
                            && offered(stores@, p) > 0 {
                        let k = choose|k: int|
                            0 <= k < i + 1 && #[trigger] entries@[k].0 == p && entries@[k].1 > 0
                                && offered(stores@, p) > 0;
                        if k < i {
                            assert(before.contains_key(p));
                        }
                    }
                }
            }
            i += 1;
        }
        proof {
            assert forall|p: ProductId|
                items@.contains_key(p) <==> (self.items@.contains_key(p) && self.items@[p] > 0
                    && offered(stores@, p) > 0) by {
                if self.items@.contains_key(p) && self.items@[p] > 0 && offered(stores@, p) > 0 {
                    let k = choose|k: int|
                        0 <= k < entries@.len() && #[trigger] entries@[k] == (p, self.items@[p]);
                    assert(entries@[k].0 == p);
                }
            }
        }
        ShoppingList { items, priority: self.priority }
    }
}

impl Default for ShoppingList {
    fn default() -> (r: Self)
        ensures
            r.items@ == Map::<ProductId, u32>::empty(),
            r.priority == 0,
    {
        Self::new()
    }
}

} // verus!

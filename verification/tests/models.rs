use personal_shopper::models::{
    Location, Product, RouteCandidate, ShoppingList, ShoppingRoute, Store, TravelMatrix,
};
use personal_shopper::utils::distance::{euclidean_distance, manhattan_distance};
use std::collections::HashMap;

#[test]
fn test_distance() {
    let loc1 = Location::new(0, 0);
    let loc2 = Location::new(3, 4);

    assert_eq!(loc1.distance_to(&loc2), 5);
}

#[test]
fn location_test_manhattan_distance() {
    let loc1 = Location::new(0, 0);
    let loc2 = Location::new(3, 4);

    assert_eq!(loc1.manhattan_distance_to(&loc2), 7);
}

#[test]
fn distance_rounds_down() {
    let origin = Location::new(0, 0);
    assert_eq!(origin.distance_to(&Location::new(1, 1)), 1);
    assert_eq!(origin.distance_to(&Location::new(5000, -2000)), 5385);
    assert_eq!(origin.distance_to(&origin), 0);
}

#[test]
fn distance_between_far_corners() {
    let low = Location::new(i32::MIN, i32::MIN);
    let high = Location::new(i32::MAX, i32::MAX);
    // 4294967295 * sqrt(2), rounded down
    assert_eq!(low.distance_to(&high), 6074000998);
    assert_eq!(high.distance_to(&low), 6074000998);
    assert_eq!(low.manhattan_distance_to(&high), 2 * 4294967295);
}

#[test]
fn test_euclidean_distance() {
    let from = Location::new(0, 0);
    let to = Location::new(3, 4);

    assert_eq!(euclidean_distance(&from, &to), 5);
}

#[test]
fn distance_test_manhattan_distance() {
    let from = Location::new(0, 0);
    let to = Location::new(3, 4);

    assert_eq!(manhattan_distance(&from, &to), 7);
}

#[test]
fn test_product_creation() {
    let product = Product::new("Test Product", 1050);
    assert_eq!(product.name, "Test Product");
    assert_eq!(product.cost, 1050);
}

#[test]
fn test_product_clone() {
    let product = Product::new("Test Product", 1050);
    let cloned = product.clone();
    assert_eq!(cloned.name, product.name);
    assert_eq!(cloned.cost, product.cost);
}

#[test]
fn test_route_candidate_ordering() {
    let route1 = RouteCandidate { stores: vec![1, 2], shopping_time: 10 };
    let route2 = RouteCandidate { stores: vec![1, 3], shopping_time: 15 };

    // In a min-heap, the lesser element comes first
    assert!(route1 > route2);
}

#[test]
fn route_candidates_with_equal_times_are_neither_greater() {
    let route1 = RouteCandidate { stores: vec![1, 2], shopping_time: 10 };
    let route2 = RouteCandidate { stores: vec![4], shopping_time: 10 };
    assert!(!(route1 > route2));
    assert!(!(route1 < route2));
    assert!(route2 < RouteCandidate { stores: vec![], shopping_time: 9 });
}

#[test]
fn shopping_route_domination() {
    let fast = ShoppingRoute::new(vec![1], 10, 30);
    let cheap = ShoppingRoute::new(vec![2], 20, 10);
    let worse = ShoppingRoute::new(vec![3], 20, 30);
    let longer = ShoppingRoute::new(vec![1, 4], 10, 30);
    assert!(!fast.conventionally_dominates(&cheap));
    assert!(!cheap.conventionally_dominates(&fast));
    assert!(fast.conventionally_dominates(&worse));
    assert!(cheap.conventionally_dominates(&worse));
    assert!(fast.conventionally_dominates(&longer));
    assert!(!longer.conventionally_dominates(&fast));
    assert!(!fast.conventionally_dominates(&fast));
    assert!(fast.same_as(&fast.duplicate()));
    assert!(!fast.same_as(&longer));
}

fn create_test_store() -> Store {
    let mut products = HashMap::new();
    products.insert(1, Product::new("Product A", 1000));
    products.insert(2, Product::new("Product B", 2000));

    let mut inventory = HashMap::new();
    inventory.insert(1, 5); // 5 units of Product A
    inventory.insert(2, 3); // 3 units of Product B

    Store::new_with_inventory(1, Location::new(0, 0), products, inventory)
}

#[test]
fn test_has_product() {
    let store = create_test_store();
    assert!(store.has_product(&1));
    assert!(store.has_product(&2));
    assert!(!store.has_product(&3));
}

#[test]
fn test_has_sufficient_quantity() {
    let store = create_test_store();
    assert!(store.has_sufficient_quantity(&1, 5));
    assert!(store.has_sufficient_quantity(&1, 3));
    assert!(!store.has_sufficient_quantity(&1, 6));
    assert!(!store.has_sufficient_quantity(&3, 1));
}

#[test]
fn test_reduce_inventory() {
    let mut store = create_test_store();

    // Valid reduction
    assert!(store.reduce_inventory(&1, 2));
    assert_eq!(store.get_inventory_level(&1), 3);

    // Reduction to zero
    assert!(store.reduce_inventory(&1, 3));
    assert_eq!(store.get_inventory_level(&1), 0);

    // Invalid reduction (insufficient inventory)
    assert!(!store.reduce_inventory(&1, 1));
    assert_eq!(store.get_inventory_level(&1), 0);

    // Invalid product
    assert!(!store.reduce_inventory(&3, 1));
}

#[test]
fn test_restock() {
    let mut store = create_test_store();

    // Reduce first
    store.reduce_inventory(&1, 3);
    assert_eq!(store.get_inventory_level(&1), 2);

    // Restock
    store.restock(&1, 5);
    assert_eq!(store.get_inventory_level(&1), 7);

    // Restock non-existent product (should not change anything)
    store.restock(&3, 10);
    assert_eq!(store.get_inventory_level(&3), 0);
}

#[test]
fn new_store_holds_ten_of_each_product() {
    let mut products = HashMap::new();
    products.insert(7, Product::new("Tea", 250));
    products.insert(9, Product::new("Milk", 120));
    let store = Store::new(4, Location::new(1, 2), products);
    assert_eq!(store.id, 4);
    assert_eq!(store.get_inventory_level(&7), 10);
    assert_eq!(store.get_inventory_level(&9), 10);
    assert_eq!(store.get_inventory_level(&8), 0);
    assert_eq!(store.inventory.len(), 2);
    assert_eq!(store.get_product_cost(&7), Some(250));
    assert_eq!(store.get_product_cost(&8), None);
    let mut ids = store.get_available_product_ids();
    ids.sort();
    assert_eq!(ids, vec![7, 9]);
    assert_eq!(store.available(&7), 10);
    assert_eq!(store.available(&8), 0);
}

#[test]
fn inventory_without_listing_is_not_on_offer() {
    let mut products = HashMap::new();
    products.insert(1, Product::new("Listed", 100));
    let mut inventory = HashMap::new();
    inventory.insert(1, 4);
    inventory.insert(2, 9);
    let store = Store::new_with_inventory(1, Location::new(0, 0), products, inventory);
    assert_eq!(store.get_inventory_level(&2), 9);
    assert_eq!(store.available(&2), 0);
    assert_eq!(store.available(&1), 4);
}

fn create_test_stores() -> HashMap<u32, Store> {
    let mut stores = HashMap::new();

    // Store 1 with some inventory
    let mut products1 = HashMap::new();
    products1.insert(1, Product::new("Apple", 199));
    products1.insert(2, Product::new("Banana", 99));

    let mut inventory1 = HashMap::new();
    inventory1.insert(1, 5); // 5 units of Product 1
    inventory1.insert(2, 8); // 8 units of Product 2

    stores.insert(1, Store::new_with_inventory(1, Location::new(0, 0), products1, inventory1));

    // Store 2 with different inventory
    let mut products2 = HashMap::new();
    products2.insert(2, Product::new("Banana", 129));
    products2.insert(3, Product::new("Orange", 249));

    let mut inventory2 = HashMap::new();
    inventory2.insert(2, 3); // 3 units of Product 2
    inventory2.insert(3, 6); // 6 units of Product 3

    stores.insert(2, Store::new_with_inventory(2, Location::new(10, 10), products2, inventory2));

    stores
}

#[test]
fn test_can_be_fulfilled_by() {
    let stores = create_test_stores();

    // List with products that can be fulfilled
    let mut list1 = ShoppingList::new();
    list1.add_item(1, 3); // 3 apples (5 available in store 1)
    list1.add_item(2, 10); // 10 bananas (8 + 3 = 11 available across stores)
    assert!(list1.can_be_fulfilled_by(&stores));

    // List with product that can't be fulfilled due to insufficient inventory
    let mut list2 = ShoppingList::new();
    list2.add_item(1, 10); // 10 apples (only 5 available)
    assert!(!list2.can_be_fulfilled_by(&stores));

    // List with unavailable product
    let mut list3 = ShoppingList::new();
    list3.add_item(4, 1); // Product 4 is not available in any store
    assert!(!list3.can_be_fulfilled_by(&stores));
}

#[test]
fn test_find_relevant_stores() {
    let stores = create_test_stores();

    // List requiring products from both stores
    let mut list1 = ShoppingList::new();
    list1.add_item(1, 1);
    list1.add_item(3, 1);
    let relevant_stores = list1.find_relevant_stores(&stores);
    assert_eq!(relevant_stores.len(), 2);

    // List requiring products only from store 1
    let mut list2 = ShoppingList::new();
    list2.add_item(1, 1);
    let relevant_stores = list2.find_relevant_stores(&stores);
    assert_eq!(relevant_stores.len(), 1);
    assert_eq!(relevant_stores[0].id, 1);
}

#[test]
fn relevant_stores_come_by_ascending_id() {
    let stores = create_test_stores();
    let mut list = ShoppingList::new();
    list.add_item(2, 1);
    let relevant = list.find_relevant_stores(&stores);
    assert_eq!(relevant.len(), 2);
    assert_eq!(relevant[0].id, 1);
    assert_eq!(relevant[1].id, 2);
}

#[test]
fn test_create_fulfillable_list() {
    let stores = create_test_stores();

    // List with more quantity than available
    let mut list = ShoppingList::new();
    list.add_item(1, 10); // 10 apples (only 5 available)
    list.add_item(2, 5); // 5 bananas (11 available)
    list.add_item(4, 2); // 2 units of product 4 (not available)

    let fulfillable = list.create_fulfillable_list(&stores);

    assert_eq!(fulfillable.items.len(), 2);
    assert_eq!(fulfillable.items.get(&1), Some(&5)); // Reduced to available quantity
    assert_eq!(fulfillable.items.get(&2), Some(&5)); // Unchanged
    assert!(!fulfillable.items.contains_key(&4)); // Removed completely
}

#[test]
fn shopping_list_items_and_counts() {
    let mut list = ShoppingList::new_with_priority(3);
    assert_eq!(list.get_priority(), 3);
    assert_eq!(list.unique_product_count(), 0);
    assert_eq!(list.total_item_count(), 0);
    list.add_item(5, 2);
    list.add_item(5, 3);
    list.add_item(9, 0);
    list.add_item(2, 4);
    assert_eq!(list.unique_product_count(), 2);
    assert_eq!(list.total_item_count(), 9);
    assert_eq!(list.items.get(&5), Some(&5));
    assert!(!list.items.contains_key(&9));
    assert_eq!(list.sorted_items(), vec![(2, 4), (5, 5)]);
    list.update_quantity(2, 1);
    assert_eq!(list.total_item_count(), 6);
    list.update_quantity(5, 0);
    assert_eq!(list.sorted_items(), vec![(2, 1)]);
    list.remove_item(&2);
    list.remove_item(&2);
    assert_eq!(list.unique_product_count(), 0);
    list.set_priority(8);
    assert_eq!(list.get_priority(), 8);
    let fresh = ShoppingList::default();
    assert_eq!(fresh.get_priority(), 0);
    assert_eq!(fresh.unique_product_count(), 0);
}

#[test]
fn travel_matrix_keeps_each_direction_apart() {
    let mut matrix = TravelMatrix::new();
    assert_eq!(matrix.len(), 0);
    assert_eq!(matrix.get(1, 2), None);
    matrix.insert(1, 2, 40);
    matrix.insert(2, 1, 55);
    matrix.insert(u32::MAX, 0, 7);
    assert_eq!(matrix.get(1, 2), Some(40));
    assert_eq!(matrix.get(2, 1), Some(55));
    assert_eq!(matrix.get(u32::MAX, 0), Some(7));
    assert_eq!(matrix.get(0, u32::MAX), None);
    matrix.insert(1, 2, 41);
    assert_eq!(matrix.get(1, 2), Some(41));
    assert_eq!(matrix.len(), 3);
}

use personal_shopper::algorithms::bsl_psd::expand::{all_distinct, unique_stores};
use personal_shopper::algorithms::bsl_psd::search::Expansion;
use personal_shopper::algorithms::bsl_psd::{sort_remaining_items, BSLPSD};
use personal_shopper::algorithms::PSDSolver;
use personal_shopper::models::{
    Location, Product, RouteCandidate, ShoppingList, ShoppingRoute, Store, TravelMatrix,
};
use personal_shopper::utils::ordered::{contains_id, sorted_entries, sorted_keys};
use std::collections::HashMap;

fn store(id: u32, x: i32, y: i32, offers: &[(u32, u64, u32)]) -> Store {
    let mut products = HashMap::new();
    let mut inventory = HashMap::new();
    for &(product, price, stock) in offers {
        products.insert(product, Product::new("item", price));
        inventory.insert(product, stock);
    }
    Store::new_with_inventory(id, Location::new(x, y), products, inventory)
}

/// A planner over the given stores with the straight-line distance between
/// every two of them as travel time.
fn planner(stores: Vec<Store>) -> BSLPSD {
    let mut matrix = TravelMatrix::new();
    for a in &stores {
        for b in &stores {
            if a.id != b.id {
                matrix.insert(a.id, b.id, a.location.distance_to(&b.location));
            }
        }
    }
    let mut by_id = HashMap::new();
    for s in stores {
        by_id.insert(s.id, s);
    }
    let mut planner = BSLPSD::new_with_travel_times(by_id, matrix);
    planner.precompute_data();
    planner
}

fn list(items: &[(u32, u32)]) -> ShoppingList {
    let mut list = ShoppingList::new();
    for &(product, quantity) in items {
        list.add_item(product, quantity);
    }
    list
}

fn triples(routes: &[ShoppingRoute]) -> Vec<(Vec<u32>, u64, u128)> {
    routes.iter().map(|r| (r.stores.clone(), r.shopping_time, r.shopping_cost)).collect()
}

#[test]
fn no_stores_and_nothing_wanted() {
    let p = planner(vec![]);
    let routes = p.solve_skyline(&list(&[]), Location::new(0, 0), Location::new(3, 4), 100);
    assert_eq!(triples(&routes), vec![(vec![], 5, 0)]);
    let routes = p.solve_with_debug(&list(&[]), Location::new(0, 0), Location::new(3, 4), 100);
    assert_eq!(triples(&routes), vec![(vec![], 5, 0)]);
}

#[test]
fn empty_list_with_stores_gives_the_direct_route() {
    let p = planner(vec![store(1, 1, 0, &[(1, 2, 10)]), store(2, 5, 5, &[(1, 1, 10)])]);
    let routes = p.solve_skyline(&list(&[]), Location::new(0, 0), Location::new(6, 8), 100);
    assert_eq!(triples(&routes), vec![(vec![], 10, 0)]);
}

#[test]
fn single_store_suffices() {
    let p = planner(vec![store(1, 1, 0, &[(1, 2, 10)])]);
    let routes = p.solve_skyline(&list(&[(1, 3)]), Location::new(0, 0), Location::new(2, 0), 100);
    assert_eq!(triples(&routes), vec![(vec![1], 2, 6)]);
}

#[test]
fn split_forced_by_inventory() {
    let p = planner(vec![store(1, 0, 1, &[(1, 1, 2)]), store(2, 0, 2, &[(1, 5, 10)])]);
    let routes = p.solve_skyline(&list(&[(1, 3)]), Location::new(0, 0), Location::new(0, 3), 100);
    assert_eq!(triples(&routes), vec![(vec![1, 2], 3, 7)]);
}

#[test]
fn time_cost_trade_off() {
    let p = planner(
        vec![store(1, 0, 1000, &[(1, 10, 5)]), store(2, 5000, 0, &[(1, 1, 5)])],
    );
    let routes = p.solve_skyline(
        &list(&[(1, 3)]),
        Location::new(0, 0),
        Location::new(0, 2000),
        100,
    );
    assert_eq!(triples(&routes), vec![(vec![1], 2000, 30), (vec![2], 10385, 3)]);
}

#[test]
fn more_wanted_than_on_all_shelves() {
    let p = planner(vec![store(1, 0, 1, &[(1, 1, 4)]), store(2, 0, 2, &[(1, 5, 6)])]);
    let wanted = list(&[(1, 100)]);
    assert!(p.solve_skyline(&wanted, Location::new(0, 0), Location::new(0, 3), 100).is_empty());
    assert!(p.solve_with_debug(&wanted, Location::new(0, 0), Location::new(0, 3), 100).is_empty());
    assert!(p.solve(&wanted, Location::new(0, 0), Location::new(0, 3)).is_empty());
    assert_eq!(p.find_min_cost_route(&wanted, Location::new(0, 0), Location::new(0, 3)), None);
    assert!(
        p.find_min_time_route_dijkstra(&wanted, Location::new(0, 0), Location::new(0, 3)).is_none()
    );
}

#[test]
fn search_ends_at_the_lower_bound() {
    let p = planner(vec![store(1, 0, 1, &[(1, 1, 2)]), store(2, 0, 2, &[(1, 5, 10)])]);
    let wanted = list(&[(1, 3)]);
    let bound = p.find_min_cost_route(&wanted, Location::new(0, 0), Location::new(0, 3));
    assert_eq!(bound, Some(7));
    // a threshold of a million is never reached: the search ends at the lower bound
    let routes = p.solve_skyline(&wanted, Location::new(0, 0), Location::new(0, 3), 1_000_000);
    assert!(routes.iter().any(|r| r.shopping_cost == 7));
    assert_eq!(triples(&routes), vec![(vec![1, 2], 3, 7)]);
}

#[test]
fn one_worker_alone_keeps_the_route_it_began_with() {
    let p = planner(vec![store(1, 0, 1, &[(1, 1, 2)]), store(2, 0, 2, &[(1, 5, 10)])]);
    let routes =
        p.solve_with_debug(&list(&[(1, 3)]), Location::new(0, 0), Location::new(0, 3), 100);
    assert_eq!(triples(&routes), vec![(vec![2], 3, 15), (vec![2, 1], 5, 7)]);
    let routes = p.solve(&list(&[(1, 3)]), Location::new(0, 0), Location::new(0, 3));
    assert_eq!(triples(&routes), vec![(vec![2], 3, 15), (vec![2, 1], 5, 7)]);
}

#[test]
fn cheapest_store_with_all_the_stock_nearby_is_the_only_route() {
    let p = planner(
        vec![
            store(1, 1, 0, &[(1, 2, 10)]),
            store(2, 3, 0, &[(1, 3, 10)]),
            store(3, 0, 4, &[(1, 9, 10)]),
        ],
    );
    let routes = p.solve_skyline(&list(&[(1, 5)]), Location::new(0, 0), Location::new(2, 0), 100);
    assert_eq!(triples(&routes), vec![(vec![1], 2, 10)]);
}

fn three_stores() -> BSLPSD {
    planner(
        vec![
            store(1, 0, 10, &[(1, 5, 2), (2, 7, 1)]),
            store(2, 10, 0, &[(1, 3, 1), (2, 9, 4)]),
            store(3, 10, 10, &[(1, 4, 5), (3, 1, 1)]),
        ],
    )
}

#[test]
fn skyline_is_sound_on_three_stores() {
    let p = three_stores();
    let wanted = list(&[(1, 4), (2, 2)]);
    let shopper = Location::new(0, 0);
    let customer = Location::new(20, 20);
    let bound = p.find_min_cost_route(&wanted, shopper, customer).unwrap();
    // product 1: 1 at 3, 3 at 4; product 2: 1 at 7, 1 at 9
    assert_eq!(bound, 3 + 12 + 7 + 9);
    let routes = p.solve_skyline(&wanted, shopper, customer, 50);
    assert!(!routes.is_empty());
    for (i, a) in routes.iter().enumerate() {
        for (j, b) in routes.iter().enumerate() {
            if i != j {
                assert!(!a.conventionally_dominates(b));
                assert!(!a.same_as(b));
            }
            if i < j {
                assert!(a.shopping_time <= b.shopping_time);
                if a.shopping_time == b.shopping_time {
                    assert!(a.shopping_cost <= b.shopping_cost);
                }
            }
        }
        assert!(p.satisfies_list(&a.stores, &wanted));
        assert_eq!(p.calculate_shopping_cost(&a.stores, &wanted), Some(a.shopping_cost));
        assert_eq!(p.calculate_shopping_time(&a.stores, shopper, customer), Some(a.shopping_time));
        assert!(a.shopping_cost >= bound);
    }
    let first = p.find_min_time_route_dijkstra(&wanted, shopper, customer).unwrap();
    assert!(routes[0].shopping_time <= first.shopping_time);
}

#[test]
fn solving_twice_gives_the_same_skyline() {
    let p = three_stores();
    let wanted = list(&[(1, 4), (2, 2)]);
    let shopper = Location::new(0, 0);
    let customer = Location::new(20, 20);
    let once = p.solve_skyline(&wanted, shopper, customer, 50);
    let again = p.solve_skyline(&wanted, shopper, customer, 50);
    assert_eq!(triples(&once), triples(&again));
    let once = p.solve_with_debug(&wanted, shopper, customer, 50);
    let again = p.solve_with_debug(&wanted, shopper, customer, 50);
    assert_eq!(triples(&once), triples(&again));
}

#[test]
fn cost_does_not_depend_on_the_order_of_the_stores() {
    let p = three_stores();
    let wanted = list(&[(1, 4), (2, 2)]);
    let cost = p.calculate_shopping_cost(&[1, 2, 3], &wanted);
    assert_eq!(cost, Some(31));
    for order in [[1, 3, 2], [2, 1, 3], [2, 3, 1], [3, 1, 2], [3, 2, 1]] {
        assert_eq!(p.calculate_shopping_cost(&order, &wanted), cost);
    }
    // a store counts once, however often the route visits it
    assert_eq!(p.calculate_shopping_cost(&[1, 2, 3, 1, 2], &wanted), cost);
}

#[test]
fn cost_of_a_route_takes_the_cheapest_units_first() {
    let p = three_stores();
    // product 1 along stores 1 and 2: 1 at 3 from store 2, then 2 at 5 from store 1
    assert_eq!(p.calculate_shopping_cost(&[1, 2], &list(&[(1, 3)])), Some(13));
    assert_eq!(p.route_cost(&[1, 2], &list(&[(1, 3)])), Some(13));
    // only three units of product 1 in stores 1 and 2
    assert_eq!(p.calculate_shopping_cost(&[1, 2], &list(&[(1, 4)])), None);
    assert!(!p.satisfies_list_with_inventory(&[1, 2], &list(&[(1, 4)])));
    assert!(p.satisfies_list_with_inventory(&[1, 2], &list(&[(1, 3)])));
    // a store that the planner does not know counts for nothing
    assert_eq!(p.calculate_shopping_cost(&[1, 2, 77], &list(&[(1, 4)])), None);
    assert_eq!(p.calculate_shopping_cost(&[], &list(&[])), Some(0));
    assert_eq!(p.calculate_shopping_cost(&[], &list(&[(1, 1)])), None);
    assert_eq!(p.supply_for(1, &[1, 3], false), 7);
    assert_eq!(p.supply_for(1, &[], true), 8);
}

#[test]
fn equal_prices_are_taken_by_store_id() {
    let p = planner(vec![store(2, 0, 0, &[(1, 5, 1)]), store(1, 1, 1, &[(1, 5, 1)])]);
    let offers = p.offers_for(1, &[], true);
    assert_eq!(offers.len(), 2);
    assert_eq!((offers[0].store, offers[1].store), (1, 2));
    assert_eq!(p.indexed_offers(1).len(), 2);
    assert_eq!(p.product_to_stores.get(&1), Some(&vec![(1, 5), (2, 5)]));
    assert_eq!(p.calculate_shopping_cost(&[1, 2], &list(&[(1, 2)])), Some(10));
}

#[test]
fn inverted_index_leaves_out_empty_shelves() {
    let p = planner(
        vec![
            store(1, 0, 0, &[(1, 5, 0), (2, 8, 3)]),
            store(2, 1, 1, &[(1, 4, 2), (2, 6, 1)]),
            store(3, 2, 2, &[(1, 3, 9)]),
        ],
    );
    assert_eq!(p.product_to_stores.get(&1), Some(&vec![(3, 3), (2, 4)]));
    assert_eq!(p.product_to_stores.get(&2), Some(&vec![(2, 6), (1, 8)]));
    assert_eq!(p.product_to_stores.len(), 2);
    assert_eq!(p.store_ids, vec![1, 2, 3]);
    let snapshot = p.snapshot_inventory();
    assert_eq!(snapshot.len(), 3);
    assert_eq!(snapshot[&1].get(&1), Some(&0));
    assert_eq!(snapshot[&3].get(&1), Some(&9));
}

#[test]
fn travel_times_are_verified_pair_by_pair() {
    let p = three_stores();
    assert!(p.verify_travel_times());
    let mut stores = HashMap::new();
    stores.insert(1, store(1, 0, 0, &[]));
    stores.insert(2, store(2, 1, 1, &[]));
    let mut matrix = TravelMatrix::new();
    matrix.insert(1, 2, 3);
    let one_way = BSLPSD::new_with_travel_times(stores, matrix);
    assert!(!one_way.verify_travel_times());
    assert!(BSLPSD::new(HashMap::new()).verify_travel_times());
}

#[test]
fn shopping_time_adds_the_legs() {
    let p = three_stores();
    let shopper = Location::new(0, 0);
    let customer = Location::new(20, 20);
    // 10 + 14 + 10 + 14
    assert_eq!(p.calculate_shopping_time(&[1, 2, 3], shopper, customer), Some(48));
    assert_eq!(p.calculate_total_time(&[1, 2, 3], &shopper, &customer), Some(48));
    assert_eq!(p.calculate_shopping_time(&[], shopper, customer), Some(28));
    assert_eq!(p.calculate_shopping_time(&[3], shopper, customer), Some(28));
    // no leg from a store to itself, and none to an unknown store
    assert_eq!(p.calculate_shopping_time(&[1, 1], shopper, customer), None);
    assert_eq!(p.calculate_shopping_time(&[1, 9], shopper, customer), None);
    assert_eq!(p.calculate_shopping_time(&[9], shopper, customer), None);
}

#[test]
fn a_time_that_is_too_large_counts_as_no_time() {
    let mut stores = HashMap::new();
    stores.insert(1, store(1, 3, 4, &[(1, 1, 1)]));
    stores.insert(2, store(2, 0, 0, &[(1, 1, 1)]));
    let mut matrix = TravelMatrix::new();
    matrix.insert(1, 2, u64::MAX - 5);
    matrix.insert(2, 1, u64::MAX);
    let p = BSLPSD::new_with_travel_times(stores, matrix);
    let here = Location::new(0, 0);
    assert_eq!(p.calculate_total_time(&[1, 2], &here, &here), Some(u64::MAX));
    assert_eq!(p.calculate_total_time(&[2, 1], &here, &here), None);
}

#[test]
fn nearest_stores_and_next_nearest() {
    let p = three_stores();
    let shopper = Location::new(0, 0);
    // from store 1: store 3 at 10, store 2 at 14
    assert_eq!(p.find_min_detour_store(Some(1), &[1], &shopper), Some(3));
    assert_eq!(p.find_min_detour_store(Some(1), &[1, 3], &shopper), Some(2));
    assert_eq!(p.find_min_detour_store(Some(1), &[1, 2, 3], &shopper), None);
    assert_eq!(p.find_next_min_detour_store(Some(1), &[1, 3], 3, &shopper), Some(2));
    assert_eq!(p.find_next_min_detour_store(Some(1), &[1, 2], 2, &shopper), None);
    // from the shopper: stores 1 and 2 at 10, store 3 at 14; the first of equals wins
    assert_eq!(p.find_min_detour_store(None, &[], &shopper), Some(1));
    assert_eq!(p.find_next_min_detour_store(None, &[1], 1, &shopper), Some(3));
    assert_eq!(p.find_next_min_detour_store(None, &[3], 3, &shopper), None);
}

#[test]
fn successors_append_and_swap() {
    let p = three_stores();
    let shopper = Location::new(0, 0);
    let customer = Location::new(20, 20);
    let route = RouteCandidate { stores: vec![1], shopping_time: 32 };
    let next = p.generate_next_routes(&route, &shopper, &customer);
    let found: Vec<(Vec<u32>, u64)> =
        next.iter().map(|c| (c.stores.clone(), c.shopping_time)).collect();
    // append store 3 (nearest to store 1); swap store 1 for store 3 (next from the shopper)
    assert_eq!(found, vec![(vec![1, 3], 34), (vec![3], 28)]);
    let empty = RouteCandidate { stores: vec![], shopping_time: 28 };
    let next = p.generate_next_routes(&empty, &shopper, &customer);
    assert_eq!(next.len(), 1);
    assert_eq!(next[0].stores, vec![1]);
    assert_eq!(next[0].shopping_time, 10 + 22);
    let twice = RouteCandidate { stores: vec![1, 1], shopping_time: 0 };
    assert!(p.generate_next_routes(&twice, &shopper, &customer).is_empty());
}

#[test]
fn successors_in_their_fastest_order() {
    let p = three_stores();
    let shopper = Location::new(0, 0);
    let customer = Location::new(20, 20);
    let route = RouteCandidate { stores: vec![3, 1], shopping_time: 0 };
    let next = p.generate_next_routes_shuffle(&route, &shopper, &customer);
    let found: Vec<(Vec<u32>, u64)> =
        next.iter().map(|c| (c.stores.clone(), c.shopping_time)).collect();
    // append store 2: fastest order of {3, 1, 2} is 1, 2, 3 (48; first of the equally fast)
    // swap store 1 for store 2 (next after 10 from store 3 is none): nothing
    assert_eq!(found, vec![(vec![1, 2, 3], 48)]);
    let twice = RouteCandidate { stores: vec![3, 1, 3], shopping_time: 0 };
    let next = p.generate_next_routes_shuffle(&twice, &shopper, &customer);
    assert_eq!(next.len(), 1);
    assert_eq!(next[0].stores, vec![1, 3]);
    assert_eq!(next[0].shopping_time, 10 + 10 + 14);
    assert_eq!(
        p.find_shortest_path(&[3, 1, 3], &shopper, &customer),
        Some((vec![1, 3], 34))
    );
    assert_eq!(p.find_shortest_path(&[], &shopper, &customer), Some((vec![], 28)));
    assert_eq!(p.find_shortest_path(&[9], &shopper, &customer), None);
}

#[test]
fn permutations_come_store_by_store() {
    let p = BSLPSD::new(HashMap::new());
    assert_eq!(p.generate_permutations(vec![]), vec![Vec::<u32>::new()]);
    assert_eq!(p.generate_permutations(vec![4]), vec![vec![4]]);
    assert_eq!(
        p.generate_permutations(vec![1, 2, 3]),
        vec![
            vec![1, 2, 3],
            vec![1, 3, 2],
            vec![2, 1, 3],
            vec![2, 3, 1],
            vec![3, 1, 2],
            vec![3, 2, 1]
        ]
    );
    assert_eq!(p.generate_permutations(vec![1, 2, 3, 4]).len(), 24);
    assert!(all_distinct(&[1, 2, 3]));
    assert!(!all_distinct(&[1, 2, 1]));
    assert_eq!(unique_stores(&[3, 1, 3, 2, 1]), vec![3, 1, 2]);
}

#[test]
fn fastest_way_to_shop_buys_at_each_store() {
    let p = three_stores();
    let shopper = Location::new(0, 0);
    let customer = Location::new(20, 20);
    let wanted = list(&[(1, 4), (2, 2)]);
    let first = p.find_min_time_route_dijkstra(&wanted, shopper, customer).unwrap();
    assert_eq!(
        p.calculate_shopping_time(&first.stores, shopper, customer),
        Some(first.shopping_time)
    );
    assert!(p.satisfies_list(&first.stores, &wanted));
    // store 2 has both units of product 2 and one of product 1, store 3 the rest
    assert_eq!(first.stores, vec![2, 3]);
    assert_eq!(first.shopping_time, 10 + 10 + 14);
    let nothing = p.find_min_time_route_dijkstra(&list(&[]), shopper, customer).unwrap();
    assert!(nothing.stores.is_empty());
    assert_eq!(nothing.shopping_time, 28);
}

#[test]
fn no_route_where_a_leg_is_missing() {
    let mut stores = HashMap::new();
    stores.insert(1, store(1, 0, 1, &[(1, 1, 2)]));
    stores.insert(2, store(2, 0, 2, &[(1, 5, 2)]));
    let mut p = BSLPSD::new(stores);
    p.precompute_data();
    let wanted = list(&[(1, 3)]);
    let here = Location::new(0, 0);
    assert_eq!(p.find_min_cost_route(&wanted, here, here), Some(7));
    assert!(p.find_min_time_route_dijkstra(&wanted, here, here).is_none());
    assert!(p.solve_skyline(&wanted, here, here, 10).is_empty());
}

#[test]
fn worker_takes_the_fastest_candidate_first() {
    let p = three_stores();
    let shopper = Location::new(0, 0);
    let customer = Location::new(20, 20);
    let wanted = list(&[(3, 1)]);
    let first = RouteCandidate { stores: vec![1], shopping_time: 32 };
    let mut worker = Expansion::new(&first, false);
    assert!(!worker.is_idle());
    // store 1 does not sell product 3: nothing is handed on
    assert!(p.step(&mut worker, &wanted, &shopper, &customer).is_none());
    assert_eq!(worker.queue.len(), 2);
    assert_eq!(worker.visited.len(), 3);
    // the faster of the two successors, store 3 alone, sells it
    let route = p.step(&mut worker, &wanted, &shopper, &customer).unwrap();
    assert_eq!((route.stores.clone(), route.shopping_time, route.shopping_cost), (vec![3], 28, 1));
    let mut idle = Expansion::idle(true);
    assert!(idle.is_idle());
    assert!(p.step(&mut idle, &wanted, &shopper, &customer).is_none());
}

#[test]
fn remaining_items_are_sorted_by_product() {
    assert_eq!(
        sort_remaining_items(vec![(3, 1), (1, 5), (2, 0), (1, 7)]),
        vec![(1, 5), (1, 7), (2, 0), (3, 1)]
    );
    assert_eq!(sort_remaining_items(vec![]), vec![]);
    let mut map = HashMap::new();
    map.insert(9u32, 1u32);
    map.insert(3, 2);
    map.insert(u32::MAX, 3);
    map.insert(0, 4);
    assert_eq!(sorted_keys(&map), vec![0, 3, 9, u32::MAX]);
    assert_eq!(sorted_entries(&map), vec![(0, 4), (3, 2), (9, 1), (u32::MAX, 3)]);
    assert!(contains_id(&[1, 2, 3], 2));
    assert!(!contains_id(&[1, 2, 3], 4));
}

#[test]
fn search_that_ends_by_stagnation_may_miss_the_cheapest_route() {
    let p = planner(
        vec![store(1, 0, 1000, &[(1, 10, 5)]), store(2, 5000, 0, &[(1, 1, 5)])],
    );
    let wanted = list(&[(1, 3)]);
    let shopper = Location::new(0, 0);
    let customer = Location::new(0, 2000);
    // the second worker hands on the first route again: one route turned away ends the search
    let routes = p.solve_skyline(&wanted, shopper, customer, 1);
    assert_eq!(triples(&routes), vec![(vec![1], 2000, 30)]);
    assert_eq!(p.find_min_cost_route(&wanted, shopper, customer), Some(3));
}

#[test]
fn fastest_way_may_come_back_to_a_store_and_is_no_route_then() {
    // store 1 has two units of product 1, store 2 the one unit of product 2,
    // store 3, far away, plenty of product 1
    let p = planner(
        vec![
            store(1, 0, 10, &[(1, 5, 2)]),
            store(2, 0, 20, &[(2, 5, 1)]),
            store(3, 1000, 0, &[(1, 5, 10)]),
        ],
    );
    let wanted = list(&[(1, 4), (2, 1)]);
    let shopper = Location::new(0, 0);
    let customer = Location::new(0, 0);
    let first = p.find_min_time_route_dijkstra(&wanted, shopper, customer).unwrap();
    assert_eq!(first.stores, vec![1, 2, 1]);
    assert_eq!(first.shopping_time, 10 + 10 + 10 + 10);
    // the shelves of stores 1 and 2 hold two units of product 1, not four
    assert!(!p.satisfies_list(&first.stores, &wanted));
    let routes = p.solve_skyline(&wanted, shopper, customer, 100);
    assert!(!routes.is_empty());
    for route in &routes {
        assert!(route.stores.contains(&3));
        assert!(route.shopping_time > first.shopping_time);
        assert!(p.satisfies_list(&route.stores, &wanted));
    }
}

#[test]
fn fastest_way_is_no_slower_than_any_way_tried_by_hand() {
    let p = three_stores();
    let shopper = Location::new(0, 0);
    let customer = Location::new(20, 20);
    let wanted = list(&[(1, 6), (2, 3)]);
    let first = p.find_min_time_route_dijkstra(&wanted, shopper, customer).unwrap();
    for order in p.generate_permutations(vec![1, 2, 3]) {
        for len in 1..=order.len() {
            let way = &order[..len];
            if p.satisfies_list(way, &wanted) {
                let time = p.calculate_shopping_time(way, shopper, customer).unwrap();
                assert!(first.shopping_time <= time);
            }
        }
    }
    assert_eq!(first.stores, vec![2, 3]);
    assert_eq!(first.shopping_time, 34);
}

#[test]
fn precompute_takes_in_the_stores_as_they_are() {
    let mut p = planner(vec![store(1, 0, 1, &[(1, 4, 1)])]);
    let wanted = list(&[(1, 2)]);
    let here = Location::new(0, 0);
    assert_eq!(p.find_min_cost_route(&wanted, here, here), None);
    p.stores.insert(5, store(5, 0, 2, &[(1, 3, 1)]));
    p.travel_times.insert(1, 5, 1);
    p.travel_times.insert(5, 1, 1);
    p.precompute_data();
    assert_eq!(p.store_ids, vec![1, 5]);
    assert_eq!(p.find_min_cost_route(&wanted, here, here), Some(7));
    let routes = p.solve_skyline(&wanted, here, here, 10);
    assert_eq!(triples(&routes), vec![(vec![1, 5], 4, 7)]);
}

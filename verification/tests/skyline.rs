use personal_shopper::algorithms::bsl_psd::monitor::{offer, sort_routes};
use personal_shopper::algorithms::bsl_psd::search::Aggregator;
use personal_shopper::algorithms::bsl_psd::BSLPSD;
use personal_shopper::models::ShoppingRoute;
use personal_shopper::utils::skyline::{
    insert_into_skyline, is_conventionally_dominated, is_linearly_dominated,
};
use std::collections::HashMap;

#[test]
fn test_conventional_domination() {
    // Point A: (10, 20)
    // Point B: (8, 15)  - B dominates A
    // Point C: (12, 18) - C doesn't dominate A
    // Point D: (10, 18) - D dominates A
    assert!(is_conventionally_dominated(10, 20, 8, 15));
    assert!(!is_conventionally_dominated(10, 20, 12, 18));
    assert!(is_conventionally_dominated(10, 20, 10, 18));
}

#[test]
fn a_point_does_not_dominate_itself() {
    assert!(!is_conventionally_dominated(10, 20, 10, 20));
    assert!(is_conventionally_dominated(10, 20, 9, 20));
    assert!(!is_conventionally_dominated(10, 20, 9, 21));
}

#[test]
fn test_skyline_insertion() {
    let mut skyline = Vec::new();

    // Add first route: (10, 30)
    let route1 = ShoppingRoute { stores: vec![1, 2], shopping_time: 10, shopping_cost: 30 };

    assert!(insert_into_skyline(&mut skyline, route1));
    assert_eq!(skyline.len(), 1);

    // Add dominated route: (12, 35) - should be rejected
    let route2 = ShoppingRoute { stores: vec![1, 3], shopping_time: 12, shopping_cost: 35 };

    assert!(!insert_into_skyline(&mut skyline, route2));
    assert_eq!(skyline.len(), 1);

    // Add non-dominated route: (15, 25)
    let route3 = ShoppingRoute { stores: vec![2, 3], shopping_time: 15, shopping_cost: 25 };

    assert!(insert_into_skyline(&mut skyline, route3));
    assert_eq!(skyline.len(), 2);

    // Check skyline order (by shopping time)
    assert_eq!(skyline[0].shopping_time, 10);
    assert_eq!(skyline[1].shopping_time, 15);
}

#[test]
fn a_route_above_the_line_between_its_neighbours_is_kept_out() {
    let mut skyline = Vec::new();
    assert!(insert_into_skyline(&mut skyline, ShoppingRoute::new(vec![1], 10, 30)));
    assert!(insert_into_skyline(&mut skyline, ShoppingRoute::new(vec![2], 20, 10)));
    // on the line at time 15 the cost is 20
    let above = ShoppingRoute::new(vec![3], 15, 21);
    let on = ShoppingRoute::new(vec![4], 15, 20);
    assert!(is_linearly_dominated(&above, &skyline));
    assert!(!is_linearly_dominated(&on, &skyline));
    assert!(!insert_into_skyline(&mut skyline, above));
    assert!(insert_into_skyline(&mut skyline, on));
    assert_eq!(skyline.len(), 3);
    assert_eq!(skyline[1].stores, vec![4]);
}

#[test]
fn a_new_route_takes_out_what_it_dominates() {
    let mut skyline = Vec::new();
    assert!(insert_into_skyline(&mut skyline, ShoppingRoute::new(vec![1], 10, 30)));
    assert!(insert_into_skyline(&mut skyline, ShoppingRoute::new(vec![2], 20, 10)));
    assert!(insert_into_skyline(&mut skyline, ShoppingRoute::new(vec![3], 5, 10)));
    assert_eq!(skyline.len(), 1);
    assert_eq!(skyline[0].stores, vec![3]);
    assert!(!is_linearly_dominated(&ShoppingRoute::new(vec![9], 1, 1), &[]));
}

#[test]
fn update_skyline_turns_away_and_evicts() {
    let planner = BSLPSD::new(HashMap::new());
    let mut skyline = Vec::new();
    assert!(planner.update_skyline(&mut skyline, ShoppingRoute::new(vec![1], 10, 30)));
    assert!(planner.update_skyline(&mut skyline, ShoppingRoute::new(vec![2], 20, 20)));
    // dominated
    assert!(!planner.update_skyline(&mut skyline, ShoppingRoute::new(vec![3], 20, 25)));
    // the same route again
    assert!(!planner.update_skyline(&mut skyline, ShoppingRoute::new(vec![1], 10, 30)));
    // equal in time and cost but longer
    assert!(!planner.update_skyline(&mut skyline, ShoppingRoute::new(vec![1, 5], 10, 30)));
    // equal in time and cost and as long: neither dominates
    assert!(planner.update_skyline(&mut skyline, ShoppingRoute::new(vec![7], 10, 30)));
    assert_eq!(skyline.len(), 3);
    // dominates all
    assert!(planner.update_skyline(&mut skyline, ShoppingRoute::new(vec![4], 10, 20)));
    assert_eq!(skyline.len(), 1);
    assert_eq!(skyline[0].stores, vec![4]);
    // equal in time and cost but shorter evicts
    assert!(offer(&mut skyline, ShoppingRoute::new(vec![], 10, 20)));
    assert_eq!(skyline.len(), 1);
    assert_eq!(skyline[0].stores, Vec::<u32>::new());
}

#[test]
fn routes_are_ordered_by_time_then_cost_then_length() {
    let routes = vec![
        ShoppingRoute::new(vec![1, 2], 10, 30),
        ShoppingRoute::new(vec![3], 5, 40),
        ShoppingRoute::new(vec![4], 10, 20),
        ShoppingRoute::new(vec![5], 10, 30),
        ShoppingRoute::new(vec![6], 10, 30),
    ];
    let sorted = sort_routes(routes);
    let order: Vec<Vec<u32>> = sorted.iter().map(|r| r.stores.clone()).collect();
    assert_eq!(order, vec![vec![3], vec![4], vec![5], vec![6], vec![1, 2]]);
    assert!(sort_routes(Vec::new()).is_empty());
}

#[test]
fn aggregator_counts_stagnation_and_ends_at_the_lower_bound() {
    let mut monitor = Aggregator::new(7, 2);
    assert!(!monitor.receive(ShoppingRoute::new(vec![1], 10, 30)));
    assert!(!monitor.receive(ShoppingRoute::new(vec![2], 12, 31)));
    assert_eq!(monitor.unchanged, 1);
    assert!(!monitor.receive(ShoppingRoute::new(vec![3], 11, 25)));
    assert_eq!(monitor.unchanged, 0);
    assert!(!monitor.receive(ShoppingRoute::new(vec![2], 12, 31)));
    assert!(monitor.receive(ShoppingRoute::new(vec![2], 12, 31)));
    assert!(monitor.finished);
    let skyline = monitor.finish();
    assert_eq!(skyline.len(), 2);
    assert_eq!(skyline[0].shopping_time, 10);
    assert_eq!(skyline[1].shopping_time, 11);

    let mut other = Aggregator::new(7, 100);
    assert!(!other.receive(ShoppingRoute::new(vec![1], 10, 30)));
    assert!(other.receive(ShoppingRoute::new(vec![2], 20, 7)));
}

#[test]
fn aggregator_with_threshold_zero_ends_at_the_first_route_turned_away() {
    let mut monitor = Aggregator::new(1, 0);
    assert!(!monitor.receive(ShoppingRoute::new(vec![1], 10, 30)));
    assert!(monitor.receive(ShoppingRoute::new(vec![1], 10, 30)));
}

//! The planner.

use vstd::prelude::*;
use crate::models::{Location, ShoppingList, ShoppingRoute, StoreId, Time, TotalCost};

pub mod bsl_psd;

verus! {

/// A solver for the personal shopper's dilemma.
pub trait PSDSolver {
    /// Whether the solver is ready to be queried.
    spec fn ready(&self) -> bool;

    /// The routes that collect `shopping_list` between the two locations
    /// and that no other route found beats in both time and cost.
    fn solve(
        &self,
        shopping_list: &ShoppingList,
        shopper_location: Location,
        customer_location: Location,
    ) -> Vec<ShoppingRoute>
        requires
            self.ready(),
    ;

    /// Whether the stores of `route` can supply `shopping_list`.
    fn satisfies_list(&self, route: &[StoreId], shopping_list: &ShoppingList) -> bool;

    /// The travel time from the shopper through the stores of `route` to
    /// the customer, or `None` where a leg cannot be travelled.
    fn calculate_shopping_time(
        &self,
        route: &[StoreId],
        shopper_location: Location,
        customer_location: Location,
    ) -> Option<Time>;

    /// The lowest price of `shopping_list` bought in the stores of `route`,
    /// or `None` where they cannot supply it.
    fn calculate_shopping_cost(&self, route: &[StoreId], shopping_list: &ShoppingList) -> Option<
        TotalCost,
    >;
}

} // verus!

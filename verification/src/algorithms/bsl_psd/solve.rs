//! The planner's answers to a query.

use vstd::prelude::*;
use crate::algorithms::bsl_psd::fulfilment::{all_bought, residual_after};
use crate::algorithms::bsl_psd::monitor::{is_skyline, routes_ordered};
use crate::algorithms::bsl_psd::BSLPSD;
use crate::algorithms::PSDSolver;
use crate::models::route::{route_views, RouteView};
use crate::models::{
    Location, ProductId, RouteCandidate, ShoppingList, ShoppingRoute, StoreId, Time, TotalCost,
};

verus! {

/// The stagnation threshold of `solve`.
pub const DEFAULT_THRESHOLD: i32 = 10000;

/// The way from the shopper to the customer without any store, which costs nothing.
pub open spec fn direct_route(shopper: Location, customer: Location) -> RouteView {
    RouteView { stores: Seq::empty(), time: shopper.distance(customer) as Time, cost: 0 }
}

/// Whether nothing is on the list.
pub open spec fn is_empty_list(shopping_list: &ShoppingList) -> bool {
    forall|product: ProductId| !shopping_list.items@.contains_key(product)
}

impl BSLPSD {
    /// The answer to a query: nothing where the stores together cannot
    /// supply the list or there is no way of shopping for it; else the
    /// skyline of the search that begins with the fastest way to shop for
    /// the list and ends at the lower bound of its cost.
    pub open spec fn skyline_of(
        &self,
        shopping_list: &ShoppingList,
        shopper: Location,
        customer: Location,
        threshold: i32,
        reorder_too: bool,
    ) -> Seq<RouteView> {
        match (
            self.lower_bound(shopping_list.items@),
            self.first_candidate(shopping_list, shopper, customer),
        ) {
            (Some(bound), Some(first)) => self.search_result(
                Self::search_start(first, bound as TotalCost, threshold, reorder_too),
                shopping_list.items@,
                shopper,
                customer,
            ),
            _ => Seq::empty(),
        }
    }

    /// What holds of every answer: no route of it dominates another; the
    /// routes are in the order of their travel times, and of two with the
    /// same time the cheaper comes first; the stores of each route can
    /// supply the list; the time of each route is the travel time along its
    /// stores, its cost the least price of the list in its stores, and
    /// that is no less than the lower bound.
    pub open spec fn is_sound_skyline(
        &self,
        routes: Seq<RouteView>,
        shopping_list: &ShoppingList,
        shopper: Location,
        customer: Location,
    ) -> bool {
        let items = shopping_list.items@;
        &&& is_skyline(routes)
        &&& routes_ordered(routes)
        &&& forall|i: int, j: int|
            0 <= i < j < routes.len() ==> routes[i].time <= routes[j].time && (routes[i].time
                == routes[j].time ==> routes[i].cost <= routes[j].cost)
        &&& forall|k: int|
            0 <= k < routes.len() ==> {
                &&& self.fulfils((#[trigger] routes[k]).stores, items)
                &&& self.min_cost(routes[k].stores, items) == Some(routes[k].cost as nat)
                &&& self.route_time(routes[k].stores, shopper, customer) == Some(routes[k].time)
                &&& self.lower_bound(items) is Some
                &&& routes[k].cost >= self.lower_bound(items)->0
            }
    }

    /// What holds of the way with which the search begins: there is none
    /// exactly where the stores together cannot supply the list or there
    /// is no way to shop for it; else it is a fastest way to shop for the
    /// list; where its stores can supply the list, the first route of the
    /// answer takes no longer; and no route of the answer along which
    /// something is bought at every store takes less time.
    pub open spec fn begins_with_fastest(
        &self,
        routes: Seq<RouteView>,
        shopping_list: &ShoppingList,
        shopper: Location,
        customer: Location,
    ) -> bool {
        let demand = shopping_list.demand();
        match self.first_candidate(shopping_list, shopper, customer) {
            Some(first) => {
                &&& self.feasible(shopping_list.items@)
                &&& self.fastest_plan(demand, shopper, customer, first.0, first.1)
                &&& self.fulfils(first.0, shopping_list.items@) ==> routes.len() > 0
                    && routes[0].time <= first.1
                &&& forall|k: int|
                    0 <= k < routes.len() && self.purchase_walk(
                        demand,
                        (#[trigger] routes[k]).stores,
                    ) && all_bought(residual_after(self.stores@, demand, routes[k].stores))
                        ==> first.1 <= routes[k].time
            },
            None => {
                &&& !self.feasible(shopping_list.items@) || self.no_plan(demand, shopper, customer)
                &&& routes.len() == 0
            },
        }
    }

    /// The skyline of shopping routes for `shopping_list` between the two
    /// locations, found by one worker or by two.
    pub fn solve_with(
        &self,
        shopping_list: &ShoppingList,
        shopper_location: Location,
        customer_location: Location,
        threshold: i32,
        reorder_too: bool,
    ) -> (r: Vec<ShoppingRoute>)
        requires
            self.wf(),
            self.indexed(),
        ensures
            route_views(r@) == self.skyline_of(
                shopping_list,
                shopper_location,
                customer_location,
                threshold,
                reorder_too,
            ),
            self.is_sound_skyline(
                route_views(r@),
                shopping_list,
                shopper_location,
                customer_location,
            ),
            self.begins_with_fastest(
                route_views(r@),
                shopping_list,
                shopper_location,
                customer_location,
            ),
            !self.feasible(shopping_list.items@) ==> r@.len() == 0,
            is_empty_list(shopping_list) ==> route_views(r@) == seq![
                direct_route(shopper_location, customer_location),
            ],
    {
        proof {
            if is_empty_list(shopping_list) {
                self.lemma_empty_list_costs_nothing(Seq::empty(), shopping_list.items@);
                self.empty_list_law(
                    shopping_list.items@,
                    shopper_location,
                    customer_location,
                    threshold,
                    reorder_too,
                );
            }
        }
        let lower_bound: TotalCost = match self.find_min_cost_route(
            shopping_list,
            shopper_location,
            customer_location,
        ) {
            Some(cost) => cost,
            None => {
                let none: Vec<ShoppingRoute> = Vec::new();
                assert(route_views(none@) =~= Seq::empty());
                return none;
            },
        };
        let first: RouteCandidate = match self.find_min_time_route_dijkstra(
            shopping_list,
            shopper_location,
            customer_location,
        ) {
            Some(route) => route,
            None => {
                let none: Vec<ShoppingRoute> = Vec::new();
                assert(route_views(none@) =~= Seq::empty());
                return none;
            },
        };
        proof {
            if !all_bought(shopping_list.demand()) {
                self.lemma_walk_within(shopping_list.demand(), first.stores@);
            }
        }
        let routes: Vec<ShoppingRoute> = self.skyline_from(
            &first,
            lower_bound,
            shopping_list,
            shopper_location,
            customer_location,
            threshold,
            reorder_too,
        );
        proof {
            let start = Self::search_start(first@, lower_bound, threshold, reorder_too);
            let rounds = choose|rounds: nat|
                self.halts_at(
                    start,
                    rounds,
                    shopping_list.items@,
                    shopper_location,
                    customer_location,
                );
            self.search_result_laws(
                first@,
                lower_bound,
                threshold,
                reorder_too,
                rounds,
                shopping_list.items@,
                shopper_location,
                customer_location,
            );
            self.lemma_min_cost_some(first.stores@.to_set(), shopping_list.items@);
            assert(self.lower_bound(shopping_list.items@)->0 as TotalCost == lower_bound);
            let views = route_views(routes@);
            assert forall|k: int|
                0 <= k < views.len() && self.purchase_walk(
                    shopping_list.demand(),
                    (#[trigger] views[k]).stores,
                ) && all_bought(
                    residual_after(self.stores@, shopping_list.demand(), views[k].stores),
                ) implies first.shopping_time <= views[k].time by {
                assert(self.shops_for(
                    shopping_list.demand(),
                    shopper_location,
                    customer_location,
                    views[k].stores,
                    views[k].time,
                ));
            }
            if is_empty_list(shopping_list) {
                assert(first.stores@ =~= Seq::<StoreId>::empty());
                assert(first@ == (
                    Seq::<StoreId>::empty(),
                    shopper_location.distance(customer_location) as Time,
                ));
            }
        }
        routes
    }

    /// The skyline of shopping routes for `shopping_list` between the two
    /// locations. The search begins with the fastest way to shop for the
    /// list. Two workers go on from it in turns, each to the successors of
    /// its candidates in the order of their travel times; the second puts
    /// the stores of each successor in their fastest order. The search is
    /// over when a route with the least possible cost has entered the
    /// skyline, when the skyline has turned away `stagnation_threshold`
    /// routes in a row, or when no candidate is left.
    pub fn solve_skyline(
        &self,
        shopping_list: &ShoppingList,
        shopper_location: Location,
        customer_location: Location,
        stagnation_threshold: i32,
    ) -> (r: Vec<ShoppingRoute>)
        requires
            self.wf(),
            self.indexed(),
        ensures
            route_views(r@) == self.skyline_of(
                shopping_list,
                shopper_location,
                customer_location,
                stagnation_threshold,
                true,
            ),
            self.is_sound_skyline(
                route_views(r@),
                shopping_list,
                shopper_location,
                customer_location,
            ),
            self.begins_with_fastest(
                route_views(r@),
                shopping_list,
                shopper_location,
                customer_location,
            ),
            !self.feasible(shopping_list.items@) ==> r@.len() == 0,
            is_empty_list(shopping_list) ==> route_views(r@) == seq![
                direct_route(shopper_location, customer_location),
            ],
    {
        self.solve_with(
            shopping_list,
            shopper_location,
            customer_location,
            stagnation_threshold,
            true,
        )
    }

    /// The skyline of shopping routes for `shopping_list` between the two
    /// locations, found by the one worker that takes successors as they
    /// come.
    pub fn solve_with_debug(
        &self,
        shopping_list: &ShoppingList,
        shopper_location: Location,
        customer_location: Location,
        threshold: i32,
    ) -> (r: Vec<ShoppingRoute>)
        requires
            self.wf(),
            self.indexed(),
        ensures
            route_views(r@) == self.skyline_of(
                shopping_list,
                shopper_location,
                customer_location,
                threshold,
                false,
            ),
            self.is_sound_skyline(
                route_views(r@),
                shopping_list,
                shopper_location,
                customer_location,
            ),
            self.begins_with_fastest(
                route_views(r@),
                shopping_list,
                shopper_location,
                customer_location,
            ),
            !self.feasible(shopping_list.items@) ==> r@.len() == 0,
            is_empty_list(shopping_list) ==> route_views(r@) == seq![
                direct_route(shopper_location, customer_location),
            ],
    {
        self.solve_with(shopping_list, shopper_location, customer_location, threshold, false)
    }

    /// The answer to a query depends on nothing but the planner and the
    /// query: asked twice, the planner answers the same.
    pub proof fn solve_is_deterministic(
        &self,
        shopping_list: &ShoppingList,
        shopper: Location,
        customer: Location,
        threshold: i32,
        reorder_too: bool,
        once: Seq<RouteView>,
        again: Seq<RouteView>,
    )
        requires
            once == self.skyline_of(shopping_list, shopper, customer, threshold, reorder_too),
            again == self.skyline_of(shopping_list, shopper, customer, threshold, reorder_too),
        ensures
            once == again,
            once.to_set() == again.to_set(),
    {
    }
}

impl PSDSolver for BSLPSD {
    open spec fn ready(&self) -> bool {
        self.wf() && self.indexed()
    }

    /// The skyline of shopping routes, found by one worker with the
    /// stagnation threshold `DEFAULT_THRESHOLD`.
    fn solve(
        &self,
        shopping_list: &ShoppingList,
        shopper_location: Location,
        customer_location: Location,
    ) -> (r: Vec<ShoppingRoute>)
        ensures
            route_views(r@) == self.skyline_of(
                shopping_list,
                shopper_location,
                customer_location,
                DEFAULT_THRESHOLD,
                false,
            ),
            self.is_sound_skyline(
                route_views(r@),
                shopping_list,
                shopper_location,
                customer_location,
            ),
    {
        self.solve_with_debug(
            shopping_list,
            shopper_location,
            customer_location,
            DEFAULT_THRESHOLD,
        )
    }

    fn satisfies_list(&self, route: &[StoreId], shopping_list: &ShoppingList) -> (r: bool)
        ensures
            r == self.fulfils(route@, shopping_list.items@),
    {
        self.satisfies_list_with_inventory(route, shopping_list)
    }

    fn calculate_shopping_time(
        &self,
        route: &[StoreId],
        shopper_location: Location,
        customer_location: Location,
    ) -> (r: Option<Time>)
        ensures
            r == self.route_time(route@, shopper_location, customer_location),
    {
        self.calculate_total_time(route, &shopper_location, &customer_location)
    }

    fn calculate_shopping_cost(&self, route: &[StoreId], shopping_list: &ShoppingList) -> (r:
        Option<TotalCost>)
        ensures
            r is Some <==> self.fulfils(route@, shopping_list.items@),
            r is Some <==> self.min_cost(route@, shopping_list.items@) is Some,
            r is Some ==> r->0 == self.min_cost(route@, shopping_list.items@)->0,
    {
        self.route_cost(route, shopping_list)
    }
}

} // verus!

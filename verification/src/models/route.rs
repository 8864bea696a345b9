//! Routes: sequences of stores, with what it takes to travel and to buy along them.

use vstd::prelude::*;
use std::cmp::Ordering;
use vstd::std_specs::cmp::PartialOrdSpecImpl;
use crate::models::{StoreId, Time, TotalCost};

verus! {

/// A route that collects the whole shopping list, with its travel time and
/// the price of the purchase.
#[derive(Debug, Clone, PartialEq)]
pub struct ShoppingRoute {
    /// The stores to visit, in order.
    pub stores: Vec<StoreId>,
    /// Travel time from the shopper through the stores to the customer.
    pub shopping_time: Time,
    /// Price of the cheapest purchase of the list along the route.
    pub shopping_cost: TotalCost,
}

/// Whether a route of `len_a` stores with time `time_a` and cost `cost_a`
/// dominates one of `len_b` stores with time `time_b` and cost `cost_b`: it
/// is no worse in time and cost and better in one of them, or equal in both
/// and shorter.
pub open spec fn dominates(
    time_a: Time,
    cost_a: TotalCost,
    len_a: nat,
    time_b: Time,
    cost_b: TotalCost,
    len_b: nat,
) -> bool {
    ||| time_a < time_b && cost_a <= cost_b
    ||| time_a <= time_b && cost_a < cost_b
    ||| time_a == time_b && cost_a == cost_b && len_a < len_b
}

/// A shopping route as a value: its stores, its travel time and its cost.
pub ghost struct RouteView {
    /// The stores to visit, in order.
    pub stores: Seq<StoreId>,
    /// Travel time from the shopper through the stores to the customer.
    pub time: Time,
    /// Price of the cheapest purchase of the list along the route.
    pub cost: TotalCost,
}

impl RouteView {
    /// Whether this route conventionally dominates `other`.
    pub open spec fn dominates(self, other: RouteView) -> bool {
        dominates(self.time, self.cost, self.stores.len(), other.time, other.cost,
            other.stores.len())
    }
}

impl View for ShoppingRoute {
    type V = RouteView;

    open spec fn view(&self) -> RouteView {
        RouteView { stores: self.stores@, time: self.shopping_time, cost: self.shopping_cost }
    }
}

/// The routes as values, in their order.
pub open spec fn route_views(routes: Seq<ShoppingRoute>) -> Seq<RouteView> {
    routes.map_values(|r: ShoppingRoute| r@)
}

impl ShoppingRoute {
    /// Whether this route conventionally dominates `other`.
    pub open spec fn dominates(&self, other: &ShoppingRoute) -> bool {
        self@.dominates(other@)
    }

    /// Whether the two routes visit the same stores in the same order and
    /// agree in time and cost.
    pub open spec fn same(&self, other: &ShoppingRoute) -> bool {
        self@ == other@
    }

    /// Creates a route.
    pub fn new(stores: Vec<StoreId>, shopping_time: Time, shopping_cost: TotalCost) -> (r: Self)
        ensures
            r.stores == stores,
            r.shopping_time == shopping_time,
            r.shopping_cost == shopping_cost,
    {
        Self { stores, shopping_time, shopping_cost }
    }

    /// Whether this route conventionally dominates `other`.
    pub fn conventionally_dominates(&self, other: &ShoppingRoute) -> (r: bool)
        ensures
            r == self.dominates(other),
    {
        let faster: bool = self.shopping_time < other.shopping_time && self.shopping_cost
            <= other.shopping_cost;
        let cheaper: bool = self.shopping_time <= other.shopping_time && self.shopping_cost
            < other.shopping_cost;
        let shorter: bool = self.shopping_time == other.shopping_time && self.shopping_cost
            == other.shopping_cost && self.stores.len() < other.stores.len();
        faster || cheaper || shorter
    }

    /// Whether the two routes visit the same stores in the same order and
    /// agree in time and cost.
    pub fn same_as(&self, other: &ShoppingRoute) -> (r: bool)
        ensures
            r == self.same(other),
    {
        self.shopping_time == other.shopping_time && self.shopping_cost == other.shopping_cost
            && same_stores(&self.stores, &other.stores)
    }

    /// A copy of the route.
    pub fn duplicate(&self) -> (r: Self)
        ensures
            r@ == self@,
    {
        Self {
            stores: self.stores.clone(),
            shopping_time: self.shopping_time,
            shopping_cost: self.shopping_cost,
        }
    }
}

/// Whether the two sequences hold the same stores in the same order.
pub fn same_stores(a: &Vec<StoreId>, b: &Vec<StoreId>) -> (r: bool)
    ensures
        r == (a@ == b@),
{
    if a.len() != b.len() {
        return false;
    }
    let mut i: usize = 0;
    while i < a.len()
        invariant
            i <= a.len(),
            a.len() == b.len(),
            forall|k: int| 0 <= k < i ==> a@[k] == b@[k],
        decreases a.len() - i,
    {
        if a[i] != b[i] {
            return false;
        }
        i += 1;
    }
    assert(a@ =~= b@);
    true
}

/// A route under consideration: the stores to visit and the travel time
/// through them. Candidates are ordered for a queue that hands out the
/// largest first, so the candidate with the smaller time is the greater.
#[derive(Debug, Clone, PartialEq, Eq)]
pub struct RouteCandidate {
    /// The stores to visit, in order.
    pub stores: Vec<StoreId>,
    /// Travel time from the shopper through the stores to the customer.
    pub shopping_time: Time,
}

impl View for RouteCandidate {
    type V = (Seq<StoreId>, Time);

    open spec fn view(&self) -> (Seq<StoreId>, Time) {
        (self.stores@, self.shopping_time)
    }
}

/// The stores and times of the candidates, in their order.
pub open spec fn candidate_views(candidates: Seq<RouteCandidate>) -> Seq<(Seq<StoreId>, Time)> {
    candidates.map_values(|c: RouteCandidate| c@)
}

impl RouteCandidate {
    /// A copy of the candidate.
    pub fn duplicate(&self) -> (r: Self)
        ensures
            r@ == self@,
    {
        Self { stores: self.stores.clone(), shopping_time: self.shopping_time }
    }
}

impl PartialOrd for RouteCandidate {
    fn partial_cmp(&self, other: &Self) -> (r: Option<Ordering>) {
        if other.shopping_time < self.shopping_time {
            Some(Ordering::Less)
        } else if other.shopping_time == self.shopping_time {
            Some(Ordering::Equal)
        } else {
            Some(Ordering::Greater)
        }
    }
}

impl PartialOrdSpecImpl for RouteCandidate {
    open spec fn obeys_partial_cmp_spec() -> bool {
        true
    }

    open spec fn partial_cmp_spec(&self, other: &Self) -> Option<Ordering> {
        if other.shopping_time < self.shopping_time {
            Some(Ordering::Less)
        } else if other.shopping_time == self.shopping_time {
            Some(Ordering::Equal)
        } else {
            Some(Ordering::Greater)
        }
    }
}

} // verus!

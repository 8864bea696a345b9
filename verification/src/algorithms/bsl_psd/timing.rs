//! Travel times of routes, and the nearest stores to go to next.

use vstd::prelude::*;
use crate::algorithms::bsl_psd::BSLPSD;
use crate::models::{Location, StoreId, Time};
use crate::utils::ordered::contains_id;

verus! {

broadcast use vstd::std_specs::hash::group_hash_axioms;

/// The better of a detour found so far and the detour `found` to `store`:
/// the shorter one, and the earlier one where they are equal.
pub open spec fn nearer(
    best: Option<(Time, StoreId)>,
    found: Option<Time>,
    store: StoreId,
) -> Option<(Time, StoreId)> {
    match found {
        None => best,
        Some(detour) => match best {
            Some((least, _)) => if least <= detour {
                best
            } else {
                Some((detour, store))
            },
            None => Some((detour, store)),
        },
    }
}

impl BSLPSD {
    /// The travel time along the stores of `route`, from the first to the
    /// last; `None` where a leg cannot be travelled.
    pub open spec fn path_length(&self, route: Seq<StoreId>) -> Option<nat>
        decreases route.len(),
    {
        if route.len() <= 1 {
            Some(0)
        } else {
            match (
                self.path_length(route.drop_last()),
                self.travel_times.time(route[route.len() - 2], route[route.len() - 1]),
            ) {
                (Some(front), Some(leg)) => Some(front + leg as nat),
                _ => None,
            }
        }
    }

    /// The travel time from `shopper` through the stores of `route` to
    /// `customer`, of whatever size; `None` where a leg cannot be travelled
    /// or the planner does not know the first or the last store.
    pub open spec fn route_length(
        &self,
        route: Seq<StoreId>,
        shopper: Location,
        customer: Location,
    ) -> Option<nat> {
        if route.len() == 0 {
            Some(shopper.distance(customer))
        } else if !self.stores@.contains_key(route[0]) || !self.stores@.contains_key(
            route.last(),
        ) {
            None
        } else {
            match self.path_length(route) {
                Some(between) => Some(
                    shopper.distance(self.stores@[route[0]].location) + between
                        + self.stores@[route.last()].location.distance(customer),
                ),
                None => None,
            }
        }
    }

    /// The travel time from `shopper` through the stores of `route` to
    /// `customer`; `None` where the route cannot be travelled or its time
    /// is not representable.
    pub open spec fn route_time(
        &self,
        route: Seq<StoreId>,
        shopper: Location,
        customer: Location,
    ) -> Option<Time> {
        match self.route_length(route, shopper, customer) {
            Some(length) => if length <= u64::MAX {
                Some(length as Time)
            } else {
                None
            },
            None => None,
        }
    }

    /// The detour from `from` to `to`: the travel time between the two
    /// stores, or the distance from `shopper` to the store where there is
    /// no store to come from; `None` where the leg cannot be travelled.
    pub open spec fn detour(&self, from: Option<StoreId>, to: StoreId, shopper: Location) -> Option<
        Time,
    > {
        match from {
            Some(start) => self.travel_times.time(start, to),
            None => if self.stores@.contains_key(to) {
                Some(shopper.distance(self.stores@[to].location) as Time)
            } else {
                None
            },
        }
    }

    /// The store of `ids` outside `visited` with the least detour from
    /// `from`, or from `shopper` where there is no store to come from, with
    /// that detour; the earliest such store where several are equally near.
    pub open spec fn nearest(
        &self,
        ids: Seq<StoreId>,
        from: Option<StoreId>,
        visited: Set<StoreId>,
        shopper: Location,
    ) -> Option<(Time, StoreId)>
        decreases ids.len(),
    {
        if ids.len() == 0 {
            None
        } else {
            let best = self.nearest(ids.drop_last(), from, visited, shopper);
            if visited.contains(ids.last()) {
                best
            } else {
                nearer(best, self.detour(from, ids.last(), shopper), ids.last())
            }
        }
    }

    /// The store of `ids` outside `visited` whose detour from `from` is the
    /// least of those above `floor`, with that detour; the earliest such
    /// store where several are equally near.
    pub open spec fn nearest_above(
        &self,
        ids: Seq<StoreId>,
        from: Option<StoreId>,
        visited: Set<StoreId>,
        floor: Time,
        shopper: Location,
    ) -> Option<(Time, StoreId)>
        decreases ids.len(),
    {
        if ids.len() == 0 {
            None
        } else {
            let best = self.nearest_above(ids.drop_last(), from, visited, floor, shopper);
            if visited.contains(ids.last()) {
                best
            } else {
                match self.detour(from, ids.last(), shopper) {
                    Some(detour) => if detour > floor {
                        nearer(best, Some(detour), ids.last())
                    } else {
                        best
                    },
                    None => best,
                }
            }
        }
    }

    /// The unvisited store with the least detour from `from`.
    pub open spec fn min_detour(
        &self,
        from: Option<StoreId>,
        visited: Set<StoreId>,
        shopper: Location,
    ) -> Option<StoreId> {
        match self.nearest(self.store_ids@, from, visited, shopper) {
            Some((_, store)) => Some(store),
            None => None,
        }
    }

    /// The unvisited store other than `current` with the least detour from
    /// `from` among those whose detour is larger than that of `current`.
    pub open spec fn next_min_detour(
        &self,
        from: Option<StoreId>,
        visited: Set<StoreId>,
        current: StoreId,
        shopper: Location,
    ) -> Option<StoreId> {
        match self.detour(from, current, shopper) {
            Some(floor) => match self.nearest_above(
                self.store_ids@,
                from,
                visited.insert(current),
                floor,
                shopper,
            ) {
                Some((_, store)) => Some(store),
                None => None,
            },
            None => None,
        }
    }

    /// What `nearest` finds: an unvisited store of `ids` that can be reached,
    /// and no unvisited store of `ids` is nearer.
    pub proof fn lemma_nearest(
        &self,
        ids: Seq<StoreId>,
        from: Option<StoreId>,
        visited: Set<StoreId>,
        shopper: Location,
    )
        ensures
            match self.nearest(ids, from, visited, shopper) {
                Some((least, store)) => {
                    &&& ids.contains(store)
                    &&& !visited.contains(store)
                    &&& self.detour(from, store, shopper) == Some(least)
                    &&& forall|k: int|
                        0 <= k < ids.len() && !visited.contains(ids[k])
                            && (#[trigger] self.detour(from, ids[k], shopper)) is Some
                            ==> least <= self.detour(from, ids[k], shopper)->0
                },
                None => forall|k: int|
                    0 <= k < ids.len() && !visited.contains(ids[k])
                        ==> (#[trigger] self.detour(from, ids[k], shopper)) is None,
            },
        decreases ids.len(),
    {
        if ids.len() > 0 {
            let front = ids.drop_last();
            self.lemma_nearest(front, from, visited, shopper);
            let best = self.nearest(front, from, visited, shopper);
            let found = self.nearest(ids, from, visited, shopper);
            assert forall|k: int| 0 <= k < front.len() implies front[k] == ids[k] by {}
            match found {
                Some((least, store)) => {
                    if front.contains(store) {
                        let k = choose|k: int| 0 <= k < front.len() && front[k] == store;
                        assert(ids[k] == store);
                    } else {
                        assert(ids[ids.len() - 1] == ids.last());
                    }
                    assert forall|k: int|
                        0 <= k < ids.len() && !visited.contains(ids[k])
                            && (#[trigger] self.detour(from, ids[k], shopper)) is Some
                            implies least <= self.detour(from, ids[k], shopper)->0 by {
                        if k < front.len() {
                            assert(front[k] == ids[k]);
                        }
                    }
                },
                None => {
                    assert forall|k: int|
                        0 <= k < ids.len() && !visited.contains(ids[k]) implies (
                    #[trigger] self.detour(from, ids[k], shopper)) is None by {
                        if k < front.len() {
                            assert(front[k] == ids[k]);
                        }
                    }
                },
            }
        }
    }

    /// What `nearest_above` finds: an unvisited store of `ids` whose detour
    /// is above the floor, and no such store is nearer.
    pub proof fn lemma_nearest_above(
        &self,
        ids: Seq<StoreId>,
        from: Option<StoreId>,
        visited: Set<StoreId>,
        floor: Time,
        shopper: Location,
    )
        ensures
            match self.nearest_above(ids, from, visited, floor, shopper) {
                Some((least, store)) => {
                    &&& ids.contains(store)
                    &&& !visited.contains(store)
                    &&& self.detour(from, store, shopper) == Some(least)
                    &&& least > floor
                    &&& forall|k: int|
                        0 <= k < ids.len() && !visited.contains(ids[k])
                            && (#[trigger] self.detour(from, ids[k], shopper)) is Some
                            && self.detour(from, ids[k], shopper)->0 > floor ==> least
                            <= self.detour(from, ids[k], shopper)->0
                },
                None => forall|k: int|
                    0 <= k < ids.len() && !visited.contains(ids[k])
                        && (#[trigger] self.detour(from, ids[k], shopper)) is Some
                        ==> self.detour(from, ids[k], shopper)->0 <= floor,
            },
        decreases ids.len(),
    {
        if ids.len() > 0 {
            let front = ids.drop_last();
            self.lemma_nearest_above(front, from, visited, floor, shopper);
            let best = self.nearest_above(front, from, visited, floor, shopper);
            let found = self.nearest_above(ids, from, visited, floor, shopper);
            match found {
                Some((least, store)) => {
                    if front.contains(store) {
                        let k = choose|k: int| 0 <= k < front.len() && front[k] == store;
                        assert(ids[k] == store);
                    } else {
                        assert(ids[ids.len() - 1] == ids.last());
                    }
                    assert forall|k: int|
                        0 <= k < ids.len() && !visited.contains(ids[k])
                            && (#[trigger] self.detour(from, ids[k], shopper)) is Some
                            && self.detour(from, ids[k], shopper)->0 > floor implies least
                        <= self.detour(from, ids[k], shopper)->0 by {
                        if k < front.len() {
                            assert(front[k] == ids[k]);
                        }
                    }
                },
                None => {
                    assert forall|k: int|
                        0 <= k < ids.len() && !visited.contains(ids[k])
                            && (#[trigger] self.detour(from, ids[k], shopper)) is Some
                            implies self.detour(from, ids[k], shopper)->0 <= floor by {
                        if k < front.len() {
                            assert(front[k] == ids[k]);
                        }
                    }
                },
            }
        }
    }

    /// The location of `store`, if the planner knows the store.
    pub fn location_of(&self, store: StoreId) -> (r: Option<Location>)
        ensures
            r == if self.stores@.contains_key(store) {
                Some(self.stores@[store].location)
            } else {
                None
            },
    {
        match self.stores.get(&store) {
            Some(found) => Some(found.location),
            None => None,
        }
    }

    /// The travel time from the shopper through the stores of `path` to the
    /// customer; `None` where a leg cannot be travelled, the first or the
    /// last store is unknown, or the time is not representable.
    pub fn calculate_total_time(
        &self,
        path: &[StoreId],
        shopper_location: &Location,
        customer_location: &Location,
    ) -> (r: Option<Time>)
        ensures
            r == self.route_time(path@, *shopper_location, *customer_location),
    {
        if path.len() == 0 {
            return Some(shopper_location.distance_to(customer_location));
        }
        let first: Location = match self.location_of(path[0]) {
            Some(location) => location,
            None => {
                return None;
            },
        };
        let last: Location = match self.location_of(path[path.len() - 1]) {
            Some(location) => location,
            None => {
                return None;
            },
        };
        let mut between: u128 = 0;
        let mut i: usize = 1;
        assert(path@.take(1).len() == 1);
        while i < path.len()
            invariant
                1 <= i <= path.len(),
                self.path_length(path@.take(i as int)) == Some(between as nat),
                between <= (i - 1) * 0xFFFF_FFFF_FFFF_FFFF,
            decreases path.len() - i,
        {
            proof {
                assert(path@.take(i + 1).drop_last() == path@.take(i as int));
                assert((i - 1) * 0xFFFF_FFFF_FFFF_FFFF + 0xFFFF_FFFF_FFFF_FFFF == i
                    * 0xFFFF_FFFF_FFFF_FFFF) by (nonlinear_arith);
                assert(i * 0xFFFF_FFFF_FFFF_FFFF <= 0xFFFF_FFFF_FFFF_FFFF * 0xFFFF_FFFF_FFFF_FFFF)
                    by (nonlinear_arith)
                    requires
                        i <= 0xFFFF_FFFF_FFFF_FFFF,
                ;
            }
            match self.travel_times.get(path[i - 1], path[i]) {
                Some(leg) => {
                    between = between + leg as u128;
                },
                None => {
                    proof {
                        self.lemma_path_length_none_from(path@, i + 1);
                    }
                    return None;
                },
            }
            i += 1;
        }
        proof {
            assert(path@.take(path.len() as int) == path@);
            assert((path.len() - 1) * 0xFFFF_FFFF_FFFF_FFFF <= 0xFFFF_FFFF_FFFF_FFFF
                * 0xFFFF_FFFF_FFFF_FFFF) by (nonlinear_arith)
                requires
                    path.len() <= 0xFFFF_FFFF_FFFF_FFFF,
            ;
        }
        let total: u128 = shopper_location.distance_to(&first) as u128 + between
            + last.distance_to(customer_location) as u128;
        if total <= u64::MAX as u128 {
            Some(total as u64)
        } else {
            None
        }
    }

    /// Where a leading part of a route cannot be travelled, the route cannot.
    pub proof fn lemma_path_length_none_from(&self, route: Seq<StoreId>, n: int)
        requires
            0 <= n <= route.len(),
            self.path_length(route.take(n)) is None,
        ensures
            self.path_length(route) is None,
        decreases route.len(),
    {
        if n == route.len() {
            assert(route.take(n) == route);
        } else {
            assert(route.drop_last().take(n) == route.take(n));
            self.lemma_path_length_none_from(route.drop_last(), n);
        }
    }

    /// The detour from `from` to `to`.
    pub fn detour_to(&self, from: Option<StoreId>, to: StoreId, shopper_location: &Location) -> (r:
        Option<Time>)
        ensures
            r == self.detour(from, to, *shopper_location),
    {
        match from {
            Some(start) => self.travel_times.get(start, to),
            None => match self.location_of(to) {
                Some(location) => Some(shopper_location.distance_to(&location)),
                None => None,
            },
        }
    }

    /// The store outside `visited_stores` with the least detour from
    /// `from_store`, or from the shopper where there is no store to come
    /// from; of several equally near, the first of the planner's stores.
    /// `None` where no unvisited store can be reached.
    pub fn find_min_detour_store(
        &self,
        from_store: Option<StoreId>,
        visited_stores: &[StoreId],
        shopper_location: &Location,
    ) -> (r: Option<StoreId>)
        ensures
            r == self.min_detour(from_store, visited_stores@.to_set(), *shopper_location),
    {
        let ghost visited = visited_stores@.to_set();
        let mut best: Option<(Time, StoreId)> = None;
        let mut i: usize = 0;
        while i < self.store_ids.len()
            invariant
                i <= self.store_ids.len(),
                visited == visited_stores@.to_set(),
                best == self.nearest(
                    self.store_ids@.take(i as int),
                    from_store,
                    visited,
                    *shopper_location,
                ),
            decreases self.store_ids.len() - i,
        {
            let store: StoreId = self.store_ids[i];
            proof {
                assert(self.store_ids@.take(i + 1).drop_last() == self.store_ids@.take(i as int));
            }
            if !contains_id(visited_stores, store) {
                match self.detour_to(from_store, store, shopper_location) {
                    Some(detour) => {
                        let better: bool = match best {
                            Some((least, _)) => detour < least,
                            None => true,
                        };
                        if better {
                            best = Some((detour, store));
                        }
                    },
                    None => {},
                }
            }
            i += 1;
        }
        proof {
            assert(self.store_ids@.take(self.store_ids.len() as int) == self.store_ids@);
        }
        match best {
            Some((_, store)) => Some(store),
            None => None,
        }
    }

    /// The store outside `visited_stores`, and other than
    /// `current_min_detour_store`, with the least detour from `from_store`
    /// among those whose detour is larger than that of
    /// `current_min_detour_store`.
    pub fn find_next_min_detour_store(
        &self,
        from_store: Option<StoreId>,
        visited_stores: &[StoreId],
        current_min_detour_store: StoreId,
        shopper_location: &Location,
    ) -> (r: Option<StoreId>)
        ensures
            r == self.next_min_detour(
                from_store,
                visited_stores@.to_set(),
                current_min_detour_store,
                *shopper_location,
            ),
    {
        let floor: Time = match self.detour_to(
            from_store,
            current_min_detour_store,
            shopper_location,
        ) {
            Some(detour) => detour,
            None => {
                return None;
            },
        };
        let ghost visited = visited_stores@.to_set().insert(current_min_detour_store);
        let mut best: Option<(Time, StoreId)> = None;
        let mut i: usize = 0;
        while i < self.store_ids.len()
            invariant
                i <= self.store_ids.len(),
                visited == visited_stores@.to_set().insert(current_min_detour_store),
                best == self.nearest_above(
                    self.store_ids@.take(i as int),
                    from_store,
                    visited,
                    floor,
                    *shopper_location,
                ),
            decreases self.store_ids.len() - i,
        {
            let store: StoreId = self.store_ids[i];
            proof {
                assert(self.store_ids@.take(i + 1).drop_last() == self.store_ids@.take(i as int));
            }
            if !contains_id(visited_stores, store) && store != current_min_detour_store {
                match self.detour_to(from_store, store, shopper_location) {
                    Some(detour) => {
                        if detour > floor {
                            let better: bool = match best {
                                Some((least, _)) => detour < least,
                                None => true,
                            };
                            if better {
                                best = Some((detour, store));
                            }
                        }
                    },
                    None => {},
                }
            }
            i += 1;
        }
        proof {
            assert(self.store_ids@.take(self.store_ids.len() as int) == self.store_ids@);
        }
        match best {
            Some((_, store)) => Some(store),
            None => None,
        }
    }
}

} // verus!

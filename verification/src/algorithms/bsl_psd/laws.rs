//! What holds of the planner's results, whatever the stores, the travel
//! times and the shopping list.

use vstd::prelude::*;
use crate::algorithms::bsl_psd::cost::{lemma_list_cost_bound, list_cost};
use crate::algorithms::bsl_psd::monitor::{
    after_offer, is_skyline, lemma_after_offer, lemma_ordered_routes, ordered_routes,
    routes_ordered, route_less, turns_away,
};
use crate::algorithms::bsl_psd::offers::{fill_cost, lemma_offers_monotone, offers};
use crate::algorithms::bsl_psd::monitor::{lemma_without_dominated, without_dominated};
use crate::algorithms::bsl_psd::search::{
    admitted, front_of, hand_on, lemma_admitted, lemma_front_of, received, stopped,
    AggregatorView, ExpansionView,
};
use crate::algorithms::bsl_psd::BSLPSD;
use crate::models::route::RouteView;
use crate::models::store::supply;
use crate::models::{Location, ProductId, Store, StoreId, Time, TotalCost};
use crate::utils::ordered::{ascending, entries_of, lemma_ascending, lemma_entries_of};

verus! {

/// The more stores may be used, the less a list costs: where the stores of
/// `small` can supply the demand, so can those of `big`, at no higher a price.
pub proof fn lemma_list_cost_monotone(
    stores: Map<StoreId, Store>,
    ids: Seq<StoreId>,
    small: Set<StoreId>,
    big: Set<StoreId>,
    demand: Seq<(ProductId, u32)>,
)
    requires
        small.subset_of(big),
        list_cost(stores, ids, small, demand) is Some,
    ensures
        list_cost(stores, ids, big, demand) is Some,
        list_cost(stores, ids, big, demand)->0 <= list_cost(stores, ids, small, demand)->0,
    decreases demand.len(),
{
    if demand.len() > 0 {
        lemma_list_cost_monotone(stores, ids, small, big, demand.drop_last());
        let product = demand.last().0;
        let need = demand.last().1;
        lemma_offers_monotone(stores, ids, small, big, product);
        assert(fill_cost_of(stores, ids, big, product, need as nat) <= fill_cost_of(
            stores,
            ids,
            small,
            product,
            need as nat,
        ));
    }
}

/// The price of `need` units of `product` from the stores of `ids` in `among`.
pub open spec fn fill_cost_of(
    stores: Map<StoreId, Store>,
    ids: Seq<StoreId>,
    among: Set<StoreId>,
    product: ProductId,
    need: nat,
) -> nat {
    fill_cost(offers(stores, ids, among, product), need)
}

/// The skyline is a skyline, and each route of it has the cost of the
/// list along its stores.
pub open spec fn costed(planner: &BSLPSD, skyline: Seq<RouteView>, items: Map<ProductId,
    u32>) -> bool {
    &&& is_skyline(skyline)
    &&& forall|k: int|
        0 <= k < skyline.len() ==> planner.min_cost((#[trigger] skyline[k]).stores, items) == Some(
            skyline[k].cost as nat,
        )
}

/// The time of each candidate is the travel time along its stores.
pub open spec fn timed_queue(
    planner: &BSLPSD,
    queue: Seq<(Seq<StoreId>, Time)>,
    shopper: Location,
    customer: Location,
) -> bool {
    forall|k: int|
        0 <= k < queue.len() ==> planner.route_time((#[trigger] queue[k]).0, shopper, customer)
            == Some(queue[k].1)
}

/// The time of each route of the skyline is the travel time along its stores.
pub open spec fn timed_skyline(
    planner: &BSLPSD,
    skyline: Seq<RouteView>,
    shopper: Location,
    customer: Location,
) -> bool {
    forall|k: int|
        0 <= k < skyline.len() ==> planner.route_time(
            (#[trigger] skyline[k]).stores,
            shopper,
            customer,
        ) == Some(skyline[k].time)
}

/// The skyline holds a route that takes no longer than `bound`.
pub open spec fn holds_fast(skyline: Seq<RouteView>, bound: Time) -> bool {
    exists|k: int| 0 <= k < skyline.len() && (#[trigger] skyline[k]).time <= bound
}

impl BSLPSD {
    /// The cost of a route is the same for every order of its stores.
    pub proof fn cost_ignores_order(
        &self,
        a: Seq<StoreId>,
        b: Seq<StoreId>,
        items: Map<ProductId, u32>,
    )
        requires
            a.to_multiset() == b.to_multiset(),
        ensures
            self.min_cost(a, items) == self.min_cost(b, items),
            self.fulfils(a, items) == self.fulfils(b, items),
    {
        broadcast use vstd::seq_lib::group_to_multiset_ensures;

        assert(a.to_set() =~= b.to_set()) by {
            assert forall|x: StoreId| a.to_set().contains(x) <==> b.to_set().contains(x) by {
                assert(a.contains(x) <==> a.to_multiset().count(x) > 0);
                assert(b.contains(x) <==> b.to_multiset().count(x) > 0);
            }
        }
    }

    /// No route is cheaper than the lower bound: where the stores of a
    /// route can supply the items, all stores together can, and at no
    /// higher a price.
    pub proof fn lower_bound_is_sound(&self, route: Seq<StoreId>, items: Map<ProductId, u32>)
        requires
            self.min_cost(route, items) is Some,
        ensures
            self.lower_bound(items) is Some,
            self.lower_bound(items)->0 <= self.min_cost(route, items)->0,
    {
        lemma_list_cost_monotone(
            self.stores@,
            self.store_ids@,
            route.to_set(),
            Set::full(),
            entries_of(items),
        );
    }

    /// The cost of any list along any route is representable.
    pub proof fn lemma_min_cost_fits(&self, route: Seq<StoreId>, items: Map<ProductId, u32>)
        ensures
            self.min_cost(route, items) is Some ==> self.min_cost(route, items)->0
                <= 0xFFFF_FFFF_FFFF_FFFF_FFFF_FFFF_FFFF_FFFF,
    {
        lemma_entries_of(items);
        lemma_list_cost_bound(self.stores@, self.store_ids@, route.to_set(), entries_of(items));
        assert(entries_of(items).len() * (0xFFFF_FFFF * 0xFFFF_FFFF_FFFF_FFFF) <= 0x1_0000_0000
            * (0xFFFF_FFFF * 0xFFFF_FFFF_FFFF_FFFF)) by (nonlinear_arith)
            requires
                entries_of(items).len() <= 0x1_0000_0000,
        ;
    }

    /// What a worker hands on is the candidate it took, with the price of
    /// the list along its stores.
    pub proof fn lemma_emission(&self, taken: (Seq<StoreId>, Time), items: Map<ProductId, u32>)
        ensures
            match self.emission(taken, items) {
                Some(route) => route.stores == taken.0 && route.time == taken.1 && self.min_cost(
                    route.stores,
                    items,
                ) == Some(route.cost as nat),
                None => self.min_cost(taken.0, items) is None,
            },
    {
        self.lemma_min_cost_fits(taken.0, items);
    }

    /// A skyline of routes with their costs stays one when it receives
    /// such a route.
    pub proof fn lemma_received_costed(
        &self,
        monitor: AggregatorView,
        route: RouteView,
        items: Map<ProductId, u32>,
    )
        requires
            costed(self, monitor.skyline, items),
            self.min_cost(route.stores, items) == Some(route.cost as nat),
        ensures
            costed(self, received(monitor, route).skyline, items),
    {
        let old = monitor.skyline;
        let new = after_offer(old, route);
        lemma_after_offer(old, route);
        assert(received(monitor, route).skyline == new);
        assert forall|k: int| 0 <= k < new.len() implies self.min_cost(
            (#[trigger] new[k]).stores,
            items,
        ) == Some(new[k].cost as nat) by {
            assert(new.contains(new[k]));
            if new[k] != route {
                assert(old.contains(new[k]));
                let j = choose|j: int| 0 <= j < old.len() && old[j] == new[k];
                assert(self.min_cost(old[j].stores, items) == Some(old[j].cost as nat));
            }
        }
    }

    /// A skyline of routes with their travel times stays one when it
    /// receives such a route.
    pub proof fn lemma_received_timed(
        &self,
        monitor: AggregatorView,
        route: RouteView,
        shopper: Location,
        customer: Location,
    )
        requires
            timed_skyline(self, monitor.skyline, shopper, customer),
            self.route_time(route.stores, shopper, customer) == Some(route.time),
        ensures
            timed_skyline(self, received(monitor, route).skyline, shopper, customer),
    {
        let old = monitor.skyline;
        let new = after_offer(old, route);
        assert(received(monitor, route).skyline == new);
        if !turns_away(old, route) {
            let kept = without_dominated(old, route);
            lemma_without_dominated(old, route);
            assert forall|k: int| 0 <= k < new.len() implies self.route_time(
                (#[trigger] new[k]).stores,
                shopper,
                customer,
            ) == Some(new[k].time) by {
                if k < kept.len() {
                    assert(kept.contains(kept[k]));
                    assert(old.contains(kept[k]));
                    let j = choose|j: int| 0 <= j < old.len() && old[j] == kept[k];
                    assert(self.route_time(old[j].stores, shopper, customer) == Some(old[j].time));
                }
            }
        }
    }

    /// Once the skyline holds a route within a time, it holds one ever after.
    pub proof fn lemma_received_holds_fast(
        &self,
        monitor: AggregatorView,
        route: RouteView,
        bound: Time,
    )
        requires
            holds_fast(monitor.skyline, bound),
        ensures
            holds_fast(received(monitor, route).skyline, bound),
    {
        let old = monitor.skyline;
        let new = after_offer(old, route);
        assert(received(monitor, route).skyline == new);
        if !turns_away(old, route) {
            let kept = without_dominated(old, route);
            lemma_without_dominated(old, route);
            let k = choose|k: int| 0 <= k < old.len() && (#[trigger] old[k]).time <= bound;
            assert(old.contains(old[k]));
            if route.dominates(old[k]) {
                assert(new[kept.len() as int] == route);
            } else {
                assert(kept.contains(old[k]));
                let j = choose|j: int| 0 <= j < kept.len() && kept[j] == old[k];
                assert(new[j] == old[k]);
            }
        }
    }

    /// A step of a worker keeps the times of its candidates true, and what
    /// it hands on has its true time.
    pub proof fn lemma_step_timed(
        &self,
        w: ExpansionView,
        items: Map<ProductId, u32>,
        shopper: Location,
        customer: Location,
    )
        requires
            timed_queue(self, w.queue, shopper, customer),
        ensures
            timed_queue(self, self.worker_step(w, items, shopper, customer).0.queue, shopper,
                customer),
            match self.worker_step(w, items, shopper, customer).1 {
                Some(route) => self.route_time(route.stores, shopper, customer) == Some(route.time),
                None => true,
            },
    {
        if w.queue.len() > 0 {
            lemma_front_of(w.queue);
            let at = front_of(w.queue);
            let taken = w.queue[at];
            let rest = w.queue.remove(at);
            let found = self.next_routes(taken.0, w.reorder, shopper, customer);
            self.lemma_next_routes_timed(taken.0, w.reorder, shopper, customer);
            lemma_admitted(rest, w.visited, found);
            let queue = admitted(rest, w.visited, found).0;
            self.lemma_emission(taken, items);
            assert forall|k: int| 0 <= k < queue.len() implies self.route_time(
                (#[trigger] queue[k]).0,
                shopper,
                customer,
            ) == Some(queue[k].1) by {
                if k < rest.len() {
                    assert(queue[k] == rest[k]);
                    if k < at {
                        assert(rest[k] == w.queue[k]);
                    } else {
                        assert(rest[k] == w.queue[k + 1]);
                    }
                } else {
                    let j = choose|j: int| 0 <= j < found.len()
                        && (#[trigger] found[j]) == queue[k];
                    assert(self.route_time(found[j].0, shopper, customer) == Some(found[j].1));
                }
            }
        }
    }

    /// What a worker hands on has the price of the list along its stores.
    pub proof fn lemma_step_costed(
        &self,
        w: ExpansionView,
        items: Map<ProductId, u32>,
        shopper: Location,
        customer: Location,
    )
        ensures
            match self.worker_step(w, items, shopper, customer).1 {
                Some(route) => self.min_cost(route.stores, items) == Some(route.cost as nat),
                None => true,
            },
    {
        if w.queue.len() > 0 {
            self.lemma_emission(w.queue[front_of(w.queue)], items);
        }
    }

    /// What holds of a search from its first round to its last.
    pub proof fn lemma_run(
        &self,
        first: (Seq<StoreId>, Time),
        lower_bound: TotalCost,
        threshold: i32,
        reorder_too: bool,
        rounds: nat,
        items: Map<ProductId, u32>,
        shopper: Location,
        customer: Location,
    )
        ensures
            ({
                let s = self.run(
                    Self::search_start(first, lower_bound, threshold, reorder_too),
                    rounds,
                    items,
                    shopper,
                    customer,
                );
                &&& costed(self, s.monitor.skyline, items)
                &&& self.route_time(first.0, shopper, customer) == Some(first.1) ==> {
                    &&& timed_queue(self, s.plain.queue, shopper, customer)
                    &&& timed_queue(self, s.shuffle.queue, shopper, customer)
                    &&& timed_skyline(self, s.monitor.skyline, shopper, customer)
                }
                &&& rounds > 0 && self.min_cost(first.0, items) is Some ==> holds_fast(
                    s.monitor.skyline,
                    first.1,
                )
            }),
        decreases rounds,
    {
        let start = Self::search_start(first, lower_bound, threshold, reorder_too);
        if rounds > 0 {
            let before = self.run(start, (rounds - 1) as nat, items, shopper, customer);
            self.lemma_run(
                first,
                lower_bound,
                threshold,
                reorder_too,
                (rounds - 1) as nat,
                items,
                shopper,
                customer,
            );
            let plain = self.worker_step(before.plain, items, shopper, customer);
            let shuffle = self.worker_step(before.shuffle, items, shopper, customer);
            let between = hand_on(before.monitor, plain.1);
            let after = hand_on(between, shuffle.1);
            self.lemma_step_costed(before.plain, items, shopper, customer);
            self.lemma_step_costed(before.shuffle, items, shopper, customer);
            if plain.1 is Some {
                self.lemma_received_costed(before.monitor, plain.1->0, items);
            }
            if shuffle.1 is Some {
                self.lemma_received_costed(between, shuffle.1->0, items);
            }
            if self.route_time(first.0, shopper, customer) == Some(first.1) {
                self.lemma_step_timed(before.plain, items, shopper, customer);
                self.lemma_step_timed(before.shuffle, items, shopper, customer);
                if plain.1 is Some {
                    self.lemma_received_timed(before.monitor, plain.1->0, shopper, customer);
                }
                if shuffle.1 is Some {
                    self.lemma_received_timed(between, shuffle.1->0, shopper, customer);
                }
            }
            if self.min_cost(first.0, items) is Some {
                if rounds == 1 {
                    assert(before == start);
                    assert(start.plain.queue[0] == first);
                    self.lemma_emission(first, items);
                    let route = self.emission(first, items)->0;
                    assert(plain.1 == Some(route));
                    assert(!turns_away(start.monitor.skyline, route));
                    assert(between.skyline == after_offer(start.monitor.skyline, route));
                    assert(between.skyline[0] == route);
                    assert(holds_fast(between.skyline, first.1));
                } else {
                    if plain.1 is Some {
                        self.lemma_received_holds_fast(before.monitor, plain.1->0, first.1);
                    }
                }
                if shuffle.1 is Some {
                    self.lemma_received_holds_fast(between, shuffle.1->0, first.1);
                }
            }
        } else {
            assert(start.plain.queue[0] == first);
            if reorder_too {
                assert(start.shuffle.queue[0] == first);
            }
        }
    }

    /// What holds of the skyline that a search ends with.
    ///
    /// No route of it dominates another, and no two are the same. The
    /// routes are in the order of their times, and routes with the same
    /// time in the order of their costs. The cost of each route is the
    /// price of the list along its stores. Where the time of the first
    /// candidate is the travel time along its stores, so is the time of
    /// every route. Where `lower_bound` is the lower bound of the list, no
    /// route is cheaper. Where the stores of the first candidate can supply
    /// the list, the skyline is not empty and its first route takes no
    /// longer than the first candidate.
    pub proof fn search_result_laws(
        &self,
        first: (Seq<StoreId>, Time),
        lower_bound: TotalCost,
        threshold: i32,
        reorder_too: bool,
        rounds: nat,
        items: Map<ProductId, u32>,
        shopper: Location,
        customer: Location,
    )
        requires
            self.halts_at(
                Self::search_start(first, lower_bound, threshold, reorder_too),
                rounds,
                items,
                shopper,
                customer,
            ),
        ensures
            ({
                let result = self.search_result(
                    Self::search_start(first, lower_bound, threshold, reorder_too),
                    items,
                    shopper,
                    customer,
                );
                &&& is_skyline(result)
                &&& routes_ordered(result)
                &&& forall|i: int, j: int|
                    0 <= i < j < result.len() ==> result[i].time <= result[j].time && (
                    result[i].time == result[j].time ==> result[i].cost <= result[j].cost)
                &&& forall|k: int|
                    0 <= k < result.len() ==> self.min_cost((#[trigger] result[k]).stores, items)
                        == Some(result[k].cost as nat) && self.fulfils(result[k].stores, items)
                &&& self.route_time(first.0, shopper, customer) == Some(first.1) ==> forall|k: int|
                    0 <= k < result.len() ==> self.route_time(
                        (#[trigger] result[k]).stores,
                        shopper,
                        customer,
                    ) == Some(result[k].time)
                &&& self.lower_bound(items) == Some(lower_bound as nat) ==> forall|k: int|
                    0 <= k < result.len() ==> (#[trigger] result[k]).cost >= lower_bound
                &&& self.min_cost(first.0, items) is Some ==> result.len() > 0 && result[0].time
                    <= first.1
            }),
    {
        let start = Self::search_start(first, lower_bound, threshold, reorder_too);
        let chosen = choose|n: nat| self.halts_at(start, n, items, shopper, customer);
        self.lemma_halts_once(start, rounds, chosen, items, shopper, customer);
        self.lemma_run(first, lower_bound, threshold, reorder_too, rounds, items, shopper,
            customer);
        let last = self.run(start, rounds, items, shopper, customer);
        let skyline = last.monitor.skyline;
        let result = ordered_routes(skyline);
        lemma_ordered_routes(skyline);
        assert(rounds > 0) by {
            if rounds == 0 {
                assert(start.plain.queue.len() == 1);
            }
        }
        assert(skyline.no_duplicates()) by {
            assert forall|i: int, j: int|
                0 <= i < skyline.len() && 0 <= j < skyline.len() && i != j implies skyline[i]
                != skyline[j] by {}
        }
        skyline.lemma_multiset_has_no_duplicates();
        result.lemma_multiset_has_no_duplicates_conv();
        assert forall|i: int, j: int|
            #![trigger result[i], result[j]]
            0 <= i < result.len() && 0 <= j < result.len() && i != j implies !result[i].dominates(
            result[j],
        ) && result[i] != result[j] by {
            assert(result.contains(result[i]));
            assert(result.contains(result[j]));
            assert(skyline.contains(result[i]));
            assert(skyline.contains(result[j]));
            let a = choose|a: int| 0 <= a < skyline.len() && skyline[a] == result[i];
            let b = choose|b: int| 0 <= b < skyline.len() && skyline[b] == result[j];
            assert(!skyline[a].dominates(skyline[b]));
        }
        assert forall|i: int, j: int| 0 <= i < j < result.len() implies result[i].time
            <= result[j].time && (result[i].time == result[j].time ==> result[i].cost
            <= result[j].cost) by {
            assert(!route_less(result[j], result[i]));
        }
        assert forall|k: int| 0 <= k < result.len() implies self.min_cost(
            (#[trigger] result[k]).stores,
            items,
        ) == Some(result[k].cost as nat) && self.fulfils(result[k].stores, items) by {
            assert(result.contains(result[k]));
            assert(skyline.contains(result[k]));
            let a = choose|a: int| 0 <= a < skyline.len() && skyline[a] == result[k];
            assert(self.min_cost(skyline[a].stores, items) == Some(skyline[a].cost as nat));
            self.lemma_min_cost_some(result[k].stores.to_set(), items);
        }
        if self.route_time(first.0, shopper, customer) == Some(first.1) {
            assert forall|k: int| 0 <= k < result.len() implies self.route_time(
                (#[trigger] result[k]).stores,
                shopper,
                customer,
            ) == Some(result[k].time) by {
                assert(result.contains(result[k]));
                assert(skyline.contains(result[k]));
                let a = choose|a: int| 0 <= a < skyline.len() && skyline[a] == result[k];
                assert(self.route_time(skyline[a].stores, shopper, customer) == Some(
                    skyline[a].time,
                ));
            }
        }
        if self.lower_bound(items) == Some(lower_bound as nat) {
            assert forall|k: int| 0 <= k < result.len() implies (#[trigger] result[k]).cost
                >= lower_bound by {
                self.lower_bound_is_sound(result[k].stores, items);
            }
        }
        if self.min_cost(first.0, items) is Some {
            let k = choose|k: int| 0 <= k < skyline.len()
                && (#[trigger] skyline[k]).time <= first.1;
            assert(skyline.contains(skyline[k]));
            assert(result.contains(skyline[k]));
            let a = choose|a: int| 0 <= a < result.len() && result[a] == skyline[k];
            if a > 0 {
                assert(!route_less(result[a], result[0]));
            }
        }
    }

    /// A list without items costs nothing, wherever it is bought.
    pub proof fn lemma_empty_list_costs_nothing(
        &self,
        route: Seq<StoreId>,
        items: Map<ProductId, u32>,
    )
        requires
            forall|product: ProductId| !items.contains_key(product),
        ensures
            entries_of(items) == Seq::<(ProductId, u32)>::empty(),
            self.min_cost(route, items) == Some(0nat),
            self.lower_bound(items) == Some(0nat),
            self.feasible(items),
    {
        lemma_ascending(items.dom());
        let keys = ascending(items.dom());
        if keys.len() > 0 {
            assert(keys.contains(keys[0]));
            assert(items.dom().contains(keys[0]));
            assert(items.contains_key(keys[0]));
        }
        assert(keys.len() == 0);
        assert(entries_of(items).len() == 0);
        assert(entries_of(items) =~= Seq::<(ProductId, u32)>::empty());
    }

    /// For a list without items, the search ends after one round with one
    /// route: the way without any store, at no cost.
    pub proof fn empty_list_law(
        &self,
        items: Map<ProductId, u32>,
        shopper: Location,
        customer: Location,
        threshold: i32,
        reorder_too: bool,
    )
        requires
            forall|product: ProductId| !items.contains_key(product),
        ensures
            self.search_result(
                Self::search_start(
                    (Seq::<StoreId>::empty(), shopper.distance(customer) as Time),
                    0,
                    threshold,
                    reorder_too,
                ),
                items,
                shopper,
                customer,
            ) == seq![
                RouteView {
                    stores: Seq::<StoreId>::empty(),
                    time: shopper.distance(customer) as Time,
                    cost: 0,
                },
            ],
    {
        let first = (Seq::<StoreId>::empty(), shopper.distance(customer) as Time);
        let start = Self::search_start(first, 0, threshold, reorder_too);
        let route = RouteView { stores: first.0, time: first.1, cost: 0 };
        self.lemma_empty_list_costs_nothing(first.0, items);
        assert(start.plain.queue[0] == first);
        assert(front_of(start.plain.queue) == 0);
        assert(self.emission(first, items) == Some(route));
        let plain = self.worker_step(start.plain, items, shopper, customer);
        assert(plain.1 == Some(route));
        let between = hand_on(start.monitor, plain.1);
        assert(!turns_away(start.monitor.skyline, route));
        assert(without_dominated(start.monitor.skyline, route) =~= Seq::<RouteView>::empty());
        assert(between.skyline =~= seq![route]);
        assert(between.finished);
        let shuffle = self.worker_step(start.shuffle, items, shopper, customer);
        let after = hand_on(between, shuffle.1);
        if reorder_too {
            assert(start.shuffle.queue[0] == first);
            assert(front_of(start.shuffle.queue) == 0);
            assert(shuffle.1 == Some(route));
            assert(between.skyline[0] == route);
            assert(turns_away(between.skyline, route));
        } else {
            assert(shuffle.1 is None);
        }
        assert(after.skyline == seq![route]);
        assert(after.finished);
        let last = self.run(start, 1, items, shopper, customer);
        assert(self.run(start, 0, items, shopper, customer) == start);
        assert(last == self.advance(start, items, shopper, customer));
        assert(last.monitor == after);
        assert(!stopped(start));
        assert(self.halts_at(start, 1, items, shopper, customer)) by {
            assert forall|earlier: nat| earlier < 1 implies !stopped(
                #[trigger] self.run(start, earlier, items, shopper, customer),
            ) by {
                assert(earlier == 0);
            }
        }
        let chosen = choose|n: nat| self.halts_at(start, n, items, shopper, customer);
        self.lemma_halts_once(start, 1, chosen, items, shopper, customer);
        let single = seq![route];
        assert(single.drop_last() =~= Seq::<RouteView>::empty());
        assert(ordered_routes(single.drop_last()) =~= Seq::<RouteView>::empty());
        assert(ordered_routes(single) =~= single);
    }

    /// The skyline of a search depends on nothing but the planner, the
    /// first candidate, the bounds and the query: two results of the same
    /// search are the same.
    pub proof fn search_is_deterministic(
        &self,
        first: (Seq<StoreId>, Time),
        lower_bound: TotalCost,
        threshold: i32,
        reorder_too: bool,
        items: Map<ProductId, u32>,
        shopper: Location,
        customer: Location,
        once: Seq<RouteView>,
        again: Seq<RouteView>,
    )
        requires
            once == self.search_result(
                Self::search_start(first, lower_bound, threshold, reorder_too),
                items,
                shopper,
                customer,
            ),
            again == self.search_result(
                Self::search_start(first, lower_bound, threshold, reorder_too),
                items,
                shopper,
                customer,
            ),
        ensures
            once == again,
    {
    }
}

} // verus!

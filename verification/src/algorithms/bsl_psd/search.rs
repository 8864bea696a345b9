//! The skyline search: a worker that takes candidate routes in the order
//! of their travel times, hands on those that collect the list and goes on
//! to their successors; and an aggregator that keeps the skyline of what the
//! workers hand on and says when the search is over.

use vstd::prelude::*;
use crate::algorithms::bsl_psd::expand::{copy_of, rows};
use crate::utils::finite::{bounded_seqs_up_to, lemma_bounded_seqs_up_to_finite};
use crate::algorithms::bsl_psd::monitor::{
    after_offer, offer, ordered_routes, sort_routes, turns_away,
};
use crate::algorithms::bsl_psd::BSLPSD;
use crate::models::route::{candidate_views, route_views, same_stores, RouteView};
use crate::models::{
    Location, ProductId, RouteCandidate, ShoppingList, ShoppingRoute, StoreId, Time, TotalCost,
};

verus! {

/// A worker of the search: the candidates it still has to look at, and the
/// store sequences it has taken in so far.
#[derive(Debug)]
pub struct Expansion {
    /// The candidates to look at.
    pub queue: Vec<RouteCandidate>,
    /// The store sequences taken into the queue so far.
    pub visited: Vec<Vec<StoreId>>,
    /// Whether the worker puts the stores of each successor in their fastest order.
    pub reorder: bool,
}

/// A worker as a value.
pub ghost struct ExpansionView {
    pub queue: Seq<(Seq<StoreId>, Time)>,
    pub visited: Seq<Seq<StoreId>>,
    pub reorder: bool,
}

impl View for Expansion {
    type V = ExpansionView;

    open spec fn view(&self) -> ExpansionView {
        ExpansionView {
            queue: candidate_views(self.queue@),
            visited: rows(self.visited@),
            reorder: self.reorder,
        }
    }
}

/// The aggregator of the search: the skyline of the routes received so far,
/// and what it takes to end the search.
#[derive(Debug)]
pub struct Aggregator {
    /// The skyline of the routes received so far.
    pub skyline: Vec<ShoppingRoute>,
    /// How many routes in a row the skyline has turned away.
    pub unchanged: i32,
    /// The search ends when so many routes in a row were turned away.
    pub threshold: i32,
    /// The least cost that any route can have; the search ends when a route
    /// with this cost enters the skyline.
    pub lower_bound: TotalCost,
    /// Whether the search is over.
    pub finished: bool,
}

/// An aggregator as a value.
pub ghost struct AggregatorView {
    pub skyline: Seq<RouteView>,
    pub unchanged: i32,
    pub threshold: i32,
    pub lower_bound: TotalCost,
    pub finished: bool,
}

impl View for Aggregator {
    type V = AggregatorView;

    open spec fn view(&self) -> AggregatorView {
        AggregatorView {
            skyline: route_views(self.skyline@),
            unchanged: self.unchanged,
            threshold: self.threshold,
            lower_bound: self.lower_bound,
            finished: self.finished,
        }
    }
}

/// The place of the candidate to take next: the one with the least time,
/// and of several with that time the one that came first.
pub open spec fn front_of(queue: Seq<(Seq<StoreId>, Time)>) -> int
    decreases queue.len(),
{
    if queue.len() <= 1 {
        0
    } else {
        let best = front_of(queue.drop_last());
        if queue.last().1 < queue[best].1 {
            queue.len() - 1
        } else {
            best
        }
    }
}

/// `front_of` is a place of the queue, and no candidate is faster than the one there.
pub proof fn lemma_front_of(queue: Seq<(Seq<StoreId>, Time)>)
    requires
        queue.len() > 0,
    ensures
        0 <= front_of(queue) < queue.len(),
        forall|k: int| 0 <= k < queue.len() ==> queue[front_of(queue)].1 <= (#[trigger] queue[k]).1,
    decreases queue.len(),
{
    if queue.len() > 1 {
        let front = queue.drop_last();
        lemma_front_of(front);
        assert forall|k: int| 0 <= k < queue.len() implies queue[front_of(queue)].1 <= (
        #[trigger] queue[k]).1 by {
            if k < front.len() {
                assert(front[k] == queue[k]);
            }
            assert(front[front_of(front)] == queue[front_of(front)]);
        }
    }
}

/// The queue and the visited sequences after the candidates of `found`
/// were offered in their order: a candidate whose stores were visited is
/// dropped, another enters the queue and its stores count as visited.
pub open spec fn admitted(
    queue: Seq<(Seq<StoreId>, Time)>,
    visited: Seq<Seq<StoreId>>,
    found: Seq<(Seq<StoreId>, Time)>,
) -> (Seq<(Seq<StoreId>, Time)>, Seq<Seq<StoreId>>)
    decreases found.len(),
{
    if found.len() == 0 {
        (queue, visited)
    } else {
        let earlier = admitted(queue, visited, found.drop_last());
        if earlier.1.contains(found.last().0) {
            earlier
        } else {
            (earlier.0.push(found.last()), earlier.1.push(found.last().0))
        }
    }
}

/// The aggregator after it received `route`.
pub open spec fn received(a: AggregatorView, route: RouteView) -> AggregatorView {
    if turns_away(a.skyline, route) {
        let count = if a.unchanged < i32::MAX {
            (a.unchanged + 1) as i32
        } else {
            a.unchanged
        };
        AggregatorView {
            skyline: a.skyline,
            unchanged: count,
            threshold: a.threshold,
            lower_bound: a.lower_bound,
            finished: a.finished || count >= a.threshold,
        }
    } else {
        AggregatorView {
            skyline: after_offer(a.skyline, route),
            unchanged: 0,
            threshold: a.threshold,
            lower_bound: a.lower_bound,
            finished: a.finished || route.cost == a.lower_bound,
        }
    }
}

/// Whether `stores` is one of the sequences of `visited`.
pub fn was_visited(visited: &Vec<Vec<StoreId>>, stores: &Vec<StoreId>) -> (r: bool)
    ensures
        r == rows(visited@).contains(stores@),
{
    let mut i: usize = 0;
    while i < visited.len()
        invariant
            i <= visited.len(),
            forall|k: int| 0 <= k < i ==> rows(visited@)[k] != stores@,
        decreases visited.len() - i,
    {
        assert(rows(visited@)[i as int] == visited@[i as int]@);
        if same_stores(&visited[i], stores) {
            return true;
        }
        i += 1;
    }
    false
}

impl Expansion {
    /// A worker that starts from the candidate `first`.
    pub fn new(first: &RouteCandidate, reorder: bool) -> (r: Self)
        ensures
            r@ == (ExpansionView { queue: seq![first@], visited: seq![first.stores@], reorder }),
    {
        let mut queue: Vec<RouteCandidate> = Vec::new();
        queue.push(first.duplicate());
        let mut visited: Vec<Vec<StoreId>> = Vec::new();
        visited.push(copy_of(first.stores.as_slice()));
        let r = Self { queue, visited, reorder };
        assert(r@.queue =~= seq![first@]);
        assert(r@.visited =~= seq![first.stores@]);
        r
    }

    /// A worker without any candidate.
    pub fn idle(reorder: bool) -> (r: Self)
        ensures
            r@ == (ExpansionView { queue: Seq::empty(), visited: Seq::empty(), reorder }),
    {
        let r = Self { queue: Vec::new(), visited: Vec::new(), reorder };
        assert(r@.queue =~= Seq::empty());
        assert(r@.visited =~= Seq::empty());
        r
    }

    /// Whether the worker has no candidate left.
    pub fn is_idle(&self) -> (r: bool)
        ensures
            r == (self@.queue.len() == 0),
    {
        self.queue.len() == 0
    }

    /// Takes the candidate with the least time out of the queue.
    pub fn take_next(&mut self) -> (r: RouteCandidate)
        requires
            old(self)@.queue.len() > 0,
        ensures
            r@ == old(self)@.queue[front_of(old(self)@.queue)],
            final(self)@ == (ExpansionView {
                queue: old(self)@.queue.remove(front_of(old(self)@.queue)),
                visited: old(self)@.visited,
                reorder: old(self)@.reorder,
            }),
    {
        let ghost all = candidate_views(self.queue@);
        let mut at: usize = 0;
        let mut i: usize = 1;
        assert(all.take(1).len() == 1);
        while i < self.queue.len()
            invariant
                1 <= i <= self.queue.len(),
                at < i,
                *self == *old(self),
                all == candidate_views(self.queue@),
                at == front_of(all.take(i as int)),
            decreases self.queue.len() - i,
        {
            proof {
                assert(all.take(i + 1).drop_last() == all.take(i as int));
                assert(all.take(i + 1).last() == self.queue@[i as int]@);
                assert(all.take(i + 1)[at as int] == self.queue@[at as int]@);
            }
            if self.queue[i].shopping_time < self.queue[at].shopping_time {
                at = i;
            }
            i += 1;
        }
        proof {
            assert(all.take(all.len() as int) == all);
        }
        let taken: RouteCandidate = self.queue.remove(at);
        proof {
            assert(taken@ == all[at as int]);
            assert(candidate_views(self.queue@) =~= all.remove(at as int));
        }
        taken
    }

    /// Offers the candidates of `found` to the worker, in their order: a
    /// candidate whose stores the worker has visited is dropped, another
    /// enters the queue.
    pub fn enqueue(&mut self, found: &Vec<RouteCandidate>)
        ensures
            final(self)@ == (ExpansionView {
                queue: admitted(
                    old(self)@.queue,
                    old(self)@.visited,
                    candidate_views(found@),
                ).0,
                visited: admitted(
                    old(self)@.queue,
                    old(self)@.visited,
                    candidate_views(found@),
                ).1,
                reorder: old(self)@.reorder,
            }),
    {
        let ghost all = candidate_views(found@);
        let ghost queue = self@.queue;
        let ghost visited = self@.visited;
        let mut i: usize = 0;
        while i < found.len()
            invariant
                i <= found.len(),
                all == candidate_views(found@),
                self.reorder == old(self).reorder,
                self@.queue == admitted(queue, visited, all.take(i as int)).0,
                self@.visited == admitted(queue, visited, all.take(i as int)).1,
            decreases found.len() - i,
        {
            proof {
                assert(all.take(i + 1).drop_last() == all.take(i as int));
                assert(all.take(i + 1).last() == found@[i as int]@);
            }
            if !was_visited(&self.visited, &found[i].stores) {
                let ghost queue_before = self.queue@;
                let ghost visited_before = self.visited@;
                self.queue.push(found[i].duplicate());
                self.visited.push(copy_of(found[i].stores.as_slice()));
                proof {
                    assert(candidate_views(self.queue@) =~= candidate_views(queue_before).push(
                        found@[i as int]@,
                    ));
                    assert(rows(self.visited@) =~= rows(visited_before).push(
                        found@[i as int].stores@,
                    ));
                }
            }
            i += 1;
        }
        proof {
            assert(all.take(found.len() as int) == all);
        }
    }
}

impl Aggregator {
    /// An aggregator with an empty skyline.
    pub fn new(lower_bound: TotalCost, threshold: i32) -> (r: Self)
        ensures
            r@ == (AggregatorView {
                skyline: Seq::empty(),
                unchanged: 0,
                threshold,
                lower_bound,
                finished: false,
            }),
    {
        let r = Self { skyline: Vec::new(), unchanged: 0, threshold, lower_bound, finished: false };
        assert(r@.skyline =~= Seq::empty());
        r
    }

    /// Offers `route` to the skyline. Where the skyline turns it away, that
    /// counts towards the threshold; where it enters, the count starts
    /// again, and the search is over if the route has the least possible
    /// cost. The result says whether the search is over.
    pub fn receive(&mut self, route: ShoppingRoute) -> (r: bool)
        ensures
            final(self)@ == received(old(self)@, route@),
            r == final(self).finished,
    {
        let cost: TotalCost = route.shopping_cost;
        let entered: bool = offer(&mut self.skyline, route);
        if entered {
            self.unchanged = 0;
            if cost == self.lower_bound {
                self.finished = true;
            }
        } else {
            if self.unchanged < i32::MAX {
                self.unchanged = self.unchanged + 1;
            }
            if self.unchanged >= self.threshold {
                self.finished = true;
            }
        }
        self.finished
    }

    /// The skyline in its final order: by time, then cost, then number of stores.
    pub fn finish(self) -> (r: Vec<ShoppingRoute>)
        ensures
            route_views(r@) == ordered_routes(self@.skyline),
    {
        sort_routes(self.skyline)
    }
}

impl BSLPSD {
    /// The route that a candidate becomes when it is handed on: the
    /// candidate with the cost of the list along it, where its stores can
    /// supply the list.
    pub open spec fn emission(
        &self,
        candidate: (Seq<StoreId>, Time),
        items: Map<ProductId, u32>,
    ) -> Option<RouteView> {
        match self.min_cost(candidate.0, items) {
            Some(cost) => Some(
                RouteView { stores: candidate.0, time: candidate.1, cost: cost as TotalCost },
            ),
            None => None,
        }
    }

    /// The successors of a candidate as the worker forms them.
    pub open spec fn next_routes(
        &self,
        stores: Seq<StoreId>,
        reorder: bool,
        shopper: Location,
        customer: Location,
    ) -> Seq<(Seq<StoreId>, Time)> {
        if reorder {
            self.successors_shuffle(stores, shopper, customer)
        } else {
            self.successors(stores, shopper, customer)
        }
    }

    /// One step of a worker: the worker afterwards, and the route it hands on.
    pub open spec fn worker_step(
        &self,
        worker: ExpansionView,
        items: Map<ProductId, u32>,
        shopper: Location,
        customer: Location,
    ) -> (ExpansionView, Option<RouteView>) {
        if worker.queue.len() == 0 {
            (worker, None)
        } else {
            let at = front_of(worker.queue);
            let taken = worker.queue[at];
            let after = admitted(
                worker.queue.remove(at),
                worker.visited,
                self.next_routes(taken.0, worker.reorder, shopper, customer),
            );
            (
                ExpansionView { queue: after.0, visited: after.1, reorder: worker.reorder },
                self.emission(taken, items),
            )
        }
    }

    /// One step of a worker. The worker takes the candidate with the least
    /// travel time out of its queue. Where the stores of the candidate can
    /// supply the list, the candidate is handed on as a route with its
    /// cost. In either case its successors that the worker has not visited
    /// enter the queue. Nothing happens where the queue is empty.
    pub fn step(
        &self,
        worker: &mut Expansion,
        shopping_list: &ShoppingList,
        shopper_location: &Location,
        customer_location: &Location,
    ) -> (r: Option<ShoppingRoute>)
        ensures
            final(worker)@ == self.worker_step(
                old(worker)@,
                shopping_list.items@,
                *shopper_location,
                *customer_location,
            ).0,
            match r {
                Some(route) => Some(route@),
                None => None,
            } == self.worker_step(
                old(worker)@,
                shopping_list.items@,
                *shopper_location,
                *customer_location,
            ).1,
    {
        if worker.is_idle() {
            return None;
        }
        let taken: RouteCandidate = worker.take_next();
        let found: Vec<RouteCandidate> = if worker.reorder {
            self.generate_next_routes_shuffle(&taken, shopper_location, customer_location)
        } else {
            self.generate_next_routes(&taken, shopper_location, customer_location)
        };
        worker.enqueue(&found);
        match self.route_cost(taken.stores.as_slice(), shopping_list) {
            Some(cost) => Some(
                ShoppingRoute {
                    stores: taken.stores,
                    shopping_time: taken.shopping_time,
                    shopping_cost: cost,
                },
            ),
            None => None,
        }
    }
}

/// A search as a value: the worker that takes successors as they come,
/// the worker that puts their stores in the fastest order, and the
/// aggregator.
pub ghost struct SearchView {
    pub plain: ExpansionView,
    pub shuffle: ExpansionView,
    pub monitor: AggregatorView,
}

/// Whether the search is over: the aggregator has said so, or no worker
/// has a candidate left.
pub open spec fn stopped(s: SearchView) -> bool {
    s.monitor.finished || (s.plain.queue.len() == 0 && s.shuffle.queue.len() == 0)
}

/// The aggregator after a worker handed on `emitted`.
pub open spec fn hand_on(monitor: AggregatorView, emitted: Option<RouteView>) -> AggregatorView {
    match emitted {
        Some(route) => received(monitor, route),
        None => monitor,
    }
}

/// A store sequence as a sequence of numbers.
pub open spec fn route_code(route: Seq<StoreId>) -> Seq<nat> {
    route.map_values(|store: StoreId| store as nat)
}

/// What `admitted` does: the visited sequences grow by the new candidates
/// only, stay without repetition, and the queue grows by as many.
pub proof fn lemma_admitted(
    queue: Seq<(Seq<StoreId>, Time)>,
    visited: Seq<Seq<StoreId>>,
    found: Seq<(Seq<StoreId>, Time)>,
)
    ensures
        ({
            let after = admitted(queue, visited, found);
            &&& after.1.len() >= visited.len()
            &&& after.0.len() - queue.len() == after.1.len() - visited.len()
            &&& forall|k: int| 0 <= k < visited.len() ==> after.1[k] == visited[k]
            &&& forall|k: int| 0 <= k < queue.len() ==> after.0[k] == queue[k]
            &&& forall|k: int|
                visited.len() <= k < after.1.len() ==> exists|j: int|
                    0 <= j < found.len() && (#[trigger] found[j]).0 == #[trigger] after.1[k]
            &&& forall|k: int|
                queue.len() <= k < after.0.len() ==> exists|j: int|
                    0 <= j < found.len() && (#[trigger] found[j]) == #[trigger] after.0[k]
            &&& visited.no_duplicates() ==> after.1.no_duplicates()
        }),
    decreases found.len(),
{
    if found.len() > 0 {
        let front = found.drop_last();
        lemma_admitted(queue, visited, front);
        let earlier = admitted(queue, visited, front);
        let after = admitted(queue, visited, found);
        assert forall|k: int| visited.len() <= k < after.1.len() implies exists|j: int|
            0 <= j < found.len() && (#[trigger] found[j]).0 == #[trigger] after.1[k] by {
            if k < earlier.1.len() {
                let j = choose|j: int| 0 <= j < front.len()
                    && (#[trigger] front[j]).0 == earlier.1[k];
                assert(found[j] == front[j]);
            } else {
                assert(found[found.len() - 1].0 == after.1[k]);
            }
        }
        assert forall|k: int| queue.len() <= k < after.0.len() implies exists|j: int|
            0 <= j < found.len() && (#[trigger] found[j]) == #[trigger] after.0[k] by {
            if k < earlier.0.len() {
                let j = choose|j: int| 0 <= j < front.len()
                    && (#[trigger] front[j]) == earlier.0[k];
                assert(found[j] == front[j]);
            } else {
                assert(found[found.len() - 1] == after.0[k]);
            }
        }
    }
}

/// Store sequences without repetition, none longer than `limit`, are no
/// more than there are sequences of numbers up to that length.
pub proof fn lemma_visited_bounded(visited: Seq<Seq<StoreId>>, limit: nat)
    requires
        visited.no_duplicates(),
        forall|k: int| 0 <= k < visited.len() ==> (#[trigger] visited[k]).len() <= limit,
    ensures
        bounded_seqs_up_to(limit, 0x1_0000_0000).finite(),
        visited.len() <= bounded_seqs_up_to(limit, 0x1_0000_0000).len(),
{
    let all = bounded_seqs_up_to(limit, 0x1_0000_0000);
    lemma_bounded_seqs_up_to_finite(limit, 0x1_0000_0000);
    let code = |route: Seq<StoreId>| route_code(route);
    let codes = visited.map_values(code);
    assert(codes.no_duplicates()) by {
        assert forall|i: int, j: int| 0 <= i < codes.len() && 0 <= j < codes.len() && i
            != j implies codes[i] != codes[j] by {
            if codes[i] == codes[j] {
                let a = visited[i];
                let b = visited[j];
                assert(route_code(a).len() == route_code(b).len());
                assert forall|k: int| 0 <= k < a.len() implies a[k] == b[k] by {
                    assert(route_code(a)[k] == a[k] as nat);
                    assert(route_code(b)[k] == b[k] as nat);
                }
                assert(a =~= b);
            }
        }
    }
    codes.unique_seq_to_set();
    assert(codes.to_set().subset_of(all)) by {
        assert forall|c: Seq<nat>| codes.to_set().contains(c) implies all.contains(c) by {
            let i = choose|i: int| 0 <= i < codes.len() && codes[i] == c;
            assert(visited[i].len() <= limit);
            assert forall|k: int| 0 <= k < c.len() implies c[k] < 0x1_0000_0000 by {
                assert(c[k] == visited[i][k] as nat);
            }
        }
    }
    vstd::set_lib::lemma_len_subset(codes.to_set(), all);
}

/// A store sequence without repetition whose stores are all among `ids` is
/// no longer than `ids`.
pub proof fn lemma_distinct_within(route: Seq<StoreId>, ids: Seq<StoreId>)
    requires
        route.no_duplicates(),
        forall|k: int| 0 <= k < route.len() ==> ids.contains(#[trigger] route[k]),
    ensures
        route.len() <= ids.len(),
{
    route.unique_seq_to_set();
    ids.lemma_cardinality_of_set();
    vstd::seq_lib::seq_to_set_is_finite(ids);
    assert(route.to_set().subset_of(ids.to_set())) by {
        assert forall|x: StoreId| route.to_set().contains(x) implies ids.to_set().contains(x) by {
            let k = choose|k: int| 0 <= k < route.len() && route[k] == x;
            assert(ids.contains(route[k]));
        }
    }
    vstd::set_lib::lemma_len_subset(route.to_set(), ids.to_set());
}

impl BSLPSD {
    /// One round of the search: a step of each worker, and the aggregator
    /// receives what they hand on.
    pub open spec fn advance(
        &self,
        s: SearchView,
        items: Map<ProductId, u32>,
        shopper: Location,
        customer: Location,
    ) -> SearchView {
        let plain = self.worker_step(s.plain, items, shopper, customer);
        let shuffle = self.worker_step(s.shuffle, items, shopper, customer);
        SearchView {
            plain: plain.0,
            shuffle: shuffle.0,
            monitor: hand_on(hand_on(s.monitor, plain.1), shuffle.1),
        }
    }

    /// The search after `rounds` rounds.
    pub open spec fn run(
        &self,
        s: SearchView,
        rounds: nat,
        items: Map<ProductId, u32>,
        shopper: Location,
        customer: Location,
    ) -> SearchView
        decreases rounds,
    {
        if rounds == 0 {
            s
        } else {
            self.advance(
                self.run(s, (rounds - 1) as nat, items, shopper, customer),
                items,
                shopper,
                customer,
            )
        }
    }

    /// Whether the search is over after `rounds` rounds and not before.
    pub open spec fn halts_at(
        &self,
        s: SearchView,
        rounds: nat,
        items: Map<ProductId, u32>,
        shopper: Location,
        customer: Location,
    ) -> bool {
        &&& stopped(self.run(s, rounds, items, shopper, customer))
        &&& forall|earlier: nat|
            earlier < rounds ==> !stopped(#[trigger] self.run(s, earlier, items, shopper, customer))
    }

    /// The skyline that the search ends with, in its final order.
    pub open spec fn search_result(
        &self,
        s: SearchView,
        items: Map<ProductId, u32>,
        shopper: Location,
        customer: Location,
    ) -> Seq<RouteView> {
        ordered_routes(
            self.run(
                s,
                choose|rounds: nat| self.halts_at(s, rounds, items, shopper, customer),
                items,
                shopper,
                customer,
            ).monitor.skyline,
        )
    }

    /// A search is over after one number of rounds only.
    pub proof fn lemma_halts_once(
        &self,
        s: SearchView,
        a: nat,
        b: nat,
        items: Map<ProductId, u32>,
        shopper: Location,
        customer: Location,
    )
        requires
            self.halts_at(s, a, items, shopper, customer),
            self.halts_at(s, b, items, shopper, customer),
        ensures
            a == b,
    {
        if a < b {
            assert(!stopped(self.run(s, a, items, shopper, customer)));
        } else if b < a {
            assert(!stopped(self.run(s, b, items, shopper, customer)));
        }
    }

    /// What makes a worker's search end: no store sequence is visited
    /// twice, none is longer than `limit`, and the candidates in the queue
    /// visit stores of the planner only.
    pub open spec fn worker_inv(&self, w: ExpansionView, limit: nat) -> bool {
        &&& w.visited.no_duplicates()
        &&& forall|k: int| 0 <= k < w.visited.len() ==> (#[trigger] w.visited[k]).len() <= limit
        &&& forall|k: int, n: int|
            0 <= k < w.queue.len() && 0 <= n < w.queue[k].0.len() ==> self.store_ids@.contains(
                #[trigger] w.queue[k].0[n],
            )
        &&& self.store_ids@.len() <= limit
    }

    /// Every successor of a route has the travel time along its stores as
    /// its time, and no store twice.
    pub proof fn lemma_next_routes_timed(
        &self,
        stores: Seq<StoreId>,
        reorder: bool,
        shopper: Location,
        customer: Location,
    )
        ensures
            forall|j: int|
                0 <= j < self.next_routes(stores, reorder, shopper, customer).len() ==> {
                    let found = #[trigger] self.next_routes(stores, reorder, shopper, customer)[j];
                    found.0.no_duplicates() && self.route_time(found.0, shopper, customer) == Some(
                        found.1,
                    )
                },
    {
        let found = self.next_routes(stores, reorder, shopper, customer);
        if reorder {
            self.lemma_reordered(stores, shopper, customer);
            if stores.no_duplicates() {
                let first = match self.appended(stores, shopper) {
                    Some(longer) => {
                        self.lemma_reordered(longer, shopper, customer);
                        self.reordered(longer, shopper, customer)
                    },
                    None => Seq::empty(),
                };
                let second = match self.swapped(stores, shopper) {
                    Some(other) => {
                        self.lemma_reordered(other, shopper, customer);
                        self.reordered(other, shopper, customer)
                    },
                    None => Seq::empty(),
                };
                assert forall|j: int| 0 <= j < found.len()
                    implies (#[trigger] found[j]).0.no_duplicates()
                    && self.route_time(found[j].0, shopper, customer) == Some(found[j].1) by {
                    if j < first.len() {
                        assert(found[j] == first[j]);
                    } else {
                        assert(found[j] == second[j - first.len()]);
                    }
                }
            }
        } else {
            let first = match self.appended(stores, shopper) {
                Some(longer) => self.candidate(longer, shopper, customer),
                None => Seq::empty(),
            };
            let second = match self.swapped(stores, shopper) {
                Some(other) => self.candidate(other, shopper, customer),
                None => Seq::empty(),
            };
            assert forall|j: int| 0 <= j < found.len()
                implies (#[trigger] found[j]).0.no_duplicates()
                && self.route_time(found[j].0, shopper, customer) == Some(found[j].1) by {
                if j < first.len() {
                    assert(found[j] == first[j]);
                } else {
                    assert(found[j] == second[j - first.len()]);
                }
            }
        }
    }

    /// The store added by `appended` and the store put in by `swapped` are
    /// stores of the planner.
    pub proof fn lemma_grown_within(&self, stores: Seq<StoreId>, shopper: Location)
        requires
            forall|n: int| 0 <= n < stores.len() ==> self.store_ids@.contains(#[trigger] stores[n]),
        ensures
            self.appended(stores, shopper) is Some ==> forall|n: int|
                0 <= n < self.appended(stores, shopper)->0.len() ==> self.store_ids@.contains(
                    #[trigger] self.appended(stores, shopper)->0[n],
                ),
            self.swapped(stores, shopper) is Some ==> forall|n: int|
                0 <= n < self.swapped(stores, shopper)->0.len() ==> self.store_ids@.contains(
                    #[trigger] self.swapped(stores, shopper)->0[n],
                ),
    {
        let from = if stores.len() > 0 {
            Some(stores.last())
        } else {
            None
        };
        self.lemma_nearest(self.store_ids@, from, stores.to_set(), shopper);
        if self.appended(stores, shopper) is Some {
            let longer = self.appended(stores, shopper)->0;
            assert forall|n: int| 0 <= n < longer.len() implies self.store_ids@.contains(
                #[trigger] longer[n],
            ) by {
                if n < stores.len() {
                    assert(longer[n] == stores[n]);
                }
            }
        }
        if stores.len() > 0 {
            match self.detour(Self::before_last(stores), stores.last(), shopper) {
                Some(floor) => {
                    self.lemma_nearest_above(
                        self.store_ids@,
                        Self::before_last(stores),
                        stores.to_set().insert(stores.last()),
                        floor,
                        shopper,
                    );
                },
                None => {},
            }
        }
        if self.swapped(stores, shopper) is Some {
            let other = self.swapped(stores, shopper)->0;
            assert forall|n: int| 0 <= n < other.len() implies self.store_ids@.contains(
                #[trigger] other[n],
            ) by {
                if n < stores.len() - 1 {
                    assert(other[n] == stores[n]);
                }
            }
        }
    }

    /// The stores of every successor of a route over stores of the planner
    /// are stores of the planner.
    pub proof fn lemma_next_routes_within(
        &self,
        stores: Seq<StoreId>,
        reorder: bool,
        shopper: Location,
        customer: Location,
    )
        requires
            forall|n: int| 0 <= n < stores.len() ==> self.store_ids@.contains(#[trigger] stores[n]),
        ensures
            forall|j: int, n: int|
                0 <= j < self.next_routes(stores, reorder, shopper, customer).len() && 0 <= n
                    < self.next_routes(stores, reorder, shopper, customer)[j].0.len()
                    ==> self.store_ids@.contains(
                    #[trigger] self.next_routes(stores, reorder, shopper, customer)[j].0[n],
                ),
    {
        let found = self.next_routes(stores, reorder, shopper, customer);
        self.lemma_grown_within(stores, shopper);
        let longer = self.appended(stores, shopper);
        let other = self.swapped(stores, shopper);
        if reorder {
            if !stores.no_duplicates() {
                self.lemma_reordered(stores, shopper, customer);
                assert forall|j: int, n: int|
                    0 <= j < found.len() && 0 <= n < found[j].0.len()
                        implies self.store_ids@.contains(
                    #[trigger] found[j].0[n],
                ) by {
                    assert(stores.contains(found[j].0[n]));
                }
            } else {
                let first = match longer {
                    Some(grown) => {
                        self.lemma_reordered(grown, shopper, customer);
                        self.reordered(grown, shopper, customer)
                    },
                    None => Seq::empty(),
                };
                let second = match other {
                    Some(grown) => {
                        self.lemma_reordered(grown, shopper, customer);
                        self.reordered(grown, shopper, customer)
                    },
                    None => Seq::empty(),
                };
                assert forall|j: int, n: int|
                    0 <= j < found.len() && 0 <= n < found[j].0.len()
                        implies self.store_ids@.contains(
                    #[trigger] found[j].0[n],
                ) by {
                    if j < first.len() {
                        assert(found[j] == first[j]);
                        assert(longer->0.contains(first[j].0[n]));
                    } else {
                        assert(found[j] == second[j - first.len()]);
                        assert(other->0.contains(second[j - first.len()].0[n]));
                    }
                }
            }
        } else {
            let first = match longer {
                Some(grown) => self.candidate(grown, shopper, customer),
                None => Seq::empty(),
            };
            let second = match other {
                Some(grown) => self.candidate(grown, shopper, customer),
                None => Seq::empty(),
            };
            assert forall|j: int, n: int|
                0 <= j < found.len() && 0 <= n < found[j].0.len() implies self.store_ids@.contains(
                #[trigger] found[j].0[n],
            ) by {
                if j < first.len() {
                    assert(found[j] == first[j]);
                    assert(found[j].0 == longer->0);
                } else {
                    assert(found[j] == second[j - first.len()]);
                    assert(found[j].0 == other->0);
                }
            }
        }
    }

    /// A step of a worker keeps what makes its search end; and it visits
    /// a new store sequence or shortens the queue.
    pub proof fn lemma_step_ends(
        &self,
        w: ExpansionView,
        limit: nat,
        items: Map<ProductId, u32>,
        shopper: Location,
        customer: Location,
    )
        requires
            self.worker_inv(w, limit),
        ensures
            ({
                let after = self.worker_step(w, items, shopper, customer).0;
                &&& self.worker_inv(after, limit)
                &&& after.reorder == w.reorder
                &&& after.visited.len() >= w.visited.len()
                &&& after.visited.len() == w.visited.len() && w.queue.len() > 0
                    ==> after.queue.len() == w.queue.len() - 1
                &&& w.queue.len() == 0 ==> after == w
            }),
    {
        if w.queue.len() > 0 {
            lemma_front_of(w.queue);
            let at = front_of(w.queue);
            let taken = w.queue[at];
            let rest = w.queue.remove(at);
            let found = self.next_routes(taken.0, w.reorder, shopper, customer);
            assert forall|n: int| 0 <= n < taken.0.len() implies self.store_ids@.contains(
                #[trigger] taken.0[n],
            ) by {
                assert(self.store_ids@.contains(w.queue[at].0[n]));
            }
            self.lemma_next_routes_within(taken.0, w.reorder, shopper, customer);
            self.lemma_next_routes_timed(taken.0, w.reorder, shopper, customer);
            lemma_admitted(rest, w.visited, found);
            let after = admitted(rest, w.visited, found);
            assert forall|k: int| 0 <= k < after.1.len() implies (#[trigger] after.1[k]).len()
                <= limit by {
                if k < w.visited.len() {
                    assert(after.1[k] == w.visited[k]);
                } else {
                    let j = choose|j: int|
                        0 <= j < found.len() && (#[trigger] found[j]).0 == after.1[k];
                    assert forall|n: int| 0 <= n < found[j].0.len()
                        implies self.store_ids@.contains(
                        #[trigger] found[j].0[n],
                    ) by {}
                    lemma_distinct_within(found[j].0, self.store_ids@);
                }
            }
            assert forall|k: int, n: int|
                0 <= k < after.0.len() && 0 <= n < after.0[k].0.len()
                    implies self.store_ids@.contains(
                #[trigger] after.0[k].0[n],
            ) by {
                if k < rest.len() {
                    assert(after.0[k] == rest[k]);
                    if k < at {
                        assert(rest[k] == w.queue[k]);
                        assert(self.store_ids@.contains(w.queue[k].0[n]));
                    } else {
                        assert(rest[k] == w.queue[k + 1]);
                        assert(self.store_ids@.contains(w.queue[k + 1].0[n]));
                    }
                } else {
                    let j = choose|j: int|
                        0 <= j < found.len() && (#[trigger] found[j]) == after.0[k];
                    assert(self.store_ids@.contains(found[j].0[n]));
                }
            }
        }
    }

    /// One round of the search: a step of each worker, and the aggregator
    /// receives what they hand on.
    fn round(
        &self,
        plain: &mut Expansion,
        shuffle: &mut Expansion,
        monitor: &mut Aggregator,
        shopping_list: &ShoppingList,
        shopper_location: &Location,
        customer_location: &Location,
        Ghost(limit): Ghost<nat>,
    )
        requires
            self.worker_inv(old(plain)@, limit),
            self.worker_inv(old(shuffle)@, limit),
        ensures
            (SearchView { plain: final(plain)@, shuffle: final(shuffle)@,
                monitor: final(monitor)@ })
                == self.advance(
                SearchView { plain: old(plain)@, shuffle: old(shuffle)@, monitor: old(monitor)@ },
                shopping_list.items@,
                *shopper_location,
                *customer_location,
            ),
            self.worker_inv(final(plain)@, limit),
            self.worker_inv(final(shuffle)@, limit),
            final(plain)@.visited.len() <= bounded_seqs_up_to(limit, 0x1_0000_0000).len(),
            final(shuffle)@.visited.len() <= bounded_seqs_up_to(limit, 0x1_0000_0000).len(),
            final(plain)@.visited.len() >= old(plain)@.visited.len(),
            final(shuffle)@.visited.len() >= old(shuffle)@.visited.len(),
            final(plain)@.visited.len() == old(plain)@.visited.len() ==> final(plain)@.queue.len()
                <= old(plain)@.queue.len(),
            final(shuffle)@.visited.len() == old(shuffle)@.visited.len()
                ==> final(shuffle)@.queue.len() <= old(shuffle)@.queue.len(),
            final(plain)@.visited.len() == old(plain)@.visited.len() && old(plain)@.queue.len() > 0
                ==> final(plain)@.queue.len() < old(plain)@.queue.len(),
            final(shuffle)@.visited.len() == old(shuffle)@.visited.len()
                && old(shuffle)@.queue.len() > 0
                ==> final(shuffle)@.queue.len() < old(shuffle)@.queue.len(),
    {
        proof {
            self.lemma_step_ends(
                plain@,
                limit,
                shopping_list.items@,
                *shopper_location,
                *customer_location,
            );
            self.lemma_step_ends(
                shuffle@,
                limit,
                shopping_list.items@,
                *shopper_location,
                *customer_location,
            );
            lemma_visited_bounded(
                self.worker_step(
                    plain@,
                    shopping_list.items@,
                    *shopper_location,
                    *customer_location,
                ).0.visited,
                limit,
            );
            lemma_visited_bounded(
                self.worker_step(
                    shuffle@,
                    shopping_list.items@,
                    *shopper_location,
                    *customer_location,
                ).0.visited,
                limit,
            );
        }
        match self.step(plain, shopping_list, shopper_location, customer_location) {
            Some(route) => {
                monitor.receive(route);
            },
            None => {},
        }
        match self.step(shuffle, shopping_list, shopper_location, customer_location) {
            Some(route) => {
                monitor.receive(route);
            },
            None => {},
        }
    }

    /// The search as it begins: the first candidate in the queue of each
    /// worker that takes part, and an empty skyline.
    pub open spec fn search_start(
        first: (Seq<StoreId>, Time),
        lower_bound: TotalCost,
        threshold: i32,
        reorder_too: bool,
    ) -> SearchView {
        SearchView {
            plain: ExpansionView { queue: seq![first], visited: seq![first.0], reorder: false },
            shuffle: if reorder_too {
                ExpansionView { queue: seq![first], visited: seq![first.0], reorder: true }
            } else {
                ExpansionView { queue: Seq::empty(), visited: Seq::empty(), reorder: true }
            },
            monitor: AggregatorView {
                skyline: Seq::empty(),
                unchanged: 0,
                threshold,
                lower_bound,
                finished: false,
            },
        }
    }

    /// The skyline of the routes that a search from `first` finds.
    ///
    /// A worker takes candidates in the order of their travel times,
    /// beginning with `first`; each candidate whose stores can supply the
    /// list is offered to the skyline with its cost; the successors of
    /// each candidate are the next candidates. With `reorder_too`, a second
    /// worker does the same with the successors' stores put in their
    /// fastest order, and the two take turns. The search is over when a
    /// route with the cost `lower_bound` has entered the skyline, when the
    /// skyline has turned away `threshold` routes in a row, or when no
    /// candidate is left. The result is in the order of time, then cost,
    /// then number of stores.
    pub fn skyline_from(
        &self,
        first: &RouteCandidate,
        lower_bound: TotalCost,
        shopping_list: &ShoppingList,
        shopper_location: Location,
        customer_location: Location,
        threshold: i32,
        reorder_too: bool,
    ) -> (r: Vec<ShoppingRoute>)
        requires
            forall|n: int|
                0 <= n < first.stores@.len() ==> self.store_ids@.contains(
                    #[trigger] first.stores@[n],
                ),
        ensures
            route_views(r@) == self.search_result(
                Self::search_start(first@, lower_bound, threshold, reorder_too),
                shopping_list.items@,
                shopper_location,
                customer_location,
            ),
            exists|rounds: nat|
                self.halts_at(
                    Self::search_start(first@, lower_bound, threshold, reorder_too),
                    rounds,
                    shopping_list.items@,
                    shopper_location,
                    customer_location,
                ),
    {
        let mut plain: Expansion = Expansion::new(first, false);
        let mut shuffle: Expansion = if reorder_too {
            Expansion::new(first, true)
        } else {
            Expansion::idle(true)
        };
        let mut monitor: Aggregator = Aggregator::new(lower_bound, threshold);
        let ghost start = Self::search_start(first@, lower_bound, threshold, reorder_too);
        let ghost items = shopping_list.items@;
        let ghost limit: nat = if first.stores@.len() >= self.store_ids@.len() {
            first.stores@.len()
        } else {
            self.store_ids@.len()
        };
        let ghost capacity = bounded_seqs_up_to(limit, 0x1_0000_0000).len();
        let ghost mut rounds: nat = 0;
        proof {
            assert(plain@.queue[0] == first@);
            assert(plain@.visited[0] == first.stores@);
            if reorder_too {
                assert(shuffle@.queue[0] == first@);
                assert(shuffle@.visited[0] == first.stores@);
            }
            lemma_visited_bounded(plain@.visited, limit);
            lemma_visited_bounded(shuffle@.visited, limit);
        }
        while !monitor.finished && !(plain.is_idle() && shuffle.is_idle())
            invariant
                self.worker_inv(plain@, limit),
                self.worker_inv(shuffle@, limit),
                plain@.visited.len() <= capacity,
                shuffle@.visited.len() <= capacity,
                items == shopping_list.items@,
                capacity == bounded_seqs_up_to(limit, 0x1_0000_0000).len(),
                (SearchView { plain: plain@, shuffle: shuffle@, monitor: monitor@ }) == self.run(
                    start,
                    rounds,
                    items,
                    shopper_location,
                    customer_location,
                ),
                forall|earlier: nat|
                    earlier < rounds ==> !stopped(
                        #[trigger] self.run(
                            start,
                            earlier,
                            items,
                            shopper_location,
                            customer_location,
                        ),
                    ),
            decreases
                    (capacity - plain@.visited.len()) + (capacity - shuffle@.visited.len()),
                    plain@.queue.len() + shuffle@.queue.len(),
        {
            proof {
                assert(!stopped(
                    self.run(start, rounds, items, shopper_location, customer_location),
                ));
            }
            self.round(
                &mut plain,
                &mut shuffle,
                &mut monitor,
                shopping_list,
                &shopper_location,
                &customer_location,
                Ghost(limit),
            );
            proof {
                rounds = rounds + 1;
            }
        }
        proof {
            assert(self.halts_at(start, rounds, items, shopper_location, customer_location));
            let chosen = choose|n: nat|
                self.halts_at(start, n, items, shopper_location, customer_location);
            self.lemma_halts_once(
                start,
                rounds,
                chosen,
                items,
                shopper_location,
                customer_location,
            );
        }
        monitor.finish()
    }
}

} // verus!

//! The search for the fastest way to shop, step by step, as a function of
//! the planner and the query: what the search finds is determined by them.

use vstd::prelude::*;
use crate::algorithms::bsl_psd::fulfilment::{after_visit, all_bought, buys, SearchNode};
use crate::algorithms::bsl_psd::BSLPSD;
use crate::models::{Location, ProductId, StoreId, Time};

verus! {

/// The search as a value: its points, what is left to buy at each, the
/// walk to each, and the queue.
pub ghost struct PlanView {
    pub nodes: Seq<SearchNode>,
    pub left: Seq<Seq<(ProductId, u32)>>,
    pub walks: Seq<Seq<StoreId>>,
    pub queue: Seq<(Time, usize)>,
}

/// What is left to buy at each point, as values.
pub open spec fn lefts(left: Seq<Vec<(ProductId, u32)>>) -> Seq<Seq<(ProductId, u32)>> {
    left.map_values(|l: Vec<(ProductId, u32)>| l@)
}

/// The first place among the points at which the state `(store, remaining)` is found.
pub open spec fn place_of_state(
    nodes: Seq<SearchNode>,
    left: Seq<Seq<(ProductId, u32)>>,
    store: StoreId,
    remaining: Seq<(ProductId, u32)>,
) -> Option<int>
    decreases nodes.len(),
{
    if nodes.len() == 0 || left.len() != nodes.len() {
        None
    } else {
        match place_of_state(nodes.drop_last(), left.drop_last(), store, remaining) {
            Some(at) => Some(at),
            None => if nodes.last().store == store && left.last() == remaining {
                Some(nodes.len() - 1)
            } else {
                None
            },
        }
    }
}

/// What `place_of_state` finds: the first place with the state, or that there is none.
pub proof fn lemma_place_of_state(
    nodes: Seq<SearchNode>,
    left: Seq<Seq<(ProductId, u32)>>,
    store: StoreId,
    remaining: Seq<(ProductId, u32)>,
)
    requires
        nodes.len() == left.len(),
    ensures
        match place_of_state(nodes, left, store, remaining) {
            Some(at) => 0 <= at < nodes.len() && nodes[at].store == store && left[at] == remaining
                && forall|n: int|
                0 <= n < at ==> !((#[trigger] nodes[n]).store == store && left[n] == remaining),
            None => forall|n: int|
                0 <= n < nodes.len() ==> !((#[trigger] nodes[n]).store == store && left[n]
                    == remaining),
        },
    decreases nodes.len(),
{
    if nodes.len() > 0 {
        let front = nodes.drop_last();
        let left_front = left.drop_last();
        lemma_place_of_state(front, left_front, store, remaining);
        match place_of_state(front, left_front, store, remaining) {
            Some(at) => {
                assert(front[at] == nodes[at] && left_front[at] == left[at]);
                assert forall|n: int| 0 <= n < at implies !((#[trigger] nodes[n]).store == store
                    && left[n] == remaining) by {
                    assert(front[n] == nodes[n] && left_front[n] == left[n]);
                }
            },
            None => {
                assert forall|n: int| 0 <= n < nodes.len() - 1 implies !((
                #[trigger] nodes[n]).store == store && left[n] == remaining) by {
                    assert(front[n] == nodes[n] && left_front[n] == left[n]);
                }
            },
        }
    }
}

/// The place of the entry that the queue hands out: the first with the least time.
pub open spec fn nearest_entry(queue: Seq<(Time, usize)>) -> int
    decreases queue.len(),
{
    if queue.len() <= 1 {
        0
    } else {
        let best = nearest_entry(queue.drop_last());
        if queue.last().0 < queue[best].0 {
            queue.len() - 1
        } else {
            best
        }
    }
}

/// A place with the least time before which all times are greater is `nearest_entry`.
pub proof fn lemma_nearest_entry_is(queue: Seq<(Time, usize)>, at: int)
    requires
        0 <= at < queue.len(),
        forall|k: int| 0 <= k < queue.len() ==> queue[at].0 <= (#[trigger] queue[k]).0,
        forall|k: int| 0 <= k < at ==> queue[at].0 < (#[trigger] queue[k]).0,
    ensures
        nearest_entry(queue) == at,
    decreases queue.len(),
{
    if queue.len() > 1 {
        let front = queue.drop_last();
        if at < front.len() {
            assert forall|k: int| 0 <= k < front.len() implies front[at].0 <= (
            #[trigger] front[k]).0 by {
                assert(front[k] == queue[k]);
            }
            assert forall|k: int| 0 <= k < at implies front[at].0 < (#[trigger] front[k]).0 by {
                assert(front[k] == queue[k]);
            }
            lemma_nearest_entry_is(front, at);
            assert(queue[queue.len() - 1].0 >= queue[at].0);
        } else {
            lemma_nearest_entry_bounds(front);
            let best = nearest_entry(front);
            assert(front[best] == queue[best]);
            assert(queue[at].0 < queue[best].0);
        }
    }
}

/// `nearest_entry` is a place of the queue.
pub proof fn lemma_nearest_entry_bounds(queue: Seq<(Time, usize)>)
    requires
        queue.len() > 0,
    ensures
        0 <= nearest_entry(queue) < queue.len(),
    decreases queue.len(),
{
    if queue.len() > 1 {
        lemma_nearest_entry_bounds(queue.drop_last());
    }
}

/// The walk to a state that is reached from the point `from`, or from
/// the shopper, by going to `next`.
pub open spec fn walk_via(walks: Seq<Seq<StoreId>>, from: Option<usize>, next: StoreId) -> Seq<
    StoreId,
> {
    match from {
        Some(p) => walks[p as int].push(next),
        None => seq![next],
    }
}

/// The search after it took in the state `(next, remaining)`, reached
/// from `from` in `distance`: as a new point where the state is new; as
/// the better way to a point that is not settled yet; or not at all.
pub open spec fn taken_in(
    s: PlanView,
    from: Option<usize>,
    next: StoreId,
    remaining: Seq<(ProductId, u32)>,
    distance: Time,
) -> PlanView {
    let fresh = SearchNode { store: next, distance, previous: from, visited: false };
    match place_of_state(s.nodes, s.left, next, remaining) {
        Some(at) => if !s.nodes[at].visited && distance < s.nodes[at].distance {
            PlanView {
                nodes: s.nodes.update(at, fresh),
                left: s.left,
                walks: s.walks.update(at, walk_via(s.walks, from, next)),
                queue: s.queue.push((distance, at as usize)),
            }
        } else {
            s
        },
        None => PlanView {
            nodes: s.nodes.push(fresh),
            left: s.left.push(remaining),
            walks: s.walks.push(walk_via(s.walks, from, next)),
            queue: s.queue.push((distance, s.nodes.len() as usize)),
        },
    }
}

/// The better of the best way found so far and the way to the point `at`
/// with the time `total`: the faster, and the earlier where they are
/// equally fast.
pub open spec fn better_way(best: Option<(Time, usize)>, total: nat, at: usize) -> Option<
    (Time, usize),
> {
    if total <= u64::MAX {
        match best {
            Some((least, _)) => if total < least {
                Some((total as Time, at))
            } else {
                best
            },
            None => Some((total as Time, at)),
        }
    } else {
        best
    }
}

impl BSLPSD {
    /// The search after the first `upto` stores of the planner were looked
    /// at as stores to begin with.
    pub open spec fn seeded_plan(
        &self,
        demand: Seq<(ProductId, u32)>,
        shopper: Location,
        upto: int,
    ) -> PlanView
        decreases upto,
    {
        if upto <= 0 {
            PlanView {
                nodes: Seq::empty(),
                left: Seq::empty(),
                walks: Seq::empty(),
                queue: Seq::empty(),
            }
        } else {
            let s = self.seeded_plan(demand, shopper, upto - 1);
            let store = self.store_ids@[upto - 1];
            if buys(self.stores@, store, demand) && self.stores@.contains_key(store) {
                taken_in(
                    s,
                    None,
                    store,
                    after_visit(self.stores@, store, demand),
                    shopper.distance(self.stores@[store].location) as Time,
                )
            } else {
                s
            }
        }
    }

    /// The search after it went on from the point `at` to the store at
    /// place `place` among the planner's stores.
    pub open spec fn gone_on(&self, s: PlanView, at: int, place: int) -> PlanView {
        let node = s.nodes[at];
        let next = self.store_ids@[place];
        if next != node.store {
            match self.travel_times.time(node.store, next) {
                Some(edge) => if buys(self.stores@, next, s.left[at]) && node.distance + edge
                    <= u64::MAX {
                    taken_in(
                        s,
                        Some(at as usize),
                        next,
                        after_visit(self.stores@, next, s.left[at]),
                        (node.distance + edge) as Time,
                    )
                } else {
                    s
                },
                None => s,
            }
        } else {
            s
        }
    }

    /// The search after it went on from the point `at` to the first `upto`
    /// stores of the planner.
    pub open spec fn expanded(&self, s: PlanView, at: int, upto: int) -> PlanView
        decreases upto,
    {
        if upto <= 0 {
            s
        } else {
            self.gone_on(self.expanded(s, at, upto - 1), at, upto - 1)
        }
    }

    /// One round of the search: the queue hands out an entry; a point that
    /// is settled already is passed over; another is settled and, where
    /// nothing is left to buy, counted as a way to shop, or else the
    /// search goes on from it.
    pub open spec fn plan_round(
        &self,
        s: PlanView,
        best: Option<(Time, usize)>,
        customer: Location,
    ) -> (PlanView, Option<(Time, usize)>) {
        let taken = nearest_entry(s.queue);
        let at = s.queue[taken].1;
        let node = s.nodes[at as int];
        let rest = PlanView {
            nodes: s.nodes,
            left: s.left,
            walks: s.walks,
            queue: s.queue.remove(taken),
        };
        if node.visited {
            (rest, best)
        } else {
            let settled = PlanView {
                nodes: s.nodes.update(
                    at as int,
                    SearchNode {
                        store: node.store,
                        distance: node.distance,
                        previous: node.previous,
                        visited: true,
                    },
                ),
                left: rest.left,
                walks: rest.walks,
                queue: rest.queue,
            };
            if all_bought(s.left[at as int]) {
                (
                    settled,
                    if self.stores@.contains_key(node.store) {
                        better_way(
                            best,
                            (node.distance + self.stores@[node.store].location.distance(
                                customer,
                            )) as nat,
                            at,
                        )
                    } else {
                        best
                    },
                )
            } else {
                (self.expanded(settled, at as int, self.store_ids@.len() as int), best)
            }
        }
    }

    /// The search after `rounds` rounds.
    pub open spec fn plan_after(
        &self,
        demand: Seq<(ProductId, u32)>,
        shopper: Location,
        customer: Location,
        rounds: nat,
    ) -> (PlanView, Option<(Time, usize)>)
        decreases rounds,
    {
        if rounds == 0 {
            (self.seeded_plan(demand, shopper, self.store_ids@.len() as int), None)
        } else {
            let before = self.plan_after(demand, shopper, customer, (rounds - 1) as nat);
            self.plan_round(before.0, before.1, customer)
        }
    }

    /// Whether the queue is empty after `rounds` rounds and not before.
    pub open spec fn plan_ends_at(
        &self,
        demand: Seq<(ProductId, u32)>,
        shopper: Location,
        customer: Location,
        rounds: nat,
    ) -> bool {
        &&& self.plan_after(demand, shopper, customer, rounds).0.queue.len() == 0
        &&& forall|earlier: nat|
            earlier < rounds ==> (#[trigger] self.plan_after(
                demand,
                shopper,
                customer,
                earlier,
            )).0.queue.len() > 0
    }

    /// The way to shop for `demand` that the search finds, with its
    /// travel time: the way without any store where nothing is wanted;
    /// else the first that the search found among the fastest.
    pub open spec fn planned(
        &self,
        demand: Seq<(ProductId, u32)>,
        shopper: Location,
        customer: Location,
    ) -> Option<(Seq<StoreId>, Time)> {
        if all_bought(demand) {
            Some((Seq::empty(), shopper.distance(customer) as Time))
        } else {
            let last = self.plan_after(
                demand,
                shopper,
                customer,
                choose|rounds: nat| self.plan_ends_at(demand, shopper, customer, rounds),
            );
            match last.1 {
                Some((time, at)) => Some((last.0.walks[at as int], time)),
                None => None,
            }
        }
    }

    /// The search ends after one number of rounds only.
    pub proof fn lemma_plan_ends_once(
        &self,
        demand: Seq<(ProductId, u32)>,
        shopper: Location,
        customer: Location,
        a: nat,
        b: nat,
    )
        requires
            self.plan_ends_at(demand, shopper, customer, a),
            self.plan_ends_at(demand, shopper, customer, b),
        ensures
            a == b,
    {
        if a < b {
            assert(self.plan_after(demand, shopper, customer, a).0.queue.len() > 0);
        } else if b < a {
            assert(self.plan_after(demand, shopper, customer, b).0.queue.len() > 0);
        }
    }
}

} // verus!

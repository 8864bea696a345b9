//! The fastest way to collect a shopping list: a shortest-path search over
//! the states "at this store, with this much still to buy".

use vstd::prelude::*;
use crate::algorithms::bsl_psd::BSLPSD;
use crate::models::store::{stock_at, stock_of};
use crate::models::{Location, ProductId, RouteCandidate, ShoppingList, Store, StoreId, Time};
use crate::algorithms::bsl_psd::plan::{
    lefts, lemma_nearest_entry_is, lemma_place_of_state, nearest_entry, place_of_state, taken_in,
    walk_via, PlanView,
};
use crate::utils::finite::{bounded_seqs, lemma_bounded_seqs_finite, lemma_fewer_left};

verus! {

broadcast use vstd::std_specs::hash::group_hash_axioms;

/// What is still to buy after a visit to `store`, where one buys of each
/// product as much as is wanted and on the shelf.
pub open spec fn after_visit(
    stores: Map<StoreId, Store>,
    store: StoreId,
    remaining: Seq<(ProductId, u32)>,
) -> Seq<(ProductId, u32)> {
    Seq::new(
        remaining.len(),
        |k: int|
            (
                remaining[k].0,
                if stock_of(stores, store, remaining[k].0) >= remaining[k].1 {
                    0u32
                } else {
                    (remaining[k].1 - stock_of(stores, store, remaining[k].0)) as u32
                },
            ),
    )
}

/// Whether a visit to `store` buys anything of what is still to buy.
pub open spec fn buys(
    stores: Map<StoreId, Store>,
    store: StoreId,
    remaining: Seq<(ProductId, u32)>,
) -> bool {
    exists|k: int|
        0 <= k < remaining.len() && (#[trigger] remaining[k]).1 > 0 && stock_of(
            stores,
            store,
            remaining[k].0,
        ) > 0
}

/// Whether nothing is left to buy.
pub open spec fn all_bought(remaining: Seq<(ProductId, u32)>) -> bool {
    forall|k: int| 0 <= k < remaining.len() ==> (#[trigger] remaining[k]).1 == 0
}

/// What is still to buy of `demand` after visits to the stores of `walk`, in their order.
pub open spec fn residual_after(
    stores: Map<StoreId, Store>,
    demand: Seq<(ProductId, u32)>,
    walk: Seq<StoreId>,
) -> Seq<(ProductId, u32)>
    decreases walk.len(),
{
    if walk.len() == 0 {
        demand
    } else {
        after_visit(stores, walk.last(), residual_after(stores, demand, walk.drop_last()))
    }
}

/// The two sequences name the same products in the same order.
pub open spec fn same_products(a: Seq<(ProductId, u32)>, b: Seq<(ProductId, u32)>) -> bool {
    a.len() == b.len() && forall|k: int| 0 <= k < a.len() ==> (#[trigger] a[k]).0 == b[k].0
}

/// A state of the search as a sequence of numbers: the store, then what is
/// still to buy of each product.
pub open spec fn state_code(store: StoreId, remaining: Seq<(ProductId, u32)>) -> Seq<nat> {
    seq![store as nat] + remaining.map_values(|e: (ProductId, u32)| e.1 as nat)
}

/// States over the same products with the same code are the same state.
pub proof fn lemma_state_code_injective(
    store_a: StoreId,
    a: Seq<(ProductId, u32)>,
    store_b: StoreId,
    b: Seq<(ProductId, u32)>,
)
    requires
        same_products(a, b),
        state_code(store_a, a) == state_code(store_b, b),
    ensures
        store_a == store_b,
        a == b,
{
    let ca = state_code(store_a, a);
    let cb = state_code(store_b, b);
    assert(ca[0] == store_a as nat);
    assert(cb[0] == store_b as nat);
    assert forall|k: int| 0 <= k < a.len() implies a[k] == b[k] by {
        assert(ca[k + 1] == a[k].1 as nat);
        assert(cb[k + 1] == b[k].1 as nat);
        assert(a[k].0 == b[k].0);
    }
    assert(a =~= b);
}

/// A state of the search is one of finitely many sequences.
pub proof fn lemma_state_code_bounded(store: StoreId, remaining: Seq<(ProductId, u32)>)
    ensures
        bounded_seqs(remaining.len() + 1, 0x1_0000_0000).contains(state_code(store, remaining)),
{
    let c = state_code(store, remaining);
    assert forall|i: int| 0 <= i < remaining.len() + 1 implies c[i] < 0x1_0000_0000 by {
        if i > 0 {
            assert(c[i] == remaining[i - 1].1 as nat);
        }
    }
}

/// After everything is bought, no visit buys anything.
pub proof fn lemma_all_bought_buys_nothing(
    stores: Map<StoreId, Store>,
    store: StoreId,
    remaining: Seq<(ProductId, u32)>,
)
    requires
        all_bought(remaining),
    ensures
        !buys(stores, store, remaining),
{
}

/// One point of the search: a store, reached with some part of the list
/// still to buy.
#[derive(Debug, Clone, Copy)]
pub struct SearchNode {
    /// The store the shopper is at.
    pub store: StoreId,
    /// The least travel time found so far from the shopper to this point.
    pub distance: Time,
    /// The point from which that time was found; none for a first store.
    pub previous: Option<usize>,
    /// Whether the point was taken from the queue and its time is settled.
    pub visited: bool,
}

/// The search has come further: the points found before are still
/// there, each with the same state, no greater a time, and settled if it was.
pub open spec fn grown(
    before: Seq<SearchNode>,
    left_before: Seq<Vec<(ProductId, u32)>>,
    nodes: Seq<SearchNode>,
    left: Seq<Vec<(ProductId, u32)>>,
) -> bool {
    &&& before.len() == left_before.len()
    &&& nodes.len() == left.len()
    &&& nodes.len() >= before.len()
    &&& forall|n: int|
        0 <= n < before.len() ==> {
            &&& (#[trigger] nodes[n]).store == before[n].store
            &&& left[n]@ == left_before[n]@
            &&& nodes[n].distance <= before[n].distance
            &&& before[n].visited ==> nodes[n] == before[n]
        }
}

/// The search has found the state `(store, remaining)` within the time `bound`.
pub open spec fn reached(
    nodes: Seq<SearchNode>,
    left: Seq<Vec<(ProductId, u32)>>,
    store: StoreId,
    remaining: Seq<(ProductId, u32)>,
    bound: nat,
) -> bool {
    exists|n: int|
        0 <= n < nodes.len() && (#[trigger] nodes[n]).store == store && left[n]@ == remaining
            && nodes[n].distance <= bound
}

/// What the search has reached stays reached as it comes further.
pub proof fn lemma_reached_grown(
    before: Seq<SearchNode>,
    left_before: Seq<Vec<(ProductId, u32)>>,
    nodes: Seq<SearchNode>,
    left: Seq<Vec<(ProductId, u32)>>,
    store: StoreId,
    remaining: Seq<(ProductId, u32)>,
    bound: nat,
)
    requires
        grown(before, left_before, nodes, left),
        reached(before, left_before, store, remaining, bound),
    ensures
        reached(nodes, left, store, remaining, bound),
{
    let n = choose|n: int|
        0 <= n < before.len() && (#[trigger] before[n]).store == store && left_before[n]@
            == remaining && before[n].distance <= bound;
    assert(nodes[n].store == store);
}

/// The queue fits the points: each point that is not settled is in the
/// queue with its time; no entry has less than the time of its point; and
/// no entry has less than the time of a settled point.
pub open spec fn queue_tight(nodes: Seq<SearchNode>, queue: Seq<(Time, usize)>) -> bool {
    &&& nodes.len() <= usize::MAX
    &&& forall|n: int|
        0 <= n < nodes.len() && !(#[trigger] nodes[n]).visited ==> exists|k: int|
            0 <= k < queue.len() && #[trigger] queue[k] == (nodes[n].distance, n as usize)
    &&& forall|k: int|
        0 <= k < queue.len() ==> (#[trigger] queue[k]).1 < nodes.len() && queue[k].0
            >= nodes[queue[k].1 as int].distance
    &&& forall|n: int, k: int|
        0 <= n < nodes.len() && 0 <= k < queue.len() && (#[trigger] nodes[n]).visited
            ==> nodes[n].distance <= (#[trigger] queue[k]).0
}

/// The queue still fits the points after the point `at` got the time
/// `distance`, as a point that is new or one that is not settled, and went
/// into the queue with it.
pub proof fn lemma_queue_tight_after(
    before: Seq<SearchNode>,
    queue_before: Seq<(Time, usize)>,
    nodes: Seq<SearchNode>,
    queue: Seq<(Time, usize)>,
    at: int,
    distance: Time,
)
    requires
        queue_tight(before, queue_before),
        queue == queue_before.push((distance, at as usize)),
        0 <= at < nodes.len(),
        nodes.len() <= usize::MAX,
        nodes[at].distance == distance,
        !nodes[at].visited,
        at < before.len() ==> nodes.len() == before.len() && !before[at].visited && distance
            <= before[at].distance,
        at >= before.len() ==> nodes.len() == before.len() + 1 && at == before.len(),
        forall|n: int| 0 <= n < before.len() && n != at ==> nodes[n] == before[n],
        forall|n: int|
            0 <= n < before.len() && (#[trigger] before[n]).visited ==> before[n].distance
                <= distance,
    ensures
        queue_tight(nodes, queue),
{
    assert forall|n: int| 0 <= n < nodes.len() && !(#[trigger] nodes[n]).visited implies exists|
        k: int,
    |
        0 <= k < queue.len() && #[trigger] queue[k] == (nodes[n].distance, n as usize) by {
        if n == at {
            assert(queue[queue_before.len() as int] == (distance, at as usize));
        } else {
            assert(!before[n].visited);
            let k = choose|k: int|
                0 <= k < queue_before.len() && #[trigger] queue_before[k] == (
                    before[n].distance,
                    n as usize,
                );
            assert(queue[k] == queue_before[k]);
        }
    }
    assert forall|k: int| 0 <= k < queue.len() implies (#[trigger] queue[k]).1 < nodes.len()
        && queue[k].0 >= nodes[queue[k].1 as int].distance by {
        if k < queue_before.len() {
            assert(queue[k] == queue_before[k]);
            assert(queue_before[k].1 < before.len());
        }
    }
    assert forall|n: int, k: int|
        0 <= n < nodes.len() && 0 <= k < queue.len() && (#[trigger] nodes[n]).visited
            implies nodes[n].distance
        <= (#[trigger] queue[k]).0 by {
        assert(n != at);
        assert(before[n].visited);
        if k < queue_before.len() {
            assert(queue[k] == queue_before[k]);
        }
    }
}

/// The search as a value.
pub open spec fn plan_view(
    nodes: Seq<SearchNode>,
    left: Seq<Vec<(ProductId, u32)>>,
    walks: Seq<Seq<StoreId>>,
    queue: Seq<(Time, usize)>,
) -> PlanView {
    PlanView { nodes, left: lefts(left), walks, queue }
}

/// Whether nothing is left to buy.
pub fn nothing_left(remaining: &Vec<(ProductId, u32)>) -> (r: bool)
    ensures
        r == all_bought(remaining@),
{
    let mut i: usize = 0;
    while i < remaining.len()
        invariant
            i <= remaining.len(),
            forall|k: int| 0 <= k < i ==> (#[trigger] remaining@[k]).1 == 0,
        decreases remaining.len() - i,
    {
        if remaining[i].1 != 0 {
            return false;
        }
        i += 1;
    }
    true
}

/// Whether the two hold the same quantities of the same products.
pub fn same_remaining(a: &Vec<(ProductId, u32)>, b: &Vec<(ProductId, u32)>) -> (r: bool)
    ensures
        r == (a@ == b@),
{
    if a.len() != b.len() {
        return false;
    }
    let mut i: usize = 0;
    while i < a.len()
        invariant
            i <= a.len(),
            a.len() == b.len(),
            forall|k: int| 0 <= k < i ==> a@[k] == b@[k],
        decreases a.len() - i,
    {
        if a[i].0 != b[i].0 || a[i].1 != b[i].1 {
            return false;
        }
        i += 1;
    }
    assert(a@ =~= b@);
    true
}

/// The place of the state `(store, remaining)` among the points found so far.
pub fn find_node(
    nodes: &Vec<SearchNode>,
    left: &Vec<Vec<(ProductId, u32)>>,
    store: StoreId,
    remaining: &Vec<(ProductId, u32)>,
) -> (r: Option<usize>)
    requires
        nodes@.len() == left@.len(),
    ensures
        match r {
            Some(at) => at < nodes@.len() && nodes@[at as int].store == store && left@[at as int]@
                == remaining@,
            None => forall|n: int|
                0 <= n < nodes@.len() ==> !((#[trigger] nodes@[n]).store == store && left@[n]@
                    == remaining@),
        },
        match r {
            Some(at) => place_of_state(nodes@, lefts(left@), store, remaining@) == Some(at as int),
            None => place_of_state(nodes@, lefts(left@), store, remaining@) is None,
        },
{
    let mut i: usize = 0;
    proof {
        lemma_place_of_state(nodes@, lefts(left@), store, remaining@);
    }
    while i < nodes.len()
        invariant
            i <= nodes.len(),
            nodes@.len() == left@.len(),
            forall|n: int|
                0 <= n < i ==> !((#[trigger] nodes@[n]).store == store && left@[n]@
                    == remaining@),
            match place_of_state(nodes@, lefts(left@), store, remaining@) {
                Some(at) => 0 <= at < nodes@.len() && nodes@[at].store == store && lefts(
                    left@,
                )[at] == remaining@ && forall|n: int|
                    0 <= n < at ==> !((#[trigger] nodes@[n]).store == store && lefts(left@)[n]
                        == remaining@),
                None => forall|n: int|
                    0 <= n < nodes@.len() ==> !((#[trigger] nodes@[n]).store == store && lefts(
                        left@,
                    )[n] == remaining@),
            },
        decreases nodes.len() - i,
    {
        if nodes[i].store == store && same_remaining(&left[i], remaining) {
            proof {
                assert(lefts(left@)[i as int] == left@[i as int]@);
                match place_of_state(nodes@, lefts(left@), store, remaining@) {
                    Some(at) => {
                        if at < i {
                            assert(lefts(left@)[at] == left@[at]@);
                            assert(!(nodes@[at].store == store && left@[at]@ == remaining@));
                        }
                    },
                    None => {},
                }
            }
            return Some(i);
        }
        i += 1;
    }
    proof {
        match place_of_state(nodes@, lefts(left@), store, remaining@) {
            Some(at) => {
                assert(lefts(left@)[at] == left@[at]@);
                assert(!(nodes@[at].store == store && left@[at]@ == remaining@));
            },
            None => {},
        }
    }
    None
}

/// Takes the entry with the least time out of the queue; of several with
/// that time, the one that was put in first.
pub fn pop_nearest(queue: &mut Vec<(Time, usize)>) -> (r: (Time, usize))
    requires
        old(queue)@.len() > 0,
    ensures
        exists|at: int|
            0 <= at < old(queue)@.len() && r == #[trigger] old(queue)@[at]
                && final(queue)@ == old(queue)@.remove(at) && (forall|k: int| 0 <= k < at
                ==> r.0 < old(queue)@[k].0),
        forall|k: int| 0 <= k < old(queue)@.len() ==> r.0 <= (#[trigger] old(queue)@[k]).0,
        final(queue)@.len() == old(queue)@.len() - 1,
        0 <= nearest_entry(old(queue)@) < old(queue)@.len(),
        r == old(queue)@[nearest_entry(old(queue)@)],
        final(queue)@ == old(queue)@.remove(nearest_entry(old(queue)@)),
{
    let mut at: usize = 0;
    let mut i: usize = 1;
    while i < queue.len()
        invariant
            0 <= at < i <= queue.len(),
            queue@ == old(queue)@,
            forall|k: int| 0 <= k < i ==> queue@[at as int].0 <= (#[trigger] queue@[k]).0,
            forall|k: int| 0 <= k < at ==> queue@[at as int].0 < queue@[k].0,
        decreases queue.len() - i,
    {
        if queue[i].0 < queue[at].0 {
            at = i;
        }
        i += 1;
    }
    proof {
        lemma_nearest_entry_is(queue@, at as int);
    }
    let entry: (Time, usize) = queue.remove(at);
    entry
}

impl BSLPSD {
    /// Visits `store` with `remaining` still to buy: what is still to buy
    /// afterwards, and whether anything was bought.
    pub fn visit(&self, store: StoreId, remaining: &Vec<(ProductId, u32)>) -> (r: (
        Vec<(ProductId, u32)>,
        bool,
    ))
        ensures
            r.0@ == after_visit(self.stores@, store, remaining@),
            r.1 == buys(self.stores@, store, remaining@),
    {
        let mut left: Vec<(ProductId, u32)> = Vec::new();
        let mut bought: bool = false;
        let mut i: usize = 0;
        while i < remaining.len()
            invariant
                i <= remaining.len(),
                left@.len() == i,
                forall|k: int|
                    0 <= k < i ==> left@[k] == after_visit(self.stores@, store, remaining@)[k],
                bought == (exists|k: int|
                    0 <= k < i && (#[trigger] remaining@[k]).1 > 0 && stock_of(
                        self.stores@,
                        store,
                        remaining@[k].0,
                    ) > 0),
            decreases remaining.len() - i,
        {
            let product: ProductId = remaining[i].0;
            let wanted: u32 = remaining[i].1;
            let on_shelf: u32 = stock_at(&self.stores, store, product);
            let taken: u32 = if on_shelf >= wanted {
                wanted
            } else {
                on_shelf
            };
            if taken > 0 {
                bought = true;
            }
            left.push((product, wanted - taken));
            proof {
                if !bought {
                    assert forall|k: int| 0 <= k < i + 1 implies !((#[trigger] remaining@[k]).1 > 0
                        && stock_of(self.stores@, store, remaining@[k].0) > 0) by {}
                } else if taken > 0 {
                    assert(remaining@[i as int].1 > 0);
                }
            }
            i += 1;
        }
        assert(left@ =~= after_visit(self.stores@, store, remaining@));
        (left, bought)
    }
}

impl BSLPSD {
    /// Whether `walk` is a way to shop for `demand`: its stores are stores of
    /// the planner, something is bought at each of them, no store follows
    /// itself, and each leg between two stores can be travelled.
    pub open spec fn purchase_walk(&self, demand: Seq<(ProductId, u32)>, walk: Seq<StoreId>) -> bool
        decreases walk.len(),
    {
        if walk.len() == 0 {
            false
        } else {
            &&& self.store_ids@.contains(walk.last())
            &&& buys(
                self.stores@,
                walk.last(),
                residual_after(self.stores@, demand, walk.drop_last()),
            )
            &&& walk.len() > 1 ==> {
                &&& self.purchase_walk(demand, walk.drop_last())
                &&& walk[walk.len() - 2] != walk.last()
                &&& self.travel_times.time(walk[walk.len() - 2], walk.last()) is Some
            }
        }
    }

    /// Every store of a purchase walk is a store of the planner.
    pub proof fn lemma_walk_within(&self, demand: Seq<(ProductId, u32)>, walk: Seq<StoreId>)
        requires
            self.purchase_walk(demand, walk),
        ensures
            forall|n: int| 0 <= n < walk.len() ==> self.store_ids@.contains(#[trigger] walk[n]),
        decreases walk.len(),
    {
        if walk.len() > 1 {
            self.lemma_walk_within(demand, walk.drop_last());
            assert forall|n: int| 0 <= n < walk.len() implies self.store_ids@.contains(
                #[trigger] walk[n],
            ) by {
                if n < walk.len() - 1 {
                    assert(walk.drop_last()[n] == walk[n]);
                }
            }
        }
    }

    /// The travel time from `shopper` to the last store of `walk` along its stores.
    pub open spec fn walk_length(&self, walk: Seq<StoreId>, shopper: Location) -> Option<nat> {
        if walk.len() == 0 || !self.stores@.contains_key(walk[0]) {
            None
        } else {
            match self.path_length(walk) {
                Some(between) => Some(shopper.distance(self.stores@[walk[0]].location) + between),
                None => None,
            }
        }
    }

    /// Whether the route `stores` with travel time `time` is a way to shop
    /// for all of `demand` between the two locations: the empty route where
    /// nothing is wanted, else a purchase walk after which nothing is left.
    pub open spec fn time_plan(
        &self,
        demand: Seq<(ProductId, u32)>,
        shopper: Location,
        customer: Location,
        stores: Seq<StoreId>,
        time: Time,
    ) -> bool {
        &&& self.route_time(stores, shopper, customer) == Some(time)
        &&& if all_bought(demand) {
            stores.len() == 0
        } else {
            self.purchase_walk(demand, stores) && all_bought(
                residual_after(self.stores@, demand, stores),
            )
        }
    }

    /// What the search knows of its point `n`: a purchase walk that ends
    /// there, with the travel time and the residual demand of the point,
    /// and that continues the walk of the point before it.
    pub open spec fn node_sound(
        &self,
        demand: Seq<(ProductId, u32)>,
        shopper: Location,
        nodes: Seq<SearchNode>,
        left: Seq<Vec<(ProductId, u32)>>,
        walks: Seq<Seq<StoreId>>,
        n: int,
    ) -> bool {
        &&& self.purchase_walk(demand, walks[n])
        &&& walks[n].last() == nodes[n].store
        &&& residual_after(self.stores@, demand, walks[n]) == left[n]@
        &&& same_products(left[n]@, demand)
        &&& self.walk_length(walks[n], shopper) == Some(nodes[n].distance as nat)
        &&& match nodes[n].previous {
            Some(p) => p < nodes.len() && nodes[p as int].visited
                && walks[n] == walks[p as int].push(
                nodes[n].store,
            ),
            None => walks[n] == seq![nodes[n].store],
        }
    }

    /// What holds of the search at every step.
    pub open spec fn search_inv(
        &self,
        demand: Seq<(ProductId, u32)>,
        shopper: Location,
        nodes: Seq<SearchNode>,
        left: Seq<Vec<(ProductId, u32)>>,
        walks: Seq<Seq<StoreId>>,
        queue: Seq<(Time, usize)>,
        seen: Set<Seq<nat>>,
    ) -> bool {
        &&& nodes.len() == left.len()
        &&& nodes.len() == walks.len()
        &&& forall|n: int|
            0 <= n < nodes.len() ==> #[trigger] self.node_sound(
                demand,
                shopper,
                nodes,
                left,
                walks,
                n,
            )
        &&& forall|a: int, b: int|
            #![trigger nodes[a], nodes[b]]
            0 <= a < b < nodes.len() ==> !(nodes[a].store == nodes[b].store && left[a]@
                == left[b]@)
        &&& forall|k: int| 0 <= k < queue.len() ==> (#[trigger] queue[k]).1 < nodes.len()
        &&& forall|n: int|
            0 <= n < nodes.len() ==> ((#[trigger] nodes[n]).visited <==> seen.contains(
                state_code(nodes[n].store, left[n]@),
            ))
        &&& forall|c: Seq<nat>| #[trigger]
            seen.contains(c) ==> exists|n: int|
                0 <= n < nodes.len() && (#[trigger] nodes[n]).visited && state_code(
                    nodes[n].store,
                    left[n]@,
                ) == c
    }

    /// A walk with one more store is as long as the walk and the new leg.
    pub proof fn lemma_walk_extended(
        &self,
        demand: Seq<(ProductId, u32)>,
        shopper: Location,
        walk: Seq<StoreId>,
        next: StoreId,
    )
        requires
            self.purchase_walk(demand, walk),
            self.walk_length(walk, shopper) is Some,
            self.store_ids@.contains(next),
            walk.last() != next,
            self.travel_times.time(walk.last(), next) is Some,
            buys(self.stores@, next, residual_after(self.stores@, demand, walk)),
        ensures
            self.purchase_walk(demand, walk.push(next)),
            self.walk_length(walk.push(next), shopper) == Some(
                self.walk_length(walk, shopper)->0 + self.travel_times.time(
                    walk.last(),
                    next,
                )->0 as nat,
            ),
            residual_after(self.stores@, demand, walk.push(next)) == after_visit(
                self.stores@,
                next,
                residual_after(self.stores@, demand, walk),
            ),
    {
        let longer = walk.push(next);
        assert(longer.drop_last() == walk);
        assert(longer[longer.len() - 2] == walk.last());
        assert(longer[0] == walk[0]);
    }

    /// Takes the state `(next, remaining)`, reached along `walk` in
    /// `distance`, into the search: as a new point where the state is new;
    /// as the better way to a point that is not settled yet; or not at all.
    fn reach(
        &self,
        nodes: &mut Vec<SearchNode>,
        left: &mut Vec<Vec<(ProductId, u32)>>,
        queue: &mut Vec<(Time, usize)>,
        from: Option<usize>,
        next: StoreId,
        remaining: Vec<(ProductId, u32)>,
        distance: Time,
        Ghost(demand): Ghost<Seq<(ProductId, u32)>>,
        Ghost(shopper): Ghost<Location>,
        Ghost(walks): Ghost<Seq<Seq<StoreId>>>,
        Ghost(seen): Ghost<Set<Seq<nat>>>,
        Ghost(walk): Ghost<Seq<StoreId>>,
    ) -> (r: Ghost<Seq<Seq<StoreId>>>)
        requires
            self.search_inv(demand, shopper, old(nodes)@, old(left)@, walks, old(queue)@, seen),
            self.purchase_walk(demand, walk),
            walk.last() == next,
            residual_after(self.stores@, demand, walk) == remaining@,
            same_products(remaining@, demand),
            self.walk_length(walk, shopper) == Some(distance as nat),
            match from {
                Some(p) => p < old(nodes)@.len() && old(nodes)@[p as int].visited && walk
                    == walks[p as int].push(next),
                None => walk == seq![next],
            },
        ensures
            self.search_inv(demand, shopper, final(nodes)@, final(left)@, r@, final(queue)@, seen),
            final(nodes)@.len() >= old(nodes)@.len(),
            final(queue)@.len() >= old(queue)@.len(),
            forall|n: int|
                0 <= n < old(nodes)@.len()
                    ==> (#[trigger] final(nodes)@[n]).visited == old(nodes)@[n].visited
                    && final(nodes)@[n].store == old(nodes)@[n].store && final(left)@[n]
                    == old(left)@[n],
            forall|n: int|
                0 <= n < old(nodes)@.len() && (#[trigger] old(nodes)@[n]).visited
                    ==> final(nodes)@[n] == old(nodes)@[n] && r@[n] == walks[n],
            grown(old(nodes)@, old(left)@, final(nodes)@, final(left)@),
            plan_view(final(nodes)@, final(left)@, r@, final(queue)@) == taken_in(
                plan_view(old(nodes)@, old(left)@, walks, old(queue)@),
                from,
                next,
                remaining@,
                distance,
            ),
            forall|n: int|
                old(nodes)@.len() <= n < final(nodes)@.len()
                    ==> !(#[trigger] final(nodes)@[n]).visited,
            queue_tight(old(nodes)@, old(queue)@) && (forall|n: int|
                0 <= n < old(nodes)@.len() && (#[trigger] old(nodes)@[n]).visited
                    ==> old(nodes)@[n].distance <= distance)
                    ==> queue_tight(final(nodes)@, final(queue)@)
                && reached(final(nodes)@, final(left)@, next, remaining@, distance as nat),
    {
        let ghost mut new_walks = walks;
        match find_node(nodes, left, next, &remaining) {
            Some(at) => {
                if !nodes[at].visited && distance < nodes[at].distance {
                    let better: SearchNode = SearchNode {
                        store: next,
                        distance,
                        previous: from,
                        visited: false,
                    };
                    nodes.set(at, better);
                    queue.push((distance, at));
                    proof {
                        new_walks = walks.update(at as int, walk);
                        assert forall|n: int| 0 <= n < nodes@.len()
                            implies #[trigger] self.node_sound(
                            demand,
                            shopper,
                            nodes@,
                            left@,
                            new_walks,
                            n,
                        ) by {
                            assert(self.node_sound(demand, shopper, old(nodes)@, left@, walks, n));
                            if n != at {
                                match old(nodes)@[n].previous {
                                    Some(p) => {
                                        assert(p != at);
                                    },
                                    None => {},
                                }
                            }
                        }
                        assert forall|c: Seq<nat>| #[trigger] seen.contains(c) implies exists|
                            n: int,
                        |
                            0 <= n < nodes@.len() && (#[trigger] nodes@[n]).visited && state_code(
                                nodes@[n].store,
                                left@[n]@,
                            ) == c by {
                            let n = choose|n: int|
                                0 <= n < old(nodes)@.len() && (#[trigger] old(nodes)@[n]).visited
                                    && state_code(old(nodes)@[n].store, left@[n]@) == c;
                            assert(nodes@[n].visited);
                        }
                        assert(grown(old(nodes)@, old(left)@, nodes@, left@));
                        assert(walk == walk_via(walks, from, next));
                        if queue_tight(old(nodes)@, old(queue)@) && (forall|n: int|
                            0 <= n < old(nodes)@.len() && (#[trigger] old(nodes)@[n]).visited
                                ==> old(nodes)@[n].distance <= distance) {
                            lemma_queue_tight_after(
                                old(nodes)@,
                                old(queue)@,
                                nodes@,
                                queue@,
                                at as int,
                                distance,
                            );
                            assert(nodes@[at as int].store == next);
                        }
                    }
                } else {
                    proof {
                        assert(grown(old(nodes)@, old(left)@, nodes@, left@));
                        assert(nodes@[at as int].store == next);
                    }
                }
            },
            None => {
                let fresh: SearchNode = SearchNode {
                    store: next,
                    distance,
                    previous: from,
                    visited: false,
                };
                let ghost code = state_code(next, remaining@);
                nodes.push(fresh);
                left.push(remaining);
                queue.push((distance, nodes.len() - 1));
                proof {
                    new_walks = walks.push(walk);
                    let last = nodes@.len() - 1;
                    assert forall|n: int| 0 <= n < nodes@.len() implies #[trigger] self.node_sound(
                        demand,
                        shopper,
                        nodes@,
                        left@,
                        new_walks,
                        n,
                    ) by {
                        if n < last {
                            assert(self.node_sound(
                                demand,
                                shopper,
                                old(nodes)@,
                                old(left)@,
                                walks,
                                n,
                            ));
                        }
                    }
                    assert(!seen.contains(code)) by {
                        if seen.contains(code) {
                            let n = choose|n: int|
                                0 <= n < old(nodes)@.len() && (#[trigger] old(nodes)@[n]).visited
                                    && state_code(old(nodes)@[n].store, old(left)@[n]@) == code;
                            assert(self.node_sound(
                                demand,
                                shopper,
                                old(nodes)@,
                                old(left)@,
                                walks,
                                n,
                            ));
                            lemma_state_code_injective(
                                old(nodes)@[n].store,
                                old(left)@[n]@,
                                next,
                                remaining@,
                            );
                        }
                    }
                    assert forall|c: Seq<nat>| #[trigger] seen.contains(c) implies exists|n: int|
                        0 <= n < nodes@.len() && (#[trigger] nodes@[n]).visited && state_code(
                            nodes@[n].store,
                            left@[n]@,
                        ) == c by {
                        let n = choose|n: int|
                            0 <= n < old(nodes)@.len() && (#[trigger] old(nodes)@[n]).visited
                                && state_code(old(nodes)@[n].store, old(left)@[n]@) == c;
                        assert(nodes@[n].visited);
                    }
                    assert forall|k: int| 0 <= k < queue@.len() implies (#[trigger] queue@[k]).1
                        < nodes@.len() by {
                        if k < old(queue)@.len() {
                            assert(queue@[k] == old(queue)@[k]);
                        }
                    }
                    assert(grown(old(nodes)@, old(left)@, nodes@, left@));
                    assert(walk == walk_via(walks, from, next));
                    assert(lefts(left@) =~= lefts(old(left)@).push(remaining@));
                    if queue_tight(old(nodes)@, old(queue)@) && (forall|n: int|
                        0 <= n < old(nodes)@.len() && (#[trigger] old(nodes)@[n]).visited
                            ==> old(nodes)@[n].distance <= distance) {
                        lemma_queue_tight_after(
                            old(nodes)@,
                            old(queue)@,
                            nodes@,
                            queue@,
                            last,
                            distance,
                        );
                        assert(nodes@[last].store == next);
                    }
                }
            },
        }
        Ghost(new_walks)
    }
}

impl BSLPSD {
    /// Whether `walk` with the travel time `time` is a way to shop for all
    /// of `demand` between the two locations: a purchase walk after which
    /// nothing is left to buy.
    pub open spec fn shops_for(
        &self,
        demand: Seq<(ProductId, u32)>,
        shopper: Location,
        customer: Location,
        walk: Seq<StoreId>,
        time: Time,
    ) -> bool {
        &&& self.purchase_walk(demand, walk)
        &&& all_bought(residual_after(self.stores@, demand, walk))
        &&& self.route_time(walk, shopper, customer) == Some(time)
    }

    /// Whether the route `stores` with travel time `time` is a fastest way
    /// to shop for all of `demand` between the two locations.
    pub open spec fn fastest_plan(
        &self,
        demand: Seq<(ProductId, u32)>,
        shopper: Location,
        customer: Location,
        stores: Seq<StoreId>,
        time: Time,
    ) -> bool {
        &&& self.time_plan(demand, shopper, customer, stores, time)
        &&& forall|walk: Seq<StoreId>, other: Time| #[trigger]
            self.shops_for(demand, shopper, customer, walk, other) ==> time <= other
    }

    /// The candidate with which the skyline search begins: the way to shop
    /// for the list that the search for the fastest way finds, or none
    /// where all the stores together cannot supply the list.
    pub open spec fn first_candidate(
        &self,
        shopping_list: &ShoppingList,
        shopper: Location,
        customer: Location,
    ) -> Option<(Seq<StoreId>, Time)> {
        if self.feasible(shopping_list.items@) {
            self.planned(shopping_list.demand(), shopper, customer)
        } else {
            None
        }
    }

    /// Whether there is no way to shop for all of `demand` between the two locations.
    pub open spec fn no_plan(
        &self,
        demand: Seq<(ProductId, u32)>,
        shopper: Location,
        customer: Location,
    ) -> bool {
        &&& !all_bought(demand)
        &&& forall|walk: Seq<StoreId>, time: Time|
            !#[trigger] self.shops_for(demand, shopper, customer, walk, time)
    }

    /// The first `upto` stores of the planner at which the shopper can
    /// begin are found, each within its distance from the shopper.
    pub open spec fn seeded(
        &self,
        demand: Seq<(ProductId, u32)>,
        shopper: Location,
        nodes: Seq<SearchNode>,
        left: Seq<Vec<(ProductId, u32)>>,
        upto: int,
    ) -> bool {
        forall|i: int|
            0 <= i < upto && buys(self.stores@, #[trigger] self.store_ids@[i], demand)
                && self.stores@.contains_key(self.store_ids@[i]) ==> reached(
                nodes,
                left,
                self.store_ids@[i],
                after_visit(self.stores@, self.store_ids@[i], demand),
                shopper.distance(self.stores@[self.store_ids@[i]].location),
            )
    }

    /// From the point `at`, each of the first `upto` stores of the planner
    /// that can be gone to is found, within the time of the point and the
    /// leg.
    pub open spec fn relaxed_from(
        &self,
        nodes: Seq<SearchNode>,
        left: Seq<Vec<(ProductId, u32)>>,
        at: int,
        upto: int,
    ) -> bool {
        forall|i: int|
            0 <= i < upto && (#[trigger] self.store_ids@[i]) != nodes[at].store
                && self.travel_times.time(nodes[at].store, self.store_ids@[i]) is Some && buys(
                self.stores@,
                self.store_ids@[i],
                left[at]@,
            ) && nodes[at].distance + self.travel_times.time(
                nodes[at].store,
                self.store_ids@[i],
            )->0 <= u64::MAX ==> reached(
                nodes,
                left,
                self.store_ids@[i],
                after_visit(self.stores@, self.store_ids@[i], left[at]@),
                (nodes[at].distance + self.travel_times.time(
                    nodes[at].store,
                    self.store_ids@[i],
                )->0) as nat,
            )
    }

    /// From each settled point but `except`, every store that can be gone
    /// to is found.
    pub open spec fn relaxed(
        &self,
        nodes: Seq<SearchNode>,
        left: Seq<Vec<(ProductId, u32)>>,
        except: int,
    ) -> bool {
        forall|at: int|
            0 <= at < nodes.len() && (#[trigger] nodes[at]).visited && at != except
                ==> self.relaxed_from(nodes, left, at, self.store_ids@.len() as int)
    }

    /// What was found from the shopper and from the settled points stays
    /// found as the search comes further.
    pub proof fn lemma_found_grown(
        &self,
        demand: Seq<(ProductId, u32)>,
        shopper: Location,
        before: Seq<SearchNode>,
        left_before: Seq<Vec<(ProductId, u32)>>,
        nodes: Seq<SearchNode>,
        left: Seq<Vec<(ProductId, u32)>>,
        upto: int,
        except: int,
        at: int,
        upto_at: int,
    )
        requires
            grown(before, left_before, nodes, left),
            self.seeded(demand, shopper, before, left_before, upto),
            self.relaxed(before, left_before, except),
            0 <= at < before.len() && before[at].visited ==> self.relaxed_from(
                before,
                left_before,
                at,
                upto_at,
            ),
        ensures
            self.seeded(demand, shopper, nodes, left, upto),
            forall|u: int|
                0 <= u < before.len() && (#[trigger] before[u]).visited && u != except
                    ==> self.relaxed_from(nodes, left, u, self.store_ids@.len() as int),
            0 <= at < before.len() && before[at].visited ==> self.relaxed_from(
                nodes,
                left,
                at,
                upto_at,
            ),
    {
        assert forall|i: int|
            0 <= i < upto && buys(self.stores@, #[trigger] self.store_ids@[i], demand)
                && self.stores@.contains_key(self.store_ids@[i]) implies reached(
            nodes,
            left,
            self.store_ids@[i],
            after_visit(self.stores@, self.store_ids@[i], demand),
            shopper.distance(self.stores@[self.store_ids@[i]].location),
        ) by {
            lemma_reached_grown(
                before,
                left_before,
                nodes,
                left,
                self.store_ids@[i],
                after_visit(self.stores@, self.store_ids@[i], demand),
                shopper.distance(self.stores@[self.store_ids@[i]].location),
            );
        }
        assert forall|u: int|
            0 <= u < before.len() && (#[trigger] before[u]).visited && u
                != except implies self.relaxed_from(
            nodes,
            left,
            u,
            self.store_ids@.len() as int,
        ) by {
            self.lemma_relaxed_from_grown(
                before,
                left_before,
                nodes,
                left,
                u,
                self.store_ids@.len() as int,
            );
        }
        if 0 <= at < before.len() && before[at].visited {
            self.lemma_relaxed_from_grown(before, left_before, nodes, left, at, upto_at);
        }
    }

    /// What was found from a settled point stays found as the search comes further.
    pub proof fn lemma_relaxed_from_grown(
        &self,
        before: Seq<SearchNode>,
        left_before: Seq<Vec<(ProductId, u32)>>,
        nodes: Seq<SearchNode>,
        left: Seq<Vec<(ProductId, u32)>>,
        at: int,
        upto: int,
    )
        requires
            grown(before, left_before, nodes, left),
            0 <= at < before.len(),
            before[at].visited,
            self.relaxed_from(before, left_before, at, upto),
        ensures
            self.relaxed_from(nodes, left, at, upto),
    {
        assert(nodes[at] == before[at]);
        assert(left[at]@ == left_before[at]@);
        assert forall|i: int|
            0 <= i < upto && (#[trigger] self.store_ids@[i]) != nodes[at].store
                && self.travel_times.time(nodes[at].store, self.store_ids@[i]) is Some && buys(
                self.stores@,
                self.store_ids@[i],
                left[at]@,
            ) && nodes[at].distance + self.travel_times.time(
                nodes[at].store,
                self.store_ids@[i],
            )->0 <= u64::MAX implies reached(
            nodes,
            left,
            self.store_ids@[i],
            after_visit(self.stores@, self.store_ids@[i], left[at]@),
            (nodes[at].distance + self.travel_times.time(nodes[at].store, self.store_ids@[i])->0)
                as nat,
        ) by {
            lemma_reached_grown(
                before,
                left_before,
                nodes,
                left,
                self.store_ids@[i],
                after_visit(self.stores@, self.store_ids@[i], left[at]@),
                (nodes[at].distance + self.travel_times.time(
                    nodes[at].store,
                    self.store_ids@[i],
                )->0) as nat,
            );
        }
    }

    /// Once every point is settled, the search has found the end of every
    /// purchase walk, within the travel time of the walk.
    pub proof fn lemma_walk_reached(
        &self,
        demand: Seq<(ProductId, u32)>,
        shopper: Location,
        nodes: Seq<SearchNode>,
        left: Seq<Vec<(ProductId, u32)>>,
        walk: Seq<StoreId>,
    )
        requires
            nodes.len() == left.len(),
            self.seeded(demand, shopper, nodes, left, self.store_ids@.len() as int),
            self.relaxed(nodes, left, -1),
            forall|n: int| 0 <= n < nodes.len() ==> (#[trigger] nodes[n]).visited,
            self.purchase_walk(demand, walk),
            self.walk_length(walk, shopper) is Some,
            self.walk_length(walk, shopper)->0 <= u64::MAX,
        ensures
            reached(
                nodes,
                left,
                walk.last(),
                residual_after(self.stores@, demand, walk),
                self.walk_length(walk, shopper)->0,
            ),
        decreases walk.len(),
    {
        let last = walk.last();
        let i = choose|i: int| 0 <= i < self.store_ids@.len() && self.store_ids@[i] == last;
        if walk.len() == 1 {
            assert(walk.drop_last() =~= Seq::<StoreId>::empty());
            assert(self.path_length(walk) == Some(0nat));
            assert(buys(self.stores@, self.store_ids@[i], demand));
        } else {
            let front = walk.drop_last();
            assert(front[0] == walk[0]);
            assert(front.last() == walk[walk.len() - 2]);
            self.lemma_walk_reached(demand, shopper, nodes, left, front);
            let at = choose|n: int|
                0 <= n < nodes.len() && (#[trigger] nodes[n]).store == front.last() && left[n]@
                    == residual_after(self.stores@, demand, front) && nodes[n].distance
                    <= self.walk_length(front, shopper)->0;
            assert(nodes[at].visited);
            assert(self.relaxed_from(nodes, left, at, self.store_ids@.len() as int));
            assert(self.store_ids@[i] != nodes[at].store);
        }
    }

    /// Puts into the search each store at which the shopper can begin:
    /// each store of the planner that sells something of the list.
    fn seed(
        &self,
        nodes: &mut Vec<SearchNode>,
        left: &mut Vec<Vec<(ProductId, u32)>>,
        queue: &mut Vec<(Time, usize)>,
        demand: &Vec<(ProductId, u32)>,
        shopper_location: &Location,
    ) -> (r: Ghost<Seq<Seq<StoreId>>>)
        requires
            old(nodes)@.len() == 0,
            old(left)@.len() == 0,
            old(queue)@.len() == 0,
        ensures
            self.search_inv(
                demand@,
                *shopper_location,
                final(nodes)@,
                final(left)@,
                r@,
                final(queue)@,
                Set::empty(),
            ),
            queue_tight(final(nodes)@, final(queue)@),
            self.seeded(
                demand@,
                *shopper_location,
                final(nodes)@,
                final(left)@,
                self.store_ids@.len() as int,
            ),
            forall|n: int| 0 <= n < final(nodes)@.len() ==> !(#[trigger] final(nodes)@[n]).visited,
            plan_view(final(nodes)@, final(left)@, r@, final(queue)@) == self.seeded_plan(
                demand@,
                *shopper_location,
                self.store_ids@.len() as int,
            ),
    {
        let ghost mut walks: Seq<Seq<StoreId>> = Seq::empty();
        let ghost seen: Set<Seq<nat>> = Set::empty();
        let mut i: usize = 0;
        proof {
            assert(lefts(left@) =~= Seq::empty());
            assert(nodes@ =~= Seq::empty());
            assert(queue@ =~= Seq::empty());
        }
        while i < self.store_ids.len()
            invariant
                i <= self.store_ids.len(),
                plan_view(nodes@, left@, walks, queue@) == self.seeded_plan(
                    demand@,
                    *shopper_location,
                    i as int,
                ),
                self.search_inv(demand@, *shopper_location, nodes@, left@, walks, queue@, seen),
                seen == Set::<Seq<nat>>::empty(),
                queue_tight(nodes@, queue@),
                self.seeded(demand@, *shopper_location, nodes@, left@, i as int),
                forall|n: int| 0 <= n < nodes@.len() ==> !(#[trigger] nodes@[n]).visited,
            decreases self.store_ids.len() - i,
        {
            let store: StoreId = self.store_ids[i];
            let visit: (Vec<(ProductId, u32)>, bool) = self.visit(store, demand);
            let ghost before = nodes@;
            let ghost left_before = left@;
            if visit.1 {
                match self.location_of(store) {
                    Some(location) => {
                        let distance: Time = shopper_location.distance_to(&location);
                        let ghost walk = seq![store];
                        proof {
                            assert(walk.drop_last() =~= Seq::<StoreId>::empty());
                            assert(self.store_ids@[i as int] == store);
                            assert(self.path_length(walk) == Some(0nat));
                        }
                        let found = self.reach(
                            nodes,
                            left,
                            queue,
                            None,
                            store,
                            visit.0,
                            distance,
                            Ghost(demand@),
                            Ghost(*shopper_location),
                            Ghost(walks),
                            Ghost(seen),
                            Ghost(walk),
                        );
                        proof {
                            walks = found@;
                        }
                    },
                    None => {},
                }
            }
            proof {
                assert(grown(before, left_before, nodes@, left@));
                self.lemma_found_grown(
                    demand@,
                    *shopper_location,
                    before,
                    left_before,
                    nodes@,
                    left@,
                    i as int,
                    -1,
                    -1,
                    0,
                );
                assert(self.relaxed(before, left_before, -1));
            }
            i += 1;
        }
        Ghost(walks)
    }

    /// What holds while the search goes on from the settled point `at`,
    /// after the first `upto` stores of the planner.
    pub open spec fn expanding(
        &self,
        demand: Seq<(ProductId, u32)>,
        shopper: Location,
        nodes: Seq<SearchNode>,
        left: Seq<Vec<(ProductId, u32)>>,
        walks: Seq<Seq<StoreId>>,
        queue: Seq<(Time, usize)>,
        seen: Set<Seq<nat>>,
        at: int,
        upto: int,
    ) -> bool {
        &&& self.search_inv(demand, shopper, nodes, left, walks, queue, seen)
        &&& 0 <= at < nodes.len()
        &&& nodes[at].visited
        &&& queue_tight(nodes, queue)
        &&& self.seeded(demand, shopper, nodes, left, self.store_ids@.len() as int)
        &&& self.relaxed(nodes, left, at)
        &&& self.relaxed_from(nodes, left, at, upto)
        &&& forall|n: int|
            0 <= n < nodes.len() && (#[trigger] nodes[n]).visited ==> nodes[n].distance
                <= nodes[at].distance
    }

    /// Goes on from the settled point `at` to the store at place `place`
    /// among the planner's stores, if that store can be reached from the
    /// point and sells something of what is left.
    fn go_on(
        &self,
        nodes: &mut Vec<SearchNode>,
        left: &mut Vec<Vec<(ProductId, u32)>>,
        queue: &mut Vec<(Time, usize)>,
        at: usize,
        place: usize,
        Ghost(demand): Ghost<Seq<(ProductId, u32)>>,
        Ghost(shopper): Ghost<Location>,
        Ghost(walks): Ghost<Seq<Seq<StoreId>>>,
        Ghost(seen): Ghost<Set<Seq<nat>>>,
    ) -> (r: Ghost<Seq<Seq<StoreId>>>)
        requires
            self.expanding(
                demand,
                shopper,
                old(nodes)@,
                old(left)@,
                walks,
                old(queue)@,
                seen,
                at as int,
                place as int,
            ),
            place < self.store_ids@.len(),
        ensures
            self.expanding(
                demand,
                shopper,
                final(nodes)@,
                final(left)@,
                r@,
                final(queue)@,
                seen,
                at as int,
                place + 1,
            ),
            plan_view(final(nodes)@, final(left)@, r@, final(queue)@) == self.gone_on(
                plan_view(old(nodes)@, old(left)@, walks, old(queue)@),
                at as int,
                place as int,
            ),
            final(nodes)@.len() >= old(nodes)@.len(),
            forall|n: int|
                0 <= n < old(nodes)@.len()
                    ==> (#[trigger] final(nodes)@[n]).visited == old(nodes)@[n].visited,
            forall|n: int|
                0 <= n < old(nodes)@.len() && (#[trigger] old(nodes)@[n]).visited
                    ==> final(nodes)@[n] == old(nodes)@[n] && r@[n] == walks[n]
                    && final(left)@[n] == old(left)@[n],
            forall|n: int|
                old(nodes)@.len() <= n < final(nodes)@.len()
                    ==> !(#[trigger] final(nodes)@[n]).visited,
    {
        let ghost mut now: Seq<Seq<StoreId>> = walks;
        let node: SearchNode = nodes[at];
        let next: StoreId = self.store_ids[place];
        let ghost before = nodes@;
        let ghost left_before = left@;
        proof {
            assert(lefts(left@)[at as int] == left@[at as int]@);
        }
        if next != node.store {
            match self.travel_times.get(node.store, next) {
                Some(edge) => {
                    let visit: (Vec<(ProductId, u32)>, bool) = self.visit(next, &left[at]);
                    let total: u128 = node.distance as u128 + edge as u128;
                    if visit.1 && total <= u64::MAX as u128 {
                        let ghost walk = now[at as int].push(next);
                        proof {
                            assert(self.node_sound(demand, shopper, nodes@, left@, now, at as int));
                            assert(self.store_ids@[place as int] == next);
                            self.lemma_walk_extended(demand, shopper, now[at as int], next);
                            assert(same_products(visit.0@, demand));
                        }
                        let found = self.reach(
                            nodes,
                            left,
                            queue,
                            Some(at),
                            next,
                            visit.0,
                            total as u64,
                            Ghost(demand),
                            Ghost(shopper),
                            Ghost(now),
                            Ghost(seen),
                            Ghost(walk),
                        );
                        proof {
                            now = found@;
                        }
                    }
                },
                None => {},
            }
        }
        proof {
            assert(grown(before, left_before, nodes@, left@));
            self.lemma_found_grown(
                demand,
                shopper,
                before,
                left_before,
                nodes@,
                left@,
                self.store_ids@.len() as int,
                at as int,
                at as int,
                place as int,
            );
            assert(nodes@[at as int] == before[at as int]);
            assert(left@[at as int]@ == left_before[at as int]@);
            assert(self.relaxed(nodes@, left@, at as int)) by {
                assert forall|u: int|
                    0 <= u < nodes@.len() && (#[trigger] nodes@[u]).visited && u
                        != at implies self.relaxed_from(
                    nodes@,
                    left@,
                    u,
                    self.store_ids@.len() as int,
                ) by {
                    assert(u < before.len());
                    assert(before[u].visited);
                }
            }
            assert forall|n: int|
                0 <= n < nodes@.len() && (#[trigger] nodes@[n]).visited implies nodes@[n].distance
                <= nodes@[at as int].distance by {
                assert(n < before.len());
                assert(before[n].visited);
            }
            assert(self.relaxed_from(nodes@, left@, at as int, place + 1));
        }
        Ghost(now)
    }

    /// Goes on from the settled point `at` to every other store that
    /// can be reached from it and sells something of what is left.
    fn expand(
        &self,
        nodes: &mut Vec<SearchNode>,
        left: &mut Vec<Vec<(ProductId, u32)>>,
        queue: &mut Vec<(Time, usize)>,
        at: usize,
        Ghost(demand): Ghost<Seq<(ProductId, u32)>>,
        Ghost(shopper): Ghost<Location>,
        Ghost(walks): Ghost<Seq<Seq<StoreId>>>,
        Ghost(seen): Ghost<Set<Seq<nat>>>,
    ) -> (r: Ghost<Seq<Seq<StoreId>>>)
        requires
            self.expanding(
                demand,
                shopper,
                old(nodes)@,
                old(left)@,
                walks,
                old(queue)@,
                seen,
                at as int,
                0,
            ),
        ensures
            self.search_inv(demand, shopper, final(nodes)@, final(left)@, r@, final(queue)@, seen),
            final(nodes)@.len() >= old(nodes)@.len(),
            forall|n: int|
                0 <= n < old(nodes)@.len()
                    ==> (#[trigger] final(nodes)@[n]).visited == old(nodes)@[n].visited,
            forall|n: int|
                0 <= n < old(nodes)@.len() && (#[trigger] old(nodes)@[n]).visited
                    ==> final(nodes)@[n] == old(nodes)@[n] && r@[n] == walks[n]
                    && final(left)@[n] == old(left)@[n],
            forall|n: int|
                old(nodes)@.len() <= n < final(nodes)@.len()
                    ==> !(#[trigger] final(nodes)@[n]).visited,
            queue_tight(final(nodes)@, final(queue)@),
            self.seeded(
                demand,
                shopper,
                final(nodes)@,
                final(left)@,
                self.store_ids@.len() as int,
            ),
            self.relaxed(final(nodes)@, final(left)@, -1),
            plan_view(final(nodes)@, final(left)@, r@, final(queue)@) == self.expanded(
                plan_view(old(nodes)@, old(left)@, walks, old(queue)@),
                at as int,
                self.store_ids@.len() as int,
            ),
    {
        let ghost mut now: Seq<Seq<StoreId>> = walks;
        let mut j: usize = 0;
        while j < self.store_ids.len()
            invariant
                j <= self.store_ids.len(),
                plan_view(nodes@, left@, now, queue@) == self.expanded(
                    plan_view(old(nodes)@, old(left)@, walks, old(queue)@),
                    at as int,
                    j as int,
                ),
                self.expanding(demand, shopper, nodes@, left@, now, queue@, seen, at as int,
                    j as int),
                nodes@.len() >= old(nodes)@.len(),
                forall|n: int|
                    0 <= n < old(nodes)@.len()
                        ==> (#[trigger] nodes@[n]).visited == old(nodes)@[n].visited,
                forall|n: int|
                    0 <= n < old(nodes)@.len() && (#[trigger] old(nodes)@[n]).visited ==> nodes@[n]
                        == old(nodes)@[n] && now[n] == walks[n] && left@[n] == old(left)@[n],
                forall|n: int|
                    old(nodes)@.len() <= n < nodes@.len() ==> !(#[trigger] nodes@[n]).visited,
            decreases self.store_ids.len() - j,
        {
            let ghost before = nodes@;
            let found = self.go_on(
                nodes,
                left,
                queue,
                at,
                j,
                Ghost(demand),
                Ghost(shopper),
                Ghost(now),
                Ghost(seen),
            );
            proof {
                now = found@;
                assert forall|n: int| 0 <= n < old(nodes)@.len() implies (
                #[trigger] nodes@[n]).visited == old(nodes)@[n].visited by {
                    assert(before[n].visited == old(nodes)@[n].visited);
                }
                assert forall|n: int|
                    0 <= n < old(nodes)@.len() && (
                    #[trigger] old(nodes)@[n]).visited implies nodes@[n] == old(nodes)@[n]
                    && now[n] == walks[n] && left@[n] == old(left)@[n] by {
                    assert(before[n].visited);
                }
                assert forall|n: int| old(nodes)@.len() <= n < nodes@.len() implies !(
                #[trigger] nodes@[n]).visited by {
                    if n < before.len() {
                        assert(!before[n].visited);
                    }
                }
            }
            j += 1;
        }
        proof {
            assert(self.relaxed(nodes@, left@, -1)) by {
                assert forall|u: int|
                    0 <= u < nodes@.len() && (#[trigger] nodes@[u]).visited
                        implies self.relaxed_from(
                    nodes@,
                    left@,
                    u,
                    self.store_ids@.len() as int,
                ) by {}
            }
        }
        Ghost(now)
    }

    /// The stores along the way by which the search came to its point `at`.
    fn trace_back(
        &self,
        nodes: &Vec<SearchNode>,
        at: usize,
        Ghost(demand): Ghost<Seq<(ProductId, u32)>>,
        Ghost(shopper): Ghost<Location>,
        Ghost(left): Ghost<Seq<Vec<(ProductId, u32)>>>,
        Ghost(walks): Ghost<Seq<Seq<StoreId>>>,
        Ghost(queue): Ghost<Seq<(Time, usize)>>,
        Ghost(seen): Ghost<Set<Seq<nat>>>,
    ) -> (path: Vec<StoreId>)
        requires
            self.search_inv(demand, shopper, nodes@, left, walks, queue, seen),
            at < nodes@.len(),
        ensures
            path@ == walks[at as int],
    {
        let mut backwards: Vec<StoreId> = Vec::new();
        let mut current: usize = at;
        assert(walks[at as int] =~= walks[at as int] + backwards@.reverse());
        loop
            invariant_except_break
                current < nodes@.len(),
                walks[at as int] == walks[current as int] + backwards@.reverse(),
            invariant
                self.search_inv(demand, shopper, nodes@, left, walks, queue, seen),
                at < nodes@.len(),
            ensures
                walks[at as int] == backwards@.reverse(),
            decreases walks[current as int].len(),
        {
            let node: SearchNode = nodes[current];
            let ghost before = backwards@;
            assert(self.node_sound(demand, shopper, nodes@, left, walks, current as int));
            backwards.push(node.store);
            assert(backwards@.reverse() =~= seq![node.store] + before.reverse());
            match node.previous {
                Some(earlier) => {
                    assert(walks[at as int] =~= walks[earlier as int] + backwards@.reverse());
                    current = earlier;
                },
                None => {
                    assert(walks[at as int] =~= backwards@.reverse());
                    break ;
                },
            }
        }
        let mut path: Vec<StoreId> = Vec::new();
        let mut k: usize = backwards.len();
        while k > 0
            invariant
                k <= backwards.len(),
                path@.len() == backwards.len() - k,
                forall|n: int| 0 <= n < path@.len()
                    ==> path@[n] == backwards@[backwards.len() - 1 - n],
            decreases k,
        {
            k -= 1;
            path.push(backwards[k]);
        }
        assert(path@ =~= backwards@.reverse());
        path
    }

    /// Settles the point `at`, which the queue has handed out with the
    /// least time of all: marks it as settled.
    fn settle(
        &self,
        nodes: &mut Vec<SearchNode>,
        at: usize,
        Ghost(demand): Ghost<Seq<(ProductId, u32)>>,
        Ghost(shopper): Ghost<Location>,
        Ghost(left): Ghost<Seq<Vec<(ProductId, u32)>>>,
        Ghost(walks): Ghost<Seq<Seq<StoreId>>>,
        Ghost(queue): Ghost<Seq<(Time, usize)>>,
        Ghost(seen): Ghost<Set<Seq<nat>>>,
    ) -> (r: Ghost<Set<Seq<nat>>>)
        requires
            self.search_inv(demand, shopper, old(nodes)@, left, walks, queue, seen),
            at < old(nodes)@.len(),
            !old(nodes)@[at as int].visited,
        ensures
            self.search_inv(demand, shopper, final(nodes)@, left, walks, queue, r@),
            r@ == seen.insert(state_code(old(nodes)@[at as int].store, left[at as int]@)),
            !seen.contains(state_code(old(nodes)@[at as int].store, left[at as int]@)),
            bounded_seqs(demand.len() + 1, 0x1_0000_0000).contains(
                state_code(old(nodes)@[at as int].store, left[at as int]@),
            ),
            final(nodes)@.len() == old(nodes)@.len(),
            final(nodes)@ == old(nodes)@.update(
                at as int,
                SearchNode {
                    store: old(nodes)@[at as int].store,
                    distance: old(nodes)@[at as int].distance,
                    previous: old(nodes)@[at as int].previous,
                    visited: true,
                },
            ),
            final(nodes)@[at as int] == (SearchNode {
                store: old(nodes)@[at as int].store,
                distance: old(nodes)@[at as int].distance,
                previous: old(nodes)@[at as int].previous,
                visited: true,
            }),
            forall|n: int|
                0 <= n < old(nodes)@.len() && n != at
                    ==> (#[trigger] final(nodes)@[n]) == old(nodes)@[n],
    {
        let node: SearchNode = nodes[at];
        let ghost code = state_code(node.store, left[at as int]@);
        let ghost earlier = nodes@;
        nodes.set(
            at,
            SearchNode {
                store: node.store,
                distance: node.distance,
                previous: node.previous,
                visited: true,
            },
        );
        let ghost wider = seen.insert(code);
        proof {
            assert(self.node_sound(demand, shopper, earlier, left, walks, at as int));
            lemma_state_code_bounded(node.store, left[at as int]@);
            assert forall|n: int| 0 <= n < nodes@.len() implies #[trigger] self.node_sound(
                demand,
                shopper,
                nodes@,
                left,
                walks,
                n,
            ) by {
                assert(self.node_sound(demand, shopper, earlier, left, walks, n));
            }
            assert forall|n: int| 0 <= n < nodes@.len() implies ((
            #[trigger] nodes@[n]).visited <==> wider.contains(
                state_code(nodes@[n].store, left[n]@),
            )) by {
                assert(self.node_sound(demand, shopper, earlier, left, walks, n));
                assert(earlier[n].visited <==> seen.contains(
                    state_code(earlier[n].store, left[n]@),
                ));
                if n != at && state_code(nodes@[n].store, left[n]@) == code {
                    lemma_state_code_injective(
                        nodes@[n].store,
                        left[n]@,
                        node.store,
                        left[at as int]@,
                    );
                    if n < at {
                        assert(!(earlier[n].store == earlier[at as int].store && left[n]@
                            == left[at as int]@));
                    } else {
                        assert(!(earlier[at as int].store == earlier[n].store && left[at as int]@
                            == left[n]@));
                    }
                }
            }
            assert forall|c: Seq<nat>| #[trigger] wider.contains(c) implies exists|n: int|
                0 <= n < nodes@.len() && (#[trigger] nodes@[n]).visited && state_code(
                    nodes@[n].store,
                    left[n]@,
                ) == c by {
                if c == code {
                    assert(nodes@[at as int].visited);
                } else {
                    let n = choose|n: int|
                        0 <= n < earlier.len() && (#[trigger] earlier[n]).visited && state_code(
                            earlier[n].store,
                            left[n]@,
                        ) == c;
                    assert(nodes@[n].visited);
                }
            }
            assert forall|a: int, b: int|
                #![trigger nodes@[a], nodes@[b]]
                0 <= a < b < nodes@.len() implies !(nodes@[a].store == nodes@[b].store && left[a]@
                == left[b]@) by {
                assert(!(earlier[a].store == earlier[b].store && left[a]@ == left[b]@));
            }
            assert(earlier[at as int].visited <==> seen.contains(code));
        }
        Ghost(wider)
    }

    /// The fastest way to shop for `shopping_list` from the shopper to the
    /// customer, found by a shortest-path search over the states "at this
    /// store, with this much still to buy". At each store the shopper
    /// buys of each product as much as is wanted and on the shelf, and no
    /// store is visited without a purchase.
    ///
    /// The result is `None` where all the stores together cannot supply
    /// the list, and where no such way of shopping for all of it can be
    /// travelled in a representable time. Otherwise it is such a way, and
    /// no other takes less time. For a list on which nothing is wanted it
    /// is the way without any store.
    pub fn find_min_time_route_dijkstra(
        &self,
        shopping_list: &ShoppingList,
        shopper_location: Location,
        customer_location: Location,
    ) -> (r: Option<RouteCandidate>)
        ensures
            r is None <==> !self.feasible(shopping_list.items@) || self.no_plan(
                shopping_list.demand(),
                shopper_location,
                customer_location,
            ),
            match r {
                Some(route) => self.fastest_plan(
                    shopping_list.demand(),
                    shopper_location,
                    customer_location,
                    route.stores@,
                    route.shopping_time,
                ),
                None => true,
            },
            match r {
                Some(route) => Some(route@),
                None => None,
            } == self.first_candidate(shopping_list, shopper_location, customer_location),
    {
        let demand: Vec<(ProductId, u32)> = shopping_list.sorted_items();
        let nowhere: Vec<StoreId> = Vec::new();
        if !self.covered(nowhere.as_slice(), shopping_list, true) {
            return None;
        }
        if nothing_left(&demand) {
            proof {
                assert forall|walk: Seq<StoreId>, time: Time|
                    !#[trigger] self.shops_for(
                        demand@,
                        shopper_location,
                        customer_location,
                        walk,
                        time,
                    ) by {
                    self.lemma_no_walk_for_nothing(demand@, walk);
                }
            }
            return Some(
                RouteCandidate {
                    stores: nowhere,
                    shopping_time: shopper_location.distance_to(&customer_location),
                },
            );
        }
        let mut nodes: Vec<SearchNode> = Vec::new();
        let mut left: Vec<Vec<(ProductId, u32)>> = Vec::new();
        let mut queue: Vec<(Time, usize)> = Vec::new();
        let seeded = self.seed(&mut nodes, &mut left, &mut queue, &demand, &shopper_location);
        let ghost mut walks: Seq<Seq<StoreId>> = seeded@;
        let ghost mut seen: Set<Seq<nat>> = Set::empty();
        let ghost universe = bounded_seqs(demand@.len() + 1, 0x1_0000_0000);
        proof {
            lemma_bounded_seqs_finite(demand@.len() + 1, 0x1_0000_0000);
            assert(self.relaxed(nodes@, left@, -1));
        }
        let mut best: Option<(Time, usize)> = None;
        let ghost mut rounds: nat = 0;
        while queue.len() > 0
            invariant
                (plan_view(nodes@, left@, walks, queue@), best) == self.plan_after(
                    demand@,
                    shopper_location,
                    customer_location,
                    rounds,
                ),
                forall|earlier: nat|
                    earlier < rounds ==> (#[trigger] self.plan_after(
                        demand@,
                        shopper_location,
                        customer_location,
                        earlier,
                    )).0.queue.len() > 0,
                self.search_inv(demand@, shopper_location, nodes@, left@, walks, queue@, seen),
                universe == bounded_seqs(demand@.len() + 1, 0x1_0000_0000),
                universe.finite(),
                seen.subset_of(universe),
                !all_bought(demand@),
                demand@ == shopping_list.demand(),
                queue_tight(nodes@, queue@),
                self.seeded(
                    demand@,
                    shopper_location,
                    nodes@,
                    left@,
                    self.store_ids@.len() as int,
                ),
                self.relaxed(nodes@, left@, -1),
                match best {
                    Some((time, at)) => at < nodes@.len() && nodes@[at as int].visited
                        && all_bought(
                        left@[at as int]@,
                    ) && self.route_time(walks[at as int], shopper_location, customer_location)
                        == Some(time),
                    None => true,
                },
                forall|n: int|
                    0 <= n < nodes@.len() && (#[trigger] nodes@[n]).visited && all_bought(
                        left@[n]@,
                    ) && self.stores@.contains_key(nodes@[n].store) && nodes@[n].distance
                        + self.stores@[nodes@[n].store].location.distance(customer_location)
                        <= u64::MAX ==> best is Some && best_time(best) <= nodes@[n].distance
                        + self.stores@[nodes@[n].store].location.distance(customer_location),
            decreases universe.difference(seen).len(), queue@.len(),
        {
            let ghost queue_before = queue@;
            let ghost round_before = plan_view(nodes@, left@, walks, queue@);
            let ghost best_before = best;
            let entry: (Time, usize) = pop_nearest(&mut queue);
            let at: usize = entry.1;
            let node: SearchNode = nodes[at];
            proof {
                assert(lefts(left@)[at as int] == left@[at as int]@);
            }
            let ghost taken_at = choose|k: int|
                0 <= k < queue_before.len() && entry == #[trigger] queue_before[k] && queue@
                    == queue_before.remove(k);
            if !node.visited {
                let ghost earlier = nodes@;
                proof {
                    // the entry is the one that holds the time of the point
                    let k = choose|k: int|
                        0 <= k < queue_before.len() && #[trigger] queue_before[k] == (
                            node.distance,
                            at,
                        );
                    assert(entry.0 <= queue_before[k].0);
                    assert(queue_before[taken_at].0
                        >= earlier[queue_before[taken_at].1 as int].distance);
                    assert(entry.0 == node.distance);
                }
                let settled = self.settle(
                    &mut nodes,
                    at,
                    Ghost(demand@),
                    Ghost(shopper_location),
                    Ghost(left@),
                    Ghost(walks),
                    Ghost(queue@),
                    Ghost(seen),
                );
                proof {
                    lemma_fewer_left(
                        universe,
                        seen,
                        state_code(node.store, left@[at as int]@),
                    );
                    seen = settled@;
                    assert(grown(earlier, left@, nodes@, left@));
                    self.lemma_found_grown(
                        demand@,
                        shopper_location,
                        earlier,
                        left@,
                        nodes@,
                        left@,
                        self.store_ids@.len() as int,
                        -1,
                        -1,
                        0,
                    );
                    assert(self.relaxed(nodes@, left@, at as int)) by {
                        assert forall|u: int|
                            0 <= u < nodes@.len() && (#[trigger] nodes@[u]).visited && u
                                != at implies self.relaxed_from(
                            nodes@,
                            left@,
                            u,
                            self.store_ids@.len() as int,
                        ) by {
                            assert(earlier[u].visited);
                        }
                    }
                    lemma_queue_tight_settled(earlier, queue_before, nodes@, queue@, at as int,
                        taken_at);
                    assert forall|n: int|
                        0 <= n < nodes@.len() && (#[trigger] nodes@[n]).visited
                            implies nodes@[n].distance
                        <= nodes@[at as int].distance by {
                        if n != at {
                            assert(earlier[n].visited);
                            assert(earlier[n].distance <= queue_before[taken_at].0);
                        }
                    }
                }
                if nothing_left(&left[at]) {
                    match self.location_of(node.store) {
                        Some(location) => {
                            let total: u128 = node.distance as u128 + location.distance_to(
                                &customer_location,
                            ) as u128;
                            if total <= u64::MAX as u128 {
                                let better: bool = match best {
                                    Some((least, _)) => total < least as u128,
                                    None => true,
                                };
                                if better {
                                    proof {
                                        assert(self.node_sound(
                                            demand@,
                                            shopper_location,
                                            nodes@,
                                            left@,
                                            walks,
                                            at as int,
                                        ));
                                        let walk = walks[at as int];
                                        assert(walk.len() > 0);
                                        assert(self.stores@.contains_key(walk[0]));
                                        assert(self.stores@.contains_key(walk.last()));
                                        assert(self.route_length(
                                            walk,
                                            shopper_location,
                                            customer_location,
                                        ) == Some(total as nat));
                                    }
                                    best = Some((total as u64, at));
                                }
                            }
                        },
                        None => {},
                    }
                    proof {
                        lemma_all_bought_buys_nothing_all(self.stores@, left@[at as int]@);
                        assert(self.relaxed_from(
                            nodes@,
                            left@,
                            at as int,
                            self.store_ids@.len() as int,
                        ));
                        assert(self.relaxed(nodes@, left@, -1)) by {
                            assert forall|u: int|
                                0 <= u < nodes@.len() && (
                                #[trigger] nodes@[u]).visited implies self.relaxed_from(
                                nodes@,
                                left@,
                                u,
                                self.store_ids@.len() as int,
                            ) by {}
                        }
                    }
                } else {
                    let ghost settled_nodes = nodes@;
                    proof {
                        assert(self.relaxed_from(nodes@, left@, at as int, 0));
                    }
                    let found = self.expand(
                        &mut nodes,
                        &mut left,
                        &mut queue,
                        at,
                        Ghost(demand@),
                        Ghost(shopper_location),
                        Ghost(walks),
                        Ghost(seen),
                    );
                    proof {
                        walks = found@;
                        match best {
                            Some((time, b)) => {
                                assert(earlier[b as int].visited);
                                assert(settled_nodes[b as int].visited);
                                assert(nodes@[b as int].visited);
                            },
                            None => {},
                        }
                        assert forall|n: int|
                            0 <= n < nodes@.len() && (#[trigger] nodes@[n]).visited && all_bought(
                                left@[n]@,
                            ) && self.stores@.contains_key(nodes@[n].store) && nodes@[n].distance
                                + self.stores@[nodes@[n].store].location.distance(
                                customer_location,
                            ) <= u64::MAX
                                implies best is Some && best_time(best) <= nodes@[n].distance
                            + self.stores@[nodes@[n].store].location.distance(
                            customer_location,
                        ) by {
                            if n < settled_nodes.len() {
                                assert(nodes@[n].visited == settled_nodes[n].visited);
                                assert(settled_nodes[n].visited);
                                if n != at {
                                    assert(earlier[n].visited);
                                }
                            }
                        }
                    }
                }
            } else {
                proof {
                    lemma_queue_tight_dropped(nodes@, queue_before, queue@, taken_at);
                }
            }
            proof {
                assert((plan_view(nodes@, left@, walks, queue@), best) == self.plan_round(
                    round_before,
                    best_before,
                    customer_location,
                ));
                rounds = rounds + 1;
            }
        }
        proof {
            assert forall|n: int| 0 <= n < nodes@.len() implies (#[trigger] nodes@[n]).visited by {
                if !nodes@[n].visited {
                    let k = choose|k: int|
                        0 <= k < queue@.len() && #[trigger] queue@[k] == (
                            nodes@[n].distance,
                            n as usize,
                        );
                }
            }
            assert forall|walk: Seq<StoreId>, time: Time| #[trigger]
                self.shops_for(
                    demand@,
                    shopper_location,
                    customer_location,
                    walk,
                    time,
                ) implies best is Some && best_time(best) <= time by {
                assert(walk.len() > 0);
                let length = self.walk_length(walk, shopper_location)->0;
                assert(time == length + self.stores@[walk.last()].location.distance(
                    customer_location,
                ));
                self.lemma_walk_reached(demand@, shopper_location, nodes@, left@, walk);
                let n = choose|n: int|
                    0 <= n < nodes@.len() && (#[trigger] nodes@[n]).store == walk.last()
                        && left@[n]@ == residual_after(self.stores@, demand@, walk)
                        && nodes@[n].distance <= length;
                assert(nodes@[n].visited);
            }
        }
        proof {
            assert(self.plan_ends_at(demand@, shopper_location, customer_location, rounds));
            let chosen = choose|n: nat|
                self.plan_ends_at(demand@, shopper_location, customer_location, n);
            self.lemma_plan_ends_once(
                demand@,
                shopper_location,
                customer_location,
                rounds,
                chosen,
            );
        }
        match best {
            Some((time, at)) => {
                let path: Vec<StoreId> = self.trace_back(
                    &nodes,
                    at,
                    Ghost(demand@),
                    Ghost(shopper_location),
                    Ghost(left@),
                    Ghost(walks),
                    Ghost(queue@),
                    Ghost(seen),
                );
                proof {
                    assert(self.node_sound(demand@, shopper_location, nodes@, left@, walks,
                        at as int));
                    assert(self.shops_for(
                        demand@,
                        shopper_location,
                        customer_location,
                        path@,
                        time,
                    ));
                }
                Some(RouteCandidate { stores: path, shopping_time: time })
            },
            None => None,
        }
    }

    /// Where nothing is wanted, there is no purchase walk.
    pub proof fn lemma_no_walk_for_nothing(&self, demand: Seq<(ProductId, u32)>, walk: Seq<StoreId>)
        requires
            all_bought(demand),
        ensures
            !self.purchase_walk(demand, walk),
        decreases walk.len(),
    {
        if walk.len() > 1 {
            self.lemma_no_walk_for_nothing(demand, walk.drop_last());
        } else if walk.len() == 1 {
            assert(walk.drop_last() =~= Seq::<StoreId>::empty());
            lemma_all_bought_buys_nothing(self.stores@, walk.last(), demand);
        }
    }
}

/// The time of the best way found so far.
pub open spec fn best_time(best: Option<(Time, usize)>) -> Time {
    match best {
        Some((time, _)) => time,
        None => 0,
    }
}

/// After everything is bought, no visit to any store buys anything.
pub proof fn lemma_all_bought_buys_nothing_all(
    stores: Map<StoreId, Store>,
    remaining: Seq<(ProductId, u32)>,
)
    requires
        all_bought(remaining),
    ensures
        forall|store: StoreId| !#[trigger] buys(stores, store, remaining),
{
}

/// The queue still fits the points after the entry at `taken` was taken
/// out and its point, which was not settled, was settled.
pub proof fn lemma_queue_tight_settled(
    before: Seq<SearchNode>,
    queue_before: Seq<(Time, usize)>,
    nodes: Seq<SearchNode>,
    queue: Seq<(Time, usize)>,
    at: int,
    taken: int,
)
    requires
        queue_tight(before, queue_before),
        0 <= taken < queue_before.len(),
        queue == queue_before.remove(taken),
        queue_before[taken].1 == at,
        0 <= at < before.len(),
        nodes.len() == before.len(),
        !before[at].visited,
        nodes[at].visited,
        nodes[at].distance == before[at].distance,
        queue_before[taken].0 == before[at].distance,
        forall|n: int| 0 <= n < before.len() && n != at ==> nodes[n] == before[n],
        forall|k: int| 0 <= k < queue_before.len() ==> queue_before[taken].0 <= (
        #[trigger] queue_before[k]).0,
    ensures
        queue_tight(nodes, queue),
{
    assert forall|n: int| 0 <= n < nodes.len() && !(#[trigger] nodes[n]).visited implies exists|
        k: int,
    |
        0 <= k < queue.len() && #[trigger] queue[k] == (nodes[n].distance, n as usize) by {
        assert(n != at);
        assert(!before[n].visited);
        let k = choose|k: int|
            0 <= k < queue_before.len() && #[trigger] queue_before[k] == (
                before[n].distance,
                n as usize,
            );
        assert(k != taken);
        if k < taken {
            assert(queue[k] == queue_before[k]);
        } else {
            assert(queue[k - 1] == queue_before[k]);
        }
    }
    assert forall|k: int| 0 <= k < queue.len() implies (#[trigger] queue[k]).1 < nodes.len()
        && queue[k].0 >= nodes[queue[k].1 as int].distance by {
        if k < taken {
            assert(queue[k] == queue_before[k]);
        } else {
            assert(queue[k] == queue_before[k + 1]);
        }
    }
    assert forall|n: int, k: int|
        0 <= n < nodes.len() && 0 <= k < queue.len() && (#[trigger] nodes[n]).visited
            implies nodes[n].distance
        <= (#[trigger] queue[k]).0 by {
        let k0 = if k < taken {
            k
        } else {
            k + 1
        };
        assert(queue[k] == queue_before[k0]);
        if n != at {
            assert(before[n].visited);
        }
    }
}

/// The queue still fits the points after an entry of a settled point was taken out.
pub proof fn lemma_queue_tight_dropped(
    nodes: Seq<SearchNode>,
    queue_before: Seq<(Time, usize)>,
    queue: Seq<(Time, usize)>,
    taken: int,
)
    requires
        queue_tight(nodes, queue_before),
        0 <= taken < queue_before.len(),
        queue == queue_before.remove(taken),
        nodes[queue_before[taken].1 as int].visited,
    ensures
        queue_tight(nodes, queue),
{
    assert forall|n: int| 0 <= n < nodes.len() && !(#[trigger] nodes[n]).visited implies exists|
        k: int,
    |
        0 <= k < queue.len() && #[trigger] queue[k] == (nodes[n].distance, n as usize) by {
        let k = choose|k: int|
            0 <= k < queue_before.len() && #[trigger] queue_before[k] == (
                nodes[n].distance,
                n as usize,
            );
        assert(k != taken);
        if k < taken {
            assert(queue[k] == queue_before[k]);
        } else {
            assert(queue[k - 1] == queue_before[k]);
        }
    }
    assert forall|k: int| 0 <= k < queue.len() implies (#[trigger] queue[k]).1 < nodes.len()
        && queue[k].0 >= nodes[queue[k].1 as int].distance by {
        if k < taken {
            assert(queue[k] == queue_before[k]);
        } else {
            assert(queue[k] == queue_before[k + 1]);
        }
    }
    assert forall|n: int, k: int|
        0 <= n < nodes.len() && 0 <= k < queue.len() && (#[trigger] nodes[n]).visited
            implies nodes[n].distance
        <= (#[trigger] queue[k]).0 by {
        let k0 = if k < taken {
            k
        } else {
            k + 1
        };
        assert(queue[k] == queue_before[k0]);
    }
}

} // verus!

//! Successors of a route: one more store at the end, or another store in
//! place of the last; as they come, or with their stores put in the fastest
//! order.

use vstd::prelude::*;
use crate::algorithms::bsl_psd::BSLPSD;
use crate::models::route::candidate_views;
use crate::models::{Location, RouteCandidate, StoreId, Time};
use crate::utils::ordered::contains_id;

verus! {

/// The stores of `s`, each at its first place only.
pub open spec fn distinct(s: Seq<StoreId>) -> Seq<StoreId>
    decreases s.len(),
{
    if s.len() == 0 {
        Seq::empty()
    } else if s.drop_last().contains(s.last()) {
        distinct(s.drop_last())
    } else {
        distinct(s.drop_last()).push(s.last())
    }
}

/// `distinct` keeps exactly the stores of the sequence, each once.
pub proof fn lemma_distinct(s: Seq<StoreId>)
    ensures
        distinct(s).no_duplicates(),
        forall|x: StoreId|
            #![trigger distinct(s).contains(x)]
            #![trigger s.contains(x)]
            distinct(s).contains(x) <==> s.contains(x),
        s.no_duplicates() ==> distinct(s) == s,
        distinct(s).len() <= s.len(),
    decreases s.len(),
{
    if s.len() > 0 {
        let front = s.drop_last();
        lemma_distinct(front);
        let d = distinct(s);
        let df = distinct(front);
        assert forall|x: StoreId| d.contains(x) <==> s.contains(x) by {
            if d.contains(x) {
                let i = choose|i: int| 0 <= i < d.len() && d[i] == x;
                if i < df.len() {
                    assert(df[i] == x);
                    assert(df.contains(x));
                    let j = choose|j: int| 0 <= j < front.len() && front[j] == x;
                    assert(s[j] == x);
                } else {
                    assert(s[s.len() - 1] == x);
                }
            }
            if s.contains(x) {
                let j = choose|j: int| 0 <= j < s.len() && s[j] == x;
                if j < front.len() {
                    assert(front[j] == x);
                    assert(front.contains(x));
                    let i = choose|i: int| 0 <= i < df.len() && df[i] == x;
                    assert(d[i] == x);
                } else if front.contains(x) {
                    assert(df.contains(x));
                    let i = choose|i: int| 0 <= i < df.len() && df[i] == x;
                    assert(d[i] == x);
                } else {
                    assert(d[df.len() as int] == x);
                }
            }
        }
        if !front.contains(s.last()) {
            assert forall|i: int, j: int| 0 <= i < d.len() && 0 <= j < d.len() && i != j
                implies d[i]
                != d[j] by {
                if i < df.len() && j < df.len() {
                } else if i < df.len() {
                    assert(df.contains(df[i]));
                } else {
                    assert(df.contains(df[j]));
                }
            }
        }
        if s.no_duplicates() {
            assert(front.no_duplicates());
            if front.contains(s.last()) {
                let j = choose|j: int| 0 <= j < front.len() && front[j] == s.last();
                assert(s[j] == s[s.len() - 1]);
            }
            assert(d =~= s);
        }
    }
}

/// Every order of the stores of `s`: for each store in turn, that store
/// followed by every order of the others.
pub open spec fn permutations(s: Seq<StoreId>) -> Seq<Seq<StoreId>>
    decreases s.len(), s.len() + 1,
{
    if s.len() == 0 {
        seq![Seq::empty()]
    } else {
        picking(s, s.len())
    }
}

/// The orders of the stores of `s` that begin with one of its first `n` stores.
pub open spec fn picking(s: Seq<StoreId>, n: nat) -> Seq<Seq<StoreId>>
    decreases s.len(), n,
{
    if n == 0 || n > s.len() {
        Seq::empty()
    } else {
        picking(s, (n - 1) as nat) + led_by(s[n - 1], permutations(s.remove(n - 1)))
    }
}

/// Each of `tails` with `head` put in front.
pub open spec fn led_by(head: StoreId, tails: Seq<Seq<StoreId>>) -> Seq<Seq<StoreId>> {
    tails.map_values(|tail: Seq<StoreId>| seq![head] + tail)
}

/// The sequences that the vectors hold, in their order.
pub open spec fn rows(v: Seq<Vec<StoreId>>) -> Seq<Seq<StoreId>> {
    v.map_values(|row: Vec<StoreId>| row@)
}

/// The better of the fastest route found so far and `route` with its time:
/// the faster one, and the earlier one where they are equally fast.
pub open spec fn faster(
    best: Option<(Seq<StoreId>, Time)>,
    route: Seq<StoreId>,
    time: Option<Time>,
) -> Option<(Seq<StoreId>, Time)> {
    match time {
        None => best,
        Some(t) => match best {
            Some((_, least)) => if least <= t {
                best
            } else {
                Some((route, t))
            },
            None => Some((route, t)),
        },
    }
}

/// Whether no store occurs twice in `stores`.
pub fn all_distinct(stores: &[StoreId]) -> (r: bool)
    ensures
        r == stores@.no_duplicates(),
{
    let mut i: usize = 0;
    while i < stores.len()
        invariant
            i <= stores.len(),
            forall|a: int, b: int| 0 <= a < b < i ==> stores@[a] != stores@[b],
        decreases stores.len() - i,
    {
        let mut j: usize = 0;
        while j < i
            invariant
                j <= i < stores.len(),
                forall|a: int| 0 <= a < j ==> stores@[a] != stores@[i as int],
            decreases i - j,
        {
            if stores[j] == stores[i] {
                return false;
            }
            j += 1;
        }
        i += 1;
    }
    true
}

/// The stores of `stores`, each at its first place only.
pub fn unique_stores(stores: &[StoreId]) -> (r: Vec<StoreId>)
    ensures
        r@ == distinct(stores@),
{
    let mut unique: Vec<StoreId> = Vec::new();
    let mut i: usize = 0;
    while i < stores.len()
        invariant
            i <= stores.len(),
            unique@ == distinct(stores@.take(i as int)),
        decreases stores.len() - i,
    {
        proof {
            assert(stores@.take(i + 1).drop_last() == stores@.take(i as int));
            lemma_distinct(stores@.take(i as int));
        }
        if !contains_id(unique.as_slice(), stores[i]) {
            unique.push(stores[i]);
        }
        i += 1;
    }
    proof {
        assert(stores@.take(stores.len() as int) == stores@);
    }
    unique
}

impl BSLPSD {
    /// The route `stores` as a candidate with its travel time: none where
    /// a store occurs twice or the route cannot be travelled.
    pub open spec fn candidate(
        &self,
        stores: Seq<StoreId>,
        shopper: Location,
        customer: Location,
    ) -> Seq<(Seq<StoreId>, Time)> {
        match self.route_time(stores, shopper, customer) {
            Some(time) => if stores.no_duplicates() {
                seq![(stores, time)]
            } else {
                Seq::empty()
            },
            None => Seq::empty(),
        }
    }

    /// `stores` with the nearest unvisited store added at the end: the
    /// store nearest to the last store, or to the shopper where there is
    /// no store yet.
    pub open spec fn appended(&self, stores: Seq<StoreId>, shopper: Location) -> Option<
        Seq<StoreId>,
    > {
        let from = if stores.len() > 0 {
            Some(stores.last())
        } else {
            None
        };
        match self.min_detour(from, stores.to_set(), shopper) {
            Some(next) => Some(stores.push(next)),
            None => None,
        }
    }

    /// The store before the last of `stores`; none where there is just
    /// one store, which the shopper comes to from where they start.
    pub open spec fn before_last(stores: Seq<StoreId>) -> Option<StoreId> {
        if stores.len() >= 2 {
            Some(stores[stores.len() - 2])
        } else {
            None
        }
    }

    /// `stores` with the last store replaced by the unvisited store that is
    /// next in distance from the store before it, or from the shopper
    /// where the route has one store.
    pub open spec fn swapped(&self, stores: Seq<StoreId>, shopper: Location) -> Option<
        Seq<StoreId>,
    > {
        if stores.len() == 0 {
            None
        } else {
            match self.next_min_detour(
                Self::before_last(stores),
                stores.to_set(),
                stores.last(),
                shopper,
            ) {
                Some(next) => Some(stores.drop_last().push(next)),
                None => None,
            }
        }
    }

    /// The successors of a route: the route with one more store, and the
    /// route with another last store, each with its travel time.
    pub open spec fn successors(
        &self,
        stores: Seq<StoreId>,
        shopper: Location,
        customer: Location,
    ) -> Seq<(Seq<StoreId>, Time)> {
        (match self.appended(stores, shopper) {
            Some(longer) => self.candidate(longer, shopper, customer),
            None => Seq::empty(),
        }) + (match self.swapped(stores, shopper) {
            Some(other) => self.candidate(other, shopper, customer),
            None => Seq::empty(),
        })
    }

    /// The fastest of `routes` with its travel time; the earliest where
    /// several are equally fast, none where none can be travelled.
    pub open spec fn fastest(
        &self,
        routes: Seq<Seq<StoreId>>,
        shopper: Location,
        customer: Location,
    ) -> Option<(Seq<StoreId>, Time)>
        decreases routes.len(),
    {
        if routes.len() == 0 {
            None
        } else {
            faster(
                self.fastest(routes.drop_last(), shopper, customer),
                routes.last(),
                self.route_time(routes.last(), shopper, customer),
            )
        }
    }

    /// The stores of `stores`, each once, in the fastest order.
    pub open spec fn shortest_path(
        &self,
        stores: Seq<StoreId>,
        shopper: Location,
        customer: Location,
    ) -> Option<(Seq<StoreId>, Time)> {
        self.fastest(permutations(distinct(stores)), shopper, customer)
    }

    /// The stores of `stores` in the fastest order, as a candidate.
    pub open spec fn reordered(
        &self,
        stores: Seq<StoreId>,
        shopper: Location,
        customer: Location,
    ) -> Seq<(Seq<StoreId>, Time)> {
        match self.shortest_path(stores, shopper, customer) {
            Some(best) => seq![best],
            None => Seq::empty(),
        }
    }

    /// The successors of a route with their stores put in the fastest
    /// order. A route that visits a store twice has one successor: its
    /// stores, each once, in the fastest order.
    pub open spec fn successors_shuffle(
        &self,
        stores: Seq<StoreId>,
        shopper: Location,
        customer: Location,
    ) -> Seq<(Seq<StoreId>, Time)> {
        if !stores.no_duplicates() {
            self.reordered(stores, shopper, customer)
        } else {
            (match self.appended(stores, shopper) {
                Some(longer) => self.reordered(longer, shopper, customer),
                None => Seq::empty(),
            }) + (match self.swapped(stores, shopper) {
                Some(other) => self.reordered(other, shopper, customer),
                None => Seq::empty(),
            })
        }
    }

    /// `route` with the nearest unvisited store added at the end.
    pub fn append_nearest(&self, route: &[StoreId], shopper_location: &Location) -> (r: Option<
        Vec<StoreId>,
    >)
        ensures
            match r {
                Some(longer) => self.appended(route@, *shopper_location) == Some(longer@),
                None => self.appended(route@, *shopper_location) is None,
            },
    {
        let from: Option<StoreId> = if route.len() > 0 {
            Some(route[route.len() - 1])
        } else {
            None
        };
        match self.find_min_detour_store(from, route, shopper_location) {
            Some(next) => {
                let mut longer: Vec<StoreId> = copy_of(route);
                longer.push(next);
                Some(longer)
            },
            None => None,
        }
    }

    /// `route` with the last store replaced by the store that is next in
    /// distance from the store before it.
    pub fn swap_last(&self, route: &[StoreId], shopper_location: &Location) -> (r: Option<
        Vec<StoreId>,
    >)
        ensures
            match r {
                Some(other) => self.swapped(route@, *shopper_location) == Some(other@),
                None => self.swapped(route@, *shopper_location) is None,
            },
    {
        if route.len() == 0 {
            return None;
        }
        let last: StoreId = route[route.len() - 1];
        let from: Option<StoreId> = if route.len() >= 2 {
            Some(route[route.len() - 2])
        } else {
            None
        };
        match self.find_next_min_detour_store(from, route, last, shopper_location) {
            Some(next) => {
                let mut other: Vec<StoreId> = copy_of(route);
                other.pop();
                other.push(next);
                Some(other)
            },
            None => None,
        }
    }

    /// Adds `stores` to `found` as a candidate, with its travel time, unless
    /// a store occurs twice in it or it cannot be travelled.
    pub fn push_candidate(
        &self,
        found: &mut Vec<RouteCandidate>,
        stores: Vec<StoreId>,
        shopper_location: &Location,
        customer_location: &Location,
    )
        ensures
            candidate_views(final(found)@) == candidate_views(old(found)@) + self.candidate(
                stores@,
                *shopper_location,
                *customer_location,
            ),
    {
        match self.calculate_total_time(stores.as_slice(), shopper_location, customer_location) {
            Some(time) => {
                if all_distinct(stores.as_slice()) {
                    found.push(RouteCandidate { stores, shopping_time: time });
                    assert(candidate_views(found@) =~= candidate_views(old(found)@) + seq![
                        (stores@, time),
                    ]);
                } else {
                    assert(candidate_views(found@) =~= candidate_views(old(found)@)
                        + Seq::empty());
                }
            },
            None => {
                assert(candidate_views(found@) =~= candidate_views(old(found)@) + Seq::empty());
            },
        }
    }

    /// The successors of `route`: the route with the nearest unvisited
    /// store added at the end, and the route with its last store replaced by
    /// the store next in distance; each with its travel time from
    /// the shopper to the customer. A successor that visits a store twice or
    /// cannot be travelled is left out.
    pub fn generate_next_routes(
        &self,
        route: &RouteCandidate,
        shopper_location: &Location,
        customer_location: &Location,
    ) -> (r: Vec<RouteCandidate>)
        ensures
            candidate_views(r@) == self.successors(
                route.stores@,
                *shopper_location,
                *customer_location,
            ),
    {
        let mut next_routes: Vec<RouteCandidate> = Vec::new();
        assert(candidate_views(next_routes@) =~= Seq::empty());
        match self.append_nearest(route.stores.as_slice(), shopper_location) {
            Some(longer) => {
                self.push_candidate(&mut next_routes, longer, shopper_location, customer_location);
            },
            None => {},
        }
        let ghost first = candidate_views(next_routes@);
        match self.swap_last(route.stores.as_slice(), shopper_location) {
            Some(other) => {
                self.push_candidate(&mut next_routes, other, shopper_location, customer_location);
            },
            None => {
                assert(first + Seq::empty() =~= first);
            },
        }
        assert(Seq::<(Seq<StoreId>, Time)>::empty() + first =~= first);
        next_routes
    }

    /// Every order of `stores`.
    pub fn generate_permutations(&self, stores: Vec<StoreId>) -> (r: Vec<Vec<StoreId>>)
        ensures
            rows(r@) == permutations(stores@),
        decreases stores@.len(),
    {
        let mut result: Vec<Vec<StoreId>> = Vec::new();
        if stores.len() == 0 {
            result.push(Vec::new());
            assert(rows(result@) =~= seq![Seq::<StoreId>::empty()]);
            return result;
        }
        let mut i: usize = 0;
        assert(rows(result@) =~= picking(stores@, 0));
        while i < stores.len()
            invariant
                i <= stores.len(),
                stores.len() > 0,
                rows(result@) == picking(stores@, i as nat),
            decreases stores.len() - i,
        {
            let head: StoreId = stores[i];
            let mut remaining: Vec<StoreId> = stores.clone();
            remaining.remove(i);
            let tails: Vec<Vec<StoreId>> = self.generate_permutations(remaining);
            let ghost before = rows(result@);
            let ghost all_tails = permutations(stores@.remove(i as int));
            let mut j: usize = 0;
            assert(before + led_by(head, all_tails.take(0)) =~= before);
            while j < tails.len()
                invariant
                    j <= tails.len(),
                    rows(tails@) == all_tails,
                    rows(result@) == before + led_by(head, all_tails.take(j as int)),
                decreases tails.len() - j,
            {
                let mut order: Vec<StoreId> = Vec::new();
                order.push(head);
                let tail: &Vec<StoreId> = &tails[j];
                let mut k: usize = 0;
                while k < tail.len()
                    invariant
                        k <= tail.len(),
                        order@ == seq![head] + tail@.take(k as int),
                    decreases tail.len() - k,
                {
                    order.push(tail[k]);
                    assert(order@ =~= seq![head] + tail@.take(k + 1));
                    k += 1;
                }
                proof {
                    assert(tail@.take(tail.len() as int) == tail@);
                    assert(all_tails[j as int] == tail@);
                }
                let ghost earlier = result@;
                result.push(order);
                proof {
                    let done = all_tails.take(j as int);
                    assert(rows(result@) =~= rows(earlier).push(order@));
                    assert(all_tails.take(j + 1) =~= done.push(all_tails[j as int]));
                    assert(led_by(head, done.push(all_tails[j as int])) =~= led_by(
                        head,
                        done,
                    ).push(seq![head] + all_tails[j as int]));
                    assert(rows(result@) =~= before + led_by(head, all_tails.take(j + 1)));
                }
                j += 1;
            }
            proof {
                assert(all_tails.take(tails.len() as int) == all_tails);
            }
            i += 1;
        }
        result
    }

    /// The stores of `stores`, each once, in the order with the least
    /// travel time from the shopper to the customer, with that time; `None`
    /// where no order can be travelled.
    pub fn find_shortest_path(
        &self,
        stores: &[StoreId],
        shopper_location: &Location,
        customer_location: &Location,
    ) -> (r: Option<(Vec<StoreId>, Time)>)
        ensures
            match r {
                Some((path, time)) => self.shortest_path(
                    stores@,
                    *shopper_location,
                    *customer_location,
                ) == Some((path@, time)),
                None => self.shortest_path(stores@, *shopper_location, *customer_location)
                    is None,
            },
    {
        let unique: Vec<StoreId> = unique_stores(stores);
        let orders: Vec<Vec<StoreId>> = self.generate_permutations(unique);
        let ghost all = permutations(distinct(stores@));
        let mut best: Option<(usize, Time)> = None;
        let mut i: usize = 0;
        while i < orders.len()
            invariant
                i <= orders.len(),
                rows(orders@) == all,
                match best {
                    Some((at, time)) => at < i && self.fastest(
                        all.take(i as int),
                        *shopper_location,
                        *customer_location,
                    ) == Some((all[at as int], time)),
                    None => self.fastest(all.take(i as int), *shopper_location, *customer_location)
                        is None,
                },
            decreases orders.len() - i,
        {
            proof {
                assert(all.take(i + 1).drop_last() == all.take(i as int));
                assert(all[i as int] == orders@[i as int]@);
            }
            match self.calculate_total_time(
                orders[i].as_slice(),
                shopper_location,
                customer_location,
            ) {
                Some(time) => {
                    let better: bool = match best {
                        Some((_, least)) => time < least,
                        None => true,
                    };
                    if better {
                        best = Some((i, time));
                    }
                },
                None => {},
            }
            i += 1;
        }
        proof {
            assert(all.take(orders.len() as int) == all);
        }
        match best {
            Some((at, time)) => {
                let path: Vec<StoreId> = orders[at].clone();
                Some((path, time))
            },
            None => None,
        }
    }

    /// Adds the stores of `stores` in their fastest order to `found` as a candidate.
    pub fn push_reordered(
        &self,
        found: &mut Vec<RouteCandidate>,
        stores: &[StoreId],
        shopper_location: &Location,
        customer_location: &Location,
    )
        ensures
            candidate_views(final(found)@) == candidate_views(old(found)@) + self.reordered(
                stores@,
                *shopper_location,
                *customer_location,
            ),
    {
        match self.find_shortest_path(stores, shopper_location, customer_location) {
            Some((path, time)) => {
                found.push(RouteCandidate { stores: path, shopping_time: time });
                assert(candidate_views(found@) =~= candidate_views(old(found)@) + seq![
                    (path@, time),
                ]);
            },
            None => {
                assert(candidate_views(found@) =~= candidate_views(old(found)@) + Seq::empty());
            },
        }
    }

    /// The successors of `route` as `generate_next_routes` forms them, each
    /// with its stores put in the order of least travel time. A route that
    /// visits a store twice has one successor: its stores, each once, in
    /// the fastest order.
    pub fn generate_next_routes_shuffle(
        &self,
        route: &RouteCandidate,
        shopper_location: &Location,
        customer_location: &Location,
    ) -> (r: Vec<RouteCandidate>)
        ensures
            candidate_views(r@) == self.successors_shuffle(
                route.stores@,
                *shopper_location,
                *customer_location,
            ),
    {
        let mut next_routes: Vec<RouteCandidate> = Vec::new();
        assert(candidate_views(next_routes@) =~= Seq::empty());
        let ghost none = Seq::<(Seq<StoreId>, Time)>::empty();
        if !all_distinct(route.stores.as_slice()) {
            self.push_reordered(
                &mut next_routes,
                route.stores.as_slice(),
                shopper_location,
                customer_location,
            );
            assert(none + self.reordered(route.stores@, *shopper_location, *customer_location)
                =~= self.reordered(route.stores@, *shopper_location, *customer_location));
            return next_routes;
        }
        match self.append_nearest(route.stores.as_slice(), shopper_location) {
            Some(longer) => {
                self.push_reordered(
                    &mut next_routes,
                    longer.as_slice(),
                    shopper_location,
                    customer_location,
                );
            },
            None => {},
        }
        let ghost first = candidate_views(next_routes@);
        match self.swap_last(route.stores.as_slice(), shopper_location) {
            Some(other) => {
                self.push_reordered(
                    &mut next_routes,
                    other.as_slice(),
                    shopper_location,
                    customer_location,
                );
            },
            None => {
                assert(first + none =~= first);
            },
        }
        assert(none + first =~= first);
        next_routes
    }
}

/// A vector with the stores of `stores`.
pub fn copy_of(stores: &[StoreId]) -> (r: Vec<StoreId>)
    ensures
        r@ == stores@,
{
    let mut copy: Vec<StoreId> = Vec::new();
    let mut i: usize = 0;
    while i < stores.len()
        invariant
            i <= stores.len(),
            copy@ == stores@.take(i as int),
        decreases stores.len() - i,
    {
        copy.push(stores[i]);
        assert(copy@ =~= stores@.take(i + 1));
        i += 1;
    }
    assert(stores@.take(stores.len() as int) == stores@);
    copy
}

/// Every order that `permutations` and `picking` list is an order of
/// the stores of the sequence: as long, with no other stores, and without
/// repetition where the sequence has none.
pub proof fn lemma_permutations(s: Seq<StoreId>)
    ensures
        forall|k: int|
            0 <= k < permutations(s).len() ==> is_order_of(#[trigger] permutations(s)[k], s),
    decreases s.len(), s.len() + 1,
{
    if s.len() == 0 {
        assert(is_order_of(Seq::<StoreId>::empty(), s));
        assert(permutations(s) =~= seq![Seq::<StoreId>::empty()]);
        assert forall|k: int| 0 <= k < permutations(s).len() implies is_order_of(
            #[trigger] permutations(s)[k],
            s,
        ) by {
            assert(permutations(s)[k] == Seq::<StoreId>::empty());
        }
    } else {
        lemma_picking(s, s.len());
        assert(permutations(s) == picking(s, s.len()));
    }
}

/// Every order that `picking` lists is an order of the stores of the sequence.
pub proof fn lemma_picking(s: Seq<StoreId>, n: nat)
    requires
        n <= s.len(),
    ensures
        forall|k: int| 0 <= k < picking(s, n).len() ==> is_order_of(#[trigger] picking(s, n)[k], s),
    decreases s.len(), n,
{
    if s.len() == 0 {
    } else {
        if n == 0 || n > s.len() {
        } else {
            lemma_picking(s, (n - 1) as nat);
            let head = s[n - 1];
            let others = s.remove(n - 1);
            lemma_permutations(others);
            let tails = permutations(others);
            let earlier = picking(s, (n - 1) as nat);
            let all = picking(s, n);
            assert forall|k: int| 0 <= k < all.len() implies is_order_of(#[trigger] all[k], s) by {
                if k >= earlier.len() {
                    let tail = tails[k - earlier.len()];
                    let order = seq![head] + tail;
                    assert(all[k] == order);
                    assert(is_order_of(tail, others));
                    assert forall|i: int| 0 <= i < order.len() implies s.contains(
                        #[trigger] order[i],
                    ) by {
                        if i == 0 {
                            assert(s[n - 1] == order[0]);
                        } else {
                            assert(order[i] == tail[i - 1]);
                            assert(others.contains(tail[i - 1]));
                            let j = choose|j: int| 0 <= j < others.len()
                                && others[j] == tail[i - 1];
                            if j < n - 1 {
                                assert(s[j] == others[j]);
                            } else {
                                assert(s[j + 1] == others[j]);
                            }
                        }
                    }
                    if s.no_duplicates() {
                        assert(others.no_duplicates()) by {
                            assert forall|a: int, b: int|
                                0 <= a < others.len() && 0 <= b < others.len() && a
                                    != b implies others[a] != others[b] by {
                                let a2 = if a < n - 1 {
                                    a
                                } else {
                                    a + 1
                                };
                                let b2 = if b < n - 1 {
                                    b
                                } else {
                                    b + 1
                                };
                                assert(others[a] == s[a2] && others[b] == s[b2]);
                            }
                        }
                        assert forall|a: int, b: int|
                            0 <= a < order.len() && 0 <= b < order.len() && a != b implies order[a]
                            != order[b] by {
                            if a > 0 && b > 0 {
                                assert(order[a] == tail[a - 1] && order[b] == tail[b - 1]);
                            } else {
                                let other = if a > 0 {
                                    a
                                } else {
                                    b
                                };
                                assert(order[other] == tail[other - 1]);
                                assert(others.contains(tail[other - 1]));
                                let j = choose|j: int|
                                    0 <= j < others.len() && others[j] == tail[other - 1];
                                let j2 = if j < n - 1 {
                                    j
                                } else {
                                    j + 1
                                };
                                assert(others[j] == s[j2]);
                            }
                        }
                    }
                } else {
                    assert(all[k] == earlier[k]);
                }
            }
        }
    }
}

/// Whether `order` has the length of `s`, only stores of `s`, and no
/// repetition where `s` has none.
pub open spec fn is_order_of(order: Seq<StoreId>, s: Seq<StoreId>) -> bool {
    &&& order.len() == s.len()
    &&& forall|i: int| 0 <= i < order.len() ==> s.contains(#[trigger] order[i])
    &&& s.no_duplicates() ==> order.no_duplicates()
}

impl BSLPSD {
    /// The fastest of some routes is one of them, with its travel time.
    pub proof fn lemma_fastest(
        &self,
        routes: Seq<Seq<StoreId>>,
        shopper: Location,
        customer: Location,
    )
        ensures
            match self.fastest(routes, shopper, customer) {
                Some((route, time)) => routes.contains(route) && self.route_time(
                    route,
                    shopper,
                    customer,
                ) == Some(time),
                None => true,
            },
        decreases routes.len(),
    {
        if routes.len() > 0 {
            let front = routes.drop_last();
            self.lemma_fastest(front, shopper, customer);
            match self.fastest(routes, shopper, customer) {
                Some((route, time)) => {
                    if front.contains(route) {
                        let k = choose|k: int| 0 <= k < front.len() && front[k] == route;
                        assert(routes[k] == route);
                    } else {
                        assert(routes[routes.len() - 1] == route);
                    }
                },
                None => {},
            }
        }
    }

    /// A route put in its fastest order is a route without repetition,
    /// over stores of the route it came from, with its travel time.
    pub proof fn lemma_reordered(&self, stores: Seq<StoreId>, shopper: Location, customer: Location)
        ensures
            forall|j: int|
                0 <= j < self.reordered(stores, shopper, customer).len() ==> {
                    let found = #[trigger] self.reordered(stores, shopper, customer)[j];
                    &&& found.0.no_duplicates()
                    &&& forall|n: int| 0 <= n < found.0.len()
                        ==> stores.contains(#[trigger] found.0[n])
                    &&& self.route_time(found.0, shopper, customer) == Some(found.1)
                },
    {
        let unique = distinct(stores);
        lemma_distinct(stores);
        lemma_permutations(unique);
        self.lemma_fastest(permutations(unique), shopper, customer);
        match self.shortest_path(stores, shopper, customer) {
            Some((route, time)) => {
                let k = choose|k: int|
                    0 <= k < permutations(unique).len() && permutations(unique)[k] == route;
                assert(is_order_of(permutations(unique)[k], unique));
                assert forall|n: int| 0 <= n < route.len() implies stores.contains(
                    #[trigger] route[n],
                ) by {
                    assert(unique.contains(route[n]));
                }
            },
            None => {},
        }
    }
}

/// The travel time of a route that was found; zero where none was found.
pub open spec fn found_time(found: Option<(Seq<StoreId>, Time)>) -> Time {
    match found {
        Some((_, time)) => time,
        None => 0,
    }
}

/// The stores of a route that was found; none where none was found.
pub open spec fn found_stores(found: Option<(Seq<StoreId>, Time)>) -> Seq<StoreId> {
    match found {
        Some((stores, _)) => stores,
        None => Seq::empty(),
    }
}

/// The orders that begin with one of the first `n` stores include those
/// that begin with the store at place `i`, for every `i` below `n`.
pub proof fn lemma_picking_holds(s: Seq<StoreId>, n: nat, i: int, k: int)
    requires
        0 <= i < n <= s.len(),
        0 <= k < permutations(s.remove(i)).len(),
    ensures
        picking(s, n).contains(seq![s[i]] + permutations(s.remove(i))[k]),
    decreases n,
{
    let earlier = picking(s, (n - 1) as nat);
    let added = led_by(s[n - 1], permutations(s.remove(n - 1)));
    let order = seq![s[i]] + permutations(s.remove(i))[k];
    if i == n - 1 {
        assert(added[k] == order);
        assert(picking(s, n)[earlier.len() + k] == order);
    } else {
        lemma_picking_holds(s, (n - 1) as nat, i, k);
        let at = choose|at: int| 0 <= at < earlier.len() && earlier[at] == order;
        assert(picking(s, n)[at] == order);
    }
}

/// `permutations` lists every order of the stores of a sequence.
pub proof fn lemma_permutations_complete(s: Seq<StoreId>, order: Seq<StoreId>)
    requires
        order.to_multiset() == s.to_multiset(),
    ensures
        permutations(s).contains(order),
    decreases s.len(),
{
    broadcast use vstd::seq_lib::group_to_multiset_ensures;

    vstd::seq_lib::to_multiset_len(order);
    vstd::seq_lib::to_multiset_len(s);
    assert(order.len() == s.len());
    if s.len() == 0 {
        assert(order =~= Seq::<StoreId>::empty());
        assert(permutations(s)[0] == order);
    } else {
        assert(order.contains(order[0]));
        assert(s.to_multiset().count(order[0]) > 0);
        assert(s.contains(order[0]));
        let i = choose|i: int| 0 <= i < s.len() && s[i] == order[0];
        let rest = order.drop_first();
        assert(rest =~= order.remove(0));
        assert(rest.to_multiset() == s.remove(i).to_multiset());
        lemma_permutations_complete(s.remove(i), rest);
        let k = choose|k: int|
            0 <= k < permutations(s.remove(i)).len() && permutations(s.remove(i))[k] == rest;
        lemma_picking_holds(s, s.len(), i, k);
        assert(seq![s[i]] + rest =~= order);
    }
}

impl BSLPSD {
    /// The fastest of some routes takes no longer than any of them.
    pub proof fn lemma_fastest_least(
        &self,
        routes: Seq<Seq<StoreId>>,
        k: int,
        shopper: Location,
        customer: Location,
    )
        requires
            0 <= k < routes.len(),
            self.route_time(routes[k], shopper, customer) is Some,
        ensures
            self.fastest(routes, shopper, customer) is Some,
            found_time(self.fastest(routes, shopper, customer)) <= self.route_time(
                routes[k],
                shopper,
                customer,
            )->0,
        decreases routes.len(),
    {
        let front = routes.drop_last();
        if k < front.len() {
            assert(front[k] == routes[k]);
            self.lemma_fastest_least(front, k, shopper, customer);
        } else if front.len() > 0 {
            match self.fastest(front, shopper, customer) {
                Some(found) => {},
                None => {},
            }
        }
    }

    /// The law of the shortest path: no order of the stores of a route,
    /// each taken once, takes less time than the order that
    /// `shortest_path` finds.
    pub proof fn shortest_path_is_fastest(
        &self,
        stores: Seq<StoreId>,
        order: Seq<StoreId>,
        shopper: Location,
        customer: Location,
    )
        requires
            order.to_multiset() == distinct(stores).to_multiset(),
            self.route_time(order, shopper, customer) is Some,
        ensures
            self.shortest_path(stores, shopper, customer) is Some,
            found_time(self.shortest_path(stores, shopper, customer)) <= self.route_time(
                order,
                shopper,
                customer,
            )->0,
            found_stores(self.shortest_path(stores, shopper, customer)).to_multiset() == distinct(
                stores,
            ).to_multiset(),
    {
        let unique = distinct(stores);
        let all = permutations(unique);
        lemma_permutations_complete(unique, order);
        let k = choose|k: int| 0 <= k < all.len() && all[k] == order;
        self.lemma_fastest_least(all, k, shopper, customer);
        self.lemma_fastest(all, shopper, customer);
        let found = self.shortest_path(stores, shopper, customer)->0;
        lemma_permutations_keep(unique, unique.len());
    }
}

/// Every order that `picking` lists has the stores of the sequence, each
/// as often as the sequence has it.
pub proof fn lemma_permutations_keep(s: Seq<StoreId>, n: nat)
    requires
        n <= s.len(),
    ensures
        forall|k: int|
            0 <= k < picking(s, n).len() ==> (#[trigger] picking(s, n)[k]).to_multiset()
                == s.to_multiset(),
        n == s.len() ==> forall|k: int|
            0 <= k < permutations(s).len() ==> (#[trigger] permutations(s)[k]).to_multiset()
                == s.to_multiset(),
    decreases s.len(), n,
{
    broadcast use vstd::seq_lib::group_to_multiset_ensures;

    if s.len() == 0 {
        assert(permutations(s) =~= seq![Seq::<StoreId>::empty()]);
        assert forall|k: int| 0 <= k < permutations(s).len() implies (
        #[trigger] permutations(s)[k]).to_multiset() == s.to_multiset() by {
            assert(permutations(s)[k] =~= s);
        }
    } else if n > 0 {
        lemma_permutations_keep(s, (n - 1) as nat);
        let head = s[n - 1];
        let others = s.remove(n - 1);
        lemma_permutations_keep(others, others.len());
        let tails = permutations(others);
        let earlier = picking(s, (n - 1) as nat);
        let all = picking(s, n);
        assert forall|k: int| 0 <= k < all.len() implies (#[trigger] all[k]).to_multiset()
            == s.to_multiset() by {
            if k >= earlier.len() {
                let tail = tails[k - earlier.len()];
                let order = seq![head] + tail;
                assert(all[k] == order);
                assert(order =~= tail.insert(0, head));
                assert(order.to_multiset() == tail.to_multiset().insert(head));
                assert(others.to_multiset() == s.to_multiset().remove(head));
                assert(s.contains(head)) by {
                    assert(s[n - 1] == head);
                }
                assert(s.to_multiset().count(head) > 0);
                assert(order.to_multiset() =~= s.to_multiset());
            } else {
                assert(all[k] == earlier[k]);
            }
        }
        if n == s.len() {
            assert(permutations(s) == picking(s, s.len()));
        }
    }
}

} // verus!

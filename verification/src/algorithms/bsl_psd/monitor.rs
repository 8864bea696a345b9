//! The skyline: the routes found so far that no other route found
//! dominates, how a new route enters it, and its final order.

use vstd::prelude::*;
use crate::algorithms::bsl_psd::BSLPSD;
use crate::models::route::{route_views, RouteView};
use crate::models::ShoppingRoute;

verus! {

/// No route of the skyline dominates another, and no two are the same.
pub open spec fn is_skyline(s: Seq<RouteView>) -> bool {
    forall|i: int, j: int|
        #![trigger s[i], s[j]]
        0 <= i < s.len() && 0 <= j < s.len() && i != j ==> !s[i].dominates(s[j]) && s[i] != s[j]
}

/// Whether the skyline turns `route` away: one of its routes dominates
/// `route` or is the same as it.
pub open spec fn turns_away(s: Seq<RouteView>, route: RouteView) -> bool {
    exists|i: int| 0 <= i < s.len() && ((#[trigger] s[i]).dominates(route) || s[i] == route)
}

/// The routes of `s` that `route` does not dominate, in their order.
pub open spec fn without_dominated(s: Seq<RouteView>, route: RouteView) -> Seq<RouteView>
    decreases s.len(),
{
    if s.len() == 0 {
        Seq::empty()
    } else if route.dominates(s.last()) {
        without_dominated(s.drop_last(), route)
    } else {
        without_dominated(s.drop_last(), route).push(s.last())
    }
}

/// The skyline after `route` was offered to it: unchanged where it turns
/// the route away; else without the routes that `route` dominates, and with
/// `route` at the end.
pub open spec fn after_offer(s: Seq<RouteView>, route: RouteView) -> Seq<RouteView> {
    if turns_away(s, route) {
        s
    } else {
        without_dominated(s, route).push(route)
    }
}

/// `a` comes before `b` in the final order: it is faster; or as fast and
/// cheaper; or as fast, as cheap and shorter.
pub open spec fn route_less(a: RouteView, b: RouteView) -> bool {
    ||| a.time < b.time
    ||| a.time == b.time && a.cost < b.cost
    ||| a.time == b.time && a.cost == b.cost
        && a.stores.len() < b.stores.len()
}

/// No route comes before a route in front of it.
pub open spec fn routes_ordered(s: Seq<RouteView>) -> bool {
    forall|i: int, j: int| 0 <= i < j < s.len() ==> !route_less(s[j], s[i])
}

/// The number of leading routes that `route` does not come before.
pub open spec fn route_slot(s: Seq<RouteView>, route: RouteView) -> nat
    decreases s.len(),
{
    if s.len() == 0 || route_less(route, s[0]) {
        0
    } else {
        1 + route_slot(s.drop_first(), route)
    }
}

/// The routes in their final order: by time, then cost, then number of
/// stores; routes that agree in all three in the order in which they came.
pub open spec fn ordered_routes(s: Seq<RouteView>) -> Seq<RouteView>
    decreases s.len(),
{
    if s.len() == 0 {
        Seq::empty()
    } else {
        let front = ordered_routes(s.drop_last());
        front.insert(route_slot(front, s.last()) as int, s.last())
    }
}

/// What `route_slot` counts.
pub proof fn lemma_route_slot(s: Seq<RouteView>, route: RouteView)
    ensures
        route_slot(s, route) <= s.len(),
        forall|k: int| 0 <= k < route_slot(s, route) ==> !route_less(route, s[k]),
        route_slot(s, route) < s.len() ==> route_less(route, s[route_slot(s, route) as int]),
    decreases s.len(),
{
    if s.len() == 0 || route_less(route, s[0]) {
    } else {
        let rest = s.drop_first();
        lemma_route_slot(rest, route);
        assert forall|k: int| 0 <= k < route_slot(s, route) implies !route_less(route, s[k]) by {
            if k > 0 {
                assert(rest[k - 1] == s[k]);
            }
        }
        if route_slot(s, route) < s.len() {
            assert(rest[route_slot(rest, route) as int] == s[route_slot(s, route) as int]);
        }
    }
}

/// A position with the properties of `route_slot` is `route_slot`.
pub proof fn lemma_route_slot_is(s: Seq<RouteView>, route: RouteView, j: int)
    requires
        0 <= j <= s.len(),
        forall|k: int| 0 <= k < j ==> !route_less(route, s[k]),
        j < s.len() ==> route_less(route, s[j]),
    ensures
        route_slot(s, route) == j,
{
    lemma_route_slot(s, route);
    let found = route_slot(s, route) as int;
    if found < j {
        assert(!route_less(route, s[found]));
    } else if j < found {
        assert(!route_less(route, s[j]));
    }
}

/// Ordering the routes keeps each of them and puts them in order.
pub proof fn lemma_ordered_routes(s: Seq<RouteView>)
    ensures
        ordered_routes(s).len() == s.len(),
        ordered_routes(s).to_multiset() == s.to_multiset(),
        routes_ordered(ordered_routes(s)),
        forall|x: RouteView|
            #![trigger ordered_routes(s).contains(x)]
            #![trigger s.contains(x)]
            ordered_routes(s).contains(x) <==> s.contains(x),
    decreases s.len(),
{
    if s.len() == 0 {
        assert(s =~= Seq::empty());
    } else {
        let front_in = s.drop_last();
        let last = s.last();
        let front = ordered_routes(front_in);
        lemma_ordered_routes(front_in);
        lemma_route_slot(front, last);
        let at = route_slot(front, last) as int;
        let r = ordered_routes(s);
        assert(s =~= front_in.push(last));
        vstd::seq_lib::to_multiset_build(front_in, last);
        vstd::seq_lib::to_multiset_insert(front, at, last);
        assert forall|x: RouteView|
            #![trigger r.contains(x)]
            #![trigger s.contains(x)]
            r.contains(x) <==> s.contains(x) by {
            if r.contains(x) {
                let i = choose|i: int| 0 <= i < r.len() && r[i] == x;
                if i < at {
                    assert(front[i] == x);
                    assert(front.contains(x));
                    let k = choose|k: int| 0 <= k < front_in.len() && front_in[k] == x;
                    assert(s[k] == x);
                } else if i > at {
                    assert(front[i - 1] == x);
                    assert(front.contains(x));
                    let k = choose|k: int| 0 <= k < front_in.len() && front_in[k] == x;
                    assert(s[k] == x);
                } else {
                    assert(s[s.len() - 1] == x);
                }
            }
            if s.contains(x) {
                let k = choose|k: int| 0 <= k < s.len() && s[k] == x;
                if k < front_in.len() {
                    assert(front_in[k] == x);
                    assert(front_in.contains(x));
                    let i = choose|i: int| 0 <= i < front.len() && front[i] == x;
                    if i < at {
                        assert(r[i] == x);
                    } else {
                        assert(r[i + 1] == x);
                    }
                } else {
                    assert(r[at] == x);
                }
            }
        }
        assert forall|i: int, j: int| 0 <= i < j < r.len() implies !route_less(r[j], r[i]) by {
            if j < at {
            } else if i > at {
                assert(r[i] == front[i - 1] && r[j] == front[j - 1]);
            } else if i == at {
                assert(r[j] == front[j - 1]);
                assert(route_less(last, front[at]));
                assert(!route_less(front[j - 1], front[at]) || at == j - 1);
            } else if j == at {
            } else {
                assert(r[j] == front[j - 1]);
            }
        }
    }
}

/// What `without_dominated` keeps: exactly the routes that `route` does
/// not dominate; and of a skyline it keeps a skyline.
pub proof fn lemma_without_dominated(s: Seq<RouteView>, route: RouteView)
    ensures
        without_dominated(s, route).len() <= s.len(),
        forall|x: RouteView|
            #![trigger without_dominated(s, route).contains(x)]
            without_dominated(s, route).contains(x) <==> (s.contains(x) && !route.dominates(x)),
        is_skyline(s) ==> is_skyline(without_dominated(s, route)),
    decreases s.len(),
{
    if s.len() > 0 {
        let front = s.drop_last();
        let kept_front = without_dominated(front, route);
        let kept = without_dominated(s, route);
        lemma_without_dominated(front, route);
        assert forall|x: RouteView| #![trigger kept.contains(x)] kept.contains(x) <==> (
        s.contains(x) && !route.dominates(x)) by {
            if kept.contains(x) {
                let i = choose|i: int| 0 <= i < kept.len() && kept[i] == x;
                if i < kept_front.len() {
                    assert(kept_front[i] == x);
                    assert(kept_front.contains(x));
                    let k = choose|k: int| 0 <= k < front.len() && front[k] == x;
                    assert(s[k] == x);
                } else {
                    assert(s[s.len() - 1] == x);
                }
            }
            if s.contains(x) && !route.dominates(x) {
                let k = choose|k: int| 0 <= k < s.len() && s[k] == x;
                if k < front.len() {
                    assert(front[k] == x);
                    assert(front.contains(x));
                    assert(kept_front.contains(x));
                    let i = choose|i: int| 0 <= i < kept_front.len() && kept_front[i] == x;
                    assert(kept[i] == x);
                } else {
                    assert(kept[kept.len() - 1] == x);
                }
            }
        }
        if is_skyline(s) {
            assert(is_skyline(front)) by {
                assert forall|a: int, b: int|
                    #![trigger front[a], front[b]]
                    0 <= a < front.len() && 0 <= b < front.len() && a != b
                        implies !front[a].dominates(
                    front[b]) && front[a] != front[b] by {
                    assert(front[a] == s[a] && front[b] == s[b]);
                }
            }
            if !route.dominates(s.last()) {
                assert forall|i: int, j: int|
                    #![trigger kept[i], kept[j]]
                    0 <= i < kept.len() && 0 <= j < kept.len() && i != j implies !kept[i].dominates(
                    kept[j]) && kept[i] != kept[j] by {
                    if i < kept_front.len() && j < kept_front.len() {
                        assert(kept[i] == kept_front[i] && kept[j] == kept_front[j]);
                    } else {
                        let low = if i < j {
                            i
                        } else {
                            j
                        };
                        assert(kept_front.contains(kept_front[low]));
                        assert(front.contains(kept_front[low]));
                        let a = choose|a: int| 0 <= a < front.len() && front[a] == kept_front[low];
                        assert(s[a] == front[a]);
                        assert(!s[a].dominates(s[s.len() - 1]) && s[a] != s[s.len() - 1]);
                        assert(!s[s.len() - 1].dominates(s[a]) && s[s.len() - 1] != s[a]);
                    }
                }
            }
        }
    }
}

/// Offering a route to a skyline leaves a skyline. The routes of the new
/// skyline are routes of the old one and the route offered; a route of the
/// old one is missing only where the new route dominates it.
pub proof fn lemma_after_offer(s: Seq<RouteView>, route: RouteView)
    requires
        is_skyline(s),
    ensures
        is_skyline(after_offer(s, route)),
        forall|x: RouteView|
            #![trigger after_offer(s, route).contains(x)]
            after_offer(s, route).contains(x) ==> x == route || s.contains(x),
        !turns_away(s, route) ==> after_offer(s, route).contains(route),
        forall|x: RouteView|
            #![trigger s.contains(x)]
            s.contains(x) ==> after_offer(s, route).contains(x) || route.dominates(x),
{
    let r = after_offer(s, route);
    if !turns_away(s, route) {
        let kept = without_dominated(s, route);
        lemma_without_dominated(s, route);
        assert forall|i: int, j: int|
            #![trigger r[i], r[j]]
            0 <= i < r.len() && 0 <= j < r.len() && i != j implies !r[i].dominates(r[j])
            && r[i] != r[j] by {
            if i < kept.len() && j < kept.len() {
                assert(r[i] == kept[i] && r[j] == kept[j]);
            } else {
                let low = if i < j {
                    i
                } else {
                    j
                };
                assert(kept.contains(kept[low]));
                assert(s.contains(kept[low]));
                let a = choose|a: int| 0 <= a < s.len() && s[a] == kept[low];
                assert(!s[a].dominates(route) && s[a] != route);
            }
        }
        assert(r[kept.len() as int] == route);
        assert forall|x: RouteView| #![trigger r.contains(x)] r.contains(x) implies x == route
            || s.contains(x) by {
            let i = choose|i: int| 0 <= i < r.len() && r[i] == x;
            if i < kept.len() {
                assert(kept[i] == x);
                assert(kept.contains(x));
            }
        }
        assert forall|x: RouteView| #![trigger s.contains(x)] s.contains(x) implies r.contains(
            x,
        ) || route.dominates(x) by {
            if !route.dominates(x) {
                assert(kept.contains(x));
                let i = choose|i: int| 0 <= i < kept.len() && kept[i] == x;
                assert(r[i] == x);
            }
        }
    }
}

/// The routes in their final order.
pub fn sort_routes(routes: Vec<ShoppingRoute>) -> (sorted: Vec<ShoppingRoute>)
    ensures
        route_views(sorted@) == ordered_routes(route_views(routes@)),
        route_views(sorted@).to_multiset() == route_views(routes@).to_multiset(),
        routes_ordered(route_views(sorted@)),
{
    let mut pending: Vec<ShoppingRoute> = routes;
    let mut sorted: Vec<ShoppingRoute> = Vec::new();
    let ghost all = route_views(pending@);
    let ghost mut done: int = 0;
    assert(all.skip(0) == all);
    assert(route_views(sorted@) =~= ordered_routes(all.take(0)));
    while pending.len() > 0
        invariant
            0 <= done <= all.len(),
            route_views(pending@) == all.skip(done),
            route_views(sorted@) == ordered_routes(all.take(done)),
        decreases pending.len(),
    {
        let ghost waiting = pending@;
        let ghost placed = sorted@;
        let route: ShoppingRoute = pending.remove(0);
        let mut j: usize = 0;
        while j < sorted.len() && !before(&route, &sorted[j])
            invariant
                j <= sorted.len(),
                forall|k: int| 0 <= k < j ==> !route_less(route@, sorted@[k]@),
            decreases sorted.len() - j,
        {
            j += 1;
        }
        proof {
            assert(route_views(waiting).len() == waiting.len());
            assert(done < all.len());
            assert(route_views(waiting)[0] == waiting[0]@);
            assert(route@ == all.skip(done)[0]);
            assert forall|k: int| 0 <= k < j implies !route_less(
                route@,
                route_views(sorted@)[k],
            ) by {
                assert(route_views(sorted@)[k] == sorted@[k]@);
            }
            lemma_route_slot_is(route_views(sorted@), route@, j as int);
            assert(all.take(done + 1).drop_last() == all.take(done));
            assert(all.take(done + 1).last() == route@);
            assert(pending@ == waiting.remove(0));
            assert forall|k: int| 0 <= k < pending@.len() implies route_views(pending@)[k]
                == all.skip(done + 1)[k] by {
                assert(pending@[k] == waiting[k + 1]);
                assert(route_views(waiting)[k + 1] == waiting[k + 1]@);
                assert(all.skip(done)[k + 1] == all[done + k + 1]);
            }
            assert(route_views(pending@) =~= all.skip(done + 1));
        }
        sorted.insert(j, route);
        proof {
            assert(route_views(sorted@) =~= route_views(placed).insert(j as int, route@));
            done = done + 1;
        }
    }
    proof {
        assert(all.take(all.len() as int) == all);
        lemma_ordered_routes(all);
    }
    sorted
}

/// Whether `a` comes before `b` in the final order.
pub fn before(a: &ShoppingRoute, b: &ShoppingRoute) -> (r: bool)
    ensures
        r == route_less(a@, b@),
{
    a.shopping_time < b.shopping_time || (a.shopping_time == b.shopping_time && (a.shopping_cost
        < b.shopping_cost || (a.shopping_cost == b.shopping_cost && a.stores.len()
        < b.stores.len())))
}

impl BSLPSD {
    /// Offers `route` to the skyline. Where a route of the skyline
    /// dominates it or is the same, the skyline stays as it is and the
    /// result is `false`. Otherwise the routes that `route` dominates leave
    /// the skyline, `route` enters at its end, and the result is `true`.
    pub fn update_skyline(&self, skyline: &mut Vec<ShoppingRoute>, route: ShoppingRoute) -> (r:
        bool)
        ensures
            r == !turns_away(route_views(old(skyline)@), route@),
            route_views(final(skyline)@) == after_offer(route_views(old(skyline)@), route@),
            !r ==> final(skyline)@ == old(skyline)@,
    {
        offer(skyline, route)
    }
}

/// Offers `route` to the skyline, as `BSLPSD::update_skyline` does.
pub fn offer(skyline: &mut Vec<ShoppingRoute>, route: ShoppingRoute) -> (r: bool)
    ensures
        r == !turns_away(route_views(old(skyline)@), route@),
        route_views(final(skyline)@) == after_offer(route_views(old(skyline)@), route@),
        !r ==> final(skyline)@ == old(skyline)@,
{
    let ghost all = route_views(skyline@);
    let mut i: usize = 0;
    while i < skyline.len()
        invariant
            i <= skyline.len(),
            skyline@ == old(skyline)@,
            all == route_views(skyline@),
            forall|k: int| 0 <= k < i
                ==> !(#[trigger] all[k]).dominates(route@) && all[k] != route@,
        decreases skyline.len() - i,
    {
        assert(all[i as int] == skyline@[i as int]@);
        if skyline[i].conventionally_dominates(&route) || skyline[i].same_as(&route) {
            return false;
        }
        i += 1;
    }
    let ghost mut done: int = 0;
    let mut at: usize = 0;
    assert(without_dominated(all.take(0), route@) + all.skip(0) =~= all);
    while at < skyline.len()
        invariant
            0 <= done <= all.len(),
            at == without_dominated(all.take(done), route@).len(),
            route_views(skyline@) == without_dominated(all.take(done), route@) + all.skip(done),
        decreases all.len() - done,
    {
        let ghost kept = without_dominated(all.take(done), route@);
        let ghost current = skyline@;
        proof {
            assert(done < all.len()) by {
                if done >= all.len() {
                    assert(all.skip(done).len() == 0);
                }
            }
            assert(route_views(skyline@)[at as int] == all[done]);
            assert(skyline@[at as int]@ == all[done]);
            assert(all.take(done + 1).drop_last() == all.take(done));
            assert(all.take(done + 1).last() == all[done]);
        }
        if route.conventionally_dominates(&skyline[at]) {
            skyline.remove(at);
            proof {
                assert(route_views(skyline@) =~= route_views(current).remove(at as int));
                assert(route_views(skyline@) =~= kept + all.skip(done + 1));
                done = done + 1;
            }
        } else {
            proof {
                assert(route_views(skyline@) =~= kept.push(all[done]) + all.skip(done + 1));
                done = done + 1;
            }
            at += 1;
        }
    }
    proof {
        assert(done == all.len()) by {
            if done < all.len() {
                assert(all.skip(done).len() > 0);
            }
        }
        assert(all.take(done) == all);
        assert(route_views(skyline@) =~= without_dominated(all, route@));
    }
    let ghost kept_routes = skyline@;
    skyline.push(route);
    assert(route_views(skyline@) =~= route_views(kept_routes).push(route@));
    true
}

} // verus!

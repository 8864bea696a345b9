//! A skyline kept in the order of travel times, with a test against the
//! line between the two neighbours of a new route.

use vstd::prelude::*;
use crate::models::route::{route_views, RouteView};
use crate::models::{ShoppingRoute, Time, TotalCost};

verus! {

/// The largest cost for which the test against the line between two
/// routes is computed.
pub const MAX_LINE_COST: TotalCost = 0x7FFF_FFFF_FFFF_FFFF;

/// Whether the point `(time, cost)` is dominated by the point
/// `(dominator_time, dominator_cost)`: the dominator is no worse in time
/// and cost and better in one of them.
pub open spec fn point_dominated(
    time: Time,
    cost: TotalCost,
    dominator_time: Time,
    dominator_cost: TotalCost,
) -> bool {
    (dominator_time < time && dominator_cost <= cost) || (dominator_time <= time
        && dominator_cost < cost)
}

/// The place at which `route` enters a skyline in the order of times:
/// before the first route that takes longer.
pub open spec fn entry_place(s: Seq<RouteView>, route: RouteView) -> nat
    decreases s.len(),
{
    if s.len() == 0 || route.time < s[0].time {
        0
    } else {
        1 + entry_place(s.drop_first(), route)
    }
}

/// Whether `route` lies above the line from `left` to `right` in the plane
/// of time and cost.
pub open spec fn above_line(left: RouteView, right: RouteView, route: RouteView) -> bool {
    right.time > left.time && (route.cost - left.cost) * (right.time - left.time) > (right.cost
        - left.cost) * (route.time - left.time)
}

/// Whether the skyline keeps `route` out: one of its two neighbours in
/// the order of times dominates it, or it lies above the line between them.
pub open spec fn linearly_dominated(s: Seq<RouteView>, route: RouteView) -> bool {
    let at = entry_place(s, route) as int;
    s.len() > 0 && {
        ||| at < s.len() && point_dominated(route.time, route.cost, s[at].time, s[at].cost)
        ||| at > 0 && point_dominated(route.time, route.cost, s[at - 1].time, s[at - 1].cost)
        ||| 0 < at < s.len() && above_line(s[at - 1], s[at], route)
    }
}

/// Whether another route of `s` dominates the route at place `at`.
pub open spec fn dominated_by_other(s: Seq<RouteView>, at: int) -> bool {
    exists|j: int|
        0 <= j < s.len() && j != at && point_dominated(
            s[at].time,
            s[at].cost,
            (#[trigger] s[j]).time,
            s[j].cost,
        )
}

/// The skyline after the routes from place `from` on that another route
/// dominates were taken out one after the other; the route at place `keep`
/// stays in any case.
pub open spec fn pruned(s: Seq<RouteView>, from: nat, keep: nat) -> Seq<RouteView>
    decreases s.len() - from,
{
    if from >= s.len() {
        s
    } else if from != keep && dominated_by_other(s, from as int) {
        pruned(
            s.remove(from as int),
            from,
            if from < keep {
                (keep - 1) as nat
            } else {
                keep
            },
        )
    } else {
        pruned(s, from + 1, keep)
    }
}

/// Whether every route of `s` costs at most `MAX_LINE_COST`.
pub open spec fn costs_within(s: Seq<RouteView>) -> bool {
    forall|k: int| 0 <= k < s.len() ==> (#[trigger] s[k]).cost <= MAX_LINE_COST
}

/// What `entry_place` counts.
pub proof fn lemma_entry_place(s: Seq<RouteView>, route: RouteView)
    ensures
        entry_place(s, route) <= s.len(),
        forall|k: int| 0 <= k < entry_place(s, route) ==> !(route.time < (#[trigger] s[k]).time),
        entry_place(s, route) < s.len() ==> route.time < s[entry_place(s, route) as int].time,
    decreases s.len(),
{
    if s.len() == 0 || route.time < s[0].time {
    } else {
        let rest = s.drop_first();
        lemma_entry_place(rest, route);
        assert forall|k: int| 0 <= k < entry_place(s, route) implies !(route.time < (
        #[trigger] s[k]).time) by {
            if k > 0 {
                assert(rest[k - 1] == s[k]);
            }
        }
        if entry_place(s, route) < s.len() {
            assert(rest[entry_place(rest, route) as int] == s[entry_place(s, route) as int]);
        }
    }
}

/// A place with the properties of `entry_place` is `entry_place`.
pub proof fn lemma_entry_place_is(s: Seq<RouteView>, route: RouteView, at: int)
    requires
        0 <= at <= s.len(),
        forall|k: int| 0 <= k < at ==> !(route.time < (#[trigger] s[k]).time),
        at < s.len() ==> route.time < s[at].time,
    ensures
        entry_place(s, route) == at,
{
    lemma_entry_place(s, route);
    let found = entry_place(s, route) as int;
    if found < at {
        assert(!(route.time < s[found].time));
    } else if at < found {
        assert(!(route.time < s[at].time));
    }
}

/// Whether the point `(time, cost)` is dominated by the point
/// `(dominator_time, dominator_cost)`.
pub fn is_conventionally_dominated(
    time: Time,
    cost: TotalCost,
    dominator_time: Time,
    dominator_cost: TotalCost,
) -> (r: bool)
    ensures
        r == point_dominated(time, cost, dominator_time, dominator_cost),
{
    (dominator_time < time && dominator_cost <= cost) || (dominator_time <= time && dominator_cost
        < cost)
}

/// The place at which `route` enters `skyline` in the order of times.
pub fn place_of(route: &ShoppingRoute, skyline: &[ShoppingRoute]) -> (at: usize)
    ensures
        at == entry_place(route_views(skyline@), route@),
        at <= skyline@.len(),
{
    let ghost views = route_views(skyline@);
    let mut at: usize = 0;
    while at < skyline.len() && !(route.shopping_time < skyline[at].shopping_time)
        invariant
            at <= skyline.len(),
            views == route_views(skyline@),
            forall|k: int| 0 <= k < at ==> !(route@.time < (#[trigger] views[k]).time),
        decreases skyline.len() - at,
    {
        assert(views[at as int] == skyline@[at as int]@);
        at += 1;
    }
    proof {
        if at < skyline.len() {
            assert(views[at as int] == skyline@[at as int]@);
        }
        lemma_entry_place_is(views, route@, at as int);
    }
    at
}

/// Whether `route` lies above the line from `left` to `right`.
fn is_above_line(left: &ShoppingRoute, right: &ShoppingRoute, route: &ShoppingRoute) -> (r: bool)
    requires
        left@.cost <= MAX_LINE_COST,
        right@.cost <= MAX_LINE_COST,
        route@.cost <= MAX_LINE_COST,
    ensures
        r == above_line(left@, right@, route@),
{
    if right.shopping_time <= left.shopping_time {
        return false;
    }
    let run: i128 = right.shopping_time as i128 - left.shopping_time as i128;
    let rise: i128 = right.shopping_cost as i128 - left.shopping_cost as i128;
    let over: i128 = route.shopping_cost as i128 - left.shopping_cost as i128;
    let along: i128 = route.shopping_time as i128 - left.shopping_time as i128;
    assert(-0x7FFF_FFFF_FFFF_FFFF * 0xFFFF_FFFF_FFFF_FFFF <= over * run <= 0x7FFF_FFFF_FFFF_FFFF
        * 0xFFFF_FFFF_FFFF_FFFF) by (nonlinear_arith)
        requires
            -0x7FFF_FFFF_FFFF_FFFF <= over <= 0x7FFF_FFFF_FFFF_FFFF,
            0 <= run <= 0xFFFF_FFFF_FFFF_FFFF,
    ;
    assert(-0x7FFF_FFFF_FFFF_FFFF * 0xFFFF_FFFF_FFFF_FFFF <= rise * along <= 0x7FFF_FFFF_FFFF_FFFF
        * 0xFFFF_FFFF_FFFF_FFFF) by (nonlinear_arith)
        requires
            -0x7FFF_FFFF_FFFF_FFFF <= rise <= 0x7FFF_FFFF_FFFF_FFFF,
            -0xFFFF_FFFF_FFFF_FFFF <= along <= 0xFFFF_FFFF_FFFF_FFFF,
    ;
    over * run > rise * along
}

/// Whether `skyline` keeps `route` out: one of the two neighbours of the
/// route in the order of times dominates it, or it lies above the line
/// between them.
pub fn is_linearly_dominated(route: &ShoppingRoute, skyline: &[ShoppingRoute]) -> (r: bool)
    requires
        costs_within(route_views(skyline@)),
        route@.cost <= MAX_LINE_COST,
    ensures
        r == linearly_dominated(route_views(skyline@), route@),
{
    if skyline.len() == 0 {
        return false;
    }
    let ghost views = route_views(skyline@);
    let at: usize = place_of(route, skyline);
    if at < skyline.len() {
        assert(views[at as int] == skyline@[at as int]@);
        if is_conventionally_dominated(
            route.shopping_time,
            route.shopping_cost,
            skyline[at].shopping_time,
            skyline[at].shopping_cost,
        ) {
            return true;
        }
    }
    if at > 0 {
        assert(views[at - 1] == skyline@[at - 1]@);
        if is_conventionally_dominated(
            route.shopping_time,
            route.shopping_cost,
            skyline[at - 1].shopping_time,
            skyline[at - 1].shopping_cost,
        ) {
            return true;
        }
    }
    if at > 0 && at < skyline.len() {
        if is_above_line(&skyline[at - 1], &skyline[at], route) {
            return true;
        }
    }
    false
}

/// Whether another route of `skyline` dominates the route at place `at`.
fn is_dominated_by_skyline(skyline: &Vec<ShoppingRoute>, at: usize) -> (r: bool)
    requires
        at < skyline@.len(),
    ensures
        r == dominated_by_other(route_views(skyline@), at as int),
{
    let ghost views = route_views(skyline@);
    let mut j: usize = 0;
    while j < skyline.len()
        invariant
            j <= skyline.len(),
            at < skyline@.len(),
            views == route_views(skyline@),
            forall|k: int|
                0 <= k < j && k != at ==> !point_dominated(
                    views[at as int].time,
                    views[at as int].cost,
                    (#[trigger] views[k]).time,
                    views[k].cost,
                ),
        decreases skyline.len() - j,
    {
        assert(views[j as int] == skyline@[j as int]@);
        assert(views[at as int] == skyline@[at as int]@);
        if j != at && is_conventionally_dominated(
            skyline[at].shopping_time,
            skyline[at].shopping_cost,
            skyline[j].shopping_time,
            skyline[j].shopping_cost,
        ) {
            return true;
        }
        j += 1;
    }
    false
}

/// Puts `route` into `skyline` at its place in the order of times, unless
/// the skyline keeps it out; then takes out, from the front, each other
/// route that another route dominates. The result says whether the route
/// went in.
pub fn insert_into_skyline(skyline: &mut Vec<ShoppingRoute>, route: ShoppingRoute) -> (r: bool)
    requires
        costs_within(route_views(old(skyline)@)),
        route@.cost <= MAX_LINE_COST,
    ensures
        r == !linearly_dominated(route_views(old(skyline)@), route@),
        !r ==> final(skyline)@ == old(skyline)@,
        r ==> route_views(final(skyline)@) == pruned(
            route_views(old(skyline)@).insert(
                entry_place(route_views(old(skyline)@), route@) as int,
                route@,
            ),
            0,
            entry_place(route_views(old(skyline)@), route@),
        ),
{
    if is_linearly_dominated(&route, skyline.as_slice()) {
        return false;
    }
    let ghost before = route_views(skyline@);
    let mut keep: usize = place_of(&route, skyline.as_slice());
    let ghost entered = before.insert(keep as int, route@);
    let ghost place = keep as nat;
    skyline.insert(keep, route);
    assert(route_views(skyline@) =~= entered);
    let mut i: usize = 0;
    while i < skyline.len()
        invariant
            i <= skyline.len(),
            pruned(route_views(skyline@), i as nat, keep as nat) == pruned(entered, 0, place),
        decreases skyline.len() - i,
    {
        let ghost current = skyline@;
        if i != keep && is_dominated_by_skyline(skyline, i) {
            skyline.remove(i);
            assert(route_views(skyline@) =~= route_views(current).remove(i as int));
            if i < keep {
                keep -= 1;
            }
        } else {
            i += 1;
        }
    }
    true
}

} // verus!

//! The verification engine: checks a solution against an instance —
//! visitation completeness, pickup/delivery ordering, fleet size, running
//! load, and time windows — and accumulates the travelled distance, failing
//! fast with a located diagnostic on the first violation found.

use crate::instance::Instance;
use crate::numeric::{
    add_fl, add_i32_fl, fits_text, fl, fl_to_text, float_text_of, float_val, gt_i32_fl,
    is_square, lemma_sqrt_le, lt_i32_fl, max_fl, mul_i32_fl, scale_unit, scaled_val, sqrt_of,
    sqrt_scaled, sub_fl,
};
use crate::point::{dist_sq, lemma_dist_sq_bound, Point};
use crate::solution::Solution;
use crate::text::{dec_digits, dec_int, push_i64, push_u64};
use vstd::prelude::*;
use vstd::pervasive::VecAdditionalExecFns;

verus! {

// ---------------------------------------------------------------------------
// diagnostics

pub open spec fn msg_depot_visit(route: int, pos: int) -> Seq<char> {
    "route "@ + dec_int(route) + " visits depot at non-terminal position "@ + dec_int(pos)
}

pub open spec fn msg_unknown_node(node: int, route: int, pos: int) -> Seq<char> {
    "node "@ + dec_int(node) + " in route "@ + dec_int(route) + " at position "@ + dec_int(pos)
        + " is not described in the instance"@
}

pub open spec fn msg_repeated_node(node: int, route: int, prev: int) -> Seq<char> {
    "node "@ + dec_int(node) + " visited at least two times (in routes "@ + dec_int(route)
        + " and "@ + dec_int(prev) + ")"@
}

pub open spec fn msg_unvisited_node(node: int) -> Seq<char> {
    "node "@ + dec_int(node) + " not visited in any route"@
}

fn build_depot_visit(route: usize, pos: usize) -> (m: String)
    ensures
        m@ == msg_depot_visit(route as int, pos as int),
{
    let mut m = String::new();
    m.append("route ");
    push_u64(&mut m, route as u64);
    assert(dec_digits(route as u64 as nat) == dec_int(route as int));
    m.append(" visits depot at non-terminal position ");
    push_u64(&mut m, pos as u64);
    assert(dec_digits(pos as u64 as nat) == dec_int(pos as int));
    assert(m@ =~= msg_depot_visit(route as int, pos as int));
    m
}

fn build_unknown_node(node: usize, route: usize, pos: usize) -> (m: String)
    ensures
        m@ == msg_unknown_node(node as int, route as int, pos as int),
{
    let mut m = String::new();
    m.append("node ");
    push_u64(&mut m, node as u64);
    assert(dec_digits(node as u64 as nat) == dec_int(node as int));
    m.append(" in route ");
    push_u64(&mut m, route as u64);
    assert(dec_digits(route as u64 as nat) == dec_int(route as int));
    m.append(" at position ");
    push_u64(&mut m, pos as u64);
    assert(dec_digits(pos as u64 as nat) == dec_int(pos as int));
    m.append(" is not described in the instance");
    assert(m@ =~= msg_unknown_node(node as int, route as int, pos as int));
    m
}

fn build_repeated_node(node: usize, route: usize, prev: usize) -> (m: String)
    ensures
        m@ == msg_repeated_node(node as int, route as int, prev as int),
{
    let mut m = String::new();
    m.append("node ");
    push_u64(&mut m, node as u64);
    assert(dec_digits(node as u64 as nat) == dec_int(node as int));
    m.append(" visited at least two times (in routes ");
    push_u64(&mut m, route as u64);
    assert(dec_digits(route as u64 as nat) == dec_int(route as int));
    m.append(" and ");
    push_u64(&mut m, prev as u64);
    assert(dec_digits(prev as u64 as nat) == dec_int(prev as int));
    m.append(")");
    assert(m@ =~= msg_repeated_node(node as int, route as int, prev as int));
    m
}

fn build_unvisited_node(node: usize) -> (m: String)
    ensures
        m@ == msg_unvisited_node(node as int),
{
    let mut m = String::new();
    m.append("node ");
    push_u64(&mut m, node as u64);
    assert(dec_digits(node as u64 as nat) == dec_int(node as int));
    m.append(" not visited in any route");
    assert(m@ =~= msg_unvisited_node(node as int));
    m
}

// ---------------------------------------------------------------------------
// basic sanity: which route owns each point

/// Widening of an owner-array entry into the spec model.
pub open spec fn opt_int(o: Option<usize>) -> Option<int> {
    match o {
        Some(v) => Some(v as int),
        None => None,
    }
}

/// The spec model of the runtime owner array.
pub open spec fn owner_map(owner: Seq<Option<usize>>) -> Seq<Option<int>> {
    owner.map_values(|o: Option<usize>| opt_int(o))
}

/// Walks one route, recording `rid1` (1-based) as the owner of each node, and
/// reports the first node that is the depot, unknown, or already owned.
pub open spec fn scan_route(
    pts_len: int,
    route: Seq<usize>,
    rid1: int,
    p: int,
    owner: Seq<Option<int>>,
) -> Result<Seq<Option<int>>, Seq<char>>
    decreases route.len() - p,
{
    if p < 0 || p >= route.len() {
        Ok(owner)
    } else {
        let node = route[p] as int;
        if node == 0 {
            Err(msg_depot_visit(rid1, p))
        } else if node >= pts_len {
            Err(msg_unknown_node(node, rid1, p))
        } else {
            match owner[node] {
                Some(prev) => Err(msg_repeated_node(node, rid1, prev)),
                None => scan_route(pts_len, route, rid1, p + 1, owner.update(node, Some(rid1))),
            }
        }
    }
}

/// Walks every route in file order.
pub open spec fn scan_routes(
    pts_len: int,
    routes: Seq<Seq<usize>>,
    r: int,
    owner: Seq<Option<int>>,
) -> Result<Seq<Option<int>>, Seq<char>>
    decreases routes.len() - r,
{
    if r < 0 || r >= routes.len() {
        Ok(owner)
    } else {
        match scan_route(pts_len, routes[r], r + 1, 0, owner) {
            Err(m) => Err(m),
            Ok(o2) => scan_routes(pts_len, routes, r + 1, o2),
        }
    }
}

/// The first node that no route owns, from `i` on.
pub open spec fn first_unvisited(owner: Seq<Option<int>>, i: int) -> Option<int>
    decreases owner.len() - i,
{
    if i < 0 || i >= owner.len() {
        None
    } else if owner[i] is None {
        Some(i)
    } else {
        first_unvisited(owner, i + 1)
    }
}

/// The owner array before any route is walked: only the depot is owned.
pub open spec fn init_owner(pts_len: int) -> Seq<Option<int>> {
    Seq::new(
        pts_len as nat,
        |k: int|
            if k == 0 {
                Some(0int)
            } else {
                None
            },
    )
}

/// The first structural complaint against a solution: a route visiting the
/// depot, an unknown node, a node visited twice, or a node never visited.
pub open spec fn spec_basic_sanity(pts_len: int, routes: Seq<Seq<usize>>) -> Option<Seq<char>> {
    match scan_routes(pts_len, routes, 0, init_owner(pts_len)) {
        Err(m) => Some(m),
        Ok(owner) => match first_unvisited(owner, 0) {
            Some(node) => Some(msg_unvisited_node(node)),
            None => None,
        },
    }
}

/// Every node of every route lies strictly inside the instance's point range.
pub open spec fn routes_in_range(routes: Seq<Seq<usize>>, pts_len: int) -> bool {
    forall|r: int, p: int|
        0 <= r < routes.len() && 0 <= p < routes[r].len() ==> 0 < #[trigger] routes[r][p]
            < pts_len
}

/// Builds the point-to-owning-route mapping and rejects depot visits,
/// unknown nodes, repeated visits, and unvisited nodes, in that order.
pub fn check_basic_sanity(inst: &Instance, sol: &Solution) -> (r: Result<(), String>)
    requires
        inst.pts@.len() >= 1,
    ensures
        match r {
            Ok(()) => spec_basic_sanity(inst.pts@.len() as int, sol.routes.deep_view()) is None,
            Err(m) => spec_basic_sanity(inst.pts@.len() as int, sol.routes.deep_view()) == Some(
                m@,
            ),
        },
{
    let n = inst.pts.len();
    let ghost routesd = sol.routes.deep_view();
    let mut owner: Vec<Option<usize>> = Vec::new();
    let mut k: usize = 0;
    while k < n
        invariant
            k <= n,
            owner@.len() == k,
            forall|j: int| 0 <= j < k ==> owner@[j] is None,
        decreases n - k,
    {
        owner.push(None);
        k = k + 1;
    }
    owner.set(0, Some(0));
    assert(owner_map(owner@) =~= init_owner(n as int));
    let mut r: usize = 0;
    while r < sol.routes.len()
        invariant
            r <= sol.routes@.len(),
            n == inst.pts@.len(),
            n >= 1,
            routesd == sol.routes.deep_view(),
            routesd.len() == sol.routes@.len(),
            owner@.len() == n,
            scan_routes(n as int, routesd, 0, init_owner(n as int)) == scan_routes(
                n as int,
                routesd,
                r as int,
                owner_map(owner@),
            ),
        decreases sol.routes@.len() - r,
    {
        let route = &sol.routes[r];
        let rid1 = r + 1;
        let ghost routed = routesd[r as int];
        assert(routed =~= sol.routes@[r as int]@);
        let mut p: usize = 0;
        while p < route.len()
            invariant
                p <= route@.len(),
                n == inst.pts@.len(),
                n >= 1,
                r < sol.routes@.len(),
                routesd == sol.routes.deep_view(),
                routesd.len() == sol.routes@.len(),
                route@ == sol.routes@[r as int]@,
                routed == routesd[r as int],
                routed == route@,
                rid1 == r + 1,
                owner@.len() == n,
                scan_routes(n as int, routesd, 0, init_owner(n as int)) == (match scan_route(
                    n as int,
                    routed,
                    r as int + 1,
                    p as int,
                    owner_map(owner@),
                ) {
                    Err(m) => Err(m),
                    Ok(o2) => scan_routes(n as int, routesd, r as int + 1, o2),
                }),
            decreases route@.len() - p,
        {
            let node = route[p];
            if node == 0 {
                return Err(build_depot_visit(rid1, p));
            }
            if node >= n {
                return Err(build_unknown_node(node, rid1, p));
            }
            let ghost before = owner_map(owner@);
            match owner[node] {
                Some(prev) => {
                    return Err(build_repeated_node(node, rid1, prev));
                },
                None => {
                    owner.set(node, Some(rid1));
                    assert(owner_map(owner@) =~= before.update(
                        node as int,
                        Some(r as int + 1),
                    ));
                },
            }
            p = p + 1;
        }
        r = r + 1;
    }
    let ghost ownermap = owner_map(owner@);
    assert(scan_routes(n as int, routesd, 0, init_owner(n as int)) == Ok::<Seq<Option<int>>, Seq<char>>(ownermap));
    let mut q: usize = 0;
    while q < n
        invariant
            q <= n,
            n == inst.pts@.len(),
            owner@.len() == n,
            ownermap == owner_map(owner@),
            routesd == sol.routes.deep_view(),
            scan_routes(n as int, routesd, 0, init_owner(n as int)) == Ok::<Seq<Option<int>>, Seq<char>>(
                ownermap,
            ),
            first_unvisited(ownermap, 0) == first_unvisited(ownermap, q as int),
        decreases n - q,
    {
        if owner[q].is_none() {
            assert(ownermap[q as int] is None);
            assert(first_unvisited(ownermap, q as int) == Some(q as int));
            return Err(build_unvisited_node(q));
        }
        q = q + 1;
    }
    Ok(())
}

/// A route that passes `scan_route` holds only known, non-depot nodes.
proof fn lemma_scan_route_range(
    pts_len: int,
    route: Seq<usize>,
    rid1: int,
    p: int,
    owner: Seq<Option<int>>,
)
    requires
        0 <= p,
        scan_route(pts_len, route, rid1, p, owner) is Ok,
    ensures
        forall|q: int| p <= q < route.len() ==> 0 < #[trigger] route[q] < pts_len,
    decreases route.len() - p,
{
    if 0 <= p < route.len() {
        lemma_scan_route_range(pts_len, route, rid1, p + 1, owner.update(route[p] as int, Some(rid1)));
    }
}

/// Routes that pass `scan_routes` hold only known, non-depot nodes.
proof fn lemma_scan_routes_range(
    pts_len: int,
    routes: Seq<Seq<usize>>,
    r: int,
    owner: Seq<Option<int>>,
)
    requires
        0 <= r,
        scan_routes(pts_len, routes, r, owner) is Ok,
    ensures
        forall|q: int, p: int|
            r <= q < routes.len() && 0 <= p < routes[q].len() ==> 0 < #[trigger] routes[q][p]
                < pts_len,
    decreases routes.len() - r,
{
    if 0 <= r < routes.len() {
        lemma_scan_route_range(pts_len, routes[r], r + 1, 0, owner);
        let o2 = scan_route(pts_len, routes[r], r + 1, 0, owner)->Ok_0;
        lemma_scan_routes_range(pts_len, routes, r + 1, o2);
    }
}

/// A solution that passes the basic sanity check names only known, non-depot
/// nodes in its routes.
pub proof fn lemma_basic_sane_in_range(pts_len: int, routes: Seq<Seq<usize>>)
    requires
        spec_basic_sanity(pts_len, routes) is None,
    ensures
        routes_in_range(routes, pts_len),
{
    lemma_scan_routes_range(pts_len, routes, 0, init_owner(pts_len));
}

// ---------------------------------------------------------------------------
// pickup/delivery ordering

pub open spec fn msg_pickup_split(pu: int, de: int, rp: int, rd: int) -> Seq<char> {
    "pickup "@ + dec_int(pu) + " and delivery "@ + dec_int(de)
        + " are not in the same routes (are in routes "@ + dec_int(rp) + " and "@ + dec_int(rd)
        + ")"@
}

pub open spec fn msg_delivery_first(de: int, pu: int, posd: int, posp: int) -> Seq<char> {
    "delivery "@ + dec_int(de) + " is before its pickup "@ + dec_int(pu) + " (are on positions "@
        + dec_int(posd) + " and "@ + dec_int(posp) + ")"@
}

/// The spec model of a runtime index array.
pub open spec fn usize_seq(s: Seq<usize>) -> Seq<int> {
    s.map_values(|v: usize| v as int)
}

/// An all-zero array: the state before any route is recorded.
pub open spec fn zero_seq(n: int) -> Seq<int> {
    Seq::new(n as nat, |k: int| 0int)
}

/// Records one route in the node-to-route and node-to-position arrays;
/// later occurrences win, as in the engine's filling order.
pub open spec fn fill_route(route: Seq<usize>, rid1: int, p: int, pr: Seq<int>, ix: Seq<int>) -> (
    Seq<int>,
    Seq<int>,
)
    decreases route.len() - p,
{
    if p < 0 || p >= route.len() {
        (pr, ix)
    } else {
        fill_route(
            route,
            rid1,
            p + 1,
            pr.update(route[p] as int, rid1),
            ix.update(route[p] as int, p),
        )
    }
}

/// Records every route in file order.
pub open spec fn fill_routes(routes: Seq<Seq<usize>>, r: int, pr: Seq<int>, ix: Seq<int>) -> (
    Seq<int>,
    Seq<int>,
)
    decreases routes.len() - r,
{
    if r < 0 || r >= routes.len() {
        (pr, ix)
    } else {
        let s = fill_route(routes[r], r + 1, 0, pr, ix);
        fill_routes(routes, r + 1, s.0, s.1)
    }
}

/// The pairing complaint against `node`, if any: its pickup and delivery in
/// different routes, or the delivery before the pickup. A point without a
/// pair is passed over.
pub open spec fn pdp_issue(pts: Seq<Point>, pr: Seq<int>, ix: Seq<int>, node: int) -> Option<
    Seq<char>,
> {
    match pts[node].pickup_delivery {
        None => None,
        Some((p, d)) => {
            let pickup = if p != 0 {
                p as int
            } else {
                node
            };
            let delivery = if p != 0 {
                node
            } else {
                d as int
            };
            if pr[pickup] != pr[delivery] {
                Some(msg_pickup_split(pickup, delivery, pr[pickup], pr[delivery]))
            } else if ix[pickup] > ix[delivery] {
                Some(msg_delivery_first(delivery, pickup, ix[delivery], ix[pickup]))
            } else {
                None
            }
        },
    }
}

/// The first pairing complaint from `node` on.
pub open spec fn pdp_first(pts: Seq<Point>, pr: Seq<int>, ix: Seq<int>, node: int) -> Option<
    Seq<char>,
>
    decreases pts.len() - node,
{
    if node < 0 || node >= pts.len() {
        None
    } else if pdp_issue(pts, pr, ix, node) is Some {
        pdp_issue(pts, pr, ix, node)
    } else {
        pdp_first(pts, pr, ix, node + 1)
    }
}

/// What the whole pickup/delivery check of a solution yields.
pub open spec fn spec_check_pdp(inst: Instance, sol: Solution) -> Option<Seq<char>> {
    let pts = inst.pts@;
    let routesd = sol.routes.deep_view();
    let s = fill_routes(routesd, 0, zero_seq(pts.len() as int), zero_seq(pts.len() as int));
    pdp_first(pts, s.0, s.1, 1)
}

/// Checks that every pickup/delivery pair sits in one route, pickup first.
pub fn check_pdp(inst: &Instance, sol: &Solution) -> (r: Result<(), String>)
    requires
        inst.valid(),
        routes_in_range(sol.routes.deep_view(), inst.pts@.len() as int),
    ensures
        match r {
            Ok(()) => spec_check_pdp(*inst, *sol) is None,
            Err(m) => spec_check_pdp(*inst, *sol) == Some(m@),
        },
{
    let n = inst.pts.len();
    let ghost routesd = sol.routes.deep_view();
    let mut pr: Vec<usize> = Vec::new();
    let mut ix: Vec<usize> = Vec::new();
    let mut k: usize = 0;
    while k < n
        invariant
            k <= n,
            pr@.len() == k,
            ix@.len() == k,
            forall|j: int| 0 <= j < k ==> pr@[j] == 0usize && ix@[j] == 0usize,
        decreases n - k,
    {
        pr.push(0);
        ix.push(0);
        k = k + 1;
    }
    assert(usize_seq(pr@) =~= zero_seq(n as int));
    assert(usize_seq(ix@) =~= zero_seq(n as int));
    let mut r: usize = 0;
    while r < sol.routes.len()
        invariant
            r <= sol.routes@.len(),
            n == inst.pts@.len(),
            routesd == sol.routes.deep_view(),
            routesd.len() == sol.routes@.len(),
            routes_in_range(routesd, n as int),
            pr@.len() == n,
            ix@.len() == n,
            fill_routes(routesd, 0, zero_seq(n as int), zero_seq(n as int)) == fill_routes(
                routesd,
                r as int,
                usize_seq(pr@),
                usize_seq(ix@),
            ),
        decreases sol.routes@.len() - r,
    {
        let route = &sol.routes[r];
        let rid1 = r + 1;
        let ghost routed = routesd[r as int];
        assert(routed =~= sol.routes@[r as int]@);
        let mut p: usize = 0;
        while p < route.len()
            invariant
                p <= route@.len(),
                n == inst.pts@.len(),
                r < sol.routes@.len(),
                rid1 == r + 1,
                routesd == sol.routes.deep_view(),
                routesd.len() == sol.routes@.len(),
                route@ == sol.routes@[r as int]@,
                routed == routesd[r as int],
                routed == route@,
                routes_in_range(routesd, n as int),
                pr@.len() == n,
                ix@.len() == n,
                fill_routes(routesd, 0, zero_seq(n as int), zero_seq(n as int)) == (
                {
                    let s = fill_route(routed, r as int + 1, p as int, usize_seq(pr@), usize_seq(ix@));
                    fill_routes(routesd, r as int + 1, s.0, s.1)
                }),
            decreases route@.len() - p,
        {
            let node = route[p];
            assert(0 < routed[p as int] < n);
            let ghost pr_before = usize_seq(pr@);
            let ghost ix_before = usize_seq(ix@);
            pr.set(node, rid1);
            ix.set(node, p);
            assert(usize_seq(pr@) =~= pr_before.update(node as int, r as int + 1));
            assert(usize_seq(ix@) =~= ix_before.update(node as int, p as int));
            p = p + 1;
        }
        r = r + 1;
    }
    let ghost prm = usize_seq(pr@);
    let ghost ixm = usize_seq(ix@);
    assert(fill_routes(routesd, 0, zero_seq(n as int), zero_seq(n as int)) == (prm, ixm));
    let ghost pts = inst.pts@;
    let mut node: usize = 1;
    while node < n
        invariant
            1 <= node <= n,
            n == inst.pts@.len(),
            pts == inst.pts@,
            inst.valid(),
            routesd == sol.routes.deep_view(),
            pr@.len() == n,
            ix@.len() == n,
            prm == usize_seq(pr@),
            ixm == usize_seq(ix@),
            fill_routes(routesd, 0, zero_seq(n as int), zero_seq(n as int)) == (prm, ixm),
            pdp_first(pts, prm, ixm, 1) == pdp_first(pts, prm, ixm, node as int),
        decreases n - node,
    {
        let pt = inst.pts[node];
        match pt.pickup_delivery {
            None => {
                assert(pdp_issue(pts, prm, ixm, node as int) is None);
            },
            Some((pv, dv)) => {
                assert(0 <= pv < n && 0 <= dv < n) by {
                    assert(pts[node as int].pickup_delivery == Some((pv, dv)));
                }
                let pickup: usize = if pv != 0 {
                    pv as usize
                } else {
                    node
                };
                let delivery: usize = if pv != 0 {
                    node
                } else {
                    dv as usize
                };
                if pr[pickup] != pr[delivery] {
                    let mut m = String::new();
                    m.append("pickup ");
                    push_u64(&mut m, pickup as u64);
                    assert(dec_digits(pickup as u64 as nat) == dec_int(pickup as int));
                    m.append(" and delivery ");
                    push_u64(&mut m, delivery as u64);
                    assert(dec_digits(delivery as u64 as nat) == dec_int(delivery as int));
                    m.append(" are not in the same routes (are in routes ");
                    push_u64(&mut m, pr[pickup] as u64);
                    assert(dec_digits(pr@[pickup as int] as u64 as nat) == dec_int(
                        prm[pickup as int],
                    ));
                    m.append(" and ");
                    push_u64(&mut m, pr[delivery] as u64);
                    assert(dec_digits(pr@[delivery as int] as u64 as nat) == dec_int(
                        prm[delivery as int],
                    ));
                    m.append(")");
                    assert(m@ =~= msg_pickup_split(
                        pickup as int,
                        delivery as int,
                        prm[pickup as int],
                        prm[delivery as int],
                    ));
                    return Err(m);
                }
                if ix[pickup] > ix[delivery] {
                    let mut m = String::new();
                    m.append("delivery ");
                    push_u64(&mut m, delivery as u64);
                    assert(dec_digits(delivery as u64 as nat) == dec_int(delivery as int));
                    m.append(" is before its pickup ");
                    push_u64(&mut m, pickup as u64);
                    assert(dec_digits(pickup as u64 as nat) == dec_int(pickup as int));
                    m.append(" (are on positions ");
                    push_u64(&mut m, ix[delivery] as u64);
                    assert(dec_digits(ix@[delivery as int] as u64 as nat) == dec_int(
                        ixm[delivery as int],
                    ));
                    m.append(" and ");
                    push_u64(&mut m, ix[pickup] as u64);
                    assert(dec_digits(ix@[pickup as int] as u64 as nat) == dec_int(
                        ixm[pickup as int],
                    ));
                    m.append(")");
                    assert(m@ =~= msg_delivery_first(
                        delivery as int,
                        pickup as int,
                        ixm[delivery as int],
                        ixm[pickup as int],
                    ));
                    return Err(m);
                }
                assert(pdp_issue(pts, prm, ixm, node as int) is None);
            },
        }
        node = node + 1;
    }
    Ok(())
}

// ---------------------------------------------------------------------------
// running load

pub open spec fn msg_load_negative(id: int, route: int, pos: int) -> Seq<char> {
    "current load is negative at "@ + dec_int(id) + " in route "@ + dec_int(route)
        + " at position "@ + dec_int(pos)
}

pub open spec fn msg_load_over(load: int, cap: int, id: int, route: int, pos: int) -> Seq<char> {
    "load is greater than max load ("@ + dec_int(load) + " > "@ + dec_int(cap) + ") at "@
        + dec_int(id) + " in route "@ + dec_int(route) + " at position "@ + dec_int(pos)
}

/// Walks a route accumulating demand, and reports the first stop where the
/// running load goes negative or exceeds the capacity.
pub open spec fn load_scan(
    pts: Seq<Point>,
    cap: int,
    rid1: int,
    route: Seq<usize>,
    p: int,
    load: int,
) -> Option<Seq<char>>
    decreases route.len() - p,
{
    if p < 0 || p >= route.len() {
        None
    } else {
        let pt = pts[route[p] as int];
        let l2 = load + pt.demand;
        if l2 < 0 {
            Some(msg_load_negative(pt.id as int, rid1, p))
        } else if l2 > cap {
            Some(msg_load_over(l2, cap, pt.id as int, rid1, p))
        } else {
            load_scan(pts, cap, rid1, route, p + 1, l2)
        }
    }
}

/// Checks the running load of one route against the vehicle capacity.
pub fn check_route_load(inst: &Instance, route_id: usize, route: &Vec<usize>) -> (r: Result<
    (),
    String,
>)
    requires
        forall|k: int| 0 <= k < route@.len() ==> #[trigger] route@[k] < inst.pts@.len(),
    ensures
        match r {
            Ok(()) => load_scan(
                inst.pts@,
                inst.max_capacity as int,
                route_id as int,
                route@,
                0,
                0,
            ) is None,
            Err(m) => load_scan(inst.pts@, inst.max_capacity as int, route_id as int, route@, 0, 0)
                == Some(m@),
        },
{
    let ghost pts = inst.pts@;
    let ghost cap = inst.max_capacity as int;
    let mut load: i64 = 0;
    let mut p: usize = 0;
    while p < route.len()
        invariant
            p <= route@.len(),
            pts == inst.pts@,
            cap == inst.max_capacity as int,
            forall|k: int| 0 <= k < route@.len() ==> #[trigger] route@[k] < inst.pts@.len(),
            0 <= load <= 0x7fffffff,
            load == 0 || load <= cap,
            load_scan(pts, cap, route_id as int, route@, 0, 0) == load_scan(
                pts,
                cap,
                route_id as int,
                route@,
                p as int,
                load as int,
            ),
        decreases route@.len() - p,
    {
        let pt = inst.pts[route[p]];
        let l2: i64 = load + pt.demand as i64;
        if l2 < 0 {
            let mut m = String::new();
            m.append("current load is negative at ");
            push_i64(&mut m, pt.id as i64);
            m.append(" in route ");
            push_u64(&mut m, route_id as u64);
            assert(dec_digits(route_id as u64 as nat) == dec_int(route_id as int));
            m.append(" at position ");
            push_u64(&mut m, p as u64);
            assert(dec_digits(p as u64 as nat) == dec_int(p as int));
            assert(m@ =~= msg_load_negative(pt.id as int, route_id as int, p as int));
            return Err(m);
        }
        if l2 > inst.max_capacity as i64 {
            let mut m = String::new();
            m.append("load is greater than max load (");
            push_i64(&mut m, l2);
            m.append(" > ");
            push_i64(&mut m, inst.max_capacity as i64);
            m.append(") at ");
            push_i64(&mut m, pt.id as i64);
            m.append(" in route ");
            push_u64(&mut m, route_id as u64);
            assert(dec_digits(route_id as u64 as nat) == dec_int(route_id as int));
            m.append(" at position ");
            push_u64(&mut m, p as u64);
            assert(dec_digits(p as u64 as nat) == dec_int(p as int));
            assert(m@ =~= msg_load_over(
                l2 as int,
                cap,
                pt.id as int,
                route_id as int,
                p as int,
            ));
            return Err(m);
        }
        load = l2;
        p = p + 1;
    }
    Ok(())
}

// ---------------------------------------------------------------------------
// time windows along a route

pub open spec fn msg_arrived_late(time: int, id: int, route: int, pos: int) -> Seq<char> {
    "arrived too late ("@ + float_text_of(time) + ") at "@ + dec_int(id) + " in route "@
        + dec_int(route) + " at position "@ + dec_int(pos)
}

pub open spec fn msg_arrived_late_depot(time: int, route: int) -> Seq<char> {
    "arrived too late ("@ + float_text_of(time) + ") in route "@ + dec_int(route) + " at depot"@
}

/// Verdict of simulating one route against the time windows: where every
/// travelled leg is an exact integer the verdict is pinned; otherwise the
/// high-precision engine decides and nothing is claimed.
pub enum RouteTime {
    Feasible,
    LateAt(int, int),
    LateDepot(int),
    Undetermined,
}

/// Continues the simulation after serving stop `p` at time `t`: travel to
/// the next stop, or close the loop back to the depot.
pub open spec fn rt_steps(pts: Seq<Point>, route: Seq<usize>, p: int, t: int) -> RouteTime
    decreases route.len() - p,
{
    if p < 0 || p + 1 >= route.len() {
        let last = pts[route[route.len() - 1] as int];
        let dep = pts[0];
        if !is_square(dist_sq(last, dep)) {
            RouteTime::Undetermined
        } else {
            let arr = t + sqrt_of(dist_sq(last, dep));
            if arr > dep.due {
                RouteTime::LateDepot(arr)
            } else {
                RouteTime::Feasible
            }
        }
    } else {
        let from = pts[route[p] as int];
        let to = pts[route[p + 1] as int];
        if !is_square(dist_sq(from, to)) {
            RouteTime::Undetermined
        } else {
            let arr = t + sqrt_of(dist_sq(from, to));
            if arr > to.due {
                RouteTime::LateAt(p + 1, arr)
            } else {
                let served = if to.start as int >= arr {
                    to.start as int
                } else {
                    arr
                };
                rt_steps(pts, route, p + 1, served + to.service)
            }
        }
    }
}

/// Simulates one route: depart the depot, serve every stop within its
/// window, and return before the depot closes.
pub open spec fn spec_route_time(pts: Seq<Point>, route: Seq<usize>) -> RouteTime {
    let dep = pts[0];
    let first = pts[route[0] as int];
    if !is_square(dist_sq(dep, first)) {
        RouteTime::Undetermined
    } else {
        let arr = dep.start + dep.service + sqrt_of(dist_sq(dep, first));
        if arr > first.due {
            RouteTime::LateAt(0, arr)
        } else {
            let served = if first.start as int >= arr {
                first.start as int
            } else {
                arr
            };
            rt_steps(pts, route, 0, served + first.service)
        }
    }
}

/// `m` is an arrived-too-late diagnostic citing some rendered time, the
/// point `id`, the route, and the position.
pub open spec fn is_late_stop_msg(m: Seq<char>, id: int, route: int, pos: int) -> bool {
    exists|t: Seq<char>|
        m == "arrived too late ("@ + t + ") at "@ + dec_int(id) + " in route "@ + dec_int(route)
            + " at position "@ + dec_int(pos)
}

/// `m` is an arrived-too-late diagnostic for the closing leg, citing some
/// rendered time and the route.
pub open spec fn is_late_depot_msg(m: Seq<char>, route: int) -> bool {
    exists|t: Seq<char>|
        m == "arrived too late ("@ + t + ") in route "@ + dec_int(route) + " at depot"@
}

/// Verdict of the full-precision simulation of one route: on time
/// throughout, late at a stop, or late back at the depot.
pub enum RouteVerdict {
    OnTime,
    LateStop(int),
    LateBack,
}

/// Continues the full-precision simulation after serving stop `p` at the
/// scaled time `t` (in units of one over [`scale_unit`]). Unlike the exact
/// integer simulation, this verdict is defined for every input.
pub open spec fn rt_steps_sc(pts: Seq<Point>, route: Seq<usize>, p: int, t: int) -> RouteVerdict
    decreases route.len() - p,
{
    if p < 0 || p + 1 >= route.len() {
        let last = pts[route[route.len() - 1] as int];
        let dep = pts[0];
        let arr = t + sqrt_scaled(dist_sq(last, dep));
        if arr > dep.due as int * scale_unit() {
            RouteVerdict::LateBack
        } else {
            RouteVerdict::OnTime
        }
    } else {
        let from = pts[route[p] as int];
        let to = pts[route[p + 1] as int];
        let arr = t + sqrt_scaled(dist_sq(from, to));
        if arr > to.due as int * scale_unit() {
            RouteVerdict::LateStop(p + 1)
        } else {
            let served = if to.start as int * scale_unit() >= arr {
                to.start as int * scale_unit()
            } else {
                arr
            };
            rt_steps_sc(pts, route, p + 1, served + to.service as int * scale_unit())
        }
    }
}

/// The full-precision verdict of one route, defined for every input.
pub open spec fn spec_route_verdict(pts: Seq<Point>, route: Seq<usize>) -> RouteVerdict {
    let dep = pts[0];
    let first = pts[route[0] as int];
    let arr = dep.start as int * scale_unit() + dep.service as int * scale_unit() + sqrt_scaled(
        dist_sq(dep, first),
    );
    if arr > first.due as int * scale_unit() {
        RouteVerdict::LateStop(0)
    } else {
        let served = if first.start as int * scale_unit() >= arr {
            first.start as int * scale_unit()
        } else {
            arr
        };
        rt_steps_sc(pts, route, 0, served + first.service as int * scale_unit())
    }
}

/// Simulates one route against the time windows, reporting the first stop
/// (or the return to the depot) reached after its due time. The verdict and
/// the failing position are pinned for every input (the full-precision
/// simulation); the cited arrival time's digits are pinned where every leg
/// has an integer length.
pub fn check_route_time(inst: &Instance, route_id: usize, route: &Vec<usize>) -> (r: Result<
    (),
    String,
>)
    requires
        inst.pts@.len() >= 1,
        route@.len() > 0,
        forall|k: int| 0 <= k < route@.len() ==> #[trigger] route@[k] < inst.pts@.len(),
    ensures
        (r is Ok) == (spec_route_verdict(inst.pts@, route@) is OnTime),
        spec_route_verdict(inst.pts@, route@) matches RouteVerdict::LateStop(pos) ==> r is Err
            && is_late_stop_msg(
            r->Err_0@,
            inst.pts@[route@[pos] as int].id as int,
            route_id as int,
            pos,
        ),
        spec_route_verdict(inst.pts@, route@) is LateBack ==> r is Err && is_late_depot_msg(
            r->Err_0@,
            route_id as int,
        ),
        match spec_route_time(inst.pts@, route@) {
            RouteTime::Feasible => r is Ok,
            RouteTime::LateAt(pos, time) => r is Err && r->Err_0@ == msg_arrived_late(
                time,
                inst.pts@[route@[pos] as int].id as int,
                route_id as int,
                pos,
            ),
            RouteTime::LateDepot(time) => r is Err && r->Err_0@ == msg_arrived_late_depot(
                time,
                route_id as int,
            ),
            RouteTime::Undetermined => true,
        },
{
    let ghost pts = inst.pts@;
    let depot = inst.pts[0];
    let first = inst.pts[route[0]];
    let mut time = fl(depot.start);
    add_i32_fl(&mut time, depot.service);
    let d0 = depot.dist(&first);
    add_fl(&mut time, &d0);
    let ghost leg0 = dist_sq(pts[0], pts[route@[0] as int]);
    proof {
        if is_square(leg0) {
            assert(float_val(time) == Some(depot.start + depot.service + sqrt_of(leg0)));
        }
    }
    if gt_i32_fl(&time, first.due) {
        let ttext = fl_to_text(&time);
        let mut m = String::new();
        m.append("arrived too late (");
        m.append(ttext.as_str());
        m.append(") at ");
        push_i64(&mut m, first.id as i64);
        m.append(" in route ");
        push_u64(&mut m, route_id as u64);
        assert(dec_digits(route_id as u64 as nat) == dec_int(route_id as int));
        m.append(" at position ");
        push_u64(&mut m, 0u64);
        proof {
            assert(m@ =~= "arrived too late ("@ + ttext@ + ") at "@ + dec_int(first.id as int)
                + " in route "@ + dec_int(route_id as int) + " at position "@ + dec_int(0));
            assert(is_late_stop_msg(m@, first.id as int, route_id as int, 0));
            if is_square(leg0) {
                let arr = depot.start + depot.service + sqrt_of(leg0);
                lemma_dist_sq_bound(pts[0], pts[route@[0] as int]);
                lemma_sqrt_le(leg0, 0x200000000);
                assert(fits_text(arr));
                assert(m@ =~= msg_arrived_late(arr, first.id as int, route_id as int, 0));
                assert(spec_route_time(pts, route@) == RouteTime::LateAt(0, arr));
            } else {
                assert(spec_route_time(pts, route@) == RouteTime::Undetermined);
            }
        }
        return Err(m);
    }
    let sf = fl(first.start);
    let mx = max_fl(&time, &sf);
    time = mx;
    add_i32_fl(&mut time, first.service);
    proof {
        if is_square(leg0) {
            let arr = depot.start + depot.service + sqrt_of(leg0);
            let served = if first.start as int >= arr {
                first.start as int
            } else {
                arr
            };
            assert(float_val(time) == Some(served + first.service));
            assert(spec_route_time(pts, route@) == rt_steps(pts, route@, 0, served
                + first.service));
        } else {
            assert(spec_route_time(pts, route@) == RouteTime::Undetermined);
        }
    }
    let mut tidx: usize = 1;
    while tidx < route.len()
        invariant
            1 <= tidx <= route@.len(),
            pts == inst.pts@,
            pts.len() >= 1,
            route@.len() > 0,
            forall|k: int| 0 <= k < route@.len() ==> #[trigger] route@[k] < inst.pts@.len(),
            scaled_val(time) matches Some(tsc) && spec_route_verdict(pts, route@) == rt_steps_sc(
                pts,
                route@,
                tidx - 1,
                tsc,
            ),
            spec_route_time(pts, route@) is Undetermined || (float_val(time) matches Some(tv)
                && spec_route_time(pts, route@) == rt_steps(pts, route@, tidx - 1, tv) && -(
            (tidx as int + 1) * 0x1000000000) <= tv <= (tidx as int + 1) * 0x1000000000),
        decreases route@.len() - tidx,
    {
        let from = inst.pts[route[tidx - 1]];
        let to = inst.pts[route[tidx]];
        let d = from.dist(&to);
        let ghost told = float_val(time);
        add_fl(&mut time, &d);
        let ghost legv = dist_sq(pts[route@[tidx as int - 1] as int], pts[route@[tidx as int] as int]);
        if gt_i32_fl(&time, to.due) {
            let ttext = fl_to_text(&time);
            let mut m = String::new();
            m.append("arrived too late (");
            m.append(ttext.as_str());
            m.append(") at ");
            push_i64(&mut m, to.id as i64);
            m.append(" in route ");
            push_u64(&mut m, route_id as u64);
            assert(dec_digits(route_id as u64 as nat) == dec_int(route_id as int));
            m.append(" at position ");
            push_u64(&mut m, tidx as u64);
            assert(dec_digits(tidx as u64 as nat) == dec_int(tidx as int));
            proof {
                assert(m@ =~= "arrived too late ("@ + ttext@ + ") at "@ + dec_int(to.id as int)
                    + " in route "@ + dec_int(route_id as int) + " at position "@ + dec_int(
                    tidx as int,
                ));
                assert(is_late_stop_msg(m@, to.id as int, route_id as int, tidx as int));
                if spec_route_time(pts, route@) is Undetermined {
                } else {
                    let tv = told->Some_0;
                    if is_square(legv) {
                        let arr = tv + sqrt_of(legv);
                        assert(float_val(time) == Some(arr));
                        lemma_dist_sq_bound(pts[route@[tidx as int - 1] as int], pts[route@[
                            tidx as int] as int]);
                        lemma_sqrt_le(legv, 0x200000000);
                        assert((tidx as int + 1) * 0x1000000000 <= 0x10000000000000000
                            * 0x1000000000) by (nonlinear_arith)
                            requires
                                0 <= tidx as int + 1 <= 0x10000000000000000,
                        ;
                        assert(fits_text(arr));
                        assert(m@ =~= msg_arrived_late(arr, to.id as int, route_id as int,
                            tidx as int));
                        assert(rt_steps(pts, route@, tidx - 1, tv) == RouteTime::LateAt(
                            tidx as int, arr));
                    } else {
                        assert(rt_steps(pts, route@, tidx - 1, tv)
                            == RouteTime::Undetermined);
                    }
                }
            }
            return Err(m);
        }
        let st = fl(to.start);
        let mx2 = max_fl(&time, &st);
        time = mx2;
        add_i32_fl(&mut time, to.service);
        proof {
            if spec_route_time(pts, route@) is Undetermined {
            } else {
                let tv = told->Some_0;
                if is_square(legv) {
                    let arr = tv + sqrt_of(legv);
                    let served = if to.start as int >= arr {
                        to.start as int
                    } else {
                        arr
                    };
                    assert(float_val(time) == Some(served + to.service));
                    lemma_dist_sq_bound(pts[route@[tidx as int - 1] as int], pts[route@[
                        tidx as int] as int]);
                    lemma_sqrt_le(legv, 0x200000000);
                    assert(-((tidx as int + 2) * 0x1000000000) <= served + to.service <= (
                    tidx as int + 2) * 0x1000000000);
                    assert(rt_steps(pts, route@, tidx - 1, tv) == rt_steps(pts, route@,
                        tidx as int, served + to.service));
                } else {
                    assert(rt_steps(pts, route@, tidx - 1, tv) == RouteTime::Undetermined);
                    assert(spec_route_time(pts, route@) is Undetermined);
                }
            }
        }
        tidx = tidx + 1;
    }
    let last = inst.pts[route[route.len() - 1]];
    let dl = last.dist(&depot);
    let ghost told = float_val(time);
    add_fl(&mut time, &dl);
    let ghost legl = dist_sq(pts[route@[route@.len() - 1] as int], pts[0]);
    if gt_i32_fl(&time, depot.due) {
        let ttext = fl_to_text(&time);
        let mut m = String::new();
        m.append("arrived too late (");
        m.append(ttext.as_str());
        m.append(") in route ");
        push_u64(&mut m, route_id as u64);
        assert(dec_digits(route_id as u64 as nat) == dec_int(route_id as int));
        m.append(" at depot");
        proof {
            assert(m@ =~= "arrived too late ("@ + ttext@ + ") in route "@ + dec_int(
                route_id as int,
            ) + " at depot"@);
            assert(is_late_depot_msg(m@, route_id as int));
            if spec_route_time(pts, route@) is Undetermined {
            } else {
                let tv = told->Some_0;
                if is_square(legl) {
                    let arr = tv + sqrt_of(legl);
                    assert(float_val(time) == Some(arr));
                    lemma_dist_sq_bound(pts[route@[route@.len() - 1] as int], pts[0]);
                    lemma_sqrt_le(legl, 0x200000000);
                    assert((route@.len() as int + 1) * 0x1000000000 <= 0x10000000000000000
                        * 0x1000000000) by (nonlinear_arith)
                        requires
                            0 <= route@.len() as int + 1 <= 0x10000000000000000,
                    ;
                    assert(fits_text(arr));
                    assert(m@ =~= msg_arrived_late_depot(arr, route_id as int));
                    assert(rt_steps(pts, route@, route@.len() - 1, tv)
                        == RouteTime::LateDepot(arr));
                } else {
                    assert(rt_steps(pts, route@, route@.len() - 1, tv)
                        == RouteTime::Undetermined);
                }
            }
        }
        return Err(m);
    }
    proof {
        if spec_route_time(pts, route@) is Undetermined {
        } else {
            let tv = told->Some_0;
            if is_square(legl) {
                let arr = tv + sqrt_of(legl);
                assert(float_val(time) == Some(arr));
                assert(rt_steps(pts, route@, route@.len() - 1, tv) == RouteTime::Feasible);
            } else {
                assert(rt_steps(pts, route@, route@.len() - 1, tv) == RouteTime::Undetermined);
            }
        }
    }
    Ok(())
}


// ---------------------------------------------------------------------------
// travelled distance

/// The summed lengths of the legs between consecutive stops, up to stop `p`.
pub open spec fn consec_to(pts: Seq<Point>, route: Seq<usize>, p: int) -> int
    decreases p,
{
    if p <= 0 {
        0
    } else {
        consec_to(pts, route, p - 1) + sqrt_of(
            dist_sq(pts[route[p - 1] as int], pts[route[p] as int]),
        )
    }
}

/// The total length of a route: depot to first stop, consecutive stops, and
/// last stop back to the depot.
pub open spec fn route_dist(pts: Seq<Point>, route: Seq<usize>) -> int {
    sqrt_of(dist_sq(pts[0], pts[route[0] as int])) + consec_to(pts, route, route.len() - 1)
        + sqrt_of(dist_sq(pts[route[route.len() - 1] as int], pts[0]))
}

/// The summed full-precision lengths (in units of one over [`scale_unit`])
/// of the legs between consecutive stops, up to stop `p`.
pub open spec fn consec_to_sc(pts: Seq<Point>, route: Seq<usize>, p: int) -> int
    decreases p,
{
    if p <= 0 {
        0
    } else {
        consec_to_sc(pts, route, p - 1) + sqrt_scaled(
            dist_sq(pts[route[p - 1] as int], pts[route[p] as int]),
        )
    }
}

/// The total full-precision length of a route, defined for every input.
pub open spec fn route_dist_sc(pts: Seq<Point>, route: Seq<usize>) -> int {
    sqrt_scaled(dist_sq(pts[0], pts[route[0] as int])) + consec_to_sc(
        pts,
        route,
        route.len() - 1,
    ) + sqrt_scaled(dist_sq(pts[route[route.len() - 1] as int], pts[0]))
}

/// Every leg of the route has an integer length.
pub open spec fn legs_square(pts: Seq<Point>, route: Seq<usize>) -> bool {
    &&& is_square(dist_sq(pts[0], pts[route[0] as int]))
    &&& forall|p: int|
        1 <= p < route.len() ==> is_square(
            #[trigger] dist_sq(pts[route[p - 1] as int], pts[route[p] as int]),
        )
    &&& is_square(dist_sq(pts[route[route.len() - 1] as int], pts[0]))
}

/// A route whose time simulation is feasible travels only legs of integer
/// length: the simulation stops at the first leg that is not one.
proof fn lemma_rt_feasible_legs(pts: Seq<Point>, route: Seq<usize>, p: int, t: int)
    requires
        0 <= p < route.len(),
        rt_steps(pts, route, p, t) == RouteTime::Feasible,
    ensures
        forall|q: int|
            p + 1 <= q < route.len() ==> is_square(
                #[trigger] dist_sq(pts[route[q - 1] as int], pts[route[q] as int]),
            ),
        is_square(dist_sq(pts[route[route.len() - 1] as int], pts[0])),
    decreases route.len() - p,
{
    if p + 1 < route.len() {
        let from = pts[route[p] as int];
        let to = pts[route[p + 1] as int];
        let arr = t + sqrt_of(dist_sq(from, to));
        let served = if to.start as int >= arr {
            to.start as int
        } else {
            arr
        };
        lemma_rt_feasible_legs(pts, route, p + 1, served + to.service);
    }
}

/// A route whose whole time simulation is feasible has only integer legs.
pub proof fn lemma_route_time_feasible_legs(pts: Seq<Point>, route: Seq<usize>)
    requires
        route.len() > 0,
        spec_route_time(pts, route) == RouteTime::Feasible,
    ensures
        legs_square(pts, route),
{
    let dep = pts[0];
    let first = pts[route[0] as int];
    let arr = dep.start + dep.service + sqrt_of(dist_sq(dep, first));
    let served = if first.start as int >= arr {
        first.start as int
    } else {
        arr
    };
    lemma_rt_feasible_legs(pts, route, 0, served + first.service);
}

/// Accumulates the travelled distance of one route at working precision;
/// exact whenever every leg has an integer length.
pub fn calc_route_distance(inst: &Instance, route: &Vec<usize>) -> (r: bigdecimal::BigDecimal)
    requires
        inst.pts@.len() >= 1,
        route@.len() > 0,
        forall|k: int| 0 <= k < route@.len() ==> #[trigger] route@[k] < inst.pts@.len(),
    ensures
        scaled_val(r) == Some(route_dist_sc(inst.pts@, route@)),
        0 <= scaled_val(r)->Some_0,
        legs_square(inst.pts@, route@) ==> float_val(r) == Some(route_dist(inst.pts@, route@)),
{
    let ghost pts = inst.pts@;
    let depot = inst.pts[0];
    let first = inst.pts[route[0]];
    let mut acc = depot.dist(&first);
    let mut p: usize = 1;
    while p < route.len()
        invariant
            1 <= p <= route@.len(),
            pts == inst.pts@,
            pts.len() >= 1,
            route@.len() > 0,
            forall|k: int| 0 <= k < route@.len() ==> #[trigger] route@[k] < inst.pts@.len(),
            scaled_val(acc) == Some(
                sqrt_scaled(dist_sq(pts[0], pts[route@[0] as int])) + consec_to_sc(
                    pts,
                    route@,
                    p - 1,
                ),
            ),
            0 <= scaled_val(acc)->Some_0,
            legs_square(pts, route@) ==> float_val(acc) == Some(
                sqrt_of(dist_sq(pts[0], pts[route@[0] as int])) + consec_to(pts, route@, p - 1),
            ),
        decreases route@.len() - p,
    {
        let from = inst.pts[route[p - 1]];
        let to = inst.pts[route[p]];
        let d = from.dist(&to);
        add_fl(&mut acc, &d);
        p = p + 1;
    }
    let last = inst.pts[route[route.len() - 1]];
    let dl = last.dist(&depot);
    add_fl(&mut acc, &dl);
    acc
}

// ---------------------------------------------------------------------------
// the whole verification

pub open spec fn msg_fleet(n: int, v: int) -> Seq<char> {
    "more vehicles than allowed ("@ + dec_int(n) + " > "@ + dec_int(v) + ")"@
}

/// Every route from `r` on passes its load and full-precision time checks
/// (an empty route passes trivially).
pub open spec fn routes_ok_from(
    pts: Seq<Point>,
    cap: int,
    routes: Seq<Seq<usize>>,
    r: int,
) -> bool
    decreases routes.len() - r,
{
    if r < 0 || r >= routes.len() {
        true
    } else {
        let route = routes[r];
        (route.len() == 0 || (load_scan(pts, cap, r + 1, route, 0, 0) is None
            && spec_route_verdict(pts, route) is OnTime)) && routes_ok_from(pts, cap, routes, r + 1)
    }
}

/// The summed full-precision length of the first `r` routes, an empty route
/// contributing nothing.
pub open spec fn total_dist_sc_upto(pts: Seq<Point>, routes: Seq<Seq<usize>>, r: int) -> int
    decreases r,
{
    if r <= 0 || r > routes.len() {
        0
    } else {
        total_dist_sc_upto(pts, routes, r - 1) + if routes[r - 1].len() == 0 {
            0
        } else {
            route_dist_sc(pts, routes[r - 1])
        }
    }
}

/// Whether the whole verification accepts, defined for every input: the
/// structural checks pass and every route is within load and time bounds at
/// full precision.
pub open spec fn spec_verify_accepts(inst: Instance, sol: Solution) -> bool {
    let pts = inst.pts@;
    let routesd = sol.routes.deep_view();
    &&& spec_basic_sanity(pts.len() as int, routesd) is None
    &&& (inst.is_pdp ==> spec_check_pdp(inst, sol) is None)
    &&& !(inst.vehicles >= 0 && routesd.len() > inst.vehicles)
    &&& routes_ok_from(pts, inst.max_capacity as int, routesd, 0)
}

/// Verdict of the whole verification: a first diagnostic, the accepted total
/// distance, or undetermined where an inexact square root decides.
pub enum VerifyOutcome {
    Rejected(Seq<char>),
    Accepted(int),
    Undetermined,
}

/// Checks the routes from `r` on, accumulating the travelled distance: for
/// each non-empty route the running load, then the time simulation, then the
/// route's length.
pub open spec fn routes_check_from(
    pts: Seq<Point>,
    cap: int,
    routes: Seq<Seq<usize>>,
    r: int,
    total: int,
) -> VerifyOutcome
    decreases routes.len() - r,
{
    if r < 0 || r >= routes.len() {
        VerifyOutcome::Accepted(total)
    } else {
        let route = routes[r];
        if route.len() == 0 {
            routes_check_from(pts, cap, routes, r + 1, total)
        } else {
            match load_scan(pts, cap, r + 1, route, 0, 0) {
                Some(m) => VerifyOutcome::Rejected(m),
                None => match spec_route_time(pts, route) {
                    RouteTime::Undetermined => VerifyOutcome::Undetermined,
                    RouteTime::LateAt(pos, time) => VerifyOutcome::Rejected(
                        msg_arrived_late(time, pts[route[pos] as int].id as int, r + 1, pos),
                    ),
                    RouteTime::LateDepot(time) => VerifyOutcome::Rejected(
                        msg_arrived_late_depot(time, r + 1),
                    ),
                    RouteTime::Feasible => routes_check_from(
                        pts,
                        cap,
                        routes,
                        r + 1,
                        total + route_dist(pts, route),
                    ),
                },
            }
        }
    }
}

/// What verifying a solution against an instance yields: the checks run in a
/// fixed order and the first violation wins.
pub open spec fn spec_verify(inst: Instance, sol: Solution) -> VerifyOutcome {
    let pts = inst.pts@;
    let routesd = sol.routes.deep_view();
    match spec_basic_sanity(pts.len() as int, routesd) {
        Some(m) => VerifyOutcome::Rejected(m),
        None => {
            let pdp = if inst.is_pdp {
                spec_check_pdp(inst, sol)
            } else {
                None
            };
            match pdp {
                Some(m) => VerifyOutcome::Rejected(m),
                None => if inst.vehicles >= 0 && routesd.len() > inst.vehicles {
                    VerifyOutcome::Rejected(msg_fleet(routesd.len() as int, inst.vehicles as int))
                } else {
                    routes_check_from(pts, inst.max_capacity as int, routesd, 0, 0)
                },
            }
        },
    }
}

/// Verifies a solution against an instance: structural sanity, pairing,
/// fleet size, and per-route time and load, returning the total travelled
/// distance when every check passes.
pub fn verify(inst: &Instance, sol: &Solution) -> (r: Result<bigdecimal::BigDecimal, String>)
    requires
        inst.valid(),
    ensures
        (r is Ok) == spec_verify_accepts(*inst, *sol),
        r matches Ok(d) ==> scaled_val(d) == Some(
            total_dist_sc_upto(inst.pts@, sol.routes.deep_view(), sol.routes.deep_view().len() as int),
        ),
        match spec_verify(*inst, *sol) {
            VerifyOutcome::Rejected(m) => r is Err && r->Err_0@ == m,
            VerifyOutcome::Accepted(d) => r is Ok && float_val(r->Ok_0) == Some(d),
            VerifyOutcome::Undetermined => true,
        },
{
    let ghost pts = inst.pts@;
    let ghost routesd = sol.routes.deep_view();
    let ghost cap = inst.max_capacity as int;
    match check_basic_sanity(inst, sol) {
        Err(e) => {
            return Err(e);
        },
        Ok(_) => {},
    }
    proof {
        lemma_basic_sane_in_range(pts.len() as int, routesd);
    }
    if inst.is_pdp {
        match check_pdp(inst, sol) {
            Err(e) => {
                return Err(e);
            },
            Ok(_) => {},
        }
    }
    if inst.vehicles >= 0 && sol.routes.len() > inst.vehicles as usize {
        let mut m = String::new();
        m.append("more vehicles than allowed (");
        push_u64(&mut m, sol.routes.len() as u64);
        assert(dec_digits(sol.routes.len() as u64 as nat) == dec_int(sol.routes@.len() as int));
        m.append(" > ");
        push_i64(&mut m, inst.vehicles as i64);
        m.append(")");
        assert(m@ =~= msg_fleet(routesd.len() as int, inst.vehicles as int));
        return Err(m);
    }
    let mut total = fl(0);
    let mut r: usize = 0;
    while r < sol.routes.len()
        invariant
            r <= sol.routes@.len(),
            pts == inst.pts@,
            pts.len() >= 1,
            inst.valid(),
            cap == inst.max_capacity as int,
            routesd == sol.routes.deep_view(),
            routesd.len() == sol.routes@.len(),
            routes_in_range(routesd, pts.len() as int),
            spec_basic_sanity(pts.len() as int, routesd) is None,
            inst.is_pdp ==> spec_check_pdp(*inst, *sol) is None,
            !(inst.vehicles >= 0 && routesd.len() > inst.vehicles),
            routes_ok_from(pts, cap, routesd, 0) == routes_ok_from(pts, cap, routesd, r as int),
            scaled_val(total) matches Some(ts) && ts == total_dist_sc_upto(
                pts,
                routesd,
                r as int,
            ),
            spec_verify(*inst, *sol) is Undetermined || (float_val(total) matches Some(tv)
                && spec_verify(*inst, *sol) == routes_check_from(pts, cap, routesd, r as int, tv)),
        decreases sol.routes@.len() - r,
    {
        let route = &sol.routes[r];
        let rid1 = r + 1;
        let ghost routed = routesd[r as int];
        assert(routed =~= sol.routes@[r as int]@);
        if route.len() > 0 {
            assert(forall|k: int|
                0 <= k < route@.len() ==> #[trigger] route@[k] < inst.pts@.len()) by {
                assert(forall|k: int|
                    0 <= k < routed.len() ==> 0 < #[trigger] routed[k] < pts.len());
            }
            match check_route_load(inst, rid1, route) {
                Err(e) => {
                    return Err(e);
                },
                Ok(_) => {},
            }
            match check_route_time(inst, rid1, route) {
                Err(e) => {
                    return Err(e);
                },
                Ok(_) => {},
            }
            proof {
                if spec_route_time(pts, routed) is Feasible {
                    lemma_route_time_feasible_legs(pts, routed);
                }
            }
            let d = calc_route_distance(inst, route);
            let ghost tot_old = float_val(total);
            add_fl(&mut total, &d);
            proof {
                if spec_verify(*inst, *sol) is Undetermined {
                } else {
                    let tv = tot_old->Some_0;
                    match spec_route_time(pts, routed) {
                        RouteTime::Feasible => {
                            assert(float_val(total) == Some(tv + route_dist(pts, routed)));
                            assert(routes_check_from(pts, cap, routesd, r as int, tv)
                                == routes_check_from(
                                pts,
                                cap,
                                routesd,
                                r as int + 1,
                                tv + route_dist(pts, routed),
                            ));
                        },
                        RouteTime::Undetermined => {
                            assert(routes_check_from(pts, cap, routesd, r as int, tv)
                                == VerifyOutcome::Undetermined);
                        },
                        _ => {
                            assert(false);
                        },
                    }
                }
            }
        } else {
            proof {
                if spec_verify(*inst, *sol) is Undetermined {
                } else {
                    let tv = float_val(total)->Some_0;
                    assert(routes_check_from(pts, cap, routesd, r as int, tv)
                        == routes_check_from(pts, cap, routesd, r as int + 1, tv));
                }
            }
        }
        r = r + 1;
    }
    Ok(total)
}

// ---------------------------------------------------------------------------
// comparison against a best known result

/// Three-way outcome of holding a verified result against a recorded best:
/// fewer routes always win; with equal route counts the distances are
/// compared under an absolute epsilon of one thousandth.
#[derive(Clone, Copy, Debug, PartialEq, Eq, Structural)]
pub enum Comparison {
    BetterThan,
    EqualTo,
    WorseThan,
}

/// Classification of an integer distance gap `best - candidate` under the
/// epsilon: a whole unit below, exactly level, or a whole unit above.
pub open spec fn eps_class(diff: int) -> Comparison {
    if diff <= -1 {
        Comparison::WorseThan
    } else if diff == 0 {
        Comparison::EqualTo
    } else {
        Comparison::BetterThan
    }
}

/// Classification of a full-precision distance gap `best - candidate`,
/// given in units of one over [`scale_unit`], under the epsilon of one
/// thousandth: the gap value below minus a thousandth, within a thousandth
/// either way, or at and above a thousandth.
pub open spec fn eps_class_sc(dn: int) -> Comparison {
    if 1000 * dn < -scale_unit() {
        Comparison::WorseThan
    } else if -scale_unit() < 1000 * dn && 1000 * dn < scale_unit() {
        Comparison::EqualTo
    } else {
        Comparison::BetterThan
    }
}

/// Holds a verified result against a recorded best: route counts first, then
/// the distances under the epsilon of one thousandth.
pub fn compare(
    routes: usize,
    distance: &bigdecimal::BigDecimal,
    best: Option<(usize, &bigdecimal::BigDecimal)>,
) -> (c: Comparison)
    ensures
        best is None ==> c == Comparison::BetterThan,
        best matches Some((br, _)) && routes < br ==> c == Comparison::BetterThan,
        best matches Some((br, _)) && routes > br ==> c == Comparison::WorseThan,
        ({
            &&& best matches Some((br, bd))
            &&& routes == br
            &&& float_val(*distance) matches Some(x)
            &&& float_val(*bd) matches Some(y)
        }) ==> c == eps_class(
            float_val(*best->Some_0.1)->Some_0 - float_val(*distance)->Some_0,
        ),
        ({
            &&& best matches Some((br, bd))
            &&& routes == br
            &&& scaled_val(*distance) matches Some(x)
            &&& scaled_val(*bd) matches Some(y)
        }) ==> c == eps_class_sc(
            scaled_val(*best->Some_0.1)->Some_0 - scaled_val(*distance)->Some_0,
        ),
{
    match best {
        None => Comparison::BetterThan,
        Some((br, bd)) => {
            if routes < br {
                Comparison::BetterThan
            } else if routes > br {
                Comparison::WorseThan
            } else {
                let diff = sub_fl(bd, distance);
                let scaled = mul_i32_fl(&diff, 1000);
                if lt_i32_fl(&scaled, -1) {
                    Comparison::WorseThan
                } else if gt_i32_fl(&scaled, -1) && lt_i32_fl(&scaled, 1) {
                    Comparison::EqualTo
                } else {
                    Comparison::BetterThan
                }
            }
        },
    }
}

} // verus!

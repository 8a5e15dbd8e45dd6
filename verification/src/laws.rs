//! Laws that hold across the crate's components, stated over the spec model
//! and proved once and for all.

use crate::instance::{
    bad_ids_from, demand_issue, demands_first, inst_matches, pairs_in_range, spec_check_demands,
    spec_read_instance, spec_sanity_int, Instance, ParseOutcome,
};
use crate::point::Point;
use crate::solution::{nonblank_lines, spec_parse_solution, Solution};
use crate::text::{tokens_of, ws_char};
use crate::solution::ids_of;
use crate::verify::{
    first_unvisited, init_owner, routes_in_range, scan_route, scan_routes, spec_basic_sanity,
    spec_verify,
};
use vstd::prelude::*;

verus! {

// ---------------------------------------------------------------------------
// shape of a sane instance

/// No listed misplacement means every id matches its position.
proof fn lemma_bad_ids_empty(pts: Seq<Point>, i: int)
    requires
        0 <= i,
        bad_ids_from(pts, i).len() == 0,
    ensures
        forall|j: int| i <= j < pts.len() ==> pts[j].id == j,
    decreases pts.len() - i,
{
    if 0 <= i < pts.len() {
        assert(pts[i].id == i);
        lemma_bad_ids_empty(pts, i + 1);
    }
}

/// A passed demand check holds pointwise.
proof fn lemma_demands_none(pts: Seq<Point>, cap: int, is_pdp: bool, i: int)
    requires
        0 <= i,
        demands_first(pts, cap, is_pdp, i) is None,
    ensures
        forall|j: int| i <= j < pts.len() ==> demand_issue(pts, cap, is_pdp, j) is None,
    decreases pts.len() - i,
{
    if 0 <= i < pts.len() {
        lemma_demands_none(pts, cap, is_pdp, i + 1);
    }
}

/// An instance whose deterministic sanity checks pass has a depot and at
/// least one client, sequential point ids, a depot without demand, and
/// pickup/delivery pairs that point into the instance with at most one side
/// set.
pub proof fn lemma_sane_instance_shape(pts: Seq<Point>, cap: int, is_pdp: bool)
    requires
        spec_sanity_int(pts, cap, is_pdp) is None,
    ensures
        pts.len() >= 2,
        forall|i: int| 0 <= i < pts.len() ==> pts[i].id == i,
        pts[0].demand == 0,
        pairs_in_range(pts),
{
    lemma_bad_ids_empty(pts, 0);
    assert(spec_check_demands(pts, cap, is_pdp) is None);
    lemma_demands_none(pts, cap, is_pdp, 0);
    assert forall|i: int| 0 <= i < pts.len() implies match #[trigger] pts[i].pickup_delivery {
        Some((p, d)) => 0 <= p < pts.len() && 0 <= d < pts.len() && (p == 0 || d == 0),
        None => true,
    } by {
        assert(demand_issue(pts, cap, is_pdp, i) is None);
        match pts[i].pickup_delivery {
            Some((p, d)) => {
                assert(!(p != 0 && d != 0));
                let o = if p != 0 {
                    p as int
                } else {
                    d as int
                };
                assert(0 <= o < pts.len());
            },
            None => {},
        }
    }
}

/// An instance that the sanity checks did not refuse is fit for the
/// verification engine.
pub proof fn lemma_sane_instance_valid(inst: Instance)
    requires
        !(crate::instance::spec_sanity(inst) is Violation),
    ensures
        inst.valid(),
        inst.pts@.len() >= 2,
        forall|i: int| 0 <= i < inst.pts@.len() ==> inst.pts@[i].id == i,
        inst.pts@[0].demand == 0,
{
    lemma_sane_instance_shape(inst.pts@, inst.max_capacity as int, inst.is_pdp);
}

// ---------------------------------------------------------------------------
// the basic sanity check accepts exactly the partitions

/// Node `v` occurs in `route` at or after position `p`.
pub open spec fn occurs_in_route(route: Seq<usize>, p: int, v: int) -> bool {
    exists|q: int| p <= q < route.len() && #[trigger] route[q] == v
}

/// Node `v` occurs in some route from `r` on.
pub open spec fn occurs_from(routes: Seq<Seq<usize>>, r: int, v: int) -> bool {
    exists|q: int, pq: int|
        r <= q < routes.len() && 0 <= pq < routes[q].len() && #[trigger] routes[q][pq] == v
}

/// No node occurs at two positions across the routes.
pub open spec fn visits_unique(routes: Seq<Seq<usize>>) -> bool {
    forall|r1: int, p1: int, r2: int, p2: int|
        0 <= r1 < routes.len() && 0 <= p1 < routes[r1].len() && 0 <= r2 < routes.len() && 0 <= p2
            < routes[r2].len() && !(r1 == r2 && p1 == p2) ==> #[trigger] routes[r1][p1]
            != #[trigger] routes[r2][p2]
}

/// Every non-depot point of the instance occurs in some route.
pub open spec fn all_visited(n: int, routes: Seq<Seq<usize>>) -> bool {
    forall|v: int| 1 <= v < n ==> occurs_from(routes, 0, v)
}

proof fn lemma_scan_route_chr(n: int, route: Seq<usize>, rid1: int, p: int, owner: Seq<
    Option<int>,
>)
    requires
        0 <= p,
        owner.len() == n,
    ensures
        scan_route(n, route, rid1, p, owner) is Ok <==> ((forall|q: int|
            p <= q < route.len() ==> 0 < #[trigger] route[q] < n) && (forall|q: int|
            p <= q < route.len() ==> owner[#[trigger] route[q] as int] is None) && (forall|
            q1: int,
            q2: int,
        |
            p <= q1 < q2 < route.len() ==> #[trigger] route[q1] != #[trigger] route[q2])),
        scan_route(n, route, rid1, p, owner) matches Ok(o2) ==> o2.len() == n && (forall|v: int|
            0 <= v < n ==> (#[trigger] o2[v] is Some <==> owner[v] is Some || occurs_in_route(
                route,
                p,
                v,
            ))),
    decreases route.len() - p,
{
    if p >= route.len() {
    } else {
        let node = route[p] as int;
        if node == 0 || node >= n || owner[node] is Some {
            if 0 < node < n && owner[node] is Some {
                assert(!(owner[route[p] as int] is None));
            }
        } else {
            let owner2 = owner.update(node, Some(rid1));
            lemma_scan_route_chr(n, route, rid1, p + 1, owner2);
            let ok = scan_route(n, route, rid1, p, owner) is Ok;
            if ok {
                assert(scan_route(n, route, rid1, p + 1, owner2) is Ok);
                assert forall|q: int| p <= q < route.len() implies owner[#[trigger] route[q] as int] is None by {
                    if q > p {
                        assert(owner2[route[q] as int] is None);
                    }
                }
                assert forall|q1: int, q2: int| p <= q1 < q2 < route.len() implies #[trigger] route[q1]
                    != #[trigger] route[q2] by {
                    if q1 == p {
                        assert(owner2[route[q2] as int] is None);
                        assert(owner2[node] is Some);
                    }
                }
                let o2 = scan_route(n, route, rid1, p, owner)->Ok_0;
                assert forall|v: int| 0 <= v < n implies (#[trigger] o2[v] is Some <==> owner[v]
                    is Some || occurs_in_route(route, p, v)) by {
                    assert(o2[v] is Some <==> owner2[v] is Some || occurs_in_route(
                        route,
                        p + 1,
                        v,
                    ));
                    if v == node {
                        assert(route[p] == v);
                        assert(occurs_in_route(route, p, v));
                    } else {
                        assert(owner2[v] == owner[v]);
                        if occurs_in_route(route, p, v) {
                            let q = choose|q: int|
                                p <= q < route.len() && #[trigger] route[q] == v;
                            assert(q != p);
                            assert(occurs_in_route(route, p + 1, v));
                        }
                        if occurs_in_route(route, p + 1, v) {
                            assert(occurs_in_route(route, p, v));
                        }
                    }
                }
            } else {
                assert(!(scan_route(n, route, rid1, p + 1, owner2) is Ok));
                // some later check fails under the updated owner; show that the
                // right-hand side fails under the owner before the update too
                if (forall|q: int| p <= q < route.len() ==> 0 < #[trigger] route[q] < n) && (
                forall|q: int|
                    p <= q < route.len() ==> owner[#[trigger] route[q] as int] is None) && (
                forall|q1: int, q2: int|
                    p <= q1 < q2 < route.len() ==> #[trigger] route[q1] != #[trigger] route[q2]) {
                    assert forall|q: int| p + 1 <= q < route.len() implies owner2[
                        #[trigger] route[q] as int] is None by {
                        assert(route[q] != route[p]);
                        assert(owner[route[q] as int] is None);
                    }
                    assert(scan_route(n, route, rid1, p + 1, owner2) is Ok);
                }
            }
        }
    }
}

proof fn lemma_scan_routes_chr(n: int, routes: Seq<Seq<usize>>, r: int, owner: Seq<Option<int>>)
    requires
        0 <= r,
        owner.len() == n,
    ensures
        scan_routes(n, routes, r, owner) is Ok <==> ((forall|q: int, pq: int|
            r <= q < routes.len() && 0 <= pq < routes[q].len() ==> 0 < #[trigger] routes[q][pq]
                < n) && (forall|q: int, pq: int|
            r <= q < routes.len() && 0 <= pq < routes[q].len() ==> owner[#[trigger] routes[q][pq] as int] is None) && (forall|q1: int, p1: int, q2: int, p2: int|
            r <= q1 < routes.len() && 0 <= p1 < routes[q1].len() && r <= q2 < routes.len() && 0
                <= p2 < routes[q2].len() && (q1 < q2 || (q1 == q2 && p1 < p2))
                ==> #[trigger] routes[q1][p1] != #[trigger] routes[q2][p2])),
        scan_routes(n, routes, r, owner) matches Ok(o2) ==> o2.len() == n && (forall|v: int|
            0 <= v < n ==> (#[trigger] o2[v] is Some <==> owner[v] is Some || occurs_from(
                routes,
                r,
                v,
            ))),
    decreases routes.len() - r,
{
    if r >= routes.len() {
    } else {
        lemma_scan_route_chr(n, routes[r], r + 1, 0, owner);
        match scan_route(n, routes[r], r + 1, 0, owner) {
            Err(_) => {
                // the failing route refutes the right-hand side
                assert(!((forall|q: int|
                    0 <= q < routes[r].len() ==> 0 < #[trigger] routes[r][q] < n) && (forall|
                    q: int,
                |
                    0 <= q < routes[r].len() ==> owner[#[trigger] routes[r][q] as int] is None)
                    && (forall|q1: int, q2: int|
                    0 <= q1 < q2 < routes[r].len() ==> #[trigger] routes[r][q1]
                        != #[trigger] routes[r][q2])));
            },
            Ok(o1) => {
                lemma_scan_routes_chr(n, routes, r + 1, o1);
                let ok = scan_routes(n, routes, r, owner) is Ok;
                if ok {
                    let o2 = scan_routes(n, routes, r, owner)->Ok_0;
                    assert forall|q: int, pq: int|
                        r <= q < routes.len() && 0 <= pq < routes[q].len() implies owner[
                        #[trigger] routes[q][pq] as int] is None by {
                        if q > r {
                            assert(o1[routes[q][pq] as int] is None);
                        }
                    }
                    assert forall|q1: int, p1: int, q2: int, p2: int|
                        r <= q1 < routes.len() && 0 <= p1 < routes[q1].len() && r <= q2
                            < routes.len() && 0 <= p2 < routes[q2].len() && (q1 < q2 || (q1 == q2
                            && p1 < p2)) implies #[trigger] routes[q1][p1]
                        != #[trigger] routes[q2][p2] by {
                        if q1 == r && q2 > r {
                            assert(o1[routes[q2][p2] as int] is None);
                            assert(occurs_in_route(routes[r], 0, routes[r][p1] as int));
                            assert(o1[routes[r][p1] as int] is Some);
                        }
                    }
                    assert forall|v: int| 0 <= v < n implies (#[trigger] o2[v] is Some <==> owner[v]
                        is Some || occurs_from(routes, r, v)) by {
                        assert(o2[v] is Some <==> o1[v] is Some || occurs_from(routes, r + 1, v));
                        assert(o1[v] is Some <==> owner[v] is Some || occurs_in_route(
                            routes[r],
                            0,
                            v,
                        ));
                        if occurs_in_route(routes[r], 0, v) {
                            let q = choose|q: int|
                                0 <= q < routes[r].len() && #[trigger] routes[r][q] == v;
                            assert(routes[r][q] == v);
                            assert(occurs_from(routes, r, v));
                        }
                        if occurs_from(routes, r + 1, v) {
                            assert(occurs_from(routes, r, v));
                        }
                        if occurs_from(routes, r, v) && !occurs_from(routes, r + 1, v) {
                            let (q, pq) = choose|q: int, pq: int|
                                r <= q < routes.len() && 0 <= pq < routes[q].len()
                                    && #[trigger] routes[q][pq] == v;
                            assert(q == r);
                            assert(occurs_in_route(routes[r], 0, v));
                        }
                    }
                } else {
                    assert(!(scan_routes(n, routes, r + 1, o1) is Ok));
                    if (forall|q: int, pq: int|
                        r <= q < routes.len() && 0 <= pq < routes[q].len() ==> 0
                            < #[trigger] routes[q][pq] < n) && (forall|q: int, pq: int|
                        r <= q < routes.len() && 0 <= pq < routes[q].len() ==> owner[#[trigger] routes[q][pq] as int] is None) && (forall|q1: int, p1: int, q2: int, p2: int|
                        r <= q1 < routes.len() && 0 <= p1 < routes[q1].len() && r <= q2
                            < routes.len() && 0 <= p2 < routes[q2].len() && (q1 < q2 || (q1 == q2
                            && p1 < p2)) ==> #[trigger] routes[q1][p1]
                            != #[trigger] routes[q2][p2]) {
                        assert forall|q: int, pq: int|
                            r + 1 <= q < routes.len() && 0 <= pq < routes[q].len() implies o1[
                            #[trigger] routes[q][pq] as int] is None by {
                            let v = routes[q][pq] as int;
                            assert(owner[v] is None);
                            if occurs_in_route(routes[r], 0, v) {
                                let qq = choose|qq: int|
                                    0 <= qq < routes[r].len() && #[trigger] routes[r][qq] == v;
                                assert(routes[r][qq] == routes[q][pq]);
                                assert(false);
                            }
                        }
                        assert(scan_routes(n, routes, r + 1, o1) is Ok);
                    }
                }
            },
        }
    }
}

/// No unowned node at or after `i` means every node from `i` on is owned.
proof fn lemma_first_unvisited_none(owner: Seq<Option<int>>, i: int)
    requires
        0 <= i,
    ensures
        first_unvisited(owner, i) is None <==> (forall|j: int|
            i <= j < owner.len() ==> #[trigger] owner[j] is Some),
    decreases owner.len() - i,
{
    if i < owner.len() {
        lemma_first_unvisited_none(owner, i + 1);
    }
}

/// The basic sanity check passes exactly when the routes form a partition
/// of the instance's clients: every listed node is a known non-depot point,
/// no node is listed twice, and every non-depot point is listed.
pub proof fn lemma_basic_sanity_characterization(n: int, routes: Seq<Seq<usize>>)
    requires
        n >= 1,
    ensures
        spec_basic_sanity(n, routes) is None <==> (routes_in_range(routes, n) && visits_unique(
            routes,
        ) && all_visited(n, routes)),
{
    let init = init_owner(n);
    lemma_scan_routes_chr(n, routes, 0, init);
    if spec_basic_sanity(n, routes) is None {
        let o2 = scan_routes(n, routes, 0, init)->Ok_0;
        lemma_first_unvisited_none(o2, 0);
        assert forall|v: int| 1 <= v < n implies occurs_from(routes, 0, v) by {
            assert(o2[v] is Some);
            assert(init[v] is None);
        }
        assert forall|r1: int, p1: int, r2: int, p2: int|
            0 <= r1 < routes.len() && 0 <= p1 < routes[r1].len() && 0 <= r2 < routes.len() && 0
                <= p2 < routes[r2].len() && !(r1 == r2 && p1 == p2) implies #[trigger] routes[r1][p1]
            != #[trigger] routes[r2][p2] by {
            if r1 < r2 || (r1 == r2 && p1 < p2) {
            } else {
                assert(r2 < r1 || (r2 == r1 && p2 < p1));
            }
        }
    } else {
        if routes_in_range(routes, n) && visits_unique(routes) && all_visited(n, routes) {
            assert forall|q: int, pq: int|
                0 <= q < routes.len() && 0 <= pq < routes[q].len() implies init[
                #[trigger] routes[q][pq] as int] is None by {
                assert(0 < routes[q][pq] < n);
            }
            assert(scan_routes(n, routes, 0, init) is Ok);
            let o2 = scan_routes(n, routes, 0, init)->Ok_0;
            lemma_first_unvisited_none(o2, 0);
            assert forall|j: int| 0 <= j < o2.len() implies #[trigger] o2[j] is Some by {
                if j == 0 {
                    assert(init[0] is Some);
                } else {
                    assert(occurs_from(routes, 0, j));
                }
            }
            assert(first_unvisited(o2, 0) is None);
            assert(false);
        }
    }
}

// ---------------------------------------------------------------------------
// parsing is a function of the text

/// Parsing the same instance text twice yields structurally equal models.
pub proof fn lemma_instance_parse_deterministic(s: Seq<char>, a: Instance, b: Instance)
    requires
        ({
            ||| spec_read_instance(s) matches ParseOutcome::Accepted(st) && inst_matches(a, st)
                && inst_matches(b, st)
            ||| spec_read_instance(s) matches ParseOutcome::Undecided(st) && inst_matches(a, st)
                && inst_matches(b, st)
        }),
    ensures
        a.name@ == b.name@,
        a.vehicles == b.vehicles,
        a.max_capacity == b.max_capacity,
        a.pts@ == b.pts@,
        a.is_pdp == b.is_pdp,
{
}

/// Parsing the same solution text twice yields structurally equal models.
pub proof fn lemma_solution_parse_deterministic(s: Seq<char>, a: Solution, b: Solution)
    requires
        spec_parse_solution(s) == Ok::<_, Seq<char>>((a.instance_name@, a.routes.deep_view())),
        spec_parse_solution(s) == Ok::<_, Seq<char>>((b.instance_name@, b.routes.deep_view())),
    ensures
        a.instance_name@ == b.instance_name@,
        a.routes.deep_view() == b.routes.deep_view(),
{
}

// ---------------------------------------------------------------------------
// whitespace never changes what was said

/// The ids of a route line are a function of its whitespace-separated words
/// alone: texts with the same words carry the same ids.
pub proof fn lemma_ids_from_words(b1: Seq<char>, b2: Seq<char>)
    requires
        tokens_of(b1) == tokens_of(b2),
    ensures
        ids_of(tokens_of(b1)) == ids_of(tokens_of(b2)),
{
}

/// The verification verdict depends only on the parsed route lists, never
/// on the text they were written in.
pub proof fn lemma_verify_from_routes(inst: Instance, s1: Solution, s2: Solution)
    requires
        s1.routes.deep_view() == s2.routes.deep_view(),
    ensures
        spec_verify(inst, s1) == spec_verify(inst, s2),
{
}


/// Suffix form of whitespace splitting, for reasoning about concatenation.
pub open spec fn toks(s: Seq<char>, acc: Seq<Seq<char>>, cur: Seq<char>) -> Seq<Seq<char>>
    decreases s.len(),
{
    if s.len() == 0 {
        if cur.len() > 0 {
            acc.push(cur)
        } else {
            acc
        }
    } else if ws_char(s[0]) {
        if cur.len() > 0 {
            toks(s.drop_first(), acc.push(cur), seq![])
        } else {
            toks(s.drop_first(), acc, seq![])
        }
    } else {
        toks(s.drop_first(), acc, cur.push(s[0]))
    }
}

/// The two forms of the splitter agree.
proof fn lemma_tok_fold_toks(s: Seq<char>, i: int, acc: Seq<Seq<char>>, cur: Seq<char>)
    requires
        0 <= i <= s.len(),
    ensures
        crate::text::tok_fold(s, i, acc, cur) == toks(s.skip(i), acc, cur),
    decreases s.len() - i,
{
    if i == s.len() {
        assert(s.skip(i) =~= Seq::<char>::empty());
    } else {
        assert(s.skip(i)[0] == s[i]);
        assert(s.skip(i).drop_first() =~= s.skip(i + 1));
        if ws_char(s[i]) {
            if cur.len() > 0 {
                lemma_tok_fold_toks(s, i + 1, acc.push(cur), seq![]);
            } else {
                lemma_tok_fold_toks(s, i + 1, acc, seq![]);
            }
        } else {
            lemma_tok_fold_toks(s, i + 1, acc, cur.push(s[i]));
        }
    }
}

/// Inserting one whitespace character between `a` and `b` does not change
/// the words, provided the insertion point touches an edge or existing
/// whitespace — the generalized, any-state form.
proof fn lemma_toks_ws_insert(a: Seq<char>, c: char, b: Seq<char>, acc: Seq<Seq<char>>, cur: Seq<
    char,
>)
    requires
        ws_char(c),
        b.len() == 0 || ws_char(b[0]) || (a.len() == 0 && cur.len() == 0) || (a.len() > 0
            && ws_char(a.last())),
    ensures
        toks(a + seq![c] + b, acc, cur) == toks(a + b, acc, cur),
    decreases a.len(),
{
    if a.len() == 0 {
        assert(a + seq![c] + b =~= seq![c] + b);
        assert(a + b =~= b);
        let u = seq![c] + b;
        assert(u[0] == c);
        assert(u.drop_first() =~= b);
        if cur.len() == 0 {
            assert(toks(u, acc, cur) == toks(b, acc, seq![]));
            assert(cur =~= Seq::<char>::empty());
        } else {
            assert(toks(u, acc, cur) == toks(b, acc.push(cur), seq![]));
            if b.len() == 0 {
                assert(toks(b, acc.push(cur), seq![]) == acc.push(cur));
                assert(toks(b, acc, cur) == acc.push(cur));
            } else {
                assert(ws_char(b[0]));
                assert(toks(b, acc, cur) == toks(b.drop_first(), acc.push(cur), seq![]));
                assert(toks(b, acc.push(cur), seq![]) == toks(b.drop_first(), acc.push(cur), seq![]));
            }
        }
    } else {
        let u = a + seq![c] + b;
        let v = a + b;
        assert(u[0] == a[0]);
        assert(v[0] == a[0]);
        assert(u.drop_first() =~= a.drop_first() + seq![c] + b);
        assert(v.drop_first() =~= a.drop_first() + b);
        if a.len() > 1 {
            assert(a.drop_first().last() == a.last());
        }
        if ws_char(a[0]) {
            if cur.len() > 0 {
                lemma_toks_ws_insert(a.drop_first(), c, b, acc.push(cur), seq![]);
            } else {
                lemma_toks_ws_insert(a.drop_first(), c, b, acc, seq![]);
            }
        } else {
            assert(a.len() > 1 || ws_char(a.last()) == ws_char(a[0]));
            lemma_toks_ws_insert(a.drop_first(), c, b, acc, cur.push(a[0]));
        }
    }
}

/// Retranslation never changes what a line says: inserting one extra
/// whitespace character at an edge of a line, or beside whitespace already
/// there, leaves its whitespace-separated words unchanged.
pub proof fn lemma_tokens_ws_insensitive(a: Seq<char>, c: char, b: Seq<char>)
    requires
        ws_char(c),
        a.len() == 0 || ws_char(a.last()) || b.len() == 0 || ws_char(b[0]),
    ensures
        tokens_of(a + seq![c] + b) == tokens_of(a + b),
{
    let u = a + seq![c] + b;
    let v = a + b;
    lemma_tok_fold_toks(u, 0, seq![], seq![]);
    lemma_tok_fold_toks(v, 0, seq![], seq![]);
    assert(u.skip(0) =~= u);
    assert(v.skip(0) =~= v);
    lemma_toks_ws_insert(a, c, b, seq![], seq![]);
}


/// Route lines are read the same wherever the texts agree from `k` on.
proof fn lemma_routes_fold_agree(
    nb1: Seq<Seq<char>>,
    nb2: Seq<Seq<char>>,
    k: int,
    acc: Seq<Seq<usize>>,
)
    requires
        nb1.len() == nb2.len(),
        forall|j: int| k <= j < nb1.len() ==> nb1[j] == nb2[j],
    ensures
        crate::solution::routes_fold(nb1, k, acc) == crate::solution::routes_fold(nb2, k, acc),
    decreases nb1.len() - k,
{
    if 0 <= k < nb1.len() {
        match crate::solution::spec_route_ids(nb1[k]) {
            None => {},
            Some(ids) => {
                lemma_routes_fold_agree(nb1, nb2, k + 1, acc.push(ids));
            },
        }
    }
}

/// The date line of a solution text is display-only: two texts that differ
/// in nothing but that line parse to the same model, whenever both parse.
pub proof fn lemma_date_line_ignored(s1: Seq<char>, s2: Seq<char>)
    requires
        nonblank_lines(s1).len() == nonblank_lines(s2).len(),
        forall|k: int|
            0 <= k < nonblank_lines(s1).len() && k != 2 ==> #[trigger] nonblank_lines(s1)[k]
                == nonblank_lines(s2)[k],
        spec_parse_solution(s1) is Ok,
        spec_parse_solution(s2) is Ok,
    ensures
        spec_parse_solution(s1) == spec_parse_solution(s2),
{
    let nb1 = nonblank_lines(s1);
    let nb2 = nonblank_lines(s2);
    lemma_routes_fold_agree(nb1, nb2, 5, seq![]);
}


// ---------------------------------------------------------------------------
// distances

/// The squared distance does not depend on the order of its endpoints.
pub proof fn lemma_dist_sq_symmetric(a: Point, b: Point)
    ensures
        crate::point::dist_sq(a, b) == crate::point::dist_sq(b, a),
{
    let dx = a.x - b.x;
    let dy = a.y - b.y;
    assert(dx * dx == (-dx) * (-dx) && dy * dy == (-dy) * (-dy)) by (nonlinear_arith);
}

/// The distance model is symmetric: `dist` pins both `a.dist(&b)` and
/// `b.dist(&a)` to the root of the one squared distance. (That a point's
/// distance to itself is zero follows at every call from `dist`'s
/// perfect-square clause, since the squared self-distance is zero.)
pub proof fn lemma_dist_symmetric(a: Point, b: Point)
    ensures
        crate::numeric::sqrt_scaled(crate::point::dist_sq(a, b)) == crate::numeric::sqrt_scaled(
            crate::point::dist_sq(b, a),
        ),
{
    lemma_dist_sq_symmetric(a, b);
}


/// A successfully parsed instance always passes its own sanity check: the
/// parser's acceptance is the very verdict `check_sanity` decides, carried
/// over to the instance the parse state describes.
pub proof fn lemma_parsed_instances_are_sane(inst: Instance, st: crate::instance::ParseState)
    requires
        inst_matches(inst, st),
        crate::instance::spec_sanity_ok(
            st.pts,
            st.vc->Some_0.1,
            crate::instance::state_is_pdp(st),
        ),
    ensures
        crate::instance::spec_sanity_ok(inst.pts@, inst.max_capacity as int, inst.is_pdp),
{
}


/// A single-stop route is an out-and-back: its length is twice the
/// depot-to-stop distance.
pub proof fn lemma_out_and_back(pts: Seq<Point>, route: Seq<usize>)
    requires
        route.len() == 1,
    ensures
        crate::verify::route_dist_sc(pts, route) == 2 * crate::numeric::sqrt_scaled(
            crate::point::dist_sq(pts[0], pts[route[0] as int]),
        ),
{
    lemma_dist_sq_symmetric(pts[route[0] as int], pts[0]);
}


// ---------------------------------------------------------------------------
// rendered ids read back unchanged

/// Appending a digit to a digit string multiplies its value by ten.
proof fn lemma_dig_fold_snoc(t: Seq<char>, c: char, i: int, acc: int)
    requires
        0 <= i <= t.len(),
    ensures
        crate::text::dig_fold(t.push(c), i, acc) == crate::text::dig_fold(t, i, acc) * 10
            + crate::text::digit_value(c),
    decreases t.len() - i,
{
    assert(t.push(c).len() == t.len() + 1);
    if i < t.len() {
        assert(t.push(c)[i] == t[i]);
        lemma_dig_fold_snoc(t, c, i + 1, acc * 10 + crate::text::digit_value(t[i]));
    } else {
        assert(t.push(c)[i] == c);
        assert(crate::text::dig_fold(t.push(c), i + 1, acc * 10 + crate::text::digit_value(c))
            == acc * 10 + crate::text::digit_value(c));
        assert(crate::text::dig_fold(t, i, acc) == acc);
    }
}

/// The decimal rendering of a value holds digits alone, starts with no
/// sign, and reads back as the value.
proof fn lemma_dec_digits_read(n: nat)
    ensures
        crate::text::dec_digits(n).len() >= 1,
        crate::text::all_digits_from(crate::text::dec_digits(n), 0),
        !(crate::text::dec_digits(n)[0] == '-') && !(crate::text::dec_digits(n)[0] == '+'),
        crate::text::dig_fold(crate::text::dec_digits(n), 0, 0) == n,
    decreases n,
{
    if n < 10 {
        let d = crate::text::digit_char(n);
        assert(crate::text::dec_digits(n) =~= seq![d]);
        assert(crate::text::digit_value(d) == n);
        assert(crate::text::dig_fold(seq![d], 1, crate::text::digit_value(d))
            == crate::text::digit_value(d));
        assert(crate::text::dig_fold(seq![d], 0, 0) == crate::text::dig_fold(
            seq![d],
            1,
            0 * 10 + crate::text::digit_value(d),
        ));
    } else {
        lemma_dec_digits_read(n / 10);
        let head = crate::text::dec_digits((n / 10) as nat);
        let c = crate::text::digit_char(n % 10);
        assert(crate::text::dec_digits(n) =~= head.push(c));
        lemma_dig_fold_snoc(head, c, 0, 0);
        assert(forall|j: int|
            0 <= j < head.len() ==> crate::text::dec_digits(n)[j] == #[trigger] head[j]);
    }
}

/// A rendered id reads back as itself.
pub proof fn lemma_dec_round_trip(n: usize)
    ensures
        crate::text::usize_token(crate::text::dec_digits(n as nat)) == Some(n as int),
{
    lemma_dec_digits_read(n as nat);
    let t = crate::text::dec_digits(n as nat);
    assert(crate::text::int_token_start(t) == 0);
    assert(crate::text::int_token_shape(t));
    assert(crate::text::int_token_value(t) == n as int);
}


/// No digit is whitespace.
proof fn lemma_digit_not_ws(c: char)
    requires
        crate::text::digit(c),
    ensures
        !ws_char(c),
{
}

/// The splitter takes a whole word of non-whitespace into the current word.
proof fn lemma_toks_word(w: Seq<char>, rest: Seq<char>, acc: Seq<Seq<char>>, cur: Seq<char>)
    requires
        forall|j: int| 0 <= j < w.len() ==> !ws_char(#[trigger] w[j]),
    ensures
        toks(w + rest, acc, cur) == toks(rest, acc, cur + w),
    decreases w.len(),
{
    if w.len() == 0 {
        assert(w + rest =~= rest);
        assert(cur + w =~= cur);
    } else {
        let u = w + rest;
        assert(u[0] == w[0]);
        assert(u.drop_first() =~= w.drop_first() + rest);
        lemma_toks_word(w.drop_first(), rest, acc, cur.push(w[0]));
        assert(cur.push(w[0]) + w.drop_first() =~= cur + w);
    }
}

/// The words of the rendered tail of an id list, from `k` on.
pub open spec fn ids_words(route: Seq<usize>, k: int) -> Seq<Seq<char>> {
    route.skip(k).map_values(|v: usize| crate::text::dec_digits(v as nat))
}

/// The rendered tail of an id list: a space and a rendered id per entry.
pub open spec fn ids_tail_text(route: Seq<usize>, k: int) -> Seq<char>
    decreases route.len() - k,
{
    if k < 0 || k >= route.len() {
        seq![]
    } else {
        " "@ + crate::text::dec_digits(route[k] as nat) + ids_tail_text(route, k + 1)
    }
}

/// The accumulator form of the joined ids renders the tail behind its
/// accumulator.
proof fn lemma_join_fold_tail(route: Seq<usize>, k: int, acc: Seq<char>)
    requires
        0 <= k,
    ensures
        crate::solution::ids_join_fold(route, k, acc) == acc + ids_tail_text(route, k),
    decreases route.len() - k,
{
    if k >= route.len() {
        assert(acc + ids_tail_text(route, k) =~= acc);
    } else {
        let step2 = acc + " "@ + crate::text::dec_digits(route[k] as nat);
        lemma_join_fold_tail(route, k + 1, step2);
        assert(crate::solution::ids_join_fold(route, k, acc) == step2 + ids_tail_text(
            route,
            k + 1,
        ));
        assert(step2 + ids_tail_text(route, k + 1) =~= acc + ids_tail_text(route, k));
    }
}

/// Splitting the rendered tail appends the current word and then one word
/// per rendered id.
proof fn lemma_toks_tail(route: Seq<usize>, k: int, acc: Seq<Seq<char>>, cur: Seq<char>)
    requires
        0 <= k <= route.len(),
        cur.len() >= 1,
    ensures
        toks(ids_tail_text(route, k), acc, cur) == acc.push(cur) + ids_words(route, k),
    decreases route.len() - k,
{
    if k >= route.len() {
        assert(ids_tail_text(route, k) =~= Seq::<char>::empty());
        assert(ids_words(route, k) =~= Seq::<Seq<char>>::empty());
        assert(acc.push(cur) + ids_words(route, k) =~= acc.push(cur));
    } else {
        let w = crate::text::dec_digits(route[k] as nat);
        lemma_dec_digits_read(route[k] as nat);
        assert(forall|j: int| 0 <= j < w.len() ==> !ws_char(#[trigger] w[j])) by {
            assert(forall|j: int|
                0 <= j < w.len() ==> crate::text::digit(#[trigger] w[j]));
        }
        let tail = ids_tail_text(route, k + 1);
        reveal_strlit(" ");
        assert(" "@ =~= seq![' ']);
        assert(ids_tail_text(route, k) =~= seq![' '] + (w + tail));
        let u = seq![' '] + (w + tail);
        assert(u[0] == ' ');
        assert(u.drop_first() =~= w + tail);
        assert(toks(u, acc, cur) == toks(w + tail, acc.push(cur), seq![]));
        lemma_toks_word(w, tail, acc.push(cur), seq![]);
        assert(Seq::<char>::empty() + w =~= w);
        assert(w.len() >= 1);
        lemma_toks_tail(route, k + 1, acc.push(cur), w);
        assert(acc.push(cur).push(w) + ids_words(route, k + 1) =~= acc.push(cur) + ids_words(
            route,
            k,
        )) by {
            assert(ids_words(route, k) =~= seq![w] + ids_words(route, k + 1));
        }
    }
}

/// Rendering an id list and splitting it back yields one word per id, each
/// reading back as its id: re-reading a rendered route is the identity.
pub proof fn lemma_ids_round_trip(route: Seq<usize>)
    ensures
        ids_of(tokens_of(crate::solution::ids_text(route))) == route,
{
    if route.len() == 0 {
        assert(tokens_of(crate::solution::ids_text(route)) =~= Seq::<Seq<char>>::empty()) by {
            lemma_tok_fold_toks(Seq::<char>::empty(), 0, seq![], seq![]);
            assert(Seq::<char>::empty().skip(0) =~= Seq::<char>::empty());
        }
        assert(ids_of(tokens_of(crate::solution::ids_text(route))) =~= route);
    } else {
        let w0 = crate::text::dec_digits(route[0] as nat);
        let text = crate::solution::ids_text(route);
        lemma_join_fold_tail(route, 1, w0);
        assert(text == w0 + ids_tail_text(route, 1));
        lemma_tok_fold_toks(text, 0, seq![], seq![]);
        assert(text.skip(0) =~= text);
        lemma_dec_digits_read(route[0] as nat);
        assert(forall|j: int| 0 <= j < w0.len() ==> !ws_char(#[trigger] w0[j])) by {
            assert(forall|j: int|
                0 <= j < w0.len() ==> crate::text::digit(#[trigger] w0[j]));
        }
        lemma_toks_word(w0, ids_tail_text(route, 1), seq![], seq![]);
        assert(Seq::<char>::empty() + w0 =~= w0);
        lemma_toks_tail(route, 1, seq![], w0);
        let words = tokens_of(text);
        assert(words =~= seq![w0] + ids_words(route, 1));
        assert(ids_of(words).len() == route.len());
        assert forall|q: int| 0 <= q < route.len() implies #[trigger] ids_of(words)[q]
            == route[q] by {
            assert(words[q] == crate::text::dec_digits(route[q] as nat));
            lemma_dec_round_trip(route[q]);
        }
        assert(ids_of(words) =~= route);
    }
}

} // verus!

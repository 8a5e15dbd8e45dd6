//! A routing instance: its data model and the load-time sanity checks that
//! every parsed instance must pass before verification may run.

use crate::numeric::{
    add_fl, add_i32_fl, fits_text, fl, fl_to_text, float_text_of, float_val, gt_i32_fl,
    is_square, lemma_sqrt_le, max_fl, scale_unit, scaled_val, sqrt_of, sqrt_scaled,
};
use crate::point::lemma_dist_sq_bound;
use crate::point::{dist_sq, point_text, spec_parse_point, parse_point_chars, Point};
use crate::solution::{lines_of, name_after, name_after_exec, skip_ws, skip_ws_exec, split_lines};
use crate::text::{
    dec_digits, dec_int, i32_token, int_token_shape, is_int_token_shaped, pad_left,
    parse_i32_token, push_chars, push_i64, push_padded_i64, push_u64, str_chars, tokenize,
    tokens_of,
};
use vstd::prelude::*;

verus! {

/// A parsed instance: the depot and clients, the fleet bound and capacity,
/// and whether points carry pickup/delivery pairs.
#[derive(Clone, Debug, PartialEq)]
pub struct Instance {
    pub name: String,
    pub vehicles: i32,
    pub max_capacity: i32,
    pub pts: Vec<Point>,
    pub is_pdp: bool,
}

/// Outcome of the exact-integer reading of a check that rests on square
/// roots: where every root involved is an exact integer the verdict and its
/// full diagnostic text are pinned; elsewhere the companion full-precision
/// specs pin the verdict and the diagnostic's shape instead.
pub enum Sanity {
    Sane,
    Violation(Seq<char>),
    Undetermined,
}

// ---------------------------------------------------------------------------
// point ids

/// The positions whose point carries the wrong id, from `i` on.
pub open spec fn bad_ids_from(pts: Seq<Point>, i: int) -> Seq<int>
    decreases pts.len() - i,
{
    if i < 0 || i >= pts.len() {
        seq![]
    } else if pts[i].id != i {
        seq![i] + bad_ids_from(pts, i + 1)
    } else {
        bad_ids_from(pts, i + 1)
    }
}

/// Accumulator form of a `, `-separated list of indices.
pub open spec fn join_fold(s: Seq<int>, i: int, acc: Seq<char>) -> Seq<char>
    decreases s.len() - i,
{
    if i < 0 || i >= s.len() {
        acc
    } else {
        join_fold(s, i + 1, acc + ", "@ + dec_int(s[i]))
    }
}

/// A list of indices as `Debug` renders a vector: `[2, 5]`.
pub open spec fn idx_list_text(s: Seq<int>) -> Seq<char> {
    if s.len() == 0 {
        "[]"@
    } else {
        "["@ + join_fold(s, 1, dec_int(s[0])) + "]"@
    }
}

/// Diagnostic for points whose id does not match their position.
pub open spec fn msg_bad_ids(bad: Seq<int>) -> Seq<char> {
    "points "@ + idx_list_text(bad) + " do not have correct ids"@
}

// ---------------------------------------------------------------------------
// demands and pickup/delivery pairs

pub open spec fn msg_demand_over(id: int) -> Seq<char> {
    "point "@ + dec_int(id)
        + " can not be visited because its demands are greater than vehicle capacity"@
}

pub open spec fn msg_negative_demand(id: int) -> Seq<char> {
    "point "@ + dec_int(id) + " has negative demands and this is not pdp"@
}

pub open spec fn msg_pair_outside_pdp(id: int) -> Seq<char> {
    "point "@ + dec_int(id) + " has pickup and delivery but the instance is not pdp"@
}

pub open spec fn msg_both_nonzero(id: int, p: int, d: int) -> Seq<char> {
    "point "@ + dec_int(id) + " has nonzero both pickup ("@ + dec_int(p) + ") and delivery ("@
        + dec_int(d) + ")"@
}

pub open spec fn msg_pair_illegal(id: int, o: int) -> Seq<char> {
    "points "@ + dec_int(id) + " pdp pair "@ + dec_int(o) + " does not refer to any legal point"@
}

pub open spec fn msg_pair_not_pdp(id: int, o: int) -> Seq<char> {
    "point "@ + dec_int(id) + " pdp pair "@ + dec_int(o) + " is not pdp"@
}

pub open spec fn msg_pair_mismatch(id: int, o: int) -> Seq<char> {
    "point "@ + dec_int(id) + " and "@ + dec_int(o)
        + " are a pdp pair but their pickup and deliveries do not match"@
}

pub open spec fn msg_pair_demand(id: int, demand: int, other: Point, od: int) -> Seq<char> {
    "point "@ + dec_int(id) + " demands "@ + dec_int(demand)
        + " does not sum to 0 with ther pdp pair "@ + point_text(other) + " demands "@ + dec_int(
        od,
    )
}

pub open spec fn msg_depot_pair() -> Seq<char> {
    "depots pdp pair is not (0, 0)"@
}

pub open spec fn msg_depot_demand(d: int) -> Seq<char> {
    "depots demand is non-zero ("@ + dec_int(d) + ")"@
}

/// The demand/pair complaint against point `i`, if any.
pub open spec fn demand_issue(pts: Seq<Point>, cap: int, is_pdp: bool, i: int) -> Option<
    Seq<char>,
> {
    let pt = pts[i];
    if pt.demand > cap {
        Some(msg_demand_over(pt.id as int))
    } else if pt.demand < 0 && !is_pdp {
        Some(msg_negative_demand(pt.id as int))
    } else if !is_pdp && pt.pickup_delivery is Some {
        Some(msg_pair_outside_pdp(pt.id as int))
    } else {
        match pt.pickup_delivery {
            None => None,
            Some((p, d)) => {
                if p != 0 && d != 0 {
                    Some(msg_both_nonzero(pt.id as int, p as int, d as int))
                } else {
                    let o = if p != 0 {
                        p as int
                    } else {
                        d as int
                    };
                    if o < 0 || o >= pts.len() {
                        Some(msg_pair_illegal(pt.id as int, o))
                    } else {
                        match pts[o].pickup_delivery {
                            None => Some(msg_pair_not_pdp(pt.id as int, o)),
                            Some((op, od)) => {
                                if !(op == 0 && od == pt.id) && !(op == pt.id && od == 0) {
                                    Some(msg_pair_mismatch(pt.id as int, o))
                                } else if pt.demand + pts[o].demand != 0 {
                                    Some(
                                        msg_pair_demand(
                                            pt.id as int,
                                            pt.demand as int,
                                            pts[o],
                                            pts[o].demand as int,
                                        ),
                                    )
                                } else {
                                    None
                                }
                            },
                        }
                    }
                }
            },
        }
    }
}

/// The first demand/pair complaint from point `i` on.
pub open spec fn demands_first(pts: Seq<Point>, cap: int, is_pdp: bool, i: int) -> Option<
    Seq<char>,
>
    decreases pts.len() - i,
{
    if i < 0 || i >= pts.len() {
        None
    } else if demand_issue(pts, cap, is_pdp, i) is Some {
        demand_issue(pts, cap, is_pdp, i)
    } else {
        demands_first(pts, cap, is_pdp, i + 1)
    }
}

/// What the whole demand check yields, over the instance's parts.
pub open spec fn spec_check_demands(pts: Seq<Point>, cap: int, is_pdp: bool) -> Option<Seq<char>> {
    match demands_first(pts, cap, is_pdp, 0) {
        Some(m) => Some(m),
        None => if is_pdp && !(pts[0].pickup_delivery matches Some((p, d)) && p == 0 && d == 0) {
            Some(msg_depot_pair())
        } else if pts[0].demand != 0 {
            Some(msg_depot_demand(pts[0].demand as int))
        } else {
            None
        },
    }
}

// ---------------------------------------------------------------------------
// static time-window feasibility

pub open spec fn msg_window_backwards(id: int, due: int, start: int) -> Seq<char> {
    "point "@ + dec_int(id) + " can not be visited because the due time ("@ + dec_int(due)
        + ") is before start ("@ + dec_int(start) + ")"@
}

pub open spec fn msg_arrival_late(ea: int, id: int, due: int) -> Seq<char> {
    "earliest possible arrival ("@ + float_text_of(ea) + ") from depot to point "@ + dec_int(id)
        + " is after the points due time "@ + dec_int(due)
}

pub open spec fn msg_return_late(er: int, id: int, depot_due: int) -> Seq<char> {
    "earliest possible return to depot ("@ + float_text_of(er) + ") to point "@ + dec_int(id)
        + " is after the depot due time "@ + dec_int(depot_due)
}

/// The static time-window verdict on point `i`: can a vehicle leave the
/// depot, serve the point in its window, and return in the depot's window?
pub open spec fn point_time_sanity(pts: Seq<Point>, i: int) -> Sanity {
    let pt = pts[i];
    let dep = pts[0];
    if pt.start > pt.due {
        Sanity::Violation(msg_window_backwards(pt.id as int, pt.due as int, pt.start as int))
    } else if !is_square(dist_sq(dep, pt)) {
        Sanity::Undetermined
    } else {
        let ea = dep.start + sqrt_of(dist_sq(dep, pt));
        if ea > pt.due {
            Sanity::Violation(msg_arrival_late(ea, pt.id as int, pt.due as int))
        } else if !is_square(dist_sq(pt, dep)) {
            Sanity::Undetermined
        } else {
            let wait = if pt.start >= ea {
                pt.start as int
            } else {
                ea
            };
            let er = wait + pt.service + sqrt_of(dist_sq(pt, dep));
            if er > dep.due {
                Sanity::Violation(msg_return_late(er, pt.id as int, dep.due as int))
            } else {
                Sanity::Sane
            }
        }
    }
}

/// The first time-window verdict that is not `Sane`, from point `i` on.
pub open spec fn time_sanity_from(pts: Seq<Point>, i: int) -> Sanity
    decreases pts.len() - i,
{
    if i < 0 || i >= pts.len() {
        Sanity::Sane
    } else {
        match point_time_sanity(pts, i) {
            Sanity::Sane => time_sanity_from(pts, i + 1),
            v => v,
        }
    }
}

/// The full-precision static feasibility of point `i`: its window is
/// ordered, a vehicle leaving the depot at its opening reaches the point in
/// time, and after serving it returns before the depot closes. Unlike the
/// exact integer check, this is defined for every input (times in units of
/// one over [`scale_unit`]).
pub open spec fn point_time_ok_sc(pts: Seq<Point>, i: int) -> bool {
    let pt = pts[i];
    let dep = pts[0];
    &&& pt.start <= pt.due
    &&& ({
        let ea = dep.start as int * scale_unit() + sqrt_scaled(dist_sq(dep, pt));
        &&& !(ea > pt.due as int * scale_unit())
        &&& ({
            let wait = if pt.start as int * scale_unit() >= ea {
                pt.start as int * scale_unit()
            } else {
                ea
            };
            let er = wait + pt.service as int * scale_unit() + sqrt_scaled(dist_sq(pt, dep));
            !(er > dep.due as int * scale_unit())
        })
    })
}

/// Every point of the instance is statically feasible at full precision.
pub open spec fn all_times_ok_sc(pts: Seq<Point>) -> bool {
    forall|i: int| 0 <= i < pts.len() ==> point_time_ok_sc(pts, i)
}

/// How a point fails the static time check: its window is backwards, the
/// depot cannot reach it in time, or the vehicle cannot return in time.
pub enum PointIssue {
    WindowBackwards,
    ArriveLate,
    ReturnLate,
}

/// Which complaint, if any, the full-precision static time check raises
/// against point `i`.
pub open spec fn point_time_issue_sc(pts: Seq<Point>, i: int) -> Option<PointIssue> {
    let pt = pts[i];
    let dep = pts[0];
    if pt.start > pt.due {
        Some(PointIssue::WindowBackwards)
    } else {
        let ea = dep.start as int * scale_unit() + sqrt_scaled(dist_sq(dep, pt));
        if ea > pt.due as int * scale_unit() {
            Some(PointIssue::ArriveLate)
        } else {
            let wait = if pt.start as int * scale_unit() >= ea {
                pt.start as int * scale_unit()
            } else {
                ea
            };
            let er = wait + pt.service as int * scale_unit() + sqrt_scaled(dist_sq(pt, dep));
            if er > dep.due as int * scale_unit() {
                Some(PointIssue::ReturnLate)
            } else {
                None
            }
        }
    }
}

/// The first point the static time check complains about, from `i` on.
pub open spec fn first_time_issue_sc(pts: Seq<Point>, i: int) -> Option<(int, PointIssue)>
    decreases pts.len() - i,
{
    if i < 0 || i >= pts.len() {
        None
    } else {
        match point_time_issue_sc(pts, i) {
            Some(issue) => Some((i, issue)),
            None => first_time_issue_sc(pts, i + 1),
        }
    }
}

/// `m` is an earliest-arrival diagnostic citing some rendered time, the
/// point, and its due time.
pub open spec fn is_arrival_late_msg(m: Seq<char>, id: int, due: int) -> bool {
    exists|t: Seq<char>|
        m == "earliest possible arrival ("@ + t + ") from depot to point "@ + dec_int(id)
            + " is after the points due time "@ + dec_int(due)
}

/// `m` is an earliest-return diagnostic citing some rendered time, the
/// point, and the depot's due time.
pub open spec fn is_return_late_msg(m: Seq<char>, id: int, depot_due: int) -> bool {
    exists|t: Seq<char>|
        m == "earliest possible return to depot ("@ + t + ") to point "@ + dec_int(id)
            + " is after the depot due time "@ + dec_int(depot_due)
}

pub open spec fn msg_too_few(n: int) -> Seq<char> {
    "the instance needs at least two points (depot and one client to visit), it has "@ + dec_int(
        n,
    )
}

/// The deterministic part of the sanity check: point count, sequential ids,
/// demands and pairs.
pub open spec fn spec_sanity_int(pts: Seq<Point>, cap: int, is_pdp: bool) -> Option<Seq<char>> {
    if pts.len() < 2 {
        Some(msg_too_few(pts.len() as int))
    } else if bad_ids_from(pts, 0).len() > 0 {
        Some(msg_bad_ids(bad_ids_from(pts, 0)))
    } else {
        spec_check_demands(pts, cap, is_pdp)
    }
}

/// The whole load-time sanity verdict, over an instance's parts.
pub open spec fn spec_sanity_parts(pts: Seq<Point>, cap: int, is_pdp: bool) -> Sanity {
    match spec_sanity_int(pts, cap, is_pdp) {
        Some(m) => Sanity::Violation(m),
        None => time_sanity_from(pts, 0),
    }
}

/// The whole load-time sanity verdict of an instance.
pub open spec fn spec_sanity(inst: Instance) -> Sanity {
    spec_sanity_parts(inst.pts@, inst.max_capacity as int, inst.is_pdp)
}

/// Whether the whole sanity check passes, defined for every input: the
/// deterministic checks find nothing and every point is statically feasible
/// at full precision.
pub open spec fn spec_sanity_ok(pts: Seq<Point>, cap: int, is_pdp: bool) -> bool {
    spec_sanity_int(pts, cap, is_pdp) is None && all_times_ok_sc(pts)
}

/// Every pickup/delivery pair names positions inside the instance, with at
/// most one side nonzero: what the verification engine needs of an instance
/// whose sanity checks have passed.
pub open spec fn pairs_in_range(pts: Seq<Point>) -> bool {
    forall|i: int|
        0 <= i < pts.len() ==> match #[trigger] pts[i].pickup_delivery {
            Some((p, d)) => 0 <= p < pts.len() && 0 <= d < pts.len() && (p == 0 || d == 0),
            None => true,
        }
}

impl Instance {
    /// The structural facts the verification engine relies on; every
    /// instance whose sanity checks pass has them.
    pub open spec fn valid(self) -> bool {
        self.pts@.len() >= 1 && pairs_in_range(self.pts@)
    }

    /// Checks that every point's id equals its position.
    pub fn point_ids_are_sequential(&self) -> (r: Result<(), String>)
        ensures
            match r {
                Ok(()) => bad_ids_from(self.pts@, 0).len() == 0,
                Err(m) => bad_ids_from(self.pts@, 0).len() > 0 && m@ == msg_bad_ids(
                    bad_ids_from(self.pts@, 0),
                ),
            },
    {
        let ghost pts = self.pts@;
        let mut bad: Vec<u64> = Vec::new();
        let mut i: usize = 0;
        assert(bad@.map_values(|v: u64| v as int) =~= Seq::<int>::empty());
        while i < self.pts.len()
            invariant
                i <= pts.len(),
                pts == self.pts@,
                forall|k: int| 0 <= k < bad@.len() ==> 0 <= #[trigger] bad@[k] < i,
                bad_ids_from(pts, 0) =~= bad@.map_values(|v: u64| v as int) + bad_ids_from(
                    pts,
                    i as int,
                ),
            decreases pts.len() - i,
        {
            let pt = self.pts[i];
            let ok = pt.id >= 0 && pt.id as usize == i;
            let ghost prev = bad@.map_values(|v: u64| v as int);
            if !ok {
                assert(pts[i as int].id != i as int);
                bad.push(i as u64);
                assert(bad@.map_values(|v: u64| v as int) =~= prev.push(i as int));
                assert(bad_ids_from(pts, i as int) =~= seq![i as int] + bad_ids_from(
                    pts,
                    i as int + 1,
                ));
                assert(bad_ids_from(pts, 0) =~= bad@.map_values(|v: u64| v as int)
                    + bad_ids_from(pts, i as int + 1));
            } else {
                assert(pts[i as int].id == i as int);
            }
            i = i + 1;
        }
        assert(bad_ids_from(pts, pts.len() as int) =~= Seq::<int>::empty());
        let ghost badv = bad@.map_values(|v: u64| v as int);
        assert(bad_ids_from(pts, 0) =~= badv);
        if bad.len() == 0 {
            assert(bad_ids_from(pts, 0).len() == 0);
            Ok(())
        } else {
            let mut list = String::new();
            push_u64(&mut list, bad[0]);
            assert(dec_digits(bad@[0] as nat) == dec_int(badv[0]));
            let mut k: usize = 1;
            while k < bad.len()
                invariant
                    1 <= k <= bad@.len(),
                    bad@.len() == badv.len(),
                    badv == bad@.map_values(|v: u64| v as int),
                    join_fold(badv, 1, dec_int(badv[0])) == join_fold(badv, k as int, list@),
                decreases bad@.len() - k,
            {
                let ghost before = list@;
                list.append(", ");
                push_u64(&mut list, bad[k]);
                assert(dec_digits(bad@[k as int] as nat) == dec_int(badv[k as int]));
                assert(list@ =~= before + ", "@ + dec_int(badv[k as int]));
                k = k + 1;
            }
            assert(list@ == join_fold(badv, 1, dec_int(badv[0])));
            let mut m = String::new();
            m.append("points ");
            m.append("[");
            m.append(list.as_str());
            m.append("]");
            m.append(" do not have correct ids");
            assert(m@ =~= msg_bad_ids(badv));
            Err(m)
        }
    }

    /// Checks every point's demand against the capacity, and the mutual
    /// consistency of the pickup/delivery pairs.
    pub fn check_demands(&self) -> (r: Result<(), String>)
        requires
            self.pts@.len() >= 1,
        ensures
            match r {
                Ok(()) => spec_check_demands(self.pts@, self.max_capacity as int, self.is_pdp) is None,
                Err(m) => spec_check_demands(self.pts@, self.max_capacity as int, self.is_pdp)
                    matches Some(v) && m@ == v,
            },
    {
        let ghost pts = self.pts@;
        let cap = self.max_capacity;
        let pdp = self.is_pdp;
        let mut i: usize = 0;
        while i < self.pts.len()
            invariant
                i <= pts.len(),
                pts == self.pts@,
                pts.len() >= 1,
                cap == self.max_capacity,
                pdp == self.is_pdp,
                demands_first(pts, cap as int, pdp, 0) == demands_first(
                    pts,
                    cap as int,
                    pdp,
                    i as int,
                ),
            decreases pts.len() - i,
        {
            let pt = self.pts[i];
            if pt.demand > cap {
                let mut m = String::new();
                m.append("point ");
                push_i64(&mut m, pt.id as i64);
                m.append(" can not be visited because its demands are greater than vehicle capacity");
                assert(m@ =~= msg_demand_over(pt.id as int));
                return Err(m);
            }
            if pt.demand < 0 && !pdp {
                let mut m = String::new();
                m.append("point ");
                push_i64(&mut m, pt.id as i64);
                m.append(" has negative demands and this is not pdp");
                assert(m@ =~= msg_negative_demand(pt.id as int));
                return Err(m);
            }
            match pt.pickup_delivery {
                None => {
                    assert(demand_issue(pts, cap as int, pdp, i as int) is None);
                },
                Some((p, d)) => {
                    if !pdp {
                        let mut m = String::new();
                        m.append("point ");
                        push_i64(&mut m, pt.id as i64);
                        m.append(" has pickup and delivery but the instance is not pdp");
                        assert(m@ =~= msg_pair_outside_pdp(pt.id as int));
                        return Err(m);
                    }
                    if p != 0 && d != 0 {
                        let mut m = String::new();
                        m.append("point ");
                        push_i64(&mut m, pt.id as i64);
                        m.append(" has nonzero both pickup (");
                        push_i64(&mut m, p as i64);
                        m.append(") and delivery (");
                        push_i64(&mut m, d as i64);
                        m.append(")");
                        assert(m@ =~= msg_both_nonzero(pt.id as int, p as int, d as int));
                        return Err(m);
                    }
                    let o = if p != 0 {
                        p
                    } else {
                        d
                    };
                    if o < 0 || o as usize >= self.pts.len() {
                        let mut m = String::new();
                        m.append("points ");
                        push_i64(&mut m, pt.id as i64);
                        m.append(" pdp pair ");
                        push_i64(&mut m, o as i64);
                        m.append(" does not refer to any legal point");
                        assert(m@ =~= msg_pair_illegal(pt.id as int, o as int));
                        return Err(m);
                    }
                    let other = self.pts[o as usize];
                    match other.pickup_delivery {
                        None => {
                            let mut m = String::new();
                            m.append("point ");
                            push_i64(&mut m, pt.id as i64);
                            m.append(" pdp pair ");
                            push_i64(&mut m, o as i64);
                            m.append(" is not pdp");
                            assert(m@ =~= msg_pair_not_pdp(pt.id as int, o as int));
                            return Err(m);
                        },
                        Some((op, od)) => {
                            if !(op == 0 && od == pt.id) && !(op == pt.id && od == 0) {
                                let mut m = String::new();
                                m.append("point ");
                                push_i64(&mut m, pt.id as i64);
                                m.append(" and ");
                                push_i64(&mut m, o as i64);
                                m.append(
                                    " are a pdp pair but their pickup and deliveries do not match",
                                );
                                assert(m@ =~= msg_pair_mismatch(pt.id as int, o as int));
                                return Err(m);
                            }
                            if pt.demand as i64 + other.demand as i64 != 0 {
                                let other_text = other.to_text();
                                let mut m = String::new();
                                m.append("point ");
                                push_i64(&mut m, pt.id as i64);
                                m.append(" demands ");
                                push_i64(&mut m, pt.demand as i64);
                                m.append(" does not sum to 0 with ther pdp pair ");
                                m.append(other_text.as_str());
                                m.append(" demands ");
                                push_i64(&mut m, other.demand as i64);
                                assert(m@ =~= msg_pair_demand(
                                    pt.id as int,
                                    pt.demand as int,
                                    pts[o as int],
                                    other.demand as int,
                                ));
                                return Err(m);
                            }
                            assert(demand_issue(pts, cap as int, pdp, i as int) is None);
                        },
                    }
                },
            }
            i = i + 1;
        }
        assert(demands_first(pts, cap as int, pdp, 0) is None);
        let depot = self.pts[0];
        if pdp {
            let pair_ok = match depot.pickup_delivery {
                Some((p, d)) => p == 0 && d == 0,
                None => false,
            };
            if !pair_ok {
                let mut m = String::new();
                m.append("depots pdp pair is not (0, 0)");
                assert(m@ =~= msg_depot_pair());
                return Err(m);
            }
        }
        if depot.demand != 0 {
            let mut m = String::new();
            m.append("depots demand is non-zero (");
            push_i64(&mut m, depot.demand as i64);
            m.append(")");
            assert(m@ =~= msg_depot_demand(depot.demand as int));
            return Err(m);
        }
        Ok(())
    }

    /// Checks that each point can be reached from the depot, served in its
    /// window, and left for the depot again before the depot's due time,
    /// travelling in a straight line.
    pub fn check_time(&self) -> (r: Result<(), String>)
        requires
            self.pts@.len() >= 1,
        ensures
            (r is Ok) == all_times_ok_sc(self.pts@),
            match first_time_issue_sc(self.pts@, 0) {
                None => r is Ok,
                Some((i, PointIssue::WindowBackwards)) => r is Err && r->Err_0@
                    == msg_window_backwards(
                    self.pts@[i].id as int,
                    self.pts@[i].due as int,
                    self.pts@[i].start as int,
                ),
                Some((i, PointIssue::ArriveLate)) => r is Err && is_arrival_late_msg(
                    r->Err_0@,
                    self.pts@[i].id as int,
                    self.pts@[i].due as int,
                ),
                Some((i, PointIssue::ReturnLate)) => r is Err && is_return_late_msg(
                    r->Err_0@,
                    self.pts@[i].id as int,
                    self.pts@[0].due as int,
                ),
            },
            match time_sanity_from(self.pts@, 0) {
                Sanity::Sane => r is Ok,
                Sanity::Violation(m) => r is Err && r->Err_0@ == m,
                Sanity::Undetermined => true,
            },
    {
        let ghost pts = self.pts@;
        let depot = self.pts[0];
        let mut i: usize = 0;
        while i < self.pts.len()
            invariant
                i <= pts.len(),
                pts == self.pts@,
                pts.len() >= 1,
                depot == pts[0],
                forall|j: int| 0 <= j < i ==> point_time_ok_sc(pts, j),
                first_time_issue_sc(pts, 0) == first_time_issue_sc(pts, i as int),
                time_sanity_from(pts, 0) == time_sanity_from(pts, i as int) || time_sanity_from(
                    pts,
                    0,
                ) is Undetermined,
            decreases pts.len() - i,
        {
            let pt = self.pts[i];
            if pt.start > pt.due {
                let mut m = String::new();
                m.append("point ");
                push_i64(&mut m, pt.id as i64);
                m.append(" can not be visited because the due time (");
                push_i64(&mut m, pt.due as i64);
                m.append(") is before start (");
                push_i64(&mut m, pt.start as i64);
                m.append(")");
                assert(m@ =~= msg_window_backwards(pt.id as int, pt.due as int, pt.start as int));
                assert(!point_time_ok_sc(pts, i as int));
                assert(first_time_issue_sc(pts, i as int) == Some(
                    (i as int, PointIssue::WindowBackwards),
                ));
                return Err(m);
            }
            let mut ea = fl(depot.start);
            let d1 = depot.dist(&pt);
            add_fl(&mut ea, &d1);
            let ghost leg1 = dist_sq(pts[0], pts[i as int]);
            proof {
                if is_square(leg1) {
                    assert(float_val(ea) == Some(depot.start + sqrt_of(leg1)));
                }
            }
            if gt_i32_fl(&ea, pt.due) {
                let ea_text = fl_to_text(&ea);
                let mut m = String::new();
                m.append("earliest possible arrival (");
                m.append(ea_text.as_str());
                m.append(") from depot to point ");
                push_i64(&mut m, pt.id as i64);
                m.append(" is after the points due time ");
                push_i64(&mut m, pt.due as i64);
                proof {
                    assert(m@ =~= "earliest possible arrival ("@ + ea_text@
                        + ") from depot to point "@ + dec_int(pt.id as int)
                        + " is after the points due time "@ + dec_int(pt.due as int));
                    assert(is_arrival_late_msg(m@, pt.id as int, pt.due as int));
                    assert(first_time_issue_sc(pts, i as int) == Some(
                        (i as int, PointIssue::ArriveLate),
                    ));
                    if is_square(leg1) {
                        let eav = depot.start + sqrt_of(leg1);
                        lemma_dist_sq_bound(pts[0], pts[i as int]);
                        lemma_sqrt_le(leg1, 0x200000000);
                        assert(fits_text(eav));
                        assert(m@ =~= msg_arrival_late(eav, pt.id as int, pt.due as int));
                        assert(point_time_sanity(pts, i as int) == Sanity::Violation(
                            msg_arrival_late(eav, pt.id as int, pt.due as int),
                        ));
                    } else {
                        assert(point_time_sanity(pts, i as int) == Sanity::Undetermined);
                    }
                    assert(!point_time_ok_sc(pts, i as int));
                }
                return Err(m);
            }
            let start_fl = fl(pt.start);
            let mut er = max_fl(&start_fl, &ea);
            add_i32_fl(&mut er, pt.service);
            let d2 = pt.dist(&depot);
            add_fl(&mut er, &d2);
            let ghost leg2 = dist_sq(pts[i as int], pts[0]);
            proof {
                if is_square(leg1) && is_square(leg2) {
                    let eav = depot.start + sqrt_of(leg1);
                    let wait = if pt.start as int >= eav {
                        pt.start as int
                    } else {
                        eav
                    };
                    assert(float_val(er) == Some(wait + pt.service + sqrt_of(leg2)));
                }
            }
            if gt_i32_fl(&er, depot.due) {
                let er_text = fl_to_text(&er);
                let mut m = String::new();
                m.append("earliest possible return to depot (");
                m.append(er_text.as_str());
                m.append(") to point ");
                push_i64(&mut m, pt.id as i64);
                m.append(" is after the depot due time ");
                push_i64(&mut m, depot.due as i64);
                proof {
                    assert(m@ =~= "earliest possible return to depot ("@ + er_text@
                        + ") to point "@ + dec_int(pt.id as int)
                        + " is after the depot due time "@ + dec_int(depot.due as int));
                    assert(is_return_late_msg(m@, pt.id as int, depot.due as int));
                    assert(first_time_issue_sc(pts, i as int) == Some(
                        (i as int, PointIssue::ReturnLate),
                    ));
                    if is_square(leg1) && is_square(leg2) {
                        let eav = depot.start + sqrt_of(leg1);
                        let wait = if pt.start as int >= eav {
                            pt.start as int
                        } else {
                            eav
                        };
                        let erv = wait + pt.service + sqrt_of(leg2);
                        lemma_dist_sq_bound(pts[0], pts[i as int]);
                        lemma_dist_sq_bound(pts[i as int], pts[0]);
                        lemma_sqrt_le(leg1, 0x200000000);
                        lemma_sqrt_le(leg2, 0x200000000);
                        assert(fits_text(erv));
                        assert(m@ =~= msg_return_late(erv, pt.id as int, depot.due as int));
                        assert(point_time_sanity(pts, i as int) == Sanity::Violation(
                            msg_return_late(erv, pt.id as int, depot.due as int),
                        ));
                    } else {
                        assert(point_time_sanity(pts, i as int) == Sanity::Undetermined);
                    }
                    assert(!point_time_ok_sc(pts, i as int));
                }
                return Err(m);
            }
            proof {
                if is_square(leg1) && is_square(leg2) {
                    assert(point_time_sanity(pts, i as int) == Sanity::Sane);
                } else {
                    assert(point_time_sanity(pts, i as int) == Sanity::Undetermined
                        || point_time_sanity(pts, i as int) == Sanity::Sane);
                }
                assert(point_time_ok_sc(pts, i as int));
                assert(point_time_issue_sc(pts, i as int) is None);
            }
            i = i + 1;
        }
        Ok(())
    }

    /// Runs every load-time sanity check, in order, and reports the first
    /// violation.
    pub fn check_sanity(&self) -> (r: Result<(), String>)
        ensures
            (r is Ok) == spec_sanity_ok(self.pts@, self.max_capacity as int, self.is_pdp),
            match spec_sanity(*self) {
                Sanity::Sane => r is Ok,
                Sanity::Violation(m) => r is Err && r->Err_0@ == m,
                Sanity::Undetermined => true,
            },
    {
        let clients = self.pts.len();
        if clients < 2 {
            let mut m = String::new();
            m.append("the instance needs at least two points (depot and one client to visit), it has ");
            push_u64(&mut m, clients as u64);
            assert(dec_digits(clients as u64 as nat) == dec_int(clients as int));
            assert(m@ =~= msg_too_few(clients as int));
            return Err(m);
        }
        match self.point_ids_are_sequential() {
            Err(e) => {
                return Err(e);
            },
            Ok(_) => {},
        }
        match self.check_demands() {
            Err(e) => {
                return Err(e);
            },
            Ok(_) => {},
        }
        match self.check_time() {
            Err(e) => {
                return Err(e);
            },
            Ok(_) => {},
        }
        Ok(())
    }
}


// ---------------------------------------------------------------------------
// parsing instance text

/// The state of the instance parser: the captured name, the vehicle/capacity
/// header once seen, the points so far, and whether a non-blank line has
/// gone by (only the first may carry the instance name).
pub struct ParseState {
    pub name: Seq<char>,
    pub vc: Option<(int, int)>,
    pub pts: Seq<Point>,
    pub seen: bool,
}

/// The parser's state before any line is read.
pub open spec fn init_parse_state() -> ParseState {
    ParseState { name: seq![], vc: None, pts: seq![], seen: false }
}

/// Every token of `ts` from `j` on is shaped like an integer.
pub open spec fn all_int_tokens(ts: Seq<Seq<char>>, j: int) -> bool {
    forall|k: int| j <= k < ts.len() ==> int_token_shape(#[trigger] ts[k])
}

/// The value of an integer token, or zero where it does not fit.
pub open spec fn i32_or_zero(t: Seq<char>) -> int {
    match i32_token(t) {
        Some(v) => v,
        None => 0,
    }
}

/// Where a line is nothing but one benchmark instance name, the positions
/// enclosing the name.
pub open spec fn name_line_span(line: Seq<char>) -> Option<(int, int)> {
    match name_after(line) {
        Some(j) => if skip_ws(line, j) == line.len() {
            Some((skip_ws(line, 0), j))
        } else {
            None
        },
        None => None,
    }
}

/// One line of instance text: blank lines pass; a line of integer tokens is
/// the vehicle/capacity header (the first with two or three of them,
/// overflowing values read as zero) or a point row; any other line may carry
/// the instance name when it comes first, and is otherwise ignored. The
/// leniency is deliberate: the classic dialect interleaves its rows with
/// fixed header lines (`VEHICLE`, column titles and the like), and the
/// parser accepts those — and any other non-numeric line — without
/// insisting on their wording.
pub open spec fn inst_step(line: Seq<char>, st: ParseState) -> Result<ParseState, Seq<char>> {
    let ts = tokens_of(line);
    if ts.len() == 0 {
        Ok(st)
    } else if all_int_tokens(ts, 0) {
        if st.vc is None && (ts.len() == 2 || ts.len() == 3) {
            Ok(
                ParseState {
                    name: st.name,
                    vc: Some((i32_or_zero(ts[0]), i32_or_zero(ts[1]))),
                    pts: st.pts,
                    seen: true,
                },
            )
        } else {
            match spec_parse_point(line) {
                Err(m) => Err(m),
                Ok(pt) => Ok(
                    ParseState { name: st.name, vc: st.vc, pts: st.pts.push(pt), seen: true },
                ),
            }
        }
    } else {
        if !st.seen {
            match name_line_span(line) {
                Some((a, b)) => Ok(
                    ParseState { name: line.subrange(a, b), vc: st.vc, pts: st.pts, seen: true },
                ),
                None => Ok(ParseState { name: st.name, vc: st.vc, pts: st.pts, seen: true }),
            }
        } else {
            Ok(ParseState { name: st.name, vc: st.vc, pts: st.pts, seen: true })
        }
    }
}

/// Reads the lines from `i` on into the parser state.
pub open spec fn inst_fold(lines: Seq<Seq<char>>, i: int, st: ParseState) -> Result<
    ParseState,
    Seq<char>,
>
    decreases lines.len() - i,
{
    if i < 0 || i >= lines.len() {
        Ok(st)
    } else {
        match inst_step(lines[i], st) {
            Err(m) => Err(m),
            Ok(st2) => inst_fold(lines, i + 1, st2),
        }
    }
}

pub open spec fn msg_no_vehicles() -> Seq<char> {
    "Instance parsing problem: no vehicles and capacity line"@
}

/// The structural reading of instance text, before the sanity checks.
pub open spec fn spec_parse_instance(s: Seq<char>) -> Result<ParseState, Seq<char>> {
    match inst_fold(lines_of(s), 0, init_parse_state()) {
        Err(m) => Err(m),
        Ok(st) => match st.vc {
            None => Err(msg_no_vehicles()),
            Some(_) => Ok(st),
        },
    }
}

/// An instance carries pairs exactly when its first point row had nine
/// fields.
pub open spec fn state_is_pdp(st: ParseState) -> bool {
    st.pts.len() > 0 && st.pts[0].pickup_delivery is Some
}

/// The instance value a parse state describes.
pub open spec fn inst_matches(inst: Instance, st: ParseState) -> bool {
    &&& inst.name@ == st.name
    &&& st.vc matches Some((v, c))
    &&& inst.vehicles as int == st.vc->Some_0.0
    &&& inst.max_capacity as int == st.vc->Some_0.1
    &&& inst.pts@ == st.pts
    &&& inst.is_pdp == state_is_pdp(st)
}

/// What reading instance text yields: an instance whose sanity checks all
/// passed, a first diagnostic, or — where an inexact square root decides the
/// static time check — an undecided reading whose accepted value is still
/// pinned.
pub enum ParseOutcome {
    Accepted(ParseState),
    Refused(Seq<char>),
    Undecided(ParseState),
}

pub open spec fn spec_read_instance(s: Seq<char>) -> ParseOutcome {
    match spec_parse_instance(s) {
        Err(m) => ParseOutcome::Refused(m),
        Ok(st) => match spec_sanity_parts(st.pts, st.vc->Some_0.1, state_is_pdp(st)) {
            Sanity::Violation(m) => ParseOutcome::Refused(m),
            Sanity::Sane => ParseOutcome::Accepted(st),
            Sanity::Undetermined => ParseOutcome::Undecided(st),
        },
    }
}

/// The spec model of the parser's runtime state.
pub open spec fn state_of(name: Seq<char>, vc: Option<(i32, i32)>, pts: Seq<Point>, seen: bool) -> ParseState {
    ParseState {
        name,
        vc: match vc {
            Some((v, c)) => Some((v as int, c as int)),
            None => None,
        },
        pts,
        seen,
    }
}

/// The entry point of the instance grammar.
pub struct InstanceParser;

impl InstanceParser {
    /// Parses and sanity-checks instance text, as [`spec_read_instance`]
    /// states.
    pub fn parse(s: &str) -> (r: Result<Instance, String>)
        ensures
            (r is Ok) == (spec_parse_instance(s@) matches Ok(st) && spec_sanity_ok(
                st.pts,
                st.vc->Some_0.1,
                state_is_pdp(st),
            )),
            r matches Ok(inst) ==> spec_parse_instance(s@) matches Ok(st) && inst_matches(
                inst,
                st,
            ),
            match spec_read_instance(s@) {
                ParseOutcome::Refused(m) => r is Err && r->Err_0@ == m,
                ParseOutcome::Accepted(st) => r is Ok && inst_matches(r->Ok_0, st),
                ParseOutcome::Undecided(st) => r is Ok ==> inst_matches(r->Ok_0, st),
            },
    {
        let cs = str_chars(s);
        let lines = split_lines(&cs);
        let ghost linesd = lines.deep_view();
        let mut name = String::new();
        let mut vc: Option<(i32, i32)> = None;
        let mut pts: Vec<Point> = Vec::new();
        let mut seen = false;
        let mut i: usize = 0;
        assert(name@ =~= Seq::<char>::empty());
        assert(pts@ =~= Seq::<Point>::empty());
        while i < lines.len()
            invariant
                i <= lines@.len(),
                linesd == lines.deep_view(),
                linesd.len() == lines@.len(),
                linesd == lines_of(s@),
                inst_fold(linesd, 0, init_parse_state()) == inst_fold(
                    linesd,
                    i as int,
                    state_of(name@, vc, pts@, seen),
                ),
            decreases lines@.len() - i,
        {
            assert(linesd[i as int] == lines@[i as int].deep_view());
            assert(lines@[i as int].deep_view() =~= lines@[i as int]@);
            let line = &lines[i];
            let ghost st_before = state_of(name@, vc, pts@, seen);
            let ts = tokenize(line);
            let ghost tsd = ts.deep_view();
            if ts.len() > 0 {
                let mut allint = true;
                let mut kk: usize = 0;
                while kk < ts.len()
                    invariant
                        kk <= ts@.len(),
                        tsd == ts.deep_view(),
                        tsd.len() == ts@.len(),
                        allint ==> forall|k: int|
                            0 <= k < kk ==> int_token_shape(#[trigger] tsd[k]),
                        !allint ==> !all_int_tokens(tsd, 0),
                    decreases ts@.len() - kk,
                {
                    assert(tsd[kk as int] == ts@[kk as int].deep_view());
                    assert(ts@[kk as int].deep_view() =~= ts@[kk as int]@);
                    if !is_int_token_shaped(&ts[kk]) {
                        allint = false;
                    }
                    kk = kk + 1;
                }
                if allint {
                    assert(all_int_tokens(tsd, 0));
                    if vc.is_none() && (ts.len() == 2 || ts.len() == 3) {
                        assert(tsd[0] == ts@[0].deep_view() && ts@[0].deep_view() =~= ts@[0]@);
                        assert(tsd[1] == ts@[1].deep_view() && ts@[1].deep_view() =~= ts@[1]@);
                        let v0 = match parse_i32_token(&ts[0]) {
                            Some(v) => v,
                            None => 0,
                        };
                        let v1 = match parse_i32_token(&ts[1]) {
                            Some(v) => v,
                            None => 0,
                        };
                        assert(v0 as int == i32_or_zero(tsd[0]));
                        assert(v1 as int == i32_or_zero(tsd[1]));
                        vc = Some((v0, v1));
                        seen = true;
                    } else {
                        match parse_point_chars(line) {
                            Err(m) => {
                                return Err(m);
                            },
                            Ok(pt) => {
                                pts.push(pt);
                                seen = true;
                            },
                        }
                    }
                } else {
                    if !seen {
                        match name_after_exec(line) {
                            Some(j) => {
                                if skip_ws_exec(line, j) == line.len() {
                                    let a = skip_ws_exec(line, 0);
                                    let mut ns = String::new();
                                    push_chars(&mut ns, line, a, j);
                                    name = ns;
                                } else {
                                }
                            },
                            None => {},
                        }
                    }
                    seen = true;
                }
            }
            i = i + 1;
        }
        let ghost st = state_of(name@, vc, pts@, seen);
        assert(inst_fold(linesd, linesd.len() as int, st) == Ok::<ParseState, Seq<char>>(st));
        let (v, c) = match vc {
            None => {
                let mut m = String::new();
                m.append("Instance parsing problem: no vehicles and capacity line");
                assert(m@ =~= msg_no_vehicles());
                return Err(m);
            },
            Some((v, c)) => (v, c),
        };
        let is_pdp = pts.len() > 0 && pts[0].pickup_delivery.is_some();
        let inst = Instance { name, vehicles: v, max_capacity: c, pts, is_pdp };
        proof {
            assert(inst_matches(inst, st));
            assert(spec_parse_instance(s@) == Ok::<ParseState, Seq<char>>(st));
            assert(inst.pts@ == st.pts && inst.max_capacity as int == st.vc->Some_0.1
                && inst.is_pdp == state_is_pdp(st));
        }
        match inst.check_sanity() {
            Err(e) => Err(e),
            Ok(_) => Ok(inst),
        }
    }
}

impl core::str::FromStr for Instance {
    type Err = String;

    fn from_str(s: &str) -> Result<Instance, String> {
        InstanceParser::parse(s)
    }
}


// ---------------------------------------------------------------------------
// rendering

/// Accumulator form of the rendered point rows.
pub open spec fn pts_text_fold(pts: Seq<Point>, i: int, acc: Seq<char>) -> Seq<char>
    decreases pts.len() - i,
{
    if i < 0 || i >= pts.len() {
        acc
    } else {
        pts_text_fold(pts, i + 1, acc + point_text(pts[i]))
    }
}

/// The rendered form of an instance: its dialect's header, then one row per
/// point.
pub open spec fn instance_text(inst: Instance) -> Seq<char> {
    let head = if inst.is_pdp {
        dec_int(inst.vehicles as int) + "\t"@ + dec_int(inst.max_capacity as int) + "\t0\n"@
    } else {
        inst.name@ + "\n\nVEHICLE\nNUMBER     CAPACITY\n"@ + pad_left(
            dec_int(inst.vehicles as int),
            4,
        ) + pad_left(dec_int(inst.max_capacity as int), 13)
            + "\n\nCUSTOMER\nCUST NO.  XCOORD.    YCOORD.    DEMAND   READY TIME  DUE DATE   SERVICE TIME\n\n"@
    };
    head + pts_text_fold(inst.pts@, 0, seq![])
}

impl Instance {
    /// Renders the instance in its textual format, as [`instance_text`]
    /// states.
    pub fn to_text(&self) -> (r: String)
        ensures
            r@ == instance_text(*self),
    {
        let ghost ptsd = self.pts@;
        let mut m = String::new();
        if self.is_pdp {
            push_i64(&mut m, self.vehicles as i64);
            m.append("\t");
            push_i64(&mut m, self.max_capacity as i64);
            m.append("\t0\n");
        } else {
            m.append(self.name.as_str());
            m.append("\n\nVEHICLE\nNUMBER     CAPACITY\n");
            push_padded_i64(&mut m, self.vehicles as i64, 4);
            push_padded_i64(&mut m, self.max_capacity as i64, 13);
            m.append(
                "\n\nCUSTOMER\nCUST NO.  XCOORD.    YCOORD.    DEMAND   READY TIME  DUE DATE   SERVICE TIME\n\n",
            );
        }
        let ghost head = m@;
        let mut i: usize = 0;
        while i < self.pts.len()
            invariant
                i <= self.pts@.len(),
                ptsd == self.pts@,
                m@.len() >= head.len(),
                m@.take(head.len() as int) == head,
                pts_text_fold(ptsd, 0, seq![]) == pts_text_fold(
                    ptsd,
                    i as int,
                    m@.skip(head.len() as int),
                ),
            decreases self.pts@.len() - i,
        {
            let ghost seg = m@.skip(head.len() as int);
            let row = self.pts[i].to_text();
            m.append(row.as_str());
            assert(m@.skip(head.len() as int) =~= seg + point_text(ptsd[i as int]));
            assert(m@.take(head.len() as int) =~= head);
            i = i + 1;
        }
        assert(m@ =~= head + m@.skip(head.len() as int));
        assert(m@ =~= instance_text(*self));
        m
    }
}

} // verus!

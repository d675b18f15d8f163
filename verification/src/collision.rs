//! Collisions between bodies: the bounding-box test, the inside test, the search
//! for the edge a node has crossed, and the response that pushes the two apart.

use crate::body::{
    local_center, node_views, pending_within, reads_within, BodyView, BoundingBox, BoxView, NodeView,
    SBConnection, SBNode, SB,
};
use crate::fixed::{
    abs, floor_sqrt, fx_mul, isqrt, lemma_mul_within, lemma_tdiv_within, max, min,
    tdiv, trunc_div, wide_mul, within, LIMIT, REACH, SCALE,
};
use crate::vec2::{lemma_length_bounds, Vec2, V2};
use vstd::prelude::*;

verus! {

/// Lowest position along an edge, as a fraction of its length, at which a node
/// still counts as lying over the edge: a tenth before its first end.
pub const BAND_LOW: i64 = -100_000;

/// Highest such position: a tenth beyond its second end.
pub const BAND_HIGH: i64 = 1_100_000;

/// Least inner product of an edge's normal with the direction toward the
/// intruder's side for the edge to face the intruder.
pub const FACING_MIN: i64 = 200_000;

/// Two closed intervals share a point.
pub open spec fn intervals_overlap(min_l1: int, max_l1: int, min_l2: int, max_l2: int) -> bool {
    min_l1 <= max_l2 && max_l1 >= min_l2
}

/// Two boxes share a point: their extents overlap on both axes.
pub open spec fn boxes_overlap(bb1: BoxView, bb2: BoxView) -> bool {
    intervals_overlap(bb1.min_pos.x, bb1.max_pos.x, bb2.min_pos.x, bb2.max_pos.x)
        && intervals_overlap(bb1.min_pos.y, bb1.max_pos.y, bb2.min_pos.y, bb2.max_pos.y)
}

/// Whether the intervals `[min_l1, max_l1]` and `[min_l2, max_l2]` share a point.
pub fn axis_aligned_line_overlap(min_l1: i64, max_l1: i64, min_l2: i64, max_l2: i64) -> (r: bool)
    ensures
        r == intervals_overlap(min_l1 as int, max_l1 as int, min_l2 as int, max_l2 as int),
{
    min_l1 <= max_l2 && max_l1 >= min_l2
}

/// Whether two boxes share a point.
pub fn bounding_box_collision(bb1: &BoundingBox, bb2: &BoundingBox) -> (r: bool)
    ensures
        r == boxes_overlap(bb1@, bb2@),
{
    axis_aligned_line_overlap(bb1.min_pos.x, bb1.max_pos.x, bb2.min_pos.x, bb2.max_pos.x)
        && axis_aligned_line_overlap(bb1.min_pos.y, bb1.max_pos.y, bb2.min_pos.y, bb2.max_pos.y)
}

/// The edge directed upward: from the lower end to the higher one.
pub open spec fn upward(line_pt1: V2, line_pt2: V2) -> V2 {
    if line_pt2.y > line_pt1.y {
        line_pt2.minus(line_pt1)
    } else {
        line_pt1.minus(line_pt2)
    }
}

/// `pt` lies strictly to the left of the line through the two points, seen
/// along the line's upward direction from `line_pt1`.
pub open spec fn lies_left(pt: V2, line_pt1: V2, line_pt2: V2) -> bool {
    upward(line_pt1, line_pt2).cross_raw(pt.minus(line_pt1)) > 0
}

/// Whether `pt` lies to the left of the line (`true`) or on it or to its right.
pub fn line_pt_lateral(pt: Vec2, line_pt1: Vec2, line_pt2: Vec2) -> (r: bool)
    requires
        pt@.within(REACH as int),
        line_pt1@.within(REACH as int),
        line_pt2@.within(REACH as int),
    ensures
        r == lies_left(pt@, line_pt1@, line_pt2@),
{
    let ab: Vec2 = if line_pt2.y > line_pt1.y {
        line_pt2.minus(line_pt1)
    } else {
        line_pt1.minus(line_pt2)
    };
    let ap: Vec2 = pt.minus(line_pt1);
    ab.cross_raw(ap) > 0
}

/// Position of the foot of the perpendicular from `p` along the edge from `a` to
/// `b`, as a fixed-point fraction of the edge: 0 at `a`, 1 at `b`.
pub open spec fn edge_param(p: V2, a: V2, b: V2) -> int {
    tdiv(p.minus(a).dot_raw(b.minus(a)) * SCALE, b.minus(a).len_sq())
}

/// The foot of the perpendicular from `p` on the line through `a` and `b`.
pub open spec fn edge_foot(p: V2, a: V2, b: V2) -> V2 {
    a.plus(b.minus(a).times(edge_param(p, a, b)))
}

/// Squared distance from `p` to the foot of its perpendicular.
pub open spec fn edge_dist_sq(p: V2, a: V2, b: V2) -> int {
    edge_foot(p, a, b).minus(p).len_sq()
}

/// The unit normal of the edge from `a` to `b` that points to the left of that
/// direction.
pub open spec fn edge_normal(a: V2, b: V2) -> V2 {
    a.minus(b).unit().perp().negated()
}

/// How squarely the edge's normal points from the foot toward `center`.
pub open spec fn edge_facing(p: V2, center: V2, a: V2, b: V2) -> int {
    edge_normal(a, b).dot(center.minus(edge_foot(p, a, b)).unit())
}

/// The edge from `a` to `b` may be the one that `p` has crossed: it has a
/// length, the foot of the perpendicular lies over it or just beyond its ends,
/// and its normal points toward `center`.
pub open spec fn edge_qualifies(p: V2, center: V2, a: V2, b: V2) -> bool {
    &&& a != b
    &&& BAND_LOW <= edge_param(p, a, b) <= BAND_HIGH
    &&& edge_facing(p, center, a, b) >= FACING_MIN
}

/// The products that place the foot of a perpendicular stay small: the foot is
/// never farther from `a` than `p` is.
pub proof fn lemma_projection_within(ap: V2, ab: V2, m: int)
    requires
        !ab.is_zero(),
        ap.within(m),
    ensures
        within(ab.x * tdiv(ap.dot_raw(ab) * SCALE, ab.len_sq()), 2 * m * SCALE),
        within(ab.y * tdiv(ap.dot_raw(ab) * SCALE, ab.len_sq()), 2 * m * SCALE),
{
    let n = ap.dot_raw(ab);
    let d = ab.len_sq();
    let t = tdiv(n * SCALE, d);
    crate::vec2::lemma_len_sq_bounds(ab, abs(ab.x) + abs(ab.y));
    lemma_shadow(ap.x, ap.y, ab.x, ab.y, m);
    lemma_shadow(ap.y, ap.x, ab.y, ab.x, m);
    assert(ap.y * ab.y + ap.x * ab.x == n);
    assert(ab.y * ab.y + ab.x * ab.x == d);
}

/// One component of `lemma_projection_within`.
proof fn lemma_shadow(px: int, py: int, u: int, w: int, m: int)
    requires
        within(px, m),
        within(py, m),
        u * u + w * w >= 1,
    ensures
        within(u * tdiv((px * u + py * w) * SCALE, u * u + w * w), 2 * m * SCALE),
{
    let n = px * u + py * w;
    let d = u * u + w * w;
    let q = n * SCALE;
    let t = tdiv(q, d);
    let au = abs(u);
    let an = abs(n);
    let at = abs(t);
    // |u n| <= 2 m d
    assert(abs(u * w) <= d) by (nonlinear_arith)
        requires
            d == u * u + w * w,
    ;
    assert(0 <= u * u <= d) by (nonlinear_arith)
        requires
            d == u * u + w * w,
    ;
    lemma_mul_within(px, u * u, m, d);
    lemma_mul_within(py, u * w, m, d);
    assert(u * n == px * (u * u) + py * (u * w)) by (nonlinear_arith)
        requires
            n == px * u + py * w,
    ;
    assert(within(u * n, 2 * (m * d)));
    assert(au * an == abs(u * n)) by (nonlinear_arith)
        requires
            au == abs(u),
            an == abs(n),
    ;
    // |t| d <= |n| SCALE
    assert(at * d <= an * SCALE) by {
        if q >= 0 {
            assert((q / d) * d <= q) by (nonlinear_arith)
                requires
                    q >= 0,
                    d > 0,
            ;
            assert(q / d >= 0) by (nonlinear_arith)
                requires
                    q >= 0,
                    d > 0,
            ;
            assert(q == an * SCALE) by (nonlinear_arith)
                requires
                    q == n * SCALE,
                    q >= 0,
                    an == abs(n),
            ;
        } else {
            assert(((-q) / d) * d <= -q) by (nonlinear_arith)
                requires
                    -q >= 0,
                    d > 0,
            ;
            assert((-q) / d >= 0) by (nonlinear_arith)
                requires
                    -q >= 0,
                    d > 0,
            ;
            assert(-q == an * SCALE) by (nonlinear_arith)
                requires
                    q == n * SCALE,
                    q < 0,
                    an == abs(n),
            ;
        }
    }
    assert(au * at <= 2 * m * SCALE) by (nonlinear_arith)
        requires
            at * d <= an * SCALE,
            au * an <= 2 * (m * d),
            d >= 1,
            au >= 0,
            at >= 0,
            an >= 0,
            m >= 0,
    ;
    assert(abs(u * t) == au * at) by (nonlinear_arith)
        requires
            au == abs(u),
            at == abs(t),
    ;
}

/// The foot of the perpendicular from `node_pt` on the line through the two
/// points, and how far along the edge it lies (0 at `line_pt1`, 1 at `line_pt2`).
/// An edge without length has neither.
pub fn point_line_dist(node_pt: Vec2, line_pt1: Vec2, line_pt2: Vec2) -> (r: Option<(Vec2, i128)>)
    requires
        node_pt@.within(REACH as int),
        line_pt1@.within(REACH as int),
        line_pt2@.within(REACH as int),
    ensures
        r is None <==> line_pt1@ == line_pt2@,
        r matches Some((foot, t)) ==> {
            &&& foot@ == edge_foot(node_pt@, line_pt1@, line_pt2@)
            &&& t == edge_param(node_pt@, line_pt1@, line_pt2@)
            &&& foot@.within(5 * REACH)
        },
{
    let ab: Vec2 = line_pt2.minus(line_pt1);
    let ap: Vec2 = node_pt.minus(line_pt1);
    if ab.is_zero() {
        return None;
    }
    let n: i128 = ap.dot_raw(ab);
    let d: i128 = ab.length_squared();
    proof {
        crate::vec2::lemma_len_sq_bounds(ab@, 2 * REACH);
        lemma_mul_within(ap.x as int, ab.x as int, 2 * REACH, 2 * REACH);
        lemma_mul_within(ap.y as int, ab.y as int, 2 * REACH, 2 * REACH);
        assert((2 * REACH) * (2 * REACH) == 4_000_000_000_000_000_000_000_000_000_000)
            by (nonlinear_arith)
            requires
                REACH == 1_000_000_000_000_000,
        ;
        lemma_mul_within(n as int, SCALE as int, 8_000_000_000_000_000_000_000_000_000_000, SCALE as int);
        assert(8_000_000_000_000_000_000_000_000_000_000 * SCALE
            == 8_000_000_000_000_000_000_000_000_000_000_000_000) by (nonlinear_arith)
            requires
                SCALE == 1_000_000,
        ;
    }
    let q: i128 = n * (SCALE as i128);
    let t: i128 = trunc_div(q, d);
    proof {
        lemma_projection_within(ap@, ab@, 2 * REACH);
        assert(2 * (2 * REACH) * SCALE == (4 * REACH) * SCALE) by (nonlinear_arith);
        lemma_tdiv_within(ab.x * t, SCALE as int, 4 * REACH);
        lemma_tdiv_within(ab.y * t, SCALE as int, 4 * REACH);
    }
    let fx: i128 = trunc_div((ab.x as i128) * t, SCALE as i128);
    let fy: i128 = trunc_div((ab.y as i128) * t, SCALE as i128);
    let foot: Vec2 = Vec2 { x: line_pt1.x + fx as i64, y: line_pt1.y + fy as i64 };
    Some((foot, t))
}

/// Tests one edge for `get_closest_edge`: the foot of the perpendicular, the
/// squared distance to it and the position along the edge, if the edge qualifies.
fn probe_edge(node_pos: Vec2, center: Vec2, a: Vec2, b: Vec2) -> (r: Option<(Vec2, i128, i64)>)
    requires
        node_pos@.within(REACH as int),
        center@.within(REACH as int),
        a@.within(REACH as int),
        b@.within(REACH as int),
    ensures
        r is Some <==> edge_qualifies(node_pos@, center@, a@, b@),
        r matches Some((foot, dist_sq, t)) ==> {
            &&& foot@ == edge_foot(node_pos@, a@, b@)
            &&& dist_sq == edge_dist_sq(node_pos@, a@, b@)
            &&& t == edge_param(node_pos@, a@, b@)
            &&& foot@.minus(node_pos@).within(6 * REACH)
        },
{
    match point_line_dist(node_pos, a, b) {
        None => None,
        Some((foot, dot)) => {
            if dot > BAND_HIGH as i128 || dot < BAND_LOW as i128 {
                return None;
            }
            let connection_normal: Vec2 = a.minus(b).normalize().perp().negated();
            let center_to_point: Vec2 = center.minus(foot).normalize();
            if connection_normal.dot(center_to_point) < FACING_MIN as i128 {
                return None;
            }
            let dist_sq: i128 = foot.minus(node_pos).length_squared();
            Some((foot, dist_sq, dot as i64))
        },
    }
}

/// First end of connection `k`, where forces and collisions see it.
pub open spec fn conn_a(b: BodyView, k: int) -> V2 {
    b.nodes[b.connections[k].i1 as int].read_pos
}

/// Second end of connection `k`.
pub open spec fn conn_b(b: BodyView, k: int) -> V2 {
    b.nodes[b.connections[k].i2 as int].read_pos
}

/// Connection `k` of `b` is a perimeter edge that `p` may have crossed.
pub open spec fn conn_qualifies(b: BodyView, p: V2, center: V2, k: int) -> bool {
    b.connections[k].is_edge && edge_qualifies(p, center, conn_a(b, k), conn_b(b, k))
}

/// Squared distance from `p` to the foot of its perpendicular on connection `k`.
pub open spec fn conn_dist_sq(b: BodyView, p: V2, k: int) -> int {
    edge_dist_sq(p, conn_a(b, k), conn_b(b, k))
}

/// Among the first `upto` connections, `k` is the qualifying edge closest to
/// `p`, and the earliest of those equally close.
pub open spec fn is_closest_edge(b: BodyView, p: V2, center: V2, k: int, upto: int) -> bool {
    &&& 0 <= k < upto
    &&& conn_qualifies(b, p, center, k)
    &&& forall|j: int|
        0 <= j < upto && #[trigger] conn_qualifies(b, p, center, j) ==> {
            ||| conn_dist_sq(b, p, k) < conn_dist_sq(b, p, j)
            ||| (conn_dist_sq(b, p, k) == conn_dist_sq(b, p, j) && k <= j)
        }
}

/// No connection among the first `upto` qualifies.
pub open spec fn no_edge_qualifies(b: BodyView, p: V2, center: V2, upto: int) -> bool {
    forall|j: int| 0 <= j < upto ==> !#[trigger] conn_qualifies(b, p, center, j)
}

/// The perimeter edge of `sb` that the node at `node_pos` has most likely
/// crossed: the point on it nearest the node, the distance to that point, the
/// index of the connection, and how far along the edge the point lies. `center`
/// is the local centre of the node's own body, which the edge must face.
pub fn get_closest_edge(node_pos: Vec2, center: Vec2, sb: &SB) -> (r: Option<
    (Vec2, i64, usize, i64),
>)
    requires
        sb.wf(),
        reads_within(sb@.nodes, REACH as int),
        node_pos@.within(REACH as int),
        center@.within(REACH as int),
    ensures
        r is None <==> no_edge_qualifies(sb@, node_pos@, center@, sb@.connections.len() as int),
        r matches Some((best_pt, dist, connection_index, fin_dot)) ==> {
            &&& is_closest_edge(
                sb@,
                node_pos@,
                center@,
                connection_index as int,
                sb@.connections.len() as int,
            )
            &&& best_pt@ == edge_foot(
                node_pos@,
                conn_a(sb@, connection_index as int),
                conn_b(sb@, connection_index as int),
            )
            &&& fin_dot == edge_param(
                node_pos@,
                conn_a(sb@, connection_index as int),
                conn_b(sb@, connection_index as int),
            )
            &&& dist == floor_sqrt(conn_dist_sq(sb@, node_pos@, connection_index as int))
            &&& best_pt@.minus(node_pos@).within(6 * REACH)
        },
{
    let mut best: Option<(Vec2, i128, usize, i64)> = None;
    let mut counter: usize = 0;
    let total: usize = sb.connections.len();
    while counter < total
        invariant
            sb.wf(),
            reads_within(sb@.nodes, REACH as int),
            node_pos@.within(REACH as int),
            center@.within(REACH as int),
            total == sb.connections.len(),
            0 <= counter <= total,
            best is None ==> no_edge_qualifies(sb@, node_pos@, center@, counter as int),
            best matches Some((pt, dist_sq, k, t)) ==> {
                &&& is_closest_edge(sb@, node_pos@, center@, k as int, counter as int)
                &&& pt@ == edge_foot(node_pos@, conn_a(sb@, k as int), conn_b(sb@, k as int))
                &&& t == edge_param(node_pos@, conn_a(sb@, k as int), conn_b(sb@, k as int))
                &&& dist_sq == conn_dist_sq(sb@, node_pos@, k as int)
                &&& pt@.minus(node_pos@).within(6 * REACH)
            },
        decreases total - counter,
    {
        let connection: SBConnection = sb.connections[counter];
        proof {
            assert(sb@.connections[counter as int].valid_for(sb@.nodes.len() as int));
            assert(sb@.nodes[connection.i1 as int].read_pos.within(REACH as int));
            assert(sb@.nodes[connection.i2 as int].read_pos.within(REACH as int));
        }
        if connection.is_edge {
            let pt1: Vec2 = sb.nodes[connection.i1].read_pos;
            let pt2: Vec2 = sb.nodes[connection.i2].read_pos;
            match probe_edge(node_pos, center, pt1, pt2) {
                None => {},
                Some((closest_pt, dist_sq, dot)) => {
                    let closer: bool = match best {
                        None => true,
                        Some((_, min_dist, _, _)) => dist_sq < min_dist,
                    };
                    if closer {
                        best = Some((closest_pt, dist_sq, counter, dot));
                    }
                },
            }
        }
        counter = counter + 1;
    }
    match best {
        None => None,
        Some((pt, dist_sq, k, t)) => {
            proof {
                crate::vec2::lemma_len_sq_bounds(pt@.minus(node_pos@), 6 * REACH);
                assert(2 * ((6 * REACH) * (6 * REACH)) < 0x1000_0000_0000_0000_0000_0000_0000_0000)
                    by (nonlinear_arith)
                    requires
                        REACH == 1_000_000_000_000_000,
                ;
            }
            let dist: i128 = isqrt(dist_sq);
            Some((pt, dist as i64, k, t))
        },
    }
}

/// `pt` lies on or to the left of the point where the horizontal line through
/// it meets the line through `e1` and `e2`, which must not be horizontal. The
/// comparison is exact: both sides are multiplied out instead of divided.
pub open spec fn left_of_crossing(pt: V2, e1: V2, e2: V2) -> bool {
    let rise = e2.y - e1.y;
    let lhs = (pt.x - e1.x) * rise;
    let rhs = (pt.y - e1.y) * (e2.x - e1.x);
    if rise > 0 {
        lhs <= rhs
    } else {
        lhs >= rhs
    }
}

/// The ray from `pt` toward growing `x` crosses the edge between `e1` and `e2`:
/// the height of `pt` lies strictly between the heights of the two ends, and
/// `pt` is on or to the left of the crossing. An edge level with `pt` at either
/// end is not counted.
pub open spec fn ray_crosses(pt: V2, e1: V2, e2: V2) -> bool {
    &&& pt.y > min(e1.y, e2.y)
    &&& pt.y < max(e1.y, e2.y)
    &&& pt.x <= max(e1.x, e2.x)
    &&& (e1.x == e2.x || left_of_crossing(pt, e1, e2))
}

/// Number of perimeter edges among the first `k` connections that the ray from
/// `pt` crosses.
pub open spec fn crossings(b: BodyView, pt: V2, k: int) -> nat
    decreases k,
{
    if k <= 0 {
        0
    } else {
        let rest = crossings(b, pt, k - 1);
        if b.connections[k - 1].is_edge && ray_crosses(pt, conn_a(b, k - 1), conn_b(b, k - 1)) {
            rest + 1
        } else {
            rest
        }
    }
}

/// `pt` is inside the outline of `b`: the ray from it crosses an odd number of
/// perimeter edges.
pub open spec fn point_inside(b: BodyView, pt: V2) -> bool {
    crossings(b, pt, b.connections.len() as int) % 2 == 1
}

/// Whether the ray from `pt` toward growing `x` crosses the edge.
fn ray_crosses_exec(pt: Vec2, e1: Vec2, e2: Vec2) -> (r: bool)
    requires
        pt@.within(REACH as int),
        e1@.within(REACH as int),
        e2@.within(REACH as int),
    ensures
        r == ray_crosses(pt@, e1@, e2@),
{
    let low: i64 = if e1.y <= e2.y {
        e1.y
    } else {
        e2.y
    };
    let high: i64 = if e1.y >= e2.y {
        e1.y
    } else {
        e2.y
    };
    let right: i64 = if e1.x >= e2.x {
        e1.x
    } else {
        e2.x
    };
    if pt.y > low && pt.y < high && pt.x <= right {
        if e1.x == e2.x {
            return true;
        }
        let rise: i64 = e2.y - e1.y;
        let lhs: i128 = wide_mul(pt.x - e1.x, rise);
        let rhs: i128 = wide_mul(pt.y - e1.y, e2.x - e1.x);
        if rise > 0 {
            lhs <= rhs
        } else {
            lhs >= rhs
        }
    } else {
        false
    }
}

/// Whether `pt` is inside the outline of `sb`.
pub fn sb_point_intersection(pt: Vec2, sb: &SB) -> (r: bool)
    requires
        sb.wf(),
        reads_within(sb@.nodes, REACH as int),
        pt@.within(REACH as int),
    ensures
        r == point_inside(sb@, pt@),
{
    let mut intersection_counter_y: usize = 0;
    let total: usize = sb.connections.len();
    let mut k: usize = 0;
    while k < total
        invariant
            sb.wf(),
            reads_within(sb@.nodes, REACH as int),
            pt@.within(REACH as int),
            total == sb.connections.len(),
            0 <= k <= total,
            intersection_counter_y == crossings(sb@, pt@, k as int),
            intersection_counter_y <= k,
        decreases total - k,
    {
        let connection: SBConnection = sb.connections[k];
        proof {
            assert(sb@.connections[k as int].valid_for(sb@.nodes.len() as int));
            assert(sb@.nodes[connection.i1 as int].read_pos.within(REACH as int));
            assert(sb@.nodes[connection.i2 as int].read_pos.within(REACH as int));
        }
        if connection.is_edge {
            let e1: Vec2 = sb.nodes[connection.i1].read_pos;
            let e2: Vec2 = sb.nodes[connection.i2].read_pos;
            if ray_crosses_exec(pt, e1, e2) {
                intersection_counter_y = intersection_counter_y + 1;
            }
        }
        k = k + 1;
    }
    intersection_counter_y % 2 == 1
}

/// A point to the right of every node, not below any node, or not above any node
/// is outside: its ray crosses no edge.
pub proof fn lemma_far_point_outside(b: BodyView, pt: V2)
    requires
        b.wf(),
        ({
            ||| forall|i: int| 0 <= i < b.nodes.len() ==> pt.x > (#[trigger] b.nodes[i]).read_pos.x
            ||| forall|i: int| 0 <= i < b.nodes.len() ==> pt.y >= (#[trigger] b.nodes[i]).read_pos.y
            ||| forall|i: int| 0 <= i < b.nodes.len() ==> pt.y <= (#[trigger] b.nodes[i]).read_pos.y
        }),
    ensures
        !point_inside(b, pt),
{
    lemma_no_crossings(b, pt, b.connections.len() as int);
}

/// The ray of such a point crosses none of the first `k` connections.
proof fn lemma_no_crossings(b: BodyView, pt: V2, k: int)
    requires
        b.wf(),
        0 <= k <= b.connections.len(),
        ({
            ||| forall|i: int| 0 <= i < b.nodes.len() ==> pt.x > (#[trigger] b.nodes[i]).read_pos.x
            ||| forall|i: int| 0 <= i < b.nodes.len() ==> pt.y >= (#[trigger] b.nodes[i]).read_pos.y
            ||| forall|i: int| 0 <= i < b.nodes.len() ==> pt.y <= (#[trigger] b.nodes[i]).read_pos.y
        }),
    ensures
        crossings(b, pt, k) == 0,
    decreases k,
{
    if k > 0 {
        lemma_no_crossings(b, pt, k - 1);
        let c = b.connections[k - 1];
        assert(c.valid_for(b.nodes.len() as int));
        let n1 = b.nodes[c.i1 as int];
        let n2 = b.nodes[c.i2 as int];
        assert(!ray_crosses(pt, n1.read_pos, n2.read_pos));
    }
}

/// Largest magnitude of a pending position or a velocity that a single response
/// may meet.
pub const ROOM_TOP: i64 = 1_000_000_000_000_000_000;

/// Largest magnitude of a pending position or a velocity that a pass of
/// collisions between two bodies may meet.
pub const ROOM: i64 = 900_000_000_000_000_000;

/// Most that one response moves the intruding node.
pub const HIT_PUSH: i64 = 100_000_000_000;

/// Most that one response moves an end of the struck edge.
pub const EDGE_PUSH: i64 = 200_000_000_000;

/// Most that one pass of collisions moves a node of the struck body: one
/// response for each of the 255 nodes that may intrude.
pub const PASS_PUSH: i64 = 51_000_000_000_000;

/// The node with `by` added to its pending position and to its velocity.
pub open spec fn pushed(node: NodeView, by: V2) -> NodeView {
    NodeView { write_pos: node.write_pos.plus(by), vel: node.vel.plus(by), ..node }
}

/// The nodes of the struck body after one response: the correction `corr` is
/// shared between the two ends of the edge, `1 - t` of it to the first end and
/// `t` to the second.
pub open spec fn respond_target(nodes: Seq<NodeView>, i1: int, i2: int, corr: V2, t: int) -> Seq<
    NodeView,
> {
    let first = nodes.update(i1, pushed(nodes[i1], corr.times(SCALE - t)));
    first.update(i2, pushed(first[i2], corr.times(t)))
}

/// The current positions are those of `before`; pending positions and
/// velocities have changed by at most `d`.
pub open spec fn pending_moved(before: Seq<NodeView>, after: Seq<NodeView>, d: int) -> bool {
    &&& before.len() == after.len()
    &&& forall|i: int|
        0 <= i < before.len() ==> {
            &&& (#[trigger] after[i]).read_pos == before[i].read_pos
            &&& after[i].write_pos.minus(before[i].write_pos).within(d)
            &&& after[i].vel.minus(before[i].vel).within(d)
        }
}

/// Each share of a correction within `LIMIT` is within `EDGE_PUSH`.
pub proof fn lemma_share_within_push(corr: V2, t: int)
    requires
        corr.within(LIMIT as int),
        BAND_LOW <= t <= BAND_HIGH,
    ensures
        corr.times(t).within(EDGE_PUSH as int),
        corr.times(SCALE - t).within(EDGE_PUSH as int),
{
    lemma_mul_within(corr.x, t, LIMIT as int, 2 * SCALE);
    lemma_mul_within(corr.y, t, LIMIT as int, 2 * SCALE);
    lemma_mul_within(corr.x, SCALE - t, LIMIT as int, 2 * SCALE);
    lemma_mul_within(corr.y, SCALE - t, LIMIT as int, 2 * SCALE);
    assert(LIMIT * (2 * SCALE) == EDGE_PUSH * SCALE) by (nonlinear_arith)
        requires
            EDGE_PUSH == 2 * LIMIT,
    ;
    lemma_tdiv_within(corr.x * t, SCALE as int, EDGE_PUSH as int);
    lemma_tdiv_within(corr.y * t, SCALE as int, EDGE_PUSH as int);
    lemma_tdiv_within(corr.x * (SCALE - t), SCALE as int, EDGE_PUSH as int);
    lemma_tdiv_within(corr.y * (SCALE - t), SCALE as int, EDGE_PUSH as int);
}

/// The node with `by` added to its pending position and to its velocity.
fn push_node(node: SBNode, by: Vec2) -> (r: SBNode)
    requires
        node@.write_pos.within(ROOM_TOP as int),
        node@.vel.within(ROOM_TOP as int),
        by@.within(EDGE_PUSH as int),
    ensures
        r@ == pushed(node@, by@),
{
    SBNode { write_pos: node.write_pos.plus(by), vel: node.vel.plus(by), ..node }
}

/// Pushes an intruding node and the edge it has crossed apart. The node, found
/// inside the other body at `coll_pos`'s distance from the edge, is moved back
/// by the whole correction; the two ends of the edge are moved forward by
/// shares of it, `1 - dot` and `dot`. Pending positions and velocities change
/// alike; current positions stay.
pub fn soft_body_collision_response(
    node: &mut SBNode,
    sb2: &mut SB,
    con_pt1_index: usize,
    con_pt2_index: usize,
    coll_pos: Vec2,
    dot: i64,
)
    requires
        old(sb2).wf(),
        con_pt1_index < old(sb2).nodes.len(),
        con_pt2_index < old(sb2).nodes.len(),
        con_pt1_index != con_pt2_index,
        old(node)@.read_pos.within(REACH as int),
        coll_pos@.within(6 * REACH),
        old(node)@.read_pos.minus(coll_pos@).within(LIMIT as int),
        BAND_LOW <= dot <= BAND_HIGH,
        old(node)@.write_pos.within(ROOM_TOP as int),
        old(node)@.vel.within(ROOM_TOP as int),
        pending_within(old(sb2)@.nodes, ROOM_TOP as int),
    ensures
        final(sb2).wf(),
        final(node)@ == pushed(old(node)@, old(node)@.read_pos.minus(coll_pos@).negated()),
        final(sb2)@ == (BodyView {
            nodes: respond_target(
                old(sb2)@.nodes,
                con_pt1_index as int,
                con_pt2_index as int,
                old(node)@.read_pos.minus(coll_pos@),
                dot as int,
            ),
            ..old(sb2)@
        }),
        pending_moved(old(sb2)@.nodes, final(sb2)@.nodes, EDGE_PUSH as int),
{
    let vec: Vec2 = node.read_pos.minus(coll_pos);
    proof {
        lemma_share_within_push(vec@, dot as int);
        assert(old(sb2)@.nodes[con_pt1_index as int].write_pos.within(ROOM_TOP as int));
        assert(old(sb2)@.nodes[con_pt2_index as int].write_pos.within(ROOM_TOP as int));
    }
    let node_vec: Vec2 = vec.negated();
    let con_pt1_vec: Vec2 = vec.times(SCALE - dot);
    let con_pt2_vec: Vec2 = vec.times(dot);
    *node = push_node(*node, node_vec);
    let end1: SBNode = sb2.nodes[con_pt1_index];
    sb2.nodes.set(con_pt1_index, push_node(end1, con_pt1_vec));
    let end2: SBNode = sb2.nodes[con_pt2_index];
    sb2.nodes.set(con_pt2_index, push_node(end2, con_pt2_vec));
    proof {
        let want = respond_target(
            old(sb2)@.nodes,
            con_pt1_index as int,
            con_pt2_index as int,
            vec@,
            dot as int,
        );
        assert(node_views(sb2.nodes@) =~= want);
    }
}

/// The closest qualifying edge of `b` for the point `p`, where there is one.
pub open spec fn closest_edge(b: BodyView, p: V2, center: V2) -> int {
    choose|k: int| is_closest_edge(b, p, center, k, b.connections.len() as int)
}

/// There is only one closest qualifying edge.
pub proof fn lemma_closest_edge_unique(b: BodyView, p: V2, center: V2, k: int)
    requires
        is_closest_edge(b, p, center, k, b.connections.len() as int),
    ensures
        closest_edge(b, p, center) == k,
{
    let c = closest_edge(b, p, center);
    assert(is_closest_edge(b, p, center, c, b.connections.len() as int));
    assert(conn_qualifies(b, p, center, c));
    assert(conn_qualifies(b, p, center, k));
}

/// What the node `k` of `a` has struck in `b`, if anything: the connection, the
/// correction (from the foot of the perpendicular on the edge to the node), and
/// the position of the foot along the edge.
///
/// The node must be inside the outline of `b`, an edge must qualify, and the
/// node must be closer to that edge than half the edge's rest length.
pub open spec fn collision_hit(a: BodyView, b: BodyView, k: int) -> Option<(int, V2, int)> {
    let pt = a.nodes[k].read_pos;
    let center = local_center(a.nodes, k);
    if !point_inside(b, pt) || no_edge_qualifies(b, pt, center, b.connections.len() as int) {
        None
    } else {
        let e = closest_edge(b, pt, center);
        if 2 * floor_sqrt(conn_dist_sq(b, pt, e)) >= b.connections[e].resting_length {
            None
        } else {
            Some(
                (
                    e,
                    pt.minus(edge_foot(pt, conn_a(b, e), conn_b(b, e))),
                    edge_param(pt, conn_a(b, e), conn_b(b, e)),
                ),
            )
        }
    }
}

/// The nodes of the two bodies after the first `k` nodes of `a` have been
/// tested against `b`, and pushed apart from it where they had struck it.
pub open spec fn collide_upto(a: BodyView, b: BodyView, k: int) -> (Seq<NodeView>, Seq<NodeView>)
    decreases k,
{
    if k <= 0 {
        (a.nodes, b.nodes)
    } else {
        let (an, bn) = collide_upto(a, b, k - 1);
        match collision_hit(a, b, k - 1) {
            None => (an, bn),
            Some((e, corr, t)) => (
                an.update(k - 1, pushed(an[k - 1], corr.negated())),
                respond_target(
                    bn,
                    b.connections[e].i1 as int,
                    b.connections[e].i2 as int,
                    corr,
                    t,
                ),
            ),
        }
    }
}

/// The nodes of the two bodies after `a` has been tested against `b`: nothing
/// changes unless their bounding boxes overlap.
pub open spec fn collided(a: BodyView, b: BodyView) -> (Seq<NodeView>, Seq<NodeView>) {
    if boxes_overlap(a.bounding_box, b.bounding_box) {
        collide_upto(a, b, a.nodes.len() as int)
    } else {
        (a.nodes, b.nodes)
    }
}

/// `found` is what node `k` of `a` has struck in `b`: nothing where
/// `collision_hit` gives nothing, else its connection, the point on the edge
/// nearest the node, and the position of that point along the edge.
pub open spec fn hit_matches(a: BodyView, b: BodyView, k: int, found: Option<(usize, Vec2, i64)>) -> bool {
    match found {
        None => collision_hit(a, b, k) is None,
        Some((e, coll_pt, t)) => {
            &&& e < b.connections.len()
            &&& collision_hit(a, b, k) == Some(
                (e as int, a.nodes[k].read_pos.minus(coll_pt@), t as int),
            )
            &&& a.nodes[k].read_pos.minus(coll_pt@).within(LIMIT as int)
            &&& coll_pt@.within(6 * REACH)
            &&& BAND_LOW <= t <= BAND_HIGH
        },
    }
}

/// What node `counter` of `sb1` has struck in `sb2`, if anything: the
/// connection, the point on the edge nearest the node, and its position along
/// the edge.
pub fn find_hit(sb1: &SB, counter: usize, sb2: &SB) -> (r: Option<(usize, Vec2, i64)>)
    requires
        sb1.wf(),
        sb2.wf(),
        reads_within(sb1@.nodes, REACH as int),
        reads_within(sb2@.nodes, REACH as int),
        counter < sb1.nodes.len(),
    ensures
        hit_matches(sb1@, sb2@, counter as int, r),
{
    proof {
        assert(sb1@.nodes[counter as int].read_pos.within(REACH as int));
    }
    let pt: Vec2 = sb1.nodes[counter].read_pos;
    if !sb_point_intersection(pt, sb2) {
        return None;
    }
    let center: Vec2 = sb1.get_rel_center(counter);
    match get_closest_edge(pt, center, sb2) {
        None => None,
        Some((coll_pt, dist, conn_index, dot)) => {
            proof {
                lemma_closest_edge_unique(sb2@, pt@, center@, conn_index as int);
                assert(conn_qualifies(sb2@, pt@, center@, conn_index as int));
                assert(sb2@.connections[conn_index as int].valid_for(sb2@.nodes.len() as int));
                crate::vec2::lemma_len_sq_bounds(coll_pt@.minus(pt@), 6 * REACH);
                crate::fixed::lemma_floor_sqrt_exists(coll_pt@.minus(pt@).len_sq());
                lemma_length_bounds(coll_pt@.minus(pt@), dist as int, 6 * REACH);
            }
            let connection: SBConnection = sb2.connections[conn_index];
            if 2 * (dist as i128) >= connection.resting_length as i128 {
                return None;
            }
            Some((conn_index, coll_pt, dot))
        },
    }
}

/// Tests every node of `sb1` against `sb2` and pushes apart what has struck.
/// Nothing happens unless the bounding boxes overlap. Every test reads the
/// current positions, which stay; the responses gather in the pending positions
/// and the velocities.
pub fn soft_body_collision(sb1: &mut SB, sb2: &mut SB)
    requires
        old(sb1).wf(),
        old(sb2).wf(),
        reads_within(old(sb1)@.nodes, REACH as int),
        reads_within(old(sb2)@.nodes, REACH as int),
        pending_within(old(sb1)@.nodes, ROOM as int),
        pending_within(old(sb2)@.nodes, ROOM as int),
    ensures
        final(sb1).wf(),
        final(sb2).wf(),
        final(sb1)@ == (BodyView { nodes: collided(old(sb1)@, old(sb2)@).0, ..old(sb1)@ }),
        final(sb2)@ == (BodyView { nodes: collided(old(sb1)@, old(sb2)@).1, ..old(sb2)@ }),
        pending_moved(old(sb1)@.nodes, final(sb1)@.nodes, HIT_PUSH as int),
        pending_moved(old(sb2)@.nodes, final(sb2)@.nodes, PASS_PUSH as int),
{
    let ghost a = sb1@;
    let ghost b = sb2@;
    if !bounding_box_collision(&sb1.bounding_box, &sb2.bounding_box) {
        return;
    }
    let n: usize = sb1.nodes.len();
    let mut hits: Vec<Option<(usize, Vec2, i64)>> = Vec::new();
    let mut counter: usize = 0;
    while counter < n
        invariant
            sb1.wf(),
            sb2.wf(),
            sb1@ == a,
            sb2@ == b,
            reads_within(a.nodes, REACH as int),
            reads_within(b.nodes, REACH as int),
            n == sb1.nodes.len(),
            0 <= counter <= n,
            hits.len() == counter,
            forall|k: int| 0 <= k < counter ==> hit_matches(a, b, k, #[trigger] hits[k]),
        decreases n - counter,
    {
        let found: Option<(usize, Vec2, i64)> = find_hit(sb1, counter, sb2);
        hits.push(found);
        counter = counter + 1;
    }
    let mut k: usize = 0;
    proof {
        assert(0 * EDGE_PUSH == 0);
    }
    while k < n
        invariant
            sb1.wf(),
            sb2.wf(),
            n == sb1.nodes.len(),
            n == a.nodes.len(),
            n <= 255,
            0 <= k <= n,
            hits.len() == n,
            forall|i: int| 0 <= i < n ==> hit_matches(a, b, i, #[trigger] hits[i]),
            a == old(sb1)@,
            b == old(sb2)@,
            a.wf(),
            b.wf(),
            reads_within(a.nodes, REACH as int),
            pending_within(a.nodes, ROOM as int),
            pending_within(b.nodes, ROOM as int),
            sb1@ == (BodyView { nodes: collide_upto(a, b, k as int).0, ..a }),
            sb2@ == (BodyView { nodes: collide_upto(a, b, k as int).1, ..b }),
            pending_moved(a.nodes, sb1@.nodes, HIT_PUSH as int),
            forall|i: int| k <= i < n ==> (#[trigger] sb1@.nodes[i]) == a.nodes[i],
            pending_moved(b.nodes, sb2@.nodes, k * EDGE_PUSH),
        decreases n - k,
    {
        let ghost an = sb1@.nodes;
        let ghost bn = sb2@.nodes;
        let found: Option<(usize, Vec2, i64)> = hits[k];
        proof {
            assert(hit_matches(a, b, k as int, found));
            assert((k + 1) * EDGE_PUSH == k * EDGE_PUSH + EDGE_PUSH) by (nonlinear_arith);
            assert(k * EDGE_PUSH <= 254 * EDGE_PUSH) by (nonlinear_arith)
                requires
                    0 <= k <= 254,
            ;
        }
        match found {
            None => {},
            Some((conn_index, coll_pt, dot)) => {
                let connection: SBConnection = sb2.connections[conn_index];
                let mut node: SBNode = sb1.nodes[k];
                proof {
                    assert(b.connections[conn_index as int].valid_for(b.nodes.len() as int));
                    assert(an[k as int] == a.nodes[k as int]);
                    assert(a.nodes[k as int].read_pos.within(REACH as int));
                    assert(a.nodes[k as int].write_pos.within(ROOM as int));
                    assert forall|i: int| 0 <= i < bn.len() implies (#[trigger] bn[i]).write_pos.within(
                        ROOM_TOP as int,
                    ) && bn[i].vel.within(ROOM_TOP as int) by {
                        assert(b.nodes[i].write_pos.within(ROOM as int));
                        assert(bn[i].write_pos.minus(b.nodes[i].write_pos).within(k * EDGE_PUSH));
                    }
                }
                soft_body_collision_response(
                    &mut node,
                    sb2,
                    connection.i1,
                    connection.i2,
                    coll_pt,
                    dot,
                );
                sb1.nodes.set(k, node);
                proof {
                    let corr = a.nodes[k as int].read_pos.minus(coll_pt@);
                    assert(node_views(sb1.nodes@) =~= an.update(
                        k as int,
                        pushed(an[k as int], corr.negated()),
                    ));
                    let after2 = sb2@.nodes;
                    assert forall|i: int| 0 <= i < b.nodes.len() implies {
                        &&& (#[trigger] after2[i]).read_pos == b.nodes[i].read_pos
                        &&& after2[i].write_pos.minus(b.nodes[i].write_pos).within(
                            (k + 1) * EDGE_PUSH,
                        )
                        &&& after2[i].vel.minus(b.nodes[i].vel).within((k + 1) * EDGE_PUSH)
                    } by {
                        assert(bn[i].read_pos == b.nodes[i].read_pos);
                        assert(after2[i].write_pos.minus(bn[i].write_pos).within(EDGE_PUSH as int));
                    }
                }
            },
        }
        proof {
            let after2 = sb2@.nodes;
            assert forall|i: int| 0 <= i < b.nodes.len() implies {
                &&& (#[trigger] after2[i]).read_pos == b.nodes[i].read_pos
                &&& after2[i].write_pos.minus(b.nodes[i].write_pos).within((k + 1) * EDGE_PUSH)
                &&& after2[i].vel.minus(b.nodes[i].vel).within((k + 1) * EDGE_PUSH)
            } by {
                if found is None {
                    assert(bn[i].write_pos.minus(b.nodes[i].write_pos).within(k * EDGE_PUSH));
                }
            }
        }
        k = k + 1;
    }
    proof {
        assert(n * EDGE_PUSH <= PASS_PUSH) by (nonlinear_arith)
            requires
                0 <= n <= 255,
                EDGE_PUSH * 255 == PASS_PUSH,
        ;
        let after2 = sb2@.nodes;
        assert forall|i: int| 0 <= i < b.nodes.len() implies {
            &&& (#[trigger] after2[i]).read_pos == b.nodes[i].read_pos
            &&& after2[i].write_pos.minus(b.nodes[i].write_pos).within(PASS_PUSH as int)
            &&& after2[i].vel.minus(b.nodes[i].vel).within(PASS_PUSH as int)
        } by {
            assert(after2[i].write_pos.minus(b.nodes[i].write_pos).within(n * EDGE_PUSH));
        }
    }
}

/// What a response adds to the intruding node and to the two ends of the edge,
/// taken together.
pub open spec fn net_push(corr: V2, t: int) -> V2 {
    corr.negated().plus(corr.times(SCALE - t)).plus(corr.times(t))
}

/// A response moves displacement between the node and the edge and makes none:
/// what the node loses, the two ends of the edge gain. This is exact wherever
/// the shares need no rounding, and wherever the foot lies beyond an end of the
/// edge, so that the two shares are rounded in opposite directions.
pub proof fn lemma_response_balanced(corr: V2, t: int)
    requires
        (corr.x * t) % (SCALE as int) == 0 || t <= 0 || t >= SCALE,
        (corr.y * t) % (SCALE as int) == 0 || t <= 0 || t >= SCALE,
    ensures
        net_push(corr, t) == V2::zero(),
{
    lemma_shares_add_up(corr.x, t);
    lemma_shares_add_up(corr.y, t);
}

/// Whatever the rounding, a response makes or loses less than one raw unit of
/// displacement in each direction.
pub proof fn lemma_response_nearly_balanced(corr: V2, t: int)
    ensures
        net_push(corr, t).within(1),
{
    lemma_shares_nearly_add_up(corr.x, t);
    lemma_shares_nearly_add_up(corr.y, t);
}

/// Floor quotients and remainders of the two products that share `c`.
proof fn lemma_split(c: int, t: int) -> (r: (int, int, int, int))
    ensures
        ({
            let (q1, r1, q2, r2) = r;
            &&& c * t == q1 * SCALE + r1
            &&& c * (SCALE - t) == q2 * SCALE + r2
            &&& 0 <= r1 < SCALE
            &&& 0 <= r2 < SCALE
            &&& q1 == (c * t) / (SCALE as int)
            &&& q2 == (c * (SCALE - t)) / (SCALE as int)
            &&& r1 == (c * t) % (SCALE as int)
            &&& (q1 + q2) * SCALE + r1 + r2 == c * SCALE
        }),
{
    let a = c * t;
    let b = c * (SCALE - t);
    assert(a + b == c * SCALE) by (nonlinear_arith)
        requires
            a == c * t,
            b == c * (SCALE - t),
    ;
    let q1 = a / (SCALE as int);
    let r1 = a % (SCALE as int);
    let q2 = b / (SCALE as int);
    let r2 = b % (SCALE as int);
    assert(a == q1 * SCALE + r1 && 0 <= r1 < SCALE) by (nonlinear_arith)
        requires
            q1 == a / (SCALE as int),
            r1 == a % (SCALE as int),
            SCALE == 1_000_000,
    ;
    assert(b == q2 * SCALE + r2 && 0 <= r2 < SCALE) by (nonlinear_arith)
        requires
            q2 == b / (SCALE as int),
            r2 == b % (SCALE as int),
            SCALE == 1_000_000,
    ;
    assert((q1 + q2) * SCALE == q1 * SCALE + q2 * SCALE) by (nonlinear_arith);
    (q1, r1, q2, r2)
}

/// `tdiv` in terms of the floor quotient and the remainder.
proof fn lemma_tdiv_floor(a: int)
    ensures
        a >= 0 || a % (SCALE as int) == 0 ==> tdiv(a, SCALE as int) == a / (SCALE as int),
        a < 0 && a % (SCALE as int) != 0 ==> tdiv(a, SCALE as int) == a / (SCALE as int) + 1,
{
    let d = SCALE as int;
    if a < 0 {
        let q = a / d;
        let r = a % d;
        assert(a == q * d + r && 0 <= r < d) by (nonlinear_arith)
            requires
                q == a / d,
                r == a % d,
                d == 1_000_000,
        ;
        if r == 0 {
            assert((-a) / d == -q) by (nonlinear_arith)
                requires
                    -a == (-q) * d,
                    d == 1_000_000,
            ;
        } else {
            assert((-a) / d == -q - 1) by (nonlinear_arith)
                requires
                    -a == (-q - 1) * d + (d - r),
                    0 < d - r < d,
                    d == 1_000_000,
            ;
        }
    }
}

/// One component of `lemma_response_balanced`.
proof fn lemma_shares_add_up(c: int, t: int)
    requires
        (c * t) % (SCALE as int) == 0 || t <= 0 || t >= SCALE,
    ensures
        -c + fx_mul(c, SCALE - t) + fx_mul(c, t) == 0,
{
    let (q1, r1, q2, r2) = lemma_split(c, t);
    lemma_tdiv_floor(c * t);
    lemma_tdiv_floor(c * (SCALE - t));
    assert(r1 + r2 == 0 || r1 + r2 == SCALE) by (nonlinear_arith)
        requires
            (q1 + q2) * SCALE + r1 + r2 == c * SCALE,
            0 <= r1 < SCALE,
            0 <= r2 < SCALE,
            SCALE == 1_000_000,
    ;
    if r1 == 0 {
        assert(r2 == 0);
        assert(q1 + q2 == c) by (nonlinear_arith)
            requires
                (q1 + q2) * SCALE + r1 + r2 == c * SCALE,
                r1 == 0,
                r2 == 0,
                SCALE == 1_000_000,
        ;
    } else {
        assert(r2 == SCALE - r1);
        assert(q1 + q2 + 1 == c) by (nonlinear_arith)
            requires
                (q1 + q2) * SCALE + r1 + r2 == c * SCALE,
                r1 + r2 == SCALE,
                SCALE == 1_000_000,
        ;
        // the two products have opposite signs, so exactly one is rounded up
        assert((c * t < 0) != (c * (SCALE - t) < 0)) by (nonlinear_arith)
            requires
                t <= 0 || t >= SCALE,
                c * t == q1 * SCALE + r1,
                0 < r1 < SCALE,
                c * (SCALE - t) == q2 * SCALE + r2,
                0 < r2 < SCALE,
                SCALE == 1_000_000,
        ;
    }
}

/// One component of `lemma_response_nearly_balanced`.
proof fn lemma_shares_nearly_add_up(c: int, t: int)
    ensures
        within(-c + fx_mul(c, SCALE - t) + fx_mul(c, t), 1),
{
    let (q1, r1, q2, r2) = lemma_split(c, t);
    lemma_tdiv_floor(c * t);
    lemma_tdiv_floor(c * (SCALE - t));
    assert(r1 + r2 == 0 || r1 + r2 == SCALE) by (nonlinear_arith)
        requires
            (q1 + q2) * SCALE + r1 + r2 == c * SCALE,
            0 <= r1 < SCALE,
            0 <= r2 < SCALE,
            SCALE == 1_000_000,
    ;
    if r1 + r2 == 0 {
        assert(q1 + q2 == c) by (nonlinear_arith)
            requires
                (q1 + q2) * SCALE + r1 + r2 == c * SCALE,
                r1 + r2 == 0,
                SCALE == 1_000_000,
        ;
    } else {
        assert(q1 + q2 + 1 == c) by (nonlinear_arith)
            requires
                (q1 + q2) * SCALE + r1 + r2 == c * SCALE,
                r1 + r2 == SCALE,
                SCALE == 1_000_000,
        ;
    }
}

/// The body `b` is an upright rectangle from `lo` to `hi`: four nodes at its
/// corners, its first four connections the perimeter, and braces only after
/// them.
pub open spec fn is_rectangle(b: BodyView, lo: V2, hi: V2) -> bool {
    &&& lo.x < hi.x
    &&& lo.y < hi.y
    &&& b.nodes.len() == 4
    &&& b.nodes[0].read_pos == (V2 { x: lo.x, y: hi.y })
    &&& b.nodes[1].read_pos == hi
    &&& b.nodes[2].read_pos == lo
    &&& b.nodes[3].read_pos == (V2 { x: hi.x, y: lo.y })
    &&& b.connections.len() >= 4
    &&& b.connections[0].i1 == 0 && b.connections[0].i2 == 1
    &&& b.connections[1].i1 == 1 && b.connections[1].i2 == 3
    &&& b.connections[2].i1 == 3 && b.connections[2].i2 == 2
    &&& b.connections[3].i1 == 2 && b.connections[3].i2 == 0
    &&& forall|k: int| 0 <= k < b.connections.len() ==> ((#[trigger] b.connections[k]).is_edge <==> k < 4)
}

/// A rectangle holds every point strictly inside it, and no point outside it;
/// of the points on its outline it holds those on its right side between the
/// corners.
pub proof fn lemma_rectangle_inside(b: BodyView, lo: V2, hi: V2, pt: V2)
    requires
        is_rectangle(b, lo, hi),
    ensures
        lo.x < pt.x < hi.x && lo.y < pt.y < hi.y ==> point_inside(b, pt),
        pt.x < lo.x || pt.x > hi.x || pt.y <= lo.y || pt.y >= hi.y ==> !point_inside(b, pt),
        lo.y < pt.y < hi.y ==> (point_inside(b, pt) <==> lo.x < pt.x <= hi.x),
{
    assert(b.connections[0].is_edge && b.connections[1].is_edge && b.connections[2].is_edge
        && b.connections[3].is_edge);
    assert(crossings(b, pt, 0) == 0);
    assert(crossings(b, pt, 1) == 0);
    assert(crossings(b, pt, 2) == crossings(b, pt, 1) + if ray_crosses(
        pt,
        conn_a(b, 1),
        conn_b(b, 1),
    ) {
        1nat
    } else {
        0nat
    });
    assert(crossings(b, pt, 3) == crossings(b, pt, 2));
    assert(crossings(b, pt, 4) == crossings(b, pt, 3) + if ray_crosses(
        pt,
        conn_a(b, 3),
        conn_b(b, 3),
    ) {
        1nat
    } else {
        0nat
    });
    lemma_braces_cross_nothing(b, pt, b.connections.len() as int);
}

/// Connections that are no edges add no crossings.
proof fn lemma_braces_cross_nothing(b: BodyView, pt: V2, k: int)
    requires
        4 <= k <= b.connections.len(),
        forall|j: int| 4 <= j < b.connections.len() ==> !(#[trigger] b.connections[j]).is_edge,
    ensures
        crossings(b, pt, k) == crossings(b, pt, 4),
    decreases k,
{
    if k > 4 {
        lemma_braces_cross_nothing(b, pt, k - 1);
    }
}

/// The closest qualifying edge among the first `upto` connections, earliest on
/// ties, found by going through them in order; `-1` where none qualifies.
pub open spec fn best_edge(b: BodyView, p: V2, center: V2, upto: int) -> int
    decreases upto,
{
    if upto <= 0 {
        -1
    } else {
        let prev = best_edge(b, p, center, upto - 1);
        if conn_qualifies(b, p, center, upto - 1) && (prev < 0 || conn_dist_sq(b, p, upto - 1)
            < conn_dist_sq(b, p, prev)) {
            upto - 1
        } else {
            prev
        }
    }
}

/// Going through the connections in order finds the closest qualifying edge.
proof fn lemma_best_edge(b: BodyView, p: V2, center: V2, upto: int)
    requires
        upto >= 0,
    ensures
        best_edge(b, p, center, upto) < 0 ==> no_edge_qualifies(b, p, center, upto),
        best_edge(b, p, center, upto) >= 0 ==> is_closest_edge(
            b,
            p,
            center,
            best_edge(b, p, center, upto),
            upto,
        ),
    decreases upto,
{
    if upto > 0 {
        lemma_best_edge(b, p, center, upto - 1);
    }
}

/// Where an edge qualifies, one of them is the closest.
pub proof fn lemma_closest_edge_exists(b: BodyView, p: V2, center: V2)
    requires
        !no_edge_qualifies(b, p, center, b.connections.len() as int),
    ensures
        is_closest_edge(b, p, center, closest_edge(b, p, center), b.connections.len() as int),
{
    lemma_best_edge(b, p, center, b.connections.len() as int);
    let k = best_edge(b, p, center, b.connections.len() as int);
    assert(is_closest_edge(b, p, center, k, b.connections.len() as int));
}

/// What it means that node `k` of `a` has struck `b`: it is inside the outline
/// of `b`, the edge struck is the closest perimeter edge that qualifies, the
/// foot of the perpendicular lies over that edge or just beyond its ends, and
/// the node is closer to the edge than half its rest length.
pub proof fn lemma_hit(a: BodyView, b: BodyView, k: int)
    requires
        collision_hit(a, b, k) is Some,
    ensures
        ({
            let (e, corr, t) = collision_hit(a, b, k)->0;
            let pt = a.nodes[k].read_pos;
            &&& point_inside(b, pt)
            &&& is_closest_edge(b, pt, local_center(a.nodes, k), e, b.connections.len() as int)
            &&& b.connections[e].is_edge
            &&& corr == pt.minus(edge_foot(pt, conn_a(b, e), conn_b(b, e)))
            &&& t == edge_param(pt, conn_a(b, e), conn_b(b, e))
            &&& BAND_LOW <= t <= BAND_HIGH
            &&& 2 * floor_sqrt(corr.len_sq()) < b.connections[e].resting_length
        }),
{
    let pt = a.nodes[k].read_pos;
    let center = local_center(a.nodes, k);
    lemma_closest_edge_exists(b, pt, center);
    let e = closest_edge(b, pt, center);
    assert(conn_qualifies(b, pt, center, e));
    let foot = edge_foot(pt, conn_a(b, e), conn_b(b, e));
    assert(pt.minus(foot).len_sq() == foot.minus(pt).len_sq()) by (nonlinear_arith)
        requires
            pt.minus(foot).len_sq() == (pt.x - foot.x) * (pt.x - foot.x) + (pt.y - foot.y) * (pt.y
                - foot.y),
            foot.minus(pt).len_sq() == (foot.x - pt.x) * (foot.x - pt.x) + (foot.y - pt.y) * (foot.y
                - pt.y),
    ;
}

/// Collisions neither add nodes to a body nor take any away.
pub proof fn lemma_collide_lengths(a: BodyView, b: BodyView, k: int)
    requires
        b.wf(),
        0 <= k <= a.nodes.len(),
    ensures
        collide_upto(a, b, k).0.len() == a.nodes.len(),
        collide_upto(a, b, k).1.len() == b.nodes.len(),
    decreases k,
{
    if k > 0 {
        lemma_collide_lengths(a, b, k - 1);
        if collision_hit(a, b, k - 1) is Some {
            lemma_hit(a, b, k - 1);
            let e = (collision_hit(a, b, k - 1)->0).0;
            assert(b.connections[e].valid_for(b.nodes.len() as int));
        }
    }
}

/// What a strike does. Where node `k` of `a` has struck `b`, its pending
/// position and its velocity go back by the whole correction, and those of the
/// two ends of the edge go forward by their shares of it: `1 - t` for the first
/// end and `t` for the second. No current position changes, and no other node
/// is touched.
pub proof fn lemma_strike(a: BodyView, b: BodyView, k: int)
    requires
        b.wf(),
        0 <= k < a.nodes.len(),
        collision_hit(a, b, k) is Some,
    ensures
        ({
            let (e, corr, t) = collision_hit(a, b, k)->0;
            let before = collide_upto(a, b, k);
            let after = collide_upto(a, b, k + 1);
            let i1 = b.connections[e].i1 as int;
            let i2 = b.connections[e].i2 as int;
            &&& 0 <= e < b.connections.len()
            &&& i1 < b.nodes.len() && i2 < b.nodes.len() && i1 != i2
            &&& after.0.len() == a.nodes.len() && after.1.len() == b.nodes.len()
            &&& after.0[k].vel == before.0[k].vel.minus(corr)
            &&& after.0[k].write_pos == before.0[k].write_pos.minus(corr)
            &&& after.0[k].read_pos == before.0[k].read_pos
            &&& after.1[i1].vel == before.1[i1].vel.plus(corr.times(SCALE - t))
            &&& after.1[i1].write_pos == before.1[i1].write_pos.plus(corr.times(SCALE - t))
            &&& after.1[i1].read_pos == before.1[i1].read_pos
            &&& after.1[i2].vel == before.1[i2].vel.plus(corr.times(t))
            &&& after.1[i2].write_pos == before.1[i2].write_pos.plus(corr.times(t))
            &&& after.1[i2].read_pos == before.1[i2].read_pos
            &&& forall|j: int| 0 <= j < a.nodes.len() && j != k ==> after.0[j] == before.0[j]
            &&& forall|j: int|
                0 <= j < b.nodes.len() && j != i1 && j != i2 ==> after.1[j] == before.1[j]
        }),
{
    lemma_collide_lengths(a, b, k);
    lemma_collide_lengths(a, b, k + 1);
    lemma_hit(a, b, k);
    let e = (collision_hit(a, b, k)->0).0;
    assert(b.connections[e].valid_for(b.nodes.len() as int));
}

} // verus!

//! The data model: nodes, connections, and the body that owns them.

use crate::fixed::{
    lemma_mul_within, lemma_tdiv_shrinks, lemma_tdiv_within, max, min, tdiv, trunc_div, wide_mul,
    within, LIMIT, REACH, SCALE,
};
use crate::trig::{acos, arc_cosine, cos, cosine, sin, sine, ANGLE_MAX, PI, TAU};
use crate::vec2::{Vec2, V2};
use vstd::prelude::*;

verus! {

/// Most connections a body may have.
pub const MAX_CONNECTIONS: usize = 65_535;

/// A point mass. Forces and collisions read `read_pos`; displacement gathers in
/// `write_pos` and is committed once per sub-iteration.
#[derive(Clone, Copy, Debug, PartialEq, Eq, Structural)]
pub struct SBNode {
    pub read_pos: Vec2,
    pub write_pos: Vec2,
    pub vel: Vec2,
}

/// The mathematical value of a node.
pub struct NodeView {
    pub read_pos: V2,
    pub write_pos: V2,
    pub vel: V2,
}

impl View for SBNode {
    type V = NodeView;

    open spec fn view(&self) -> NodeView {
        NodeView { read_pos: self.read_pos@, write_pos: self.write_pos@, vel: self.vel@ }
    }
}

impl NodeView {
    /// Both positions lie within `p` and the velocity within `v`.
    pub open spec fn within(self, p: int, v: int) -> bool {
        self.read_pos.within(p) && self.write_pos.within(p) && self.vel.within(v)
    }
}

impl SBNode {
    /// A node at rest at `pos`.
    pub fn new(pos: Vec2) -> (r: SBNode)
        ensures
            r@ == (NodeView { read_pos: pos@, write_pos: pos@, vel: V2::zero() }),
    {
        SBNode { read_pos: pos, write_pos: pos, vel: Vec2 { x: 0, y: 0 } }
    }

    /// Whether both positions lie within `p` and the velocity within `v`.
    pub fn fits(&self, p: i64, v: i64) -> (r: bool)
        requires
            p >= 0,
            v >= 0,
        ensures
            r == self@.within(p as int, v as int),
    {
        self.read_pos.fits(p) && self.write_pos.fits(p) && self.vel.fits(v)
    }
}

/// A spring between the nodes `i1` and `i2`. One with `is_edge` lies on the
/// outline of the body and takes part in collisions; the others only brace it.
#[derive(Clone, Copy, Debug, PartialEq, Eq, Structural)]
pub struct SBConnection {
    pub i1: usize,
    pub i2: usize,
    pub is_edge: bool,
    pub resting_length: i64,
}

impl SBConnection {
    pub fn new(i1: usize, i2: usize, is_edge: bool, resting_length: i64) -> (r: SBConnection)
        ensures
            r == (SBConnection { i1, i2, is_edge, resting_length }),
    {
        SBConnection { i1, i2, is_edge, resting_length }
    }

    /// The connection joins two different nodes of a body of `n` nodes, and its
    /// rest length is in range.
    pub open spec fn valid_for(self, n: int) -> bool {
        &&& self.i1 < n
        &&& self.i2 < n
        &&& self.i1 != self.i2
        &&& 0 <= self.resting_length <= LIMIT
    }

    /// Whether the connection is valid for a body of `n` nodes.
    pub fn is_valid_for(&self, n: usize) -> (r: bool)
        ensures
            r == self.valid_for(n as int),
    {
        self.i1 < n && self.i2 < n && self.i1 != self.i2 && 0 <= self.resting_length
            && self.resting_length <= LIMIT
    }
}

/// An axis-aligned box.
#[derive(Clone, Copy, Debug, PartialEq, Eq, Structural)]
pub struct BoundingBox {
    pub min_pos: Vec2,
    pub max_pos: Vec2,
}

/// The mathematical value of a bounding box.
pub struct BoxView {
    pub min_pos: V2,
    pub max_pos: V2,
}

impl View for BoundingBox {
    type V = BoxView;

    open spec fn view(&self) -> BoxView {
        BoxView { min_pos: self.min_pos@, max_pos: self.max_pos@ }
    }
}

impl BoundingBox {
    pub fn zero() -> (r: BoundingBox)
        ensures
            r@ == (BoxView { min_pos: V2::zero(), max_pos: V2::zero() }),
    {
        BoundingBox { min_pos: Vec2 { x: 0, y: 0 }, max_pos: Vec2 { x: 0, y: 0 } }
    }
}

/// A squared distance together with the index of the node it was measured to.
#[derive(Clone, Copy, Debug, PartialEq, Eq, Structural)]
pub struct DistIndex {
    pub dist: i128,
    pub index: usize,
}

impl DistIndex {
    pub fn new(dist: i128, index: usize) -> (r: DistIndex)
        ensures
            r == (DistIndex { dist, index }),
    {
        DistIndex { dist, index }
    }
}

/// A soft body.
#[derive(Clone, Debug)]
pub struct SB {
    pub nodes: Vec<SBNode>,
    pub connections: Vec<SBConnection>,
    /// Offset of each node from the centroid when the body was made.
    pub base_skeleton: Vec<Vec2>,
    /// The same offsets scaled to length one.
    pub base_skeleton_norm: Vec<Vec2>,
    /// Where the rigid shape, turned by `angle` about `center`, puts each node.
    pub skeleton: Vec<Vec2>,
    pub node_num: u8,
    pub bounding_box: BoundingBox,
    pub center: Vec2,
    pub angle: i64,
}

/// The mathematical value of a body.
pub struct BodyView {
    pub nodes: Seq<NodeView>,
    pub connections: Seq<SBConnection>,
    pub base_skeleton: Seq<V2>,
    pub base_skeleton_norm: Seq<V2>,
    pub skeleton: Seq<V2>,
    pub bounding_box: BoxView,
    pub center: V2,
    pub angle: int,
}

/// The mathematical values of the nodes of a body.
pub open spec fn node_views(s: Seq<SBNode>) -> Seq<NodeView> {
    Seq::new(s.len(), |i: int| s[i]@)
}

/// The mathematical values of a list of vectors.
pub open spec fn vec_views(s: Seq<Vec2>) -> Seq<V2> {
    Seq::new(s.len(), |i: int| s[i]@)
}

impl View for SB {
    type V = BodyView;

    open spec fn view(&self) -> BodyView {
        BodyView {
            nodes: node_views(self.nodes@),
            connections: self.connections@,
            base_skeleton: vec_views(self.base_skeleton@),
            base_skeleton_norm: vec_views(self.base_skeleton_norm@),
            skeleton: vec_views(self.skeleton@),
            bounding_box: self.bounding_box@,
            center: self.center@,
            angle: self.angle as int,
        }
    }
}

/// Every node of `nodes` has its positions within `p` and its velocity within `v`.
pub open spec fn nodes_within(nodes: Seq<NodeView>, p: int, v: int) -> bool {
    forall|i: int| 0 <= i < nodes.len() ==> (#[trigger] nodes[i]).within(p, v)
}

/// Every vector of `vs` lies within `b`.
pub open spec fn all_within(vs: Seq<V2>, b: int) -> bool {
    forall|i: int| 0 <= i < vs.len() ==> (#[trigger] vs[i]).within(b)
}

/// Every node of `nodes` has its current position within `p`.
pub open spec fn reads_within(nodes: Seq<NodeView>, p: int) -> bool {
    forall|i: int| 0 <= i < nodes.len() ==> (#[trigger] nodes[i]).read_pos.within(p)
}

/// Every node of `nodes` has its pending position and its velocity within `w`.
pub open spec fn pending_within(nodes: Seq<NodeView>, w: int) -> bool {
    forall|i: int|
        0 <= i < nodes.len() ==> (#[trigger] nodes[i]).write_pos.within(w) && nodes[i].vel.within(w)
}

/// Every connection of `cs` is valid for a body of `n` nodes.
pub open spec fn connections_valid(cs: Seq<SBConnection>, n: int) -> bool {
    forall|k: int| 0 <= k < cs.len() ==> (#[trigger] cs[k]).valid_for(n)
}

impl BodyView {
    /// The shape of the body is sound: at least one node, one skeleton entry per
    /// node, valid connections, and rest offsets in range. No step changes any
    /// of this.
    pub open spec fn wf(self) -> bool {
        &&& 1 <= self.nodes.len() <= 255
        &&& self.base_skeleton.len() == self.nodes.len()
        &&& self.base_skeleton_norm.len() == self.nodes.len()
        &&& self.skeleton.len() == self.nodes.len()
        &&& self.connections.len() <= MAX_CONNECTIONS
        &&& connections_valid(self.connections, self.nodes.len() as int)
        &&& all_within(self.base_skeleton, 2 * LIMIT)
    }

    /// The positions of the nodes are within `p` and their velocities within
    /// `v`; the skeleton, the centre and the angle, which each step derives anew,
    /// are within the widest range the arithmetic is proved for.
    pub open spec fn within(self, p: int, v: int) -> bool {
        &&& nodes_within(self.nodes, p, v)
        &&& all_within(self.skeleton, REACH as int)
        &&& self.center.within(REACH as int)
        &&& within(self.angle, ANGLE_MAX as int)
    }

    /// The nodes are within `LIMIT`: a step may begin.
    pub open spec fn in_range(self) -> bool {
        self.within(LIMIT as int, LIMIT as int)
    }
}

/// Sum of the read positions of the first `k` nodes.
pub open spec fn sum_read(nodes: Seq<NodeView>, k: int) -> V2
    decreases k,
{
    if k <= 0 {
        V2::zero()
    } else {
        sum_read(nodes, k - 1).plus(nodes[k - 1].read_pos)
    }
}

/// Arithmetic mean of the read positions.
pub open spec fn centroid(nodes: Seq<NodeView>) -> V2 {
    sum_read(nodes, nodes.len() as int).over(nodes.len() as int)
}

/// The rest offsets turned by `angle` and moved to `center`.
pub open spec fn skeleton_of(base: Seq<V2>, angle: int, center: V2) -> Seq<V2> {
    Seq::new(base.len(), |i: int| base[i].rotated(cosine(angle), sine(angle)).plus(center))
}

/// The sum of `k` positions within `p` lies within `k * p`.
pub proof fn lemma_sum_read_within(nodes: Seq<NodeView>, k: int, p: int)
    requires
        0 <= k <= nodes.len(),
        p >= 0,
        forall|i: int| 0 <= i < nodes.len() ==> (#[trigger] nodes[i]).read_pos.within(p),
    ensures
        sum_read(nodes, k).within(k * p),
    decreases k,
{
    if k > 0 {
        lemma_sum_read_within(nodes, k - 1, p);
        assert(nodes[k - 1].read_pos.within(p));
        assert((k - 1) * p + p == k * p) by (nonlinear_arith);
    } else {
        assert(0 * p == 0);
    }
}

/// The mean of positions within `p` lies within `p`.
pub proof fn lemma_centroid_within(nodes: Seq<NodeView>, p: int)
    requires
        nodes.len() >= 1,
        p >= 0,
        forall|i: int| 0 <= i < nodes.len() ==> (#[trigger] nodes[i]).read_pos.within(p),
    ensures
        centroid(nodes).within(p),
{
    let n = nodes.len() as int;
    lemma_sum_read_within(nodes, n, p);
    assert(n * p == p * n) by (nonlinear_arith);
    lemma_tdiv_within(sum_read(nodes, n).x, n, p);
    lemma_tdiv_within(sum_read(nodes, n).y, n, p);
}

/// Turning a vector within `b` by any angle leaves it within `2 b`.
pub proof fn lemma_rotated_within(v: V2, c: int, s: int, b: int)
    requires
        v.within(b),
        within(c, SCALE as int),
        within(s, SCALE as int),
        b >= 0,
    ensures
        v.rotated(c, s).within(2 * b),
{
    lemma_mul_within(v.x, c, b, SCALE as int);
    lemma_mul_within(v.y, s, b, SCALE as int);
    lemma_mul_within(v.x, s, b, SCALE as int);
    lemma_mul_within(v.y, c, b, SCALE as int);
    assert((2 * b) * SCALE == 2 * (b * SCALE)) by (nonlinear_arith);
    lemma_tdiv_within(v.x * c - v.y * s, SCALE as int, 2 * b);
    lemma_tdiv_within(v.x * s + v.y * c, SCALE as int, 2 * b);
}

/// The vector `vec` turned by `angle`.
pub fn vec_rotate(vec: &Vec2, angle: i64) -> (r: Vec2)
    requires
        vec@.within(REACH as int),
        within(angle as int, ANGLE_MAX as int),
    ensures
        r@ == vec@.rotated(cosine(angle as int), sine(angle as int)),
        forall|b: int| 0 <= b && vec@.within(b) ==> r@.within(2 * b),
{
    let cos_angle: i64 = cos(angle);
    let sin_angle: i64 = sin(angle);
    proof {
        lemma_mul_within(vec.x as int, cos_angle as int, REACH as int, SCALE as int);
        lemma_mul_within(vec.y as int, sin_angle as int, REACH as int, SCALE as int);
        lemma_mul_within(vec.x as int, sin_angle as int, REACH as int, SCALE as int);
        lemma_mul_within(vec.y as int, cos_angle as int, REACH as int, SCALE as int);
        lemma_rotated_within(vec@, cos_angle as int, sin_angle as int, REACH as int);
        assert forall|b: int| 0 <= b && vec@.within(b) implies vec@.rotated(
            cos_angle as int,
            sin_angle as int,
        ).within(2 * b) by {
            lemma_rotated_within(vec@, cos_angle as int, sin_angle as int, b);
        }
    }
    let x_rot: i128 = trunc_div(
        wide_mul(vec.x, cos_angle) - wide_mul(vec.y, sin_angle),
        SCALE as i128,
    );
    let y_rot: i128 = trunc_div(
        wide_mul(vec.x, sin_angle) + wide_mul(vec.y, cos_angle),
        SCALE as i128,
    );
    Vec2 { x: x_rot as i64, y: y_rot as i64 }
}

/// Smallest box that holds the read positions of the first `k` nodes.
pub open spec fn hull(nodes: Seq<NodeView>, k: int) -> BoxView
    decreases k,
{
    if k <= 1 {
        BoxView { min_pos: nodes[0].read_pos, max_pos: nodes[0].read_pos }
    } else {
        let h = hull(nodes, k - 1);
        let p = nodes[k - 1].read_pos;
        BoxView {
            min_pos: V2 { x: min(h.min_pos.x, p.x), y: min(h.min_pos.y, p.y) },
            max_pos: V2 { x: max(h.max_pos.x, p.x), y: max(h.max_pos.y, p.y) },
        }
    }
}

/// The box `b` grown by `r` on all four sides.
pub open spec fn padded(b: BoxView, r: int) -> BoxView {
    BoxView {
        min_pos: V2 { x: b.min_pos.x - r, y: b.min_pos.y - r },
        max_pos: V2 { x: b.max_pos.x + r, y: b.max_pos.y + r },
    }
}

/// The bounding box of a body: the hull of its read positions, padded by the
/// radius of a node.
pub open spec fn bounding_box_of(nodes: Seq<NodeView>, radius: int) -> BoxView {
    padded(hull(nodes, nodes.len() as int), radius)
}

/// The hull holds each of the nodes it was taken over, and each of its four
/// sides touches one of them.
pub proof fn lemma_hull_tight(nodes: Seq<NodeView>, k: int)
    requires
        1 <= k <= nodes.len(),
    ensures
        forall|i: int|
            0 <= i < k ==> {
                let p = (#[trigger] nodes[i]).read_pos;
                let h = hull(nodes, k);
                h.min_pos.x <= p.x <= h.max_pos.x && h.min_pos.y <= p.y <= h.max_pos.y
            },
        exists|i: int| 0 <= i < k && (#[trigger] nodes[i]).read_pos.x == hull(nodes, k).min_pos.x,
        exists|i: int| 0 <= i < k && (#[trigger] nodes[i]).read_pos.x == hull(nodes, k).max_pos.x,
        exists|i: int| 0 <= i < k && (#[trigger] nodes[i]).read_pos.y == hull(nodes, k).min_pos.y,
        exists|i: int| 0 <= i < k && (#[trigger] nodes[i]).read_pos.y == hull(nodes, k).max_pos.y,
    decreases k,
{
    if k > 1 {
        lemma_hull_tight(nodes, k - 1);
        let h0 = hull(nodes, k - 1);
        let h = hull(nodes, k);
        let p = nodes[k - 1].read_pos;
        let a = choose|i: int| 0 <= i < k - 1 && (#[trigger] nodes[i]).read_pos.x == h0.min_pos.x;
        let b = choose|i: int| 0 <= i < k - 1 && (#[trigger] nodes[i]).read_pos.x == h0.max_pos.x;
        let c = choose|i: int| 0 <= i < k - 1 && (#[trigger] nodes[i]).read_pos.y == h0.min_pos.y;
        let d = choose|i: int| 0 <= i < k - 1 && (#[trigger] nodes[i]).read_pos.y == h0.max_pos.y;
        let a1 = if p.x <= h0.min_pos.x { k - 1 } else { a };
        let b1 = if p.x >= h0.max_pos.x { k - 1 } else { b };
        let c1 = if p.y <= h0.min_pos.y { k - 1 } else { c };
        let d1 = if p.y >= h0.max_pos.y { k - 1 } else { d };
        assert(nodes[a1].read_pos.x == h.min_pos.x);
        assert(nodes[b1].read_pos.x == h.max_pos.x);
        assert(nodes[c1].read_pos.y == h.min_pos.y);
        assert(nodes[d1].read_pos.y == h.max_pos.y);
    } else {
        assert(nodes[0].read_pos.x == hull(nodes, k).min_pos.x);
    }
}

/// Angle by which node `pos` has turned about `center` away from its rest offset
/// `base`, measured in `[0, TAU]`.
pub open spec fn raw_angle(pos: V2, center: V2, base: V2) -> int {
    let offset = pos.minus(center);
    let theta = arc_cosine(offset.cos_between(base));
    if offset.cross_raw(base) < 0 {
        theta
    } else {
        TAU - theta
    }
}

/// Adds the share of one node to the running mean of the angles. An angle more
/// than half a turn ahead of the mean is taken as the turn backward that ends
/// in the same direction.
pub open spec fn unwrap_step(average: int, angle: int, n: int) -> int {
    if angle - average < PI {
        average + tdiv(angle, n)
    } else {
        average - tdiv(TAU - angle, n)
    }
}

/// The running mean of the angles after the first `k` nodes.
pub open spec fn angle_upto(nodes: Seq<NodeView>, center: V2, base: Seq<V2>, k: int) -> int
    decreases k,
{
    if k <= 0 {
        0
    } else {
        unwrap_step(
            angle_upto(nodes, center, base, k - 1),
            raw_angle(nodes[k - 1].read_pos, center, base[k - 1]),
            nodes.len() as int,
        )
    }
}

/// Orientation of the body against its rest pose.
pub open spec fn angle_of(nodes: Seq<NodeView>, center: V2, base: Seq<V2>) -> int {
    angle_upto(nodes, center, base, nodes.len() as int)
}

/// A body in its rest pose, moved but not turned, is found unturned: where every
/// node is at its rest offset from the centre, the angle is zero.
pub proof fn lemma_rest_pose_unturned(nodes: Seq<NodeView>, center: V2, base: Seq<V2>, k: int)
    requires
        0 <= k <= nodes.len(),
        nodes.len() == base.len(),
        forall|i: int|
            0 <= i < nodes.len() ==> (#[trigger] nodes[i]).read_pos.minus(center) == base[i]
                && !base[i].is_zero(),
    ensures
        angle_upto(nodes, center, base, k) == 0,
    decreases k,
{
    if k > 0 {
        lemma_rest_pose_unturned(nodes, center, base, k - 1);
        let b = base[k - 1];
        assert(nodes[k - 1].read_pos.minus(center) == b);
        crate::vec2::lemma_cos_with_itself(b);
        crate::trig::lemma_arc_cosine_of_one(b.cos_between(b));
        assert(b.cross_raw(b) == 0) by (nonlinear_arith)
            requires
                b.cross_raw(b) == b.x * b.y - b.y * b.x,
        ;
        assert(raw_angle(nodes[k - 1].read_pos, center, b) == TAU);
        assert(tdiv(0, nodes.len() as int) == 0) by (nonlinear_arith)
            requires
                nodes.len() >= 1,
                tdiv(0, nodes.len() as int) == 0int / (nodes.len() as int),
        ;
    }
}

/// The body that `SB::new` makes of `nodes` and `connections`: centred on the
/// mean of the nodes, its rest shape their offsets from it, unturned, its
/// skeleton placed, and its bounding box not yet taken.
pub open spec fn made_from(nodes: Seq<NodeView>, connections: Seq<SBConnection>) -> BodyView {
    let center = centroid(nodes);
    let base = Seq::new(nodes.len(), |i: int| nodes[i].read_pos.minus(center));
    BodyView {
        nodes,
        connections,
        base_skeleton: base,
        base_skeleton_norm: Seq::new(nodes.len(), |i: int| base[i].unit()),
        skeleton: skeleton_of(base, 0, center),
        bounding_box: BoxView { min_pos: V2::zero(), max_pos: V2::zero() },
        center,
        angle: 0,
    }
}

/// Sum of the first `k` vectors.
pub open spec fn sum_vecs(vs: Seq<V2>, k: int) -> V2
    decreases k,
{
    if k <= 0 {
        V2::zero()
    } else {
        sum_vecs(vs, k - 1).plus(vs[k - 1])
    }
}

/// The normalised rest offsets are of unit length: none is longer than one, and
/// each, but that of a node on the centroid, is shorter by less than three raw
/// units.
pub proof fn lemma_made_norms_unit(nodes: Seq<NodeView>, connections: Seq<SBConnection>, i: int)
    requires
        0 <= i < nodes.len(),
    ensures
        made_from(nodes, connections).base_skeleton_norm[i].len_sq() <= SCALE * SCALE,
        !made_from(nodes, connections).base_skeleton[i].is_zero() ==> made_from(
            nodes,
            connections,
        ).base_skeleton_norm[i].len_sq() >= (SCALE - 3) * (SCALE - 3),
{
    let base = made_from(nodes, connections).base_skeleton[i];
    if base.is_zero() {
        assert(V2::zero().len_sq() == 0) by (nonlinear_arith)
            requires
                V2::zero().len_sq() == 0int * 0int + 0int * 0int,
        ;
    } else {
        crate::vec2::lemma_unit_length(base);
    }
}

/// The rest offsets balance about the centroid: they add up to what the mean
/// has lost in rounding, which is less than one raw unit for each node.
pub proof fn lemma_offsets_balance(nodes: Seq<NodeView>, connections: Seq<SBConnection>)
    requires
        nodes.len() >= 1,
    ensures
        sum_vecs(made_from(nodes, connections).base_skeleton, nodes.len() as int).within(
            nodes.len() - 1,
        ),
{
    let n = nodes.len() as int;
    let center = centroid(nodes);
    let base = made_from(nodes, connections).base_skeleton;
    lemma_offsets_sum(nodes, base, center, n);
    let total = sum_read(nodes, n);
    lemma_remainder_small(total.x, n);
    lemma_remainder_small(total.y, n);
}

/// The first `k` offsets add up to the first `k` positions less `k` times the
/// centre.
proof fn lemma_offsets_sum(nodes: Seq<NodeView>, base: Seq<V2>, center: V2, k: int)
    requires
        0 <= k <= nodes.len(),
        base.len() == nodes.len(),
        forall|i: int| 0 <= i < nodes.len() ==> (#[trigger] base[i]) == nodes[i].read_pos.minus(center),
    ensures
        sum_vecs(base, k).x == sum_read(nodes, k).x - k * center.x,
        sum_vecs(base, k).y == sum_read(nodes, k).y - k * center.y,
    decreases k,
{
    if k > 0 {
        lemma_offsets_sum(nodes, base, center, k - 1);
        assert(base[k - 1] == nodes[k - 1].read_pos.minus(center));
        assert(k * center.x == (k - 1) * center.x + center.x) by (nonlinear_arith);
        assert(k * center.y == (k - 1) * center.y + center.y) by (nonlinear_arith);
    } else {
        assert(0 * center.x == 0 && 0 * center.y == 0);
    }
}

/// What a quotient rounded toward zero loses is less than the divisor.
proof fn lemma_remainder_small(a: int, d: int)
    requires
        d >= 1,
    ensures
        within(a - d * tdiv(a, d), d - 1),
{
    if a >= 0 {
        assert(0 <= a - d * (a / d) <= d - 1) by (nonlinear_arith)
            requires
                a >= 0,
                d >= 1,
        ;
    } else {
        assert(0 <= (-a) - d * ((-a) / d) <= d - 1) by (nonlinear_arith)
            requires
                -a >= 0,
                d >= 1,
        ;
        assert(d * (-((-a) / d)) == -(d * ((-a) / d))) by (nonlinear_arith);
    }
}

/// A body begins in its rest pose: its skeleton lies exactly on its nodes.
pub proof fn lemma_made_in_rest_pose(nodes: Seq<NodeView>, connections: Seq<SBConnection>)
    ensures
        made_from(nodes, connections).skeleton.len() == nodes.len(),
        forall|i: int|
            0 <= i < nodes.len() ==> (#[trigger] made_from(nodes, connections).skeleton[i])
                == nodes[i].read_pos,
{
    crate::trig::lemma_no_turn();
    let center = centroid(nodes);
    assert forall|i: int| 0 <= i < nodes.len() implies (#[trigger] made_from(
        nodes,
        connections,
    ).skeleton[i]) == nodes[i].read_pos by {
        crate::vec2::lemma_unturned(nodes[i].read_pos.minus(center));
    }
}

/// What `SB::new` accepts: between 1 and 255 nodes within `LIMIT`, and valid
/// connections.
pub open spec fn parts_valid(nodes: Seq<SBNode>, connections: Seq<SBConnection>) -> bool {
    &&& 1 <= nodes.len() <= 255
    &&& connections.len() <= MAX_CONNECTIONS
    &&& connections_valid(connections, nodes.len() as int)
    &&& nodes_within(node_views(nodes), LIMIT as int, LIMIT as int)
}

/// Arithmetic mean of the read positions of `nodes`.
pub fn center_of(nodes: &Vec<SBNode>) -> (r: Vec2)
    requires
        1 <= nodes.len() <= 255,
        nodes_within(node_views(nodes@), REACH as int, REACH as int),
    ensures
        r@ == centroid(node_views(nodes@)),
        forall|p: int|
            0 <= p && nodes_within(node_views(nodes@), p, REACH as int) ==> r@.within(p),
{
    let n: usize = nodes.len();
    let ghost views = node_views(nodes@);
    let mut sum_x: i64 = 0;
    let mut sum_y: i64 = 0;
    let mut i: usize = 0;
    while i < n
        invariant
            n == nodes.len(),
            n <= 255,
            0 <= i <= n,
            views == node_views(nodes@),
            nodes_within(views, REACH as int, REACH as int),
            sum_read(views, i as int) == (V2 { x: sum_x as int, y: sum_y as int }),
            within(sum_x as int, i * REACH),
            within(sum_y as int, i * REACH),
        decreases n - i,
    {
        let p: Vec2 = nodes[i].read_pos;
        proof {
            assert(views[i as int].within(REACH as int, REACH as int));
            assert(views[i as int].read_pos == p@);
        }
        sum_x = sum_x + p.x;
        sum_y = sum_y + p.y;
        i = i + 1;
    }
    proof {
        assert forall|p: int| 0 <= p && nodes_within(views, p, REACH as int) implies centroid(
            views,
        ).within(p) by {
            assert forall|k: int| 0 <= k < views.len() implies (#[trigger] views[k]).read_pos.within(
                p,
            ) by {
                assert(views[k].within(p, REACH as int));
            }
            lemma_centroid_within(views, p);
        }
        assert(centroid(views).within(REACH as int));
    }
    let x: i128 = trunc_div(sum_x as i128, n as i128);
    let y: i128 = trunc_div(sum_y as i128, n as i128);
    Vec2 { x: x as i64, y: y as i64 }
}

/// Angle by which one node has turned about the centre, in `[0, TAU]`.
fn raw_angle_exec(pos: Vec2, center: Vec2, base: Vec2) -> (r: i64)
    requires
        pos@.within(REACH as int),
        center@.within(REACH as int),
        base@.within(REACH as int),
    ensures
        r == raw_angle(pos@, center@, base@),
        0 <= r <= TAU,
{
    let offset: Vec2 = pos.minus(center);
    let dot: i64 = offset.cos_between(base);
    let cross: i128 = offset.cross_raw(base);
    let theta: i64 = acos(dot);
    if cross < 0 {
        theta
    } else {
        TAU - theta
    }
}

impl SB {
    /// The body is sound in shape, and `node_num` counts its nodes.
    pub open spec fn wf(&self) -> bool {
        self@.wf() && self.node_num as int == self.nodes.len()
    }

    /// Whether `nodes` and `connections` can make a body.
    pub fn can_build(nodes: &Vec<SBNode>, connections: &Vec<SBConnection>) -> (r: bool)
        ensures
            r == parts_valid(nodes@, connections@),
    {
        let n: usize = nodes.len();
        if n < 1 || n > 255 || connections.len() > MAX_CONNECTIONS {
            return false;
        }
        let mut i: usize = 0;
        while i < n
            invariant
                n == nodes.len(),
                0 <= i <= n,
                forall|j: int|
                    0 <= j < i ==> (#[trigger] node_views(nodes@)[j]).within(
                        LIMIT as int,
                        LIMIT as int,
                    ),
            decreases n - i,
        {
            if !nodes[i].fits(LIMIT, LIMIT) {
                proof {
                    assert(!node_views(nodes@)[i as int].within(LIMIT as int, LIMIT as int));
                }
                return false;
            }
            i = i + 1;
        }
        let mut k: usize = 0;
        while k < connections.len()
            invariant
                n == nodes.len(),
                0 <= k <= connections.len(),
                forall|j: int| 0 <= j < k ==> (#[trigger] connections@[j]).valid_for(n as int),
            decreases connections.len() - k,
        {
            if !connections[k].is_valid_for(n) {
                return false;
            }
            k = k + 1;
        }
        true
    }

    /// A body made of `nodes` joined by `connections`. Its rest shape is the
    /// offset of each node from their centroid; it starts unturned, with its
    /// skeleton placed on the centroid.
    pub fn new(nodes: &Vec<SBNode>, connections: &Vec<SBConnection>) -> (sb: SB)
        requires
            parts_valid(nodes@, connections@),
        ensures
            sb.wf(),
            sb@.in_range(),
            sb@ == made_from(node_views(nodes@), connections@),
            forall|i: int|
                0 <= i < nodes.len() ==> (#[trigger] sb@.skeleton[i]) == sb@.nodes[i].read_pos,
            forall|i: int|
                0 <= i < nodes.len() ==> (#[trigger] sb@.base_skeleton_norm[i]).len_sq() <= SCALE
                    * SCALE && (!sb@.base_skeleton[i].is_zero() ==> sb@.base_skeleton_norm[i].len_sq()
                    >= (SCALE - 3) * (SCALE - 3)),
            sum_vecs(sb@.base_skeleton, nodes.len() as int).within(nodes.len() - 1),
    {
        let n: usize = nodes.len();
        let ghost views = node_views(nodes@);
        proof {
            lemma_made_in_rest_pose(views, connections@);
            lemma_offsets_balance(views, connections@);
            assert forall|i: int| 0 <= i < nodes.len() implies (#[trigger] made_from(
                views,
                connections@,
            ).base_skeleton_norm[i]).len_sq() <= SCALE * SCALE && (!made_from(
                views,
                connections@,
            ).base_skeleton[i].is_zero() ==> made_from(
                views,
                connections@,
            ).base_skeleton_norm[i].len_sq() >= (SCALE - 3) * (SCALE - 3)) by {
                lemma_made_norms_unit(views, connections@, i);
            }
        }
        proof {
            assert forall|i: int| 0 <= i < views.len() implies (#[trigger] views[i]).within(
                REACH as int,
                REACH as int,
            ) by {
                assert(views[i].within(LIMIT as int, LIMIT as int));
            }
        }
        let center: Vec2 = center_of(nodes);
        let mut own_nodes: Vec<SBNode> = Vec::new();
        let mut base_skeleton: Vec<Vec2> = Vec::new();
        let mut base_skeleton_norm: Vec<Vec2> = Vec::new();
        let mut skeleton: Vec<Vec2> = Vec::new();
        let mut i: usize = 0;
        while i < n
            invariant
                n == nodes.len(),
                0 <= i <= n,
                views == node_views(nodes@),
                nodes_within(views, LIMIT as int, LIMIT as int),
                center@.within(LIMIT as int),
                own_nodes.len() == i,
                base_skeleton.len() == i,
                base_skeleton_norm.len() == i,
                skeleton.len() == i,
                forall|j: int| 0 <= j < i ==> (#[trigger] own_nodes[j]) == nodes[j],
                forall|j: int|
                    0 <= j < i ==> (#[trigger] base_skeleton[j])@ == views[j].read_pos.minus(
                        center@,
                    ),
                forall|j: int|
                    0 <= j < i ==> (#[trigger] base_skeleton_norm[j])@ == base_skeleton[j]@.unit(),
            decreases n - i,
        {
            let node: SBNode = nodes[i];
            proof {
                assert(views[i as int].within(LIMIT as int, LIMIT as int));
                assert(views[i as int] == node@);
            }
            let offset: Vec2 = node.read_pos.minus(center);
            own_nodes.push(node);
            base_skeleton.push(offset);
            base_skeleton_norm.push(offset.normalize());
            skeleton.push(Vec2 { x: 0, y: 0 });
            i = i + 1;
        }
        let mut own_connections: Vec<SBConnection> = Vec::new();
        let mut k: usize = 0;
        while k < connections.len()
            invariant
                0 <= k <= connections.len(),
                own_connections.len() == k,
                forall|j: int| 0 <= j < k ==> (#[trigger] own_connections[j]) == connections[j],
            decreases connections.len() - k,
        {
            own_connections.push(connections[k]);
            k = k + 1;
        }
        proof {
            assert(own_connections@ =~= connections@);
            assert(own_nodes@ =~= nodes@);
        }
        let mut sb: SB = SB {
            nodes: own_nodes,
            connections: own_connections,
            base_skeleton,
            base_skeleton_norm,
            skeleton,
            node_num: n as u8,
            bounding_box: BoundingBox::zero(),
            center,
            angle: 0,
        };
        let ghost before = sb@;
        proof {
            assert(before.nodes =~= views);
            assert forall|j: int| 0 <= j < before.base_skeleton.len() implies (
            #[trigger] before.base_skeleton[j]).within(2 * LIMIT) by {
                assert(views[j].within(LIMIT as int, LIMIT as int));
                assert(sb.base_skeleton[j]@ == views[j].read_pos.minus(center@));
            }
            assert forall|j: int| 0 <= j < nodes.len() implies (#[trigger] before.base_skeleton_norm[j])
                == before.base_skeleton[j].unit() by {
                assert(sb.base_skeleton_norm[j]@ == sb.base_skeleton[j]@.unit());
            }
            assert forall|j: int| 0 <= j < nodes.len() implies (#[trigger] before.base_skeleton[j])
                == before.nodes[j].read_pos.minus(before.center) by {
                assert(sb.base_skeleton[j]@ == views[j].read_pos.minus(center@));
            }
        }
        sb.update_skeleton();
        proof {
            let want = made_from(views, connections@);
            assert(sb@.base_skeleton =~= want.base_skeleton);
            assert(sb@.base_skeleton_norm =~= want.base_skeleton_norm);
            assert(sb@.skeleton =~= want.skeleton);
            assert(all_within(sb@.skeleton, LIMIT + 4 * LIMIT));
            assert forall|j: int| 0 <= j < sb@.skeleton.len() implies (#[trigger] sb@.skeleton[j]).within(
                REACH as int,
            ) by {
                assert(sb@.skeleton[j].within(LIMIT + 4 * LIMIT));
            }
        }
        sb
    }

    /// Whether the body is sound in shape.
    pub fn is_wf(&self) -> (r: bool)
        ensures
            r == self.wf(),
    {
        let n: usize = self.nodes.len();
        if n < 1 || n > 255 || self.node_num as usize != n || self.base_skeleton.len() != n
            || self.base_skeleton_norm.len() != n || self.skeleton.len() != n
            || self.connections.len() > MAX_CONNECTIONS {
            return false;
        }
        let mut k: usize = 0;
        while k < self.connections.len()
            invariant
                n == self.nodes.len(),
                0 <= k <= self.connections.len(),
                forall|j: int|
                    0 <= j < k ==> (#[trigger] self.connections@[j]).valid_for(n as int),
            decreases self.connections.len() - k,
        {
            if !self.connections[k].is_valid_for(n) {
                return false;
            }
            k = k + 1;
        }
        let mut i: usize = 0;
        while i < n
            invariant
                n == self.base_skeleton.len(),
                0 <= i <= n,
                forall|j: int| 0 <= j < i ==> (#[trigger] self@.base_skeleton[j]).within(2 * LIMIT),
            decreases n - i,
        {
            if !self.base_skeleton[i].fits(2 * LIMIT) {
                proof {
                    assert(!self@.base_skeleton[i as int].within(2 * LIMIT));
                }
                return false;
            }
            i = i + 1;
        }
        true
    }

    /// Whether the nodes are within `p` and `v`, and the skeleton, the centre and
    /// the angle within the widest range.
    pub fn is_within(&self, p: i64, v: i64) -> (r: bool)
        requires
            p >= 0,
            v >= 0,
        ensures
            r == self@.within(p as int, v as int),
    {
        if !self.center.fits(REACH) || self.angle < -ANGLE_MAX || self.angle > ANGLE_MAX {
            return false;
        }
        let mut i: usize = 0;
        while i < self.nodes.len()
            invariant
                p >= 0,
                v >= 0,
                0 <= i <= self.nodes.len(),
                forall|j: int|
                    0 <= j < i ==> (#[trigger] self@.nodes[j]).within(p as int, v as int),
            decreases self.nodes.len() - i,
        {
            if !self.nodes[i].fits(p, v) {
                proof {
                    assert(!self@.nodes[i as int].within(p as int, v as int));
                }
                return false;
            }
            i = i + 1;
        }
        let mut k: usize = 0;
        while k < self.skeleton.len()
            invariant
                0 <= k <= self.skeleton.len(),
                forall|j: int| 0 <= j < k ==> (#[trigger] self@.skeleton[j]).within(REACH as int),
            decreases self.skeleton.len() - k,
        {
            if !self.skeleton[k].fits(REACH) {
                proof {
                    assert(!self@.skeleton[k as int].within(REACH as int));
                }
                return false;
            }
            k = k + 1;
        }
        true
    }

    /// Whether every current position is within `p`.
    pub fn reads_fit(&self, p: i64) -> (r: bool)
        requires
            p >= 0,
        ensures
            r == reads_within(self@.nodes, p as int),
    {
        let mut i: usize = 0;
        while i < self.nodes.len()
            invariant
                p >= 0,
                0 <= i <= self.nodes.len(),
                forall|j: int| 0 <= j < i ==> (#[trigger] self@.nodes[j]).read_pos.within(p as int),
            decreases self.nodes.len() - i,
        {
            if !self.nodes[i].read_pos.fits(p) {
                proof {
                    assert(!self@.nodes[i as int].read_pos.within(p as int));
                }
                return false;
            }
            i = i + 1;
        }
        true
    }

    /// Whether every pending position and velocity is within `w`.
    pub fn pending_fits(&self, w: i64) -> (r: bool)
        requires
            w >= 0,
        ensures
            r == pending_within(self@.nodes, w as int),
    {
        let mut i: usize = 0;
        while i < self.nodes.len()
            invariant
                w >= 0,
                0 <= i <= self.nodes.len(),
                forall|j: int|
                    0 <= j < i ==> (#[trigger] self@.nodes[j]).write_pos.within(w as int)
                        && self@.nodes[j].vel.within(w as int),
            decreases self.nodes.len() - i,
        {
            if !self.nodes[i].write_pos.fits(w) || !self.nodes[i].vel.fits(w) {
                proof {
                    assert(!(self@.nodes[i as int].write_pos.within(w as int)
                        && self@.nodes[i as int].vel.within(w as int)));
                }
                return false;
            }
            i = i + 1;
        }
        true
    }

    /// Whether a step may begin: the nodes are within `LIMIT`.
    pub fn is_in_range(&self) -> (r: bool)
        ensures
            r == self@.in_range(),
    {
        self.is_within(LIMIT, LIMIT)
    }

    /// Arithmetic mean of the read positions.
    pub fn get_center(&self) -> (r: Vec2)
        requires
            self.wf(),
            self@.within(REACH as int, REACH as int),
        ensures
            r@ == centroid(self@.nodes),
            forall|p: int| 0 <= p && nodes_within(self@.nodes, p, REACH as int) ==> r@.within(p),
    {
        center_of(&self.nodes)
    }

    /// Orientation of the body against its rest pose: the mean, over the nodes,
    /// of the angle by which each has turned about the centre.
    pub fn get_angle(&self) -> (r: i64)
        requires
            self.wf(),
            self@.within(REACH as int, REACH as int),
        ensures
            r == angle_of(self@.nodes, self@.center, self@.base_skeleton),
            within(r as int, ANGLE_MAX as int),
    {
        let n: usize = self.nodes.len();
        let mut average_angle: i64 = 0;
        let mut i1: usize = 0;
        while i1 < n
            invariant
                self.wf(),
                self@.within(REACH as int, REACH as int),
                n == self.nodes.len(),
                0 <= i1 <= n,
                average_angle == angle_upto(
                    self@.nodes,
                    self@.center,
                    self@.base_skeleton,
                    i1 as int,
                ),
                within(average_angle as int, i1 * TAU),
            decreases n - i1,
        {
            proof {
                assert(self@.nodes[i1 as int].within(REACH as int, REACH as int));
                assert(self@.base_skeleton[i1 as int].within(2 * LIMIT));
            }
            let angle: i64 = raw_angle_exec(
                self.nodes[i1].read_pos,
                self.center,
                self.base_skeleton[i1],
            );
            proof {
                lemma_tdiv_shrinks(angle as int, n as int);
                lemma_tdiv_shrinks(TAU - angle, n as int);
            }
            if angle - average_angle < PI {
                average_angle = average_angle + trunc_div(angle as i128, n as i128) as i64;
            } else {
                average_angle = average_angle - trunc_div((TAU - angle) as i128, n as i128) as i64;
            }
            i1 = i1 + 1;
        }
        average_angle
    }

    /// Places the skeleton: each rest offset turned by `angle` and moved to
    /// `center`.
    pub fn update_skeleton(&mut self)
        requires
            old(self).wf(),
            old(self)@.center.within(REACH as int),
            within(old(self)@.angle, ANGLE_MAX as int),
        ensures
            final(self).wf(),
            final(self)@ == (BodyView {
                skeleton: skeleton_of(
                    old(self)@.base_skeleton,
                    old(self)@.angle,
                    old(self)@.center,
                ),
                ..old(self)@
            }),
            forall|p: int|
                0 <= p && old(self)@.center.within(p) ==> all_within(
                    final(self)@.skeleton,
                    p + 4 * LIMIT,
                ),
    {
        let n: usize = self.base_skeleton.len();
        let mut counter: usize = 0;
        while counter < n
            invariant
                self.wf(),
                n == self.base_skeleton.len(),
                0 <= counter <= n,
                self.nodes == old(self).nodes,
                self.connections == old(self).connections,
                self.base_skeleton == old(self).base_skeleton,
                self.base_skeleton_norm == old(self).base_skeleton_norm,
                self.bounding_box == old(self).bounding_box,
                self.center == old(self).center,
                self.angle == old(self).angle,
                self.node_num == old(self).node_num,
                self.center@.within(REACH as int),
                within(self.angle as int, ANGLE_MAX as int),
                forall|i: int|
                    0 <= i < counter ==> (#[trigger] self.skeleton[i])@ == self.base_skeleton[i]@.rotated(
                        cosine(self.angle as int),
                        sine(self.angle as int),
                    ).plus(self.center@),
            decreases n - counter,
        {
            let base: Vec2 = self.base_skeleton[counter];
            proof {
                assert(self@.base_skeleton[counter as int].within(2 * LIMIT));
                assert(self@.base_skeleton[counter as int] == base@);
            }
            let turned: Vec2 = vec_rotate(&base, self.angle);
            proof {
                assert(turned@.within(2 * (2 * LIMIT)));
            }
            let placed: Vec2 = turned.plus(self.center);
            self.skeleton.set(counter, placed);
            proof {
                assert(vec_views(self.base_skeleton@) =~= vec_views(old(self).base_skeleton@));
            }
            counter = counter + 1;
        }
        proof {
            let want = skeleton_of(old(self)@.base_skeleton, old(self)@.angle, old(self)@.center);
            assert(self@.skeleton =~= want);
            assert forall|p: int| 0 <= p && old(self)@.center.within(p) implies all_within(
                self@.skeleton,
                p + 4 * LIMIT,
            ) by {
                assert forall|i: int| 0 <= i < self@.skeleton.len() implies (
                #[trigger] self@.skeleton[i]).within(p + 4 * LIMIT) by {
                    let b = self@.base_skeleton[i];
                    assert(b.within(2 * LIMIT));
                    crate::trig::lemma_sine_within(self.angle as int);
                    lemma_rotated_within(
                        b,
                        cosine(self.angle as int),
                        sine(self.angle as int),
                        2 * LIMIT,
                    );
                }
            }
        }
    }

    /// Sets the bounding box to the hull of the read positions, padded by
    /// `node_radius` on all sides.
    pub fn update_bounding_box(&mut self, node_radius: i64)
        requires
            old(self).wf(),
            old(self)@.within(REACH as int, REACH as int),
            0 <= node_radius <= LIMIT,
        ensures
            final(self).wf(),
            final(self)@ == (BodyView {
                bounding_box: bounding_box_of(old(self)@.nodes, node_radius as int),
                ..old(self)@
            }),
    {
        let n: usize = self.nodes.len();
        let first: Vec2 = self.nodes[0].read_pos;
        proof {
            assert(self@.nodes[0].within(REACH as int, REACH as int));
        }
        let mut min_vec: Vec2 = first;
        let mut max_vec: Vec2 = first;
        let mut i: usize = 1;
        while i < n
            invariant
                self.wf(),
                self@.within(REACH as int, REACH as int),
                n == self.nodes.len(),
                1 <= i <= n,
                hull(self@.nodes, i as int) == (BoxView { min_pos: min_vec@, max_pos: max_vec@ }),
                min_vec@.within(REACH as int),
                max_vec@.within(REACH as int),
            decreases n - i,
        {
            let p: Vec2 = self.nodes[i].read_pos;
            proof {
                assert(self@.nodes[i as int].within(REACH as int, REACH as int));
                assert(self@.nodes[i as int].read_pos == p@);
            }
            if p.x < min_vec.x {
                min_vec.x = p.x;
            }
            if p.x > max_vec.x {
                max_vec.x = p.x;
            }
            if p.y < min_vec.y {
                min_vec.y = p.y;
            }
            if p.y > max_vec.y {
                max_vec.y = p.y;
            }
            i = i + 1;
        }
        self.bounding_box.min_pos = Vec2 { x: min_vec.x - node_radius, y: min_vec.y - node_radius };
        self.bounding_box.max_pos = Vec2 { x: max_vec.x + node_radius, y: max_vec.y + node_radius };
    }
}

/// Squared distance from node `i` to `pivot`.
pub open spec fn dist_sq_to(nodes: Seq<NodeView>, pivot: V2, i: int) -> int {
    nodes[i].read_pos.minus(pivot).len_sq()
}

/// Node `i` comes before node `j` when the nodes are ordered by their distance
/// to `pivot`, nodes equally far keeping the order of their indices.
pub open spec fn nearer(nodes: Seq<NodeView>, pivot: V2, i: int, j: int) -> bool {
    let di = dist_sq_to(nodes, pivot, i);
    let dj = dist_sq_to(nodes, pivot, j);
    di < dj || (di == dj && i < j)
}

/// Number of nodes among the first `upto` that come before node `j`.
pub open spec fn rank(nodes: Seq<NodeView>, pivot: V2, j: int, upto: int) -> nat
    decreases upto,
{
    if upto <= 0 {
        0
    } else if nearer(nodes, pivot, upto - 1, j) {
        rank(nodes, pivot, j, upto - 1) + 1
    } else {
        rank(nodes, pivot, j, upto - 1)
    }
}

/// Node `j` is one of the four nearest to `pivot`.
pub open spec fn is_near(nodes: Seq<NodeView>, pivot: V2, j: int) -> bool {
    rank(nodes, pivot, j, nodes.len() as int) < 4
}

/// Sum of the current positions of those of the first `k` nodes that are among
/// the four nearest to `pivot`.
pub open spec fn near_sum(nodes: Seq<NodeView>, pivot: V2, k: int) -> V2
    decreases k,
{
    if k <= 0 {
        V2::zero()
    } else if is_near(nodes, pivot, k - 1) {
        near_sum(nodes, pivot, k - 1).plus(nodes[k - 1].read_pos)
    } else {
        near_sum(nodes, pivot, k - 1)
    }
}

/// How many of the first `k` nodes are among the four nearest to `pivot`.
pub open spec fn near_count(nodes: Seq<NodeView>, pivot: V2, k: int) -> nat
    decreases k,
{
    if k <= 0 {
        0
    } else if is_near(nodes, pivot, k - 1) {
        near_count(nodes, pivot, k - 1) + 1
    } else {
        near_count(nodes, pivot, k - 1)
    }
}

/// Mean position of the four nodes nearest to node `index`, itself among them;
/// of all the nodes where there are fewer than four.
pub open spec fn local_center(nodes: Seq<NodeView>, index: int) -> V2 {
    let pivot = nodes[index].read_pos;
    near_sum(nodes, pivot, nodes.len() as int).over(min(4, nodes.len() as int))
}

/// How many of the first `q` nodes have fewer than `m` of the first `k` nodes
/// before them.
pub open spec fn ranked_below(nodes: Seq<NodeView>, pivot: V2, m: int, k: int, q: int) -> nat
    decreases q,
{
    if q <= 0 {
        0
    } else if rank(nodes, pivot, q - 1, k) < m {
        ranked_below(nodes, pivot, m, k, q - 1) + 1
    } else {
        ranked_below(nodes, pivot, m, k, q - 1)
    }
}

/// A node has no more nodes before it than any node it comes before.
proof fn lemma_rank_grows(nodes: Seq<NodeView>, pivot: V2, a: int, b: int, upto: int)
    requires
        nearer(nodes, pivot, a, b),
    ensures
        rank(nodes, pivot, a, upto) <= rank(nodes, pivot, b, upto),
        0 <= a < upto ==> rank(nodes, pivot, a, upto) < rank(nodes, pivot, b, upto),
    decreases upto,
{
    if upto > 0 {
        lemma_rank_grows(nodes, pivot, a, b, upto - 1);
    }
}

/// Among the first `k` nodes, those that node `k` comes before are those with
/// at least as many nodes before them as node `k` has.
proof fn lemma_rank_splits(nodes: Seq<NodeView>, pivot: V2, j: int, k: int)
    requires
        0 <= j < k,
    ensures
        nearer(nodes, pivot, k, j) <==> rank(nodes, pivot, j, k) >= rank(nodes, pivot, k, k),
{
    if nearer(nodes, pivot, k, j) {
        lemma_rank_grows(nodes, pivot, k, j, k);
    } else {
        assert(nearer(nodes, pivot, j, k));
        lemma_rank_grows(nodes, pivot, j, k, k);
    }
}

/// What one more node does to the count: the nodes it comes before move one
/// place back.
proof fn lemma_ranked_below_step(nodes: Seq<NodeView>, pivot: V2, m: int, k: int, q: int)
    requires
        0 <= q <= k,
    ensures
        ranked_below(nodes, pivot, m, k + 1, q) == if m <= rank(nodes, pivot, k, k) {
            ranked_below(nodes, pivot, m, k, q)
        } else {
            ranked_below(nodes, pivot, m - 1, k, q)
        },
    decreases q,
{
    if q > 0 {
        lemma_ranked_below_step(nodes, pivot, m, k, q - 1);
        lemma_rank_splits(nodes, pivot, q - 1, k);
    }
}

/// Of `k` nodes, `m` have fewer than `m` nodes before them, or all of them where
/// `k` is less than `m`.
proof fn lemma_ranked_below(nodes: Seq<NodeView>, pivot: V2, m: int, k: int)
    requires
        0 <= k,
        0 <= m,
    ensures
        ranked_below(nodes, pivot, m, k, k) == min(m, k),
    decreases k,
{
    if k > 0 {
        let r = rank(nodes, pivot, k - 1, k - 1);
        lemma_rank_at_most(nodes, pivot, k - 1, k - 1);
        lemma_ranked_below_step(nodes, pivot, m, k - 1, k - 1);
        if m <= r {
            lemma_ranked_below(nodes, pivot, m, k - 1);
        } else {
            lemma_ranked_below(nodes, pivot, m - 1, k - 1);
        }
    }
}

/// No more than `upto` of the first `upto` nodes come before a node.
proof fn lemma_rank_at_most(nodes: Seq<NodeView>, pivot: V2, j: int, upto: int)
    requires
        0 <= upto,
    ensures
        rank(nodes, pivot, j, upto) <= upto,
    decreases upto,
{
    if upto > 0 {
        lemma_rank_at_most(nodes, pivot, j, upto - 1);
    }
}

/// `near_count` counts the nodes with fewer than four before them.
proof fn lemma_near_count_is_ranked(nodes: Seq<NodeView>, pivot: V2, k: int)
    ensures
        near_count(nodes, pivot, k) == ranked_below(nodes, pivot, 4, nodes.len() as int, k),
    decreases k,
{
    if k > 0 {
        lemma_near_count_is_ranked(nodes, pivot, k - 1);
    }
}

/// The nodes nearest to `pivot` are four, or all of them where the body has
/// fewer.
pub proof fn lemma_four_are_near(nodes: Seq<NodeView>, pivot: V2)
    ensures
        near_count(nodes, pivot, nodes.len() as int) == min(4, nodes.len() as int),
{
    lemma_near_count_is_ranked(nodes, pivot, nodes.len() as int);
    lemma_ranked_below(nodes, pivot, 4, nodes.len() as int);
}

impl SB {
    /// For each node, its squared distance to `pivot`.
    fn distances(&self, pivot: Vec2) -> (table: Vec<DistIndex>)
        requires
            self.wf(),
            reads_within(self@.nodes, REACH as int),
            pivot@.within(REACH as int),
        ensures
            table.len() == self.nodes.len(),
            forall|i: int|
                0 <= i < table.len() ==> (#[trigger] table[i]).dist == dist_sq_to(
                    self@.nodes,
                    pivot@,
                    i,
                ) && table[i].index == i,
    {
        let n: usize = self.nodes.len();
        let mut table: Vec<DistIndex> = Vec::new();
        let mut i: usize = 0;
        while i < n
            invariant
                n == self.nodes.len(),
                0 <= i <= n,
                reads_within(self@.nodes, REACH as int),
                pivot@.within(REACH as int),
                table.len() == i,
                forall|k: int|
                    0 <= k < i ==> (#[trigger] table[k]).dist == dist_sq_to(
                        self@.nodes,
                        pivot@,
                        k,
                    ) && table[k].index == k,
            decreases n - i,
        {
            proof {
                assert(self@.nodes[i as int].read_pos.within(REACH as int));
            }
            let d: i128 = self.nodes[i].read_pos.minus(pivot).length_squared();
            table.push(DistIndex::new(d, i));
            i = i + 1;
        }
        table
    }

    /// Mean position of the four nodes nearest to node `node_index`, itself
    /// among them; of all the nodes where the body has fewer than four.
    pub fn get_rel_center(&self, node_index: usize) -> (r: Vec2)
        requires
            self.wf(),
            reads_within(self@.nodes, REACH as int),
            node_index < self.nodes.len(),
        ensures
            r@ == local_center(self@.nodes, node_index as int),
            r@.within(REACH as int),
    {
        let n: usize = self.nodes.len();
        proof {
            assert(self@.nodes[node_index as int].read_pos.within(REACH as int));
        }
        let node_index_pos: Vec2 = self.nodes[node_index].read_pos;
        let dist_index_pairs: Vec<DistIndex> = self.distances(node_index_pos);
        let ghost nodes = self@.nodes;
        let ghost pivot = node_index_pos@;
        let mut sum_x: i64 = 0;
        let mut sum_y: i64 = 0;
        let mut count: usize = 0;
        let mut j: usize = 0;
        while j < n
            invariant
                n == self.nodes.len(),
                n <= 255,
                nodes == self@.nodes,
                pivot == node_index_pos@,
                reads_within(nodes, REACH as int),
                dist_index_pairs.len() == n,
                forall|i: int|
                    0 <= i < n ==> (#[trigger] dist_index_pairs[i]).dist == dist_sq_to(
                        nodes,
                        pivot,
                        i,
                    ) && dist_index_pairs[i].index == i,
                0 <= j <= n,
                count == near_count(nodes, pivot, j as int),
                count <= j,
                near_sum(nodes, pivot, j as int) == (V2 { x: sum_x as int, y: sum_y as int }),
                within(sum_x as int, count * REACH),
                within(sum_y as int, count * REACH),
            decreases n - j,
        {
            let own: DistIndex = dist_index_pairs[j];
            let mut before: usize = 0;
            let mut i: usize = 0;
            while i < n
                invariant
                    n == self.nodes.len(),
                    nodes == self@.nodes,
                    dist_index_pairs.len() == n,
                    forall|k: int|
                        0 <= k < n ==> (#[trigger] dist_index_pairs[k]).dist == dist_sq_to(
                            nodes,
                            pivot,
                            k,
                        ) && dist_index_pairs[k].index == k,
                    0 <= j < n,
                    own == dist_index_pairs[j as int],
                    0 <= i <= n,
                    before == rank(nodes, pivot, j as int, i as int),
                    before <= i,
                decreases n - i,
            {
                let other: DistIndex = dist_index_pairs[i];
                if other.dist < own.dist || (other.dist == own.dist && other.index < own.index) {
                    before = before + 1;
                }
                i = i + 1;
            }
            if before < 4 {
                let p: Vec2 = self.nodes[j].read_pos;
                proof {
                    assert(nodes[j as int].read_pos.within(REACH as int));
                    assert((count + 1) * REACH == count * REACH + REACH) by (nonlinear_arith);
                    assert(count * REACH <= 255 * REACH) by (nonlinear_arith)
                        requires
                            count <= 255,
                    ;
                }
                sum_x = sum_x + p.x;
                sum_y = sum_y + p.y;
                count = count + 1;
            }
            j = j + 1;
        }
        proof {
            lemma_four_are_near(nodes, pivot);
            assert(count * REACH == REACH * count) by (nonlinear_arith);
            lemma_tdiv_within(sum_x as int, count as int, REACH as int);
            lemma_tdiv_within(sum_y as int, count as int, REACH as int);
        }
        let x: i128 = trunc_div(sum_x as i128, count as i128);
        let y: i128 = trunc_div(sum_y as i128, count as i128);
        Vec2 { x: x as i64, y: y as i64 }
    }
}

} // verus!

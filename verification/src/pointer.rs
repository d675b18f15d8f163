//! The pointer: while it is pressed, the node nearest to it is pulled under it.

use crate::body::{node_views, reads_within, BodyView, NodeView, SBNode, SB};
use crate::fixed::REACH;
use crate::vec2::{Vec2, V2};
use crate::world::{all_wf, body_views, with_nodes};
use vstd::prelude::*;

verus! {

/// A pointer position on the screen, whose origin is the top left corner and
/// whose `y` grows downward, as a point of the world.
pub open spec fn world_coords(position: V2, half_dim: V2) -> V2 {
    V2 { x: position.x - half_dim.x, y: -(position.y - half_dim.y) }
}

/// A pointer position on the screen as a point of the world.
pub fn screen_to_world_coords(position: Vec2, half_dim: Vec2) -> (r: Vec2)
    requires
        position@.within(REACH as int),
        half_dim@.within(REACH as int),
    ensures
        r@ == world_coords(position@, half_dim@),
{
    Vec2 { x: position.x - half_dim.x, y: -(position.y - half_dim.y) }
}

/// Squared distance from the pointer to node `i` of body `b`.
pub open spec fn pointer_dist_sq(s: Seq<BodyView>, pointer: V2, b: int, i: int) -> int {
    s[b].nodes[i].read_pos.minus(pointer).len_sq()
}

/// Node `i` of body `b` comes before node `i2` of body `b2` in the order of the
/// scene.
pub open spec fn comes_before(b: int, i: int, b2: int, i2: int) -> bool {
    b < b2 || (b == b2 && i < i2)
}

/// Among the nodes of the first `upto` bodies, node `i` of body `b` is nearest
/// to the pointer, and the first of those equally near.
pub open spec fn is_grabbed(s: Seq<BodyView>, pointer: V2, b: int, i: int, upto: int) -> bool {
    &&& 0 <= b < upto
    &&& 0 <= i < s[b].nodes.len()
    &&& forall|b2: int, i2: int|
        0 <= b2 < upto && 0 <= i2 < s[b2].nodes.len() ==> {
            let d = pointer_dist_sq(s, pointer, b, i);
            let d2 = #[trigger] pointer_dist_sq(s, pointer, b2, i2);
            d < d2 || (d == d2 && !comes_before(b2, i2, b, i))
        }
}

/// The node pulled under the pointer: its pending position is the pointer's,
/// and it has lost its velocity.
pub open spec fn grabbed(node: NodeView, pointer: V2) -> NodeView {
    NodeView { write_pos: pointer, vel: V2::zero(), ..node }
}

/// The scene with node `i` of body `b` pulled under the pointer.
pub open spec fn with_grabbed(s: Seq<BodyView>, pointer: V2, b: int, i: int) -> Seq<BodyView> {
    s.update(b, with_nodes(s[b], s[b].nodes.update(i, grabbed(s[b].nodes[i], pointer))))
}

/// While the pointer is pressed, pulls the node nearest to it, of all the bodies,
/// under it; of nodes equally near, the first in the order of the scene. The
/// result names that node by its body and its index.
pub fn interact(bodies: &mut Vec<SB>, pressed: bool, rel_position: Vec2) -> (r: Option<
    (usize, usize),
>)
    requires
        all_wf(old(bodies)@),
        rel_position@.within(REACH as int),
        forall|k: int|
            0 <= k < old(bodies).len() ==> reads_within(
                (#[trigger] old(bodies)@[k])@.nodes,
                REACH as int,
            ),
    ensures
        all_wf(final(bodies)@),
        r is None <==> !pressed || old(bodies).len() == 0,
        r is None ==> body_views(final(bodies)@) == body_views(old(bodies)@),
        r matches Some((b, i)) ==> {
            &&& is_grabbed(
                body_views(old(bodies)@),
                rel_position@,
                b as int,
                i as int,
                old(bodies).len() as int,
            )
            &&& body_views(final(bodies)@) == with_grabbed(
                body_views(old(bodies)@),
                rel_position@,
                b as int,
                i as int,
            )
        },
{
    if !pressed || bodies.len() == 0 {
        return None;
    }
    let ghost s = body_views(bodies@);
    let n: usize = bodies.len();
    proof {
        assert(bodies@[0].wf());
        assert(reads_within(bodies@[0]@.nodes, REACH as int));
        assert(bodies@[0]@.nodes[0].read_pos.within(REACH as int));
    }
    let mut best_body: usize = 0;
    let mut best_node: usize = 0;
    let mut min_dist: i128 = bodies[0].nodes[0].read_pos.minus(rel_position).length_squared();
    let mut b: usize = 0;
    while b < n
        invariant
            n == bodies.len(),
            n >= 1,
            s == body_views(bodies@),
            all_wf(bodies@),
            rel_position@.within(REACH as int),
            forall|k: int| 0 <= k < n ==> reads_within((#[trigger] bodies@[k])@.nodes, REACH as int),
            0 <= b <= n,
            b == 0 ==> best_body == 0 && best_node == 0,
            b > 0 ==> is_grabbed(s, rel_position@, best_body as int, best_node as int, b as int),
            best_body < n,
            best_node < s[best_body as int].nodes.len(),
            min_dist == pointer_dist_sq(s, rel_position@, best_body as int, best_node as int),
        decreases n - b,
    {
        let count: usize = bodies[b].nodes.len();
        let ghost row_body = best_body;
        let ghost row_node = best_node;
        let mut i: usize = 0;
        proof {
            assert(bodies@[b as int].wf());
            assert(s[b as int] == bodies@[b as int]@);
        }
        while i < count
            invariant
                n == bodies.len(),
                s == body_views(bodies@),
                rel_position@.within(REACH as int),
                reads_within(bodies@[b as int]@.nodes, REACH as int),
                0 <= b < n,
                count == bodies@[b as int].nodes.len(),
                count == s[b as int].nodes.len(),
                count >= 1,
                0 <= i <= count,
                best_body <= b,
                best_body < n,
                best_node < s[best_body as int].nodes.len(),
                min_dist == pointer_dist_sq(s, rel_position@, best_body as int, best_node as int),
                b == 0 && i == 0 ==> best_body == 0 && best_node == 0,
                b > 0 ==> is_grabbed(s, rel_position@, row_body as int, row_node as int, b as int),
                b > 0 || i > 0 ==> {
                    let d = pointer_dist_sq(s, rel_position@, best_body as int, best_node as int);
                    &&& forall|b2: int, i2: int|
                        0 <= b2 < b && 0 <= i2 < s[b2].nodes.len() ==> {
                            let d2 = #[trigger] pointer_dist_sq(s, rel_position@, b2, i2);
                            d < d2 || (d == d2 && !comes_before(b2, i2, best_body as int, best_node as int))
                        }
                    &&& forall|i2: int|
                        0 <= i2 < i ==> {
                            let d2 = #[trigger] pointer_dist_sq(s, rel_position@, b as int, i2);
                            d < d2 || (d == d2 && !comes_before(
                                b as int,
                                i2,
                                best_body as int,
                                best_node as int,
                            ))
                        }
                    &&& (best_body < b || best_node < i)
                },
            decreases count - i,
        {
            proof {
                assert(bodies@[b as int]@.nodes[i as int].read_pos.within(REACH as int));
            }
            let dist: i128 = bodies[b].nodes[i].read_pos.minus(rel_position).length_squared();
            if dist < min_dist {
                min_dist = dist;
                best_body = b;
                best_node = i;
            }
            i = i + 1;
        }
        b = b + 1;
    }
    let node: SBNode = bodies[best_body].nodes[best_node];
    let ghost before = bodies@;
    bodies[best_body].nodes.set(
        best_node,
        SBNode { write_pos: rel_position, vel: Vec2 { x: 0, y: 0 }, ..node },
    );
    proof {
        assert(before[best_body as int].wf());
        assert(node_views(bodies@[best_body as int].nodes@) =~= s[best_body as int].nodes.update(
            best_node as int,
            grabbed(s[best_body as int].nodes[best_node as int], rel_position@),
        ));
        assert(body_views(bodies@) =~= with_grabbed(
            s,
            rel_position@,
            best_body as int,
            best_node as int,
        ));
        assert forall|k: int| 0 <= k < bodies.len() implies (#[trigger] bodies@[k]).wf() by {
            if k != best_body {
                assert(before[k].wf());
            }
        }
    }
    Some((best_body, best_node))
}

} // verus!

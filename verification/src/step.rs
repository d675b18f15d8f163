//! One sub-iteration of one body: forces, gravity, motion, the commit of the
//! new positions, and the walls of the world.

use crate::body::{
    all_within, angle_of, bounding_box_of, centroid, node_views, nodes_within, skeleton_of,
    BodyView, NodeView, SBNode, SB,
};
use crate::fixed::{within, FORCE_MAX, LIMIT, REACH};
use crate::settings::Config;
use crate::spring::{
    lemma_moved_within, lemma_share_within, simulation_update, skeleton_pass,
    skeleton_simulation, spring_pass, step_share_exec, step_share_vec,
};
use crate::vec2::{Vec2, V2};
use vstd::prelude::*;

verus! {

/// Largest magnitude of a position or a velocity after a step that began in
/// range.
pub const AFTER_STEP: i64 = 200_000_000_000_000;

/// The node after gravity has changed its velocity and the new velocity has
/// moved its pending position.
pub open spec fn advanced(node: NodeView, cfg: Config) -> NodeView {
    let vel = node.vel.minus(step_share_vec(cfg.gravity@, cfg));
    NodeView { vel, write_pos: node.write_pos.plus(step_share_vec(vel, cfg)), ..node }
}

/// The node with its pending position made current.
pub open spec fn committed(node: NodeView) -> NodeView {
    NodeView { read_pos: node.write_pos, ..node }
}

/// The node held by the floor: below it, the pending height is put on the floor
/// and the vertical speed is lost.
pub open spec fn floored(node: NodeView, half_dim: V2) -> NodeView {
    if node.read_pos.y < -half_dim.y {
        NodeView {
            write_pos: V2 { x: node.write_pos.x, y: -half_dim.y },
            vel: V2 { x: node.vel.x, y: 0 },
            ..node
        }
    } else {
        node
    }
}

/// The node held by the side walls: beyond one, the pending abscissa is put on
/// the wall and the horizontal speed is lost.
pub open spec fn walled(node: NodeView, half_dim: V2) -> NodeView {
    if node.read_pos.x > half_dim.x {
        NodeView {
            write_pos: V2 { x: half_dim.x, y: node.write_pos.y },
            vel: V2 { x: 0, y: node.vel.y },
            ..node
        }
    } else if node.read_pos.x < -half_dim.x {
        NodeView {
            write_pos: V2 { x: -half_dim.x, y: node.write_pos.y },
            vel: V2 { x: 0, y: node.vel.y },
            ..node
        }
    } else {
        node
    }
}

/// The node held inside the world, which has a floor and two walls and is open
/// above. The test reads the current position; the correction goes to the
/// pending one.
pub open spec fn contained(node: NodeView, half_dim: V2) -> NodeView {
    walled(floored(node, half_dim), half_dim)
}

/// Every node after gravity and motion.
pub open spec fn advance_all(nodes: Seq<NodeView>, cfg: Config) -> Seq<NodeView> {
    Seq::new(nodes.len(), |i: int| advanced(nodes[i], cfg))
}

/// Every node with its pending position made current.
pub open spec fn commit_all(nodes: Seq<NodeView>) -> Seq<NodeView> {
    Seq::new(nodes.len(), |i: int| committed(nodes[i]))
}

/// Every node held inside the world.
pub open spec fn contain_all(nodes: Seq<NodeView>, half_dim: V2) -> Seq<NodeView> {
    Seq::new(nodes.len(), |i: int| contained(nodes[i], half_dim))
}

/// The body after one sub-iteration: springs, skeleton, gravity and motion, the
/// commit, the bounding box of the committed positions, the walls, and the
/// centre, angle and skeleton for the next one.
pub open spec fn stepped(b: BodyView, cfg: Config) -> BodyView {
    let sprung = spring_pass(b.nodes, b.connections, cfg, b.connections.len() as int);
    let pulled = skeleton_pass(sprung, b.skeleton, cfg);
    let moved = commit_all(advance_all(pulled, cfg));
    let held = contain_all(moved, cfg.half_dim@);
    let center = centroid(held);
    let angle = angle_of(held, center, b.base_skeleton);
    BodyView {
        nodes: held,
        bounding_box: bounding_box_of(moved, cfg.node_radius as int),
        center,
        angle,
        skeleton: skeleton_of(b.base_skeleton, angle, center),
        ..b
    }
}

/// Applies gravity to every velocity and moves every pending position by the
/// new velocity.
pub fn advance(sb: &mut SB, cfg: &Config)
    requires
        old(sb).wf(),
        cfg.wf(),
        old(sb)@.within(REACH as int, REACH as int),
    ensures
        final(sb).wf(),
        final(sb)@ == (BodyView { nodes: advance_all(old(sb)@.nodes, *cfg), ..old(sb)@ }),
        forall|p: int, v: int|
            0 <= p && 0 <= v && #[trigger] nodes_within(old(sb)@.nodes, p, v) ==> nodes_within(
                final(sb)@.nodes,
                p + v + LIMIT,
                v + LIMIT,
            ),
{
    let n: usize = sb.nodes.len();
    let pull: Vec2 = step_share_exec(cfg.gravity, cfg);
    let mut i: usize = 0;
    while i < n
        invariant
            sb.wf(),
            cfg.wf(),
            n == sb.nodes.len(),
            n == old(sb).nodes.len(),
            0 <= i <= n,
            sb.connections == old(sb).connections,
            sb.base_skeleton == old(sb).base_skeleton,
            sb.base_skeleton_norm == old(sb).base_skeleton_norm,
            sb.skeleton == old(sb).skeleton,
            sb.bounding_box == old(sb).bounding_box,
            sb.center == old(sb).center,
            sb.angle == old(sb).angle,
            sb.node_num == old(sb).node_num,
            old(sb)@.within(REACH as int, REACH as int),
            pull@ == step_share_vec(cfg.gravity@, *cfg),
            pull@.within(LIMIT as int),
            forall|j: int| i <= j < n ==> (#[trigger] sb.nodes[j]) == old(sb).nodes[j],
            forall|j: int|
                0 <= j < i ==> (#[trigger] sb.nodes[j])@ == advanced(old(sb)@.nodes[j], *cfg),
        decreases n - i,
    {
        let node: SBNode = sb.nodes[i];
        proof {
            assert(old(sb)@.nodes[i as int].within(REACH as int, REACH as int));
            assert(old(sb)@.nodes[i as int] == node@);
        }
        let vel: Vec2 = node.vel.minus(pull);
        let write_pos: Vec2 = node.write_pos.plus(step_share_exec(vel, cfg));
        sb.nodes.set(i, SBNode { vel, write_pos, ..node });
        i = i + 1;
    }
    proof {
        let before = old(sb)@.nodes;
        let want = advance_all(before, *cfg);
        assert(node_views(sb.nodes@) =~= want);
        assert forall|p: int, v: int|
            0 <= p && 0 <= v && #[trigger] nodes_within(before, p, v) implies nodes_within(
            want,
            p + v + LIMIT,
            v + LIMIT,
        ) by {
            assert forall|j: int| 0 <= j < want.len() implies (#[trigger] want[j]).within(
                p + v + LIMIT,
                v + LIMIT,
            ) by {
                assert(before[j].within(p, v));
                let vel = before[j].vel.minus(step_share_vec(cfg.gravity@, *cfg));
                lemma_share_within(vel.x, *cfg, v + LIMIT);
                lemma_share_within(vel.y, *cfg, v + LIMIT);
            }
        }
    }
}

/// Makes every pending position current.
pub fn update_sb_read_pos(sb: &mut SB)
    requires
        old(sb).wf(),
    ensures
        final(sb).wf(),
        final(sb)@ == (BodyView { nodes: commit_all(old(sb)@.nodes), ..old(sb)@ }),
        forall|p: int, v: int| #[trigger]
            nodes_within(old(sb)@.nodes, p, v) ==> nodes_within(final(sb)@.nodes, p, v),
{
    let n: usize = sb.nodes.len();
    let mut i: usize = 0;
    while i < n
        invariant
            sb.wf(),
            n == sb.nodes.len(),
            n == old(sb).nodes.len(),
            0 <= i <= n,
            sb.connections == old(sb).connections,
            sb.base_skeleton == old(sb).base_skeleton,
            sb.base_skeleton_norm == old(sb).base_skeleton_norm,
            sb.skeleton == old(sb).skeleton,
            sb.bounding_box == old(sb).bounding_box,
            sb.center == old(sb).center,
            sb.angle == old(sb).angle,
            sb.node_num == old(sb).node_num,
            forall|j: int| i <= j < n ==> (#[trigger] sb.nodes[j]) == old(sb).nodes[j],
            forall|j: int| 0 <= j < i ==> (#[trigger] sb.nodes[j])@ == committed(old(sb)@.nodes[j]),
        decreases n - i,
    {
        let node: SBNode = sb.nodes[i];
        sb.nodes.set(i, SBNode { read_pos: node.write_pos, ..node });
        i = i + 1;
    }
    proof {
        let before = old(sb)@.nodes;
        let want = commit_all(before);
        assert(node_views(sb.nodes@) =~= want);
        assert forall|p: int, v: int| #[trigger] nodes_within(before, p, v) implies nodes_within(
            want,
            p,
            v,
        ) by {
            assert forall|j: int| 0 <= j < want.len() implies (#[trigger] want[j]).within(p, v) by {
                assert(before[j].within(p, v));
            }
        }
    }
}

/// Holds every node inside the world.
pub fn container_collision(sb: &mut SB, cfg: &Config)
    requires
        old(sb).wf(),
        cfg.wf(),
    ensures
        final(sb).wf(),
        final(sb)@ == (BodyView {
            nodes: contain_all(old(sb)@.nodes, cfg.half_dim@),
            ..old(sb)@
        }),
        forall|p: int, v: int|
            LIMIT <= p && 0 <= v && #[trigger] nodes_within(old(sb)@.nodes, p, v) ==> nodes_within(
                final(sb)@.nodes,
                p,
                v,
            ),
{
    let n: usize = sb.nodes.len();
    let mut i: usize = 0;
    while i < n
        invariant
            sb.wf(),
            cfg.wf(),
            n == sb.nodes.len(),
            n == old(sb).nodes.len(),
            0 <= i <= n,
            sb.connections == old(sb).connections,
            sb.base_skeleton == old(sb).base_skeleton,
            sb.base_skeleton_norm == old(sb).base_skeleton_norm,
            sb.skeleton == old(sb).skeleton,
            sb.bounding_box == old(sb).bounding_box,
            sb.center == old(sb).center,
            sb.angle == old(sb).angle,
            sb.node_num == old(sb).node_num,
            forall|j: int| i <= j < n ==> (#[trigger] sb.nodes[j]) == old(sb).nodes[j],
            forall|j: int|
                0 <= j < i ==> (#[trigger] sb.nodes[j])@ == contained(
                    old(sb)@.nodes[j],
                    cfg.half_dim@,
                ),
        decreases n - i,
    {
        let mut node: SBNode = sb.nodes[i];
        if node.read_pos.y < -cfg.half_dim.y {
            node.write_pos.y = -cfg.half_dim.y;
            node.vel.y = 0;
        }
        if node.read_pos.x > cfg.half_dim.x {
            node.write_pos.x = cfg.half_dim.x;
            node.vel.x = 0;
        } else if node.read_pos.x < -cfg.half_dim.x {
            node.write_pos.x = -cfg.half_dim.x;
            node.vel.x = 0;
        }
        sb.nodes.set(i, node);
        i = i + 1;
    }
    proof {
        let before = old(sb)@.nodes;
        let want = contain_all(before, cfg.half_dim@);
        assert(node_views(sb.nodes@) =~= want);
        assert forall|p: int, v: int|
            LIMIT <= p && 0 <= v && #[trigger] nodes_within(before, p, v) implies nodes_within(
            want,
            p,
            v,
        ) by {
            assert forall|j: int| 0 <= j < want.len() implies (#[trigger] want[j]).within(p, v) by {
                assert(before[j].within(p, v));
            }
        }
    }
}

/// Advances one body by one sub-iteration.
pub fn update_body(sb: &mut SB, cfg: &Config)
    requires
        old(sb).wf(),
        cfg.wf(),
        old(sb)@.in_range(),
    ensures
        final(sb).wf(),
        final(sb)@ == stepped(old(sb)@, *cfg),
        final(sb)@.within(AFTER_STEP as int, AFTER_STEP as int),
{
    let ghost b0 = sb@;
    let ghost springs = b0.connections.len() as int;
    proof {
        assert(nodes_within(b0.nodes, LIMIT as int, LIMIT as int));
        assert forall|i: int| 0 <= i < b0.nodes.len() implies (#[trigger] b0.nodes[i]).within(
            REACH as int,
            REACH as int,
        ) by {
            assert(b0.nodes[i].within(LIMIT as int, LIMIT as int));
        }
        assert(0 <= springs * FORCE_MAX <= 65_535 * FORCE_MAX) by (nonlinear_arith)
            requires
                0 <= springs <= 65_535,
        ;
    }
    simulation_update(sb, cfg);
    let ghost b1 = sb@;
    proof {
        lemma_moved_within(b0.nodes, b1.nodes, 0, springs * FORCE_MAX, LIMIT as int, LIMIT as int);
        widen(b1.nodes, LIMIT + 0, LIMIT + springs * FORCE_MAX, REACH as int, 2 * REACH);
    }
    skeleton_simulation(sb, cfg);
    let ghost b2 = sb@;
    proof {
        lemma_moved_within(
            b1.nodes,
            b2.nodes,
            0,
            FORCE_MAX as int,
            LIMIT + 0,
            LIMIT + springs * FORCE_MAX,
        );
        widen(
            b2.nodes,
            LIMIT + 0 + 0,
            LIMIT + springs * FORCE_MAX + FORCE_MAX,
            LIMIT as int,
            LIMIT + 65_536 * FORCE_MAX,
        );
        widen(b2.nodes, LIMIT as int, LIMIT + 65_536 * FORCE_MAX, REACH as int, REACH as int);
    }
    advance(sb, cfg);
    let ghost b3 = sb@;
    proof {
        assert(nodes_within(b2.nodes, LIMIT as int, LIMIT + 65_536 * FORCE_MAX));
        widen(
            b3.nodes,
            LIMIT + (LIMIT + 65_536 * FORCE_MAX) + LIMIT,
            LIMIT + 65_536 * FORCE_MAX + LIMIT,
            AFTER_STEP as int,
            AFTER_STEP as int,
        );
    }
    update_sb_read_pos(sb);
    let ghost b4 = sb@;
    proof {
        assert(nodes_within(b3.nodes, AFTER_STEP as int, AFTER_STEP as int));
        widen(b4.nodes, AFTER_STEP as int, AFTER_STEP as int, REACH as int, REACH as int);
    }
    sb.update_bounding_box(cfg.node_radius);
    container_collision(sb, cfg);
    let ghost b5 = sb@;
    proof {
        assert(nodes_within(b4.nodes, AFTER_STEP as int, AFTER_STEP as int));
        widen(b5.nodes, AFTER_STEP as int, AFTER_STEP as int, REACH as int, REACH as int);
        widen(b5.nodes, AFTER_STEP as int, AFTER_STEP as int, AFTER_STEP as int, REACH as int);
    }
    let center: Vec2 = sb.get_center();
    proof {
        assert(nodes_within(sb@.nodes, AFTER_STEP as int, REACH as int));
        assert(center@.within(AFTER_STEP as int));
    }
    sb.center = center;
    proof {
        assert(sb@.nodes == b5.nodes);
    }
    let angle: i64 = sb.get_angle();
    sb.angle = angle;
    sb.update_skeleton();
    proof {
        assert(all_within(sb@.skeleton, AFTER_STEP + 4 * LIMIT));
        assert forall|i: int| 0 <= i < sb@.skeleton.len() implies (#[trigger] sb@.skeleton[i]).within(
            REACH as int,
        ) by {
            assert(sb@.skeleton[i].within(AFTER_STEP + 4 * LIMIT));
        }
        assert(sb@.nodes == b5.nodes);
        assert(sb@ =~= stepped(b0, *cfg));
    }
}

/// Nodes within `p` and `v` are within any wider bounds.
pub proof fn widen(nodes: Seq<NodeView>, p: int, v: int, wide_p: int, wide_v: int)
    requires
        nodes_within(nodes, p, v),
        p <= wide_p,
        v <= wide_v,
    ensures
        nodes_within(nodes, wide_p, wide_v),
{
    assert forall|i: int| 0 <= i < nodes.len() implies (#[trigger] nodes[i]).within(wide_p, wide_v) by {
        assert(nodes[i].within(p, v));
    }
}

/// A node below the floor has its pending height put exactly on the floor and
/// loses its vertical speed, whatever its velocity was. One beyond a wall has
/// its pending abscissa put on the wall and loses its horizontal speed. Nothing
/// holds a node from above.
pub proof fn lemma_containment(node: NodeView, half_dim: V2)
    ensures
        node.read_pos.y < -half_dim.y ==> contained(node, half_dim).write_pos.y == -half_dim.y
            && contained(node, half_dim).vel.y == 0,
        node.read_pos.x > half_dim.x ==> contained(node, half_dim).write_pos.x == half_dim.x
            && contained(node, half_dim).vel.x == 0,
        node.read_pos.x < -half_dim.x && half_dim.x >= 0 ==> contained(
            node,
            half_dim,
        ).write_pos.x == -half_dim.x && contained(node, half_dim).vel.x == 0,
        node.read_pos.y >= -half_dim.y ==> contained(node, half_dim).write_pos.y
            == node.write_pos.y && contained(node, half_dim).vel.y == node.vel.y,
        contained(node, half_dim).read_pos == node.read_pos,
{
}

} // verus!

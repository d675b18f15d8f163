//! The forces inside a body: the springs between its nodes, and the pull of
//! each node toward its place in the skeleton.

use crate::body::{nodes_within, node_views, BodyView, NodeView, SBConnection, SBNode, SB};
use crate::fixed::{
    clamp, clamp_wide, fx_mul, lemma_mul_within, lemma_tdiv_shrinks, lemma_tdiv_within, mul_div,
    tdiv, trunc_div, within, FORCE_MAX, LIMIT, REACH, SCALE,
};
use crate::settings::Config;
use crate::vec2::{lemma_length_bounds, lemma_scaled_length, lemma_unit_within, Vec2, V2};
use vstd::prelude::*;

verus! {

/// What one sub-iteration applies of a rate `v`: `v * dt / iteration_count`.
pub open spec fn step_share(v: int, cfg: Config) -> int {
    tdiv(fx_mul(v, cfg.dt as int), cfg.iteration_count as int)
}

/// `step_share` of both components.
pub open spec fn step_share_vec(v: V2, cfg: Config) -> V2 {
    V2 { x: step_share(v.x, cfg), y: step_share(v.y, cfg) }
}

/// Force of the spring `c` between the nodes `a` and `b`: the stiffness times
/// what the spring lacks of its rest length, less half the damping times the
/// speed at which the nodes part, kept within `FORCE_MAX`.
pub open spec fn spring_force(a: NodeView, b: NodeView, c: SBConnection, cfg: Config) -> int {
    let d = b.read_pos.minus(a.read_pos);
    let closing = d.unit().dot(b.vel.minus(a.vel));
    clamp(
        fx_mul(cfg.stiffness as int, c.resting_length - d.length()) - tdiv(
            cfg.dampening * closing,
            2 * SCALE,
        ),
        -FORCE_MAX,
        FORCE_MAX as int,
    )
}

/// Change of velocity that the spring gives `b`, and takes from `a`, in one
/// sub-iteration. Nodes in the same place exert no force on each other.
pub open spec fn spring_kick(a: NodeView, b: NodeView, c: SBConnection, cfg: Config) -> V2 {
    let d = b.read_pos.minus(a.read_pos);
    if d.is_zero() {
        V2::zero()
    } else {
        step_share_vec(d.unit().times(spring_force(a, b, c, cfg)), cfg)
    }
}

/// The nodes after the spring `c` has acted on its two ends.
pub open spec fn apply_spring(nodes: Seq<NodeView>, c: SBConnection, cfg: Config) -> Seq<NodeView> {
    let a = nodes[c.i1 as int];
    let b = nodes[c.i2 as int];
    let kick = spring_kick(a, b, c, cfg);
    nodes.update(c.i1 as int, NodeView { vel: a.vel.minus(kick), ..a }).update(
        c.i2 as int,
        NodeView { vel: b.vel.plus(kick), ..b },
    )
}

/// The nodes after the first `k` springs have acted, one after the other.
pub open spec fn spring_pass(
    nodes: Seq<NodeView>,
    connections: Seq<SBConnection>,
    cfg: Config,
    k: int,
) -> Seq<NodeView>
    decreases k,
{
    if k <= 0 {
        nodes
    } else {
        apply_spring(spring_pass(nodes, connections, cfg, k - 1), connections[k - 1], cfg)
    }
}

/// Force that pulls a node toward its place in the skeleton, `target` away:
/// minus the stiffness times the distance, kept within `FORCE_MAX`.
pub open spec fn skeleton_force(target: V2, cfg: Config) -> int {
    clamp(fx_mul(cfg.skeleton_stiffness as int, -target.length()), -FORCE_MAX, FORCE_MAX as int)
}

/// Change of velocity that the skeleton takes from `node` in one sub-iteration;
/// the force being negative, the node speeds up toward `place`. A node in its
/// place is left alone.
pub open spec fn skeleton_kick(node: NodeView, place: V2, cfg: Config) -> V2 {
    let target = place.minus(node.read_pos);
    if target.is_zero() {
        V2::zero()
    } else {
        step_share_vec(target.unit().times(skeleton_force(target, cfg)), cfg)
    }
}

/// The nodes after the skeleton has pulled on each.
pub open spec fn skeleton_pass(nodes: Seq<NodeView>, skeleton: Seq<V2>, cfg: Config) -> Seq<
    NodeView,
> {
    Seq::new(
        nodes.len(),
        |i: int| NodeView { vel: nodes[i].vel.minus(skeleton_kick(nodes[i], skeleton[i], cfg)), ..nodes[i] },
    )
}

/// Between `before` and `after` no position has moved by more than `dp` and no
/// velocity has changed by more than `dv`, in either component.
pub open spec fn moved_within(before: Seq<NodeView>, after: Seq<NodeView>, dp: int, dv: int) -> bool {
    &&& before.len() == after.len()
    &&& forall|i: int|
        0 <= i < before.len() ==> {
            &&& (#[trigger] after[i]).read_pos.minus(before[i].read_pos).within(dp)
            &&& after[i].write_pos.minus(before[i].write_pos).within(dp)
            &&& after[i].vel.minus(before[i].vel).within(dv)
        }
}

/// Nodes that were within `p` and `v` and have moved by at most `dp` and `dv`
/// are within `p + dp` and `v + dv`.
pub proof fn lemma_moved_within(
    before: Seq<NodeView>,
    after: Seq<NodeView>,
    dp: int,
    dv: int,
    p: int,
    v: int,
)
    requires
        moved_within(before, after, dp, dv),
        nodes_within(before, p, v),
    ensures
        nodes_within(after, p + dp, v + dv),
{
    assert forall|i: int| 0 <= i < after.len() implies (#[trigger] after[i]).within(
        p + dp,
        v + dv,
    ) by {
        assert(before[i].within(p, v));
    }
}

/// A force within `FORCE_MAX` along a unit vector changes a velocity by at most
/// `FORCE_MAX` in one sub-iteration.
pub proof fn lemma_kick_within(n: V2, force: int, cfg: Config)
    requires
        cfg.wf(),
        n.within(SCALE as int),
        within(force, FORCE_MAX as int),
    ensures
        n.times(force).within(FORCE_MAX as int),
        step_share_vec(n.times(force), cfg).within(FORCE_MAX as int),
{
    lemma_mul_within(n.x, force, SCALE as int, FORCE_MAX as int);
    lemma_mul_within(n.y, force, SCALE as int, FORCE_MAX as int);
    assert(SCALE * FORCE_MAX == FORCE_MAX * SCALE) by (nonlinear_arith);
    lemma_tdiv_within(n.x * force, SCALE as int, FORCE_MAX as int);
    lemma_tdiv_within(n.y * force, SCALE as int, FORCE_MAX as int);
    let f = n.times(force);
    lemma_mul_within(f.x, cfg.dt as int, FORCE_MAX as int, SCALE as int);
    lemma_mul_within(f.y, cfg.dt as int, FORCE_MAX as int, SCALE as int);
    lemma_tdiv_within(f.x * cfg.dt, SCALE as int, FORCE_MAX as int);
    lemma_tdiv_within(f.y * cfg.dt, SCALE as int, FORCE_MAX as int);
    lemma_tdiv_shrinks(fx_mul(f.x, cfg.dt as int), cfg.iteration_count as int);
    lemma_tdiv_shrinks(fx_mul(f.y, cfg.dt as int), cfg.iteration_count as int);
}

/// What one sub-iteration applies of the rate `v`.
pub fn step_share_exec(v: Vec2, cfg: &Config) -> (r: Vec2)
    requires
        cfg.wf(),
        v@.within(4 * REACH),
    ensures
        r@ == step_share_vec(v@, *cfg),
        forall|b: int| 0 <= b && v@.within(b) ==> r@.within(b),
{
    proof {
        lemma_share_within(v.x as int, *cfg, 4 * REACH);
        lemma_share_within(v.y as int, *cfg, 4 * REACH);
        assert forall|b: int| 0 <= b && v@.within(b) implies step_share_vec(v@, *cfg).within(b) by {
            lemma_share_within(v.x as int, *cfg, b);
            lemma_share_within(v.y as int, *cfg, b);
        }
    }
    let x: i128 = trunc_div(mul_div(v.x, cfg.dt, SCALE), cfg.iteration_count as i128);
    let y: i128 = trunc_div(mul_div(v.y, cfg.dt, SCALE), cfg.iteration_count as i128);
    Vec2 { x: x as i64, y: y as i64 }
}

/// A time step of at most one unit never applies more than the rate itself.
pub proof fn lemma_share_within(v: int, cfg: Config, b: int)
    requires
        cfg.wf(),
        within(v, b),
    ensures
        within(fx_mul(v, cfg.dt as int), b),
        within(step_share(v, cfg), b),
{
    lemma_mul_within(v, cfg.dt as int, b, SCALE as int);
    lemma_tdiv_within(v * cfg.dt, SCALE as int, b);
    lemma_tdiv_shrinks(fx_mul(v, cfg.dt as int), cfg.iteration_count as int);
}

/// Force of the spring `c` between the nodes `a` and `b`.
pub fn connection_force(a: &SBNode, b: &SBNode, c: &SBConnection, cfg: &Config) -> (r: i64)
    requires
        cfg.wf(),
        a@.within(REACH as int, 2 * REACH),
        b@.within(REACH as int, 2 * REACH),
        0 <= c.resting_length <= LIMIT,
    ensures
        r == spring_force(a@, b@, *c, *cfg),
        -FORCE_MAX <= r <= FORCE_MAX,
{
    let vec: Vec2 = b.read_pos.minus(a.read_pos);
    let vec_norm: Vec2 = vec.normalize();
    let vec_length: i64 = vec.length();
    let vel_diff: Vec2 = b.vel.minus(a.vel);
    proof {
        lemma_length_bounds(vec@, vec_length as int, 2 * REACH);
        lemma_mul_within(vec_norm.x as int, vel_diff.x as int, SCALE as int, 4 * REACH);
        lemma_mul_within(vec_norm.y as int, vel_diff.y as int, SCALE as int, 4 * REACH);
        assert(2 * (SCALE * (4 * REACH)) == (8 * REACH) * SCALE) by (nonlinear_arith);
        lemma_tdiv_within(vec_norm@.dot_raw(vel_diff@), SCALE as int, 8 * REACH);
    }
    let dot: i64 = vec_norm.dot(vel_diff) as i64;
    let spring_strength: i64 = c.resting_length - vec_length;
    proof {
        lemma_mul_within(cfg.stiffness as int, spring_strength as int, LIMIT as int, 5 * REACH);
        lemma_tdiv_shrinks(cfg.stiffness * spring_strength, SCALE as int);
        lemma_mul_within(cfg.dampening as int, dot as int, LIMIT as int, 8 * REACH);
        lemma_tdiv_shrinks(cfg.dampening * dot, 2 * SCALE);
        assert(LIMIT * (5 * REACH) == 500_000_000_000_000_000_000_000_000) by (nonlinear_arith)
            requires
                LIMIT == 100_000_000_000,
                REACH == 1_000_000_000_000_000,
        ;
        assert(LIMIT * (8 * REACH) == 800_000_000_000_000_000_000_000_000) by (nonlinear_arith)
            requires
                LIMIT == 100_000_000_000,
                REACH == 1_000_000_000_000_000,
        ;
    }
    let pull: i128 = mul_div(cfg.stiffness, spring_strength, SCALE);
    let drag: i128 = mul_div(cfg.dampening, dot, 2 * SCALE);
    clamp_wide(pull - drag, -FORCE_MAX, FORCE_MAX)
}

/// Change of velocity that the spring `c` gives `b`, and takes from `a`, in one
/// sub-iteration.
pub fn connection_kick(a: &SBNode, b: &SBNode, c: &SBConnection, cfg: &Config) -> (r: Vec2)
    requires
        cfg.wf(),
        a@.within(REACH as int, 2 * REACH),
        b@.within(REACH as int, 2 * REACH),
        0 <= c.resting_length <= LIMIT,
    ensures
        r@ == spring_kick(a@, b@, *c, *cfg),
        r@.within(FORCE_MAX as int),
        within_kick(r@, *cfg),
{
    proof {
        lemma_spring_kick_bounded(a@, b@, *c, *cfg);
    }
    let vec: Vec2 = b.read_pos.minus(a.read_pos);
    if vec.is_zero() {
        return Vec2 { x: 0, y: 0 };
    }
    let vec_norm: Vec2 = vec.normalize();
    let force: i64 = connection_force(a, b, c, cfg);
    proof {
        lemma_kick_within(vec_norm@, force as int, *cfg);
    }
    let vector_force: Vec2 = vec_norm.times(force);
    step_share_exec(vector_force, cfg)
}

/// Lets every spring act once, in the order of the connections. Only
/// velocities change.
pub fn simulation_update(sb: &mut SB, cfg: &Config)
    requires
        old(sb).wf(),
        cfg.wf(),
        old(sb)@.within(REACH as int, REACH as int),
    ensures
        final(sb).wf(),
        final(sb)@ == (BodyView {
            nodes: spring_pass(
                old(sb)@.nodes,
                old(sb)@.connections,
                *cfg,
                old(sb)@.connections.len() as int,
            ),
            ..old(sb)@
        }),
        moved_within(
            old(sb)@.nodes,
            final(sb)@.nodes,
            0,
            old(sb)@.connections.len() * FORCE_MAX,
        ),
        forall|i: int|
            0 <= i < old(sb)@.nodes.len() ==> within_kicks(
                (#[trigger] final(sb)@.nodes[i]).vel.minus(old(sb)@.nodes[i].vel),
                degree(old(sb)@.connections, i, old(sb)@.connections.len() as int) as int,
                *cfg,
            ),
{
    let total: usize = sb.connections.len();
    let mut k: usize = 0;
    proof {
        assert(0 * FORCE_MAX == 0);
        assert(node_views(sb.nodes@) =~= spring_pass(old(sb)@.nodes, old(sb)@.connections, *cfg, 0));
    }
    while k < total
        invariant
            sb.wf(),
            cfg.wf(),
            total == sb.connections.len(),
            0 <= k <= total,
            sb.connections == old(sb).connections,
            sb.base_skeleton == old(sb).base_skeleton,
            sb.base_skeleton_norm == old(sb).base_skeleton_norm,
            sb.skeleton == old(sb).skeleton,
            sb.bounding_box == old(sb).bounding_box,
            sb.center == old(sb).center,
            sb.angle == old(sb).angle,
            sb.node_num == old(sb).node_num,
            nodes_within(old(sb)@.nodes, REACH as int, REACH as int),
            node_views(sb.nodes@) == spring_pass(
                old(sb)@.nodes,
                old(sb)@.connections,
                *cfg,
                k as int,
            ),
            moved_within(old(sb)@.nodes, node_views(sb.nodes@), 0, k * FORCE_MAX),
        decreases total - k,
    {
        let connection: SBConnection = sb.connections[k];
        let ghost views = node_views(sb.nodes@);
        proof {
            assert(sb@.connections[k as int].valid_for(sb@.nodes.len() as int));
            assert(k * FORCE_MAX <= 65_535 * FORCE_MAX) by (nonlinear_arith)
                requires
                    0 <= k <= 65_535,
            ;
            lemma_moved_within(
                old(sb)@.nodes,
                views,
                0,
                k * FORCE_MAX,
                REACH as int,
                REACH as int,
            );
            assert(views[connection.i1 as int].within(REACH + 0, REACH + k * FORCE_MAX));
            assert(views[connection.i2 as int].within(REACH + 0, REACH + k * FORCE_MAX));
        }
        let node1: SBNode = sb.nodes[connection.i1];
        let node2: SBNode = sb.nodes[connection.i2];
        let kick: Vec2 = connection_kick(&node1, &node2, &connection, cfg);
        sb.nodes.set(connection.i1, SBNode { vel: node1.vel.minus(kick), ..node1 });
        sb.nodes.set(connection.i2, SBNode { vel: node2.vel.plus(kick), ..node2 });
        proof {
            assert(node_views(sb.nodes@) =~= apply_spring(views, connection, *cfg));
            assert((k + 1) * FORCE_MAX == k * FORCE_MAX + FORCE_MAX) by (nonlinear_arith);
            let after = node_views(sb.nodes@);
            let before = old(sb)@.nodes;
            assert forall|i: int| 0 <= i < before.len() implies {
                &&& (#[trigger] after[i]).read_pos.minus(before[i].read_pos).within(0)
                &&& after[i].write_pos.minus(before[i].write_pos).within(0)
                &&& after[i].vel.minus(before[i].vel).within((k + 1) * FORCE_MAX)
            } by {
                assert(views[i].vel.minus(before[i].vel).within(k * FORCE_MAX));
            }
        }
        k = k + 1;
    }
    proof {
        let before = old(sb)@.nodes;
        let links = old(sb)@.connections;
        assert forall|i: int| 0 <= i < before.len() implies within_kicks(
            (#[trigger] sb@.nodes[i]).vel.minus(before[i].vel),
            degree(links, i, links.len() as int) as int,
            *cfg,
        ) by {
            lemma_spring_pass_bounded(before, links, *cfg, links.len() as int, i);
        }
    }
}

/// Force that pulls a node toward its place in the skeleton, `target` away.
pub fn skeleton_pull(target: Vec2, cfg: &Config) -> (r: i64)
    requires
        cfg.wf(),
        target@.within(2 * REACH),
    ensures
        r == skeleton_force(target@, *cfg),
        -FORCE_MAX <= r <= FORCE_MAX,
{
    let length: i64 = target.length();
    proof {
        lemma_length_bounds(target@, length as int, 2 * REACH);
    }
    clamp_wide(mul_div(cfg.skeleton_stiffness, -length, SCALE), -FORCE_MAX, FORCE_MAX)
}

/// Pulls every node toward its place in the skeleton. Only velocities change.
pub fn skeleton_simulation(sb: &mut SB, cfg: &Config)
    requires
        old(sb).wf(),
        cfg.wf(),
        old(sb)@.within(REACH as int, 2 * REACH),
    ensures
        final(sb).wf(),
        final(sb)@ == (BodyView {
            nodes: skeleton_pass(old(sb)@.nodes, old(sb)@.skeleton, *cfg),
            ..old(sb)@
        }),
        moved_within(old(sb)@.nodes, final(sb)@.nodes, 0, FORCE_MAX as int),
        forall|i: int|
            0 <= i < old(sb)@.nodes.len() ==> within_kick(
                old(sb)@.nodes[i].vel.minus((#[trigger] final(sb)@.nodes[i]).vel),
                *cfg,
            ),
{
    let n: usize = sb.nodes.len();
    let mut index: usize = 0;
    while index < n
        invariant
            sb.wf(),
            cfg.wf(),
            n == sb.nodes.len(),
            n == old(sb).nodes.len(),
            0 <= index <= n,
            sb.connections == old(sb).connections,
            sb.base_skeleton == old(sb).base_skeleton,
            sb.base_skeleton_norm == old(sb).base_skeleton_norm,
            sb.skeleton == old(sb).skeleton,
            sb.bounding_box == old(sb).bounding_box,
            sb.center == old(sb).center,
            sb.angle == old(sb).angle,
            sb.node_num == old(sb).node_num,
            old(sb)@.within(REACH as int, 2 * REACH),
            forall|i: int| index <= i < n ==> (#[trigger] sb.nodes[i]) == old(sb).nodes[i],
            forall|i: int|
                0 <= i < index ==> (#[trigger] sb.nodes[i])@ == skeleton_pass(
                    old(sb)@.nodes,
                    old(sb)@.skeleton,
                    *cfg,
                )[i],
        decreases n - index,
    {
        let node1: SBNode = sb.nodes[index];
        let skeleton_pos: Vec2 = sb.skeleton[index];
        proof {
            assert(old(sb)@.nodes[index as int].within(REACH as int, 2 * REACH));
            assert(old(sb)@.skeleton[index as int].within(REACH as int));
            assert(old(sb)@.nodes[index as int] == node1@);
            assert(old(sb)@.skeleton[index as int] == skeleton_pos@);
        }
        let vec: Vec2 = skeleton_pos.minus(node1.read_pos);
        if !vec.is_zero() {
            let vec_norm: Vec2 = vec.normalize();
            let force: i64 = skeleton_pull(vec, cfg);
            proof {
                lemma_kick_within(vec_norm@, force as int, *cfg);
            }
            let kick: Vec2 = step_share_exec(vec_norm.times(force), cfg);
            sb.nodes.set(index, SBNode { vel: node1.vel.minus(kick), ..node1 });
        }
        index = index + 1;
    }
    proof {
        let want = skeleton_pass(old(sb)@.nodes, old(sb)@.skeleton, *cfg);
        assert(node_views(sb.nodes@) =~= want);
        assert forall|i: int| 0 <= i < want.len() implies {
            &&& (#[trigger] want[i]).read_pos.minus(old(sb)@.nodes[i].read_pos).within(0)
            &&& want[i].write_pos.minus(old(sb)@.nodes[i].write_pos).within(0)
            &&& want[i].vel.minus(old(sb)@.nodes[i].vel).within(FORCE_MAX as int)
        } by {
            let node = old(sb)@.nodes[i];
            let target = old(sb)@.skeleton[i].minus(node.read_pos);
            if !target.is_zero() {
                lemma_unit_within(target);
                lemma_kick_within(target.unit(), skeleton_force(target, *cfg), *cfg);
            }
        }
        assert forall|i: int| 0 <= i < want.len() implies within_kick(
            old(sb)@.nodes[i].vel.minus((#[trigger] sb@.nodes[i]).vel),
            *cfg,
        ) by {
            lemma_skeleton_pass_bounded(old(sb)@.nodes, old(sb)@.skeleton, *cfg, i);
        }
    }
}

/// The vector `v` is no longer than `FORCE_MAX * dt / iteration_count`: what the
/// greatest force changes a velocity by in one sub-iteration.
pub open spec fn within_kick(v: V2, cfg: Config) -> bool {
    v.len_sq() * ((SCALE * cfg.iteration_count) * (SCALE * cfg.iteration_count)) <= (FORCE_MAX
        * cfg.dt) * (FORCE_MAX * cfg.dt)
}

/// A force within `FORCE_MAX` along a vector no longer than one changes a
/// velocity by a vector no longer than `FORCE_MAX * dt / iteration_count`.
pub proof fn lemma_kick_length(n: V2, force: int, cfg: Config)
    requires
        cfg.wf(),
        n.len_sq() <= SCALE * SCALE,
        within(force, FORCE_MAX as int),
    ensures
        within_kick(step_share_vec(n.times(force), cfg), cfg),
{
    let s = SCALE as int;
    let f = FORCE_MAX as int;
    let dt = cfg.dt as int;
    let count = cfg.iteration_count as int;
    let w1 = n.times(force);
    let w2 = V2 { x: fx_mul(w1.x, dt), y: fx_mul(w1.y, dt) };
    let k = step_share_vec(w1, cfg);
    lemma_scaled_length(n, force, s);
    lemma_scaled_length(w1, dt, s);
    lemma_scaled_length(w2, 1, count);
    assert(w2.x * 1 == w2.x && w2.y * 1 == w2.y);
    assert(k == (V2 { x: tdiv(w2.x * 1, count), y: tdiv(w2.y * 1, count) }));
    let a1 = w1.len_sq();
    let a2 = w2.len_sq();
    let ak = k.len_sq();
    let an = n.len_sq();
    lemma_len_nonneg(n);
    lemma_len_nonneg(w1);
    lemma_len_nonneg(w2);
    lemma_len_nonneg(k);
    assert(0 <= force * force <= f * f) by (nonlinear_arith)
        requires
            -f <= force <= f,
    ;
    assert(a1 <= f * f) by (nonlinear_arith)
        requires
            a1 * (s * s) <= an * (force * force),
            0 <= an <= s * s,
            0 <= force * force <= f * f,
            s > 0,
            a1 >= 0,
    ;
    assert(a2 * (s * s) <= (f * f) * (dt * dt)) by (nonlinear_arith)
        requires
            a2 * (s * s) <= a1 * (dt * dt),
            0 <= a1 <= f * f,
    ;
    assert(ak * ((s * count) * (s * count)) <= (f * dt) * (f * dt)) by (nonlinear_arith)
        requires
            ak * (count * count) <= a2 * (1 * 1),
            a2 * (s * s) <= (f * f) * (dt * dt),
            ak >= 0,
            a2 >= 0,
            s > 0,
            count > 0,
    ;
}

/// A squared length is not negative.
pub proof fn lemma_len_nonneg(v: V2)
    ensures
        v.len_sq() >= 0,
{
    assert(v.x * v.x + v.y * v.y >= 0) by (nonlinear_arith);
}

/// One spring changes the velocity of each of its ends by a vector no longer
/// than `FORCE_MAX * dt / iteration_count`, whatever the nodes.
pub proof fn lemma_spring_kick_bounded(a: NodeView, b: NodeView, c: SBConnection, cfg: Config)
    requires
        cfg.wf(),
    ensures
        within_kick(spring_kick(a, b, c, cfg), cfg),
{
    let d = b.read_pos.minus(a.read_pos);
    if d.is_zero() {
        lemma_zero_within_kick(cfg);
    } else {
        crate::vec2::lemma_unit_length(d);
        lemma_kick_length(d.unit(), spring_force(a, b, c, cfg), cfg);
    }
}

/// The skeleton changes the velocity of a node by a vector no longer than
/// `FORCE_MAX * dt / iteration_count`, whatever the node and its place.
pub proof fn lemma_skeleton_kick_bounded(node: NodeView, place: V2, cfg: Config)
    requires
        cfg.wf(),
    ensures
        within_kick(skeleton_kick(node, place, cfg), cfg),
{
    let target = place.minus(node.read_pos);
    if target.is_zero() {
        lemma_zero_within_kick(cfg);
    } else {
        crate::vec2::lemma_unit_length(target);
        lemma_kick_length(target.unit(), skeleton_force(target, cfg), cfg);
    }
}

/// No change is within every bound.
pub proof fn lemma_zero_within_kick(cfg: Config)
    ensures
        within_kick(V2::zero(), cfg),
{
    let d = (SCALE * cfg.iteration_count) * (SCALE * cfg.iteration_count);
    let b = FORCE_MAX * cfg.dt;
    assert(V2::zero().len_sq() * d == 0) by (nonlinear_arith)
        requires
            V2::zero().len_sq() == 0int * 0int + 0int * 0int,
    ;
    assert(b * b >= 0) by (nonlinear_arith);
}

/// Number of the first `k` connections that end at node `i`.
pub open spec fn degree(connections: Seq<SBConnection>, i: int, k: int) -> nat
    decreases k,
{
    if k <= 0 {
        0
    } else if connections[k - 1].i1 == i || connections[k - 1].i2 == i {
        degree(connections, i, k - 1) + 1
    } else {
        degree(connections, i, k - 1)
    }
}

/// The vector `v` is no longer than `m` times `FORCE_MAX * dt /
/// iteration_count`: what `m` forces, each the greatest, change a velocity by in
/// one sub-iteration.
pub open spec fn within_kicks(v: V2, m: int, cfg: Config) -> bool {
    v.len_sq() * ((SCALE * cfg.iteration_count) * (SCALE * cfg.iteration_count)) <= (m * (FORCE_MAX
        * cfg.dt)) * (m * (FORCE_MAX * cfg.dt))
}

/// The inner product of two vectors is no more than the product of their
/// lengths.
proof fn lemma_inner_product(u: V2, w: V2)
    ensures
        u.dot_raw(w) * u.dot_raw(w) <= u.len_sq() * w.len_sq(),
{
    let a = u.x * w.x;
    let b = u.y * w.y;
    let e = u.x * w.y;
    let f = u.y * w.x;
    let xx = u.x * u.x;
    let yy = u.y * u.y;
    let zz = w.x * w.x;
    let tt = w.y * w.y;
    assert(a * b == e * f) by (nonlinear_arith)
        requires
            a == u.x * w.x,
            b == u.y * w.y,
            e == u.x * w.y,
            f == u.y * w.x,
    ;
    assert(a * a == xx * zz) by (nonlinear_arith)
        requires
            a == u.x * w.x,
            xx == u.x * u.x,
            zz == w.x * w.x,
    ;
    assert(b * b == yy * tt) by (nonlinear_arith)
        requires
            b == u.y * w.y,
            yy == u.y * u.y,
            tt == w.y * w.y,
    ;
    assert(e * e == xx * tt) by (nonlinear_arith)
        requires
            e == u.x * w.y,
            xx == u.x * u.x,
            tt == w.y * w.y,
    ;
    assert(f * f == yy * zz) by (nonlinear_arith)
        requires
            f == u.y * w.x,
            yy == u.y * u.y,
            zz == w.x * w.x,
    ;
    assert((a + b) * (a + b) == a * a + 2 * (a * b) + b * b) by (nonlinear_arith);
    assert((e - f) * (e - f) == e * e - 2 * (e * f) + f * f) by (nonlinear_arith);
    assert((xx + yy) * (zz + tt) == xx * zz + xx * tt + yy * zz + yy * tt) by (nonlinear_arith);
    assert((e - f) * (e - f) >= 0) by (nonlinear_arith);
}

/// One more kick lengthens a change of velocity by no more than the greatest
/// kick, whichever way it points.
proof fn lemma_add_kick(u: V2, w: V2, m: int, cfg: Config)
    requires
        cfg.wf(),
        m >= 0,
        within_kicks(u, m, cfg),
        within_kick(w, cfg),
    ensures
        within_kicks(u.plus(w), m + 1, cfg),
        within_kicks(u.minus(w), m + 1, cfg),
{
    let d = (SCALE * cfg.iteration_count) * (SCALE * cfg.iteration_count);
    let b = FORCE_MAX * cfg.dt;
    let a = m * b;
    let uu = u.len_sq();
    let ww = w.len_sq();
    let p = u.dot_raw(w);
    lemma_inner_product(u, w);
    lemma_len_nonneg(u);
    lemma_len_nonneg(w);
    assert(d >= 1) by (nonlinear_arith)
        requires
            d == (SCALE * cfg.iteration_count) * (SCALE * cfg.iteration_count),
            SCALE == 1_000_000,
            cfg.iteration_count >= 1,
    ;
    assert(b >= 0) by (nonlinear_arith)
        requires
            b == FORCE_MAX * cfg.dt,
            FORCE_MAX > 0,
            cfg.dt >= 0,
    ;
    assert(a >= 0) by (nonlinear_arith)
        requires
            a == m * b,
            m >= 0,
            b >= 0,
    ;
    assert((p * d) * (p * d) <= (a * b) * (a * b)) by (nonlinear_arith)
        requires
            p * p <= uu * ww,
            0 <= uu * d <= a * a,
            0 <= ww * d <= b * b,
            d >= 1,
    ;
    assert(-(a * b) <= p * d <= a * b) by (nonlinear_arith)
        requires
            (p * d) * (p * d) <= (a * b) * (a * b),
            a >= 0,
            b >= 0,
    ;
    assert((m + 1) * b == a + b) by (nonlinear_arith)
        requires
            a == m * b,
    ;
    assert(u.plus(w).len_sq() == uu + 2 * p + ww) by (nonlinear_arith)
        requires
            u.plus(w).len_sq() == (u.x + w.x) * (u.x + w.x) + (u.y + w.y) * (u.y + w.y),
            uu == u.x * u.x + u.y * u.y,
            ww == w.x * w.x + w.y * w.y,
            p == u.x * w.x + u.y * w.y,
    ;
    assert(u.minus(w).len_sq() == uu - 2 * p + ww) by (nonlinear_arith)
        requires
            u.minus(w).len_sq() == (u.x - w.x) * (u.x - w.x) + (u.y - w.y) * (u.y - w.y),
            uu == u.x * u.x + u.y * u.y,
            ww == w.x * w.x + w.y * w.y,
            p == u.x * w.x + u.y * w.y,
    ;
    assert((uu + 2 * p + ww) * d <= (a + b) * (a + b)) by (nonlinear_arith)
        requires
            uu * d <= a * a,
            ww * d <= b * b,
            p * d <= a * b,
    ;
    assert((uu - 2 * p + ww) * d <= (a + b) * (a + b)) by (nonlinear_arith)
        requires
            uu * d <= a * a,
            ww * d <= b * b,
            -(a * b) <= p * d,
    ;
}

/// Through the pass of the springs, the velocity of a node changes by a vector
/// no longer than `FORCE_MAX * dt / iteration_count` for each connection that
/// ends at it.
pub proof fn lemma_spring_pass_bounded(
    nodes: Seq<NodeView>,
    connections: Seq<SBConnection>,
    cfg: Config,
    k: int,
    i: int,
)
    requires
        cfg.wf(),
        crate::body::connections_valid(connections, nodes.len() as int),
        0 <= k <= connections.len(),
        0 <= i < nodes.len(),
    ensures
        spring_pass(nodes, connections, cfg, k).len() == nodes.len(),
        within_kicks(
            spring_pass(nodes, connections, cfg, k)[i].vel.minus(nodes[i].vel),
            degree(connections, i, k) as int,
            cfg,
        ),
    decreases k,
{
    if k <= 0 {
        let v = nodes[i].vel.minus(nodes[i].vel);
        assert(v == V2::zero());
        lemma_zero_within_kick(cfg);
        let d = (SCALE * cfg.iteration_count) * (SCALE * cfg.iteration_count);
        assert(v.len_sq() * d == 0) by (nonlinear_arith)
            requires
                v.len_sq() == 0int * 0int + 0int * 0int,
        ;
        assert((0 * (FORCE_MAX * cfg.dt)) * (0 * (FORCE_MAX * cfg.dt)) == 0) by (nonlinear_arith);
    } else {
        lemma_spring_pass_bounded(nodes, connections, cfg, k - 1, i);
        let prev = spring_pass(nodes, connections, cfg, k - 1);
        let c = connections[k - 1];
        assert(c.valid_for(nodes.len() as int));
        let kick = spring_kick(prev[c.i1 as int], prev[c.i2 as int], c, cfg);
        lemma_spring_kick_bounded(prev[c.i1 as int], prev[c.i2 as int], c, cfg);
        let before = prev[i].vel.minus(nodes[i].vel);
        let m = degree(connections, i, k - 1) as int;
        let after = spring_pass(nodes, connections, cfg, k)[i].vel.minus(nodes[i].vel);
        if c.i2 == i {
            lemma_add_kick(before, kick, m, cfg);
            assert(after == before.plus(kick));
        } else if c.i1 == i {
            lemma_add_kick(before, kick, m, cfg);
            assert(after == before.minus(kick));
        } else {
            assert(after == before);
        }
    }
}

/// The pull of the skeleton changes the velocity of each node by a vector no
/// longer than `FORCE_MAX * dt / iteration_count`.
pub proof fn lemma_skeleton_pass_bounded(
    nodes: Seq<NodeView>,
    skeleton: Seq<V2>,
    cfg: Config,
    i: int,
)
    requires
        cfg.wf(),
        0 <= i < nodes.len(),
    ensures
        within_kick(nodes[i].vel.minus(skeleton_pass(nodes, skeleton, cfg)[i].vel), cfg),
{
    lemma_skeleton_kick_bounded(nodes[i], skeleton[i], cfg);
    let kick = skeleton_kick(nodes[i], skeleton[i], cfg);
    assert(nodes[i].vel.minus(nodes[i].vel.minus(kick)) == kick);
}

/// A spring or skeleton force never exceeds `FORCE_MAX` in magnitude, whatever
/// the nodes and the parameters.
pub proof fn lemma_forces_bounded(
    a: NodeView,
    b: NodeView,
    c: SBConnection,
    target: V2,
    cfg: Config,
)
    ensures
        -FORCE_MAX <= spring_force(a, b, c, cfg) <= FORCE_MAX,
        -FORCE_MAX <= skeleton_force(target, cfg) <= FORCE_MAX,
{
}

/// A spring at its rest length, without damping, exerts no force: it changes
/// the velocity of neither end, whatever their velocities.
pub proof fn lemma_spring_at_rest(a: NodeView, b: NodeView, c: SBConnection, cfg: Config)
    requires
        cfg.wf(),
        cfg.dampening == 0,
        b.read_pos.minus(a.read_pos).length() == c.resting_length,
    ensures
        spring_force(a, b, c, cfg) == 0,
        spring_kick(a, b, c, cfg) == V2::zero(),
{
    let d = b.read_pos.minus(a.read_pos);
    let closing = d.unit().dot(b.vel.minus(a.vel));
    assert(cfg.stiffness * (c.resting_length - d.length()) == 0) by (nonlinear_arith)
        requires
            c.resting_length - d.length() == 0,
    ;
    assert(cfg.dampening * closing == 0) by (nonlinear_arith)
        requires
            cfg.dampening == 0,
    ;
    lemma_zero_share(d.unit(), cfg);
}

/// A force of zero changes no velocity.
pub proof fn lemma_zero_share(n: V2, cfg: Config)
    requires
        cfg.wf(),
    ensures
        step_share_vec(n.times(0), cfg) == V2::zero(),
{
    assert(n.x * 0 == 0 && n.y * 0 == 0) by (nonlinear_arith);
    assert(0 * cfg.dt == 0) by (nonlinear_arith);
    assert(tdiv(0, SCALE as int) == 0);
    assert(tdiv(0, cfg.iteration_count as int) == 0) by (nonlinear_arith)
        requires
            cfg.iteration_count >= 1,
            tdiv(0, cfg.iteration_count as int) == 0int / (cfg.iteration_count as int),
    ;
}

/// A body all of whose springs are at rest length keeps every velocity through
/// the pass of the springs, where there is no damping.
pub proof fn lemma_springs_at_rest(
    nodes: Seq<NodeView>,
    connections: Seq<SBConnection>,
    cfg: Config,
    k: int,
)
    requires
        cfg.wf(),
        cfg.dampening == 0,
        0 <= k <= connections.len(),
        forall|j: int|
            0 <= j < connections.len() ==> {
                let c = #[trigger] connections[j];
                &&& c.valid_for(nodes.len() as int)
                &&& nodes[c.i2 as int].read_pos.minus(nodes[c.i1 as int].read_pos).length()
                    == c.resting_length
            },
    ensures
        spring_pass(nodes, connections, cfg, k) == nodes,
    decreases k,
{
    if k > 0 {
        lemma_springs_at_rest(nodes, connections, cfg, k - 1);
        let c = connections[k - 1];
        lemma_spring_at_rest(nodes[c.i1 as int], nodes[c.i2 as int], c, cfg);
        assert(apply_spring(nodes, c, cfg) =~= nodes);
    }
}

/// A body whose nodes are exactly where the skeleton puts them keeps every
/// velocity through the pull of the skeleton.
pub proof fn lemma_skeleton_at_rest(nodes: Seq<NodeView>, skeleton: Seq<V2>, cfg: Config)
    requires
        nodes.len() == skeleton.len(),
        forall|i: int| 0 <= i < nodes.len() ==> (#[trigger] nodes[i]).read_pos == skeleton[i],
    ensures
        skeleton_pass(nodes, skeleton, cfg) == nodes,
{
    assert(skeleton_pass(nodes, skeleton, cfg) =~= nodes);
}

} // verus!

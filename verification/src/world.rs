//! The scene: every body advanced by one sub-iteration, every pair of bodies
//! tested both ways, and the whole repeated for a tick.

use crate::body::{pending_within, reads_within, BodyView, NodeView, SB};
use crate::collision::{collided, pending_moved, soft_body_collision, HIT_PUSH, PASS_PUSH, ROOM};
use crate::fixed::REACH;
use crate::settings::Config;
use crate::step::{stepped, update_body, AFTER_STEP};
use vstd::prelude::*;

verus! {

/// Most bodies a scene may hold.
pub const MAX_BODIES: usize = 10_000;

/// Most that the two passes over one pair of bodies move a node of either.
pub const PAIR_PUSH: i64 = 51_100_000_000_000;

/// The mathematical values of the bodies of a scene.
pub open spec fn body_views(s: Seq<SB>) -> Seq<BodyView> {
    Seq::new(s.len(), |i: int| s[i]@)
}

/// Every body of the scene is sound in shape.
pub open spec fn all_wf(s: Seq<SB>) -> bool {
    forall|i: int| 0 <= i < s.len() ==> (#[trigger] s[i]).wf()
}

/// Every body of the scene is in range: a sub-iteration may begin.
pub open spec fn scene_in_range(s: Seq<BodyView>) -> bool {
    forall|i: int| 0 <= i < s.len() ==> (#[trigger] s[i]).in_range()
}

/// The scene after each body has been advanced by one sub-iteration.
pub open spec fn step_all(s: Seq<BodyView>, cfg: Config) -> Seq<BodyView> {
    Seq::new(s.len(), |i: int| stepped(s[i], cfg))
}

/// The body `b` with its nodes replaced.
pub open spec fn with_nodes(b: BodyView, nodes: Seq<NodeView>) -> BodyView {
    BodyView { nodes, ..b }
}

/// The scene after the bodies `i` and `j` have been tested against each other:
/// first the nodes of `i` against `j`, then the nodes of `j` against `i`.
pub open spec fn collide_pair(s: Seq<BodyView>, i: int, j: int) -> Seq<BodyView> {
    let first = collided(s[i], s[j]);
    let a1 = with_nodes(s[i], first.0);
    let b1 = with_nodes(s[j], first.1);
    let second = collided(b1, a1);
    s.update(i, with_nodes(a1, second.1)).update(j, with_nodes(b1, second.0))
}

/// The scene after body `i` has met the bodies `i + 1` to `j - 1`.
pub open spec fn collide_row(s: Seq<BodyView>, i: int, j: int) -> Seq<BodyView>
    decreases j - i,
{
    if j <= i + 1 {
        s
    } else {
        collide_pair(collide_row(s, i, j - 1), i, j - 1)
    }
}

/// The scene after each of the first `i` bodies has met every body after it.
pub open spec fn collide_rows(s: Seq<BodyView>, i: int) -> Seq<BodyView>
    decreases i,
{
    if i <= 0 {
        s
    } else {
        collide_row(collide_rows(s, i - 1), i - 1, s.len() as int)
    }
}

/// The scene after every pair of bodies has met once.
pub open spec fn all_collided(s: Seq<BodyView>) -> Seq<BodyView> {
    collide_rows(s, s.len() as int)
}

/// The scene after one sub-iteration: every body advanced, then every pair
/// tested.
pub open spec fn sub_iteration(s: Seq<BodyView>, cfg: Config) -> Seq<BodyView> {
    all_collided(step_all(s, cfg))
}

/// The scene after `k` sub-iterations.
pub open spec fn iterate(s: Seq<BodyView>, cfg: Config, k: nat) -> Seq<BodyView>
    decreases k,
{
    if k == 0 {
        s
    } else {
        sub_iteration(iterate(s, cfg, (k - 1) as nat), cfg)
    }
}

/// Number of pairs that body `k` has been part of when the pair `(i, j)` is
/// next, in a scene of `n` bodies.
pub open spec fn met(k: int, i: int, j: int, n: int) -> int {
    if k < i {
        n - 1
    } else if k == i {
        j - 1
    } else if k < j {
        i + 1
    } else {
        i
    }
}

/// Bound on the pending positions and velocities of a body that has been part
/// of `pairs` pairs since its last step.
pub open spec fn allowance(pairs: int) -> int {
    AFTER_STEP + pairs * PAIR_PUSH
}

/// The allowance grows by `PAIR_PUSH` with each pair and never reaches `ROOM`.
proof fn lemma_allowance(pairs: int)
    requires
        0 <= pairs < MAX_BODIES,
    ensures
        allowance(pairs + 1) == allowance(pairs) + PAIR_PUSH,
        0 <= allowance(pairs) <= ROOM - PAIR_PUSH,
{
    assert((pairs + 1) * PAIR_PUSH == pairs * PAIR_PUSH + PAIR_PUSH) by (nonlinear_arith);
    assert(0 <= pairs * PAIR_PUSH <= 9_999 * PAIR_PUSH) by (nonlinear_arith)
        requires
            0 <= pairs <= 9_999,
            PAIR_PUSH == 51_100_000_000_000,
    ;
}

/// Nodes whose pending values were within `w` and have moved by at most `d` are
/// within any `w2` from `w + d` on.
pub proof fn lemma_pending_moved(
    before: Seq<NodeView>,
    after: Seq<NodeView>,
    w: int,
    d: int,
    w2: int,
)
    requires
        pending_within(before, w),
        pending_moved(before, after, d),
        w + d <= w2,
    ensures
        pending_within(after, w2),
{
    assert forall|i: int| 0 <= i < after.len() implies (#[trigger] after[i]).write_pos.within(w2)
        && after[i].vel.within(w2) by {
        assert(before[i].write_pos.within(w));
        assert(after[i].write_pos.minus(before[i].write_pos).within(d));
    }
}

/// Nodes whose current positions were within `p` and have not moved are still.
pub proof fn lemma_reads_kept(before: Seq<NodeView>, after: Seq<NodeView>, p: int, d: int)
    requires
        reads_within(before, p),
        pending_moved(before, after, d),
    ensures
        reads_within(after, p),
{
    assert forall|i: int| 0 <= i < after.len() implies (#[trigger] after[i]).read_pos.within(p) by {
        assert(before[i].read_pos.within(p));
    }
}

/// Advances every body by one sub-iteration.
pub fn update_sb(bodies: &mut Vec<SB>, cfg: &Config)
    requires
        all_wf(old(bodies)@),
        cfg.wf(),
        scene_in_range(body_views(old(bodies)@)),
    ensures
        all_wf(final(bodies)@),
        body_views(final(bodies)@) == step_all(body_views(old(bodies)@), *cfg),
        forall|i: int|
            0 <= i < final(bodies).len() ==> (#[trigger] final(bodies)@[i])@.within(
                AFTER_STEP as int,
                AFTER_STEP as int,
            ),
{
    let n: usize = bodies.len();
    let mut i: usize = 0;
    proof {
        assert forall|k: int| 0 <= k < n implies (#[trigger] bodies@[k])@.in_range() by {
            assert(body_views(bodies@)[k].in_range());
        }
    }
    while i < n
        invariant
            cfg.wf(),
            n == bodies.len(),
            n == old(bodies).len(),
            0 <= i <= n,
            all_wf(bodies@),
            forall|k: int| i <= k < n ==> (#[trigger] bodies@[k]) == old(bodies)@[k],
            forall|k: int| i <= k < n ==> (#[trigger] bodies@[k])@.in_range(),
            forall|k: int| 0 <= k < i ==> (#[trigger] bodies@[k])@ == stepped(old(bodies)@[k]@, *cfg),
            forall|k: int|
                0 <= k < i ==> (#[trigger] bodies@[k])@.within(AFTER_STEP as int, AFTER_STEP as int),
        decreases n - i,
    {
        proof {
            assert(bodies@[i as int].wf());
            assert(bodies@[i as int]@.in_range());
            assert(body_views(old(bodies)@)[i as int].in_range());
        }
        update_body(&mut bodies[i], cfg);
        i = i + 1;
    }
    proof {
        assert(body_views(bodies@) =~= step_all(body_views(old(bodies)@), *cfg));
    }
}

/// Tests every pair of bodies, each pair both ways: body 0 with every later
/// body, then body 1 with every later body, and so on.
pub fn update_sb_collisions(bodies: &mut Vec<SB>)
    requires
        all_wf(old(bodies)@),
        old(bodies).len() <= MAX_BODIES,
        forall|i: int|
            0 <= i < old(bodies).len() ==> (#[trigger] old(bodies)@[i])@.within(
                AFTER_STEP as int,
                AFTER_STEP as int,
            ),
    ensures
        all_wf(final(bodies)@),
        body_views(final(bodies)@) == all_collided(body_views(old(bodies)@)),
{
    let n: usize = bodies.len();
    let ghost start = body_views(bodies@);
    let mut i: usize = 0;
    proof {
        assert forall|k: int| 0 <= k < n implies reads_within(
            (#[trigger] bodies@[k])@.nodes,
            REACH as int,
        ) && pending_within(bodies@[k]@.nodes, allowance(met(k, 0, 1, n as int))) by {
            let nodes = bodies@[k]@.nodes;
            assert(bodies@[k]@.within(AFTER_STEP as int, AFTER_STEP as int));
            assert(0 * PAIR_PUSH == 0);
            assert forall|m: int| 0 <= m < nodes.len() implies (#[trigger] nodes[m]).read_pos.within(
                REACH as int,
            ) by {
                assert(nodes[m].within(AFTER_STEP as int, AFTER_STEP as int));
            }
            assert forall|m: int| 0 <= m < nodes.len() implies (#[trigger] nodes[m]).write_pos.within(
                allowance(0),
            ) && nodes[m].vel.within(allowance(0)) by {
                assert(nodes[m].within(AFTER_STEP as int, AFTER_STEP as int));
            }
        }
    }
    while i < n
        invariant
            n == bodies.len(),
            n == start.len(),
            n <= MAX_BODIES,
            0 <= i <= n,
            start == body_views(old(bodies)@),
            all_wf(bodies@),
            body_views(bodies@) == collide_rows(start, i as int),
            forall|k: int|
                0 <= k < n ==> reads_within((#[trigger] bodies@[k])@.nodes, REACH as int)
                    && pending_within(bodies@[k]@.nodes, allowance(met(k, i as int, i + 1, n as int))),
        decreases n - i,
    {
        let ghost row_start = body_views(bodies@);
        let mut j: usize = i + 1;
        while j < n
            invariant
                n == bodies.len(),
                n == start.len(),
                n == row_start.len(),
                n <= MAX_BODIES,
                0 <= i < n,
                i < j <= n,
                all_wf(bodies@),
                body_views(bodies@) == collide_row(row_start, i as int, j as int),
                forall|k: int|
                    0 <= k < n ==> reads_within((#[trigger] bodies@[k])@.nodes, REACH as int)
                        && pending_within(
                        bodies@[k]@.nodes,
                        allowance(met(k, i as int, j as int, n as int)),
                    ),
            decreases n - j,
        {
            let ghost before = bodies@;
            let ghost views = body_views(before);
            proof {
                assert(before[i as int].wf());
                assert(before[j as int].wf());
                lemma_allowance(met(i as int, i as int, j as int, n as int));
                lemma_allowance(met(j as int, i as int, j as int, n as int));
                assert(reads_within(before[i as int]@.nodes, REACH as int));
                assert(reads_within(before[j as int]@.nodes, REACH as int));
            }
            let mut other: SB = bodies.remove(j);
            proof {
                assert(bodies@[i as int] == before[i as int]);
                let wi = allowance(met(i as int, i as int, j as int, n as int));
                let wj = allowance(met(j as int, i as int, j as int, n as int));
                lemma_pending_moved(before[i as int]@.nodes, before[i as int]@.nodes, wi, 0, ROOM as int);
                lemma_pending_moved(before[j as int]@.nodes, before[j as int]@.nodes, wj, 0, ROOM as int);
            }
            soft_body_collision(&mut bodies[i], &mut other);
            let ghost a1 = bodies@[i as int]@;
            let ghost b1 = other@;
            proof {
                let wi = allowance(met(i as int, i as int, j as int, n as int));
                let wj = allowance(met(j as int, i as int, j as int, n as int));
                lemma_pending_moved(before[i as int]@.nodes, a1.nodes, wi, HIT_PUSH as int, ROOM as int);
                lemma_pending_moved(before[j as int]@.nodes, b1.nodes, wj, PASS_PUSH as int, ROOM as int);
                lemma_reads_kept(before[i as int]@.nodes, a1.nodes, REACH as int, HIT_PUSH as int);
                lemma_reads_kept(before[j as int]@.nodes, b1.nodes, REACH as int, PASS_PUSH as int);
            }
            soft_body_collision(&mut other, &mut bodies[i]);
            let ghost a2 = bodies@[i as int]@;
            let ghost b2 = other@;
            bodies.insert(j, other);
            proof {
                let wi = allowance(met(i as int, i as int, j as int, n as int));
                let wj = allowance(met(j as int, i as int, j as int, n as int));
                assert(a1.nodes == collided(views[i as int], views[j as int]).0);
                assert(a1 == with_nodes(views[i as int], collided(views[i as int], views[j as int]).0));
                assert(b1 == with_nodes(views[j as int], collided(views[i as int], views[j as int]).1));
                assert(b2 == with_nodes(b1, collided(b1, a1).0));
                assert(a2 == with_nodes(a1, collided(b1, a1).1));
                assert(body_views(bodies@) =~= collide_pair(views, i as int, j as int));
                assert forall|k: int| 0 <= k < n implies (#[trigger] bodies@[k]).wf() by {
                    if k != i && k != j {
                        assert(before[k].wf());
                    }
                }
                assert forall|k: int| 0 <= k < n implies reads_within(
                    (#[trigger] bodies@[k])@.nodes,
                    REACH as int,
                ) && pending_within(
                    bodies@[k]@.nodes,
                    allowance(met(k, i as int, j + 1, n as int)),
                ) by {
                    if k == i {
                        lemma_reads_kept(a1.nodes, a2.nodes, REACH as int, PASS_PUSH as int);
                        lemma_pending_moved(
                            before[i as int]@.nodes,
                            a1.nodes,
                            wi,
                            HIT_PUSH as int,
                            wi + HIT_PUSH,
                        );
                        lemma_pending_moved(
                            a1.nodes,
                            a2.nodes,
                            wi + HIT_PUSH,
                            PASS_PUSH as int,
                            wi + PAIR_PUSH,
                        );
                    } else if k == j {
                        lemma_reads_kept(b1.nodes, b2.nodes, REACH as int, HIT_PUSH as int);
                        lemma_pending_moved(
                            before[j as int]@.nodes,
                            b1.nodes,
                            wj,
                            PASS_PUSH as int,
                            wj + PASS_PUSH,
                        );
                        lemma_pending_moved(
                            b1.nodes,
                            b2.nodes,
                            wj + PASS_PUSH,
                            HIT_PUSH as int,
                            wj + PAIR_PUSH,
                        );
                    } else {
                        assert(bodies@[k] == before[k]);
                        assert(reads_within(before[k]@.nodes, REACH as int));
                    }
                }
            }
            j = j + 1;
        }
        i = i + 1;
    }
}

/// Whether every body is in range, so that a sub-iteration may begin.
pub fn scene_fits(bodies: &Vec<SB>) -> (r: bool)
    ensures
        r == scene_in_range(body_views(bodies@)),
{
    let mut i: usize = 0;
    while i < bodies.len()
        invariant
            0 <= i <= bodies.len(),
            forall|k: int| 0 <= k < i ==> (#[trigger] body_views(bodies@)[k]).in_range(),
        decreases bodies.len() - i,
    {
        if !bodies[i].is_in_range() {
            proof {
                assert(!body_views(bodies@)[i as int].in_range());
            }
            return false;
        }
        i = i + 1;
    }
    true
}

/// One tick: `cfg.iteration_count` sub-iterations, each advancing every body
/// and then testing every pair. A sub-iteration begins only while the scene is
/// in range; the result is the number of sub-iterations made.
pub fn update_processes(bodies: &mut Vec<SB>, cfg: &Config) -> (done: u32)
    requires
        all_wf(old(bodies)@),
        cfg.wf(),
        old(bodies).len() <= MAX_BODIES,
    ensures
        all_wf(final(bodies)@),
        done <= cfg.iteration_count,
        body_views(final(bodies)@) == iterate(body_views(old(bodies)@), *cfg, done as nat),
        forall|k: nat|
            k < done ==> scene_in_range(#[trigger] iterate(body_views(old(bodies)@), *cfg, k)),
        done < cfg.iteration_count ==> !scene_in_range(
            iterate(body_views(old(bodies)@), *cfg, done as nat),
        ),
{
    let ghost start = body_views(bodies@);
    let mut done: u32 = 0;
    while done < cfg.iteration_count
        invariant
            cfg.wf(),
            all_wf(bodies@),
            bodies.len() == start.len(),
            bodies.len() <= MAX_BODIES,
            start == body_views(old(bodies)@),
            done <= cfg.iteration_count,
            body_views(bodies@) == iterate(start, *cfg, done as nat),
            forall|k: nat| k < done ==> scene_in_range(#[trigger] iterate(start, *cfg, k)),
        decreases cfg.iteration_count - done,
    {
        if !scene_fits(bodies) {
            return done;
        }
        let ghost before = body_views(bodies@);
        update_sb(bodies, cfg);
        proof {
            assert(body_views(bodies@).len() == before.len());
        }
        update_sb_collisions(bodies);
        proof {
            lemma_collide_rows_len(step_all(before, *cfg), before.len() as int);
        }
        done = done + 1;
    }
    done
}

/// Collisions neither add nor remove bodies.
proof fn lemma_collide_row_len(s: Seq<BodyView>, i: int, j: int)
    requires
        0 <= i,
        j <= s.len(),
    ensures
        collide_row(s, i, j).len() == s.len(),
    decreases j - i,
{
    if j > i + 1 {
        lemma_collide_row_len(s, i, j - 1);
        let r = collide_row(s, i, j - 1);
        let first = collided(r[i], r[j - 1]);
        let a1 = with_nodes(r[i], first.0);
        let b1 = with_nodes(r[j - 1], first.1);
        let second = collided(b1, a1);
        assert(collide_pair(r, i, j - 1) == r.update(i, with_nodes(a1, second.1)).update(
            j - 1,
            with_nodes(b1, second.0),
        ));
    }
}

/// Collisions neither add nor remove bodies.
proof fn lemma_collide_rows_len(s: Seq<BodyView>, i: int)
    requires
        i <= s.len(),
    ensures
        collide_rows(s, i).len() == s.len(),
    decreases i,
{
    if i > 0 {
        lemma_collide_rows_len(s, i - 1);
        lemma_collide_row_len(collide_rows(s, i - 1), i - 1, s.len() as int);
    }
}

} // verus!

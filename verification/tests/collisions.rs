use softbody::body::{BoundingBox, SBConnection, SBNode, SB};
use softbody::collision::{
    axis_aligned_line_overlap, bounding_box_collision, find_hit, get_closest_edge, line_pt_lateral,
    point_line_dist, sb_point_intersection, soft_body_collision, soft_body_collision_response,
};
use softbody::fixed::SCALE;
use softbody::settings::Config;
use softbody::vec2::Vec2;
use softbody::world::{update_sb, update_sb_collisions};

fn pt(x: i64, y: i64) -> Vec2 {
    Vec2::new(x * SCALE, y * SCALE)
}

/// A square of side 100 about `(cx, cy)`, its edges wound clockwise, with one
/// diagonal brace.
fn square(cx: i64, cy: i64) -> SB {
    let nodes = vec![
        SBNode::new(pt(cx - 50, cy + 50)),
        SBNode::new(pt(cx + 50, cy + 50)),
        SBNode::new(pt(cx - 50, cy - 50)),
        SBNode::new(pt(cx + 50, cy - 50)),
    ];
    let connections = vec![
        SBConnection::new(0, 1, true, 100 * SCALE),
        SBConnection::new(1, 3, true, 100 * SCALE),
        SBConnection::new(3, 2, true, 100 * SCALE),
        SBConnection::new(2, 0, true, 100 * SCALE),
        SBConnection::new(0, 3, false, 141_421_356),
    ];
    let mut sb = SB::new(&nodes, &connections);
    sb.update_bounding_box(5 * SCALE);
    sb
}

#[test]
fn intervals_overlap_when_they_share_a_point() {
    assert!(axis_aligned_line_overlap(0, 10, 10, 20));
    assert!(axis_aligned_line_overlap(0, 10, -5, 0));
    assert!(axis_aligned_line_overlap(0, 10, 3, 4));
    assert!(!axis_aligned_line_overlap(0, 10, 11, 20));
    assert!(!axis_aligned_line_overlap(0, 10, -5, -1));
}

#[test]
fn boxes_overlap_on_both_axes_or_not_at_all() {
    let a = BoundingBox { min_pos: pt(0, 0), max_pos: pt(10, 10) };
    let b = BoundingBox { min_pos: pt(10, 10), max_pos: pt(20, 20) };
    let c = BoundingBox { min_pos: pt(5, 11), max_pos: pt(6, 12) };
    let d = BoundingBox { min_pos: pt(11, 5), max_pos: pt(12, 6) };
    assert!(bounding_box_collision(&a, &b));
    assert!(!bounding_box_collision(&a, &c));
    assert!(!bounding_box_collision(&a, &d));
    assert!(bounding_box_collision(&b, &a));
}

#[test]
fn side_of_a_line() {
    // an upward line through the origin: left is negative x
    assert!(line_pt_lateral(pt(-1, 5), pt(0, 0), pt(0, 10)));
    assert!(!line_pt_lateral(pt(1, 5), pt(0, 0), pt(0, 10)));
    assert!(!line_pt_lateral(pt(0, 5), pt(0, 0), pt(0, 10)));
    // given downward, the line is still read upward
    assert!(line_pt_lateral(pt(-1, 5), pt(0, 10), pt(0, 0)) == line_pt_lateral(pt(-1, -5), pt(0, 0), pt(0, -10)));
}

#[test]
fn foot_of_the_perpendicular() {
    let (foot, t) = point_line_dist(pt(25, 7), pt(0, 0), pt(100, 0)).unwrap();
    assert_eq!(foot, pt(25, 0));
    assert_eq!(t, 250_000);
    let (foot, t) = point_line_dist(pt(-50, 7), pt(0, 0), pt(100, 0)).unwrap();
    assert_eq!(foot, pt(-50, 0));
    assert_eq!(t, -500_000);
    let (foot, t) = point_line_dist(pt(0, 10), pt(0, 0), pt(10, 10)).unwrap();
    assert_eq!(foot, pt(5, 5));
    assert_eq!(t, 500_000);
    assert!(point_line_dist(pt(1, 1), pt(3, 3), pt(3, 3)).is_none());
}

#[test]
fn quad_holds_its_interior_and_not_far_points() {
    let sb = square(0, 0);
    assert!(sb_point_intersection(pt(0, 0), &sb));
    assert!(sb_point_intersection(pt(49, -49), &sb));
    assert!(!sb_point_intersection(pt(1000, 1000), &sb));
    assert!(!sb_point_intersection(pt(-1000, 0), &sb));
    assert!(!sb_point_intersection(pt(51, 0), &sb));
    assert!(!sb_point_intersection(pt(0, 51), &sb));
    assert!(!sb_point_intersection(pt(0, -51), &sb));
}

#[test]
fn braces_take_no_part_in_the_inside_test() {
    // the same outline with its diagonal marked as an edge would count one more crossing
    let sb = square(0, 0);
    assert!(sb_point_intersection(pt(-20, 10), &sb));
    assert!(sb_point_intersection(pt(-20, 30), &sb));
}

#[test]
fn closest_edge_faces_the_intruder() {
    let a = square(0, 0);
    // a node just inside the right edge, whose own body lies to the right
    let hit = get_closest_edge(pt(40, 10), pt(90, 0), &a);
    let (foot, dist, connection, t) = hit.unwrap();
    assert_eq!(connection, 1);
    assert_eq!(foot, pt(50, 10));
    assert_eq!(dist, 10 * SCALE);
    assert_eq!(t, 400_000);
    // seen from a body to the left, the left edge is the one that faces
    let (foot, dist, connection, t) = get_closest_edge(pt(40, 10), pt(-200, 10), &a).unwrap();
    assert_eq!(connection, 3);
    assert_eq!(foot, pt(-50, 10));
    assert_eq!(dist, 90 * SCALE);
    assert_eq!(t, 600_000);
}

#[test]
fn no_edge_qualifies_without_a_facing_edge() {
    let a = square(0, 0);
    // the centre of the intruder's side coincides with the square's: every normal points away
    assert!(get_closest_edge(pt(0, 0), pt(0, 0), &a).is_none());
    let braces_only = SB::new(
        &vec![SBNode::new(pt(0, 0)), SBNode::new(pt(10, 0))],
        &vec![SBConnection::new(0, 1, false, 10 * SCALE)],
    );
    assert!(get_closest_edge(pt(5, 1), pt(5, 50), &braces_only).is_none());
}

#[test]
fn response_shares_the_correction() {
    let mut a = square(0, 0);
    let mut node = SBNode { read_pos: pt(40, 10), write_pos: pt(41, 11), vel: pt(-20, 3) };
    soft_body_collision_response(&mut node, &mut a, 1, 3, pt(50, 10), 400_000);
    // the correction is (-10, 0): the node gets it back, the ends get 0.6 and 0.4 of it
    assert_eq!(node.write_pos, pt(51, 11));
    assert_eq!(node.vel, pt(-10, 3));
    assert_eq!(node.read_pos, pt(40, 10));
    assert_eq!(a.nodes[1].write_pos, pt(44, 50));
    assert_eq!(a.nodes[1].vel, pt(-6, 0));
    assert_eq!(a.nodes[3].write_pos, pt(46, -50));
    assert_eq!(a.nodes[3].vel, pt(-4, 0));
    assert_eq!(a.nodes[1].read_pos, pt(50, 50));
    assert_eq!(a.nodes[0].write_pos, pt(-50, 50));
    // nothing is made: node + first end + second end
    assert_eq!(10 - 6 - 4, 0);
}

#[test]
fn a_far_hit_is_taken_for_a_false_one() {
    let a = square(0, 0);
    // inside, but 60 from the facing edge: not closer than half the rest length
    let mut b = square(200, 0);
    b.nodes[0].read_pos = pt(-10, 0);
    assert!(sb_point_intersection(pt(-10, 0), &a));
    assert!(find_hit(&b, 0, &a).is_none());
    b.nodes[0].read_pos = pt(10, 0);
    let (connection, foot, t) = find_hit(&b, 0, &a).unwrap();
    assert_eq!((connection, foot, t), (1, pt(50, 0), 500_000));
}

#[test]
fn bodies_apart_are_left_alone() {
    let mut a = square(0, 0);
    let mut b = square(500, 0);
    let before_a = a.nodes.clone();
    let before_b = b.nodes.clone();
    soft_body_collision(&mut a, &mut b);
    soft_body_collision(&mut b, &mut a);
    assert_eq!(a.nodes, before_a);
    assert_eq!(b.nodes, before_b);
}

#[test]
fn overlapping_squares_are_pushed_apart() {
    let mut a = square(0, 0);
    let mut b = square(90, 3);
    // b's lower left node, at (40, -47), is inside a: 10 from a's right edge, 0.97 of
    // the way down it; b's upper left node, at (40, 53), is above a
    soft_body_collision(&mut b, &mut a);
    assert_eq!(b.nodes[2].write_pos, pt(50, -47));
    assert_eq!(b.nodes[2].vel, pt(10, 0));
    assert_eq!(b.nodes[2].read_pos, pt(40, -47));
    assert_eq!(a.nodes[1].write_pos, Vec2::new(49_700_000, 50 * SCALE));
    assert_eq!(a.nodes[1].vel, Vec2::new(-300_000, 0));
    assert_eq!(a.nodes[3].write_pos, Vec2::new(40_300_000, -50 * SCALE));
    assert_eq!(a.nodes[3].vel, Vec2::new(-9_700_000, 0));
    for i in [0, 1, 3] {
        assert_eq!(b.nodes[i].vel, Vec2::zero());
    }
    assert_eq!(a.nodes[0].vel, Vec2::zero());
    assert_eq!(a.nodes[2].vel, Vec2::zero());
}

#[test]
fn level_corners_do_not_strike() {
    // the corners of the one are level with the corners of the other: no node of either
    // lies strictly between the ends of an edge of the other
    let mut a = square(0, 0);
    let mut b = square(90, 0);
    let before_a = a.nodes.clone();
    let before_b = b.nodes.clone();
    soft_body_collision(&mut b, &mut a);
    soft_body_collision(&mut a, &mut b);
    assert_eq!(a.nodes, before_a);
    assert_eq!(b.nodes, before_b);
}

#[test]
fn every_pair_is_tested_both_ways() {
    let mut bodies = vec![square(0, 0), square(90, 3), square(1000, 0)];
    update_sb_collisions(&mut bodies);
    // first a's upper right node against b's left edge, then b's lower left node
    // against a's right edge; each response also moves the ends of the edge struck
    assert_eq!(bodies[0].nodes[1].vel, Vec2::new(-10_300_000, 0));
    assert_eq!(bodies[0].nodes[3].vel, Vec2::new(-9_700_000, 0));
    assert_eq!(bodies[1].nodes[0].vel, Vec2::new(9_700_000, 0));
    assert_eq!(bodies[1].nodes[2].vel, Vec2::new(10_300_000, 0));
    assert_eq!(bodies[0].nodes[1].write_pos, Vec2::new(39_700_000, 50 * SCALE));
    assert_eq!(bodies[1].nodes[2].write_pos, Vec2::new(50_300_000, -47 * SCALE));
    assert_eq!(bodies[0].nodes[1].read_pos, pt(50, 50));
    for i in 0..4 {
        assert_eq!(bodies[2].nodes[i].vel, Vec2::zero());
    }
    assert_eq!(bodies.len(), 3);
    assert_eq!(bodies[2].center, pt(1000, 0));
}

/// A square whose five springs, the diagonal among them, all rest at 100.
fn taut_square(cx: i64, cy: i64) -> SB {
    let nodes = vec![
        SBNode::new(pt(cx - 50, cy + 50)),
        SBNode::new(pt(cx + 50, cy + 50)),
        SBNode::new(pt(cx - 50, cy - 50)),
        SBNode::new(pt(cx + 50, cy - 50)),
    ];
    let connections = vec![
        SBConnection::new(0, 1, true, 100 * SCALE),
        SBConnection::new(1, 3, true, 100 * SCALE),
        SBConnection::new(3, 2, true, 100 * SCALE),
        SBConnection::new(2, 0, true, 100 * SCALE),
        SBConnection::new(0, 3, false, 100 * SCALE),
    ];
    SB::new(&nodes, &connections)
}

#[test]
fn two_squares_meet() {
    let mut cfg = Config::standard();
    cfg.gravity = Vec2::zero();
    let mut bodies = vec![taut_square(0, 0), taut_square(90, 0)];
    for i in 0..4 {
        bodies[1].nodes[i].vel = pt(-20, 0);
    }
    let mut fired = false;
    for tick in 0..40 {
        // one tick by hand: the step, then what the collisions are about to find
        update_sb(&mut bodies, &cfg);
        let mut hits = Vec::new();
        for k in 0..4 {
            if let Some((edge, foot, t)) = find_hit(&bodies[1], k, &bodies[0]) {
                hits.push((k, edge, foot, t));
            }
        }
        let struck_back = (0..4).any(|k| find_hit(&bodies[0], k, &bodies[1]).is_some());
        let before = bodies.clone();
        update_sb_collisions(&mut bodies);
        if hits.len() == 1 && !struck_back && !fired {
            fired = true;
            let (k, edge, foot, t) = hits[0];
            println!("tick {}: node {} struck edge {} at {:?}, t = {}", tick, k, edge, foot, t);
            assert!(bounding_box_collision(&before[0].bounding_box, &before[1].bounding_box));
            // the intruding node is pushed back by the whole correction
            let corr = before[1].nodes[k].read_pos.minus(foot);
            assert!(corr.x < 0);
            assert_eq!(bodies[1].nodes[k].vel, before[1].nodes[k].vel.minus(corr));
            assert_eq!(bodies[1].nodes[k].write_pos, before[1].nodes[k].write_pos.minus(corr));
            assert!(bodies[1].nodes[k].vel.x > before[1].nodes[k].vel.x);
            // and the ends of the struck edge forward, by 1 - t and t of it
            let c = before[0].connections[edge];
            let first = bodies[0].nodes[c.i1].vel.minus(before[0].nodes[c.i1].vel);
            let second = bodies[0].nodes[c.i2].vel.minus(before[0].nodes[c.i2].vel);
            assert_eq!(first, corr.times(SCALE - t));
            assert_eq!(second, corr.times(t));
            let net = corr.negated().plus(first).plus(second);
            assert!(net.x.abs() <= 1 && net.y.abs() <= 1);
        }
    }
    assert!(fired);
}

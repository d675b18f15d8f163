use softbody::body::{center_of, vec_rotate, BoundingBox, DistIndex, SBConnection, SBNode, SB};
use softbody::fixed::{LIMIT, SCALE};
use softbody::trig::HALF_PI;
use softbody::vec2::Vec2;

fn pt(x: i64, y: i64) -> Vec2 {
    Vec2::new(x * SCALE, y * SCALE)
}

fn square(cx: i64, cy: i64) -> SB {
    let nodes = vec![
        SBNode::new(pt(cx - 50, cy + 50)),
        SBNode::new(pt(cx + 50, cy + 50)),
        SBNode::new(pt(cx - 50, cy - 50)),
        SBNode::new(pt(cx + 50, cy - 50)),
    ];
    let connections = vec![
        SBConnection::new(0, 1, true, 100 * SCALE),
        SBConnection::new(1, 3, true, 100 * SCALE),
        SBConnection::new(3, 2, true, 100 * SCALE),
        SBConnection::new(2, 0, true, 100 * SCALE),
        SBConnection::new(0, 3, false, 141 * SCALE),
    ];
    assert!(SB::can_build(&nodes, &connections));
    SB::new(&nodes, &connections)
}

#[test]
fn node_starts_at_rest() {
    let n = SBNode::new(pt(3, -4));
    assert_eq!(n.read_pos, pt(3, -4));
    assert_eq!(n.write_pos, pt(3, -4));
    assert_eq!(n.vel, Vec2::zero());
}

#[test]
fn connection_and_box_and_pair_keep_their_fields() {
    let c = SBConnection::new(1, 2, true, 7);
    assert_eq!((c.i1, c.i2, c.is_edge, c.resting_length), (1, 2, true, 7));
    let b = BoundingBox::zero();
    assert_eq!(b.min_pos, Vec2::zero());
    assert_eq!(b.max_pos, Vec2::zero());
    let d = DistIndex::new(9, 4);
    assert_eq!((d.dist, d.index), (9, 4));
}

#[test]
fn new_body_has_centroid_and_rest_offsets() {
    let sb = square(10, 20);
    assert!(sb.is_wf());
    assert!(sb.is_in_range());
    assert_eq!(sb.node_num, 4);
    assert_eq!(sb.center, pt(10, 20));
    assert_eq!(sb.angle, 0);
    assert_eq!(sb.base_skeleton, vec![pt(-50, 50), pt(50, 50), pt(-50, -50), pt(50, -50)]);
    assert_eq!(sb.base_skeleton_norm[1], Vec2::new(707_106, 707_106));
    assert_eq!(sb.base_skeleton_norm[2], Vec2::new(-707_106, -707_106));
    assert_eq!(sb.skeleton.len(), 4);
    assert_eq!(sb.bounding_box, BoundingBox::zero());
}

#[test]
fn new_body_places_its_skeleton_on_its_nodes() {
    let sb = square(10, 20);
    for i in 0..4 {
        assert_eq!(sb.skeleton[i], sb.nodes[i].read_pos);
    }
}

#[test]
fn range_checks_tell_positions_from_velocities() {
    let mut sb = square(0, 0);
    assert!(sb.is_within(50 * SCALE, 0));
    assert!(!sb.is_within(50 * SCALE - 1, 0));
    assert!(sb.reads_fit(50 * SCALE));
    assert!(!sb.reads_fit(50 * SCALE - 1));
    sb.nodes[2].vel = Vec2::new(0, -7);
    assert!(sb.is_within(50 * SCALE, 7));
    assert!(!sb.is_within(50 * SCALE, 6));
    assert!(sb.pending_fits(50 * SCALE));
    sb.nodes[3].write_pos = Vec2::new(50 * SCALE + 1, 0);
    assert!(!sb.pending_fits(50 * SCALE));
    assert!(sb.reads_fit(50 * SCALE));
    assert!(sb.is_in_range());
    sb.nodes[0].read_pos = Vec2::new(LIMIT + 1, 0);
    assert!(!sb.is_in_range());
    assert!(sb.is_wf());
    sb.node_num = 3;
    assert!(!sb.is_wf());
}

#[test]
fn parts_are_refused_when_out_of_shape() {
    let nodes = vec![SBNode::new(pt(0, 0)), SBNode::new(pt(1, 0))];
    let none: Vec<SBNode> = Vec::new();
    assert!(!SB::can_build(&none, &Vec::new()));
    assert!(SB::can_build(&nodes, &Vec::new()));
    assert!(!SB::can_build(&nodes, &vec![SBConnection::new(0, 2, true, SCALE)]));
    assert!(!SB::can_build(&nodes, &vec![SBConnection::new(1, 1, true, SCALE)]));
    assert!(!SB::can_build(&nodes, &vec![SBConnection::new(0, 1, true, -1)]));
    assert!(!SB::can_build(&nodes, &vec![SBConnection::new(0, 1, true, LIMIT + 1)]));
    let far = vec![SBNode::new(Vec2::new(LIMIT + 1, 0))];
    assert!(!SB::can_build(&far, &Vec::new()));
    let many: Vec<SBNode> = (0..256).map(|i| SBNode::new(pt(i, 0))).collect();
    assert!(!SB::can_build(&many, &Vec::new()));
}

#[test]
fn center_is_the_mean_rounded_toward_zero() {
    let nodes = vec![SBNode::new(Vec2::new(1, -1)), SBNode::new(Vec2::new(2, -2))];
    assert_eq!(center_of(&nodes), Vec2::new(1, -1));
    let sb = square(-7, 3);
    assert_eq!(sb.get_center(), pt(-7, 3));
}

#[test]
fn bounding_box_is_the_padded_hull() {
    let mut sb = square(10, 20);
    sb.update_bounding_box(5 * SCALE);
    assert_eq!(sb.bounding_box.min_pos, pt(-45, -35));
    assert_eq!(sb.bounding_box.max_pos, pt(65, 75));
}

#[test]
fn bounding_box_holds_far_nodes() {
    let nodes = vec![SBNode::new(Vec2::new(-LIMIT, LIMIT)), SBNode::new(Vec2::new(LIMIT, -LIMIT))];
    let mut sb = SB::new(&nodes, &Vec::new());
    sb.update_bounding_box(0);
    assert_eq!(sb.bounding_box.min_pos, Vec2::new(-LIMIT, -LIMIT));
    assert_eq!(sb.bounding_box.max_pos, Vec2::new(LIMIT, LIMIT));
}

#[test]
fn rotation_by_a_quarter_turn() {
    let r = vec_rotate(&pt(100, 0), HALF_PI);
    assert!(r.x.abs() <= 200, "{:?}", r);
    assert!((r.y - 100 * SCALE).abs() <= 200, "{:?}", r);
    let same = vec_rotate(&pt(3, 4), 0);
    assert!((same.x - 3 * SCALE).abs() <= 10 && (same.y - 4 * SCALE).abs() <= 10);
}

#[test]
fn angle_of_an_unturned_body_is_zero() {
    let mut sb = square(0, 0);
    assert_eq!(sb.get_angle(), 0);
    // moved, not turned
    for n in sb.nodes.iter_mut() {
        n.read_pos = n.read_pos.plus(pt(37, -12));
    }
    sb.center = sb.get_center();
    assert_eq!(sb.get_angle(), 0);
    sb.update_skeleton();
    for i in 0..4 {
        assert_eq!(sb.skeleton[i], sb.nodes[i].read_pos);
    }
}

#[test]
fn angle_of_a_turned_body() {
    // the square turned by a quarter turn counter-clockwise about its centre
    let mut sb = square(0, 0);
    let turned = [pt(-50, -50), pt(-50, 50), pt(50, -50), pt(50, 50)];
    for i in 0..4 {
        sb.nodes[i].read_pos = turned[i];
    }
    let a = sb.get_angle();
    assert!((a - HALF_PI).abs() <= 5_000, "angle {}", a);
    sb.angle = a;
    sb.update_skeleton();
    for i in 0..4 {
        let d = sb.skeleton[i].minus(turned[i]);
        assert!(d.x.abs() <= SCALE / 2 && d.y.abs() <= SCALE / 2, "node {}: {:?}", i, d);
    }
}

#[test]
fn local_center_of_a_small_body_is_its_centroid() {
    let sb = square(10, 20);
    for i in 0..4 {
        assert_eq!(sb.get_rel_center(i), pt(10, 20));
    }
    let two = SB::new(&vec![SBNode::new(pt(0, 0)), SBNode::new(pt(4, 2))], &Vec::new());
    assert_eq!(two.get_rel_center(0), pt(2, 1));
}

#[test]
fn local_center_takes_the_four_nearest() {
    // six nodes on a line; the four nearest to node 0 are 0, 1, 2, 3
    let nodes: Vec<SBNode> = (0..6).map(|i| SBNode::new(pt(10 * i, 0))).collect();
    let sb = SB::new(&nodes, &Vec::new());
    assert_eq!(sb.get_rel_center(0), pt(15, 0));
    assert_eq!(sb.get_rel_center(5), pt(35, 0));
    // nearest to node 2 (x = 20): itself, 1 and 3 (10 away), and of 0 and 4 (20 away) the first
    assert_eq!(sb.get_rel_center(2), pt(15, 0));
}

#[test]
fn rest_offsets_of_close_nodes_are_normalised_to_unit_length() {
    let nodes = vec![SBNode::new(Vec2::new(0, 0)), SBNode::new(Vec2::new(2, 2))];
    let sb = SB::new(&nodes, &Vec::new());
    assert_eq!(sb.center, Vec2::new(1, 1));
    assert_eq!(sb.base_skeleton, vec![Vec2::new(-1, -1), Vec2::new(1, 1)]);
    assert_eq!(sb.base_skeleton_norm, vec![Vec2::new(-707_106, -707_106), Vec2::new(707_106, 707_106)]);
    assert_eq!(sb.skeleton, vec![Vec2::new(0, 0), Vec2::new(2, 2)]);
}

#[test]
fn rest_offsets_balance_up_to_the_rounding_of_the_mean() {
    let nodes =
        vec![SBNode::new(Vec2::new(0, 0)), SBNode::new(Vec2::new(1, 0)), SBNode::new(Vec2::new(1, 5))];
    let sb = SB::new(&nodes, &Vec::new());
    // the mean (2/3, 5/3) is rounded to (0, 1)
    assert_eq!(sb.center, Vec2::new(0, 1));
    let sum = sb.base_skeleton.iter().fold(Vec2::zero(), |acc, v| acc.plus(*v));
    assert_eq!(sum, Vec2::new(2, 2));
    let even = square(10, 20);
    let sum = even.base_skeleton.iter().fold(Vec2::zero(), |acc, v| acc.plus(*v));
    assert_eq!(sum, Vec2::zero());
}

use softbody::body::{SBConnection, SBNode, SB};
use softbody::collision::{
    find_hit, get_closest_edge, point_line_dist, sb_point_intersection,
    soft_body_collision_response, BAND_HIGH, BAND_LOW,
};
use softbody::fixed::SCALE;
use softbody::vec2::Vec2;

fn pt(x: i64, y: i64) -> Vec2 {
    Vec2::new(x * SCALE, y * SCALE)
}

/// One edge from the origin to (100, 0); its normal points up.
fn ledge() -> SB {
    let nodes = vec![SBNode::new(pt(0, 0)), SBNode::new(pt(100, 0))];
    SB::new(&nodes, &vec![SBConnection::new(0, 1, true, 100 * SCALE)])
}

fn square(cx: i64, cy: i64) -> SB {
    let nodes = vec![
        SBNode::new(pt(cx - 50, cy + 50)),
        SBNode::new(pt(cx + 50, cy + 50)),
        SBNode::new(pt(cx - 50, cy - 50)),
        SBNode::new(pt(cx + 50, cy - 50)),
    ];
    let connections = vec![
        SBConnection::new(0, 1, true, 100 * SCALE),
        SBConnection::new(1, 3, true, 100 * SCALE),
        SBConnection::new(3, 2, true, 100 * SCALE),
        SBConnection::new(2, 0, true, 100 * SCALE),
        SBConnection::new(0, 3, false, 141_421_356),
    ];
    let mut sb = SB::new(&nodes, &connections);
    sb.update_bounding_box(5 * SCALE);
    sb
}

#[test]
fn band_reaches_a_tenth_beyond_each_end() {
    let sb = ledge();
    let above = |x: i64| Vec2::new(x, 100 * SCALE);
    let at = |x: i64| Vec2::new(x, -SCALE);
    let (_, _, _, t) = get_closest_edge(at(110 * SCALE), above(110 * SCALE), &sb).unwrap();
    assert_eq!(t, BAND_HIGH);
    // the position along the edge is known to a millionth of its length: 100 raw units here
    assert!(get_closest_edge(at(110 * SCALE + 99), above(110 * SCALE + 99), &sb).is_some());
    assert!(get_closest_edge(at(110 * SCALE + 100), above(110 * SCALE + 100), &sb).is_none());
    let (foot, dist, connection, t) =
        get_closest_edge(at(-10 * SCALE), above(-10 * SCALE), &sb).unwrap();
    assert_eq!(t, BAND_LOW);
    assert_eq!(foot, pt(-10, 0));
    assert_eq!(dist, SCALE);
    assert_eq!(connection, 0);
    assert!(get_closest_edge(at(-10 * SCALE - 99), above(-10 * SCALE - 99), &sb).is_some());
    assert!(get_closest_edge(at(-10 * SCALE - 100), above(-10 * SCALE - 100), &sb).is_none());
}

#[test]
fn edge_must_face_the_centre_by_a_fifth() {
    let sb = ledge();
    let p = Vec2::new(50 * SCALE, -SCALE);
    // from the foot (50, 0): (100, 21.5) has direction cosine 0.2102 with the normal
    assert!(get_closest_edge(p, Vec2::new(150 * SCALE, 21_500_000), &sb).is_some());
    // (100, 19.3) has 0.1895
    assert!(get_closest_edge(p, Vec2::new(150 * SCALE, 19_300_000), &sb).is_none());
    // straight below, the edge faces away
    assert!(get_closest_edge(p, pt(50, -100), &sb).is_none());
}

#[test]
fn ties_go_to_the_earlier_edge() {
    // two edges on the same line, both facing up, the node equally far from both
    let nodes = vec![
        SBNode::new(pt(0, 0)),
        SBNode::new(pt(100, 0)),
        SBNode::new(pt(0, 0)),
        SBNode::new(pt(100, 0)),
    ];
    let connections =
        vec![SBConnection::new(2, 3, true, 100 * SCALE), SBConnection::new(0, 1, true, 100 * SCALE)];
    let sb = SB::new(&nodes, &connections);
    let (_, _, connection, _) = get_closest_edge(pt(50, -1), pt(50, 100), &sb).unwrap();
    assert_eq!(connection, 0);
}

#[test]
fn degenerate_edges_are_passed_over() {
    let nodes = vec![SBNode::new(pt(0, 0)), SBNode::new(pt(0, 0)), SBNode::new(pt(100, 0))];
    let connections =
        vec![SBConnection::new(0, 1, true, 100 * SCALE), SBConnection::new(0, 2, true, 100 * SCALE)];
    let sb = SB::new(&nodes, &connections);
    assert!(point_line_dist(pt(5, 5), pt(0, 0), pt(0, 0)).is_none());
    let (_, _, connection, _) = get_closest_edge(pt(50, -1), pt(50, 100), &sb).unwrap();
    assert_eq!(connection, 1);
    assert!(!sb_point_intersection(pt(0, 0), &sb));
}

#[test]
fn a_hit_must_be_closer_than_half_the_rest_length() {
    let a = square(0, 0);
    let mut b = square(200, 0);
    // exactly 50 from a's right edge: taken for a false hit
    b.nodes[0].read_pos = pt(0, 0);
    assert!(sb_point_intersection(pt(0, 0), &a));
    assert!(find_hit(&b, 0, &a).is_none());
    // one raw unit closer: a hit
    b.nodes[0].read_pos = Vec2::new(1, 0);
    assert_eq!(find_hit(&b, 0, &a), Some((1, pt(50, 0), 500_000)));
}

#[test]
fn an_edge_level_with_the_point_is_not_counted() {
    let sb = square(0, 0);
    // level with the upper corners, and so with the upper ends of both side edges
    assert!(!sb_point_intersection(pt(40, 50), &sb));
    assert!(!sb_point_intersection(pt(0, 50), &sb));
    // level with the lower corners
    assert!(!sb_point_intersection(pt(0, -50), &sb));
    // one raw unit inside either
    assert!(sb_point_intersection(Vec2::new(0, 50 * SCALE - 1), &sb));
    assert!(sb_point_intersection(Vec2::new(0, -50 * SCALE + 1), &sb));
    // on the right edge itself, between its ends, and one raw unit beyond it
    assert!(sb_point_intersection(pt(50, 0), &sb));
    assert!(!sb_point_intersection(Vec2::new(50 * SCALE + 1, 0), &sb));
    // on the left edge itself, and one raw unit inside it
    assert!(!sb_point_intersection(pt(-50, 0), &sb));
    assert!(sb_point_intersection(Vec2::new(-50 * SCALE + 1, 0), &sb));
}

#[test]
fn slanted_edges_are_crossed_exactly() {
    // a triangle (0,0), (100,100), (100,0), wound clockwise
    let nodes = vec![SBNode::new(pt(0, 0)), SBNode::new(pt(100, 100)), SBNode::new(pt(100, 0))];
    let connections = vec![
        SBConnection::new(0, 1, true, 141 * SCALE),
        SBConnection::new(1, 2, true, 100 * SCALE),
        SBConnection::new(2, 0, true, 100 * SCALE),
    ];
    let sb = SB::new(&nodes, &connections);
    assert!(sb_point_intersection(pt(60, 40), &sb));
    assert!(!sb_point_intersection(pt(40, 60), &sb));
    // one raw unit inside the slanted edge, on it, and one raw unit outside it: a
    // point on an edge that bounds the body on the left is left of the crossing
    assert!(sb_point_intersection(Vec2::new(50 * SCALE + 1, 50 * SCALE), &sb));
    assert!(!sb_point_intersection(pt(50, 50), &sb));
    assert!(!sb_point_intersection(Vec2::new(50 * SCALE - 1, 50 * SCALE), &sb));
}

#[test]
fn rounding_makes_less_than_one_raw_unit() {
    let mut a = square(0, 0);
    let start = Vec2::new(40 * SCALE - 1, 10 * SCALE);
    let mut node = SBNode { read_pos: start, write_pos: start, vel: Vec2::zero() };
    // correction (-10.000001, 0), a third of the way along the edge
    soft_body_collision_response(&mut node, &mut a, 1, 3, pt(50, 10), 333_333);
    assert_eq!(node.vel, Vec2::new(10_000_001, 0));
    assert_eq!(a.nodes[1].vel, Vec2::new(-6_666_670, 0));
    assert_eq!(a.nodes[3].vel, Vec2::new(-3_333_330, 0));
    let net = node.vel.x + a.nodes[1].vel.x + a.nodes[3].vel.x;
    assert_eq!(net, 1);
}

#[test]
fn beyond_an_end_the_shares_still_add_up() {
    let mut a = square(0, 0);
    let start = Vec2::new(40 * SCALE - 1, 10 * SCALE);
    let mut node = SBNode { read_pos: start, write_pos: start, vel: Vec2::zero() };
    soft_body_collision_response(&mut node, &mut a, 1, 3, pt(50, 10), -33_333);
    assert_eq!(node.vel.x + a.nodes[1].vel.x + a.nodes[3].vel.x, 0);
    assert_eq!(node.write_pos.x - start.x, 10_000_001);
    assert_eq!(a.nodes[3].vel, Vec2::new(333_330, 0));
    assert_eq!(a.nodes[1].vel, Vec2::new(-10_333_331, 0));
}

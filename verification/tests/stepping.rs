use softbody::body::{SBConnection, SBNode, SB};
use softbody::fixed::{LIMIT, SCALE};
use softbody::settings::Config;
use softbody::step::{advance, container_collision, update_body, update_sb_read_pos};
use softbody::vec2::Vec2;
use softbody::world::{scene_fits, update_processes, update_sb};

fn pt(x: i64, y: i64) -> Vec2 {
    Vec2::new(x * SCALE, y * SCALE)
}

fn lone(pos: Vec2, vel: Vec2) -> SB {
    let mut sb = SB::new(&vec![SBNode::new(pos)], &Vec::new());
    sb.nodes[0].vel = vel;
    sb
}

#[test]
fn gravity_then_motion() {
    let cfg = Config::standard();
    let mut sb = lone(pt(0, 0), pt(10, 0));
    advance(&mut sb, &cfg);
    // vel -= (0, 98) * 0.1; write_pos += vel * 0.1
    assert_eq!(sb.nodes[0].vel, Vec2::new(10 * SCALE, -9_800_000));
    assert_eq!(sb.nodes[0].write_pos, Vec2::new(SCALE, -980_000));
    assert_eq!(sb.nodes[0].read_pos, pt(0, 0));
}

#[test]
fn commit_copies_the_pending_position() {
    let mut sb = lone(pt(1, 2), pt(3, 4));
    sb.nodes[0].write_pos = pt(5, 6);
    update_sb_read_pos(&mut sb);
    assert_eq!(sb.nodes[0].read_pos, pt(5, 6));
    assert_eq!(sb.nodes[0].write_pos, pt(5, 6));
    assert_eq!(sb.nodes[0].vel, pt(3, 4));
}

#[test]
fn floor_holds_a_node_whatever_its_velocity() {
    let cfg = Config::standard();
    for vy in [-500, 0, 777] {
        let mut sb = lone(pt(10, -400), pt(3, vy));
        sb.nodes[0].write_pos = pt(11, -450);
        container_collision(&mut sb, &cfg);
        assert_eq!(sb.nodes[0].write_pos, pt(11, -340));
        assert_eq!(sb.nodes[0].vel, pt(3, 0));
        assert_eq!(sb.nodes[0].read_pos, pt(10, -400));
    }
}

#[test]
fn walls_hold_a_node() {
    let cfg = Config::standard();
    let mut right = lone(pt(700, 0), pt(9, 4));
    container_collision(&mut right, &cfg);
    assert_eq!(right.nodes[0].write_pos, pt(640, 0));
    assert_eq!(right.nodes[0].vel, pt(0, 4));
    let mut left = lone(pt(-700, 0), pt(-9, 4));
    container_collision(&mut left, &cfg);
    assert_eq!(left.nodes[0].write_pos, pt(-640, 0));
    assert_eq!(left.nodes[0].vel, pt(0, 4));
    let mut corner = lone(pt(-700, -400), pt(-9, -4));
    container_collision(&mut corner, &cfg);
    assert_eq!(corner.nodes[0].write_pos, pt(-640, -340));
    assert_eq!(corner.nodes[0].vel, Vec2::zero());
}

#[test]
fn nothing_holds_a_node_inside_or_above() {
    let cfg = Config::standard();
    for p in [pt(0, 0), pt(640, -340), pt(-640, 5000), pt(0, 99_000)] {
        let mut sb = lone(p, pt(1, 1));
        container_collision(&mut sb, &cfg);
        assert_eq!(sb.nodes[0].write_pos, p);
        assert_eq!(sb.nodes[0].vel, pt(1, 1));
    }
}

#[test]
fn one_step_of_a_falling_node() {
    let cfg = Config::standard();
    let mut sb = lone(pt(0, 0), Vec2::zero());
    update_body(&mut sb, &cfg);
    assert_eq!(sb.nodes[0].vel, Vec2::new(0, -9_800_000));
    assert_eq!(sb.nodes[0].read_pos, Vec2::new(0, -980_000));
    assert_eq!(sb.nodes[0].write_pos, Vec2::new(0, -980_000));
    assert_eq!(sb.center, Vec2::new(0, -980_000));
    assert_eq!(sb.skeleton[0], Vec2::new(0, -980_000));
    assert_eq!(sb.bounding_box.min_pos, Vec2::new(-5 * SCALE, -5_980_000));
    assert_eq!(sb.bounding_box.max_pos, Vec2::new(5 * SCALE, 4_020_000));
}

#[test]
fn correction_at_the_floor_lags_one_step() {
    let cfg = Config::standard();
    let mut sb = lone(Vec2::new(0, -339_500_000), Vec2::zero());
    update_body(&mut sb, &cfg);
    // the node has crossed the floor; its current position shows it, the pending one is held
    assert_eq!(sb.nodes[0].read_pos, Vec2::new(0, -340_480_000));
    assert_eq!(sb.nodes[0].write_pos, Vec2::new(0, -340 * SCALE));
    assert_eq!(sb.nodes[0].vel, Vec2::zero());
}

#[test]
fn a_tick_makes_its_sub_iterations() {
    let mut cfg = Config::standard();
    cfg.iteration_count = 3;
    let mut bodies = vec![lone(pt(0, 0), Vec2::zero()), lone(pt(300, 0), Vec2::zero())];
    assert!(scene_fits(&bodies));
    assert_eq!(update_processes(&mut bodies, &cfg), 3);
    // three sub-iterations, each a third of gravity's pull for a tenth of a unit
    assert_eq!(bodies[0].nodes[0].vel, Vec2::new(0, -9_799_998));
    assert_eq!(bodies[1].nodes[0].read_pos.x, 300 * SCALE);
}

#[test]
fn a_tick_leaves_a_scene_out_of_range_alone() {
    let cfg = Config::standard();
    let mut bodies = vec![lone(pt(0, 0), Vec2::zero()), lone(pt(300, 0), Vec2::zero())];
    bodies[1].nodes[0].vel = Vec2::new(LIMIT + 1, 0);
    assert!(!scene_fits(&bodies));
    assert_eq!(update_processes(&mut bodies, &cfg), 0);
    assert_eq!(bodies[0].nodes[0].read_pos, pt(0, 0));
    assert_eq!(bodies[0].nodes[0].vel, Vec2::zero());
    assert_eq!(bodies[1].nodes[0].vel, Vec2::new(LIMIT + 1, 0));
}

#[test]
fn every_body_is_advanced() {
    let cfg = Config::standard();
    let mut bodies = vec![lone(pt(0, 0), Vec2::zero()), lone(pt(300, 0), pt(10, 0))];
    update_sb(&mut bodies, &cfg);
    assert_eq!(bodies[0].nodes[0].read_pos, Vec2::new(0, -980_000));
    assert_eq!(bodies[1].nodes[0].read_pos, Vec2::new(301 * SCALE, -980_000));
}

#[test]
fn a_braced_square_at_rest_only_falls() {
    let mut cfg = Config::standard();
    cfg.dampening = 0;
    let nodes = vec![
        SBNode::new(pt(-50, 50)),
        SBNode::new(pt(50, 50)),
        SBNode::new(pt(-50, -50)),
        SBNode::new(pt(50, -50)),
    ];
    let connections = vec![
        SBConnection::new(0, 1, true, 100 * SCALE),
        SBConnection::new(1, 3, true, 100 * SCALE),
        SBConnection::new(3, 2, true, 100 * SCALE),
        SBConnection::new(2, 0, true, 100 * SCALE),
        SBConnection::new(0, 3, false, 141_421_356),
    ];
    let mut sb = SB::new(&nodes, &connections);
    update_body(&mut sb, &cfg);
    for i in 0..4 {
        assert_eq!(sb.nodes[i].vel, Vec2::new(0, -9_800_000));
        assert_eq!(sb.nodes[i].read_pos, nodes[i].read_pos.plus(Vec2::new(0, -980_000)));
    }
    assert_eq!(sb.center, Vec2::new(0, -980_000));
}

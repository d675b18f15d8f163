use softbody::body::{SBConnection, SBNode, SB};
use softbody::fixed::{FORCE_MAX, SCALE};
use softbody::settings::Config;
use softbody::spring::{
    connection_force, connection_kick, simulation_update, skeleton_pull, skeleton_simulation,
    step_share_exec,
};
use softbody::vec2::Vec2;

fn pt(x: i64, y: i64) -> Vec2 {
    Vec2::new(x * SCALE, y * SCALE)
}

fn quiet(dampening: i64) -> Config {
    let mut cfg = Config::standard();
    cfg.gravity = Vec2::zero();
    cfg.stiffness = 10 * SCALE;
    cfg.dampening = dampening;
    cfg.skeleton_stiffness = 5 * SCALE;
    cfg
}

fn moving(pos: Vec2, vel: Vec2) -> SBNode {
    SBNode { read_pos: pos, write_pos: pos, vel }
}

#[test]
fn spring_at_rest_length_gives_no_velocity() {
    let cfg = quiet(0);
    let a = moving(pt(0, 0), pt(3, -7));
    let b = moving(pt(60, 80), pt(-11, 5));
    let c = SBConnection::new(0, 1, true, 100 * SCALE);
    assert_eq!(connection_force(&a, &b, &c, &cfg), 0);
    assert_eq!(connection_kick(&a, &b, &c, &cfg), Vec2::zero());
    let mut sb = SB::new(&vec![SBNode::new(pt(0, 0)), SBNode::new(pt(60, 80))], &vec![c]);
    sb.nodes[0].vel = pt(3, -7);
    sb.nodes[1].vel = pt(-11, 5);
    simulation_update(&mut sb, &cfg);
    assert_eq!(sb.nodes[0].vel, pt(3, -7));
    assert_eq!(sb.nodes[1].vel, pt(-11, 5));
}

#[test]
fn stretched_spring_pulls_its_ends_together() {
    let cfg = quiet(0);
    let a = SBNode::new(pt(0, 0));
    let b = SBNode::new(pt(110, 0));
    let c = SBConnection::new(0, 1, true, 100 * SCALE);
    // 10 * (100 - 110) = -100
    assert_eq!(connection_force(&a, &b, &c, &cfg), -100 * SCALE);
    // along (1, 0), times dt = 0.1
    assert_eq!(connection_kick(&a, &b, &c, &cfg), pt(-10, 0));
    let mut sb = SB::new(&vec![a, b], &vec![c]);
    simulation_update(&mut sb, &cfg);
    assert_eq!(sb.nodes[0].vel, pt(10, 0));
    assert_eq!(sb.nodes[1].vel, pt(-10, 0));
    assert_eq!(sb.nodes[0].read_pos, pt(0, 0));
    assert_eq!(sb.nodes[1].write_pos, pt(110, 0));
}

#[test]
fn damping_opposes_the_parting_speed() {
    let cfg = quiet(SCALE);
    let a = SBNode::new(pt(0, 0));
    let b = moving(pt(110, 0), pt(20, 0));
    let c = SBConnection::new(0, 1, true, 100 * SCALE);
    // -100 - 0.5 * 1 * 20 = -110
    assert_eq!(connection_force(&a, &b, &c, &cfg), -110 * SCALE);
    assert_eq!(connection_kick(&a, &b, &c, &cfg), pt(-11, 0));
}

#[test]
fn spring_force_is_clamped() {
    let cfg = quiet(0);
    let a = SBNode::new(pt(0, 0));
    let far = SBNode::new(pt(1000, 0));
    let near = SBNode::new(Vec2::new(1, 0));
    let c = SBConnection::new(0, 1, true, 100 * SCALE);
    assert_eq!(connection_force(&a, &far, &c, &cfg), -FORCE_MAX);
    let mut stiff = cfg;
    stiff.stiffness = 1000 * SCALE;
    assert_eq!(connection_force(&a, &near, &c, &stiff), FORCE_MAX);
    assert_eq!(connection_kick(&a, &far, &c, &cfg), pt(-100, 0));
}

#[test]
fn a_spring_between_close_nodes_changes_velocity_by_no_more_than_the_clamp_allows() {
    let cfg = Config::standard();
    let a = SBNode::new(pt(0, 0));
    let b = SBNode::new(Vec2::new(1, 1));
    let c = SBConnection::new(0, 1, true, 100 * SCALE);
    // the force is 10 * (100 - 0.000001); for a tenth of a time unit it gives just
    // under 100, along the diagonal
    assert_eq!(connection_force(&a, &b, &c, &cfg), 999_999_990);
    let kick = connection_kick(&a, &b, &c, &cfg);
    assert_eq!(kick, Vec2::new(70_710_599, 70_710_599));
    let len_sq = (kick.x as i128) * (kick.x as i128) + (kick.y as i128) * (kick.y as i128);
    assert!(len_sq <= (100 * SCALE as i128) * (100 * SCALE as i128));
    // at the clamp
    let mut stiff = cfg;
    stiff.stiffness = 1000 * SCALE;
    assert_eq!(connection_force(&a, &b, &c, &stiff), FORCE_MAX);
    let kick = connection_kick(&a, &b, &c, &stiff);
    assert_eq!(kick, Vec2::new(70_710_600, 70_710_600));
    let len_sq = (kick.x as i128) * (kick.x as i128) + (kick.y as i128) * (kick.y as i128);
    assert!(len_sq <= (100 * SCALE as i128) * (100 * SCALE as i128));
}

#[test]
fn coincident_nodes_exert_no_force() {
    let cfg = quiet(SCALE);
    let a = moving(pt(5, 5), pt(1, 2));
    let b = moving(pt(5, 5), pt(-3, 4));
    let c = SBConnection::new(0, 1, true, 100 * SCALE);
    assert_eq!(connection_kick(&a, &b, &c, &cfg), Vec2::zero());
}

#[test]
fn springs_act_one_after_the_other() {
    // the second spring sees the velocity that the first has given node 1
    let cfg = quiet(SCALE);
    let nodes = vec![SBNode::new(pt(0, 0)), SBNode::new(pt(110, 0)), SBNode::new(pt(220, 0))];
    let connections =
        vec![SBConnection::new(0, 1, true, 100 * SCALE), SBConnection::new(1, 2, true, 110 * SCALE)];
    let mut sb = SB::new(&nodes, &connections);
    simulation_update(&mut sb, &cfg);
    // first spring: force -100, node 1 gets (-10, 0); second spring is at rest but
    // node 2 parts from node 1 at 10: force 0 - 0.5 * 10 = -5, kick (-0.5, 0)
    assert_eq!(sb.nodes[0].vel, pt(10, 0));
    assert_eq!(sb.nodes[1].vel, Vec2::new(-9_500_000, 0));
    assert_eq!(sb.nodes[2].vel, Vec2::new(-500_000, 0));
}

#[test]
fn sub_iterations_share_the_force() {
    let mut cfg = quiet(0);
    cfg.iteration_count = 4;
    assert_eq!(step_share_exec(pt(-100, 40), &cfg), Vec2::new(-2_500_000, 1_000_000));
}

#[test]
fn node_on_its_skeleton_place_keeps_its_velocity() {
    let cfg = quiet(0);
    let nodes = vec![SBNode::new(pt(0, 0)), SBNode::new(pt(60, 80)), SBNode::new(pt(-5, 9))];
    let mut sb = SB::new(&nodes, &Vec::new());
    for i in 0..3 {
        sb.skeleton[i] = sb.nodes[i].read_pos;
        sb.nodes[i].vel = pt(i as i64 + 1, -2);
    }
    skeleton_simulation(&mut sb, &cfg);
    for i in 0..3 {
        assert_eq!(sb.nodes[i].vel, pt(i as i64 + 1, -2));
    }
}

#[test]
fn skeleton_pulls_a_node_toward_its_place() {
    let cfg = quiet(0);
    // 5 * -5 = -25
    assert_eq!(skeleton_pull(pt(3, 4), &cfg), -25 * SCALE);
    assert_eq!(skeleton_pull(pt(300, 400), &cfg), -FORCE_MAX);
    let mut sb = SB::new(&vec![SBNode::new(pt(0, 0)), SBNode::new(pt(10, 0))], &Vec::new());
    sb.skeleton[0] = pt(3, 4);
    sb.skeleton[1] = pt(10, 0);
    skeleton_simulation(&mut sb, &cfg);
    // (0.6, 0.8) * -25 * 0.1 = (-1.5, -2), taken from the velocity
    assert_eq!(sb.nodes[0].vel, Vec2::new(1_500_000, 2_000_000));
    assert_eq!(sb.nodes[1].vel, Vec2::zero());
}

//! The fixed-point engine held against a floating-point model of the same
//! physics, step by step.

use bevy::math::Vec2 as Float2;
use softbody::body::{SBConnection, SBNode, SB};
use softbody::fixed::SCALE;
use softbody::settings::Config;
use softbody::shapes::{stock_shape_connections, stock_shape_nodes};
use softbody::vec2::Vec2;
use softbody::world::update_processes;
use std::f32::consts::{PI, TAU};

#[derive(Clone)]
struct ModelNode {
    read_pos: Float2,
    write_pos: Float2,
    vel: Float2,
}

#[derive(Clone)]
struct ModelBody {
    nodes: Vec<ModelNode>,
    connections: Vec<SBConnection>,
    base_skeleton: Vec<Float2>,
    skeleton: Vec<Float2>,
    center: Float2,
    angle: f32,
    min_pos: Float2,
    max_pos: Float2,
}

struct ModelWorld {
    half_dim: Float2,
    node_radius: f32,
    gravity: Float2,
    stiffness: f32,
    dampening: f32,
    skeleton_stiffness: f32,
    dt: f32,
}

fn float(raw: i64) -> f32 {
    (raw as f64 / SCALE as f64) as f32
}

fn float2(v: Vec2) -> Float2 {
    Float2::new(float(v.x), float(v.y))
}

fn model_world(cfg: &Config) -> ModelWorld {
    ModelWorld {
        half_dim: float2(cfg.half_dim),
        node_radius: float(cfg.node_radius),
        gravity: float2(cfg.gravity),
        stiffness: float(cfg.stiffness),
        dampening: float(cfg.dampening),
        skeleton_stiffness: float(cfg.skeleton_stiffness),
        dt: float(cfg.dt),
    }
}

fn rotate(v: Float2, angle: f32) -> Float2 {
    let (s, c) = angle.sin_cos();
    Float2::new(v.x * c - v.y * s, v.x * s + v.y * c)
}

fn model_of(sb: &SB) -> ModelBody {
    let nodes: Vec<ModelNode> = sb
        .nodes
        .iter()
        .map(|n| ModelNode {
            read_pos: float2(n.read_pos),
            write_pos: float2(n.write_pos),
            vel: float2(n.vel),
        })
        .collect();
    ModelBody {
        nodes,
        connections: sb.connections.clone(),
        base_skeleton: sb.base_skeleton.iter().map(|v| float2(*v)).collect(),
        skeleton: sb.skeleton.iter().map(|v| float2(*v)).collect(),
        center: float2(sb.center),
        angle: float(sb.angle),
        min_pos: float2(sb.bounding_box.min_pos),
        max_pos: float2(sb.bounding_box.max_pos),
    }
}

fn model_step(b: &mut ModelBody, w: &ModelWorld) {
    for c in &b.connections {
        let vec = b.nodes[c.i2].read_pos - b.nodes[c.i1].read_pos;
        let vec_norm = vec.normalize();
        if vec_norm.is_nan() {
            continue;
        }
        let closing = vec_norm.dot(b.nodes[c.i2].vel - b.nodes[c.i1].vel);
        let force = (w.stiffness * (float(c.resting_length) - vec.length())
            - closing * 0.5 * w.dampening)
            .clamp(-1000.0, 1000.0);
        b.nodes[c.i1].vel -= vec_norm * force * w.dt;
        b.nodes[c.i2].vel += vec_norm * force * w.dt;
    }
    for i in 0..b.nodes.len() {
        let vec = b.skeleton[i] - b.nodes[i].read_pos;
        let vec_norm = vec.normalize();
        if vec_norm.is_nan() {
            continue;
        }
        let force = (w.skeleton_stiffness * -vec.length()).clamp(-1000.0, 1000.0);
        b.nodes[i].vel -= vec_norm * force * w.dt;
    }
    for n in b.nodes.iter_mut() {
        n.vel -= w.gravity * w.dt;
        n.write_pos += n.vel * w.dt;
        n.read_pos = n.write_pos;
    }
    let mut min_pos = b.nodes[0].read_pos;
    let mut max_pos = b.nodes[0].read_pos;
    for n in &b.nodes {
        min_pos = min_pos.min(n.read_pos);
        max_pos = max_pos.max(n.read_pos);
    }
    b.min_pos = min_pos - Float2::splat(w.node_radius);
    b.max_pos = max_pos + Float2::splat(w.node_radius);
    for n in b.nodes.iter_mut() {
        if n.read_pos.y < -w.half_dim.y {
            n.write_pos.y = -w.half_dim.y;
            n.vel.y = 0.0;
        }
        if n.read_pos.x > w.half_dim.x {
            n.write_pos.x = w.half_dim.x;
            n.vel.x = 0.0;
        } else if n.read_pos.x < -w.half_dim.x {
            n.write_pos.x = -w.half_dim.x;
            n.vel.x = 0.0;
        }
    }
    let mut center = Float2::ZERO;
    for n in &b.nodes {
        center += n.read_pos;
    }
    b.center = center / b.nodes.len() as f32;
    let count = b.nodes.len() as f32;
    let mut average = 0.0f32;
    for i in 0..b.nodes.len() {
        let v1 = (b.nodes[i].read_pos - b.center).normalize();
        let v2 = b.base_skeleton[i].normalize();
        let theta = v1.dot(v2).clamp(-1.0, 1.0).acos();
        let angle = if v1.perp_dot(v2) < 0.0 { theta } else { TAU - theta };
        if angle - average < PI {
            average += angle / count;
        } else {
            average -= (TAU - angle) / count;
        }
    }
    b.angle = average;
    for i in 0..b.nodes.len() {
        b.skeleton[i] = rotate(b.base_skeleton[i], b.angle) + b.center;
    }
}

fn model_inside(pt: Float2, b: &ModelBody) -> bool {
    let mut crossings = 0;
    for c in &b.connections {
        if !c.is_edge {
            continue;
        }
        let e1 = b.nodes[c.i1].read_pos;
        let e2 = b.nodes[c.i2].read_pos;
        if pt.y > e1.y.min(e2.y) && pt.y < e1.y.max(e2.y) && pt.x <= e1.x.max(e2.x) {
            let x_intersection = (pt.y - e1.y) * (e2.x - e1.x) / (e2.y - e1.y) + e1.x;
            if e1.x == e2.x || pt.x <= x_intersection {
                crossings += 1;
            }
        }
    }
    crossings % 2 == 1
}

fn model_local_center(b: &ModelBody, index: usize) -> Float2 {
    let pivot = b.nodes[index].read_pos;
    let mut order: Vec<usize> = (0..b.nodes.len()).collect();
    order.sort_by(|i, j| {
        let di = (b.nodes[*i].read_pos - pivot).length_squared();
        let dj = (b.nodes[*j].read_pos - pivot).length_squared();
        di.total_cmp(&dj)
    });
    let take = order.len().min(4);
    let mut center = Float2::ZERO;
    for i in &order[..take] {
        center += b.nodes[*i].read_pos;
    }
    center / take as f32
}

fn model_collide(a: &mut ModelBody, b: &mut ModelBody) {
    let overlap = a.min_pos.x <= b.max_pos.x
        && a.max_pos.x >= b.min_pos.x
        && a.min_pos.y <= b.max_pos.y
        && a.max_pos.y >= b.min_pos.y;
    if !overlap {
        return;
    }
    for k in 0..a.nodes.len() {
        let pt = a.nodes[k].read_pos;
        if !model_inside(pt, b) {
            continue;
        }
        let center = model_local_center(a, k);
        let mut best: Option<(Float2, f32, usize, f32)> = None;
        for (index, c) in b.connections.iter().enumerate() {
            if !c.is_edge {
                continue;
            }
            let e1 = b.nodes[c.i1].read_pos;
            let e2 = b.nodes[c.i2].read_pos;
            let ab = e2 - e1;
            let t = (pt - e1).dot(ab) / ab.dot(ab);
            if !(t >= -0.1 && t <= 1.1) {
                continue;
            }
            let foot = e1 + ab * t;
            let normal = -(e1 - e2).normalize().perp();
            if !(normal.dot((center - foot).normalize()) >= 0.2) {
                continue;
            }
            let dist = (foot - pt).length_squared();
            if best.map_or(true, |(_, d, _, _)| dist < d) {
                best = Some((foot, dist, index, t));
            }
        }
        let Some((foot, dist_sq, index, t)) = best else {
            continue;
        };
        let c = b.connections[index];
        if dist_sq.sqrt() >= float(c.resting_length) / 2.0 {
            continue;
        }
        let vec = pt - foot;
        a.nodes[k].write_pos += -vec;
        a.nodes[k].vel += -vec;
        b.nodes[c.i1].write_pos += vec * (1.0 - t);
        b.nodes[c.i1].vel += vec * (1.0 - t);
        b.nodes[c.i2].write_pos += vec * t;
        b.nodes[c.i2].vel += vec * t;
    }
}

fn model_tick(bodies: &mut Vec<ModelBody>, w: &ModelWorld) {
    for b in bodies.iter_mut() {
        model_step(b, w);
    }
    for i in 0..bodies.len() {
        for j in i + 1..bodies.len() {
            let (left, right) = bodies.split_at_mut(j);
            model_collide(&mut left[i], &mut right[0]);
            model_collide(&mut right[0], &mut left[i]);
        }
    }
}

fn farthest_apart(bodies: &Vec<SB>, model: &Vec<ModelBody>) -> f32 {
    let mut worst = 0.0f32;
    for (sb, m) in bodies.iter().zip(model.iter()) {
        for (n, mn) in sb.nodes.iter().zip(m.nodes.iter()) {
            worst = worst.max((float2(n.read_pos) - mn.read_pos).length());
            worst = worst.max((float2(n.write_pos) - mn.write_pos).length());
            worst = worst.max((float2(n.vel) - mn.vel).length());
        }
        worst = worst.max((float2(sb.center) - m.center).length());
    }
    worst
}

fn pt(x: i64, y: i64) -> Vec2 {
    Vec2::new(x * SCALE, y * SCALE)
}

fn square(cx: i64, cy: i64) -> SB {
    let nodes = vec![
        SBNode::new(pt(cx - 50, cy + 50)),
        SBNode::new(pt(cx + 50, cy + 50)),
        SBNode::new(pt(cx - 50, cy - 50)),
        SBNode::new(pt(cx + 50, cy - 50)),
    ];
    let connections = vec![
        SBConnection::new(0, 1, true, 100 * SCALE),
        SBConnection::new(1, 3, true, 100 * SCALE),
        SBConnection::new(3, 2, true, 100 * SCALE),
        SBConnection::new(2, 0, true, 100 * SCALE),
        SBConnection::new(0, 3, false, 141 * SCALE),
    ];
    SB::new(&nodes, &connections)
}

#[test]
fn a_falling_shape_follows_the_model() {
    let cfg = Config::standard();
    let world = model_world(&cfg);
    let mut bodies = vec![SB::new(&stock_shape_nodes(), &stock_shape_connections())];
    let mut model: Vec<ModelBody> = bodies.iter().map(model_of).collect();
    for tick in 0..60 {
        assert_eq!(update_processes(&mut bodies, &cfg), 1);
        model_tick(&mut model, &world);
        // the braces of this shape are a little short of the diagonals, and its motion
        // magnifies every difference; node by node the two agree while it is young
        if tick < 10 {
            let apart = farthest_apart(&bodies, &model);
            assert!(apart < 0.2, "tick {}: {} apart", tick, apart);
        }
    }
    // and as a whole to the end: where the body is and how far it has turned
    let centre_apart = (float2(bodies[0].center) - model[0].center).length();
    assert!(centre_apart < 2.0, "centres {} apart", centre_apart);
    assert!((float(bodies[0].angle) - model[0].angle).abs() < 0.05);
    assert!(bodies[0].center.y < -200 * SCALE);
}

#[test]
fn a_shape_landing_on_the_floor_follows_the_model() {
    let cfg = Config::standard();
    let world = model_world(&cfg);
    let mut bodies = vec![square(0, -280)];
    let mut model: Vec<ModelBody> = bodies.iter().map(model_of).collect();
    let mut touched = false;
    for tick in 0..40 {
        assert_eq!(update_processes(&mut bodies, &cfg), 1);
        model_tick(&mut model, &world);
        let apart = farthest_apart(&bodies, &model);
        assert!(apart < 0.02, "tick {}: {} apart", tick, apart);
        touched = touched || bodies[0].nodes[2].write_pos.y == -cfg.half_dim.y;
    }
    assert!(touched);
}

#[test]
fn two_squares_meeting_follow_the_model() {
    let mut cfg = Config::standard();
    cfg.gravity = Vec2::zero();
    let world = model_world(&cfg);
    let mut bodies = vec![square(0, 0), square(120, 3)];
    for i in 0..4 {
        bodies[1].nodes[i].vel = pt(-30, 0);
    }
    let mut model: Vec<ModelBody> = bodies.iter().map(model_of).collect();
    let mut struck = false;
    for tick in 0..25 {
        assert_eq!(update_processes(&mut bodies, &cfg), 1);
        model_tick(&mut model, &world);
        let apart = farthest_apart(&bodies, &model);
        assert!(apart < 0.1, "tick {}: {} apart", tick, apart);
        struck = struck || bodies[0].nodes[1].vel.x < -SCALE;
    }
    assert!(struck);
}

//! Stock shapes: tables of nodes and connections from which bodies are made.
//!
//! The perimeter edges of a shape are wound clockwise, so that the normal of
//! each points out of the body.

use crate::body::{made_from, node_views, parts_valid, NodeView, SBConnection, SBNode, SB};
use crate::vec2::{Vec2, V2};
use vstd::prelude::*;

verus! {

/// Rest length of a perimeter spring of the stock shape, and of its struts.
pub const SIDE: i64 = 100_000_000;

/// Rest length of a diagonal brace of the stock shape.
pub const DIAGONAL: i64 = 141_000_000;

/// A node at rest at the point `(x, y)`.
pub open spec fn resting_at(x: int, y: int) -> NodeView {
    NodeView { read_pos: V2 { x, y }, write_pos: V2 { x, y }, vel: V2::zero() }
}

/// The nodes of the stock shape: an L of three squares standing on its foot.
pub open spec fn stock_nodes() -> Seq<NodeView> {
    seq![
        resting_at(-100_000_000, 150_000_000),
        resting_at(0, 150_000_000),
        resting_at(-100_000_000, 50_000_000),
        resting_at(0, 50_000_000),
        resting_at(-100_000_000, -50_000_000),
        resting_at(0, -50_000_000),
        resting_at(-100_000_000, -150_000_000),
        resting_at(0, -150_000_000),
        resting_at(100_000_000, -50_000_000),
        resting_at(100_000_000, -150_000_000),
    ]
}

/// A connection between the nodes `i1` and `i2`.
pub open spec fn link(i1: usize, i2: usize, is_edge: bool, resting_length: i64) -> SBConnection {
    SBConnection { i1, i2, is_edge, resting_length }
}

/// The connections of the stock shape: ten perimeter edges, three struts across
/// it, and eight diagonal braces.
pub open spec fn stock_connections() -> Seq<SBConnection> {
    seq![
        link(0, 1, true, SIDE),
        link(1, 3, true, SIDE),
        link(3, 5, true, SIDE),
        link(5, 8, true, SIDE),
        link(8, 9, true, SIDE),
        link(9, 7, true, SIDE),
        link(7, 6, true, SIDE),
        link(6, 4, true, SIDE),
        link(4, 2, true, SIDE),
        link(2, 0, true, SIDE),
        link(2, 3, false, SIDE),
        link(4, 5, false, SIDE),
        link(5, 7, false, SIDE),
        link(0, 3, false, DIAGONAL),
        link(1, 2, false, DIAGONAL),
        link(2, 5, false, DIAGONAL),
        link(3, 4, false, DIAGONAL),
        link(4, 7, false, DIAGONAL),
        link(5, 6, false, DIAGONAL),
        link(5, 9, false, DIAGONAL),
        link(7, 8, false, DIAGONAL),
    ]
}

/// A node at rest at the point `(x, y)`.
fn node_at(x: i64, y: i64) -> (r: SBNode)
    ensures
        r@ == resting_at(x as int, y as int),
{
    SBNode::new(Vec2 { x, y })
}

/// The nodes of the stock shape.
pub fn stock_shape_nodes() -> (r: Vec<SBNode>)
    ensures
        node_views(r@) == stock_nodes(),
{
    let mut nodes: Vec<SBNode> = Vec::new();
    nodes.push(node_at(-SIDE, 150_000_000));
    nodes.push(node_at(0, 150_000_000));
    nodes.push(node_at(-SIDE, 50_000_000));
    nodes.push(node_at(0, 50_000_000));
    nodes.push(node_at(-SIDE, -50_000_000));
    nodes.push(node_at(0, -50_000_000));
    nodes.push(node_at(-SIDE, -150_000_000));
    nodes.push(node_at(0, -150_000_000));
    nodes.push(node_at(SIDE, -50_000_000));
    nodes.push(node_at(SIDE, -150_000_000));
    proof {
        assert(node_views(nodes@) =~= stock_nodes());
    }
    nodes
}

/// The connections of the stock shape.
pub fn stock_shape_connections() -> (r: Vec<SBConnection>)
    ensures
        r@ == stock_connections(),
{
    let mut connections: Vec<SBConnection> = Vec::new();
    connections.push(SBConnection::new(0, 1, true, SIDE));
    connections.push(SBConnection::new(1, 3, true, SIDE));
    connections.push(SBConnection::new(3, 5, true, SIDE));
    connections.push(SBConnection::new(5, 8, true, SIDE));
    connections.push(SBConnection::new(8, 9, true, SIDE));
    connections.push(SBConnection::new(9, 7, true, SIDE));
    connections.push(SBConnection::new(7, 6, true, SIDE));
    connections.push(SBConnection::new(6, 4, true, SIDE));
    connections.push(SBConnection::new(4, 2, true, SIDE));
    connections.push(SBConnection::new(2, 0, true, SIDE));
    connections.push(SBConnection::new(2, 3, false, SIDE));
    connections.push(SBConnection::new(4, 5, false, SIDE));
    connections.push(SBConnection::new(5, 7, false, SIDE));
    connections.push(SBConnection::new(0, 3, false, DIAGONAL));
    connections.push(SBConnection::new(1, 2, false, DIAGONAL));
    connections.push(SBConnection::new(2, 5, false, DIAGONAL));
    connections.push(SBConnection::new(3, 4, false, DIAGONAL));
    connections.push(SBConnection::new(4, 7, false, DIAGONAL));
    connections.push(SBConnection::new(5, 6, false, DIAGONAL));
    connections.push(SBConnection::new(5, 9, false, DIAGONAL));
    connections.push(SBConnection::new(7, 8, false, DIAGONAL));
    proof {
        assert(connections@ =~= stock_connections());
    }
    connections
}

/// Makes a body of the stock shape when the key has just been pressed, and
/// nothing otherwise.
pub fn spawn_sb(just_pressed: bool) -> (r: Option<SB>)
    ensures
        r is Some <==> just_pressed,
        r matches Some(sb) ==> {
            &&& sb.wf()
            &&& sb@.in_range()
            &&& sb@ == made_from(stock_nodes(), stock_connections())
        },
{
    if !just_pressed {
        return None;
    }
    let node_vec: Vec<SBNode> = stock_shape_nodes();
    let connection_vec: Vec<SBConnection> = stock_shape_connections();
    proof {
        let nodes = node_views(node_vec@);
        assert forall|i: int| 0 <= i < nodes.len() implies (#[trigger] nodes[i]).within(
            crate::fixed::LIMIT as int,
            crate::fixed::LIMIT as int,
        ) by {
            assert(nodes == stock_nodes());
        }
        assert forall|k: int| 0 <= k < connection_vec@.len() implies (
        #[trigger] connection_vec@[k]).valid_for(node_vec@.len() as int) by {
            assert(connection_vec@ == stock_connections());
            assert(node_vec@.len() == nodes.len());
        }
        assert(parts_valid(node_vec@, connection_vec@));
    }
    Some(SB::new(&node_vec, &connection_vec))
}

} // verus!

//! A behaviour tree for a guard: sequences, selectors and leaves, ticked
//! from the root each frame.

use vstd::prelude::*;

verus! {

/// Result of ticking one node.
#[derive(Clone, Copy, Debug, PartialEq, Eq, Structural)]
pub enum NodeStatus {
    Running,
    Success,
    Failure,
}

/// The leaf actions and conditions the guard can execute or test.
#[derive(Clone, Copy, Debug, PartialEq, Eq, Structural)]
pub enum LeafKind {
    CanSeePlayer,
    IsNearPlayer,
    Chase,
    Attack,
    Patrol,
}

/// A node in the behaviour tree.
#[derive(Debug)]
pub enum BtNode {
    Sequence(Vec<BtNode>),
    Selector(Vec<BtNode>),
    Leaf(LeafKind),
}

/// What the leaves read of the world, taken once per tick: whether the
/// player is within sight range, and whether within attack range.
#[derive(Clone, Copy, Debug, PartialEq, Eq, Structural)]
pub struct BtCtx {
    pub can_see_player: bool,
    pub is_near_player: bool,
}

/// A leaf's status: conditions succeed or fail on what the guard senses;
/// actions are always running.
pub open spec fn spec_eval_leaf(kind: LeafKind, ctx: BtCtx) -> NodeStatus {
    match kind {
        LeafKind::CanSeePlayer => if ctx.can_see_player {
            NodeStatus::Success
        } else {
            NodeStatus::Failure
        },
        LeafKind::IsNearPlayer => if ctx.is_near_player {
            NodeStatus::Success
        } else {
            NodeStatus::Failure
        },
        _ => NodeStatus::Running,
    }
}

/// Evaluates a single leaf against the current context.
pub fn eval_leaf(kind: LeafKind, ctx: &BtCtx) -> (s: NodeStatus)
    ensures
        s == spec_eval_leaf(kind, *ctx),
{
    match kind {
        LeafKind::CanSeePlayer => if ctx.can_see_player {
            NodeStatus::Success
        } else {
            NodeStatus::Failure
        },
        LeafKind::IsNearPlayer => if ctx.is_near_player {
            NodeStatus::Success
        } else {
            NodeStatus::Failure
        },
        LeafKind::Chase => NodeStatus::Running,
        LeafKind::Attack => NodeStatus::Running,
        LeafKind::Patrol => NodeStatus::Running,
    }
}

/// Ticks a node: its status and the leaf that is active, if any.
///
/// A sequence stops at the first child that fails (failing) or runs
/// (running, with that child's leaf), and succeeds when all succeed. A
/// selector stops at the first child that does not fail, and fails when all
/// fail. A leaf is active unless it failed.
pub open spec fn spec_tick(node: BtNode, ctx: BtCtx) -> (NodeStatus, Option<LeafKind>)
    decreases node,
{
    match node {
        BtNode::Sequence(children) => tick_sequence(children@, ctx),
        BtNode::Selector(children) => tick_selector(children@, ctx),
        BtNode::Leaf(kind) => {
            let s = spec_eval_leaf(kind, ctx);
            (
                s,
                if s != NodeStatus::Failure {
                    Some(kind)
                } else {
                    None
                },
            )
        },
    }
}

/// Ticks the children of a sequence, first to last.
pub open spec fn tick_sequence(children: Seq<BtNode>, ctx: BtCtx) -> (NodeStatus, Option<LeafKind>)
    decreases children,
{
    if children.len() == 0 {
        (NodeStatus::Success, None)
    } else {
        let (s, action) = spec_tick(children[0], ctx);
        if s == NodeStatus::Failure {
            (NodeStatus::Failure, None)
        } else if s == NodeStatus::Running {
            (NodeStatus::Running, action)
        } else {
            tick_sequence(children.subrange(1, children.len() as int), ctx)
        }
    }
}

/// Ticks the children of a selector, first to last.
pub open spec fn tick_selector(children: Seq<BtNode>, ctx: BtCtx) -> (NodeStatus, Option<LeafKind>)
    decreases children,
{
    if children.len() == 0 {
        (NodeStatus::Failure, None)
    } else {
        let (s, action) = spec_tick(children[0], ctx);
        if s != NodeStatus::Failure {
            (s, action)
        } else {
            tick_selector(children.subrange(1, children.len() as int), ctx)
        }
    }
}

/// Ticks a node recursively. Returns its status and the active leaf, if any.
pub fn tick_node(node: &BtNode, ctx: &BtCtx) -> (r: (NodeStatus, Option<LeafKind>))
    ensures
        r == spec_tick(*node, *ctx),
    decreases node,
{
    match node {
        BtNode::Sequence(children) => {
            let mut i: usize = 0;
            proof {
                assert(children@.subrange(0, children@.len() as int) =~= children@);
            }
            while i < children.len()
                invariant
                    *node == BtNode::Sequence(*children),
                    i <= children@.len(),
                    tick_sequence(children@, *ctx) == tick_sequence(
                        children@.subrange(i as int, children@.len() as int),
                        *ctx,
                    ),
                decreases children@.len() - i,
            {
                let ghost rest = children@.subrange(i as int, children@.len() as int);
                proof {
                    assert(rest[0] == children@[i as int]);
                    assert(rest.subrange(1, rest.len() as int) =~= children@.subrange(
                        i + 1,
                        children@.len() as int,
                    ));
                    assert(decreases_to!(*node => (*node)->Sequence_0));
                    assert(decreases_to!(*children => children@));
                    assert(decreases_to!(children@ => children@[i as int]));
                }
                let (s, action) = tick_node(&children[i], ctx);
                if s == NodeStatus::Failure {
                    return (NodeStatus::Failure, None);
                }
                if s == NodeStatus::Running {
                    proof {
                        assert(tick_sequence(rest, *ctx) == (NodeStatus::Running, action));
                    }
                    return (NodeStatus::Running, action);
                }
                i = i + 1;
            }
            (NodeStatus::Success, None)
        },
        BtNode::Selector(children) => {
            let mut i: usize = 0;
            proof {
                assert(children@.subrange(0, children@.len() as int) =~= children@);
            }
            while i < children.len()
                invariant
                    *node == BtNode::Selector(*children),
                    i <= children@.len(),
                    tick_selector(children@, *ctx) == tick_selector(
                        children@.subrange(i as int, children@.len() as int),
                        *ctx,
                    ),
                decreases children@.len() - i,
            {
                let ghost rest = children@.subrange(i as int, children@.len() as int);
                proof {
                    assert(rest[0] == children@[i as int]);
                    assert(rest.subrange(1, rest.len() as int) =~= children@.subrange(
                        i + 1,
                        children@.len() as int,
                    ));
                    assert(decreases_to!(*node => (*node)->Selector_0));
                    assert(decreases_to!(*children => children@));
                    assert(decreases_to!(children@ => children@[i as int]));
                }
                let (s, action) = tick_node(&children[i], ctx);
                if s != NodeStatus::Failure {
                    proof {
                        assert(tick_selector(rest, *ctx) == (s, action));
                    }
                    return (s, action);
                }
                i = i + 1;
            }
            (NodeStatus::Failure, None)
        },
        BtNode::Leaf(kind) => {
            let s = eval_leaf(*kind, ctx);
            (
                s,
                if s != NodeStatus::Failure {
                    Some(*kind)
                } else {
                    None
                },
            )
        },
    }
}

/// The guard's tree:
/// `Selector[Sequence[CanSee, Selector[Sequence[IsNear, Attack], Chase]], Patrol]`.
pub open spec fn is_guard_tree(t: BtNode) -> bool {
    &&& t matches BtNode::Selector(root)
    &&& root@.len() == 2
    &&& root@[0] matches BtNode::Sequence(engage)
    &&& engage@.len() == 2
    &&& engage@[0] == BtNode::Leaf(LeafKind::CanSeePlayer)
    &&& engage@[1] matches BtNode::Selector(close_in)
    &&& close_in@.len() == 2
    &&& close_in@[0] matches BtNode::Sequence(strike)
    &&& strike@.len() == 2
    &&& strike@[0] == BtNode::Leaf(LeafKind::IsNearPlayer)
    &&& strike@[1] == BtNode::Leaf(LeafKind::Attack)
    &&& close_in@[1] == BtNode::Leaf(LeafKind::Chase)
    &&& root@[1] == BtNode::Leaf(LeafKind::Patrol)
}

/// Builds the guard's tree:
/// `Selector[Sequence[CanSee, Selector[Sequence[IsNear, Attack], Chase]], Patrol]`.
pub fn build_guard_bt() -> (t: BtNode)
    ensures
        is_guard_tree(t),
{
    let strike = vec![BtNode::Leaf(LeafKind::IsNearPlayer), BtNode::Leaf(LeafKind::Attack)];
    let close_in = vec![BtNode::Sequence(strike), BtNode::Leaf(LeafKind::Chase)];
    let engage = vec![BtNode::Leaf(LeafKind::CanSeePlayer), BtNode::Selector(close_in)];
    BtNode::Selector(vec![BtNode::Sequence(engage), BtNode::Leaf(LeafKind::Patrol)])
}

/// What the guard does: patrol while the player is out of sight, attack
/// when the player is also within reach, and chase otherwise. Its tree is
/// always running.
pub open spec fn guard_action(ctx: BtCtx) -> LeafKind {
    if !ctx.can_see_player {
        LeafKind::Patrol
    } else if ctx.is_near_player {
        LeafKind::Attack
    } else {
        LeafKind::Chase
    }
}

/// Ticking the guard's tree yields exactly the guard's action.
pub proof fn lemma_guard_decision(t: BtNode, ctx: BtCtx)
    requires
        is_guard_tree(t),
    ensures
        spec_tick(t, ctx) == (NodeStatus::Running, Some(guard_action(ctx))),
{
    let root = t->Selector_0@;
    let engage = root[0]->Sequence_0@;
    let close_in = engage[1]->Selector_0@;
    let strike = close_in[0]->Sequence_0@;
    let rest_root = root.subrange(1, 2);
    let rest_engage = engage.subrange(1, 2);
    let rest_close = close_in.subrange(1, 2);
    let rest_strike = strike.subrange(1, 2);
    assert(rest_root[0] == root[1]);
    assert(rest_engage[0] == engage[1]);
    assert(rest_close[0] == close_in[1]);
    assert(rest_strike[0] == strike[1]);
    assert(rest_strike.subrange(1, 1).len() == 0);
    assert(rest_close.subrange(1, 1).len() == 0);
    assert(rest_engage.subrange(1, 1).len() == 0);
    assert(rest_root.subrange(1, 1).len() == 0);
    reveal_with_fuel(tick_sequence, 3);
    reveal_with_fuel(tick_selector, 3);
    reveal_with_fuel(spec_tick, 2);
    let strike_r = tick_sequence(strike, ctx);
    let close_r = tick_selector(close_in, ctx);
    let engage_r = tick_sequence(engage, ctx);
    assert(spec_tick(t, ctx) == tick_selector(root, ctx));
    assert(spec_tick(root[0], ctx) == engage_r);
    if ctx.can_see_player && ctx.is_near_player {
        assert(strike_r == (NodeStatus::Running, Some(LeafKind::Attack)));
        assert(close_r == (NodeStatus::Running, Some(LeafKind::Attack)));
        assert(engage_r == (NodeStatus::Running, Some(LeafKind::Attack)));
    } else if ctx.can_see_player {
        assert(strike_r == (NodeStatus::Failure, None::<LeafKind>));
        assert(close_r == (NodeStatus::Running, Some(LeafKind::Chase)));
        assert(engage_r == (NodeStatus::Running, Some(LeafKind::Chase)));
    } else {
        assert(engage_r == (NodeStatus::Failure, None::<LeafKind>));
        assert(spec_tick(root[1], ctx) == (NodeStatus::Running, Some(LeafKind::Patrol)));
        assert(tick_selector(rest_root, ctx) == (NodeStatus::Running, Some(LeafKind::Patrol)));
    }
}

} // verus!

//! The guard's behaviour tree.

use tiny_games::behavior::{build_guard_bt, eval_leaf, tick_node, BtCtx, BtNode, LeafKind, NodeStatus};

const SIGHT_RANGE: f32 = 190.0;
const ATTACK_RANGE: f32 = 44.0;

/// What the guard senses with the player at `player` and itself at `guard`.
fn ctx(guard: (f32, f32), player: (f32, f32)) -> BtCtx {
    let dist = ((guard.0 - player.0).powi(2) + (guard.1 - player.1).powi(2)).sqrt();
    BtCtx { can_see_player: dist <= SIGHT_RANGE, is_near_player: dist <= ATTACK_RANGE }
}

#[test]
fn patrols_when_out_of_sight() {
    let bt = build_guard_bt();
    let (_, action) = tick_node(&bt, &ctx((0.0, 0.0), (999.0, 0.0)));
    assert_eq!(action, Some(LeafKind::Patrol));
}

#[test]
fn chases_when_visible_but_not_adjacent() {
    let bt = build_guard_bt();
    let (_, action) = tick_node(&bt, &ctx((0.0, 0.0), (SIGHT_RANGE * 0.5, 0.0)));
    assert_eq!(action, Some(LeafKind::Chase));
}

#[test]
fn attacks_when_adjacent() {
    let bt = build_guard_bt();
    let (_, action) = tick_node(&bt, &ctx((0.0, 0.0), (ATTACK_RANGE * 0.4, 0.0)));
    assert_eq!(action, Some(LeafKind::Attack));
}

#[test]
fn sequence_short_circuits_on_first_failure() {
    let node = BtNode::Sequence(vec![BtNode::Leaf(LeafKind::CanSeePlayer), BtNode::Leaf(LeafKind::Attack)]);
    let (status, _) = tick_node(&node, &ctx((0.0, 0.0), (999.0, 0.0)));
    assert_eq!(status, NodeStatus::Failure);
}

#[test]
fn selector_returns_first_success() {
    let node = BtNode::Selector(vec![BtNode::Leaf(LeafKind::CanSeePlayer), BtNode::Leaf(LeafKind::Patrol)]);
    let (_, action) = tick_node(&node, &ctx((0.0, 0.0), (SIGHT_RANGE * 0.5, 0.0)));
    assert_eq!(action, Some(LeafKind::CanSeePlayer));
}

#[test]
fn sight_boundary_exact() {
    let at_edge = ctx((0.0, 0.0), (SIGHT_RANGE, 0.0));
    assert_eq!(eval_leaf(LeafKind::CanSeePlayer, &at_edge), NodeStatus::Success);
    let just_outside = ctx((0.0, 0.0), (SIGHT_RANGE + 0.1, 0.0));
    assert_eq!(eval_leaf(LeafKind::CanSeePlayer, &just_outside), NodeStatus::Failure);
}

// ── Further cases ────────────────────────────────────────────────────────────

#[test]
fn actions_are_always_running() {
    let blind = BtCtx { can_see_player: false, is_near_player: false };
    for kind in [LeafKind::Chase, LeafKind::Attack, LeafKind::Patrol] {
        assert_eq!(eval_leaf(kind, &blind), NodeStatus::Running);
        assert_eq!(tick_node(&BtNode::Leaf(kind), &blind), (NodeStatus::Running, Some(kind)));
    }
    assert_eq!(tick_node(&BtNode::Leaf(LeafKind::IsNearPlayer), &blind), (NodeStatus::Failure, None));
}

#[test]
fn empty_composites_have_their_neutral_status() {
    let any = BtCtx { can_see_player: true, is_near_player: true };
    assert_eq!(tick_node(&BtNode::Sequence(vec![]), &any), (NodeStatus::Success, None));
    assert_eq!(tick_node(&BtNode::Selector(vec![]), &any), (NodeStatus::Failure, None));
}

#[test]
fn a_sequence_of_successes_succeeds_without_an_action() {
    let any = BtCtx { can_see_player: true, is_near_player: true };
    let node = BtNode::Sequence(vec![BtNode::Leaf(LeafKind::CanSeePlayer), BtNode::Leaf(LeafKind::IsNearPlayer)]);
    assert_eq!(tick_node(&node, &any), (NodeStatus::Success, None));
}

#[test]
fn the_guard_tree_covers_every_case() {
    let bt = build_guard_bt();
    let cases = [
        (false, false, LeafKind::Patrol),
        (false, true, LeafKind::Patrol),
        (true, false, LeafKind::Chase),
        (true, true, LeafKind::Attack),
    ];
    for (see, near, action) in cases {
        let c = BtCtx { can_see_player: see, is_near_player: near };
        assert_eq!(tick_node(&bt, &c), (NodeStatus::Running, Some(action)));
    }
}

use adaptation::mcts;
use adaptation::Action;
use adaptation::State;
use adaptation::TableModel;

fn act(id: u32, next_id: u32, next_reward: u32) -> Action {
    Action { id, next_id, next_reward }
}

/// A linear chain: state `i` has one action leading to state `i + 1`, and
/// the last state (`len`) is terminal.
fn chain_model(len: u32) -> TableModel {
    let mut actions: Vec<Vec<Action>> = Vec::new();
    for i in 0..len {
        actions.push(vec![act(0, i + 1, 0)]);
    }
    TableModel { actions, root_id: 0, root_reward: 0 }
}

/// A three-armed bandit: the root offers three actions, each leading
/// straight to a terminal state, with rewards 1, 0 and 2.
fn bandit_model() -> TableModel {
    let actions = vec![vec![act(0, 1, 1), act(1, 2, 0), act(2, 3, 2)]];
    TableModel { actions, root_id: 0, root_reward: 0 }
}

/// Two arms, each followed by a stochastic two-way choice before a terminal
/// state, so rollouts actually consume random draws.
fn stochastic_model() -> TableModel {
    let actions = vec![
        vec![act(0, 1, 0), act(1, 2, 0)],
        vec![act(0, 3, 5), act(1, 4, 1)],
        vec![act(0, 5, 2), act(1, 6, 2)],
    ];
    TableModel { actions, root_id: 0, root_reward: 0 }
}

#[test]
fn test_select_child() {
    let mut engine = mcts::new(chain_model(1), Some(0));
    let _ = engine.run(1, None);
    let node: usize = 0;
    let selected_child = engine.select_child(node);
    assert!(engine.node_at(node).get_children().contains(&selected_child));
}

#[test]
fn test_expand() {
    let mut engine = mcts::new(bandit_model(), Some(0));
    let node: usize = 0;
    let expanded_node = engine.expand(node);
    assert!(engine.node_at(node).get_children().contains(&expanded_node));
}

#[test]
fn test_simulate() {
    let mut engine = mcts::new(chain_model(20), Some(0));
    let start = State { id: 0, action: None, reward: 0 };
    let simulated = engine.simulate(start, Some(10));
    assert!(simulated.id == 10);
}

#[test]
fn test_backpropagate() {
    let mut engine = mcts::new(bandit_model(), Some(0));
    engine.backpropagate(0, 1);
    assert_eq!(engine.root_visits(), 1);
}

#[test]
fn test_run() {
    let mut engine = mcts::new(bandit_model(), Some(0));
    let result = engine.run(10, Some(10));
    assert!(result.is_some());
}

#[test]
fn test_mcts() {}

#[test]
fn test_children_never_exceed_actions() {
    let mut engine = mcts::new(bandit_model(), Some(3));
    let _ = engine.run(25, None);
    for i in 0..engine.node_count() {
        let n = engine.node_at(i);
        assert!(n.get_children().len() <= 3);
    }
    // The root has one child per action, so it must be fully expanded.
    assert_eq!(engine.node_at(0).get_children().len(), 3);
    assert!(engine.node_at(0).is_fully_expanded());
}

#[test]
fn test_expand_marks_fully_expanded() {
    let mut engine = mcts::new(stochastic_model(), Some(0));
    engine.expand(0);
    assert!(!engine.node_at(0).is_fully_expanded());
    engine.expand(0);
    assert!(engine.node_at(0).is_fully_expanded());
}

#[test]
fn test_root_visits_equals_iterations() {
    let mut engine = mcts::new(bandit_model(), Some(1));
    let _ = engine.run(7, None);
    assert_eq!(engine.root_visits(), 7);
}

#[test]
fn test_visits_never_decrease() {
    let mut engine = mcts::new(stochastic_model(), Some(9));
    let _ = engine.run(5, None);
    let mut before: Vec<u32> = Vec::new();
    for i in 0..engine.node_count() {
        before.push(engine.node_at(i).get_times_visited());
    }
    let _ = engine.run(5, None);
    for i in 0..before.len() {
        assert!(engine.node_at(i).get_times_visited() >= before[i]);
    }
}

#[test]
fn test_zero_visit_priority() {
    let mut engine = mcts::new(stochastic_model(), Some(0));
    let first = engine.expand(0);
    let second = engine.expand(0);
    for _ in 0..5 {
        engine.backpropagate(first, 1);
    }
    assert_eq!(engine.node_at(first).get_times_visited(), 5);
    assert_eq!(engine.node_at(second).get_times_visited(), 0);
    let picked = engine.best_ucb_child(0);
    assert_eq!(picked, second);
}

#[test]
fn test_terminal_root_never_expanded() {
    let actions: Vec<Vec<Action>> = vec![Vec::new()];
    let model = TableModel { actions, root_id: 0, root_reward: 4 };
    let mut engine = mcts::new(model, Some(0));
    let rec = engine.run(3, None);
    assert!(rec.is_none());
    assert_eq!(engine.root_visits(), 3);
    assert_eq!(engine.node_count(), 1);
    assert!(engine.node_at(0).get_children().is_empty());
}

#[test]
fn test_backpropagation_depth_three() {
    let mut engine = mcts::new(chain_model(3), Some(0));
    let n1 = engine.expand(0);
    let n2 = engine.expand(n1);
    let n3 = engine.expand(n2);
    engine.backpropagate(n3, 1);
    for i in [0, n1, n2, n3] {
        assert_eq!(engine.node_at(i).get_times_visited(), 1);
        assert_eq!(engine.node_at(i).value, 1);
    }
}

#[test]
fn test_backpropagation_adversarial() {
    let mut engine = mcts::new(chain_model(2), Some(0));
    engine.set_negate_alternate_levels(true);
    let n1 = engine.expand(0);
    let n2 = engine.expand(n1);
    engine.backpropagate(n2, 1);
    assert_eq!(engine.node_at(n2).value, 1);
    assert_eq!(engine.node_at(n1).value, -1);
    assert_eq!(engine.node_at(0).value, 1);
}

#[test]
fn test_three_arm_scenario() {
    for seed in 0..20u64 {
        let mut engine = mcts::new(bandit_model(), Some(seed));
        let rec = engine.run(100, None).expect("three arms, so a recommendation");
        assert_eq!(rec.next_reward, 2);
        assert_eq!(rec.id, 2);
    }
}

#[test]
fn test_zero_iterations() {
    let mut engine = mcts::new(bandit_model(), Some(0));
    let rec = engine.run(0, None);
    assert!(rec.is_none());
    assert_eq!(engine.root_visits(), 0);
}

#[test]
fn test_same_seed_same_recommendation() {
    let mut a = mcts::new(stochastic_model(), Some(42));
    let mut b = mcts::new(stochastic_model(), Some(42));
    let ra = a.run(50, None).expect("root has actions");
    let rb = b.run(50, None).expect("root has actions");
    assert_eq!(ra.id, rb.id);
    assert_eq!(ra.next_id, rb.next_id);
}

#[test]
fn test_upper_confidence_bound_exact() {
    // 10/5 in thousandths is 2000; sqrt(1000 * 3 * 693 / 5) is 644.
    let score = adaptation::get_upper_confidence_bound(10, 5, 8, 1000);
    assert_eq!(score, 2644);
}

#[test]
fn test_upper_confidence_bound_unvisited_parent() {
    // log2(1) is 0, so the exploration term vanishes.
    let score = adaptation::get_upper_confidence_bound(3, 2, 1, 1414);
    assert_eq!(score, 1500);
}

#[test]
fn test_best_child_stats() {
    let mut engine = mcts::new(stochastic_model(), Some(0));
    let first = engine.expand(0);
    engine.expand(0);
    engine.backpropagate(first, 2);
    let stats = engine.best_child_stats();
    assert_eq!(stats.len(), 2);
    assert_eq!(stats[0].visits, 1);
    assert_eq!(stats[0].value_milli, 2000);
    assert_eq!(stats[1].visits, 0);
    assert_eq!(stats[1].value_milli, 0);
}

#[test]
fn test_node_accessors() {
    let state = State { id: 7, action: Some(1), reward: 3 };
    let mut node = adaptation::AdaptationNode::new(state);
    assert_eq!(node.get_state().id, 7);
    assert!(!node.is_terminal());
    assert!(!node.is_fully_expanded());
    assert_eq!(node.get_times_visited(), 0);
    node.increment_times_visited();
    assert_eq!(node.get_times_visited(), 1);
    node.add_child(5);
    assert_eq!(node.get_children(), &vec![5usize]);
    node.set_is_fully_expanded();
    assert!(node.is_fully_expanded());
    node.set_state(State { id: 9, action: None, reward: 0 });
    assert_eq!(node.get_state().id, 9);
}

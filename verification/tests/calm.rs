use lau_calm_noether::calm::generate_test_permutations;
use lau_calm_noether::calm::is_calm_scalar_rule;

fn close(x: f64, y: f64) -> bool {
    !((x - y).abs() > 1e-10)
}

#[test]
fn test_scalar_rule_calm() {
    let avg_rule = |_own: f64, others: &[f64]| -> f64 {
        let sum: f64 = others.iter().sum();
        sum / others.len() as f64
    };
    let inputs = vec![vec![1.0, 2.0, 3.0], vec![5.0, 1.0, 3.0, 2.0]];
    assert!(is_calm_scalar_rule(&avg_rule, &close, &inputs));
}

#[test]
fn test_scalar_rule_not_calm() {
    // First-element-dependent rule
    let biased_rule = |_own: f64, others: &[f64]| -> f64 { others.first().copied().unwrap_or(0.0) };
    let inputs = vec![vec![1.0, 2.0, 3.0], vec![5.0, 1.0, 3.0]];
    assert!(!is_calm_scalar_rule(&biased_rule, &close, &inputs));
}

#[test]
fn scalar_permutations_are_identity_swap_reverse() {
    assert_eq!(generate_test_permutations(0), vec![Vec::<usize>::new()]);
    assert_eq!(generate_test_permutations(1), vec![vec![0]]);
    assert_eq!(
        generate_test_permutations(3),
        vec![vec![0, 1, 2], vec![1, 0, 2], vec![2, 1, 0]]
    );
}

#[test]
fn scalar_rule_with_short_inputs_passes() {
    let biased_rule = |_own: f64, others: &[f64]| -> f64 { others.first().copied().unwrap_or(0.0) };
    let inputs = vec![vec![1.0], vec![], vec![4.0, 9.0]];
    assert!(is_calm_scalar_rule(&biased_rule, &close, &inputs));
}

use lau_calm_noether::agent::AgentId;
use lau_calm_noether::agent::AgentState;
use lau_calm_noether::agent::WorldState;
use lau_calm_noether::calm::count_falling;
use lau_calm_noether::calm::monotonicity_pairs;

fn averaging(_id: &AgentId, _state: &AgentState<f64>, ws: &WorldState<f64>) -> AgentState<f64> {
    let states = ws.ordered_states();
    if states.is_empty() {
        return AgentState::new(vec![0.0]);
    }
    let dim = states[0].1.dim();
    let mut sum = vec![0.0; dim];
    for (_, s) in &states {
        for (i, v) in s.values.iter().enumerate() {
            sum[i] += v;
        }
    }
    let n = states.len() as f64;
    AgentState::new(sum.into_iter().map(|v| v / n).collect())
}

fn maximum(_id: &AgentId, _state: &AgentState<f64>, ws: &WorldState<f64>) -> AgentState<f64> {
    let states = ws.ordered_states();
    let dim = states[0].1.dim();
    let mut result = vec![f64::NEG_INFINITY; dim];
    for (_, s) in &states {
        for (i, v) in s.values.iter().enumerate() {
            result[i] = result[i].max(*v);
        }
    }
    AgentState::new(result)
}

fn falls(fv: f64, sv: f64) -> bool {
    fv - sv < -1e-10
}

fn three_agents() -> WorldState<f64> {
    WorldState::new()
        .with(AgentId::new("a"), AgentState::scalar(1.0))
        .with(AgentId::new("b"), AgentState::scalar(2.0))
        .with(AgentId::new("c"), AgentState::scalar(3.0))
}

#[test]
fn max_rule_has_no_falling_pair() {
    let worlds = vec![three_agents()];
    let pairs = monotonicity_pairs(maximum, &worlds);
    assert_eq!(pairs.len(), 9);
    assert_eq!(count_falling(&falls, &pairs), 0);
}

#[test]
fn averaging_compares_every_proper_subset() {
    let worlds = vec![three_agents()];
    let pairs = monotonicity_pairs(averaging, &worlds);
    // Subsets {a}, {b}, {a,b}, {c}, {a,c}, {b,c}, each member compared.
    assert_eq!(
        pairs,
        vec![(2.0, 1.0), (2.0, 2.0), (2.0, 1.5), (2.0, 1.5), (2.0, 3.0), (2.0, 2.0), (2.0, 2.0), (2.0, 2.5), (2.0, 2.5)]
    );
    assert_eq!(count_falling(&falls, &pairs), 3);
}

#[test]
fn small_worlds_give_no_comparisons() {
    let one = WorldState::new().with(AgentId::new("a"), AgentState::scalar(1.0));
    let worlds = vec![one, WorldState::new()];
    assert!(monotonicity_pairs(averaging, &worlds).is_empty());
}

use lau_calm_noether::agent::AgentId;
use lau_calm_noether::agent::AgentState;
use lau_calm_noether::agent::WorldState;
use lau_calm_noether::noether::is_conserved;
use lau_calm_noether::noether::is_permutation_invariant;
use lau_calm_noether::noether::test_permutations;

fn averaging(_id: &AgentId, _state: &AgentState<f64>, ws: &WorldState<f64>) -> AgentState<f64> {
    let states = ws.ordered_states();
    if states.is_empty() {
        return AgentState::new(vec![0.0]);
    }
    let dim = states[0].1.dim();
    let mut sum = vec![0.0; dim];
    for (_, s) in &states {
        for (i, v) in s.values.iter().enumerate() {
            sum[i] += v;
        }
    }
    let n = states.len() as f64;
    AgentState::new(sum.into_iter().map(|v| v / n).collect())
}

fn sum_charge(ws: &WorldState<f64>) -> f64 {
    ws.ordered_states().iter().flat_map(|(_, s)| s.values.iter()).sum()
}

fn max_charge(ws: &WorldState<f64>) -> f64 {
    ws.ordered_states()
        .iter()
        .flat_map(|(_, s)| s.values.iter())
        .cloned()
        .fold(f64::NEG_INFINITY, f64::max)
}

fn first_charge(ws: &WorldState<f64>) -> f64 {
    let ordered = ws.ordered_agents();
    ordered.first().map(|id| ws.get(id).unwrap().values[0]).unwrap_or(0.0)
}

fn close(x: f64, y: f64) -> bool {
    !((x - y).abs() > 1e-10)
}

fn sample_world() -> WorldState<f64> {
    WorldState::new()
        .with(AgentId::new("a"), AgentState::scalar(1.0))
        .with(AgentId::new("b"), AgentState::scalar(2.0))
        .with(AgentId::new("c"), AgentState::scalar(3.0))
}

#[test]
fn test_sum_charge_permutation_invariant() {
    assert!(is_permutation_invariant(&sum_charge, &close, &sample_world()));
}

#[test]
fn test_max_charge_permutation_invariant() {
    assert!(is_permutation_invariant(&max_charge, &close, &sample_world()));
}

#[test]
fn test_non_permutation_invariant_charge() {
    assert!(!is_permutation_invariant(&first_charge, &close, &sample_world()));
}

#[test]
fn noether_test_sum_conserved_by_averaging() {
    let tolerance = 0.1;
    assert!(is_conserved(
        &sum_charge,
        &|c: f64, i: f64| !((c - i).abs() > tolerance),
        averaging,
        &sample_world(),
        3
    ));
}

#[test]
fn max_not_conserved_by_averaging() {
    assert!(!is_conserved(&max_charge, &close, averaging, &sample_world(), 3));
    // No rounds: nothing to violate.
    assert!(is_conserved(&max_charge, &close, averaging, &sample_world(), 0));
}

#[test]
fn standard_test_permutations() {
    assert_eq!(test_permutations(1), vec![vec![0]]);
    assert_eq!(test_permutations(2), vec![vec![0, 1], vec![1, 0], vec![1, 0]]);
    assert_eq!(
        test_permutations(3),
        vec![vec![0, 1, 2], vec![1, 0, 2], vec![2, 1, 0], vec![1, 2, 0]]
    );
}

#[test]
fn single_agent_is_trivially_invariant() {
    let ws = WorldState::new().with(AgentId::new("a"), AgentState::scalar(4.0));
    assert!(is_permutation_invariant(&first_charge, &close, &ws));
}

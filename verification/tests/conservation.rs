use lau_calm_noether::agent::AgentId;
use lau_calm_noether::agent::AgentState;
use lau_calm_noether::agent::WorldState;
use lau_calm_noether::conservation::charge_trajectory;
use lau_calm_noether::conservation::ViolationSeverity;

fn averaging(_id: &AgentId, _state: &AgentState<f64>, ws: &WorldState<f64>) -> AgentState<f64> {
    let states = ws.ordered_states();
    if states.is_empty() {
        return AgentState::new(vec![0.0]);
    }
    let dim = states[0].1.dim();
    let mut sum = vec![0.0; dim];
    for (_, s) in &states {
        for (i, v) in s.values.iter().enumerate() {
            sum[i] += v;
        }
    }
    let n = states.len() as f64;
    AgentState::new(sum.into_iter().map(|v| v / n).collect())
}

fn sum_charge(ws: &WorldState<f64>) -> f64 {
    ws.ordered_states().iter().flat_map(|(_, s)| s.values.iter()).sum()
}

fn sample_world() -> WorldState<f64> {
    WorldState::new()
        .with(AgentId::new("a"), AgentState::scalar(1.0))
        .with(AgentId::new("b"), AgentState::scalar(2.0))
        .with(AgentId::new("c"), AgentState::scalar(3.0))
}

#[test]
fn test_severity_display() {
    assert_eq!(ViolationSeverity::Critical.to_string(), "CRITICAL");
    assert_eq!(ViolationSeverity::Minor.to_string(), "MINOR");
}

#[test]
fn test_charge_trajectory() {
    let traj = charge_trajectory(&sum_charge, averaging, &sample_world(), 5);
    assert_eq!(traj.len(), 6);
    // Sum should be constant at 6.0
    for v in &traj {
        assert!((v - 6.0).abs() < 1e-10);
    }
}

#[test]
fn severity_texts() {
    assert_eq!(ViolationSeverity::Negligible.to_string(), "NEGLIGIBLE");
    assert_eq!(ViolationSeverity::Major.to_string(), "MAJOR");
}

#[test]
fn charge_trajectory_of_zero_rounds_is_initial_charge() {
    let traj = charge_trajectory(&sum_charge, averaging, &sample_world(), 0);
    assert_eq!(traj, vec![6.0]);
}

use lau_calm_noether::conservation::violation_rounds;

#[test]
fn violation_rounds_lists_drifting_rounds_in_order() {
    let traj = [10.0, 10.2, 12.0, 10.0, 9.0];
    let drifts = |actual: f64, initial: f64| (actual - initial).abs() > 0.5;
    assert_eq!(violation_rounds(&drifts, &traj), vec![2, 4]);
    assert_eq!(violation_rounds(&drifts, &[10.0, 10.0, 10.1]), Vec::<usize>::new());
    assert_eq!(violation_rounds(&drifts, &[]), Vec::<usize>::new());
}

#[test]
fn conserved_sum_has_no_violation_round() {
    let ws = WorldState::new()
        .with(AgentId::new("a"), AgentState::scalar(1.0))
        .with(AgentId::new("b"), AgentState::scalar(2.0))
        .with(AgentId::new("c"), AgentState::scalar(3.0));
    let sum = |w: &WorldState<f64>| -> f64 { w.ordered_states().iter().map(|(_, s)| s.values[0]).sum() };
    let traj = charge_trajectory(&sum, averaging, &ws, 5);
    let drifts = |actual: f64, initial: f64| (actual - initial).abs() > 1e-9;
    assert!(violation_rounds(&drifts, &traj).is_empty());
}

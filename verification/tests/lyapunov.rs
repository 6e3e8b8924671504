use lau_calm_noether::agent::AgentId;
use lau_calm_noether::agent::AgentState;
use lau_calm_noether::agent::WorldState;
use lau_calm_noether::lyapunov::join_moves_up;
use lau_calm_noether::lyapunov::lyapunov_trajectory;
use lau_calm_noether::lyapunov::verify_lattice_order;

fn maximum(_id: &AgentId, _state: &AgentState<f64>, ws: &WorldState<f64>) -> AgentState<f64> {
    let states = ws.ordered_states();
    let dim = states[0].1.dim();
    let mut result = vec![f64::NEG_INFINITY; dim];
    for (_, s) in &states {
        for (i, v) in s.values.iter().enumerate() {
            result[i] = result[i].max(*v);
        }
    }
    AgentState::new(result)
}

fn max_charge(ws: &WorldState<f64>) -> f64 {
    ws.ordered_states()
        .iter()
        .flat_map(|(_, s)| s.values.iter())
        .cloned()
        .fold(f64::NEG_INFINITY, f64::max)
}

fn sample_world() -> WorldState<f64> {
    WorldState::new()
        .with(AgentId::new("a"), AgentState::scalar(1.0))
        .with(AgentId::new("b"), AgentState::scalar(2.0))
        .with(AgentId::new("c"), AgentState::scalar(3.0))
}

fn below(tolerance: f64) -> impl Fn(f64, f64) -> bool {
    move |j: f64, a: f64| j < a - tolerance
}

#[test]
fn test_join_moves_up_max() {
    assert!(join_moves_up(&|a: f64, b: f64| a.max(b), &below(1e-10), &[1.0, 2.0, 3.0, 5.0]));
}

#[test]
fn test_join_moves_up_min_fails() {
    // min(1, 3) = 1 < 3 → doesn't move up
    assert!(!join_moves_up(&|a: f64, b: f64| a.min(b), &below(1e-10), &[1.0, 3.0]));
}

#[test]
fn test_lyapunov_trajectory() {
    let traj = lyapunov_trajectory(&max_charge, maximum, &sample_world(), 3);
    assert_eq!(traj.len(), 4); // 3 rounds + initial
    for i in 1..traj.len() {
        assert!(traj[i] >= traj[i - 1] - 1e-10);
    }
}

#[test]
fn test_verify_lattice_order() {
    let ws = sample_world();
    assert!(verify_lattice_order(&|a: f64, b: f64| a.max(b), &below(1e-10), &ws));
}

#[test]
fn test_max_rule_converges_to_fixed_point() {
    let traj = lyapunov_trajectory(&max_charge, maximum, &sample_world(), 10);
    // After first round, all agents should have max = 3.0
    assert!((traj[1] - 3.0).abs() < 1e-10);
    // All subsequent values should be the same
    for v in &traj[2..] {
        assert!((v - 3.0).abs() < 1e-10);
    }
}

#[test]
fn lattice_order_fails_for_min() {
    let ws = sample_world();
    assert!(!verify_lattice_order(&|a: f64, b: f64| a.min(b), &below(1e-10), &ws));
    let single = WorldState::new().with(AgentId::new("a"), AgentState::scalar(1.0));
    assert!(verify_lattice_order(&|a: f64, b: f64| a.min(b), &below(1e-10), &single));
}

use lau_calm_noether::lyapunov::count_steps_against;
use lau_calm_noether::lyapunov::lyapunov_violations;

fn falls(next: f64, previous: f64) -> bool {
    next < previous - 1e-10
}

fn rises(next: f64, previous: f64) -> bool {
    next > previous + 1e-10
}

#[test]
fn steps_against_a_direction_are_counted() {
    assert_eq!(count_steps_against(&falls, &[1.0, 3.0, 2.0, 4.0, 0.5]), 2);
    assert_eq!(count_steps_against(&rises, &[1.0, 3.0, 2.0, 4.0, 0.5]), 2);
    assert_eq!(count_steps_against(&falls, &[7.0]), 0);
    assert_eq!(count_steps_against(&falls, &[]), 0);
}

#[test]
fn lyapunov_trajectory_may_run_either_way() {
    assert_eq!(lyapunov_violations(&falls, &rises, &[1.0, 2.0, 2.0, 3.0]), 0);
    assert_eq!(lyapunov_violations(&falls, &rises, &[3.0, 2.0, 2.0, 1.0]), 0);
    assert_eq!(lyapunov_violations(&falls, &rises, &[1.0, 3.0, 2.0, 4.0]), 1);
    assert_eq!(lyapunov_violations(&falls, &rises, &[1.0, 3.0, 2.0, 4.0, 0.5, 0.1]), 2);
}

#[test]
fn max_charge_under_max_rule_has_no_lyapunov_violation() {
    let traj = lyapunov_trajectory(&max_charge, maximum, &sample_world(), 5);
    assert_eq!(lyapunov_violations(&falls, &rises, &traj), 0);
}

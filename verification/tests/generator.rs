use lau_calm_noether::agent::AgentId;
use lau_calm_noether::agent::AgentState;
use lau_calm_noether::agent::WorldState;
use lau_calm_noether::generator::verify_generated_rule;

fn max_join(_id: &AgentId, _state: &AgentState<f64>, ws: &WorldState<f64>) -> AgentState<f64> {
    let states = ws.ordered_states();
    let dim = states.first().map(|(_, s)| s.dim()).unwrap_or(1);
    let mut result = vec![f64::NEG_INFINITY; dim];
    for (_, s) in &states {
        for (i, v) in s.values.iter().enumerate() {
            result[i] = result[i].max(*v);
        }
    }
    AgentState::new(result)
}

fn mean_average(_id: &AgentId, _state: &AgentState<f64>, ws: &WorldState<f64>) -> AgentState<f64> {
    let states = ws.ordered_states();
    if states.is_empty() {
        return AgentState::new(vec![0.0]);
    }
    let dim = states[0].1.dim();
    let mut sum = vec![0.0; dim];
    for (_, s) in &states {
        for (i, v) in s.values.iter().enumerate() {
            sum[i] += v;
        }
    }
    let n = states.len() as f64;
    AgentState::new(sum.into_iter().map(|v| v / n).collect())
}

fn own_state(_id: &AgentId, state: &AgentState<f64>, _ws: &WorldState<f64>) -> AgentState<f64> {
    state.clone()
}

fn sample_world() -> WorldState<f64> {
    WorldState::new()
        .with(AgentId::new("a"), AgentState::scalar(1.0))
        .with(AgentId::new("b"), AgentState::scalar(2.0))
        .with(AgentId::new("c"), AgentState::scalar(3.0))
}

fn within(tolerance: f64) -> impl Fn(f64, f64) -> bool {
    move |b: f64, p: f64| !((b - p).abs() > tolerance)
}

#[test]
fn test_verify_generated_max() {
    assert!(verify_generated_rule(max_join, &within(1e-10), &sample_world()));
}

#[test]
fn test_verify_generated_mean() {
    assert!(verify_generated_rule(mean_average, &within(1e-10), &sample_world()));
}

#[test]
fn keeping_own_state_is_not_symmetric() {
    assert!(!verify_generated_rule(own_state, &within(1e-10), &sample_world()));
}

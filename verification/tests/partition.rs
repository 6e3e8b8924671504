use lau_calm_noether::agent::AgentId;
use lau_calm_noether::agent::AgentState;
use lau_calm_noether::agent::WorldState;
use lau_calm_noether::partition::partition_rounds;

fn doubling(_id: &AgentId, s: &AgentState<f64>, _ws: &WorldState<f64>) -> AgentState<f64> {
    AgentState::new(s.values.iter().map(|v| v * 2.0).collect())
}

fn averaging(_id: &AgentId, _state: &AgentState<f64>, ws: &WorldState<f64>) -> AgentState<f64> {
    let states = ws.ordered_states();
    if states.is_empty() {
        return AgentState::new(vec![0.0]);
    }
    let dim = states[0].1.dim();
    let mut sum = vec![0.0; dim];
    for (_, s) in &states {
        for (i, v) in s.values.iter().enumerate() {
            sum[i] += v;
        }
    }
    let n = states.len() as f64;
    AgentState::new(sum.into_iter().map(|v| v / n).collect())
}

fn sample_world() -> WorldState<f64> {
    WorldState::new()
        .with(AgentId::new("a"), AgentState::scalar(1.0))
        .with(AgentId::new("b"), AgentState::scalar(3.0))
        .with(AgentId::new("c"), AgentState::scalar(5.0))
        .with(AgentId::new("d"), AgentState::scalar(7.0))
}

fn values(ws: &WorldState<f64>) -> Vec<f64> {
    ws.ordered_states().iter().map(|(_, s)| s.values[0]).collect()
}

#[test]
fn partition_rounds_follow_the_schedule() {
    let run = partition_rounds(doubling, &sample_world(), 1, &[0, 2]);
    assert_eq!(values(&run.replicated), vec![2.0, 6.0, 10.0, 14.0]);
    assert_eq!(values(&run.partition_a), vec![4.0, 20.0]);
    assert_eq!(values(&run.partition_b), vec![12.0, 28.0]);
    assert_eq!(values(&run.merged), vec![4.0, 12.0, 20.0, 28.0]);
    assert_eq!(values(&run.final_state), vec![8.0, 24.0, 40.0, 56.0]);
}

#[test]
fn averaging_survives_partition() {
    let run = partition_rounds(averaging, &sample_world(), 5, &[0, 1]);
    let total: f64 = values(&run.final_state).iter().sum();
    assert!((total - 16.0).abs() < 1e-9);
    assert_eq!(run.merged.len(), 4);
}

use lau_calm_noether::partition::partition_halves;
use lau_calm_noether::partition::HalvesRun;

#[test]
fn halves_split_the_first_half_off() {
    match partition_halves(doubling, &sample_world(), 1) {
        HalvesRun::Split(run) => {
            assert_eq!(values(&run.partition_a), vec![4.0, 12.0]);
            assert_eq!(values(&run.partition_b), vec![20.0, 28.0]);
            assert_eq!(values(&run.final_state), vec![8.0, 24.0, 40.0, 56.0]);
        }
        HalvesRun::Replicated(_) => panic!("a world of four agents is split"),
    }
}

#[test]
fn halves_only_replicate_a_single_agent() {
    let one = WorldState::new().with(AgentId::new("a"), AgentState::scalar(5.0));
    match partition_halves(doubling, &one, 3) {
        HalvesRun::Replicated(w) => assert_eq!(values(&w), vec![40.0]),
        HalvesRun::Split(_) => panic!("a single agent is not split"),
    }
}

#[test]
fn first_half_partition_matches_halves() {
    // Positions 0 and 1 are the first half of four agents; 9 lies past the
    // last agent and is ignored.
    let given = partition_rounds(averaging, &sample_world(), 3, &[1, 9, 0]);
    match partition_halves(averaging, &sample_world(), 3) {
        HalvesRun::Split(run) => {
            assert_eq!(values(&given.replicated), values(&run.replicated));
            assert_eq!(values(&given.partition_a), values(&run.partition_a));
            assert_eq!(values(&given.partition_b), values(&run.partition_b));
            assert_eq!(values(&given.merged), values(&run.merged));
            assert_eq!(values(&given.final_state), values(&run.final_state));
            assert_eq!(given.merged.agent_ids().len(), 4);
        }
        HalvesRun::Replicated(_) => panic!("a world of four agents is split"),
    }
}

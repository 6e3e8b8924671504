use lau_calm_noether::agent::AgentId;
use lau_calm_noether::agent::AgentState;
use lau_calm_noether::agent::MultiAgentUpdate;
use lau_calm_noether::agent::WorldState;

fn averaging(_id: &AgentId, _state: &AgentState<f64>, ws: &WorldState<f64>) -> AgentState<f64> {
    let states: Vec<(&AgentId, &AgentState<f64>)> = ws.ordered_states();
    if states.is_empty() {
        return AgentState::new(vec![0.0]);
    }
    let dim = states[0].1.dim();
    let mut sum = vec![0.0; dim];
    for (_, s) in &states {
        for (i, v) in s.values.iter().enumerate() {
            sum[i] += v;
        }
    }
    let n = states.len() as f64;
    AgentState::new(sum.into_iter().map(|v| v / n).collect())
}

fn maximum(_id: &AgentId, _state: &AgentState<f64>, ws: &WorldState<f64>) -> AgentState<f64> {
    let states: Vec<(&AgentId, &AgentState<f64>)> = ws.ordered_states();
    let dim = states[0].1.dim();
    let mut result = vec![f64::NEG_INFINITY; dim];
    for (_, s) in &states {
        for (i, v) in s.values.iter().enumerate() {
            result[i] = result[i].max(*v);
        }
    }
    AgentState::new(result)
}

#[test]
fn test_agent_state_scalar() {
    let s = AgentState::scalar(3.14);
    assert_eq!(s.values, vec![3.14]);
    assert_eq!(s.dim(), 1);
}

#[test]
fn test_world_state_with() {
    let ws = WorldState::new()
        .with(AgentId::new("a"), AgentState::scalar(1.0))
        .with(AgentId::new("b"), AgentState::scalar(2.0));
    assert_eq!(ws.len(), 2);
    assert_eq!(ws.get(&AgentId::new("a")).unwrap().values[0], 1.0);
}

#[test]
fn test_world_state_ordered() {
    let ws = WorldState::new()
        .with(AgentId::new("c"), AgentState::scalar(3.0))
        .with(AgentId::new("a"), AgentState::scalar(1.0))
        .with(AgentId::new("b"), AgentState::scalar(2.0));
    let ordered: Vec<&str> = ws.ordered_agents().iter().map(|id| id.0.as_str()).collect();
    assert_eq!(ordered, vec!["a", "b", "c"]);
}

#[test]
fn test_multi_agent_update_apply() {
    let update = MultiAgentUpdate::new(averaging);
    let ws = WorldState::new()
        .with(AgentId::new("a"), AgentState::scalar(1.0))
        .with(AgentId::new("b"), AgentState::scalar(3.0));
    let new_ws = update.apply(&ws);
    assert!((new_ws.get(&AgentId::new("a")).unwrap().values[0] - 2.0).abs() < 1e-10);
    assert!((new_ws.get(&AgentId::new("b")).unwrap().values[0] - 2.0).abs() < 1e-10);
}

#[test]
fn test_world_state_permute() {
    let ws = WorldState::new()
        .with(AgentId::new("a"), AgentState::scalar(1.0))
        .with(AgentId::new("b"), AgentState::scalar(2.0))
        .with(AgentId::new("c"), AgentState::scalar(3.0));
    // Permutation: [2, 0, 1] means target 0 gets source 2, target 1 gets source 0, etc.
    let perm = vec![2, 0, 1];
    let permuted = ws.permute(&perm);
    assert_eq!(permuted.get(&AgentId::new("a")).unwrap().values[0], 3.0);
    assert_eq!(permuted.get(&AgentId::new("b")).unwrap().values[0], 1.0);
    assert_eq!(permuted.get(&AgentId::new("c")).unwrap().values[0], 2.0);
}

#[test]
fn test_partition_calm_for_max() {
    let ws = WorldState::new()
        .with(AgentId::new("a"), AgentState::scalar(1.0))
        .with(AgentId::new("b"), AgentState::scalar(5.0))
        .with(AgentId::new("c"), AgentState::scalar(3.0));
    let update = MultiAgentUpdate::new(maximum);
    let mut current = ws.clone();
    for _ in 0..5 {
        current = update.apply(&current);
    }
    for (_, state) in current.ordered_states() {
        assert!((state.values[0] - 5.0).abs() < 1e-10);
    }
}

#[test]
fn insert_replaces_and_keeps_order() {
    let mut ws = WorldState::new()
        .with(AgentId::new("b"), AgentState::scalar(2.0))
        .with(AgentId::new("a"), AgentState::scalar(1.0));
    ws.insert(AgentId::new("b"), AgentState::scalar(7.0));
    assert_eq!(ws.len(), 2);
    assert_eq!(ws.get(&AgentId::new("b")).unwrap().values, vec![7.0]);
    assert!(ws.get(&AgentId::new("z")).is_none());
    let ordered: Vec<&str> = ws.agent_ids().iter().map(|id| id.0.as_str()).collect();
    assert_eq!(ordered, vec!["a", "b"]);
}

#[test]
fn ids_are_ordered_by_bytes() {
    // Upper-case letters and shorter prefixes come first, as for `String`.
    assert!(AgentId::new("B").precedes(&AgentId::new("a")));
    assert!(AgentId::new("ab").precedes(&AgentId::new("abc")));
    assert!(!AgentId::new("abc").precedes(&AgentId::new("abc")));
    assert!(AgentId::new("agent_10").precedes(&AgentId::new("agent_2")));
    assert!(AgentId::new("z").precedes(&AgentId::new("é")));
}

#[test]
fn permute_with_shorter_perm_keeps_prefix() {
    let ws = WorldState::new()
        .with(AgentId::new("a"), AgentState::scalar(1.0))
        .with(AgentId::new("b"), AgentState::scalar(2.0))
        .with(AgentId::new("c"), AgentState::scalar(3.0));
    let permuted = ws.permute(&[2, 2]);
    assert_eq!(permuted.len(), 2);
    assert_eq!(permuted.get(&AgentId::new("a")).unwrap().values, vec![3.0]);
    assert_eq!(permuted.get(&AgentId::new("b")).unwrap().values, vec![3.0]);
    assert!(permuted.get(&AgentId::new("c")).is_none());
}

#[test]
fn split_and_merge_restore_the_world() {
    let ws = WorldState::new()
        .with(AgentId::new("a"), AgentState::scalar(1.0))
        .with(AgentId::new("b"), AgentState::scalar(3.0))
        .with(AgentId::new("c"), AgentState::scalar(5.0))
        .with(AgentId::new("d"), AgentState::scalar(7.0));
    let (left, right) = ws.split_by_positions(&[0, 2]);
    let l: Vec<&str> = left.ordered_agents().iter().map(|id| id.0.as_str()).collect();
    let r: Vec<&str> = right.ordered_agents().iter().map(|id| id.0.as_str()).collect();
    assert_eq!(l, vec!["a", "c"]);
    assert_eq!(r, vec!["b", "d"]);
    let merged = left.merge(&right);
    assert_eq!(merged.len(), 4);
    for (id, st) in ws.ordered_states() {
        assert_eq!(merged.get(id).unwrap().values, st.values);
    }
}

#[test]
fn merge_prefers_the_second_world() {
    let a = WorldState::new()
        .with(AgentId::new("x"), AgentState::scalar(1.0))
        .with(AgentId::new("y"), AgentState::scalar(2.0));
    let b = WorldState::new().with(AgentId::new("y"), AgentState::scalar(9.0));
    let m = a.merge(&b);
    assert_eq!(m.len(), 2);
    assert_eq!(m.get(&AgentId::new("x")).unwrap().values, vec![1.0]);
    assert_eq!(m.get(&AgentId::new("y")).unwrap().values, vec![9.0]);
}

#[test]
fn apply_rounds_iterates_the_update() {
    let ws = WorldState::new()
        .with(AgentId::new("a"), AgentState::scalar(1.0))
        .with(AgentId::new("b"), AgentState::scalar(3.0));
    let update = MultiAgentUpdate::new(|_id: &AgentId, s: &AgentState<f64>, _w: &WorldState<f64>| {
        AgentState::scalar(s.values[0] * 2.0)
    });
    let after = update.apply_rounds(&ws, 3);
    assert_eq!(after.get(&AgentId::new("a")).unwrap().values, vec![8.0]);
    assert_eq!(after.get(&AgentId::new("b")).unwrap().values, vec![24.0]);
    let unchanged = update.apply_rounds(&ws, 0);
    assert_eq!(unchanged.get(&AgentId::new("b")).unwrap().values, vec![3.0]);
}

#[test]
fn state_helpers() {
    let s = AgentState::new(vec![1.5, 2.5]);
    assert_eq!(s.as_slice(), &[1.5, 2.5]);
    assert_eq!(s.to_vec(), vec![1.5, 2.5]);
    let z: AgentState<f64> = AgentState::zero(3);
    assert_eq!(z.values, vec![0.0, 0.0, 0.0]);
    let empty: WorldState<f64> = WorldState::new();
    assert!(empty.is_empty());
}

fn values_in_order(ws: &WorldState<f64>) -> Vec<f64> {
    ws.ordered_states().iter().map(|(_, s)| s.values[0]).collect()
}

#[test]
fn permute_by_identity_keeps_world() {
    let ws = WorldState::new()
        .with(AgentId::new("a"), AgentState::scalar(1.0))
        .with(AgentId::new("b"), AgentState::scalar(2.0))
        .with(AgentId::new("c"), AgentState::scalar(3.0));
    let same = ws.permute(&[0, 1, 2]);
    assert_eq!(values_in_order(&same), vec![1.0, 2.0, 3.0]);
}

#[test]
fn permuting_twice_composes() {
    let ws = WorldState::new()
        .with(AgentId::new("a"), AgentState::scalar(1.0))
        .with(AgentId::new("b"), AgentState::scalar(2.0))
        .with(AgentId::new("c"), AgentState::scalar(3.0));
    let p = [2usize, 0, 1];
    let q = [1usize, 2, 0];
    let twice = ws.permute(&p).permute(&q);
    let composed: Vec<usize> = q.iter().map(|&i| p[i]).collect();
    let once = ws.permute(&composed);
    assert_eq!(values_in_order(&twice), values_in_order(&once));
    assert_eq!(values_in_order(&twice), vec![1.0, 2.0, 3.0]);
}

#[test]
fn permutation_keeps_every_state() {
    let ws = WorldState::new()
        .with(AgentId::new("a"), AgentState::scalar(4.0))
        .with(AgentId::new("b"), AgentState::scalar(1.0))
        .with(AgentId::new("c"), AgentState::scalar(4.0))
        .with(AgentId::new("d"), AgentState::scalar(9.0));
    let permuted = ws.permute(&[3, 2, 1, 0]);
    let mut before = values_in_order(&ws);
    let mut after = values_in_order(&permuted);
    before.sort_by(|a, b| a.partial_cmp(b).unwrap());
    after.sort_by(|a, b| a.partial_cmp(b).unwrap());
    assert_eq!(before, after);
    assert_eq!(values_in_order(&permuted), vec![9.0, 4.0, 1.0, 4.0]);
}

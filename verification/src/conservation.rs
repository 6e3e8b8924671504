//! Conservation violations: drift of a charge marks behavior that is not
//! coordination-free.
use vstd::prelude::*;
use crate::agent::AgentId;
use crate::agent::AgentState;
use crate::agent::MultiAgentUpdate;
use crate::agent::WorldState;
use crate::agent::after_rounds;
use crate::agent::charge_value;
use crate::agent::content;
use crate::agent::lemma_charge_value;
use crate::agent::lemma_same_entries_content;
use crate::agent::lemma_update_content;
use crate::agent::pure_charge;
use crate::agent::next_content;
use crate::agent::pure_rule;
use crate::pure::lemma_rel_of;
use crate::pure::pure_rel;
use crate::pure::rel_of;

verus! {

/// Severity of a conservation violation.
#[derive(Debug, Clone, PartialEq, Eq, Structural)]
pub enum ViolationSeverity {
    Negligible,
    Minor,
    Major,
    Critical,
}

/// The text of a severity.
pub open spec fn severity_text(s: ViolationSeverity) -> Seq<char> {
    match s {
        ViolationSeverity::Negligible => "NEGLIGIBLE"@,
        ViolationSeverity::Minor => "MINOR"@,
        ViolationSeverity::Major => "MAJOR"@,
        ViolationSeverity::Critical => "CRITICAL"@,
    }
}

impl ViolationSeverity {
    /// The text of the value, as it is displayed.
    pub fn to_string(&self) -> (r: String)
        ensures
            r@ == severity_text(*self),
    {
        match self {
            ViolationSeverity::Negligible => "NEGLIGIBLE".to_owned(),
            ViolationSeverity::Minor => "MINOR".to_owned(),
            ViolationSeverity::Major => "MAJOR".to_owned(),
            ViolationSeverity::Critical => "CRITICAL".to_owned(),
        }
    }
}

/// The charge of the world before the first round and after each round:
/// entry `k` is the charge after `k` rounds of `rule`.
pub open spec fn trajectory_of<T, C, Q: Fn(&WorldState<T>) -> C, R: Fn(&AgentId, &AgentState<T>, &WorldState<T>) -> AgentState<T>>(
    charge: Q,
    rule: R,
    ws: WorldState<T>,
    rounds: nat,
) -> Seq<C> {
    Seq::new(rounds + 1, |k: int| charge_value(charge, after_rounds(rule, content(ws@), k as nat)))
}

/// Computes the charge trajectory for drift analysis: the charge of the
/// world initially and after each of `rounds` rounds of `rule`.
pub fn charge_trajectory<
    T: Copy,
    C,
    Q: Fn(&WorldState<T>) -> C,
    R: Fn(&AgentId, &AgentState<T>, &WorldState<T>) -> AgentState<T>,
>(charge: &Q, rule: R, ws: &WorldState<T>, rounds: usize) -> (r: Vec<C>)
    requires
        pure_charge(*charge),
        pure_rule(rule),
    ensures
        r@ == trajectory_of(*charge, rule, *ws, rounds as nat),
{
    let update = MultiAgentUpdate::new(rule);
    let mut current = ws.clone();
    proof {
        lemma_same_entries_content(current@, ws@);
    }
    let first = charge(&current);
    proof {
        lemma_charge_value(*charge, &current, first);
    }
    let mut trajectory: Vec<C> = Vec::new();
    trajectory.push(first);
    let mut k: usize = 0;
    while k < rounds
        invariant
            pure_charge(*charge),
            pure_rule(rule),
            update.rule == rule,
            k <= rounds,
            content(current@) == after_rounds(rule, content(ws@), k as nat),
            trajectory@ == trajectory_of(*charge, rule, *ws, k as nat),
        decreases rounds - k,
    {
        let next = update.apply(&current);
        proof {
            lemma_update_content(rule, current, next);
        }
        current = next;
        let c = charge(&current);
        proof {
            lemma_charge_value(*charge, &current, c);
        }
        trajectory.push(c);
        k = k + 1;
        assert(trajectory@ =~= trajectory_of(*charge, rule, *ws, k as nat));
    }
    trajectory
}

/// A charge that no round of `rule` changes has, after any number of rounds,
/// its initial value.
pub proof fn lemma_kept_charge_after_rounds<
    T,
    C,
    Q: Fn(&WorldState<T>) -> C,
    R: Fn(&AgentId, &AgentState<T>, &WorldState<T>) -> AgentState<T>,
>(charge: Q, rule: R, c: Seq<(Seq<char>, Seq<T>)>, k: nat)
    requires
        forall|d: Seq<(Seq<char>, Seq<T>)>|
            #[trigger] charge_value(charge, next_content(rule, d)) == charge_value(charge, d),
    ensures
        charge_value(charge, after_rounds(rule, c, k)) == charge_value(charge, c),
    decreases k,
{
    if k > 0 {
        lemma_kept_charge_after_rounds(charge, rule, c, (k - 1) as nat);
        assert(charge_value(charge, next_content(rule, after_rounds(rule, c, (k - 1) as nat)))
            == charge_value(charge, after_rounds(rule, c, (k - 1) as nat)));
    }
}

/// A charge that no round of `rule` changes has a constant trajectory.
pub proof fn law_kept_charge_trajectory_is_constant<
    T,
    C,
    Q: Fn(&WorldState<T>) -> C,
    R: Fn(&AgentId, &AgentState<T>, &WorldState<T>) -> AgentState<T>,
>(charge: Q, rule: R, ws: WorldState<T>, rounds: nat)
    requires
        forall|d: Seq<(Seq<char>, Seq<T>)>|
            #[trigger] charge_value(charge, next_content(rule, d)) == charge_value(charge, d),
    ensures
        forall|k: int|
            0 <= k <= rounds ==> #[trigger] trajectory_of(charge, rule, ws, rounds)[k] == trajectory_of(
                charge,
                rule,
                ws,
                rounds,
            )[0],
{
    assert forall|k: int| 0 <= k <= rounds implies #[trigger] trajectory_of(charge, rule, ws, rounds)[k]
        == trajectory_of(charge, rule, ws, rounds)[0] by {
        lemma_kept_charge_after_rounds(charge, rule, content(ws@), k as nat);
    }
}

/// `r` lists, in increasing order, the rounds `k >= 1` of the trajectory
/// `traj` whose charge violates conservation against the initial charge
/// (`violates(traj[k], traj[0])`), and nothing else.
pub open spec fn lists_violating_rounds<C, V: Fn(C, C) -> bool>(violates: V, traj: Seq<C>, r: Seq<usize>) -> bool {
    &&& forall|x: int| 0 <= x < r.len() ==> 1 <= #[trigger] r[x] < traj.len()
    &&& forall|x: int, y: int| 0 <= x < y < r.len() ==> #[trigger] r[x] < #[trigger] r[y]
    &&& forall|k: int|
        1 <= k < traj.len() ==> (r.contains(k as usize) <==> rel_of(violates, #[trigger] traj[k], traj[0]))
}

/// The rounds of a charge trajectory whose charge violates conservation: the
/// rounds `k >= 1` for which `violates(trajectory[k], trajectory[0])` holds,
/// in increasing order.
pub fn violation_rounds<C: Copy, V: Fn(C, C) -> bool>(violates: &V, trajectory: &[C]) -> (r: Vec<usize>)
    requires
        pure_rel(*violates),
    ensures
        lists_violating_rounds(*violates, trajectory@, r@),
{
    let mut out: Vec<usize> = Vec::new();
    if trajectory.len() == 0 {
        return out;
    }
    let initial = trajectory[0];
    let mut k: usize = 1;
    while k < trajectory.len()
        invariant
            pure_rel(*violates),
            initial == trajectory@[0],
            1 <= k <= trajectory@.len(),
            forall|x: int| 0 <= x < out@.len() ==> 1 <= #[trigger] out@[x] < k,
            forall|x: int, y: int| 0 <= x < y < out@.len() ==> #[trigger] out@[x] < #[trigger] out@[y],
            forall|j: int|
                1 <= j < k ==> (out@.contains(j as usize) <==> rel_of(*violates, #[trigger] trajectory@[j], trajectory@[0])),
        decreases trajectory.len() - k,
    {
        let v = violates(trajectory[k], initial);
        proof {
            lemma_rel_of(*violates, trajectory@[k as int], initial, v);
        }
        let ghost before = out@;
        if v {
            out.push(k);
            proof {
                assert(out@[before.len() as int] == k);
                assert forall|j: int| 1 <= j < k implies (#[trigger] out@.contains(j as usize) <==> before.contains(j as usize)) by {
                    if before.contains(j as usize) {
                        let x = choose|x: int| 0 <= x < before.len() && before[x] == j as usize;
                        assert(out@[x] == j as usize);
                    }
                    if out@.contains(j as usize) {
                        let x = choose|x: int| 0 <= x < out@.len() && out@[x] == j as usize;
                        if x < before.len() {
                            assert(before[x] == out@[x]);
                        }
                    }
                }
            }
        } else {
            proof {
                if out@.contains(k) {
                    let x = choose|x: int| 0 <= x < out@.len() && out@[x] == k;
                    assert(out@[x] < k);
                }
            }
        }
        k = k + 1;
    }
    out
}

/// A charge that no round of `rule` changes, under a judgement of violation
/// that no value violates against itself, has no violating round.
pub proof fn law_kept_charge_has_no_violation<
    T,
    C,
    Q: Fn(&WorldState<T>) -> C,
    R: Fn(&AgentId, &AgentState<T>, &WorldState<T>) -> AgentState<T>,
    V: Fn(C, C) -> bool,
>(charge: Q, rule: R, ws: WorldState<T>, rounds: nat, violates: V, r: Seq<usize>)
    requires
        forall|d: Seq<(Seq<char>, Seq<T>)>|
            #[trigger] charge_value(charge, next_content(rule, d)) == charge_value(charge, d),
        forall|x: C| !#[trigger] rel_of(violates, x, x),
        lists_violating_rounds(violates, trajectory_of(charge, rule, ws, rounds), r),
    ensures
        r.len() == 0,
{
    let traj = trajectory_of(charge, rule, ws, rounds);
    law_kept_charge_trajectory_is_constant(charge, rule, ws, rounds);
    if r.len() > 0 {
        let k = r[0] as int;
        assert(1 <= k < traj.len());
        assert(traj[k] == traj[0]);
        assert(r.contains(k as usize));
        assert(rel_of(violates, traj[k], traj[0]));
        assert(!rel_of(violates, traj[0], traj[0]));
    }
}

} // verus!

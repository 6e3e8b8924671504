//! Partition test: replicas, partition, independent rounds, merge, and more
//! rounds.
use vstd::prelude::*;
use crate::agent::AgentId;
use crate::agent::AgentState;
use crate::agent::MultiAgentUpdate;
use crate::agent::WorldState;
use crate::agent::after_rounds;
use crate::agent::content;
use crate::agent::has_id;
use crate::agent::index_of_id;
use crate::agent::lemma_has_id_content;
use crate::agent::lemma_same_agents_same_content;
use crate::agent::lemma_values_at;
use crate::agent::identity_perm;
use crate::agent::identity_seq;
use crate::agent::ids_sorted;
use crate::agent::pure_rule;
use crate::agent::split_part;
use crate::agent::values_of;

verus! {

/// The worlds that a partition test goes through.
pub struct PartitionRun<T> {
    /// The initial world after the replication rounds.
    pub replicated: WorldState<T>,
    /// The first part after its own rounds.
    pub partition_a: WorldState<T>,
    /// The second part after its own rounds.
    pub partition_b: WorldState<T>,
    /// The two parts merged.
    pub merged: WorldState<T>,
    /// The merged world after the final rounds.
    pub final_state: WorldState<T>,
}

/// `r` holds the worlds of a partition test of `initial` with `rounds`
/// rounds per stage, whose first part is the agents at `positions`: the
/// replicated world, each part after its own rounds, their merge, and the
/// merged world after the final rounds.
pub open spec fn is_partition_run<T, R: Fn(&AgentId, &AgentState<T>, &WorldState<T>) -> AgentState<T>>(
    rule: R,
    initial: WorldState<T>,
    rounds: nat,
    positions: Seq<usize>,
    r: PartitionRun<T>,
) -> bool {
    &&& ids_sorted(r.replicated@)
    &&& ids_sorted(r.partition_a@)
    &&& ids_sorted(r.partition_b@)
    &&& ids_sorted(r.final_state@)
    &&& content(r.replicated@) == after_rounds(rule, content(initial@), rounds)
    &&& content(r.partition_a@) == after_rounds(
        rule,
        split_part(content(r.replicated@), positions, true),
        rounds,
    )
    &&& content(r.partition_b@) == after_rounds(
        rule,
        split_part(content(r.replicated@), positions, false),
        rounds,
    )
    &&& ids_sorted(r.merged@)
    &&& forall|k: Seq<char>|
        has_id(r.merged@, k) <==> (has_id(r.partition_a@, k) || has_id(r.partition_b@, k))
    &&& forall|k: Seq<char>|
        has_id(r.partition_b@, k) ==> values_of(r.merged@, k) == values_of(r.partition_b@, k)
    &&& forall|k: Seq<char>|
        has_id(r.partition_a@, k) && !has_id(r.partition_b@, k) ==> values_of(r.merged@, k)
            == values_of(r.partition_a@, k)
    &&& content(r.final_state@) == after_rounds(rule, content(r.merged@), rounds)
}

/// Runs the rounds of a partition test: `rounds` rounds of `rule` on the
/// initial world; a split into the agents at `partition_a_indices` (in agent
/// order) and the others; `rounds` rounds on each part on its own; the merge
/// of the two parts; and `rounds` rounds on the merged world.
pub fn partition_rounds<T: Copy, R: Fn(&AgentId, &AgentState<T>, &WorldState<T>) -> AgentState<T>>(
    rule: R,
    initial: &WorldState<T>,
    rounds: usize,
    partition_a_indices: &[usize],
) -> (r: PartitionRun<T>)
    requires
        pure_rule(rule),
    ensures
        is_partition_run(rule, *initial, rounds as nat, partition_a_indices@, r),
{
    let update = MultiAgentUpdate::new(rule);
    let replicated = update.apply_rounds(initial, rounds);
    let (a, b) = replicated.split_by_positions(partition_a_indices);
    let partition_a = update.apply_rounds(&a, rounds);
    let partition_b = update.apply_rounds(&b, rounds);
    let merged = partition_a.merge(&partition_b);
    let final_state = update.apply_rounds(&merged, rounds);
    PartitionRun { replicated, partition_a, partition_b, merged, final_state }
}

/// What the partition test into halves does with a world: one of fewer than
/// two agents is only replicated; any other is split and merged.
pub enum HalvesRun<T> {
    /// The world had fewer than two agents: the world after the replication rounds.
    Replicated(WorldState<T>),
    /// The worlds of the partition test.
    Split(PartitionRun<T>),
}

/// Runs the partition test into halves: a world of fewer than two agents
/// only goes through the replication rounds; any other is split into its
/// first half of agents (in agent order, `n / 2` of them) and the rest.
pub fn partition_halves<T: Copy, R: Fn(&AgentId, &AgentState<T>, &WorldState<T>) -> AgentState<T>>(
    rule: R,
    initial: &WorldState<T>,
    rounds: usize,
) -> (r: HalvesRun<T>)
    requires
        pure_rule(rule),
    ensures
        initial@.len() < 2 ==> (r matches HalvesRun::Replicated(w) && content(w@) == after_rounds(
            rule,
            content(initial@),
            rounds as nat,
        )),
        initial@.len() >= 2 ==> (r matches HalvesRun::Split(run) && is_partition_run(
            rule,
            *initial,
            rounds as nat,
            identity_seq((initial@.len() / 2) as nat),
            run,
        )),
{
    let n = initial.len();
    if n < 2 {
        let update = MultiAgentUpdate::new(rule);
        return HalvesRun::Replicated(update.apply_rounds(initial, rounds));
    }
    let first_half = identity_perm(n / 2);
    HalvesRun::Split(partition_rounds(rule, initial, rounds, first_half.as_slice()))
}

/// Rounds keep the number of agents.
proof fn lemma_after_rounds_len<T, R: Fn(&AgentId, &AgentState<T>, &WorldState<T>) -> AgentState<T>>(
    rule: R,
    c: Seq<(Seq<char>, Seq<T>)>,
    k: nat,
)
    ensures
        after_rounds(rule, c, k).len() == c.len(),
    decreases k,
{
    if k > 0 {
        lemma_after_rounds_len(rule, c, (k - 1) as nat);
    }
}

/// Two lists of positions that select the same positions below the length of
/// `c` split `c` alike.
proof fn lemma_split_part_same_selection<T>(
    c: Seq<(Seq<char>, Seq<T>)>,
    p: Seq<usize>,
    q: Seq<usize>,
    inside: bool,
)
    requires
        forall|i: usize| i < c.len() ==> (p.contains(i) <==> q.contains(i)),
    ensures
        split_part(c, p, inside) == split_part(c, q, inside),
    decreases c.len(),
{
    if c.len() > 0 {
        lemma_split_part_same_selection(c.drop_last(), p, q, inside);
        let last = (c.len() - 1) as usize;
        assert(p.contains(last) <==> q.contains(last));
    }
}

/// Two sorted lists with the same identifiers and values hold the same agents
/// with the same values.
proof fn lemma_same_content_same_agents<T>(a: Seq<(AgentId, AgentState<T>)>, b: Seq<(AgentId, AgentState<T>)>)
    requires
        ids_sorted(a),
        ids_sorted(b),
        content(a) == content(b),
    ensures
        forall|k: Seq<char>| has_id(a, k) <==> has_id(b, k),
        forall|k: Seq<char>| has_id(a, k) ==> values_of(a, k) == values_of(b, k),
{
    assert forall|k: Seq<char>| has_id(a, k) <==> has_id(b, k) by {
        lemma_has_id_content(a, k);
        lemma_has_id_content(b, k);
    }
    assert forall|k: Seq<char>| has_id(a, k) implies values_of(a, k) == values_of(b, k) by {
        let i = index_of_id(a, k);
        assert(0 <= i < a.len() && a[i].0@ == k);
        assert(content(a).len() == a.len() && content(b).len() == b.len());
        assert(content(a)[i] == content(b)[i]);
        assert(b[i].0@ == k);
        lemma_values_at(a, i);
        lemma_values_at(b, i);
    }
}

/// A partition test is determined by the world, the rule, the number of
/// rounds and the positions that the first part takes below the number of
/// agents: two runs whose first parts take the same such positions go
/// through the same agents with the same values at every stage.
pub proof fn law_partition_run_determined<T, R: Fn(&AgentId, &AgentState<T>, &WorldState<T>) -> AgentState<T>>(
    rule: R,
    initial: WorldState<T>,
    rounds: nat,
    p: Seq<usize>,
    q: Seq<usize>,
    r1: PartitionRun<T>,
    r2: PartitionRun<T>,
)
    requires
        forall|i: usize| i < initial@.len() ==> (p.contains(i) <==> q.contains(i)),
        is_partition_run(rule, initial, rounds, p, r1),
        is_partition_run(rule, initial, rounds, q, r2),
    ensures
        content(r1.replicated@) == content(r2.replicated@),
        content(r1.partition_a@) == content(r2.partition_a@),
        content(r1.partition_b@) == content(r2.partition_b@),
        content(r1.merged@) == content(r2.merged@),
        content(r1.final_state@) == content(r2.final_state@),
{
    let c = content(r1.replicated@);
    lemma_after_rounds_len(rule, content(initial@), rounds);
    lemma_split_part_same_selection(c, p, q, true);
    lemma_split_part_same_selection(c, p, q, false);
    lemma_same_content_same_agents(r1.partition_a@, r2.partition_a@);
    lemma_same_content_same_agents(r1.partition_b@, r2.partition_b@);
    assert forall|k: Seq<char>| has_id(r1.merged@, k) <==> has_id(r2.merged@, k) by {}
    assert forall|k: Seq<char>| has_id(r1.merged@, k) implies values_of(r1.merged@, k) == values_of(
        r2.merged@,
        k,
    ) by {
        if has_id(r1.partition_b@, k) {
        } else {
        }
    }
    lemma_same_agents_same_content(r1.merged@, r2.merged@);
}

/// A partition test whose first part is given as the positions `0 .. n / 2`
/// of the `n >= 2` agents (positions at or past `n` aside) is the partition
/// test into halves: the same agents with the same values at every stage.
pub proof fn law_first_half_partition_is_halves<T, R: Fn(&AgentId, &AgentState<T>, &WorldState<T>) -> AgentState<T>>(
    rule: R,
    initial: WorldState<T>,
    rounds: nat,
    positions: Seq<usize>,
    given: PartitionRun<T>,
    halves: HalvesRun<T>,
)
    requires
        initial@.len() >= 2,
        forall|i: usize| i < initial@.len() ==> (positions.contains(i) <==> i < initial@.len() / 2),
        is_partition_run(rule, initial, rounds, positions, given),
        halves matches HalvesRun::Split(run) && is_partition_run(
            rule,
            initial,
            rounds,
            identity_seq((initial@.len() / 2) as nat),
            run,
        ),
    ensures
        halves matches HalvesRun::Split(run) && {
            &&& content(given.replicated@) == content(run.replicated@)
            &&& content(given.partition_a@) == content(run.partition_a@)
            &&& content(given.partition_b@) == content(run.partition_b@)
            &&& content(given.merged@) == content(run.merged@)
            &&& content(given.final_state@) == content(run.final_state@)
        },
{
    let run = halves->Split_0;
    let h = identity_seq((initial@.len() / 2) as nat);
    assert forall|i: usize| i < initial@.len() implies (positions.contains(i) <==> h.contains(i)) by {
        if i < initial@.len() / 2 {
            assert(h[i as int] == i);
        }
    }
    law_partition_run_determined(rule, initial, rounds, positions, h, given, run);
}

} // verus!

//! Generated coordination-free rules, and their verification.
use vstd::prelude::*;
use crate::agent::AgentId;
use crate::agent::AgentState;
use crate::agent::MultiAgentUpdate;
use crate::agent::WorldState;
use crate::agent::content;
use crate::agent::lemma_standard_permutations;
use crate::agent::lemma_update_content;
use crate::agent::next_content;
use crate::agent::pure_rule;
use crate::agent::rearranged;
use crate::agent::lemma_rearranged_multiset;
use crate::agent::rule_value;
use crate::agent::states_of;
use crate::agent::swap_perm;
use crate::agent::swap_seq;
use crate::noether::first_two_exchanged;
use crate::noether::lemma_permuted_content;
use crate::noether::permuted_content;
use crate::pure::lemma_rel_of;
use crate::pure::pure_rel;
use crate::pure::rel_of;

verus! {

/// Each agent gets values close to the same values (position by position,
/// where both have one) whether the rule runs on the world or on the world
/// with its first two agents' states exchanged.
pub open spec fn same_after_swap<T, R: Fn(&AgentId, &AgentState<T>, &WorldState<T>) -> AgentState<T>, E: Fn(T, T) -> bool>(
    rule: R,
    close: E,
    c: Seq<(Seq<char>, Seq<T>)>,
) -> bool {
    let b = next_content(rule, c);
    let p = next_content(rule, permuted_content(c, swap_seq(c.len())));
    forall|i: int, k: int|
        #![trigger b[i].1[k], p[i].1[k]]
        0 <= i < c.len() && 0 <= k < b[i].1.len() && k < p[i].1.len() ==> rel_of(close, b[i].1[k], p[i].1[k])
}

/// Verifies that a generated rule is coordination-free on the world: a world
/// of at most one agent passes; otherwise exchanging the states of the first
/// two agents must leave every agent's new state unchanged (up to `close`).
pub fn verify_generated_rule<
    T: Copy,
    R: Fn(&AgentId, &AgentState<T>, &WorldState<T>) -> AgentState<T>,
    E: Fn(T, T) -> bool,
>(rule: R, close: &E, ws: &WorldState<T>) -> (r: bool)
    requires
        pure_rule(rule),
        pure_rel(*close),
    ensures
        r == (ws@.len() <= 1 || same_after_swap(rule, *close, content(ws@))),
{
    let update = MultiAgentUpdate::new(rule);
    let base = update.apply(ws);
    proof {
        lemma_update_content(rule, *ws, base);
    }
    let n = ws.len();
    if n <= 1 {
        return true;
    }
    proof {
        lemma_standard_permutations(n as nat);
    }
    let swap = swap_perm(n);
    let permuted = ws.permute(swap.as_slice());
    proof {
        lemma_permuted_content(ws@, permuted@, swap@);
    }
    let permuted_result = update.apply(&permuted);
    proof {
        lemma_update_content(rule, permuted, permuted_result);
    }
    let ghost c = content(ws@);
    let ghost b = next_content(rule, c);
    let ghost p = next_content(rule, permuted_content(c, swap_seq(c.len())));
    let base_states = base.ordered_states();
    let perm_states = permuted_result.ordered_states();
    let mut i: usize = 0;
    while i < n
        invariant
            pure_rel(*close),
            n == c.len(),
            n > 1,
            n == ws@.len(),
            c == content(ws@),
            b == next_content(rule, c),
            p == next_content(rule, permuted_content(c, swap_seq(c.len()))),
            b.len() == n,
            p.len() == n,
            base_states@.len() == n,
            perm_states@.len() == n,
            forall|q: int| 0 <= q < n ==> (*(#[trigger] base_states@[q]).1)@ == b[q].1,
            forall|q: int| 0 <= q < n ==> (*(#[trigger] perm_states@[q]).1)@ == p[q].1,
            i <= n,
            forall|q: int, k: int|
                #![trigger b[q].1[k], p[q].1[k]]
                0 <= q < i && 0 <= k < b[q].1.len() && k < p[q].1.len() ==> rel_of(*close, b[q].1[k], p[q].1[k]),
        decreases n - i,
    {
        let bs = base_states[i].1.as_slice();
        let ps = perm_states[i].1.as_slice();
        let mut k: usize = 0;
        while k < bs.len() && k < ps.len()
            invariant
                pure_rel(*close),
                n > 1,
                n == ws@.len(),
                c == content(ws@),
                b == next_content(rule, c),
                p == next_content(rule, permuted_content(c, swap_seq(c.len()))),
                i < n,
                b.len() == n,
                p.len() == n,
                bs@ == b[i as int].1,
                ps@ == p[i as int].1,
                k <= bs@.len(),
                forall|m: int| 0 <= m < k ==> rel_of(*close, bs@[m], #[trigger] ps@[m]),
            decreases bs.len() - k,
        {
            let bv = bs[k];
            let pv = ps[k];
            let ok = close(bv, pv);
            proof {
                lemma_rel_of(*close, bv, pv, ok);
            }
            if !ok {
                assert(!rel_of(*close, b[i as int].1[k as int], p[i as int].1[k as int]));
                return false;
            }
            k = k + 1;
        }
        proof {
            assert forall|m: int| 0 <= m < b[i as int].1.len() && m < p[i as int].1.len() implies rel_of(
                *close,
                b[i as int].1[m],
                p[i as int].1[m],
            ) by {
                assert(rel_of(*close, bs@[m], ps@[m]));
            }
        }
        i = i + 1;
    }
    true
}

/// A rule whose result depends only on the states of the world, counted
/// with multiplicity (not on the agent, nor on its own state), is
/// coordination-free: it passes the swap test on every world of two or more
/// agents.
pub proof fn law_symmetric_rule_passes<
    T,
    R: Fn(&AgentId, &AgentState<T>, &WorldState<T>) -> AgentState<T>,
    E: Fn(T, T) -> bool,
>(rule: R, close: E, c: Seq<(Seq<char>, Seq<T>)>)
    requires
        2 <= c.len() <= usize::MAX,
        forall|
            id1: Seq<char>,
            s1: Seq<T>,
            c1: Seq<(Seq<char>, Seq<T>)>,
            id2: Seq<char>,
            s2: Seq<T>,
            c2: Seq<(Seq<char>, Seq<T>)>,
        |
            states_of(c1).to_multiset() == states_of(c2).to_multiset() ==> #[trigger] rule_value(
                rule,
                id1,
                s1,
                c1,
            ) == #[trigger] rule_value(rule, id2, s2, c2),
        forall|x: T| #[trigger] rel_of(close, x, x),
    ensures
        same_after_swap(rule, close, c),
{
    let n = c.len();
    lemma_standard_permutations(n);
    let pc = permuted_content(c, swap_seq(n));
    lemma_rearranged_multiset(states_of(c), swap_seq(n));
    assert(states_of(pc) =~= rearranged(states_of(c), swap_seq(n)));
    let b = next_content(rule, c);
    let p = next_content(rule, pc);
    assert forall|i: int, k: int|
        0 <= i < n && 0 <= k < b[i].1.len() && k < p[i].1.len() implies rel_of(
        close,
        #[trigger] b[i].1[k],
        #[trigger] p[i].1[k],
    ) by {
        assert(b[i].1 == rule_value(rule, c[i].0, c[i].1, c));
        assert(p[i].1 == rule_value(rule, pc[i].0, pc[i].1, pc));
        assert(b[i].1 == p[i].1);
    }
}

/// The check on a world of two or more agents compares, for every agent and
/// every position, its new values in the world as it is with its new values
/// in the world where the first two agents' states are exchanged.
pub proof fn law_swap_check_exchanges_first_two<
    T,
    R: Fn(&AgentId, &AgentState<T>, &WorldState<T>) -> AgentState<T>,
    E: Fn(T, T) -> bool,
>(rule: R, close: E, c: Seq<(Seq<char>, Seq<T>)>)
    requires
        2 <= c.len() <= usize::MAX,
    ensures
        same_after_swap(rule, close, c) <==> (forall|i: int, k: int|
            #![trigger next_content(rule, c)[i].1[k], next_content(rule, first_two_exchanged(c))[i].1[k]]
            0 <= i < c.len() && 0 <= k < next_content(rule, c)[i].1.len() && k < next_content(
                rule,
                first_two_exchanged(c),
            )[i].1.len() ==> rel_of(
                close,
                next_content(rule, c)[i].1[k],
                next_content(rule, first_two_exchanged(c))[i].1[k],
            )),
{
    assert(permuted_content(c, swap_seq(c.len())) =~= first_two_exchanged(c));
}

} // verus!

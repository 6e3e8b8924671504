//! Noether charges: permutation-invariant aggregates of a world.
use vstd::prelude::*;
use crate::agent::AgentId;
use crate::agent::AgentState;
use crate::agent::MultiAgentUpdate;
use crate::agent::WorldState;
use crate::agent::after_rounds;
use crate::agent::charge_value;
use crate::agent::content;
use crate::agent::identity_perm;
use crate::agent::identity_seq;
use crate::agent::is_permutation;
use crate::agent::is_permuted;
use crate::agent::lemma_charge_value;
use crate::agent::lemma_same_entries_content;
use crate::agent::lemma_standard_permutations;
use crate::agent::lemma_update_content;
use crate::agent::pure_charge;
use crate::agent::next_content;
use crate::agent::pure_rule;
use crate::agent::rearranged;
use crate::agent::lemma_rearranged_multiset;
use crate::agent::states_of;
use crate::conservation::lemma_kept_charge_after_rounds;
use crate::agent::reverse_perm;
use crate::agent::reverse_seq;
use crate::agent::rotate_perm;
use crate::agent::rotate_seq;
use crate::agent::swap_perm;
use crate::agent::swap_seq;
use crate::pure::lemma_rel_of;
use crate::pure::pure_rel;
use crate::pure::rel_of;

verus! {

/// The permutations against which a charge of `n` agents is tested.
pub open spec fn test_perm_seqs(n: nat) -> Seq<Seq<usize>> {
    if n <= 1 {
        seq![identity_seq(n)]
    } else if n >= 3 {
        seq![identity_seq(n), swap_seq(n), reverse_seq(n), rotate_seq(n)]
    } else {
        seq![identity_seq(n), swap_seq(n), reverse_seq(n)]
    }
}

/// The permutations of `n` agents against which a charge is tested: the
/// identity, the exchange of the first two agents, the reversal, and (for at
/// least three agents) the rotation by one place.
pub fn test_permutations(n: usize) -> (r: Vec<Vec<usize>>)
    ensures
        r@.len() == test_perm_seqs(n as nat).len(),
        forall|k: int| 0 <= k < r@.len() ==> (#[trigger] r@[k])@ == test_perm_seqs(n as nat)[k],
        forall|k: int| 0 <= k < r@.len() ==> is_permutation(#[trigger] r@[k]@, n as nat),
{
    proof {
        lemma_standard_permutations(n as nat);
    }
    let mut result: Vec<Vec<usize>> = Vec::new();
    if n <= 1 {
        result.push(identity_perm(n));
        return result;
    }
    result.push(identity_perm(n));
    result.push(swap_perm(n));
    result.push(reverse_perm(n));
    if n >= 3 {
        result.push(rotate_perm(n));
    }
    result
}

/// The identifiers and values of a world after agent `i` took the values of
/// agent `p[i]`.
pub open spec fn permuted_content<T>(c: Seq<(Seq<char>, Seq<T>)>, p: Seq<usize>) -> Seq<(Seq<char>, Seq<T>)> {
    Seq::new(p.len(), |i: int| (c[i].0, c[p[i] as int].1))
}

/// The world `c` with the states of its first two agents exchanged (each
/// agent keeps its identifier).
pub open spec fn first_two_exchanged<T>(c: Seq<(Seq<char>, Seq<T>)>) -> Seq<(Seq<char>, Seq<T>)> {
    Seq::new(
        c.len(),
        |i: int| (c[i].0, if i == 0 { c[1].1 } else if i == 1 { c[0].1 } else { c[i].1 }),
    )
}

/// The world `c` with its states in reverse order: agent `i` takes the
/// state of agent `n - 1 - i`.
pub open spec fn states_mirrored<T>(c: Seq<(Seq<char>, Seq<T>)>) -> Seq<(Seq<char>, Seq<T>)> {
    Seq::new(c.len(), |i: int| (c[i].0, c[c.len() - 1 - i].1))
}

/// The world `c` with its states moved one place: agent `i` takes the state
/// of agent `i + 1`, and the last agent the state of the first.
pub open spec fn states_rotated<T>(c: Seq<(Seq<char>, Seq<T>)>) -> Seq<(Seq<char>, Seq<T>)> {
    Seq::new(c.len(), |i: int| (c[i].0, if i + 1 < c.len() { c[i + 1].1 } else { c[0].1 }))
}

pub proof fn lemma_permuted_content<T>(
    before: Seq<(AgentId, AgentState<T>)>,
    after: Seq<(AgentId, AgentState<T>)>,
    p: Seq<usize>,
)
    requires
        is_permuted(before, after, p),
        forall|i: int| 0 <= i < p.len() ==> #[trigger] p[i] < before.len(),
        p.len() <= before.len(),
    ensures
        content(after) == permuted_content(content(before), p),
{
    assert(content(after) =~= permuted_content(content(before), p));
}

/// The charge of every tested permutation of the world is close to the
/// charge of the world.
pub open spec fn invariant_under_test_perms<T, C, Q: Fn(&WorldState<T>) -> C, E: Fn(C, C) -> bool>(
    charge: Q,
    close: E,
    c: Seq<(Seq<char>, Seq<T>)>,
) -> bool {
    forall|k: int|
        0 <= k < test_perm_seqs(c.len()).len() ==> rel_of(
            close,
            charge_value(charge, permuted_content(c, #[trigger] test_perm_seqs(c.len())[k])),
            charge_value(charge, c),
        )
}

/// Verifies that a charge is permutation-invariant on the world: a world of
/// at most one agent passes; otherwise the charge of each tested permutation
/// must be close to the charge of the world.
pub fn is_permutation_invariant<T: Copy, C: Copy, Q: Fn(&WorldState<T>) -> C, E: Fn(C, C) -> bool>(
    charge: &Q,
    close: &E,
    ws: &WorldState<T>,
) -> (r: bool)
    requires
        pure_charge(*charge),
        pure_rel(*close),
    ensures
        r == (ws@.len() <= 1 || invariant_under_test_perms(*charge, *close, content(ws@))),
{
    let base = charge(ws);
    proof {
        lemma_charge_value(*charge, ws, base);
    }
    let n = ws.len();
    if n <= 1 {
        return true;
    }
    let perms = test_permutations(n);
    let ghost c = content(ws@);
    let mut k: usize = 0;
    while k < perms.len()
        invariant
            pure_charge(*charge),
            pure_rel(*close),
            n == ws@.len(),
            n > 1,
            c == content(ws@),
            c.len() == n,
            base == charge_value(*charge, c),
            perms@.len() == test_perm_seqs(n as nat).len(),
            forall|q: int| 0 <= q < perms@.len() ==> (#[trigger] perms@[q])@ == test_perm_seqs(n as nat)[q],
            forall|q: int| 0 <= q < perms@.len() ==> is_permutation(#[trigger] perms@[q]@, n as nat),
            k <= perms@.len(),
            forall|q: int|
                0 <= q < k ==> rel_of(
                    *close,
                    charge_value(*charge, permuted_content(c, #[trigger] test_perm_seqs(c.len())[q])),
                    base,
                ),
        decreases perms.len() - k,
    {
        let p = perms[k].as_slice();
        assert(is_permutation(perms@[k as int]@, n as nat));
        let permuted = ws.permute(p);
        proof {
            lemma_permuted_content(ws@, permuted@, p@);
        }
        let val = charge(&permuted);
        proof {
            lemma_charge_value(*charge, &permuted, val);
        }
        let ok = close(val, base);
        proof {
            lemma_rel_of(*close, val, base, ok);
        }
        if !ok {
            assert(test_perm_seqs(c.len())[k as int] == p@);
            assert(!rel_of(
                *close,
                charge_value(*charge, permuted_content(c, test_perm_seqs(c.len())[k as int])),
                charge_value(*charge, c),
            ));
            return false;
        }
        k = k + 1;
    }
    true
}

/// The charge after each of rounds `1..=rounds` of `rule` is close to the
/// initial charge.
pub open spec fn conserved_for<T, C, Q: Fn(&WorldState<T>) -> C, E: Fn(C, C) -> bool, R: Fn(&AgentId, &AgentState<T>, &WorldState<T>) -> AgentState<T>>(
    charge: Q,
    close: E,
    rule: R,
    c: Seq<(Seq<char>, Seq<T>)>,
    rounds: nat,
) -> bool {
    forall|k: nat|
        1 <= k <= rounds ==> rel_of(
            close,
            charge_value(charge, #[trigger] after_rounds(rule, c, k)),
            charge_value(charge, c),
        )
}

/// Checks conservation: the charge after every round of `rule` stays close to
/// the charge before the first round.
pub fn is_conserved<
    T: Copy,
    C: Copy,
    Q: Fn(&WorldState<T>) -> C,
    E: Fn(C, C) -> bool,
    R: Fn(&AgentId, &AgentState<T>, &WorldState<T>) -> AgentState<T>,
>(charge: &Q, close: &E, rule: R, ws: &WorldState<T>, rounds: usize) -> (r: bool)
    requires
        pure_charge(*charge),
        pure_rel(*close),
        pure_rule(rule),
    ensures
        r == conserved_for(*charge, *close, rule, content(ws@), rounds as nat),
{
    let mut current = ws.clone();
    proof {
        lemma_same_entries_content(current@, ws@);
    }
    let initial_charge = charge(&current);
    proof {
        lemma_charge_value(*charge, &current, initial_charge);
    }
    let update = MultiAgentUpdate::new(rule);
    let ghost c = content(ws@);
    let mut k: usize = 0;
    while k < rounds
        invariant
            pure_charge(*charge),
            pure_rel(*close),
            pure_rule(rule),
            update.rule == rule,
            c == content(ws@),
            k <= rounds,
            content(current@) == after_rounds(rule, c, k as nat),
            initial_charge == charge_value(*charge, c),
            forall|q: nat|
                1 <= q <= k ==> rel_of(
                    *close,
                    charge_value(*charge, #[trigger] after_rounds(rule, c, q)),
                    initial_charge,
                ),
        decreases rounds - k,
    {
        let next = update.apply(&current);
        proof {
            lemma_update_content(rule, current, next);
        }
        current = next;
        let value = charge(&current);
        proof {
            lemma_charge_value(*charge, &current, value);
        }
        let ok = close(value, initial_charge);
        proof {
            lemma_rel_of(*close, value, initial_charge, ok);
        }
        k = k + 1;
        if !ok {
            assert(!rel_of(*close, charge_value(*charge, after_rounds(rule, c, k as nat)), charge_value(*charge, c)));
            return false;
        }
    }
    true
}

/// A charge that depends only on the states of the world, counted with
/// multiplicity (a permutation-invariant aggregate such as a sum or a
/// maximum), passes the permutation test on every world.
pub proof fn law_symmetric_charge_is_invariant<T, C, Q: Fn(&WorldState<T>) -> C, E: Fn(C, C) -> bool>(
    charge: Q,
    close: E,
    c: Seq<(Seq<char>, Seq<T>)>,
)
    requires
        c.len() <= usize::MAX,
        forall|c1: Seq<(Seq<char>, Seq<T>)>, c2: Seq<(Seq<char>, Seq<T>)>|
            states_of(c1).to_multiset() == states_of(c2).to_multiset() ==> #[trigger] charge_value(
                charge,
                c1,
            ) == #[trigger] charge_value(charge, c2),
        forall|x: C| #[trigger] rel_of(close, x, x),
    ensures
        invariant_under_test_perms(charge, close, c),
{
    lemma_standard_permutations(c.len());
    assert forall|k: int| 0 <= k < test_perm_seqs(c.len()).len() implies rel_of(
        close,
        charge_value(charge, permuted_content(c, #[trigger] test_perm_seqs(c.len())[k])),
        charge_value(charge, c),
    ) by {
        let p = test_perm_seqs(c.len())[k];
        assert(is_permutation(p, c.len()));
        lemma_rearranged_multiset(states_of(c), p);
        assert(states_of(permuted_content(c, p)) =~= rearranged(states_of(c), p));
        assert(charge_value(charge, permuted_content(c, p)) == charge_value(charge, c));
    }
}

/// A charge that no round of `rule` changes passes the conservation check
/// for any number of rounds.
pub proof fn law_kept_charge_is_conserved<
    T,
    C,
    Q: Fn(&WorldState<T>) -> C,
    E: Fn(C, C) -> bool,
    R: Fn(&AgentId, &AgentState<T>, &WorldState<T>) -> AgentState<T>,
>(charge: Q, close: E, rule: R, c: Seq<(Seq<char>, Seq<T>)>, rounds: nat)
    requires
        forall|d: Seq<(Seq<char>, Seq<T>)>|
            #[trigger] charge_value(charge, next_content(rule, d)) == charge_value(charge, d),
        forall|x: C| #[trigger] rel_of(close, x, x),
    ensures
        conserved_for(charge, close, rule, c, rounds),
{
    assert forall|k: nat| 1 <= k <= rounds implies rel_of(
        close,
        charge_value(charge, #[trigger] after_rounds(rule, c, k)),
        charge_value(charge, c),
    ) by {
        lemma_kept_charge_after_rounds(charge, rule, c, k);
    }
}

/// A charge is reported permutation-invariant on a world of two or more
/// agents exactly when its value stays close to the world's own under each
/// of: the world as it is, the states of the first two agents exchanged, the
/// states in reverse order, and (with three or more agents) the states moved
/// one place.
pub proof fn law_invariance_tests_standard_rearrangements<T, C, Q: Fn(&WorldState<T>) -> C, E: Fn(C, C) -> bool>(
    charge: Q,
    close: E,
    c: Seq<(Seq<char>, Seq<T>)>,
)
    requires
        2 <= c.len() <= usize::MAX,
    ensures
        invariant_under_test_perms(charge, close, c) <==> {
            &&& rel_of(close, charge_value(charge, c), charge_value(charge, c))
            &&& rel_of(close, charge_value(charge, first_two_exchanged(c)), charge_value(charge, c))
            &&& rel_of(close, charge_value(charge, states_mirrored(c)), charge_value(charge, c))
            &&& c.len() >= 3 ==> rel_of(close, charge_value(charge, states_rotated(c)), charge_value(charge, c))
        },
{
    let n = c.len();
    let ps = test_perm_seqs(n);
    assert(permuted_content(c, ps[0]) =~= c);
    assert(permuted_content(c, ps[1]) =~= first_two_exchanged(c));
    assert(permuted_content(c, ps[2]) =~= states_mirrored(c));
    if n >= 3 {
        assert(permuted_content(c, ps[3]) =~= states_rotated(c));
    }
}

} // verus!

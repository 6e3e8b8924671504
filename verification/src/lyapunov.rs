//! Charge as a Lyapunov function: a join only moves up the lattice.
use vstd::prelude::*;
use crate::agent::AgentId;
use crate::agent::AgentState;
use crate::agent::WorldState;
use crate::agent::MultiAgentUpdate;
use crate::agent::after_rounds;
use crate::agent::content;
use crate::agent::lemma_charge_value;
use crate::agent::lemma_same_entries_content;
use crate::agent::lemma_update_content;
use crate::agent::pure_charge;
use crate::agent::pure_rule;
use crate::conservation::trajectory_of;
use crate::pure::lemma_op_of;
use crate::pure::lemma_rel_of;
use crate::pure::op_of;
use crate::pure::pure_op;
use crate::pure::pure_rel;
use crate::pure::rel_of;

verus! {

/// `op(a, b)` is below neither `a` nor `b`.
pub open spec fn moves_up<T, F: Fn(T, T) -> T, B: Fn(T, T) -> bool>(op: F, below: B, a: T, b: T) -> bool {
    !rel_of(below, op_of(op, a, b), a) && !rel_of(below, op_of(op, a, b), b)
}

/// Checks that the join only moves up on the test values: for all `a`, `b`,
/// `op(a, b)` is below neither `a` nor `b` (where `below(x, y)` says that `x`
/// lies below `y` by more than the tolerance).
pub fn join_moves_up<T: Copy, F: Fn(T, T) -> T, B: Fn(T, T) -> bool>(
    op: &F,
    below: &B,
    test_values: &[T],
) -> (r: bool)
    requires
        pure_op(*op),
        pure_rel(*below),
    ensures
        r == forall|i: int, j: int|
            #![trigger test_values@[i], test_values@[j]]
            0 <= i < test_values@.len() && 0 <= j < test_values@.len() ==> moves_up(
                *op,
                *below,
                test_values@[i],
                test_values@[j],
            ),
{
    let n = test_values.len();
    let mut i: usize = 0;
    while i < n
        invariant
            pure_op(*op),
            pure_rel(*below),
            n == test_values@.len(),
            i <= n,
            forall|a: int, b: int|
                #![trigger test_values@[a], test_values@[b]]
                0 <= a < i && 0 <= b < n ==> moves_up(*op, *below, test_values@[a], test_values@[b]),
        decreases n - i,
    {
        let mut j: usize = 0;
        while j < n
            invariant
                pure_op(*op),
                pure_rel(*below),
                n == test_values@.len(),
                i < n,
                j <= n,
                forall|a: int, b: int|
                    #![trigger test_values@[a], test_values@[b]]
                    0 <= a < i && 0 <= b < n ==> moves_up(
                        *op,
                        *below,
                        test_values@[a],
                        test_values@[b],
                    ),
                forall|b: int|
                    0 <= b < j ==> moves_up(*op, *below, test_values@[i as int], #[trigger] test_values@[b]),
            decreases n - j,
        {
            let a = test_values[i];
            let b = test_values[j];
            let x = op(a, b);
            let below_a = below(x, a);
            proof {
                lemma_op_of(*op, a, b, x);
                lemma_rel_of(*below, x, a, below_a);
            }
            if below_a {
                return false;
            }
            let below_b = below(x, b);
            proof {
                lemma_rel_of(*below, x, b, below_b);
            }
            if below_b {
                return false;
            }
            j = j + 1;
        }
        i = i + 1;
    }
    true
}

/// For agents `i < j` of the world, and each position `k` that both states
/// have, the join of their `k`-th values is below neither.
pub open spec fn lattice_ordered<T, F: Fn(T, T) -> T, B: Fn(T, T) -> bool>(
    op: F,
    below: B,
    s: Seq<(AgentId, AgentState<T>)>,
) -> bool {
    forall|i: int, j: int, k: int|
        #![trigger s[i].1@[k], s[j].1@[k]]
        0 <= i < j < s.len() && 0 <= k < s[i].1@.len() && k < s[j].1@.len() ==> moves_up(
            op,
            below,
            s[i].1@[k],
            s[j].1@[k],
        )
}

/// Verifies that the join induces an order consistent with the world:
/// joining the values of any two agents, position by position, never moves
/// below either of them.
pub fn verify_lattice_order<T: Copy, F: Fn(T, T) -> T, B: Fn(T, T) -> bool>(
    op: &F,
    below: &B,
    ws: &WorldState<T>,
) -> (r: bool)
    requires
        pure_op(*op),
        pure_rel(*below),
    ensures
        r == lattice_ordered(*op, *below, ws@),
{
    let states = ws.ordered_states();
    let n = states.len();
    if n < 2 {
        return true;
    }
    let mut i: usize = 0;
    while i < n
        invariant
            pure_op(*op),
            pure_rel(*below),
            n == states@.len(),
            n == ws@.len(),
            forall|q: int| 0 <= q < n ==> *(#[trigger] states@[q]).1 == ws@[q].1,
            i <= n,
            forall|a: int, b: int, k: int|
                #![trigger ws@[a].1@[k], ws@[b].1@[k]]
                0 <= a < i && a < b < n && 0 <= k < ws@[a].1@.len() && k < ws@[b].1@.len()
                    ==> moves_up(*op, *below, ws@[a].1@[k], ws@[b].1@[k]),
        decreases n - i,
    {
        let mut j: usize = i + 1;
        while j < n
            invariant
                pure_op(*op),
                pure_rel(*below),
                n == states@.len(),
                n == ws@.len(),
                forall|q: int| 0 <= q < n ==> *(#[trigger] states@[q]).1 == ws@[q].1,
                i < n,
                i + 1 <= j <= n,
                forall|a: int, b: int, k: int|
                    #![trigger ws@[a].1@[k], ws@[b].1@[k]]
                    0 <= a < i && a < b < n && 0 <= k < ws@[a].1@.len() && k < ws@[b].1@.len()
                        ==> moves_up(*op, *below, ws@[a].1@[k], ws@[b].1@[k]),
                forall|b: int, k: int|
                    #![trigger ws@[b].1@[k]]
                    i < b < j && 0 <= k < ws@[i as int].1@.len() && k < ws@[b].1@.len()
                        ==> moves_up(*op, *below, ws@[i as int].1@[k], ws@[b].1@[k]),
            decreases n - j,
        {
            let si = states[i].1.as_slice();
            let sj = states[j].1.as_slice();
            let mut k: usize = 0;
            while k < si.len() && k < sj.len()
                invariant
                    pure_op(*op),
                    pure_rel(*below),
                    i < j < n,
                    n == ws@.len(),
                    si@ == ws@[i as int].1@,
                    sj@ == ws@[j as int].1@,
                    k <= si@.len(),
                    forall|m: int|
                        0 <= m < k ==> moves_up(*op, *below, si@[m], #[trigger] sj@[m]),
                decreases si.len() - k,
            {
                let vi = si[k];
                let vj = sj[k];
                let joined = op(vi, vj);
                let bi = below(joined, vi);
                let bj = below(joined, vj);
                proof {
                    lemma_op_of(*op, vi, vj, joined);
                    lemma_rel_of(*below, joined, vi, bi);
                    lemma_rel_of(*below, joined, vj, bj);
                }
                if bi || bj {
                    assert(!moves_up(*op, *below, ws@[i as int].1@[k as int], ws@[j as int].1@[k as int]));
                    return false;
                }
                k = k + 1;
            }
            proof {
                assert forall|m: int| 0 <= m < ws@[i as int].1@.len() && m < ws@[j as int].1@.len()
                    implies moves_up(*op, *below, ws@[i as int].1@[m], ws@[j as int].1@[m]) by {
                    assert(moves_up(*op, *below, si@[m], sj@[m]));
                }
            }
            j = j + 1;
        }
        i = i + 1;
    }
    true
}

/// Computes the Lyapunov trajectory: the charge initially and after each of
/// `rounds` rounds of `rule`.
pub fn lyapunov_trajectory<
    T: Copy,
    C,
    Q: Fn(&WorldState<T>) -> C,
    R: Fn(&AgentId, &AgentState<T>, &WorldState<T>) -> AgentState<T>,
>(charge: &Q, rule: R, ws: &WorldState<T>, rounds: usize) -> (r: Vec<C>)
    requires
        pure_charge(*charge),
        pure_rule(rule),
    ensures
        r@ == trajectory_of(*charge, rule, *ws, rounds as nat),
{
    let update = MultiAgentUpdate::new(rule);
    let mut current = ws.clone();
    proof {
        lemma_same_entries_content(current@, ws@);
    }
    let mut values: Vec<C> = Vec::new();
    let mut k: usize = 0;
    while k < rounds
        invariant
            pure_charge(*charge),
            pure_rule(rule),
            update.rule == rule,
            k <= rounds,
            content(current@) == after_rounds(rule, content(ws@), k as nat),
            values@ == trajectory_of(*charge, rule, *ws, k as nat).take(k as int),
        decreases rounds - k,
    {
        let v = charge(&current);
        proof {
            lemma_charge_value(*charge, &current, v);
        }
        values.push(v);
        let next = update.apply(&current);
        proof {
            lemma_update_content(rule, current, next);
        }
        current = next;
        k = k + 1;
        assert(values@ =~= trajectory_of(*charge, rule, *ws, k as nat).take(k as int));
    }
    let last = charge(&current);
    proof {
        lemma_charge_value(*charge, &current, last);
    }
    values.push(last);
    assert(values@ =~= trajectory_of(*charge, rule, *ws, rounds as nat));
    values
}

/// The number of steps of the trajectory `values` that go against a
/// direction: the `k` for which `against(values[k + 1], values[k])` holds.
pub open spec fn steps_against<C, E: Fn(C, C) -> bool>(against: E, values: Seq<C>) -> nat
    decreases values.len(),
{
    if values.len() < 2 {
        0
    } else {
        steps_against(against, values.drop_last()) + if rel_of(
            against,
            values.last(),
            values[values.len() - 2],
        ) {
            1nat
        } else {
            0nat
        }
    }
}

/// No step of the trajectory `values` goes against the direction.
pub open spec fn keeps_direction<C, E: Fn(C, C) -> bool>(against: E, values: Seq<C>) -> bool {
    forall|k: int| 0 <= k < values.len() - 1 ==> !rel_of(against, #[trigger] values[k + 1], values[k])
}

proof fn lemma_steps_against_zero<C, E: Fn(C, C) -> bool>(against: E, values: Seq<C>)
    ensures
        (steps_against(against, values) == 0) <==> keeps_direction(against, values),
    decreases values.len(),
{
    if values.len() >= 2 {
        let d = values.drop_last();
        lemma_steps_against_zero(against, d);
        let n = values.len();
        if keeps_direction(against, values) {
            assert forall|k: int| 0 <= k < d.len() - 1 implies !rel_of(against, #[trigger] d[k + 1], d[k]) by {
                assert(d[k + 1] == values[k + 1] && d[k] == values[k]);
            }
            assert(values[(n - 2) + 1] == values.last());
        }
        if keeps_direction(against, d) && !rel_of(against, values.last(), values[n - 2]) {
            assert forall|k: int| 0 <= k < n - 1 implies !rel_of(against, #[trigger] values[k + 1], values[k]) by {
                if k < n - 2 {
                    assert(d[k + 1] == values[k + 1] && d[k] == values[k]);
                } else {
                    assert(values[k + 1] == values.last());
                }
            }
        }
    }
}

/// Counts the steps of a trajectory that go against a direction: the `k`
/// for which `against(values[k + 1], values[k])` holds.
pub fn count_steps_against<C: Copy, E: Fn(C, C) -> bool>(against: &E, values: &[C]) -> (r: usize)
    requires
        pure_rel(*against),
    ensures
        r == steps_against(*against, values@),
        (r == 0) <==> keeps_direction(*against, values@),
{
    if values.len() == 0 {
        proof {
            lemma_steps_against_zero(*against, values@);
        }
        return 0;
    }
    let mut count: usize = 0;
    let mut k: usize = 1;
    proof {
        assert(steps_against(*against, values@.take(1)) == 0);
    }
    while k < values.len()
        invariant
            pure_rel(*against),
            1 <= k <= values@.len(),
            count == steps_against(*against, values@.take(k as int)),
            count < k,
        decreases values.len() - k,
    {
        let f = against(values[k], values[k - 1]);
        proof {
            lemma_rel_of(*against, values@[k as int], values@[k - 1], f);
            let t = values@.take(k + 1);
            assert(t.drop_last() =~= values@.take(k as int));
            assert(t.last() == values@[k as int] && t[t.len() - 2] == values@[k - 1]);
        }
        if f {
            count = count + 1;
        }
        k = k + 1;
    }
    assert(values@.take(values@.len() as int) =~= values@);
    proof {
        lemma_steps_against_zero(*against, values@);
    }
    count
}

/// The violations of a Lyapunov trajectory, which may run either way: the
/// steps that fall (as `falls(next, previous)` judges) or the steps that rise
/// (as `rises(next, previous)` judges), whichever are fewer. There are none
/// exactly when the trajectory never falls or never rises.
pub fn lyapunov_violations<C: Copy, D: Fn(C, C) -> bool, U: Fn(C, C) -> bool>(
    falls: &D,
    rises: &U,
    values: &[C],
) -> (r: usize)
    requires
        pure_rel(*falls),
        pure_rel(*rises),
    ensures
        r == if steps_against(*falls, values@) <= steps_against(*rises, values@) {
            steps_against(*falls, values@)
        } else {
            steps_against(*rises, values@)
        },
        (r == 0) <==> (keeps_direction(*falls, values@) || keeps_direction(*rises, values@)),
{
    let down = count_steps_against(falls, values);
    let up = count_steps_against(rises, values);
    if down <= up {
        down
    } else {
        up
    }
}

} // verus!

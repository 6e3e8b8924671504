//! CALM check: monotone updates are coordination-free.
use vstd::prelude::*;
use crate::agent::AgentId;
use crate::agent::AgentState;
use crate::agent::MultiAgentUpdate;
use crate::agent::WorldState;
use crate::agent::content;
use crate::agent::copy_values;
use crate::agent::increasing_below;
use crate::agent::selected;
use crate::agent::lemma_update_content;
use crate::agent::next_content;
use crate::agent::pure_rule;
use crate::agent::identity_perm;
use crate::agent::identity_seq;
use crate::agent::is_permutation;
use crate::agent::lemma_standard_permutations;
use crate::agent::rearranged;
use crate::agent::lemma_rearranged_multiset;
use crate::agent::reverse_perm;
use crate::agent::reverse_seq;
use crate::agent::swap_perm;
use crate::agent::swap_seq;
use crate::pure::lemma_rel_of;
use crate::pure::lemma_scalar_rule_of;
use crate::pure::pure_rel;
use crate::pure::pure_scalar_rule;
use crate::pure::rel_of;
use crate::pure::scalar_rule_of;

verus! {

/// The permutations against which a scalar rule of `n` inputs is tested.
pub open spec fn scalar_perm_seqs(n: nat) -> Seq<Seq<usize>> {
    if n <= 1 {
        seq![identity_seq(n)]
    } else {
        seq![identity_seq(n), swap_seq(n), reverse_seq(n)]
    }
}

/// The permutations of the inputs against which a scalar rule is tested:
/// the identity, the exchange of the first two inputs and the reversal.
pub fn generate_test_permutations(n: usize) -> (r: Vec<Vec<usize>>)
    ensures
        r@.len() == scalar_perm_seqs(n as nat).len(),
        forall|k: int| 0 <= k < r@.len() ==> (#[trigger] r@[k])@ == scalar_perm_seqs(n as nat)[k],
        forall|k: int| 0 <= k < r@.len() ==> is_permutation(#[trigger] r@[k]@, n as nat),
{
    proof {
        lemma_standard_permutations(n as nat);
    }
    let mut result: Vec<Vec<usize>> = Vec::new();
    result.push(identity_perm(n));
    if n <= 1 {
        return result;
    }
    result.push(swap_perm(n));
    result.push(reverse_perm(n));
    result
}

/// For an input `[x, o_1, ..., o_m]` with `m >= 1`: the rule's result on `x`
/// and each tested rearrangement of the others is close to its result on `x`
/// and the others as given.
pub open spec fn calm_on_input<T, R: Fn(T, &[T]) -> T, E: Fn(T, T) -> bool>(
    rule: R,
    close: E,
    input: Seq<T>,
) -> bool {
    input.len() >= 2 ==> forall|q: int|
        0 <= q < scalar_perm_seqs((input.len() - 1) as nat).len() ==> rel_of(
            close,
            scalar_rule_of(
                rule,
                input[0],
                rearranged(input.drop_first(), #[trigger] scalar_perm_seqs((input.len() - 1) as nat)[q]),
            ),
            scalar_rule_of(rule, input[0], input.drop_first()),
        )
}

/// On an input `[x, o_1, ..., o_m]`, the check compares the rule's result on
/// `x` and the others as given with its result on `x` and: the others as
/// given; the others with the first two exchanged; the others reversed (the
/// last two only when `m >= 2`).
pub proof fn law_scalar_calm_tests_standard_rearrangements<T, R: Fn(T, &[T]) -> T, E: Fn(T, T) -> bool>(
    rule: R,
    close: E,
    input: Seq<T>,
)
    requires
        2 <= input.len() <= usize::MAX,
    ensures
        calm_on_input(rule, close, input) <==> {
            let x = input[0];
            let o = input.drop_first();
            &&& rel_of(close, scalar_rule_of(rule, x, o), scalar_rule_of(rule, x, o))
            &&& o.len() >= 2 ==> rel_of(
                close,
                scalar_rule_of(rule, x, o.update(0, o[1]).update(1, o[0])),
                scalar_rule_of(rule, x, o),
            )
            &&& o.len() >= 2 ==> rel_of(close, scalar_rule_of(rule, x, o.reverse()), scalar_rule_of(rule, x, o))
        },
{
    let o = input.drop_first();
    let m = o.len();
    let ps = scalar_perm_seqs(m);
    assert(rearranged(o, ps[0]) =~= o);
    if m >= 2 {
        assert(rearranged(o, ps[1]) =~= o.update(0, o[1]).update(1, o[0]));
        assert(rearranged(o, ps[2]) =~= o.reverse());
    }
}

/// Checks that a scalar rule is coordination-free on the test inputs: its
/// result does not depend on the order in which the other agents' values
/// are given.
pub fn is_calm_scalar_rule<T: Copy, R: Fn(T, &[T]) -> T, E: Fn(T, T) -> bool>(
    rule: &R,
    close: &E,
    test_inputs: &[Vec<T>],
) -> (r: bool)
    requires
        pure_scalar_rule(*rule),
        pure_rel(*close),
    ensures
        r == forall|k: int|
            0 <= k < test_inputs@.len() ==> calm_on_input(*rule, *close, (#[trigger] test_inputs@[k])@),
{
    let mut k: usize = 0;
    while k < test_inputs.len()
        invariant
            pure_scalar_rule(*rule),
            pure_rel(*close),
            k <= test_inputs@.len(),
            forall|j: int| 0 <= j < k ==> calm_on_input(*rule, *close, (#[trigger] test_inputs@[j])@),
        decreases test_inputs.len() - k,
    {
        let inputs = test_inputs[k].as_slice();
        if inputs.len() >= 2 {
            let x = inputs[0];
            let (_head, others) = inputs.split_at(1);
            assert(others@ =~= inputs@.drop_first());
            let base = rule(x, others);
            proof {
                lemma_scalar_rule_of(*rule, x, others, base);
            }
            let m = others.len();
            let perms = generate_test_permutations(m);
            let mut q: usize = 0;
            while q < perms.len()
                invariant
                    pure_scalar_rule(*rule),
                    pure_rel(*close),
                    k < test_inputs@.len(),
                    inputs@ == test_inputs@[k as int]@,
                    inputs@.len() >= 2,
                    x == inputs@[0],
                    others@ == inputs@.drop_first(),
                    m == others@.len(),
                    base == scalar_rule_of(*rule, x, others@),
                    perms@.len() == scalar_perm_seqs(m as nat).len(),
                    forall|j: int| 0 <= j < perms@.len() ==> (#[trigger] perms@[j])@ == scalar_perm_seqs(m as nat)[j],
                    forall|j: int| 0 <= j < perms@.len() ==> is_permutation(#[trigger] perms@[j]@, m as nat),
                    q <= perms@.len(),
                    forall|j: int|
                        0 <= j < q ==> rel_of(
                            *close,
                            scalar_rule_of(*rule, x, rearranged(others@, #[trigger] scalar_perm_seqs(m as nat)[j])),
                            base,
                        ),
                decreases perms.len() - q,
            {
                let p = perms[q].as_slice();
                assert(is_permutation(perms@[q as int]@, m as nat));
                let mut permuted: Vec<T> = Vec::new();
                let mut i: usize = 0;
                while i < p.len()
                    invariant
                        is_permutation(p@, m as nat),
                        m == others@.len(),
                        i <= p@.len(),
                        permuted@ == rearranged(others@, p@).take(i as int),
                    decreases p.len() - i,
                {
                    permuted.push(others[p[i]]);
                    i = i + 1;
                    assert(permuted@ =~= rearranged(others@, p@).take(i as int));
                }
                assert(permuted@ =~= rearranged(others@, p@));
                let ps = permuted.as_slice();
                let val = rule(x, ps);
                proof {
                    lemma_scalar_rule_of(*rule, x, ps, val);
                }
                let ok = close(val, base);
                proof {
                    lemma_rel_of(*close, val, base, ok);
                }
                if !ok {
                    let ghost input = test_inputs@[k as int]@;
                    assert(((input.len() - 1) as nat) == m as nat);
                    assert(input.drop_first() == others@);
                    assert(scalar_perm_seqs((input.len() - 1) as nat)[q as int] == p@);
                    assert(!rel_of(
                        *close,
                        scalar_rule_of(*rule, input[0], rearranged(input.drop_first(), scalar_perm_seqs((input.len() - 1) as nat)[q as int])),
                        scalar_rule_of(*rule, input[0], input.drop_first()),
                    ));
                    assert(!calm_on_input(*rule, *close, test_inputs@[k as int]@));
                    return false;
                }
                q = q + 1;
            }
        }
        k = k + 1;
    }
    true
}

/// A scalar rule whose result depends on the other agents' values only as a
/// collection (counted with multiplicity, not in order) is coordination-free:
/// it passes the check on every input.
pub proof fn law_symmetric_scalar_rule_is_calm<T, R: Fn(T, &[T]) -> T, E: Fn(T, T) -> bool>(
    rule: R,
    close: E,
    input: Seq<T>,
)
    requires
        input.len() <= usize::MAX,
        forall|x: T, s1: Seq<T>, s2: Seq<T>|
            s1.to_multiset() == s2.to_multiset() ==> #[trigger] scalar_rule_of(rule, x, s1)
                == #[trigger] scalar_rule_of(rule, x, s2),
        forall|x: T| #[trigger] rel_of(close, x, x),
    ensures
        calm_on_input(rule, close, input),
{
    if input.len() >= 2 {
        let m = (input.len() - 1) as nat;
        lemma_standard_permutations(m);
        assert forall|q: int| 0 <= q < scalar_perm_seqs(m).len() implies rel_of(
            close,
            scalar_rule_of(rule, input[0], rearranged(input.drop_first(), #[trigger] scalar_perm_seqs(m)[q])),
            scalar_rule_of(rule, input[0], input.drop_first()),
        ) by {
            lemma_rearranged_multiset(input.drop_first(), scalar_perm_seqs(m)[q]);
        }
    }
}

/// The pairs of values at the same positions of `x` and `y`, as far as both go.
pub open spec fn zip_pairs<T>(x: Seq<T>, y: Seq<T>) -> Seq<(T, T)> {
    Seq::new(if x.len() <= y.len() { x.len() } else { y.len() }, |k: int| (x[k], y[k]))
}

/// The subsets of the positions `0..k`, each listed in increasing order:
/// first those without `k - 1`, then the same with `k - 1` added.
pub open spec fn subsets_of(k: nat) -> Seq<Seq<usize>>
    decreases k,
{
    if k == 0 {
        seq![Seq::<usize>::empty()]
    } else {
        let p = subsets_of((k - 1) as nat);
        p + Seq::new(p.len(), |i: int| p[i].push((k - 1) as usize))
    }
}

/// Every subset of `0..k` lists positions below `k` in increasing order.
pub proof fn lemma_subsets_increasing(k: nat)
    requires
        k <= usize::MAX,
    ensures
        forall|i: int| 0 <= i < subsets_of(k).len() ==> increasing_below(#[trigger] subsets_of(k)[i], k),
    decreases k,
{
    if k > 0 {
        let km = (k - 1) as nat;
        lemma_subsets_increasing(km);
        let p = subsets_of(km);
        assert forall|i: int| 0 <= i < subsets_of(k).len() implies increasing_below(
            #[trigger] subsets_of(k)[i],
            k,
        ) by {
            if i < p.len() {
                assert(subsets_of(k)[i] == p[i]);
                assert(increasing_below(p[i], km));
            } else {
                let s = p[i - p.len()];
                assert(increasing_below(s, km));
                assert(subsets_of(k)[i] == s.push(km as usize));
            }
        }
    }
}

/// All subsets of the positions `0..n`, in the order of `subsets_of`.
fn all_subsets(n: usize) -> (r: Vec<Vec<usize>>)
    ensures
        r@.len() == subsets_of(n as nat).len(),
        forall|i: int| 0 <= i < r@.len() ==> (#[trigger] r@[i])@ == subsets_of(n as nat)[i],
{
    let mut out: Vec<Vec<usize>> = Vec::new();
    out.push(Vec::new());
    let mut k: usize = 0;
    while k < n
        invariant
            k <= n,
            out@.len() == subsets_of(k as nat).len(),
            forall|i: int| 0 <= i < out@.len() ==> (#[trigger] out@[i])@ == subsets_of(k as nat)[i],
        decreases n - k,
    {
        let ghost p = subsets_of(k as nat);
        let m = out.len();
        let mut q: usize = 0;
        while q < m
            invariant
                m == p.len(),
                q <= m,
                out@.len() == m + q,
                forall|i: int| 0 <= i < m ==> (#[trigger] out@[i])@ == p[i],
                forall|i: int| 0 <= i < q ==> (#[trigger] out@[m + i])@ == p[i].push(k as usize),
            decreases m - q,
        {
            let mut s = copy_values(out[q].as_slice());
            s.push(k);
            out.push(s);
            q = q + 1;
        }
        proof {
            assert forall|i: int| 0 <= i < out@.len() implies (#[trigger] out@[i])@ == subsets_of(
                (k + 1) as nat,
            )[i] by {
                if i >= m {
                    assert(out@[m + (i - m)] == out@[i]);
                }
            }
        }
        k = k + 1;
    }
    out
}

/// The comparisons made for the subset `s` of the world `c`, for its first
/// `m` members: each member's values after a round of the whole world,
/// paired with its values after a round of the world of `s` alone.
pub open spec fn subset_pairs<T, R: Fn(&AgentId, &AgentState<T>, &WorldState<T>) -> AgentState<T>>(
    rule: R,
    c: Seq<(Seq<char>, Seq<T>)>,
    s: Seq<usize>,
    m: int,
) -> Seq<(T, T)>
    decreases m,
{
    if m <= 0 {
        Seq::empty()
    } else {
        subset_pairs(rule, c, s, m - 1) + zip_pairs(
            next_content(rule, c)[s[m - 1] as int].1,
            next_content(rule, selected(c, s))[m - 1].1,
        )
    }
}

/// The comparisons made on the world `c` for the subsets `subs`, in order;
/// only nonempty subsets that leave out at least one agent count.
pub open spec fn world_pairs<T, R: Fn(&AgentId, &AgentState<T>, &WorldState<T>) -> AgentState<T>>(
    rule: R,
    c: Seq<(Seq<char>, Seq<T>)>,
    subs: Seq<Seq<usize>>,
) -> Seq<(T, T)>
    decreases subs.len(),
{
    if subs.len() == 0 {
        Seq::empty()
    } else {
        world_pairs(rule, c, subs.drop_last()) + if 1 <= subs.last().len() < c.len() {
            subset_pairs(rule, c, subs.last(), subs.last().len() as int)
        } else {
            Seq::empty()
        }
    }
}

/// The comparisons made on all test worlds of two or more agents, in order.
pub open spec fn monotonicity_pairs_of<T, R: Fn(&AgentId, &AgentState<T>, &WorldState<T>) -> AgentState<T>>(
    rule: R,
    worlds: Seq<Seq<(Seq<char>, Seq<T>)>>,
) -> Seq<(T, T)>
    decreases worlds.len(),
{
    if worlds.len() == 0 {
        Seq::empty()
    } else {
        monotonicity_pairs_of(rule, worlds.drop_last()) + if worlds.last().len() >= 2 {
            world_pairs(rule, worlds.last(), subsets_of(worlds.last().len()))
        } else {
            Seq::empty()
        }
    }
}

/// The identifiers and values of each test world.
pub open spec fn contents_of<T>(worlds: Seq<WorldState<T>>) -> Seq<Seq<(Seq<char>, Seq<T>)>> {
    Seq::new(worlds.len(), |i: int| content(worlds[i]@))
}

/// The comparisons behind the monotonicity check: for each test world of two
/// or more agents, each nonempty subset of its agents that leaves out at
/// least one agent, and each member of the subset, the member's values after
/// a round of the whole world, paired position by position with its values
/// after a round of the subset alone. A monotone rule gives, in each pair, a
/// first value no smaller than the second. A world of `n` agents has `2^n`
/// subsets, so the work grows exponentially with the size of the largest
/// test world.
pub fn monotonicity_pairs<T: Copy, R: Fn(&AgentId, &AgentState<T>, &WorldState<T>) -> AgentState<T>>(
    rule: R,
    test_states: &[WorldState<T>],
) -> (r: Vec<(T, T)>)
    requires
        pure_rule(rule),
    ensures
        r@ == monotonicity_pairs_of(rule, contents_of(test_states@)),
{
    let update = MultiAgentUpdate::new(rule);
    let mut out: Vec<(T, T)> = Vec::new();
    let mut w: usize = 0;
    while w < test_states.len()
        invariant
            pure_rule(rule),
            update.rule == rule,
            w <= test_states@.len(),
            out@ == monotonicity_pairs_of(rule, contents_of(test_states@).take(w as int)),
        decreases test_states.len() - w,
    {
        let ws = &test_states[w];
        let ghost c = content(ws@);
        let ghost before_world = out@;
        assert(contents_of(test_states@).take(w + 1).drop_last() =~= contents_of(test_states@).take(w as int));
        assert(contents_of(test_states@).take(w + 1).last() == c);
        let n = ws.len();
        if n >= 2 {
            let full = update.apply(ws);
            proof {
                lemma_update_content(rule, *ws, full);
                lemma_subsets_increasing(n as nat);
            }
            let full_states = full.ordered_states();
            let subs = all_subsets(n);
            let ghost all = subsets_of(n as nat);
            let mut q: usize = 0;
            while q < subs.len()
                invariant
                    pure_rule(rule),
                    update.rule == rule,
                    n == c.len(),
                    n >= 2,
                    c == content(ws@),
                    all == subsets_of(n as nat),
                    subs@.len() == all.len(),
                    forall|i: int| 0 <= i < subs@.len() ==> (#[trigger] subs@[i])@ == all[i],
                    forall|i: int| 0 <= i < all.len() ==> increasing_below(#[trigger] all[i], n as nat),
                    full_states@.len() == n,
                    forall|i: int| 0 <= i < n ==> (*(#[trigger] full_states@[i]).1)@ == next_content(rule, c)[i].1,
                    q <= subs@.len(),
                    out@ == before_world + world_pairs(rule, c, all.take(q as int)),
                decreases subs.len() - q,
            {
                let s = subs[q].as_slice();
                let ghost before_subset = out@;
                assert(all.take(q + 1).drop_last() =~= all.take(q as int));
                assert(all.take(q + 1).last() == s@);
                if 1 <= s.len() && s.len() < n {
                    assert(increasing_below(all[q as int], n as nat));
                    let subset = ws.select_positions(s);
                    let sub = update.apply(&subset);
                    proof {
                        lemma_update_content(rule, subset, sub);
                    }
                    let sub_states = sub.ordered_states();
                    let mut j: usize = 0;
                    while j < s.len()
                        invariant
                            pure_rule(rule),
                            n == c.len(),
                            increasing_below(s@, n as nat),
                            full_states@.len() == n,
                            forall|i: int| 0 <= i < n ==> (*(#[trigger] full_states@[i]).1)@ == next_content(rule, c)[i].1,
                            sub_states@.len() == s@.len(),
                            forall|i: int| 0 <= i < s@.len() ==> (*(#[trigger] sub_states@[i]).1)@ == next_content(rule, selected(c, s@))[i].1,
                            j <= s@.len(),
                            out@ == before_subset + subset_pairs(rule, c, s@, j as int),
                        decreases s.len() - j,
                    {
                        let i = s[j];
                        let fv = full_states[i].1.as_slice();
                        let sv = sub_states[j].1.as_slice();
                        let ghost before_zip = out@;
                        let mut k: usize = 0;
                        while k < fv.len() && k < sv.len()
                            invariant
                                k <= fv@.len(),
                                k <= sv@.len(),
                                out@ == before_zip + zip_pairs(fv@, sv@).take(k as int),
                            decreases fv.len() - k,
                        {
                            out.push((fv[k], sv[k]));
                            k = k + 1;
                            assert(out@ =~= before_zip + zip_pairs(fv@, sv@).take(k as int));
                        }
                        assert(zip_pairs(fv@, sv@).take(k as int) =~= zip_pairs(fv@, sv@));
                        j = j + 1;
                    }
                }
                assert(out@ == before_world + world_pairs(rule, c, all.take(q + 1)));
                q = q + 1;
            }
            assert(all.take(subs@.len() as int) =~= all);
        }
        w = w + 1;
    }
    assert(contents_of(test_states@).take(test_states@.len() as int) =~= contents_of(test_states@));
    out
}

/// How many of the pairs fall: the number of pairs `(x, y)` for which
/// `falls(x, y)` holds.
pub open spec fn falling_count<T, E: Fn(T, T) -> bool>(falls: E, pairs: Seq<(T, T)>) -> nat
    decreases pairs.len(),
{
    if pairs.len() == 0 {
        0
    } else {
        falling_count(falls, pairs.drop_last()) + if rel_of(falls, pairs.last().0, pairs.last().1) {
            1nat
        } else {
            0nat
        }
    }
}

/// Counts the monotonicity violations among the comparisons: the pairs whose
/// first value falls below the second (as `falls` judges). The rule is
/// monotone, and so coordination-free, when there are none.
pub fn count_falling<T: Copy, E: Fn(T, T) -> bool>(falls: &E, pairs: &[(T, T)]) -> (r: usize)
    requires
        pure_rel(*falls),
    ensures
        r == falling_count(*falls, pairs@),
{
    let mut count: usize = 0;
    let mut i: usize = 0;
    while i < pairs.len()
        invariant
            pure_rel(*falls),
            i <= pairs@.len(),
            count == falling_count(*falls, pairs@.take(i as int)),
            count <= i,
        decreases pairs.len() - i,
    {
        let (x, y) = pairs[i];
        let f = falls(x, y);
        proof {
            lemma_rel_of(*falls, x, y, f);
            assert(pairs@.take(i + 1).drop_last() =~= pairs@.take(i as int));
        }
        if f {
            count = count + 1;
        }
        i = i + 1;
    }
    assert(pairs@.take(pairs@.len() as int) =~= pairs@);
    count
}

/// No pair falls: `falls` holds of none of the pairs.
pub open spec fn none_fall<T, E: Fn(T, T) -> bool>(falls: E, pairs: Seq<(T, T)>) -> bool {
    forall|i: int| 0 <= i < pairs.len() ==> !rel_of(falls, (#[trigger] pairs[i]).0, pairs[i].1)
}

/// The pairs compared for the member at position `j` of the subset `s` of the
/// world `c`: its values after a round of the whole world, paired position by
/// position with its values after a round of the world of `s` alone.
pub open spec fn member_pairs<T, R: Fn(&AgentId, &AgentState<T>, &WorldState<T>) -> AgentState<T>>(
    rule: R,
    c: Seq<(Seq<char>, Seq<T>)>,
    s: Seq<usize>,
    j: int,
) -> Seq<(T, T)> {
    zip_pairs(next_content(rule, c)[s[j] as int].1, next_content(rule, selected(c, s))[j].1)
}

/// Adding the other agents of `c` to the subset `s` lowers no value of a
/// member after a round (as `falls` judges a fall).
pub open spec fn subset_monotone<T, R: Fn(&AgentId, &AgentState<T>, &WorldState<T>) -> AgentState<T>, E: Fn(T, T) -> bool>(
    rule: R,
    falls: E,
    c: Seq<(Seq<char>, Seq<T>)>,
    s: Seq<usize>,
) -> bool {
    forall|j: int| 0 <= j < s.len() ==> none_fall(falls, #[trigger] member_pairs(rule, c, s, j))
}

/// On the world `c`, the rule is monotone: for every nonempty subset of its
/// agents that leaves out at least one agent, adding the others lowers no
/// value of a member after a round.
pub open spec fn world_monotone<T, R: Fn(&AgentId, &AgentState<T>, &WorldState<T>) -> AgentState<T>, E: Fn(T, T) -> bool>(
    rule: R,
    falls: E,
    c: Seq<(Seq<char>, Seq<T>)>,
) -> bool {
    forall|s: Seq<usize>|
        increasing_below(s, c.len()) && 1 <= s.len() < c.len() ==> #[trigger] subset_monotone(rule, falls, c, s)
}

/// The rule is monotone on every world of two or more agents in `worlds`.
pub open spec fn monotone_on<T, R: Fn(&AgentId, &AgentState<T>, &WorldState<T>) -> AgentState<T>, E: Fn(T, T) -> bool>(
    rule: R,
    falls: E,
    worlds: Seq<Seq<(Seq<char>, Seq<T>)>>,
) -> bool {
    forall|w: int| 0 <= w < worlds.len() && worlds[w].len() >= 2 ==> world_monotone(rule, falls, #[trigger] worlds[w])
}

proof fn lemma_falling_count_zero<T, E: Fn(T, T) -> bool>(falls: E, pairs: Seq<(T, T)>)
    ensures
        (falling_count(falls, pairs) == 0) <==> none_fall(falls, pairs),
    decreases pairs.len(),
{
    if pairs.len() > 0 {
        let d = pairs.drop_last();
        lemma_falling_count_zero(falls, d);
        if none_fall(falls, pairs) {
            assert forall|i: int| 0 <= i < d.len() implies !rel_of(falls, (#[trigger] d[i]).0, d[i].1) by {
                assert(d[i] == pairs[i]);
            }
            assert(pairs[pairs.len() - 1] == pairs.last());
        }
        if none_fall(falls, d) && !rel_of(falls, pairs.last().0, pairs.last().1) {
            assert forall|i: int| 0 <= i < pairs.len() implies !rel_of(falls, (#[trigger] pairs[i]).0, pairs[i].1) by {
                if i < d.len() {
                    assert(d[i] == pairs[i]);
                }
            }
        }
    }
}

proof fn lemma_none_fall_concat<T, E: Fn(T, T) -> bool>(falls: E, a: Seq<(T, T)>, b: Seq<(T, T)>)
    ensures
        none_fall(falls, a + b) <==> (none_fall(falls, a) && none_fall(falls, b)),
{
    let ab = a + b;
    if none_fall(falls, ab) {
        assert forall|i: int| 0 <= i < a.len() implies !rel_of(falls, (#[trigger] a[i]).0, a[i].1) by {
            assert(ab[i] == a[i]);
        }
        assert forall|i: int| 0 <= i < b.len() implies !rel_of(falls, (#[trigger] b[i]).0, b[i].1) by {
            assert(ab[a.len() + i] == b[i]);
        }
    }
    if none_fall(falls, a) && none_fall(falls, b) {
        assert forall|i: int| 0 <= i < ab.len() implies !rel_of(falls, (#[trigger] ab[i]).0, ab[i].1) by {
            if i < a.len() {
                assert(ab[i] == a[i]);
            } else {
                assert(ab[i] == b[i - a.len()]);
            }
        }
    }
}

proof fn lemma_subset_pairs_none_fall<T, R: Fn(&AgentId, &AgentState<T>, &WorldState<T>) -> AgentState<T>, E: Fn(T, T) -> bool>(
    rule: R,
    falls: E,
    c: Seq<(Seq<char>, Seq<T>)>,
    s: Seq<usize>,
    m: int,
)
    requires
        0 <= m,
    ensures
        none_fall(falls, subset_pairs(rule, c, s, m)) <==> (forall|j: int|
            0 <= j < m ==> none_fall(falls, #[trigger] member_pairs(rule, c, s, j))),
    decreases m,
{
    if m > 0 {
        lemma_subset_pairs_none_fall(rule, falls, c, s, m - 1);
        lemma_none_fall_concat(falls, subset_pairs(rule, c, s, m - 1), member_pairs(rule, c, s, m - 1));
    }
}

proof fn lemma_world_pairs_none_fall<T, R: Fn(&AgentId, &AgentState<T>, &WorldState<T>) -> AgentState<T>, E: Fn(T, T) -> bool>(
    rule: R,
    falls: E,
    c: Seq<(Seq<char>, Seq<T>)>,
    subs: Seq<Seq<usize>>,
)
    ensures
        none_fall(falls, world_pairs(rule, c, subs)) <==> (forall|i: int|
            0 <= i < subs.len() && 1 <= subs[i].len() < c.len() ==> subset_monotone(rule, falls, c, #[trigger] subs[i])),
    decreases subs.len(),
{
    if subs.len() > 0 {
        let d = subs.drop_last();
        let last = subs.last();
        lemma_world_pairs_none_fall(rule, falls, c, d);
        let tail = if 1 <= last.len() < c.len() {
            subset_pairs(rule, c, last, last.len() as int)
        } else {
            Seq::empty()
        };
        assert(world_pairs(rule, c, subs) == world_pairs(rule, c, d) + tail);
        lemma_none_fall_concat(falls, world_pairs(rule, c, d), tail);
        if 1 <= last.len() < c.len() {
            lemma_subset_pairs_none_fall(rule, falls, c, last, last.len() as int);
        }
        assert(subs[subs.len() - 1] == last);
        if none_fall(falls, world_pairs(rule, c, subs)) {
            assert forall|i: int| 0 <= i < subs.len() && 1 <= subs[i].len() < c.len() implies subset_monotone(
                rule,
                falls,
                c,
                #[trigger] subs[i],
            ) by {
                if i < d.len() {
                    assert(d[i] == subs[i]);
                }
            }
        }
        if forall|i: int|
            0 <= i < subs.len() && 1 <= subs[i].len() < c.len() ==> subset_monotone(rule, falls, c, #[trigger] subs[i]) {
            assert forall|i: int| 0 <= i < d.len() && 1 <= d[i].len() < c.len() implies subset_monotone(
                rule,
                falls,
                c,
                #[trigger] d[i],
            ) by {
                assert(d[i] == subs[i]);
            }
            if 1 <= last.len() < c.len() {
                assert(subset_monotone(rule, falls, c, subs[subs.len() - 1]));
            }
        }
    }
}

/// Every list of positions below `k` in increasing order is among the
/// subsets of `0..k`.
proof fn lemma_subsets_complete(k: nat, s: Seq<usize>)
    requires
        k <= usize::MAX,
        increasing_below(s, k),
    ensures
        exists|i: int| 0 <= i < subsets_of(k).len() && #[trigger] subsets_of(k)[i] == s,
    decreases k,
{
    if k == 0 {
        if s.len() > 0 {
            assert(s[0] < 0);
        }
        assert(s =~= Seq::<usize>::empty());
        assert(subsets_of(0)[0] == s);
    } else {
        let km = (k - 1) as nat;
        let p = subsets_of(km);
        if s.len() == 0 || s.last() < km {
            assert(increasing_below(s, km)) by {
                assert forall|j: int| 0 <= j < s.len() implies #[trigger] s[j] < km by {
                    if j < s.len() - 1 {
                        assert(s[j] < s[s.len() - 1]);
                    }
                }
            }
            lemma_subsets_complete(km, s);
            let i = choose|i: int| 0 <= i < p.len() && #[trigger] p[i] == s;
            assert(subsets_of(k)[i] == s);
        } else {
            let t = s.drop_last();
            assert(s.last() == km);
            assert(increasing_below(t, km)) by {
                assert forall|j: int| 0 <= j < t.len() implies #[trigger] t[j] < km by {
                    assert(s[j] < s[s.len() - 1]);
                }
                assert forall|x: int, y: int| 0 <= x < y < t.len() implies #[trigger] t[x] < #[trigger] t[y] by {
                    assert(s[x] < s[y]);
                }
            }
            lemma_subsets_complete(km, t);
            let i = choose|i: int| 0 <= i < p.len() && #[trigger] p[i] == t;
            assert(subsets_of(k)[p.len() + i] == t.push(km as usize));
            assert(t.push(km as usize) =~= s);
            assert(subsets_of(k)[p.len() + i] == s);
        }
    }
}

proof fn lemma_world_monotone<T, R: Fn(&AgentId, &AgentState<T>, &WorldState<T>) -> AgentState<T>, E: Fn(T, T) -> bool>(
    rule: R,
    falls: E,
    c: Seq<(Seq<char>, Seq<T>)>,
)
    requires
        c.len() <= usize::MAX,
    ensures
        none_fall(falls, world_pairs(rule, c, subsets_of(c.len()))) <==> world_monotone(rule, falls, c),
{
    let all = subsets_of(c.len());
    lemma_world_pairs_none_fall(rule, falls, c, all);
    lemma_subsets_increasing(c.len());
    if none_fall(falls, world_pairs(rule, c, all)) {
        assert forall|s: Seq<usize>| increasing_below(s, c.len()) && 1 <= s.len() < c.len() implies #[trigger] subset_monotone(
            rule,
            falls,
            c,
            s,
        ) by {
            lemma_subsets_complete(c.len(), s);
            let i = choose|i: int| 0 <= i < all.len() && #[trigger] all[i] == s;
        }
    }
    if world_monotone(rule, falls, c) {
        assert forall|i: int| 0 <= i < all.len() && 1 <= all[i].len() < c.len() implies subset_monotone(
            rule,
            falls,
            c,
            #[trigger] all[i],
        ) by {
            assert(increasing_below(all[i], c.len()));
        }
    }
}

proof fn lemma_monotonicity_pairs_none_fall<T, R: Fn(&AgentId, &AgentState<T>, &WorldState<T>) -> AgentState<T>, E: Fn(T, T) -> bool>(
    rule: R,
    falls: E,
    worlds: Seq<Seq<(Seq<char>, Seq<T>)>>,
)
    requires
        forall|w: int| 0 <= w < worlds.len() ==> (#[trigger] worlds[w]).len() <= usize::MAX,
    ensures
        none_fall(falls, monotonicity_pairs_of(rule, worlds)) <==> monotone_on(rule, falls, worlds),
    decreases worlds.len(),
{
    if worlds.len() > 0 {
        let d = worlds.drop_last();
        let last = worlds.last();
        assert forall|w: int| 0 <= w < d.len() implies #[trigger] d[w] == worlds[w] by {}
        assert(worlds[worlds.len() - 1] == last);
        lemma_monotonicity_pairs_none_fall(rule, falls, d);
        let tail = if last.len() >= 2 {
            world_pairs(rule, last, subsets_of(last.len()))
        } else {
            Seq::empty()
        };
        assert(monotonicity_pairs_of(rule, worlds) == monotonicity_pairs_of(rule, d) + tail);
        lemma_none_fall_concat(falls, monotonicity_pairs_of(rule, d), tail);
        if last.len() >= 2 {
            lemma_world_monotone(rule, falls, last);
        }
        if none_fall(falls, monotonicity_pairs_of(rule, worlds)) {
            assert forall|w: int| 0 <= w < worlds.len() && worlds[w].len() >= 2 implies world_monotone(
                rule,
                falls,
                #[trigger] worlds[w],
            ) by {
                if w < d.len() {
                    assert(d[w] == worlds[w]);
                }
            }
        }
        if monotone_on(rule, falls, worlds) {
            assert forall|w: int| 0 <= w < d.len() && d[w].len() >= 2 implies world_monotone(
                rule,
                falls,
                #[trigger] d[w],
            ) by {
                assert(d[w] == worlds[w]);
            }
            if last.len() >= 2 {
                assert(world_monotone(rule, falls, worlds[worlds.len() - 1]));
            }
        }
    }
}

/// The monotonicity check finds no violation exactly when the rule is
/// monotone on the test worlds: no falling pair among the comparisons if and
/// only if, in every test world of two or more agents, adding the other
/// agents to any nonempty subset that leaves one out lowers no value of a
/// member after a round.
pub proof fn law_monotone_iff_nothing_falls<T, R: Fn(&AgentId, &AgentState<T>, &WorldState<T>) -> AgentState<T>, E: Fn(T, T) -> bool>(
    rule: R,
    falls: E,
    test_states: Seq<WorldState<T>>,
)
    requires
        forall|w: int| 0 <= w < test_states.len() ==> (#[trigger] test_states[w])@.len() <= usize::MAX,
    ensures
        (falling_count(falls, monotonicity_pairs_of(rule, contents_of(test_states))) == 0) <==> monotone_on(
            rule,
            falls,
            contents_of(test_states),
        ),
{
    let worlds = contents_of(test_states);
    assert forall|w: int| 0 <= w < worlds.len() implies (#[trigger] worlds[w]).len() <= usize::MAX by {
        assert(worlds[w] == content(test_states[w]@));
    }
    lemma_monotonicity_pairs_none_fall(rule, falls, worlds);
    lemma_falling_count_zero(falls, monotonicity_pairs_of(rule, worlds));
}

} // verus!

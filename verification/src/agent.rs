//! Multi-agent state, world state, and the simultaneous update of all agents.
use vstd::prelude::*;
use crate::order::bytes_precede;
use crate::order::id_lt;
use crate::order::lemma_id_lt_order;

verus! {

/// Agent identifier.
#[derive(Debug, PartialEq, Eq, Hash, PartialOrd, Ord)]
pub struct AgentId(pub String);

impl View for AgentId {
    type V = Seq<char>;

    open spec fn view(&self) -> Seq<char> {
        self.0@
    }
}

impl AgentId {
    /// The identifier with the text `s`.
    pub fn new(s: &str) -> (r: AgentId)
        ensures
            r@ == s@,
    {
        AgentId(s.to_owned())
    }

    /// Whether `self` comes strictly before `other` in the agent order.
    pub fn precedes(&self, other: &AgentId) -> (r: bool)
        ensures
            r == id_lt(self@, other@),
    {
        bytes_precede(self.0.as_str().as_bytes(), other.0.as_str().as_bytes())
    }

    /// Whether the two identifiers are the same string.
    pub fn same_as(&self, other: &AgentId) -> (r: bool)
        ensures
            r == (self@ == other@),
    {
        self.0 == other.0
    }
}

impl Clone for AgentId {
    fn clone(&self) -> (r: Self)
        ensures
            r@ == self@,
    {
        AgentId(self.0.clone())
    }
}

/// The state of one agent: a vector of values.
#[derive(Debug)]
pub struct AgentState<T> {
    pub values: Vec<T>,
}

impl<T> View for AgentState<T> {
    type V = Seq<T>;

    open spec fn view(&self) -> Seq<T> {
        self.values@
    }
}

/// A copy of a vector of `Copy` values.
pub fn copy_values<T: Copy>(v: &[T]) -> (r: Vec<T>)
    ensures
        r@ == v@,
{
    let mut out: Vec<T> = Vec::new();
    let mut i: usize = 0;
    while i < v.len()
        invariant
            i <= v.len(),
            out@ == v@.take(i as int),
        decreases v.len() - i,
    {
        out.push(v[i]);
        i = i + 1;
        assert(out@ =~= v@.take(i as int));
    }
    assert(v@.take(v@.len() as int) =~= v@);
    out
}

impl<T: Copy> AgentState<T> {
    /// The state with the given values.
    pub fn new(values: Vec<T>) -> (r: Self)
        ensures
            r@ == values@,
    {
        AgentState { values }
    }

    /// The state with the single value `v`.
    pub fn scalar(v: T) -> (r: Self)
        ensures
            r@ == seq![v],
    {
        let mut values: Vec<T> = Vec::new();
        values.push(v);
        AgentState { values }
    }

    /// A state of `dim` default (zero) values.
    pub fn zero(dim: usize) -> (r: Self)
        where T: Default,
        ensures
            r@.len() == dim,
            forall|i: int| 0 <= i < dim ==> call_ensures(T::default, (), #[trigger] r@[i]),
    {
        let mut values: Vec<T> = Vec::new();
        let mut i: usize = 0;
        while i < dim
            invariant
                i <= dim,
                values@.len() == i,
                forall|j: int| 0 <= j < i ==> call_ensures(T::default, (), #[trigger] values@[j]),
            decreases dim - i,
        {
            values.push(T::default());
            i = i + 1;
        }
        AgentState { values }
    }

    /// The number of values.
    pub fn dim(&self) -> (r: usize)
        ensures
            r == self@.len(),
    {
        self.values.len()
    }

    /// The values.
    pub fn as_slice(&self) -> (r: &[T])
        ensures
            r@ == self@,
    {
        self.values.as_slice()
    }

    /// A copy of the values.
    pub fn to_vec(&self) -> (r: Vec<T>)
        ensures
            r@ == self@,
    {
        copy_values(self.values.as_slice())
    }
}

impl<T: Copy> Clone for AgentState<T> {
    fn clone(&self) -> (r: Self)
        ensures
            r@ == self@,
    {
        AgentState { values: copy_values(self.values.as_slice()) }
    }
}

/// The identifiers of a list of entries are strictly increasing.
pub open spec fn ids_sorted<T>(s: Seq<(AgentId, AgentState<T>)>) -> bool {
    forall|i: int, j: int| 0 <= i < j < s.len() ==> id_lt(#[trigger] s[i].0@, #[trigger] s[j].0@)
}

/// Some entry of `s` has the identifier `k`.
pub open spec fn has_id<T>(s: Seq<(AgentId, AgentState<T>)>, k: Seq<char>) -> bool {
    exists|i: int| 0 <= i < s.len() && (#[trigger] s[i]).0@ == k
}

/// The position of the entry with identifier `k`.
pub open spec fn index_of_id<T>(s: Seq<(AgentId, AgentState<T>)>, k: Seq<char>) -> int {
    choose|i: int| 0 <= i < s.len() && (#[trigger] s[i]).0@ == k
}

/// The values held by the agent with identifier `k`.
pub open spec fn values_of<T>(s: Seq<(AgentId, AgentState<T>)>, k: Seq<char>) -> Seq<T> {
    s[index_of_id(s, k)].1@
}

/// In a list with strictly increasing identifiers, an identifier occurs at
/// one position only.
pub proof fn lemma_sorted_unique<T>(s: Seq<(AgentId, AgentState<T>)>, i: int, j: int)
    requires
        ids_sorted(s),
        0 <= i < s.len(),
        0 <= j < s.len(),
        s[i].0@ == s[j].0@,
    ensures
        i == j,
{
    if i < j {
        lemma_id_lt_order(s[i].0@, s[j].0@, s[j].0@);
    } else if j < i {
        lemma_id_lt_order(s[j].0@, s[i].0@, s[i].0@);
    }
}

/// A snapshot of all agents' states, listed in agent order.
#[derive(Debug)]
pub struct WorldState<T> {
    entries: Vec<(AgentId, AgentState<T>)>,
}

impl<T> View for WorldState<T> {
    type V = Seq<(AgentId, AgentState<T>)>;

    closed spec fn view(&self) -> Seq<(AgentId, AgentState<T>)> {
        self.entries@
    }
}

impl<T> WorldState<T> {
    #[verifier::type_invariant]
    spec fn sorted(self) -> bool {
        ids_sorted(self.entries@)
    }
}

impl<T: Copy> WorldState<T> {
    /// The world without agents.
    pub fn new() -> (r: Self)
        ensures
            r@ == Seq::<(AgentId, AgentState<T>)>::empty(),
    {
        WorldState { entries: Vec::new() }
    }

    /// The place where an agent with identifier `id` stands or would be put:
    /// the first entry that does not come before `id`.
    fn position_of(&self, id: &AgentId) -> (r: usize)
        ensures
            r <= self@.len(),
            forall|j: int| 0 <= j < r ==> id_lt(#[trigger] self@[j].0@, id@),
            r < self@.len() ==> !id_lt(self@[r as int].0@, id@),
    {
        proof {
            use_type_invariant(self);
        }
        let mut i: usize = 0;
        while i < self.entries.len()
            invariant
                i <= self.entries@.len(),
                forall|j: int| 0 <= j < i ==> id_lt(#[trigger] self.entries@[j].0@, id@),
            decreases self.entries.len() - i,
        {
            if !self.entries[i].0.precedes(id) {
                return i;
            }
            i = i + 1;
        }
        i
    }

    /// Sets the state of agent `id`, adding the agent if it is new.
    pub fn insert(&mut self, id: AgentId, state: AgentState<T>)
        ensures
            ids_sorted(final(self)@),
            forall|k: Seq<char>| has_id(final(self)@, k) <==> (has_id(old(self)@, k) || k == id@),
            values_of(final(self)@, id@) == state@,
            forall|k: Seq<char>|
                k != id@ && has_id(old(self)@, k) ==> values_of(final(self)@, k) == values_of(
                    old(self)@,
                    k,
                ),
            final(self)@.len() == old(self)@.len() + if has_id(old(self)@, id@) {
                0int
            } else {
                1int
            },
    {
        proof {
            use_type_invariant(&*self);
        }
        let ghost old_s = self@;
        let p = self.position_of(&id);
        let ghost k = id@;
        if p < self.entries.len() && self.entries[p].0.same_as(&id) {
            let mut entries: Vec<(AgentId, AgentState<T>)> = Vec::new();
            std::mem::swap(&mut entries, &mut self.entries);
            entries.set(p, (id, state));
            let ghost s = entries@;
            assert(s == old_s.update(p as int, s[p as int]));
            assert(ids_sorted(s)) by {
                assert forall|i: int, j: int| 0 <= i < j < s.len() implies id_lt(
                    #[trigger] s[i].0@,
                    #[trigger] s[j].0@,
                ) by {
                    assert(old_s[i].0@ == s[i].0@ || i == p);
                    assert(old_s[j].0@ == s[j].0@ || j == p);
                    assert(id_lt(old_s[i].0@, old_s[j].0@));
                }
            }
            self.entries = entries;
            proof {
                assert(has_id(old_s, k));
                assert forall|kk: Seq<char>| has_id(s, kk) <==> (has_id(old_s, kk) || kk == k) by {
                    if has_id(old_s, kk) {
                        let i = choose|i: int| 0 <= i < old_s.len() && (#[trigger] old_s[i]).0@ == kk;
                        assert(s[i].0@ == kk);
                    }
                    if has_id(s, kk) {
                        let i = choose|i: int| 0 <= i < s.len() && (#[trigger] s[i]).0@ == kk;
                        assert(old_s[i].0@ == kk);
                    }
                }
                lemma_sorted_unique(s, index_of_id(s, k), p as int);
                assert forall|kk: Seq<char>| kk != k && has_id(old_s, kk) implies values_of(s, kk)
                    == values_of(old_s, kk) by {
                    let i = index_of_id(old_s, kk);
                    assert(s[i].0@ == kk);
                    lemma_sorted_unique(s, index_of_id(s, kk), i);
                }
            }
        } else {
            proof {
                if p < old_s.len() {
                    lemma_id_lt_order(id@, old_s[p as int].0@, old_s[p as int].0@);
                }
            }
            let mut entries: Vec<(AgentId, AgentState<T>)> = Vec::new();
            std::mem::swap(&mut entries, &mut self.entries);
            entries.insert(p, (id, state));
            let ghost s = entries@;
            assert(s.len() == old_s.len() + 1);
            assert(forall|i: int| 0 <= i < p ==> s[i] == old_s[i]);
            assert(forall|i: int| p < i < s.len() ==> s[i] == old_s[i - 1]);
            assert(ids_sorted(s)) by {
                assert forall|i: int, j: int| 0 <= i < j < s.len() implies id_lt(
                    #[trigger] s[i].0@,
                    #[trigger] s[j].0@,
                ) by {
                    if j < p {
                        assert(id_lt(old_s[i].0@, old_s[j].0@));
                    } else if j == p {
                    } else if i < p {
                        assert(id_lt(old_s[i].0@, old_s[j - 1].0@));
                    } else if i == p {
                        if j - 1 > p {
                            assert(id_lt(old_s[p as int].0@, old_s[j - 1].0@));
                            lemma_id_lt_order(k, old_s[p as int].0@, old_s[j - 1].0@);
                        }
                    } else {
                        assert(id_lt(old_s[i - 1].0@, old_s[j - 1].0@));
                    }
                }
            }
            self.entries = entries;
            proof {
                assert(!has_id(old_s, k)) by {
                    if has_id(old_s, k) {
                        let i = choose|i: int| 0 <= i < old_s.len() && (#[trigger] old_s[i]).0@ == k;
                        if i < p {
                            lemma_id_lt_order(k, k, k);
                        } else if i > p {
                            assert(id_lt(old_s[p as int].0@, old_s[i].0@));
                        }
                    }
                }
                assert(s[p as int].0@ == k);
                assert forall|kk: Seq<char>| has_id(s, kk) <==> (has_id(old_s, kk) || kk == k) by {
                    if has_id(old_s, kk) {
                        let i = choose|i: int| 0 <= i < old_s.len() && (#[trigger] old_s[i]).0@ == kk;
                        if i < p {
                            assert(s[i].0@ == kk);
                        } else {
                            assert(s[i + 1].0@ == kk);
                        }
                    }
                    if has_id(s, kk) {
                        let i = choose|i: int| 0 <= i < s.len() && (#[trigger] s[i]).0@ == kk;
                        if i < p {
                            assert(old_s[i].0@ == kk);
                        } else if i > p {
                            assert(old_s[i - 1].0@ == kk);
                        }
                    }
                }
                lemma_sorted_unique(s, index_of_id(s, k), p as int);
                assert forall|kk: Seq<char>| kk != k && has_id(old_s, kk) implies values_of(s, kk)
                    == values_of(old_s, kk) by {
                    let i = index_of_id(old_s, kk);
                    if i < p {
                        assert(s[i].0@ == kk);
                        lemma_sorted_unique(s, index_of_id(s, kk), i);
                    } else {
                        assert(s[i + 1].0@ == kk);
                        lemma_sorted_unique(s, index_of_id(s, kk), i + 1);
                    }
                }
            }
        }
    }
}

/// Two lists of entries hold the same identifiers and values, position by position.
pub open spec fn same_entries<T>(a: Seq<(AgentId, AgentState<T>)>, b: Seq<(AgentId, AgentState<T>)>) -> bool {
    &&& a.len() == b.len()
    &&& forall|i: int| 0 <= i < a.len() ==> (#[trigger] a[i]).0@ == b[i].0@ && a[i].1@ == b[i].1@
}

/// `after` is `before` with agent `i` given the state of agent `perm[i]`,
/// for each position `i` of `perm`.
pub open spec fn is_permuted<T>(
    before: Seq<(AgentId, AgentState<T>)>,
    after: Seq<(AgentId, AgentState<T>)>,
    perm: Seq<usize>,
) -> bool {
    &&& after.len() == perm.len()
    &&& forall|i: int|
        0 <= i < perm.len() ==> (#[trigger] after[i]).0@ == before[i].0@ && after[i].1@
            == before[perm[i] as int].1@
}

/// `perm` can be applied to a world of `n` agents.
pub open spec fn perm_fits(perm: Seq<usize>, n: nat) -> bool {
    &&& perm.len() <= n
    &&& forall|i: int| 0 <= i < perm.len() ==> #[trigger] perm[i] < n
}

/// `after` is what one simultaneous round of `rule` can make of `before`:
/// the same agents, each with a state that `rule` can return for it.
pub open spec fn is_update_of<T, F: Fn(&AgentId, &AgentState<T>, &WorldState<T>) -> AgentState<T>>(
    rule: F,
    before: WorldState<T>,
    after: WorldState<T>,
) -> bool {
    &&& after@.len() == before@.len()
    &&& forall|i: int|
        0 <= i < before@.len() ==> (#[trigger] after@[i]).0@ == before@[i].0@ && call_ensures(
            rule,
            (&before@[i].0, &before@[i].1, &before),
            after@[i].1,
        )
}

/// `rule` accepts every agent of every world.
pub open spec fn rule_total<T, F: Fn(&AgentId, &AgentState<T>, &WorldState<T>) -> AgentState<T>>(
    rule: F,
) -> bool {
    forall|id: &AgentId, s: &AgentState<T>, w: &WorldState<T>| call_requires(rule, (id, s, w))
}

/// `p` is a permutation of `0..n`: every position holds an index below `n`,
/// and no index occurs twice.
pub open spec fn is_permutation(p: Seq<usize>, n: nat) -> bool {
    &&& p.len() == n
    &&& forall|i: int| 0 <= i < n ==> #[trigger] p[i] < n
    &&& forall|i: int, j: int| 0 <= i < j < n ==> #[trigger] p[i] != #[trigger] p[j]
}

/// The values `s` rearranged by `p`: position `i` holds `s[p[i]]`.
pub open spec fn rearranged<T>(s: Seq<T>, p: Seq<usize>) -> Seq<T> {
    Seq::new(p.len(), |i: int| s[p[i] as int])
}

/// Rearranging by a permutation keeps every value, as often as it occurs.
pub proof fn lemma_rearranged_multiset<A>(s: Seq<A>, p: Seq<usize>)
    requires
        is_permutation(p, s.len()),
    ensures
        rearranged(s, p).to_multiset() == s.to_multiset(),
    decreases s.len(),
{
    broadcast use vstd::multiset::group_multiset_axioms;
    let n = s.len();
    let t = rearranged(s, p);
    if n == 0 {
        assert(t =~= s);
    } else {
        let j = p[n - 1] as int;
        let s2 = s.remove(j);
        let p2 = Seq::new((n - 1) as nat, |i: int| if p[i] < j { p[i] } else { (p[i] - 1) as usize });
        assert forall|i: int| 0 <= i < n - 1 implies p[i] != j by {
            assert(p[i] != p[n - 1]);
        }
        assert forall|a: int, b: int| 0 <= a < b < n - 1 implies #[trigger] p2[a] != #[trigger] p2[b] by {
            assert(p[a] != p[b]);
        }
        assert(is_permutation(p2, (n - 1) as nat));
        lemma_rearranged_multiset(s2, p2);
        assert(rearranged(s2, p2) =~= t.drop_last());
        assert(t =~= t.drop_last().push(s[j]));
        vstd::seq_lib::to_multiset_build(t.drop_last(), s[j]);
        vstd::seq_lib::to_multiset_remove(s, j);
        vstd::seq_lib::to_multiset_contains(s, s[j]);
        assert(s.contains(s[j]));
        assert(s2.to_multiset().insert(s[j]) =~= s.to_multiset());
    }
}

/// The identity arrangement `[0, 1, ..., n-1]`.
pub open spec fn identity_seq(n: nat) -> Seq<usize> {
    Seq::new(n, |i: int| i as usize)
}

/// The identity arrangement with its first two entries exchanged.
pub open spec fn swap_seq(n: nat) -> Seq<usize> {
    identity_seq(n).update(0, 1).update(1, 0)
}

/// The arrangement `[n-1, ..., 1, 0]`.
pub open spec fn reverse_seq(n: nat) -> Seq<usize> {
    Seq::new(n, |i: int| (n - 1 - i) as usize)
}

/// The arrangement `[1, 2, ..., n-1, 0]`.
pub open spec fn rotate_seq(n: nat) -> Seq<usize> {
    Seq::new(n, |i: int| if i + 1 < n { (i + 1) as usize } else { 0usize })
}

/// The standard arrangements, position by position: the identity keeps each
/// position; the exchange swaps the first two positions and keeps the rest;
/// the reversal sends position `i` to `n - 1 - i`; the rotation sends
/// position `i` to `i + 1` and the last to `0`.
pub proof fn law_standard_arrangements(n: nat)
    requires
        n <= usize::MAX,
    ensures
        identity_seq(n).len() == n,
        forall|i: int| 0 <= i < n ==> #[trigger] identity_seq(n)[i] == i,
        n >= 2 ==> swap_seq(n).len() == n && swap_seq(n)[0] == 1 && swap_seq(n)[1] == 0,
        n >= 2 ==> forall|i: int| 2 <= i < n ==> #[trigger] swap_seq(n)[i] == i,
        reverse_seq(n).len() == n,
        forall|i: int| 0 <= i < n ==> #[trigger] reverse_seq(n)[i] == n - 1 - i,
        rotate_seq(n).len() == n,
        forall|i: int| 0 <= i < n - 1 ==> #[trigger] rotate_seq(n)[i] == i + 1,
        n >= 1 ==> rotate_seq(n)[n - 1] == 0,
{
}

/// The identity, the reversal and the rotation are permutations; so is the
/// exchange of the first two positions when there are at least two.
pub proof fn lemma_standard_permutations(n: nat)
    requires
        n <= usize::MAX,
    ensures
        is_permutation(identity_seq(n), n),
        is_permutation(reverse_seq(n), n),
        is_permutation(rotate_seq(n), n),
        n >= 2 ==> is_permutation(swap_seq(n), n),
{
    let s = swap_seq(n);
    if n >= 2 {
        assert forall|i: int, j: int| 0 <= i < j < n implies #[trigger] s[i] != #[trigger] s[j] by {
        }
    }
}

pub(crate) fn identity_perm(n: usize) -> (r: Vec<usize>)
    ensures
        r@ == identity_seq(n as nat),
{
    let mut out: Vec<usize> = Vec::new();
    let mut i: usize = 0;
    while i < n
        invariant
            i <= n,
            out@ == identity_seq(i as nat),
        decreases n - i,
    {
        out.push(i);
        i = i + 1;
        assert(out@ =~= identity_seq(i as nat));
    }
    out
}

pub(crate) fn swap_perm(n: usize) -> (r: Vec<usize>)
    requires
        n >= 2,
    ensures
        r@ == swap_seq(n as nat),
{
    let mut p = identity_perm(n);
    p.set(0, 1);
    p.set(1, 0);
    p
}

pub(crate) fn reverse_perm(n: usize) -> (r: Vec<usize>)
    ensures
        r@ == reverse_seq(n as nat),
{
    let mut out: Vec<usize> = Vec::new();
    let mut i: usize = 0;
    while i < n
        invariant
            i <= n,
            out@ == reverse_seq(n as nat).take(i as int),
        decreases n - i,
    {
        out.push(n - 1 - i);
        i = i + 1;
        assert(out@ =~= reverse_seq(n as nat).take(i as int));
    }
    assert(reverse_seq(n as nat).take(n as int) =~= reverse_seq(n as nat));
    out
}

pub(crate) fn rotate_perm(n: usize) -> (r: Vec<usize>)
    requires
        n >= 1,
    ensures
        r@ == rotate_seq(n as nat),
{
    let mut out: Vec<usize> = Vec::new();
    let mut i: usize = 1;
    while i < n
        invariant
            1 <= i <= n,
            out@ == rotate_seq(n as nat).take(i - 1),
        decreases n - i,
    {
        out.push(i);
        i = i + 1;
        assert(out@ =~= rotate_seq(n as nat).take(i - 1));
    }
    out.push(0);
    assert(out@ =~= rotate_seq(n as nat));
    out
}

impl<T: Copy> WorldState<T> {
    /// The world with the state of agent `id` set to `state`.
    pub fn with(self, id: AgentId, state: AgentState<T>) -> (r: Self)
        ensures
            ids_sorted(r@),
            forall|k: Seq<char>| has_id(r@, k) <==> (has_id(self@, k) || k == id@),
            values_of(r@, id@) == state@,
            forall|k: Seq<char>|
                k != id@ && has_id(self@, k) ==> values_of(r@, k) == values_of(self@, k),
            r@.len() == self@.len() + if has_id(self@, id@) {
                0int
            } else {
                1int
            },
    {
        let mut w = self;
        w.insert(id, state);
        w
    }

    /// The state of agent `id`, if it is present.
    pub fn get(&self, id: &AgentId) -> (r: Option<&AgentState<T>>)
        ensures
            r is Some <==> has_id(self@, id@),
            r matches Some(st) ==> st@ == values_of(self@, id@),
    {
        proof {
            use_type_invariant(self);
        }
        let mut i: usize = 0;
        while i < self.entries.len()
            invariant
                ids_sorted(self.entries@),
                i <= self.entries@.len(),
                forall|j: int| 0 <= j < i ==> (#[trigger] self.entries@[j]).0@ != id@,
            decreases self.entries.len() - i,
        {
            if self.entries[i].0.same_as(id) {
                proof {
                    lemma_sorted_unique(self@, index_of_id(self@, id@), i as int);
                }
                return Some(&self.entries[i].1);
            }
            i = i + 1;
        }
        None
    }

    /// The identifiers of all agents, in agent order.
    pub fn agent_ids(&self) -> (r: Vec<&AgentId>)
        ensures
            r.len() == self@.len(),
            forall|i: int| 0 <= i < r.len() ==> *r[i] == self@[i].0,
    {
        self.ordered_agents()
    }

    /// The number of agents.
    pub fn len(&self) -> (r: usize)
        ensures
            r == self@.len(),
    {
        self.entries.len()
    }

    /// Whether the world has no agents.
    pub fn is_empty(&self) -> (r: bool)
        ensures
            r == (self@.len() == 0),
    {
        self.entries.len() == 0
    }

    /// The agents with their states, in agent order.
    pub fn ordered_states(&self) -> (r: Vec<(&AgentId, &AgentState<T>)>)
        ensures
            ids_sorted(self@),
            r.len() == self@.len(),
            forall|i: int| 0 <= i < r.len() ==> *r[i].0 == self@[i].0 && *r[i].1 == self@[i].1,
    {
        proof {
            use_type_invariant(self);
        }
        let mut out: Vec<(&AgentId, &AgentState<T>)> = Vec::new();
        let mut i: usize = 0;
        while i < self.entries.len()
            invariant
                i <= self.entries@.len(),
                out.len() == i,
                forall|j: int|
                    0 <= j < i ==> *out[j].0 == self.entries@[j].0 && *out[j].1
                        == self.entries@[j].1,
            decreases self.entries.len() - i,
        {
            let e = &self.entries[i];
            out.push((&e.0, &e.1));
            i = i + 1;
        }
        out
    }

    /// The identifiers of all agents, in agent order.
    pub fn ordered_agents(&self) -> (r: Vec<&AgentId>)
        ensures
            ids_sorted(self@),
            r.len() == self@.len(),
            forall|i: int| 0 <= i < r.len() ==> *r[i] == self@[i].0,
    {
        proof {
            use_type_invariant(self);
        }
        let mut out: Vec<&AgentId> = Vec::new();
        let mut i: usize = 0;
        while i < self.entries.len()
            invariant
                i <= self.entries@.len(),
                out.len() == i,
                forall|j: int| 0 <= j < i ==> *out[j] == self.entries@[j].0,
            decreases self.entries.len() - i,
        {
            out.push(&self.entries[i].0);
            i = i + 1;
        }
        out
    }

    /// The world where the agent at position `i` (in agent order) gets the
    /// state of the agent at position `perm[i]`, for each position of `perm`.
    pub fn permute(&self, perm: &[usize]) -> (r: WorldState<T>)
        requires
            perm_fits(perm@, self@.len()),
        ensures
            ids_sorted(r@),
            is_permuted(self@, r@, perm@),
    {
        proof {
            use_type_invariant(self);
        }
        let mut out: Vec<(AgentId, AgentState<T>)> = Vec::new();
        let mut i: usize = 0;
        while i < perm.len()
            invariant
                ids_sorted(self.entries@),
                perm_fits(perm@, self.entries@.len() as nat),
                i <= perm.len(),
                out@.len() == i,
                forall|j: int|
                    0 <= j < i ==> (#[trigger] out@[j]).0@ == self.entries@[j].0@ && out@[j].1@
                        == self.entries@[perm@[j] as int].1@,
            decreases perm.len() - i,
        {
            let src = perm[i];
            out.push((self.entries[i].0.clone(), self.entries[src].1.clone()));
            i = i + 1;
        }
        let r = WorldState { entries: out };
        assert(ids_sorted(r@)) by {
            assert forall|a: int, b: int| 0 <= a < b < r@.len() implies id_lt(
                #[trigger] r@[a].0@,
                #[trigger] r@[b].0@,
            ) by {
                assert(id_lt(self@[a].0@, self@[b].0@));
            }
        }
        r
    }
}

/// `p` lists positions below `n` in strictly increasing order.
pub open spec fn increasing_below(p: Seq<usize>, n: nat) -> bool {
    &&& forall|i: int, j: int| 0 <= i < j < p.len() ==> #[trigger] p[i] < #[trigger] p[j]
    &&& forall|i: int| 0 <= i < p.len() ==> #[trigger] p[i] < n
}

/// The entries of `c` at the positions `p`, in that order.
pub open spec fn selected<T>(c: Seq<(Seq<char>, Seq<T>)>, p: Seq<usize>) -> Seq<(Seq<char>, Seq<T>)> {
    Seq::new(p.len(), |j: int| c[p[j] as int])
}

impl<T: Copy> WorldState<T> {
    /// The world of the agents at the given positions (in agent order).
    pub fn select_positions(&self, positions: &[usize]) -> (r: WorldState<T>)
        requires
            increasing_below(positions@, self@.len()),
        ensures
            ids_sorted(r@),
            content(r@) == selected(content(self@), positions@),
    {
        proof {
            use_type_invariant(self);
        }
        let mut out: Vec<(AgentId, AgentState<T>)> = Vec::new();
        let mut j: usize = 0;
        while j < positions.len()
            invariant
                ids_sorted(self.entries@),
                increasing_below(positions@, self.entries@.len() as nat),
                j <= positions.len(),
                out@.len() == j,
                forall|a: int|
                    0 <= a < j ==> (#[trigger] out@[a]).0@ == self.entries@[positions@[a] as int].0@
                        && out@[a].1@ == self.entries@[positions@[a] as int].1@,
            decreases positions.len() - j,
        {
            let src = positions[j];
            out.push((self.entries[src].0.clone(), self.entries[src].1.clone()));
            j = j + 1;
        }
        let r = WorldState { entries: out };
        assert(ids_sorted(r@)) by {
            assert forall|a: int, b: int| 0 <= a < b < r@.len() implies id_lt(
                #[trigger] r@[a].0@,
                #[trigger] r@[b].0@,
            ) by {
                assert(positions@[a] < positions@[b]);
                assert(id_lt(self@[positions@[a] as int].0@, self@[positions@[b] as int].0@));
            }
        }
        assert(content(r@) =~= selected(content(self@), positions@));
        r
    }
}

impl<T: Copy> Clone for WorldState<T> {
    fn clone(&self) -> (r: Self)
        ensures
            same_entries(r@, self@),
    {
        proof {
            use_type_invariant(self);
        }
        let mut out: Vec<(AgentId, AgentState<T>)> = Vec::new();
        let mut i: usize = 0;
        while i < self.entries.len()
            invariant
                i <= self.entries@.len(),
                out@.len() == i,
                forall|j: int|
                    0 <= j < i ==> (#[trigger] out@[j]).0@ == self.entries@[j].0@ && out@[j].1@
                        == self.entries@[j].1@,
            decreases self.entries.len() - i,
        {
            let e = &self.entries[i];
            out.push((e.0.clone(), e.1.clone()));
            i = i + 1;
        }
        let r = WorldState { entries: out };
        assert(ids_sorted(r@)) by {
            assert forall|a: int, b: int| 0 <= a < b < r@.len() implies id_lt(
                #[trigger] r@[a].0@,
                #[trigger] r@[b].0@,
            ) by {
                assert(id_lt(self@[a].0@, self@[b].0@));
            }
        }
        r
    }
}

/// A multi-agent update: applies one learning rule to every agent at once.
pub struct MultiAgentUpdate<F> {
    pub rule: F,
}

impl<F> MultiAgentUpdate<F> {
    /// The update that applies `rule`.
    pub fn new(rule: F) -> (r: Self)
        ensures
            r.rule == rule,
    {
        MultiAgentUpdate { rule }
    }

    /// Applies the rule to all agents simultaneously: every agent's new
    /// state is computed from the same world `ws`.
    pub fn apply<T: Copy>(&self, ws: &WorldState<T>) -> (r: WorldState<T>)
        where F: Fn(&AgentId, &AgentState<T>, &WorldState<T>) -> AgentState<T>,
        requires
            rule_total(self.rule),
        ensures
            ids_sorted(r@),
            is_update_of(self.rule, *ws, r),
    {
        proof {
            use_type_invariant(ws);
        }
        let mut out: Vec<(AgentId, AgentState<T>)> = Vec::new();
        let mut i: usize = 0;
        while i < ws.entries.len()
            invariant
                rule_total(self.rule),
                i <= ws.entries@.len(),
                out@.len() == i,
                forall|j: int|
                    0 <= j < i ==> (#[trigger] out@[j]).0@ == ws.entries@[j].0@ && call_ensures(
                        self.rule,
                        (&ws.entries@[j].0, &ws.entries@[j].1, ws),
                        out@[j].1,
                    ),
            decreases ws.entries.len() - i,
        {
            let e = &ws.entries[i];
            let next = (self.rule)(&e.0, &e.1, ws);
            out.push((e.0.clone(), next));
            i = i + 1;
        }
        let r = WorldState { entries: out };
        assert(ids_sorted(r@)) by {
            assert forall|a: int, b: int| 0 <= a < b < r@.len() implies id_lt(
                #[trigger] r@[a].0@,
                #[trigger] r@[b].0@,
            ) by {
                assert(id_lt(ws@[a].0@, ws@[b].0@));
            }
        }
        r
    }
}

/// The identifiers and values of a list of entries.
pub open spec fn content<T>(s: Seq<(AgentId, AgentState<T>)>) -> Seq<(Seq<char>, Seq<T>)> {
    Seq::new(s.len(), |i: int| (s[i].0@, s[i].1@))
}

pub proof fn lemma_same_entries_content<T>(a: Seq<(AgentId, AgentState<T>)>, b: Seq<(AgentId, AgentState<T>)>)
    requires
        same_entries(a, b),
    ensures
        content(a) == content(b),
{
    assert(content(a) =~= content(b));
}

/// `rule` accepts every agent of every world, and the values of the state it
/// returns depend only on the identifier, the values of the agent's state,
/// and the identifiers and values of the world.
pub open spec fn pure_rule<T, F: Fn(&AgentId, &AgentState<T>, &WorldState<T>) -> AgentState<T>>(
    rule: F,
) -> bool {
    &&& rule_total(rule)
    &&& forall|
        a1: &AgentId,
        s1: &AgentState<T>,
        w1: &WorldState<T>,
        r1: AgentState<T>,
        a2: &AgentId,
        s2: &AgentState<T>,
        w2: &WorldState<T>,
        r2: AgentState<T>,
    |
        #[trigger] call_ensures(rule, (a1, s1, w1), r1) && #[trigger] call_ensures(
            rule,
            (a2, s2, w2),
            r2,
        ) && a1@ == a2@ && s1@ == s2@ && content(w1@) == content(w2@) ==> r1@ == r2@
}

/// The values that `rule` gives the agent `id` with values `st` in a world
/// with entries `w`.
pub open spec fn rule_value<T, F: Fn(&AgentId, &AgentState<T>, &WorldState<T>) -> AgentState<T>>(
    rule: F,
    id: Seq<char>,
    st: Seq<T>,
    w: Seq<(Seq<char>, Seq<T>)>,
) -> Seq<T> {
    (choose|a: &AgentId, s: &AgentState<T>, ws: &WorldState<T>, r: AgentState<T>|
        #[trigger] call_ensures(rule, (a, s, ws), r) && a@ == id && s@ == st && content(ws@) == w).3@
}

pub proof fn lemma_rule_value<T, F: Fn(&AgentId, &AgentState<T>, &WorldState<T>) -> AgentState<T>>(
    rule: F,
    a: &AgentId,
    s: &AgentState<T>,
    w: &WorldState<T>,
    r: AgentState<T>,
)
    requires
        pure_rule(rule),
        call_ensures(rule, (a, s, w), r),
    ensures
        r@ == rule_value(rule, a@, s@, content(w@)),
{
    let (a2, s2, w2, r2) = choose|a2: &AgentId, s2: &AgentState<T>, w2: &WorldState<T>, r2: AgentState<T>|
        #[trigger] call_ensures(rule, (a2, s2, w2), r2) && a2@ == a@ && s2@ == s@ && content(w2@)
            == content(w@);
}

/// The identifiers and values after one simultaneous round of `rule`.
pub open spec fn next_content<T, F: Fn(&AgentId, &AgentState<T>, &WorldState<T>) -> AgentState<T>>(
    rule: F,
    c: Seq<(Seq<char>, Seq<T>)>,
) -> Seq<(Seq<char>, Seq<T>)> {
    Seq::new(c.len(), |i: int| (c[i].0, rule_value(rule, c[i].0, c[i].1, c)))
}

/// The identifiers and values after `k` rounds of `rule`.
pub open spec fn after_rounds<T, F: Fn(&AgentId, &AgentState<T>, &WorldState<T>) -> AgentState<T>>(
    rule: F,
    c: Seq<(Seq<char>, Seq<T>)>,
    k: nat,
) -> Seq<(Seq<char>, Seq<T>)>
    decreases k,
{
    if k == 0 {
        c
    } else {
        next_content(rule, after_rounds(rule, c, (k - 1) as nat))
    }
}

/// For a pure rule, one round determines the new identifiers and values.
pub proof fn lemma_update_content<T, F: Fn(&AgentId, &AgentState<T>, &WorldState<T>) -> AgentState<T>>(
    rule: F,
    before: WorldState<T>,
    after: WorldState<T>,
)
    requires
        pure_rule(rule),
        is_update_of(rule, before, after),
    ensures
        content(after@) == next_content(rule, content(before@)),
{
    assert forall|i: int| 0 <= i < before@.len() implies (#[trigger] after@[i]).1@ == rule_value(
        rule,
        before@[i].0@,
        before@[i].1@,
        content(before@),
    ) by {
        lemma_rule_value(rule, &before@[i].0, &before@[i].1, &before, after@[i].1);
    }
    assert(content(after@) =~= next_content(rule, content(before@)));
}

/// `charge` accepts every world, and its result depends only on the
/// identifiers and values of the world.
pub open spec fn pure_charge<T, C, Q: Fn(&WorldState<T>) -> C>(charge: Q) -> bool {
    &&& forall|w: &WorldState<T>| call_requires(charge, (w,))
    &&& forall|w1: &WorldState<T>, w2: &WorldState<T>, x: C, y: C|
        #[trigger] call_ensures(charge, (w1,), x) && #[trigger] call_ensures(charge, (w2,), y)
            && content(w1@) == content(w2@) ==> x == y
}

/// The charge of a world with identifiers and values `c`.
pub open spec fn charge_value<T, C, Q: Fn(&WorldState<T>) -> C>(
    charge: Q,
    c: Seq<(Seq<char>, Seq<T>)>,
) -> C {
    (choose|x: C, w: &WorldState<T>| #[trigger] call_ensures(charge, (w,), x) && content(w@) == c).0
}

pub proof fn lemma_charge_value<T, C, Q: Fn(&WorldState<T>) -> C>(charge: Q, w: &WorldState<T>, x: C)
    requires
        pure_charge(charge),
        call_ensures(charge, (w,), x),
    ensures
        x == charge_value(charge, content(w@)),
{
    let (y, w2) = choose|y: C, w2: &WorldState<T>|
        #[trigger] call_ensures(charge, (w2,), y) && content(w2@) == content(w@);
}

impl<F> MultiAgentUpdate<F> {
    /// Applies the rule for `rounds` rounds.
    pub fn apply_rounds<T: Copy>(&self, ws: &WorldState<T>, rounds: usize) -> (r: WorldState<T>)
        where F: Fn(&AgentId, &AgentState<T>, &WorldState<T>) -> AgentState<T>,
        requires
            pure_rule(self.rule),
        ensures
            ids_sorted(r@),
            content(r@) == after_rounds(self.rule, content(ws@), rounds as nat),
    {
        let mut current = ws.clone();
        proof {
            lemma_same_entries_content(current@, ws@);
        }
        let mut k: usize = 0;
        while k < rounds
            invariant
                pure_rule(self.rule),
                k <= rounds,
                content(current@) == after_rounds(self.rule, content(ws@), k as nat),
            decreases rounds - k,
        {
            let next = self.apply(&current);
            proof {
                lemma_update_content(self.rule, current, next);
            }
            current = next;
            k = k + 1;
        }
        proof {
            use_type_invariant(&current);
        }
        current
    }
}

/// The entries of `c` whose positions are in `positions` (when `inside`), or
/// not in `positions` (when not `inside`), in their order.
pub open spec fn split_part<T>(c: Seq<(Seq<char>, Seq<T>)>, positions: Seq<usize>, inside: bool) -> Seq<
    (Seq<char>, Seq<T>),
>
    decreases c.len(),
{
    if c.len() == 0 {
        Seq::empty()
    } else {
        let rest = split_part(c.drop_last(), positions, inside);
        if positions.contains((c.len() - 1) as usize) == inside {
            rest.push(c.last())
        } else {
            rest
        }
    }
}

/// An identifier occurs in a list of identifiers and values.
pub open spec fn content_has<T>(c: Seq<(Seq<char>, Seq<T>)>, k: Seq<char>) -> bool {
    exists|i: int| 0 <= i < c.len() && (#[trigger] c[i]).0 == k
}

pub proof fn lemma_has_id_content<T>(s: Seq<(AgentId, AgentState<T>)>, k: Seq<char>)
    ensures
        has_id(s, k) == content_has(content(s), k),
{
    if has_id(s, k) {
        let i = choose|i: int| 0 <= i < s.len() && (#[trigger] s[i]).0@ == k;
        assert(content(s)[i].0 == k);
    }
    if content_has(content(s), k) {
        let i = choose|i: int| 0 <= i < content(s).len() && (#[trigger] content(s)[i]).0 == k;
        assert(s[i].0@ == k);
    }
}

fn contains_index(positions: &[usize], i: usize) -> (r: bool)
    ensures
        r == positions@.contains(i),
{
    let mut q: usize = 0;
    while q < positions.len()
        invariant
            q <= positions@.len(),
            forall|z: int| 0 <= z < q ==> positions@[z] != i,
        decreases positions.len() - q,
    {
        if positions[q] == i {
            return true;
        }
        q = q + 1;
    }
    false
}

impl<T: Copy> WorldState<T> {
    fn part(&self, positions: &[usize], inside: bool) -> (r: WorldState<T>)
        ensures
            ids_sorted(r@),
            content(r@) == split_part(content(self@), positions@, inside),
    {
        proof {
            use_type_invariant(self);
        }
        let n = self.entries.len();
        let mut out: Vec<(AgentId, AgentState<T>)> = Vec::new();
        let ghost mut last_src: int = 0;
        let mut i: usize = 0;
        while i < n
            invariant
                n == self.entries@.len(),
                ids_sorted(self.entries@),
                i <= n,
                ids_sorted(out@),
                out@.len() > 0 ==> 0 <= last_src < i && out@.last().0@ == self.entries@[last_src].0@,
                content(out@) == split_part(content(self.entries@).take(i as int), positions@, inside),
            decreases n - i,
        {
            let found = contains_index(positions, i);
            let ghost before = out@;
            let ghost c = content(self.entries@);
            assert(c.take(i + 1).drop_last() =~= c.take(i as int));
            if found == inside {
                let e = &self.entries[i];
                out.push((e.0.clone(), e.1.clone()));
                proof {
                    assert forall|a: int, b: int| 0 <= a < b < out@.len() implies id_lt(
                        #[trigger] out@[a].0@,
                        #[trigger] out@[b].0@,
                    ) by {
                        if b == out@.len() - 1 {
                            assert(out@[a] == before[a]);
                            assert(id_lt(self.entries@[last_src].0@, self.entries@[i as int].0@));
                            if a < before.len() - 1 {
                                assert(id_lt(before[a].0@, before[before.len() - 1].0@));
                                lemma_id_lt_order(before[a].0@, before.last().0@, self.entries@[i as int].0@);
                            }
                        } else {
                            assert(out@[a] == before[a] && out@[b] == before[b]);
                        }
                    }
                    last_src = i as int;
                    assert(content(out@) =~= content(before).push(c[i as int]));
                }
            }
            i = i + 1;
        }
        assert(content(self.entries@).take(n as int) =~= content(self.entries@));
        WorldState { entries: out }
    }

    /// Splits the world in two: the agents whose positions (in agent order)
    /// are listed in `positions`, and the others.
    pub fn split_by_positions(&self, positions: &[usize]) -> (r: (WorldState<T>, WorldState<T>))
        ensures
            ids_sorted(r.0@),
            ids_sorted(r.1@),
            content(r.0@) == split_part(content(self@), positions@, true),
            content(r.1@) == split_part(content(self@), positions@, false),
    {
        (self.part(positions, true), self.part(positions, false))
    }

    /// Merges two worlds: every agent of either world, with its state in
    /// `other` where it has one there.
    pub fn merge(&self, other: &WorldState<T>) -> (r: WorldState<T>)
        ensures
            ids_sorted(r@),
            forall|k: Seq<char>| has_id(r@, k) <==> (has_id(self@, k) || has_id(other@, k)),
            forall|k: Seq<char>| has_id(other@, k) ==> values_of(r@, k) == values_of(other@, k),
            forall|k: Seq<char>|
                has_id(self@, k) && !has_id(other@, k) ==> values_of(r@, k) == values_of(self@, k),
    {
        proof {
            use_type_invariant(other);
            use_type_invariant(self);
        }
        let mut merged = self.clone();
        proof {
            use_type_invariant(&merged);
            assert forall|k: Seq<char>| has_id(merged@, k) == has_id(self@, k) by {
                lemma_has_id_content(merged@, k);
                lemma_has_id_content(self@, k);
                lemma_same_entries_content(merged@, self@);
            }
            assert forall|k: Seq<char>| has_id(self@, k) implies values_of(merged@, k) == values_of(self@, k) by {
                let i = index_of_id(self@, k);
                assert(merged@[i].0@ == k);
                lemma_sorted_unique(merged@, index_of_id(merged@, k), i);
            }
        }
        let n = other.entries.len();
        let mut i: usize = 0;
        while i < n
            invariant
                n == other@.len(),
                ids_sorted(other@),
                i <= n,
                forall|k: Seq<char>|
                    has_id(merged@, k) <==> (has_id(self@, k) || has_id(other@.take(i as int), k)),
                forall|k: Seq<char>|
                    has_id(other@.take(i as int), k) ==> values_of(merged@, k) == values_of(other@, k),
                forall|k: Seq<char>|
                    has_id(self@, k) && !has_id(other@.take(i as int), k) ==> values_of(merged@, k)
                        == values_of(self@, k),
            decreases n - i,
        {
            let e = &other.entries[i];
            let ghost k0 = e.0@;
            let ghost before = merged@;
            merged.insert(e.0.clone(), e.1.clone());
            proof {
                let t = other@.take(i as int);
                let t1 = other@.take(i + 1);
                assert(values_of(other@, k0) == e.1@) by {
                    lemma_sorted_unique(other@, index_of_id(other@, k0), i as int);
                }
                assert forall|k: Seq<char>| has_id(t1, k) <==> (has_id(t, k) || k == k0) by {
                    if has_id(t1, k) {
                        let j = choose|j: int| 0 <= j < t1.len() && (#[trigger] t1[j]).0@ == k;
                        if j < i {
                            assert(t[j] == t1[j]);
                        }
                    }
                    if has_id(t, k) {
                        let j = choose|j: int| 0 <= j < t.len() && (#[trigger] t[j]).0@ == k;
                        assert(t1[j] == t[j]);
                    }
                    if k == k0 {
                        assert(t1[i as int].0@ == k0);
                    }
                }
            }
            i = i + 1;
        }
        assert(other@.take(n as int) =~= other@);
        proof {
            use_type_invariant(&merged);
        }
        merged
    }
}

/// In a list with strictly increasing identifiers, the entry at position `i`
/// is the one found by its identifier.
pub proof fn lemma_values_at<T>(s: Seq<(AgentId, AgentState<T>)>, i: int)
    requires
        ids_sorted(s),
        0 <= i < s.len(),
    ensures
        has_id(s, s[i].0@),
        values_of(s, s[i].0@) == s[i].1@,
{
    assert(has_id(s, s[i].0@));
    lemma_sorted_unique(s, index_of_id(s, s[i].0@), i);
}

/// Two lists with strictly increasing identifiers that hold the same agents
/// with the same values hold them in the same order.
pub proof fn lemma_same_agents_same_content<T>(a: Seq<(AgentId, AgentState<T>)>, b: Seq<(AgentId, AgentState<T>)>)
    requires
        ids_sorted(a),
        ids_sorted(b),
        forall|k: Seq<char>| has_id(a, k) <==> has_id(b, k),
        forall|k: Seq<char>| has_id(a, k) ==> values_of(a, k) == values_of(b, k),
    ensures
        content(a) == content(b),
    decreases a.len(),
{
    if a.len() == 0 {
        if b.len() > 0 {
            assert(has_id(b, b[0].0@));
            let i = choose|i: int| 0 <= i < a.len() && (#[trigger] a[i]).0@ == b[0].0@;
        }
        assert(content(a) =~= content(b));
    } else {
        let k0 = a[0].0@;
        assert(has_id(a, k0));
        assert(has_id(b, k0));
        let j = choose|j: int| 0 <= j < b.len() && (#[trigger] b[j]).0@ == k0;
        if j > 0 {
            assert(id_lt(b[0].0@, b[j].0@));
            assert(has_id(b, b[0].0@));
            let i = choose|i: int| 0 <= i < a.len() && (#[trigger] a[i]).0@ == b[0].0@;
            if i > 0 {
                assert(id_lt(a[0].0@, a[i].0@));
                lemma_id_lt_order(k0, b[0].0@, k0);
            } else {
                lemma_id_lt_order(k0, k0, k0);
            }
        }
        assert(b[0].0@ == k0);
        lemma_values_at(a, 0);
        lemma_values_at(b, 0);
        let a1 = a.drop_first();
        let b1 = b.drop_first();
        assert(ids_sorted(a1)) by {
            assert forall|x: int, y: int| 0 <= x < y < a1.len() implies id_lt(
                #[trigger] a1[x].0@,
                #[trigger] a1[y].0@,
            ) by {
                assert(id_lt(a[x + 1].0@, a[y + 1].0@));
            }
        }
        assert(ids_sorted(b1)) by {
            assert forall|x: int, y: int| 0 <= x < y < b1.len() implies id_lt(
                #[trigger] b1[x].0@,
                #[trigger] b1[y].0@,
            ) by {
                assert(id_lt(b[x + 1].0@, b[y + 1].0@));
            }
        }
        assert forall|k: Seq<char>| has_id(a1, k) <==> has_id(b1, k) by {
            if has_id(a1, k) {
                let x = choose|x: int| 0 <= x < a1.len() && (#[trigger] a1[x]).0@ == k;
                assert(a[x + 1].0@ == k);
                assert(id_lt(k0, k));
                assert(has_id(a, k));
                let y = choose|y: int| 0 <= y < b.len() && (#[trigger] b[y]).0@ == k;
                if y == 0 {
                    lemma_id_lt_order(k0, k0, k0);
                }
                assert(b1[y - 1].0@ == k);
            }
            if has_id(b1, k) {
                let x = choose|x: int| 0 <= x < b1.len() && (#[trigger] b1[x]).0@ == k;
                assert(b[x + 1].0@ == k);
                assert(id_lt(k0, k));
                assert(has_id(b, k));
                let y = choose|y: int| 0 <= y < a.len() && (#[trigger] a[y]).0@ == k;
                if y == 0 {
                    lemma_id_lt_order(k0, k0, k0);
                }
                assert(a1[y - 1].0@ == k);
            }
        }
        assert forall|k: Seq<char>| has_id(a1, k) implies values_of(a1, k) == values_of(b1, k) by {
            let x = choose|x: int| 0 <= x < a1.len() && (#[trigger] a1[x]).0@ == k;
            let y = choose|y: int| 0 <= y < b1.len() && (#[trigger] b1[y]).0@ == k;
            lemma_values_at(a1, x);
            lemma_values_at(b1, y);
            lemma_values_at(a, x + 1);
            lemma_values_at(b, y + 1);
        }
        lemma_same_agents_same_content(a1, b1);
        assert(content(a) =~= seq![(k0, a[0].1@)] + content(a1));
        assert(content(b) =~= seq![(k0, b[0].1@)] + content(b1));
    }
}

/// Partition and merge lose nothing: splitting a world in two and merging the
/// parts gives back every agent with its state.
pub proof fn law_split_merge_restores<T>(
    ws: Seq<(AgentId, AgentState<T>)>,
    positions: Seq<usize>,
    a: Seq<(AgentId, AgentState<T>)>,
    b: Seq<(AgentId, AgentState<T>)>,
    merged: Seq<(AgentId, AgentState<T>)>,
)
    requires
        ids_sorted(ws),
        ids_sorted(a),
        ids_sorted(b),
        ids_sorted(merged),
        content(a) == split_part(content(ws), positions, true),
        content(b) == split_part(content(ws), positions, false),
        forall|k: Seq<char>| has_id(merged, k) <==> (has_id(a, k) || has_id(b, k)),
        forall|k: Seq<char>| has_id(b, k) ==> values_of(merged, k) == values_of(b, k),
        forall|k: Seq<char>| has_id(a, k) && !has_id(b, k) ==> values_of(merged, k) == values_of(a, k),
    ensures
        forall|k: Seq<char>| has_id(merged, k) <==> has_id(ws, k),
        forall|k: Seq<char>| has_id(ws, k) ==> values_of(merged, k) == values_of(ws, k),
{
    assert forall|k: Seq<char>| has_id(merged, k) <==> has_id(ws, k) by {
        lemma_has_id_content(ws, k);
        lemma_has_id_content(a, k);
        lemma_has_id_content(b, k);
        lemma_split_part_keys(content(ws), positions, k);
    }
    assert forall|k: Seq<char>| has_id(ws, k) implies values_of(merged, k) == values_of(ws, k) by {
        lemma_has_id_content(ws, k);
        lemma_has_id_content(a, k);
        lemma_has_id_content(b, k);
        lemma_split_part_keys(content(ws), positions, k);
        let i = index_of_id(ws, k);
        lemma_split_part_values(content(ws), positions, i);
        if positions.contains(i as usize) {
            let j = choose|j: int| 0 <= j < content(a).len() && content(a)[j] == content(ws)[i];
            assert(a[j].0@ == k);
            lemma_sorted_unique(a, index_of_id(a, k), j);
            if has_id(b, k) {
                let jb = index_of_id(b, k);
                lemma_split_part_origin(content(ws), positions, false, jb);
                let i2 = choose|i2: int| 0 <= i2 < content(ws).len() && content(b)[jb] == content(ws)[i2] && positions.contains(i2 as usize) == false;
                assert(ws[i2].0@ == k);
                lemma_sorted_unique(ws, i, i2);
            }
        } else {
            let j = choose|j: int| 0 <= j < content(b).len() && content(b)[j] == content(ws)[i];
            assert(b[j].0@ == k);
            lemma_sorted_unique(b, index_of_id(b, k), j);
        }
    }
}

proof fn lemma_split_part_keys<T>(c: Seq<(Seq<char>, Seq<T>)>, positions: Seq<usize>, k: Seq<char>)
    ensures
        content_has(c, k) <==> (content_has(split_part(c, positions, true), k) || content_has(
            split_part(c, positions, false),
            k,
        )),
    decreases c.len(),
{
    if c.len() > 0 {
        let d = c.drop_last();
        lemma_split_part_keys(d, positions, k);
        let t = split_part(d, positions, true);
        let f = split_part(d, positions, false);
        if content_has(c, k) {
            let i = choose|i: int| 0 <= i < c.len() && (#[trigger] c[i]).0 == k;
            if i < c.len() - 1 {
                assert(d[i].0 == k);
                if content_has(t, k) {
                    let j = choose|j: int| 0 <= j < t.len() && (#[trigger] t[j]).0 == k;
                    assert(split_part(c, positions, true)[j] == t[j]);
                } else {
                    let j = choose|j: int| 0 <= j < f.len() && (#[trigger] f[j]).0 == k;
                    assert(split_part(c, positions, false)[j] == f[j]);
                }
            } else {
                if positions.contains((c.len() - 1) as usize) {
                    let st = split_part(c, positions, true);
                    assert(st[st.len() - 1].0 == k);
                } else {
                    let sf = split_part(c, positions, false);
                    assert(sf[sf.len() - 1].0 == k);
                }
            }
        }
        let st = split_part(c, positions, true);
        let sf = split_part(c, positions, false);
        if content_has(st, k) {
            let j = choose|j: int| 0 <= j < st.len() && (#[trigger] st[j]).0 == k;
            if j < t.len() {
                assert(st[j] == t[j]);
                let i = choose|i: int| 0 <= i < d.len() && (#[trigger] d[i]).0 == k;
                assert(c[i] == d[i]);
            } else {
                assert(c[c.len() - 1].0 == k);
            }
        }
        if content_has(sf, k) {
            let j = choose|j: int| 0 <= j < sf.len() && (#[trigger] sf[j]).0 == k;
            if j < f.len() {
                assert(sf[j] == f[j]);
                let i = choose|i: int| 0 <= i < d.len() && (#[trigger] d[i]).0 == k;
                assert(c[i] == d[i]);
            } else {
                assert(c[c.len() - 1].0 == k);
            }
        }
    }
}

proof fn lemma_split_part_values<T>(c: Seq<(Seq<char>, Seq<T>)>, positions: Seq<usize>, i: int)
    requires
        0 <= i < c.len(),
    ensures
        positions.contains(i as usize) ==> exists|j: int|
            0 <= j < split_part(c, positions, true).len() && split_part(c, positions, true)[j] == c[i],
        !positions.contains(i as usize) ==> exists|j: int|
            0 <= j < split_part(c, positions, false).len() && split_part(c, positions, false)[j]
                == c[i],
    decreases c.len(),
{
    let d = c.drop_last();
    let inside = positions.contains(i as usize);
    if i < c.len() - 1 {
        lemma_split_part_values(d, positions, i);
        let j = choose|j: int|
            0 <= j < split_part(d, positions, inside).len() && split_part(d, positions, inside)[j] == d[i];
        assert(split_part(c, positions, inside)[j] == c[i]);
    } else {
        let s = split_part(c, positions, inside);
        assert(s[s.len() - 1] == c[i]);
    }
}

proof fn lemma_split_part_origin<T>(c: Seq<(Seq<char>, Seq<T>)>, positions: Seq<usize>, inside: bool, j: int)
    requires
        0 <= j < split_part(c, positions, inside).len(),
    ensures
        exists|i: int|
            0 <= i < c.len() && split_part(c, positions, inside)[j] == c[i] && positions.contains(i as usize)
                == inside,
    decreases c.len(),
{
    let d = c.drop_last();
    let t = split_part(d, positions, inside);
    if j < t.len() {
        lemma_split_part_origin(d, positions, inside, j);
        let i = choose|i: int| 0 <= i < d.len() && t[j] == d[i] && positions.contains(i as usize) == inside;
        assert(split_part(c, positions, inside)[j] == c[i]);
    } else {
        assert(split_part(c, positions, inside)[j] == c[c.len() - 1]);
    }
}

/// The values of the states of a list of entries, in order.
pub open spec fn states_of<T>(c: Seq<(Seq<char>, Seq<T>)>) -> Seq<Seq<T>> {
    Seq::new(c.len(), |i: int| c[i].1)
}

/// Permuting the agents by a permutation keeps every state: the states of
/// the world, counted with multiplicity, are the same before and after.
pub proof fn law_permutation_keeps_states<T>(
    before: Seq<(AgentId, AgentState<T>)>,
    after: Seq<(AgentId, AgentState<T>)>,
    p: Seq<usize>,
)
    requires
        is_permutation(p, before.len()),
        is_permuted(before, after, p),
    ensures
        states_of(content(after)).to_multiset() == states_of(content(before)).to_multiset(),
{
    lemma_rearranged_multiset(states_of(content(before)), p);
    assert(states_of(content(after)) =~= rearranged(states_of(content(before)), p));
}

/// Permuting by the identity changes nothing.
pub proof fn law_permute_identity<T>(
    before: Seq<(AgentId, AgentState<T>)>,
    after: Seq<(AgentId, AgentState<T>)>,
)
    requires
        before.len() <= usize::MAX,
        is_permuted(before, after, identity_seq(before.len())),
    ensures
        same_entries(after, before),
{
    assert forall|i: int| 0 <= i < after.len() implies (#[trigger] after[i]).0@ == before[i].0@
        && after[i].1@ == before[i].1@ by {
        assert(identity_seq(before.len())[i] as int == i);
    }
}

/// Permuting by `p` and then by `q` is permuting by `p` after `q`: agent `i`
/// ends with the state of agent `p[q[i]]`.
pub proof fn law_permute_compose<T>(
    w0: Seq<(AgentId, AgentState<T>)>,
    w1: Seq<(AgentId, AgentState<T>)>,
    w2: Seq<(AgentId, AgentState<T>)>,
    p: Seq<usize>,
    q: Seq<usize>,
)
    requires
        is_permuted(w0, w1, p),
        is_permuted(w1, w2, q),
        perm_fits(q, p.len()),
    ensures
        is_permuted(w0, w2, Seq::new(q.len(), |i: int| p[q[i] as int])),
{
}

} // verus!

//! ACI verification: an operation that is associative, commutative and
//! idempotent is the join of a semilattice.
use vstd::prelude::*;
use vstd::string::StringExecFns;
use crate::pure::agg_of;
use crate::pure::lemma_agg_of;
use crate::pure::lemma_op_of;
use crate::pure::pure_agg;
use crate::pure::lemma_rel_of;
use crate::pure::op_of;
use crate::pure::pure_op;
use crate::pure::pure_rel;
use crate::pure::rel_of;
use crate::text::bool_str;
use crate::text::bool_text;

verus! {

/// Result of an ACI verification.
#[derive(Debug, Clone, Copy)]
pub struct AciResult {
    pub is_associative: bool,
    pub is_commutative: bool,
    pub is_idempotent: bool,
    pub is_join_semilattice: bool,
}

/// The text of an `AciResult`.
pub open spec fn aci_text(r: AciResult) -> Seq<char> {
    "AciResult { assoc: "@ + bool_text(r.is_associative) + ", comm: "@ + bool_text(r.is_commutative)
        + ", idem: "@ + bool_text(r.is_idempotent) + ", join-semilattice: "@ + bool_text(
        r.is_join_semilattice,
    ) + " }"@
}

impl AciResult {
    /// The text of the value, as it is displayed.
    pub fn to_string(&self) -> (r: String)
        ensures
            r@ == aci_text(*self),
    {
        let mut s = String::from_str("AciResult { assoc: ");
        s.append(bool_str(self.is_associative));
        s.append(", comm: ");
        s.append(bool_str(self.is_commutative));
        s.append(", idem: ");
        s.append(bool_str(self.is_idempotent));
        s.append(", join-semilattice: ");
        s.append(bool_str(self.is_join_semilattice));
        s.append(" }");
        s
    }
}

/// `op(a, b)` is close to `op(b, a)` for all test values `a`, `b`.
pub open spec fn commutative_on<T, F: Fn(T, T) -> T, E: Fn(T, T) -> bool>(
    op: F,
    close: E,
    v: Seq<T>,
) -> bool {
    forall|i: int, j: int|
        #![trigger v[i], v[j]]
        0 <= i < v.len() && 0 <= j < v.len() ==> rel_of(
            close,
            op_of(op, v[i], v[j]),
            op_of(op, v[j], v[i]),
        )
}

/// `op(op(a, b), c)` is close to `op(a, op(b, c))` for all test values.
pub open spec fn associative_on<T, F: Fn(T, T) -> T, E: Fn(T, T) -> bool>(
    op: F,
    close: E,
    v: Seq<T>,
) -> bool {
    forall|i: int, j: int, k: int|
        #![trigger v[i], v[j], v[k]]
        0 <= i < v.len() && 0 <= j < v.len() && 0 <= k < v.len() ==> rel_of(
            close,
            op_of(op, op_of(op, v[i], v[j]), v[k]),
            op_of(op, v[i], op_of(op, v[j], v[k])),
        )
}

/// `op(a, a)` is close to `a` for all test values.
pub open spec fn idempotent_on<T, F: Fn(T, T) -> T, E: Fn(T, T) -> bool>(
    op: F,
    close: E,
    v: Seq<T>,
) -> bool {
    forall|i: int| 0 <= i < v.len() ==> rel_of(close, op_of(op, v[i], v[i]), #[trigger] v[i])
}

fn check_commutativity<T: Copy, F: Fn(T, T) -> T, E: Fn(T, T) -> bool>(
    op: &F,
    close: &E,
    values: &[T],
) -> (r: bool)
    requires
        pure_op(*op),
        pure_rel(*close),
    ensures
        r == commutative_on(*op, *close, values@),
{
    let mut i: usize = 0;
    while i < values.len()
        invariant
            pure_op(*op),
            pure_rel(*close),
            i <= values.len(),
            forall|a: int, b: int|
                #![trigger values@[a], values@[b]]
                0 <= a < i && 0 <= b < values.len() ==> rel_of(
                    *close,
                    op_of(*op, values@[a], values@[b]),
                    op_of(*op, values@[b], values@[a]),
                ),
        decreases values.len() - i,
    {
        let mut j: usize = 0;
        while j < values.len()
            invariant
                pure_op(*op),
                pure_rel(*close),
                i < values.len(),
                j <= values.len(),
                forall|a: int, b: int|
                    #![trigger values@[a], values@[b]]
                    0 <= a < i && 0 <= b < values.len() ==> rel_of(
                        *close,
                        op_of(*op, values@[a], values@[b]),
                        op_of(*op, values@[b], values@[a]),
                    ),
                forall|b: int|
                    0 <= b < j ==> rel_of(
                        *close,
                        op_of(*op, values@[i as int], #[trigger] values@[b]),
                        op_of(*op, values@[b], values@[i as int]),
                    ),
            decreases values.len() - j,
        {
            let a = values[i];
            let b = values[j];
            let x = op(a, b);
            let y = op(b, a);
            let c = close(x, y);
            proof {
                lemma_op_of(*op, a, b, x);
                lemma_op_of(*op, b, a, y);
                lemma_rel_of(*close, x, y, c);
            }
            if !c {
                return false;
            }
            j = j + 1;
        }
        i = i + 1;
    }
    true
}

fn check_associativity<T: Copy, F: Fn(T, T) -> T, E: Fn(T, T) -> bool>(
    op: &F,
    close: &E,
    values: &[T],
) -> (r: bool)
    requires
        pure_op(*op),
        pure_rel(*close),
    ensures
        r == associative_on(*op, *close, values@),
{
    let n = values.len();
    let mut i: usize = 0;
    while i < n
        invariant
            pure_op(*op),
            pure_rel(*close),
            n == values@.len(),
            i <= n,
            forall|a: int, b: int, c: int|
                #![trigger values@[a], values@[b], values@[c]]
                0 <= a < i && 0 <= b < n && 0 <= c < n ==> rel_of(
                    *close,
                    op_of(*op, op_of(*op, values@[a], values@[b]), values@[c]),
                    op_of(*op, values@[a], op_of(*op, values@[b], values@[c])),
                ),
        decreases n - i,
    {
        let mut j: usize = 0;
        while j < n
            invariant
                pure_op(*op),
                pure_rel(*close),
                n == values@.len(),
                i < n,
                j <= n,
                forall|a: int, b: int, c: int|
                    #![trigger values@[a], values@[b], values@[c]]
                    0 <= a < i && 0 <= b < n && 0 <= c < n ==> rel_of(
                        *close,
                        op_of(*op, op_of(*op, values@[a], values@[b]), values@[c]),
                        op_of(*op, values@[a], op_of(*op, values@[b], values@[c])),
                    ),
                forall|b: int, c: int|
                    #![trigger values@[b], values@[c]]
                    0 <= b < j && 0 <= c < n ==> rel_of(
                        *close,
                        op_of(*op, op_of(*op, values@[i as int], values@[b]), values@[c]),
                        op_of(*op, values@[i as int], op_of(*op, values@[b], values@[c])),
                    ),
            decreases n - j,
        {
            let mut k: usize = 0;
            while k < n
                invariant
                    pure_op(*op),
                    pure_rel(*close),
                    n == values@.len(),
                    i < n,
                    j < n,
                    k <= n,
                    forall|a: int, b: int, c: int|
                        #![trigger values@[a], values@[b], values@[c]]
                        0 <= a < i && 0 <= b < n && 0 <= c < n ==> rel_of(
                            *close,
                            op_of(*op, op_of(*op, values@[a], values@[b]), values@[c]),
                            op_of(*op, values@[a], op_of(*op, values@[b], values@[c])),
                        ),
                    forall|b: int, c: int|
                        #![trigger values@[b], values@[c]]
                        0 <= b < j && 0 <= c < n ==> rel_of(
                            *close,
                            op_of(*op, op_of(*op, values@[i as int], values@[b]), values@[c]),
                            op_of(*op, values@[i as int], op_of(*op, values@[b], values@[c])),
                        ),
                    forall|c: int|
                        0 <= c < k ==> rel_of(
                            *close,
                            op_of(
                                *op,
                                op_of(*op, values@[i as int], values@[j as int]),
                                #[trigger] values@[c],
                            ),
                            op_of(*op, values@[i as int], op_of(*op, values@[j as int], values@[c])),
                        ),
                decreases n - k,
            {
                let a = values[i];
                let b = values[j];
                let c = values[k];
                let ab = op(a, b);
                let left = op(ab, c);
                let bc = op(b, c);
                let right = op(a, bc);
                let ok = close(left, right);
                proof {
                    lemma_op_of(*op, a, b, ab);
                    lemma_op_of(*op, ab, c, left);
                    lemma_op_of(*op, b, c, bc);
                    lemma_op_of(*op, a, bc, right);
                    lemma_rel_of(*close, left, right, ok);
                }
                if !ok {
                    return false;
                }
                k = k + 1;
            }
            j = j + 1;
        }
        i = i + 1;
    }
    true
}

fn check_idempotency<T: Copy, F: Fn(T, T) -> T, E: Fn(T, T) -> bool>(
    op: &F,
    close: &E,
    values: &[T],
) -> (r: bool)
    requires
        pure_op(*op),
        pure_rel(*close),
    ensures
        r == idempotent_on(*op, *close, values@),
{
    let mut i: usize = 0;
    while i < values.len()
        invariant
            pure_op(*op),
            pure_rel(*close),
            i <= values.len(),
            forall|a: int|
                0 <= a < i ==> rel_of(*close, op_of(*op, values@[a], values@[a]), #[trigger] values@[a]),
        decreases values.len() - i,
    {
        let a = values[i];
        let x = op(a, a);
        let c = close(x, a);
        proof {
            lemma_op_of(*op, a, a, x);
            lemma_rel_of(*close, x, a, c);
        }
        if !c {
            return false;
        }
        i = i + 1;
    }
    true
}

/// Verifies the ACI properties of a binary operation on the test values,
/// comparing results with `close`.
pub fn verify_aci<T: Copy, F: Fn(T, T) -> T, E: Fn(T, T) -> bool>(
    op: &F,
    close: &E,
    test_values: &[T],
) -> (r: AciResult)
    requires
        pure_op(*op),
        pure_rel(*close),
    ensures
        r.is_commutative == commutative_on(*op, *close, test_values@),
        r.is_associative == associative_on(*op, *close, test_values@),
        r.is_idempotent == idempotent_on(*op, *close, test_values@),
        r.is_join_semilattice == (r.is_associative && r.is_commutative && r.is_idempotent),
{
    let is_commutative = check_commutativity(op, close, test_values);
    let is_associative = check_associativity(op, close, test_values);
    let is_idempotent = check_idempotency(op, close, test_values);
    AciResult {
        is_associative,
        is_commutative,
        is_idempotent,
        is_join_semilattice: is_associative && is_commutative && is_idempotent,
    }
}

/// The left fold of `op` over `s`, starting from `acc`.
pub open spec fn fold_op<T, F: Fn(T, T) -> T>(op: F, acc: T, s: Seq<T>) -> T
    decreases s.len(),
{
    if s.len() == 0 {
        acc
    } else {
        fold_op(op, op_of(op, acc, s[0]), s.drop_first())
    }
}

/// Computes the join of the values with the operation `op`: the left fold
/// of `op` over the values, starting from the first; the default value (zero)
/// when there are none.
pub fn join_reduce<T: Copy + Default, F: Fn(T, T) -> T>(op: &F, values: &[T]) -> (r: T)
    requires
        pure_op(*op),
    ensures
        values@.len() == 0 ==> call_ensures(T::default, (), r),
        values@.len() > 0 ==> r == fold_op(*op, values@[0], values@.drop_first()),
{
    if values.len() == 0 {
        return T::default();
    }
    let n = values.len();
    let mut acc = values[0];
    let mut i: usize = 1;
    assert(values@.subrange(1, n as int) =~= values@.drop_first());
    while i < n
        invariant
            pure_op(*op),
            n == values@.len(),
            1 <= i <= n,
            fold_op(*op, values@[0], values@.drop_first()) == fold_op(
                *op,
                acc,
                values@.subrange(i as int, n as int),
            ),
        decreases n - i,
    {
        let v = values[i];
        let next = op(acc, v);
        proof {
            lemma_op_of(*op, acc, v, next);
            assert(values@.subrange(i as int, n as int).drop_first() =~= values@.subrange(
                i + 1,
                n as int,
            ));
        }
        acc = next;
        i = i + 1;
    }
    acc
}

/// The pairs `(a, b)` with `b` from `v` for which `op(a, b)` is close to
/// `b`, in the order of `v`.
pub open spec fn row_pairs<T, F: Fn(T, T) -> T, E: Fn(T, T) -> bool>(
    op: F,
    close: E,
    a: T,
    v: Seq<T>,
) -> Seq<(T, T)>
    decreases v.len(),
{
    if v.len() == 0 {
        Seq::empty()
    } else {
        let rest = row_pairs(op, close, a, v.drop_last());
        if rel_of(close, op_of(op, a, v.last()), v.last()) {
            rest.push((a, v.last()))
        } else {
            rest
        }
    }
}

/// The pairs `(a, b)`, `a` from `u` and `b` from `v`, with `a ≤ b` in the
/// order that `op` induces (`op(a, b)` close to `b`), row by row.
pub open spec fn order_pairs<T, F: Fn(T, T) -> T, E: Fn(T, T) -> bool>(
    op: F,
    close: E,
    u: Seq<T>,
    v: Seq<T>,
) -> Seq<(T, T)>
    decreases u.len(),
{
    if u.len() == 0 {
        Seq::empty()
    } else {
        order_pairs(op, close, u.drop_last(), v) + row_pairs(op, close, u.last(), v)
    }
}

/// The partial order that the join `op` induces on the test values:
/// the pairs `(a, b)` with `a ∨ b` close to `b`.
pub fn semilattice_order<T: Copy, F: Fn(T, T) -> T, E: Fn(T, T) -> bool>(
    op: &F,
    close: &E,
    values: &[T],
) -> (r: Vec<(T, T)>)
    requires
        pure_op(*op),
        pure_rel(*close),
    ensures
        r@ == order_pairs(*op, *close, values@, values@),
{
    let n = values.len();
    let mut order: Vec<(T, T)> = Vec::new();
    let mut i: usize = 0;
    while i < n
        invariant
            pure_op(*op),
            pure_rel(*close),
            n == values@.len(),
            i <= n,
            order@ == order_pairs(*op, *close, values@.take(i as int), values@),
        decreases n - i,
    {
        let a = values[i];
        let ghost before = order@;
        let mut j: usize = 0;
        while j < n
            invariant
                pure_op(*op),
                pure_rel(*close),
                n == values@.len(),
                i < n,
                j <= n,
                a == values@[i as int],
                order@ == before + row_pairs(*op, *close, a, values@.take(j as int)),
            decreases n - j,
        {
            let b = values[j];
            let x = op(a, b);
            let c = close(x, b);
            proof {
                lemma_op_of(*op, a, b, x);
                lemma_rel_of(*close, x, b, c);
                assert(values@.take(j + 1).drop_last() =~= values@.take(j as int));
            }
            if c {
                order.push((a, b));
            }
            j = j + 1;
        }
        proof {
            assert(values@.take(n as int) =~= values@);
            assert(values@.take(i + 1).drop_last() =~= values@.take(i as int));
        }
        i = i + 1;
    }
    assert(values@.take(n as int) =~= values@);
    order
}

/// Each test input with at least two values aggregates, reversed, to a
/// value close to its own aggregate.
pub open spec fn agg_commutative_on<T, A: Fn(&[T]) -> T, E: Fn(T, T) -> bool>(
    agg: A,
    close: E,
    inputs: Seq<Vec<T>>,
) -> bool {
    forall|k: int|
        0 <= k < inputs.len() && (#[trigger] inputs[k])@.len() >= 2 ==> rel_of(
            close,
            agg_of(agg, inputs[k]@.reverse()),
            agg_of(agg, inputs[k]@),
        )
}

/// Each test input with at least three values aggregates to a value close to
/// the aggregate of: the aggregate of its first two values, then the rest.
pub open spec fn agg_associative_on<T, A: Fn(&[T]) -> T, E: Fn(T, T) -> bool>(
    agg: A,
    close: E,
    inputs: Seq<Vec<T>>,
) -> bool {
    forall|k: int|
        0 <= k < inputs.len() && (#[trigger] inputs[k])@.len() >= 3 ==> rel_of(
            close,
            agg_of(
                agg,
                seq![agg_of(agg, inputs[k]@.take(2))] + inputs[k]@.skip(2),
            ),
            agg_of(agg, inputs[k]@),
        )
}

/// For each non-empty test input with first value `x`, `x` repeated
/// (as many times as the input is long, and at least three times)
/// aggregates to a value close to `x`.
pub open spec fn agg_idempotent_on<T, A: Fn(&[T]) -> T, E: Fn(T, T) -> bool>(
    agg: A,
    close: E,
    inputs: Seq<Vec<T>>,
) -> bool {
    forall|k: int|
        0 <= k < inputs.len() && (#[trigger] inputs[k])@.len() >= 1 ==> rel_of(
            close,
            agg_of(
                agg,
                Seq::new(
                    if inputs[k]@.len() >= 3 { inputs[k]@.len() } else { 3 },
                    |i: int| inputs[k]@[0],
                ),
            ),
            inputs[k]@[0],
        )
}

fn reversed<T: Copy>(xs: &[T]) -> (r: Vec<T>)
    ensures
        r@ == xs@.reverse(),
{
    let n = xs.len();
    let mut out: Vec<T> = Vec::new();
    let mut i: usize = 0;
    while i < n
        invariant
            n == xs@.len(),
            i <= n,
            out@ == xs@.reverse().take(i as int),
        decreases n - i,
    {
        out.push(xs[n - 1 - i]);
        i = i + 1;
        assert(out@ =~= xs@.reverse().take(i as int));
    }
    assert(xs@.reverse().take(n as int) =~= xs@.reverse());
    out
}

fn repeated<T: Copy>(x: T, m: usize) -> (r: Vec<T>)
    ensures
        r@ == Seq::new(m as nat, |i: int| x),
{
    let mut out: Vec<T> = Vec::new();
    let mut i: usize = 0;
    while i < m
        invariant
            i <= m,
            out@ == Seq::new(i as nat, |j: int| x),
        decreases m - i,
    {
        out.push(x);
        i = i + 1;
        assert(out@ =~= Seq::new(i as nat, |j: int| x));
    }
    out
}

/// Verifies the ACI properties of a multi-agent aggregation on the test
/// inputs. Each property compares with its own closeness relation:
/// `comm_close` for commutativity, `assoc_close` for associativity and
/// `idem_close` for idempotency.
pub fn verify_aci_aggregate<
    T: Copy,
    A: Fn(&[T]) -> T,
    C1: Fn(T, T) -> bool,
    C2: Fn(T, T) -> bool,
    C3: Fn(T, T) -> bool,
>(aggregate: &A, comm_close: &C1, assoc_close: &C2, idem_close: &C3, test_inputs: &[Vec<T>]) -> (r:
    AciResult)
    requires
        pure_agg(*aggregate),
        pure_rel(*comm_close),
        pure_rel(*assoc_close),
        pure_rel(*idem_close),
    ensures
        r.is_commutative == agg_commutative_on(*aggregate, *comm_close, test_inputs@),
        r.is_associative == agg_associative_on(*aggregate, *assoc_close, test_inputs@),
        r.is_idempotent == agg_idempotent_on(*aggregate, *idem_close, test_inputs@),
        r.is_join_semilattice == (r.is_associative && r.is_commutative && r.is_idempotent),
{
    let n = test_inputs.len();
    let mut is_commutative = true;
    let mut k: usize = 0;
    while k < n
        invariant
            pure_agg(*aggregate),
            pure_rel(*comm_close),
            n == test_inputs@.len(),
            k <= n,
            is_commutative == forall|q: int|
                0 <= q < k && (#[trigger] test_inputs@[q])@.len() >= 2 ==> rel_of(
                    *comm_close,
                    agg_of(*aggregate, test_inputs@[q]@.reverse()),
                    agg_of(*aggregate, test_inputs@[q]@),
                ),
        decreases n - k,
    {
        let xs = test_inputs[k].as_slice();
        if xs.len() >= 2 {
            let base = aggregate(xs);
            let rev = reversed(xs);
            let rs = rev.as_slice();
            let other = aggregate(rs);
            let c = comm_close(other, base);
            proof {
                lemma_agg_of(*aggregate, xs, base);
                lemma_agg_of(*aggregate, rs, other);
                lemma_rel_of(*comm_close, other, base, c);
            }
            is_commutative = is_commutative && c;
        }
        k = k + 1;
    }
    let mut is_associative = true;
    let mut k: usize = 0;
    while k < n
        invariant
            pure_agg(*aggregate),
            pure_rel(*assoc_close),
            n == test_inputs@.len(),
            k <= n,
            is_associative == forall|q: int|
                0 <= q < k && (#[trigger] test_inputs@[q])@.len() >= 3 ==> rel_of(
                    *assoc_close,
                    agg_of(
                        *aggregate,
                        seq![agg_of(*aggregate, test_inputs@[q]@.take(2))] + test_inputs@[q]@.skip(
                            2,
                        ),
                    ),
                    agg_of(*aggregate, test_inputs@[q]@),
                ),
        decreases n - k,
    {
        let xs = test_inputs[k].as_slice();
        if xs.len() >= 3 {
            let full = aggregate(xs);
            let first_two = slice_prefix(xs, 2);
            let sub = aggregate(first_two);
            let mut rebuilt: Vec<T> = Vec::new();
            rebuilt.push(sub);
            let mut i: usize = 2;
            while i < xs.len()
                invariant
                    2 <= i <= xs@.len(),
                    rebuilt@ == seq![sub] + xs@.subrange(2, i as int),
                decreases xs.len() - i,
            {
                rebuilt.push(xs[i]);
                i = i + 1;
                assert(rebuilt@ =~= seq![sub] + xs@.subrange(2, i as int));
            }
            let rb = rebuilt.as_slice();
            let other = aggregate(rb);
            let c = assoc_close(other, full);
            proof {
                assert(xs@.subrange(2, xs@.len() as int) =~= xs@.skip(2));
                lemma_agg_of(*aggregate, xs, full);
                lemma_agg_of(*aggregate, first_two, sub);
                lemma_agg_of(*aggregate, rb, other);
                lemma_rel_of(*assoc_close, other, full, c);
            }
            is_associative = is_associative && c;
        }
        k = k + 1;
    }
    let mut is_idempotent = true;
    let mut k: usize = 0;
    while k < n
        invariant
            pure_agg(*aggregate),
            pure_rel(*idem_close),
            n == test_inputs@.len(),
            k <= n,
            is_idempotent == forall|q: int|
                0 <= q < k && (#[trigger] test_inputs@[q])@.len() >= 1 ==> rel_of(
                    *idem_close,
                    agg_of(
                        *aggregate,
                        Seq::new(
                            if test_inputs@[q]@.len() >= 3 {
                                test_inputs@[q]@.len()
                            } else {
                                3
                            },
                            |i: int| test_inputs@[q]@[0],
                        ),
                    ),
                    test_inputs@[q]@[0],
                ),
        decreases n - k,
    {
        let xs = test_inputs[k].as_slice();
        if xs.len() >= 1 {
            let x = xs[0];
            let m = if xs.len() >= 3 {
                xs.len()
            } else {
                3
            };
            let dup = repeated(x, m);
            let ds = dup.as_slice();
            let v = aggregate(ds);
            let c = idem_close(v, x);
            proof {
                lemma_agg_of(*aggregate, ds, v);
                lemma_rel_of(*idem_close, v, x, c);
            }
            is_idempotent = is_idempotent && c;
        }
        k = k + 1;
    }
    AciResult {
        is_associative,
        is_commutative,
        is_idempotent,
        is_join_semilattice: is_associative && is_commutative && is_idempotent,
    }
}

fn slice_prefix<T>(xs: &[T], m: usize) -> (r: &[T])
    requires
        m <= xs@.len(),
    ensures
        r@ == xs@.take(m as int),
{
    let (a, _b) = xs.split_at(m);
    a
}

/// Commutativity is checked on every pair of test values: it holds exactly
/// when `op(a, b)` is close to `op(b, a)` for all test values `a`, `b`.
pub proof fn law_commutativity_checks_every_pair<T, F: Fn(T, T) -> T, E: Fn(T, T) -> bool>(
    op: F,
    close: E,
    v: Seq<T>,
)
    ensures
        commutative_on(op, close, v) <==> (forall|a: T, b: T|
            #![trigger v.contains(a), v.contains(b)]
            v.contains(a) && v.contains(b) ==> rel_of(close, op_of(op, a, b), op_of(op, b, a))),
{
    if commutative_on(op, close, v) {
        assert forall|a: T, b: T| v.contains(a) && v.contains(b) implies rel_of(
            close,
            op_of(op, a, b),
            op_of(op, b, a),
        ) by {
            let i = choose|i: int| 0 <= i < v.len() && v[i] == a;
            let j = choose|j: int| 0 <= j < v.len() && v[j] == b;
            assert(v[i] == a && v[j] == b);
        }
    }
    if forall|a: T, b: T|
        #![trigger v.contains(a), v.contains(b)]
        v.contains(a) && v.contains(b) ==> rel_of(close, op_of(op, a, b), op_of(op, b, a)) {
        assert forall|i: int, j: int| 0 <= i < v.len() && 0 <= j < v.len() implies rel_of(
            close,
            op_of(op, #[trigger] v[i], #[trigger] v[j]),
            op_of(op, v[j], v[i]),
        ) by {
            assert(v.contains(v[i]) && v.contains(v[j]));
        }
    }
}

/// Associativity is checked on every triple of test values: it holds
/// exactly when `op(op(a, b), c)` is close to `op(a, op(b, c))` for all test
/// values `a`, `b`, `c`.
pub proof fn law_associativity_checks_every_triple<T, F: Fn(T, T) -> T, E: Fn(T, T) -> bool>(
    op: F,
    close: E,
    v: Seq<T>,
)
    ensures
        associative_on(op, close, v) <==> (forall|a: T, b: T, c: T|
            #![trigger v.contains(a), v.contains(b), v.contains(c)]
            v.contains(a) && v.contains(b) && v.contains(c) ==> rel_of(
                close,
                op_of(op, op_of(op, a, b), c),
                op_of(op, a, op_of(op, b, c)),
            )),
{
    if associative_on(op, close, v) {
        assert forall|a: T, b: T, c: T| v.contains(a) && v.contains(b) && v.contains(c) implies rel_of(
            close,
            op_of(op, op_of(op, a, b), c),
            op_of(op, a, op_of(op, b, c)),
        ) by {
            let i = choose|i: int| 0 <= i < v.len() && v[i] == a;
            let j = choose|j: int| 0 <= j < v.len() && v[j] == b;
            let k = choose|k: int| 0 <= k < v.len() && v[k] == c;
            assert(v[i] == a && v[j] == b && v[k] == c);
        }
    }
    if forall|a: T, b: T, c: T|
        #![trigger v.contains(a), v.contains(b), v.contains(c)]
        v.contains(a) && v.contains(b) && v.contains(c) ==> rel_of(
            close,
            op_of(op, op_of(op, a, b), c),
            op_of(op, a, op_of(op, b, c)),
        ) {
        assert forall|i: int, j: int, k: int|
            0 <= i < v.len() && 0 <= j < v.len() && 0 <= k < v.len() implies rel_of(
            close,
            op_of(op, op_of(op, #[trigger] v[i], #[trigger] v[j]), #[trigger] v[k]),
            op_of(op, v[i], op_of(op, v[j], v[k])),
        ) by {
            assert(v.contains(v[i]) && v.contains(v[j]) && v.contains(v[k]));
        }
    }
}

/// Idempotency is checked on every test value: it holds exactly when
/// `op(a, a)` is close to `a` for all test values `a`.
pub proof fn law_idempotency_checks_every_value<T, F: Fn(T, T) -> T, E: Fn(T, T) -> bool>(
    op: F,
    close: E,
    v: Seq<T>,
)
    ensures
        idempotent_on(op, close, v) <==> (forall|a: T| #[trigger] v.contains(a) ==> rel_of(close, op_of(op, a, a), a)),
{
    if idempotent_on(op, close, v) {
        assert forall|a: T| #[trigger] v.contains(a) implies rel_of(close, op_of(op, a, a), a) by {
            let i = choose|i: int| 0 <= i < v.len() && v[i] == a;
            assert(v[i] == a);
        }
    }
    if forall|a: T| #[trigger] v.contains(a) ==> rel_of(close, op_of(op, a, a), a) {
        assert forall|i: int| 0 <= i < v.len() implies rel_of(close, op_of(op, v[i], v[i]), #[trigger] v[i]) by {
            assert(v.contains(v[i]));
        }
    }
}

/// The fold takes every value, in order: folding nothing gives the start,
/// and folding one more value at the end joins it to the fold of the rest.
pub proof fn law_fold_joins_each_value<T, F: Fn(T, T) -> T>(op: F, acc: T, s: Seq<T>, x: T)
    ensures
        fold_op(op, acc, Seq::<T>::empty()) == acc,
        fold_op(op, acc, s.push(x)) == op_of(op, fold_op(op, acc, s), x),
    decreases s.len(),
{
    if s.len() == 0 {
        assert(s.push(x).drop_first() =~= Seq::<T>::empty());
        assert(s.push(x)[0] == x);
        assert(fold_op(op, op_of(op, acc, x), Seq::<T>::empty()) == op_of(op, acc, x));
        assert(fold_op(op, acc, s) == acc);
    } else {
        let acc1 = op_of(op, acc, s[0]);
        law_fold_joins_each_value(op, acc1, s.drop_first(), x);
        assert(s.push(x).drop_first() =~= s.drop_first().push(x));
        assert(s.push(x)[0] == s[0]);
    }
}

/// The join of two or more values is the join of all but the last, joined
/// with the last.
pub proof fn law_join_takes_the_last_value<T, F: Fn(T, T) -> T>(op: F, values: Seq<T>)
    requires
        values.len() >= 2,
    ensures
        fold_op(op, values[0], values.drop_first()) == op_of(
            op,
            fold_op(op, values[0], values.drop_last().drop_first()),
            values.last(),
        ),
{
    let rest = values.drop_last().drop_first();
    law_fold_joins_each_value(op, values[0], rest, values.last());
    assert(rest.push(values.last()) =~= values.drop_first());
}

proof fn lemma_row_pairs_members<T, F: Fn(T, T) -> T, E: Fn(T, T) -> bool>(op: F, close: E, a: T, v: Seq<T>)
    ensures
        forall|x: (T, T)|
            #[trigger] row_pairs(op, close, a, v).contains(x) <==> (x.0 == a && v.contains(x.1) && rel_of(
                close,
                op_of(op, x.0, x.1),
                x.1,
            )),
    decreases v.len(),
{
    if v.len() > 0 {
        let d = v.drop_last();
        lemma_row_pairs_members(op, close, a, d);
        let rest = row_pairs(op, close, a, d);
        assert forall|x: (T, T)|
            #[trigger] row_pairs(op, close, a, v).contains(x) <==> (x.0 == a && v.contains(x.1) && rel_of(
                close,
                op_of(op, x.0, x.1),
                x.1,
            )) by {
            assert(v.contains(x.1) <==> (d.contains(x.1) || x.1 == v.last())) by {
                if v.contains(x.1) {
                    let i = choose|i: int| 0 <= i < v.len() && v[i] == x.1;
                    if i < d.len() {
                        assert(d[i] == x.1);
                    }
                }
                if d.contains(x.1) {
                    let i = choose|i: int| 0 <= i < d.len() && d[i] == x.1;
                    assert(v[i] == x.1);
                }
                assert(v[v.len() - 1] == v.last());
            }
            if rel_of(close, op_of(op, a, v.last()), v.last()) {
                let r = rest.push((a, v.last()));
                assert(r.contains(x) <==> (rest.contains(x) || x == (a, v.last()))) by {
                    if r.contains(x) {
                        let i = choose|i: int| 0 <= i < r.len() && r[i] == x;
                        if i < rest.len() {
                            assert(rest[i] == x);
                        }
                    }
                    if rest.contains(x) {
                        let i = choose|i: int| 0 <= i < rest.len() && rest[i] == x;
                        assert(r[i] == x);
                    }
                    assert(r[r.len() - 1] == (a, v.last()));
                }
            }
        }
    }
}

/// The order that the join induces holds exactly the pairs `(a, b)` of test
/// values with `op(a, b)` close to `b`.
pub proof fn law_order_pairs_are_the_ordered_pairs<T, F: Fn(T, T) -> T, E: Fn(T, T) -> bool>(
    op: F,
    close: E,
    u: Seq<T>,
    v: Seq<T>,
)
    ensures
        forall|x: (T, T)|
            #[trigger] order_pairs(op, close, u, v).contains(x) <==> (u.contains(x.0) && v.contains(x.1) && rel_of(
                close,
                op_of(op, x.0, x.1),
                x.1,
            )),
    decreases u.len(),
{
    if u.len() > 0 {
        let d = u.drop_last();
        law_order_pairs_are_the_ordered_pairs(op, close, d, v);
        lemma_row_pairs_members(op, close, u.last(), v);
        let left = order_pairs(op, close, d, v);
        let right = row_pairs(op, close, u.last(), v);
        assert forall|x: (T, T)|
            #[trigger] order_pairs(op, close, u, v).contains(x) <==> (u.contains(x.0) && v.contains(x.1) && rel_of(
                close,
                op_of(op, x.0, x.1),
                x.1,
            )) by {
            let all = left + right;
            assert(all.contains(x) <==> (left.contains(x) || right.contains(x))) by {
                if all.contains(x) {
                    let i = choose|i: int| 0 <= i < all.len() && all[i] == x;
                    if i < left.len() {
                        assert(left[i] == x);
                    } else {
                        assert(right[i - left.len()] == x);
                    }
                }
                if left.contains(x) {
                    let i = choose|i: int| 0 <= i < left.len() && left[i] == x;
                    assert(all[i] == x);
                }
                if right.contains(x) {
                    let i = choose|i: int| 0 <= i < right.len() && right[i] == x;
                    assert(all[left.len() + i] == x);
                }
            }
            assert(u.contains(x.0) <==> (d.contains(x.0) || x.0 == u.last())) by {
                if u.contains(x.0) {
                    let i = choose|i: int| 0 <= i < u.len() && u[i] == x.0;
                    if i < d.len() {
                        assert(d[i] == x.0);
                    }
                }
                if d.contains(x.0) {
                    let i = choose|i: int| 0 <= i < d.len() && d[i] == x.0;
                    assert(u[i] == x.0);
                }
                assert(u[u.len() - 1] == u.last());
            }
        }
    }
}

/// Commutativity of an aggregate is checked on every test input of two or
/// more values: it holds exactly when each such input, reversed, aggregates
/// to a value close to its own aggregate.
pub proof fn law_agg_commutativity_checks_every_input<T, A: Fn(&[T]) -> T, E: Fn(T, T) -> bool>(
    agg: A,
    close: E,
    inputs: Seq<Vec<T>>,
)
    ensures
        agg_commutative_on(agg, close, inputs) <==> (forall|x: Vec<T>|
            #[trigger] inputs.contains(x) && x@.len() >= 2 ==> rel_of(
                close,
                agg_of(agg, x@.reverse()),
                agg_of(agg, x@),
            )),
{
    if agg_commutative_on(agg, close, inputs) {
        assert forall|x: Vec<T>| #[trigger] inputs.contains(x) && x@.len() >= 2 implies rel_of(
            close,
            agg_of(agg, x@.reverse()),
            agg_of(agg, x@),
        ) by {
            let k = choose|k: int| 0 <= k < inputs.len() && inputs[k] == x;
            assert(inputs[k] == x);
        }
    }
    if forall|x: Vec<T>|
        #[trigger] inputs.contains(x) && x@.len() >= 2 ==> rel_of(close, agg_of(agg, x@.reverse()), agg_of(agg, x@)) {
        assert forall|k: int| 0 <= k < inputs.len() && (#[trigger] inputs[k])@.len() >= 2 implies rel_of(
            close,
            agg_of(agg, inputs[k]@.reverse()),
            agg_of(agg, inputs[k]@),
        ) by {
            assert(inputs.contains(inputs[k]));
        }
    }
}

/// Associativity of an aggregate is checked on every test input of three or
/// more values: it holds exactly when each such input aggregates to a value
/// close to the aggregate of its first two values' aggregate followed by the
/// rest.
pub proof fn law_agg_associativity_checks_every_input<T, A: Fn(&[T]) -> T, E: Fn(T, T) -> bool>(
    agg: A,
    close: E,
    inputs: Seq<Vec<T>>,
)
    ensures
        agg_associative_on(agg, close, inputs) <==> (forall|x: Vec<T>|
            #[trigger] inputs.contains(x) && x@.len() >= 3 ==> rel_of(
                close,
                agg_of(agg, seq![agg_of(agg, seq![x@[0], x@[1]])] + x@.subrange(2, x@.len() as int)),
                agg_of(agg, x@),
            )),
{
    assert forall|x: Vec<T>| x@.len() >= 3 implies #[trigger] x@.take(2) == seq![x@[0], x@[1]] && x@.skip(2)
        == x@.subrange(2, x@.len() as int) by {
        assert(x@.take(2) =~= seq![x@[0], x@[1]]);
        assert(x@.skip(2) =~= x@.subrange(2, x@.len() as int));
    }
    if agg_associative_on(agg, close, inputs) {
        assert forall|x: Vec<T>| #[trigger] inputs.contains(x) && x@.len() >= 3 implies rel_of(
            close,
            agg_of(agg, seq![agg_of(agg, seq![x@[0], x@[1]])] + x@.subrange(2, x@.len() as int)),
            agg_of(agg, x@),
        ) by {
            let k = choose|k: int| 0 <= k < inputs.len() && inputs[k] == x;
            assert(inputs[k] == x);
            assert(x@.take(2) == seq![x@[0], x@[1]]);
        }
    }
    if forall|x: Vec<T>|
        #[trigger] inputs.contains(x) && x@.len() >= 3 ==> rel_of(
            close,
            agg_of(agg, seq![agg_of(agg, seq![x@[0], x@[1]])] + x@.subrange(2, x@.len() as int)),
            agg_of(agg, x@),
        ) {
        assert forall|k: int| 0 <= k < inputs.len() && (#[trigger] inputs[k])@.len() >= 3 implies rel_of(
            close,
            agg_of(agg, seq![agg_of(agg, inputs[k]@.take(2))] + inputs[k]@.skip(2)),
            agg_of(agg, inputs[k]@),
        ) by {
            assert(inputs.contains(inputs[k]));
            assert(inputs[k]@.take(2) == seq![inputs[k]@[0], inputs[k]@[1]]);
        }
    }
}

/// Idempotency of an aggregate is checked on every nonempty test input: it
/// holds exactly when, for each, its first value repeated as many times as
/// the input is long (at least three times) aggregates to a value close to
/// that first value.
pub proof fn law_agg_idempotency_checks_every_input<T, A: Fn(&[T]) -> T, E: Fn(T, T) -> bool>(
    agg: A,
    close: E,
    inputs: Seq<Vec<T>>,
)
    ensures
        agg_idempotent_on(agg, close, inputs) <==> (forall|x: Vec<T>|
            #[trigger] inputs.contains(x) && x@.len() >= 1 ==> rel_of(
                close,
                agg_of(agg, Seq::new(if x@.len() >= 3 { x@.len() } else { 3 }, |i: int| x@[0])),
                x@[0],
            )),
{
    if agg_idempotent_on(agg, close, inputs) {
        assert forall|x: Vec<T>| #[trigger] inputs.contains(x) && x@.len() >= 1 implies rel_of(
            close,
            agg_of(agg, Seq::new(if x@.len() >= 3 { x@.len() } else { 3 }, |i: int| x@[0])),
            x@[0],
        ) by {
            let k = choose|k: int| 0 <= k < inputs.len() && inputs[k] == x;
            assert(inputs[k] == x);
        }
    }
    if forall|x: Vec<T>|
        #[trigger] inputs.contains(x) && x@.len() >= 1 ==> rel_of(
            close,
            agg_of(agg, Seq::new(if x@.len() >= 3 { x@.len() } else { 3 }, |i: int| x@[0])),
            x@[0],
        ) {
        assert forall|k: int| 0 <= k < inputs.len() && (#[trigger] inputs[k])@.len() >= 1 implies rel_of(
            close,
            agg_of(
                agg,
                Seq::new(if inputs[k]@.len() >= 3 { inputs[k]@.len() } else { 3 }, |i: int| inputs[k]@[0]),
            ),
            inputs[k]@[0],
        ) by {
            assert(inputs.contains(inputs[k]));
        }
    }
}

} // verus!

//! Functions handed to the checkers as arguments. A checker asks that such a
//! function accept every argument and give the same result for the same
//! arguments; the result is then named by a spec function, so that what the
//! checker decides can be stated exactly.
use vstd::prelude::*;

verus! {

/// `f` is a total, deterministic binary operation.
pub open spec fn pure_op<T, F: Fn(T, T) -> T>(f: F) -> bool {
    &&& forall|a: T, b: T| call_requires(f, (a, b))
    &&& forall|a: T, b: T, x: T, y: T|
        #[trigger] call_ensures(f, (a, b), x) && #[trigger] call_ensures(f, (a, b), y) ==> x == y
}

/// The result of the binary operation `f` on `a` and `b`.
pub open spec fn op_of<T, F: Fn(T, T) -> T>(f: F, a: T, b: T) -> T {
    choose|x: T| call_ensures(f, (a, b), x)
}

pub proof fn lemma_op_of<T, F: Fn(T, T) -> T>(f: F, a: T, b: T, x: T)
    requires
        pure_op(f),
        call_ensures(f, (a, b), x),
    ensures
        x == op_of(f, a, b),
{
    let y = op_of(f, a, b);
    assert(call_ensures(f, (a, b), y));
}

/// `f` is a total, deterministic binary relation.
pub open spec fn pure_rel<T, F: Fn(T, T) -> bool>(f: F) -> bool {
    &&& forall|a: T, b: T| call_requires(f, (a, b))
    &&& forall|a: T, b: T, x: bool, y: bool|
        #[trigger] call_ensures(f, (a, b), x) && #[trigger] call_ensures(f, (a, b), y) ==> x == y
}

/// Whether the relation `f` holds of `a` and `b`.
pub open spec fn rel_of<T, F: Fn(T, T) -> bool>(f: F, a: T, b: T) -> bool {
    choose|x: bool| call_ensures(f, (a, b), x)
}

pub proof fn lemma_rel_of<T, F: Fn(T, T) -> bool>(f: F, a: T, b: T, x: bool)
    requires
        pure_rel(f),
        call_ensures(f, (a, b), x),
    ensures
        x == rel_of(f, a, b),
{
    let y = rel_of(f, a, b);
    assert(call_ensures(f, (a, b), y));
}

/// `f` is a total aggregate of a slice whose result depends on the slice's
/// contents only.
pub open spec fn pure_agg<T, F: Fn(&[T]) -> T>(f: F) -> bool {
    &&& forall|s: &[T]| call_requires(f, (s,))
    &&& forall|s1: &[T], s2: &[T], x: T, y: T|
        s1@ == s2@ && #[trigger] call_ensures(f, (s1,), x) && #[trigger] call_ensures(f, (s2,), y)
            ==> x == y
}

/// The aggregate `f` of the values `s`.
pub open spec fn agg_of<T, F: Fn(&[T]) -> T>(f: F, s: Seq<T>) -> T {
    (choose|x: T, sl: &[T]| #[trigger] call_ensures(f, (sl,), x) && sl@ == s).0
}

pub proof fn lemma_agg_of<T, F: Fn(&[T]) -> T>(f: F, sl: &[T], x: T)
    requires
        pure_agg(f),
        call_ensures(f, (sl,), x),
    ensures
        x == agg_of(f, sl@),
{
    let (y, sl2) = choose|y: T, sl2: &[T]| #[trigger] call_ensures(f, (sl2,), y) && sl2@ == sl@;
}

/// `f` is a total function of a value and a slice, whose result depends on
/// the slice's contents only.
pub open spec fn pure_scalar_rule<T, F: Fn(T, &[T]) -> T>(f: F) -> bool {
    &&& forall|a: T, s: &[T]| call_requires(f, (a, s))
    &&& forall|a: T, s1: &[T], s2: &[T], x: T, y: T|
        s1@ == s2@ && #[trigger] call_ensures(f, (a, s1), x) && #[trigger] call_ensures(
            f,
            (a, s2),
            y,
        ) ==> x == y
}

/// The result of `f` on the value `a` and the values `s`.
pub open spec fn scalar_rule_of<T, F: Fn(T, &[T]) -> T>(f: F, a: T, s: Seq<T>) -> T {
    (choose|x: T, sl: &[T]| #[trigger] call_ensures(f, (a, sl), x) && sl@ == s).0
}

pub proof fn lemma_scalar_rule_of<T, F: Fn(T, &[T]) -> T>(f: F, a: T, sl: &[T], x: T)
    requires
        pure_scalar_rule(f),
        call_ensures(f, (a, sl), x),
    ensures
        x == scalar_rule_of(f, a, sl@),
{
    let (y, sl2) = choose|y: T, sl2: &[T]| #[trigger] call_ensures(f, (a, sl2), y) && sl2@ == sl@;
}

} // verus!

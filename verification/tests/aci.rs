use lau_calm_noether::aci::join_reduce;
use lau_calm_noether::aci::semilattice_order;
use lau_calm_noether::aci::verify_aci;
use lau_calm_noether::aci::verify_aci_aggregate;
use lau_calm_noether::aci::AciResult;

fn close(x: f64, y: f64) -> bool {
    !((x - y).abs() > 1e-10)
}

fn test_vals() -> Vec<f64> {
    vec![0.0, 1.0, 2.0, 3.0, 5.0]
}

fn aggregate_check(
    aggregate: &dyn Fn(&[f64]) -> f64,
    test_inputs: &[Vec<f64>],
) -> AciResult {
    verify_aci_aggregate(
        &aggregate,
        &|x: f64, y: f64| !((x - y).abs() > 1e-10),
        &|x: f64, y: f64| (x - y).abs() < 1e-8,
        &|x: f64, y: f64| (x - y).abs() < 1e-10,
        test_inputs,
    )
}

#[test]
fn test_max_is_aci() {
    let result = verify_aci(&|a: f64, b: f64| a.max(b), &close, &test_vals());
    assert!(result.is_join_semilattice);
    assert!(result.is_associative);
    assert!(result.is_commutative);
    assert!(result.is_idempotent);
}

#[test]
fn test_min_is_aci() {
    let result = verify_aci(&|a: f64, b: f64| a.min(b), &close, &test_vals());
    assert!(result.is_join_semilattice);
}

#[test]
fn test_sum_not_idempotent() {
    let result = verify_aci(&|a: f64, b: f64| a + b, &close, &test_vals());
    assert!(!result.is_idempotent);
    assert!(result.is_associative);
    assert!(result.is_commutative);
    assert!(!result.is_join_semilattice);
}

#[test]
fn test_subtraction_not_commutative() {
    let result = verify_aci(&|a: f64, b: f64| a - b, &close, &test_vals());
    assert!(!result.is_commutative);
}

#[test]
fn test_join_reduce_max() {
    let result = join_reduce(&|a: f64, b: f64| a.max(b), &[1.0, 3.0, 2.0, 5.0, 4.0]);
    assert!((result - 5.0).abs() < 1e-10);
}

#[test]
fn test_join_reduce_min() {
    let result = join_reduce(&|a: f64, b: f64| a.min(b), &[3.0, 1.0, 2.0]);
    assert!((result - 1.0).abs() < 1e-10);
}

#[test]
fn test_semilattice_order_max() {
    let order = semilattice_order(
        &|a: f64, b: f64| a.max(b),
        &|x: f64, b: f64| (x - b).abs() < 1e-10,
        &[1.0, 2.0, 3.0],
    );
    // 1 ≤ 1, 1 ≤ 2, 1 ≤ 3, 2 ≤ 2, 2 ≤ 3, 3 ≤ 3
    assert!(order.contains(&(1.0, 2.0)));
    assert!(order.contains(&(1.0, 3.0)));
    assert!(order.contains(&(2.0, 3.0)));
    assert!(!order.contains(&(3.0, 1.0)));
}

#[test]
fn test_aci_result_display() {
    let r = AciResult {
        is_associative: true,
        is_commutative: true,
        is_idempotent: true,
        is_join_semilattice: true,
    };
    assert!(r.to_string().contains("join-semilattice: true"));
}

#[test]
fn test_verify_aci_aggregate_max() {
    let vals = vec![vec![1.0, 2.0, 3.0], vec![5.0, 1.0, 3.0]];
    let result = aggregate_check(
        &|xs: &[f64]| xs.iter().cloned().fold(f64::NEG_INFINITY, f64::max),
        &vals,
    );
    assert!(result.is_join_semilattice);
}

#[test]
fn test_verify_aci_aggregate_sum_not_idempotent() {
    let vals = vec![vec![1.0, 2.0, 3.0]];
    let result = aggregate_check(&|xs: &[f64]| xs.iter().sum(), &vals);
    assert!(!result.is_join_semilattice);
    assert!(!result.is_idempotent);
}

#[test]
fn test_join_reduce_empty() {
    let result = join_reduce(&|a: f64, b: f64| a.max(b), &[]);
    assert!((result).abs() < 1e-10);
}

#[test]
fn test_join_reduce_single() {
    let result = join_reduce(&|a: f64, b: f64| a.max(b), &[42.0]);
    assert!((result - 42.0).abs() < 1e-10);
}

#[test]
fn aci_text_is_exact() {
    let r = AciResult {
        is_associative: true,
        is_commutative: false,
        is_idempotent: true,
        is_join_semilattice: false,
    };
    assert_eq!(
        r.to_string(),
        "AciResult { assoc: true, comm: false, idem: true, join-semilattice: false }"
    );
}

#[test]
fn semilattice_order_lists_pairs_row_by_row() {
    let order = semilattice_order(
        &|a: f64, b: f64| a.max(b),
        &|x: f64, b: f64| (x - b).abs() < 1e-10,
        &[1.0, 2.0, 3.0],
    );
    assert_eq!(
        order,
        vec![(1.0, 1.0), (1.0, 2.0), (1.0, 3.0), (2.0, 2.0), (2.0, 3.0), (3.0, 3.0)]
    );
}

#[test]
fn join_reduce_folds_from_the_left() {
    // (((8 - 3) - 2) - 1) = 2, while a right fold would give 8 - (3 - (2 - 1)) = 6.
    let result = join_reduce(&|a: f64, b: f64| a - b, &[8.0, 3.0, 2.0, 1.0]);
    assert!((result - 2.0).abs() < 1e-10);
}

#[test]
fn aggregate_associativity_uses_first_two() {
    // The mean is commutative but not associative in the tested sense.
    let vals = vec![vec![1.0, 2.0, 6.0]];
    let result = aggregate_check(&|xs: &[f64]| xs.iter().sum::<f64>() / xs.len() as f64, &vals);
    assert!(result.is_commutative);
    assert!(!result.is_associative);
    assert!(result.is_idempotent);
}

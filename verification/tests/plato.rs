use lau_calm_noether::plato::plato_report;
use lau_calm_noether::plato::PlatoVerificationResult;

fn result(name: &str, is_calm: bool, passed: bool) -> PlatoVerificationResult {
    PlatoVerificationResult {
        rule_name: name.to_string(),
        is_calm,
        is_permutation_symmetric: is_calm,
        has_conserved_charge: is_calm,
        is_monotone: true,
        passes_partition_test: true,
        symmetry_description: "S_3".to_string(),
        conserved_charges: vec!["sum".to_string()],
        details: "ok".to_string(),
        passed,
    }
}

#[test]
fn test_verification_result_display() {
    let r = PlatoVerificationResult {
        rule_name: "test".to_string(),
        is_calm: true,
        is_permutation_symmetric: true,
        has_conserved_charge: true,
        is_monotone: true,
        passes_partition_test: true,
        symmetry_description: "S_3".to_string(),
        conserved_charges: vec!["sum".to_string()],
        details: "ok".to_string(),
        passed: true,
    };
    assert!(r.to_string().contains("CALM: true"));
}

#[test]
fn report_lists_each_result_and_counts_passes() {
    let results = vec![result("consensus-max", true, true), result("leader-follower", false, false)];
    let report = plato_report(&results);
    assert!(report.contains("PLATO Fleet"));
    assert!(report.contains("Summary"));
    assert_eq!(
        report,
        "=== PLATO Fleet Learning Rule Verification Report ===\n\n\
         ✅ PASS: consensus-max (CALM)\n  Details: ok\n\n\
         ❌ FAIL: leader-follower (non-CALM)\n  Details: ok\n\n\
         \nSummary: 1/2 rules verified correctly"
    );
}

#[test]
fn report_counts_in_decimal() {
    let results: Vec<PlatoVerificationResult> = (0..12).map(|i| result("r", true, i != 3)).collect();
    let report = plato_report(&results);
    assert!(report.ends_with("Summary: 11/12 rules verified correctly"));
    let empty = plato_report(&[]);
    assert!(empty.ends_with("\nSummary: 0/0 rules verified correctly"));
}

#[test]
fn verification_text_is_exact() {
    let r = result("x", false, true);
    assert_eq!(
        r.to_string(),
        "PlatoVerification { rule: x, CALM: false, symmetric: false, conserved: false, monotone: true, partition: true, passed: true }"
    );
}

use lau_calm_noether::plato::verification_result;

#[test]
fn verification_result_decides_calm_and_passed() {
    let r = verification_result(
        "consensus-max".to_string(),
        true,
        true,
        "S_3".to_string(),
        vec!["sum".to_string(), "max".to_string()],
        true,
        false,
    );
    assert!(r.is_calm);
    assert!(r.has_conserved_charge);
    assert!(r.passed);
    assert_eq!(r.details, "Symmetry: S_3, Charges: [\"sum\", \"max\"], Monotone: true, Partition: false");

    let none = verification_result("x".to_string(), true, true, "S_2".to_string(), vec![], false, true);
    assert!(!none.is_calm);
    assert!(!none.passed);
    assert_eq!(none.details, "Symmetry: S_2, Charges: [], Monotone: false, Partition: true");
}

//! Verification of fleet learning rules, and its report.
use vstd::prelude::*;
use vstd::string::StringExecFns;
use crate::text::bool_str;
use crate::text::bool_text;
use crate::text::decimal_string;
use crate::text::decimal_text;

verus! {

/// Verification result for a fleet rule.
#[derive(Debug, Clone)]
pub struct PlatoVerificationResult {
    pub rule_name: String,
    pub is_calm: bool,
    pub is_permutation_symmetric: bool,
    pub has_conserved_charge: bool,
    pub is_monotone: bool,
    pub passes_partition_test: bool,
    pub symmetry_description: String,
    pub conserved_charges: Vec<String>,
    pub details: String,
    pub passed: bool,
}

/// The one-line text of a verification result.
pub open spec fn verification_text(r: PlatoVerificationResult) -> Seq<char> {
    "PlatoVerification { rule: "@ + r.rule_name@ + ", CALM: "@ + bool_text(r.is_calm)
        + ", symmetric: "@ + bool_text(r.is_permutation_symmetric) + ", conserved: "@ + bool_text(
        r.has_conserved_charge,
    ) + ", monotone: "@ + bool_text(r.is_monotone) + ", partition: "@ + bool_text(
        r.passes_partition_test,
    ) + ", passed: "@ + bool_text(r.passed) + " }"@
}

impl PlatoVerificationResult {
    /// The text of the value, as it is displayed.
    pub fn to_string(&self) -> (r: String)
        ensures
            r@ == verification_text(*self),
    {
        let mut s = String::from_str("PlatoVerification { rule: ");
        s.append(self.rule_name.as_str());
        s.append(", CALM: ");
        s.append(bool_str(self.is_calm));
        s.append(", symmetric: ");
        s.append(bool_str(self.is_permutation_symmetric));
        s.append(", conserved: ");
        s.append(bool_str(self.has_conserved_charge));
        s.append(", monotone: ");
        s.append(bool_str(self.is_monotone));
        s.append(", partition: ");
        s.append(bool_str(self.passes_partition_test));
        s.append(", passed: ");
        s.append(bool_str(self.passed));
        s.append(" }");
        s
    }
}

/// The text that `{:?}` gives a list of strings with the contents `names`
/// (brackets, each string quoted and escaped, separated by commas).
pub uninterp spec fn debug_list_text(names: Seq<Seq<char>>) -> Seq<char>;

/// The contents of a list of strings.
pub open spec fn names_of(names: Seq<String>) -> Seq<Seq<char>> {
    Seq::new(names.len(), |i: int| names[i]@)
}

/// Formats the list with std's `Debug` (`format!("{:?}", ..)`). The contract
/// claims that the text is a function of the strings' contents, and that an
/// empty list gives `[]`; how `Debug` quotes and escapes each string is left
/// unsaid.
#[verifier::external_body]
fn names_debug(names: &Vec<String>) -> (r: String)
    ensures
        r@ == debug_list_text(names_of(names@)),
        names@.len() == 0 ==> r@ == "[]"@,
{
    format!("{:?}", names)
}

/// The details line of a verification: the symmetry found, the conserved
/// charges (as `charges_text`), and the monotonicity and partition results.
pub open spec fn details_text(
    symmetry_description: Seq<char>,
    charges_text: Seq<char>,
    is_monotone: bool,
    passes_partition_test: bool,
) -> Seq<char> {
    "Symmetry: "@ + symmetry_description + ", Charges: "@ + charges_text + ", Monotone: "@
        + bool_text(is_monotone) + ", Partition: "@ + bool_text(passes_partition_test)
}

/// Builds the verification result of a rule from its check results, given
/// the text of the list of conserved charges: the rule is CALM when it is
/// permutation-symmetric and has a conserved charge, and it passes when that
/// verdict is the one expected.
pub fn verification_result_with_text(
    rule_name: String,
    expected_calm: bool,
    is_permutation_symmetric: bool,
    symmetry_description: String,
    conserved_charges: Vec<String>,
    charges_text: &str,
    is_monotone: bool,
    passes_partition_test: bool,
) -> (r: PlatoVerificationResult)
    ensures
        r.rule_name == rule_name,
        r.has_conserved_charge == (conserved_charges@.len() > 0),
        r.is_calm == (is_permutation_symmetric && conserved_charges@.len() > 0),
        r.passed == (r.is_calm == expected_calm),
        r.is_permutation_symmetric == is_permutation_symmetric,
        r.is_monotone == is_monotone,
        r.passes_partition_test == passes_partition_test,
        r.symmetry_description == symmetry_description,
        r.conserved_charges@ == conserved_charges@,
        r.details@ == details_text(
            symmetry_description@,
            charges_text@,
            is_monotone,
            passes_partition_test,
        ),
{
    let has_conserved_charge = conserved_charges.len() > 0;
    let is_calm = is_permutation_symmetric && has_conserved_charge;
    let mut details = String::from_str("Symmetry: ");
    details.append(symmetry_description.as_str());
    details.append(", Charges: ");
    details.append(charges_text);
    details.append(", Monotone: ");
    details.append(bool_str(is_monotone));
    details.append(", Partition: ");
    details.append(bool_str(passes_partition_test));
    PlatoVerificationResult {
        rule_name,
        is_calm,
        is_permutation_symmetric,
        has_conserved_charge,
        is_monotone,
        passes_partition_test,
        symmetry_description,
        conserved_charges,
        details,
        passed: is_calm == expected_calm,
    }
}

/// Builds the verification result of a rule from its check results: the
/// rule is CALM when it is permutation-symmetric and has a conserved charge,
/// and it passes when that verdict is the one expected.
pub fn verification_result(
    rule_name: String,
    expected_calm: bool,
    is_permutation_symmetric: bool,
    symmetry_description: String,
    conserved_charges: Vec<String>,
    is_monotone: bool,
    passes_partition_test: bool,
) -> (r: PlatoVerificationResult)
    ensures
        r.rule_name == rule_name,
        r.has_conserved_charge == (conserved_charges@.len() > 0),
        r.is_calm == (is_permutation_symmetric && conserved_charges@.len() > 0),
        r.passed == (r.is_calm == expected_calm),
        r.is_permutation_symmetric == is_permutation_symmetric,
        r.is_monotone == is_monotone,
        r.passes_partition_test == passes_partition_test,
        r.symmetry_description == symmetry_description,
        r.conserved_charges@ == conserved_charges@,
        r.details@ == details_text(
            symmetry_description@,
            debug_list_text(names_of(conserved_charges@)),
            is_monotone,
            passes_partition_test,
        ),
        conserved_charges@.len() == 0 ==> r.details@ == details_text(
            symmetry_description@,
            "[]"@,
            is_monotone,
            passes_partition_test,
        ),
{
    let text = names_debug(&conserved_charges);
    verification_result_with_text(
        rule_name,
        expected_calm,
        is_permutation_symmetric,
        symmetry_description,
        conserved_charges,
        text.as_str(),
        is_monotone,
        passes_partition_test,
    )
}

/// The two report lines of one result.
pub open spec fn entry_text(r: PlatoVerificationResult) -> Seq<char> {
    (if r.passed {
        "✅ PASS"@
    } else {
        "❌ FAIL"@
    }) + ": "@ + r.rule_name@ + " ("@ + (if r.is_calm {
        "CALM"@
    } else {
        "non-CALM"@
    }) + ")\n"@ + "  Details: "@ + r.details@ + "\n\n"@
}

/// The report lines of all results, in order.
pub open spec fn entries_text(rs: Seq<PlatoVerificationResult>) -> Seq<char>
    decreases rs.len(),
{
    if rs.len() == 0 {
        Seq::empty()
    } else {
        entries_text(rs.drop_last()) + entry_text(rs.last())
    }
}

/// How many results passed.
pub open spec fn passed_count(rs: Seq<PlatoVerificationResult>) -> nat
    decreases rs.len(),
{
    if rs.len() == 0 {
        0
    } else {
        passed_count(rs.drop_last()) + if rs.last().passed {
            1nat
        } else {
            0nat
        }
    }
}

/// The whole report: a header, the lines of each result, and a summary of
/// how many results passed.
pub open spec fn report_text(rs: Seq<PlatoVerificationResult>) -> Seq<char> {
    "=== PLATO Fleet Learning Rule Verification Report ===\n\n"@ + entries_text(rs)
        + "\nSummary: "@ + decimal_text(passed_count(rs)) + "/"@ + decimal_text(rs.len())
        + " rules verified correctly"@
}

proof fn lemma_passed_count_bound(rs: Seq<PlatoVerificationResult>)
    ensures
        passed_count(rs) <= rs.len(),
    decreases rs.len(),
{
    if rs.len() > 0 {
        lemma_passed_count_bound(rs.drop_last());
    }
}

/// Generates the verification report of the results.
pub fn plato_report(results: &[PlatoVerificationResult]) -> (r: String)
    ensures
        r@ == report_text(results@),
{
    let mut report = String::from_str("=== PLATO Fleet Learning Rule Verification Report ===\n\n");
    let ghost header = report@;
    let mut passed: usize = 0;
    let mut i: usize = 0;
    while i < results.len()
        invariant
            i <= results@.len(),
            report@ == header + entries_text(results@.take(i as int)),
            passed == passed_count(results@.take(i as int)),
        decreases results.len() - i,
    {
        let r = &results[i];
        let status = if r.passed {
            "✅ PASS"
        } else {
            "❌ FAIL"
        };
        let kind = if r.is_calm {
            "CALM"
        } else {
            "non-CALM"
        };
        report.append(status);
        report.append(": ");
        report.append(r.rule_name.as_str());
        report.append(" (");
        report.append(kind);
        report.append(")\n");
        report.append("  Details: ");
        report.append(r.details.as_str());
        report.append("\n\n");
        proof {
            lemma_passed_count_bound(results@.take(i as int));
            assert(results@.take(i + 1).drop_last() =~= results@.take(i as int));
            assert(report@ =~= header + entries_text(results@.take(i + 1)));
        }
        if r.passed {
            passed = passed + 1;
        }
        i = i + 1;
    }
    assert(results@.take(results@.len() as int) =~= results@);
    report.append("\nSummary: ");
    report.append(decimal_string(passed).as_str());
    report.append("/");
    report.append(decimal_string(results.len()).as_str());
    report.append(" rules verified correctly");
    report
}

} // verus!

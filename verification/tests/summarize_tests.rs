use result_processing::Error;
use result_processing::Implementation;
use result_processing::Test;
use result_processing::TestBlock;
use result_processing::TestSuiteEvaluation;
use result_processing::summarize;

fn implementation(name: &str) -> Implementation {
    Implementation(String::from(name))
}

fn block(name: &str, loc: &str, error: bool, tests: Vec<Test>) -> TestBlock {
    TestBlock { name: String::from(name), loc: String::from(loc), error, tests }
}

fn test(loc: &str, passed: bool) -> Test {
    Test { loc: String::from(loc), passed }
}

#[test]
fn wheat_chaff_scenario_with_invalidated_block() {
    // W1 passes everything; W2 has an erroring block B at "x/B"; C1 fails a
    // test inside a block named B at "y/B". The block shares its trailing
    // path segment with the invalid one, so it is dropped from C1 before
    // the rejection verdict, and nothing then rejects C1.
    let w1 = (
        implementation("wheat-1"),
        Ok(vec![block("B", "x/B", false, vec![test("x/B/0", true)])]),
    );
    let w2 = (
        implementation("wheat-2"),
        Ok(vec![block("B", "x/B", true, vec![test("x/B/0", true)])]),
    );
    let c1 = (
        implementation("chaff-1"),
        Ok(vec![block("B", "y/B", false, vec![test("y/B/9", false)])]),
    );
    let r = summarize(&vec![w1, w2, c1]);
    assert_eq!(
        r.wheats_accepted,
        vec![(implementation("wheat-1"), true), (implementation("wheat-2"), false)]
    );
    assert_eq!(r.chaffs_rejected, vec![(implementation("chaff-1"), false)]);
    let reasons = r.wheat_failure_reasons.expect("W2's erroring block must be reported");
    assert_eq!(reasons.erroring_blocks.len(), 1);
    assert_eq!(reasons.erroring_blocks[0].name, "B");
    assert_eq!(reasons.erroring_blocks[0].loc, "x/B");
    assert_eq!(reasons.failing_tests.len(), 0);
}

#[test]
fn chaff_failing_a_valid_test_is_rejected() {
    let w1 = (
        implementation("wheat-1"),
        Ok(vec![block("B", "x/B", false, vec![test("x/B/0", true)])]),
    );
    let c1 = (
        implementation("chaff-1"),
        Ok(vec![block("B", "y/B", false, vec![test("y/B/0", false)])]),
    );
    let r = summarize(&vec![w1, c1]);
    assert_eq!(r.chaffs_rejected, vec![(implementation("chaff-1"), true)]);
    assert!(r.wheat_failure_reasons.is_none());
}

#[test]
fn chaff_that_crashes_is_rejected() {
    let c1 = (implementation("chaff-1"), Err(Error::Runtime));
    let r = summarize(&vec![c1]);
    assert_eq!(r.chaffs_rejected, vec![(implementation("chaff-1"), true)]);
}

#[test]
fn wheat_that_crashes_is_not_accepted_and_not_reported() {
    // An evaluation-level error is a failing verdict, but it invalidates no
    // block or test: only erroring blocks and failing tests of successful
    // wheat evaluations are reported.
    let w1 = (implementation("wheat-1"), Err(Error::Timeout));
    let r = summarize(&vec![w1]);
    assert_eq!(r.wheats_accepted, vec![(implementation("wheat-1"), false)]);
    assert!(r.wheat_failure_reasons.is_none());
}

#[test]
fn wheat_failed_test_invalidates_matching_chaff_test() {
    // The wheat fails "x/t1", so the chaff's failure at "y/t1" (same last
    // segment) is discounted; its failure at "y/t2" is not.
    let w1 = (
        implementation("wheat-1"),
        Ok(vec![block("B", "x/B", false, vec![test("x/t1", false), test("x/t2", true)])]),
    );
    let c1 = (
        implementation("chaff-1"),
        Ok(vec![block("B", "y/B", false, vec![test("y/t1", false)])]),
    );
    let c2 = (
        implementation("chaff-2"),
        Ok(vec![block("B", "y/B", false, vec![test("y/t2", false)])]),
    );
    let r = summarize(&vec![w1, c1, c2]);
    assert_eq!(
        r.chaffs_rejected,
        vec![(implementation("chaff-1"), false), (implementation("chaff-2"), true)]
    );
    let reasons = r.wheat_failure_reasons.expect("the wheat-failed test must be reported");
    assert_eq!(reasons.erroring_blocks.len(), 0);
    assert_eq!(reasons.failing_tests.len(), 1);
    assert_eq!(reasons.failing_tests[0].loc, "x/t1");
}

#[test]
fn implementations_of_no_role_are_ignored() {
    let s1 = (implementation("student-1"), Ok(vec![block("B", "x/B", true, vec![])]));
    let r = summarize(&vec![s1]);
    assert!(r.wheats_accepted.is_empty());
    assert!(r.chaffs_rejected.is_empty());
    assert!(r.wheat_failure_reasons.is_none());
}

#[test]
fn duplicate_invalid_locations_are_reported_once() {
    let w1 = (
        implementation("wheat-1"),
        Ok(vec![
            block("B", "x/B", true, vec![]),
            block("B", "x/B", true, vec![]),
        ]),
    );
    let w2 = (implementation("wheat-2"), Ok(vec![block("B", "x/B", true, vec![])]));
    let r = summarize(&vec![w1, w2]);
    let reasons = r.wheat_failure_reasons.unwrap();
    assert_eq!(reasons.erroring_blocks.len(), 1);
}

#[test]
fn default_grade_is_empty() {
    let d = TestSuiteEvaluation::default();
    assert!(d.wheats_accepted.is_empty());
    assert!(d.chaffs_rejected.is_empty());
    assert!(d.wheat_failure_reasons.is_none());
}

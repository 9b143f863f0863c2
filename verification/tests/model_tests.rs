use result_processing::Error;
use result_processing::Evaluation;
use result_processing::Implementation;
use result_processing::Test;
use result_processing::TestBlock;
use result_processing::TestSuite;
use result_processing::last_segment_of;

fn implementation(name: &str) -> Implementation {
    Implementation(String::from(name))
}

#[test]
fn wheat_classification() {
    assert!(implementation("references/wheats/good-1.arr").is_wheat());
    assert!(!implementation("references/wheats/good-1.arr").is_chaff());
    assert!(implementation("wheat").is_wheat());
    assert!(!implementation("submissions/student-3.arr").is_wheat());
}

#[test]
fn chaff_classification() {
    assert!(implementation("references/chaffs/bug-2.arr").is_chaff());
    assert!(!implementation("references/chaffs/bug-2.arr").is_wheat());
    assert!(implementation("chaff").is_chaff());
    assert!(!implementation("submissions/student-3.arr").is_chaff());
}

#[test]
fn empty_identifier_matches_no_role() {
    assert!(!implementation("").is_wheat());
    assert!(!implementation("").is_chaff());
}

#[test]
fn ambiguous_identifier_matches_both_roles() {
    // Substring classification is an ad hoc scheme: an identifier holding
    // both markers matches both roles, and nothing resolves the conflict.
    let both = implementation("odd/wheat-chaff.arr");
    assert!(both.is_wheat());
    assert!(both.is_chaff());
}

#[test]
fn test_metadata_keeps_location() {
    let test = Test { loc: String::from("file:///suite.arr/block/1"), passed: false };
    let meta = test.metadata();
    assert_eq!(meta.loc, "file:///suite.arr/block/1");
}

#[test]
fn block_metadata_keeps_name_and_location() {
    let block = TestBlock {
        name: String::from("arithmetic"),
        loc: String::from("file:///suite.arr/7"),
        error: false,
        tests: vec![],
    };
    let meta = block.metadata();
    assert_eq!(meta.name, "arithmetic");
    assert_eq!(meta.loc, "file:///suite.arr/7");
}

#[test]
fn evaluation_outcome_is_exclusive() {
    let ok = Evaluation {
        implementation: implementation("a"),
        test_suite: TestSuite(String::from("s")),
        result: Ok(vec![]),
    };
    let err = Evaluation {
        implementation: implementation("a"),
        test_suite: TestSuite(String::from("s")),
        result: Err(Error::Timeout),
    };
    assert!(ok.result.is_ok() != ok.result.is_err());
    assert!(err.result.is_ok() != err.result.is_err());
}

#[test]
fn last_segment_of_paths() {
    assert_eq!(last_segment_of("a/b/c"), "c");
    assert_eq!(last_segment_of("c"), "c");
    assert_eq!(last_segment_of("a/"), "");
    assert_eq!(last_segment_of(""), "");
    assert_eq!(last_segment_of("x/B"), "B");
    assert_eq!(last_segment_of("y/B"), "B");
}

#[test]
fn instructor_and_student_classification() {
    assert!(implementation("instructor/sol.arr").is_instructor());
    assert!(!implementation("instructor/sol.arr").is_student());
    assert!(implementation("submissions/student-3.arr").is_student());
    assert!(!implementation("submissions/student-3.arr").is_instructor());
    assert!(TestSuite(String::from("instructor/tests.arr")).is_instructor());
    assert!(TestSuite(String::from("student-7/tests.arr")).is_student());
}

use result_processing::Error;
use result_processing::Evaluation;
use result_processing::Implementation;
use result_processing::Test;
use result_processing::TestBlock;
use result_processing::TestSuite;

fn evaluation(result: Result<Vec<TestBlock>, Error>) -> Evaluation {
    Evaluation {
        implementation: Implementation(String::from("impl")),
        test_suite: TestSuite(String::from("suite")),
        result,
    }
}

fn block(name: &str, error: bool, outcomes: &[bool]) -> TestBlock {
    TestBlock {
        name: String::from(name),
        loc: format!("suite/{}", name),
        error,
        tests: outcomes
            .iter()
            .enumerate()
            .map(|(i, &passed)| Test { loc: format!("suite/{}/{}", name, i), passed })
            .collect(),
    }
}

#[test]
fn verdict_true_when_everything_passes() {
    let e = evaluation(Ok(vec![block("a", false, &[true, true]), block("b", false, &[true])]));
    assert!(e.verdict());
}

#[test]
fn verdict_false_on_failing_test() {
    let e = evaluation(Ok(vec![block("a", false, &[true, false])]));
    assert!(!e.verdict());
}

#[test]
fn verdict_false_on_erroring_block() {
    let e = evaluation(Ok(vec![block("a", true, &[true, true])]));
    assert!(!e.verdict());
}

#[test]
fn verdict_true_on_empty_block_list() {
    let e = evaluation(Ok(vec![]));
    assert!(e.verdict());
}

#[test]
fn verdict_false_on_every_error_kind() {
    for error in [
        Error::Unknown,
        Error::Compilation,
        Error::OutOfMemory,
        Error::Timeout,
        Error::Runtime,
    ] {
        assert!(!evaluation(Err(error)).verdict());
    }
}

#[test]
fn summary_counts_passes_per_block() {
    let e = evaluation(Ok(vec![
        block("a", false, &[true, false, true]),
        block("b", false, &[]),
        block("c", true, &[false]),
    ]));
    let s = e.summary().unwrap();
    assert_eq!(
        s,
        vec![
            (String::from("a"), 2, 3),
            (String::from("b"), 0, 0),
            (String::from("c"), 0, 1),
        ]
    );
}

#[test]
fn summary_propagates_the_error() {
    let e = evaluation(Err(Error::Compilation));
    assert_eq!(e.summary(), Err(Error::Compilation));
}

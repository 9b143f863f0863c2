use result_processing::build_matrix;
use result_processing::EngineError;
use result_processing::Error;
use result_processing::Evaluation;
use result_processing::Test;
use result_processing::TestBlock;
use result_processing::GroundTruth;
use result_processing::Implementation;
use result_processing::ResultsMatrix;
use result_processing::SuiteVerdicts;
use result_processing::TestSuite;
use result_processing::bucket;
use result_processing::bucket_suites;
use result_processing::equivalent;
use result_processing::impl_domain;
use result_processing::implementation_soundness;
use result_processing::test_suite_soundness;

fn implementation(name: &str) -> Implementation {
    Implementation(String::from(name))
}

fn suite(name: &str) -> TestSuite {
    TestSuite(String::from(name))
}

fn row(entries: &[(&str, bool)]) -> SuiteVerdicts {
    SuiteVerdicts {
        verdicts: entries.iter().map(|&(k, v)| (implementation(k), v)).collect(),
    }
}

fn matrix(rows: Vec<(&str, SuiteVerdicts)>) -> ResultsMatrix {
    ResultsMatrix { rows: rows.into_iter().map(|(s, r)| (suite(s), r)).collect() }
}

#[test]
fn implies_on_common_keys() {
    let a = row(&[("i1", true)]);
    let b = row(&[("i1", true), ("i2", false)]);
    let c = row(&[("i1", false)]);
    assert!(result_processing::engine::implies(&a, &b));
    assert!(result_processing::engine::implies(&b, &a));
    assert!(!result_processing::engine::implies(&a, &c));
    assert!(!result_processing::engine::implies(&c, &a));
}

#[test]
fn implies_is_reflexive_on_sample_maps() {
    let a = row(&[("i1", true), ("i2", false)]);
    let empty = row(&[]);
    assert!(result_processing::engine::implies(&a, &a));
    assert!(result_processing::engine::implies(&empty, &empty));
}

#[test]
fn absent_keys_do_not_contradict() {
    let a = row(&[("i1", true)]);
    let b = row(&[("i2", false)]);
    assert!(equivalent(&a, &b));
}

#[test]
fn equivalent_same_pattern() {
    let a = row(&[("i1", true), ("i2", false)]);
    let b = row(&[("i1", true), ("i2", false)]);
    let c = row(&[("i1", true), ("i2", true)]);
    assert!(equivalent(&a, &b));
    assert!(!equivalent(&a, &c));
}

#[test]
fn bucket_groups_equal_behaviour() {
    let m = matrix(vec![
        ("s1", row(&[("i1", true), ("i2", false)])),
        ("s2", row(&[("i1", true), ("i2", false)])),
        ("s3", row(&[("i1", false), ("i2", false)])),
    ]);
    let buckets = bucket(&m);
    assert_eq!(buckets, vec![vec![0, 1], vec![2]]);
    let total: usize = buckets.iter().map(|b| b.len()).sum();
    assert_eq!(total, m.rows.len());
    assert_eq!(bucket_suites(&m, &buckets[0]), vec![suite("s1"), suite("s2")]);
    assert_eq!(bucket_suites(&m, &buckets[1]), vec![suite("s3")]);
}

#[test]
fn bucket_of_empty_matrix_is_empty() {
    let m = matrix(vec![]);
    assert!(bucket(&m).is_empty());
}

#[test]
fn impl_domain_collects_each_key_once() {
    let m = matrix(vec![
        ("s1", row(&[("i1", true), ("i2", false)])),
        ("s2", row(&[("i2", true), ("i3", false)])),
    ]);
    let d = impl_domain(&m);
    assert_eq!(d, vec![implementation("i1"), implementation("i2"), implementation("i3")]);
}

#[test]
fn trusted_suites_soundness_is_membership() {
    let m = matrix(vec![("s1", row(&[("i1", true), ("i2", false)]))]);
    let gt = GroundTruth::TrustedSuites(vec![suite("s1")]);
    let sound = test_suite_soundness(&gt, &m).unwrap();
    assert_eq!(sound, vec![(suite("s1"), true)]);
}

#[test]
fn trusted_suites_implementation_soundness() {
    let m = matrix(vec![("s1", row(&[("i1", true), ("i2", false)]))]);
    let gt = GroundTruth::TrustedSuites(vec![suite("s1")]);
    let sound = implementation_soundness(&gt, &m).unwrap();
    assert_eq!(
        sound,
        vec![
            (implementation("i1"), Ok(vec![suite("s1")])),
            (implementation("i2"), Err(vec![suite("s1")])),
        ]
    );
}

#[test]
fn trusted_suites_accumulation_pass_fail_pass() {
    // Three trusted suites, observed in order: a pass, then a failure, then
    // another pass. The failure discards the earlier agreement and opens the
    // fault record; the later observation is added to it.
    let m = matrix(vec![
        ("s1", row(&[("i1", true)])),
        ("s2", row(&[("i1", false)])),
        ("s3", row(&[("i1", true)])),
    ]);
    let gt = GroundTruth::TrustedSuites(vec![suite("s1"), suite("s2"), suite("s3")]);
    let sound = implementation_soundness(&gt, &m).unwrap();
    assert_eq!(sound, vec![(implementation("i1"), Err(vec![suite("s2"), suite("s3")]))]);
}

#[test]
fn trusted_implementations_suite_and_implementation_soundness() {
    // Iref passes s1 and fails s2; i1 passes both. Only s1 is sound, so
    // i1's judgement considers s1 alone.
    let m = matrix(vec![
        ("s1", row(&[("iref", true), ("i1", true)])),
        ("s2", row(&[("iref", false), ("i1", true)])),
    ]);
    let gt = GroundTruth::TrustedImplementations(vec![implementation("iref")]);
    let sound = test_suite_soundness(&gt, &m).unwrap();
    assert_eq!(sound, vec![(suite("s1"), true), (suite("s2"), false)]);
    let impls = implementation_soundness(&gt, &m).unwrap();
    assert_eq!(
        impls,
        vec![
            (implementation("iref"), Ok(vec![suite("s1")])),
            (implementation("i1"), Ok(vec![suite("s1")])),
        ]
    );
}

#[test]
fn trusted_implementations_failing_a_sound_suite() {
    let m = matrix(vec![
        ("s1", row(&[("iref", true), ("i1", false)])),
        ("s2", row(&[("iref", true), ("i1", true)])),
    ]);
    let gt = GroundTruth::TrustedImplementations(vec![implementation("iref")]);
    let impls = implementation_soundness(&gt, &m).unwrap();
    assert_eq!(
        impls,
        vec![
            (implementation("iref"), Ok(vec![suite("s1"), suite("s2")])),
            (implementation("i1"), Err(vec![suite("s1")])),
        ]
    );
}

#[test]
fn missing_result_under_a_sound_suite_is_an_error() {
    // i1 appears in the matrix (under the unsound s2) but has no verdict
    // under the sound suite s1: judging it must raise the consistency
    // error, not default to any boolean.
    let m = matrix(vec![
        ("s1", row(&[("iref", true)])),
        ("s2", row(&[("iref", false), ("i1", true)])),
    ]);
    let gt = GroundTruth::TrustedImplementations(vec![implementation("iref")]);
    assert_eq!(implementation_soundness(&gt, &m), Err(EngineError::MissingResult));
}

#[test]
fn missing_result_under_a_trusted_suite_is_an_error() {
    let m = matrix(vec![
        ("s1", row(&[("i1", true)])),
        ("s2", row(&[("i1", true), ("i2", false)])),
    ]);
    let gt = GroundTruth::TrustedSuites(vec![suite("s1")]);
    assert_eq!(implementation_soundness(&gt, &m), Err(EngineError::MissingResult));
}

#[test]
fn trusted_suite_without_a_row_is_an_error() {
    let m = matrix(vec![("s1", row(&[("i1", true)]))]);
    let gt = GroundTruth::TrustedSuites(vec![suite("s9")]);
    assert_eq!(implementation_soundness(&gt, &m), Err(EngineError::MissingResult));
}

#[test]
fn missing_trusted_implementation_verdict_is_an_error() {
    let m = matrix(vec![("s1", row(&[("i1", true)]))]);
    let gt = GroundTruth::TrustedImplementations(vec![implementation("iref")]);
    assert_eq!(test_suite_soundness(&gt, &m), Err(EngineError::MissingResult));
    assert_eq!(implementation_soundness(&gt, &m), Err(EngineError::MissingResult));
}

#[test]
fn equivalent_is_symmetric_on_sample_maps() {
    let a = row(&[("i1", true), ("i2", false)]);
    let b = row(&[("i1", true), ("i2", false)]);
    let c = row(&[("i1", false), ("i2", false)]);
    assert_eq!(equivalent(&a, &b), equivalent(&b, &a));
    assert_eq!(equivalent(&a, &c), equivalent(&c, &a));
}

#[test]
fn equivalent_is_transitive_on_same_domain_maps() {
    let a = row(&[("i1", true), ("i2", false)]);
    let b = row(&[("i1", true), ("i2", false)]);
    let c = row(&[("i1", true), ("i2", false)]);
    assert!(equivalent(&a, &b));
    assert!(equivalent(&b, &c));
    assert!(equivalent(&a, &c));
}

#[test]
fn equivalent_is_not_transitive_without_a_shared_domain() {
    // An empty map is equivalent to everything, so transitivity holds only
    // over maps with one shared key domain.
    let a = row(&[("i1", true)]);
    let b = row(&[]);
    let c = row(&[("i1", false)]);
    assert!(equivalent(&a, &b));
    assert!(equivalent(&b, &c));
    assert!(!equivalent(&a, &c));
}

#[test]
fn bucket_members_are_pairwise_equivalent_and_buckets_disjoint() {
    let m = matrix(vec![
        ("s1", row(&[("i1", true), ("i2", false)])),
        ("s2", row(&[("i1", false), ("i2", false)])),
        ("s3", row(&[("i1", true), ("i2", false)])),
        ("s4", row(&[("i1", true), ("i2", true)])),
    ]);
    let buckets = bucket(&m);
    assert_eq!(buckets, vec![vec![0, 2], vec![1], vec![3]]);
    for b1 in 0..buckets.len() {
        for b2 in 0..buckets.len() {
            for &x in &buckets[b1] {
                for &y in &buckets[b2] {
                    let same = equivalent(&m.rows[x].1, &m.rows[y].1);
                    assert_eq!(same, b1 == b2);
                }
            }
        }
    }
}

#[test]
fn build_matrix_reduces_evaluations_to_verdicts() {
    let passing = Evaluation {
        implementation: implementation("i1"),
        test_suite: suite("s1"),
        result: Ok(vec![TestBlock {
            name: String::from("b"),
            loc: String::from("s1/b"),
            error: false,
            tests: vec![Test { loc: String::from("s1/b/0"), passed: true }],
        }]),
    };
    let failing = Evaluation {
        implementation: implementation("i2"),
        test_suite: suite("s1"),
        result: Ok(vec![TestBlock {
            name: String::from("b"),
            loc: String::from("s1/b"),
            error: false,
            tests: vec![Test { loc: String::from("s1/b/0"), passed: false }],
        }]),
    };
    let crashed = Evaluation {
        implementation: implementation("i1"),
        test_suite: suite("s2"),
        result: Err(Error::Timeout),
    };
    // A duplicate pairing: its verdict must not displace the first one.
    let duplicate = Evaluation {
        implementation: implementation("i1"),
        test_suite: suite("s2"),
        result: Ok(vec![]),
    };
    let m = build_matrix(&vec![passing, failing, crashed, duplicate]);
    assert_eq!(m.rows.len(), 2);
    assert_eq!(m.rows[0].0, suite("s1"));
    assert_eq!(
        m.rows[0].1.verdicts,
        vec![(implementation("i1"), true), (implementation("i2"), false)]
    );
    assert_eq!(m.rows[1].0, suite("s2"));
    assert_eq!(m.rows[1].1.verdicts, vec![(implementation("i1"), false)]);
}

//! Analysis of autograder results: reduces raw pass/fail evaluations of
//! (implementation, test suite) pairs to verdicts, grades candidate test
//! suites against reference implementations, and judges soundness and
//! behavioural equivalence of test suites across an implementation
//! population.

mod aggregate;
pub mod engine;
mod model;
mod strings;
mod summarize;

pub use aggregate::block_all_passed;
pub use aggregate::block_passed;
pub use aggregate::blocks_all_passed;
pub use aggregate::count_passed;
pub use aggregate::passed_count;
pub use aggregate::result_view;
pub use aggregate::verdict_of;
pub use aggregate::verdict_spec;
pub use engine::EngineError;
pub use engine::GroundTruth;
pub use engine::MatrixView;
pub use engine::ResultsMatrix;
pub use engine::SuiteVerdicts;
pub use engine::a_all_present;
pub use engine::a_fold;
pub use engine::b_all_present;
pub use engine::b_failed;
pub use engine::b_needed_present;
pub use engine::b_passed;
pub use engine::b_suite_sound;
pub use engine::bucket;
pub use engine::bucket_suites;
pub use engine::bucketed;
pub use engine::build_matrix;
pub use engine::entry_sourced;
pub use engine::equivalent;
pub use engine::equivalent_maps;
pub use engine::impl_at;
pub use engine::impl_domain;
pub use engine::implementation_soundness;
pub use engine::implies_maps;
pub use engine::in_bucket;
pub use engine::is_first_pair;
pub use engine::lemma_equivalent_reflexive;
pub use engine::lemma_equivalent_symmetric;
pub use engine::lemma_equivalent_transitive;
pub use engine::lemma_implies_reflexive;
pub use engine::matrix_covers;
pub use engine::matrix_entries_sourced;
pub use engine::matrix_has;
pub use engine::matrix_impl;
pub use engine::matrix_index;
pub use engine::matrix_row_of;
pub use engine::matrix_wf;
pub use engine::pair_at;
pub use engine::report_has;
pub use engine::row_get;
pub use engine::row_has;
pub use engine::row_has_all;
pub use engine::row_index;
pub use engine::row_keys;
pub use engine::row_wf;
pub use engine::seq_has_impl;
pub use engine::soundness_view;
pub use engine::sum_sizes;
pub use engine::test_suite_soundness;
pub use engine::uniform_domain;
pub use model::Error;
pub use model::Evaluation;
pub use model::EvaluationView;
pub use model::Implementation;
pub use model::Test;
pub use model::TestBlock;
pub use model::TestBlockMetadata;
pub use model::TestBlockView;
pub use model::TestMetadata;
pub use model::TestSuite;
pub use model::TestView;
pub use model::lemma_evaluation_outcome_exclusive;
pub use strings::contains_seq;
pub use strings::last_segment;
pub use strings::last_segment_of;
pub use strings::str_contains;
pub use summarize::FailureReasons;
pub use summarize::ResultEntry;
pub use summarize::TestSuiteEvaluation;
pub use summarize::block_dropped;
pub use summarize::chaff_entries;
pub use summarize::chaff_rejected_spec;
pub use summarize::entry_blocks;
pub use summarize::entry_is_chaff;
pub use summarize::entry_is_wheat;
pub use summarize::filtered_all_passed;
pub use summarize::filtered_block_clean;
pub use summarize::invalid_block_in;
pub use summarize::invalid_block_metas;
pub use summarize::invalid_test_in;
pub use summarize::invalid_test_locs;
pub use summarize::seq_has_loc;
pub use summarize::seq_has_pair;
pub use summarize::summarize;
pub use summarize::test_dropped;
pub use summarize::wheat_entries;

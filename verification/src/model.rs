//! The evaluation record model: implementations, test suites, tests, test
//! blocks, whole-evaluation errors, and one executed pairing of an
//! implementation against a test suite.

use vstd::prelude::*;

use crate::strings::contains_seq;
use crate::strings::str_contains;

verus! {

/// A submitted or reference program, identified by its path-like name.
#[derive(Debug, PartialEq, Eq)]
pub struct Implementation(pub String);

/// A test artifact (student-authored or instructor/reference), identified by
/// its path-like name.
#[derive(Debug, PartialEq, Eq)]
pub struct TestSuite(pub String);

/// One assertion inside a block: a stable location plus its outcome.
#[derive(Debug, PartialEq, Eq)]
pub struct Test {
    pub loc: String,
    pub passed: bool,
}

/// Identity-reduced view of a `Test`: the location alone.
#[derive(Debug, PartialEq, Eq)]
pub struct TestMetadata {
    pub loc: String,
}

/// A named, located group of tests. `error` is true when the block itself
/// failed to execute, independent of the individual test outcomes.
#[derive(Debug, PartialEq, Eq)]
pub struct TestBlock {
    pub name: String,
    pub loc: String,
    pub error: bool,
    pub tests: Vec<Test>,
}

/// Identity-reduced view of a `TestBlock`: its name and location.
#[derive(Debug, PartialEq, Eq)]
pub struct TestBlockMetadata {
    pub name: String,
    pub loc: String,
}

/// Classification of a whole-evaluation failure. Mutually exclusive and
/// terminal: an evaluation either fully succeeded with test blocks, or
/// fully failed with exactly one of these.
#[derive(Debug, Clone, Copy, PartialEq, Eq, Structural)]
pub enum Error {
    Unknown,
    Compilation,
    OutOfMemory,
    Timeout,
    Runtime,
}

/// One executed pairing of an implementation against a test suite, with the
/// outcome: either the detailed test blocks or a single error, never both.
#[derive(Debug)]
pub struct Evaluation {
    pub implementation: Implementation,
    pub test_suite: TestSuite,
    pub result: Result<Vec<TestBlock>, Error>,
}

/// Mathematical model of a `Test`.
pub struct TestView {
    pub loc: Seq<char>,
    pub passed: bool,
}

/// Mathematical model of a `TestBlock`.
pub struct TestBlockView {
    pub name: Seq<char>,
    pub loc: Seq<char>,
    pub error: bool,
    pub tests: Seq<TestView>,
}

/// Mathematical model of an `Evaluation`.
pub struct EvaluationView {
    pub implementation: Seq<char>,
    pub test_suite: Seq<char>,
    pub result: Result<Seq<TestBlockView>, Error>,
}

impl View for Implementation {
    type V = Seq<char>;

    open spec fn view(&self) -> Seq<char> {
        self.0@
    }
}

impl DeepView for Implementation {
    type V = Seq<char>;

    open spec fn deep_view(&self) -> Seq<char> {
        self.0@
    }
}

impl View for TestSuite {
    type V = Seq<char>;

    open spec fn view(&self) -> Seq<char> {
        self.0@
    }
}

impl DeepView for TestSuite {
    type V = Seq<char>;

    open spec fn deep_view(&self) -> Seq<char> {
        self.0@
    }
}

impl View for Test {
    type V = TestView;

    open spec fn view(&self) -> TestView {
        TestView { loc: self.loc@, passed: self.passed }
    }
}

impl DeepView for Test {
    type V = TestView;

    open spec fn deep_view(&self) -> TestView {
        self.view()
    }
}

impl View for TestMetadata {
    type V = Seq<char>;

    open spec fn view(&self) -> Seq<char> {
        self.loc@
    }
}

impl View for TestBlock {
    type V = TestBlockView;

    open spec fn view(&self) -> TestBlockView {
        TestBlockView {
            name: self.name@,
            loc: self.loc@,
            error: self.error,
            tests: self.tests.deep_view(),
        }
    }
}

impl DeepView for TestBlock {
    type V = TestBlockView;

    open spec fn deep_view(&self) -> TestBlockView {
        self.view()
    }
}

impl View for TestBlockMetadata {
    type V = (Seq<char>, Seq<char>);

    open spec fn view(&self) -> (Seq<char>, Seq<char>) {
        (self.name@, self.loc@)
    }
}

impl View for Evaluation {
    type V = EvaluationView;

    open spec fn view(&self) -> EvaluationView {
        EvaluationView {
            implementation: self.implementation@,
            test_suite: self.test_suite@,
            result: match self.result {
                Ok(blocks) => Ok(blocks.deep_view()),
                Err(e) => Err(e),
            },
        }
    }
}

impl Clone for Implementation {
    fn clone(&self) -> (r: Self)
        ensures
            r == *self,
    {
        Implementation(self.0.clone())
    }
}

impl Clone for TestSuite {
    fn clone(&self) -> (r: Self)
        ensures
            r == *self,
    {
        TestSuite(self.0.clone())
    }
}

impl Clone for Test {
    fn clone(&self) -> (r: Self)
        ensures
            r == *self,
    {
        Test { loc: self.loc.clone(), passed: self.passed }
    }
}

impl Clone for TestMetadata {
    fn clone(&self) -> (r: Self)
        ensures
            r == *self,
    {
        TestMetadata { loc: self.loc.clone() }
    }
}

impl Clone for TestBlockMetadata {
    fn clone(&self) -> (r: Self)
        ensures
            r == *self,
    {
        TestBlockMetadata { name: self.name.clone(), loc: self.loc.clone() }
    }
}

impl Clone for TestBlock {
    fn clone(&self) -> (r: Self)
        ensures
            r@ == self@,
            r.name == self.name,
            r.loc == self.loc,
            r.error == self.error,
            r.tests@ == self.tests@,
    {
        let tests = self.tests.clone();
        proof {
            assert forall|i: int| 0 <= i < tests@.len() implies tests@[i] == self.tests@[i] by {
                assert(cloned::<Test>(self.tests@[i], tests@[i]));
            }
            assert(tests@ =~= self.tests@);
            assert(tests.deep_view() =~= self.tests.deep_view());
        }
        TestBlock { name: self.name.clone(), loc: self.loc.clone(), error: self.error, tests }
    }
}

impl Implementation {
    /// The identifier names a known-correct reference program.
    pub fn is_wheat(&self) -> (r: bool)
        ensures
            r == contains_seq(self@, "wheat"@),
    {
        str_contains(self.0.as_str(), "wheat")
    }

    /// The identifier names a reference program with an intentional defect.
    pub fn is_chaff(&self) -> (r: bool)
        ensures
            r == contains_seq(self@, "chaff"@),
    {
        str_contains(self.0.as_str(), "chaff")
    }

    /// The identifier names an instructor-provided program, excluded from
    /// learner-facing scoring.
    pub fn is_instructor(&self) -> (r: bool)
        ensures
            r == contains_seq(self@, "instructor"@),
    {
        str_contains(self.0.as_str(), "instructor")
    }

    /// The identifier names a student submission. Substring classification
    /// makes none of the roles exclusive: an identifier can match several.
    pub fn is_student(&self) -> (r: bool)
        ensures
            r == contains_seq(self@, "student"@),
    {
        str_contains(self.0.as_str(), "student")
    }
}

impl TestSuite {
    /// The identifier names an instructor-provided test suite.
    pub fn is_instructor(&self) -> (r: bool)
        ensures
            r == contains_seq(self@, "instructor"@),
    {
        str_contains(self.0.as_str(), "instructor")
    }

    /// The identifier names a student-authored test suite.
    pub fn is_student(&self) -> (r: bool)
        ensures
            r == contains_seq(self@, "student"@),
    {
        str_contains(self.0.as_str(), "student")
    }
}

impl Test {
    /// The identity-reduced view of this test: its location alone.
    pub fn metadata(&self) -> (r: TestMetadata)
        ensures
            r.loc == self.loc,
    {
        TestMetadata { loc: self.loc.clone() }
    }
}

impl TestBlock {
    /// The identity-reduced view of this block: its name and location.
    pub fn metadata(&self) -> (r: TestBlockMetadata)
        ensures
            r.name == self.name,
            r.loc == self.loc,
    {
        TestBlockMetadata { name: self.name.clone(), loc: self.loc.clone() }
    }
}

/// An evaluation's outcome is a strict either/or: it has detailed test
/// blocks exactly when it does not carry an error.
pub proof fn lemma_evaluation_outcome_exclusive(e: Evaluation)
    ensures
        (e.result is Ok) <==> !(e.result is Err),
{
}

} // verus!

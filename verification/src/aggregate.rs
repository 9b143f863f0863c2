//! The result aggregator: reduces one evaluation to a single "all passed"
//! verdict, and to per-block pass/total counts.

use vstd::prelude::*;

use crate::model::Error;
use crate::model::Evaluation;
use crate::model::TestBlock;
use crate::model::TestBlockView;
use crate::model::TestView;

verus! {

/// Every test in the block passed and the block itself did not error.
pub open spec fn block_all_passed(b: TestBlockView) -> bool {
    &&& !b.error
    &&& forall|i: int| 0 <= i < b.tests.len() ==> (#[trigger] b.tests[i]).passed
}

/// Every block ran without error and every test in every block passed.
pub open spec fn blocks_all_passed(bs: Seq<TestBlockView>) -> bool {
    forall|i: int| 0 <= i < bs.len() ==> block_all_passed(#[trigger] bs[i])
}

/// The reduced boolean outcome of one evaluation result: true only on a
/// fully passing success; an error of any kind counts as failing.
pub open spec fn verdict_spec(result: Result<Seq<TestBlockView>, Error>) -> bool {
    match result {
        Ok(bs) => blocks_all_passed(bs),
        Err(_) => false,
    }
}

/// The number of passing tests in `ts`.
pub open spec fn passed_count(ts: Seq<TestView>) -> nat
    decreases ts.len(),
{
    if ts.len() == 0 {
        0
    } else {
        passed_count(ts.drop_last()) + (if ts.last().passed {
            1nat
        } else {
            0nat
        })
    }
}

/// Whether every test of `block` passed and the block did not error.
pub fn block_passed(block: &TestBlock) -> (r: bool)
    ensures
        r == block_all_passed(block@),
{
    if block.error {
        return false;
    }
    let n = block.tests.len();
    let mut i: usize = 0;
    while i < n
        invariant
            n == block.tests@.len(),
            i <= n,
            forall|j: int| 0 <= j < i ==> (#[trigger] block@.tests[j]).passed,
        decreases n - i,
    {
        if !block.tests[i].passed {
            assert(!(block@.tests[i as int]).passed);
            return false;
        }
        i = i + 1;
    }
    true
}

/// The verdict of a raw evaluation result: true iff it succeeded and every
/// block and test passed. An error of any kind yields false.
#[verifier::loop_isolation(false)]
pub fn verdict_of(result: &Result<Vec<TestBlock>, Error>) -> (r: bool)
    ensures
        r == verdict_spec(result_view(result)),
        result is Err ==> r == false,
{
    match result {
        Err(_) => false,
        Ok(blocks) => {
            let n = blocks.len();
            let mut i: usize = 0;
            while i < n
                invariant
                    n == blocks@.len(),
                    i <= n,
                    forall|j: int| 0 <= j < i ==> block_all_passed(#[trigger] blocks.deep_view()[j]),
                decreases n - i,
            {
                if !block_passed(&blocks[i]) {
                    assert(blocks.deep_view()[i as int] == blocks@[i as int]@);
                    assert(!block_all_passed(blocks.deep_view()[i as int]));
                    return false;
                }
                i = i + 1;
            }
            true
        },
    }
}

/// The model of a raw evaluation result.
pub open spec fn result_view(result: &Result<Vec<TestBlock>, Error>) -> Result<
    Seq<TestBlockView>,
    Error,
> {
    match result {
        Ok(blocks) => Ok(blocks.deep_view()),
        Err(e) => Err(*e),
    }
}

impl Evaluation {
    /// The reduced boolean outcome of this evaluation: true iff it succeeded
    /// and every block and test passed. An error of any kind yields false,
    /// so a crashed or timed-out run never counts as passing.
    pub fn verdict(&self) -> (r: bool)
        ensures
            r == verdict_spec(self@.result),
            self.result is Err ==> r == false,
    {
        verdict_of(&self.result)
    }

    /// Per-block pass/total counts, in block order: each block maps to its
    /// name, the number of its passing tests and its total test count. An
    /// evaluation-level error is propagated unchanged.
    #[verifier::loop_isolation(false)]
    pub fn summary(&self) -> (r: Result<Vec<(String, usize, usize)>, Error>)
        ensures
            self.result is Err ==> r == Err::<Vec<(String, usize, usize)>, Error>(
                self.result->Err_0,
            ),
            self.result is Ok ==> {
                &&& r is Ok
                &&& r->Ok_0@.len() == self@.result->Ok_0.len()
                &&& forall|i: int|
                    0 <= i < r->Ok_0@.len() ==> {
                        &&& (#[trigger] r->Ok_0@[i]).0@ == self@.result->Ok_0[i].name
                        &&& r->Ok_0@[i].1 == passed_count(self@.result->Ok_0[i].tests)
                        &&& r->Ok_0@[i].2 == self@.result->Ok_0[i].tests.len()
                    }
            },
    {
        match &self.result {
            Err(e) => Err(*e),
            Ok(blocks) => {
                let n = blocks.len();
                let mut out: Vec<(String, usize, usize)> = Vec::new();
                let mut i: usize = 0;
                while i < n
                    invariant
                        n == blocks@.len(),
                        i <= n,
                        out@.len() == i,
                        forall|j: int|
                            0 <= j < i ==> {
                                &&& (#[trigger] out@[j]).0@ == blocks.deep_view()[j].name
                                &&& out@[j].1 == passed_count(blocks.deep_view()[j].tests)
                                &&& out@[j].2 == blocks.deep_view()[j].tests.len()
                            },
                    decreases n - i,
                {
                    let block = &blocks[i];
                    let passed = count_passed(&block.tests);
                    out.push((block.name.clone(), passed, block.tests.len()));
                    i = i + 1;
                }
                Ok(out)
            },
        }
    }
}

/// The number of tests in `tests` whose outcome is a pass.
#[verifier::loop_isolation(false)]
pub fn count_passed(tests: &Vec<crate::model::Test>) -> (r: usize)
    ensures
        r == passed_count(tests.deep_view()),
        r <= tests@.len(),
{
    let n = tests.len();
    let mut count: usize = 0;
    let mut i: usize = 0;
    while i < n
        invariant
            n == tests@.len(),
            i <= n,
            count <= i,
            count == passed_count(tests.deep_view().subrange(0, i as int)),
        decreases n - i,
    {
        proof {
            let pre = tests.deep_view().subrange(0, i as int);
            let post = tests.deep_view().subrange(0, i + 1);
            assert(post.drop_last() =~= pre);
            assert(post.last() == tests.deep_view()[i as int]);
        }
        if tests[i].passed {
            count = count + 1;
        }
        i = i + 1;
    }
    proof {
        assert(tests.deep_view().subrange(0, n as int) =~= tests.deep_view());
    }
    count
}

} // verus!

//! The reference-aware summarizer: grades a test suite under test against
//! reference implementations. Wheat (known-good) evaluations must be
//! accepted; chaff (known-buggy) evaluations must be rejected, after
//! discounting every block or test that some wheat itself could not
//! validate.

use vstd::prelude::*;

use crate::aggregate::verdict_of;
use crate::aggregate::verdict_spec;
use crate::aggregate::result_view;
use crate::model::Error;
use crate::model::Implementation;
use crate::model::TestBlock;
use crate::model::TestBlockMetadata;
use crate::model::TestBlockView;
use crate::model::TestMetadata;
use crate::strings::contains_seq;
use crate::strings::last_segment;
use crate::strings::last_segment_of;

verus! {

/// One raw evaluation outcome, keyed by the implementation that produced it.
pub type ResultEntry = (Implementation, Result<Vec<TestBlock>, Error>);

/// The entry's implementation is a wheat: a known-correct reference.
pub open spec fn entry_is_wheat(e: ResultEntry) -> bool {
    contains_seq(e.0@, "wheat"@)
}

/// The entry's implementation is a chaff: a known-buggy reference.
pub open spec fn entry_is_chaff(e: ResultEntry) -> bool {
    contains_seq(e.0@, "chaff"@)
}

/// The blocks of a successful entry, as their mathematical model.
pub open spec fn entry_blocks(e: ResultEntry) -> Seq<TestBlockView> {
    e.1->Ok_0.deep_view()
}

/// Position (i, j) names a block of a wheat evaluation that itself failed
/// to execute, and `m` is that block's (name, loc) identity.
pub open spec fn invalid_block_in(rs: Seq<ResultEntry>, i: int, j: int, m: (Seq<char>, Seq<char>)) -> bool {
    &&& 0 <= i < rs.len()
    &&& entry_is_wheat(rs[i])
    &&& rs[i].1 is Ok
    &&& 0 <= j < entry_blocks(rs[i]).len()
    &&& entry_blocks(rs[i])[j].error
    &&& m == (entry_blocks(rs[i])[j].name, entry_blocks(rs[i])[j].loc)
}

/// The identities of every block, across all wheat evaluations, whose own
/// execution errored. Such a block cannot be trusted to judge a chaff.
pub open spec fn invalid_block_metas(rs: Seq<ResultEntry>) -> Set<(Seq<char>, Seq<char>)> {
    Set::new(|m: (Seq<char>, Seq<char>)| exists|i: int, j: int| invalid_block_in(rs, i, j, m))
}

/// Position (i, j, k) names a test of a wheat evaluation that failed, and
/// `l` is that test's location.
pub open spec fn invalid_test_in(rs: Seq<ResultEntry>, i: int, j: int, k: int, l: Seq<char>) -> bool {
    &&& 0 <= i < rs.len()
    &&& entry_is_wheat(rs[i])
    &&& rs[i].1 is Ok
    &&& 0 <= j < entry_blocks(rs[i]).len()
    &&& 0 <= k < entry_blocks(rs[i])[j].tests.len()
    &&& !entry_blocks(rs[i])[j].tests[k].passed
    &&& l == entry_blocks(rs[i])[j].tests[k].loc
}

/// The locations of every test, across all wheat evaluations, that a wheat
/// failed. A correct reference should never fail a test, so such a location
/// is unreliable.
pub open spec fn invalid_test_locs(rs: Seq<ResultEntry>) -> Set<Seq<char>> {
    Set::new(|l: Seq<char>| exists|i: int, j: int, k: int| invalid_test_in(rs, i, j, k, l))
}

/// The metadata sequence `v` holds the block identity `m`.
pub open spec fn seq_has_pair(v: Seq<TestBlockMetadata>, m: (Seq<char>, Seq<char>)) -> bool {
    exists|x: int| 0 <= x < v.len() && (#[trigger] v[x])@ == m
}

/// The metadata sequence `v` holds the test location `l`.
pub open spec fn seq_has_loc(v: Seq<TestMetadata>, l: Seq<char>) -> bool {
    exists|x: int| 0 <= x < v.len() && (#[trigger] v[x])@ == l
}

/// Whether `v` already holds the block identity (`name`, `loc`).
fn has_block_meta(v: &Vec<TestBlockMetadata>, name: &String, loc: &String) -> (r: bool)
    ensures
        r == seq_has_pair(v@, (name@, loc@)),
{
    let n = v.len();
    let mut x: usize = 0;
    while x < n
        invariant
            n == v@.len(),
            x <= n,
            forall|y: int| 0 <= y < x ==> (#[trigger] v@[y])@ != (name@, loc@),
        decreases n - x,
    {
        if v[x].name == *name && v[x].loc == *loc {
            assert(v@[x as int]@ == (name@, loc@));
            return true;
        }
        x = x + 1;
    }
    false
}

/// Whether `v` already holds the test location `loc`.
fn has_test_loc(v: &Vec<TestMetadata>, loc: &String) -> (r: bool)
    ensures
        r == seq_has_loc(v@, loc@),
{
    let n = v.len();
    let mut x: usize = 0;
    while x < n
        invariant
            n == v@.len(),
            x <= n,
            forall|y: int| 0 <= y < x ==> (#[trigger] v@[y])@ != loc@,
        decreases n - x,
    {
        if v[x].loc == *loc {
            return true;
        }
        x = x + 1;
    }
    false
}


/// The block identities contributed by wheat entries before `ei`, together
/// with those of blocks before `bj` inside entry `ei`.
spec fn block_meta_upto(
    rs: Seq<ResultEntry>,
    ei: int,
    bj: int,
    m: (Seq<char>, Seq<char>),
) -> bool {
    exists|i: int, j: int|
        (i < ei || (i == ei && j < bj)) && #[trigger] invalid_block_in(rs, i, j, m)
}

proof fn lemma_has_pair_push(v: Seq<TestBlockMetadata>, e: TestBlockMetadata, m: (Seq<char>, Seq<char>))
    ensures
        seq_has_pair(v.push(e), m) <==> (seq_has_pair(v, m) || e@ == m),
{
    if seq_has_pair(v.push(e), m) {
        let x = choose|x: int| 0 <= x < v.push(e).len() && (#[trigger] v.push(e)[x])@ == m;
        if x < v.len() {
            assert((v[x])@ == m);
        }
    }
    if seq_has_pair(v, m) {
        let x = choose|x: int| 0 <= x < v.len() && (#[trigger] v[x])@ == m;
        assert((v.push(e)[x])@ == m);
    }
    if e@ == m {
        assert((v.push(e)[v.len() as int])@ == m);
    }
}

proof fn lemma_has_loc_push(v: Seq<TestMetadata>, e: TestMetadata, l: Seq<char>)
    ensures
        seq_has_loc(v.push(e), l) <==> (seq_has_loc(v, l) || e@ == l),
{
    if seq_has_loc(v.push(e), l) {
        let x = choose|x: int| 0 <= x < v.push(e).len() && (#[trigger] v.push(e)[x])@ == l;
        if x < v.len() {
            assert((v[x])@ == l);
        }
    }
    if seq_has_loc(v, l) {
        let x = choose|x: int| 0 <= x < v.len() && (#[trigger] v[x])@ == l;
        assert((v.push(e)[x])@ == l);
    }
    if l == e@ {
        assert((v.push(e)[v.len() as int])@ == l);
    }
}

proof fn lemma_block_upto_skip(rs: Seq<ResultEntry>, ei: int, bj: int, m: (Seq<char>, Seq<char>))
    requires
        !invalid_block_in(rs, ei, bj, m),
    ensures
        block_meta_upto(rs, ei, bj + 1, m) <==> block_meta_upto(rs, ei, bj, m),
{
    if block_meta_upto(rs, ei, bj + 1, m) {
        let (i, j) = choose|i: int, j: int|
            (i < ei || (i == ei && j < bj + 1)) && #[trigger] invalid_block_in(rs, i, j, m);
        assert(i < ei || (i == ei && j < bj));
    }
    if block_meta_upto(rs, ei, bj, m) {
        let (i, j) = choose|i: int, j: int|
            (i < ei || (i == ei && j < bj)) && #[trigger] invalid_block_in(rs, i, j, m);
        assert((i < ei || (i == ei && j < bj + 1)) && invalid_block_in(rs, i, j, m));
    }
}

proof fn lemma_block_upto_push(
    rs: Seq<ResultEntry>,
    ei: int,
    bj: int,
    m0: (Seq<char>, Seq<char>),
    m: (Seq<char>, Seq<char>),
)
    requires
        invalid_block_in(rs, ei, bj, m0),
    ensures
        block_meta_upto(rs, ei, bj + 1, m) <==> (block_meta_upto(rs, ei, bj, m) || m == m0),
{
    if block_meta_upto(rs, ei, bj + 1, m) {
        let (i, j) = choose|i: int, j: int|
            (i < ei || (i == ei && j < bj + 1)) && #[trigger] invalid_block_in(rs, i, j, m);
        if !(i < ei || (i == ei && j < bj)) {
            assert(i == ei && j == bj);
            assert(m == m0);
        }
    }
    if block_meta_upto(rs, ei, bj, m) {
        let (i, j) = choose|i: int, j: int|
            (i < ei || (i == ei && j < bj)) && #[trigger] invalid_block_in(rs, i, j, m);
        assert((i < ei || (i == ei && j < bj + 1)) && invalid_block_in(rs, i, j, m));
    }
    if m == m0 {
        assert((ei < ei || (ei == ei && bj < bj + 1)) && invalid_block_in(rs, ei, bj, m));
    }
}

proof fn lemma_block_upto_entry(rs: Seq<ResultEntry>, ei: int, bcount: int, m: (Seq<char>, Seq<char>))
    requires
        0 <= ei,
        (entry_is_wheat(rs[ei]) && rs[ei].1 is Ok) ==> bcount >= entry_blocks(rs[ei]).len(),
        !(entry_is_wheat(rs[ei]) && rs[ei].1 is Ok) ==> bcount == 0,
    ensures
        block_meta_upto(rs, ei + 1, 0, m) <==> block_meta_upto(rs, ei, bcount, m),
{
    if block_meta_upto(rs, ei + 1, 0, m) {
        let (i, j) = choose|i: int, j: int|
            (i < ei + 1 || (i == ei + 1 && j < 0)) && #[trigger] invalid_block_in(rs, i, j, m);
        assert(i < ei || (i == ei && j < bcount));
    }
    if block_meta_upto(rs, ei, bcount, m) {
        let (i, j) = choose|i: int, j: int|
            (i < ei || (i == ei && j < bcount)) && #[trigger] invalid_block_in(rs, i, j, m);
        assert((i < ei + 1 || (i == ei + 1 && j < 0)) && invalid_block_in(rs, i, j, m));
    }
}

/// Collects, without duplicates, the identity of every erroring block of
/// every wheat evaluation in `results`.
#[verifier::loop_isolation(false)]
fn collect_invalid_blocks(results: &Vec<ResultEntry>) -> (r: Vec<TestBlockMetadata>)
    ensures
        forall|m: (Seq<char>, Seq<char>)|
            invalid_block_metas(results@).contains(m) <==> seq_has_pair(r@, m),
        forall|x: int, y: int| 0 <= x < y < r@.len() ==> r@[x]@ != r@[y]@,
{
    let rs = results;
    let n = rs.len();
    let mut out: Vec<TestBlockMetadata> = Vec::new();
    proof {
        assert forall|m: (Seq<char>, Seq<char>)| !block_meta_upto(rs@, 0, 0, m) by {
            if block_meta_upto(rs@, 0, 0, m) {
                let (i, j) = choose|i: int, j: int|
                    (i < 0 || (i == 0 && j < 0)) && #[trigger] invalid_block_in(rs@, i, j, m);
                assert(false);
            }
        }
    }
    let mut ei: usize = 0;
    while ei < n
        invariant
            ei <= n,
            forall|m: (Seq<char>, Seq<char>)|
                seq_has_pair(out@, m) <==> block_meta_upto(rs@, ei as int, 0, m),
            forall|x: int, y: int| 0 <= x < y < out@.len() ==> out@[x]@ != out@[y]@,
        decreases n - ei,
    {
        let wheat = rs[ei].0.is_wheat();
        let mut bcount: usize = 0;
        if wheat {
            if let Ok(blocks) = &rs[ei].1 {
                let bn = blocks.len();
                let mut bj: usize = 0;
                while bj < bn
                    invariant
                        bj <= bn,
                        bn == blocks@.len(),
                        entry_is_wheat(rs@[ei as int]),
                        rs@[ei as int].1 is Ok,
                        blocks == &rs@[ei as int].1->Ok_0,
                        forall|m: (Seq<char>, Seq<char>)|
                            seq_has_pair(out@, m) <==> block_meta_upto(rs@, ei as int, bj as int, m),
                        forall|x: int, y: int| 0 <= x < y < out@.len() ==> out@[x]@ != out@[y]@,
                    decreases bn - bj,
                {
                    proof {
                        assert(entry_blocks(rs@[ei as int])[bj as int] == blocks@[bj as int]@);
                    }
                    if blocks[bj].error {
                        let m_name = &blocks[bj].name;
                        let m_loc = &blocks[bj].loc;
                        let ghost m0 = (m_name@, m_loc@);
                        proof {
                            assert(invalid_block_in(rs@, ei as int, bj as int, m0));
                        }
                        if !has_block_meta(&out, m_name, m_loc) {
                            let ghost pre = out@;
                            out.push(
                                TestBlockMetadata { name: m_name.clone(), loc: m_loc.clone() },
                            );
                            proof {
                                let e = out@.last();
                                assert(out@ == pre.push(e));
                                assert(e@ == m0);
                                assert forall|m: (Seq<char>, Seq<char>)|
                                    seq_has_pair(out@, m) <==> block_meta_upto(
                                        rs@,
                                        ei as int,
                                        bj + 1,
                                        m,
                                    ) by {
                                    lemma_has_pair_push(pre, e, m);
                                    lemma_block_upto_push(rs@, ei as int, bj as int, m0, m);
                                }
                                assert forall|x: int, y: int|
                                    0 <= x < y < out@.len() implies out@[x]@ != out@[y]@ by {
                                    if y == out@.len() - 1 {
                                        assert(out@[x] == pre[x]);
                                        if out@[x]@ == m0 {
                                            assert(seq_has_pair(pre, m0));
                                        }
                                    }
                                }
                            }
                        } else {
                            proof {
                                assert forall|m: (Seq<char>, Seq<char>)|
                                    seq_has_pair(out@, m) <==> block_meta_upto(
                                        rs@,
                                        ei as int,
                                        bj + 1,
                                        m,
                                    ) by {
                                    lemma_block_upto_push(rs@, ei as int, bj as int, m0, m);
                                }
                            }
                        }
                    } else {
                        proof {
                            assert forall|m: (Seq<char>, Seq<char>)|
                                seq_has_pair(out@, m) <==> block_meta_upto(
                                    rs@,
                                    ei as int,
                                    bj + 1,
                                    m,
                                ) by {
                                lemma_block_upto_skip(rs@, ei as int, bj as int, m);
                            }
                        }
                    }
                    bj = bj + 1;
                }
                bcount = bn;
            }
        }
        proof {
            if entry_is_wheat(rs@[ei as int]) && rs@[ei as int].1 is Ok {
                assert(bcount == entry_blocks(rs@[ei as int]).len());
            } else {
                assert(bcount == 0);
                assert forall|m: (Seq<char>, Seq<char>)|
                    seq_has_pair(out@, m) <==> block_meta_upto(rs@, ei as int, 0, m) by {}
            }
            assert forall|m: (Seq<char>, Seq<char>)|
                seq_has_pair(out@, m) <==> block_meta_upto(rs@, ei + 1, 0, m) by {
                lemma_block_upto_entry(rs@, ei as int, bcount as int, m);
            }
        }
        ei = ei + 1;
    }
    proof {
        assert forall|m: (Seq<char>, Seq<char>)|
            invalid_block_metas(rs@).contains(m) <==> seq_has_pair(out@, m) by {
            if invalid_block_metas(rs@).contains(m) {
                let (i, j) = choose|i: int, j: int| invalid_block_in(rs@, i, j, m);
                assert((i < n as int || (i == n as int && j < 0)) && invalid_block_in(rs@, i, j, m));
            }
            if seq_has_pair(out@, m) {
                let (i, j) = choose|i: int, j: int|
                    (i < n as int || (i == n as int && j < 0)) && #[trigger] invalid_block_in(
                        rs@,
                        i,
                        j,
                        m,
                    );
                assert(invalid_block_metas(rs@).contains(m));
            }
        }
    }
    out
}

/// The failing-test locations contributed by wheat entries before `ei`,
/// blocks before `bj` inside entry `ei`, and tests before `tk` inside
/// block `bj`.
spec fn test_loc_upto(
    rs: Seq<ResultEntry>,
    ei: int,
    bj: int,
    tk: int,
    l: Seq<char>,
) -> bool {
    exists|i: int, j: int, k: int|
        (i < ei || (i == ei && j < bj) || (i == ei && j == bj && k < tk))
            && #[trigger] invalid_test_in(rs, i, j, k, l)
}

proof fn lemma_test_upto_skip(rs: Seq<ResultEntry>, ei: int, bj: int, tk: int, l: Seq<char>)
    requires
        !invalid_test_in(rs, ei, bj, tk, l),
    ensures
        test_loc_upto(rs, ei, bj, tk + 1, l) <==> test_loc_upto(rs, ei, bj, tk, l),
{
    if test_loc_upto(rs, ei, bj, tk + 1, l) {
        let (i, j, k) = choose|i: int, j: int, k: int|
            (i < ei || (i == ei && j < bj) || (i == ei && j == bj && k < tk + 1))
                && #[trigger] invalid_test_in(rs, i, j, k, l);
        assert(i < ei || (i == ei && j < bj) || (i == ei && j == bj && k < tk));
    }
    if test_loc_upto(rs, ei, bj, tk, l) {
        let (i, j, k) = choose|i: int, j: int, k: int|
            (i < ei || (i == ei && j < bj) || (i == ei && j == bj && k < tk))
                && #[trigger] invalid_test_in(rs, i, j, k, l);
        assert((i < ei || (i == ei && j < bj) || (i == ei && j == bj && k < tk + 1))
            && invalid_test_in(rs, i, j, k, l));
    }
}

proof fn lemma_test_upto_push(
    rs: Seq<ResultEntry>,
    ei: int,
    bj: int,
    tk: int,
    l0: Seq<char>,
    l: Seq<char>,
)
    requires
        invalid_test_in(rs, ei, bj, tk, l0),
    ensures
        test_loc_upto(rs, ei, bj, tk + 1, l) <==> (test_loc_upto(rs, ei, bj, tk, l) || l == l0),
{
    if test_loc_upto(rs, ei, bj, tk + 1, l) {
        let (i, j, k) = choose|i: int, j: int, k: int|
            (i < ei || (i == ei && j < bj) || (i == ei && j == bj && k < tk + 1))
                && #[trigger] invalid_test_in(rs, i, j, k, l);
        if !(i < ei || (i == ei && j < bj) || (i == ei && j == bj && k < tk)) {
            assert(i == ei && j == bj && k == tk);
            assert(l == l0);
        }
    }
    if test_loc_upto(rs, ei, bj, tk, l) {
        let (i, j, k) = choose|i: int, j: int, k: int|
            (i < ei || (i == ei && j < bj) || (i == ei && j == bj && k < tk))
                && #[trigger] invalid_test_in(rs, i, j, k, l);
        assert((i < ei || (i == ei && j < bj) || (i == ei && j == bj && k < tk + 1))
            && invalid_test_in(rs, i, j, k, l));
    }
    if l == l0 {
        assert((ei < ei || (ei == ei && bj < bj) || (ei == ei && bj == bj && tk < tk + 1))
            && invalid_test_in(rs, ei, bj, tk, l));
    }
}

proof fn lemma_test_upto_block(rs: Seq<ResultEntry>, ei: int, bj: int, tcount: int, l: Seq<char>)
    requires
        0 <= bj,
        (entry_is_wheat(rs[ei]) && rs[ei].1 is Ok && 0 <= ei < rs.len() && bj
            < entry_blocks(rs[ei]).len()) ==> tcount >= entry_blocks(rs[ei])[bj].tests.len(),
        !(entry_is_wheat(rs[ei]) && rs[ei].1 is Ok && 0 <= ei < rs.len() && bj
            < entry_blocks(rs[ei]).len()) ==> tcount == 0,
    ensures
        test_loc_upto(rs, ei, bj + 1, 0, l) <==> test_loc_upto(rs, ei, bj, tcount, l),
{
    if test_loc_upto(rs, ei, bj + 1, 0, l) {
        let (i, j, k) = choose|i: int, j: int, k: int|
            (i < ei || (i == ei && j < bj + 1) || (i == ei && j == bj + 1 && k < 0))
                && #[trigger] invalid_test_in(rs, i, j, k, l);
        assert(i < ei || (i == ei && j < bj) || (i == ei && j == bj && k < tcount));
    }
    if test_loc_upto(rs, ei, bj, tcount, l) {
        let (i, j, k) = choose|i: int, j: int, k: int|
            (i < ei || (i == ei && j < bj) || (i == ei && j == bj && k < tcount))
                && #[trigger] invalid_test_in(rs, i, j, k, l);
        assert((i < ei || (i == ei && j < bj + 1) || (i == ei && j == bj + 1 && k < 0))
            && invalid_test_in(rs, i, j, k, l));
    }
}

proof fn lemma_test_upto_entry(rs: Seq<ResultEntry>, ei: int, bcount: int, l: Seq<char>)
    requires
        0 <= ei,
        (entry_is_wheat(rs[ei]) && rs[ei].1 is Ok) ==> bcount >= entry_blocks(rs[ei]).len(),
        !(entry_is_wheat(rs[ei]) && rs[ei].1 is Ok) ==> bcount == 0,
    ensures
        test_loc_upto(rs, ei + 1, 0, 0, l) <==> test_loc_upto(rs, ei, bcount, 0, l),
{
    if test_loc_upto(rs, ei + 1, 0, 0, l) {
        let (i, j, k) = choose|i: int, j: int, k: int|
            (i < ei + 1 || (i == ei + 1 && j < 0) || (i == ei + 1 && j == 0 && k < 0))
                && #[trigger] invalid_test_in(rs, i, j, k, l);
        assert(i < ei || (i == ei && j < bcount) || (i == ei && j == bcount && k < 0));
    }
    if test_loc_upto(rs, ei, bcount, 0, l) {
        let (i, j, k) = choose|i: int, j: int, k: int|
            (i < ei || (i == ei && j < bcount) || (i == ei && j == bcount && k < 0))
                && #[trigger] invalid_test_in(rs, i, j, k, l);
        assert((i < ei + 1 || (i == ei + 1 && j < 0) || (i == ei + 1 && j == 0 && k < 0))
            && invalid_test_in(rs, i, j, k, l));
    }
}

/// Collects, without duplicates, the location of every test that some
/// wheat evaluation in `results` failed.
#[verifier::loop_isolation(false)]
fn collect_invalid_tests(results: &Vec<ResultEntry>) -> (r: Vec<TestMetadata>)
    ensures
        forall|l: Seq<char>| invalid_test_locs(results@).contains(l) <==> seq_has_loc(r@, l),
        forall|x: int, y: int| 0 <= x < y < r@.len() ==> r@[x]@ != r@[y]@,
{
    let rs = results;
    let n = rs.len();
    let mut out: Vec<TestMetadata> = Vec::new();
    proof {
        assert forall|l: Seq<char>| !test_loc_upto(rs@, 0, 0, 0, l) by {
            if test_loc_upto(rs@, 0, 0, 0, l) {
                let (i, j, k) = choose|i: int, j: int, k: int|
                    (i < 0 || (i == 0 && j < 0) || (i == 0 && j == 0 && k < 0))
                        && #[trigger] invalid_test_in(rs@, i, j, k, l);
                assert(false);
            }
        }
    }
    let mut ei: usize = 0;
    while ei < n
        invariant
            ei <= n,
            forall|l: Seq<char>| seq_has_loc(out@, l) <==> test_loc_upto(rs@, ei as int, 0, 0, l),
            forall|x: int, y: int| 0 <= x < y < out@.len() ==> out@[x]@ != out@[y]@,
        decreases n - ei,
    {
        let wheat = rs[ei].0.is_wheat();
        let mut bcount: usize = 0;
        if wheat {
            if let Ok(blocks) = &rs[ei].1 {
                let bn = blocks.len();
                let mut bj: usize = 0;
                while bj < bn
                    invariant
                        bj <= bn,
                        bn == blocks@.len(),
                        entry_is_wheat(rs@[ei as int]),
                        rs@[ei as int].1 is Ok,
                        blocks == &rs@[ei as int].1->Ok_0,
                        forall|l: Seq<char>|
                            seq_has_loc(out@, l) <==> test_loc_upto(
                                rs@,
                                ei as int,
                                bj as int,
                                0,
                                l,
                            ),
                        forall|x: int, y: int| 0 <= x < y < out@.len() ==> out@[x]@ != out@[y]@,
                    decreases bn - bj,
                {
                    let tests = &blocks[bj].tests;
                    let tn = tests.len();
                    let mut tk: usize = 0;
                    proof {
                        assert(entry_blocks(rs@[ei as int])[bj as int] == blocks@[bj as int]@);
                        assert(entry_blocks(rs@[ei as int])[bj as int].tests == tests.deep_view());
                    }
                    while tk < tn
                        invariant
                            tk <= tn,
                            tn == tests@.len(),
                            entry_is_wheat(rs@[ei as int]),
                            rs@[ei as int].1 is Ok,
                            blocks == &rs@[ei as int].1->Ok_0,
                            bj < bn == blocks@.len(),
                            tests == &blocks@[bj as int].tests,
                            forall|l: Seq<char>|
                                seq_has_loc(out@, l) <==> test_loc_upto(
                                    rs@,
                                    ei as int,
                                    bj as int,
                                    tk as int,
                                    l,
                                ),
                            forall|x: int, y: int| 0 <= x < y < out@.len() ==> out@[x]@ != out@[y]@,
                        decreases tn - tk,
                    {
                        proof {
                            assert(entry_blocks(rs@[ei as int])[bj as int] == blocks@[bj as int]@);
                            assert(entry_blocks(rs@[ei as int])[bj as int].tests[tk as int]
                                == tests@[tk as int]@);
                        }
                        if !tests[tk].passed {
                            let l_loc = &tests[tk].loc;
                            let ghost l0 = l_loc@;
                            proof {
                                assert(invalid_test_in(rs@, ei as int, bj as int, tk as int, l0));
                            }
                            if !has_test_loc(&out, l_loc) {
                                let ghost pre = out@;
                                out.push(TestMetadata { loc: l_loc.clone() });
                                proof {
                                    let e = out@.last();
                                    assert(out@ == pre.push(e));
                                    assert(e@ == l0);
                                    assert forall|l: Seq<char>|
                                        seq_has_loc(out@, l) <==> test_loc_upto(
                                            rs@,
                                            ei as int,
                                            bj as int,
                                            tk + 1,
                                            l,
                                        ) by {
                                        lemma_has_loc_push(pre, e, l);
                                        lemma_test_upto_push(
                                            rs@,
                                            ei as int,
                                            bj as int,
                                            tk as int,
                                            l0,
                                            l,
                                        );
                                    }
                                    assert forall|x: int, y: int|
                                        0 <= x < y < out@.len() implies out@[x]@ != out@[y]@ by {
                                        if y == out@.len() - 1 {
                                            assert(out@[x] == pre[x]);
                                            if out@[x]@ == l0 {
                                                assert(seq_has_loc(pre, l0));
                                            }
                                        }
                                    }
                                }
                            } else {
                                proof {
                                    assert forall|l: Seq<char>|
                                        seq_has_loc(out@, l) <==> test_loc_upto(
                                            rs@,
                                            ei as int,
                                            bj as int,
                                            tk + 1,
                                            l,
                                        ) by {
                                        lemma_test_upto_push(
                                            rs@,
                                            ei as int,
                                            bj as int,
                                            tk as int,
                                            l0,
                                            l,
                                        );
                                    }
                                }
                            }
                        } else {
                            proof {
                                assert forall|l: Seq<char>|
                                    seq_has_loc(out@, l) <==> test_loc_upto(
                                        rs@,
                                        ei as int,
                                        bj as int,
                                        tk + 1,
                                        l,
                                    ) by {
                                    lemma_test_upto_skip(rs@, ei as int, bj as int, tk as int, l);
                                }
                            }
                        }
                        tk = tk + 1;
                    }
                    proof {
                        assert forall|l: Seq<char>|
                            seq_has_loc(out@, l) <==> test_loc_upto(rs@, ei as int, bj + 1, 0, l) by {
                            lemma_test_upto_block(rs@, ei as int, bj as int, tn as int, l);
                        }
                    }
                    bj = bj + 1;
                }
                bcount = bn;
            }
        }
        proof {
            assert forall|l: Seq<char>|
                seq_has_loc(out@, l) <==> test_loc_upto(rs@, ei + 1, 0, 0, l) by {
                lemma_test_upto_entry(rs@, ei as int, bcount as int, l);
            }
        }
        ei = ei + 1;
    }
    proof {
        assert forall|l: Seq<char>|
            invalid_test_locs(rs@).contains(l) <==> seq_has_loc(out@, l) by {
            if invalid_test_locs(rs@).contains(l) {
                let (i, j, k) = choose|i: int, j: int, k: int| invalid_test_in(rs@, i, j, k, l);
                assert((i < n as int || (i == n as int && j < 0) || (i == n as int && j == 0 && k
                    < 0)) && invalid_test_in(rs@, i, j, k, l));
            }
            if seq_has_loc(out@, l) {
                let (i, j, k) = choose|i: int, j: int, k: int|
                    (i < n as int || (i == n as int && j < 0) || (i == n as int && j == 0 && k < 0))
                        && #[trigger] invalid_test_in(rs@, i, j, k, l);
                assert(invalid_test_locs(rs@).contains(l));
            }
        }
    }
    out
}

/// The block at `loc` is discounted: some wheat-erroring block has the same
/// last path segment. Matching on the final path component tolerates
/// reference and chaff locations that differ only in directory prefix.
pub open spec fn block_dropped(rs: Seq<ResultEntry>, loc: Seq<char>) -> bool {
    exists|m: (Seq<char>, Seq<char>)|
        #[trigger] invalid_block_metas(rs).contains(m) && last_segment(m.1) == last_segment(loc)
}

/// The test at `loc` is discounted: some wheat-failed test has the same
/// last path segment.
pub open spec fn test_dropped(rs: Seq<ResultEntry>, loc: Seq<char>) -> bool {
    exists|l: Seq<char>|
        #[trigger] invalid_test_locs(rs).contains(l) && last_segment(l) == last_segment(loc)
}

/// After discounting unreliable tests, the block ran without error and
/// every surviving test passed.
pub open spec fn filtered_block_clean(rs: Seq<ResultEntry>, b: TestBlockView) -> bool {
    &&& !b.error
    &&& forall|k: int|
        0 <= k < b.tests.len() && !test_dropped(rs, (#[trigger] b.tests[k]).loc)
            ==> b.tests[k].passed
}

/// After discounting unreliable blocks and tests, everything that survives
/// passed.
pub open spec fn filtered_all_passed(rs: Seq<ResultEntry>, bs: Seq<TestBlockView>) -> bool {
    forall|j: int|
        0 <= j < bs.len() && !block_dropped(rs, (#[trigger] bs[j]).loc) ==> filtered_block_clean(
            rs,
            bs[j],
        )
}

/// A chaff is rejected when its evaluation, reduced to the blocks and tests
/// that the wheats could validate, is not all-passing. A chaff that crashed
/// outright is correctly rejected.
pub open spec fn chaff_rejected_spec(
    rs: Seq<ResultEntry>,
    result: Result<Seq<TestBlockView>, Error>,
) -> bool {
    match result {
        Ok(bs) => !filtered_all_passed(rs, bs),
        Err(_) => true,
    }
}

/// Whether some collected block identity shares its last path segment with
/// `loc`.
fn matches_any_block_seg(iv: &Vec<TestBlockMetadata>, loc: &String) -> (r: bool)
    ensures
        r == exists|x: int|
            0 <= x < iv@.len() && last_segment((#[trigger] iv@[x]).loc@) == last_segment(loc@),
{
    let target = last_segment_of(loc.as_str());
    let n = iv.len();
    let mut x: usize = 0;
    while x < n
        invariant
            n == iv@.len(),
            x <= n,
            target@ == last_segment(loc@),
            forall|y: int| 0 <= y < x ==> last_segment((#[trigger] iv@[y]).loc@) != last_segment(loc@),
        decreases n - x,
    {
        let seg = last_segment_of(iv[x].loc.as_str());
        if seg == target {
            return true;
        }
        x = x + 1;
    }
    false
}

/// Whether some collected test location shares its last path segment with
/// `loc`.
fn matches_any_test_seg(iv: &Vec<TestMetadata>, loc: &String) -> (r: bool)
    ensures
        r == exists|x: int|
            0 <= x < iv@.len() && last_segment((#[trigger] iv@[x]).loc@) == last_segment(loc@),
{
    let target = last_segment_of(loc.as_str());
    let n = iv.len();
    let mut x: usize = 0;
    while x < n
        invariant
            n == iv@.len(),
            x <= n,
            target@ == last_segment(loc@),
            forall|y: int| 0 <= y < x ==> last_segment((#[trigger] iv@[y]).loc@) != last_segment(loc@),
        decreases n - x,
    {
        let seg = last_segment_of(iv[x].loc.as_str());
        if seg == target {
            return true;
        }
        x = x + 1;
    }
    false
}

proof fn lemma_block_dropped_iff(rs: Seq<ResultEntry>, iv: Seq<TestBlockMetadata>, loc: Seq<char>)
    requires
        forall|m: (Seq<char>, Seq<char>)|
            invalid_block_metas(rs).contains(m) <==> seq_has_pair(iv, m),
    ensures
        block_dropped(rs, loc) <==> exists|x: int|
            0 <= x < iv.len() && last_segment((#[trigger] iv[x]).loc@) == last_segment(loc),
{
    if block_dropped(rs, loc) {
        let m = choose|m: (Seq<char>, Seq<char>)|
            #[trigger] invalid_block_metas(rs).contains(m) && last_segment(m.1) == last_segment(
                loc,
            );
        assert(seq_has_pair(iv, m));
        let x = choose|x: int| 0 <= x < iv.len() && (#[trigger] iv[x])@ == m;
        assert(last_segment((iv[x]).loc@) == last_segment(loc));
    }
    if exists|x: int|
        0 <= x < iv.len() && last_segment((#[trigger] iv[x]).loc@) == last_segment(loc) {
        let x = choose|x: int|
            0 <= x < iv.len() && last_segment((#[trigger] iv[x]).loc@) == last_segment(loc);
        let m = iv[x]@;
        assert(seq_has_pair(iv, m));
        assert(invalid_block_metas(rs).contains(m) && last_segment(m.1) == last_segment(loc));
    }
}

proof fn lemma_test_dropped_iff(rs: Seq<ResultEntry>, iv: Seq<TestMetadata>, loc: Seq<char>)
    requires
        forall|l: Seq<char>| invalid_test_locs(rs).contains(l) <==> seq_has_loc(iv, l),
    ensures
        test_dropped(rs, loc) <==> exists|x: int|
            0 <= x < iv.len() && last_segment((#[trigger] iv[x]).loc@) == last_segment(loc),
{
    if test_dropped(rs, loc) {
        let l = choose|l: Seq<char>|
            #[trigger] invalid_test_locs(rs).contains(l) && last_segment(l) == last_segment(loc);
        assert(seq_has_loc(iv, l));
        let x = choose|x: int| 0 <= x < iv.len() && (#[trigger] iv[x])@ == l;
        assert(last_segment((iv[x]).loc@) == last_segment(loc));
    }
    if exists|x: int|
        0 <= x < iv.len() && last_segment((#[trigger] iv[x]).loc@) == last_segment(loc) {
        let x = choose|x: int|
            0 <= x < iv.len() && last_segment((#[trigger] iv[x]).loc@) == last_segment(loc);
        let l = iv[x]@;
        assert(seq_has_loc(iv, l));
        assert(invalid_test_locs(rs).contains(l) && last_segment(l) == last_segment(loc));
    }
}

/// Whether the chaff evaluation `result` is rejected once every block and
/// test that the wheats could not validate has been discounted.
#[verifier::loop_isolation(false)]
fn chaff_rejected_exec(
    inv_b: &Vec<TestBlockMetadata>,
    inv_t: &Vec<TestMetadata>,
    result: &Result<Vec<TestBlock>, Error>,
    Ghost(rs): Ghost<Seq<ResultEntry>>,
) -> (r: bool)
    requires
        forall|m: (Seq<char>, Seq<char>)|
            invalid_block_metas(rs).contains(m) <==> seq_has_pair(inv_b@, m),
        forall|l: Seq<char>| invalid_test_locs(rs).contains(l) <==> seq_has_loc(inv_t@, l),
    ensures
        r == chaff_rejected_spec(rs, result_view(result)),
{
    match result {
        Err(_) => true,
        Ok(blocks) => {
            let bn = blocks.len();
            let mut bj: usize = 0;
            while bj < bn
                invariant
                    bj <= bn,
                    bn == blocks@.len(),
                    forall|j: int|
                        0 <= j < bj && !block_dropped(rs, (#[trigger] blocks.deep_view()[j]).loc)
                            ==> filtered_block_clean(rs, blocks.deep_view()[j]),
                decreases bn - bj,
            {
                proof {
                    assert(blocks.deep_view()[bj as int] == blocks@[bj as int]@);
                    lemma_block_dropped_iff(rs, inv_b@, blocks@[bj as int].loc@);
                }
                let dropped = matches_any_block_seg(inv_b, &blocks[bj].loc);
                if !dropped {
                    if blocks[bj].error {
                        assert(!filtered_block_clean(rs, blocks.deep_view()[bj as int]));
                        return true;
                    }
                    let tests = &blocks[bj].tests;
                    let tn = tests.len();
                    let mut tk: usize = 0;
                    while tk < tn
                        invariant
                            tk <= tn,
                            tn == tests@.len(),
                            bj < bn == blocks@.len(),
                            tests == &blocks@[bj as int].tests,
                            forall|k: int|
                                0 <= k < tk && !test_dropped(
                                    rs,
                                    (#[trigger] blocks.deep_view()[bj as int].tests[k]).loc,
                                ) ==> blocks.deep_view()[bj as int].tests[k].passed,
                        decreases tn - tk,
                    {
                        proof {
                            assert(blocks.deep_view()[bj as int] == blocks@[bj as int]@);
                            assert(blocks.deep_view()[bj as int].tests[tk as int]
                                == tests@[tk as int]@);
                            lemma_test_dropped_iff(rs, inv_t@, tests@[tk as int].loc@);
                        }
                        let tdropped = matches_any_test_seg(inv_t, &tests[tk].loc);
                        if !tdropped && !tests[tk].passed {
                            assert(!filtered_block_clean(rs, blocks.deep_view()[bj as int]));
                            return true;
                        }
                        tk = tk + 1;
                    }
                    assert(filtered_block_clean(rs, blocks.deep_view()[bj as int]));
                }
                bj = bj + 1;
            }
            assert(filtered_all_passed(rs, blocks.deep_view()));
            false
        },
    }
}

/// Diagnostics surfaced to a suite author when some wheat could not be
/// fully validated: the erroring wheat blocks and the wheat-failed tests.
#[derive(Debug, PartialEq, Eq)]
pub struct FailureReasons {
    pub erroring_blocks: Vec<TestBlockMetadata>,
    pub failing_tests: Vec<TestMetadata>,
}

/// The grade of one test suite under test: acceptance of each wheat,
/// rejection of each chaff, and the diagnostic of unreliable wheat blocks
/// and tests, when any exist.
#[derive(Debug, PartialEq, Eq)]
pub struct TestSuiteEvaluation {
    pub wheats_accepted: Vec<(Implementation, bool)>,
    pub chaffs_rejected: Vec<(Implementation, bool)>,
    pub wheat_failure_reasons: Option<FailureReasons>,
}

impl Default for TestSuiteEvaluation {
    /// An empty grade: no wheats, no chaffs, no failure reasons.
    fn default() -> (r: TestSuiteEvaluation)
        ensures
            r.wheats_accepted@.len() == 0,
            r.chaffs_rejected@.len() == 0,
            r.wheat_failure_reasons is None,
    {
        TestSuiteEvaluation {
            wheats_accepted: Vec::new(),
            chaffs_rejected: Vec::new(),
            wheat_failure_reasons: None,
        }
    }
}

/// The wheat entries of `rs`, in input order.
pub open spec fn wheat_entries(rs: Seq<ResultEntry>) -> Seq<ResultEntry> {
    rs.filter(|e: ResultEntry| entry_is_wheat(e))
}

/// The chaff entries of `rs`, in input order.
pub open spec fn chaff_entries(rs: Seq<ResultEntry>) -> Seq<ResultEntry> {
    rs.filter(|e: ResultEntry| entry_is_chaff(e))
}

proof fn lemma_entry_filter_push(s: Seq<ResultEntry>, pred: spec_fn(ResultEntry) -> bool, x: ResultEntry)
    ensures
        pred(x) ==> s.push(x).filter(pred) =~= s.filter(pred).push(x),
        !pred(x) ==> s.push(x).filter(pred) =~= s.filter(pred),
{
    reveal(Seq::filter);
    assert(s.push(x).drop_last() =~= s);
    assert(s.push(x).last() == x);
}

/// Grades a test suite under test from the raw results of its reference
/// evaluations, one per reference implementation.
///
/// Every wheat entry is accepted exactly when its evaluation passed in
/// full. Every chaff entry is rejected exactly when its evaluation, after
/// discounting the blocks and tests that some wheat itself errored on or
/// failed, is not all-passing; a chaff whose evaluation errored counts as
/// rejected. The failure-reason diagnostic is present exactly when some
/// wheat block errored or some wheat test failed, and then lists each
/// offending block identity and test location once.
#[verifier::loop_isolation(false)]
pub fn summarize(results: &Vec<ResultEntry>) -> (r: TestSuiteEvaluation)
    ensures
        r.wheats_accepted@.len() == wheat_entries(results@).len(),
        forall|i: int|
            0 <= i < r.wheats_accepted@.len() ==> {
                &&& (#[trigger] r.wheats_accepted@[i]).0@ == wheat_entries(results@)[i].0@
                &&& r.wheats_accepted@[i].1 == verdict_spec(
                    result_view(&wheat_entries(results@)[i].1),
                )
            },
        r.chaffs_rejected@.len() == chaff_entries(results@).len(),
        forall|i: int|
            0 <= i < r.chaffs_rejected@.len() ==> {
                &&& (#[trigger] r.chaffs_rejected@[i]).0@ == chaff_entries(results@)[i].0@
                &&& r.chaffs_rejected@[i].1 == chaff_rejected_spec(
                    results@,
                    result_view(&chaff_entries(results@)[i].1),
                )
            },
        (r.wheat_failure_reasons is Some) <==> ((exists|m: (Seq<char>, Seq<char>)|
            invalid_block_metas(results@).contains(m)) || (exists|l: Seq<char>|
            invalid_test_locs(results@).contains(l))),
        r.wheat_failure_reasons matches Some(fr) ==> {
            &&& forall|m: (Seq<char>, Seq<char>)|
                invalid_block_metas(results@).contains(m) <==> seq_has_pair(
                    fr.erroring_blocks@,
                    m,
                )
            &&& forall|x: int, y: int|
                0 <= x < y < fr.erroring_blocks@.len() ==> fr.erroring_blocks@[x]@
                    != fr.erroring_blocks@[y]@
            &&& forall|l: Seq<char>|
                invalid_test_locs(results@).contains(l) <==> seq_has_loc(fr.failing_tests@, l)
            &&& forall|x: int, y: int|
                0 <= x < y < fr.failing_tests@.len() ==> fr.failing_tests@[x]@
                    != fr.failing_tests@[y]@
        },
{
    let rs = results;
    let n = rs.len();
    let inv_b = collect_invalid_blocks(results);
    let inv_t = collect_invalid_tests(results);
    let mut wheats: Vec<(Implementation, bool)> = Vec::new();
    let mut chaffs: Vec<(Implementation, bool)> = Vec::new();
    let mut i: usize = 0;
    proof {
        assert(rs@.subrange(0, 0int) =~= Seq::<ResultEntry>::empty());
        reveal(Seq::filter);
    }
    while i < n
        invariant
            i <= n,
            wheats@.len() == wheat_entries(rs@.subrange(0, i as int)).len(),
            forall|k: int|
                0 <= k < wheats@.len() ==> {
                    &&& (#[trigger] wheats@[k]).0@ == wheat_entries(rs@.subrange(0, i as int))[k].0@
                    &&& wheats@[k].1 == verdict_spec(
                        result_view(&wheat_entries(rs@.subrange(0, i as int))[k].1),
                    )
                },
            chaffs@.len() == chaff_entries(rs@.subrange(0, i as int)).len(),
            forall|k: int|
                0 <= k < chaffs@.len() ==> {
                    &&& (#[trigger] chaffs@[k]).0@ == chaff_entries(rs@.subrange(0, i as int))[k].0@
                    &&& chaffs@[k].1 == chaff_rejected_spec(
                        rs@,
                        result_view(&chaff_entries(rs@.subrange(0, i as int))[k].1),
                    )
                },
        decreases n - i,
    {
        proof {
            assert(rs@.subrange(0, i + 1) =~= rs@.subrange(0, i as int).push(rs@[i as int]));
            lemma_entry_filter_push(
                rs@.subrange(0, i as int),
                |e: ResultEntry| entry_is_wheat(e),
                rs@[i as int],
            );
            lemma_entry_filter_push(
                rs@.subrange(0, i as int),
                |e: ResultEntry| entry_is_chaff(e),
                rs@[i as int],
            );
        }
        if rs[i].0.is_wheat() {
            let v = verdict_of(&rs[i].1);
            wheats.push((rs[i].0.clone(), v));
        }
        if rs[i].0.is_chaff() {
            let c = chaff_rejected_exec(&inv_b, &inv_t, &rs[i].1, Ghost(rs@));
            chaffs.push((rs[i].0.clone(), c));
        }
        i = i + 1;
    }
    proof {
        assert(rs@.subrange(0, n as int) =~= rs@);
    }
    let any_invalid = inv_b.len() > 0 || inv_t.len() > 0;
    proof {
        if inv_b@.len() > 0 {
            assert(seq_has_pair(inv_b@, inv_b@[0]@));
        }
        if inv_t@.len() > 0 {
            assert(seq_has_loc(inv_t@, inv_t@[0]@));
        }
        if exists|m: (Seq<char>, Seq<char>)| invalid_block_metas(rs@).contains(m) {
            let m = choose|m: (Seq<char>, Seq<char>)| invalid_block_metas(rs@).contains(m);
            assert(seq_has_pair(inv_b@, m));
            assert(inv_b@.len() > 0);
        }
        if exists|l: Seq<char>| invalid_test_locs(rs@).contains(l) {
            let l = choose|l: Seq<char>| invalid_test_locs(rs@).contains(l);
            assert(seq_has_loc(inv_t@, l));
            assert(inv_t@.len() > 0);
        }
    }
    let wheat_failure_reasons = if any_invalid {
        Some(FailureReasons { erroring_blocks: inv_b, failing_tests: inv_t })
    } else {
        None
    };
    TestSuiteEvaluation { wheats_accepted: wheats, chaffs_rejected: chaffs, wheat_failure_reasons }
}

} // verus!

//! The soundness and equivalence engine: judges which test suites agree
//! with a chosen ground truth, which implementations pass every suite
//! judged sound, and which test suites behave identically across the
//! implementation population.

use vstd::prelude::*;

use crate::aggregate::result_view;
use crate::aggregate::verdict_of;
use crate::aggregate::verdict_spec;
use crate::model::Evaluation;
use crate::model::Implementation;
use crate::model::TestSuite;

verus! {

/// Per-implementation boolean verdicts for one test suite: one row of the
/// results matrix, keyed by implementation identifier.
#[derive(Debug, PartialEq, Eq)]
pub struct SuiteVerdicts {
    pub verdicts: Vec<(Implementation, bool)>,
}

impl View for SuiteVerdicts {
    type V = Seq<(Seq<char>, bool)>;

    open spec fn view(&self) -> Seq<(Seq<char>, bool)> {
        self.verdicts.deep_view()
    }
}

impl DeepView for SuiteVerdicts {
    type V = Seq<(Seq<char>, bool)>;

    open spec fn deep_view(&self) -> Seq<(Seq<char>, bool)> {
        self.view()
    }
}

/// No implementation key occurs twice in the row.
pub open spec fn row_wf(row: Seq<(Seq<char>, bool)>) -> bool {
    forall|x: int, y: int|
        0 <= x < y < row.len() ==> (#[trigger] row[x]).0 != (#[trigger] row[y]).0
}

/// The row holds a verdict for key `k`.
pub open spec fn row_has(row: Seq<(Seq<char>, bool)>, k: Seq<char>) -> bool {
    exists|x: int| 0 <= x < row.len() && (#[trigger] row[x]).0 == k
}

/// The position of key `k` in the row.
pub open spec fn row_index(row: Seq<(Seq<char>, bool)>, k: Seq<char>) -> int {
    choose|x: int| 0 <= x < row.len() && (#[trigger] row[x]).0 == k
}

/// The verdict the row holds for key `k`.
pub open spec fn row_get(row: Seq<(Seq<char>, bool)>, k: Seq<char>) -> bool {
    row[row_index(row, k)].1
}

/// The set of implementation keys the row holds a verdict for.
pub open spec fn row_keys(row: Seq<(Seq<char>, bool)>) -> Set<Seq<char>> {
    Set::new(|k: Seq<char>| row_has(row, k))
}

impl SuiteVerdicts {
    /// No implementation key occurs twice.
    pub open spec fn wf(&self) -> bool {
        row_wf(self@)
    }

    /// The verdict recorded for `key`, if any.
    pub fn get(&self, key: &Implementation) -> (r: Option<bool>)
        requires
            self.wf(),
        ensures
            r == if row_has(self@, key@) {
                Some(row_get(self@, key@))
            } else {
                None::<bool>
            },
    {
        let n = self.verdicts.len();
        let mut x: usize = 0;
        while x < n
            invariant
                n == self@.len(),
                n == self.verdicts@.len(),
                x <= n,
                self.wf(),
                forall|y: int| 0 <= y < x ==> (#[trigger] self@[y]).0 != key@,
            decreases n - x,
        {
            if self.verdicts[x].0.0 == key.0 {
                proof {
                    assert(self@[x as int].0 == key@);
                    assert(row_has(self@, key@));
                    let x2 = row_index(self@, key@);
                    assert(0 <= x2 < self@.len() && self@[x2].0 == key@);
                    assert(x2 == x as int);
                }
                return Some(self.verdicts[x].1);
            }
            x = x + 1;
        }
        proof {
            if row_has(self@, key@) {
                let x2 = choose|x2: int|
                    0 <= x2 < self@.len() && (#[trigger] self@[x2]).0 == key@;
                assert(false);
            }
        }
        None
    }
}

/// Verdict map `a` implies verdict map `b`: wherever both record a verdict
/// for the same implementation, the verdicts agree. A key absent from one
/// side never contradicts, so this relation compares maps only on their
/// common keys.
pub open spec fn implies_maps(a: Seq<(Seq<char>, bool)>, b: Seq<(Seq<char>, bool)>) -> bool {
    forall|x: int, y: int|
        0 <= x < a.len() && 0 <= y < b.len() && (#[trigger] a[x]).0 == (#[trigger] b[y]).0
            ==> a[x].1 == b[y].1
}

/// Verdict maps `a` and `b` are behaviourally equivalent: each implies the
/// other.
pub open spec fn equivalent_maps(a: Seq<(Seq<char>, bool)>, b: Seq<(Seq<char>, bool)>) -> bool {
    implies_maps(a, b) && implies_maps(b, a)
}

/// Whether `a` implies `b`: for every implementation both rows record, the
/// verdicts agree.
#[verifier::loop_isolation(false)]
pub fn implies(a: &SuiteVerdicts, b: &SuiteVerdicts) -> (r: bool)
    ensures
        r == implies_maps(a@, b@),
{
    let an = a.verdicts.len();
    let bn = b.verdicts.len();
    let mut x: usize = 0;
    while x < an
        invariant
            x <= an == a@.len(),
            bn == b@.len(),
            forall|x2: int, y: int|
                0 <= x2 < x && 0 <= y < b@.len() && (#[trigger] a@[x2]).0 == (#[trigger] b@[y]).0
                    ==> a@[x2].1 == b@[y].1,
        decreases an - x,
    {
        let mut y: usize = 0;
        while y < bn
            invariant
                x < an == a@.len(),
                y <= bn == b@.len(),
                forall|y2: int|
                    0 <= y2 < y && (a@[x as int]).0 == (#[trigger] b@[y2]).0 ==> a@[x as int].1
                        == b@[y2].1,
            decreases bn - y,
        {
            if a.verdicts[x].0.0 == b.verdicts[y].0.0 {
                if a.verdicts[x].1 != b.verdicts[y].1 {
                    assert(a@[x as int].0 == b@[y as int].0 && a@[x as int].1 != b@[y as int].1);
                    return false;
                }
            }
            y = y + 1;
        }
        x = x + 1;
    }
    true
}

/// Whether `a` and `b` are behaviourally equivalent: same verdict for every
/// implementation both were run against.
pub fn equivalent(a: &SuiteVerdicts, b: &SuiteVerdicts) -> (r: bool)
    ensures
        r == equivalent_maps(a@, b@),
{
    let fwd = implies(a, b);
    if !fwd {
        return false;
    }
    implies(b, a)
}

/// `implies` is reflexive: every verdict map implies itself.
pub proof fn lemma_implies_reflexive(a: Seq<(Seq<char>, bool)>)
    requires
        row_wf(a),
    ensures
        implies_maps(a, a),
{
    assert forall|x: int, y: int|
        0 <= x < a.len() && 0 <= y < a.len() && (#[trigger] a[x]).0 == (#[trigger] a[y]).0
            implies a[x].1 == a[y].1 by {
        if x < y {
            assert(a[x].0 != a[y].0);
        } else if y < x {
            assert(a[y].0 != a[x].0);
        }
    }
}

/// `equivalent` is reflexive: every verdict map is equivalent to itself.
pub proof fn lemma_equivalent_reflexive(a: Seq<(Seq<char>, bool)>)
    requires
        row_wf(a),
    ensures
        equivalent_maps(a, a),
{
    lemma_implies_reflexive(a);
}

/// `equivalent` is symmetric.
pub proof fn lemma_equivalent_symmetric(a: Seq<(Seq<char>, bool)>, b: Seq<(Seq<char>, bool)>)
    ensures
        equivalent_maps(a, b) == equivalent_maps(b, a),
{
}

/// `equivalent` is transitive over maps with one shared key domain. Without
/// the shared domain it is not: an empty middle map is equivalent to
/// everything.
pub proof fn lemma_equivalent_transitive(
    a: Seq<(Seq<char>, bool)>,
    b: Seq<(Seq<char>, bool)>,
    c: Seq<(Seq<char>, bool)>,
)
    requires
        row_keys(a) == row_keys(b),
        equivalent_maps(a, b),
        equivalent_maps(b, c),
    ensures
        equivalent_maps(a, c),
{
    assert forall|x: int, y: int|
        0 <= x < a.len() && 0 <= y < c.len() && (#[trigger] a[x]).0 == (#[trigger] c[y]).0
            implies a[x].1 == c[y].1 by {
        let k = a[x].0;
        assert(row_has(a, k));
        assert(row_keys(a).contains(k));
        assert(row_keys(b).contains(k));
        let z = choose|z: int| 0 <= z < b.len() && (#[trigger] b[z]).0 == k;
        assert(a[x].1 == b[z].1);
        assert(b[z].1 == c[y].1);
    }
}

/// The model of a results matrix: per suite, its verdict row.
pub type MatrixView = Seq<(Seq<char>, Seq<(Seq<char>, bool)>)>;

/// The complete results matrix: one verdict row per test suite.
#[derive(Debug, PartialEq, Eq)]
pub struct ResultsMatrix {
    pub rows: Vec<(TestSuite, SuiteVerdicts)>,
}

impl View for ResultsMatrix {
    type V = MatrixView;

    open spec fn view(&self) -> MatrixView {
        self.rows.deep_view()
    }
}

/// No suite key occurs twice, and no row holds two verdicts for one
/// implementation.
pub open spec fn matrix_wf(mv: MatrixView) -> bool {
    &&& forall|x: int, y: int|
        0 <= x < y < mv.len() ==> (#[trigger] mv[x]).0 != (#[trigger] mv[y]).0
    &&& forall|x: int| 0 <= x < mv.len() ==> row_wf((#[trigger] mv[x]).1)
}

impl ResultsMatrix {
    /// No suite key occurs twice, and no row holds two verdicts for one
    /// implementation.
    pub open spec fn wf(&self) -> bool {
        matrix_wf(self@)
    }
}

/// Every row of the matrix records verdicts for one shared set of
/// implementations.
pub open spec fn uniform_domain(mv: MatrixView) -> bool {
    forall|x: int, y: int|
        0 <= x < mv.len() && 0 <= y < mv.len() ==> row_keys((#[trigger] mv[x]).1) == row_keys(
            (#[trigger] mv[y]).1,
        )
}

/// The total number of indices held by a sequence of buckets.
pub open spec fn sum_sizes(bs: Seq<Vec<usize>>) -> nat
    decreases bs.len(),
{
    if bs.len() == 0 {
        0
    } else {
        sum_sizes(bs.drop_last()) + bs.last()@.len()
    }
}

proof fn lemma_sum_sizes_push(bs: Seq<Vec<usize>>, v: Vec<usize>)
    ensures
        sum_sizes(bs.push(v)) == sum_sizes(bs) + v@.len(),
{
    assert(bs.push(v).drop_last() =~= bs);
    assert(bs.push(v).last() == v);
}

proof fn lemma_sum_sizes_update(bs: Seq<Vec<usize>>, idx: int, v: Vec<usize>)
    requires
        0 <= idx < bs.len(),
    ensures
        sum_sizes(bs.update(idx, v)) + bs[idx]@.len() == sum_sizes(bs) + v@.len(),
    decreases bs.len(),
{
    if idx == bs.len() - 1 {
        assert(bs.update(idx, v).drop_last() =~= bs.drop_last());
        assert(bs.update(idx, v).last() == v);
    } else {
        lemma_sum_sizes_update(bs.drop_last(), idx, v);
        assert(bs.update(idx, v).drop_last() =~= bs.drop_last().update(idx, v));
        assert(bs.update(idx, v).last() == bs.last());
    }
}

/// Row index `r0` stands at position `i` of bucket `b`.
pub open spec fn in_bucket(buckets: Seq<Vec<usize>>, b: int, i: int, r0: int) -> bool {
    0 <= b < buckets.len() && 0 <= i < buckets[b]@.len() && buckets[b]@[i] == r0
}

/// Row index `r0` stands somewhere in the buckets.
pub open spec fn bucketed(buckets: Seq<Vec<usize>>, r0: int) -> bool {
    exists|b: int, i: int| #[trigger] in_bucket(buckets, b, i, r0)
}

/// The first bucket whose representative row is equivalent to row `r` of
/// the matrix, or the bucket count when no bucket matches.
#[verifier::loop_isolation(false)]
fn find_bucket(buckets: &Vec<Vec<usize>>, m: &ResultsMatrix, r: usize) -> (t: usize)
    requires
        r < m.rows@.len(),
        forall|b: int| 0 <= b < buckets@.len() ==> (#[trigger] buckets@[b])@.len() > 0,
        forall|b: int, i: int|
            0 <= b < buckets@.len() && 0 <= i < buckets@[b]@.len() ==> (#[trigger] buckets@[b]@[i])
                < m.rows@.len(),
    ensures
        t <= buckets@.len(),
        forall|b2: int|
            0 <= b2 < t ==> !equivalent_maps(
                m@[(#[trigger] buckets@[b2])@[0] as int].1,
                m@[r as int].1,
            ),
        t < buckets@.len() ==> equivalent_maps(
            m@[buckets@[t as int]@[0] as int].1,
            m@[r as int].1,
        ),
{
    let bn = buckets.len();
    let mut b: usize = 0;
    while b < bn
        invariant
            b <= bn,
            forall|b2: int|
                0 <= b2 < b ==> !equivalent_maps(
                    m@[(#[trigger] buckets@[b2])@[0] as int].1,
                    m@[r as int].1,
                ),
        decreases bn - b,
    {
        let rep = buckets[b][0];
        proof {
            assert(m@[rep as int].1 == m.rows@[rep as int].1@);
            assert(m@[r as int].1 == m.rows@[r as int].1@);
        }
        if equivalent(&self_row(m, rep), &self_row(m, r)) {
            return b;
        }
        b = b + 1;
    }
    bn
}

/// The verdict row of suite `r` in the matrix.
fn self_row(m: &ResultsMatrix, r: usize) -> (row: &SuiteVerdicts)
    requires
        r < m.rows@.len(),
    ensures
        row@ == m@[r as int].1,
{
    proof {
        assert(m@[r as int].1 == m.rows@[r as int].1@);
    }
    &m.rows[r].1
}

/// Groups the matrix's suites into behavioural equivalence classes, as
/// groups of row indices. Every row index lands in exactly one bucket, so
/// the bucket sizes add up to the number of suites. Each member's row is
/// equivalent to its bucket's representative (first) row, and two distinct
/// representatives are never equivalent. When every row shares one
/// implementation domain, equivalence is transitive, and then any two rows
/// in one bucket are equivalent and rows of different buckets never are.
#[verifier::loop_isolation(false)]
pub fn bucket(m: &ResultsMatrix) -> (buckets: Vec<Vec<usize>>)
    requires
        m.wf(),
    ensures
        forall|b: int, i: int|
            0 <= b < buckets@.len() && 0 <= i < buckets@[b]@.len() ==> (#[trigger] buckets@[b]@[i])
                < m.rows@.len(),
        forall|b: int| 0 <= b < buckets@.len() ==> (#[trigger] buckets@[b])@.len() > 0,
        forall|r0: int| 0 <= r0 < m.rows@.len() ==> #[trigger] bucketed(buckets@, r0),
        forall|b1: int, i1: int, b2: int, i2: int|
            0 <= b1 < buckets@.len() && 0 <= i1 < buckets@[b1]@.len() && 0 <= b2 < buckets@.len()
                && 0 <= i2 < buckets@[b2]@.len() && (b1, i1) != (b2, i2) ==> buckets@[b1]@[i1]
                != buckets@[b2]@[i2],
        sum_sizes(buckets@) == m.rows@.len(),
        forall|b: int, i: int|
            0 <= b < buckets@.len() && 0 <= i < buckets@[b]@.len() ==> equivalent_maps(
                m@[buckets@[b]@[0] as int].1,
                m@[(#[trigger] buckets@[b]@[i]) as int].1,
            ),
        forall|b1: int, b2: int|
            0 <= b1 < buckets@.len() && 0 <= b2 < buckets@.len() && b1 != b2 ==> !equivalent_maps(
                m@[(#[trigger] buckets@[b1])@[0] as int].1,
                m@[(#[trigger] buckets@[b2])@[0] as int].1,
            ),
        uniform_domain(m@) ==> forall|b: int, i1: int, i2: int|
            0 <= b < buckets@.len() && 0 <= i1 < buckets@[b]@.len() && 0 <= i2
                < buckets@[b]@.len() ==> equivalent_maps(
                m@[(#[trigger] buckets@[b]@[i1]) as int].1,
                m@[(#[trigger] buckets@[b]@[i2]) as int].1,
            ),
        uniform_domain(m@) ==> forall|b1: int, i1: int, b2: int, i2: int|
            0 <= b1 < buckets@.len() && 0 <= i1 < buckets@[b1]@.len() && 0 <= b2 < buckets@.len()
                && 0 <= i2 < buckets@[b2]@.len() && b1 != b2 ==> !equivalent_maps(
                m@[(#[trigger] buckets@[b1]@[i1]) as int].1,
                m@[(#[trigger] buckets@[b2]@[i2]) as int].1,
            ),
{
    let n = m.rows.len();
    let mut buckets: Vec<Vec<usize>> = Vec::new();
    let mut r: usize = 0;
    while r < n
        invariant
            r <= n == m.rows@.len(),
            forall|b: int, i: int|
                0 <= b < buckets@.len() && 0 <= i < buckets@[b]@.len() ==> (
                #[trigger] buckets@[b]@[i]) < r,
            forall|b: int| 0 <= b < buckets@.len() ==> (#[trigger] buckets@[b])@.len() > 0,
            forall|r0: int| 0 <= r0 < r ==> #[trigger] bucketed(buckets@, r0),
            forall|b1: int, i1: int, b2: int, i2: int|
                0 <= b1 < buckets@.len() && 0 <= i1 < buckets@[b1]@.len() && 0 <= b2
                    < buckets@.len() && 0 <= i2 < buckets@[b2]@.len() && (b1, i1) != (b2, i2)
                    ==> buckets@[b1]@[i1] != buckets@[b2]@[i2],
            sum_sizes(buckets@) == r,
            forall|b: int, i: int|
                0 <= b < buckets@.len() && 0 <= i < buckets@[b]@.len() ==> equivalent_maps(
                    m@[buckets@[b]@[0] as int].1,
                    m@[(#[trigger] buckets@[b]@[i]) as int].1,
                ),
            forall|b1: int, b2: int|
                0 <= b1 < buckets@.len() && 0 <= b2 < buckets@.len() && b1 != b2
                    ==> !equivalent_maps(
                    m@[(#[trigger] buckets@[b1])@[0] as int].1,
                    m@[(#[trigger] buckets@[b2])@[0] as int].1,
                ),
        decreases n - r,
    {
        let t = find_bucket(&buckets, m, r);
        let bn = buckets.len();
        let ghost pre = buckets@;
        if t < bn {
            let mut inner = buckets.remove(t);
            let ghost inner_pre = inner@;
            inner.push(r);
            buckets.insert(t, inner);
            proof {
                assert(buckets@ =~= pre.update(t as int, buckets@[t as int]));
                assert(buckets@[t as int]@ =~= pre[t as int]@.push(r));
                lemma_sum_sizes_update(pre, t as int, buckets@[t as int]);
                assert forall|b1: int, b2: int|
                    0 <= b1 < buckets@.len() && 0 <= b2 < buckets@.len() && b1 != b2
                        implies !equivalent_maps(
                        m@[(#[trigger] buckets@[b1])@[0] as int].1,
                        m@[(#[trigger] buckets@[b2])@[0] as int].1,
                    ) by {
                    assert(buckets@[b1]@[0] == pre[b1]@[0]);
                    assert(buckets@[b2]@[0] == pre[b2]@[0]);
                }
                assert forall|r0: int| 0 <= r0 < r + 1 implies #[trigger] bucketed(
                    buckets@,
                    r0,
                ) by {
                    if r0 < r {
                        assert(bucketed(pre, r0));
                        let (b, i) = choose|b: int, i: int| #[trigger] in_bucket(pre, b, i, r0);
                        assert(in_bucket(buckets@, b, i, r0));
                    } else {
                        assert(in_bucket(buckets@, t as int, pre[t as int]@.len() as int, r0));
                    }
                }
            }
        } else {
            let mut single: Vec<usize> = Vec::new();
            single.push(r);
            buckets.push(single);
            proof {
                assert(buckets@ =~= pre.push(buckets@.last()));
                lemma_sum_sizes_push(pre, buckets@.last());
                assert(m@[r as int].1 == m.rows@[r as int].1@);
                lemma_equivalent_reflexive(m@[r as int].1);
                assert forall|r0: int| 0 <= r0 < r + 1 implies #[trigger] bucketed(
                    buckets@,
                    r0,
                ) by {
                    if r0 < r {
                        assert(bucketed(pre, r0));
                        let (b, i) = choose|b: int, i: int| #[trigger] in_bucket(pre, b, i, r0);
                        assert(in_bucket(buckets@, b, i, r0));
                    } else {
                        assert(in_bucket(buckets@, pre.len() as int, 0, r0));
                    }
                }
            }
        }
        r = r + 1;
    }
    proof {
        if uniform_domain(m@) {
            assert forall|b: int, i1: int, i2: int|
                0 <= b < buckets@.len() && 0 <= i1 < buckets@[b]@.len() && 0 <= i2
                    < buckets@[b]@.len() implies equivalent_maps(
                    m@[(#[trigger] buckets@[b]@[i1]) as int].1,
                    m@[(#[trigger] buckets@[b]@[i2]) as int].1,
                ) by {
                let x = buckets@[b]@[i1] as int;
                let y = buckets@[b]@[i2] as int;
                let rep = buckets@[b]@[0] as int;
                assert(equivalent_maps(m@[rep].1, m@[x].1));
                assert(equivalent_maps(m@[rep].1, m@[y].1));
                lemma_equivalent_transitive(m@[x].1, m@[rep].1, m@[y].1);
            }
            assert forall|b1: int, i1: int, b2: int, i2: int|
                0 <= b1 < buckets@.len() && 0 <= i1 < buckets@[b1]@.len() && 0 <= b2
                    < buckets@.len() && 0 <= i2 < buckets@[b2]@.len() && b1 != b2
                    implies !equivalent_maps(
                    m@[(#[trigger] buckets@[b1]@[i1]) as int].1,
                    m@[(#[trigger] buckets@[b2]@[i2]) as int].1,
                ) by {
                let x = buckets@[b1]@[i1] as int;
                let y = buckets@[b2]@[i2] as int;
                let rep1 = buckets@[b1]@[0] as int;
                let rep2 = buckets@[b2]@[0] as int;
                assert(equivalent_maps(m@[rep1].1, m@[x].1));
                assert(equivalent_maps(m@[rep2].1, m@[y].1));
                if equivalent_maps(m@[x].1, m@[y].1) {
                    lemma_equivalent_transitive(m@[rep1].1, m@[x].1, m@[y].1);
                    lemma_equivalent_transitive(m@[rep1].1, m@[y].1, m@[rep2].1);
                    assert(!equivalent_maps(m@[rep1].1, m@[rep2].1));
                }
            }
        }
    }
    buckets
}

/// The suites named by one bucket of row indices, in bucket order.
pub fn bucket_suites(m: &ResultsMatrix, indices: &Vec<usize>) -> (r: Vec<TestSuite>)
    requires
        forall|i: int| 0 <= i < indices@.len() ==> (#[trigger] indices@[i]) < m.rows@.len(),
    ensures
        r@.len() == indices@.len(),
        forall|i: int|
            0 <= i < indices@.len() ==> (#[trigger] r@[i])@ == m@[indices@[i] as int].0,
{
    let n = indices.len();
    let mut out: Vec<TestSuite> = Vec::new();
    let mut i: usize = 0;
    while i < n
        invariant
            n == indices@.len(),
            i <= n,
            out@.len() == i,
            forall|j: int| 0 <= j < indices@.len() ==> (#[trigger] indices@[j]) < m.rows@.len(),
            forall|j: int| 0 <= j < i ==> (#[trigger] out@[j])@ == m@[indices@[j] as int].0,
        decreases n - i,
    {
        let idx = indices[i];
        proof {
            assert(m@[idx as int].0 == m.rows@[idx as int].0@);
        }
        out.push(m.rows[idx].0.clone());
        i = i + 1;
    }
    out
}

/// The ground truth a soundness analysis is judged against: either a set of
/// test suites known to be correct, or a set of implementations known to be
/// correct references.
#[derive(Debug, PartialEq, Eq)]
pub enum GroundTruth {
    TrustedSuites(Vec<TestSuite>),
    TrustedImplementations(Vec<Implementation>),
}

/// The engine's internal-consistency failure: a verdict was requested for a
/// (suite, implementation) pair that the matrix does not record. This marks
/// malformed input, never an evaluation outcome, and is distinct from the
/// evaluation-level error kinds.
#[derive(Debug, Clone, Copy, PartialEq, Eq, Structural)]
pub enum EngineError {
    MissingResult,
}

/// The matrix records a row for suite key `s`.
pub open spec fn matrix_has(mv: MatrixView, s: Seq<char>) -> bool {
    exists|x: int| 0 <= x < mv.len() && (#[trigger] mv[x]).0 == s
}

/// The position of suite key `s` in the matrix.
pub open spec fn matrix_index(mv: MatrixView, s: Seq<char>) -> int {
    choose|x: int| 0 <= x < mv.len() && (#[trigger] mv[x]).0 == s
}

/// The verdict row the matrix records for suite key `s`.
pub open spec fn matrix_row_of(mv: MatrixView, s: Seq<char>) -> Seq<(Seq<char>, bool)> {
    mv[matrix_index(mv, s)].1
}

/// Implementation key `k` is recorded at position `y` of row `x`.
pub open spec fn impl_at(mv: MatrixView, x: int, y: int, k: Seq<char>) -> bool {
    0 <= x < mv.len() && 0 <= y < mv[x].1.len() && mv[x].1[y].0 == k
}

/// Implementation key `k` appears somewhere in the matrix.
pub open spec fn matrix_impl(mv: MatrixView, k: Seq<char>) -> bool {
    exists|x: int, y: int| #[trigger] impl_at(mv, x, y, k)
}

/// The implementation keys recorded before row `xi`, together with those
/// before position `yj` of row `xi`.
spec fn impl_upto(mv: MatrixView, xi: int, yj: int, k: Seq<char>) -> bool {
    exists|x: int, y: int|
        (x < xi || (x == xi && y < yj)) && #[trigger] impl_at(mv, x, y, k)
}

/// The implementation sequence `d` holds key `k`.
pub open spec fn seq_has_impl(d: Seq<Implementation>, k: Seq<char>) -> bool {
    exists|x: int| 0 <= x < d.len() && (#[trigger] d[x])@ == k
}

impl ResultsMatrix {
    /// The verdict row recorded for `suite`, if any.
    pub fn row_of_suite(&self, suite: &TestSuite) -> (r: Option<&SuiteVerdicts>)
        requires
            self.wf(),
        ensures
            r matches Some(row) ==> matrix_has(self@, suite@) && row@ == matrix_row_of(
                self@,
                suite@,
            ) && row.wf(),
            r is None ==> !matrix_has(self@, suite@),
    {
        let n = self.rows.len();
        let mut x: usize = 0;
        while x < n
            invariant
                n == self@.len(),
                n == self.rows@.len(),
                x <= n,
                self.wf(),
                forall|y: int| 0 <= y < x ==> (#[trigger] self@[y]).0 != suite@,
            decreases n - x,
        {
            if self.rows[x].0.0 == suite.0 {
                proof {
                    assert(self@[x as int].0 == suite@);
                    assert(matrix_has(self@, suite@));
                    let x2 = matrix_index(self@, suite@);
                    assert(0 <= x2 < self@.len() && self@[x2].0 == suite@);
                    assert(x2 == x as int);
                    assert(self.rows@[x as int].1@ == self@[x as int].1);
                }
                return Some(&self.rows[x].1);
            }
            x = x + 1;
        }
        proof {
            if matrix_has(self@, suite@) {
                let x2 = choose|x2: int|
                    0 <= x2 < self@.len() && (#[trigger] self@[x2]).0 == suite@;
                assert(false);
            }
        }
        None
    }
}

/// Whether `d` already holds the implementation key of `key`.
fn has_impl_key(d: &Vec<Implementation>, key: &Implementation) -> (r: bool)
    ensures
        r == seq_has_impl(d@, key@),
{
    let n = d.len();
    let mut x: usize = 0;
    while x < n
        invariant
            n == d@.len(),
            x <= n,
            forall|y: int| 0 <= y < x ==> (#[trigger] d@[y])@ != key@,
        decreases n - x,
    {
        if d[x].0 == key.0 {
            return true;
        }
        x = x + 1;
    }
    false
}

proof fn lemma_impl_upto_step(mv: MatrixView, xi: int, yj: int, k0: Seq<char>, k: Seq<char>)
    requires
        impl_at(mv, xi, yj, k0),
    ensures
        impl_upto(mv, xi, yj + 1, k) <==> (impl_upto(mv, xi, yj, k) || k == k0),
{
    if impl_upto(mv, xi, yj + 1, k) {
        let (x, y) = choose|x: int, y: int|
            (x < xi || (x == xi && y < yj + 1)) && #[trigger] impl_at(mv, x, y, k);
        if !(x < xi || (x == xi && y < yj)) {
            assert(x == xi && y == yj);
            assert(k == k0);
        }
    }
    if impl_upto(mv, xi, yj, k) {
        let (x, y) = choose|x: int, y: int|
            (x < xi || (x == xi && y < yj)) && #[trigger] impl_at(mv, x, y, k);
        assert((x < xi || (x == xi && y < yj + 1)) && impl_at(mv, x, y, k));
    }
    if k == k0 {
        assert((xi < xi || (xi == xi && yj < yj + 1)) && impl_at(mv, xi, yj, k));
    }
}

proof fn lemma_impl_upto_row(mv: MatrixView, xi: int, ycount: int, k: Seq<char>)
    requires
        0 <= xi,
        xi < mv.len() ==> ycount >= mv[xi].1.len(),
        !(xi < mv.len()) ==> ycount == 0,
    ensures
        impl_upto(mv, xi + 1, 0, k) <==> impl_upto(mv, xi, ycount, k),
{
    if impl_upto(mv, xi + 1, 0, k) {
        let (x, y) = choose|x: int, y: int|
            (x < xi + 1 || (x == xi + 1 && y < 0)) && #[trigger] impl_at(mv, x, y, k);
        assert(x < xi || (x == xi && y < ycount));
    }
    if impl_upto(mv, xi, ycount, k) {
        let (x, y) = choose|x: int, y: int|
            (x < xi || (x == xi && y < ycount)) && #[trigger] impl_at(mv, x, y, k);
        assert((x < xi + 1 || (x == xi + 1 && y < 0)) && impl_at(mv, x, y, k));
    }
}

proof fn lemma_has_impl_push(d: Seq<Implementation>, e: Implementation, k: Seq<char>)
    ensures
        seq_has_impl(d.push(e), k) <==> (seq_has_impl(d, k) || e@ == k),
{
    if seq_has_impl(d.push(e), k) {
        let x = choose|x: int| 0 <= x < d.push(e).len() && (#[trigger] d.push(e)[x])@ == k;
        if x < d.len() {
            assert((d[x])@ == k);
        }
    }
    if seq_has_impl(d, k) {
        let x = choose|x: int| 0 <= x < d.len() && (#[trigger] d[x])@ == k;
        assert((d.push(e)[x])@ == k);
    }
    if e@ == k {
        assert((d.push(e)[d.len() as int])@ == k);
    }
}

/// Every implementation that appears anywhere in the matrix, once each.
#[verifier::loop_isolation(false)]
pub fn impl_domain(m: &ResultsMatrix) -> (d: Vec<Implementation>)
    ensures
        forall|k: Seq<char>| #[trigger] matrix_impl(m@, k) <==> seq_has_impl(d@, k),
        forall|x: int, y: int| 0 <= x < y < d@.len() ==> d@[x]@ != d@[y]@,
{
    let n = m.rows.len();
    let mut out: Vec<Implementation> = Vec::new();
    proof {
        assert forall|k: Seq<char>| !impl_upto(m@, 0, 0, k) by {
            if impl_upto(m@, 0, 0, k) {
                let (x, y) = choose|x: int, y: int|
                    (x < 0 || (x == 0 && y < 0)) && #[trigger] impl_at(m@, x, y, k);
                assert(false);
            }
        }
    }
    let mut xi: usize = 0;
    while xi < n
        invariant
            xi <= n == m.rows@.len(),
            n == m@.len(),
            forall|k: Seq<char>| seq_has_impl(out@, k) <==> impl_upto(m@, xi as int, 0, k),
            forall|x: int, y: int| 0 <= x < y < out@.len() ==> out@[x]@ != out@[y]@,
        decreases n - xi,
    {
        let row = &m.rows[xi].1;
        let yn = row.verdicts.len();
        let mut yj: usize = 0;
        proof {
            assert(m@[xi as int].1 == row@);
        }
        while yj < yn
            invariant
                yj <= yn,
                yn == row.verdicts@.len(),
                yn == m@[xi as int].1.len(),
                xi < n == m.rows@.len(),
                row == &m.rows@[xi as int].1,
                forall|k: Seq<char>|
                    seq_has_impl(out@, k) <==> impl_upto(m@, xi as int, yj as int, k),
                forall|x: int, y: int| 0 <= x < y < out@.len() ==> out@[x]@ != out@[y]@,
            decreases yn - yj,
        {
            let key = &row.verdicts[yj].0;
            let ghost k0 = key@;
            proof {
                assert(m@[xi as int].1[yj as int] == row.verdicts@[yj as int].deep_view());
                assert(impl_at(m@, xi as int, yj as int, k0));
            }
            if !has_impl_key(&out, key) {
                let ghost pre = out@;
                out.push(key.clone());
                proof {
                    let e = out@.last();
                    assert(out@ == pre.push(e));
                    assert(e@ == k0);
                    assert forall|k: Seq<char>|
                        seq_has_impl(out@, k) <==> impl_upto(m@, xi as int, yj + 1, k) by {
                        lemma_has_impl_push(pre, e, k);
                        lemma_impl_upto_step(m@, xi as int, yj as int, k0, k);
                    }
                    assert forall|x: int, y: int|
                        0 <= x < y < out@.len() implies out@[x]@ != out@[y]@ by {
                        if y == out@.len() - 1 {
                            assert(out@[x] == pre[x]);
                            if out@[x]@ == k0 {
                                assert(seq_has_impl(pre, k0));
                            }
                        }
                    }
                }
            } else {
                proof {
                    assert forall|k: Seq<char>|
                        seq_has_impl(out@, k) <==> impl_upto(m@, xi as int, yj + 1, k) by {
                        lemma_impl_upto_step(m@, xi as int, yj as int, k0, k);
                    }
                }
            }
            yj = yj + 1;
        }
        proof {
            assert forall|k: Seq<char>|
                seq_has_impl(out@, k) <==> impl_upto(m@, xi + 1, 0, k) by {
                lemma_impl_upto_row(m@, xi as int, yn as int, k);
            }
        }
        xi = xi + 1;
    }
    proof {
        assert forall|k: Seq<char>| #[trigger] matrix_impl(m@, k) <==> seq_has_impl(out@, k) by {
            if matrix_impl(m@, k) {
                let (x, y) = choose|x: int, y: int| #[trigger] impl_at(m@, x, y, k);
                assert((x < n as int || (x == n as int && y < 0)) && impl_at(m@, x, y, k));
            }
            if seq_has_impl(out@, k) {
                let (x, y) = choose|x: int, y: int|
                    (x < n as int || (x == n as int && y < 0)) && #[trigger] impl_at(m@, x, y, k);
                assert(matrix_impl(m@, k));
            }
        }
    }
    out
}

/// The row records a verdict for every trusted implementation.
pub open spec fn row_has_all(row: Seq<(Seq<char>, bool)>, trusted: Seq<Seq<char>>) -> bool {
    forall|i: int| 0 <= i < trusted.len() ==> row_has(row, #[trigger] trusted[i])
}

/// Under trusted implementations, a suite is sound when every trusted
/// implementation passes it.
pub open spec fn b_suite_sound(row: Seq<(Seq<char>, bool)>, trusted: Seq<Seq<char>>) -> bool {
    forall|i: int| 0 <= i < trusted.len() ==> row_get(row, #[trigger] trusted[i])
}

/// Every row of the matrix records a verdict for every trusted
/// implementation.
pub open spec fn b_all_present(mv: MatrixView, trusted: Seq<Seq<char>>) -> bool {
    forall|x: int| 0 <= x < mv.len() ==> row_has_all((#[trigger] mv[x]).1, trusted)
}

/// Whether the trusted-suite list holds `suite`.
fn trusted_contains_suite(ts: &Vec<TestSuite>, suite: &TestSuite) -> (r: bool)
    ensures
        r == ts.deep_view().contains(suite@),
{
    let n = ts.len();
    let mut x: usize = 0;
    while x < n
        invariant
            n == ts@.len(),
            x <= n,
            forall|y: int| 0 <= y < x ==> ts.deep_view()[y] != suite@,
        decreases n - x,
    {
        if ts[x].0 == suite.0 {
            assert(ts.deep_view()[x as int] == suite@);
            return true;
        }
        x = x + 1;
    }
    proof {
        if ts.deep_view().contains(suite@) {
            let y = choose|y: int|
                0 <= y < ts.deep_view().len() && ts.deep_view()[y] == suite@;
            assert(false);
        }
    }
    false
}

/// Whether every trusted implementation passes this row's suite, or the
/// missing-result error when the row lacks a verdict for one of them.
#[verifier::loop_isolation(false)]
fn row_sound_b(row: &SuiteVerdicts, ti: &Vec<Implementation>) -> (r: Result<bool, EngineError>)
    requires
        row.wf(),
    ensures
        (r is Ok) <==> row_has_all(row@, ti.deep_view()),
        r is Ok ==> r->Ok_0 == b_suite_sound(row@, ti.deep_view()),
        r is Err ==> r->Err_0 == EngineError::MissingResult,
{
    let n = ti.len();
    let mut sound = true;
    let mut i: usize = 0;
    while i < n
        invariant
            i <= n == ti@.len(),
            forall|j: int| 0 <= j < i ==> row_has(row@, #[trigger] ti.deep_view()[j]),
            sound == (forall|j: int| 0 <= j < i ==> row_get(row@, #[trigger] ti.deep_view()[j])),
        decreases n - i,
    {
        let ghost pre_sound = sound;
        match row.get(&ti[i]) {
            None => {
                assert(!row_has(row@, ti.deep_view()[i as int]));
                return Err(EngineError::MissingResult);
            },
            Some(v) => {
                proof {
                    assert(ti.deep_view()[i as int] == ti@[i as int]@);
                }
                if !v {
                    sound = false;
                    assert(!row_get(row@, ti.deep_view()[i as int]));
                } else {
                    proof {
                        if pre_sound {
                            assert forall|j: int| 0 <= j < i + 1 implies row_get(
                                row@,
                                #[trigger] ti.deep_view()[j],
                            ) by {}
                        }
                    }
                }
            },
        }
        i = i + 1;
    }
    Ok(sound)
}

/// Which of the matrix's suites are sound, judged against the ground truth.
///
/// Under trusted suites, a suite is sound exactly when it is one of the
/// trusted suites; the results are never consulted. Under trusted
/// implementations, a suite is sound exactly when every trusted
/// implementation passes it; a missing verdict for any (suite, trusted
/// implementation) pair is the missing-result error.
#[verifier::loop_isolation(false)]
pub fn test_suite_soundness(gt: &GroundTruth, m: &ResultsMatrix) -> (r: Result<
    Vec<(TestSuite, bool)>,
    EngineError,
>)
    requires
        m.wf(),
    ensures
        gt matches GroundTruth::TrustedSuites(ts) ==> {
            &&& r is Ok
            &&& r->Ok_0@.len() == m@.len()
            &&& forall|i: int|
                0 <= i < m@.len() ==> (#[trigger] r->Ok_0@[i]).0@ == m@[i].0 && r->Ok_0@[i].1
                    == ts.deep_view().contains(m@[i].0)
        },
        gt matches GroundTruth::TrustedImplementations(ti) ==> {
            &&& (r is Ok) <==> b_all_present(m@, ti.deep_view())
            &&& (r is Err ==> r->Err_0 == EngineError::MissingResult)
            &&& r is Ok ==> {
                &&& r->Ok_0@.len() == m@.len()
                &&& forall|i: int|
                    0 <= i < m@.len() ==> (#[trigger] r->Ok_0@[i]).0@ == m@[i].0 && r->Ok_0@[i].1
                        == b_suite_sound(m@[i].1, ti.deep_view())
            }
        },
{
    let n = m.rows.len();
    match gt {
        GroundTruth::TrustedSuites(ts) => {
            let mut out: Vec<(TestSuite, bool)> = Vec::new();
            let mut i: usize = 0;
            while i < n
                invariant
                    i <= n == m.rows@.len(),
                    n == m@.len(),
                    out@.len() == i,
                    forall|j: int|
                        0 <= j < i ==> (#[trigger] out@[j]).0@ == m@[j].0 && out@[j].1
                            == ts.deep_view().contains(m@[j].0),
                decreases n - i,
            {
                proof {
                    assert(m@[i as int].0 == m.rows@[i as int].0@);
                }
                let sound = trusted_contains_suite(ts, &m.rows[i].0);
                out.push((m.rows[i].0.clone(), sound));
                i = i + 1;
            }
            Ok(out)
        },
        GroundTruth::TrustedImplementations(ti) => {
            let mut out: Vec<(TestSuite, bool)> = Vec::new();
            let mut x: usize = 0;
            while x < n
                invariant
                    x <= n == m.rows@.len(),
                    n == m@.len(),
                    out@.len() == x,
                    forall|x2: int|
                        0 <= x2 < x ==> row_has_all((#[trigger] m@[x2]).1, ti.deep_view()),
                    forall|j: int|
                        0 <= j < x ==> (#[trigger] out@[j]).0@ == m@[j].0 && out@[j].1
                            == b_suite_sound(m@[j].1, ti.deep_view()),
                decreases n - x,
            {
                let row = &m.rows[x].1;
                proof {
                    assert(m@[x as int].1 == row@);
                    assert(row_wf(row@));
                }
                match row_sound_b(row, ti) {
                    Err(e) => {
                        assert(!row_has_all(m@[x as int].1, ti.deep_view()));
                        return Err(e);
                    },
                    Ok(sound) => {
                        proof {
                            assert(m@[x as int].0 == m.rows@[x as int].0@);
                        }
                        out.push((m.rows[x].0.clone(), sound));
                    },
                }
                x = x + 1;
            }
            Ok(out)
        },
    }
}

/// The model of one implementation's soundness evidence: the suites that
/// vouch for it, or the suites recorded against it.
pub open spec fn soundness_view(r: Result<Vec<TestSuite>, Vec<TestSuite>>) -> Result<
    Seq<Seq<char>>,
    Seq<Seq<char>>,
> {
    match r {
        Ok(v) => Ok(v.deep_view()),
        Err(v) => Err(v.deep_view()),
    }
}

/// Under trusted suites: the accumulated judgement of one implementation
/// after the first `n` trusted suites, in order. While the implementation
/// keeps passing, agreeing suites accumulate; the first failing suite
/// discards that evidence and opens a fault record with itself alone, and
/// once faulty every later trusted-suite observation is recorded against
/// the implementation.
pub open spec fn a_fold(mv: MatrixView, trusted: Seq<Seq<char>>, k: Seq<char>, n: int) -> Result<
    Seq<Seq<char>>,
    Seq<Seq<char>>,
>
    decreases n,
{
    if n <= 0 {
        Ok(Seq::empty())
    } else {
        let prev = a_fold(mv, trusted, k, n - 1);
        let s = trusted[n - 1];
        let v = row_get(matrix_row_of(mv, s), k);
        match prev {
            Ok(acc) => if v {
                Ok(acc.push(s))
            } else {
                Err(seq![s])
            },
            Err(acc) => Err(acc.push(s)),
        }
    }
}

/// Every trusted suite has a row, and that row records a verdict for
/// implementation `k`.
pub open spec fn a_all_present(mv: MatrixView, trusted: Seq<Seq<char>>, k: Seq<char>) -> bool {
    forall|i: int|
        0 <= i < trusted.len() ==> matrix_has(mv, #[trigger] trusted[i]) && row_has(
            matrix_row_of(mv, trusted[i]),
            k,
        )
}

/// Under trusted implementations: the sound suites that implementation `k`
/// passed, among the first `n` rows.
pub open spec fn b_passed(mv: MatrixView, ti: Seq<Seq<char>>, k: Seq<char>, n: int) -> Seq<
    Seq<char>,
>
    decreases n,
{
    if n <= 0 {
        Seq::empty()
    } else {
        let prev = b_passed(mv, ti, k, n - 1);
        if b_suite_sound(mv[n - 1].1, ti) && row_get(mv[n - 1].1, k) {
            prev.push(mv[n - 1].0)
        } else {
            prev
        }
    }
}

/// Under trusted implementations: the sound suites that implementation `k`
/// failed, among the first `n` rows.
pub open spec fn b_failed(mv: MatrixView, ti: Seq<Seq<char>>, k: Seq<char>, n: int) -> Seq<
    Seq<char>,
>
    decreases n,
{
    if n <= 0 {
        Seq::empty()
    } else {
        let prev = b_failed(mv, ti, k, n - 1);
        if b_suite_sound(mv[n - 1].1, ti) && !row_get(mv[n - 1].1, k) {
            prev.push(mv[n - 1].0)
        } else {
            prev
        }
    }
}

/// Every sound suite's row records a verdict for implementation `k`.
pub open spec fn b_needed_present(mv: MatrixView, ti: Seq<Seq<char>>, k: Seq<char>) -> bool {
    forall|x: int|
        0 <= x < mv.len() && b_suite_sound((#[trigger] mv[x]).1, ti) ==> row_has(mv[x].1, k)
}

/// The soundness report holds an entry for implementation key `k`.
pub open spec fn report_has(
    entries: Seq<(Implementation, Result<Vec<TestSuite>, Vec<TestSuite>>)>,
    k: Seq<char>,
) -> bool {
    exists|i: int| 0 <= i < entries.len() && (#[trigger] entries[i]).0@ == k
}

/// One implementation's accumulated judgement against the trusted suites,
/// in their given order.
#[verifier::loop_isolation(false)]
fn a_soundness_for(m: &ResultsMatrix, ts: &Vec<TestSuite>, key: &Implementation) -> (r: Result<
    Result<Vec<TestSuite>, Vec<TestSuite>>,
    EngineError,
>)
    requires
        m.wf(),
    ensures
        (r is Ok) <==> a_all_present(m@, ts.deep_view(), key@),
        r is Err ==> r->Err_0 == EngineError::MissingResult,
        r is Ok ==> soundness_view(r->Ok_0) == a_fold(
            m@,
            ts.deep_view(),
            key@,
            ts@.len() as int,
        ),
{
    let n = ts.len();
    let empty_acc: Vec<TestSuite> = Vec::new();
    proof {
        assert(empty_acc.deep_view() =~= Seq::<Seq<char>>::empty());
    }
    let mut state: Result<Vec<TestSuite>, Vec<TestSuite>> = Ok(empty_acc);
    let mut i: usize = 0;
    while i < n
        invariant
            i <= n == ts@.len(),
            forall|j: int|
                0 <= j < i ==> matrix_has(m@, #[trigger] ts.deep_view()[j]) && row_has(
                    matrix_row_of(m@, ts.deep_view()[j]),
                    key@,
                ),
            soundness_view(state) == a_fold(m@, ts.deep_view(), key@, i as int),
        decreases n - i,
    {
        let suite = &ts[i];
        proof {
            assert(ts.deep_view()[i as int] == suite@);
        }
        match m.row_of_suite(suite) {
            None => {
                assert(!matrix_has(m@, ts.deep_view()[i as int]));
                return Err(EngineError::MissingResult);
            },
            Some(row) => {
                match row.get(key) {
                    None => {
                        assert(!row_has(matrix_row_of(m@, ts.deep_view()[i as int]), key@));
                        return Err(EngineError::MissingResult);
                    },
                    Some(v) => {
                        proof {
                            assert(v == row_get(matrix_row_of(m@, ts.deep_view()[i as int]), key@));
                        }
                        state = match state {
                            Ok(mut acc) => {
                                if v {
                                    let ghost pre = acc.deep_view();
                                    acc.push(suite.clone());
                                    proof {
                                        assert(acc.deep_view() =~= pre.push(suite@));
                                    }
                                    Ok(acc)
                                } else {
                                    let mut e: Vec<TestSuite> = Vec::new();
                                    e.push(suite.clone());
                                    proof {
                                        assert(e.deep_view() =~= seq![suite@]);
                                    }
                                    Err(e)
                                }
                            },
                            Err(mut acc) => {
                                let ghost pre = acc.deep_view();
                                acc.push(suite.clone());
                                proof {
                                    assert(acc.deep_view() =~= pre.push(suite@));
                                }
                                Err(acc)
                            },
                        };
                        proof {
                            assert(soundness_view(state) == a_fold(
                                m@,
                                ts.deep_view(),
                                key@,
                                i + 1,
                            ));
                        }
                    },
                }
            },
        }
        i = i + 1;
    }
    Ok(state)
}

/// Whether every trusted implementation passes this row's suite; every
/// trusted implementation must be recorded in the row.
#[verifier::loop_isolation(false)]
fn row_sound_b_total(row: &SuiteVerdicts, ti: &Vec<Implementation>) -> (r: bool)
    requires
        row.wf(),
        row_has_all(row@, ti.deep_view()),
    ensures
        r == b_suite_sound(row@, ti.deep_view()),
{
    let n = ti.len();
    let mut sound = true;
    let mut i: usize = 0;
    while i < n
        invariant
            i <= n == ti@.len(),
            sound == (forall|j: int| 0 <= j < i ==> row_get(row@, #[trigger] ti.deep_view()[j])),
        decreases n - i,
    {
        let ghost pre_sound = sound;
        proof {
            assert(ti.deep_view()[i as int] == ti@[i as int]@);
            assert(row_has(row@, ti.deep_view()[i as int]));
        }
        match row.get(&ti[i]) {
            None => {
                // Unreachable: the row records every trusted implementation.
                proof {
                    assert(false);
                }
                return false;
            },
            Some(v) => {
                if !v {
                    sound = false;
                    assert(!row_get(row@, ti.deep_view()[i as int]));
                } else {
                    proof {
                        if pre_sound {
                            assert forall|j: int| 0 <= j < i + 1 implies row_get(
                                row@,
                                #[trigger] ti.deep_view()[j],
                            ) by {}
                        }
                    }
                }
            },
        }
        i = i + 1;
    }
    sound
}

/// One implementation's judgement against the suites judged sound under the
/// trusted implementations: vouched for by every sound suite it passed, or
/// recorded faulty with exactly the sound suites it failed.
#[verifier::loop_isolation(false)]
fn b_soundness_for(m: &ResultsMatrix, ti: &Vec<Implementation>, key: &Implementation) -> (r:
    Result<Result<Vec<TestSuite>, Vec<TestSuite>>, EngineError>)
    requires
        m.wf(),
        b_all_present(m@, ti.deep_view()),
    ensures
        (r is Ok) <==> b_needed_present(m@, ti.deep_view(), key@),
        r is Err ==> r->Err_0 == EngineError::MissingResult,
        r is Ok ==> {
            &&& b_failed(m@, ti.deep_view(), key@, m@.len() as int).len() == 0
                ==> soundness_view(r->Ok_0) == Ok::<Seq<Seq<char>>, Seq<Seq<char>>>(
                b_passed(m@, ti.deep_view(), key@, m@.len() as int),
            )
            &&& b_failed(m@, ti.deep_view(), key@, m@.len() as int).len() > 0
                ==> soundness_view(r->Ok_0) == Err::<Seq<Seq<char>>, Seq<Seq<char>>>(
                b_failed(m@, ti.deep_view(), key@, m@.len() as int),
            )
        },
{
    let n = m.rows.len();
    let mut passed: Vec<TestSuite> = Vec::new();
    let mut failed: Vec<TestSuite> = Vec::new();
    proof {
        assert(passed.deep_view() =~= Seq::<Seq<char>>::empty());
        assert(failed.deep_view() =~= Seq::<Seq<char>>::empty());
    }
    let mut x: usize = 0;
    while x < n
        invariant
            x <= n == m.rows@.len(),
            n == m@.len(),
            forall|x2: int|
                0 <= x2 < x && b_suite_sound((#[trigger] m@[x2]).1, ti.deep_view()) ==> row_has(
                    m@[x2].1,
                    key@,
                ),
            passed.deep_view() == b_passed(m@, ti.deep_view(), key@, x as int),
            failed.deep_view() == b_failed(m@, ti.deep_view(), key@, x as int),
        decreases n - x,
    {
        let row = &m.rows[x].1;
        proof {
            assert(m@[x as int].1 == row@);
            assert(row_wf(row@));
            assert(row_has_all(row@, ti.deep_view()));
        }
        let sound = row_sound_b_total(row, ti);
        if sound {
            match row.get(key) {
                None => {
                    assert(!row_has(m@[x as int].1, key@));
                    return Err(EngineError::MissingResult);
                },
                Some(v) => {
                    proof {
                        assert(m@[x as int].0 == m.rows@[x as int].0@);
                    }
                    if v {
                        let ghost pre = passed.deep_view();
                        passed.push(m.rows[x].0.clone());
                        proof {
                            assert(passed.deep_view() =~= pre.push(m@[x as int].0));
                        }
                    } else {
                        let ghost pre = failed.deep_view();
                        failed.push(m.rows[x].0.clone());
                        proof {
                            assert(failed.deep_view() =~= pre.push(m@[x as int].0));
                        }
                    }
                },
            }
        }
        x = x + 1;
    }
    if failed.is_empty() {
        Ok(Ok(passed))
    } else {
        Ok(Err(failed))
    }
}

/// Which implementations are sound, judged against the ground truth, as
/// evidence per implementation appearing anywhere in the matrix.
///
/// Under trusted suites, each implementation's verdicts on the trusted
/// suites are folded in their given order: agreeing suites accumulate while
/// it keeps passing; its first failure discards that evidence and opens a
/// fault record, which then absorbs every later trusted-suite observation.
/// Under trusted implementations, suite soundness is computed first, and an
/// implementation is vouched for by the sound suites it passed, or recorded
/// faulty with exactly the sound suites it failed. Either way, a missing
/// verdict for a judged pairing is the missing-result error, never a
/// defaulted boolean.
#[verifier::loop_isolation(false)]
pub fn implementation_soundness(gt: &GroundTruth, m: &ResultsMatrix) -> (r: Result<
    Vec<(Implementation, Result<Vec<TestSuite>, Vec<TestSuite>>)>,
    EngineError,
>)
    requires
        m.wf(),
    ensures
        r is Err ==> r->Err_0 == EngineError::MissingResult,
        gt matches GroundTruth::TrustedSuites(ts) ==> {
            &&& (r is Ok) <==> (forall|k: Seq<char>|
                #[trigger] matrix_impl(m@, k) ==> a_all_present(m@, ts.deep_view(), k))
            &&& r is Ok ==> {
                &&& forall|i: int|
                    0 <= i < r->Ok_0@.len() ==> matrix_impl(m@, (#[trigger] r->Ok_0@[i]).0@)
                        && soundness_view(r->Ok_0@[i].1) == a_fold(
                        m@,
                        ts.deep_view(),
                        r->Ok_0@[i].0@,
                        ts@.len() as int,
                    )
                &&& forall|k: Seq<char>|
                    #[trigger] matrix_impl(m@, k) ==> report_has(r->Ok_0@, k)
                &&& forall|i: int, j: int|
                    0 <= i < j < r->Ok_0@.len() ==> (#[trigger] r->Ok_0@[i]).0@ != (
                    #[trigger] r->Ok_0@[j]).0@
            }
        },
        gt matches GroundTruth::TrustedImplementations(ti) ==> {
            &&& (r is Ok) <==> (b_all_present(m@, ti.deep_view()) && (forall|k: Seq<char>|
                #[trigger] matrix_impl(m@, k) ==> b_needed_present(m@, ti.deep_view(), k)))
            &&& r is Ok ==> {
                &&& forall|i: int|
                    0 <= i < r->Ok_0@.len() ==> matrix_impl(m@, (#[trigger] r->Ok_0@[i]).0@) && {
                        let k = r->Ok_0@[i].0@;
                        &&& b_failed(m@, ti.deep_view(), k, m@.len() as int).len() == 0
                            ==> soundness_view(r->Ok_0@[i].1) == Ok::<Seq<Seq<char>>, Seq<Seq<char>>>(
                            b_passed(m@, ti.deep_view(), k, m@.len() as int),
                        )
                        &&& b_failed(m@, ti.deep_view(), k, m@.len() as int).len() > 0
                            ==> soundness_view(r->Ok_0@[i].1) == Err::<Seq<Seq<char>>, Seq<Seq<char>>>(
                            b_failed(m@, ti.deep_view(), k, m@.len() as int),
                        )
                    }
                &&& forall|k: Seq<char>|
                    #[trigger] matrix_impl(m@, k) ==> report_has(r->Ok_0@, k)
                &&& forall|i: int, j: int|
                    0 <= i < j < r->Ok_0@.len() ==> (#[trigger] r->Ok_0@[i]).0@ != (
                    #[trigger] r->Ok_0@[j]).0@
            }
        },
{
    let d = impl_domain(m);
    let dn = d.len();
    let mut out: Vec<(Implementation, Result<Vec<TestSuite>, Vec<TestSuite>>)> = Vec::new();
    match gt {
        GroundTruth::TrustedSuites(ts) => {
            let mut i: usize = 0;
            while i < dn
                invariant
                    i <= dn == d@.len(),
                    out@.len() == i,
                    forall|j: int| 0 <= j < i ==> a_all_present(m@, ts.deep_view(), (#[trigger] d@[j])@),
                    forall|j: int|
                        0 <= j < i ==> (#[trigger] out@[j]).0 == d@[j] && soundness_view(out@[j].1)
                            == a_fold(m@, ts.deep_view(), d@[j]@, ts@.len() as int),
                decreases dn - i,
            {
                match a_soundness_for(m, ts, &d[i]) {
                    Err(e) => {
                        proof {
                            assert(seq_has_impl(d@, d@[i as int]@));
                            assert(matrix_impl(m@, d@[i as int]@));
                            assert(!a_all_present(m@, ts.deep_view(), d@[i as int]@));
                        }
                        return Err(e);
                    },
                    Ok(s) => {
                        out.push((d[i].clone(), s));
                    },
                }
                i = i + 1;
            }
            proof {
                assert forall|k: Seq<char>|
                    #[trigger] matrix_impl(m@, k) implies a_all_present(m@, ts.deep_view(), k) by {
                    assert(seq_has_impl(d@, k));
                    let j = choose|j: int| 0 <= j < d@.len() && (#[trigger] d@[j])@ == k;
                    assert(a_all_present(m@, ts.deep_view(), d@[j]@));
                }
                assert forall|k: Seq<char>|
                    #[trigger] matrix_impl(m@, k) implies report_has(out@, k) by {
                    assert(seq_has_impl(d@, k));
                    let j = choose|j: int| 0 <= j < d@.len() && (#[trigger] d@[j])@ == k;
                    assert((out@[j]).0@ == k);
                }
                assert forall|i2: int|
                    0 <= i2 < out@.len() implies matrix_impl(m@, (#[trigger] out@[i2]).0@) by {
                    assert(seq_has_impl(d@, d@[i2]@));
                }
            }
            Ok(out)
        },
        GroundTruth::TrustedImplementations(ti) => {
            let n = m.rows.len();
            let mut x: usize = 0;
            while x < n
                invariant
                    x <= n == m.rows@.len(),
                    n == m@.len(),
                    forall|x2: int|
                        0 <= x2 < x ==> row_has_all((#[trigger] m@[x2]).1, ti.deep_view()),
                decreases n - x,
            {
                let row = &m.rows[x].1;
                proof {
                    assert(m@[x as int].1 == row@);
                    assert(row_wf(row@));
                }
                match row_sound_b(row, ti) {
                    Err(e) => {
                        assert(!row_has_all(m@[x as int].1, ti.deep_view()));
                        return Err(e);
                    },
                    Ok(_) => {},
                }
                x = x + 1;
            }
            assert(b_all_present(m@, ti.deep_view()));
            let mut i: usize = 0;
            while i < dn
                invariant
                    i <= dn == d@.len(),
                    out@.len() == i,
                    b_all_present(m@, ti.deep_view()),
                    forall|j: int|
                        0 <= j < i ==> b_needed_present(m@, ti.deep_view(), (#[trigger] d@[j])@),
                    forall|j: int|
                        0 <= j < i ==> (#[trigger] out@[j]).0 == d@[j] && {
                            let k = d@[j]@;
                            &&& b_failed(m@, ti.deep_view(), k, m@.len() as int).len() == 0
                                ==> soundness_view(out@[j].1) == Ok::<Seq<Seq<char>>, Seq<Seq<char>>>(
                                b_passed(m@, ti.deep_view(), k, m@.len() as int),
                            )
                            &&& b_failed(m@, ti.deep_view(), k, m@.len() as int).len() > 0
                                ==> soundness_view(out@[j].1) == Err::<Seq<Seq<char>>, Seq<Seq<char>>>(
                                b_failed(m@, ti.deep_view(), k, m@.len() as int),
                            )
                        },
                decreases dn - i,
            {
                match b_soundness_for(m, ti, &d[i]) {
                    Err(e) => {
                        proof {
                            assert(seq_has_impl(d@, d@[i as int]@));
                            assert(matrix_impl(m@, d@[i as int]@));
                            assert(!b_needed_present(m@, ti.deep_view(), d@[i as int]@));
                        }
                        return Err(e);
                    },
                    Ok(s) => {
                        out.push((d[i].clone(), s));
                    },
                }
                i = i + 1;
            }
            proof {
                assert forall|k: Seq<char>|
                    #[trigger] matrix_impl(m@, k) implies b_needed_present(
                    m@,
                    ti.deep_view(),
                    k,
                ) by {
                    assert(seq_has_impl(d@, k));
                    let j = choose|j: int| 0 <= j < d@.len() && (#[trigger] d@[j])@ == k;
                    assert(b_needed_present(m@, ti.deep_view(), d@[j]@));
                }
                assert forall|k: Seq<char>|
                    #[trigger] matrix_impl(m@, k) implies report_has(out@, k) by {
                    assert(seq_has_impl(d@, k));
                    let j = choose|j: int| 0 <= j < d@.len() && (#[trigger] d@[j])@ == k;
                    assert((out@[j]).0@ == k);
                }
                assert forall|i2: int|
                    0 <= i2 < out@.len() implies matrix_impl(m@, (#[trigger] out@[i2]).0@) by {
                    assert(seq_has_impl(d@, d@[i2]@));
                }
            }
            Ok(out)
        },
    }
}

/// Evaluation `i` pairs suite `s` with implementation `k`.
pub open spec fn pair_at(rs: Seq<Evaluation>, i: int, s: Seq<char>, k: Seq<char>) -> bool {
    0 <= i < rs.len() && rs[i].test_suite@ == s && rs[i].implementation@ == k
}

/// Evaluation `i` is the first in input order that pairs suite `s` with
/// implementation `k`.
pub open spec fn is_first_pair(rs: Seq<Evaluation>, i: int, s: Seq<char>, k: Seq<char>) -> bool {
    pair_at(rs, i, s, k) && (forall|j: int| 0 <= j < i ==> !pair_at(rs, j, s, k))
}

/// The verdict `v` recorded for (suite `s`, implementation `k`) is that of
/// the first evaluation of that pairing.
pub open spec fn entry_sourced(rs: Seq<Evaluation>, s: Seq<char>, k: Seq<char>, v: bool) -> bool {
    exists|i: int| #[trigger] is_first_pair(rs, i, s, k) && v == verdict_spec(rs[i]@.result)
}

/// Every verdict the matrix holds comes from the first evaluation of its
/// (suite, implementation) pairing.
pub open spec fn matrix_entries_sourced(rs: Seq<Evaluation>, mv: MatrixView) -> bool {
    forall|x: int, y: int|
        0 <= x < mv.len() && 0 <= y < mv[x].1.len() ==> entry_sourced(
            rs,
            mv[x].0,
            (#[trigger] mv[x].1[y]).0,
            mv[x].1[y].1,
        )
}

/// Every evaluation's (suite, implementation) pairing has a verdict in the
/// matrix.
pub open spec fn matrix_covers(rs: Seq<Evaluation>, mv: MatrixView) -> bool {
    forall|i: int|
        0 <= i < rs.len() ==> matrix_has(mv, (#[trigger] rs[i]).test_suite@) && row_has(
            matrix_row_of(mv, rs[i].test_suite@),
            rs[i].implementation@,
        )
}

/// With unique suite keys, the row looked up for a key is the row that
/// holds it.
proof fn lemma_matrix_row_at(mv: MatrixView, x0: int, s: Seq<char>)
    requires
        forall|x: int, y: int|
            0 <= x < y < mv.len() ==> (#[trigger] mv[x]).0 != (#[trigger] mv[y]).0,
        0 <= x0 < mv.len(),
        mv[x0].0 == s,
    ensures
        matrix_has(mv, s),
        matrix_index(mv, s) == x0,
        matrix_row_of(mv, s) == mv[x0].1,
{
    assert(matrix_has(mv, s));
    let x2 = matrix_index(mv, s);
    assert(0 <= x2 < mv.len() && mv[x2].0 == s);
    if x2 < x0 {
        assert(mv[x2].0 != mv[x0].0);
    } else if x0 < x2 {
        assert(mv[x0].0 != mv[x2].0);
    }
}

/// The row recorded for `suite` in the rows built so far, if any.
#[verifier::loop_isolation(false)]
fn find_suite(rows: &Vec<(TestSuite, SuiteVerdicts)>, suite: &TestSuite) -> (r: Option<usize>)
    ensures
        r matches Some(x) ==> x < rows@.len() && rows.deep_view()[x as int].0 == suite@,
        r is None ==> !matrix_has(rows.deep_view(), suite@),
{
    let n = rows.len();
    let mut x: usize = 0;
    while x < n
        invariant
            x <= n == rows@.len(),
            forall|y: int| 0 <= y < x ==> rows.deep_view()[y].0 != suite@,
        decreases n - x,
    {
        if rows[x].0.0 == suite.0 {
            assert(rows.deep_view()[x as int].0 == suite@);
            return Some(x);
        }
        x = x + 1;
    }
    proof {
        if matrix_has(rows.deep_view(), suite@) {
            let y = choose|y: int|
                0 <= y < rows.deep_view().len() && (#[trigger] rows.deep_view()[y]).0 == suite@;
            assert(false);
        }
    }
    None
}

/// Builds the results matrix the engine analyses: one verdict per (suite,
/// implementation) pairing, reduced from the raw evaluations by the
/// default-false-on-error verdict rule. When the input records one pairing
/// more than once, the first record's verdict stands.
#[verifier::loop_isolation(false)]
pub fn build_matrix(evaluations: &Vec<Evaluation>) -> (m: ResultsMatrix)
    ensures
        m.wf(),
        matrix_entries_sourced(evaluations@, m@),
        matrix_covers(evaluations@, m@),
{
    let rs = evaluations;
    let n = rs.len();
    let mut rows: Vec<(TestSuite, SuiteVerdicts)> = Vec::new();
    let mut i: usize = 0;
    while i < n
        invariant
            i <= n == rs@.len(),
            matrix_wf(rows.deep_view()),
            matrix_entries_sourced(rs@, rows.deep_view()),
            forall|j: int|
                0 <= j < i ==> matrix_has(rows.deep_view(), (#[trigger] rs@[j]).test_suite@)
                    && row_has(
                    matrix_row_of(rows.deep_view(), rs@[j].test_suite@),
                    rs@[j].implementation@,
                ),
        decreases n - i,
    {
        let eval = &rs[i];
        let v = verdict_of(&eval.result);
        let ghost s = eval.test_suite@;
        let ghost k = eval.implementation@;
        let ghost pre = rows.deep_view();
        proof {
            assert(verdict_spec(result_view(&eval.result)) == verdict_spec(rs@[i as int]@.result));
        }
        match find_suite(&rows, &eval.test_suite) {
            None => {
                proof {
                    assert forall|j: int| 0 <= j < i implies !pair_at(rs@, j, s, k) by {
                        if pair_at(rs@, j, s, k) {
                            assert(matrix_has(pre, rs@[j].test_suite@));
                        }
                    }
                    assert(is_first_pair(rs@, i as int, s, k));
                }
                let mut verdicts: Vec<(Implementation, bool)> = Vec::new();
                verdicts.push((eval.implementation.clone(), v));
                let new_row = SuiteVerdicts { verdicts };
                proof {
                    assert(new_row@ =~= seq![(k, v)]);
                }
                rows.push((eval.test_suite.clone(), new_row));
                proof {
                    assert(rows.deep_view() =~= pre.push((s, seq![(k, v)])));
                    let dv = rows.deep_view();
                    assert forall|x: int, y: int|
                        0 <= x < dv.len() && 0 <= y < dv[x].1.len() implies entry_sourced(
                            rs@,
                            dv[x].0,
                            (#[trigger] dv[x].1[y]).0,
                            dv[x].1[y].1,
                        ) by {
                        if x < pre.len() {
                            assert(dv[x] == pre[x]);
                        } else {
                            assert(dv[x].1[y] == (k, v));
                            assert(is_first_pair(rs@, i as int, s, k) && v == verdict_spec(
                                rs@[i as int]@.result,
                            ));
                        }
                    }
                    assert forall|j: int|
                        0 <= j < i + 1 implies matrix_has(dv, (#[trigger] rs@[j]).test_suite@)
                            && row_has(
                            matrix_row_of(dv, rs@[j].test_suite@),
                            rs@[j].implementation@,
                        ) by {
                        if j < i {
                            let x0 = matrix_index(pre, rs@[j].test_suite@);
                            assert(0 <= x0 < pre.len() && pre[x0].0 == rs@[j].test_suite@);
                            lemma_matrix_row_at(dv, x0, rs@[j].test_suite@);
                            assert(dv[x0].1 == pre[x0].1);
                            lemma_matrix_row_at(pre, x0, rs@[j].test_suite@);
                        } else {
                            lemma_matrix_row_at(dv, pre.len() as int, s);
                            assert(dv[pre.len() as int].1[0].0 == k);
                            assert(row_has(dv[pre.len() as int].1, k));
                        }
                    }
                }
            },
            Some(x) => {
                proof {
                    assert(matrix_wf(pre));
                    lemma_matrix_row_at(pre, x as int, s);
                    assert(row_wf(pre[x as int].1));
                    assert(rows@[x as int].1@ == pre[x as int].1);
                }
                let present = rows[x].1.get(&eval.implementation).is_some();
                if present {
                    proof {
                        assert(row_has(matrix_row_of(pre, s), k));
                    }
                } else {
                    proof {
                        assert(!row_has(pre[x as int].1, k));
                        assert forall|j: int| 0 <= j < i implies !pair_at(rs@, j, s, k) by {
                            if pair_at(rs@, j, s, k) {
                                lemma_matrix_row_at(pre, x as int, rs@[j].test_suite@);
                                assert(row_has(pre[x as int].1, k));
                            }
                        }
                        assert(is_first_pair(rs@, i as int, s, k));
                    }
                    let (s_key, mut row_sv) = rows.remove(x);
                    let ghost row_pre = row_sv@;
                    row_sv.verdicts.push((eval.implementation.clone(), v));
                    proof {
                        assert(row_sv@ =~= row_pre.push((k, v)));
                    }
                    rows.insert(x, (s_key, row_sv));
                    proof {
                        let dv = rows.deep_view();
                        assert(dv =~= pre.update(x as int, (s, row_pre.push((k, v)))));
                        assert forall|x2: int, y: int|
                            0 <= x2 < dv.len() && 0 <= y < dv[x2].1.len() implies entry_sourced(
                                rs@,
                                dv[x2].0,
                                (#[trigger] dv[x2].1[y]).0,
                                dv[x2].1[y].1,
                            ) by {
                            if x2 != x as int {
                                assert(dv[x2] == pre[x2]);
                            } else if y < row_pre.len() {
                                assert(dv[x2].1[y] == pre[x2].1[y]);
                            } else {
                                assert(dv[x2].1[y] == (k, v));
                                assert(is_first_pair(rs@, i as int, s, k) && v == verdict_spec(
                                    rs@[i as int]@.result,
                                ));
                            }
                        }
                        assert forall|x2: int, y2: int|
                            0 <= x2 < y2 < dv.len() implies (#[trigger] dv[x2]).0 != (
                            #[trigger] dv[y2]).0 by {
                            assert(dv[x2].0 == pre[x2].0);
                            assert(dv[y2].0 == pre[y2].0);
                        }
                        assert forall|x2: int| 0 <= x2 < dv.len() implies row_wf(
                            (#[trigger] dv[x2]).1,
                        ) by {
                            if x2 == x as int {
                                assert forall|y1: int, y2: int|
                                    0 <= y1 < y2 < dv[x2].1.len() implies (
                                    #[trigger] dv[x2].1[y1]).0 != (#[trigger] dv[x2].1[y2]).0 by {
                                    if y2 == dv[x2].1.len() - 1 {
                                        assert(dv[x2].1[y1] == row_pre[y1]);
                                        if dv[x2].1[y1].0 == k {
                                            assert(row_has(pre[x as int].1, k));
                                        }
                                    } else {
                                        assert(dv[x2].1[y1] == pre[x2].1[y1]);
                                        assert(dv[x2].1[y2] == pre[x2].1[y2]);
                                    }
                                }
                            } else {
                                assert(dv[x2].1 == pre[x2].1);
                            }
                        }
                    }
                }
                proof {
                    let dv = rows.deep_view();
                    assert forall|j: int|
                        0 <= j < i + 1 implies matrix_has(dv, (#[trigger] rs@[j]).test_suite@)
                            && row_has(
                            matrix_row_of(dv, rs@[j].test_suite@),
                            rs@[j].implementation@,
                        ) by {
                        if j < i {
                            let x0 = matrix_index(pre, rs@[j].test_suite@);
                            assert(0 <= x0 < pre.len() && pre[x0].0 == rs@[j].test_suite@);
                            lemma_matrix_row_at(pre, x0, rs@[j].test_suite@);
                            lemma_matrix_row_at(dv, x0, rs@[j].test_suite@);
                            if x0 == x as int {
                                let y0 = row_index(pre[x0].1, rs@[j].implementation@);
                                assert(dv[x0].1[y0] == pre[x0].1[y0]);
                                assert(row_has(dv[x0].1, rs@[j].implementation@));
                            } else {
                                assert(dv[x0].1 == pre[x0].1);
                            }
                        } else {
                            lemma_matrix_row_at(dv, x as int, s);
                            if present {
                                let y0 = row_index(pre[x as int].1, k);
                                assert(0 <= y0 < pre[x as int].1.len() && pre[x as int].1[y0].0
                                    == k);
                                assert(dv[x as int].1[y0] == pre[x as int].1[y0]);
                                assert(row_has(dv[x as int].1, k));
                            } else {
                                assert(dv[x as int].1.last() == (k, v));
                                assert(row_has(dv[x as int].1, k));
                            }
                        }
                    }
                }
            },
        }
        i = i + 1;
    }
    ResultsMatrix { rows }
}

} // verus!

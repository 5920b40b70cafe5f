//! Bookkeeping of a cross-validation run: the confusion matrix, per-class
//! (correct, total) counts and the headline (correct, total).

use vstd::prelude::*;

verus! {

/// Sum of a sequence of counts.
pub open spec fn sum_u32(s: Seq<u32>) -> int
    decreases s.len(),
{
    if s.len() == 0 {
        0
    } else {
        sum_u32(s.drop_last()) + s.last()
    }
}

/// Sum of every entry of a matrix of counts, row by row.
pub open spec fn matrix_sum(m: Seq<Vec<u32>>) -> int
    decreases m.len(),
{
    if m.len() == 0 {
        0
    } else {
        matrix_sum(m.drop_last()) + sum_u32(m.last()@)
    }
}

/// Sum of the diagonal entries `m[i][i]` for `i < k`.
pub open spec fn diag_sum(m: Seq<Vec<u32>>, k: int) -> int
    decreases k,
{
    if k <= 0 {
        0
    } else {
        diag_sum(m, k - 1) + m[k - 1]@[k - 1]
    }
}

/// Changing one entry changes the sum by the difference.
pub proof fn lemma_sum_u32_update(s: Seq<u32>, i: int, v: u32)
    requires
        0 <= i < s.len(),
    ensures
        sum_u32(s.update(i, v)) == sum_u32(s) - s[i] + v,
    decreases s.len(),
{
    if i < s.len() - 1 {
        lemma_sum_u32_update(s.drop_last(), i, v);
        assert(s.update(i, v).drop_last() =~= s.drop_last().update(i, v));
    } else {
        assert(s.update(i, v).drop_last() =~= s.drop_last());
    }
}

/// A sequence of zeros sums to zero.
pub proof fn lemma_sum_u32_zeros(s: Seq<u32>)
    requires
        forall|i: int| 0 <= i < s.len() ==> s[i] == 0,
    ensures
        sum_u32(s) == 0,
    decreases s.len(),
{
    if s.len() > 0 {
        lemma_sum_u32_zeros(s.drop_last());
    }
}

/// Replacing one row changes the matrix sum by the change of that row's sum.
pub proof fn lemma_matrix_sum_update(m: Seq<Vec<u32>>, i: int, row: Vec<u32>)
    requires
        0 <= i < m.len(),
    ensures
        matrix_sum(m.update(i, row)) == matrix_sum(m) - sum_u32(m[i]@) + sum_u32(row@),
    decreases m.len(),
{
    if i < m.len() - 1 {
        lemma_matrix_sum_update(m.drop_last(), i, row);
        assert(m.update(i, row).drop_last() =~= m.drop_last().update(i, row));
    } else {
        assert(m.update(i, row).drop_last() =~= m.drop_last());
    }
}

/// Replacing one row changes the trace by the change of its diagonal entry.
pub proof fn lemma_diag_sum_update(m: Seq<Vec<u32>>, k: int, i: int, row: Vec<u32>)
    requires
        0 <= i < m.len(),
        0 <= k <= m.len(),
        row@.len() == m[i]@.len(),
        i < m[i]@.len(),
        forall|j: int| 0 <= j < m.len() ==> #[trigger] m[j]@.len() > j,
    ensures
        diag_sum(m.update(i, row), k) == diag_sum(m, k) - (if i < k { m[i]@[i] as int } else { 0 })
            + (if i < k { row@[i] as int } else { 0 }),
    decreases k,
{
    if k > 0 {
        lemma_diag_sum_update(m, k - 1, i, row);
    }
}

/// Outcome counts of a leave-one-out run over `n` classes.
pub struct LoocvResult {
    /// `confusion[truth][predicted]`.
    pub confusion: Vec<Vec<u32>>,
    /// Per-class `(correct, total)`.
    pub per_author: Vec<(u32, u32)>,
    pub correct: u32,
    pub total: u32,
}

impl LoocvResult {
    /// Number of classes.
    pub open spec fn classes(&self) -> nat {
        self.per_author@.len()
    }

    /// Shape and counting invariant: a square matrix over the classes, the per-class
    /// totals are the row sums, the per-class hits the diagonal, the headline total
    /// the sum of all entries and the headline hits the trace.
    pub open spec fn wf(&self) -> bool {
        let n = self.per_author@.len();
        &&& self.confusion@.len() == n
        &&& forall|a: int| 0 <= a < n ==> #[trigger] self.confusion@[a]@.len() == n
        &&& forall|a: int|
            0 <= a < n ==> #[trigger] self.per_author@[a].1 == sum_u32(self.confusion@[a]@)
        &&& forall|a: int|
            0 <= a < n ==> #[trigger] self.per_author@[a].0 == self.confusion@[a]@[a]
        &&& self.total == matrix_sum(self.confusion@)
        &&& self.correct == diag_sum(self.confusion@, n as int)
    }

    /// An all-zero tally over `n` classes.
    pub fn empty(n: usize) -> (r: Self)
        ensures
            r.wf(),
            r.classes() == n,
            r.correct == 0,
            r.total == 0,
            forall|a: int, b: int| 0 <= a < n && 0 <= b < n ==> r.confusion@[a]@[b] == 0,
            forall|a: int| 0 <= a < n ==> r.per_author@[a] == (0u32, 0u32),
    {
        let mut confusion: Vec<Vec<u32>> = Vec::new();
        let mut per_author: Vec<(u32, u32)> = Vec::new();
        let mut i: usize = 0;
        while i < n
            invariant
                i <= n,
                confusion@.len() == i,
                per_author@.len() == i,
                forall|a: int| 0 <= a < i ==> #[trigger] confusion@[a]@.len() == n,
                forall|a: int, b: int|
                    0 <= a < i && 0 <= b < n ==> #[trigger] confusion@[a]@[b] == 0,
                forall|a: int| 0 <= a < i ==> #[trigger] per_author@[a] == (0u32, 0u32),
                matrix_sum(confusion@) == 0,
            decreases n - i,
        {
            let mut row: Vec<u32> = Vec::new();
            let mut j: usize = 0;
            while j < n
                invariant
                    j <= n,
                    row@.len() == j,
                    forall|b: int| 0 <= b < j ==> #[trigger] row@[b] == 0,
                decreases n - j,
            {
                row.push(0);
                j += 1;
            }
            proof {
                lemma_sum_u32_zeros(row@);
                assert(confusion@.push(row).drop_last() =~= confusion@);
            }
            confusion.push(row);
            per_author.push((0, 0));
            i += 1;
        }
        let r = LoocvResult { confusion, per_author, correct: 0, total: 0 };
        proof {
            assert forall|a: int| 0 <= a < n implies #[trigger] r.per_author@[a].1 == sum_u32(
                r.confusion@[a]@,
            ) by {
                lemma_sum_u32_zeros(r.confusion@[a]@);
            }
            lemma_diag_zero(r.confusion@, n as int);
        }
        r
    }

    /// Record one prediction `pred` for an item whose true class is `truth`.
    pub fn record(&mut self, truth: usize, pred: usize)
        requires
            old(self).wf(),
            truth < old(self).classes(),
            pred < old(self).classes(),
            old(self).total < u32::MAX,
        ensures
            final(self).wf(),
            final(self).classes() == old(self).classes(),
            final(self).total == old(self).total + 1,
            final(self).correct == old(self).correct + (if pred == truth { 1int } else { 0 }),
            forall|a: int, b: int|
                0 <= a < old(self).classes() && 0 <= b < old(self).classes()
                    ==> final(self).confusion@[a]@[b] == old(self).confusion@[a]@[b]
                    + (if a == truth && b == pred { 1int } else { 0 }),
            forall|a: int|
                0 <= a < old(self).classes() ==> #[trigger] final(self).per_author@[a] == (if a == truth {
                    (
                        (old(self).per_author@[a].0 + (if pred == truth { 1int } else { 0 })) as u32,
                        (old(self).per_author@[a].1 + 1) as u32,
                    )
                } else {
                    old(self).per_author@[a]
                }),
    {
        let ghost n = self.classes() as int;
        let ghost old_conf = self.confusion@;
        proof {
            lemma_entry_le_sum(old_conf[truth as int]@, pred as int);
            lemma_row_le_matrix(old_conf, truth as int);
            lemma_diag_le_matrix(old_conf, n);
            assert(self.per_author@[truth as int].0 == old_conf[truth as int]@[truth as int]);
            lemma_entry_le_sum(old_conf[truth as int]@, truth as int);
        }
        let mut row = self.confusion[truth].clone();
        proof {
            assert(row@ =~= old_conf[truth as int]@);
        }
        let c = row[pred];
        row.set(pred, c + 1);
        proof {
            lemma_sum_u32_update(old_conf[truth as int]@, pred as int, (c + 1) as u32);
            lemma_matrix_sum_update(old_conf, truth as int, row);
            lemma_diag_sum_update(old_conf, n, truth as int, row);
        }
        self.confusion.set(truth, row);
        let (pc, pt) = self.per_author[truth];
        let hit: u32 = if pred == truth { 1 } else { 0 };
        self.per_author.set(truth, (pc + hit, pt + 1));
        self.total = self.total + 1;
        self.correct = self.correct + hit;
    }
}

proof fn lemma_entry_le_sum(s: Seq<u32>, j: int)
    requires
        0 <= j < s.len(),
    ensures
        s[j] <= sum_u32(s),
        0 <= sum_u32(s),
    decreases s.len(),
{
    if j < s.len() - 1 {
        lemma_entry_le_sum(s.drop_last(), j);
    } else {
        lemma_sum_nonneg(s.drop_last());
    }
}

proof fn lemma_sum_nonneg(s: Seq<u32>)
    ensures
        0 <= sum_u32(s),
    decreases s.len(),
{
    if s.len() > 0 {
        lemma_sum_nonneg(s.drop_last());
    }
}

proof fn lemma_matrix_nonneg(m: Seq<Vec<u32>>)
    ensures
        0 <= matrix_sum(m),
    decreases m.len(),
{
    if m.len() > 0 {
        lemma_matrix_nonneg(m.drop_last());
        lemma_sum_nonneg(m.last()@);
    }
}

proof fn lemma_row_le_matrix(m: Seq<Vec<u32>>, i: int)
    requires
        0 <= i < m.len(),
    ensures
        sum_u32(m[i]@) <= matrix_sum(m),
    decreases m.len(),
{
    if i < m.len() - 1 {
        lemma_row_le_matrix(m.drop_last(), i);
        lemma_sum_nonneg(m.last()@);
    } else {
        lemma_matrix_nonneg(m.drop_last());
    }
}

proof fn lemma_prefix_le_matrix(m: Seq<Vec<u32>>, k: int)
    requires
        0 <= k <= m.len(),
    ensures
        matrix_sum(m.take(k)) <= matrix_sum(m),
    decreases m.len() - k,
{
    if k < m.len() {
        lemma_prefix_le_matrix(m, k + 1);
        assert(m.take(k + 1).drop_last() =~= m.take(k));
        lemma_sum_nonneg(m[k]@);
    } else {
        assert(m.take(k) =~= m);
    }
}

proof fn lemma_diag_le_prefix(m: Seq<Vec<u32>>, k: int)
    requires
        0 <= k <= m.len(),
        forall|a: int| 0 <= a < m.len() ==> #[trigger] m[a]@.len() > a,
    ensures
        diag_sum(m, k) <= matrix_sum(m.take(k)),
    decreases k,
{
    if k > 0 {
        lemma_diag_le_prefix(m, k - 1);
        assert(m.take(k).drop_last() =~= m.take(k - 1));
        lemma_entry_le_sum(m[k - 1]@, k - 1);
    }
}

proof fn lemma_diag_le_matrix(m: Seq<Vec<u32>>, k: int)
    requires
        0 <= k <= m.len(),
        forall|a: int| 0 <= a < m.len() ==> #[trigger] m[a]@.len() > a,
    ensures
        diag_sum(m, k) <= matrix_sum(m),
{
    lemma_diag_le_prefix(m, k);
    lemma_prefix_le_matrix(m, k);
}

proof fn lemma_diag_zero(m: Seq<Vec<u32>>, k: int)
    requires
        0 <= k <= m.len(),
        forall|a: int| 0 <= a < m.len() ==> #[trigger] m[a]@.len() > a,
        forall|a: int| 0 <= a < m.len() ==> #[trigger] m[a]@[a] == 0,
    ensures
        diag_sum(m, k) == 0,
    decreases k,
{
    if k > 0 {
        lemma_diag_zero(m, k - 1);
    }
}

} // verus!

use vstd::prelude::*;

verus! {

/// A class label as the specifications see it.
pub type LabelView = Seq<char>;

/// A (truth, predicted) pair: the key of one cell of the matrix.
pub type PairView = (LabelView, LabelView);

/// Position of the last entry with key `k`, or -1 when there is none.
pub open spec fn find<K>(s: Seq<(K, int)>, k: K) -> int
    decreases s.len(),
{
    if s.len() == 0 {
        -1
    } else if s.last().0 == k {
        s.len() - 1
    } else {
        find(s.drop_last(), k)
    }
}

/// Whether some entry of `s` has key `k`.
pub open spec fn has_key<K>(s: Seq<(K, int)>, k: K) -> bool {
    exists|i: int| 0 <= i < s.len() && s[i].0 == k
}

/// No two entries share a key.
pub open spec fn unique_keys<K>(s: Seq<(K, int)>) -> bool {
    forall|i: int, j: int| 0 <= i < s.len() && 0 <= j < s.len() && s[i].0 == s[j].0 ==> i == j
}

/// The value stored under `k`; an absent key reads as zero.
pub open spec fn value_of<K>(s: Seq<(K, int)>, k: K) -> int {
    let i = find(s, k);
    if i >= 0 {
        s[i].1
    } else {
        0
    }
}

/// Adds `w` to the value under `k`, creating the entry with value `w` if absent.
pub open spec fn add_to<K>(s: Seq<(K, int)>, k: K, w: int) -> Seq<(K, int)> {
    let i = find(s, k);
    if i >= 0 {
        s.update(i, (k, s[i].1 + w))
    } else {
        s.push((k, w))
    }
}

/// Sum of the values of the entries whose key satisfies `f`.
pub open spec fn sum_where<K>(s: Seq<(K, int)>, f: spec_fn(K) -> bool) -> int
    decreases s.len(),
{
    if s.len() == 0 {
        0
    } else {
        sum_where(s.drop_last(), f) + if f(s.last().0) {
            s.last().1
        } else {
            0
        }
    }
}

/// Sum of all values.
pub open spec fn sum_values<K>(s: Seq<(K, int)>) -> int {
    sum_where(s, |k: K| true)
}

/// Sum of `f` over the keys of `s`, in order.
pub open spec fn sum_over_keys<K>(s: Seq<(K, int)>, f: spec_fn(K) -> int) -> int
    decreases s.len(),
{
    if s.len() == 0 {
        0
    } else {
        sum_over_keys(s.drop_last(), f) + f(s.last().0)
    }
}

pub open spec fn truth_is(c: LabelView) -> spec_fn(PairView) -> bool {
    |k: PairView| k.0 == c
}

pub open spec fn pred_is(c: LabelView) -> spec_fn(PairView) -> bool {
    |k: PairView| k.1 == c
}

pub open spec fn key_is<K>(c: K) -> spec_fn(K) -> bool {
    |k: K| k == c
}

pub open spec fn in_i64(x: int) -> bool {
    i64::MIN <= x <= i64::MAX
}

/// The most distinct truth labels a matrix holds; it keeps every aggregate within `i128`.
pub const MAX_TRUTH_LABELS: usize = 0x8000_0000;

/// The abstract state of a confusion matrix.
///
/// `cells` maps (truth, predicted) to the accumulated weight; `row_sums` and
/// `col_sums` map a label to the weight where it is the truth, resp. the
/// prediction. Every list keeps one entry per key, in order of first use.
pub struct Tally {
    pub n_samples: int,
    pub total_weight: int,
    pub cells: Seq<(PairView, int)>,
    pub row_sums: Seq<(LabelView, int)>,
    pub col_sums: Seq<(LabelView, int)>,
}

impl Tally {
    pub open spec fn empty() -> Tally {
        Tally {
            n_samples: 0,
            total_weight: 0,
            cells: Seq::empty(),
            row_sums: Seq::empty(),
            col_sums: Seq::empty(),
        }
    }

    /// One observation of weight `w` (negative for a revert).
    pub open spec fn applied(self, truth: LabelView, pred: LabelView, w: int) -> Tally {
        Tally {
            n_samples: self.n_samples + w,
            total_weight: self.total_weight + w,
            cells: add_to(self.cells, (truth, pred), w),
            row_sums: add_to(self.row_sums, truth, w),
            col_sums: add_to(self.col_sums, pred, w),
        }
    }

    pub open spec fn cell(self, truth: LabelView, pred: LabelView) -> int {
        value_of(self.cells, (truth, pred))
    }

    pub open spec fn row(self, c: LabelView) -> int {
        value_of(self.row_sums, c)
    }

    pub open spec fn col(self, c: LabelView) -> int {
        value_of(self.col_sums, c)
    }

    /// A label is active when its row or its column sum is non-zero.
    pub open spec fn active(self, c: LabelView) -> bool {
        self.row(c) != 0 || self.col(c) != 0
    }

    pub open spec fn true_positives(self, c: LabelView) -> int {
        self.cell(c, c)
    }

    pub open spec fn false_positives(self, c: LabelView) -> int {
        self.col(c) - self.cell(c, c)
    }

    pub open spec fn false_negatives(self, c: LabelView) -> int {
        self.row(c) - self.cell(c, c)
    }

    pub open spec fn true_positives_fn(self) -> spec_fn(LabelView) -> int {
        |c: LabelView| self.true_positives(c)
    }

    pub open spec fn true_negatives_fn(self) -> spec_fn(LabelView) -> int {
        |c: LabelView| self.true_negatives(c)
    }

    pub open spec fn false_positives_fn(self) -> spec_fn(LabelView) -> int {
        |c: LabelView| self.false_positives(c)
    }

    pub open spec fn false_negatives_fn(self) -> spec_fn(LabelView) -> int {
        |c: LabelView| self.false_negatives(c)
    }

    /// Sum of the diagonal over the labels seen as truth.
    pub open spec fn total_true_positives(self) -> int {
        sum_over_keys(self.row_sums, self.true_positives_fn())
    }

    /// The total of the diagonal less this label's own diagonal cell.
    pub open spec fn true_negatives(self, c: LabelView) -> int {
        self.total_true_positives() - self.true_positives(c)
    }

    pub open spec fn total_true_negatives(self) -> int {
        sum_over_keys(self.row_sums, self.true_negatives_fn())
    }

    pub open spec fn total_false_positives(self) -> int {
        sum_over_keys(self.row_sums, self.false_positives_fn())
    }

    pub open spec fn total_false_negatives(self) -> int {
        sum_over_keys(self.row_sums, self.false_negatives_fn())
    }

    /// The entries of the row of `c`, keyed by predicted label, in order of first use.
    pub open spec fn row_entries(self, c: LabelView) -> Seq<(LabelView, int)> {
        row_of(self.cells, c)
    }

    /// Well-formedness: unique keys, sums that agree with the cells, and the
    /// bounds that keep the stored values in `i64`.
    pub open spec fn wf(self) -> bool {
        &&& unique_keys(self.cells)
        &&& unique_keys(self.row_sums)
        &&& unique_keys(self.col_sums)
        &&& forall|i: int|
            0 <= i < self.row_sums.len() ==> #[trigger] self.row_sums[i].1 == sum_where(
                self.cells,
                truth_is(self.row_sums[i].0),
            )
        &&& forall|i: int|
            0 <= i < self.col_sums.len() ==> #[trigger] self.col_sums[i].1 == sum_where(
                self.cells,
                pred_is(self.col_sums[i].0),
            )
        &&& forall|j: int|
            0 <= j < self.cells.len() ==> has_key(self.row_sums, #[trigger] self.cells[j].0.0)
        &&& forall|j: int|
            0 <= j < self.cells.len() ==> has_key(self.col_sums, #[trigger] self.cells[j].0.1)
        &&& self.total_weight == sum_values(self.cells)
        &&& self.n_samples == self.total_weight
        &&& self.row_sums.len() <= MAX_TRUTH_LABELS
        &&& in_i64(self.n_samples)
        &&& in_i64(self.total_weight)
        &&& forall|j: int| 0 <= j < self.cells.len() ==> in_i64(#[trigger] self.cells[j].1)
        &&& forall|i: int| 0 <= i < self.row_sums.len() ==> in_i64(#[trigger] self.row_sums[i].1)
        &&& forall|i: int| 0 <= i < self.col_sums.len() ==> in_i64(#[trigger] self.col_sums[i].1)
    }

    /// Whether an observation of weight `w` keeps every stored value in range.
    pub open spec fn fits(self, truth: LabelView, pred: LabelView, w: int) -> bool {
        &&& in_i64(self.n_samples + w)
        &&& in_i64(self.total_weight + w)
        &&& in_i64(self.cell(truth, pred) + w)
        &&& in_i64(self.row(truth) + w)
        &&& in_i64(self.col(pred) + w)
        &&& (!has_key(self.row_sums, truth) ==> self.row_sums.len() < MAX_TRUTH_LABELS)
    }
}

/// The row of truth `c`: (predicted, weight) for each cell whose truth is `c`.
pub open spec fn row_of(s: Seq<(PairView, int)>, c: LabelView) -> Seq<(LabelView, int)>
    decreases s.len(),
{
    if s.len() == 0 {
        Seq::empty()
    } else if s.last().0.0 == c {
        row_of(s.drop_last(), c).push((s.last().0.1, s.last().1))
    } else {
        row_of(s.drop_last(), c)
    }
}


pub proof fn lemma_find<K>(s: Seq<(K, int)>, k: K)
    ensures
        -1 <= find(s, k) < s.len(),
        find(s, k) >= 0 ==> s[find(s, k)].0 == k,
        find(s, k) == -1 <==> !has_key(s, k),
        unique_keys(s) ==> forall|i: int| 0 <= i < s.len() && s[i].0 == k ==> i == find(s, k),
    decreases s.len(),
{
    if s.len() > 0 {
        lemma_find(s.drop_last(), k);
        if s.last().0 != k {
            if has_key(s, k) {
                let i = choose|i: int| 0 <= i < s.len() && s[i].0 == k;
                assert(s.drop_last()[i].0 == k);
            }
            if has_key(s.drop_last(), k) {
                let i = choose|i: int| 0 <= i < s.drop_last().len() && s.drop_last()[i].0 == k;
                assert(s[i].0 == k);
            }
        }
    }
}

/// Under unique keys, the value of `k` is that of the one entry holding it.
pub proof fn lemma_value_at<K>(s: Seq<(K, int)>, i: int)
    requires
        unique_keys(s),
        0 <= i < s.len(),
    ensures
        value_of(s, s[i].0) == s[i].1,
        find(s, s[i].0) == i,
{
    lemma_find(s, s[i].0);
}

pub proof fn lemma_sum_update<K>(s: Seq<(K, int)>, i: int, e: (K, int), f: spec_fn(K) -> bool)
    requires
        0 <= i < s.len(),
    ensures
        sum_where(s.update(i, e), f) == sum_where(s, f) - (if f(s[i].0) {
            s[i].1
        } else {
            0
        }) + (if f(e.0) {
            e.1
        } else {
            0
        }),
    decreases s.len(),
{
    let t = s.update(i, e);
    if i == s.len() - 1 {
        assert(t.drop_last() =~= s.drop_last());
    } else {
        assert(t.drop_last() =~= s.drop_last().update(i, e));
        lemma_sum_update(s.drop_last(), i, e, f);
    }
}

pub proof fn lemma_sum_remove<K>(s: Seq<(K, int)>, i: int, f: spec_fn(K) -> bool)
    requires
        0 <= i < s.len(),
    ensures
        sum_where(s, f) == sum_where(s.remove(i), f) + (if f(s[i].0) {
            s[i].1
        } else {
            0
        }),
    decreases s.len(),
{
    let t = s.remove(i);
    if i == s.len() - 1 {
        assert(t =~= s.drop_last());
    } else {
        assert(t.drop_last() =~= s.drop_last().remove(i));
        assert(t.last() == s.last());
        lemma_sum_remove(s.drop_last(), i, f);
    }
}

pub proof fn lemma_sum_zero<K>(s: Seq<(K, int)>, f: spec_fn(K) -> bool)
    requires
        forall|i: int| 0 <= i < s.len() ==> !f(#[trigger] s[i].0),
    ensures
        sum_where(s, f) == 0,
    decreases s.len(),
{
    if s.len() > 0 {
        assert(!f(s[s.len() - 1].0));
        lemma_sum_zero(s.drop_last(), f);
    }
}

/// What adding weight to one key does to the list.
pub proof fn lemma_add_to<K>(s: Seq<(K, int)>, k: K, w: int)
    requires
        unique_keys(s),
    ensures
        unique_keys(add_to(s, k, w)),
        forall|k2: K|
            #[trigger] value_of(add_to(s, k, w), k2) == value_of(s, k2) + if k2 == k {
                w
            } else {
                0
            },
        forall|k2: K| #[trigger] has_key(add_to(s, k, w), k2) <==> has_key(s, k2) || k2 == k,
        add_to(s, k, w).len() == s.len() + if has_key(s, k) {
            0int
        } else {
            1int
        },
        forall|j: int|
            0 <= j < add_to(s, k, w).len() ==> if #[trigger] add_to(s, k, w)[j].0 == k {
                add_to(s, k, w)[j].1 == value_of(s, k) + w
            } else {
                j < s.len() && add_to(s, k, w)[j] == s[j]
            },
        forall|f: spec_fn(K) -> bool|
            #[trigger] sum_where(add_to(s, k, w), f) == sum_where(s, f) + if f(k) {
                w
            } else {
                0
            },
{
    let t = add_to(s, k, w);
    let i = find(s, k);
    lemma_find(s, k);
    assert(unique_keys(t)) by {
        assert forall|a: int, b: int|
            0 <= a < t.len() && 0 <= b < t.len() && t[a].0 == t[b].0 implies a == b by {
            if i < 0 {
                if a == s.len() as int && b < s.len() {
                    assert(t[b] == s[b]);
                    assert(s[b].0 == k);
                } else if b == s.len() as int && a < s.len() {
                    assert(t[a] == s[a]);
                    assert(s[a].0 == k);
                }
            }
        }
    }
    assert forall|k2: K| #[trigger] has_key(t, k2) <==> has_key(s, k2) || k2 == k by {
        if has_key(t, k2) {
            let j = choose|j: int| 0 <= j < t.len() && t[j].0 == k2;
            if j < s.len() {
                assert(s[j].0 == k2 || k2 == k);
            }
        }
        if has_key(s, k2) {
            let j = choose|j: int| 0 <= j < s.len() && s[j].0 == k2;
            assert(t[j].0 == k2);
        }
        if k2 == k {
            if i >= 0 {
                assert(t[i].0 == k);
            } else {
                assert(t[s.len() as int].0 == k);
            }
        }
    }
    assert forall|k2: K| #[trigger] value_of(t, k2) == value_of(s, k2) + if k2 == k {
        w
    } else {
        0
    } by {
        lemma_find(t, k2);
        lemma_find(s, k2);
        if k2 == k {
            if i >= 0 {
                assert(t[i].0 == k);
            } else {
                assert(t[s.len() as int].0 == k);
            }
        } else {
            if find(s, k2) >= 0 {
                assert(t[find(s, k2)].0 == k2);
            }
            if find(t, k2) >= 0 {
                assert(s[find(t, k2)].0 == k2);
            }
        }
    }
    assert forall|f: spec_fn(K) -> bool| #[trigger] sum_where(t, f) == sum_where(s, f) + if f(k) {
        w
    } else {
        0
    } by {
        if i >= 0 {
            lemma_sum_update(s, i, (k, s[i].1 + w), f);
        } else {
            assert(t.drop_last() =~= s);
        }
    }
}

/// `sum_over_keys` is additive in the summed function.
pub proof fn lemma_sum_over_keys_split<K>(
    s: Seq<(K, int)>,
    f: spec_fn(K) -> int,
    g: spec_fn(K) -> int,
    h: spec_fn(K) -> int,
)
    requires
        forall|c: K| #[trigger] f(c) == g(c) + h(c),
    ensures
        sum_over_keys(s, f) == sum_over_keys(s, g) + sum_over_keys(s, h),
    decreases s.len(),
{
    if s.len() > 0 {
        lemma_sum_over_keys_split(s.drop_last(), f, g, h);
    }
}

/// Summing an indicator of one key over unique keys counts it once.
pub proof fn lemma_sum_over_keys_single<K>(s: Seq<(K, int)>, h: spec_fn(K) -> int, x: K, w: int)
    requires
        unique_keys(s),
        forall|c: K| #[trigger] h(c) == if c == x { w } else { 0int },
    ensures
        sum_over_keys(s, h) == if has_key(s, x) {
            w
        } else {
            0
        },
    decreases s.len(),
{
    if s.len() > 0 {
        let d = s.drop_last();
        assert(unique_keys(d));
        lemma_sum_over_keys_single(d, h, x, w);
        if s.last().0 == x {
            assert(!has_key(d, x)) by {
                if has_key(d, x) {
                    let j = choose|j: int| 0 <= j < d.len() && d[j].0 == x;
                    assert(s[j].0 == s[s.len() - 1].0);
                }
            }
            assert(has_key(s, x)) by {
                assert(s[s.len() - 1].0 == x);
            }
        } else {
            if has_key(s, x) {
                let j = choose|j: int| 0 <= j < s.len() && s[j].0 == x;
                assert(d[j].0 == x);
            }
            if has_key(d, x) {
                let j = choose|j: int| 0 <= j < d.len() && d[j].0 == x;
                assert(s[j].0 == x);
            }
        }
    }
}

pub proof fn lemma_sum_over_keys_zero<K>(s: Seq<(K, int)>, f: spec_fn(K) -> int)
    requires
        forall|c: K| #[trigger] f(c) == 0,
    ensures
        sum_over_keys(s, f) == 0,
    decreases s.len(),
{
    if s.len() > 0 {
        lemma_sum_over_keys_zero(s.drop_last(), f);
    }
}

/// The selector of the cells that a row (`by_truth`) or a column sum counts.
pub open spec fn side_is(by_truth: bool, c: LabelView) -> spec_fn(PairView) -> bool {
    if by_truth {
        truth_is(c)
    } else {
        pred_is(c)
    }
}

pub open spec fn side_of(by_truth: bool, k: PairView) -> LabelView {
    if by_truth {
        k.0
    } else {
        k.1
    }
}

proof fn lemma_partition_cells(sums: Seq<(LabelView, int)>, cells: Seq<(PairView, int)>, by_truth: bool)
    requires
        unique_keys(sums),
        forall|j: int| 0 <= j < cells.len() ==> has_key(sums, side_of(by_truth, #[trigger] cells[j].0)),
    ensures
        sum_over_keys(sums, |c: LabelView| sum_where(cells, side_is(by_truth, c))) == sum_values(cells),
    decreases cells.len(),
{
    let g = |c: LabelView| sum_where(cells, side_is(by_truth, c));
    if cells.len() == 0 {
        lemma_sum_over_keys_zero(sums, g);
    } else {
        let d = cells.drop_last();
        let e = cells.last();
        let x = side_of(by_truth, e.0);
        let g0 = |c: LabelView| sum_where(d, side_is(by_truth, c));
        let h = |c: LabelView| if c == x { e.1 } else { 0int };
        assert forall|j: int| 0 <= j < d.len() implies has_key(sums, side_of(by_truth, #[trigger] d[j].0)) by {
            assert(d[j] == cells[j]);
        }
        lemma_partition_cells(sums, d, by_truth);
        assert forall|c: LabelView| #[trigger] g(c) == g0(c) + h(c) by {
            assert(side_is(by_truth, c)(e.0) == (x == c));
        }
        lemma_sum_over_keys_split(sums, g, g0, h);
        lemma_sum_over_keys_single(sums, h, x, e.1);
        assert(has_key(sums, side_of(by_truth, cells[cells.len() - 1].0)));
        assert(sum_values(cells) == sum_values(d) + e.1);
        assert(sum_over_keys(sums, g) == sum_over_keys(sums, g0) + e.1);
    }
}

proof fn lemma_sum_values_as_keys(sums: Seq<(LabelView, int)>, g: spec_fn(LabelView) -> int)
    requires
        forall|i: int| 0 <= i < sums.len() ==> #[trigger] sums[i].1 == g(sums[i].0),
    ensures
        sum_values(sums) == sum_over_keys(sums, g),
    decreases sums.len(),
{
    if sums.len() > 0 {
        let d = sums.drop_last();
        assert forall|i: int| 0 <= i < d.len() implies #[trigger] d[i].1 == g(d[i].0) by {
            assert(d[i] == sums[i]);
        }
        lemma_sum_values_as_keys(d, g);
        assert(sums[sums.len() - 1].1 == g(sums[sums.len() - 1].0));
    }
}

/// Row and column consistency: in a well-formed state each row sum is the sum
/// of the cells of that truth label, and each column sum the sum of the cells
/// of that predicted label, for every label (absent ones read as zero).
pub proof fn law_row_col_consistency(m: Tally, c: LabelView)
    requires
        m.wf(),
    ensures
        m.row(c) == sum_where(m.cells, truth_is(c)),
        m.col(c) == sum_where(m.cells, pred_is(c)),
{
    lemma_find(m.row_sums, c);
    lemma_find(m.col_sums, c);
    if !has_key(m.row_sums, c) {
        assert forall|j: int| 0 <= j < m.cells.len() implies !truth_is(c)(#[trigger] m.cells[j].0) by {
            assert(has_key(m.row_sums, m.cells[j].0.0));
        }
        lemma_sum_zero(m.cells, truth_is(c));
    } else {
        let i = find(m.row_sums, c);
        assert(m.row_sums[i].1 == sum_where(m.cells, truth_is(m.row_sums[i].0)));
    }
    if !has_key(m.col_sums, c) {
        assert forall|j: int| 0 <= j < m.cells.len() implies !pred_is(c)(#[trigger] m.cells[j].0) by {
            assert(has_key(m.col_sums, m.cells[j].0.1));
        }
        lemma_sum_zero(m.cells, pred_is(c));
    } else {
        let i = find(m.col_sums, c);
        assert(m.col_sums[i].1 == sum_where(m.cells, pred_is(m.col_sums[i].0)));
    }
}

/// Total weight consistency: in a well-formed state the total weight equals
/// the sum of all cells, of all row sums, and of all column sums.
pub proof fn law_total_consistency(m: Tally)
    requires
        m.wf(),
    ensures
        m.total_weight == sum_values(m.cells),
        m.total_weight == sum_values(m.row_sums),
        m.total_weight == sum_values(m.col_sums),
{
    let gr = |c: LabelView| sum_where(m.cells, side_is(true, c));
    let gc = |c: LabelView| sum_where(m.cells, side_is(false, c));
    assert forall|i: int| 0 <= i < m.row_sums.len() implies #[trigger] m.row_sums[i].1 == gr(m.row_sums[i].0) by {
        assert(side_is(true, m.row_sums[i].0) == truth_is(m.row_sums[i].0));
    }
    assert forall|i: int| 0 <= i < m.col_sums.len() implies #[trigger] m.col_sums[i].1 == gc(m.col_sums[i].0) by {
        assert(side_is(false, m.col_sums[i].0) == pred_is(m.col_sums[i].0));
    }
    lemma_sum_values_as_keys(m.row_sums, gr);
    lemma_sum_values_as_keys(m.col_sums, gc);
    lemma_partition_cells(m.row_sums, m.cells, true);
    lemma_partition_cells(m.col_sums, m.cells, false);
}


/// Applying an observation that fits keeps a well-formed state well-formed.
pub proof fn lemma_applied_wf(m: Tally, truth: LabelView, pred: LabelView, w: int)
    requires
        m.wf(),
        m.fits(truth, pred, w),
    ensures
        m.applied(truth, pred, w).wf(),
{
    let n = m.applied(truth, pred, w);
    lemma_add_to(m.cells, (truth, pred), w);
    lemma_add_to(m.row_sums, truth, w);
    lemma_add_to(m.col_sums, pred, w);
    assert forall|i: int| 0 <= i < n.row_sums.len() implies #[trigger] n.row_sums[i].1 == sum_where(
        n.cells,
        truth_is(n.row_sums[i].0),
    ) by {
        let c = n.row_sums[i].0;
        lemma_value_at(n.row_sums, i);
        law_row_col_consistency(m, c);
        assert(truth_is(c)((truth, pred)) == (truth == c));
    }
    assert forall|i: int| 0 <= i < n.col_sums.len() implies #[trigger] n.col_sums[i].1 == sum_where(
        n.cells,
        pred_is(n.col_sums[i].0),
    ) by {
        let c = n.col_sums[i].0;
        lemma_value_at(n.col_sums, i);
        law_row_col_consistency(m, c);
        assert(pred_is(c)((truth, pred)) == (pred == c));
    }
    assert forall|j: int| 0 <= j < n.cells.len() implies has_key(n.row_sums, #[trigger] n.cells[j].0.0) && has_key(n.col_sums, n.cells[j].0.1) by {
        if n.cells[j].0 != (truth, pred) {
            assert(m.cells[j] == n.cells[j]);
            assert(has_key(m.row_sums, m.cells[j].0.0));
            assert(has_key(m.col_sums, m.cells[j].0.1));
        }
    }
    assert(sum_values(n.cells) == sum_values(m.cells) + w);
    lemma_find(m.cells, (truth, pred));
    lemma_find(m.row_sums, truth);
    lemma_find(m.col_sums, pred);
    assert forall|j: int| 0 <= j < n.cells.len() implies in_i64(#[trigger] n.cells[j].1) by {
        if n.cells[j].0 != (truth, pred) {
            assert(m.cells[j] == n.cells[j]);
        }
    }
    assert forall|i: int| 0 <= i < n.row_sums.len() implies in_i64(#[trigger] n.row_sums[i].1) by {
        if n.row_sums[i].0 != truth {
            assert(m.row_sums[i] == n.row_sums[i]);
        }
    }
    assert forall|i: int| 0 <= i < n.col_sums.len() implies in_i64(#[trigger] n.col_sums[i].1) by {
        if n.col_sums[i].0 != pred {
            assert(m.col_sums[i] == n.col_sums[i]);
        }
    }
}


/// Some entry before position `i` has key `c` and a non-zero value.
pub open spec fn nonzero_before<K>(s: Seq<(K, int)>, c: K, i: int) -> bool {
    exists|j: int| 0 <= j < i && s[j].0 == c && s[j].1 != 0
}

pub proof fn lemma_nonzero_before_step<K>(s: Seq<(K, int)>, c: K, i: int)
    requires
        0 <= i < s.len(),
    ensures
        nonzero_before(s, c, i + 1) <==> nonzero_before(s, c, i) || (s[i].0 == c && s[i].1 != 0),
{
    if nonzero_before(s, c, i + 1) {
        let j = choose|j: int| 0 <= j < i + 1 && s[j].0 == c && s[j].1 != 0;
        if j < i {
            assert(nonzero_before(s, c, i));
        }
    }
    if nonzero_before(s, c, i) {
        let j = choose|j: int| 0 <= j < i && s[j].0 == c && s[j].1 != 0;
        assert(nonzero_before(s, c, i + 1));
    }
    if s[i].0 == c && s[i].1 != 0 {
        assert(nonzero_before(s, c, i + 1));
    }
}

/// Under unique keys, a key reads non-zero exactly when its entry holds a non-zero value.
pub proof fn lemma_nonzero_value<K>(s: Seq<(K, int)>, c: K)
    requires
        unique_keys(s),
    ensures
        value_of(s, c) != 0 <==> nonzero_before(s, c, s.len() as int),
{
    lemma_find(s, c);
    if nonzero_before(s, c, s.len() as int) {
        let j = choose|j: int| 0 <= j < s.len() && s[j].0 == c && s[j].1 != 0;
        assert(j == find(s, c));
    }
    if value_of(s, c) != 0 {
        assert(nonzero_before(s, c, s.len() as int));
    }
}


/// The state after applying each observation ((truth, predicted), weight) in
/// order, as updates, or with `undo` as reverts.
pub open spec fn replay(m: Tally, obs: Seq<(PairView, int)>, undo: bool) -> Tally
    decreases obs.len(),
{
    if obs.len() == 0 {
        m
    } else {
        let o = obs.last();
        replay(m, obs.drop_last(), undo).applied(o.0.0, o.0.1, if undo { -o.1 } else { o.1 })
    }
}

pub open spec fn keys_unique(m: Tally) -> bool {
    unique_keys(m.cells) && unique_keys(m.row_sums) && unique_keys(m.col_sums)
}

pub open spec fn signed(x: int, undo: bool) -> int {
    if undo {
        -x
    } else {
        x
    }
}

/// After a replay every value has moved by the net weight of the observations
/// that touch it.
pub proof fn lemma_replay_values(m: Tally, obs: Seq<(PairView, int)>, undo: bool)
    requires
        keys_unique(m),
    ensures
        keys_unique(replay(m, obs, undo)),
        replay(m, obs, undo).n_samples == m.n_samples + signed(sum_values(obs), undo),
        replay(m, obs, undo).total_weight == m.total_weight + signed(sum_values(obs), undo),
        forall|k: PairView| #[trigger] value_of(replay(m, obs, undo).cells, k) == value_of(m.cells, k) + signed(sum_where(obs, key_is(k)), undo),
        forall|c: LabelView| #[trigger] value_of(replay(m, obs, undo).row_sums, c) == value_of(m.row_sums, c) + signed(sum_where(obs, truth_is(c)), undo),
        forall|c: LabelView| #[trigger] value_of(replay(m, obs, undo).col_sums, c) == value_of(m.col_sums, c) + signed(sum_where(obs, pred_is(c)), undo),
    decreases obs.len(),
{
    if obs.len() > 0 {
        let d = obs.drop_last();
        let o = obs.last();
        let p = replay(m, d, undo);
        let w = if undo { -o.1 } else { o.1 };
        lemma_replay_values(m, d, undo);
        lemma_add_to(p.cells, o.0, w);
        lemma_add_to(p.row_sums, o.0.0, w);
        lemma_add_to(p.col_sums, o.0.1, w);
        assert(sum_values(obs) == sum_values(d) + o.1);
        assert forall|k: PairView| #[trigger] value_of(replay(m, obs, undo).cells, k) == value_of(m.cells, k) + signed(sum_where(obs, key_is(k)), undo) by {
            assert(key_is(k)(o.0) == (o.0 == k));
        }
        assert forall|c: LabelView| #[trigger] value_of(replay(m, obs, undo).row_sums, c) == value_of(m.row_sums, c) + signed(sum_where(obs, truth_is(c)), undo) by {
            assert(truth_is(c)(o.0) == (o.0.0 == c));
        }
        assert forall|c: LabelView| #[trigger] value_of(replay(m, obs, undo).col_sums, c) == value_of(m.col_sums, c) + signed(sum_where(obs, pred_is(c)), undo) by {
            assert(pred_is(c)(o.0) == (o.0.1 == c));
        }
    }
}

/// A filtered sum does not depend on the order of the entries.
pub proof fn lemma_sum_permutation<K>(a: Seq<(K, int)>, b: Seq<(K, int)>, f: spec_fn(K) -> bool)
    requires
        a.to_multiset() == b.to_multiset(),
    ensures
        sum_where(a, f) == sum_where(b, f),
    decreases a.len(),
{
    broadcast use vstd::seq_lib::group_to_multiset_ensures;

    if a.len() == 0 {
        assert(b.to_multiset().len() == 0);
        assert(b.len() == 0);
    } else {
        let x = a.last();
        assert(a.to_multiset().count(x) > 0) by {
            assert(a.contains(x)) by {
                assert(a[a.len() - 1] == x);
            }
        }
        assert(b.contains(x));
        let i = choose|i: int| 0 <= i < b.len() && b[i] == x;
        let b2 = b.remove(i);
        assert(a.remove(a.len() - 1) =~= a.drop_last());
        assert(a.drop_last().to_multiset() == a.to_multiset().remove(x));
        assert(b2.to_multiset() == b.to_multiset().remove(x));
        lemma_sum_permutation(a.drop_last(), b2, f);
        lemma_sum_remove(b, i, f);
    }
}

/// Update/revert inverse law: applying any observations as updates and then
/// the same observations, in any order, as reverts restores every value:
/// the sample count, the total weight, every cell and every row and column sum.
pub proof fn law_revert_undoes_update(m: Tally, obs: Seq<(PairView, int)>, back: Seq<(PairView, int)>)
    requires
        m.wf(),
        obs.to_multiset() == back.to_multiset(),
    ensures
        replay(replay(m, obs, false), back, true).n_samples == m.n_samples,
        replay(replay(m, obs, false), back, true).total_weight == m.total_weight,
        forall|t: LabelView, p: LabelView| #[trigger] replay(replay(m, obs, false), back, true).cell(t, p) == m.cell(t, p),
        forall|c: LabelView| #[trigger] replay(replay(m, obs, false), back, true).row(c) == m.row(c),
        forall|c: LabelView| #[trigger] replay(replay(m, obs, false), back, true).col(c) == m.col(c),
{
    let u = replay(m, obs, false);
    lemma_replay_values(m, obs, false);
    lemma_replay_values(u, back, true);
    lemma_sum_permutation(obs, back, |k: PairView| true);
    assert forall|t: LabelView, p: LabelView| #[trigger] replay(u, back, true).cell(t, p) == m.cell(t, p) by {
        lemma_sum_permutation(obs, back, key_is((t, p)));
    }
    assert forall|c: LabelView| #[trigger] replay(u, back, true).row(c) == m.row(c) by {
        lemma_sum_permutation(obs, back, truth_is(c));
    }
    assert forall|c: LabelView| #[trigger] replay(u, back, true).col(c) == m.col(c) by {
        lemma_sum_permutation(obs, back, pred_is(c));
    }
}

/// Active-class filtering: a label that was not active stays inactive once
/// the observations applied since have all been reverted.
pub proof fn law_reverted_label_inactive(m: Tally, obs: Seq<(PairView, int)>, back: Seq<(PairView, int)>, c: LabelView)
    requires
        m.wf(),
        obs.to_multiset() == back.to_multiset(),
        !m.active(c),
    ensures
        !replay(replay(m, obs, false), back, true).active(c),
{
    law_revert_undoes_update(m, obs, back);
    assert(replay(replay(m, obs, false), back, true).row(c) == m.row(c));
    assert(replay(replay(m, obs, false), back, true).col(c) == m.col(c));
}

} // verus!

use vstd::prelude::*;
use crate::order::{ascending, label_less, label_lt, lemma_insert_ascending, lemma_label_total, lemma_prefix_step};
use crate::tally::{add_to, find, in_i64, lemma_applied_wf, lemma_find, row_of, sum_over_keys, nonzero_before, lemma_nonzero_before_step, lemma_nonzero_value, unique_keys, MAX_TRUTH_LABELS, value_of, LabelView, PairView, Tally};

verus! {

/// A class label.
pub type ClassifierTarget = String;

/// The weight of an observation: the one given, or one when absent.
pub open spec fn weight_of(w: Option<i64>) -> int {
    match w {
        Some(x) => x as int,
        None => 1,
    }
}

pub open spec fn names(v: Seq<String>) -> Seq<LabelView> {
    v.map_values(|e: String| e@)
}

pub open spec fn labels_view(v: Seq<(String, i64)>) -> Seq<(LabelView, int)> {
    v.map_values(|e: (String, i64)| (e.0@, e.1 as int))
}

pub open spec fn cells_view(v: Seq<(String, String, i64)>) -> Seq<(PairView, int)> {
    v.map_values(|e: (String, String, i64)| ((e.0@, e.1@), e.2 as int))
}

/// Confusion matrix for single-output (binary or multi-class) classification,
/// accumulated one weighted (prediction, truth) observation at a time.
///
/// Rows are truth labels and columns predicted labels. Observations can be
/// reverted, which subtracts exactly what the matching update added.
#[derive(Clone)]
pub struct ConfusionMatrix {
    n_samples: i64,
    /// (truth, predicted, weight), one entry per pair.
    data: Vec<(String, String, i64)>,
    sum_row: Vec<(String, i64)>,
    sum_col: Vec<(String, i64)>,
    total_weight: i64,
}

impl View for ConfusionMatrix {
    type V = Tally;

    closed spec fn view(&self) -> Tally {
        Tally {
            n_samples: self.n_samples as int,
            total_weight: self.total_weight as int,
            cells: cells_view(self.data@),
            row_sums: labels_view(self.sum_row@),
            col_sums: labels_view(self.sum_col@),
        }
    }
}

/// Position of `k` in a list with unique keys.
fn find_label(v: &Vec<(String, i64)>, k: &String) -> (r: Option<usize>)
    requires
        unique_keys(labels_view(v@)),
    ensures
        match r {
            Some(i) => i < v@.len() && find(labels_view(v@), k@) == i,
            None => find(labels_view(v@), k@) == -1,
        },
{
    let ghost s = labels_view(v@);
    let mut i: usize = 0;
    while i < v.len()
        invariant
            s == labels_view(v@),
            unique_keys(s),
            i <= v@.len(),
            forall|j: int| 0 <= j < i ==> s[j].0 != k@,
        decreases v@.len() - i,
    {
        if v[i].0 == *k {
            proof {
                assert(s[i as int].0 == k@);
                lemma_find(s, k@);
            }
            return Some(i);
        }
        i = i + 1;
    }
    proof {
        lemma_find(s, k@);
    }
    None
}

/// Position of the pair (`t`, `p`) in a list with unique keys.
fn find_cell(v: &Vec<(String, String, i64)>, t: &String, p: &String) -> (r: Option<usize>)
    requires
        unique_keys(cells_view(v@)),
    ensures
        match r {
            Some(i) => i < v@.len() && find(cells_view(v@), (t@, p@)) == i,
            None => find(cells_view(v@), (t@, p@)) == -1,
        },
{
    let ghost s = cells_view(v@);
    let mut i: usize = 0;
    while i < v.len()
        invariant
            s == cells_view(v@),
            unique_keys(s),
            i <= v@.len(),
            forall|j: int| 0 <= j < i ==> s[j].0 != (t@, p@),
        decreases v@.len() - i,
    {
        if v[i].0 == *t && v[i].1 == *p {
            proof {
                assert(s[i as int].0 == (t@, p@));
                lemma_find(s, (t@, p@));
            }
            return Some(i);
        }
        i = i + 1;
    }
    proof {
        lemma_find(s, (t@, p@));
    }
    None
}

fn label_value(v: &Vec<(String, i64)>, k: &String) -> (r: i64)
    requires
        unique_keys(labels_view(v@)),
    ensures
        r == value_of(labels_view(v@), k@),
{
    match find_label(v, k) {
        Some(i) => v[i].1,
        None => 0,
    }
}

fn cell_value(v: &Vec<(String, String, i64)>, t: &String, p: &String) -> (r: i64)
    requires
        unique_keys(cells_view(v@)),
    ensures
        r == value_of(cells_view(v@), (t@, p@)),
{
    match find_cell(v, t, p) {
        Some(i) => v[i].2,
        None => 0,
    }
}

fn add_label(v: &mut Vec<(String, i64)>, k: &String, w: i64)
    requires
        unique_keys(labels_view(old(v)@)),
        in_i64(value_of(labels_view(old(v)@), k@) + w),
    ensures
        labels_view(final(v)@) == add_to(labels_view(old(v)@), k@, w as int),
{
    let ghost s = labels_view(v@);
    proof {
        lemma_find(s, k@);
    }
    match find_label(v, k) {
        Some(i) => {
            let nv = v[i].1 + w;
            v[i].1 = nv;
            assert(labels_view(v@) =~= add_to(s, k@, w as int));
        },
        None => {
            v.push((k.clone(), w));
            assert(labels_view(v@) =~= add_to(s, k@, w as int));
        },
    }
}

fn add_cell(v: &mut Vec<(String, String, i64)>, t: &String, p: &String, w: i64)
    requires
        unique_keys(cells_view(old(v)@)),
        in_i64(value_of(cells_view(old(v)@), (t@, p@)) + w),
    ensures
        cells_view(final(v)@) == add_to(cells_view(old(v)@), (t@, p@), w as int),
{
    let ghost s = cells_view(v@);
    proof {
        lemma_find(s, (t@, p@));
    }
    match find_cell(v, t, p) {
        Some(i) => {
            let nv = v[i].2 + w;
            v[i].2 = nv;
            assert(cells_view(v@) =~= add_to(s, (t@, p@), w as int));
        },
        None => {
            v.push((t.clone(), p.clone(), w));
            assert(cells_view(v@) =~= add_to(s, (t@, p@), w as int));
        },
    }
}

fn push_if_new(r: &mut Vec<String>, k: &String)
    requires
        names(old(r)@).no_duplicates(),
    ensures
        names(final(r)@).no_duplicates(),
        forall|c: LabelView| #[trigger] names(final(r)@).contains(c) <==> names(old(r)@).contains(c) || c == k@,
{
    let ghost s = names(r@);
    let mut i: usize = 0;
    while i < r.len()
        invariant
            s == names(r@),
            s.no_duplicates(),
            i <= r@.len(),
            forall|j: int| 0 <= j < i ==> s[j] != k@,
        decreases r@.len() - i,
    {
        if r[i] == *k {
            assert(s[i as int] == k@);
            return;
        }
        i = i + 1;
    }
    r.push(k.clone());
    assert(names(r@) =~= s.push(k@));
    assert(!s.contains(k@));
    assert forall|c: LabelView| #[trigger] names(r@).contains(c) <==> s.contains(c) || c == k@ by {
        if names(r@).contains(c) {
            let j = choose|j: int| 0 <= j < names(r@).len() && names(r@)[j] == c;
            if j < s.len() {
                assert(s[j] == c);
            }
        }
        if s.contains(c) {
            let j = choose|j: int| 0 <= j < s.len() && s[j] == c;
            assert(names(r@)[j] == c);
        }
        if c == k@ {
            assert(names(r@)[s.len() as int] == c);
        }
    }
}

fn fits_i64(x: i64, w: i64) -> (r: bool)
    ensures
        r == in_i64(x + w),
{
    let y: i128 = x as i128 + w as i128;
    i64::MIN as i128 <= y && y <= i64::MAX as i128
}

impl ConfusionMatrix {
    /// Every label with a non-zero row sum or a non-zero column sum, each once.
    pub fn get_classes(&self) -> (r: Vec<ClassifierTarget>)
        requires
            self@.wf(),
        ensures
            forall|c: LabelView| names(r@).contains(c) <==> self@.active(c),
            names(r@).no_duplicates(),
    {
        let ghost rows = self@.row_sums;
        let ghost cols = self@.col_sums;
        let mut r: Vec<String> = Vec::new();
        let mut i: usize = 0;
        while i < self.sum_row.len()
            invariant
                rows == self@.row_sums,
                rows.len() == self.sum_row@.len(),
                i <= rows.len(),
                names(r@).no_duplicates(),
                forall|c: LabelView| names(r@).contains(c) <==> nonzero_before(rows, c, i as int),
            decreases rows.len() - i,
        {
            let ghost before = names(r@);
            if self.sum_row[i].1 != 0 {
                push_if_new(&mut r, &self.sum_row[i].0);
            }
            assert forall|c: LabelView| names(r@).contains(c) <==> nonzero_before(rows, c, i + 1) by {
                lemma_nonzero_before_step(rows, c, i as int);
                assert(rows[i as int] == (self.sum_row@[i as int].0@, self.sum_row@[i as int].1 as int));
                assert(before.contains(c) <==> nonzero_before(rows, c, i as int));
            }
            i = i + 1;
        }
        let mut i: usize = 0;
        while i < self.sum_col.len()
            invariant
                rows == self@.row_sums,
                cols == self@.col_sums,
                cols.len() == self.sum_col@.len(),
                i <= cols.len(),
                names(r@).no_duplicates(),
                forall|c: LabelView|
                    names(r@).contains(c) <==> nonzero_before(rows, c, rows.len() as int)
                        || nonzero_before(cols, c, i as int),
            decreases cols.len() - i,
        {
            let ghost before = names(r@);
            if self.sum_col[i].1 != 0 {
                push_if_new(&mut r, &self.sum_col[i].0);
            }
            assert forall|c: LabelView|
                names(r@).contains(c) <==> nonzero_before(rows, c, rows.len() as int)
                    || nonzero_before(cols, c, i + 1) by {
                lemma_nonzero_before_step(cols, c, i as int);
                assert(cols[i as int] == (self.sum_col@[i as int].0@, self.sum_col@[i as int].1 as int));
                assert(before.contains(c) <==> nonzero_before(rows, c, rows.len() as int)
                    || nonzero_before(cols, c, i as int));
            }
            i = i + 1;
        }
        assert forall|c: LabelView| names(r@).contains(c) <==> self@.active(c) by {
            lemma_nonzero_value(rows, c);
            lemma_nonzero_value(cols, c);
        }
        r
    }

    /// The active labels in ascending order, each once.
    pub fn sorted_classes(&self) -> (r: Vec<ClassifierTarget>)
        requires
            self@.wf(),
        ensures
            forall|c: LabelView| names(r@).contains(c) <==> self@.active(c),
            names(r@).no_duplicates(),
            ascending(names(r@)),
    {
        let classes = self.get_classes();
        let ghost cs = names(classes@);
        let mut r: Vec<String> = Vec::new();
        let mut i: usize = 0;
        while i < classes.len()
            invariant
                cs == names(classes@),
                i <= cs.len(),
                cs.no_duplicates(),
                names(r@).no_duplicates(),
                ascending(names(r@)),
                forall|c: LabelView| names(r@).contains(c) <==> cs.subrange(0, i as int).contains(c),
            decreases cs.len() - i,
        {
            let x = &classes[i];
            let ghost s = names(r@);
            let mut k: usize = 0;
            while k < r.len() && !label_less(x, &r[k])
                invariant
                    s == names(r@),
                    k <= s.len(),
                    k > 0 ==> !label_lt(x@, s[k - 1]),
                decreases s.len() - k,
            {
                k = k + 1;
            }
            proof {
                assert(x@ == cs[i as int]);
                assert(!s.contains(x@)) by {
                    if s.contains(x@) {
                        let j = choose|j: int| 0 <= j < i && cs.subrange(0, i as int)[j] == x@;
                        assert(cs[j] == cs[i as int]);
                    }
                }
                if k > 0 {
                    assert(s[k - 1] != x@) by {
                        assert(s.contains(s[k - 1]));
                    }
                    lemma_label_total(x@, s[k - 1]);
                }
            }
            r.insert(k, x.clone());
            proof {
                assert(names(r@) =~= s.insert(k as int, x@));
                lemma_insert_ascending(s, k as int, x@);
                lemma_prefix_step(cs, i as int);
            }
            i = i + 1;
        }
        assert(cs.subrange(0, i as int) =~= cs);
        r
    }

    /// The cells among `classes`: entry `[i][j]` is the weight with truth
    /// `classes[i]` and prediction `classes[j]`.
    pub fn cells_for(&self, classes: &Vec<ClassifierTarget>) -> (r: Vec<Vec<i64>>)
        requires
            self@.wf(),
        ensures
            r@.len() == classes@.len(),
            forall|i: int|
                0 <= i < classes@.len() ==> (#[trigger] r@[i])@.len() == classes@.len(),
            forall|i: int, j: int|
                0 <= i < classes@.len() && 0 <= j < classes@.len() ==> #[trigger] r@[i]@[j]
                    == self@.cell(classes@[i]@, classes@[j]@),
    {
        let mut r: Vec<Vec<i64>> = Vec::new();
        let mut i: usize = 0;
        while i < classes.len()
            invariant
                self@.wf(),
                i <= classes@.len(),
                r@.len() == i,
                forall|a: int| 0 <= a < i ==> (#[trigger] r@[a])@.len() == classes@.len(),
                forall|a: int, b: int|
                    0 <= a < i && 0 <= b < classes@.len() ==> #[trigger] r@[a]@[b]
                        == self@.cell(classes@[a]@, classes@[b]@),
            decreases classes@.len() - i,
        {
            let mut row: Vec<i64> = Vec::new();
            let mut j: usize = 0;
            while j < classes.len()
                invariant
                    self@.wf(),
                    i < classes@.len(),
                    j <= classes@.len(),
                    row@.len() == j,
                    forall|b: int| 0 <= b < j ==> row@[b] == self@.cell(classes@[i as int]@, classes@[b]@),
                decreases classes@.len() - j,
            {
                row.push(cell_value(&self.data, &classes[i], &classes[j]));
                j = j + 1;
            }
            r.push(row);
            i = i + 1;
        }
        r
    }

    /// Whether `update` with these arguments keeps every stored value in range.
    pub fn can_update(
        &self,
        y_pred: &ClassifierTarget,
        y_true: &ClassifierTarget,
        sample_weight: Option<i64>,
    ) -> (r: bool)
        requires
            self@.wf(),
        ensures
            r == self@.fits(y_true@, y_pred@, weight_of(sample_weight)),
    {
        let w: i64 = match sample_weight {
            Some(x) => x,
            None => 1,
        };
        self.fits(y_pred, y_true, w)
    }

    /// Whether `revert` with these arguments keeps every stored value in range.
    pub fn can_revert(
        &self,
        y_pred: &ClassifierTarget,
        y_true: &ClassifierTarget,
        sample_weight: Option<i64>,
    ) -> (r: bool)
        requires
            self@.wf(),
        ensures
            r == (weight_of(sample_weight) > i64::MIN && self@.fits(
                y_true@,
                y_pred@,
                -weight_of(sample_weight),
            )),
    {
        let w: i64 = match sample_weight {
            Some(x) => x,
            None => 1,
        };
        if w == i64::MIN {
            return false;
        }
        self.fits(y_pred, y_true, -w)
    }

    fn fits(&self, y_pred: &ClassifierTarget, y_true: &ClassifierTarget, w: i64) -> (r: bool)
        requires
            self@.wf(),
        ensures
            r == self@.fits(y_true@, y_pred@, w as int),
    {
        let new_row = match find_label(&self.sum_row, y_true) {
            Some(_) => false,
            None => true,
        };
        proof {
            lemma_find(self@.row_sums, y_true@);
        }
        fits_i64(self.n_samples, w) && fits_i64(self.total_weight, w) && fits_i64(
            cell_value(&self.data, y_true, y_pred),
            w,
        ) && fits_i64(label_value(&self.sum_row, y_true), w) && fits_i64(
            label_value(&self.sum_col, y_pred),
            w,
        ) && (!new_row || self.sum_row.len() < MAX_TRUTH_LABELS)
    }

    /// An empty matrix: zero totals and no entries.
    pub fn new() -> (r: Self)
        ensures
            r@ == Tally::empty(),
            r@.wf(),
    {
        let r = ConfusionMatrix {
            n_samples: 0,
            data: Vec::new(),
            sum_row: Vec::new(),
            sum_col: Vec::new(),
            total_weight: 0,
        };
        assert(r@.cells =~= Seq::empty());
        assert(r@.row_sums =~= Seq::empty());
        assert(r@.col_sums =~= Seq::empty());
        r
    }

    /// Adds weight `w` (negative for a revert) for truth `y_true`, prediction `y_pred`.
    fn apply(&mut self, y_pred: &ClassifierTarget, y_true: &ClassifierTarget, w: i64)
        requires
            old(self)@.wf(),
            old(self)@.fits(y_true@, y_pred@, w as int),
        ensures
            final(self)@ == old(self)@.applied(y_true@, y_pred@, w as int),
            final(self)@.wf(),
    {
        proof {
            lemma_applied_wf(self@, y_true@, y_pred@, w as int);
        }
        add_cell(&mut self.data, y_true, y_pred, w);
        self.total_weight = self.total_weight + w;
        add_label(&mut self.sum_row, y_true, w);
        add_label(&mut self.sum_col, y_pred, w);
        self.n_samples = self.n_samples + w;
    }

    /// Records an observation of weight `sample_weight` (one when absent).
    pub fn update(
        &mut self,
        y_pred: &ClassifierTarget,
        y_true: &ClassifierTarget,
        sample_weight: Option<i64>,
    )
        requires
            old(self)@.wf(),
            old(self)@.fits(y_true@, y_pred@, weight_of(sample_weight)),
        ensures
            final(self)@ == old(self)@.applied(y_true@, y_pred@, weight_of(sample_weight)),
            final(self)@.wf(),
    {
        let w: i64 = match sample_weight {
            Some(x) => x,
            None => 1,
        };
        self.apply(y_pred, y_true, w);
    }

    /// Removes an observation of weight `sample_weight` (one when absent):
    /// the update with the weight negated.
    pub fn revert(
        &mut self,
        y_pred: &ClassifierTarget,
        y_true: &ClassifierTarget,
        sample_weight: Option<i64>,
    )
        requires
            old(self)@.wf(),
            weight_of(sample_weight) > i64::MIN,
            old(self)@.fits(y_true@, y_pred@, -weight_of(sample_weight)),
        ensures
            final(self)@ == old(self)@.applied(y_true@, y_pred@, -weight_of(sample_weight)),
            final(self)@.wf(),
    {
        let w: i64 = match sample_weight {
            Some(x) => x,
            None => 1,
        };
        self.apply(y_pred, y_true, -w);
    }

    /// The row of `label`: (predicted label, weight) for each pair seen with
    /// truth `label`, in order of first use; empty when there is none.
    pub fn get(&self, label: &ClassifierTarget) -> (r: Vec<(ClassifierTarget, i64)>)
        ensures
            labels_view(r@) == self@.row_entries(label@),
    {
        let ghost s = cells_view(self.data@);
        let mut r: Vec<(String, i64)> = Vec::new();
        let mut i: usize = 0;
        while i < self.data.len()
            invariant
                s == cells_view(self.data@),
                i <= self.data@.len(),
                labels_view(r@) == row_of(s.subrange(0, i as int), label@),
            decreases self.data@.len() - i,
        {
            proof {
                assert(s.subrange(0, i + 1).drop_last() =~= s.subrange(0, i as int));
            }
            if self.data[i].0 == *label {
                r.push((self.data[i].1.clone(), self.data[i].2));
            }
            assert(labels_view(r@) =~= row_of(s.subrange(0, i + 1), label@));
            i = i + 1;
        }
        assert(s.subrange(0, i as int) =~= s);
        r
    }

    /// The column sum of `label`: the weight predicted as `label`.
    pub fn support(&self, label: &ClassifierTarget) -> (r: i64)
        requires
            self@.wf(),
        ensures
            r == self@.col(label@),
    {
        label_value(&self.sum_col, label)
    }

    /// The diagonal cell of `label`.
    pub fn true_positives(&self, label: &ClassifierTarget) -> (r: i64)
        requires
            self@.wf(),
        ensures
            r == self@.true_positives(label@),
    {
        cell_value(&self.data, label, label)
    }

    /// Weight predicted as `label` whose truth differs.
    pub fn false_positives(&self, label: &ClassifierTarget) -> (r: i128)
        requires
            self@.wf(),
        ensures
            r == self@.false_positives(label@),
    {
        label_value(&self.sum_col, label) as i128 - self.true_positives(label) as i128
    }

    /// Weight whose truth is `label` predicted as another label.
    pub fn false_negatives(&self, label: &ClassifierTarget) -> (r: i128)
        requires
            self@.wf(),
        ensures
            r == self@.false_negatives(label@),
    {
        label_value(&self.sum_row, label) as i128 - self.true_positives(label) as i128
    }

    /// Sum of the diagonal over the labels seen as truth.
    pub fn total_true_positives(&self) -> (r: i128)
        requires
            self@.wf(),
        ensures
            r == self@.total_true_positives(),
            -(MAX_TRUTH_LABELS as int) * 0x8000_0000_0000_0000 <= r <= (MAX_TRUTH_LABELS as int) * 0x8000_0000_0000_0000,
    {
        let ghost rows = self@.row_sums;
        let mut acc: i128 = 0;
        let mut i: usize = 0;
        while i < self.sum_row.len()
            invariant
                self@.wf(),
                rows == self@.row_sums,
                rows.len() == self.sum_row@.len(),
                i <= rows.len(),
                acc == sum_over_keys(rows.subrange(0, i as int), self@.true_positives_fn()),
                -(i as int) * 0x8000_0000_0000_0000 <= acc <= (i as int) * 0x8000_0000_0000_0000,
            decreases rows.len() - i,
        {
            let label = &self.sum_row[i].0;
            let term: i128 = self.true_positives(label) as i128;
            proof {
                assert(rows.subrange(0, i + 1).drop_last() =~= rows.subrange(0, i as int));
                assert(rows[i as int].0 == label@);
            }
            acc = acc + term;
            i = i + 1;
        }
        assert(rows.subrange(0, i as int) =~= rows);
        acc
    }

    /// The total of the diagonal less the diagonal cell of `label`.
    pub fn true_negatives(&self, label: &ClassifierTarget) -> (r: i128)
        requires
            self@.wf(),
        ensures
            r == self@.true_negatives(label@),
    {
        self.total_true_positives() - self.true_positives(label) as i128
    }

    /// Sum of `true_negatives` over the labels seen as truth.
    pub fn total_true_negatives(&self) -> (r: i128)
        requires
            self@.wf(),
        ensures
            r == self@.total_true_negatives(),
    {
        let ghost rows = self@.row_sums;
        let ttp = self.total_true_positives();
        let mut acc: i128 = 0;
        let mut i: usize = 0;
        while i < self.sum_row.len()
            invariant
                self@.wf(),
                rows == self@.row_sums,
                rows.len() == self.sum_row@.len(),
                i <= rows.len(),
                acc == sum_over_keys(rows.subrange(0, i as int), self@.true_negatives_fn()),
                -(i as int) * 0x8000_0000_0000_0000_0000_0000 <= acc <= (i as int) * 0x8000_0000_0000_0000_0000_0000,
                ttp == self@.total_true_positives(),
                -(MAX_TRUTH_LABELS as int) * 0x8000_0000_0000_0000 <= ttp <= (MAX_TRUTH_LABELS as int) * 0x8000_0000_0000_0000,
            decreases rows.len() - i,
        {
            let label = &self.sum_row[i].0;
            let term: i128 = ttp - self.true_positives(label) as i128;
            proof {
                assert(rows.subrange(0, i + 1).drop_last() =~= rows.subrange(0, i as int));
                assert(rows[i as int].0 == label@);
            }
            acc = acc + term;
            i = i + 1;
        }
        assert(rows.subrange(0, i as int) =~= rows);
        acc
    }

    /// Sum of `false_positives` over the labels seen as truth.
    pub fn total_false_positives(&self) -> (r: i128)
        requires
            self@.wf(),
        ensures
            r == self@.total_false_positives(),
    {
        let ghost rows = self@.row_sums;
        let mut acc: i128 = 0;
        let mut i: usize = 0;
        while i < self.sum_row.len()
            invariant
                self@.wf(),
                rows == self@.row_sums,
                rows.len() == self.sum_row@.len(),
                i <= rows.len(),
                acc == sum_over_keys(rows.subrange(0, i as int), self@.false_positives_fn()),
                -(i as int) * 0x1_0000_0000_0000_0000 <= acc <= (i as int) * 0x1_0000_0000_0000_0000,
            decreases rows.len() - i,
        {
            let label = &self.sum_row[i].0;
            let term: i128 = label_value(&self.sum_col, label) as i128 - self.true_positives(label) as i128;
            proof {
                assert(rows.subrange(0, i + 1).drop_last() =~= rows.subrange(0, i as int));
                assert(rows[i as int].0 == label@);
            }
            acc = acc + term;
            i = i + 1;
        }
        assert(rows.subrange(0, i as int) =~= rows);
        acc
    }

    /// Sum of `false_negatives` over the labels seen as truth.
    pub fn total_false_negatives(&self) -> (r: i128)
        requires
            self@.wf(),
        ensures
            r == self@.total_false_negatives(),
    {
        let ghost rows = self@.row_sums;
        let mut acc: i128 = 0;
        let mut i: usize = 0;
        while i < self.sum_row.len()
            invariant
                self@.wf(),
                rows == self@.row_sums,
                rows.len() == self.sum_row@.len(),
                i <= rows.len(),
                acc == sum_over_keys(rows.subrange(0, i as int), self@.false_negatives_fn()),
                -(i as int) * 0x1_0000_0000_0000_0000 <= acc <= (i as int) * 0x1_0000_0000_0000_0000,
            decreases rows.len() - i,
        {
            let label = &self.sum_row[i].0;
            let term: i128 = label_value(&self.sum_row, label) as i128 - self.true_positives(label) as i128;
            proof {
                assert(rows.subrange(0, i + 1).drop_last() =~= rows.subrange(0, i as int));
                assert(rows[i as int].0 == label@);
            }
            acc = acc + term;
            i = i + 1;
        }
        assert(rows.subrange(0, i as int) =~= rows);
        acc
    }

    /// The accumulated weight of all observations.
    pub fn total_weight(&self) -> (r: i64)
        ensures
            r == self@.total_weight,
    {
        self.total_weight
    }

    /// The accumulated weight of all observations, counted as samples.
    pub fn n_samples(&self) -> (r: i64)
        ensures
            r == self@.n_samples,
    {
        self.n_samples
    }
}

impl Default for ConfusionMatrix {
    fn default() -> (r: Self)
        ensures
            r@ == Tally::empty(),
            r@.wf(),
    {
        ConfusionMatrix::new()
    }
}

/// Default weight: an update without a weight is the update with weight one.
pub proof fn law_default_weight(m: Tally, truth: LabelView, pred: LabelView)
    ensures
        m.applied(truth, pred, weight_of(None)) == m.applied(truth, pred, weight_of(Some(1i64))),
        m.applied(truth, pred, -weight_of(None)) == m.applied(truth, pred, -weight_of(Some(1i64))),
{
}

} // verus!

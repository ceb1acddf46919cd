use vstd::prelude::*;

verus! {

/// A feature matrix of fixed-point integer values, one class code per row,
/// and the name of each class code (`label_mapping[c]` names code `c`).
pub struct Dataset {
    pub features: Vec<Vec<i32>>,
    pub labels: Vec<usize>,
    pub label_mapping: Vec<String>,
}

/// Row `i` of `n` rows is held out in fold `f` of `k` exactly when `i mod k == f`.
pub open spec fn is_test_row(n: nat, k: nat, f: nat, i: nat) -> bool {
    i < n && i % k == f
}

/// The sequence is strictly increasing, so it holds each value once.
pub open spec fn strictly_increasing(s: Seq<usize>) -> bool {
    forall|a: int, b: int| 0 <= a < b < s.len() ==> s[a] < s[b]
}

pub(crate) proof fn lemma_push_contains(s: Seq<usize>, v: usize, x: usize)
    ensures
        s.push(v).contains(x) <==> (s.contains(x) || x == v),
{
    if s.contains(x) {
        let j = choose|j: int| 0 <= j < s.len() && s[j] == x;
        assert(s.push(v)[j] == x);
    }
    if x == v {
        assert(s.push(v)[s.len() as int] == v);
    }
    if s.push(v).contains(x) {
        let j = choose|j: int| 0 <= j < s.push(v).len() && s.push(v)[j] == x;
        if j < s.len() {
            assert(s[j] == x);
        }
    }
}

/// Over the folds `0..k`, every row `i < n` is held out in exactly one fold,
/// fold `i mod k`, and no fold holds out a row outside `0..n`.
pub proof fn lemma_folds_partition_rows(n: nat, k: nat, i: nat)
    requires
        k > 0,
    ensures
        i < n ==> i % k < k && is_test_row(n, k, i % k, i),
        forall|f: nat| #[trigger] is_test_row(n, k, f, i) ==> f == i % k && i < n,
{
}

impl Dataset {
    /// Every row has `dims()` coordinates, there is one label per row, and every
    /// label has a name.
    pub open spec fn wf(&self) -> bool {
        &&& self.features.len() == self.labels.len()
        &&& forall|i: int|
            0 <= i < self.features.len() ==> #[trigger] self.features[i].len() == self.dims_spec()
        &&& forall|i: int|
            0 <= i < self.labels.len() ==> #[trigger] self.labels[i] < self.label_mapping.len()
    }

    /// The dimensionality: the length of the first row (0 for an empty dataset).
    pub open spec fn dims_spec(&self) -> nat {
        if self.features.len() == 0 {
            0
        } else {
            self.features[0].len() as nat
        }
    }

    pub fn new(features: Vec<Vec<i32>>, labels: Vec<usize>, label_mapping: Vec<String>) -> (r:
        Dataset)
        ensures
            r.features@ == features@,
            r.labels@ == labels@,
            r.label_mapping@ == label_mapping@,
    {
        Dataset { features, labels, label_mapping }
    }

    pub fn dims(&self) -> (r: usize)
        ensures
            r == self.dims_spec(),
    {
        if self.features.len() == 0 {
            0
        } else {
            self.features[0].len()
        }
    }

    /// Training and held-out row indices of fold `fold_num` of `k`-fold
    /// cross-validation, both in ascending order.
    pub fn kfold(&self, k: usize, fold_num: usize) -> (r: (Vec<usize>, Vec<usize>))
        requires
            k > 0,
        ensures
            strictly_increasing(r.0@),
            strictly_increasing(r.1@),
            forall|x: usize|
                r.1@.contains(x) <==> is_test_row(
                    self.labels.len() as nat,
                    k as nat,
                    fold_num as nat,
                    x as nat,
                ),
            forall|x: usize|
                r.0@.contains(x) <==> (x < self.labels.len() && !is_test_row(
                    self.labels.len() as nat,
                    k as nat,
                    fold_num as nat,
                    x as nat,
                )),
    {
        let n = self.labels.len();
        let mut train: Vec<usize> = Vec::new();
        let mut test: Vec<usize> = Vec::new();
        let mut i: usize = 0;
        while i < n
            invariant
                i <= n,
                n == self.labels.len(),
                k > 0,
                strictly_increasing(train@),
                strictly_increasing(test@),
                forall|j: int| 0 <= j < train@.len() ==> train@[j] < i,
                forall|j: int| 0 <= j < test@.len() ==> test@[j] < i,
                forall|x: usize|
                    test@.contains(x) <==> (x < i && is_test_row(
                        n as nat,
                        k as nat,
                        fold_num as nat,
                        x as nat,
                    )),
                forall|x: usize|
                    train@.contains(x) <==> (x < i && !is_test_row(
                        n as nat,
                        k as nat,
                        fold_num as nat,
                        x as nat,
                    )),
            decreases n - i,
        {
            let ghost old_test = test@;
            let ghost old_train = train@;
            if i % k == fold_num {
                test.push(i);
                assert(train@ == old_train);
                assert(test@ == old_test.push(i));
                assert forall|x: usize|
                    test@.contains(x) <==> (x < i + 1 && is_test_row(
                        n as nat,
                        k as nat,
                        fold_num as nat,
                        x as nat,
                    )) by {
                    lemma_push_contains(old_test, i, x);
                }
                assert forall|x: usize|
                    train@.contains(x) <==> (x < i + 1 && !is_test_row(
                        n as nat,
                        k as nat,
                        fold_num as nat,
                        x as nat,
                    )) by {
                    lemma_push_contains(old_train, i, x);
                }
            } else {
                train.push(i);
                assert(test@ == old_test);
                assert(train@ == old_train.push(i));
                assert forall|x: usize|
                    test@.contains(x) <==> (x < i + 1 && is_test_row(
                        n as nat,
                        k as nat,
                        fold_num as nat,
                        x as nat,
                    )) by {
                    lemma_push_contains(old_test, i, x);
                }
                assert forall|x: usize|
                    train@.contains(x) <==> (x < i + 1 && !is_test_row(
                        n as nat,
                        k as nat,
                        fold_num as nat,
                        x as nat,
                    )) by {
                    lemma_push_contains(old_train, i, x);
                }
            }
            i = i + 1;
        }
        (train, test)
    }
}

} // verus!

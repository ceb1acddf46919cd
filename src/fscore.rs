use crate::ratio::Ratio;
use vstd::prelude::*;

verus! {

/// Rows among the first `n` where class `c` was both the actual and the predicted class.
pub open spec fn true_pos(a: Seq<usize>, p: Seq<usize>, c: usize, n: int) -> nat
    decreases n,
{
    if n <= 0 {
        0
    } else {
        true_pos(a, p, c, n - 1) + if a[n - 1] == c && p[n - 1] == c {
            1nat
        } else {
            0nat
        }
    }
}

/// Rows among the first `n` predicted as `c` whose actual class differs.
pub open spec fn false_pos(a: Seq<usize>, p: Seq<usize>, c: usize, n: int) -> nat
    decreases n,
{
    if n <= 0 {
        0
    } else {
        false_pos(a, p, c, n - 1) + if a[n - 1] != p[n - 1] && p[n - 1] == c {
            1nat
        } else {
            0nat
        }
    }
}

/// Rows among the first `n` of actual class `c` that were predicted otherwise.
pub open spec fn false_neg(a: Seq<usize>, p: Seq<usize>, c: usize, n: int) -> nat
    decreases n,
{
    if n <= 0 {
        0
    } else {
        false_neg(a, p, c, n - 1) + if a[n - 1] != p[n - 1] && a[n - 1] == c {
            1nat
        } else {
            0nat
        }
    }
}

/// F1 of class `c` as an exact ratio. With precision `tp / (tp + fn)` and recall
/// `tp / (tp + fp)`, `2PR / (P + R)` equals `2tp / (2tp + fp + fn)`; where there
/// is no true positive the score is 0.
pub open spec fn f1_spec(a: Seq<usize>, p: Seq<usize>, c: usize) -> (nat, nat) {
    let tp = true_pos(a, p, c, a.len() as int);
    let fp = false_pos(a, p, c, a.len() as int);
    let fneg = false_neg(a, p, c, a.len() as int);
    if tp == 0 {
        (0, 1)
    } else {
        (2 * tp, 2 * tp + fp + fneg)
    }
}

proof fn lemma_counts_bounded(a: Seq<usize>, p: Seq<usize>, c: usize, n: int)
    requires
        0 <= n <= a.len(),
        a.len() == p.len(),
    ensures
        true_pos(a, p, c, n) + false_pos(a, p, c, n) + false_neg(a, p, c, n) <= n,
    decreases n,
{
    if n > 0 {
        lemma_counts_bounded(a, p, c, n - 1);
    }
}

proof fn lemma_exact_counts(a: Seq<usize>, c: usize, n: int)
    requires
        0 <= n <= a.len(),
    ensures
        false_pos(a, a, c, n) == 0,
        false_neg(a, a, c, n) == 0,
        a.subrange(0, n).contains(c) ==> true_pos(a, a, c, n) > 0,
    decreases n,
{
    if n > 0 {
        lemma_exact_counts(a, c, n - 1);
        if a.subrange(0, n).contains(c) && a[n - 1] != c {
            let j = choose|j: int| 0 <= j < n && a.subrange(0, n)[j] == c;
            assert(a.subrange(0, n - 1)[j] == c);
        }
    }
}

/// When every prediction equals the actual class, each class that occurs
/// scores an F1 of exactly 1.
pub proof fn lemma_perfect_prediction_scores_one(actual: Seq<usize>, c: usize)
    requires
        actual.contains(c),
    ensures
        f1_spec(actual, actual, c).0 == f1_spec(actual, actual, c).1,
        f1_spec(actual, actual, c).1 > 0,
{
    lemma_exact_counts(actual, c, actual.len() as int);
    assert(actual.subrange(0, actual.len() as int) == actual);
}

/// Position of `x` in `v`, if it occurs there.
fn position_of(v: &Vec<usize>, x: usize) -> (r: Option<usize>)
    ensures
        match r {
            Some(j) => j < v.len() && v@[j as int] == x,
            None => !v@.contains(x),
        },
{
    let mut j: usize = 0;
    while j < v.len()
        invariant
            j <= v.len(),
            forall|m: int| 0 <= m < j ==> v@[m] != x,
        decreases v.len() - j,
    {
        if v[j] == x {
            return Some(j);
        }
        j = j + 1;
    }
    None
}

/// The classes of `actual`, each once, in order of first appearance.
pub(crate) fn distinct_classes(actual: &Vec<usize>) -> (r: Vec<usize>)
    ensures
        forall|a: int, b: int| 0 <= a < b < r.len() ==> r@[a] != r@[b],
        forall|x: usize| r@.contains(x) <==> actual@.contains(x),
        r.len() <= actual.len(),
{
    let mut classes: Vec<usize> = Vec::new();
    let mut i: usize = 0;
    while i < actual.len()
        invariant
            i <= actual.len(),
            classes.len() <= i,
            forall|a: int, b: int| 0 <= a < b < classes.len() ==> classes@[a] != classes@[b],
            forall|x: usize|
                classes@.contains(x) <==> actual@.subrange(0, i as int).contains(x),
        decreases actual.len() - i,
    {
        let x = actual[i];
        let ghost before = classes@;
        if position_of(&classes, x).is_none() {
            classes.push(x);
        }
        assert forall|y: usize|
            classes@.contains(y) <==> actual@.subrange(0, i + 1).contains(y) by {
            let s = actual@.subrange(0, i as int);
            assert(actual@.subrange(0, i + 1) == s.push(x));
            if classes@ == before.push(x) {
                if before.contains(y) {
                    let j = choose|j: int| 0 <= j < before.len() && before[j] == y;
                    assert(classes@[j] == y);
                }
                if y == x {
                    assert(classes@[before.len() as int] == x);
                }
            }
            if s.contains(y) {
                let j = choose|j: int| 0 <= j < s.len() && s[j] == y;
                assert(s.push(x)[j] == y);
            }
            if y == x {
                assert(s.push(x)[s.len() as int] == x);
            }
            if s.push(x).contains(y) {
                let j = choose|j: int| 0 <= j < s.len() + 1 && s.push(x)[j] == y;
                if j < s.len() {
                    assert(s[j] == y);
                }
            }
        }
        i = i + 1;
    }
    assert(actual@.subrange(0, actual.len() as int) == actual@);
    classes
}

/// F1 of one class over paired actual and predicted class codes.
pub fn class_f1(actual: &Vec<usize>, predicted: &Vec<usize>, class: usize) -> (r: Ratio)
    requires
        actual.len() == predicted.len(),
        actual.len() <= isize::MAX,
    ensures
        (r.num as nat, r.den as nat) == f1_spec(actual@, predicted@, class),
        r.wf(),
{
    let n = actual.len();
    let mut tp: u64 = 0;
    let mut fp: u64 = 0;
    let mut fneg: u64 = 0;
    let mut i: usize = 0;
    while i < n
        invariant
            i <= n,
            n == actual.len(),
            n == predicted.len(),
            n <= isize::MAX,
            tp == true_pos(actual@, predicted@, class, i as int),
            fp == false_pos(actual@, predicted@, class, i as int),
            fneg == false_neg(actual@, predicted@, class, i as int),
        decreases n - i,
    {
        proof {
            lemma_counts_bounded(actual@, predicted@, class, i + 1);
        }
        let a = actual[i];
        let p = predicted[i];
        if a == p {
            if a == class {
                tp = tp + 1;
            }
        } else {
            if p == class {
                fp = fp + 1;
            }
            if a == class {
                fneg = fneg + 1;
            }
        }
        i = i + 1;
    }
    proof {
        lemma_counts_bounded(actual@, predicted@, class, n as int);
    }
    if tp == 0 {
        Ratio::new(0, 1)
    } else {
        Ratio::new(2 * tp, 2 * tp + fp + fneg)
    }
}

/// F1 of every class that occurs in `actual`, in order of first appearance.
pub fn f_score(actual: &Vec<usize>, predicted: &Vec<usize>) -> (r: Vec<(usize, Ratio)>)
    requires
        actual.len() == predicted.len(),
        actual.len() <= isize::MAX,
    ensures
        forall|a: int, b: int| 0 <= a < b < r.len() ==> r@[a].0 != r@[b].0,
        forall|x: usize| actual@.contains(x) <==> exists|j: int| 0 <= j < r.len() && r@[j].0 == x,
        forall|j: int|
            0 <= j < r.len() ==> r@[j].1.wf() && (r@[j].1.num as nat, r@[j].1.den as nat)
                == f1_spec(actual@, predicted@, r@[j].0),
{
    let classes = distinct_classes(actual);
    let mut scores: Vec<(usize, Ratio)> = Vec::new();
    let mut j: usize = 0;
    while j < classes.len()
        invariant
            j <= classes.len(),
            actual.len() == predicted.len(),
            actual.len() <= isize::MAX,
            scores.len() == j,
            forall|m: int| 0 <= m < j ==> scores@[m].0 == classes@[m],
            forall|m: int|
                0 <= m < j ==> scores@[m].1.wf() && (scores@[m].1.num as nat, scores@[m].1.den as nat)
                    == f1_spec(actual@, predicted@, scores@[m].0),
        decreases classes.len() - j,
    {
        let c = classes[j];
        let f = class_f1(actual, predicted, c);
        scores.push((c, f));
        j = j + 1;
    }
    assert forall|x: usize| actual@.contains(x) <==> exists|j: int|
        0 <= j < scores.len() && scores@[j].0 == x by {
        if actual@.contains(x) {
            assert(classes@.contains(x));
            let m = choose|m: int| 0 <= m < classes.len() && classes@[m] == x;
            assert(scores@[m].0 == x);
        }
        if exists|j: int| 0 <= j < scores.len() && scores@[j].0 == x {
            let m = choose|m: int| 0 <= m < scores.len() && scores@[m].0 == x;
            assert(classes@[m] == x);
            assert(classes@.contains(x));
        }
    }
    assert forall|a: int, b: int| 0 <= a < b < scores.len() implies scores@[a].0 != scores@[b].0 by {
        assert(classes@[a] != classes@[b]);
    }
    scores
}

} // verus!

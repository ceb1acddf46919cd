use crate::dataset::{lemma_push_contains, Dataset};
use crate::fscore::distinct_classes;
use crate::ratio::Ratio;
use crate::sweep::{
    lemma_count_all, lemma_count_permutation, lemma_rows_to_pairs, lemma_sorted_prefix,
    lemma_values_match, pair_count, pair_has_value, pairs_of, sorted_pairs,
};
use rayon::iter::{IntoParallelIterator, ParallelIterator};
use vstd::prelude::*;

verus! {

/// Value of feature `dim` in row `r`.
pub open spec fn feat(d: &Dataset, r: usize, dim: nat) -> int {
    d.features@[r as int]@[dim as int] as int
}

/// Every row index lies within the dataset.
pub open spec fn rows_valid(d: &Dataset, rows: Seq<usize>) -> bool {
    forall|j: int| 0 <= j < rows.len() ==> #[trigger] rows[j] < d.labels.len()
}

/// Row `r` lies on the yes side of the bound `b` (twice its value is below
/// `b`), if a bound is given, and has class `c`, if a class is given.
pub open spec fn row_matches(
    d: &Dataset,
    r: usize,
    dim: nat,
    bound: Option<int>,
    class: Option<nat>,
) -> bool {
    &&& (bound matches Some(b) ==> 2 * feat(d, r, dim) < b)
    &&& (class matches Some(c) ==> d.labels@[r as int] == c)
}

/// Number of `rows` that `row_matches` admits.
pub open spec fn count_rows(
    d: &Dataset,
    rows: Seq<usize>,
    dim: nat,
    bound: Option<int>,
    class: Option<nat>,
) -> nat
    decreases rows.len(),
{
    if rows.len() == 0 {
        0
    } else {
        count_rows(d, rows.drop_last(), dim, bound, class) + if row_matches(
            d,
            rows.last(),
            dim,
            bound,
            class,
        ) {
            1nat
        } else {
            0nat
        }
    }
}

/// Number of `rows` of class `c`.
pub open spec fn class_count(d: &Dataset, rows: Seq<usize>, c: nat) -> nat {
    count_rows(d, rows, 0, None, Some(c))
}

/// `c` is the majority class of `rows`: no class has more rows, and every
/// lower class code has fewer.
pub open spec fn is_majority(d: &Dataset, rows: Seq<usize>, c: nat) -> bool {
    &&& c < d.label_mapping.len()
    &&& forall|c2: nat| c2 < d.label_mapping.len() ==> class_count(d, rows, c2) <= class_count(d, rows, c)
    &&& forall|c2: nat| c2 < c ==> class_count(d, rows, c2) < class_count(d, rows, c)
}

/// The stopping rule: at most `eta` rows, or purity (the majority class's share
/// of the rows) at least `pi`.
pub open spec fn stops(d: &Dataset, rows: Seq<usize>, eta: usize, pi: Ratio) -> bool {
    rows.len() <= eta || exists|c: nat|
        is_majority(d, rows, c) && class_count(d, rows, c) * pi.den >= pi.num * rows.len()
}

proof fn lemma_count_le_len(
    d: &Dataset,
    rows: Seq<usize>,
    dim: nat,
    bound: Option<int>,
    class: Option<nat>,
)
    ensures
        count_rows(d, rows, dim, bound, class) <= rows.len(),
        count_rows(d, rows, dim, bound, class) <= count_rows(d, rows, dim, None, class),
    decreases rows.len(),
{
    if rows.len() > 0 {
        lemma_count_le_len(d, rows.drop_last(), dim, bound, class);
    }
}

/// Per-class counts of the rows on the yes side of `bound` (all rows where
/// there is no bound), and their total.
fn side_counts(d: &Dataset, rows: &Vec<usize>, dim: usize, bound: Option<i64>) -> (r: (
    Vec<usize>,
    usize,
))
    requires
        d.wf(),
        rows_valid(d, rows@),
        bound is Some ==> dim < d.dims_spec(),
    ensures
        r.0.len() == d.label_mapping.len(),
        forall|c: int|
            0 <= c < r.0.len() ==> #[trigger] r.0@[c] == count_rows(
                d,
                rows@,
                dim as nat,
                match bound {
                    Some(b) => Some(b as int),
                    None => None,
                },
                Some(c as nat),
            ),
        r.1 == count_rows(
            d,
            rows@,
            dim as nat,
            match bound {
                Some(b) => Some(b as int),
                None => None,
            },
            None,
        ),
{
    let ghost sb: Option<int> = match bound {
        Some(b) => Some(b as int),
        None => None,
    };
    let k = d.label_mapping.len();
    let mut counts: Vec<usize> = Vec::new();
    let mut c: usize = 0;
    while c < k
        invariant
            c <= k,
            counts.len() == c,
            forall|m: int| 0 <= m < c ==> counts@[m] == 0,
        decreases k - c,
    {
        counts.push(0);
        c = c + 1;
    }
    let mut total: usize = 0;
    let mut i: usize = 0;
    while i < rows.len()
        invariant
            d.wf(),
            rows_valid(d, rows@),
            bound is Some ==> dim < d.dims_spec(),
            sb == match bound {
                Some(b) => Some(b as int),
                None => None,
            },
            i <= rows.len(),
            counts.len() == k,
            k == d.label_mapping.len(),
            forall|m: int|
                0 <= m < k ==> #[trigger] counts@[m] == count_rows(
                    d,
                    rows@.subrange(0, i as int),
                    dim as nat,
                    sb,
                    Some(m as nat),
                ),
            total == count_rows(d, rows@.subrange(0, i as int), dim as nat, sb, None),
        decreases rows.len() - i,
    {
        let r = rows[i];
        let lab = d.labels[r];
        let ghost pre = rows@.subrange(0, i as int);
        let ghost next = rows@.subrange(0, i + 1);
        assert(next.drop_last() == pre);
        assert(next.last() == r);
        proof {
            lemma_count_le_len(d, pre, dim as nat, sb, None);
            assert forall|m: int| 0 <= m < k implies counts@[m] <= i by {
                lemma_count_le_len(d, pre, dim as nat, sb, Some(m as nat));
            }
        }
        let yes = match bound {
            Some(b) => {
                assert(d.features@[r as int].len() == d.dims_spec());
                let v = d.features[r][dim];
                2 * (v as i64) < b
            },
            None => true,
        };
        if yes {
            let old_c = counts[lab];
            counts.set(lab, old_c + 1);
            total = total + 1;
        }
        assert forall|m: int|
            0 <= m < k implies #[trigger] counts@[m] == count_rows(
                d,
                next,
                dim as nat,
                sb,
                Some(m as nat),
            ) by {
            assert(count_rows(d, next, dim as nat, sb, Some(m as nat)) == count_rows(
                d,
                pre,
                dim as nat,
                sb,
                Some(m as nat),
            ) + if row_matches(d, r, dim as nat, sb, Some(m as nat)) {
                1nat
            } else {
                0nat
            });
        }
        assert(total == count_rows(d, next, dim as nat, sb, None));
        i = i + 1;
    }
    assert(rows@.subrange(0, rows.len() as int) == rows@);
    (counts, total)
}

/// The majority class of `rows`, the lowest code among ties, with its count.
pub(crate) fn majority_of(d: &Dataset, rows: &Vec<usize>) -> (r: (usize, usize))
    requires
        d.wf(),
        rows_valid(d, rows@),
        rows.len() > 0,
    ensures
        is_majority(d, rows@, r.0 as nat),
        r.1 == class_count(d, rows@, r.0 as nat),
{
    let (counts, _total) = side_counts(d, rows, 0, None);
    proof {
        let r0 = rows@[0];
        assert(d.labels@[r0 as int] < d.label_mapping.len());
    }
    let mut best: usize = 0;
    let mut c: usize = 1;
    while c < counts.len()
        invariant
            counts.len() == d.label_mapping.len(),
            counts.len() > 0,
            forall|m: int|
                0 <= m < counts.len() ==> #[trigger] counts@[m] == class_count(
                    d,
                    rows@,
                    m as nat,
                ),
            1 <= c <= counts.len(),
            best < c,
            forall|m: int| 0 <= m < c ==> counts@[m] <= counts@[best as int],
            forall|m: int| 0 <= m < best ==> counts@[m] < counts@[best as int],
        decreases counts.len() - c,
    {
        if counts[c] > counts[best] {
            best = c;
        }
        c = c + 1;
    }
    assert forall|c2: nat| c2 < d.label_mapping.len() implies class_count(d, rows@, c2)
        <= class_count(d, rows@, best as nat) by {
        assert(counts@[c2 as int] <= counts@[best as int]);
    }
    assert forall|c2: nat| c2 < best implies class_count(d, rows@, c2) < class_count(
        d,
        rows@,
        best as nat,
    ) by {
        assert(counts@[c2 as int] < counts@[best as int]);
    }
    (best, counts[best])
}

proof fn lemma_majority_unique(d: &Dataset, rows: Seq<usize>, a: nat, b: nat)
    requires
        is_majority(d, rows, a),
        is_majority(d, rows, b),
    ensures
        a == b,
{
    assert(class_count(d, rows, a) <= class_count(d, rows, b));
    assert(class_count(d, rows, b) <= class_count(d, rows, a));
}

/// Whether the stopping rule holds for `rows`.
fn should_stop(d: &Dataset, rows: &Vec<usize>, eta: usize, pi: Ratio) -> (r: bool)
    requires
        d.wf(),
        rows_valid(d, rows@),
        rows.len() > 0,
    ensures
        r == stops(d, rows@, eta, pi),
{
    if rows.len() <= eta {
        return true;
    }
    let (m, cnt) = majority_of(d, rows);
    let purity = Ratio::new(cnt as u64, rows.len() as u64);
    let reached = purity.ge(&pi);
    proof {
        if stops(d, rows@, eta, pi) {
            let c = choose|c: nat|
                is_majority(d, rows@, c) && class_count(d, rows@, c) * pi.den >= pi.num
                    * rows@.len();
            lemma_majority_unique(d, rows@, c, m as nat);
        }
        if reached {
            assert(is_majority(d, rows@, m as nat) && class_count(d, rows@, m as nat) * pi.den
                >= pi.num * rows@.len());
        }
    }
    reached
}

/// Sum over the classes `c < n` of `t[tot_c - yes_c] + t[yes_c] - t[tot_c]`, where
/// `tot_c` counts the rows of class `c` and `yes_c` those of them on the yes side
/// of the bound `b`.
pub open spec fn class_terms(d: &Dataset, rows: Seq<usize>, dim: nat, b: int, t: Seq<u32>, n: nat) -> int
    decreases n,
{
    if n == 0 {
        0
    } else {
        let c = (n - 1) as nat;
        let tot = class_count(d, rows, c);
        let yes = count_rows(d, rows, dim, Some(b), Some(c));
        class_terms(d, rows, dim, b, t, c) + t[tot - yes] + t[yes as int] - t[tot as int]
    }
}

/// Information gain of splitting `rows` on `dim` at `2 * value < b`, multiplied by
/// the number of rows, where `t[m]` is `m * log2(m)` in the caller's fixed-point
/// scale (`t[0] == 0`). With `N` rows, `N_y` of them on the yes side and `N_n` on
/// the no side, and per-class counts `tot_c`, `yes_c`, `no_c`, the entropies
/// `N*H = t[N] - sum t[tot_c]`, `N_y*H_y = t[N_y] - sum t[yes_c]` and
/// `N_n*H_n = t[N_n] - sum t[no_c]` give `N*gain = N*H - N_y*H_y - N_n*H_n`.
pub open spec fn gain_of(d: &Dataset, rows: Seq<usize>, dim: nat, b: int, t: Seq<u32>) -> int {
    let n = rows.len();
    let ny = count_rows(d, rows, dim, Some(b), None);
    t[n as int] - t[ny as int] - t[n - ny] + class_terms(
        d,
        rows,
        dim,
        b,
        t,
        d.label_mapping.len() as nat,
    )
}

/// Some row has value `v` in `dim`.
pub open spec fn has_value(d: &Dataset, rows: Seq<usize>, dim: nat, v: int) -> bool {
    exists|j: int| 0 <= j < rows.len() && feat(d, rows[j], dim) == v
}

/// `lo < hi` are two neighbouring distinct values of `dim` among `rows`: a
/// candidate threshold lies at their midpoint.
pub open spec fn is_candidate(d: &Dataset, rows: Seq<usize>, dim: nat, lo: int, hi: int) -> bool {
    &&& lo < hi
    &&& has_value(d, rows, dim, lo)
    &&& has_value(d, rows, dim, hi)
    &&& forall|j: int| 0 <= j < rows.len() ==> !(lo < #[trigger] feat(d, rows[j], dim) < hi)
}

proof fn lemma_count_any_dim(d: &Dataset, rows: Seq<usize>, dim: nat, class: Option<nat>)
    ensures
        count_rows(d, rows, dim, None, class) == count_rows(d, rows, 0, None, class),
    decreases rows.len(),
{
    if rows.len() > 0 {
        lemma_count_any_dim(d, rows.drop_last(), dim, class);
    }
}

/// The scaled gain of the bound `b`, from the per-class totals `tot` and the
/// per-class counts `yes` on the yes side, `ny` rows in all.
fn split_gain(
    d: &Dataset,
    rows: &Vec<usize>,
    dim: usize,
    b: i64,
    t: &Vec<u32>,
    tot: &Vec<usize>,
    yes: &Vec<usize>,
    ny: usize,
) -> (r: i128)
    requires
        d.wf(),
        rows_valid(d, rows@),
        dim < d.dims_spec(),
        t.len() > rows.len(),
        tot.len() == d.label_mapping.len(),
        yes.len() == d.label_mapping.len(),
        forall|c: int| 0 <= c < tot.len() ==> #[trigger] tot@[c] == class_count(d, rows@, c as nat),
        forall|c: int|
            0 <= c < yes.len() ==> #[trigger] yes@[c] == count_rows(
                d,
                rows@,
                dim as nat,
                Some(b as int),
                Some(c as nat),
            ),
        ny == count_rows(d, rows@, dim as nat, Some(b as int), None),
    ensures
        r == gain_of(d, rows@, dim as nat, b as int, t@),
{
    let n = rows.len();
    proof {
        lemma_count_le_len(d, rows@, dim as nat, Some(b as int), None);
    }
    let k = tot.len();
    let mut acc: i128 = 0;
    let mut c: usize = 0;
    while c < k
        invariant
            d.wf(),
            k == tot.len(),
            k == yes.len(),
            k == d.label_mapping.len(),
            t.len() > rows.len(),
            forall|m: int| 0 <= m < k ==> #[trigger] tot@[m] == class_count(d, rows@, m as nat),
            forall|m: int|
                0 <= m < k ==> #[trigger] yes@[m] == count_rows(
                    d,
                    rows@,
                    dim as nat,
                    Some(b as int),
                    Some(m as nat),
                ),
            c <= k,
            -3 * (c as int) * (u32::MAX as int) <= acc <= 3 * (c as int) * (u32::MAX as int),
            acc == class_terms(d, rows@, dim as nat, b as int, t@, c as nat),
        decreases k - c,
    {
        proof {
            lemma_count_le_len(d, rows@, dim as nat, Some(b as int), Some(c as nat));
            lemma_count_le_len(d, rows@, 0, None, Some(c as nat));
            lemma_count_any_dim(d, rows@, dim as nat, Some(c as nat));
        }
        let tc = tot[c];
        let yc = yes[c];
        acc = acc + t[tc - yc] as i128 + t[yc] as i128 - t[tc] as i128;
        c = c + 1;
    }
    t[n] as i128 - t[ny] as i128 - t[n - ny] as i128 + acc
}

/// `r` is the best threshold of `dim` for `rows`: the candidate `(lo, hi)` of
/// greatest scaled gain, the lowest among equals, with that gain; `None` where
/// all rows share one value.
pub open spec fn dim_search_ok(
    d: &Dataset,
    rows: Seq<usize>,
    dim: nat,
    t: Seq<u32>,
    r: Option<(i32, i32, i128)>,
) -> bool {
    match r {
        None => forall|lo: int, hi: int| !#[trigger] is_candidate(d, rows, dim, lo, hi),
        Some((lo, hi, g)) => {
            &&& is_candidate(d, rows, dim, lo as int, hi as int)
            &&& g == gain_of(d, rows, dim, lo + hi, t)
            &&& forall|lo2: int, hi2: int| #[trigger]
                is_candidate(d, rows, dim, lo2, hi2) ==> gain_of(d, rows, dim, lo2 + hi2, t) <= g
                    && (lo2 < lo ==> gain_of(d, rows, dim, lo2 + hi2, t) < g)
        },
    }
}

/// Value of `dim` in `rows[j]`, read from the dataset.
fn value_at(d: &Dataset, rows: &Vec<usize>, j: usize, dim: usize) -> (r: i32)
    requires
        d.wf(),
        rows_valid(d, rows@),
        j < rows.len(),
        dim < d.dims_spec(),
    ensures
        r == feat(d, rows@[j as int], dim as nat),
{
    let row = rows[j];
    assert(d.features@[row as int].len() == d.dims_spec());
    d.features[row][dim]
}

/// The facts about the sorted pairs `p` of `rows` that the sweep relies on.
pub open spec fn sweep_ready(d: &Dataset, rows: Seq<usize>, sd: nat, p: Seq<(i32, usize)>) -> bool {
    &&& p.to_multiset() == pairs_of(d, rows, sd).to_multiset()
    &&& crate::sweep::sorted_by_value(p)
    &&& forall|jj: int| 0 <= jj < rows.len() ==> pair_has_value(p, #[trigger] feat(d, rows[jj], sd))
    &&& forall|q: int| #![trigger p[q]] 0 <= q < p.len() ==> has_value(d, rows, sd, p[q].0 as int)
    &&& p.len() == rows.len()
}

proof fn lemma_sweep_candidate(d: &Dataset, rows: Seq<usize>, sd: nat, p: Seq<(i32, usize)>, j: int)
    requires
        sweep_ready(d, rows, sd, p),
        0 <= j,
        j + 1 < p.len(),
        p[j].0 < p[j + 1].0,
    ensures
        is_candidate(d, rows, sd, p[j].0 as int, p[j + 1].0 as int),
{
    let v = p[j].0;
    let w = p[j + 1].0;
    assert(has_value(d, rows, sd, p[j].0 as int));
    assert(has_value(d, rows, sd, p[j + 1].0 as int));
    assert forall|jj: int| 0 <= jj < rows.len() implies !(v < #[trigger] feat(d, rows[jj], sd) < w) by {
        assert(pair_has_value(p, feat(d, rows[jj], sd)));
        let q = choose|q: int| 0 <= q < p.len() && p[q].0 == feat(d, rows[jj], sd);
        if q <= j {
            assert(p[q].0 <= p[j].0);
        } else {
            assert(p[j + 1].0 <= p[q].0);
        }
    }
}

proof fn lemma_sweep_step(d: &Dataset, rows: Seq<usize>, sd: nat, p: Seq<(i32, usize)>, j: int)
    requires
        sweep_ready(d, rows, sd, p),
        0 <= j,
        j + 1 < p.len(),
    ensures
        forall|lo2: int, hi2: int| #[trigger]
            is_candidate(d, rows, sd, lo2, hi2) && lo2 < p[j + 1].0 ==> lo2 < p[j].0 || (lo2 == p[j].0
                && hi2 == p[j + 1].0 && p[j].0 < p[j + 1].0),
{
    let v = p[j].0;
    let w = p[j + 1].0;
    assert forall|lo2: int, hi2: int| #[trigger]
        is_candidate(d, rows, sd, lo2, hi2) && lo2 < w implies lo2 < v || (lo2 == v && hi2 == w
        && v < w) by {
        if lo2 >= v {
            let jl = choose|jj: int| 0 <= jj < rows.len() && feat(d, rows[jj], sd) == lo2;
            assert(pair_has_value(p, feat(d, rows[jl], sd)));
            let ql = choose|q: int| 0 <= q < p.len() && p[q].0 == feat(d, rows[jl], sd);
            if ql > j {
                assert(p[j + 1].0 <= p[ql].0);
            }
            assert(p[ql].0 <= p[j].0);
            let jh = choose|jj: int| 0 <= jj < rows.len() && feat(d, rows[jj], sd) == hi2;
            assert(pair_has_value(p, feat(d, rows[jh], sd)));
            let qh = choose|q: int| 0 <= q < p.len() && p[q].0 == feat(d, rows[jh], sd);
            if qh <= j {
                assert(p[qh].0 <= p[j].0);
            }
            assert(p[j + 1].0 <= p[qh].0);
            assert(has_value(d, rows, sd, p[j + 1].0 as int));
            let jw = choose|jj: int| 0 <= jj < rows.len() && feat(d, rows[jj], sd) == w;
            assert(!(lo2 < feat(d, rows[jw], sd) < hi2));
        }
    }
}

proof fn lemma_sweep_end(d: &Dataset, rows: Seq<usize>, sd: nat, p: Seq<(i32, usize)>)
    requires
        sweep_ready(d, rows, sd, p),
        p.len() > 0,
    ensures
        forall|lo2: int, hi2: int| #[trigger]
            is_candidate(d, rows, sd, lo2, hi2) ==> lo2 < p[p.len() - 1].0,
{
    assert forall|lo2: int, hi2: int| #[trigger]
        is_candidate(d, rows, sd, lo2, hi2) implies lo2 < p[p.len() - 1].0 by {
        let jh = choose|jj: int| 0 <= jj < rows.len() && feat(d, rows[jj], sd) == hi2;
        assert(pair_has_value(p, feat(d, rows[jh], sd)));
        let qh = choose|q: int| 0 <= q < p.len() && p[q].0 == feat(d, rows[jh], sd);
        assert(p[qh].0 <= p[p.len() - 1].0);
    }
}

proof fn lemma_sweep_counts(
    d: &Dataset,
    rows: Seq<usize>,
    sd: nat,
    p: Seq<(i32, usize)>,
    j: int,
    counts: Seq<usize>,
)
    requires
        sweep_ready(d, rows, sd, p),
        0 <= j,
        j + 1 < p.len(),
        p[j].0 < p[j + 1].0,
        forall|m: int| 0 <= m < counts.len() ==> #[trigger] counts[m] == pair_count(p.take(j + 1), None, Some(m as nat)),
    ensures
        forall|m: int|
            0 <= m < counts.len() ==> #[trigger] counts[m] == count_rows(
                d,
                rows,
                sd,
                Some(p[j].0 + p[j + 1].0),
                Some(m as nat),
            ),
        j + 1 == count_rows(d, rows, sd, Some(p[j].0 + p[j + 1].0), None),
{
    let b = p[j].0 + p[j + 1].0;
    let n = p.len() as int;
    assert(p.take(n) =~= p);
    assert forall|m: int| 0 <= m < counts.len() implies #[trigger] counts[m] == count_rows(
        d,
        rows,
        sd,
        Some(b),
        Some(m as nat),
    ) by {
        lemma_rows_to_pairs(d, rows, sd, Some(b), Some(m as nat));
        lemma_count_permutation(pairs_of(d, rows, sd), p, Some(b), Some(m as nat));
        lemma_sorted_prefix(p, j, n, Some(m as nat));
    }
    lemma_rows_to_pairs(d, rows, sd, Some(b), None);
    lemma_count_permutation(pairs_of(d, rows, sd), p, Some(b), None);
    lemma_sorted_prefix(p, j, n, None);
    lemma_count_all(p.take(j + 1));
}

/// The best threshold of `dim` for `rows` (see `dim_search_ok`).
fn evaluate_numeric(d: &Dataset, rows: &Vec<usize>, dim: usize, t: &Vec<u32>, tot: &Vec<usize>) -> (r:
    Option<(i32, i32, i128)>)
    requires
        d.wf(),
        rows_valid(d, rows@),
        rows.len() > 0,
        dim < d.dims_spec(),
        t.len() > rows.len(),
        tot.len() == d.label_mapping.len(),
        forall|c: int| 0 <= c < tot.len() ==> #[trigger] tot@[c] == class_count(d, rows@, c as nat),
    ensures
        dim_search_ok(d, rows@, dim as nat, t@, r),
{
    let ghost sd = dim as nat;
    let p = sorted_pairs(d, rows, dim);
    proof {
        lemma_values_match(d, rows@, sd, p@);
    }
    let n = p.len();
    let k = d.label_mapping.len();
    let mut counts: Vec<usize> = Vec::new();
    let mut c: usize = 0;
    while c < k
        invariant
            c <= k,
            counts.len() == c,
            forall|m: int| 0 <= m < c ==> counts@[m] == 0,
        decreases k - c,
    {
        counts.push(0);
        c = c + 1;
    }
    proof {
        assert forall|m: int| 0 <= m < k implies #[trigger] counts@[m] == pair_count(p@.take(0), None, Some(m as nat)) by {
            assert(p@.take(0).len() == 0);
        }
        assert forall|q: int| 0 <= q < n implies #[trigger] p@[q].1 < k by {
            assert(crate::sweep::is_row_label(d, rows@, p@[q].1));
            let j = choose|j: int| 0 <= j < rows.len() && d.labels@[rows@[j] as int] == p@[q].1;
            assert(d.labels@[rows@[j] as int] < d.label_mapping.len());
        }
    }
    let mut best: Option<(i32, i32, i128)> = None;
    let mut j: usize = 0;
    while j + 1 < n
        invariant
            d.wf(),
            rows_valid(d, rows@),
            rows.len() > 0,
            dim < d.dims_spec(),
            sd == dim as nat,
            t.len() > rows.len(),
            tot.len() == d.label_mapping.len(),
            forall|c: int| 0 <= c < tot.len() ==> #[trigger] tot@[c] == class_count(d, rows@, c as nat),
            sweep_ready(d, rows@, sd, p@),
            forall|q: int| 0 <= q < n ==> #[trigger] p@[q].1 < k,
            n == p.len(),
            n == rows.len(),
            k == d.label_mapping.len(),
            j < n,
            counts.len() == k,
            forall|m: int| 0 <= m < k ==> #[trigger] counts@[m] == pair_count(p@.take(j as int), None, Some(m as nat)),
            forall|m: int| 0 <= m < k ==> #[trigger] counts@[m] <= j,
            match best {
                None => forall|lo: int, hi: int|
                    #[trigger] is_candidate(d, rows@, sd, lo, hi) ==> p@[j as int].0 <= lo,
                Some((lo, hi, g)) => {
                    &&& is_candidate(d, rows@, sd, lo as int, hi as int)
                    &&& lo < p@[j as int].0
                    &&& g == gain_of(d, rows@, sd, lo + hi, t@)
                    &&& forall|lo2: int, hi2: int| #[trigger]
                        is_candidate(d, rows@, sd, lo2, hi2) && lo2 < p@[j as int].0 ==> gain_of(
                            d,
                            rows@,
                            sd,
                            lo2 + hi2,
                            t@,
                        ) <= g && (lo2 < lo ==> gain_of(d, rows@, sd, lo2 + hi2, t@) < g)
                },
            },
        decreases n - j,
    {
        let (v, lab) = p[j];
        let (w, _) = p[j + 1];
        let old_c = counts[lab];
        counts.set(lab, old_c + 1);
        proof {
            let pre = p@.take(j as int);
            assert(p@.take(j + 1).drop_last() =~= pre);
            assert(p@.take(j + 1).last() == p@[j as int]);
            assert forall|m: int| 0 <= m < k implies #[trigger] counts@[m] == pair_count(
                p@.take(j + 1),
                None,
                Some(m as nat),
            ) by {}
        }
        if v < w {
            let b: i64 = v as i64 + w as i64;
            proof {
                lemma_sweep_counts(d, rows@, sd, p@, j as int, counts@);
                lemma_sweep_candidate(d, rows@, sd, p@, j as int);
            }
            let g = split_gain(d, rows, dim, b, t, tot, &counts, j + 1);
            match best {
                None => {
                    best = Some((v, w, g));
                },
                Some((_, _, bg)) => {
                    if g > bg {
                        best = Some((v, w, g));
                    }
                },
            }
        }
        proof {
            lemma_sweep_step(d, rows@, sd, p@, j as int);
        }
        j = j + 1;
    }
    proof {
        lemma_sweep_end(d, rows@, sd, p@);
        assert(dim_search_ok(d, rows@, sd, t@, best));
    }
    best
}

/// A split on dimension `dim` at the midpoint of the neighbouring values
/// `lo < hi`: a value `x` goes to the yes branch when `x < (lo + hi) / 2`,
/// compared exactly as `2 * x < lo + hi`.
#[derive(Clone, Copy, Debug, PartialEq, Eq, Structural)]
pub struct Split {
    pub dim: usize,
    pub lo: i32,
    pub hi: i32,
}

impl Split {
    pub open spec fn goes_yes_spec(self, x: int) -> bool {
        2 * x < self.lo + self.hi
    }

    /// Whether value `x` goes to the yes branch.
    pub fn goes_yes(&self, x: i32) -> (r: bool)
        ensures
            r == self.goes_yes_spec(x as int),
    {
        2 * (x as i64) < self.lo as i64 + self.hi as i64
    }
}

/// No dimension of `rows` has two distinct values.
pub open spec fn unsplittable(d: &Dataset, rows: Seq<usize>) -> bool {
    forall|dim: nat, lo: int, hi: int| dim < d.dims_spec() ==> !#[trigger] is_candidate(d, rows, dim, lo, hi)
}

/// `s` is the split of greatest gain over all dimensions; among equal gains the
/// lowest dimension wins, and within it the lowest threshold.
pub open spec fn is_best_split(d: &Dataset, rows: Seq<usize>, t: Seq<u32>, s: Split) -> bool {
    let g = gain_of(d, rows, s.dim as nat, s.lo + s.hi, t);
    &&& s.dim < d.dims_spec()
    &&& is_candidate(d, rows, s.dim as nat, s.lo as int, s.hi as int)
    &&& forall|dim: nat, lo: int, hi: int|
        dim < d.dims_spec() && #[trigger] is_candidate(d, rows, dim, lo, hi) ==> {
            let g2 = gain_of(d, rows, dim, lo + hi, t);
            &&& g2 <= g
            &&& dim < s.dim ==> g2 < g
            &&& dim == s.dim && lo < s.lo ==> g2 < g
        }
}

/// The rows on one side of `s` (the yes side where `yes` holds), in order.
pub open spec fn side_rows(d: &Dataset, rows: Seq<usize>, s: Split, yes: bool) -> Seq<usize>
    decreases rows.len(),
{
    if rows.len() == 0 {
        rows
    } else {
        let pre = side_rows(d, rows.drop_last(), s, yes);
        if s.goes_yes_spec(feat(d, rows.last(), s.dim as nat)) == yes {
            pre.push(rows.last())
        } else {
            pre
        }
    }
}

/// `yes` and `no` split `rows` by `s`: each holds exactly the rows of its side.
pub open spec fn splits_rows(d: &Dataset, rows: Seq<usize>, s: Split, yes: Seq<usize>, no: Seq<usize>) -> bool {
    &&& yes.len() + no.len() == rows.len()
    &&& yes == side_rows(d, rows, s, true)
    &&& no == side_rows(d, rows, s, false)
    &&& forall|x: usize|
        #[trigger] yes.contains(x) <==> rows.contains(x) && s.goes_yes_spec(
            feat(d, x, s.dim as nat),
        )
    &&& forall|x: usize|
        #[trigger] no.contains(x) <==> rows.contains(x) && !s.goes_yes_spec(
            feat(d, x, s.dim as nat),
        )
}

/// Relies on rayon's `into_par_iter` over the range `0..dims`, `map` and
/// `collect` into a `Vec`: the vector holds, in order, the result of the
/// closure for each dimension. The closure calls `evaluate_numeric` alone.
#[verifier::external_body]
fn search_dims(d: &Dataset, rows: &Vec<usize>, dims: usize, t: &Vec<u32>, tot: &Vec<usize>) -> (r: Vec<
    Option<(i32, i32, i128)>,
>)
    requires
        d.wf(),
        rows_valid(d, rows@),
        rows.len() > 0,
        dims == d.dims_spec(),
        t.len() > rows.len(),
        tot.len() == d.label_mapping.len(),
        forall|c: int| 0 <= c < tot.len() ==> #[trigger] tot@[c] == class_count(d, rows@, c as nat),
    ensures
        r.len() == dims,
        forall|dim: int| 0 <= dim < dims ==> dim_search_ok(d, rows@, dim as nat, t@, #[trigger] r@[dim]),
{
    (0..dims).into_par_iter().map(|dim| evaluate_numeric(d, rows, dim, t, tot)).collect()
}

/// The best split of `rows` over all dimensions, with its scaled gain.
fn best_split(d: &Dataset, rows: &Vec<usize>, t: &Vec<u32>, tot: &Vec<usize>) -> (r: Option<
    (Split, i128),
>)
    requires
        d.wf(),
        rows_valid(d, rows@),
        rows.len() > 0,
        t.len() > rows.len(),
        tot.len() == d.label_mapping.len(),
        forall|c: int| 0 <= c < tot.len() ==> #[trigger] tot@[c] == class_count(d, rows@, c as nat),
    ensures
        match r {
            None => unsplittable(d, rows@),
            Some((s, g)) => is_best_split(d, rows@, t@, s) && g == gain_of(
                d,
                rows@,
                s.dim as nat,
                s.lo + s.hi,
                t@,
            ),
        },
{
    let dims = d.dims();
    let results = search_dims(d, rows, dims, t, tot);
    let mut best: Option<(Split, i128)> = None;
    let mut dim: usize = 0;
    while dim < dims
        invariant
            d.wf(),
            rows_valid(d, rows@),
            rows.len() > 0,
            t.len() > rows.len(),
            tot.len() == d.label_mapping.len(),
            forall|c: int| 0 <= c < tot.len() ==> #[trigger] tot@[c] == class_count(d, rows@, c as nat),
            dims == d.dims_spec(),
            dim <= dims,
            results.len() == dims,
            forall|m: int| 0 <= m < dims ==> dim_search_ok(d, rows@, m as nat, t@, #[trigger] results@[m]),
            match best {
                None => forall|dm: nat, lo: int, hi: int|
                    dm < dim ==> !#[trigger] is_candidate(d, rows@, dm, lo, hi),
                Some((s, g)) => {
                    &&& s.dim < dim
                    &&& is_candidate(d, rows@, s.dim as nat, s.lo as int, s.hi as int)
                    &&& g == gain_of(d, rows@, s.dim as nat, s.lo + s.hi, t@)
                    &&& forall|dm: nat, lo: int, hi: int|
                        dm < dim && #[trigger] is_candidate(d, rows@, dm, lo, hi) ==> {
                            let g2 = gain_of(d, rows@, dm, lo + hi, t@);
                            &&& g2 <= g
                            &&& dm < s.dim ==> g2 < g
                            &&& dm == s.dim && lo < s.lo ==> g2 < g
                        }
                },
            },
        decreases dims - dim,
    {
        match results[dim] {
            None => {},
            Some((lo, hi, g)) => {
                let improve = match best {
                    None => true,
                    Some((_, bg)) => g > bg,
                };
                if improve {
                    best = Some((Split { dim, lo, hi }, g));
                }
            },
        }
        dim = dim + 1;
    }
    best
}

/// Splits `rows` into those on the yes side of `s` and the rest, keeping order.
fn partition_rows(d: &Dataset, rows: &Vec<usize>, s: Split) -> (r: (Vec<usize>, Vec<usize>))
    requires
        d.wf(),
        rows_valid(d, rows@),
        s.dim < d.dims_spec(),
    ensures
        splits_rows(d, rows@, s, r.0@, r.1@),
        rows_valid(d, r.0@),
        rows_valid(d, r.1@),
{
    let mut yes: Vec<usize> = Vec::new();
    let mut no: Vec<usize> = Vec::new();
    let mut i: usize = 0;
    while i < rows.len()
        invariant
            d.wf(),
            rows_valid(d, rows@),
            s.dim < d.dims_spec(),
            i <= rows.len(),
            yes.len() + no.len() == i,
            yes@ == side_rows(d, rows@.subrange(0, i as int), s, true),
            no@ == side_rows(d, rows@.subrange(0, i as int), s, false),
            rows_valid(d, yes@),
            rows_valid(d, no@),
            forall|x: usize|
                #[trigger] yes@.contains(x) <==> rows@.subrange(0, i as int).contains(x)
                    && s.goes_yes_spec(feat(d, x, s.dim as nat)),
            forall|x: usize|
                #[trigger] no@.contains(x) <==> rows@.subrange(0, i as int).contains(x)
                    && !s.goes_yes_spec(feat(d, x, s.dim as nat)),
        decreases rows.len() - i,
    {
        let r = rows[i];
        let v = value_at(d, rows, i, s.dim);
        let ghost pre = rows@.subrange(0, i as int);
        let ghost oy = yes@;
        let ghost on = no@;
        assert(rows@.subrange(0, i + 1) == pre.push(r));
        assert(pre.push(r).drop_last() == pre);
        if s.goes_yes(v) {
            yes.push(r);
        } else {
            no.push(r);
        }
        assert forall|x: usize|
            #[trigger] yes@.contains(x) <==> rows@.subrange(0, i + 1).contains(x)
                && s.goes_yes_spec(feat(d, x, s.dim as nat)) by {
            lemma_push_contains(pre, r, x);
            lemma_push_contains(oy, r, x);
        }
        assert forall|x: usize|
            #[trigger] no@.contains(x) <==> rows@.subrange(0, i + 1).contains(x)
                && !s.goes_yes_spec(feat(d, x, s.dim as nat)) by {
            lemma_push_contains(pre, r, x);
            lemma_push_contains(on, r, x);
        }
        i = i + 1;
    }
    assert(rows@.subrange(0, rows.len() as int) == rows@);
    (yes, no)
}

/// A binary decision tree over row indices of a dataset. Each node keeps the
/// rows it is responsible for; a leaf names a class code, an internal node
/// owns the subtrees for the rows on each side of its split.
pub enum DecisionTree {
    Leaf { active_rows: Vec<usize>, class: usize },
    Internal {
        active_rows: Vec<usize>,
        split: Split,
        yes_branch: Box<DecisionTree>,
        no_branch: Box<DecisionTree>,
    },
}

impl DecisionTree {
    pub open spec fn rows(&self) -> Seq<usize> {
        match self {
            DecisionTree::Leaf { active_rows, .. } => active_rows@,
            DecisionTree::Internal { active_rows, .. } => active_rows@,
        }
    }

    /// The tree is what growing its root's rows with `eta`, `pi` and the
    /// entropy table `t` yields: a leaf holds the majority class of its rows
    /// and stands where the stopping rule holds or no dimension can split;
    /// an internal node splits by the best split into the two sides.
    pub open spec fn built(&self, d: &Dataset, eta: usize, pi: Ratio, t: Seq<u32>) -> bool
        decreases self,
    {
        &&& rows_valid(d, self.rows())
        &&& self.rows().len() > 0
        &&& match self {
            DecisionTree::Leaf { active_rows, class } => {
                &&& is_majority(d, active_rows@, *class as nat)
                &&& stops(d, active_rows@, eta, pi) || unsplittable(d, active_rows@)
            },
            DecisionTree::Internal { active_rows, split, yes_branch, no_branch } => {
                &&& !stops(d, active_rows@, eta, pi)
                &&& is_best_split(d, active_rows@, t, *split)
                &&& splits_rows(d, active_rows@, *split, yes_branch.rows(), no_branch.rows())
                &&& yes_branch.built(d, eta, pi, t)
                &&& no_branch.built(d, eta, pi, t)
            },
        }
    }

    /// Every split of the tree reads a coordinate below `n`.
    pub open spec fn dims_below(&self, n: nat) -> bool
        decreases self,
    {
        match self {
            DecisionTree::Leaf { .. } => true,
            DecisionTree::Internal { split, yes_branch, no_branch, .. } => {
                &&& split.dim < n
                &&& yes_branch.dims_below(n)
                &&& no_branch.dims_below(n)
            },
        }
    }

    /// Number of splits on the longest path from the root to a leaf.
    pub open spec fn depth(&self) -> nat
        decreases self,
    {
        match self {
            DecisionTree::Leaf { .. } => 0,
            DecisionTree::Internal { yes_branch, no_branch, .. } => {
                let a = yes_branch.depth();
                let b = no_branch.depth();
                1 + if a >= b {
                    a
                } else {
                    b
                }
            },
        }
    }

    /// The class that the tree gives the point `x`.
    pub open spec fn predict_spec(&self, x: Seq<i32>) -> nat
        decreases self,
    {
        match self {
            DecisionTree::Leaf { class, .. } => *class as nat,
            DecisionTree::Internal { split, yes_branch, no_branch, .. } => {
                if split.goes_yes_spec(x[split.dim as int] as int) {
                    yes_branch.predict_spec(x)
                } else {
                    no_branch.predict_spec(x)
                }
            },
        }
    }

    /// A leaf over `active_rows`, labelled with their majority class.
    pub fn new(dataset: &Dataset, active_rows: Vec<usize>) -> (r: DecisionTree)
        requires
            dataset.wf(),
            rows_valid(dataset, active_rows@),
            active_rows.len() > 0,
        ensures
            r matches DecisionTree::Leaf { class, .. } && is_majority(
                dataset,
                active_rows@,
                class as nat,
            ),
            r.rows() == active_rows@,
    {
        let (class, _) = majority_of(dataset, &active_rows);
        DecisionTree::Leaf { active_rows, class }
    }

    /// The majority class of the node's rows, the lowest code among ties.
    pub fn majority_class(&self, dataset: &Dataset) -> (r: usize)
        requires
            dataset.wf(),
            rows_valid(dataset, self.rows()),
            self.rows().len() > 0,
        ensures
            is_majority(dataset, self.rows(), r as nat),
    {
        let rows = match self {
            DecisionTree::Leaf { active_rows, .. } => active_rows,
            DecisionTree::Internal { active_rows, .. } => active_rows,
        };
        majority_of(dataset, rows).0
    }

    /// Purity of the node: rows of the majority class over all its rows.
    pub fn purity(&self, dataset: &Dataset) -> (r: Ratio)
        requires
            dataset.wf(),
            rows_valid(dataset, self.rows()),
            self.rows().len() > 0,
        ensures
            r.den == self.rows().len(),
            exists|c: nat| is_majority(dataset, self.rows(), c) && r.num == class_count(dataset, self.rows(), c),
    {
        let rows = match self {
            DecisionTree::Leaf { active_rows, .. } => active_rows,
            DecisionTree::Internal { active_rows, .. } => active_rows,
        };
        let (_, cnt) = majority_of(dataset, rows);
        Ratio::new(cnt as u64, rows.len() as u64)
    }

    /// The class code that the tree gives the point `x`.
    pub fn predict(&self, x: &Vec<i32>) -> (r: usize)
        requires
            self.dims_below(x.len() as nat),
        ensures
            r == self.predict_spec(x@),
        decreases self,
    {
        match self {
            DecisionTree::Leaf { class, .. } => *class,
            DecisionTree::Internal { split, yes_branch, no_branch, .. } => {
                if split.goes_yes(x[split.dim]) {
                    yes_branch.predict(x)
                } else {
                    no_branch.predict(x)
                }
            },
        }
    }
}

proof fn lemma_built_dims(tree: &DecisionTree, d: &Dataset, eta: usize, pi: Ratio, t: Seq<u32>)
    requires
        tree.built(d, eta, pi, t),
    ensures
        tree.dims_below(d.dims_spec()),
    decreases tree,
{
    if let DecisionTree::Internal { yes_branch, no_branch, .. } = tree {
        lemma_built_dims(yes_branch, d, eta, pi, t);
        lemma_built_dims(no_branch, d, eta, pi, t);
    }
}

/// Grows the subtree over `rows`.
fn grow(d: &Dataset, rows: Vec<usize>, eta: usize, pi: Ratio, t: &Vec<u32>) -> (r: DecisionTree)
    requires
        d.wf(),
        rows_valid(d, rows@),
        rows.len() > 0,
        t.len() > rows.len(),
    ensures
        r.built(d, eta, pi, t@),
        r.rows() == rows@,
    decreases rows.len(),
{
    let (class, _) = majority_of(d, &rows);
    if should_stop(d, &rows, eta, pi) {
        return DecisionTree::Leaf { active_rows: rows, class };
    }
    let (tot, _) = side_counts(d, &rows, 0, None);
    match best_split(d, &rows, t, &tot) {
        None => DecisionTree::Leaf { active_rows: rows, class },
        Some((split, _)) => {
            let (yes, no) = partition_rows(d, &rows, split);
            proof {
                let sd = split.dim as nat;
                let jl = choose|j: int| 0 <= j < rows.len() && feat(d, rows@[j], sd) == split.lo;
                assert(rows@.contains(rows@[jl]));
                assert(yes@.contains(rows@[jl]));
                let jh = choose|j: int| 0 <= j < rows.len() && feat(d, rows@[j], sd) == split.hi;
                assert(rows@.contains(rows@[jh]));
                assert(no@.contains(rows@[jh]));
            }
            let yes_tree = grow(d, yes, eta, pi, t);
            let no_tree = grow(d, no, eta, pi, t);
            DecisionTree::Internal {
                active_rows: rows,
                split,
                yes_branch: Box::new(yes_tree),
                no_branch: Box::new(no_tree),
            }
        },
    }
}

/// Builds a decision tree over the distinct rows of `active_rows`, with minimum
/// leaf size `eta` and minimum leaf purity `pi`. `xlogx[m]` is `m * log2(m)` in a
/// fixed-point scale, with `xlogx[0] == 0`, for every row count `m`.
pub fn decision_tree(
    dataset: &Dataset,
    active_rows: &Vec<usize>,
    eta: usize,
    pi: Ratio,
    xlogx: &Vec<u32>,
) -> (r: DecisionTree)
    requires
        dataset.wf(),
        rows_valid(dataset, active_rows@),
        active_rows.len() > 0,
        xlogx.len() > active_rows.len(),
    ensures
        r.built(dataset, eta, pi, xlogx@),
        forall|x: usize| r.rows().contains(x) <==> active_rows@.contains(x),
        forall|a: int, b: int| 0 <= a < b < r.rows().len() ==> r.rows()[a] != r.rows()[b],
        r.dims_below(dataset.dims_spec()),
{
    let rows = distinct_classes(active_rows);
    proof {
        assert(active_rows@.contains(active_rows@[0]));
        assert forall|j: int| 0 <= j < rows.len() implies #[trigger] rows@[j] < dataset.labels.len() by {
            assert(rows@.contains(rows@[j]));
        }
        assert(rows@.contains(active_rows@[0]));
    }
    let tree = grow(dataset, rows, eta, pi, xlogx);
    proof {
        lemma_built_dims(&tree, dataset, eta, pi, xlogx@);
    }
    tree
}

/// A leaf's rows are at most one, or all of one class, or alike in every
/// dimension.
pub open spec fn leaf_is_pure(d: &Dataset, rows: Seq<usize>) -> bool {
    ||| rows.len() <= 1
    ||| forall|j: int| 0 <= j < rows.len() ==> d.labels@[#[trigger] rows[j] as int] == d.labels@[rows[0] as int]
    ||| forall|j1: int, j2: int, dim: nat|
        0 <= j1 < rows.len() && 0 <= j2 < rows.len() && dim < d.dims_spec() ==> #[trigger] feat(
            d,
            rows[j1],
            dim,
        ) == #[trigger] feat(d, rows[j2], dim)
}

/// Every leaf of the tree satisfies `leaf_is_pure`.
pub open spec fn leaves_pure(tree: &DecisionTree, d: &Dataset) -> bool
    decreases tree,
{
    match tree {
        DecisionTree::Leaf { active_rows, .. } => leaf_is_pure(d, active_rows@),
        DecisionTree::Internal { yes_branch, no_branch, .. } => leaves_pure(yes_branch, d)
            && leaves_pure(no_branch, d),
    }
}

proof fn lemma_full_count_one_class(d: &Dataset, rows: Seq<usize>, c: nat)
    requires
        class_count(d, rows, c) == rows.len(),
    ensures
        forall|j: int| 0 <= j < rows.len() ==> d.labels@[#[trigger] rows[j] as int] == c,
    decreases rows.len(),
{
    if rows.len() > 0 {
        lemma_count_le_len(d, rows.drop_last(), 0, None, Some(c));
        lemma_full_count_one_class(d, rows.drop_last(), c);
        assert forall|j: int| 0 <= j < rows.len() implies d.labels@[#[trigger] rows[j] as int] == c by {
            if j < rows.len() - 1 {
                assert(rows.drop_last()[j] == rows[j]);
            }
        }
    }
}

proof fn lemma_min_above(v: Seq<int>, a: int, n: int, j0: int) -> (j: int)
    requires
        0 <= j0 < n <= v.len(),
        v[j0] > a,
    ensures
        0 <= j < n,
        v[j] > a,
        forall|i: int| 0 <= i < n && v[i] > a ==> v[j] <= v[i],
    decreases n,
{
    let last = n - 1;
    if j0 == last {
        if exists|j1: int| 0 <= j1 < last && v[j1] > a {
            let j1 = choose|j1: int| 0 <= j1 < last && v[j1] > a;
            let m = lemma_min_above(v, a, last, j1);
            if v[last] < v[m] {
                last
            } else {
                m
            }
        } else {
            last
        }
    } else {
        let m = lemma_min_above(v, a, last, j0);
        if v[last] > a && v[last] < v[m] {
            last
        } else {
            m
        }
    }
}

/// Where no dimension can be split, all rows agree in every dimension.
proof fn lemma_unsplittable_alike(d: &Dataset, rows: Seq<usize>)
    requires
        unsplittable(d, rows),
    ensures
        forall|j1: int, j2: int, dim: nat|
            0 <= j1 < rows.len() && 0 <= j2 < rows.len() && dim < d.dims_spec() ==> #[trigger] feat(
                d,
                rows[j1],
                dim,
            ) == #[trigger] feat(d, rows[j2], dim),
{
    assert forall|j1: int, j2: int, dim: nat|
        0 <= j1 < rows.len() && 0 <= j2 < rows.len() && dim < d.dims_spec() implies #[trigger] feat(
            d,
            rows[j1],
            dim,
        ) == #[trigger] feat(d, rows[j2], dim) by {
        let v1 = feat(d, rows[j1], dim);
        let v2 = feat(d, rows[j2], dim);
        if v1 != v2 {
            let (jl, jh) = if v1 < v2 {
                (j1, j2)
            } else {
                (j2, j1)
            };
            let lo = feat(d, rows[jl], dim);
            let vals = Seq::new(rows.len(), |i: int| feat(d, rows[i], dim));
            let m = lemma_min_above(vals, lo, rows.len() as int, jh);
            let hi = vals[m];
            assert forall|j: int| 0 <= j < rows.len() implies !(lo < #[trigger] feat(d, rows[j], dim) < hi) by {
                assert(vals[j] == feat(d, rows[j], dim));
            }
            assert(is_candidate(d, rows, dim, lo, hi));
        }
    }
}

/// With minimum leaf size 1 and minimum purity 1, every leaf of a built tree
/// holds one row, or rows of a single class, or rows alike in every dimension
/// (duplicate points whose labels conflict).
pub proof fn lemma_perfect_purity_leaves(tree: &DecisionTree, d: &Dataset, t: Seq<u32>)
    requires
        tree.built(d, 1, Ratio { num: 1, den: 1 }, t),
    ensures
        leaves_pure(tree, d),
    decreases tree,
{
    match tree {
        DecisionTree::Leaf { active_rows, class } => {
            let rows = active_rows@;
            if unsplittable(d, rows) {
                lemma_unsplittable_alike(d, rows);
            } else if rows.len() > 1 {
                let c = choose|c: nat|
                    is_majority(d, rows, c) && class_count(d, rows, c) * 1 >= 1 * rows.len();
                lemma_count_le_len(d, rows, 0, None, Some(c));
                lemma_full_count_one_class(d, rows, c);
            }
        },
        DecisionTree::Internal { yes_branch, no_branch, .. } => {
            lemma_perfect_purity_leaves(yes_branch, d, t);
            lemma_perfect_purity_leaves(no_branch, d, t);
        },
    }
}

/// A node that stops under `eta1` and `pi1` also stops under a larger minimum
/// leaf size `eta2` and a purity threshold `pi2` no higher than `pi1`.
proof fn lemma_stops_monotone(d: &Dataset, rows: Seq<usize>, eta1: usize, pi1: Ratio, eta2: usize, pi2: Ratio)
    requires
        stops(d, rows, eta1, pi1),
        eta1 <= eta2,
        pi1.wf(),
        pi1.ge_spec(pi2),
    ensures
        stops(d, rows, eta2, pi2),
{
    if rows.len() > eta1 {
        let c = choose|c: nat|
            is_majority(d, rows, c) && class_count(d, rows, c) * pi1.den >= pi1.num * rows.len();
        let cnt = class_count(d, rows, c) as int;
        let n = rows.len() as int;
        assert(cnt * pi2.den >= pi2.num * n) by (nonlinear_arith)
            requires
                cnt * pi1.den >= pi1.num * n,
                pi1.num * pi2.den >= pi2.num * pi1.den,
                pi1.den > 0,
                cnt >= 0,
                n >= 0,
                pi2.den >= 0,
                pi2.num >= 0,
        {
            assert(cnt * pi1.den * pi2.den >= pi1.num * n * pi2.den);
            assert(pi1.num * n * pi2.den >= pi2.num * pi1.den * n);
            assert(pi1.den * (cnt * pi2.den) >= pi1.den * (pi2.num * n));
        }
        assert(is_majority(d, rows, c) && class_count(d, rows, c) * pi2.den >= pi2.num * rows.len());
    }
}

/// There is one best split: the gain, then the dimension, then the lower value
/// of the threshold's pair, and that value's neighbour, are all fixed.
proof fn lemma_best_split_unique(d: &Dataset, rows: Seq<usize>, t: Seq<u32>, s1: Split, s2: Split)
    requires
        is_best_split(d, rows, t, s1),
        is_best_split(d, rows, t, s2),
    ensures
        s1 == s2,
{
    let d1 = s1.dim as nat;
    let d2 = s2.dim as nat;
    assert(is_candidate(d, rows, d1, s1.lo as int, s1.hi as int));
    assert(is_candidate(d, rows, d2, s2.lo as int, s2.hi as int));
    assert(s1.dim == s2.dim);
    assert(s1.lo == s2.lo);
    if s1.hi < s2.hi {
        let j = choose|j: int| 0 <= j < rows.len() && feat(d, rows[j], d1) == s1.hi;
        assert(!(s2.lo < feat(d, rows[j], d2) < s2.hi));
    }
    if s2.hi < s1.hi {
        let j = choose|j: int| 0 <= j < rows.len() && feat(d, rows[j], d2) == s2.hi;
        assert(!(s1.lo < feat(d, rows[j], d1) < s1.hi));
    }
}

/// Over the same rows, a tree built with a larger minimum leaf size `eta2` and
/// a purity threshold `pi2` no higher than `pi1` is never deeper than the tree
/// built with `eta1` and `pi1`.
pub proof fn lemma_stopping_never_deepens(
    t1: &DecisionTree,
    t2: &DecisionTree,
    d: &Dataset,
    eta1: usize,
    pi1: Ratio,
    eta2: usize,
    pi2: Ratio,
    t: Seq<u32>,
)
    requires
        t1.built(d, eta1, pi1, t),
        t2.built(d, eta2, pi2, t),
        t1.rows() == t2.rows(),
        eta1 <= eta2,
        pi1.wf(),
        pi1.ge_spec(pi2),
    ensures
        t2.depth() <= t1.depth(),
    decreases t1,
{
    if let DecisionTree::Internal { active_rows, split: s2, yes_branch: y2, no_branch: n2 } = t2 {
        let rows = active_rows@;
        if stops(d, rows, eta1, pi1) {
            lemma_stops_monotone(d, rows, eta1, pi1, eta2, pi2);
        }
        assert(is_candidate(d, rows, s2.dim as nat, s2.lo as int, s2.hi as int));
        match t1 {
            DecisionTree::Leaf { .. } => {},
            DecisionTree::Internal { split: s1, yes_branch: y1, no_branch: n1, .. } => {
                lemma_best_split_unique(d, rows, t, *s1, *s2);
                lemma_stopping_never_deepens(y1, y2, d, eta1, pi1, eta2, pi2, t);
                lemma_stopping_never_deepens(n1, n2, d, eta1, pi1, eta2, pi2, t);
            },
        }
    }
}

/// A tree's prediction depends on nothing but the tree and the point: asking
/// again with an equal point gives the same class.
pub proof fn lemma_prediction_repeatable(tree: &DecisionTree, x: Seq<i32>, y: Seq<i32>)
    requires
        x == y,
    ensures
        tree.predict_spec(x) == tree.predict_spec(y),
{
}

} // verus!

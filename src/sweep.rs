use crate::dataset::Dataset;
use crate::decision_tree::{count_rows, feat, has_value, rows_valid};
use vstd::prelude::*;

verus! {

/// The `(value, class)` pair of each row for dimension `dim`, in row order.
pub open spec fn pairs_of(d: &Dataset, rows: Seq<usize>, dim: nat) -> Seq<(i32, usize)> {
    rows.map_values(|r: usize| (d.features@[r as int]@[dim as int], d.labels@[r as int]))
}

/// The pair lies on the yes side of `bound` (if given) and has class `class`
/// (if given).
pub open spec fn pair_matches(p: (i32, usize), bound: Option<int>, class: Option<nat>) -> bool {
    &&& (bound matches Some(b) ==> 2 * p.0 < b)
    &&& (class matches Some(c) ==> p.1 == c)
}

/// Number of pairs that `pair_matches` admits.
pub open spec fn pair_count(s: Seq<(i32, usize)>, bound: Option<int>, class: Option<nat>) -> nat
    decreases s.len(),
{
    if s.len() == 0 {
        0
    } else {
        pair_count(s.drop_last(), bound, class) + if pair_matches(s.last(), bound, class) {
            1nat
        } else {
            0nat
        }
    }
}

/// Some row has class `l`.
pub open spec fn is_row_label(d: &Dataset, rows: Seq<usize>, l: usize) -> bool {
    exists|j: int| 0 <= j < rows.len() && d.labels@[rows[j] as int] == l
}

/// Some pair has value `v`.
pub open spec fn pair_has_value(s: Seq<(i32, usize)>, v: int) -> bool {
    exists|q: int| 0 <= q < s.len() && s[q].0 == v
}

/// The pairs are in ascending order of value.
pub open spec fn sorted_by_value(s: Seq<(i32, usize)>) -> bool {
    forall|a: int, b: int| 0 <= a < b < s.len() ==> s[a].0 <= s[b].0
}

pub(crate) proof fn lemma_count_all(s: Seq<(i32, usize)>)
    ensures
        pair_count(s, None, None) == s.len(),
    decreases s.len(),
{
    if s.len() > 0 {
        lemma_count_all(s.drop_last());
    }
}

pub(crate) proof fn lemma_rows_to_pairs(
    d: &Dataset,
    rows: Seq<usize>,
    dim: nat,
    bound: Option<int>,
    class: Option<nat>,
)
    ensures
        count_rows(d, rows, dim, bound, class) == pair_count(pairs_of(d, rows, dim), bound, class),
    decreases rows.len(),
{
    if rows.len() > 0 {
        lemma_rows_to_pairs(d, rows.drop_last(), dim, bound, class);
        assert(pairs_of(d, rows, dim).drop_last() =~= pairs_of(d, rows.drop_last(), dim));
    }
}

proof fn lemma_count_remove(s: Seq<(i32, usize)>, i: int, bound: Option<int>, class: Option<nat>)
    requires
        0 <= i < s.len(),
    ensures
        pair_count(s, bound, class) == pair_count(s.remove(i), bound, class) + if pair_matches(
            s[i],
            bound,
            class,
        ) {
            1nat
        } else {
            0nat
        },
    decreases s.len(),
{
    if i == s.len() - 1 {
        assert(s.remove(i) =~= s.drop_last());
    } else {
        lemma_count_remove(s.drop_last(), i, bound, class);
        assert(s.remove(i).drop_last() =~= s.drop_last().remove(i));
        assert(s.remove(i).last() == s.last());
    }
}

pub(crate) proof fn lemma_count_permutation(
    s1: Seq<(i32, usize)>,
    s2: Seq<(i32, usize)>,
    bound: Option<int>,
    class: Option<nat>,
)
    requires
        s1.to_multiset() == s2.to_multiset(),
    ensures
        pair_count(s1, bound, class) == pair_count(s2, bound, class),
    decreases s1.len(),
{
    broadcast use vstd::seq_lib::group_to_multiset_ensures;
    broadcast use vstd::multiset::group_multiset_axioms;

    if s1.len() == 0 {
        vstd::seq_lib::to_multiset_len(s1);
        vstd::seq_lib::to_multiset_len(s2);
        assert(s2.len() == 0);
    } else {
        let x = s1.last();
        let rest = s1.drop_last();
        assert(rest.push(x) =~= s1);
        assert(s1.to_multiset() =~= rest.to_multiset().insert(x));
        assert(s2.to_multiset().count(x) > 0);
        assert(s2.contains(x));
        let i = choose|i: int| 0 <= i < s2.len() && s2[i] == x;
        assert(s2.remove(i).to_multiset() =~= s2.to_multiset().remove(x));
        assert(rest.to_multiset() =~= s2.remove(i).to_multiset());
        lemma_count_permutation(rest, s2.remove(i), bound, class);
        lemma_count_remove(s2, i, bound, class);
    }
}

/// In sorted pairs, splitting between positions `j` and `j + 1` at the
/// midpoint of their distinct values puts exactly the first `j + 1` pairs on
/// the yes side.
pub(crate) proof fn lemma_sorted_prefix(
    s: Seq<(i32, usize)>,
    j: int,
    n: int,
    class: Option<nat>,
)
    requires
        sorted_by_value(s),
        0 <= j,
        j + 1 < s.len(),
        s[j].0 < s[j + 1].0,
        0 <= n <= s.len(),
    ensures
        pair_count(s.take(n), Some(s[j].0 + s[j + 1].0), class) == pair_count(
            s.take(if n <= j + 1 { n } else { j + 1 }),
            None,
            class,
        ),
    decreases n,
{
    let b = s[j].0 + s[j + 1].0;
    if n > 0 {
        lemma_sorted_prefix(s, j, n - 1, class);
        assert(s.take(n).drop_last() =~= s.take(n - 1));
        assert(s.take(n).last() == s[n - 1]);
        if n <= j + 1 {
            assert(s[n - 1].0 <= s[j].0);
            assert(2 * s[n - 1].0 < b);
        } else {
            assert(s[j + 1].0 <= s[n - 1].0);
        }
    }
}

/// Relies on `slice::sort_unstable` on `(i32, usize)` tuples: afterwards the
/// vector holds the same pairs, and tuples order by their first field first.
#[verifier::external_body]
pub(crate) fn sort_pairs(v: &mut Vec<(i32, usize)>)
    ensures
        final(v)@.to_multiset() == old(v)@.to_multiset(),
        sorted_by_value(final(v)@),
{
    v.sort_unstable();
}

/// The `(value, class)` pairs of `rows` for `dim`, in ascending order of value.
pub(crate) fn sorted_pairs(d: &Dataset, rows: &Vec<usize>, dim: usize) -> (r: Vec<(i32, usize)>)
    requires
        d.wf(),
        rows_valid(d, rows@),
        dim < d.dims_spec(),
    ensures
        r@.to_multiset() == pairs_of(d, rows@, dim as nat).to_multiset(),
        sorted_by_value(r@),
{
    let mut v: Vec<(i32, usize)> = Vec::new();
    let mut j: usize = 0;
    while j < rows.len()
        invariant
            d.wf(),
            rows_valid(d, rows@),
            dim < d.dims_spec(),
            j <= rows.len(),
            v@ =~= pairs_of(d, rows@, dim as nat).take(j as int),
        decreases rows.len() - j,
    {
        let r = rows[j];
        assert(d.features@[r as int].len() == d.dims_spec());
        v.push((d.features[r][dim], d.labels[r]));
        j = j + 1;
    }
    assert(pairs_of(d, rows@, dim as nat).take(rows.len() as int) =~= pairs_of(d, rows@, dim as nat));
    sort_pairs(&mut v);
    v
}

/// A value occurs among the rows exactly when it occurs among the sorted pairs.
pub(crate) proof fn lemma_values_match(d: &Dataset, rows: Seq<usize>, dim: nat, s: Seq<(i32, usize)>)
    requires
        s.to_multiset() == pairs_of(d, rows, dim).to_multiset(),
    ensures
        forall|j: int| 0 <= j < rows.len() ==> pair_has_value(s, #[trigger] feat(d, rows[j], dim)),
        forall|q: int| #![trigger s[q]] 0 <= q < s.len() ==> has_value(d, rows, dim, s[q].0 as int),
        forall|q: int| #![trigger s[q]] 0 <= q < s.len() ==> is_row_label(d, rows, s[q].1),
        s.len() == rows.len(),
{
    broadcast use vstd::seq_lib::group_to_multiset_ensures;

    let ps = pairs_of(d, rows, dim);
    assert(ps.len() == rows.len());
    assert forall|j: int| 0 <= j < rows.len() implies pair_has_value(s, #[trigger] feat(d, rows[j], dim)) by {
        assert(ps[j] == (d.features@[rows[j] as int]@[dim as int], d.labels@[rows[j] as int]));
        assert(ps.contains(ps[j]));
        assert(ps.to_multiset().count(ps[j]) > 0);
        assert(s.contains(ps[j]));
        let q = choose|q: int| 0 <= q < s.len() && s[q] == ps[j];
        assert(s[q].0 == feat(d, rows[j], dim));
    }
    assert forall|q: int| #![trigger s[q]] 0 <= q < s.len() implies has_value(d, rows, dim, s[q].0 as int)
        && is_row_label(d, rows, s[q].1) by {
        assert(s.contains(s[q]));
        assert(s.to_multiset().count(s[q]) > 0);
        assert(ps.contains(s[q]));
        let j = choose|j: int| 0 <= j < ps.len() && ps[j] == s[q];
        assert(ps[j] == (d.features@[rows[j] as int]@[dim as int], d.labels@[rows[j] as int]));
        assert(feat(d, rows[j], dim) == s[q].0);
        assert(s[q].1 == d.labels@[rows[j] as int]);
    }
    vstd::seq_lib::to_multiset_len(s);
    vstd::seq_lib::to_multiset_len(ps);
}

} // verus!

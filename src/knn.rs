use crate::dataset::Dataset;
use crate::decision_tree::{is_majority, rows_valid};
use crate::point::{common_len, sq_dist, squared_distance};
use vstd::prelude::*;

verus! {

/// Squared distance from `x` to row `i`.
pub open spec fn row_dist(d: &Dataset, x: Seq<i32>, i: int) -> int {
    sq_dist(x, d.features@[i]@, common_len(x, d.features@[i]@))
}

/// Row `i` comes before row `j` in nearness to `x`: it is closer, or as close
/// and earlier in the dataset.
pub open spec fn nearer(d: &Dataset, x: Seq<i32>, i: int, j: int) -> bool {
    row_dist(d, x, i) < row_dist(d, x, j) || (row_dist(d, x, i) == row_dist(d, x, j) && i < j)
}

/// `s` holds, once each, the `min(k, n)` rows nearest to `x`: each of them
/// comes before every row left out.
pub open spec fn is_nearest(d: &Dataset, x: Seq<i32>, k: nat, s: Seq<usize>) -> bool {
    let n = d.features.len();
    &&& s.len() == if k <= n { k } else { n as nat }
    &&& forall|a: int, b: int| 0 <= a < b < s.len() ==> s[a] != s[b]
    &&& forall|a: int| 0 <= a < s.len() ==> #[trigger] s[a] < n
    &&& forall|a: int, j: int|
        #![trigger s[a], s.contains(j as usize)]
        0 <= a < s.len() && 0 <= j < n && !s.contains(j as usize) ==> nearer(d, x, s[a] as int, j)
}

/// The `k` rows nearest to `x`, nearest first.
fn nearest_rows(d: &Dataset, x: &Vec<i32>, k: usize) -> (r: Vec<usize>)
    ensures
        is_nearest(d, x@, k as nat, r@),
{
    let n = d.features.len();
    let mut dists: Vec<u128> = Vec::new();
    let mut i: usize = 0;
    while i < n
        invariant
            i <= n,
            n == d.features.len(),
            dists.len() == i,
            forall|m: int| 0 <= m < i ==> #[trigger] dists@[m] == row_dist(d, x@, m),
        decreases n - i,
    {
        dists.push(squared_distance(x, &d.features[i]));
        i = i + 1;
    }
    let mut chosen: Vec<usize> = Vec::new();
    let mut taken: Vec<bool> = Vec::new();
    let mut j: usize = 0;
    while j < n
        invariant
            j <= n,
            taken.len() == j,
            forall|m: int| 0 <= m < j ==> !taken@[m],
        decreases n - j,
    {
        taken.push(false);
        j = j + 1;
    }
    while chosen.len() < k && chosen.len() < n
        invariant
            n == d.features.len(),
            dists.len() == n,
            taken.len() == n,
            forall|m: int| 0 <= m < n ==> #[trigger] dists@[m] == row_dist(d, x@, m),
            chosen.len() <= n,
            chosen.len() <= k,
            forall|a: int, b: int| 0 <= a < b < chosen.len() ==> chosen@[a] != chosen@[b],
            forall|a: int| 0 <= a < chosen.len() ==> #[trigger] chosen@[a] < n,
            forall|m: int| 0 <= m < n ==> (#[trigger] taken@[m] <==> chosen@.contains(m as usize)),
            forall|a: int, m: int|
                #![trigger chosen@[a], taken@[m]]
                0 <= a < chosen.len() && 0 <= m < n && !taken@[m] ==> nearer(d, x@, chosen@[a] as int, m),
        decreases n - chosen.len(),
    {
        proof {
        }
        let mut best: usize = n;
        let mut m: usize = 0;
        while m < n
            invariant
                n == d.features.len(),
                dists.len() == n,
                taken.len() == n,
                forall|q: int| 0 <= q < n ==> #[trigger] dists@[q] == row_dist(d, x@, q),
                m <= n,
                best == n || (best < m && !taken@[best as int]),
                best == n ==> forall|q: int| 0 <= q < m ==> taken@[q],
                best < n ==> forall|q: int|
                    0 <= q < m && !taken@[q] && q != best ==> nearer(d, x@, best as int, q),
            decreases n - m,
        {
            if !taken[m] {
                if best == n || dists[m] < dists[best] {
                    best = m;
                }
            }
            m = m + 1;
        }
        if best == n {
            proof {
                assert forall|q: usize| q < n implies #[trigger] chosen@.contains(q) by {
                    assert(taken@[q as int]);
                }
                lemma_all_taken(chosen@, n as int);
            }
        }
        let ghost old_chosen = chosen@;
        chosen.push(best);
        taken.set(best, true);
        assert forall|q: int| 0 <= q < n implies (#[trigger] taken@[q] <==> chosen@.contains(q as usize)) by {
            crate::dataset::lemma_push_contains(old_chosen, best, q as usize);
        }
        assert forall|a: int, b: int| 0 <= a < b < chosen.len() implies chosen@[a] != chosen@[b] by {
            if b == chosen.len() - 1 {
                assert(old_chosen.contains(chosen@[a]));
            }
        }
        assert forall|a: int, q: int|
            #![trigger chosen@[a], taken@[q]]
            0 <= a < chosen.len() && 0 <= q < n && !taken@[q] implies nearer(d, x@, chosen@[a] as int, q) by {
            if a < chosen.len() - 1 {
                assert(old_chosen[a] == chosen@[a]);
            }
        }
    }
    proof {
        assert forall|a: int, q: int|
            #![trigger chosen@[a], chosen@.contains(q as usize)]
            0 <= a < chosen.len() && 0 <= q < n && !chosen@.contains(q as usize) implies nearer(
            d,
            x@,
            chosen@[a] as int,
            q,
        ) by {
            assert(!taken@[q]);
        }
    }
    chosen
}

/// Distinct indices that include every index below `n` number at least `n`.
proof fn lemma_all_taken(chosen: Seq<usize>, n: int)
    requires
        0 <= n <= usize::MAX,
        forall|a: int, b: int| 0 <= a < b < chosen.len() ==> chosen[a] != chosen[b],
        forall|q: usize| q < n ==> #[trigger] chosen.contains(q),
    ensures
        chosen.len() >= n,
{
    let ints = chosen.map_values(|v: usize| v as int);
    assert(ints.no_duplicates());
    ints.unique_seq_to_set();
    vstd::seq_lib::seq_to_set_is_finite(ints);
    vstd::set_lib::lemma_int_range(0, n);
    assert forall|q: int| vstd::set_lib::set_int_range(0, n).contains(q) implies ints.to_set().contains(q) by {
        assert(chosen.contains(q as usize));
        let a = choose|a: int| 0 <= a < chosen.len() && chosen[a] == q as usize;
        assert(ints[a] == q);
    }
    vstd::set_lib::lemma_len_subset(vstd::set_lib::set_int_range(0, n), ints.to_set());
}

/// The class that most of the `k` rows nearest to `x` have, the lowest class
/// code among ties; `None` when `k` is 0 or the dataset has no rows.
pub fn k_nearest_neighbors(dataset: &Dataset, x: &Vec<i32>, k: usize) -> (r: Option<usize>)
    requires
        dataset.wf(),
    ensures
        r is None <==> (k == 0 || dataset.features.len() == 0),
        r matches Some(c) ==> exists|s: Seq<usize>|
            #[trigger] is_nearest(dataset, x@, k as nat, s) && is_majority(dataset, s, c as nat),
{
    let chosen = nearest_rows(dataset, x, k);
    if chosen.len() == 0 {
        return None;
    }
    proof {
        assert forall|j: int| 0 <= j < chosen.len() implies #[trigger] chosen@[j] < dataset.labels.len() by {}
    }
    let (c, _) = crate::decision_tree::majority_of(dataset, &chosen);
    assert(is_nearest(dataset, x@, k as nat, chosen@) && is_majority(dataset, chosen@, c as nat));
    Some(c)
}

} // verus!

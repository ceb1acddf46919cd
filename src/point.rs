use vstd::prelude::*;

verus! {

/// Sum of `(a[i] - b[i])^2` over the first `n` coordinates.
pub open spec fn sq_dist(a: Seq<i32>, b: Seq<i32>, n: int) -> int
    decreases n,
{
    if n <= 0 {
        0
    } else {
        sq_dist(a, b, n - 1) + (a[n - 1] - b[n - 1]) * (a[n - 1] - b[n - 1])
    }
}

/// Number of coordinates two points share.
pub open spec fn common_len(a: Seq<i32>, b: Seq<i32>) -> int {
    if a.len() <= b.len() {
        a.len() as int
    } else {
        b.len() as int
    }
}

/// Squared Euclidean distance over the coordinates the two points share.
pub fn squared_distance(a: &Vec<i32>, b: &Vec<i32>) -> (r: u128)
    ensures
        r == sq_dist(a@, b@, common_len(a@, b@)),
{
    let n = if a.len() <= b.len() {
        a.len()
    } else {
        b.len()
    };
    let mut acc: u128 = 0;
    let mut i: usize = 0;
    while i < n
        invariant
            i <= n,
            n <= a.len(),
            n <= b.len(),
            n == common_len(a@, b@),
            acc == sq_dist(a@, b@, i as int),
            acc <= (i as int) * 0xffff_ffff_ffff_ffff,
        decreases n - i,
    {
        let diff: i64 = a[i] as i64 - b[i] as i64;
        assert(-0xffff_ffff <= diff <= 0xffff_ffff);
        let mag: u64 = if diff < 0 {
            (-diff) as u64
        } else {
            diff as u64
        };
        assert(mag <= 0xffff_ffff);
        assert(mag as int * mag as int <= 0xffff_ffff_ffff_ffff) by (nonlinear_arith)
            requires
                mag <= 0xffff_ffff,
        ;
        let sq: u128 = mag as u128 * mag as u128;
        assert(sq <= 0xffff_ffff_ffff_ffff) by (nonlinear_arith)
            requires
                sq == mag as int * mag as int,
                mag <= 0xffff_ffff,
        ;
        assert(sq == (a@[i as int] - b@[i as int]) * (a@[i as int] - b@[i as int])) by (
        nonlinear_arith)
            requires
                sq == mag as int * mag as int,
                mag == diff || mag == -diff,
                diff == a@[i as int] - b@[i as int],
        ;
        assert((i as int) * 0xffff_ffff_ffff_ffff + 0xffff_ffff_ffff_ffff <= u128::MAX) by (
        nonlinear_arith)
            requires
                i < n,
                n <= usize::MAX,
        ;
        acc = acc + sq;
        i = i + 1;
    }
    acc
}

/// A point in `D`-dimensional space with fixed-point integer coordinates.
#[derive(Clone, Debug)]
pub struct Point {
    pub coords: Vec<i32>,
}

impl Point {
    pub fn new(coords: Vec<i32>) -> (r: Point)
        ensures
            r.coords@ == coords@,
    {
        Point { coords }
    }

    /// Squared Euclidean distance to `rhs` over the coordinates both have.
    pub fn squared_dist(&self, rhs: &Point) -> (r: u128)
        ensures
            r == sq_dist(self.coords@, rhs.coords@, common_len(self.coords@, rhs.coords@)),
    {
        squared_distance(&self.coords, &rhs.coords)
    }
}

} // verus!

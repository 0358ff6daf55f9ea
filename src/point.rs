use vstd::prelude::*;

verus! {

/// The value of a stored point that contracts speak of.
pub struct PointView {
    pub embedding: Seq<i32>,
    pub data: Seq<char>,
}

/// An embedding vector paired with an opaque text payload.
pub struct Point {
    pub embedding: Vec<i32>,
    pub data: String,
}

impl View for Point {
    type V = PointView;

    open spec fn view(&self) -> PointView {
        PointView { embedding: self.embedding@, data: self.data@ }
    }
}

pub open spec fn sq(x: int) -> int {
    x * x
}

/// Sum of squared coordinate differences over the first `n` coordinates.
pub open spec fn sum_sq(a: Seq<i32>, b: Seq<i32>, n: nat) -> int
    decreases n,
{
    if n == 0 {
        0
    } else {
        sum_sq(a, b, (n - 1) as nat) + sq(a[n - 1] - b[n - 1])
    }
}

/// Squared Euclidean distance between two vectors of the same length.
pub open spec fn sq_dist(a: Seq<i32>, b: Seq<i32>) -> int {
    sum_sq(a, b, a.len())
}

pub proof fn lemma_sum_sq_nonneg(a: Seq<i32>, b: Seq<i32>, n: nat)
    ensures
        sum_sq(a, b, n) >= 0,
    decreases n,
{
    if n > 0 {
        lemma_sum_sq_nonneg(a, b, (n - 1) as nat);
        assert(sq(a[n - 1] - b[n - 1]) >= 0) by (nonlinear_arith);
    }
}

/// One coordinate's squared difference never exceeds the whole sum.
pub proof fn lemma_sum_sq_ge_term(a: Seq<i32>, b: Seq<i32>, n: nat, i: int)
    requires
        0 <= i < n,
    ensures
        sum_sq(a, b, n) >= sq(a[i] - b[i]),
    decreases n,
{
    lemma_sum_sq_nonneg(a, b, (n - 1) as nat);
    if i < n - 1 {
        lemma_sum_sq_ge_term(a, b, (n - 1) as nat, i);
        assert(sq(a[n - 1] - b[n - 1]) >= 0) by (nonlinear_arith);
    }
}

/// The distance from a point to a target is at least their separation
/// along any single axis.
pub proof fn lemma_sq_dist_ge_axis(a: Seq<i32>, b: Seq<i32>, axis: int)
    requires
        0 <= axis < a.len(),
    ensures
        sq_dist(a, b) >= sq(a[axis] - b[axis]),
{
    lemma_sum_sq_ge_term(a, b, a.len(), axis);
}

/// Squares grow with the magnitude of what is squared.
pub proof fn lemma_sq_monotone(x: int, y: int)
    requires
        0 <= y <= x || x <= y <= 0,
    ensures
        sq(y) <= sq(x),
{
    assert(sq(y) <= sq(x)) by (nonlinear_arith)
        requires
            0 <= y <= x || x <= y <= 0,
    ;
}

proof fn lemma_sq_term_bound(x: i32, y: i32)
    ensures
        0 <= sq(x - y) <= 0x1_0000_0000_0000_0000,
{
    let d: int = x - y;
    assert(-0x1_0000_0000 <= d <= 0x1_0000_0000);
    assert(0 <= d * d <= 0x1_0000_0000_0000_0000) by (nonlinear_arith)
        requires
            -0x1_0000_0000 <= d <= 0x1_0000_0000,
    ;
}

proof fn lemma_sum_sq_bound(a: Seq<i32>, b: Seq<i32>, n: nat)
    requires
        n <= a.len(),
        n <= b.len(),
    ensures
        0 <= sum_sq(a, b, n) <= n * 0x1_0000_0000_0000_0000,
    decreases n,
{
    if n > 0 {
        lemma_sum_sq_bound(a, b, (n - 1) as nat);
        lemma_sq_term_bound(a[n - 1], b[n - 1]);
        assert((n - 1) * 0x1_0000_0000_0000_0000 + 0x1_0000_0000_0000_0000 == n
            * 0x1_0000_0000_0000_0000) by (nonlinear_arith);
    }
}

/// Exact squared Euclidean distance between two embeddings of equal length.
pub fn squared_distance(a: &Vec<i32>, b: &Vec<i32>) -> (r: u128)
    requires
        a@.len() == b@.len(),
    ensures
        r == sq_dist(a@, b@),
{
    let mut acc: u128 = 0;
    let mut i: usize = 0;
    while i < a.len()
        invariant
            a@.len() == b@.len(),
            i <= a@.len(),
            acc == sum_sq(a@, b@, i as nat),
        decreases a@.len() - i,
    {
        proof {
            lemma_sum_sq_bound(a@, b@, (i + 1) as nat);
            assert((i + 1) * 0x1_0000_0000_0000_0000 <= 0x1_0000_0000_0000_0000
                * 0x1_0000_0000_0000_0000) by (nonlinear_arith)
                requires
                    i + 1 <= 0x1_0000_0000_0000_0000,
            ;
        }
        let d: i64 = a[i] as i64 - b[i] as i64;
        assert(-0x1_0000_0000 <= d <= 0x1_0000_0000);
        assert(0 <= d * d <= 0x1_0000_0000_0000_0000) by (nonlinear_arith)
            requires
                -0x1_0000_0000 <= d <= 0x1_0000_0000,
        ;
        let dd: i128 = d as i128 * d as i128;
        assert(0 <= dd <= 0x1_0000_0000_0000_0000 && dd == sq(a@[i as int] - b@[i as int]))
            by (nonlinear_arith)
            requires
                d == a@[i as int] - b@[i as int],
                -0x1_0000_0000 <= d <= 0x1_0000_0000,
                dd == d * d,
        ;
        let s: u128 = dd as u128;
        acc = acc + s;
        i = i + 1;
    }
    acc
}

impl Point {
    /// Number of coordinates in the embedding.
    pub fn len(&self) -> (r: usize)
        ensures
            r == self.embedding@.len(),
    {
        self.embedding.len()
    }

    /// A copy of this point with the same embedding and payload.
    pub fn duplicate(&self) -> (r: Point)
        ensures
            r@ == self@,
    {
        let embedding = self.embedding.clone();
        assert(embedding@ =~= self.embedding@);
        Point { embedding, data: self.data.clone() }
    }
}

} // verus!

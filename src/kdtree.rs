use vstd::prelude::*;
use vstd::multiset::Multiset;
use crate::point::{
    Point, PointView, sq, sq_dist, squared_distance, lemma_sq_dist_ge_axis, lemma_sq_monotone,
};

verus! {

broadcast use {vstd::multiset::group_multiset_axioms, vstd::multiset::group_multiset_properties};

/// Ways in which an operation on an index can fail.
#[derive(Debug, PartialEq, Eq, Structural)]
pub enum IndexError {
    /// The embedding's length differs from the index's dimensionality.
    DimensionMismatch,
    /// The index already holds as many points as a `usize` can count.
    CapacityExceeded,
}

/// A tree node: one point, two optional subtrees, and the coordinate
/// axis that this node splits on.
pub struct Node {
    pub point: Point,
    pub left: Option<Box<Node>>,
    pub right: Option<Box<Node>>,
    pub axis: usize,
}

/// A k-dimensional tree of points.
pub struct KDTree {
    pub root: Option<Box<Node>>,
    pub k: usize,
    pub size: usize,
}

/// The split axis of a child of a node that splits on `axis`.
pub open spec fn next_axis(axis: nat, k: nat) -> nat {
    if axis + 1 >= k {
        0
    } else {
        axis + 1
    }
}

/// The points stored in a subtree.
pub open spec fn points(node: Option<Box<Node>>) -> Multiset<PointView>
    decreases node,
{
    match node {
        None => Multiset::empty(),
        Some(n) => points(n.left).add(points(n.right)).insert(n.point@),
    }
}

/// A subtree rooted at split axis `axis` of a `k`-dimensional tree: every
/// embedding has length `k`, every node's axis follows its depth, points
/// left of a node lie strictly below it on the node's axis and points right
/// of it lie at or above it.
pub open spec fn wf_node(node: Option<Box<Node>>, axis: nat, k: nat) -> bool
    decreases node,
{
    match node {
        None => true,
        Some(n) => {
            &&& axis < k
            &&& n.axis == axis
            &&& n.point.embedding@.len() == k
            &&& forall|p: PointView| #[trigger]
                points(n.left).contains(p) ==> p.embedding[axis as int]
                    < n.point.embedding@[axis as int]
            &&& forall|p: PointView| #[trigger]
                points(n.right).contains(p) ==> p.embedding[axis as int]
                    >= n.point.embedding@[axis as int]
            &&& wf_node(n.left, next_axis(axis, k), k)
            &&& wf_node(n.right, next_axis(axis, k), k)
        },
    }
}

/// Every point of a well-formed subtree has `k` coordinates.
pub proof fn lemma_points_dim(node: Option<Box<Node>>, axis: nat, k: nat)
    requires
        wf_node(node, axis, k),
    ensures
        forall|p: PointView| #[trigger] points(node).contains(p) ==> p.embedding.len() == k,
    decreases node,
{
    if let Some(n) = node {
        lemma_points_dim(n.left, next_axis(axis, k), k);
        lemma_points_dim(n.right, next_axis(axis, k), k);
        assert forall|p: PointView| #[trigger] points(node).contains(p) implies p.embedding.len()
            == k by {
            assert(points(node) == points(n.left).add(points(n.right)).insert(n.point@));
            if p != n.point@ {
                assert(points(n.left).add(points(n.right)).contains(p));
                if points(n.left).contains(p) {
                } else {
                    assert(points(n.right).contains(p));
                }
            } else {
                assert(n.point.embedding@.len() == k);
            }
        }
    }
}

/// A point on the side of a node's splitting plane away from the target is
/// at least as far from the target as the plane itself.
pub proof fn lemma_far_side(n: Box<Node>, axis: nat, k: nat, t: Seq<i32>)
    requires
        wf_node(Some(n), axis, k),
        t.len() == k,
    ensures
        t[axis as int] < n.point.embedding@[axis as int] ==> forall|q: PointView| #[trigger]
            points(n.right).contains(q) ==> sq_dist(q.embedding, t) >= sq(
                t[axis as int] - n.point.embedding@[axis as int],
            ),
        t[axis as int] >= n.point.embedding@[axis as int] ==> forall|q: PointView| #[trigger]
            points(n.left).contains(q) ==> sq_dist(q.embedding, t) >= sq(
                t[axis as int] - n.point.embedding@[axis as int],
            ),
{
    let a = axis as int;
    let pa = n.point.embedding@[a];
    let ta = t[a];
    lemma_points_dim(n.left, next_axis(axis, k), k);
    lemma_points_dim(n.right, next_axis(axis, k), k);
    if ta < pa {
        assert forall|q: PointView| #[trigger] points(n.right).contains(q) implies sq_dist(
            q.embedding,
            t,
        ) >= sq(ta - pa) by {
            lemma_sq_dist_ge_axis(q.embedding, t, a);
            lemma_sq_monotone(q.embedding[a] - ta, pa - ta);
            assert(sq(pa - ta) == sq(ta - pa)) by (nonlinear_arith);
        }
    } else {
        assert forall|q: PointView| #[trigger] points(n.left).contains(q) implies sq_dist(
            q.embedding,
            t,
        ) >= sq(ta - pa) by {
            lemma_sq_dist_ge_axis(q.embedding, t, a);
            lemma_sq_monotone(q.embedding[a] - ta, pa - ta);
            assert(sq(pa - ta) == sq(ta - pa)) by (nonlinear_arith);
        }
    }
}

/// A best-so-far candidate carries its true distance to the target.
pub open spec fn best_ok(best: Option<(u128, Point)>, t: Seq<i32>) -> bool {
    match best {
        None => true,
        Some(b) => b.0 == sq_dist(b.1.embedding@, t),
    }
}

/// Whether a point at squared distance `d` beats the best so far.
fn beats(best: &Option<(u128, Point)>, d: u128) -> (r: bool)
    ensures
        r == (best is None || d < best.unwrap().0),
{
    match best {
        None => true,
        Some(b) => d < b.0,
    }
}

/// Squared difference of two coordinates.
fn axis_gap(x: i32, y: i32) -> (r: u128)
    ensures
        r == sq(x - y),
{
    let d: i64 = x as i64 - y as i64;
    assert(0 <= d * d <= 0x1_0000_0000_0000_0000) by (nonlinear_arith)
        requires
            -0x1_0000_0000 <= d <= 0x1_0000_0000,
    ;
    let dd: i128 = d as i128 * d as i128;
    dd as u128
}

/// The points of a candidate list, in order.
pub open spec fn cand_points(c: Seq<(u128, Point)>) -> Seq<PointView> {
    c.map_values(|e: (u128, Point)| e.1@)
}

/// A candidate list for the `n` nearest points to `t`, with `out` the
/// points considered and left out: at most `n` candidates, each with its
/// true distance, in ascending order of distance; points are left out only
/// once the list is full, and none left out is nearer than a candidate.
pub open spec fn cands_ok(c: Seq<(u128, Point)>, out: Multiset<PointView>, t: Seq<i32>, n: nat) -> bool {
    &&& c.len() <= n
    &&& forall|i: int| 0 <= i < c.len() ==> #[trigger] c[i].0 == sq_dist(c[i].1.embedding@, t)
    &&& forall|i: int, j: int| 0 <= i < j < c.len() ==> c[i].0 <= c[j].0
    &&& out.len() > 0 ==> c.len() == n
    &&& forall|q: PointView| #[trigger]
        out.contains(q) ==> forall|i: int| 0 <= i < c.len() ==> c[i].0 <= sq_dist(q.embedding, t)
}

/// `r` is a correct answer to a query for the `n` points of `all` nearest
/// to `t`: `min(n, |all|)` of its points, in ascending order of distance,
/// such that no point left out is nearer than one chosen.
pub open spec fn is_top_n(r: Seq<PointView>, all: Multiset<PointView>, t: Seq<i32>, n: nat) -> bool {
    &&& r.len() == if n < all.len() { n } else { all.len() }
    &&& forall|i: int, j: int|
        0 <= i < j < r.len() ==> sq_dist(#[trigger] r[i].embedding, t) <= sq_dist(
            #[trigger] r[j].embedding,
            t,
        )
    &&& r.to_multiset().subset_of(all)
    &&& forall|q: PointView| #[trigger]
        all.count(q) > r.to_multiset().count(q) ==> forall|i: int|
            0 <= i < r.len() ==> sq_dist(#[trigger] r[i].embedding, t) <= sq_dist(q.embedding, t)
}

/// Offers a point at squared distance `d` to a candidate list bounded by
/// `n`; a point equally near as the last candidate of a full list is left
/// out, so earlier offers win ties.
fn offer(
    cands: &mut Vec<(u128, Point)>,
    d: u128,
    p: &Point,
    n: usize,
    t: Ghost<Seq<i32>>,
    out: Ghost<Multiset<PointView>>,
) -> (out2: Ghost<Multiset<PointView>>)
    requires
        n > 0,
        cands_ok(old(cands)@, out@, t@, n as nat),
        d == sq_dist(p.embedding@, t@),
    ensures
        cands_ok(final(cands)@, out2@, t@, n as nat),
        cand_points(final(cands)@).to_multiset().add(out2@) == cand_points(old(cands)@).to_multiset().add(
            out@,
        ).insert(p@),
{
    broadcast use vstd::seq_lib::group_to_multiset_ensures;

    let ghost c0 = cands@;
    let mut i: usize = 0;
    while i < cands.len() && cands[i].0 <= d
        invariant
            i <= cands@.len(),
            cands@ == c0,
            forall|j: int| 0 <= j < i ==> cands@[j].0 <= d,
        decreases cands@.len() - i,
    {
        i = i + 1;
    }
    if i == n {
        let out2 = Ghost(out@.insert(p@));
        assert forall|q: PointView| #[trigger] out2@.contains(q) implies forall|j: int|
            0 <= j < c0.len() ==> c0[j].0 <= sq_dist(q.embedding, t@) by {
            if q != p@ {
                assert(out@.contains(q));
            }
        }
        assert(cand_points(cands@).to_multiset().add(out2@) =~= cand_points(c0).to_multiset().add(
            out@,
        ).insert(p@));
        return out2;
    }
    cands.insert(i, (d, p.duplicate()));
    let ghost c1 = cands@;
    assert(cand_points(c1) =~= cand_points(c0).insert(i as int, p@));
    proof {
        vstd::seq_lib::to_multiset_insert(cand_points(c0), i as int, p@);
    }
    if cands.len() > n {
        let last = cands.pop().unwrap();
        let ghost c2 = cands@;
        assert(cand_points(c1) =~= cand_points(c2).push(last.1@));
        proof {
            vstd::seq_lib::to_multiset_build(cand_points(c2), last.1@);
            let m0 = cand_points(c0).to_multiset();
            let m1 = cand_points(c1).to_multiset();
            let m2 = cand_points(c2).to_multiset();
            assert(m1 == m0.insert(p@));
            assert(m1 == m2.insert(last.1@));
            assert(m2.add(out@.insert(last.1@)) =~= m1.add(out@));
            assert(m1.add(out@) =~= m0.add(out@).insert(p@));
        }
        let out2 = Ghost(out@.insert(last.1@));
        assert(cand_points(cands@).to_multiset().add(out2@) =~= cand_points(c0).to_multiset().add(
            out@,
        ).insert(p@));
        assert forall|q: PointView| #[trigger] out2@.contains(q) implies forall|j: int|
            0 <= j < c2.len() ==> c2[j].0 <= sq_dist(q.embedding, t@) by {
            if q != last.1@ {
                assert(out@.contains(q));
                assert(c0.len() == n);
                assert(c0[i as int].0 > d);
            }
        }
        out2
    } else {
        assert(out@.len() == 0);
        assert(cand_points(cands@).to_multiset().add(out@) =~= cand_points(c0).to_multiset().add(
            out@,
        ).insert(p@));
        out
    }
}

/// Two subtrees with the same points, split axes and child positions.
pub open spec fn same_shape(a: Option<Box<Node>>, b: Option<Box<Node>>) -> bool
    decreases a,
{
    match (a, b) {
        (None, None) => true,
        (Some(x), Some(y)) => {
            &&& x.point@ == y.point@
            &&& x.axis == y.axis
            &&& same_shape(x.left, y.left)
            &&& same_shape(x.right, y.right)
        },
        _ => false,
    }
}

/// The subtree after descending with `point` from a node split on `axis`:
/// left where the point lies strictly below the node on that axis, right
/// otherwise, until an absent child, where the point becomes a new leaf.
/// Every other node keeps its place.
pub open spec fn descend_insert(node: Option<Box<Node>>, point: Point, axis: usize, k: usize) -> Option<
    Box<Node>,
>
    decreases node,
{
    match node {
        None => Some(Box::new(Node { point, left: None, right: None, axis })),
        Some(n) => {
            let next: usize = if axis + 1 >= k {
                0
            } else {
                (axis + 1) as usize
            };
            if point.embedding@[axis as int] < n.point.embedding@[axis as int] {
                Some(
                    Box::new(
                        Node {
                            point: n.point,
                            left: descend_insert(n.left, point, next, k),
                            right: n.right,
                            axis: n.axis,
                        },
                    ),
                )
            } else {
                Some(
                    Box::new(
                        Node {
                            point: n.point,
                            left: n.left,
                            right: descend_insert(n.right, point, next, k),
                            axis: n.axis,
                        },
                    ),
                )
            }
        },
    }
}

/// Subtrees of the same shape hold the same points, and one is well-formed
/// exactly when the other is.
pub proof fn lemma_same_shape(a: Option<Box<Node>>, b: Option<Box<Node>>, axis: nat, k: nat)
    requires
        same_shape(a, b),
    ensures
        points(a) == points(b),
        wf_node(a, axis, k) == wf_node(b, axis, k),
    decreases a,
{
    if let (Some(x), Some(y)) = (a, b) {
        lemma_same_shape(x.left, y.left, next_axis(axis, k), k);
        lemma_same_shape(x.right, y.right, next_axis(axis, k), k);
    }
}

impl View for KDTree {
    type V = Multiset<PointView>;

    /// The points that the tree holds.
    open spec fn view(&self) -> Multiset<PointView> {
        points(self.root)
    }
}

impl KDTree {
    /// The tree's invariant: positive dimensionality, a well-formed root
    /// at axis 0, and a size that counts its points.
    pub open spec fn wf(&self) -> bool {
        &&& self.k > 0
        &&& wf_node(self.root, 0, self.k as nat)
        &&& self.size == points(self.root).len()
    }

    /// An empty tree of dimensionality `k`.
    pub fn new(k: usize) -> (r: KDTree)
        requires
            k > 0,
        ensures
            r.wf(),
            r.k == k,
            r@ == Multiset::<PointView>::empty(),
    {
        KDTree { root: None, k, size: 0 }
    }

    /// Number of points in the tree, counted node by node.
    pub fn len(&self) -> (r: usize)
        requires
            self.wf(),
        ensures
            r == self@.len(),
    {
        KDTree::count_nodes(&self.root)
    }

    fn count_nodes(node: &Option<Box<Node>>) -> (r: usize)
        requires
            points(*node).len() <= usize::MAX,
        ensures
            r == points(*node).len(),
        decreases *node,
    {
        match node {
            None => 0,
            Some(current) => {
                let l = KDTree::count_nodes(&current.left);
                let r = KDTree::count_nodes(&current.right);
                1 + l + r
            },
        }
    }

    /// Dimensionality of the tree.
    pub fn dimensions(&self) -> (r: usize)
        ensures
            r == self.k,
    {
        self.k
    }

    fn insert_recursive(node: Option<Box<Node>>, point: Point, axis: usize, k: usize) -> (r:
        Option<Box<Node>>)
        requires
            wf_node(node, axis as nat, k as nat),
            axis < k,
            point.embedding@.len() == k,
        ensures
            wf_node(r, axis as nat, k as nat),
            points(r) == points(node).insert(point@),
            r == descend_insert(node, point, axis, k),
        decreases node,
    {
        match node {
            Some(mut current) => {
                let next: usize = if axis + 1 >= k {
                    0
                } else {
                    axis + 1
                };
                let ghost pv = point@;
                let ghost old_left = current.left;
                let ghost old_right = current.right;
                if point.embedding[axis] < current.point.embedding[axis] {
                    current.left = KDTree::insert_recursive(current.left.take(), point, next, k);
                    assert(points(current.left) == points(old_left).insert(pv));
                    assert forall|p: PointView| #[trigger]
                        points(current.left).contains(p) implies p.embedding[axis as int]
                        < current.point.embedding@[axis as int] by {
                        if p != pv {
                            assert(points(old_left).contains(p));
                        }
                    }
                    assert(points(Some(current)) =~= points(node).insert(pv));
                    assert(wf_node(current.left, next_axis(axis as nat, k as nat), k as nat));
                    assert(wf_node(current.right, next_axis(axis as nat, k as nat), k as nat));
                    assert(wf_node(Some(current), axis as nat, k as nat));
                } else {
                    current.right = KDTree::insert_recursive(current.right.take(), point, next, k);
                    assert(points(current.right) == points(old_right).insert(pv));
                    assert forall|p: PointView| #[trigger]
                        points(current.right).contains(p) implies p.embedding[axis as int]
                        >= current.point.embedding@[axis as int] by {
                        if p != pv {
                            assert(points(old_right).contains(p));
                        }
                    }
                    assert(points(Some(current)) =~= points(node).insert(pv));
                    assert(wf_node(current.left, next_axis(axis as nat, k as nat), k as nat));
                    assert(wf_node(current.right, next_axis(axis as nat, k as nat), k as nat));
                    assert(wf_node(Some(current), axis as nat, k as nat));
                }
                Some(current)
            },
            None => {
                let r = Some(Box::new(Node { point, left: None, right: None, axis }));
                assert(points(r) =~= points(node).insert(point@));
                assert(wf_node(None, next_axis(axis as nat, k as nat), k as nat));
                r
            },
        }
    }

    /// Adds a point. Fails, leaving the tree unchanged, when the embedding's
    /// length differs from the dimensionality, or when the count is full.
    pub fn insert(&mut self, point: Point) -> (r: Result<(), IndexError>)
        requires
            old(self).wf(),
        ensures
            final(self).wf(),
            final(self).k == old(self).k,
            point.embedding@.len() != old(self).k ==> r == Err::<(), IndexError>(
                IndexError::DimensionMismatch,
            ),
            point.embedding@.len() == old(self).k && old(self)@.len() == usize::MAX ==> r == Err::<
                (),
                IndexError,
            >(IndexError::CapacityExceeded),
            point.embedding@.len() == old(self).k && old(self)@.len() < usize::MAX ==> r is Ok,
            r is Ok ==> final(self)@ == old(self)@.insert(point@),
            r is Ok ==> final(self).root == descend_insert(old(self).root, point, 0, old(self).k),
            r is Err ==> *final(self) == *old(self),
    {
        if point.len() != self.k {
            return Err(IndexError::DimensionMismatch);
        }
        if self.size == usize::MAX {
            return Err(IndexError::CapacityExceeded);
        }
        self.root = KDTree::insert_recursive(self.root.take(), point, 0, self.k);
        self.size = self.size + 1;
        Ok(())
    }

    fn nearest_recursive(
        node: &Option<Box<Node>>,
        target: &Point,
        k: usize,
        axis: Ghost<nat>,
        best: &mut Option<(u128, Point)>,
    )
        requires
            wf_node(*node, axis@, k as nat),
            target.embedding@.len() == k,
            best_ok(*old(best), target.embedding@),
        ensures
            best_ok(*final(best), target.embedding@),
            (*final(best)) is None <==> ((*old(best)) is None && points(*node).len() == 0),
            (*final(best)) is Some ==> (*final(best) == *old(best) || points(*node).contains(
                final(best).unwrap().1@,
            )),
            (*old(best)) is Some ==> final(best).unwrap().0 <= old(best).unwrap().0,
            (*old(best)) is Some && *final(best) != *old(best) ==> final(best).unwrap().0 < old(
                best,
            ).unwrap().0,
            (*final(best)) is Some ==> forall|q: PointView| #[trigger]
                points(*node).contains(q) ==> final(best).unwrap().0 <= sq_dist(
                    q.embedding,
                    target.embedding@,
                ),
        decreases *node,
    {
        if let Some(current) = node {
            let ghost t = target.embedding@;
            let ghost nxt = next_axis(axis@, k as nat);
            let ghost start = *best;
            let a = current.axis;
            let p = &current.point;
            let dist = squared_distance(&p.embedding, &target.embedding);
            if beats(best, dist) {
                *best = Some((dist, p.duplicate()));
            }
            let ghost mid = *best;
            let ta = target.embedding[a];
            let pa = p.embedding[a];
            let near_left = ta < pa;
            let (near, far) = if near_left {
                (&current.left, &current.right)
            } else {
                (&current.right, &current.left)
            };
            KDTree::nearest_recursive(near, target, k, Ghost(nxt), best);
            let ghost after_near = *best;
            let gap = axis_gap(ta, pa);
            if beats(best, gap) {
                KDTree::nearest_recursive(far, target, k, Ghost(nxt), best);
            } else {
                proof {
                    lemma_far_side(*current, axis@, k as nat, t);
                }
            }
            proof {
                let fin = *best;
                assert(points(*node) == points(current.left).add(points(current.right)).insert(
                    p@,
                ));
                assert forall|q: PointView| #[trigger] points(*node).contains(q) implies fin.unwrap().0
                    <= sq_dist(q.embedding, t) by {
                    if q != p@ {
                        assert(points(current.left).add(points(current.right)).contains(q));
                        if points(current.left).contains(q) {
                        } else {
                            assert(points(current.right).contains(q));
                        }
                    }
                }
                assert(points(*node).len() > 0);
                if fin is Some && fin != start {
                    if fin == mid && mid != start {
                        assert(points(*node).contains(p@));
                    } else if fin == after_near {
                        assert(points(*near).contains(fin.unwrap().1@));
                    } else {
                        assert(points(*far).contains(fin.unwrap().1@));
                    }
                }
            }
        }
    }

    /// The stored point nearest to `target`, or `None` for an empty tree.
    /// Among equally near points, the first one the search reaches is kept.
    pub fn nearest_neighbor(&self, target: &Point) -> (r: Option<Point>)
        requires
            self.wf(),
            target.embedding@.len() == self.k,
        ensures
            r is None <==> self@.len() == 0,
            r is Some ==> self@.contains(r.unwrap()@),
            r is Some ==> forall|q: PointView| #[trigger]
                self@.contains(q) ==> sq_dist(r.unwrap().embedding@, target.embedding@) <= sq_dist(
                    q.embedding,
                    target.embedding@,
                ),
    {
        let mut best: Option<(u128, Point)> = None;
        KDTree::nearest_recursive(&self.root, target, self.k, Ghost(0), &mut best);
        match best {
            None => None,
            Some(b) => Some(b.1),
        }
    }

    fn nearest_recursive_n(
        node: &Option<Box<Node>>,
        target: &Point,
        k: usize,
        n: usize,
        axis: Ghost<nat>,
        cands: &mut Vec<(u128, Point)>,
        out: Ghost<Multiset<PointView>>,
    ) -> (out2: Ghost<Multiset<PointView>>)
        requires
            wf_node(*node, axis@, k as nat),
            target.embedding@.len() == k,
            n > 0,
            cands_ok(old(cands)@, out@, target.embedding@, n as nat),
        ensures
            cands_ok(final(cands)@, out2@, target.embedding@, n as nat),
            cand_points(final(cands)@).to_multiset().add(out2@) == cand_points(old(cands)@).to_multiset().add(
                out@,
            ).add(points(*node)),
        decreases *node,
    {
        match node {
            None => {
                assert(cand_points(cands@).to_multiset().add(out@) =~= cand_points(cands@).to_multiset().add(
                    out@,
                ).add(points(*node)));
                out
            },
            Some(current) => {
                let ghost t = target.embedding@;
                let ghost nxt = next_axis(axis@, k as nat);
                let ghost c0 = cands@;
                let a = current.axis;
                let p = &current.point;
                let dist = squared_distance(&p.embedding, &target.embedding);
                let out1 = offer(cands, dist, p, n, Ghost(t), out);
                let ta = target.embedding[a];
                let pa = p.embedding[a];
                let (near, far) = if ta < pa {
                    (&current.left, &current.right)
                } else {
                    (&current.right, &current.left)
                };
                let out2 = KDTree::nearest_recursive_n(near, target, k, n, Ghost(nxt), cands, out1);
                let gap = axis_gap(ta, pa);
                let visit = cands.len() < n || gap < cands[cands.len() - 1].0;
                let out3 = if visit {
                    KDTree::nearest_recursive_n(far, target, k, n, Ghost(nxt), cands, out2)
                } else {
                    proof {
                        lemma_far_side(*current, axis@, k as nat, t);
                        lemma_points_dim(*far, nxt, k as nat);
                    }
                    let out3 = Ghost(out2@.add(points(*far)));
                    assert forall|q: PointView| #[trigger] out3@.contains(q) implies forall|j: int|
                        0 <= j < cands@.len() ==> cands@[j].0 <= sq_dist(q.embedding, t) by {
                        if !out2@.contains(q) {
                            assert(points(*far).contains(q));
                            assert forall|j: int| 0 <= j < cands@.len() implies cands@[j].0 <= sq_dist(
                                q.embedding,
                                t,
                            ) by {
                                assert(cands@[j].0 <= cands@[cands@.len() - 1].0);
                            }
                        }
                    }
                    assert(cand_points(cands@).to_multiset().add(out3@) =~= cand_points(
                        cands@,
                    ).to_multiset().add(out2@).add(points(*far)));
                    out3
                };
                assert(points(*node) =~= points(*near).add(points(*far)).insert(p@));
                assert(cand_points(cands@).to_multiset().add(out3@) =~= cand_points(c0).to_multiset().add(
                    out@,
                ).add(points(*node)));
                out3
            },
        }
    }

    /// Up to `n` stored points in ascending order of distance to `target`;
    /// `None` when that would be no point at all (`n` is zero or the tree is
    /// empty). The far side of a node's splitting plane is searched unless
    /// `n` candidates are already held and the plane is no nearer than the
    /// last of them. Among equally near points, those the search reaches
    /// first are kept and listed first.
    pub fn nearest_neighbors_topn(&self, target: &Point, n: usize) -> (r: Option<Vec<Point>>)
        requires
            self.wf(),
            target.embedding@.len() == self.k,
        ensures
            r is None <==> (n == 0 || self@.len() == 0),
            r is Some ==> is_top_n(
                r.unwrap()@.map_values(|p: Point| p@),
                self@,
                target.embedding@,
                n as nat,
            ),
    {
        broadcast use vstd::seq_lib::group_to_multiset_ensures;

        if n == 0 {
            return None;
        }
        let mut cands: Vec<(u128, Point)> = Vec::new();
        let ghost t = target.embedding@;
        let out = KDTree::nearest_recursive_n(
            &self.root,
            target,
            self.k,
            n,
            Ghost(0),
            &mut cands,
            Ghost(Multiset::empty()),
        );
        assert(cand_points(cands@).to_multiset().add(out@) =~= self@);
        if cands.len() == 0 {
            return None;
        }
        let mut result: Vec<Point> = Vec::new();
        let mut i: usize = 0;
        while i < cands.len()
            invariant
                i <= cands@.len(),
                result@.len() == i,
                forall|j: int| 0 <= j < i ==> #[trigger] result@[j]@ == cands@[j].1@,
            decreases cands@.len() - i,
        {
            result.push(cands[i].1.duplicate());
            i = i + 1;
        }
        let ghost rv = result@.map_values(|p: Point| p@);
        assert(rv =~= cand_points(cands@));
        assert(is_top_n(rv, self@, t, n as nat)) by {
            let m = cand_points(cands@).to_multiset();
            assert(m.len() == cands@.len());
            assert forall|q: PointView| #[trigger]
                self@.count(q) > rv.to_multiset().count(q) implies forall|j: int|
                0 <= j < rv.len() ==> sq_dist(#[trigger] rv[j].embedding, t) <= sq_dist(
                    q.embedding,
                    t,
                ) by {
                assert(out@.contains(q));
                assert forall|j: int| 0 <= j < rv.len() implies sq_dist(
                    #[trigger] rv[j].embedding,
                    t,
                ) <= sq_dist(q.embedding, t) by {
                    assert(rv[j] == cands@[j].1@);
                }
            }
            assert forall|i: int, j: int| 0 <= i < j < rv.len() implies sq_dist(
                #[trigger] rv[i].embedding,
                t,
            ) <= sq_dist(#[trigger] rv[j].embedding, t) by {
                assert(rv[i] == cands@[i].1@);
                assert(rv[j] == cands@[j].1@);
            }
        }
        Some(result)
    }
}

} // verus!

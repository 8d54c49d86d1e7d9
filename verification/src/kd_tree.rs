//! A k-d tree: a spatial index over K-dimensional integer points.
//!
//! The tree stores points of type `[i64; K]` and supports exact membership
//! tests, incremental insertion and removal, bulk construction by median
//! splitting, and branch-and-bound nearest-neighbor queries with squared
//! Euclidean distances.
//!
//! Every node at depth `d` splits on axis `d mod K`: points in its left
//! subtree are strictly smaller on that axis, points in its right subtree are
//! greater or equal on that axis and never an exact duplicate of the node's
//! own point. This invariant is what search, insert, delete and the
//! nearest-neighbor pruning rely on.

use vstd::prelude::*;
use vstd::multiset::Multiset;

verus! {

broadcast use
    vstd::multiset::group_multiset_axioms,
    vstd::array::group_array_axioms,
    vstd::seq_lib::group_to_multiset_ensures,
    vstd::seq_lib::lemma_multiset_commutative;

/// The split axis of the children of a node that splits on `axis`, in a tree
/// of dimensionality `k`: axes cycle round-robin through `0 .. k`.
pub open spec fn next_axis(axis: int, k: int) -> int {
    if axis + 1 == k {
        0
    } else {
        axis + 1
    }
}

/// Internal node of a `KDTree`: one point of payload plus two optional,
/// exclusively owned subtrees.
struct KDNode<const K: usize> {
    point: [i64; K],
    left: Option<Box<KDNode<K>>>,
    right: Option<Box<KDNode<K>>>,
}

impl<const K: usize> KDNode<K> {
    /// The multiset of points stored in the subtree rooted at this node.
    spec fn ms(self) -> Multiset<Seq<i64>>
        decreases self,
    {
        Self::ms_opt(self.left).add(Self::ms_opt(self.right)).insert(self.point@)
    }

    /// The multiset of points stored in an optional subtree.
    spec fn ms_opt(node: Option<Box<KDNode<K>>>) -> Multiset<Seq<i64>>
        decreases node,
    {
        match node {
            None => Multiset::empty(),
            Some(n) => n.ms(),
        }
    }

    /// The axis-cycling partition invariant for a subtree whose root splits
    /// on `axis`: left descendants are strictly below the root's coordinate
    /// on `axis`, right descendants are at or above it and never duplicate
    /// the root's point, and both subtrees satisfy the same invariant on the
    /// next axis in the cycle.
    spec fn wf(self, axis: int) -> bool
        decreases self,
    {
        &&& (forall|p: Seq<i64>|
            Self::ms_opt(self.left).contains(p) ==> p[axis] < self.point@[axis])
        &&& (forall|p: Seq<i64>|
            Self::ms_opt(self.right).contains(p) ==> p[axis] >= self.point@[axis]
                && p != self.point@)
        &&& (match self.left {
            Some(l) => l.wf(next_axis(axis, K as int)),
            None => true,
        })
        &&& (match self.right {
            Some(r) => r.wf(next_axis(axis, K as int)),
            None => true,
        })
    }

    /// The partition invariant for an optional subtree.
    spec fn wf_opt(node: Option<Box<KDNode<K>>>, axis: int) -> bool {
        match node {
            None => true,
            Some(n) => n.wf(axis),
        }
    }

    /// Create a new leaf node from a given point.
    fn new(point: [i64; K]) -> (node: Self)
        ensures
            node.ms() == Multiset::<Seq<i64>>::empty().insert(point@),
            forall|axis: int| node.wf(axis),
    {
        let node = KDNode { point, left: None, right: None };
        proof {
            assert(node.ms() =~= Multiset::<Seq<i64>>::empty().insert(point@));
        }
        node
    }
}

/// A k-d tree: a `root` owning the whole subtree, and `size`, the number of
/// points currently stored.
pub struct KDTree<const K: usize> {
    root: Option<Box<KDNode<K>>>,
    size: usize,
}

impl<const K: usize> View for KDTree<K> {
    type V = Multiset<Seq<i64>>;

    /// A tree is abstractly the multiset of the points it stores. Duplicate
    /// points are never both stored by `insert`, but bulk `build` keeps
    /// whatever the input holds, so a multiset is the honest model.
    closed spec fn view(&self) -> Multiset<Seq<i64>> {
        KDNode::ms_opt(self.root)
    }
}

impl<const K: usize> KDTree<K> {
    /// Well-formedness: the axis-cycling invariant holds from the root (which
    /// splits on axis 0) and `size` counts the stored points exactly.
    pub closed spec fn wf(self) -> bool {
        &&& KDNode::wf_opt(self.root, 0)
        &&& self.size == KDNode::ms_opt(self.root).len()
    }

    /// Create an empty k-d tree.
    pub fn new() -> (tree: Self)
        ensures
            tree.wf(),
            tree@ == Multiset::<Seq<i64>>::empty(),
    {
        KDTree { root: None, size: 0 }
    }

    /// Whether the given point is stored in the tree: true exactly when some
    /// stored point matches it on all K coordinates.
    pub fn contains(&self, point: &[i64; K]) -> (found: bool)
        requires
            0 < K,
            self.wf(),
        ensures
            found == self@.contains(point@),
    {
        search_rec(&self.root, point, 0)
    }

    /// Insert a point: true when the point was absent and has been added,
    /// false when an exact duplicate was already stored and nothing changed.
    pub fn insert(&mut self, point: [i64; K]) -> (inserted: bool)
        requires
            0 < K,
            old(self).wf(),
            old(self)@.len() < usize::MAX,
        ensures
            final(self).wf(),
            inserted == !old(self)@.contains(point@),
            final(self)@ == if inserted {
                old(self)@.insert(point@)
            } else {
                old(self)@
            },
            final(self)@.len() == if inserted {
                old(self)@.len() + 1
            } else {
                old(self)@.len()
            },
    {
        let inserted: bool = insert_rec(&mut self.root, point, 0);
        if inserted {
            self.size = self.size + 1;
        }
        inserted
    }

    /// Delete a point: true when the point was stored and has been removed,
    /// false when it was absent and nothing changed.
    pub fn delete(&mut self, point: &[i64; K]) -> (deleted: bool)
        requires
            0 < K,
            old(self).wf(),
        ensures
            final(self).wf(),
            deleted == old(self)@.contains(point@),
            final(self)@ == if deleted {
                old(self)@.remove(point@)
            } else {
                old(self)@
            },
            deleted ==> final(self)@.len() == old(self)@.len() - 1,
            !deleted ==> final(self)@.len() == old(self)@.len(),
    {
        let deleted: bool = delete_rec(&mut self.root, point, 0);
        if deleted {
            self.size = self.size - 1;
        }
        deleted
    }

    /// The `n` nearest stored points to a query point, by squared Euclidean
    /// distance, as `(distance, point)` pairs: exactly `min(n, len)` entries,
    /// each a distinct stored point paired with its squared distance to the
    /// query, and every stored point left out lies at least as far from the
    /// query as every reported entry. The order of the entries reflects
    /// traversal and replacement order, not sorted distance order.
    pub fn nearest_neighbors(&self, point: &[i64; K], n: usize) -> (neighbors: Vec<
        (i64, [i64; K]),
    >)
        requires
            0 < K,
            K <= MAX_DIM,
            self.wf(),
            fits(point@),
            all_fit(self@),
        ensures
            neighbors@.len() == vstd::math::min(n as int, self@.len() as int),
            forall|j: int| 0 <= j < neighbors@.len()
                ==> self@.contains(#[trigger] neighbors@[j].1@)
                && neighbors@[j].0 == sq_dist(neighbors@[j].1@, point@),
            entries_distinct(neighbors@),
            forall|p: Seq<i64>| self@.contains(p) ==> covered(neighbors@, point@, p, n as int),
    {
        let mut neighbors: Vec<(i64, [i64; K])> = Vec::new();
        n_nearest_neighbors(&self.root, point, n, 0, &mut neighbors);
        neighbors
    }

    /// Build a tree from a collection of points by recursive median
    /// splitting: the stored points are exactly the input points (duplicates
    /// included, if the input holds any) and the reported length equals the
    /// input length. The tree is balanced in point count per subtree.
    ///
    /// The partition invariant that `contains`, `insert` and `delete` rely
    /// on is guaranteed only when no two input points share a coordinate on
    /// any axis: a tie on a split coordinate can place an equal-valued point
    /// on the wrong side of the median for the strict comparison rule, and a
    /// point so placed is not found by the search descent.
    pub fn build(points: Vec<[i64; K]>) -> (tree: KDTree<K>)
        requires
            0 < K,
        ensures
            tree@ == points_view(points@).to_multiset(),
            tree@.len() == points@.len(),
            forall|i: int| 0 <= i < points@.len() ==> tree@.contains(#[trigger] points@[i]@),
            points@.len() == 0 ==> tree.wf(),
            distinct_on_all_axes(points@) ==> tree.wf(),
    {
        let mut tree: KDTree<K> = KDTree::new();
        proof {
            if points@.len() == 0 {
                assert(points_view(points@).to_multiset() =~= Multiset::<Seq<i64>>::empty());
            }
            assert forall|i: int| 0 <= i < points@.len()
                implies points_view(points@).to_multiset().contains(#[trigger] points@[i]@) by {
                assert(points_view(points@)[i] == points@[i]@);
                assert(points_view(points@).contains(points@[i]@));
            }
        }
        if points.is_empty() {
            tree
        } else {
            tree.size = points.len();
            tree.root = build_rec(points, 0);
            tree
        }
    }

    /// The number of points stored in the tree.
    pub fn len(&self) -> (n: usize)
        requires
            self.wf(),
        ensures
            n == self@.len(),
    {
        self.size
    }

    /// Whether the tree stores no points at all.
    pub fn is_empty(&self) -> (empty: bool)
        requires
            self.wf(),
        ensures
            empty == (self@.len() == 0),
    {
        proof {
            if let Some(n) = &self.root {
                assert(KDNode::ms_opt(self.root).contains(n.point@));
            }
        }
        self.root.is_none()
    }
}

impl<const K: usize> Default for KDTree<K> {
    /// An empty tree.
    fn default() -> (tree: Self)
        ensures
            tree.wf(),
            tree@ == Multiset::<Seq<i64>>::empty(),
    {
        Self::new()
    }
}

// Laws .......................................................................

/// A point not currently stored is inserted: `insert` reports success, the
/// length grows by one, and the point is stored afterwards, so that an
/// immediate second `insert` of the same point reports a duplicate and, by
/// the contract of `insert`, leaves the tree unchanged.
pub proof fn lemma_insert_then_reinsert<const K: usize>(
    tree: KDTree<K>,
    after: KDTree<K>,
    p: [i64; K],
)
    requires
        tree.wf(),
        !tree@.contains(p@),
        after@ == tree@.insert(p@),
    ensures
        after@.contains(p@),
        after@.len() == tree@.len() + 1,
{
}

/// A stored point is deleted: `delete` reports success, the length shrinks
/// by one, and the point is no longer stored afterwards — `contains` turns
/// false and a second `delete` of the same point reports failure and, by the
/// contract of `delete`, leaves the tree unchanged. That no copy is left
/// behind rests on the partition invariant: a well-formed tree never stores
/// a point twice.
pub proof fn lemma_delete_then_redelete<const K: usize>(
    tree: KDTree<K>,
    after: KDTree<K>,
    p: [i64; K],
)
    requires
        0 < K,
        tree.wf(),
        tree@.contains(p@),
        after@ == tree@.remove(p@),
    ensures
        !after@.contains(p@),
        after@.len() == tree@.len() - 1,
{
    lemma_wf_opt_distinct(tree.root, 0);
    assert(tree@.count(p@) <= 1);
}

/// A neighbor collection that accounts for a stored point, as
/// `nearest_neighbors` guarantees for every stored point, reports it
/// whenever the point lies strictly nearer to the query than some kept
/// entry: the reported entries are the nearest stored points.
pub proof fn lemma_closer_points_are_reported<const K: usize>(
    result: Seq<(i64, [i64; K])>,
    q: [i64; K],
    n: int,
    p: Seq<i64>,
    j: int,
)
    requires
        covered(result, q@, p, n),
        0 <= j < result.len(),
        sq_dist(p, q@) < result[j].0,
    ensures
        in_entries(result, p),
{
}

/// A well-formed tree stores each point at most once.
pub proof fn lemma_stored_points_distinct<const K: usize>(tree: KDTree<K>, p: [i64; K])
    requires
        0 < K,
        tree.wf(),
    ensures
        tree@.count(p@) <= 1,
{
    lemma_wf_opt_distinct(tree.root, 0);
}

// Helper functions ...........................................................

/// Exact comparison of two points, coordinate by coordinate.
fn points_eq<const K: usize>(a: &[i64; K], b: &[i64; K]) -> (eq: bool)
    ensures
        eq == (a@ == b@),
{
    let mut i: usize = 0;
    while i < K
        invariant
            0 <= i <= K,
            forall|j: int| 0 <= j < i ==> a@[j] == b@[j],
        decreases K - i,
    {
        if a[i] != b[i] {
            return false;
        }
        i += 1;
    }
    proof {
        assert(a@ =~= b@);
    }
    true
}

/// Recursively search for a given point in a subtree whose root splits on
/// `axis`: an exact match ends the search, otherwise the axis-cycling rule
/// picks the single child that could hold the point.
fn search_rec<const K: usize>(
    kd_tree: &Option<Box<KDNode<K>>>,
    point: &[i64; K],
    axis: usize,
) -> (found: bool)
    requires
        0 < K,
        axis < K,
        KDNode::wf_opt(*kd_tree, axis as int),
    ensures
        found == KDNode::ms_opt(*kd_tree).contains(point@),
    decreases kd_tree,
{
    match kd_tree {
        None => false,
        Some(kd_node) => {
            if points_eq(point, &kd_node.point) {
                true
            } else {
                let next: usize = if axis + 1 == K {
                    0
                } else {
                    axis + 1
                };
                if point[axis] < kd_node.point[axis] {
                    proof {
                        assert(!KDNode::ms_opt(kd_node.right).contains(point@));
                    }
                    search_rec(&kd_node.left, point, next)
                } else {
                    proof {
                        assert(!KDNode::ms_opt(kd_node.left).contains(point@));
                    }
                    search_rec(&kd_node.right, point, next)
                }
            }
        },
    }
}

/// Recursively insert a point in a subtree whose root splits on `axis`,
/// descending by the axis-cycling rule and placing a new leaf in the first
/// absent slot; an exact duplicate is rejected without mutation.
fn insert_rec<const K: usize>(
    kd_tree: &mut Option<Box<KDNode<K>>>,
    point: [i64; K],
    axis: usize,
) -> (inserted: bool)
    requires
        0 < K,
        axis < K,
        KDNode::wf_opt(*old(kd_tree), axis as int),
    ensures
        KDNode::wf_opt(*final(kd_tree), axis as int),
        inserted == !KDNode::ms_opt(*old(kd_tree)).contains(point@),
        KDNode::ms_opt(*final(kd_tree)) == if inserted {
            KDNode::ms_opt(*old(kd_tree)).insert(point@)
        } else {
            KDNode::ms_opt(*old(kd_tree))
        },
    decreases *old(kd_tree),
{
    match kd_tree.take() {
        None => {
            let node = KDNode::new(point);
            *kd_tree = Some(Box::new(node));
            proof {
                assert(KDNode::ms_opt(*kd_tree) =~= KDNode::ms_opt(
                    *old(kd_tree),
                ).insert(point@));
            }
            true
        },
        Some(mut kd_node) => {
            let ghost old_node = *kd_node;
            let next: usize = if axis + 1 == K {
                0
            } else {
                axis + 1
            };
            let inserted: bool;
            if point[axis] < kd_node.point[axis] {
                proof {
                    assert(!KDNode::ms_opt(kd_node.right).contains(point@));
                }
                inserted = insert_rec(&mut kd_node.left, point, next);
                proof {
                    assert forall|p: Seq<i64>|
                        KDNode::ms_opt(kd_node.left).contains(p)
                            implies p[axis as int] < kd_node.point@[axis as int] by {
                        if p != point@ {
                            assert(KDNode::ms_opt(old_node.left).contains(p));
                        }
                    }
                    assert(kd_node.wf(axis as int));
                    if inserted {
                        assert(kd_node.ms() =~= old_node.ms().insert(point@));
                    } else {
                        assert(kd_node.ms() =~= old_node.ms());
                    }
                }
            } else if points_eq(&point, &kd_node.point) {
                inserted = false;
                proof {
                    assert(kd_node.ms().contains(point@));
                }
            } else {
                proof {
                    assert(!KDNode::ms_opt(kd_node.left).contains(point@));
                }
                inserted = insert_rec(&mut kd_node.right, point, next);
                proof {
                    assert forall|p: Seq<i64>|
                        KDNode::ms_opt(kd_node.right).contains(p)
                            implies p[axis as int] >= kd_node.point@[axis as int]
                            && p != kd_node.point@ by {
                        if p != point@ {
                            assert(KDNode::ms_opt(old_node.right).contains(p));
                        }
                    }
                    assert(kd_node.wf(axis as int));
                    if inserted {
                        assert(kd_node.ms() =~= old_node.ms().insert(point@));
                    } else {
                        assert(kd_node.ms() =~= old_node.ms());
                    }
                }
            }
            *kd_tree = Some(kd_node);
            inserted
        },
    }
}

/// No point is stored twice in a subtree that satisfies the partition
/// invariant: the left and right subtrees are separated on the split axis,
/// and the root's point is excluded from both.
proof fn lemma_wf_distinct<const K: usize>(node: KDNode<K>, axis: int)
    requires
        0 <= axis < K,
        node.wf(axis),
    ensures
        forall|p: Seq<i64>| #[trigger] node.ms().count(p) <= 1,
    decreases node,
{
    let nx = next_axis(axis, K as int);
    if let Some(l) = node.left {
        lemma_wf_distinct(*l, nx);
    }
    if let Some(r) = node.right {
        lemma_wf_distinct(*r, nx);
    }
    assert forall|p: Seq<i64>| #[trigger] node.ms().count(p) <= 1 by {
        let lc = KDNode::ms_opt(node.left).count(p);
        let rc = KDNode::ms_opt(node.right).count(p);
        if lc > 0 {
            assert(KDNode::ms_opt(node.left).contains(p));
        }
        if rc > 0 {
            assert(KDNode::ms_opt(node.right).contains(p));
        }
        if let Some(l) = node.left {
            assert(lc == l.ms().count(p));
        }
        if let Some(r) = node.right {
            assert(rc == r.ms().count(p));
        }
    };
}

/// No point is stored twice in an optional subtree that satisfies the
/// partition invariant.
proof fn lemma_wf_opt_distinct<const K: usize>(node: Option<Box<KDNode<K>>>, axis: int)
    requires
        0 <= axis < K,
        KDNode::wf_opt(node, axis),
    ensures
        forall|p: Seq<i64>| #[trigger] KDNode::ms_opt(node).count(p) <= 1,
{
    if let Some(n) = node {
        lemma_wf_distinct(*n, axis);
        assert forall|p: Seq<i64>| #[trigger] KDNode::ms_opt(node).count(p) <= 1 by {
            assert(KDNode::ms_opt(node).count(p) == n.ms().count(p));
        };
    }
}

/// Returns the point with the minimum coordinate on `axis` among a node's
/// own point and the optional minima found in its two subtrees.
fn min_node_on_axis<const K: usize>(
    point: [i64; K],
    left: Option<[i64; K]>,
    right: Option<[i64; K]>,
    axis: usize,
) -> (m: [i64; K])
    requires
        axis < K,
    ensures
        m == point || Some(m) == left || Some(m) == right,
        m@[axis as int] <= point@[axis as int],
        left.is_some() ==> m@[axis as int] <= left.unwrap()@[axis as int],
        right.is_some() ==> m@[axis as int] <= right.unwrap()@[axis as int],
{
    let mut current_min: [i64; K] = point;
    if let Some(left_point) = left {
        if left_point[axis] < current_min[axis] {
            current_min = left_point;
        }
    }
    if let Some(right_point) = right {
        if right_point[axis] < current_min[axis] {
            current_min = right_point;
        }
    }
    current_min
}

/// Returns the point with the minimum coordinate on `axis` within a subtree
/// whose root splits on `node_axis`, or `None` for an empty subtree. When
/// the root's own split axis equals the target axis, only the left subtree
/// can hold smaller values; otherwise both subtrees are searched.
fn min_node<const K: usize>(
    kd_tree: &Option<Box<KDNode<K>>>,
    axis: usize,
    node_axis: usize,
) -> (m: Option<[i64; K]>)
    requires
        0 < K,
        axis < K,
        node_axis < K,
        KDNode::wf_opt(*kd_tree, node_axis as int),
    ensures
        m.is_some() == kd_tree.is_some(),
        m.is_some() ==> KDNode::ms_opt(*kd_tree).contains(m.unwrap()@),
        m.is_some() ==> forall|q: Seq<i64>|
            KDNode::ms_opt(*kd_tree).contains(q) ==> m.unwrap()@[axis as int] <= q[axis as int],
    decreases kd_tree,
{
    match kd_tree {
        None => None,
        Some(current_node) => {
            let next: usize = if node_axis + 1 == K {
                0
            } else {
                node_axis + 1
            };
            if node_axis == axis {
                if current_node.left.is_some() {
                    let m = min_node(&current_node.left, axis, next);
                    proof {
                        let mp = m.unwrap()@;
                        assert(KDNode::ms_opt(current_node.left).contains(mp));
                        assert forall|q: Seq<i64>|
                            KDNode::ms_opt(*kd_tree).contains(q)
                                implies mp[axis as int] <= q[axis as int] by {
                            if KDNode::ms_opt(current_node.left).contains(q) {
                            } else if KDNode::ms_opt(current_node.right).contains(q) {
                                assert(mp[axis as int] < current_node.point@[axis as int]);
                            } else {
                                assert(q == current_node.point@);
                                assert(mp[axis as int] < current_node.point@[axis as int]);
                            }
                        }
                    }
                    m
                } else {
                    proof {
                        assert forall|q: Seq<i64>|
                            KDNode::ms_opt(*kd_tree).contains(q)
                                implies current_node.point@[axis as int] <= q[axis as int] by {
                            if KDNode::ms_opt(current_node.right).contains(q) {
                            } else {
                                assert(!KDNode::ms_opt(current_node.left).contains(q));
                                assert(q == current_node.point@);
                            }
                        }
                    }
                    Some(current_node.point)
                }
            } else {
                let left_min = min_node(&current_node.left, axis, next);
                let right_min = min_node(&current_node.right, axis, next);
                let m = min_node_on_axis(current_node.point, left_min, right_min, axis);
                proof {
                    if Some(m) == left_min {
                        assert(KDNode::ms_opt(current_node.left).contains(m@));
                    } else if Some(m) == right_min {
                        assert(KDNode::ms_opt(current_node.right).contains(m@));
                    }
                    assert(KDNode::ms_opt(*kd_tree).contains(m@));
                    assert forall|q: Seq<i64>|
                        KDNode::ms_opt(*kd_tree).contains(q)
                            implies m@[axis as int] <= q[axis as int] by {
                        if KDNode::ms_opt(current_node.left).contains(q) {
                            assert(left_min.is_some());
                            assert(left_min.unwrap()@[axis as int] <= q[axis as int]);
                        } else if KDNode::ms_opt(current_node.right).contains(q) {
                            assert(right_min.is_some());
                            assert(right_min.unwrap()@[axis as int] <= q[axis as int]);
                        } else {
                            assert(q == current_node.point@);
                        }
                    }
                }
                Some(m)
            }
        },
    }
}

/// Recursively delete a point from a subtree whose root splits on `axis`.
/// Descent follows the axis-cycling rule; when the target node is found, its
/// payload is replaced by the subtree minimum on the current axis taken from
/// the right subtree (the left subtree moving over to the right side when
/// only it exists), and that minimum is in turn deleted below; a leaf is
/// detached outright.
#[verifier::rlimit(50)]
fn delete_rec<const K: usize>(
    kd_node: &mut Option<Box<KDNode<K>>>,
    point: &[i64; K],
    axis: usize,
) -> (deleted: bool)
    requires
        0 < K,
        axis < K,
        KDNode::wf_opt(*old(kd_node), axis as int),
    ensures
        KDNode::wf_opt(*final(kd_node), axis as int),
        deleted == KDNode::ms_opt(*old(kd_node)).contains(point@),
        KDNode::ms_opt(*final(kd_node)) == if deleted {
            KDNode::ms_opt(*old(kd_node)).remove(point@)
        } else {
            KDNode::ms_opt(*old(kd_node))
        },
    decreases *old(kd_node),
{
    match kd_node.take() {
        None => false,
        Some(mut current_node) => {
            let ghost old_node = *current_node;
            let next: usize = if axis + 1 == K {
                0
            } else {
                axis + 1
            };
            if points_eq(&current_node.point, point) {
                if current_node.right.is_some() {
                    proof {
                        lemma_wf_opt_distinct(old_node.right, next as int);
                    }
                    let min_opt = min_node(&current_node.right, axis, next);
                    let min_point = min_opt.unwrap();
                    current_node.point = min_point;
                    let deleted_below = delete_rec(&mut current_node.right, &min_point, next);
                    proof {
                        assert(deleted_below);
                        assert forall|q: Seq<i64>|
                            KDNode::ms_opt(current_node.left).contains(q)
                                implies q[axis as int] < min_point@[axis as int] by {
                            assert(q[axis as int] < old_node.point@[axis as int]);
                            assert(min_point@[axis as int] >= old_node.point@[axis as int]);
                        }
                        assert forall|q: Seq<i64>|
                            KDNode::ms_opt(current_node.right).contains(q)
                                implies q[axis as int] >= min_point@[axis as int]
                                && q != min_point@ by {
                            assert(KDNode::ms_opt(old_node.right).count(q)
                                == KDNode::ms_opt(current_node.right).count(q) + (
                            if q == min_point@ {
                                1int
                            } else {
                                0int
                            }));
                            assert(KDNode::ms_opt(old_node.right).contains(q));
                            assert(KDNode::ms_opt(old_node.right).count(min_point@) <= 1);
                        }
                        assert(current_node.wf(axis as int));
                        assert(current_node.ms() =~= old_node.ms().remove(point@));
                    }
                    *kd_node = Some(current_node);
                    true
                } else if current_node.left.is_some() {
                    proof {
                        lemma_wf_opt_distinct(old_node.left, next as int);
                    }
                    let min_opt = min_node(&current_node.left, axis, next);
                    let min_point = min_opt.unwrap();
                    current_node.point = min_point;
                    current_node.right = current_node.left.take();
                    let deleted_below = delete_rec(&mut current_node.right, &min_point, next);
                    proof {
                        assert(deleted_below);
                        assert forall|q: Seq<i64>|
                            KDNode::ms_opt(current_node.right).contains(q)
                                implies q[axis as int] >= min_point@[axis as int]
                                && q != min_point@ by {
                            assert(KDNode::ms_opt(old_node.left).count(q)
                                == KDNode::ms_opt(current_node.right).count(q) + (
                            if q == min_point@ {
                                1int
                            } else {
                                0int
                            }));
                            assert(KDNode::ms_opt(old_node.left).contains(q));
                            assert(KDNode::ms_opt(old_node.left).count(min_point@) <= 1);
                        }
                        assert(current_node.wf(axis as int));
                        assert(current_node.ms() =~= old_node.ms().remove(point@));
                    }
                    *kd_node = Some(current_node);
                    true
                } else {
                    proof {
                        assert(KDNode::ms_opt(*old(kd_node)).remove(point@)
                            =~= Multiset::empty());
                    }
                    *kd_node = None;
                    true
                }
            } else if point[axis] < current_node.point[axis] {
                proof {
                    assert(!KDNode::ms_opt(current_node.right).contains(point@));
                }
                let deleted = delete_rec(&mut current_node.left, point, next);
                proof {
                    assert forall|q: Seq<i64>|
                        KDNode::ms_opt(current_node.left).contains(q)
                            implies q[axis as int] < current_node.point@[axis as int] by {
                        assert(KDNode::ms_opt(old_node.left).contains(q));
                    }
                    assert(current_node.wf(axis as int));
                    if deleted {
                        assert(current_node.ms() =~= old_node.ms().remove(point@));
                    } else {
                        assert(current_node.ms() =~= old_node.ms());
                    }
                }
                *kd_node = Some(current_node);
                deleted
            } else {
                proof {
                    assert(!KDNode::ms_opt(current_node.left).contains(point@));
                }
                let deleted = delete_rec(&mut current_node.right, point, next);
                proof {
                    assert forall|q: Seq<i64>|
                        KDNode::ms_opt(current_node.right).contains(q)
                            implies q[axis as int] >= current_node.point@[axis as int]
                            && q != current_node.point@ by {
                        assert(KDNode::ms_opt(old_node.right).contains(q));
                    }
                    assert(current_node.wf(axis as int));
                    if deleted {
                        assert(current_node.ms() =~= old_node.ms().remove(point@));
                    } else {
                        assert(current_node.ms() =~= old_node.ms());
                    }
                }
                *kd_node = Some(current_node);
                deleted
            }
        },
    }
}

// Nearest-neighbor search ....................................................

/// Points used in distance arithmetic keep every coordinate within this
/// magnitude, so that a squared Euclidean distance always fits in an `i64`.
pub const MAX_COORD: i64 = 1_000_000;

/// Upper bound on the dimensionality accepted by distance arithmetic: with
/// coordinates bounded by `MAX_COORD`, the sum of this many squared
/// differences still fits in an `i64`.
pub const MAX_DIM: usize = 1_000_000;

/// Whether every coordinate of a point lies within `MAX_COORD` in magnitude.
pub open spec fn fits(p: Seq<i64>) -> bool {
    forall|i: int| 0 <= i < p.len() ==> -MAX_COORD <= #[trigger] p[i] <= MAX_COORD
}

/// Whether every point of a multiset fits within the coordinate range.
pub open spec fn all_fit(s: Multiset<Seq<i64>>) -> bool {
    forall|p: Seq<i64>| s.contains(p) ==> fits(p)
}

/// The squared Euclidean distance between two points, summed over the first
/// `n` coordinates.
pub open spec fn sq_dist_to(a: Seq<i64>, b: Seq<i64>, n: int) -> int
    decreases n,
{
    if n <= 0 {
        0
    } else {
        sq_dist_to(a, b, n - 1) + (a[n - 1] - b[n - 1]) * (a[n - 1] - b[n - 1])
    }
}

/// The squared Euclidean distance between two points: the sum over all axes
/// of the squared coordinate difference.
pub open spec fn sq_dist(a: Seq<i64>, b: Seq<i64>) -> int {
    sq_dist_to(a, b, a.len() as int)
}

/// A prefix of a squared distance is nonnegative and grows by at most the
/// largest possible squared coordinate difference per axis.
proof fn lemma_sq_dist_to_bounds(a: Seq<i64>, b: Seq<i64>, n: int)
    requires
        0 <= n,
        n <= a.len(),
        n <= b.len(),
        fits(a),
        fits(b),
    ensures
        0 <= sq_dist_to(a, b, n) <= n * 4_000_000_000_000,
    decreases n,
{
    if n > 0 {
        lemma_sq_dist_to_bounds(a, b, n - 1);
        let d = a[n - 1] - b[n - 1];
        assert(-2_000_000 <= d <= 2_000_000);
        assert(0 <= d * d <= 4_000_000_000_000) by (nonlinear_arith)
            requires
                -2_000_000 <= d <= 2_000_000,
        ;
    }
}

/// Squared Euclidean distance between two points.
fn distance<const K: usize>(point_1: &[i64; K], point_2: &[i64; K]) -> (d: i64)
    requires
        K <= MAX_DIM,
        fits(point_1@),
        fits(point_2@),
    ensures
        d == sq_dist(point_1@, point_2@),
        0 <= d,
{
    let mut total: i64 = 0;
    let mut i: usize = 0;
    while i < K
        invariant
            i <= K,
            K <= MAX_DIM,
            fits(point_1@),
            fits(point_2@),
            total == sq_dist_to(point_1@, point_2@, i as int),
            0 <= total <= i as int * 4_000_000_000_000,
        decreases K - i,
    {
        proof {
            lemma_sq_dist_to_bounds(point_1@, point_2@, i as int + 1);
        }
        let diff: i64 = point_1[i] - point_2[i];
        proof {
            assert(0 <= diff * diff <= 4_000_000_000_000) by (nonlinear_arith)
                requires
                    -2_000_000 <= diff <= 2_000_000,
            ;
        }
        total = total + diff * diff;
        i += 1;
    }
    total
}

/// Index of the first entry holding the maximum stored distance in a
/// non-empty neighbor collection.
fn max_dist_index<const K: usize>(neighbors: &Vec<(i64, [i64; K])>) -> (idx: usize)
    requires
        neighbors@.len() > 0,
    ensures
        idx < neighbors@.len(),
        forall|j: int| 0 <= j < neighbors@.len()
            ==> #[trigger] neighbors@[j].0 <= neighbors@[idx as int].0,
        forall|j: int| 0 <= j < idx ==> #[trigger] neighbors@[j].0 < neighbors@[idx as int].0,
{
    let mut idx: usize = 0;
    let mut j: usize = 1;
    while j < neighbors.len()
        invariant
            idx < j <= neighbors@.len(),
            forall|i: int| 0 <= i < j ==> #[trigger] neighbors@[i].0 <= neighbors@[idx as int].0,
            forall|i: int| 0 <= i < idx ==> #[trigger] neighbors@[i].0 < neighbors@[idx as int].0,
        decreases neighbors@.len() - j,
    {
        if neighbors[j].0 > neighbors[idx].0 {
            idx = j;
        }
        j += 1;
    }
    idx
}

/// A prefix of a squared distance is nonnegative.
proof fn lemma_sq_dist_to_nonneg(a: Seq<i64>, b: Seq<i64>, n: int)
    ensures
        0 <= sq_dist_to(a, b, n),
    decreases n,
{
    if n > 0 {
        lemma_sq_dist_to_nonneg(a, b, n - 1);
        let d = a[n - 1] - b[n - 1];
        assert(0 <= d * d) by (nonlinear_arith);
    }
}

/// A squared distance is at least any single squared coordinate difference.
proof fn lemma_sq_dist_term(a: Seq<i64>, b: Seq<i64>, i: int, n: int)
    requires
        0 <= i < n,
    ensures
        sq_dist_to(a, b, n) >= (a[i] - b[i]) * (a[i] - b[i]),
    decreases n,
{
    if i == n - 1 {
        lemma_sq_dist_to_nonneg(a, b, n - 1);
    } else {
        lemma_sq_dist_term(a, b, i, n - 1);
        let d = a[n - 1] - b[n - 1];
        assert(0 <= d * d) by (nonlinear_arith);
    }
}

/// Every point stored in a subtree has exactly K coordinates.
proof fn lemma_ms_points_len<const K: usize>(node: Option<Box<KDNode<K>>>)
    ensures
        forall|p: Seq<i64>| KDNode::ms_opt(node).contains(p) ==> p.len() == K,
    decreases node,
{
    if let Some(n) = node {
        lemma_ms_points_len(n.left);
        lemma_ms_points_len(n.right);
        assert forall|p: Seq<i64>| KDNode::ms_opt(node).contains(p) implies p.len() == K by {
            if KDNode::ms_opt(n.left).contains(p) {
            } else if KDNode::ms_opt(n.right).contains(p) {
            } else {
                assert(p == n.point@);
            }
        }
    }
}

/// Whether some entry of a neighbor collection holds the point `p`.
pub open spec fn in_entries<const K: usize>(s: Seq<(i64, [i64; K])>, p: Seq<i64>) -> bool {
    exists|j: int| 0 <= j < s.len() && #[trigger] s[j].1@ == p
}

/// Whether the point `p` lies at least as far from the query `q` as every
/// entry of the collection.
pub open spec fn farther_than_all<const K: usize>(
    s: Seq<(i64, [i64; K])>,
    q: Seq<i64>,
    p: Seq<i64>,
) -> bool {
    forall|j: int| 0 <= j < s.len() ==> #[trigger] s[j].0 <= sq_dist(p, q)
}

/// Whether the point `p` is accounted for by a neighbor collection limited
/// to `n` entries: reported in it, or no nearer to the query than every kept
/// entry once the collection is full.
pub open spec fn covered<const K: usize>(
    s: Seq<(i64, [i64; K])>,
    q: Seq<i64>,
    p: Seq<i64>,
    n: int,
) -> bool {
    in_entries(s, p) || (s.len() == n && farther_than_all(s, q, p))
}

/// Whether every entry pairs a point with its true squared distance to `q`.
pub open spec fn entries_valid<const K: usize>(s: Seq<(i64, [i64; K])>, q: Seq<i64>) -> bool {
    forall|j: int| 0 <= j < s.len() ==> (#[trigger] s[j]).0 == sq_dist(s[j].1@, q)
}

/// Whether the entries hold pairwise distinct points.
pub open spec fn entries_distinct<const K: usize>(s: Seq<(i64, [i64; K])>) -> bool {
    forall|i: int, j: int|
        #![trigger s[i], s[j]]
        0 <= i < j < s.len() ==> s[i].1@ != s[j].1@
}

/// Whether no entry's point is stored in `m`.
spec fn entries_avoid<const K: usize>(s: Seq<(i64, [i64; K])>, m: Multiset<Seq<i64>>) -> bool {
    forall|j: int| 0 <= j < s.len() ==> !m.contains((#[trigger] s[j]).1@)
}

/// Branch-and-bound nearest-neighbor traversal of a subtree whose root
/// splits on `axis`. Every visited point is added while the collection holds
/// fewer than `n` entries, and afterwards replaces the current worst entry
/// whenever strictly closer; the far child is pruned when the splitting
/// hyperplane already lies at least as far as the current worst entry, which
/// the partition invariant shows is sound: every point of this subtree ends
/// up reported, or no nearer to the query than every kept entry.
#[verifier::rlimit(100)]
fn n_nearest_neighbors<const K: usize>(
    kd_tree: &Option<Box<KDNode<K>>>,
    point: &[i64; K],
    n: usize,
    axis: usize,
    neighbors: &mut Vec<(i64, [i64; K])>,
)
    requires
        0 < K,
        K <= MAX_DIM,
        axis < K,
        fits(point@),
        all_fit(KDNode::ms_opt(*kd_tree)),
        KDNode::wf_opt(*kd_tree, axis as int),
        old(neighbors)@.len() <= n,
        entries_valid(old(neighbors)@, point@),
        entries_distinct(old(neighbors)@),
        entries_avoid(old(neighbors)@, KDNode::ms_opt(*kd_tree)),
    ensures
        final(neighbors)@.len() == vstd::math::min(
            n as int,
            old(neighbors)@.len() + KDNode::ms_opt(*kd_tree).len() as int,
        ),
        forall|j: int| 0 <= j < final(neighbors)@.len()
            ==> old(neighbors)@.contains(#[trigger] final(neighbors)@[j])
            || KDNode::ms_opt(*kd_tree).contains(final(neighbors)@[j].1@),
        entries_valid(final(neighbors)@, point@),
        entries_distinct(final(neighbors)@),
        forall|p: Seq<i64>| KDNode::ms_opt(*kd_tree).contains(p)
            ==> covered(final(neighbors)@, point@, p, n as int),
        forall|p: Seq<i64>| covered(old(neighbors)@, point@, p, n as int)
            ==> covered(final(neighbors)@, point@, p, n as int),
    decreases kd_tree,
{
    match kd_tree {
        None => {},
        Some(kd_node) => {
            let ghost ms_all = KDNode::ms_opt(*kd_tree);
            let ghost q = point@;
            proof {
                assert(ms_all.contains(kd_node.point@));
                assert(ms_all.len() == 1 + KDNode::ms_opt(kd_node.left).len()
                    + KDNode::ms_opt(kd_node.right).len());
                assert(fits(kd_node.point@));
                assert(!in_entries(old(neighbors)@, kd_node.point@)) by {
                    if in_entries(old(neighbors)@, kd_node.point@) {
                        let j = choose|j: int|
                            0 <= j < old(neighbors)@.len()
                                && old(neighbors)@[j].1@ == kd_node.point@;
                        assert(!ms_all.contains(old(neighbors)@[j].1@));
                    }
                }
            }
            let dist = distance(&kd_node.point, point);
            if neighbors.len() < n {
                neighbors.push((dist, kd_node.point));
                proof {
                    assert(neighbors@[neighbors@.len() - 1].1@ == kd_node.point@);
                    assert(in_entries(neighbors@, kd_node.point@));
                    assert(entries_valid(neighbors@, q));
                    assert(entries_distinct(neighbors@));
                    assert forall|p: Seq<i64>|
                        covered(old(neighbors)@, q, p, n as int)
                            implies covered(neighbors@, q, p, n as int) by {
                        if in_entries(old(neighbors)@, p) {
                            let j = choose|j: int|
                                0 <= j < old(neighbors)@.len() && old(neighbors)@[j].1@ == p;
                            assert(neighbors@[j].1@ == p);
                        }
                    }
                }
            } else if n > 0 {
                let max_idx = max_dist_index(neighbors);
                let max_distance = neighbors[max_idx].0;
                if dist < max_distance {
                    let ghost before = neighbors@;
                    neighbors.remove(max_idx);
                    neighbors.insert(max_idx, (dist, kd_node.point));
                    proof {
                        assert(neighbors@ =~= before.update(
                            max_idx as int,
                            (dist, kd_node.point),
                        ));
                        assert(neighbors@[max_idx as int].1@ == kd_node.point@);
                        assert(in_entries(neighbors@, kd_node.point@));
                        assert(entries_valid(neighbors@, q));
                        assert(entries_distinct(neighbors@)) by {
                            assert forall|i1: int, i2: int|
                                #![trigger neighbors@[i1], neighbors@[i2]]
                                0 <= i1 < i2 < neighbors@.len()
                                    implies neighbors@[i1].1@ != neighbors@[i2].1@ by {
                                if i1 != max_idx && i2 != max_idx {
                                    assert(before[i1].1@ != before[i2].1@);
                                } else if i1 == max_idx {
                                    assert(!in_entries(old(neighbors)@, kd_node.point@));
                                    assert(before[i2].1@ != kd_node.point@);
                                } else {
                                    assert(before[i1].1@ != kd_node.point@);
                                }
                            }
                        }
                        assert forall|p: Seq<i64>|
                            covered(before, q, p, n as int)
                                implies covered(neighbors@, q, p, n as int) by {
                            if in_entries(before, p) {
                                let j = choose|j: int|
                                    0 <= j < before.len() && before[j].1@ == p;
                                if j == max_idx {
                                    assert(sq_dist(p, q) == before[j].0);
                                    assert(farther_than_all(neighbors@, q, p));
                                } else {
                                    assert(neighbors@[j].1@ == p);
                                }
                            } else {
                                assert(farther_than_all(neighbors@, q, p));
                            }
                        }
                    }
                } else {
                    proof {
                        assert(sq_dist(kd_node.point@, q) >= neighbors@[max_idx as int].0);
                        assert(farther_than_all(neighbors@, q, kd_node.point@));
                        assert(neighbors@.len() == n);
                        assert(covered(neighbors@, q, kd_node.point@, n as int));
                    }
                }
            } else {
                proof {
                    assert(neighbors@.len() == n);
                    assert(covered(neighbors@, q, kd_node.point@, n as int));
                }
            }
            let ghost after_self = neighbors@;
            proof {
                assert(entries_valid(after_self, q));
                assert(entries_distinct(after_self));
                assert(covered(after_self, q, kd_node.point@, n as int));
                assert(forall|p: Seq<i64>|
                    covered(old(neighbors)@, q, p, n as int)
                        ==> covered(after_self, q, p, n as int));
                assert(forall|j: int| 0 <= j < after_self.len()
                    ==> old(neighbors)@.contains(#[trigger] after_self[j])
                    || after_self[j].1@ == kd_node.point@);
            }
            let next: usize = if axis + 1 == K {
                0
            } else {
                axis + 1
            };
            let target_coord = point[axis];
            let split_coord = kd_node.point[axis];
            let (look_first, look_second) = if target_coord < split_coord {
                (&kd_node.left, &kd_node.right)
            } else {
                (&kd_node.right, &kd_node.left)
            };
            proof {
                assert(KDNode::ms_opt(*look_first).len() + KDNode::ms_opt(*look_second).len()
                    == KDNode::ms_opt(kd_node.left).len() + KDNode::ms_opt(kd_node.right).len());
                assert(forall|p: Seq<i64>|
                    KDNode::ms_opt(*look_first).contains(p) ==> ms_all.contains(p)
                        && p != kd_node.point@);
                assert(forall|p: Seq<i64>|
                    KDNode::ms_opt(*look_second).contains(p) ==> ms_all.contains(p)
                        && p != kd_node.point@);
                assert(forall|p: Seq<i64>|
                    KDNode::ms_opt(*look_first).contains(p)
                        ==> !KDNode::ms_opt(*look_second).contains(p));
                assert(entries_avoid(after_self, KDNode::ms_opt(*look_first))) by {
                    assert forall|j: int| 0 <= j < after_self.len()
                        implies !KDNode::ms_opt(*look_first).contains(
                        (#[trigger] after_self[j]).1@,
                    ) by {
                        if KDNode::ms_opt(*look_first).contains(after_self[j].1@) {
                            assert(old(neighbors)@.contains(after_self[j])
                                || after_self[j].1@ == kd_node.point@);
                            if old(neighbors)@.contains(after_self[j]) {
                                let i = choose|i: int|
                                    0 <= i < old(neighbors)@.len()
                                        && old(neighbors)@[i] == after_self[j];
                                assert(!ms_all.contains(old(neighbors)@[i].1@));
                            }
                        }
                    }
                }
            }
            if look_first.is_some() {
                n_nearest_neighbors(look_first, point, n, next, neighbors);
            }
            let ghost after_first = neighbors@;
            proof {
                assert forall|j: int| 0 <= j < after_first.len()
                    implies old(neighbors)@.contains(#[trigger] after_first[j])
                    || ms_all.contains(after_first[j].1@) by {
                    if after_self.contains(after_first[j]) {
                        let i = choose|i: int| 0 <= i < after_self.len()
                            && after_self[i] == after_first[j];
                        assert(old(neighbors)@.contains(after_self[i])
                            || after_self[i].1@ == kd_node.point@);
                    }
                }
                assert(entries_avoid(after_first, KDNode::ms_opt(*look_second))) by {
                    assert forall|j: int| 0 <= j < after_first.len()
                        implies !KDNode::ms_opt(*look_second).contains(
                        (#[trigger] after_first[j]).1@,
                    ) by {
                        if KDNode::ms_opt(*look_second).contains(after_first[j].1@) {
                            if after_self.contains(after_first[j]) {
                                let i = choose|i: int| 0 <= i < after_self.len()
                                    && after_self[i] == after_first[j];
                                assert(old(neighbors)@.contains(after_self[i])
                                    || after_self[i].1@ == kd_node.point@);
                                if old(neighbors)@.contains(after_self[i]) {
                                    let i2 = choose|i2: int|
                                        0 <= i2 < old(neighbors)@.len()
                                            && old(neighbors)@[i2] == after_self[i];
                                    assert(!ms_all.contains(old(neighbors)@[i2].1@));
                                }
                            } else {
                                assert(KDNode::ms_opt(*look_first).contains(
                                    after_first[j].1@,
                                ));
                            }
                        }
                    }
                }
            }
            if look_second.is_some() {
                if neighbors.len() < n {
                    n_nearest_neighbors(look_second, point, n, next, neighbors);
                } else if neighbors.len() > 0 {
                    let max_idx = max_dist_index(neighbors);
                    let max_distance = neighbors[max_idx].0;
                    proof {
                        assert(-MAX_COORD <= point@[axis as int] <= MAX_COORD);
                        assert(-MAX_COORD <= kd_node.point@[axis as int] <= MAX_COORD);
                    }
                    let diff: i64 = target_coord - split_coord;
                    proof {
                        assert(0 <= diff * diff <= 4_000_000_000_000) by (nonlinear_arith)
                            requires
                                -2_000_000 <= diff <= 2_000_000,
                        ;
                    }
                    if diff * diff < max_distance {
                        n_nearest_neighbors(look_second, point, n, next, neighbors);
                    } else {
                        proof {
                            lemma_ms_points_len(*look_second);
                            assert forall|p: Seq<i64>|
                                KDNode::ms_opt(*look_second).contains(p)
                                    implies covered(after_first, q, p, n as int) by {
                                let pa = p[axis as int];
                                let na = kd_node.point@[axis as int];
                                let qa = q[axis as int];
                                lemma_sq_dist_term(p, q, axis as int, K as int);
                                if qa < na {
                                    assert(KDNode::ms_opt(kd_node.right).contains(p));
                                    assert(pa >= na);
                                    assert((pa - qa) * (pa - qa) >= (qa - na) * (qa - na))
                                        by (nonlinear_arith)
                                        requires
                                            pa >= na > qa,
                                    ;
                                } else {
                                    assert(KDNode::ms_opt(kd_node.left).contains(p));
                                    assert(pa < na);
                                    assert((pa - qa) * (pa - qa) >= (qa - na) * (qa - na))
                                        by (nonlinear_arith)
                                        requires
                                            pa < na <= qa,
                                    ;
                                }
                                assert(sq_dist(p, q) >= (pa - qa) * (pa - qa));
                                assert(diff == qa - na);
                                assert(sq_dist(p, q) >= diff * diff);
                                assert(farther_than_all(after_first, q, p));
                            }
                        }
                    }
                } else {
                    proof {
                        assert(after_first.len() == n);
                        assert(forall|p: Seq<i64>|
                            KDNode::ms_opt(*look_second).contains(p)
                                ==> covered(after_first, q, p, n as int));
                    }
                }
            }
            proof {
                assert forall|j: int| 0 <= j < final(neighbors)@.len()
                    implies old(neighbors)@.contains(#[trigger] final(neighbors)@[j])
                    || ms_all.contains(final(neighbors)@[j].1@) by {
                    if after_first.contains(final(neighbors)@[j]) {
                        let i = choose|i: int| 0 <= i < after_first.len()
                            && after_first[i] == final(neighbors)@[j];
                        assert(old(neighbors)@.contains(after_first[i])
                            || ms_all.contains(after_first[i].1@));
                    }
                }
                assert forall|p: Seq<i64>| ms_all.contains(p)
                    implies covered(final(neighbors)@, q, p, n as int) by {
                    if p == kd_node.point@ {
                        assert(covered(after_self, q, p, n as int));
                    } else if KDNode::ms_opt(*look_first).contains(p) {
                        assert(covered(after_first, q, p, n as int));
                    } else {
                        assert(KDNode::ms_opt(kd_node.left).contains(p)
                            || KDNode::ms_opt(kd_node.right).contains(p));
                        assert(KDNode::ms_opt(*look_second).contains(p));
                        assert(covered(final(neighbors)@, q, p, n as int));
                    }
                }
            }
        },
    }
}

// Bulk construction ..........................................................

/// The points of a collection as sequences of coordinates.
pub open spec fn points_view<const K: usize>(s: Seq<[i64; K]>) -> Seq<Seq<i64>> {
    s.map_values(|p: [i64; K]| p@)
}

/// Whether no two points of a collection share a coordinate on any axis.
/// Median splitting is guaranteed to establish the partition invariant only
/// for such inputs: a tie on a split coordinate can place an equal-valued
/// point on the left of the median, where the strict rule used by search,
/// insert and delete will not look.
pub open spec fn distinct_on_all_axes<const K: usize>(s: Seq<[i64; K]>) -> bool {
    forall|i: int, j: int, a: int|
        #![trigger s[i]@[a], s[j]@[a]]
        0 <= i < j < s.len() && 0 <= a < K ==> s[i]@[a] != s[j]@[a]
}

/// Whether a collection of points is sorted by the coordinate on `axis`.
pub open spec fn sorted_on<const K: usize>(s: Seq<[i64; K]>, axis: int) -> bool {
    forall|a: int, b: int|
        #![trigger s[a], s[b]]
        0 <= a < b < s.len() ==> s[a]@[axis] <= s[b]@[axis]
}

/// Stable insertion sort of a point collection by the coordinate on `axis`:
/// the result is a permutation of the input, sorted on that axis, with
/// points of equal coordinate kept in their relative order.
fn sort_by_axis<const K: usize>(points: &mut Vec<[i64; K]>, axis: usize)
    requires
        axis < K,
    ensures
        final(points)@.len() == old(points)@.len(),
        points_view(final(points)@).to_multiset() == points_view(old(points)@).to_multiset(),
        sorted_on(final(points)@, axis as int),
        distinct_on_all_axes(old(points)@) ==> distinct_on_all_axes(final(points)@),
{
    let ghost orig = points@;
    if points.len() < 2 {
        return ;
    }
    let mut i: usize = 1;
    while i < points.len()
        invariant
            axis < K,
            1 <= i <= points@.len(),
            points@.len() == orig.len(),
            points_view(points@).to_multiset() == points_view(orig).to_multiset(),
            forall|a: int, b: int|
                #![trigger points@[a], points@[b]]
                0 <= a < b < i ==> points@[a]@[axis as int] <= points@[b]@[axis as int],
            distinct_on_all_axes(orig) ==> distinct_on_all_axes(points@),
        decreases points@.len() - i,
    {
        let mut j: usize = i;
        while j > 0 && points[j - 1][axis] > points[j][axis]
            invariant
                axis < K,
                0 <= j <= i < points@.len(),
                points@.len() == orig.len(),
                points_view(points@).to_multiset() == points_view(orig).to_multiset(),
                forall|a: int, b: int|
                    #![trigger points@[a], points@[b]]
                    0 <= a < b <= i && b != j
                        ==> points@[a]@[axis as int] <= points@[b]@[axis as int],
                forall|a: int|
                    j < a <= i ==> points@[j as int]@[axis as int]
                        <= #[trigger] points@[a]@[axis as int],
                distinct_on_all_axes(orig) ==> distinct_on_all_axes(points@),
            decreases j,
        {
            let ghost pre = points@;
            let p = points.remove(j);
            points.insert(j - 1, p);
            proof {
                assert(points@ =~= pre.update(j - 1, pre[j as int]).update(
                    j as int,
                    pre[j - 1],
                ));
                assert(points_view(pre.remove(j as int)) =~= points_view(pre).remove(j as int));
                assert(points_view(pre.remove(j as int).insert(j - 1, p)) =~= points_view(
                    pre.remove(j as int),
                ).insert(j - 1, p@));
                assert(points_view(pre).contains(p@)) by {
                    assert(points_view(pre)[j as int] == p@);
                }
                assert(points_view(pre).to_multiset().count(p@) > 0);
                assert(points_view(points@).to_multiset() =~= points_view(pre).to_multiset());
                if distinct_on_all_axes(pre) {
                    assert forall|i1: int, i2: int, a: int|
                        #![trigger points@[i1]@[a], points@[i2]@[a]]
                        0 <= i1 < i2 < points@.len() && 0 <= a < K
                            implies points@[i1]@[a] != points@[i2]@[a] by {
                        if i1 == j - 1 && i2 == j {
                            assert(pre[i1]@[a] != pre[i2]@[a]);
                        } else if i2 == j - 1 {
                            assert(pre[i1]@[a] != pre[j as int]@[a]);
                        } else if i1 == j - 1 {
                            if i2 == j {
                            } else {
                                assert(pre[j as int]@[a] != pre[i2]@[a]);
                            }
                        } else if i1 == j {
                            assert(pre[j - 1]@[a] != pre[i2]@[a]);
                        } else if i2 == j {
                            assert(pre[i1]@[a] != pre[j - 1]@[a]);
                        } else {
                            assert(pre[i1]@[a] != pre[i2]@[a]);
                        }
                    }
                }
            }
            j -= 1;
        }
        proof {
            assert forall|a: int, b: int|
                #![trigger points@[a], points@[b]]
                0 <= a < b <= i implies points@[a]@[axis as int] <= points@[b]@[axis as int] by {
                if b == j {
                    if j > 0 {
                        assert(points@[j - 1]@[axis as int] <= points@[j as int]@[axis as int]);
                        if a < j - 1 {
                            assert(points@[a]@[axis as int] <= points@[j - 1]@[axis as int]);
                        }
                    }
                }
            }
        }
        i += 1;
    }
}

/// Copy of the subrange `[start, end)` of a point collection.
fn subrange_points<const K: usize>(
    points: &Vec<[i64; K]>,
    start: usize,
    end: usize,
) -> (sub: Vec<[i64; K]>)
    requires
        start <= end <= points@.len(),
    ensures
        sub@ == points@.subrange(start as int, end as int),
{
    let mut sub: Vec<[i64; K]> = Vec::new();
    let mut i: usize = start;
    while i < end
        invariant
            start <= i <= end <= points@.len(),
            sub@ == points@.subrange(start as int, i as int),
        decreases end - i,
    {
        sub.push(points[i]);
        proof {
            assert(points@.subrange(start as int, i + 1) =~= points@.subrange(
                start as int,
                i as int,
            ).push(points@[i as int]));
        }
        i += 1;
    }
    sub
}

/// Recursively build a subtree whose root splits on `axis` from a collection
/// of points: the collection is sorted by the coordinate on that axis, its
/// median element becomes the root, and the points strictly before and after
/// the median index form the left and right subtrees on the next axis.
fn build_rec<const K: usize>(mut points: Vec<[i64; K]>, axis: usize) -> (tree: Option<
    Box<KDNode<K>>,
>)
    requires
        0 < K,
        axis < K,
    ensures
        KDNode::ms_opt(tree) == points_view(points@).to_multiset(),
        distinct_on_all_axes(points@) ==> KDNode::wf_opt(tree, axis as int),
    decreases points@.len(),
{
    let ghost orig = points@;
    if points.is_empty() {
        proof {
            assert(KDNode::ms_opt(None::<Box<KDNode<K>>>) =~= points_view(orig).to_multiset());
        }
        None
    } else {
        sort_by_axis(&mut points, axis);
        let ghost sorted = points@;
        let median: usize = points.len() / 2;
        let next: usize = if axis + 1 == K {
            0
        } else {
            axis + 1
        };
        let median_point = points[median];
        let left_points = subrange_points(&points, 0, median);
        let right_points = subrange_points(&points, median + 1, points.len());
        let left = build_rec(left_points, next);
        let right = build_rec(right_points, next);
        let node = KDNode { point: median_point, left, right };
        proof {
            let ls = sorted.subrange(0, median as int);
            let rs = sorted.subrange(median + 1, sorted.len() as int);
            assert(sorted =~= ls + seq![sorted[median as int]] + rs);
            assert(points_view(ls + seq![sorted[median as int]] + rs) =~= points_view(ls)
                + points_view(seq![sorted[median as int]]) + points_view(rs));
            assert(points_view(seq![sorted[median as int]]) =~= Seq::<Seq<i64>>::empty().push(
                median_point@,
            ));
            assert((points_view(ls) + points_view(seq![sorted[median as int]])
                + points_view(rs)).to_multiset() =~= points_view(ls).to_multiset().add(
                points_view(seq![sorted[median as int]]).to_multiset(),
            ).add(points_view(rs).to_multiset()));
            assert(points_view(seq![sorted[median as int]]).to_multiset()
                =~= Multiset::<Seq<i64>>::empty().insert(median_point@));
            assert(node.ms() =~= points_view(sorted).to_multiset());
            if distinct_on_all_axes(orig) {
                assert(distinct_on_all_axes(sorted));
                assert forall|a: int| 0 <= a < ls.len() implies #[trigger] ls[a] == sorted[a] by {}
                assert forall|a: int| 0 <= a < rs.len()
                    implies #[trigger] rs[a] == sorted[median + 1 + a] by {}
                assert(distinct_on_all_axes(ls)) by {
                    assert forall|i1: int, i2: int, a: int|
                        #![trigger ls[i1]@[a], ls[i2]@[a]]
                        0 <= i1 < i2 < ls.len() && 0 <= a < K
                            implies ls[i1]@[a] != ls[i2]@[a] by {
                        assert(sorted[i1]@[a] != sorted[i2]@[a]);
                    }
                }
                assert(distinct_on_all_axes(rs)) by {
                    assert forall|i1: int, i2: int, a: int|
                        #![trigger rs[i1]@[a], rs[i2]@[a]]
                        0 <= i1 < i2 < rs.len() && 0 <= a < K
                            implies rs[i1]@[a] != rs[i2]@[a] by {
                        assert(sorted[median + 1 + i1]@[a] != sorted[median + 1 + i2]@[a]);
                    }
                }
                assert forall|p: Seq<i64>|
                    KDNode::ms_opt(node.left).contains(p)
                        implies p[axis as int] < median_point@[axis as int] by {
                    assert(points_view(ls).to_multiset().count(p) > 0);
                    assert(points_view(ls).contains(p));
                    let idx = choose|idx: int|
                        0 <= idx < points_view(ls).len() && points_view(ls)[idx] == p;
                    assert(p == sorted[idx]@);
                    assert(sorted[idx]@[axis as int] <= sorted[median as int]@[axis as int]);
                    assert(sorted[idx]@[axis as int] != sorted[median as int]@[axis as int]);
                }
                assert forall|p: Seq<i64>|
                    KDNode::ms_opt(node.right).contains(p)
                        implies p[axis as int] >= median_point@[axis as int]
                        && p != median_point@ by {
                    assert(points_view(rs).to_multiset().count(p) > 0);
                    assert(points_view(rs).contains(p));
                    let idx = choose|idx: int|
                        0 <= idx < points_view(rs).len() && points_view(rs)[idx] == p;
                    assert(p == sorted[median + 1 + idx]@);
                    assert(sorted[median as int]@[axis as int]
                        <= sorted[median + 1 + idx]@[axis as int]);
                    assert(sorted[median as int]@[axis as int]
                        != sorted[median + 1 + idx]@[axis as int]);
                }
                assert(node.wf(axis as int));
            }
        }
        Some(Box::new(node))
    }
}

} // verus!

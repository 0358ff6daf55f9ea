use vstd::prelude::*;
use vstd::pervasive::VecAdditionalExecFns;
use crate::point::{Point, PointView};
use crate::kdtree::{KDTree, Node, IndexError, is_top_n, lemma_same_shape};
use crate::codec::{decode_tree, encode_tree, enc_tree};
use vstd::multiset::Multiset;
use vstd::utf8::encode_utf8;

verus! {

/// Ways in which an operation on a named index can fail.
#[derive(Debug, PartialEq, Eq, Structural)]
pub enum CacheError {
    /// The embedding's length differs from the index's dimensionality, or a
    /// fresh index would have no dimensions.
    DimensionMismatch,
    /// No index of that name exists, in memory or in durable storage.
    NotFound,
    /// Durable storage could not be read or written.
    Io,
    /// The durable bytes are not a well-formed index.
    Corrupt,
    /// The index already holds as many points as a `usize` can count.
    CapacityExceeded,
    /// The query has no answer: the index is empty or no point was asked for.
    EmptyIndex,
}

/// What durable storage holds for a name, as the caller read it.
pub enum Stored {
    /// Nothing is stored under the name.
    Absent,
    /// The stored bytes.
    Bytes(Vec<u8>),
    /// Storage could not be read.
    Unreadable,
}

/// One named index: the tree when it is resident in memory, and the time of
/// its last successful access.
pub struct CacheEntry {
    pub name: String,
    pub tree: Option<KDTree>,
    pub last_accessed: u64,
}

/// Named indexes under a memory budget.
pub struct IndexCache {
    pub entries: Vec<CacheEntry>,
    pub max_memory: u64,
}

broadcast use vstd::layout::layout_of_primitives;

/// Estimated heap footprint of a subtree: per node, the node itself, its
/// embedding's elements and its payload's bytes.
pub open spec fn node_bytes(node: Option<Box<Node>>) -> nat
    decreases node,
{
    match node {
        None => 0,
        Some(n) => vstd::layout::size_of::<Node>() + n.point.embedding@.len() * vstd::layout::size_of::<
            i32,
        >() + encode_utf8(n.point.data@).len() + node_bytes(n.left) + node_bytes(n.right),
    }
}

/// Estimated heap footprint of a tree.
pub open spec fn tree_bytes(t: KDTree) -> nat {
    vstd::layout::size_of::<KDTree>() + node_bytes(t.root)
}

/// A byte count, capped at the largest `u64`.
pub open spec fn capped(x: nat) -> nat {
    if x > u64::MAX {
        u64::MAX as nat
    } else {
        x
    }
}

/// Estimated footprint of a tree as reported: capped at the largest `u64`.
pub open spec fn estimate(t: KDTree) -> nat {
    capped(tree_bytes(t))
}

/// Adding capped counts with saturation caps their sum.
pub proof fn lemma_capped_add(x: nat, y: nat)
    ensures
        (if capped(x) + capped(y) > u64::MAX {
            u64::MAX as nat
        } else {
            capped(x) + capped(y)
        }) == capped(x + y),
{
}

/// Estimated footprint of a subtree's root node and all below it.
pub fn estimate_node_size(node: &Box<Node>) -> (r: u64)
    ensures
        r == capped(node_bytes(Some(*node))),
    decreases *node,
{
    let node_size: u128 = core::mem::size_of::<Node>() as u128;
    let dims: u128 = node.point.embedding.len() as u128;
    let elem_size: u128 = core::mem::size_of::<i32>() as u128;
    let text_size: u128 = node.point.data.as_str().as_bytes().len() as u128;
    assert(dims * elem_size <= 0x4_0000_0000_0000_0000) by (nonlinear_arith)
        requires
            dims <= 0xFFFF_FFFF_FFFF_FFFF,
            elem_size == 4,
    ;
    let own: u128 = node_size + dims * elem_size + text_size;
    let mut total: u64 = if own > u64::MAX as u128 {
        u64::MAX
    } else {
        own as u64
    };
    let ghost own_bytes: nat = own as nat;
    assert(node_size == vstd::layout::size_of::<Node>());
    assert(text_size == encode_utf8(node.point.data@).len());
    assert(own_bytes == vstd::layout::size_of::<Node>() + node.point.embedding@.len()
        * vstd::layout::size_of::<i32>() + encode_utf8(node.point.data@).len());
    assert(total == capped(own_bytes));
    if let Some(left) = &node.left {
        let l = estimate_node_size(left);
        proof {
            lemma_capped_add(own_bytes, node_bytes(node.left));
        }
        total = total.saturating_add(l);
    }
    assert(total == capped(own_bytes + node_bytes(node.left)));
    if let Some(right) = &node.right {
        let r = estimate_node_size(right);
        proof {
            lemma_capped_add(own_bytes + node_bytes(node.left), node_bytes(node.right));
        }
        total = total.saturating_add(r);
    }
    assert(total == capped(own_bytes + node_bytes(node.left) + node_bytes(node.right)));
    total
}

/// Estimated footprint of a tree: the tree itself and all its nodes.
pub fn estimate_memory_usage(tree: &KDTree) -> (r: u64)
    ensures
        r == estimate(*tree),
{
    let base: u64 = core::mem::size_of::<KDTree>() as u64;
    match &tree.root {
        None => base,
        Some(root) => base.saturating_add(estimate_node_size(root)),
    }
}

/// Estimated footprint of an entry: its tree's when resident, else none.
pub open spec fn entry_cost(e: CacheEntry) -> nat {
    match e.tree {
        Some(t) => estimate(t),
        None => 0,
    }
}

/// Total estimated footprint of the resident trees.
pub open spec fn total_cost(es: Seq<CacheEntry>) -> nat
    decreases es.len(),
{
    if es.len() == 0 {
        0
    } else {
        total_cost(es.drop_last()) + entry_cost(es.last())
    }
}

/// Replacing one entry changes the total by that entry alone.
pub proof fn lemma_totals_update(es: Seq<CacheEntry>, i: int, e: CacheEntry)
    requires
        0 <= i < es.len(),
    ensures
        total_cost(es.update(i, e)) + entry_cost(es[i]) == total_cost(es) + entry_cost(e),
    decreases es.len(),
{
    let u = es.update(i, e);
    if i < es.len() - 1 {
        lemma_totals_update(es.drop_last(), i, e);
        assert(u.drop_last() =~= es.drop_last().update(i, e));
    } else {
        assert(u.drop_last() =~= es.drop_last());
    }
}

/// The entry at `i` is resident and no resident entry was accessed before it.
pub open spec fn is_lru(es: Seq<CacheEntry>, i: int) -> bool {
    &&& 0 <= i < es.len()
    &&& es[i].tree is Some
    &&& forall|j: int|
        0 <= j < es.len() && (#[trigger] es[j]).tree is Some ==> es[i].last_accessed
            <= es[j].last_accessed
}

/// The entries after the tree at `i` is dropped from memory.
pub open spec fn released(es: Seq<CacheEntry>, i: int) -> Seq<CacheEntry> {
    es.update(i, CacheEntry { name: es[i].name, tree: None, last_accessed: es[i].last_accessed })
}

/// Eviction goes in order of last access: once the least recently used
/// tree is dropped, the next one picked is a different entry, accessed no
/// earlier.
pub proof fn lemma_eviction_order(es: Seq<CacheEntry>, i: int, j: int)
    requires
        is_lru(es, i),
        is_lru(released(es, i), j),
    ensures
        j != i,
        es[i].last_accessed <= es[j].last_accessed,
{
    assert(released(es, i)[j] == es[j]);
}

/// Status of one named index.
pub struct IndexStatus {
    pub name: String,
    /// Number of points, when the index is resident.
    pub count: Option<usize>,
    pub resident: bool,
    pub last_accessed: u64,
}

/// Whether some entry carries the name.
pub open spec fn has_name(es: Seq<CacheEntry>, name: Seq<char>) -> bool {
    exists|i: int| 0 <= i < es.len() && (#[trigger] es[i]).name@ == name
}

/// The entry that carries the name, if any.
pub open spec fn entry_named(es: Seq<CacheEntry>, name: Seq<char>) -> Option<CacheEntry> {
    if has_name(es, name) {
        Some(es[choose|i: int| 0 <= i < es.len() && (#[trigger] es[i]).name@ == name])
    } else {
        None
    }
}

/// Names are unique.
pub open spec fn unique_names(es: Seq<CacheEntry>) -> bool {
    forall|i: int, j: int|
        0 <= i < es.len() && 0 <= j < es.len() && i != j ==> (#[trigger] es[i]).name@ != (
        #[trigger] es[j]).name@
}

/// Under unique names, the entry named by the name at `i` is the one at `i`.
pub proof fn lemma_entry_named(es: Seq<CacheEntry>, i: int)
    requires
        unique_names(es),
        0 <= i < es.len(),
    ensures
        entry_named(es, es[i].name@) == Some(es[i]),
{
    assert(has_name(es, es[i].name@));
    let j = choose|j: int| 0 <= j < es.len() && (#[trigger] es[j]).name@ == es[i].name@;
    assert(j == i);
}

impl IndexCache {
    /// The tree held in memory under `name`, if any.
    pub open spec fn tree_of(&self, name: Seq<char>) -> Option<KDTree> {
        match entry_named(self.entries@, name) {
            Some(e) => e.tree,
            None => None,
        }
    }

    /// The time of the last access to `name`, if it is known.
    pub open spec fn last_of(&self, name: Seq<char>) -> Option<u64> {
        match entry_named(self.entries@, name) {
            Some(e) => Some(e.last_accessed),
            None => None,
        }
    }

    /// Names are unique and every resident tree is well-formed.
    pub open spec fn wf(&self) -> bool {
        &&& unique_names(self.entries@)
        &&& forall|i: int|
            0 <= i < self.entries@.len() && (#[trigger] self.entries@[i]).tree is Some
                ==> self.entries@[i].tree.unwrap().wf()
    }

    /// An empty cache with a memory budget in bytes.
    pub fn new(max_memory: u64) -> (r: IndexCache)
        ensures
            r.wf(),
            r.max_memory == max_memory,
            r.entries@.len() == 0,
    {
        IndexCache { entries: Vec::new(), max_memory }
    }

    /// The position of the entry named `name`, if there is one.
    pub fn find(&self, name: &String) -> (r: Option<usize>)
        requires
            self.wf(),
        ensures
            r is None <==> !has_name(self.entries@, name@),
            r is Some ==> r.unwrap() < self.entries@.len() && self.entries@[r.unwrap() as int].name@
                == name@,
    {
        let mut i: usize = 0;
        while i < self.entries.len()
            invariant
                i <= self.entries@.len(),
                forall|j: int| 0 <= j < i ==> (#[trigger] self.entries@[j]).name@ != name@,
            decreases self.entries@.len() - i,
        {
            if self.entries[i].name == *name {
                return Some(i);
            }
            i = i + 1;
        }
        None
    }

    /// Whether the index named `name` is in memory.
    pub fn is_resident(&self, name: &String) -> (r: bool)
        requires
            self.wf(),
        ensures
            r == self.tree_of(name@) is Some,
    {
        match self.find(name) {
            None => false,
            Some(i) => {
                proof {
                    lemma_entry_named(self.entries@, i as int);
                }
                self.entries[i].tree.is_some()
            },
        }
    }

    /// Makes the index named `name` resident and marks it accessed at
    /// `now`. A resident index is kept as it is and `stored` is not looked
    /// at. Otherwise the stored bytes are decoded; when nothing is stored, a
    /// fresh index of dimensionality `hint` is made, and without a hint the
    /// name is unknown. Returns the entry's position; on failure nothing
    /// changes.
    pub fn ensure_resident(&mut self, name: &String, now: u64, hint: Option<usize>, stored: Stored) -> (r:
        Result<usize, CacheError>)
        requires
            old(self).wf(),
        ensures
            final(self).wf(),
            final(self).max_memory == old(self).max_memory,
            r is Err ==> *final(self) == *old(self),
            r is Ok ==> ({
                let i = r.unwrap() as int;
                &&& 0 <= i < final(self).entries@.len()
                &&& final(self).entries@[i].name@ == name@
                &&& final(self).tree_of(name@) is Some
                &&& final(self).last_of(name@) == Some(now)
            }),
            forall|other: Seq<char>|
                other != name@ ==> #[trigger] entry_named(final(self).entries@, other) == entry_named(
                    old(self).entries@,
                    other,
                ),
            old(self).tree_of(name@) is Some ==> r is Ok && final(self).tree_of(name@) == old(self).tree_of(name@),
            old(self).tree_of(name@) is None ==> match stored {
                Stored::Unreadable => r == Err::<usize, CacheError>(CacheError::Io),
                Stored::Absent => match hint {
                    None => r == Err::<usize, CacheError>(CacheError::NotFound),
                    Some(h) => if h == 0 {
                        r == Err::<usize, CacheError>(CacheError::DimensionMismatch)
                    } else {
                        r is Ok && final(self).tree_of(name@).unwrap().k == h && final(self).tree_of(name@).unwrap()@ == Multiset::<PointView>::empty()
                    },
                },
                Stored::Bytes(b) => {
                    &&& r is Ok ==> enc_tree(final(self).tree_of(name@).unwrap()) == b@
                    &&& r is Err ==> r == Err::<usize, CacheError>(CacheError::Corrupt)
                    &&& (exists|t: KDTree| #[trigger] enc_tree(t) == b@ && t.wf()) ==> r is Ok
                    &&& forall|t: KDTree| #[trigger] enc_tree(t) == b@ && t.wf() ==> {
                        &&& final(self).tree_of(name@).unwrap().k == t.k
                        &&& final(self).tree_of(name@).unwrap()@ == t@
                    }
                },
            },
    {
        let found = self.find(name);
        if let Some(i) = found {
            proof {
                lemma_entry_named(self.entries@, i as int);
            }
            if self.entries[i].tree.is_some() {
                let ghost old_es = self.entries@;
                let mut e = CacheEntry { name: String::new(), tree: None, last_accessed: 0 };
                self.entries.set_and_swap(i, &mut e);
                e.last_accessed = now;
                self.entries.set_and_swap(i, &mut e);
                proof {
                    assert(self.entries@ == old_es.update(i as int, self.entries@[i as int]));
                    self.lemma_update_entry(old_es, i as int);
                }
                return Ok(i);
            }
        }
        let tree = match stored {
            Stored::Unreadable => {
                return Err(CacheError::Io);
            },
            Stored::Absent => match hint {
                None => {
                    return Err(CacheError::NotFound);
                },
                Some(h) => {
                    if h == 0 {
                        return Err(CacheError::DimensionMismatch);
                    }
                    KDTree::new(h)
                },
            },
            Stored::Bytes(b) => match decode_tree(b.as_slice()) {
                Err(_) => {
                    return Err(CacheError::Corrupt);
                },
                Ok(t) => {
                    proof {
                        assert forall|t2: KDTree| #[trigger] enc_tree(t2) == b@ && t2.wf() implies t.k
                            == t2.k && t@ == t2@ by {
                            lemma_same_shape(t.root, t2.root, 0, t.k as nat);
                        }
                    }
                    t
                },
            },
        };
        let ghost old_es = self.entries@;
        match found {
            Some(i) => {
                let mut e = CacheEntry { name: String::new(), tree: None, last_accessed: 0 };
                self.entries.set_and_swap(i, &mut e);
                e.last_accessed = now;
                e.tree = Some(tree);
                self.entries.set_and_swap(i, &mut e);
                proof {
                    assert(self.entries@ == old_es.update(i as int, self.entries@[i as int]));
                    self.lemma_update_entry(old_es, i as int);
                }
                Ok(i)
            },
            None => {
                let entry = CacheEntry { name: name.clone(), tree: Some(tree), last_accessed: now };
                self.entries.push(entry);
                proof {
                    assert(self.entries@.drop_last() =~= old_es);
                    self.lemma_push_entry(old_es);
                }
                Ok(self.entries.len() - 1)
            },
        }
    }

    proof fn lemma_update_entry(&self, old_es: Seq<CacheEntry>, i: int)
        requires
            unique_names(old_es),
            0 <= i < old_es.len(),
            self.entries@ == old_es.update(i, self.entries@[i]),
            self.entries@[i].name@ == old_es[i].name@,
        ensures
            unique_names(self.entries@),
            entry_named(self.entries@, old_es[i].name@) == Some(self.entries@[i]),
            forall|other: Seq<char>|
                other != old_es[i].name@ ==> #[trigger] entry_named(self.entries@, other)
                    == entry_named(old_es, other),
    {
        let es = self.entries@;
        assert(unique_names(es)) by {
            assert forall|a: int, b: int|
                0 <= a < es.len() && 0 <= b < es.len() && a != b implies (#[trigger] es[a]).name@ != (
                #[trigger] es[b]).name@ by {
                assert(old_es[a].name@ != old_es[b].name@);
            }
        }
        lemma_entry_named(es, i);
        assert forall|other: Seq<char>| other != old_es[i].name@ implies #[trigger] entry_named(
            es,
            other,
        ) == entry_named(old_es, other) by {
            if has_name(old_es, other) {
                let j = choose|j: int| 0 <= j < old_es.len() && (#[trigger] old_es[j]).name@ == other;
                lemma_entry_named(old_es, j);
                assert(es[j] == old_es[j]);
                lemma_entry_named(es, j);
            } else {
                assert forall|j: int| 0 <= j < es.len() implies (#[trigger] es[j]).name@ != other by {
                    if j != i {
                        assert(es[j] == old_es[j]);
                    }
                }
            }
        }
    }

    proof fn lemma_push_entry(&self, old_es: Seq<CacheEntry>)
        requires
            unique_names(old_es),
            self.entries@.len() == old_es.len() + 1,
            self.entries@.drop_last() == old_es,
            !has_name(old_es, self.entries@.last().name@),
        ensures
            unique_names(self.entries@),
            entry_named(self.entries@, self.entries@.last().name@) == Some(self.entries@.last()),
            forall|other: Seq<char>|
                other != self.entries@.last().name@ ==> #[trigger] entry_named(self.entries@, other)
                    == entry_named(old_es, other),
    {
        let es = self.entries@;
        let n = old_es.len() as int;
        assert forall|j: int| 0 <= j < n implies #[trigger] es[j] == old_es[j] by {
            assert(es.drop_last()[j] == es[j]);
        }
        assert(unique_names(es)) by {
            assert forall|a: int, b: int|
                0 <= a < es.len() && 0 <= b < es.len() && a != b implies (#[trigger] es[a]).name@ != (
                #[trigger] es[b]).name@ by {
                if a < n && b < n {
                    assert(old_es[a].name@ != old_es[b].name@);
                } else if a < n {
                    assert(old_es[a].name@ != es[n].name@);
                } else {
                    assert(old_es[b].name@ != es[n].name@);
                }
            }
        }
        lemma_entry_named(es, n);
        assert forall|other: Seq<char>| other != es.last().name@ implies #[trigger] entry_named(
            es,
            other,
        ) == entry_named(old_es, other) by {
            if has_name(old_es, other) {
                let j = choose|j: int| 0 <= j < old_es.len() && (#[trigger] old_es[j]).name@ == other;
                lemma_entry_named(old_es, j);
                lemma_entry_named(es, j);
            } else {
                assert forall|j: int| 0 <= j < es.len() implies (#[trigger] es[j]).name@ != other by {
                    if j < n {
                        assert(es[j] == old_es[j]);
                    }
                }
            }
        }
    }

    /// Adds a point to the index named `name`, first making it resident
    /// as `ensure_resident` does, with the point's length as the
    /// dimensionality of a fresh index. Returns the bytes to store for the
    /// index afterwards. The caller stores them and then runs the eviction
    /// policy (`eviction_candidate`, then `release` once each returned tree
    /// is stored) until no candidate is left.
    pub fn insert_point(&mut self, name: &String, point: Point, now: u64, stored: Stored) -> (r:
        Result<Vec<u8>, CacheError>)
        requires
            old(self).wf(),
        ensures
            final(self).wf(),
            final(self).max_memory == old(self).max_memory,
            forall|other: Seq<char>|
                other != name@ ==> #[trigger] entry_named(final(self).entries@, other) == entry_named(
                    old(self).entries@,
                    other,
                ),
            r is Ok ==> ({
                &&& final(self).tree_of(name@) is Some
                &&& r.unwrap()@ == enc_tree(final(self).tree_of(name@).unwrap())
                &&& final(self).tree_of(name@).unwrap()@.contains(point@)
                &&& final(self).last_of(name@) == Some(now)
            }),
            old(self).tree_of(name@) is Some ==> ({
                let t = old(self).tree_of(name@).unwrap();
                &&& point.embedding@.len() != t.k ==> r == Err::<Vec<u8>, CacheError>(
                    CacheError::DimensionMismatch,
                ) && final(self).tree_of(name@) == old(self).tree_of(name@)
                &&& point.embedding@.len() == t.k && t@.len() < usize::MAX ==> r is Ok && final(self).tree_of(name@).unwrap()@ == t@.insert(point@)
            }),
            old(self).tree_of(name@) is None ==> match stored {
                Stored::Unreadable => r == Err::<Vec<u8>, CacheError>(CacheError::Io),
                Stored::Absent => if point.embedding@.len() == 0 {
                    r == Err::<Vec<u8>, CacheError>(CacheError::DimensionMismatch)
                } else {
                    r is Ok && final(self).tree_of(name@).unwrap()@ == Multiset::<
                        PointView,
                    >::empty().insert(point@)
                },
                Stored::Bytes(b) => {
                    &&& r == Err::<Vec<u8>, CacheError>(CacheError::Corrupt) <==> !(exists|t: KDTree|
                        #[trigger] enc_tree(t) == b@ && t.wf())
                    &&& forall|t: KDTree| #[trigger] enc_tree(t) == b@ && t.wf() ==> {
                        &&& point.embedding@.len() != t.k ==> r == Err::<Vec<u8>, CacheError>(
                            CacheError::DimensionMismatch,
                        )
                        &&& point.embedding@.len() == t.k && t@.len() < usize::MAX ==> r is Ok
                            && final(self).tree_of(name@).unwrap()@ == t@.insert(point@)
                    }
                },
            },
            old(self).tree_of(name@) is None && (r == Err::<Vec<u8>, CacheError>(CacheError::Io) || r
                == Err::<Vec<u8>, CacheError>(CacheError::Corrupt)) ==> *final(self) == *old(self),
    {
        let i = match self.ensure_resident(name, now, Some(point.len()), stored) {
            Err(e) => {
                return Err(e);
            },
            Ok(i) => i,
        };
        proof {
            lemma_entry_named(self.entries@, i as int);
        }
        let ghost mid = self.entries@;
        let mut e = CacheEntry { name: String::new(), tree: None, last_accessed: 0 };
        self.entries.set_and_swap(i, &mut e);
        let mut tree = e.tree.take().unwrap();
        let res = tree.insert(point);
        let bytes = encode_tree(&tree);
        e.tree = Some(tree);
        self.entries.set_and_swap(i, &mut e);
        proof {
            assert(self.entries@ == mid.update(i as int, self.entries@[i as int]));
            self.lemma_update_entry(mid, i as int);
        }
        match res {
            Err(IndexError::DimensionMismatch) => Err(CacheError::DimensionMismatch),
            Err(IndexError::CapacityExceeded) => Err(CacheError::CapacityExceeded),
            Ok(()) => Ok(bytes),
        }
    }

    /// The `n` points of the index named `name` nearest to `target`, first
    /// making the index resident as `ensure_resident` does, without
    /// creating one.
    pub fn query_top_n(&mut self, name: &String, target: &Point, n: usize, now: u64, stored: Stored) -> (r:
        Result<Vec<Point>, CacheError>)
        requires
            old(self).wf(),
        ensures
            final(self).wf(),
            final(self).max_memory == old(self).max_memory,
            forall|other: Seq<char>|
                other != name@ ==> #[trigger] entry_named(final(self).entries@, other) == entry_named(
                    old(self).entries@,
                    other,
                ),
            old(self).tree_of(name@) is Some ==> final(self).tree_of(name@) == old(self).tree_of(
                name@,
            ),
            old(self).tree_of(name@) is None ==> match stored {
                Stored::Unreadable => r == Err::<Vec<Point>, CacheError>(CacheError::Io),
                Stored::Absent => r == Err::<Vec<Point>, CacheError>(CacheError::NotFound) && *final(self) == *old(self),
                Stored::Bytes(b) => {
                    &&& r == Err::<Vec<Point>, CacheError>(CacheError::Corrupt) <==> !(exists|t: KDTree|
                        #[trigger] enc_tree(t) == b@ && t.wf())
                    &&& forall|t: KDTree| #[trigger] enc_tree(t) == b@ && t.wf() ==> {
                        &&& final(self).tree_of(name@) is Some
                        &&& final(self).tree_of(name@).unwrap().k == t.k
                        &&& final(self).tree_of(name@).unwrap()@ == t@
                    }
                },
            },
            old(self).tree_of(name@) is None && (r == Err::<Vec<Point>, CacheError>(CacheError::Io)
                || r == Err::<Vec<Point>, CacheError>(CacheError::Corrupt)) ==> *final(self) == *old(
                self),
            r is Ok ==> final(self).last_of(name@) == Some(now),
            final(self).tree_of(name@) is Some ==> ({
                let t = final(self).tree_of(name@).unwrap();
                &&& target.embedding@.len() != t.k ==> r == Err::<Vec<Point>, CacheError>(
                    CacheError::DimensionMismatch,
                )
                &&& target.embedding@.len() == t.k && (n == 0 || t@.len() == 0) ==> r == Err::<
                    Vec<Point>,
                    CacheError,
                >(CacheError::EmptyIndex)
                &&& target.embedding@.len() == t.k && n > 0 && t@.len() > 0 ==> r is Ok
                &&& r is Ok ==> is_top_n(
                    r.unwrap()@.map_values(|p: Point| p@),
                    t@,
                    target.embedding@,
                    n as nat,
                )
            }),
    {
        let i = match self.ensure_resident(name, now, None, stored) {
            Err(e) => {
                return Err(e);
            },
            Ok(i) => i,
        };
        proof {
            lemma_entry_named(self.entries@, i as int);
        }
        match &self.entries[i].tree {
            None => Err(CacheError::NotFound),
            Some(tree) => {
                if target.len() != tree.dimensions() {
                    return Err(CacheError::DimensionMismatch);
                }
                match tree.nearest_neighbors_topn(target, n) {
                    None => Err(CacheError::EmptyIndex),
                    Some(v) => Ok(v),
                }
            },
        }
    }

    /// One step of the eviction policy. When the resident trees' estimated
    /// footprint exceeds the budget, picks the resident tree accessed
    /// longest ago (the earliest in the list among equals) and returns its
    /// position with the bytes to store for it; the tree stays resident
    /// until `release` is called once those bytes are stored. Returns
    /// `None` when within budget or when nothing is resident.
    pub fn eviction_candidate(&self) -> (r: Option<(usize, Vec<u8>)>)
        requires
            self.wf(),
        ensures
            r is None <==> (total_cost(self.entries@) <= self.max_memory || forall|i: int|
                0 <= i < self.entries@.len() ==> (#[trigger] self.entries@[i]).tree is None),
            r is Some ==> {
                let i = r.unwrap().0 as int;
                &&& is_lru(self.entries@, i)
                &&& r.unwrap().1@ == enc_tree(self.entries@[i].tree.unwrap())
            },
    {
        let n = self.entries.len();
        let mut total: u128 = 0;
        let mut i: usize = 0;
        while i < self.entries.len()
            invariant
                i <= self.entries@.len(),
                total == total_cost(self.entries@.subrange(0, i as int)),
                total <= i * (u64::MAX as nat),
                self.entries@.len() == n,
            decreases self.entries@.len() - i,
        {
            let c: u64 = match &self.entries[i].tree {
                None => 0,
                Some(t) => estimate_memory_usage(t),
            };
            proof {
                assert(self.entries@.subrange(0, i + 1).drop_last() =~= self.entries@.subrange(
                    0,
                    i as int,
                ));
                assert((i + 1) * (u64::MAX as nat) <= 0x1_0000_0000_0000_0000 * (u64::MAX as nat))
                    by (nonlinear_arith)
                    requires
                        i + 1 <= 0x1_0000_0000_0000_0000,
                ;
                assert(i * (u64::MAX as nat) + u64::MAX as nat == (i + 1) * (u64::MAX as nat)) by (nonlinear_arith);
            }
            total = total + c as u128;
            i = i + 1;
        }
        assert(self.entries@.subrange(0, i as int) =~= self.entries@);
        if total <= self.max_memory as u128 {
            return None;
        }
        let mut lru: Option<usize> = None;
        let mut j: usize = 0;
        while j < self.entries.len()
            invariant
                j <= self.entries@.len(),
                lru is Some ==> lru.unwrap() < j && self.entries@[lru.unwrap() as int].tree is Some,
                lru is Some ==> forall|x: int|
                    0 <= x < j && (#[trigger] self.entries@[x]).tree is Some
                        ==> self.entries@[lru.unwrap() as int].last_accessed
                        <= self.entries@[x].last_accessed,
                lru is None ==> forall|x: int|
                    0 <= x < j ==> (#[trigger] self.entries@[x]).tree is None,
            decreases self.entries@.len() - j,
        {
            if self.entries[j].tree.is_some() {
                match lru {
                    None => {
                        lru = Some(j);
                    },
                    Some(b) => {
                        if self.entries[j].last_accessed < self.entries[b].last_accessed {
                            lru = Some(j);
                        }
                    },
                }
            }
            j = j + 1;
        }
        match lru {
            None => None,
            Some(b) => match &self.entries[b].tree {
                None => None,
                Some(t) => {
                    proof {
                        if forall|x: int|
                            0 <= x < self.entries@.len() ==> (#[trigger] self.entries@[x]).tree is None {
                            assert(self.entries@[b as int].tree is None);
                        }
                    }
                    Some((b, encode_tree(t)))
                },
            },
        }
    }

    /// Drops the tree at position `i` from memory, once its bytes are
    /// stored; the entry keeps its name and access time.
    pub fn release(&mut self, i: usize)
        requires
            old(self).wf(),
            i < old(self).entries@.len(),
        ensures
            final(self).wf(),
            final(self).max_memory == old(self).max_memory,
            final(self).entries@ == released(old(self).entries@, i as int),
            total_cost(final(self).entries@) + entry_cost(old(self).entries@[i as int]) == total_cost(
                old(self).entries@,
            ),
    {
        let ghost es = self.entries@;
        let mut e = CacheEntry { name: String::new(), tree: None, last_accessed: 0 };
        self.entries.set_and_swap(i, &mut e);
        e.tree = None;
        self.entries.set_and_swap(i, &mut e);
        proof {
            assert(self.entries@ =~= released(es, i as int));
            lemma_totals_update(es, i as int, self.entries@[i as int]);
            assert(unique_names(self.entries@)) by {
                assert forall|x: int, y: int|
                    0 <= x < self.entries@.len() && 0 <= y < self.entries@.len() && x != y implies (
                    #[trigger] self.entries@[x]).name@ != (#[trigger] self.entries@[y]).name@ by {
                    assert(es[x].name@ != es[y].name@);
                }
            }
        }
    }

    /// Status of every named index, in the cache's order.
    pub fn status(&self) -> (r: Vec<IndexStatus>)
        requires
            self.wf(),
        ensures
            r@.len() == self.entries@.len(),
            forall|i: int|
                0 <= i < r@.len() ==> {
                    let e = self.entries@[i];
                    &&& (#[trigger] r@[i]).name@ == e.name@
                    &&& r@[i].resident == e.tree is Some
                    &&& r@[i].count == if e.tree is Some {
                        Some(e.tree.unwrap()@.len() as usize)
                    } else {
                        None::<usize>
                    }
                    &&& r@[i].last_accessed == e.last_accessed
                },
    {
        let mut r: Vec<IndexStatus> = Vec::new();
        let mut i: usize = 0;
        while i < self.entries.len()
            invariant
                self.wf(),
                i <= self.entries@.len(),
                r@.len() == i,
                forall|x: int|
                    0 <= x < i ==> {
                        let e = self.entries@[x];
                        &&& (#[trigger] r@[x]).name@ == e.name@
                        &&& r@[x].resident == e.tree is Some
                        &&& r@[x].count == if e.tree is Some {
                            Some(e.tree.unwrap()@.len() as usize)
                        } else {
                            None::<usize>
                        }
                        &&& r@[x].last_accessed == e.last_accessed
                    },
            decreases self.entries@.len() - i,
        {
            let e = &self.entries[i];
            let count = match &e.tree {
                None => None,
                Some(t) => Some(t.len()),
            };
            r.push(
                IndexStatus {
                    name: e.name.clone(),
                    count,
                    resident: e.tree.is_some(),
                    last_accessed: e.last_accessed,
                },
            );
            i = i + 1;
        }
        r
    }
}

} // verus!

//! The nodes of the trie and what they store.
//!
//! A node carries the bytes of the edge that leads to it (its label), the
//! value of the key that ends at it, if one does, and its children, ordered by
//! the first byte of their labels. Keys are read relative to a node: the key
//! of a node is the empty string there, and the keys below it start with the
//! label of one of its children.

use vstd::prelude::*;

verus! {

/// A node of the compressed trie.
pub struct RaxNode {
    pub(crate) label: Vec<u8>,
    pub(crate) value: Option<i32>,
    pub(crate) children: Vec<RaxNode>,
}

impl RaxNode {
    /// The children's labels are not empty and start with strictly increasing bytes.
    pub open(crate) spec fn ordered(self) -> bool {
        &&& forall|i: int|
            0 <= i < self.children@.len() ==> (#[trigger] self.children@[i]).label@.len() > 0
        &&& forall|i: int, j: int|
            #![trigger self.children@[i], self.children@[j]]
            0 <= i < j < self.children@.len() ==> self.children@[i].label@[0]
                < self.children@[j].label@[0]
    }

    /// A node that is no key has at least two children.
    pub open(crate) spec fn compressed(self) -> bool {
        self.value is Some || self.children@.len() >= 2
    }

    /// What holds of every node but the root, and of all nodes below it.
    pub open(crate) spec fn wf(self) -> bool
        decreases self,
    {
        &&& self.label@.len() > 0
        &&& self.compressed()
        &&& self.ordered()
        &&& forall|i: int|
            0 <= i < self.children@.len() ==> (#[trigger] self.children@[i]).wf()
    }

    /// What holds below a node, the root too, whatever its own label and value.
    pub open(crate) spec fn wf_below(self) -> bool {
        &&& self.ordered()
        &&& forall|i: int|
            0 <= i < self.children@.len() ==> (#[trigger] self.children@[i]).wf()
    }

    /// Every node below this one is a key or has two children or more.
    pub open(crate) spec fn compressed_below(self) -> bool
        decreases self,
    {
        forall|i: int|
            0 <= i < self.children@.len() ==> (#[trigger] self.children@[i]).compressed()
                && self.children@[i].compressed_below()
    }

    /// The two nodes have the same label, and their children are the same in
    /// number and, one for one, of the same shape: they differ in values at most.
    pub open(crate) spec fn same_shape(self, other: RaxNode) -> bool
        decreases self,
    {
        &&& self.label@ == other.label@
        &&& self.children@.len() == other.children@.len()
        &&& forall|i: int|
            0 <= i < self.children@.len() ==> (#[trigger] self.children@[i]).same_shape(
                other.children@[i],
            )
    }

    /// The child whose label starts `k`.
    pub open(crate) spec fn branch(self, k: Seq<u8>) -> Option<int> {
        if exists|i: int|
            0 <= i < self.children@.len() && (#[trigger] self.children@[i]).label@.is_prefix_of(
                k,
            ) {
            Some(
                choose|i: int|
                    0 <= i < self.children@.len() && (#[trigger] self.children@[i]).label@.is_prefix_of(
                    k),
            )
        } else {
            None
        }
    }

    /// The value stored under `k`, where `k` is read from the end of this
    /// node's label.
    pub open(crate) spec fn lookup(self, k: Seq<u8>) -> Option<i32>
        decreases self,
    {
        if k.len() == 0 {
            self.value
        } else {
            match self.branch(k) {
                Some(i) => self.children@[i].lookup(k.skip(self.children@[i].label@.len() as int)),
                None => None,
            }
        }
    }

    /// The value stored under `k`, where `k` is read from the start of this
    /// node's label.
    pub open(crate) spec fn lookup_from(self, k: Seq<u8>) -> Option<i32> {
        if self.label@.is_prefix_of(k) {
            self.lookup(k.skip(self.label@.len() as int))
        } else {
            None
        }
    }

    /// The keys at and below this node with their values, each key read from
    /// the end of this node's label.
    pub open(crate) spec fn entries(self) -> Map<Seq<u8>, i32> {
        Map::new(|k: Seq<u8>| self.lookup(k) is Some, |k: Seq<u8>| self.lookup(k).unwrap())
    }

    /// The one child whose label starts with the first byte of `k` decides
    /// what is stored under `k`.
    pub(crate) proof fn lemma_lookup_by_byte(self, k: Seq<u8>, i: int)
        requires
            self.ordered(),
            0 <= i < self.children@.len(),
            k.len() > 0,
            self.children@[i].label@[0] == k[0],
        ensures
            self.lookup(k) == self.children@[i].lookup_from(k),
    {
        assert forall|j: int|
            0 <= j < self.children@.len() && (#[trigger] self.children@[j]).label@.is_prefix_of(
                k,
            ) implies j == i by {
            let l = self.children@[j].label@;
            assert(l[0] == k.subrange(0, l.len() as int)[0]);
            if j < i {
                assert(self.children@[j].label@[0] < self.children@[i].label@[0]);
            }
            if i < j {
                assert(self.children@[i].label@[0] < self.children@[j].label@[0]);
            }
        }
    }

    /// Nothing is stored under `k` where no child's label starts with its first byte.
    pub(crate) proof fn lemma_lookup_no_byte(self, k: Seq<u8>)
        requires
            self.ordered(),
            k.len() > 0,
            forall|i: int|
                0 <= i < self.children@.len() ==> (#[trigger] self.children@[i]).label@[0] != k[0],
        ensures
            self.lookup(k) is None,
    {
        assert forall|j: int|
            0 <= j < self.children@.len() implies !(#[trigger] self.children@[j]).label@.is_prefix_of(
            k,
        ) by {
            let l = self.children@[j].label@;
            if l.is_prefix_of(k) {
                assert(l[0] == k.subrange(0, l.len() as int)[0]);
            }
        }
    }

    /// Replacing a child by a node whose label starts with the same byte
    /// changes nothing for the keys that start with another byte.
    pub(crate) proof fn lemma_child_replaced(self, after: RaxNode, i: int, k: Seq<u8>)
        requires
            self.ordered(),
            after.ordered(),
            after.value == self.value,
            0 <= i < self.children@.len(),
            after.children@.len() == self.children@.len(),
            forall|j: int|
                0 <= j < self.children@.len() && j != i ==> after.children@[j] == self.children@[j],
            after.children@[i].label@[0] == self.children@[i].label@[0],
            k.len() == 0 || k[0] != self.children@[i].label@[0],
        ensures
            after.lookup(k) == self.lookup(k),
    {
        if k.len() > 0 {
            if exists|j: int|
                0 <= j < self.children@.len() && (#[trigger] self.children@[j]).label@[0] == k[0] {
                let j = choose|j: int|
                    0 <= j < self.children@.len() && (#[trigger] self.children@[j]).label@[0] == k[0];
                self.lemma_lookup_by_byte(k, j);
                after.lemma_lookup_by_byte(k, j);
            } else {
                self.lemma_lookup_no_byte(k);
                assert forall|j: int| 0 <= j < after.children@.len() implies (
                #[trigger] after.children@[j]).label@[0] != k[0] by {
                    if j != i {
                        assert(self.children@[j].label@[0] != k[0]);
                    }
                }
                after.lemma_lookup_no_byte(k);
            }
        }
    }

    /// Where one child is replaced by a node whose label starts with the same
    /// byte, the keys that start with that byte are stored in the new child
    /// and all the others where they were.
    pub(crate) proof fn lemma_child_swapped(self, after: RaxNode, i: int)
        requires
            self.ordered(),
            after.ordered(),
            after.value == self.value,
            0 <= i < self.children@.len(),
            after.children@.len() == self.children@.len(),
            forall|j: int|
                0 <= j < self.children@.len() && j != i ==> after.children@[j] == self.children@[j],
            after.children@[i].label@[0] == self.children@[i].label@[0],
        ensures
            forall|k: Seq<u8>|
                #[trigger] after.lookup(k) == if k.len() > 0 && k[0] == self.children@[i].label@[0] {
                    after.children@[i].lookup_from(k)
                } else {
                    self.lookup(k)
                },
            forall|k: Seq<u8>|
                k.len() > 0 && k[0] == self.children@[i].label@[0] ==> #[trigger] self.lookup(k)
                    == self.children@[i].lookup_from(k),
    {
        assert forall|k: Seq<u8>|
            #[trigger] after.lookup(k) == if k.len() > 0 && k[0] == self.children@[i].label@[0] {
                after.children@[i].lookup_from(k)
            } else {
                self.lookup(k)
            } by {
            if k.len() > 0 && k[0] == self.children@[i].label@[0] {
                after.lemma_lookup_by_byte(k, i);
            } else {
                self.lemma_child_replaced(after, i, k);
            }
        }
        assert forall|k: Seq<u8>|
            k.len() > 0 && k[0] == self.children@[i].label@[0] implies #[trigger] self.lookup(k)
            == self.children@[i].lookup_from(k) by {
            self.lemma_lookup_by_byte(k, i);
        }
    }

    /// A new child changes nothing for the keys that start with another byte
    /// than its label.
    pub(crate) proof fn lemma_child_added(self, after: RaxNode, slot: int, k: Seq<u8>)
        requires
            self.ordered(),
            after.ordered(),
            after.value == self.value,
            0 <= slot <= self.children@.len(),
            after.children@ == self.children@.insert(slot, after.children@[slot]),
            k.len() == 0 || k[0] != after.children@[slot].label@[0],
        ensures
            after.lookup(k) == self.lookup(k),
    {
        if k.len() > 0 {
            if exists|j: int|
                0 <= j < self.children@.len() && (#[trigger] self.children@[j]).label@[0] == k[0] {
                let j = choose|j: int|
                    0 <= j < self.children@.len() && (#[trigger] self.children@[j]).label@[0] == k[0];
                self.lemma_lookup_by_byte(k, j);
                if j < slot {
                    after.lemma_lookup_by_byte(k, j);
                } else {
                    after.lemma_lookup_by_byte(k, j + 1);
                }
            } else {
                self.lemma_lookup_no_byte(k);
                assert forall|j: int| 0 <= j < after.children@.len() implies (
                #[trigger] after.children@[j]).label@[0] != k[0] by {
                    if j < slot {
                        assert(self.children@[j].label@[0] != k[0]);
                    } else if j > slot {
                        assert(self.children@[j - 1].label@[0] != k[0]);
                    }
                }
                after.lemma_lookup_no_byte(k);
            }
        }
    }

    /// Without one of its children a node stores what it stored before under
    /// the keys that start with another byte than that child's label.
    pub(crate) proof fn lemma_child_dropped(self, after: RaxNode, slot: int, k: Seq<u8>)
        requires
            self.ordered(),
            after.ordered(),
            after.value == self.value,
            0 <= slot < self.children@.len(),
            after.children@ == self.children@.remove(slot),
            k.len() == 0 || k[0] != self.children@[slot].label@[0],
        ensures
            after.lookup(k) == self.lookup(k),
    {
        if k.len() > 0 {
            if exists|j: int|
                0 <= j < self.children@.len() && (#[trigger] self.children@[j]).label@[0] == k[0] {
                let j = choose|j: int|
                    0 <= j < self.children@.len() && (#[trigger] self.children@[j]).label@[0] == k[0];
                self.lemma_lookup_by_byte(k, j);
                if j < slot {
                    after.lemma_lookup_by_byte(k, j);
                } else {
                    after.lemma_lookup_by_byte(k, j - 1);
                }
            } else {
                self.lemma_lookup_no_byte(k);
                assert forall|j: int| 0 <= j < after.children@.len() implies (
                #[trigger] after.children@[j]).label@[0] != k[0] by {
                    if j < slot {
                        assert(self.children@[j].label@[0] != k[0]);
                    } else {
                        assert(self.children@[j + 1].label@[0] != k[0]);
                    }
                }
                after.lemma_lookup_no_byte(k);
            }
        }
    }

    /// A node without children stores its own key at most.
    pub(crate) proof fn lemma_leaf_lookup(self, k: Seq<u8>)
        requires
            self.children@.len() == 0,
        ensures
            self.lookup(k) == if k.len() == 0 {
                self.value
            } else {
                None
            },
    {
    }

    /// Every node has its own shape.
    pub(crate) proof fn lemma_same_shape(self)
        ensures
            self.same_shape(self),
        decreases self,
    {
        assert forall|i: int| 0 <= i < self.children@.len() implies (
        #[trigger] self.children@[i]).same_shape(self.children@[i]) by {
            self.children@[i].lemma_same_shape();
        }
    }

    /// Two nodes with the same label and the same children have one shape.
    pub(crate) proof fn lemma_same_shape_of(self, other: RaxNode)
        requires
            self.label@ == other.label@,
            self.children@ == other.children@,
        ensures
            self.same_shape(other),
    {
        assert forall|i: int| 0 <= i < self.children@.len() implies (
        #[trigger] self.children@[i]).same_shape(other.children@[i]) by {
            self.children@[i].lemma_same_shape();
        }
    }

    /// A well-formed node is compressed, and so are all the nodes below it.
    pub(crate) proof fn lemma_wf_compressed(self)
        requires
            self.wf_below(),
        ensures
            self.compressed_below(),
        decreases self,
    {
        assert forall|i: int| 0 <= i < self.children@.len() implies (
        #[trigger] self.children@[i]).compressed() && self.children@[i].compressed_below() by {
            assert(self.children@[i].wf());
            self.children@[i].lemma_wf_compressed();
        }
    }

    /// Whether every node below this one is a key or has two children or more.
    pub(crate) fn is_compressed_below(&self) -> (r: bool)
        ensures
            r == self.compressed_below(),
        decreases self,
    {
        let mut i: usize = 0;
        while i < self.children.len()
            invariant
                i <= self.children@.len(),
                forall|j: int|
                    0 <= j < i ==> (#[trigger] self.children@[j]).compressed()
                        && self.children@[j].compressed_below(),
            decreases self.children@.len() - i,
        {
            let child: &RaxNode = &self.children[i];
            if child.value.is_none() && child.children.len() < 2 {
                return false;
            }
            if !child.is_compressed_below() {
                return false;
            }
            i += 1;
        }
        true
    }

    /// The place of the child whose label starts with `b`; where there is
    /// none, the place at which such a child would stand.
    pub(crate) fn child_slot(&self, b: u8) -> (r: (bool, usize))
        requires
            self.ordered(),
        ensures
            r.1 <= self.children@.len(),
            r.0 ==> r.1 < self.children@.len() && self.children@[r.1 as int].label@[0] == b,
            !r.0 ==> forall|i: int|
                0 <= i < self.children@.len() ==> (#[trigger] self.children@[i]).label@[0] != b && (
                i < r.1 <==> self.children@[i].label@[0] < b),
    {
        let mut lo: usize = 0;
        let mut hi: usize = self.children.len();
        while lo < hi
            invariant
                self.ordered(),
                lo <= hi <= self.children@.len(),
                forall|i: int| 0 <= i < lo ==> (#[trigger] self.children@[i]).label@[0] < b,
                forall|i: int|
                    hi <= i < self.children@.len() ==> (#[trigger] self.children@[i]).label@[0] > b,
            decreases hi - lo,
        {
            let mid: usize = lo + (hi - lo) / 2;
            let c: u8 = self.children[mid].label[0];
            if c == b {
                return (true, mid);
            }
            if c < b {
                assert forall|i: int| 0 <= i < mid + 1 implies (#[trigger] self.children@[i]).label@[0]
                    < b by {
                    if i < mid {
                        assert(self.children@[i].label@[0] < self.children@[mid as int].label@[0]);
                    }
                }
                lo = mid + 1;
            } else {
                assert forall|i: int|
                    mid <= i < self.children@.len() implies (#[trigger] self.children@[i]).label@[0]
                    > b by {
                    if mid < i {
                        assert(self.children@[mid as int].label@[0] < self.children@[i].label@[0]);
                    }
                }
                hi = mid;
            }
        }
        (false, lo)
    }
}

} // verus!

//! Removal: the walk down to the key, and the repair of the nodes that its
//! going leaves without a reason to be: a node without value and children
//! goes, and one without value and with a single child takes that child's
//! place, their labels joined.
//!
//! The walk goes down in a loop, with a mutable reference to the node that it
//! has reached, and stops at the parent of the node where the key ends: all
//! that has to change is that node and its parent.

use vstd::prelude::*;
use crate::node::RaxNode;
use crate::order::lemma_same_rest;

verus! {

impl RaxNode {
    /// Joins a node that has no value and a single child with that child.
    pub(crate) fn merge(&mut self)
        requires
            old(self).wf_below(),
            old(self).label@.len() > 0,
            old(self).value is None,
            old(self).children@.len() == 1,
        ensures
            final(self).wf(),
            final(self).label@ == old(self).label@ + old(self).children@[0].label@,
            forall|k: Seq<u8>| #[trigger] final(self).lookup_from(k) == old(self).lookup_from(k),
    {
        let ghost was = *self;
        let ghost only = self.children@[0];
        let taken: Option<RaxNode> = self.children.pop();
        let RaxNode { label, value, children } = taken.unwrap();
        self.label.extend_from_slice(label.as_slice());
        self.value = value;
        self.children = children;
        proof {
            let now = *self;
            assert(only.wf());
            assert(now.wf()) by {
                assert forall|i: int| 0 <= i < now.children@.len() implies (
                #[trigger] now.children@[i]).wf() by {
                    assert(only.children@[i].wf());
                }
            }
            let n = was.label@.len() as int;
            let m = only.label@.len() as int;
            assert forall|k: Seq<u8>| #[trigger] now.lookup_from(k) == was.lookup_from(k) by {
                if was.label@.is_prefix_of(k) {
                    let y = k.skip(n);
                    if y.len() == 0 {
                        assert(!now.label@.is_prefix_of(k));
                    } else if only.label@[0] == y[0] {
                        was.lemma_lookup_by_byte(y, 0);
                        if only.label@.is_prefix_of(y) {
                            assert(now.label@.is_prefix_of(k)) by {
                                assert(k.subrange(0, n + m) =~= k.subrange(0, n) + y.subrange(0, m));
                            }
                            assert(y.skip(m) =~= k.skip(n + m));
                        } else {
                            if now.label@.is_prefix_of(k) {
                                assert forall|j: int| 0 <= j < m implies only.label@[j] == y[j] by {
                                    assert(now.label@[n + j] == k.subrange(0, n + m)[n + j]);
                                }
                                assert(only.label@ =~= y.subrange(0, m));
                            }
                        }
                    } else {
                        was.lemma_lookup_no_byte(y);
                        if now.label@.is_prefix_of(k) {
                            assert(now.label@[n] == k.subrange(0, n + m)[n]);
                        }
                    }
                } else {
                    if now.label@.is_prefix_of(k) {
                        assert(was.label@ =~= k.subrange(0, n));
                    }
                }
            }
        }
    }

    /// `after` is `before` without the key `full`, which is read from the
    /// start of the node's label, as all keys are here. The root, which is
    /// `top`, keeps its label; another node stays well formed, its label
    /// starting as before.
    pub open(crate) spec fn cleared(before: RaxNode, after: RaxNode, full: Seq<u8>, top: bool) -> bool {
        &&& top ==> after.wf_below() && after.label@ == before.label@
        &&& !top ==> after.wf() && after.label@[0] == before.label@[0]
        &&& forall|k: Seq<u8>|
            #[trigger] after.lookup_from(k) == if k == full {
                None
            } else {
                before.lookup_from(k)
            }
    }

    /// Takes away the child at `slot`, which has no children: the key that
    /// ends there goes with it.
    pub(crate) fn drop_leaf(&mut self, slot: usize)
        requires
            old(self).wf_below(),
            slot < old(self).children@.len(),
            old(self).children@[slot as int].children@.len() == 0,
        ensures
            final(self).wf_below(),
            final(self).label@ == old(self).label@,
            final(self).value == old(self).value,
            final(self).children@.len() == old(self).children@.len() - 1,
            forall|k: Seq<u8>|
                #[trigger] final(self).lookup(k) == if k == old(self).children@[slot as int].label@ {
                    None
                } else {
                    old(self).lookup(k)
                },
    {
        let ghost before = *self;
        let ghost leaf = before.children@[slot as int];
        self.children.remove(slot);
        proof {
            let after = *self;
            let b = leaf.label@[0];
            assert(leaf.wf());
            assert(after.ordered()) by {
                assert forall|x: int|
                    0 <= x < after.children@.len() implies (#[trigger] after.children@[x]).label@.len()
                    > 0 by {
                    let ox = if x < slot { x } else { x + 1 };
                    assert(before.children@[ox].label@.len() > 0);
                }
                assert forall|x: int, y: int|
                    #![trigger after.children@[x], after.children@[y]]
                    0 <= x < y < after.children@.len() implies after.children@[x].label@[0]
                    < after.children@[y].label@[0] by {
                    let ox = if x < slot { x } else { x + 1 };
                    let oy = if y < slot { y } else { y + 1 };
                    assert(before.children@[ox].label@[0] < before.children@[oy].label@[0]);
                }
            }
            assert forall|j: int| 0 <= j < after.children@.len() implies (
            #[trigger] after.children@[j]).wf() by {
                let oj = if j < slot { j } else { j + 1 };
                assert(before.children@[oj].wf());
            }
            assert forall|k: Seq<u8>|
                #[trigger] after.lookup(k) == if k == leaf.label@ {
                    None
                } else {
                    before.lookup(k)
                } by {
                if k.len() > 0 && k[0] == b {
                    before.lemma_lookup_by_byte(k, slot as int);
                    if leaf.label@.is_prefix_of(k) {
                        leaf.lemma_leaf_lookup(k.skip(leaf.label@.len() as int));
                        if k.len() == leaf.label@.len() {
                            assert(k =~= leaf.label@);
                        }
                    }
                    assert forall|j: int| 0 <= j < after.children@.len() implies (
                    #[trigger] after.children@[j]).label@[0] != b by {
                        if j < slot {
                            assert(before.children@[j].label@[0] < before.children@[slot as int].label@[0]);
                        } else {
                            assert(before.children@[slot as int].label@[0] < before.children@[j
                                + 1].label@[0]);
                        }
                    }
                    after.lemma_lookup_no_byte(k);
                } else {
                    before.lemma_child_dropped(after, slot as int, k);
                }
            }
        }
    }

    /// Takes away the value of the child at `slot`, which has children: the
    /// key that ends there goes, and the child, where it has a single child,
    /// is joined with it.
    pub(crate) fn clear_child(&mut self, slot: usize)
        requires
            old(self).wf_below(),
            slot < old(self).children@.len(),
            old(self).children@[slot as int].children@.len() > 0,
        ensures
            final(self).wf_below(),
            final(self).label@ == old(self).label@,
            final(self).value == old(self).value,
            final(self).children@.len() == old(self).children@.len(),
            forall|k: Seq<u8>|
                #[trigger] final(self).lookup(k) == if k == old(self).children@[slot as int].label@ {
                    None
                } else {
                    old(self).lookup(k)
                },
    {
        let ghost before = *self;
        let ghost was = before.children@[slot as int];
        let child: &mut RaxNode = &mut self.children[slot];
        child.value = None;
        let ghost bare = *child;
        if child.children.len() == 1 {
            child.merge();
        }
        proof {
            let after = *self;
            let now = after.children@[slot as int];
            assert(was.wf());
            assert(now.wf());
            assert(after.ordered()) by {
                assert forall|x: int, y: int|
                    #![trigger after.children@[x], after.children@[y]]
                    0 <= x < y < after.children@.len() implies after.children@[x].label@[0]
                    < after.children@[y].label@[0] by {
                    assert(before.children@[x].label@[0] < before.children@[y].label@[0]);
                }
            }
            assert forall|j: int| 0 <= j < after.children@.len() implies (
            #[trigger] after.children@[j]).wf() by {
                if j != slot {
                    assert(before.children@[j].wf());
                }
            }
            before.lemma_child_swapped(after, slot as int);
            assert forall|k: Seq<u8>|
                #[trigger] now.lookup_from(k) == if k == was.label@ {
                    None
                } else {
                    was.lookup_from(k)
                } by {
                assert(now.lookup_from(k) == bare.lookup_from(k));
                if was.label@.is_prefix_of(k) {
                    if k.len() == was.label@.len() {
                        assert(k =~= was.label@);
                    }
                }
            }
            assert forall|k: Seq<u8>|
                #[trigger] after.lookup(k) == if k == was.label@ {
                    None
                } else {
                    before.lookup(k)
                } by {
                if k.len() > 0 && k[0] == was.label@[0] {
                    assert(after.lookup(k) == now.lookup_from(k));
                }
            }
        }
    }

    /// A node that lost a key below its label lost it read from the start of
    /// its label too.
    pub(crate) proof fn lemma_cleared_below(before: RaxNode, after: RaxNode, rest: Seq<u8>)
        requires
            after.label@ == before.label@,
            forall|k: Seq<u8>|
                #[trigger] after.lookup(k) == if k == rest {
                    None
                } else {
                    before.lookup(k)
                },
        ensures
            forall|k: Seq<u8>|
                #[trigger] after.lookup_from(k) == if k == before.label@ + rest {
                    None
                } else {
                    before.lookup_from(k)
                },
    {
        let full = before.label@ + rest;
        assert(before.label@.is_prefix_of(full)) by {
            assert(full.subrange(0, before.label@.len() as int) =~= before.label@);
        }
        assert(full.skip(before.label@.len() as int) =~= rest);
        assert forall|k: Seq<u8>|
            #[trigger] after.lookup_from(k) == if k == full {
                None
            } else {
                before.lookup_from(k)
            } by {
            if before.label@.is_prefix_of(k) {
                lemma_same_rest(before.label@, k, full);
            }
        }
    }

    /// A step of the walk down: a node of which one child lost a key lost
    /// that key.
    pub(crate) proof fn lemma_cleared_step(
        before: RaxNode,
        after: RaxNode,
        i: int,
        full: Seq<u8>,
        top: bool,
    )
        requires
            before.wf_below(),
            !top ==> before.wf(),
            0 <= i < before.children@.len(),
            after.label@ == before.label@,
            after.value == before.value,
            after.children@ == before.children@.update(i, after.children@[i]),
            full.len() > 0,
            full[0] == before.children@[i].label@[0],
            Self::cleared(before.children@[i], after.children@[i], full, false),
        ensures
            Self::cleared(before, after, before.label@ + full, top),
    {
        let was = before.children@[i];
        let now = after.children@[i];
        assert(after.ordered()) by {
            assert forall|x: int, y: int|
                #![trigger after.children@[x], after.children@[y]]
                0 <= x < y < after.children@.len() implies after.children@[x].label@[0]
                < after.children@[y].label@[0] by {
                assert(before.children@[x].label@[0] < before.children@[y].label@[0]);
            }
        }
        assert forall|j: int| 0 <= j < after.children@.len() implies (
        #[trigger] after.children@[j]).wf() by {
            if j != i {
                assert(before.children@[j].wf());
            }
        }
        before.lemma_child_swapped(after, i);
        assert forall|k: Seq<u8>|
            #[trigger] after.lookup(k) == if k == full {
                None
            } else {
                before.lookup(k)
            } by {
            if k.len() > 0 && k[0] == was.label@[0] {
                assert(after.lookup(k) == now.lookup_from(k));
            }
        }
        Self::lemma_cleared_below(before, after, full);
    }

    /// Takes away `key`, which is read from the end of this node's label and
    /// is stored below it. The node is the root of the trie.
    #[verifier::loop_isolation(false)]
    pub(crate) fn remove_below(&mut self, key: &[u8])
        requires
            old(self).wf_below(),
            old(self).label@.len() == 0,
            old(self).lookup(key@) is Some,
        ensures
            final(self).wf_below(),
            final(self).label@ == old(self).label@,
            forall|k: Seq<u8>|
                #[trigger] final(self).lookup(k) == if k == key@ {
                    None
                } else {
                    old(self).lookup(k)
                },
    {
        // `shrunk` is the root as the call will leave it. The loop keeps the
        // promise that the root will have lost the key once the node that the
        // walk has reached has.
        let ghost root = *self;
        let ghost shrunk = *final(self);
        proof {
            // With an empty label the two ways to read a key are one.
            assert forall|n: RaxNode, k: Seq<u8>|
                n.label@.len() == 0 implies #[trigger] n.lookup_from(k) == n.lookup(k) by {
                if n.label@.len() == 0 {
                    assert(n.label@ =~= k.subrange(0, 0));
                    assert(k.skip(0) =~= k);
                }
            }
        }
        if key.len() == 0 {
            self.value = None;
            proof {
                assert forall|k: Seq<u8>|
                    #[trigger] self.lookup(k) == if k == key@ {
                        None
                    } else {
                        root.lookup(k)
                    } by {
                    if k.len() == 0 {
                        assert(k =~= key@);
                    }
                }
            }
            return ;
        }
        let mut cur: &mut RaxNode = self;
        let mut pos: usize = 0;
        let mut top: bool = true;
        let ghost mut start: int = 0;
        proof {
            assert(key@.skip(0) =~= key@);
            assert(cur.label@ =~= key@.subrange(0, 0));
        }
        loop
            invariant
                0 <= start <= pos < key.len(),
                cur.label@ == key@.subrange(start, pos as int),
                cur.wf_below(),
                top ==> start == 0 && pos == 0,
                !top ==> cur.wf(),
                cur.lookup(key@.skip(pos as int)) is Some,
                Self::cleared(*cur, *final(cur), key@.skip(start), top) ==> Self::cleared(
                    root,
                    shrunk,
                    key@,
                    true,
                ),
            decreases key.len() - pos,
        {
            let ghost here = *cur;
            let ghost rest = key@.skip(pos as int);
            let ghost full = key@.skip(start);
            let (found, i) = cur.child_slot(key[pos]);
            proof {
                if !found {
                    here.lemma_lookup_no_byte(rest);
                }
                here.lemma_lookup_by_byte(rest, i as int);
                assert(full =~= here.label@ + rest);
            }
            let ghost was = here.children@[i as int];
            let n: usize = cur.children[i].label.len();
            proof {
                assert(was.wf());
                assert(rest.skip(n as int) =~= key@.skip(pos + n));
                assert(was.label@ =~= key@.subrange(pos as int, pos + n)) by {
                    assert(rest.subrange(0, n as int) =~= key@.subrange(pos as int, pos + n));
                }
            }
            if pos + n == key.len() {
                // The key ends at the child: the child loses its value, and
                // goes where it has no children.
                proof {
                    assert(rest =~= was.label@);
                }
                if cur.children[i].children.len() == 0 {
                    cur.drop_leaf(i);
                    let ghost bare = *cur;
                    if !top && cur.value.is_none() && cur.children.len() == 1 {
                        cur.merge();
                    }
                    proof {
                        Self::lemma_cleared_below(here, bare, rest);
                    }
                } else {
                    cur.clear_child(i);
                    proof {
                        Self::lemma_cleared_below(here, *cur, rest);
                    }
                }
                proof {
                    assert(Self::cleared(here, *cur, full, top));
                    assert forall|k: Seq<u8>|
                        #[trigger] shrunk.lookup(k) == if k == key@ {
                            None
                        } else {
                            root.lookup(k)
                        } by {
                        assert(shrunk.lookup_from(k) == shrunk.lookup(k));
                        assert(root.lookup_from(k) == root.lookup(k));
                    }
                }
                return ;
            }
            // The key goes on below the child: so does the walk.
            let ghost owed = *final(cur);
            let ghost above = top;
            cur = &mut cur.children[i];
            proof {
                if Self::cleared(*cur, *final(cur), rest, false) {
                    Self::lemma_cleared_step(here, owed, i as int, rest, above);
                }
                start = pos as int;
            }
            pos += n;
            top = false;
        }
    }
}

} // verus!

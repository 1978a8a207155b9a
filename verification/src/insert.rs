//! Insertion: the walk down the trie, the leaf for a new key, and the split of
//! a node whose label the new key leaves half way.
//!
//! The walk goes down in a loop, with a mutable reference to the node that it
//! has reached. Nothing is changed on the way: the one change is made where
//! the walk ends. What the loop knows at each node is that the change there,
//! once made, is the change of the whole trie that the insertion owes.
//!
//! All the memory that an insertion needs is reserved before the trie is
//! touched, so an insertion that fails leaves every key and value in place.

use vstd::prelude::*;
use vstd::slice::slice_subrange;
use crate::error::{reserve, RaxError};
use crate::node::RaxNode;
use crate::order::{common_prefix_len, lemma_same_rest};

verus! {

impl RaxNode {
    /// Cuts the label at `at`. The node keeps the first part and becomes an
    /// inner node without a value; its one child takes the rest of the label,
    /// the value and the children. `tail_label` and `kids` are empty buffers
    /// for the child's label and for the node's new list of children.
    pub(crate) fn split(&mut self, at: usize, tail_label: Vec<u8>, kids: Vec<RaxNode>)
        requires
            old(self).wf(),
            0 < at < old(self).label@.len(),
            tail_label@.len() == 0,
            kids@.len() == 0,
        ensures
            final(self).wf_below(),
            final(self).label@ == old(self).label@.take(at as int),
            final(self).value is None,
            final(self).children@.len() == 1,
            final(self).children@[0].label@ == old(self).label@.skip(at as int),
            final(self).children@[0].value == old(self).value,
            final(self).children@[0].children == old(self).children,
    {
        let mut tail_label = tail_label;
        let mut kids = kids;
        tail_label.extend_from_slice(slice_subrange(self.label.as_slice(), at, self.label.len()));
        self.label.truncate(at);
        core::mem::swap(&mut kids, &mut self.children);
        let tail = RaxNode { label: tail_label, value: self.value, children: kids };
        self.value = None;
        self.children.push(tail);
        proof {
            assert(self.children@[0].label@ =~= old(self).label@.skip(at as int));
            assert(self.children@[0].wf());
        }
    }

    /// Gives the node a new child at `slot`: a leaf that holds `value` under
    /// the part of `key` from `pos` on. `label` is an empty buffer for the
    /// leaf's label.
    pub(crate) fn add_leaf(&mut self, key: &[u8], pos: usize, slot: usize, label: Vec<u8>, value: i32)
        requires
            old(self).wf_below(),
            pos < key.len(),
            slot <= old(self).children@.len(),
            label@.len() == 0,
            forall|j: int|
                0 <= j < old(self).children@.len() ==> (#[trigger] old(self).children@[j]).label@[0]
                    != key@[pos as int] && (j < slot <==> old(self).children@[j].label@[0]
                    < key@[pos as int]),
        ensures
            final(self).wf_below(),
            final(self).label == old(self).label,
            final(self).value == old(self).value,
            final(self).children@.len() == old(self).children@.len() + 1,
            forall|k: Seq<u8>|
                #[trigger] final(self).lookup(k) == if k == key@.skip(pos as int) {
                    Some(value)
                } else {
                    old(self).lookup(k)
                },
    {
        let ghost before = *self;
        let ghost rest = key@.skip(pos as int);
        let mut label = label;
        label.extend_from_slice(slice_subrange(key, pos, key.len()));
        let leaf = RaxNode { label, value: Some(value), children: Vec::new() };
        self.children.insert(slot, leaf);
        proof {
            let after = *self;
            let b = key@[pos as int];
            assert(after.children@[slot as int].label@ =~= rest);
            assert(after.ordered()) by {
                assert forall|x: int, y: int|
                    #![trigger after.children@[x], after.children@[y]]
                    0 <= x < y < after.children@.len() implies after.children@[x].label@[0]
                    < after.children@[y].label@[0] by {
                    let ox = if x < slot { x } else { x - 1 };
                    let oy = if y < slot { y } else { y - 1 };
                    if x != slot && y != slot {
                        assert(before.children@[ox].label@[0] < before.children@[oy].label@[0]);
                    } else if x == slot {
                        assert(before.children@[oy].label@[0] != b);
                    } else {
                        assert(before.children@[ox].label@[0] != b);
                    }
                }
            }
            assert forall|j: int| 0 <= j < after.children@.len() implies (
            #[trigger] after.children@[j]).wf() by {
                if j < slot {
                    assert(before.children@[j].wf());
                } else if j > slot {
                    assert(before.children@[j - 1].wf());
                }
            }
            assert forall|k: Seq<u8>|
                #[trigger] after.lookup(k) == if k == rest {
                    Some(value)
                } else {
                    before.lookup(k)
                } by {
                if k.len() > 0 && k[0] == b {
                    before.lemma_lookup_no_byte(k);
                    after.lemma_lookup_by_byte(k, slot as int);
                    let leaf = after.children@[slot as int];
                    if leaf.label@.is_prefix_of(k) {
                        leaf.lemma_leaf_lookup(k.skip(leaf.label@.len() as int));
                        if k.len() == rest.len() {
                            assert(k =~= rest);
                        }
                    }
                } else {
                    before.lemma_child_added(after, slot as int, k);
                }
            }
        }
    }

    /// `after` is `before` with `value` stored under `rest`, where `done`,
    /// and with what `before` stored where not; `rest` is read from the end
    /// of the node's label. The node keeps its label, its being a key and at
    /// least its children; where it held `rest` already, and where nothing
    /// was done, it keeps its shape.
    pub open(crate) spec fn put(
        before: RaxNode,
        after: RaxNode,
        rest: Seq<u8>,
        value: i32,
        done: bool,
    ) -> bool {
        &&& after.wf_below()
        &&& after.label@ == before.label@
        &&& (before.value is Some ==> after.value is Some)
        &&& after.children@.len() >= before.children@.len()
        &&& (before.lookup(rest) is Some ==> done && after.same_shape(before))
        &&& (!done ==> after.same_shape(before))
        &&& forall|k: Seq<u8>|
            #[trigger] after.lookup(k) == if done && k == rest {
                Some(value)
            } else {
                before.lookup(k)
            }
    }

    /// A node of which one child was replaced, by a well-formed node with
    /// the same first byte that stores `value` under `rest`, where `done`,
    /// and what the old child stored where not, stores the same itself.
    pub(crate) proof fn lemma_put_child(
        before: RaxNode,
        after: RaxNode,
        i: int,
        rest: Seq<u8>,
        value: i32,
        done: bool,
    )
        requires
            before.wf_below(),
            0 <= i < before.children@.len(),
            after.label@ == before.label@,
            after.value == before.value,
            after.children@ == before.children@.update(i, after.children@[i]),
            after.children@[i].wf(),
            after.children@[i].label@[0] == before.children@[i].label@[0],
            rest.len() > 0,
            rest[0] == before.children@[i].label@[0],
            before.children@[i].lookup_from(rest) is Some ==> done && after.children@[i].same_shape(
                before.children@[i],
            ),
            !done ==> after.children@[i].same_shape(before.children@[i]),
            forall|k: Seq<u8>|
                #[trigger] after.children@[i].lookup_from(k) == if done && k == rest {
                    Some(value)
                } else {
                    before.children@[i].lookup_from(k)
                },
        ensures
            Self::put(before, after, rest, value, done),
    {
        assert(after.ordered()) by {
            assert forall|x: int, y: int|
                #![trigger after.children@[x], after.children@[y]]
                0 <= x < y < after.children@.len() implies after.children@[x].label@[0]
                < after.children@[y].label@[0] by {
                assert(before.children@[x].label@[0] < before.children@[y].label@[0]);
            }
        }
        assert forall|j: int| 0 <= j < after.children@.len() implies (
        #[trigger] after.children@[j]).wf() by {
            if j != i {
                assert(before.children@[j].wf());
            }
        }
        before.lemma_child_swapped(after, i);
        before.lemma_lookup_by_byte(rest, i);
        if before.lookup(rest) is Some || !done {
            assert forall|j: int| 0 <= j < after.children@.len() implies (
            #[trigger] after.children@[j]).same_shape(before.children@[j]) by {
                if j != i {
                    before.children@[j].lemma_same_shape();
                }
            }
        }
    }

    /// A step of the walk down: what is owed below a child whose label the
    /// key passes in full is what is owed at the node.
    pub(crate) proof fn lemma_put_step(
        before: RaxNode,
        after: RaxNode,
        i: int,
        rest: Seq<u8>,
        value: i32,
        done: bool,
    )
        requires
            before.wf_below(),
            0 <= i < before.children@.len(),
            after.label@ == before.label@,
            after.value == before.value,
            after.children@ == before.children@.update(i, after.children@[i]),
            before.children@[i].label@.is_prefix_of(rest),
            Self::put(
                before.children@[i],
                after.children@[i],
                rest.skip(before.children@[i].label@.len() as int),
                value,
                done,
            ),
        ensures
            Self::put(before, after, rest, value, done),
    {
        let was = before.children@[i];
        let now = after.children@[i];
        let deeper = rest.skip(was.label@.len() as int);
        assert(was.wf());
        assert(was.label@[0] == rest.subrange(0, was.label@.len() as int)[0]);
        assert forall|k: Seq<u8>|
            #[trigger] now.lookup_from(k) == if done && k == rest {
                Some(value)
            } else {
                was.lookup_from(k)
            } by {
            if was.label@.is_prefix_of(k) {
                lemma_same_rest(was.label@, k, rest);
            }
        }
        if was.lookup_from(rest) is Some {
            assert(now.same_shape(was));
        }
        Self::lemma_put_child(before, after, i, rest, value, done);
    }

    /// Cuts the label after `n` bytes, which are the bytes of `key` from
    /// `pos` on, and stores `value` under the key: at the cut, where the key
    /// ends there, and else in a new leaf below it. The three buffers are
    /// empty, with room for what the cut needs.
    pub(crate) fn cut_in(
        &mut self,
        key: &[u8],
        pos: usize,
        n: usize,
        tail_label: Vec<u8>,
        kids: Vec<RaxNode>,
        leaf_label: Vec<u8>,
        value: i32,
    )
        requires
            old(self).wf(),
            pos < key.len(),
            0 < n < old(self).label@.len(),
            pos + n <= key.len(),
            old(self).label@.take(n as int) == key@.subrange(pos as int, pos + n),
            pos + n < key.len() ==> old(self).label@[n as int] != key@[pos + n],
            tail_label@.len() == 0,
            kids@.len() == 0,
            leaf_label@.len() == 0,
        ensures
            final(self).wf(),
            final(self).label@[0] == old(self).label@[0],
            old(self).lookup_from(key@.skip(pos as int)) is None,
            forall|k: Seq<u8>|
                #[trigger] final(self).lookup_from(k) == if k == key@.skip(pos as int) {
                    Some(value)
                } else {
                    old(self).lookup_from(k)
                },
    {
        let ghost was = *self;
        let ghost rest = key@.skip(pos as int);
        proof {
            assert(rest.take(n as int) =~= key@.subrange(pos as int, pos + n));
            assert(rest.skip(n as int) =~= key@.skip(pos + n));
            if was.label@.is_prefix_of(rest) {
                assert(was.label@[n as int] == rest.subrange(0, was.label@.len() as int)[n as int]);
            }
        }
        self.split(n, tail_label, kids);
        let ghost cut = *self;
        if pos + n == key.len() {
            self.value = Some(value);
        } else {
            let slot: usize = if key[pos + n] < self.children[0].label[0] {
                0
            } else {
                1
            };
            self.add_leaf(key, pos + n, slot, leaf_label, value);
        }
        proof {
            let now = *self;
            let deeper = key@.skip(pos + n);
            assert(cut.label@ =~= rest.take(n as int));
            // The node stores what the cut one did, and the new key.
            assert forall|x: Seq<u8>|
                #[trigger] now.lookup(x) == if x == deeper {
                    Some(value)
                } else {
                    cut.lookup(x)
                } by {
                if pos + n == key.len() {
                    if x.len() == 0 {
                        assert(x =~= deeper);
                    }
                }
            }
            Self::lemma_cut_lookup(was, cut, n as int);
            assert forall|k: Seq<u8>|
                #[trigger] now.lookup_from(k) == if k == rest {
                    Some(value)
                } else {
                    was.lookup_from(k)
                } by {
                if cut.label@.is_prefix_of(k) {
                    lemma_same_rest(cut.label@, k, rest);
                    assert(was.lookup_from(k) == cut.lookup_from(k));
                } else {
                    if was.label@.is_prefix_of(k) {
                        assert(cut.label@ =~= k.subrange(0, n as int));
                    }
                }
            }
        }
    }

    /// Stores `value` under `key`, read from the end of this node's label,
    /// and returns what was stored there before. Fails, with nothing
    /// changed, where memory for a new node cannot be had; a key that is
    /// there already needs none.
    #[verifier::loop_isolation(false)]
    pub(crate) fn insert_below(&mut self, key: &[u8], value: i32) -> (r: Result<
        Option<i32>,
        RaxError,
    >)
        requires
            old(self).wf_below(),
        ensures
            Self::put(*old(self), *final(self), key@, value, r is Ok),
            r is Ok ==> r->Ok_0 == old(self).lookup(key@),
            r is Err ==> r->Err_0 == RaxError::OutOfMemory,
    {
        // `grown` is the node as the call will leave it. The loop keeps the
        // promise that the node will be left as it should be once the node
        // that the walk has reached is.
        let ghost root = *self;
        let ghost grown = *final(self);
        let mut cur: &mut RaxNode = self;
        let mut pos: usize = 0;
        proof {
            assert(key@.skip(0) =~= key@);
        }
        loop
            invariant
                pos <= key.len(),
                cur.wf_below(),
                root.lookup(key@) == cur.lookup(key@.skip(pos as int)),
                forall|done: bool|
                    #[trigger] Self::put(*cur, *final(cur), key@.skip(pos as int), value, done)
                        ==> Self::put(root, grown, key@, value, done),
            decreases key.len() - pos,
        {
            let ghost here = *cur;
            let ghost rest = key@.skip(pos as int);
            if pos == key.len() {
                let prev: Option<i32> = cur.value;
                cur.value = Some(value);
                proof {
                    here.lemma_same_shape();
                    assert forall|k: Seq<u8>|
                        #[trigger] cur.lookup(k) == if k == rest {
                            Some(value)
                        } else {
                            here.lookup(k)
                        } by {
                        if k.len() == 0 {
                            assert(k =~= rest);
                        }
                    }
                    assert(Self::put(here, *cur, rest, value, true));
                }
                return Ok(prev);
            }
            let b: u8 = key[pos];
            let (found, i) = cur.child_slot(b);
            if !found {
                proof {
                    here.lemma_lookup_no_byte(rest);
                }
                let mut label: Vec<u8> = Vec::new();
                if reserve(&mut label, key.len() - pos).is_err() {
                    proof {
                        cur.lemma_same_shape_of(here);
                        assert(Self::put(here, *cur, rest, value, false));
                    }
                    return Err(RaxError::OutOfMemory);
                }
                if reserve(&mut cur.children, 1).is_err() {
                    proof {
                        // The list of children may have moved; it holds what it held.
                        cur.lemma_same_shape_of(here);
                        assert(Self::put(here, *cur, rest, value, false));
                    }
                    return Err(RaxError::OutOfMemory);
                }
                cur.add_leaf(key, pos, i, label, value);
                proof {
                    assert(Self::put(here, *cur, rest, value, true));
                }
                return Ok(None);
            }
            let n: usize = common_prefix_len(cur.children[i].label.as_slice(), key, pos);
            let whole: usize = cur.children[i].label.len();
            let ghost was = here.children@[i as int];
            proof {
                assert(rest.take(n as int) =~= key@.subrange(pos as int, pos + n));
                assert(rest.skip(n as int) =~= key@.skip(pos + n));
                here.lemma_lookup_by_byte(rest, i as int);
                assert(was.wf());
            }
            if n < whole {
                // The key leaves the child's label after `n` bytes.
                let mut tail_label: Vec<u8> = Vec::new();
                let mut kids: Vec<RaxNode> = Vec::new();
                let mut leaf_label: Vec<u8> = Vec::new();
                proof {
                    if was.label@.is_prefix_of(rest) {
                        assert(was.label@[n as int] == rest.subrange(0, whole as int)[n as int]);
                    }
                    cur.lemma_same_shape_of(here);
                    assert(Self::put(here, *cur, rest, value, false));
                }
                if reserve(&mut tail_label, whole - n).is_err() {
                    return Err(RaxError::OutOfMemory);
                }
                if reserve(&mut kids, 2).is_err() {
                    return Err(RaxError::OutOfMemory);
                }
                if reserve(&mut leaf_label, key.len() - pos - n).is_err() {
                    return Err(RaxError::OutOfMemory);
                }
                let child: &mut RaxNode = &mut cur.children[i];
                child.cut_in(key, pos, n, tail_label, kids, leaf_label, value);
                proof {
                    Self::lemma_put_child(here, *cur, i as int, rest, value, true);
                }
                return Ok(None);
            }
            // The key passes the child's label in full: the walk goes on
            // below the child.
            let ghost owed = *final(cur);
            cur = &mut cur.children[i];
            pos += n;
            proof {
                assert(was.label@ =~= rest.take(n as int));
                assert(was.label@.is_prefix_of(rest)) by {
                    assert(rest.subrange(0, n as int) =~= rest.take(n as int));
                }
                assert forall|done: bool|
                    #[trigger] Self::put(
                        *cur,
                        *final(cur),
                        key@.skip(pos as int),
                        value,
                        done,
                    ) implies Self::put(root, grown, key@, value, done) by {
                    Self::lemma_put_step(here, owed, i as int, rest, value, done);
                    assert(Self::put(here, owed, rest, value, done));
                }
            }
        }
    }

    /// A node that was cut stores, read from the start of its label, what it
    /// stored before.
    pub(crate) proof fn lemma_cut_lookup(was: RaxNode, cut: RaxNode, n: int)
        requires
            0 < n < was.label@.len(),
            cut.label@ == was.label@.take(n),
            cut.value is None,
            cut.children@.len() == 1,
            cut.children@[0].label@ == was.label@.skip(n),
            cut.children@[0].value == was.value,
            cut.children@[0].children == was.children,
            cut.ordered(),
        ensures
            forall|k: Seq<u8>| #[trigger] cut.lookup_from(k) == was.lookup_from(k),
    {
        assert forall|k: Seq<u8>| #[trigger] cut.lookup_from(k) == was.lookup_from(k) by {
            let tail = cut.children@[0];
            assert(was.label@ =~= cut.label@ + tail.label@);
            if cut.label@.is_prefix_of(k) {
                let y = k.skip(n);
                if y.len() == 0 {
                    assert(!was.label@.is_prefix_of(k));
                } else if tail.label@[0] == y[0] {
                    cut.lemma_lookup_by_byte(y, 0);
                    if tail.label@.is_prefix_of(y) {
                        assert(was.label@.is_prefix_of(k)) by {
                            assert(k.subrange(0, was.label@.len() as int) =~= k.subrange(0, n)
                                + y.subrange(0, tail.label@.len() as int));
                        }
                        assert(y.skip(tail.label@.len() as int) =~= k.skip(was.label@.len() as int));
                    } else {
                        if was.label@.is_prefix_of(k) {
                            assert(tail.label@ =~= y.subrange(0, tail.label@.len() as int));
                        }
                    }
                } else {
                    cut.lemma_lookup_no_byte(y);
                    if was.label@.is_prefix_of(k) {
                        assert(was.label@[n] == k.subrange(0, was.label@.len() as int)[n]);
                    }
                }
            } else {
                if was.label@.is_prefix_of(k) {
                    assert(cut.label@ =~= k.subrange(0, n));
                }
            }
        }
    }
}

} // verus!

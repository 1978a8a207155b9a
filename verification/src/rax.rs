//! The trie: a map from byte strings to integers, kept as a compressed radix tree.

use vstd::prelude::*;
use crate::error::RaxError;
use crate::node::RaxNode;
use crate::order::common_prefix_len;

verus! {

/// A compressed radix trie from byte strings to `i32` values.
pub struct Rax {
    pub(crate) head: RaxNode,
}

impl Rax {
    /// The keys that the trie stores, each with its value.
    pub open(crate) spec fn view(&self) -> Map<Seq<u8>, i32> {
        self.head.entries()
    }

    /// The root has an empty label; every other node has a label that is not
    /// empty, is a key or has two children or more, and has its children in
    /// the order of the first bytes of their labels, which all differ. The
    /// keys are finitely many.
    pub open(crate) spec fn wf(&self) -> bool {
        &&& self.head.label@.len() == 0
        &&& self.head.wf_below()
        &&& self@.dom().finite()
    }

    /// An empty trie.
    pub fn new() -> (t: Self)
        ensures
            t.wf(),
            t@ == Map::<Seq<u8>, i32>::empty(),
    {
        let t = Rax { head: RaxNode { label: Vec::new(), value: None, children: Vec::new() } };
        proof {
            assert forall|k: Seq<u8>| t.head.lookup(k) is None by {
                if k.len() > 0 {
                    t.head.lemma_lookup_no_byte(k);
                }
            }
            assert(t@ =~= Map::<Seq<u8>, i32>::empty());
        }
        t
    }

    /// The value stored under `key`, if the trie holds that key.
    pub fn find(&self, key: &[u8]) -> (r: Option<i32>)
        requires
            self.wf(),
        ensures
            r == self@.get(key@),
    {
        let mut node: &RaxNode = &self.head;
        let mut pos: usize = 0;
        assert(key@.skip(0) =~= key@);
        while pos < key.len()
            invariant
                pos <= key.len(),
                node.wf_below(),
                self.head.lookup(key@) == node.lookup(key@.skip(pos as int)),
            decreases key.len() - pos,
        {
            let ghost rest = key@.skip(pos as int);
            let (found, i) = node.child_slot(key[pos]);
            if !found {
                proof {
                    node.lemma_lookup_no_byte(rest);
                }
                return None;
            }
            let child: &RaxNode = &node.children[i];
            let n: usize = common_prefix_len(child.label.as_slice(), key, pos);
            proof {
                node.lemma_lookup_by_byte(rest, i as int);
                assert(rest.subrange(0, n as int) =~= key@.subrange(pos as int, pos + n));
            }
            if n < child.label.len() {
                proof {
                    if child.label@.is_prefix_of(rest) {
                        assert(child.label@[n as int] == rest.subrange(
                            0,
                            child.label@.len() as int,
                        )[n as int]);
                    }
                }
                return None;
            }
            proof {
                assert(child.label@ =~= child.label@.take(n as int));
                assert(rest.skip(n as int) =~= key@.skip(pos + n));
            }
            node = child;
            pos += n;
        }
        assert(key@.skip(pos as int).len() == 0);
        node.value
    }

    /// Stores `value` under `key` and returns the value that `key` had before,
    /// if it had one. A key that is in the trie gets its new value in place,
    /// which never fails. A new key needs memory for its node: where that
    /// cannot be had the call fails and the trie is left as it was, with the
    /// nodes, labels, keys and values that it had.
    pub fn insert(&mut self, key: &[u8], value: i32) -> (r: Result<Option<i32>, RaxError>)
        requires
            old(self).wf(),
        ensures
            final(self).wf(),
            r is Ok ==> r->Ok_0 == old(self)@.get(key@) && final(self)@ == old(self)@.insert(
                key@,
                value,
            ),
            r is Err ==> r->Err_0 == RaxError::OutOfMemory && final(self)@ == old(self)@,
            r is Err ==> final(self).same_shape(*old(self)),
            old(self)@.contains_key(key@) ==> r is Ok && final(self).same_shape(*old(self)),
    {
        let r = self.head.insert_below(key, value);
        proof {
            if r is Ok {
                assert(self@ =~= old(self)@.insert(key@, value));
            } else {
                assert(self@ =~= old(self)@);
            }
        }
        r
    }

    /// Takes `key` away, with its value. Where the trie does not hold `key`
    /// the call fails and the trie is left as it was, node for node.
    pub fn remove(&mut self, key: &[u8]) -> (r: Result<(), RaxError>)
        requires
            old(self).wf(),
        ensures
            final(self).wf(),
            old(self)@.contains_key(key@) ==> r is Ok && final(self)@ == old(self)@.remove(key@),
            !old(self)@.contains_key(key@) ==> r == Err::<(), RaxError>(RaxError::NotFound)
                && *final(self) == *old(self),
    {
        if self.find(key).is_none() {
            return Err(RaxError::NotFound);
        }
        self.head.remove_below(key);
        proof {
            assert(self@ =~= old(self)@.remove(key@));
        }
        Ok(())
    }

    /// The two tries have the same nodes with the same labels: they differ in
    /// values at most.
    pub open(crate) spec fn same_shape(&self, other: Rax) -> bool {
        self.head.same_shape(other.head)
    }

    /// Every node but the root is a key or has two children or more.
    pub open(crate) spec fn compressed(&self) -> bool {
        self.head.compressed_below()
    }

    /// Whether every node but the root is a key or has two children or
    /// more, found by a walk over all nodes. It holds of every well-formed
    /// trie.
    pub fn is_compressed(&self) -> (r: bool)
        ensures
            r == self.compressed(),
            self.wf() ==> r,
    {
        proof {
            if self.wf() {
                self.head.lemma_wf_compressed();
            }
        }
        self.head.is_compressed_below()
    }
}

} // verus!

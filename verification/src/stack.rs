//! The way from the root to a position in the trie, kept as a stack of frames,
//! and the steps that move the position: down to a child, up to the parent.
//!
//! The stack only borrows the nodes. Beside it runs the key of the position:
//! the labels of the nodes on the way, one after the other.

use vstd::prelude::*;
use crate::node::RaxNode;
use crate::position::{at, lemma_at_child, lemma_at_root};
use crate::rax::Rax;

verus! {

/// One node on the way from the root to the position.
#[derive(Clone, Copy)]
pub struct RaxFrame<'a> {
    /// The node.
    pub(crate) node: &'a RaxNode,
    /// Its place among the children of the node before it (0 for the root).
    pub(crate) slot: usize,
    /// How many bytes of the key are consumed at the end of its label.
    pub(crate) consumed: usize,
}

/// The nodes from the root to the position, the root first.
pub struct RaxStack<'a> {
    pub(crate) frames: Vec<RaxFrame<'a>>,
}

/// `down` is a child of `up`, and its label is the part of `key` between them.
pub open(crate) spec fn linked(up: RaxFrame, down: RaxFrame, key: Seq<u8>) -> bool {
    &&& down.slot < up.node.children@.len()
    &&& *down.node == up.node.children@[down.slot as int]
    &&& down.consumed == up.consumed + down.node.label@.len()
    &&& down.consumed <= key.len()
    &&& key.subrange(up.consumed as int, down.consumed as int) == down.node.label@
}

/// The frames lead from the root `head` to a node, and `key` is the string
/// that leads there.
#[verifier::opaque]
pub open(crate) spec fn path_ok(f: Seq<RaxFrame>, head: RaxNode, key: Seq<u8>) -> bool {
    &&& f.len() > 0
    &&& f[0].consumed == 0
    &&& f.last().consumed == key.len()
    &&& forall|i: int, j: int|
        #![trigger f[i], f[j]]
        0 <= i <= j < f.len() ==> f[i].consumed <= f[j].consumed
    &&& forall|j: int|
        0 <= j < f.len() ==> at(head, key.take((#[trigger] f[j]).consumed as int), *f[j].node)
    &&& forall|j: int| 0 < j < f.len() ==> linked(f[j - 1], #[trigger] f[j], key)
}

/// The frame of the root alone is the way to the root.
pub(crate) proof fn lemma_path_root(frame: RaxFrame, head: RaxNode)
    requires
        head.wf_below(),
        *frame.node == head,
        frame.consumed == 0,
    ensures
        path_ok(seq![frame], head, Seq::<u8>::empty()),
{
    reveal(path_ok);
    lemma_at_root(head);
    assert(Seq::<u8>::empty().take(0) =~= Seq::<u8>::empty());
}

/// What the end of a way says of the node there.
pub(crate) proof fn lemma_path_top(f: Seq<RaxFrame>, head: RaxNode, key: Seq<u8>)
    requires
        path_ok(f, head, key),
    ensures
        f.len() > 0,
        f.len() == 1 ==> key.len() == 0,
        at(head, key, *f.last().node),
        f.last().node.wf_below(),
        f.len() > 1 ==> f.last().node.wf(),
        head.lookup(key) == f.last().node.value,
{
    reveal(path_ok);
    reveal(at);
    let t = f.len() - 1;
    assert(at(head, key.take(f[t].consumed as int), *f[t].node));
    assert(key.take(key.len() as int) =~= key);
    if t > 0 {
        assert(linked(f[t - 1], f[t], key));
        assert(at(head, key.take(f[t - 1].consumed as int), *f[t - 1].node));
    }
    assert(key + Seq::<u8>::empty() =~= key);
    assert(head.lookup(key + Seq::<u8>::empty()) == f.last().node.lookup(Seq::<u8>::empty()));
}

/// A way with one more frame, for a child of the node at its end.
pub(crate) proof fn lemma_path_push(f0: Seq<RaxFrame>, head: RaxNode, k0: Seq<u8>, frame: RaxFrame)
    requires
        path_ok(f0, head, k0),
        frame.slot < f0.last().node.children@.len(),
        *frame.node == f0.last().node.children@[frame.slot as int],
        frame.consumed == k0.len() + frame.node.label@.len(),
    ensures
        path_ok(f0.push(frame), head, k0 + frame.node.label@),
{
    lemma_path_top(f0, head, k0);
    reveal(path_ok);
    let f = f0.push(frame);
    let l = frame.node.label@;
    let k = k0 + l;
    let top = *f0.last().node;
    lemma_at_child(head, k0, top, frame.slot as int);
    assert(k.take(k.len() as int) =~= k);
    assert forall|j: int| 0 <= j < f.len() implies at(
        head,
        k.take((#[trigger] f[j]).consumed as int),
        *f[j].node,
    ) by {
        if j < f0.len() {
            assert(f[j] == f0[j]);
            assert(f0[j].consumed <= f0[f0.len() - 1].consumed);
            assert(k.take(f[j].consumed as int) =~= k0.take(f0[j].consumed as int));
            assert(at(head, k0.take(f0[j].consumed as int), *f0[j].node));
        }
    }
    assert forall|i: int, j: int|
        #![trigger f[i], f[j]]
        0 <= i <= j < f.len() implies f[i].consumed <= f[j].consumed by {
        if j < f0.len() {
            assert(f0[i].consumed <= f0[j].consumed);
        } else if i < f0.len() {
            assert(f0[i].consumed <= f0[f0.len() - 1].consumed);
        }
    }
    assert forall|j: int| 0 < j < f.len() implies linked(f[j - 1], #[trigger] f[j], k) by {
        if j < f0.len() {
            assert(linked(f0[j - 1], f0[j], k0));
            assert(k.subrange(f[j - 1].consumed as int, f[j].consumed as int) =~= k0.subrange(
                f0[j - 1].consumed as int,
                f0[j].consumed as int,
            ));
        } else {
            assert(k.subrange(k0.len() as int, k.len() as int) =~= l);
        }
    }
}

/// A way without its last frame, and what joined that frame to the rest.
pub(crate) proof fn lemma_path_pop(f0: Seq<RaxFrame>, head: RaxNode, k0: Seq<u8>)
    requires
        path_ok(f0, head, k0),
        f0.len() > 1,
    ensures
        f0.drop_last().last().consumed <= k0.len(),
        path_ok(f0.drop_last(), head, k0.take(f0.drop_last().last().consumed as int)),
        f0.last().slot < f0.drop_last().last().node.children@.len(),
        *f0.last().node == f0.drop_last().last().node.children@[f0.last().slot as int],
        k0 == k0.take(f0.drop_last().last().consumed as int) + f0.last().node.label@,
        f0.last().node.label@.len() > 0,
{
    lemma_path_top(f0, head, k0);
    reveal(path_ok);
    let f = f0.drop_last();
    let t = f0.len() - 1;
    assert(f[t - 1] == f0[t - 1]);
    assert(linked(f0[t - 1], f0[t], k0));
    assert(f0[t - 1].consumed <= f0[t].consumed);
    let k = k0.take(f0[t - 1].consumed as int);
    assert(k0 =~= k + f0[t].node.label@);
    assert forall|j: int| 0 <= j < f.len() implies at(
        head,
        k.take((#[trigger] f[j]).consumed as int),
        *f[j].node,
    ) by {
        assert(f[j] == f0[j]);
        assert(f0[j].consumed <= f0[t - 1].consumed);
        assert(k.take(f[j].consumed as int) =~= k0.take(f0[j].consumed as int));
        assert(at(head, k0.take(f0[j].consumed as int), *f0[j].node));
    }
    assert forall|i: int, j: int|
        #![trigger f[i], f[j]]
        0 <= i <= j < f.len() implies f[i].consumed <= f[j].consumed by {
        assert(f0[i].consumed <= f0[j].consumed);
    }
    assert forall|j: int| 0 < j < f.len() implies linked(f[j - 1], #[trigger] f[j], k) by {
        assert(f[j] == f0[j]);
        assert(f[j - 1] == f0[j - 1]);
        assert(linked(f0[j - 1], f0[j], k0));
        assert(f0[j].consumed <= f0[t - 1].consumed);
        assert(k.subrange(f[j - 1].consumed as int, f[j].consumed as int) =~= k0.subrange(
            f0[j - 1].consumed as int,
            f0[j].consumed as int,
        ));
    }
}

impl<'a> RaxStack<'a> {
    /// The frames, the root's first.
    pub open(crate) spec fn view(&self) -> Seq<RaxFrame<'a>> {
        self.frames@
    }

    /// The stack leads from the root `head` to a node, and `key` is the
    /// string that leads there.
    pub open(crate) spec fn on_path(&self, head: RaxNode, key: Seq<u8>) -> bool {
        path_ok(self@, head, key)
    }

    /// The node at the position.
    pub open(crate) spec fn top(&self) -> RaxNode {
        *self@.last().node
    }

    /// A stack without frames.
    pub(crate) fn new() -> (s: Self)
        ensures
            s@.len() == 0,
    {
        RaxStack { frames: Vec::new() }
    }

    /// The number of frames.
    pub(crate) fn len(&self) -> (n: usize)
        ensures
            n == self@.len(),
    {
        self.frames.len()
    }

    /// The node at the position.
    pub(crate) fn top_node(&self) -> (n: &'a RaxNode)
        requires
            self@.len() > 0,
        ensures
            *n == self.top(),
    {
        self.frames[self.frames.len() - 1].node
    }

    /// The place of the node at the position among its parent's children.
    pub(crate) fn top_slot(&self) -> (s: usize)
        requires
            self@.len() > 0,
        ensures
            s == self@.last().slot,
    {
        self.frames[self.frames.len() - 1].slot
    }

    /// Takes all frames off the stack.
    pub(crate) fn clear(&mut self)
        ensures
            final(self)@.len() == 0,
    {
        self.frames.clear();
    }

    /// A stack on a way is not empty; with one frame it is at the root, with
    /// the empty string; the node at its end is where the key leads, is
    /// well formed below, and well formed where it is not the root; and the
    /// trie stores under the key what that node has as its value.
    pub(crate) proof fn lemma_top(&self, head: RaxNode, key: Seq<u8>)
        requires
            self.on_path(head, key),
        ensures
            self@.len() > 0,
            self@.len() == 1 ==> key.len() == 0,
            at(head, key, self.top()),
            self.top().wf_below(),
            self@.len() > 1 ==> self.top().wf(),
            head.lookup(key) == self.top().value,
    {
        lemma_path_top(self@, head, key);
    }

    /// Puts the position at the root.
    pub(crate) fn rewind(&mut self, rt: &'a Rax, key: &mut Vec<u8>)
        requires
            rt.wf(),
        ensures
            final(self).on_path(rt.head, final(key)@),
            final(self)@.len() == 1,
            final(key)@.len() == 0,
    {
        self.frames.clear();
        key.clear();
        self.frames.push(RaxFrame { node: &rt.head, slot: 0, consumed: 0 });
        proof {
            lemma_path_root(self@[0], rt.head);
            assert(self@ =~= seq![self@[0]]);
            assert(key@ =~= Seq::<u8>::empty());
        }
    }

    /// Moves the position down to the child at `slot`.
    pub(crate) fn enter(&mut self, rt: &'a Rax, key: &mut Vec<u8>, slot: usize)
        requires
            old(self).on_path(rt.head, old(key)@),
            slot < old(self).top().children@.len(),
        ensures
            final(self).on_path(rt.head, final(key)@),
            final(self)@.len() == old(self)@.len() + 1,
            final(self)@.drop_last() == old(self)@,
            final(self).top() == old(self).top().children@[slot as int],
            final(self)@.last().slot == slot,
            final(key)@ == old(key)@ + old(self).top().children@[slot as int].label@,
    {
        proof {
            lemma_path_top(self@, rt.head, key@);
        }
        let top: &'a RaxNode = self.top_node();
        let child: &'a RaxNode = &top.children[slot];
        key.extend_from_slice(child.label.as_slice());
        let consumed: usize = key.len();
        self.frames.push(RaxFrame { node: child, slot, consumed });
        proof {
            let frame = self@.last();
            assert(self@.drop_last() =~= old(self)@);
            assert(self@ =~= old(self)@.push(frame));
            lemma_path_push(old(self)@, rt.head, old(key)@, frame);
            assert(key@ == old(key)@ + frame.node.label@);
        }
    }

    /// Moves the position up to the parent.
    pub(crate) fn leave(&mut self, rt: &'a Rax, key: &mut Vec<u8>)
        requires
            old(self).on_path(rt.head, old(key)@),
            old(self)@.len() > 1,
        ensures
            final(self).on_path(rt.head, final(key)@),
            final(self)@ == old(self)@.drop_last(),
            old(self).top() == final(self).top().children@[old(self)@.last().slot as int],
            old(self)@.last().slot < final(self).top().children@.len(),
            old(key)@ == final(key)@ + old(self).top().label@,
            old(self).top().label@.len() > 0,
    {
        proof {
            lemma_path_pop(self@, rt.head, key@);
        }
        self.frames.pop();
        let keep: usize = self.frames[self.frames.len() - 1].consumed;
        key.truncate(keep);
        proof {
            assert(self@ =~= old(self)@.drop_last());
            assert(key@ =~= old(key)@.take(keep as int));
        }
    }
}

} // verus!

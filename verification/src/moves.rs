//! The moves of a position through the stored keys in their order: down to
//! the last or the first key below a node, back to the key before the
//! position, on to the key after it, up to the key that encloses it, and the
//! walk from the root along a given string.

use vstd::prelude::*;
use crate::node::RaxNode;
use crate::order::{
    common_prefix_len,
    lemma_lex_asymmetric,
    lemma_lex_before_prefix,
    lemma_lex_common_prefix,
    lemma_lex_diverge,
    lemma_lex_le_transitive,
    lemma_lex_past_prefix,
    lemma_lex_prefix,
    lex_le,
    lex_lt,
    proper_prefix,
};
use crate::position::{
    at,
    lemma_at_key,
    lemma_extension,
    lemma_left_of,
    lemma_place,
    lemma_prefix_chain,
    lemma_prefix_transitive,
    lemma_right_of,
    Place,
};
use crate::rax::Rax;
use crate::stack::RaxStack;

verus! {

/// The trie under `head` stores `o`.
pub open(crate) spec fn stores(head: RaxNode, o: Seq<u8>) -> bool {
    head.lookup(o) is Some
}

/// Every string that starts with `l` comes before `rest`.
pub open(crate) spec fn strictly_before(l: Seq<u8>, rest: Seq<u8>) -> bool {
    lex_lt(l, rest) && !l.is_prefix_of(rest)
}

/// A string that starts with the string of a position does not come before it.
pub(crate) proof fn lemma_not_before(p: Seq<u8>, o: Seq<u8>)
    requires
        p.is_prefix_of(o),
    ensures
        !lex_lt(o, p),
{
    lemma_lex_prefix(p, o);
    if lex_lt(o, p) {
        lemma_lex_asymmetric(o, p);
    }
}

/// What starts with `key + l` lies on the side of `key + rest` on which `l`
/// lies of `rest`.
pub(crate) proof fn lemma_side(key: Seq<u8>, l: Seq<u8>, rest: Seq<u8>, o: Seq<u8>)
    requires
        (key + l).is_prefix_of(o),
    ensures
        lex_lt(rest, l) ==> lex_lt(key + rest, o),
        strictly_before(l, rest) ==> lex_lt(o, key + rest),
{
    let z = o.skip((key.len() + l.len()) as int);
    assert(o =~= key + (l + z)) by {
        assert(o =~= (key + l) + z);
    }
    if lex_lt(rest, l) {
        lemma_lex_before_prefix(rest, l, z);
        lemma_lex_common_prefix(key, rest, l + z);
    }
    if strictly_before(l, rest) {
        lemma_lex_past_prefix(l, z, rest);
        lemma_lex_common_prefix(key, l + z, rest);
    }
}

impl<'a> RaxStack<'a> {
    /// Moves down to the last key below the position: along the last
    /// children to a node without any.
    pub(crate) fn descend_last(&mut self, rt: &'a Rax, key: &mut Vec<u8>)
        requires
            old(self).on_path(rt.head, old(key)@),
        ensures
            final(self).on_path(rt.head, final(key)@),
            final(self)@.len() >= old(self)@.len(),
            old(key)@.is_prefix_of(final(key)@),
            final(self).top().children@.len() == 0,
            forall|o: Seq<u8>|
                #[trigger] stores(rt.head, o) && old(key)@.is_prefix_of(o) ==> lex_le(
                    o,
                    final(key)@,
                ),
    {
        let ghost base = key@;
        loop
            invariant
                self.on_path(rt.head, key@),
                self@.len() >= old(self)@.len(),
                base.is_prefix_of(key@),
                forall|o: Seq<u8>|
                    #[trigger] stores(rt.head, o) && base.is_prefix_of(o) ==> key@.is_prefix_of(o)
                        || lex_lt(o, key@),
            ensures
                self.top().children@.len() == 0,
            decreases self.top(),
        {
            proof {
                self.lemma_top(rt.head, key@);
            }
            let top: &'a RaxNode = self.top_node();
            let n: usize = top.children.len();
            if n == 0 {
                break ;
            }
            let ghost here = key@;
            self.enter(rt, key, n - 1);
            proof {
                let l = top.children@[n - 1].label@;
                lemma_extension(here, l);
                lemma_prefix_transitive(base, here, key@);
                assert forall|o: Seq<u8>|
                    #[trigger] stores(rt.head, o) && base.is_prefix_of(o) implies key@.is_prefix_of(
                        o,
                    ) || lex_lt(o, key@) by {
                    if here.is_prefix_of(o) {
                        // At the node or below a child: the last child is
                        // the one entered, and the others come before it.
                        lemma_not_before(here, o);
                        match lemma_place(rt.head, here, *top, o) {
                            Place::Below(i) => {
                                if i < n - 1 {
                                    lemma_left_of(here, *top, i, n - 1, o, Seq::<u8>::empty());
                                    assert(here + l + Seq::<u8>::empty() =~= here + l);
                                }
                            },
                            _ => {},
                        }
                    } else {
                        lemma_lex_before_prefix(o, here, l);
                    }
                }
            }
        }
        proof {
            self.lemma_top(rt.head, key@);
            assert forall|o: Seq<u8>|
                #[trigger] stores(rt.head, o) && base.is_prefix_of(o) implies lex_le(o, key@) by {
                if key@.is_prefix_of(o) {
                    lemma_at_key(rt.head, key@, self.top(), o);
                    self.top().lemma_leaf_lookup(o.skip(key@.len() as int));
                    assert(o =~= key@);
                }
            }
        }
    }

    /// Moves down to the first key at or below the position, which is not the
    /// root: along the first children to a node that is a key.
    pub(crate) fn descend_first(&mut self, rt: &'a Rax, key: &mut Vec<u8>)
        requires
            old(self).on_path(rt.head, old(key)@),
            old(self)@.len() > 1,
        ensures
            final(self).on_path(rt.head, final(key)@),
            final(self)@.len() >= old(self)@.len(),
            old(key)@.is_prefix_of(final(key)@),
            final(self).top().value is Some,
            forall|o: Seq<u8>|
                #[trigger] stores(rt.head, o) && old(key)@.is_prefix_of(o) ==> lex_le(
                    final(key)@,
                    o,
                ),
    {
        let ghost base = key@;
        proof {
            assert forall|o: Seq<u8>|
                #[trigger] stores(rt.head, o) && base.is_prefix_of(o) implies key@.is_prefix_of(o)
                || lex_lt(key@, o) by {}
        }
        loop
            invariant
                self.on_path(rt.head, key@),
                self@.len() >= old(self)@.len(),
                self@.len() > 1,
                base.is_prefix_of(key@),
                forall|o: Seq<u8>|
                    #[trigger] stores(rt.head, o) && base.is_prefix_of(o) ==> key@.is_prefix_of(o)
                        || lex_lt(key@, o),
            ensures
                self.top().value is Some,
            decreases self.top(),
        {
            proof {
                self.lemma_top(rt.head, key@);
            }
            let top: &'a RaxNode = self.top_node();
            if top.value.is_some() {
                break ;
            }
            let ghost here = key@;
            self.enter(rt, key, 0);
            proof {
                let l = top.children@[0].label@;
                lemma_extension(here, l);
                lemma_prefix_transitive(base, here, key@);
                assert forall|o: Seq<u8>|
                    #[trigger] stores(rt.head, o) && base.is_prefix_of(o) implies key@.is_prefix_of(
                        o,
                    ) || lex_lt(key@, o) by {
                    if here.is_prefix_of(o) {
                        // The node is no key, so the key lies below a child:
                        // the first child is the one entered, and the others
                        // come after it.
                        lemma_not_before(here, o);
                        match lemma_place(rt.head, here, *top, o) {
                            Place::Below(i) => {
                                if i > 0 {
                                    lemma_right_of(here, *top, i, 0, o, Seq::<u8>::empty());
                                    assert(here + l + Seq::<u8>::empty() =~= here + l);
                                }
                            },
                            _ => {},
                        }
                    } else {
                        lemma_lex_past_prefix(here, l, o);
                    }
                }
            }
        }
        proof {
            assert forall|o: Seq<u8>|
                #[trigger] stores(rt.head, o) && base.is_prefix_of(o) implies lex_le(key@, o) by {
                if key@.is_prefix_of(o) {
                    lemma_lex_prefix(key@, o);
                }
            }
        }
    }

    /// Moves back to the last stored key that comes before the string of the
    /// position, and says whether there is one.
    pub(crate) fn retreat(&mut self, rt: &'a Rax, key: &mut Vec<u8>) -> (found: bool)
        requires
            old(self).on_path(rt.head, old(key)@),
        ensures
            found ==> final(self).on_path(rt.head, final(key)@) && final(self).top().value is Some
                && lex_lt(final(key)@, old(key)@),
            found ==> forall|o: Seq<u8>|
                #[trigger] stores(rt.head, o) && lex_lt(o, old(key)@) ==> lex_le(o, final(key)@),
            !found ==> forall|o: Seq<u8>| #[trigger] stores(rt.head, o) ==> !lex_lt(o, old(key)@),
    {
        let ghost start = key@;
        loop
            invariant
                self.on_path(rt.head, key@),
                start == old(key)@,
                key@.is_prefix_of(start),
                forall|o: Seq<u8>|
                    #[trigger] stores(rt.head, o) && lex_lt(o, start) ==> lex_lt(o, key@),
            decreases self@.len(),
        {
            proof {
                self.lemma_top(rt.head, key@);
                assert forall|o: Seq<u8>| key@.len() == 0 implies #[trigger] key@.is_prefix_of(o) by {
                    if key@.len() == 0 {
                        assert(key@ =~= o.subrange(0, 0));
                    }
                }
            }
            if self.len() == 1 {
                return false;
            }
            let s: usize = self.top_slot();
            let ghost below = key@;
            self.leave(rt, key);
            let ghost here = key@;
            let top: &'a RaxNode = self.top_node();
            proof {
                self.lemma_top(rt.head, key@);
                lemma_extension(here, top.children@[s as int].label@);
                lemma_prefix_transitive(here, below, start);
            }
            let ghost w = start.skip(below.len() as int);
            if s > 0 {
                self.enter(rt, key, s - 1);
                let ghost side = key@;
                self.descend_last(rt, key);
                proof {
                    let l = top.children@[s as int].label@;
                    let r = key@;
                    let z = r.skip(side.len() as int);
                    self.lemma_top(rt.head, r);
                    assert(start =~= here + l + w);
                    assert(r =~= side + z);
                    lemma_left_of(here, *top, s - 1, s as int, r, w);
                    lemma_prefix_transitive(here, side, r);
                    assert forall|o: Seq<u8>|
                        #[trigger] stores(rt.head, o) && lex_lt(o, start) implies lex_le(o, r) by {
                        match lemma_place(rt.head, here, *top, o) {
                            Place::Before => {
                                lemma_lex_before_prefix(o, here, r.skip(here.len() as int));
                                assert(r =~= here + r.skip(here.len() as int));
                            },
                            Place::Here => {
                                lemma_lex_prefix(here, r);
                            },
                            Place::Below(i) => {
                                if i < s - 1 {
                                    lemma_left_of(here, *top, i, s - 1, o, z);
                                } else if i == s {
                                    // Below the child that was left: not before it.
                                    lemma_not_before(below, o);
                                } else if i > s {
                                    lemma_right_of(here, *top, i, s as int, o, Seq::<u8>::empty());
                                    assert(here + l + Seq::<u8>::empty() =~= below);
                                    lemma_lex_asymmetric(o, below);
                                }
                            },
                            Place::After => {
                                lemma_lex_past_prefix(here, l, o);
                                lemma_lex_asymmetric(o, below);
                            },
                        }
                    }
                }
                return true;
            }
            proof {
                let l = top.children@[0].label@;
                assert forall|o: Seq<u8>|
                    #[trigger] stores(rt.head, o) && lex_lt(o, start) implies lex_le(o, here) && (
                    top.value is None ==> lex_lt(o, here)) by {
                    match lemma_place(rt.head, here, *top, o) {
                        Place::Below(i) => {
                            if i == 0 {
                                lemma_not_before(below, o);
                            } else {
                                lemma_right_of(here, *top, i, 0, o, Seq::<u8>::empty());
                                assert(here + l + Seq::<u8>::empty() =~= below);
                                lemma_lex_asymmetric(o, below);
                            }
                        },
                        Place::After => {
                            lemma_lex_past_prefix(here, l, o);
                            lemma_lex_asymmetric(o, below);
                        },
                        _ => {},
                    }
                }
            }
            if top.value.is_some() {
                proof {
                    lemma_lex_prefix(here, start);
                }
                return true;
            }
        }
    }

    /// Moves on to the first stored key that comes after the string of the
    /// position, and says whether there is one.
    pub(crate) fn advance(&mut self, rt: &'a Rax, key: &mut Vec<u8>) -> (found: bool)
        requires
            old(self).on_path(rt.head, old(key)@),
        ensures
            found ==> final(self).on_path(rt.head, final(key)@) && final(self).top().value is Some
                && lex_lt(old(key)@, final(key)@),
            found ==> forall|o: Seq<u8>|
                #[trigger] stores(rt.head, o) && lex_lt(old(key)@, o) ==> lex_le(final(key)@, o),
            !found ==> forall|o: Seq<u8>| #[trigger] stores(rt.head, o) ==> !lex_lt(old(key)@, o),
    {
        let ghost start = key@;
        proof {
            self.lemma_top(rt.head, key@);
        }
        let first: &'a RaxNode = self.top_node();
        if first.children.len() > 0 {
            self.enter(rt, key, 0);
            let ghost side = key@;
            self.descend_first(rt, key);
            proof {
                let l = first.children@[0].label@;
                let r = key@;
                let z = r.skip(side.len() as int);
                assert(r =~= start + l + z);
                assert(r =~= start + (l + z));
                lemma_extension(start, l + z);
                assert forall|o: Seq<u8>|
                    #[trigger] stores(rt.head, o) && lex_lt(start, o) implies lex_le(r, o) by {
                    match lemma_place(rt.head, start, *first, o) {
                        Place::Before | Place::Here => {
                            lemma_lex_asymmetric(start, o);
                        },
                        Place::Below(i) => {
                            if i > 0 {
                                lemma_right_of(start, *first, i, 0, o, z);
                            }
                        },
                        Place::After => {
                            lemma_lex_past_prefix(start, l + z, o);
                        },
                    }
                }
            }
            return true;
        }
        proof {
            assert forall|o: Seq<u8>|
                #[trigger] stores(rt.head, o) && lex_lt(start, o) implies !key@.is_prefix_of(o) by {
                if key@.is_prefix_of(o) {
                    lemma_at_key(rt.head, key@, *first, o);
                    first.lemma_leaf_lookup(o.skip(key@.len() as int));
                    assert(o =~= key@);
                    lemma_lex_asymmetric(start, o);
                }
            }
        }
        loop
            invariant
                self.on_path(rt.head, key@),
                start == old(key)@,
                key@.is_prefix_of(start),
                forall|o: Seq<u8>|
                    #[trigger] stores(rt.head, o) && lex_lt(start, o) ==> !key@.is_prefix_of(o),
            decreases self@.len(),
        {
            proof {
                self.lemma_top(rt.head, key@);
                assert forall|o: Seq<u8>| key@.len() == 0 implies #[trigger] key@.is_prefix_of(o) by {
                    if key@.len() == 0 {
                        assert(key@ =~= o.subrange(0, 0));
                    }
                }
            }
            if self.len() == 1 {
                return false;
            }
            let s: usize = self.top_slot();
            let ghost below = key@;
            self.leave(rt, key);
            let ghost here = key@;
            let top: &'a RaxNode = self.top_node();
            proof {
                self.lemma_top(rt.head, key@);
                lemma_extension(here, top.children@[s as int].label@);
                lemma_prefix_transitive(here, below, start);
                lemma_lex_prefix(here, start);
            }
            let ghost w = start.skip(below.len() as int);
            let ghost ls = top.children@[s as int].label@;
            proof {
                assert(start =~= here + ls + w);
            }
            let count: usize = top.children.len();
            if s + 1 < count {
                self.enter(rt, key, s + 1);
                let ghost side = key@;
                self.descend_first(rt, key);
                proof {
                    let l = top.children@[s + 1].label@;
                    let r = key@;
                    let z = r.skip(side.len() as int);
                    assert(r =~= here + l + z);
                    assert(r =~= here + (l + z));
                    lemma_right_of(here, *top, s + 1, s as int, r, w);
                    assert forall|o: Seq<u8>|
                        #[trigger] stores(rt.head, o) && lex_lt(start, o) implies lex_le(r, o) by {
                        match lemma_place(rt.head, here, *top, o) {
                            Place::Before => {
                                lemma_lex_le_transitive(o, here, start);
                                lemma_lex_asymmetric(start, o);
                            },
                            Place::Here => {
                                lemma_lex_asymmetric(start, o);
                            },
                            Place::Below(i) => {
                                if i < s {
                                    lemma_left_of(here, *top, i, s as int, o, w);
                                    lemma_lex_asymmetric(start, o);
                                } else if i > s + 1 {
                                    lemma_right_of(here, *top, i, s + 1, o, z);
                                }
                            },
                            Place::After => {
                                lemma_lex_past_prefix(here, l + z, o);
                            },
                        }
                    }
                }
                return true;
            }
            proof {
                assert forall|o: Seq<u8>|
                    #[trigger] stores(rt.head, o) && lex_lt(start, o) implies !here.is_prefix_of(
                    o,
                ) by {
                    if here.is_prefix_of(o) {
                        lemma_not_before(here, o);
                        match lemma_place(rt.head, here, *top, o) {
                            Place::Here => {
                                lemma_lex_asymmetric(start, o);
                            },
                            Place::Below(i) => {
                                if i < s {
                                    lemma_left_of(here, *top, i, s as int, o, w);
                                    lemma_lex_asymmetric(start, o);
                                }
                            },
                            _ => {},
                        }
                    }
                }
            }
        }
    }

    /// Moves up to the nearest node above the position that is a key, and
    /// says whether there is one.
    pub(crate) fn ascend(&mut self, rt: &'a Rax, key: &mut Vec<u8>) -> (found: bool)
        requires
            old(self).on_path(rt.head, old(key)@),
        ensures
            found ==> final(self).on_path(rt.head, final(key)@) && final(self).top().value is Some
                && proper_prefix(final(key)@, old(key)@),
            found ==> forall|o: Seq<u8>|
                #[trigger] stores(rt.head, o) && proper_prefix(o, old(key)@) ==> o.len()
                    <= final(key)@.len(),
            !found ==> forall|o: Seq<u8>|
                #[trigger] stores(rt.head, o) ==> !proper_prefix(o, old(key)@),
    {
        let ghost start = key@;
        loop
            invariant
                self.on_path(rt.head, key@),
                start == old(key)@,
                key@.is_prefix_of(start),
                forall|o: Seq<u8>|
                    #[trigger] stores(rt.head, o) && proper_prefix(o, start) ==> o.len() < key@.len(),
            decreases self@.len(),
        {
            proof {
                self.lemma_top(rt.head, key@);
                assert forall|o: Seq<u8>| key@.len() == 0 implies #[trigger] key@.is_prefix_of(o) by {
                    if key@.len() == 0 {
                        assert(key@ =~= o.subrange(0, 0));
                    }
                }
            }
            if self.len() == 1 {
                return false;
            }
            let s: usize = self.top_slot();
            let ghost below = key@;
            self.leave(rt, key);
            let ghost here = key@;
            let top: &'a RaxNode = self.top_node();
            proof {
                let ls = top.children@[s as int].label@;
                self.lemma_top(rt.head, key@);
                lemma_extension(here, ls);
                lemma_prefix_transitive(here, below, start);
                assert forall|o: Seq<u8>|
                    #[trigger] stores(rt.head, o) && proper_prefix(o, start) implies o.len()
                    <= here.len() && (top.value is None ==> o.len() < here.len()) by {
                    if o.len() >= here.len() {
                        lemma_prefix_chain(here, o, start);
                        lemma_prefix_chain(o, below, start);
                        lemma_not_before(here, o);
                        match lemma_place(rt.head, here, *top, o) {
                            Place::Below(i) => {
                                // The key goes on as the label of the child
                                // that was left does, so it lies below that
                                // child, and is too long to be a prefix.
                                let li = top.children@[i].label@;
                                assert(o[here.len() as int] == below.subrange(
                                    0,
                                    o.len() as int,
                                )[here.len() as int]);
                                assert(below[here.len() as int] == ls[0]);
                                if i < s {
                                    assert(top.children@[i].label@[0] < top.children@[s as int].label@[0]);
                                }
                                if i > s {
                                    assert(top.children@[s as int].label@[0] < top.children@[i].label@[0]);
                                }
                                assert((here + li).len() <= o.len());
                            },
                            _ => {},
                        }
                    }
                }
            }
            if top.value.is_some() {
                return true;
            }
        }
    }

    /// Walks from the root along `q` as far as the trie goes. The result says
    /// whether the walk came to the end of `q`. Where it did not, the string
    /// of the position is the longest on the way that `q` starts with, and
    /// the result gives the boundary among the children there: what lies
    /// below the children before it comes before `q`, and what lies below the
    /// others after it.
    pub(crate) fn walk(&mut self, rt: &'a Rax, key: &mut Vec<u8>, q: &[u8]) -> (r: (bool, usize))
        requires
            rt.wf(),
        ensures
            final(self).on_path(rt.head, final(key)@),
            final(key)@.is_prefix_of(q@),
            r.0 ==> final(key)@ == q@,
            !r.0 ==> final(key)@.len() < q@.len() && r.1 <= final(self).top().children@.len(),
            !r.0 ==> forall|j: int|
                0 <= j < r.1 ==> strictly_before(
                    (#[trigger] final(self).top().children@[j]).label@,
                    q@.skip(final(key)@.len() as int),
                ),
            !r.0 ==> forall|j: int|
                r.1 <= j < final(self).top().children@.len() ==> lex_lt(
                    q@.skip(final(key)@.len() as int),
                    (#[trigger] final(self).top().children@[j]).label@,
                ),
    {
        self.rewind(rt, key);
        let mut pos: usize = 0;
        proof {
            assert(key@ =~= q@.take(0));
        }
        loop
            invariant
                self.on_path(rt.head, key@),
                pos <= q.len(),
                key@ == q@.take(pos as int),
            decreases q.len() - pos,
        {
            proof {
                assert(q@.take(pos as int).is_prefix_of(q@)) by {
                    assert(q@.subrange(0, pos as int) =~= q@.take(pos as int));
                }
            }
            if pos == q.len() {
                proof {
                    assert(q@.take(pos as int) =~= q@);
                }
                return (true, 0);
            }
            proof {
                self.lemma_top(rt.head, key@);
            }
            let top: &'a RaxNode = self.top_node();
            let b: u8 = q[pos];
            let ghost rest = q@.skip(pos as int);
            let (found, i) = top.child_slot(b);
            let count: usize = top.children.len();
            if !found {
                proof {
                    assert forall|j: int| 0 <= j < i implies strictly_before(
                        (#[trigger] top.children@[j]).label@,
                        rest,
                    ) by {
                        let l = top.children@[j].label@;
                        if l.is_prefix_of(rest) {
                            assert(l[0] == rest.subrange(0, l.len() as int)[0]);
                        }
                    }
                    assert forall|j: int| i <= j < top.children@.len() implies lex_lt(
                        rest,
                        (#[trigger] top.children@[j]).label@,
                    ) by {}
                }
                return (false, i);
            }
            let child: &'a RaxNode = &top.children[i];
            let n: usize = common_prefix_len(child.label.as_slice(), q, pos);
            if n == child.label.len() {
                self.enter(rt, key, i);
                proof {
                    assert(child.label@.take(n as int) =~= child.label@);
                    assert(key@ =~= q@.take(pos + n));
                }
                pos += n;
            } else {
                let under: bool = pos + n < q.len() && child.label[n] < q[pos + n];
                proof {
                    let l = child.label@;
                    let c = l.take(n as int);
                    assert(c =~= rest.take(n as int));
                    assert(l =~= c + l.skip(n as int));
                    assert(rest =~= c + rest.skip(n as int));
                    if under {
                        lemma_lex_diverge(c, l.skip(n as int), rest.skip(n as int));
                        if l.is_prefix_of(rest) {
                            assert(l[n as int] == rest.subrange(0, l.len() as int)[n as int]);
                        }
                    } else if pos + n == q.len() {
                        assert(rest =~= c);
                        assert(rest.is_prefix_of(l)) by {
                            assert(l.subrange(0, rest.len() as int) =~= c);
                        }
                        lemma_lex_prefix(rest, l);
                    } else {
                        lemma_lex_diverge(c, rest.skip(n as int), l.skip(n as int));
                    }
                    let edge = if under { i + 1 } else { i as int };
                    assert forall|j: int| 0 <= j < edge implies strictly_before(
                        (#[trigger] top.children@[j]).label@,
                        rest,
                    ) by {
                        let lj = top.children@[j].label@;
                        if j < i {
                            assert(top.children@[j].label@[0] < top.children@[i as int].label@[0]);
                            if lj.is_prefix_of(rest) {
                                assert(lj[0] == rest.subrange(0, lj.len() as int)[0]);
                            }
                        }
                    }
                    assert forall|j: int| edge <= j < top.children@.len() implies lex_lt(
                        rest,
                        (#[trigger] top.children@[j]).label@,
                    ) by {
                        if j > i {
                            assert(top.children@[i as int].label@[0] < top.children@[j].label@[0]);
                        }
                    }
                }
                if under {
                    return (false, i + 1);
                }
                return (false, i);
            }
        }
    }
}

} // verus!

//! The iterator: a cursor over the keys of a trie in their order.
//!
//! A cursor is either at a stored key or nowhere. A seek puts it at a key and
//! leaves that key pending: the next step of any kind stays there and only
//! takes the mark off, so that a loop of steps after a seek sees the key that
//! the seek found first. A step that finds no key leaves the cursor nowhere.

use vstd::prelude::*;
use crate::moves::{lemma_side, stores};
use crate::node::RaxNode;
use crate::order::{
    lemma_lex_asymmetric,
    lemma_lex_before_prefix,
    lemma_lex_le_transitive,
    lemma_lex_past_prefix,
    lemma_lex_prefix,
    lex_le,
    lex_lt,
};
use crate::position::{
    at,
    lemma_extension,
    lemma_left_of,
    lemma_place,
    lemma_prefix_transitive,
    Place,
};
use crate::query::{
    has_enclosing,
    has_floor,
    has_next,
    has_previous,
    is_enclosing,
    is_floor,
    is_next,
    is_previous,
};
use crate::rax::Rax;
use crate::stack::RaxStack;

verus! {

/// A cursor over the keys of a trie, which it borrows.
pub struct RaxIterator<'a> {
    pub(crate) rt: &'a Rax,
    pub(crate) stack: RaxStack<'a>,
    pub(crate) key: Vec<u8>,
    pub(crate) data: i32,
    pub(crate) eof: bool,
    pub(crate) just_seeked: bool,
}

/// A stored key that no other stored key up to `q` follows is the last one up
/// to `q`.
pub(crate) proof fn lemma_floor(head: RaxNode, q: Seq<u8>, r: Seq<u8>)
    requires
        stores(head, r),
        lex_le(r, q),
        forall|o: Seq<u8>| #[trigger] stores(head, o) && lex_le(o, q) ==> lex_le(o, r),
    ensures
        is_floor(head.entries(), q, r),
        has_floor(head.entries(), q),
{
    let m = head.entries();
    assert(m.contains_key(r));
    assert forall|o: Seq<u8>| #[trigger] m.contains_key(o) && lex_le(o, q) implies lex_le(o, r) by {
        assert(stores(head, o));
    }
}

/// Where no stored key comes up to `q`.
pub(crate) proof fn lemma_no_floor(head: RaxNode, q: Seq<u8>)
    requires
        forall|o: Seq<u8>| #[trigger] stores(head, o) ==> !lex_le(o, q),
    ensures
        !has_floor(head.entries(), q),
{
    let m = head.entries();
    assert forall|o: Seq<u8>| #[trigger] m.contains_key(o) implies !lex_le(o, q) by {
        assert(stores(head, o));
    }
}

/// Where a walk along `q` stopped before the end of `q`, a stored key up to
/// `q` comes before the string of the stop, or is that string, or lies below
/// one of the children before the boundary.
pub(crate) proof fn lemma_up_to(
    head: RaxNode,
    here: Seq<u8>,
    top: RaxNode,
    q: Seq<u8>,
    edge: int,
    o: Seq<u8>,
) -> (p: Place)
    requires
        at(head, here, top),
        here.is_prefix_of(q),
        here.len() < q.len(),
        0 <= edge <= top.children@.len(),
        forall|j: int|
            edge <= j < top.children@.len() ==> lex_lt(
                q.skip(here.len() as int),
                (#[trigger] top.children@[j]).label@,
            ),
        stores(head, o),
        lex_le(o, q),
    ensures
        !(p is After),
        p is Before ==> lex_lt(o, here),
        p is Here ==> o == here && top.value is Some,
        p matches Place::Below(i) ==> 0 <= i < edge && (here + top.children@[i].label@).is_prefix_of(
            o,
        ),
{
    let rest = q.skip(here.len() as int);
    assert(q =~= here + rest);
    let p = lemma_place(head, here, top, o);
    match p {
        Place::After => {
            lemma_lex_past_prefix(here, rest, o);
            lemma_lex_asymmetric(q, o);
        },
        Place::Below(i) => {
            if i >= edge {
                lemma_side(here, top.children@[i].label@, rest, o);
                lemma_lex_asymmetric(q, o);
            }
        },
        _ => {},
    }
    p
}

impl<'a> RaxIterator<'a> {
    /// The keys of the trie, each with its value.
    pub open(crate) spec fn map(&self) -> Map<Seq<u8>, i32> {
        self.rt@
    }

    /// The key at which the cursor is, if it is at one.
    pub open(crate) spec fn current(&self) -> Option<Seq<u8>> {
        if self.eof {
            None
        } else {
            Some(self.key@)
        }
    }

    /// The value of the key at which the cursor is.
    pub open(crate) spec fn value_at(&self) -> Option<i32> {
        if self.eof {
            None
        } else {
            Some(self.data)
        }
    }

    /// The cursor is at a key that a seek found and no step has passed yet.
    pub open(crate) spec fn pending(&self) -> bool {
        !self.eof && self.just_seeked
    }

    /// The number of frames on the cursor's stack.
    pub open(crate) spec fn frames(&self) -> nat {
        self.stack@.len()
    }

    /// The bytes in the cursor's key buffer.
    pub open(crate) spec fn key_buffer(&self) -> Seq<u8> {
        self.key@
    }

    /// The trie is well formed; a cursor that is at a key has the way from
    /// the root to that key on its stack and the key in its buffer; and a
    /// cursor that is nowhere has an empty stack and an empty buffer.
    pub open(crate) spec fn wf(&self) -> bool {
        &&& self.rt.wf()
        &&& !self.eof ==> self.stack.on_path(self.rt.head, self.key@) && self.stack.top().value
            == Some(self.data)
        &&& self.eof ==> self.stack@.len() == 0 && self.key@.len() == 0
    }

    /// A cursor that is nowhere holds no frame and no byte; one that is at a
    /// key holds a frame at least, and that key in its buffer.
    pub proof fn lemma_buffers(&self)
        requires
            self.wf(),
        ensures
            self.current() is None ==> self.frames() == 0 && self.key_buffer().len() == 0,
            self.current() is Some ==> self.frames() > 0 && self.key_buffer()
                == self.current().unwrap(),
    {
        if !self.eof {
            self.stack.lemma_top(self.rt.head, self.key@);
        }
    }

    /// The key at which a cursor is is a key of the trie, and the cursor has
    /// its value.
    pub proof fn lemma_current(&self)
        requires
            self.wf(),
        ensures
            self.current() is Some ==> self.map().contains_key(self.current().unwrap())
                && self.value_at() == Some(self.map()[self.current().unwrap()]),
            self.current() is None ==> self.value_at() is None,
    {
        if !self.eof {
            self.stack.lemma_top(self.rt.head, self.key@);
        }
    }

    /// A cursor over `rt` that is nowhere yet: its stack and its key buffer
    /// are empty.
    pub fn new(rt: &'a Rax) -> (it: Self)
        requires
            rt.wf(),
        ensures
            it.wf(),
            it.map() == rt@,
            it.current() is None,
            !it.pending(),
            it.frames() == 0,
            it.key_buffer().len() == 0,
    {
        RaxIterator {
            rt,
            stack: RaxStack::new(),
            key: Vec::new(),
            data: 0,
            eof: true,
            just_seeked: false,
        }
    }

    /// The key at which the cursor is.
    pub fn key(&self) -> (k: Option<&[u8]>)
        ensures
            k is Some == self.current() is Some,
            k is Some ==> k.unwrap()@ == self.current().unwrap(),
    {
        if self.eof {
            None
        } else {
            Some(self.key.as_slice())
        }
    }

    /// The value of the key at which the cursor is.
    pub fn value(&self) -> (v: Option<i32>)
        ensures
            v == self.value_at(),
    {
        if self.eof {
            None
        } else {
            Some(self.data)
        }
    }

    /// The number of frames on the cursor's stack: the nodes on the way from
    /// the root to the key at which the cursor is, and none where it is
    /// nowhere.
    pub fn depth(&self) -> (n: usize)
        ensures
            n == self.frames(),
    {
        self.stack.len()
    }

    /// Takes the cursor off the trie and empties its stack and its key
    /// buffer.
    pub fn stop(&mut self)
        requires
            old(self).wf(),
        ensures
            final(self).wf(),
            final(self).map() == old(self).map(),
            final(self).current() is None,
            !final(self).pending(),
            final(self).frames() == 0,
            final(self).key_buffer().len() == 0,
    {
        self.unplace();
    }

    /// Leaves the cursor nowhere, whatever its stack held.
    fn unplace(&mut self)
        requires
            old(self).rt.wf(),
        ensures
            final(self).wf(),
            final(self).rt == old(self).rt,
            final(self).current() is None,
            !final(self).pending(),
            final(self).frames() == 0,
            final(self).key_buffer().len() == 0,
    {
        self.stack.clear();
        self.key.clear();
        self.eof = true;
        self.just_seeked = false;
    }

    /// Settles the cursor at the key where its stack ends.
    fn land(&mut self)
        requires
            old(self).rt.wf(),
            old(self).stack.on_path(old(self).rt.head, old(self).key@),
            old(self).stack.top().value is Some,
        ensures
            final(self).wf(),
            final(self).rt == old(self).rt,
            final(self).key@ == old(self).key@,
            final(self).current() == Some(old(self).key@),
            !final(self).pending(),
    {
        proof {
            self.stack.lemma_top(self.rt.head, self.key@);
        }
        let top: &'a RaxNode = self.stack.top_node();
        match top.value {
            Some(v) => {
                self.data = v;
            },
            None => {},
        }
        self.eof = false;
        self.just_seeked = false;
    }

    /// Puts the cursor at the last stored key that is `q` or comes before it,
    /// and leaves that key pending. Where there is no such key the cursor is
    /// left nowhere.
    pub fn seek_at_or_before(&mut self, q: &[u8]) -> (found: bool)
        requires
            old(self).wf(),
        ensures
            final(self).wf(),
            final(self).map() == old(self).map(),
            found == has_floor(old(self).map(), q@),
            found ==> final(self).current() is Some && is_floor(
                old(self).map(),
                q@,
                final(self).current().unwrap(),
            ) && final(self).pending(),
            found ==> final(self).value_at() == Some(
                old(self).map()[final(self).current().unwrap()],
            ),
            !found ==> final(self).current() is None,
    {
        let ghost head = self.rt.head;
        let (exact, edge) = self.stack.walk(self.rt, &mut self.key, q);
        let ghost here = self.key@;
        proof {
            self.stack.lemma_top(head, here);
        }
        let top: &'a RaxNode = self.stack.top_node();
        let ghost rest = q@.skip(here.len() as int);
        let mut ok: bool = true;
        if !exact && edge > 0 {
            // Some children lie before `q`: the key sought is the last one
            // below the last of them.
            self.stack.enter(self.rt, &mut self.key, edge - 1);
            let ghost side = self.key@;
            self.stack.descend_last(self.rt, &mut self.key);
            proof {
                let r = self.key@;
                let l = top.children@[edge - 1].label@;
                self.stack.lemma_top(head, r);
                assert(q@ =~= here + rest);
                lemma_side(here, l, rest, r);
                assert(here.is_prefix_of(r)) by {
                    lemma_extension(here, l);
                    lemma_prefix_transitive(here, side, r);
                }
                assert forall|o: Seq<u8>| #[trigger] stores(head, o) && lex_le(o, q@) implies lex_le(
                    o,
                    r,
                ) by {
                    match lemma_up_to(head, here, *top, q@, edge as int, o) {
                        Place::Before => {
                            assert(r =~= here + r.skip(here.len() as int));
                            lemma_lex_before_prefix(o, here, r.skip(here.len() as int));
                        },
                        Place::Here => {
                            lemma_lex_prefix(here, r);
                        },
                        Place::Below(i) => {
                            if i < edge - 1 {
                                let z = r.skip(side.len() as int);
                                assert(r =~= here + l + z);
                                lemma_left_of(here, *top, i, edge - 1, o, z);
                            }
                        },
                        Place::After => {},
                    }
                }
                lemma_floor(head, q@, r);
            }
        } else if top.value.is_some() {
            // The walk ended at a key, and nothing below it comes up to `q`.
            proof {
                lemma_lex_prefix(here, q@);
                assert forall|o: Seq<u8>| #[trigger] stores(head, o) && lex_le(o, q@) implies lex_le(
                    o,
                    here,
                ) by {
                    if !exact {
                        lemma_up_to(head, here, *top, q@, 0, o);
                    }
                }
                lemma_floor(head, q@, here);
            }
        } else {
            // Nothing at the node or below it comes up to `q`: the key sought
            // is the last one before the node.
            ok = self.stack.retreat(self.rt, &mut self.key);
            proof {
                let r = self.key@;
                lemma_lex_prefix(here, q@);
                if ok {
                    self.stack.lemma_top(head, r);
                    lemma_lex_le_transitive(r, here, q@);
                    assert forall|o: Seq<u8>|
                        #[trigger] stores(head, o) && lex_le(o, q@) implies lex_le(o, r) by {
                        if !exact {
                            lemma_up_to(head, here, *top, q@, 0, o);
                        }
                    }
                    lemma_floor(head, q@, r);
                } else {
                    assert forall|o: Seq<u8>| #[trigger] stores(head, o) implies !lex_le(o, q@) by {
                        if lex_le(o, q@) {
                            if !exact {
                                lemma_up_to(head, here, *top, q@, 0, o);
                            }
                        }
                    }
                    lemma_no_floor(head, q@);
                }
            }
        }
        if ok {
            self.land();
            self.just_seeked = true;
            proof {
                self.lemma_current();
            }
        } else {
            self.unplace();
        }
        ok
    }

    /// Moves the cursor to the first stored key after the one at which it is.
    /// A pending key is not passed: the step stays there and takes the mark
    /// off. Where no key follows, and where the cursor is nowhere, the result
    /// is `false` and the cursor is nowhere.
    pub fn next(&mut self) -> (found: bool)
        requires
            old(self).wf(),
        ensures
            final(self).wf(),
            final(self).map() == old(self).map(),
            !final(self).pending(),
            old(self).current() is None ==> !found && final(self).current() is None,
            old(self).pending() ==> found && final(self).current() == old(self).current(),
            old(self).current() is Some && !old(self).pending() ==> found == has_next(
                old(self).map(),
                old(self).current().unwrap(),
            ),
            old(self).current() is Some && !old(self).pending() && found ==> final(self).current()
                is Some && is_next(
                old(self).map(),
                old(self).current().unwrap(),
                final(self).current().unwrap(),
            ),
            found ==> final(self).value_at() == Some(
                old(self).map()[final(self).current().unwrap()],
            ),
            !found ==> final(self).current() is None,
    {
        if self.eof {
            self.just_seeked = false;
            return false;
        }
        if self.just_seeked {
            proof {
                self.lemma_current();
            }
            self.just_seeked = false;
            return true;
        }
        let ghost head = self.rt.head;
        let ghost cur = self.key@;
        let ghost m = self.rt@;
        let ok: bool = self.stack.advance(self.rt, &mut self.key);
        if ok {
            proof {
                let r = self.key@;
                self.stack.lemma_top(head, r);
                assert(m.contains_key(r));
                assert forall|o: Seq<u8>| #[trigger] m.contains_key(o) && lex_lt(cur, o) implies lex_le(
                    r,
                    o,
                ) by {
                    assert(stores(head, o));
                }
            }
            self.land();
            proof {
                self.lemma_current();
            }
        } else {
            proof {
                assert forall|o: Seq<u8>| #[trigger] m.contains_key(o) implies !lex_lt(cur, o) by {
                    assert(stores(head, o));
                }
            }
            self.unplace();
        }
        ok
    }

    /// Moves the cursor to the last stored key before the one at which it is.
    /// A pending key is not passed: the step stays there and takes the mark
    /// off. Where no key comes before, and where the cursor is nowhere, the
    /// result is `false` and the cursor is nowhere.
    pub fn previous(&mut self) -> (found: bool)
        requires
            old(self).wf(),
        ensures
            final(self).wf(),
            final(self).map() == old(self).map(),
            !final(self).pending(),
            old(self).current() is None ==> !found && final(self).current() is None,
            old(self).pending() ==> found && final(self).current() == old(self).current(),
            old(self).current() is Some && !old(self).pending() ==> found == has_previous(
                old(self).map(),
                old(self).current().unwrap(),
            ),
            old(self).current() is Some && !old(self).pending() && found ==> final(self).current()
                is Some && is_previous(
                old(self).map(),
                old(self).current().unwrap(),
                final(self).current().unwrap(),
            ),
            found ==> final(self).value_at() == Some(
                old(self).map()[final(self).current().unwrap()],
            ),
            !found ==> final(self).current() is None,
    {
        if self.eof {
            self.just_seeked = false;
            return false;
        }
        if self.just_seeked {
            proof {
                self.lemma_current();
            }
            self.just_seeked = false;
            return true;
        }
        let ghost head = self.rt.head;
        let ghost cur = self.key@;
        let ghost m = self.rt@;
        let ok: bool = self.stack.retreat(self.rt, &mut self.key);
        if ok {
            proof {
                let r = self.key@;
                self.stack.lemma_top(head, r);
                assert(m.contains_key(r));
                assert forall|o: Seq<u8>| #[trigger] m.contains_key(o) && lex_lt(o, cur) implies lex_le(
                    o,
                    r,
                ) by {
                    assert(stores(head, o));
                }
            }
            self.land();
            proof {
                self.lemma_current();
            }
        } else {
            proof {
                assert forall|o: Seq<u8>| #[trigger] m.contains_key(o) implies !lex_lt(o, cur) by {
                    assert(stores(head, o));
                }
            }
            self.unplace();
        }
        ok
    }

    /// Moves the cursor up to the longest stored key that is a prefix of the
    /// one at which it is, and shorter. A pending key is not passed: the step
    /// stays there and takes the mark off. Where no stored key encloses the
    /// cursor's, and where the cursor is nowhere, the result is `false` and
    /// the cursor is nowhere.
    pub fn move_to_nearest_enclosing_key(&mut self) -> (found: bool)
        requires
            old(self).wf(),
        ensures
            final(self).wf(),
            final(self).map() == old(self).map(),
            !final(self).pending(),
            old(self).current() is None ==> !found && final(self).current() is None,
            old(self).pending() ==> found && final(self).current() == old(self).current(),
            old(self).current() is Some && !old(self).pending() ==> found == has_enclosing(
                old(self).map(),
                old(self).current().unwrap(),
            ),
            old(self).current() is Some && !old(self).pending() && found ==> final(self).current()
                is Some && is_enclosing(
                old(self).map(),
                old(self).current().unwrap(),
                final(self).current().unwrap(),
            ),
            found ==> final(self).value_at() == Some(
                old(self).map()[final(self).current().unwrap()],
            ),
            !found ==> final(self).current() is None,
    {
        if self.eof {
            self.just_seeked = false;
            return false;
        }
        if self.just_seeked {
            proof {
                self.lemma_current();
            }
            self.just_seeked = false;
            return true;
        }
        let ghost head = self.rt.head;
        let ghost cur = self.key@;
        let ghost m = self.rt@;
        let ok: bool = self.stack.ascend(self.rt, &mut self.key);
        if ok {
            proof {
                let r = self.key@;
                self.stack.lemma_top(head, r);
                assert(m.contains_key(r));
                assert forall|o: Seq<u8>|
                    #[trigger] m.contains_key(o) && crate::order::proper_prefix(
                        o,
                        cur,
                    ) implies o.len() <= r.len() by {
                    assert(stores(head, o));
                }
            }
            self.land();
            proof {
                self.lemma_current();
            }
        } else {
            proof {
                assert forall|o: Seq<u8>|
                    #[trigger] m.contains_key(o) implies !crate::order::proper_prefix(o, cur) by {
                    assert(stores(head, o));
                }
            }
            self.unplace();
        }
        ok
    }
}

} // verus!

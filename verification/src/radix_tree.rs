//! Route matching: a trie of paths, and the queries of a router on it: the
//! route of a path, the longest route that a path starts with, and all the
//! routes that it starts with, the longest first.
//!
//! The queries that walk up the trie work on a cursor, which `create_iter`
//! makes. They search the trie to which the cursor is bound.

use vstd::prelude::*;
use vstd::string::StringSliceAdditionalSpecFns;
use crate::error::RaxError;
use crate::iterator::RaxIterator;
use crate::order::{is_prefix, lemma_lex_prefix, lemma_lex_transitive};
use crate::position::{lemma_prefix_chain, lemma_prefix_transitive};
use crate::query::{
    ahead,
    all_prefix_values,
    behind,
    has_floor,
    has_next,
    has_next_match,
    has_next_prefix,
    has_prefix,
    has_previous,
    has_previous_match,
    is_enclosing,
    is_floor,
    is_longest_prefix,
    is_next,
    is_next_match,
    is_next_prefix,
    is_previous,
    is_previous_match,
    keys_after,
    keys_before,
    lemma_fewer_after,
    lemma_fewer_before,
    lemma_floor_reaches,
    lemma_prefix_values_at,
    lemma_prefix_values_skip,
    prefix_values,
    within,
};
use crate::rax::Rax;

verus! {

/// A set of routes, each with an index.
pub struct RadixTree {
    pub(crate) tree: Rax,
}

/// A cursor for the queries on a `RadixTree`.
pub struct RadixIterator<'a> {
    pub(crate) iter: RaxIterator<'a>,
}

impl<'a> RadixIterator<'a> {
    /// The routes of the tree to which the cursor is bound, as bytes, each
    /// with its index.
    pub open(crate) spec fn map(&self) -> Map<Seq<u8>, i32> {
        self.iter.map()
    }

    /// The route at which the cursor is, if it is at one.
    pub open(crate) spec fn current(&self) -> Option<Seq<u8>> {
        self.iter.current()
    }

    /// The cursor is at a route that a search found and no step has passed yet.
    pub open(crate) spec fn pending(&self) -> bool {
        self.iter.pending()
    }

    /// The cursor is sound.
    pub open(crate) spec fn wf(&self) -> bool {
        self.iter.wf()
    }

    /// The number of frames on the cursor's stack.
    pub open(crate) spec fn frames(&self) -> nat {
        self.iter.frames()
    }

    /// The bytes in the cursor's key buffer.
    pub open(crate) spec fn key_buffer(&self) -> Seq<u8> {
        self.iter.key_buffer()
    }

    /// A cursor that is nowhere holds no frame and no byte; one that is at a
    /// route holds a frame at least, and that route in its buffer.
    pub proof fn lemma_buffers(&self)
        requires
            self.wf(),
        ensures
            self.current() is None ==> self.frames() == 0 && self.key_buffer().len() == 0,
            self.current() is Some ==> self.frames() > 0 && self.key_buffer()
                == self.current().unwrap(),
    {
        self.iter.lemma_buffers();
    }

    /// A cursor on the trie `rt`, which is nowhere yet: its stack and its
    /// key buffer are empty.
    pub fn new(rt: &'a Rax) -> (it: Self)
        requires
            rt.wf(),
        ensures
            it.wf(),
            it.map() == rt@,
            it.current() is None,
            !it.pending(),
            it.frames() == 0,
            it.key_buffer().len() == 0,
    {
        RadixIterator { iter: RaxIterator::new(rt) }
    }

    /// The route at which the cursor is, as bytes.
    pub fn key(&self) -> (k: Option<&[u8]>)
        ensures
            k is Some == self.current() is Some,
            k is Some ==> k.unwrap()@ == self.current().unwrap(),
    {
        self.iter.key()
    }

    /// The number of frames on the cursor's stack: the nodes on the way from
    /// the root to the route at which the cursor is, and none where it is
    /// nowhere.
    pub fn depth(&self) -> (n: usize)
        ensures
            n == self.frames(),
    {
        self.iter.depth()
    }

    /// Takes the cursor off the tree and empties its stack and its key
    /// buffer.
    pub fn stop(&mut self)
        requires
            old(self).wf(),
        ensures
            final(self).wf(),
            final(self).map() == old(self).map(),
            final(self).current() is None,
            !final(self).pending(),
            final(self).frames() == 0,
            final(self).key_buffer().len() == 0,
    {
        self.iter.stop();
    }

    /// The index of the route at which the cursor is.
    pub fn value(&self) -> (v: Option<i32>)
        requires
            self.wf(),
        ensures
            v is Some == self.current() is Some,
            v is Some ==> self.map().contains_key(self.current().unwrap()) && v.unwrap()
                == self.map()[self.current().unwrap()],
    {
        proof {
            self.iter.lemma_current();
        }
        self.iter.value()
    }

    /// Moves the cursor to the first route after the one at which it is, in
    /// the order of the routes. A pending route is not passed: the step stays
    /// there and takes the mark off. Where no route follows, and where the
    /// cursor is nowhere, the result is `false` and the cursor is nowhere.
    pub fn next(&mut self) -> (found: bool)
        requires
            old(self).wf(),
        ensures
            final(self).wf(),
            final(self).map() == old(self).map(),
            !final(self).pending(),
            old(self).current() is None ==> !found,
            old(self).pending() ==> found && final(self).current() == old(self).current(),
            old(self).current() is Some && !old(self).pending() ==> found == has_next(
                old(self).map(),
                old(self).current().unwrap(),
            ),
            old(self).current() is Some && !old(self).pending() && found ==> final(self).current() is Some
                && is_next(
                old(self).map(),
                old(self).current().unwrap(),
                final(self).current().unwrap(),
            ),
            !found ==> final(self).current() is None,
    {
        self.iter.next()
    }

    /// Moves the cursor to the last route before the one at which it is, in
    /// the order of the routes. A pending route is not passed: the step stays
    /// there and takes the mark off. Where no route comes before, and where
    /// the cursor is nowhere, the result is `false` and the cursor is nowhere.
    pub fn previous(&mut self) -> (found: bool)
        requires
            old(self).wf(),
        ensures
            final(self).wf(),
            final(self).map() == old(self).map(),
            !final(self).pending(),
            old(self).current() is None ==> !found,
            old(self).pending() ==> found && final(self).current() == old(self).current(),
            old(self).current() is Some && !old(self).pending() ==> found == has_previous(
                old(self).map(),
                old(self).current().unwrap(),
            ),
            old(self).current() is Some && !old(self).pending() && found ==> final(self).current() is Some
                && is_previous(
                old(self).map(),
                old(self).current().unwrap(),
                final(self).current().unwrap(),
            ),
            !found ==> final(self).current() is None,
    {
        self.iter.previous()
    }

    /// Puts the cursor at the last route that is `path` or comes before it,
    /// as the start of a walk over the routes with which `path` starts, and
    /// says whether there is such a route.
    pub fn search(&mut self, path: &[u8]) -> (found: bool)
        requires
            old(self).wf(),
        ensures
            final(self).wf(),
            final(self).map() == old(self).map(),
            found == has_floor(old(self).map(), path@),
            found ==> final(self).current() is Some && is_floor(
                old(self).map(),
                path@,
                final(self).current().unwrap(),
            ) && final(self).pending(),
            !found ==> final(self).current() is None,
    {
        self.iter.seek_at_or_before(path)
    }

    /// Moves the cursor up to the next route with which `path` starts: the
    /// longest one that is a prefix of the cursor's route and shorter, or
    /// that route itself where the cursor has just been put there. Returns
    /// its index. Where there is none the cursor is left nowhere.
    pub fn next_prefix(&mut self, path: &[u8]) -> (r: Option<i32>)
        requires
            old(self).wf(),
        ensures
            final(self).wf(),
            final(self).map() == old(self).map(),
            !final(self).pending(),
            old(self).current() is None ==> r is None,
            old(self).current() is Some ==> (r is Some) == has_next_prefix(
                old(self).map(),
                old(self).current().unwrap(),
                old(self).pending(),
                path@,
            ),
            r is Some ==> old(self).current() is Some && final(self).current() is Some
                && is_next_prefix(
                old(self).map(),
                old(self).current().unwrap(),
                old(self).pending(),
                path@,
                final(self).current().unwrap(),
            ) && r.unwrap() == old(self).map()[final(self).current().unwrap()],
            r is None ==> final(self).current() is None,
    {
        let ghost m = self.map();
        let ghost p = path@;
        if self.iter.key().is_none() {
            self.iter.stop();
            return None;
        }
        let ghost c0 = self.current().unwrap();
        let ghost p0 = self.pending();
        loop
            invariant
                self.wf(),
                self.map() == m,
                m == old(self).map(),
                p == path@,
                old(self).current() == Some(c0),
                old(self).pending() == p0,
                self.current() is Some,
                forall|o: Seq<u8>|
                    #[trigger] m.contains_key(o) && o.is_prefix_of(p) && within(c0, p0, o)
                        ==> within(self.current().unwrap(), self.pending(), o),
                forall|o: Seq<u8>|
                    #[trigger] within(self.current().unwrap(), self.pending(), o) ==> within(
                        c0,
                        p0,
                        o,
                    ),
            decreases
                    self.current().unwrap().len() + if self.pending() {
                        1int
                    } else {
                        0int
                    },
        {
            let ghost c = self.current().unwrap();
            let ghost was_pending = self.pending();
            if !self.iter.move_to_nearest_enclosing_key() {
                proof {
                    assert forall|o: Seq<u8>|
                        #[trigger] m.contains_key(o) && o.is_prefix_of(p) implies !within(
                        c0,
                        p0,
                        o,
                    ) by {
                        if within(c0, p0, o) {
                            assert(within(c, was_pending, o));
                        }
                    }
                }
                return None;
            }
            let ghost k = self.current().unwrap();
            proof {
                self.iter.lemma_current();
                if !was_pending {
                    assert(is_enclosing(m, c, k));
                }
                // Every route still to come is the cursor's or lies above it.
                assert forall|o: Seq<u8>|
                    #[trigger] m.contains_key(o) && o.is_prefix_of(p) && within(
                        c0,
                        p0,
                        o,
                    ) implies within(k, true, o) by {
                    assert(within(c, was_pending, o));
                    if !was_pending {
                        lemma_prefix_chain(o, k, c);
                        if o.len() == k.len() {
                            assert(o =~= k);
                        }
                    }
                }
                assert forall|o: Seq<u8>| #[trigger] within(k, false, o) implies within(c0, p0, o) by {
                    if !was_pending {
                        lemma_prefix_transitive(o, k, c);
                    }
                    assert(within(c, was_pending, o));
                }
                assert(within(c, was_pending, k));
            }
            let at_prefix: bool = match self.iter.key() {
                Some(key) => is_prefix(key, path),
                None => false,
            };
            if at_prefix {
                return self.iter.value();
            }
        }
    }

    /// The index of the longest route with which `path` starts, if it starts
    /// with any. The cursor is left at that route, or nowhere.
    pub fn longest_prefix(&mut self, path: &[u8]) -> (r: Option<i32>)
        requires
            old(self).wf(),
        ensures
            final(self).wf(),
            final(self).map() == old(self).map(),
            (r is Some) == has_prefix(old(self).map(), path@),
            r is Some ==> final(self).current() is Some && is_longest_prefix(
                old(self).map(),
                path@,
                final(self).current().unwrap(),
            ) && r.unwrap() == old(self).map()[final(self).current().unwrap()],
            r is None ==> final(self).current() is None,
    {
        let ghost m = self.map();
        let ghost p = path@;
        if !self.search(path) {
            proof {
                assert forall|o: Seq<u8>| #[trigger] m.contains_key(o) implies !o.is_prefix_of(p) by {
                    if o.is_prefix_of(p) {
                        lemma_lex_prefix(o, p);
                    }
                }
            }
            return None;
        }
        let ghost floor = self.current().unwrap();
        let r = self.next_prefix(path);
        proof {
            assert forall|o: Seq<u8>| #[trigger] m.contains_key(o) && o.is_prefix_of(p) implies within(
                floor,
                true,
                o,
            ) by {
                lemma_floor_reaches(m, p, floor, o);
            }
        }
        r
    }

    /// The indices of all the routes with which `path` starts, that of the
    /// longest route first.
    pub fn find_all_prefixes(&mut self, path: &[u8]) -> (r: Vec<i32>)
        requires
            old(self).wf(),
        ensures
            final(self).wf(),
            final(self).map() == old(self).map(),
            r@ == all_prefix_values(old(self).map(), path@),
            final(self).current() is None,
    {
        let mut results: Vec<i32> = Vec::with_capacity(10);
        let ghost m = self.map();
        let ghost p = path@;
        if !self.search(path) {
            proof {
                assert forall|o: Seq<u8>| #[trigger] m.contains_key(o) && o.is_prefix_of(p) implies !(
                -1 < o.len() <= p.len()) by {
                    lemma_lex_prefix(o, p);
                }
                lemma_prefix_values_skip(m, p, p.len() as int, -1);
            }
            return results;
        }
        let ghost bound: int = p.len() as int;
        proof {
            let floor = self.current().unwrap();
            assert forall|o: Seq<u8>| #[trigger] m.contains_key(o) && o.is_prefix_of(p) implies (
            o.len() <= bound <==> within(floor, true, o)) by {
                lemma_floor_reaches(m, p, floor, o);
            }
            assert(results@ + prefix_values(m, p, bound) =~= all_prefix_values(m, p));
        }
        loop
            invariant
                self.wf(),
                self.map() == m,
                m == old(self).map(),
                p == path@,
                -1 <= bound <= p.len(),
                results@ + prefix_values(m, p, bound) == all_prefix_values(m, p),
                self.current() is Some ==> forall|o: Seq<u8>|
                    #[trigger] m.contains_key(o) && o.is_prefix_of(p) ==> (o.len() <= bound
                        <==> within(self.current().unwrap(), self.pending(), o)),
                self.current() is None ==> prefix_values(m, p, bound) == Seq::<i32>::empty(),
            ensures
                results@ == all_prefix_values(m, p),
                self.current() is None,
            decreases bound + 1,
        {
            let ghost c = self.current();
            let ghost pending = self.pending();
            let ghost before = results@;
            match self.next_prefix(path) {
                Some(idx) => {
                    results.push(idx);
                    proof {
                        let k = self.current().unwrap();
                        assert(within(c.unwrap(), pending, k));
                        assert(k.len() <= bound);
                        assert forall|o: Seq<u8>|
                            #[trigger] m.contains_key(o) && o.is_prefix_of(p) implies !(k.len()
                            < o.len() <= bound) by {
                            if o.len() <= bound {
                                assert(within(c.unwrap(), pending, o));
                            }
                        }
                        lemma_prefix_values_skip(m, p, bound, k.len() as int);
                        lemma_prefix_values_at(m, p, k);
                        assert(results@ + prefix_values(m, p, k.len() - 1) =~= before
                            + prefix_values(m, p, bound));
                        assert forall|o: Seq<u8>|
                            #[trigger] m.contains_key(o) && o.is_prefix_of(p) implies (o.len()
                            <= k.len() - 1 <==> within(k, false, o)) by {
                            if o.len() < k.len() {
                                lemma_prefix_chain(o, k, p);
                            }
                        }
                        bound = k.len() - 1;
                    }
                },
                None => {
                    proof {
                        if c is Some {
                            assert forall|o: Seq<u8>|
                                #[trigger] m.contains_key(o) && o.is_prefix_of(p) implies !(-1
                                < o.len() <= bound) by {
                                if o.len() <= bound {
                                    assert(within(c.unwrap(), pending, o));
                                }
                            }
                            lemma_prefix_values_skip(m, p, bound, -1);
                        }
                        assert(results@ + Seq::<i32>::empty() =~= results@);
                    }
                    break ;
                },
            }
        }
        results
    }

    /// Moves the cursor on, in the order of the routes, to the next route
    /// with which `path` starts: the first such route after the cursor's, or
    /// the cursor's route itself where the cursor has just been put there.
    /// Returns its index. Where there is none the cursor is left nowhere.
    pub fn next_match(&mut self, path: &[u8]) -> (r: Option<i32>)
        requires
            old(self).wf(),
        ensures
            final(self).wf(),
            final(self).map() == old(self).map(),
            !final(self).pending(),
            old(self).current() is None ==> r is None,
            old(self).current() is Some ==> (r is Some) == has_next_match(
                old(self).map(),
                old(self).current().unwrap(),
                old(self).pending(),
                path@,
            ),
            r is Some ==> old(self).current() is Some && final(self).current() is Some
                && is_next_match(
                old(self).map(),
                old(self).current().unwrap(),
                old(self).pending(),
                path@,
                final(self).current().unwrap(),
            ) && r.unwrap() == old(self).map()[final(self).current().unwrap()],
            r is None ==> final(self).current() is None,
    {
        let ghost m = self.map();
        let ghost p = path@;
        if self.iter.key().is_none() {
            self.iter.stop();
            return None;
        }
        let ghost c0 = self.current().unwrap();
        let ghost p0 = self.pending();
        loop
            invariant
                self.wf(),
                self.map() == m,
                m == old(self).map(),
                p == path@,
                old(self).current() == Some(c0),
                old(self).pending() == p0,
                self.current() is Some,
                forall|o: Seq<u8>|
                    #[trigger] m.contains_key(o) && o.is_prefix_of(p) && ahead(c0, p0, o) ==> ahead(
                        self.current().unwrap(),
                        self.pending(),
                        o,
                    ),
                forall|o: Seq<u8>|
                    #[trigger] ahead(self.current().unwrap(), self.pending(), o) ==> ahead(c0, p0, o),
            decreases
                    keys_after(m, self.current().unwrap()).len() + if self.pending() {
                        1int
                    } else {
                        0int
                    },
        {
            let ghost c = self.current().unwrap();
            let ghost was_pending = self.pending();
            if !self.iter.next() {
                proof {
                    assert forall|o: Seq<u8>|
                        #[trigger] m.contains_key(o) && o.is_prefix_of(p) implies !ahead(c0, p0, o) by {
                        if ahead(c0, p0, o) {
                            assert(ahead(c, was_pending, o));
                        }
                    }
                }
                return None;
            }
            let ghost k = self.current().unwrap();
            proof {
                self.iter.lemma_current();
                if !was_pending {
                    assert(is_next(m, c, k));
                    lemma_fewer_after(m, c, k);
                }
                assert forall|o: Seq<u8>|
                    #[trigger] m.contains_key(o) && o.is_prefix_of(p) && ahead(
                        c0,
                        p0,
                        o,
                    ) implies ahead(k, true, o) by {
                    assert(ahead(c, was_pending, o));
                }
                assert forall|o: Seq<u8>| #[trigger] ahead(k, false, o) implies ahead(c0, p0, o) by {
                    if !was_pending {
                        lemma_lex_transitive(c, k, o);
                    }
                    assert(ahead(c, was_pending, o));
                }
                assert(ahead(c, was_pending, k));
            }
            let at_prefix: bool = match self.iter.key() {
                Some(key) => is_prefix(key, path),
                None => false,
            };
            if at_prefix {
                return self.iter.value();
            }
        }
    }

    /// Moves the cursor back, in the order of the routes, to the previous
    /// route with which `path` starts: the last such route before the
    /// cursor's, or the cursor's route itself where the cursor has just been
    /// put there. Returns its index. Where there is none the cursor is left
    /// nowhere.
    pub fn previous_match(&mut self, path: &[u8]) -> (r: Option<i32>)
        requires
            old(self).wf(),
        ensures
            final(self).wf(),
            final(self).map() == old(self).map(),
            !final(self).pending(),
            old(self).current() is None ==> r is None,
            old(self).current() is Some ==> (r is Some) == has_previous_match(
                old(self).map(),
                old(self).current().unwrap(),
                old(self).pending(),
                path@,
            ),
            r is Some ==> old(self).current() is Some && final(self).current() is Some
                && is_previous_match(
                old(self).map(),
                old(self).current().unwrap(),
                old(self).pending(),
                path@,
                final(self).current().unwrap(),
            ) && r.unwrap() == old(self).map()[final(self).current().unwrap()],
            r is None ==> final(self).current() is None,
    {
        let ghost m = self.map();
        let ghost p = path@;
        if self.iter.key().is_none() {
            self.iter.stop();
            return None;
        }
        let ghost c0 = self.current().unwrap();
        let ghost p0 = self.pending();
        loop
            invariant
                self.wf(),
                self.map() == m,
                m == old(self).map(),
                p == path@,
                old(self).current() == Some(c0),
                old(self).pending() == p0,
                self.current() is Some,
                forall|o: Seq<u8>|
                    #[trigger] m.contains_key(o) && o.is_prefix_of(p) && behind(c0, p0, o)
                        ==> behind(self.current().unwrap(), self.pending(), o),
                forall|o: Seq<u8>|
                    #[trigger] behind(self.current().unwrap(), self.pending(), o) ==> behind(
                        c0,
                        p0,
                        o,
                    ),
            decreases
                    keys_before(m, self.current().unwrap()).len() + if self.pending() {
                        1int
                    } else {
                        0int
                    },
        {
            let ghost c = self.current().unwrap();
            let ghost was_pending = self.pending();
            if !self.iter.previous() {
                proof {
                    assert forall|o: Seq<u8>|
                        #[trigger] m.contains_key(o) && o.is_prefix_of(p) implies !behind(
                        c0,
                        p0,
                        o,
                    ) by {
                        if behind(c0, p0, o) {
                            assert(behind(c, was_pending, o));
                        }
                    }
                }
                return None;
            }
            let ghost k = self.current().unwrap();
            proof {
                self.iter.lemma_current();
                if !was_pending {
                    assert(is_previous(m, c, k));
                    lemma_fewer_before(m, c, k);
                }
                assert forall|o: Seq<u8>|
                    #[trigger] m.contains_key(o) && o.is_prefix_of(p) && behind(
                        c0,
                        p0,
                        o,
                    ) implies behind(k, true, o) by {
                    assert(behind(c, was_pending, o));
                }
                assert forall|o: Seq<u8>| #[trigger] behind(k, false, o) implies behind(c0, p0, o) by {
                    if !was_pending {
                        lemma_lex_transitive(o, k, c);
                    }
                    assert(behind(c, was_pending, o));
                }
                assert(behind(c, was_pending, k));
            }
            let at_prefix: bool = match self.iter.key() {
                Some(key) => is_prefix(key, path),
                None => false,
            };
            if at_prefix {
                return self.iter.value();
            }
        }
    }
}

impl RadixTree {
    /// The routes, as bytes, each with its index.
    pub open(crate) spec fn view(&self) -> Map<Seq<u8>, i32> {
        self.tree@
    }

    /// The trie of the routes is well formed.
    pub open(crate) spec fn wf(&self) -> bool {
        self.tree.wf()
    }

    /// The tries of the two have the same nodes with the same labels: they
    /// differ in indices at most.
    pub open(crate) spec fn same_shape(&self, other: RadixTree) -> bool {
        self.tree.same_shape(other.tree)
    }

    /// A tree without routes.
    pub fn new() -> (r: Result<Self, &'static str>)
        ensures
            r is Ok,
            r.unwrap().wf(),
            r.unwrap()@ == Map::<Seq<u8>, i32>::empty(),
    {
        Ok(RadixTree { tree: Rax::new() })
    }

    /// A cursor on this tree, which is nowhere yet: its stack and its key
    /// buffer are empty.
    pub fn create_iter(&self) -> (r: Result<RadixIterator<'_>, &'static str>)
        requires
            self.wf(),
        ensures
            r is Ok,
            r.unwrap().wf(),
            r.unwrap().map() == self@,
            r.unwrap().current() is None,
            !r.unwrap().pending(),
            r.unwrap().frames() == 0,
            r.unwrap().key_buffer().len() == 0,
    {
        Ok(RadixIterator::new(&self.tree))
    }

    /// Stores `idx` under `path` and returns the index that `path` had
    /// before, if it had one. A path that is in the tree gets its new index
    /// in place, which never fails. A new path needs memory: where that
    /// cannot be had the error is the status code of `OutOfMemory` and the
    /// tree is left as it was, with the nodes, labels, routes and indices
    /// that it had.
    pub fn insert(&mut self, path: &str, idx: i32) -> (r: Result<Option<i32>, i32>)
        requires
            old(self).wf(),
        ensures
            final(self).wf(),
            r is Ok ==> r->Ok_0 == old(self)@.get(path.spec_bytes()),
            r is Ok ==> final(self)@ == old(self)@.insert(path.spec_bytes(), idx),
            r is Err ==> r->Err_0 == RaxError::OutOfMemory.spec_code(),
            r is Err ==> final(self)@ == old(self)@ && final(self).same_shape(*old(self)),
            old(self)@.contains_key(path.spec_bytes()) ==> r is Ok && final(self).same_shape(
                *old(self),
            ),
    {
        match self.tree.insert(path.as_bytes(), idx) {
            Ok(prev) => Ok(prev),
            Err(e) => Err(e.code()),
        }
    }

    /// The index of `path`, if `path` is a route of the tree.
    pub fn find_exact(&self, path: &str) -> (r: Option<i32>)
        requires
            self.wf(),
        ensures
            r == self@.get(path.spec_bytes()),
    {
        self.tree.find(path.as_bytes())
    }

    /// Takes the route `path` away. Where `path` is no route of the tree the
    /// error is the status code of `NotFound` and the tree is left as it was,
    /// node for node.
    pub fn remove(&mut self, path: &str) -> (r: Result<(), i32>)
        requires
            old(self).wf(),
        ensures
            final(self).wf(),
            old(self)@.contains_key(path.spec_bytes()) ==> r is Ok && final(self)@ == old(
                self,
            )@.remove(path.spec_bytes()),
            !old(self)@.contains_key(path.spec_bytes()) ==> r == Err::<(), i32>(
                RaxError::NotFound.spec_code(),
            ) && *final(self) == *old(self),
    {
        match self.tree.remove(path.as_bytes()) {
            Ok(_) => Ok(()),
            Err(e) => Err(e.code()),
        }
    }

    /// Puts the cursor at the last route that is `path` or comes before it,
    /// as the start of a walk over the routes with which `path` starts, and
    /// says whether there is such a route.
    pub fn search(&self, iter: &mut RadixIterator<'_>, path: &str) -> (found: bool)
        requires
            old(iter).wf(),
        ensures
            final(iter).wf(),
            final(iter).map() == old(iter).map(),
            found == has_floor(old(iter).map(), path.spec_bytes()),
            found ==> final(iter).current() is Some && is_floor(
                old(iter).map(),
                path.spec_bytes(),
                final(iter).current().unwrap(),
            ) && final(iter).pending(),
            !found ==> final(iter).current() is None,
    {
        iter.search(path.as_bytes())
    }

    /// Moves the cursor up to the next route with which `path` starts: the
    /// longest one that is a prefix of the cursor's route and shorter, or
    /// that route itself where the cursor has just been put there. Returns
    /// its index. Where there is none the cursor is left nowhere.
    pub fn next_prefix(&self, iter: &mut RadixIterator<'_>, path: &str) -> (r: Option<i32>)
        requires
            old(iter).wf(),
        ensures
            final(iter).wf(),
            final(iter).map() == old(iter).map(),
            !final(iter).pending(),
            old(iter).current() is None ==> r is None,
            old(iter).current() is Some ==> (r is Some) == has_next_prefix(
                old(iter).map(),
                old(iter).current().unwrap(),
                old(iter).pending(),
                path.spec_bytes(),
            ),
            r is Some ==> old(iter).current() is Some && final(iter).current() is Some
                && is_next_prefix(
                old(iter).map(),
                old(iter).current().unwrap(),
                old(iter).pending(),
                path.spec_bytes(),
                final(iter).current().unwrap(),
            ) && r.unwrap() == old(iter).map()[final(iter).current().unwrap()],
            r is None ==> final(iter).current() is None,
    {
        iter.next_prefix(path.as_bytes())
    }

    /// The index of the longest route with which `path` starts, if it starts
    /// with any. The cursor is left at that route, or nowhere.
    pub fn longest_prefix(&self, iter: &mut RadixIterator<'_>, path: &str) -> (r: Option<i32>)
        requires
            old(iter).wf(),
        ensures
            final(iter).wf(),
            final(iter).map() == old(iter).map(),
            (r is Some) == has_prefix(old(iter).map(), path.spec_bytes()),
            r is Some ==> final(iter).current() is Some && is_longest_prefix(
                old(iter).map(),
                path.spec_bytes(),
                final(iter).current().unwrap(),
            ) && r.unwrap() == old(iter).map()[final(iter).current().unwrap()],
            r is None ==> final(iter).current() is None,
    {
        iter.longest_prefix(path.as_bytes())
    }

    /// The indices of all the routes with which `path` starts, that of the
    /// longest route first.
    pub fn find_all_prefixes(&self, iter: &mut RadixIterator<'_>, path: &str) -> (r: Vec<i32>)
        requires
            old(iter).wf(),
        ensures
            final(iter).wf(),
            final(iter).map() == old(iter).map(),
            r@ == all_prefix_values(old(iter).map(), path.spec_bytes()),
            final(iter).current() is None,
    {
        iter.find_all_prefixes(path.as_bytes())
    }

    /// Moves the cursor on, in the order of the routes, to the next route
    /// with which `path` starts: the first such route after the cursor's, or
    /// the cursor's route itself where the cursor has just been put there.
    /// Returns its index. Where there is none the cursor is left nowhere.
    pub fn next_match(&self, iter: &mut RadixIterator<'_>, path: &str) -> (r: Option<i32>)
        requires
            old(iter).wf(),
        ensures
            final(iter).wf(),
            final(iter).map() == old(iter).map(),
            !final(iter).pending(),
            old(iter).current() is None ==> r is None,
            old(iter).current() is Some ==> (r is Some) == has_next_match(
                old(iter).map(),
                old(iter).current().unwrap(),
                old(iter).pending(),
                path.spec_bytes(),
            ),
            r is Some ==> old(iter).current() is Some && final(iter).current() is Some
                && is_next_match(
                old(iter).map(),
                old(iter).current().unwrap(),
                old(iter).pending(),
                path.spec_bytes(),
                final(iter).current().unwrap(),
            ) && r.unwrap() == old(iter).map()[final(iter).current().unwrap()],
            r is None ==> final(iter).current() is None,
    {
        iter.next_match(path.as_bytes())
    }

    /// Moves the cursor back, in the order of the routes, to the previous
    /// route with which `path` starts: the last such route before the
    /// cursor's, or the cursor's route itself where the cursor has just been
    /// put there. Returns its index. Where there is none the cursor is left
    /// nowhere.
    pub fn previous_match(&self, iter: &mut RadixIterator<'_>, path: &str) -> (r: Option<i32>)
        requires
            old(iter).wf(),
        ensures
            final(iter).wf(),
            final(iter).map() == old(iter).map(),
            !final(iter).pending(),
            old(iter).current() is None ==> r is None,
            old(iter).current() is Some ==> (r is Some) == has_previous_match(
                old(iter).map(),
                old(iter).current().unwrap(),
                old(iter).pending(),
                path.spec_bytes(),
            ),
            r is Some ==> old(iter).current() is Some && final(iter).current() is Some
                && is_previous_match(
                old(iter).map(),
                old(iter).current().unwrap(),
                old(iter).pending(),
                path.spec_bytes(),
                final(iter).current().unwrap(),
            ) && r.unwrap() == old(iter).map()[final(iter).current().unwrap()],
            r is None ==> final(iter).current() is None,
    {
        iter.previous_match(path.as_bytes())
    }
}

} // verus!

//! What the queries on a set of keys ask for, stated over the map from keys to
//! values and the order of the keys.

use vstd::prelude::*;
use crate::order::{
    lemma_lex_asymmetric,
    lemma_lex_past_prefix,
    lemma_lex_prefix,
    lemma_lex_transitive,
    lex_le,
    lex_lt,
    proper_prefix,
};

verus! {

/// `k` is the last stored key that is `q` or comes before it.
pub open spec fn is_floor(m: Map<Seq<u8>, i32>, q: Seq<u8>, k: Seq<u8>) -> bool {
    &&& m.contains_key(k)
    &&& lex_le(k, q)
    &&& forall|o: Seq<u8>| #[trigger] m.contains_key(o) && lex_le(o, q) ==> lex_le(o, k)
}

/// Some stored key is `q` or comes before it.
pub open spec fn has_floor(m: Map<Seq<u8>, i32>, q: Seq<u8>) -> bool {
    exists|o: Seq<u8>| #[trigger] m.contains_key(o) && lex_le(o, q)
}

/// `k` is the first stored key after `cur`.
pub open spec fn is_next(m: Map<Seq<u8>, i32>, cur: Seq<u8>, k: Seq<u8>) -> bool {
    &&& m.contains_key(k)
    &&& lex_lt(cur, k)
    &&& forall|o: Seq<u8>| #[trigger] m.contains_key(o) && lex_lt(cur, o) ==> lex_le(k, o)
}

/// Some stored key comes after `cur`.
pub open spec fn has_next(m: Map<Seq<u8>, i32>, cur: Seq<u8>) -> bool {
    exists|o: Seq<u8>| #[trigger] m.contains_key(o) && lex_lt(cur, o)
}

/// `k` is the last stored key before `cur`.
pub open spec fn is_previous(m: Map<Seq<u8>, i32>, cur: Seq<u8>, k: Seq<u8>) -> bool {
    &&& m.contains_key(k)
    &&& lex_lt(k, cur)
    &&& forall|o: Seq<u8>| #[trigger] m.contains_key(o) && lex_lt(o, cur) ==> lex_le(o, k)
}

/// Some stored key comes before `cur`.
pub open spec fn has_previous(m: Map<Seq<u8>, i32>, cur: Seq<u8>) -> bool {
    exists|o: Seq<u8>| #[trigger] m.contains_key(o) && lex_lt(o, cur)
}

/// `k` is the longest stored key that is a prefix of `cur` and shorter than it.
pub open spec fn is_enclosing(m: Map<Seq<u8>, i32>, cur: Seq<u8>, k: Seq<u8>) -> bool {
    &&& m.contains_key(k)
    &&& proper_prefix(k, cur)
    &&& forall|o: Seq<u8>|
        #[trigger] m.contains_key(o) && proper_prefix(o, cur) ==> o.len() <= k.len()
}

/// Some stored key is a prefix of `cur` and shorter than it.
pub open spec fn has_enclosing(m: Map<Seq<u8>, i32>, cur: Seq<u8>) -> bool {
    exists|o: Seq<u8>| #[trigger] m.contains_key(o) && proper_prefix(o, cur)
}

/// `k` is the longest stored key that is a prefix of `path`.
pub open spec fn is_longest_prefix(m: Map<Seq<u8>, i32>, path: Seq<u8>, k: Seq<u8>) -> bool {
    &&& m.contains_key(k)
    &&& k.is_prefix_of(path)
    &&& forall|o: Seq<u8>|
        #[trigger] m.contains_key(o) && o.is_prefix_of(path) ==> o.len() <= k.len()
}

/// Some stored key is a prefix of `path`.
pub open spec fn has_prefix(m: Map<Seq<u8>, i32>, path: Seq<u8>) -> bool {
    exists|o: Seq<u8>| #[trigger] m.contains_key(o) && o.is_prefix_of(path)
}

/// `k` is within reach of a walk up from `cur`: it is a prefix of `cur` and
/// shorter, or it is `cur` itself where `cur` is `pending`.
pub open spec fn within(cur: Seq<u8>, pending: bool, k: Seq<u8>) -> bool {
    (pending && k == cur) || proper_prefix(k, cur)
}

/// `k` is the longest stored key that is a prefix of `path` and within reach
/// of a walk up from `cur`.
pub open spec fn is_next_prefix(
    m: Map<Seq<u8>, i32>,
    cur: Seq<u8>,
    pending: bool,
    path: Seq<u8>,
    k: Seq<u8>,
) -> bool {
    &&& m.contains_key(k)
    &&& k.is_prefix_of(path)
    &&& within(cur, pending, k)
    &&& forall|o: Seq<u8>|
        #[trigger] m.contains_key(o) && o.is_prefix_of(path) && within(cur, pending, o) ==> o.len()
            <= k.len()
}

/// Some stored key is a prefix of `path` and within reach of a walk up from `cur`.
pub open spec fn has_next_prefix(
    m: Map<Seq<u8>, i32>,
    cur: Seq<u8>,
    pending: bool,
    path: Seq<u8>,
) -> bool {
    exists|o: Seq<u8>| #[trigger] m.contains_key(o) && o.is_prefix_of(path) && within(cur, pending, o)
}

/// The values of the stored keys that are prefixes of `path` and at most `n`
/// bytes long, the value of the longest key first.
pub open spec fn prefix_values(m: Map<Seq<u8>, i32>, path: Seq<u8>, n: int) -> Seq<i32>
    decreases n + 1,
{
    if n < 0 {
        Seq::empty()
    } else if n <= path.len() && m.contains_key(path.take(n)) {
        seq![m[path.take(n)]] + prefix_values(m, path, n - 1)
    } else {
        prefix_values(m, path, n - 1)
    }
}

/// The values of all the stored keys that are prefixes of `path`, the value
/// of the longest key first.
pub open spec fn all_prefix_values(m: Map<Seq<u8>, i32>, path: Seq<u8>) -> Seq<i32> {
    prefix_values(m, path, path.len() as int)
}

/// A prefix of `q` that comes up to a string that comes up to `q` is a prefix
/// of that string.
pub proof fn lemma_between(p: Seq<u8>, mid: Seq<u8>, q: Seq<u8>)
    requires
        p.is_prefix_of(q),
        lex_le(p, mid),
        lex_le(mid, q),
    ensures
        p.is_prefix_of(mid),
{
    if !p.is_prefix_of(mid) {
        let z = q.skip(p.len() as int);
        assert(q =~= p + z);
        if p == mid {
            assert(p =~= mid.subrange(0, p.len() as int));
        }
        lemma_lex_past_prefix(p, z, mid);
        if mid == q {
            crate::order::lemma_lex_irreflexive(q);
        } else {
            lemma_lex_asymmetric(mid, q);
        }
    }
}

/// The stored prefixes of `q` are all within reach of a walk up from the last
/// stored key up to `q`, that key first.
pub proof fn lemma_floor_reaches(m: Map<Seq<u8>, i32>, q: Seq<u8>, floor: Seq<u8>, o: Seq<u8>)
    requires
        is_floor(m, q, floor),
        m.contains_key(o),
        o.is_prefix_of(q),
    ensures
        within(floor, true, o),
{
    lemma_lex_prefix(o, q);
    lemma_between(o, floor, q);
    if o.len() == floor.len() {
        assert(o =~= floor);
    }
}

/// The lengths at which no stored key is a prefix of `path` add nothing to
/// the values.
pub proof fn lemma_prefix_values_skip(m: Map<Seq<u8>, i32>, path: Seq<u8>, hi: int, lo: int)
    requires
        -1 <= lo <= hi,
        forall|o: Seq<u8>|
            #[trigger] m.contains_key(o) && o.is_prefix_of(path) ==> !(lo < o.len() <= hi),
    ensures
        prefix_values(m, path, hi) == prefix_values(m, path, lo),
    decreases hi - lo,
{
    if lo < hi {
        if hi <= path.len() && m.contains_key(path.take(hi)) {
            assert(path.take(hi).is_prefix_of(path)) by {
                assert(path.subrange(0, hi) =~= path.take(hi));
            }
        }
        lemma_prefix_values_skip(m, path, hi - 1, lo);
    }
}

/// The value of a stored prefix of `path` comes first among the values of
/// the stored prefixes up to its length.
pub proof fn lemma_prefix_values_at(m: Map<Seq<u8>, i32>, path: Seq<u8>, k: Seq<u8>)
    requires
        m.contains_key(k),
        k.is_prefix_of(path),
    ensures
        prefix_values(m, path, k.len() as int) == seq![m[k]] + prefix_values(
            m,
            path,
            k.len() - 1,
        ),
{
    assert(path.take(k.len() as int) =~= k);
}

/// `k` lies ahead of `cur` in the order of the keys: it comes after `cur`, or
/// it is `cur` itself where `cur` is `pending`.
pub open spec fn ahead(cur: Seq<u8>, pending: bool, k: Seq<u8>) -> bool {
    (pending && k == cur) || lex_lt(cur, k)
}

/// `k` lies behind `cur` in the order of the keys: it comes before `cur`, or
/// it is `cur` itself where `cur` is `pending`.
pub open spec fn behind(cur: Seq<u8>, pending: bool, k: Seq<u8>) -> bool {
    (pending && k == cur) || lex_lt(k, cur)
}

/// `k` is the first stored key ahead of `cur` that is a prefix of `path`.
pub open spec fn is_next_match(
    m: Map<Seq<u8>, i32>,
    cur: Seq<u8>,
    pending: bool,
    path: Seq<u8>,
    k: Seq<u8>,
) -> bool {
    &&& m.contains_key(k)
    &&& k.is_prefix_of(path)
    &&& ahead(cur, pending, k)
    &&& forall|o: Seq<u8>|
        #[trigger] m.contains_key(o) && o.is_prefix_of(path) && ahead(cur, pending, o) ==> lex_le(
            k,
            o,
        )
}

/// Some stored key ahead of `cur` is a prefix of `path`.
pub open spec fn has_next_match(
    m: Map<Seq<u8>, i32>,
    cur: Seq<u8>,
    pending: bool,
    path: Seq<u8>,
) -> bool {
    exists|o: Seq<u8>| #[trigger] m.contains_key(o) && o.is_prefix_of(path) && ahead(cur, pending, o)
}

/// `k` is the last stored key behind `cur` that is a prefix of `path`.
pub open spec fn is_previous_match(
    m: Map<Seq<u8>, i32>,
    cur: Seq<u8>,
    pending: bool,
    path: Seq<u8>,
    k: Seq<u8>,
) -> bool {
    &&& m.contains_key(k)
    &&& k.is_prefix_of(path)
    &&& behind(cur, pending, k)
    &&& forall|o: Seq<u8>|
        #[trigger] m.contains_key(o) && o.is_prefix_of(path) && behind(cur, pending, o) ==> lex_le(
            o,
            k,
        )
}

/// Some stored key behind `cur` is a prefix of `path`.
pub open spec fn has_previous_match(
    m: Map<Seq<u8>, i32>,
    cur: Seq<u8>,
    pending: bool,
    path: Seq<u8>,
) -> bool {
    exists|o: Seq<u8>| #[trigger] m.contains_key(o) && o.is_prefix_of(path) && behind(cur, pending, o)
}

/// The stored keys that come after `cur`.
pub open spec fn keys_after(m: Map<Seq<u8>, i32>, cur: Seq<u8>) -> Set<Seq<u8>> {
    m.dom().filter(|o: Seq<u8>| lex_lt(cur, o))
}

/// The stored keys that come before `cur`.
pub open spec fn keys_before(m: Map<Seq<u8>, i32>, cur: Seq<u8>) -> Set<Seq<u8>> {
    m.dom().filter(|o: Seq<u8>| lex_lt(o, cur))
}

/// Fewer stored keys come after a stored key than after a string before it.
pub proof fn lemma_fewer_after(m: Map<Seq<u8>, i32>, cur: Seq<u8>, k: Seq<u8>)
    requires
        m.dom().finite(),
        m.contains_key(k),
        lex_lt(cur, k),
    ensures
        keys_after(m, k).len() < keys_after(m, cur).len(),
{
    let near = keys_after(m, k);
    let far = keys_after(m, cur);
    m.dom().lemma_len_filter(|o: Seq<u8>| lex_lt(cur, o));
    assert forall|o: Seq<u8>| near.contains(o) implies far.contains(o) by {
        lemma_lex_transitive(cur, k, o);
    }
    crate::order::lemma_lex_irreflexive(k);
    near.lemma_subset_not_in_lt(far, k);
}

/// Fewer stored keys come before a stored key than before a string after it.
pub proof fn lemma_fewer_before(m: Map<Seq<u8>, i32>, cur: Seq<u8>, k: Seq<u8>)
    requires
        m.dom().finite(),
        m.contains_key(k),
        lex_lt(k, cur),
    ensures
        keys_before(m, k).len() < keys_before(m, cur).len(),
{
    let near = keys_before(m, k);
    let far = keys_before(m, cur);
    m.dom().lemma_len_filter(|o: Seq<u8>| lex_lt(o, cur));
    assert forall|o: Seq<u8>| near.contains(o) implies far.contains(o) by {
        lemma_lex_transitive(o, k, cur);
    }
    crate::order::lemma_lex_irreflexive(k);
    near.lemma_subset_not_in_lt(far, k);
}

} // verus!

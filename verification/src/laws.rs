//! What holds of the trie and its queries whatever the keys: the laws that
//! connect the operations with each other.
//!
//! The operations state what they do over the map from keys to values. The
//! laws here are about such maps, and about the walks that the steps of a
//! cursor make.

use vstd::prelude::*;
use crate::order::{
    lemma_lex_asymmetric,
    lemma_lex_total,
    lemma_lex_transitive,
    lex_le,
    lex_lt,
};
use crate::query::{
    all_prefix_values,
    has_next,
    has_prefix,
    has_previous,
    is_longest_prefix,
    is_next,
    is_previous,
    lemma_prefix_values_at,
    lemma_prefix_values_skip,
    prefix_values,
};
use crate::rax::Rax;

verus! {

/// The keys and values after the insertions `ops`, made one after the other
/// into an empty trie.
pub open spec fn inserted(ops: Seq<(Seq<u8>, i32)>) -> Map<Seq<u8>, i32>
    decreases ops.len(),
{
    if ops.len() == 0 {
        Map::empty()
    } else {
        inserted(ops.drop_last()).insert(ops.last().0, ops.last().1)
    }
}

/// A key that was inserted is found, with the value of its last insertion.
pub proof fn law_find_inserted(ops: Seq<(Seq<u8>, i32)>, i: int)
    requires
        0 <= i < ops.len(),
        forall|j: int| i < j < ops.len() ==> (#[trigger] ops[j]).0 != ops[i].0,
    ensures
        inserted(ops).get(ops[i].0) == Some(ops[i].1),
    decreases ops.len(),
{
    if i < ops.len() - 1 {
        let before = ops.drop_last();
        assert(before[i] == ops[i]);
        assert forall|j: int| i < j < before.len() implies (#[trigger] before[j]).0 != before[i].0 by {
            assert(before[j] == ops[j]);
        }
        law_find_inserted(before, i);
        assert(ops[ops.len() - 1].0 != ops[i].0);
    }
}

/// A key that was never inserted is not found.
pub proof fn law_find_never_inserted(ops: Seq<(Seq<u8>, i32)>, k: Seq<u8>)
    requires
        forall|j: int| 0 <= j < ops.len() ==> (#[trigger] ops[j]).0 != k,
    ensures
        inserted(ops).get(k) is None,
    decreases ops.len(),
{
    if ops.len() > 0 {
        let before = ops.drop_last();
        assert forall|j: int| 0 <= j < before.len() implies (#[trigger] before[j]).0 != k by {
            assert(before[j] == ops[j]);
        }
        law_find_never_inserted(before, k);
        assert(ops[ops.len() - 1].0 != k);
    }
}

/// A key that was removed is not found, and every other key is found as it
/// was before.
pub proof fn law_find_removed(m: Map<Seq<u8>, i32>, k: Seq<u8>, o: Seq<u8>)
    ensures
        m.remove(k).get(k) is None,
        o != k ==> m.remove(k).get(o) == m.get(o),
{
}

/// In a well-formed trie every node but the root is a key or has two
/// children or more.
pub proof fn law_compressed(t: Rax)
    requires
        t.wf(),
    ensures
        t.compressed(),
{
    t.head.lemma_wf_compressed();
}

/// A key that is inserted again has its new value, and the trie has the keys
/// that it had, no more.
pub proof fn law_insert_again(m: Map<Seq<u8>, i32>, k: Seq<u8>, v: i32)
    requires
        m.contains_key(k),
    ensures
        m.insert(k, v).dom() == m.dom(),
        m.insert(k, v).dom().len() == m.dom().len(),
        m.insert(k, v).get(k) == Some(v),
{
    assert(m.insert(k, v).dom() =~= m.dom());
}

/// A step forward goes to a later key and passes no stored key.
pub proof fn law_next_passes_nothing(m: Map<Seq<u8>, i32>, cur: Seq<u8>, k: Seq<u8>, o: Seq<u8>)
    requires
        is_next(m, cur, k),
        m.contains_key(o),
    ensures
        lex_lt(cur, k),
        !(lex_lt(cur, o) && lex_lt(o, k)),
{
    if lex_lt(cur, o) && lex_lt(o, k) {
        lemma_lex_asymmetric(o, k);
    }
}

/// A step back goes to an earlier key and passes no stored key.
pub proof fn law_previous_passes_nothing(
    m: Map<Seq<u8>, i32>,
    cur: Seq<u8>,
    k: Seq<u8>,
    o: Seq<u8>,
)
    requires
        is_previous(m, cur, k),
        m.contains_key(o),
    ensures
        lex_lt(k, cur),
        !(lex_lt(k, o) && lex_lt(o, cur)),
{
    if lex_lt(k, o) && lex_lt(o, cur) {
        lemma_lex_asymmetric(k, o);
    }
}

/// A step back undoes a step forward from a stored key.
pub proof fn law_next_then_previous(m: Map<Seq<u8>, i32>, a: Seq<u8>, b: Seq<u8>)
    requires
        m.contains_key(a),
        is_next(m, a, b),
    ensures
        is_previous(m, b, a),
{
    assert forall|o: Seq<u8>| #[trigger] m.contains_key(o) && lex_lt(o, b) implies lex_le(o, a) by {
        lemma_lex_total(o, a);
        if lex_lt(a, o) {
            lemma_lex_asymmetric(o, b);
        }
    }
}

/// A step forward undoes a step back from a stored key.
pub proof fn law_previous_then_next(m: Map<Seq<u8>, i32>, a: Seq<u8>, b: Seq<u8>)
    requires
        m.contains_key(a),
        is_previous(m, a, b),
    ensures
        is_next(m, b, a),
{
    assert forall|o: Seq<u8>| #[trigger] m.contains_key(o) && lex_lt(b, o) implies lex_le(a, o) by {
        lemma_lex_total(o, a);
        if lex_lt(o, a) {
            lemma_lex_asymmetric(b, o);
        }
    }
}

/// `ks` are the keys at which a cursor is that starts at the stored key
/// `ks[0]` and steps forward until no key follows.
pub open spec fn walk_forward(m: Map<Seq<u8>, i32>, ks: Seq<Seq<u8>>) -> bool {
    &&& ks.len() > 0
    &&& m.contains_key(ks[0])
    &&& forall|i: int| 0 <= i < ks.len() - 1 ==> is_next(m, #[trigger] ks[i], ks[i + 1])
    &&& !has_next(m, ks.last())
}

/// `ks` are the keys at which a cursor is that starts at the stored key
/// `ks[0]` and steps back until no key comes before.
pub open spec fn walk_back(m: Map<Seq<u8>, i32>, ks: Seq<Seq<u8>>) -> bool {
    &&& ks.len() > 0
    &&& m.contains_key(ks[0])
    &&& forall|i: int| 0 <= i < ks.len() - 1 ==> is_previous(m, #[trigger] ks[i], ks[i + 1])
    &&& !has_previous(m, ks.last())
}

/// On a walk forward a later key comes after an earlier one, and is stored.
proof fn lemma_forward_sorted(m: Map<Seq<u8>, i32>, ks: Seq<Seq<u8>>, i: int, j: int)
    requires
        walk_forward(m, ks),
        0 <= i < j < ks.len(),
    ensures
        lex_lt(ks[i], ks[j]),
        m.contains_key(ks[j]),
    decreases j - i,
{
    assert(is_next(m, ks[j - 1], ks[j]));
    if i < j - 1 {
        lemma_forward_sorted(m, ks, i, j - 1);
        lemma_lex_transitive(ks[i], ks[j - 1], ks[j]);
    }
}

/// A walk forward comes to every stored key from a key of the walk on.
proof fn lemma_forward_reaches(m: Map<Seq<u8>, i32>, ks: Seq<Seq<u8>>, i: int, o: Seq<u8>) -> (j:
    int)
    requires
        walk_forward(m, ks),
        0 <= i < ks.len(),
        m.contains_key(o),
        lex_le(ks[i], o),
    ensures
        i <= j < ks.len(),
        ks[j] == o,
    decreases ks.len() - i,
{
    if ks[i] == o {
        i
    } else if i == ks.len() - 1 {
        assert(m.contains_key(o) && lex_lt(ks.last(), o));
        i
    } else {
        assert(is_next(m, ks[i], ks[i + 1]));
        lemma_forward_reaches(m, ks, i + 1, o)
    }
}

/// On a walk back a later key comes before an earlier one, and is stored.
proof fn lemma_back_sorted(m: Map<Seq<u8>, i32>, ks: Seq<Seq<u8>>, i: int, j: int)
    requires
        walk_back(m, ks),
        0 <= i < j < ks.len(),
    ensures
        lex_lt(ks[j], ks[i]),
        m.contains_key(ks[j]),
    decreases j - i,
{
    assert(is_previous(m, ks[j - 1], ks[j]));
    if i < j - 1 {
        lemma_back_sorted(m, ks, i, j - 1);
        lemma_lex_transitive(ks[j], ks[j - 1], ks[i]);
    }
}

/// A walk back comes to every stored key up to a key of the walk.
proof fn lemma_back_reaches(m: Map<Seq<u8>, i32>, ks: Seq<Seq<u8>>, i: int, o: Seq<u8>) -> (j: int)
    requires
        walk_back(m, ks),
        0 <= i < ks.len(),
        m.contains_key(o),
        lex_le(o, ks[i]),
    ensures
        i <= j < ks.len(),
        ks[j] == o,
    decreases ks.len() - i,
{
    if ks[i] == o {
        i
    } else if i == ks.len() - 1 {
        assert(m.contains_key(o) && lex_lt(o, ks.last()));
        i
    } else {
        assert(is_previous(m, ks[i], ks[i + 1]));
        lemma_back_reaches(m, ks, i + 1, o)
    }
}

/// Steps forward, from a stored key until no key follows, go through stored
/// keys in strictly ascending order, so through none twice, and through
/// every stored key from the first one on.
pub proof fn law_walk_forward(m: Map<Seq<u8>, i32>, ks: Seq<Seq<u8>>)
    requires
        walk_forward(m, ks),
    ensures
        forall|i: int| 0 <= i < ks.len() ==> m.contains_key(#[trigger] ks[i]),
        forall|i: int, j: int| 0 <= i < j < ks.len() ==> lex_lt(#[trigger] ks[i], #[trigger] ks[j]),
        forall|o: Seq<u8>| #[trigger] m.contains_key(o) && lex_le(ks[0], o) ==> ks.contains(o),
{
    assert forall|i: int| 0 <= i < ks.len() implies m.contains_key(#[trigger] ks[i]) by {
        if i > 0 {
            lemma_forward_sorted(m, ks, 0, i);
        }
    }
    assert forall|i: int, j: int| 0 <= i < j < ks.len() implies lex_lt(
        #[trigger] ks[i],
        #[trigger] ks[j],
    ) by {
        lemma_forward_sorted(m, ks, i, j);
    }
    assert forall|o: Seq<u8>| #[trigger] m.contains_key(o) && lex_le(ks[0], o) implies ks.contains(
        o,
    ) by {
        let j = lemma_forward_reaches(m, ks, 0, o);
    }
}

/// Steps back, from a stored key until no key comes before, go through
/// stored keys in strictly descending order, so through none twice, and
/// through every stored key up to the first one.
pub proof fn law_walk_back(m: Map<Seq<u8>, i32>, ks: Seq<Seq<u8>>)
    requires
        walk_back(m, ks),
    ensures
        forall|i: int| 0 <= i < ks.len() ==> m.contains_key(#[trigger] ks[i]),
        forall|i: int, j: int| 0 <= i < j < ks.len() ==> lex_lt(#[trigger] ks[j], #[trigger] ks[i]),
        forall|o: Seq<u8>| #[trigger] m.contains_key(o) && lex_le(o, ks[0]) ==> ks.contains(o),
{
    assert forall|i: int| 0 <= i < ks.len() implies m.contains_key(#[trigger] ks[i]) by {
        if i > 0 {
            lemma_back_sorted(m, ks, 0, i);
        }
    }
    assert forall|i: int, j: int| 0 <= i < j < ks.len() implies lex_lt(
        #[trigger] ks[j],
        #[trigger] ks[i],
    ) by {
        lemma_back_sorted(m, ks, i, j);
    }
    assert forall|o: Seq<u8>| #[trigger] m.contains_key(o) && lex_le(o, ks[0]) implies ks.contains(
        o,
    ) by {
        let j = lemma_back_reaches(m, ks, 0, o);
    }
}

/// The stored keys that are prefixes of `path` and at most `n` bytes long,
/// the longest first.
pub open spec fn prefix_keys(m: Map<Seq<u8>, i32>, path: Seq<u8>, n: int) -> Seq<Seq<u8>>
    decreases n + 1,
{
    if n < 0 {
        Seq::empty()
    } else if n <= path.len() && m.contains_key(path.take(n)) {
        seq![path.take(n)] + prefix_keys(m, path, n - 1)
    } else {
        prefix_keys(m, path, n - 1)
    }
}

/// The values of the stored prefixes of `path` are the values of those keys,
/// one for one; the keys are stored and are prefixes of `path`, each shorter
/// than the one before it; and every stored prefix of `path` of at most `n`
/// bytes is among them.
pub proof fn law_prefix_values(m: Map<Seq<u8>, i32>, path: Seq<u8>, n: int)
    requires
        n <= path.len(),
    ensures
        prefix_values(m, path, n).len() == prefix_keys(m, path, n).len(),
        forall|i: int|
            0 <= i < prefix_keys(m, path, n).len() ==> {
                let k = #[trigger] prefix_keys(m, path, n)[i];
                &&& m.contains_key(k)
                &&& k.is_prefix_of(path)
                &&& k.len() <= n
                &&& prefix_values(m, path, n)[i] == m[k]
            },
        forall|i: int, j: int|
            0 <= i < j < prefix_keys(m, path, n).len() ==> (#[trigger] prefix_keys(
                m,
                path,
                n,
            )[j]).len() < (#[trigger] prefix_keys(m, path, n)[i]).len(),
        forall|o: Seq<u8>|
            #[trigger] m.contains_key(o) && o.is_prefix_of(path) && o.len() <= n ==> prefix_keys(
                m,
                path,
                n,
            ).contains(o),
    decreases n + 1,
{
    if n >= 0 {
        law_prefix_values(m, path, n - 1);
        let ks = prefix_keys(m, path, n);
        let vs = prefix_values(m, path, n);
        let below = prefix_keys(m, path, n - 1);
        let here = path.take(n);
        assert(here.is_prefix_of(path)) by {
            assert(path.subrange(0, n) =~= here);
        }
        if m.contains_key(here) {
            assert(ks =~= seq![here] + below);
            assert forall|i: int| 0 <= i < ks.len() implies {
                let k = #[trigger] ks[i];
                &&& m.contains_key(k)
                &&& k.is_prefix_of(path)
                &&& k.len() <= n
                &&& vs[i] == m[k]
            } by {
                if i > 0 {
                    assert(ks[i] == below[i - 1]);
                }
            }
            assert forall|i: int, j: int| 0 <= i < j < ks.len() implies (#[trigger] ks[j]).len() < (
            #[trigger] ks[i]).len() by {
                assert(ks[j] == below[j - 1]);
                if i > 0 {
                    assert(ks[i] == below[i - 1]);
                }
            }
            assert forall|o: Seq<u8>|
                #[trigger] m.contains_key(o) && o.is_prefix_of(path) && o.len()
                    <= n implies ks.contains(o) by {
                if o.len() == n {
                    assert(o =~= here);
                    assert(ks[0] == o);
                } else {
                    let j = choose|j: int| 0 <= j < below.len() && below[j] == o;
                    assert(ks[j + 1] == o);
                }
            }
        } else {
            assert forall|o: Seq<u8>|
                #[trigger] m.contains_key(o) && o.is_prefix_of(path) && o.len()
                    <= n implies ks.contains(o) by {
                if o.len() == n {
                    assert(o =~= here);
                }
            }
        }
    }
}

/// The longest route that a path starts with comes first among all the
/// routes that it starts with; and where a path starts with no route there
/// are none.
pub proof fn law_longest_is_first(m: Map<Seq<u8>, i32>, path: Seq<u8>, k: Seq<u8>)
    ensures
        is_longest_prefix(m, path, k) ==> all_prefix_values(m, path).len() > 0
            && all_prefix_values(m, path)[0] == m[k],
        !has_prefix(m, path) ==> all_prefix_values(m, path).len() == 0,
{
    if is_longest_prefix(m, path, k) {
        lemma_prefix_values_skip(m, path, path.len() as int, k.len() as int);
        lemma_prefix_values_at(m, path, k);
    }
    if !has_prefix(m, path) {
        assert forall|o: Seq<u8>| #[trigger] m.contains_key(o) && o.is_prefix_of(path) implies !(-1
            < o.len() <= path.len()) by {}
        lemma_prefix_values_skip(m, path, path.len() as int, -1);
    }
}

} // verus!

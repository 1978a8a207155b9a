//! The order on keys: byte-wise lexicographic, with a proper prefix before
//! every string that extends it.

use vstd::prelude::*;

verus! {

/// `a` comes strictly before `b`.
pub open spec fn lex_lt(a: Seq<u8>, b: Seq<u8>) -> bool
    decreases a.len(),
{
    if b.len() == 0 {
        false
    } else if a.len() == 0 {
        true
    } else if a[0] != b[0] {
        a[0] < b[0]
    } else {
        lex_lt(a.skip(1), b.skip(1))
    }
}

/// `a` comes before `b` or is `b`.
pub open spec fn lex_le(a: Seq<u8>, b: Seq<u8>) -> bool {
    a == b || lex_lt(a, b)
}

/// `a` is a prefix of `b` and shorter than it.
pub open spec fn proper_prefix(a: Seq<u8>, b: Seq<u8>) -> bool {
    a.len() < b.len() && a.is_prefix_of(b)
}

/// No string comes before itself.
pub proof fn lemma_lex_irreflexive(a: Seq<u8>)
    ensures
        !lex_lt(a, a),
    decreases a.len(),
{
    if a.len() > 0 {
        lemma_lex_irreflexive(a.skip(1));
    }
}

/// What comes before a string comes before all that comes after it.
pub proof fn lemma_lex_transitive(a: Seq<u8>, b: Seq<u8>, c: Seq<u8>)
    requires
        lex_lt(a, b),
        lex_lt(b, c),
    ensures
        lex_lt(a, c),
    decreases a.len(),
{
    if a.len() > 0 && b.len() > 0 && c.len() > 0 && a[0] == b[0] && b[0] == c[0] {
        lemma_lex_transitive(a.skip(1), b.skip(1), c.skip(1));
    }
}

/// Of two strings at most one comes before the other, and then they differ.
pub proof fn lemma_lex_asymmetric(a: Seq<u8>, b: Seq<u8>)
    requires
        lex_lt(a, b),
    ensures
        !lex_lt(b, a),
        a != b,
{
    lemma_lex_irreflexive(a);
    if lex_lt(b, a) {
        lemma_lex_transitive(a, b, a);
    }
}

/// Of two strings that differ one comes before the other.
pub proof fn lemma_lex_total(a: Seq<u8>, b: Seq<u8>)
    ensures
        a == b || lex_lt(a, b) || lex_lt(b, a),
    decreases a.len(),
{
    if a.len() > 0 && b.len() > 0 && a[0] == b[0] {
        lemma_lex_total(a.skip(1), b.skip(1));
        if a.skip(1) == b.skip(1) {
            assert(a.skip(1).len() == b.skip(1).len());
            assert forall|i: int| 0 <= i < a.len() implies a[i] == b[i] by {
                if i > 0 {
                    assert(a.skip(1)[i - 1] == b.skip(1)[i - 1]);
                }
            }
            assert(a =~= b);
        }
    } else if a.len() == 0 && b.len() == 0 {
        assert(a =~= b);
    }
}

/// `le` is transitive, and mixes with `lt`.
pub proof fn lemma_lex_le_transitive(a: Seq<u8>, b: Seq<u8>, c: Seq<u8>)
    requires
        lex_le(a, b),
        lex_le(b, c),
    ensures
        lex_le(a, c),
        lex_lt(a, b) || lex_lt(b, c) ==> lex_lt(a, c),
{
    if lex_lt(a, b) && lex_lt(b, c) {
        lemma_lex_transitive(a, b, c);
    }
}

/// A common prefix does not change the order of two strings.
pub proof fn lemma_lex_common_prefix(p: Seq<u8>, a: Seq<u8>, b: Seq<u8>)
    ensures
        lex_lt(p + a, p + b) == lex_lt(a, b),
    decreases p.len(),
{
    if p.len() == 0 {
        assert(p + a =~= a);
        assert(p + b =~= b);
    } else {
        assert((p + a).skip(1) =~= p.skip(1) + a);
        assert((p + b).skip(1) =~= p.skip(1) + b);
        lemma_lex_common_prefix(p.skip(1), a, b);
    }
}

/// Where two strings part after a common prefix, the first bytes after it decide.
pub proof fn lemma_lex_diverge(p: Seq<u8>, a: Seq<u8>, b: Seq<u8>)
    requires
        a.len() > 0,
        b.len() > 0,
        a[0] < b[0],
    ensures
        lex_lt(p + a, p + b),
{
    lemma_lex_common_prefix(p, a, b);
}

/// A string comes before or is each of its extensions.
pub proof fn lemma_lex_prefix(a: Seq<u8>, b: Seq<u8>)
    requires
        a.is_prefix_of(b),
    ensures
        lex_le(a, b),
        a.len() < b.len() ==> lex_lt(a, b),
{
    let z = b.skip(a.len() as int);
    assert(b =~= a + z);
    assert(a =~= a + Seq::<u8>::empty());
    lemma_lex_common_prefix(a, Seq::<u8>::empty(), z);
    if a.len() == b.len() {
        assert(a =~= b);
    }
}

/// A string that comes after `p` without extending it comes after every
/// extension of `p`.
pub proof fn lemma_lex_past_prefix(p: Seq<u8>, z: Seq<u8>, o: Seq<u8>)
    requires
        lex_lt(p, o),
        !p.is_prefix_of(o),
    ensures
        lex_lt(p + z, o),
    decreases p.len(),
{
    if p.len() == 0 {
        assert(p.is_prefix_of(o));
    } else if p[0] == o[0] {
        if p.skip(1).is_prefix_of(o.skip(1)) {
            assert(p =~= o.subrange(0, p.len() as int)) by {
                assert forall|i: int| 0 <= i < p.len() implies p[i] == o[i] by {
                    if i > 0 {
                        assert(p.skip(1)[i - 1] == o.skip(1).subrange(0, p.len() - 1)[i - 1]);
                    }
                }
            }
        }
        assert((p + z).skip(1) =~= p.skip(1) + z);
        lemma_lex_past_prefix(p.skip(1), z, o.skip(1));
    }
}

/// A string that comes before `p` comes before every extension of `p`.
pub proof fn lemma_lex_before_prefix(o: Seq<u8>, p: Seq<u8>, z: Seq<u8>)
    requires
        lex_lt(o, p),
    ensures
        lex_lt(o, p + z),
{
    lemma_lex_prefix(p, p + z);
    lemma_lex_le_transitive(o, p, p + z);
}

/// Two strings with a common prefix are equal where what follows it is.
pub proof fn lemma_same_rest(p: Seq<u8>, a: Seq<u8>, b: Seq<u8>)
    requires
        p.is_prefix_of(a),
        p.is_prefix_of(b),
    ensures
        (a.skip(p.len() as int) == b.skip(p.len() as int)) == (a == b),
{
    assert(a =~= p + a.skip(p.len() as int));
    assert(b =~= p + b.skip(p.len() as int));
}

/// Whether `key` is a prefix of `path`.
pub fn is_prefix(key: &[u8], path: &[u8]) -> (r: bool)
    ensures
        r == key@.is_prefix_of(path@),
{
    if key.len() > path.len() {
        return false;
    }
    let mut i: usize = 0;
    while i < key.len()
        invariant
            i <= key.len() <= path.len(),
            forall|j: int| 0 <= j < i ==> key@[j] == path@[j],
        decreases key.len() - i,
    {
        if key[i] != path[i] {
            assert(path@.subrange(0, key@.len() as int)[i as int] != key@[i as int]);
            return false;
        }
        i += 1;
    }
    assert(key@ =~= path@.subrange(0, key@.len() as int));
    true
}

/// The length of the longest common prefix of `label` and of `key` from `pos` on.
pub fn common_prefix_len(label: &[u8], key: &[u8], pos: usize) -> (n: usize)
    requires
        pos <= key.len(),
    ensures
        n <= label.len(),
        pos + n <= key.len(),
        label@.take(n as int) == key@.subrange(pos as int, pos + n),
        n < label.len() && pos + n < key.len() ==> label@[n as int] != key@[pos + n],
{
    let mut n: usize = 0;
    while n < label.len() && n < key.len() - pos && label[n] == key[pos + n]
        invariant
            n <= label.len(),
            pos + n <= key.len(),
            forall|j: int| 0 <= j < n ==> label@[j] == key@[pos + j],
        decreases label.len() - n,
    {
        n += 1;
    }
    assert(label@.take(n as int) =~= key@.subrange(pos as int, pos + n));
    n
}

} // verus!

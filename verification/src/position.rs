//! Positions in the trie, and where a stored key lies relative to one.
//!
//! A position is a node together with the string that leads to it from the
//! root. Every stored key either comes before that string, or is it, or lies
//! below one of the node's children, or comes after everything that starts
//! with it. The children stand in the order of the keys below them.

use vstd::prelude::*;
use crate::node::RaxNode;
use crate::order::{
    lemma_lex_diverge,
    lemma_lex_prefix,
    lemma_lex_total,
    lex_lt,
};

verus! {

/// `node` is where `prefix` leads from `head`: what `head` stores under a key
/// that starts with `prefix` is what `node` stores under the rest of it.
#[verifier::opaque]
pub open(crate) spec fn at(head: RaxNode, prefix: Seq<u8>, node: RaxNode) -> bool {
    &&& node.wf_below()
    &&& forall|x: Seq<u8>| #[trigger] head.lookup(prefix + x) == node.lookup(x)
}

/// The root is where the empty string leads.
pub(crate) proof fn lemma_at_root(head: RaxNode)
    requires
        head.wf_below(),
    ensures
        at(head, Seq::<u8>::empty(), head),
{
    reveal(at);
    assert forall|x: Seq<u8>| #[trigger]
        head.lookup(Seq::<u8>::empty() + x) == head.lookup(x) by {
        assert(Seq::<u8>::empty() + x =~= x);
    }
}

/// A child is where its parent's string leads, followed by the child's label.
pub(crate) proof fn lemma_at_child(head: RaxNode, prefix: Seq<u8>, node: RaxNode, s: int)
    requires
        at(head, prefix, node),
        0 <= s < node.children@.len(),
    ensures
        at(head, prefix + node.children@[s].label@, node.children@[s]),
        node.children@[s].wf(),
{
    reveal(at);
    let child = node.children@[s];
    let l = child.label@;
    assert(child.wf());
    assert forall|x: Seq<u8>| #[trigger] head.lookup((prefix + l) + x) == child.lookup(x) by {
        assert((prefix + l) + x =~= prefix + (l + x));
        assert(head.lookup(prefix + (l + x)) == node.lookup(l + x));
        node.lemma_lookup_by_byte(l + x, s);
        assert(l.is_prefix_of(l + x)) by {
            assert((l + x).subrange(0, l.len() as int) =~= l);
        }
        assert((l + x).skip(l.len() as int) =~= x);
    }
}

/// What the root stores under a key that starts with the string of a position.
pub(crate) proof fn lemma_at_key(head: RaxNode, prefix: Seq<u8>, node: RaxNode, o: Seq<u8>)
    requires
        at(head, prefix, node),
        prefix.is_prefix_of(o),
    ensures
        head.lookup(o) == node.lookup(o.skip(prefix.len() as int)),
        node.wf_below(),
{
    reveal(at);
    let x = o.skip(prefix.len() as int);
    assert(o =~= prefix + x);
    assert(head.lookup(prefix + x) == node.lookup(x));
}

/// Where a stored key lies relative to a position.
pub enum Place {
    /// Before the string of the position.
    Before,
    /// At the position: the key is its string.
    Here,
    /// Below the child at this place among the children of the node.
    Below(int),
    /// After the string of the position, without starting with it.
    After,
}

/// Every stored key has its place relative to a position.
pub(crate) proof fn lemma_place(head: RaxNode, prefix: Seq<u8>, node: RaxNode, o: Seq<u8>) -> (p:
    Place)
    requires
        at(head, prefix, node),
        head.lookup(o) is Some,
    ensures
        p is Before ==> lex_lt(o, prefix),
        p is After ==> lex_lt(prefix, o) && !prefix.is_prefix_of(o),
        p is Here ==> o == prefix && node.value is Some,
        p matches Place::Below(i) ==> 0 <= i < node.children@.len() && (prefix
            + node.children@[i].label@).is_prefix_of(o) && o.len() > prefix.len()
            && node.children@[i].label@[0] == o[prefix.len() as int],
{
    if prefix.is_prefix_of(o) {
        lemma_at_key(head, prefix, node, o);
        let x = o.skip(prefix.len() as int);
        assert(o =~= prefix + x);
        if x.len() == 0 {
            assert(o =~= prefix);
            Place::Here
        } else {
            let i = node.branch(x)->Some_0;
            let l = node.children@[i].label@;
            assert(l.is_prefix_of(x));
            assert(l[0] == x.subrange(0, l.len() as int)[0]);
            assert((prefix + l).is_prefix_of(o)) by {
                assert(o.subrange(0, (prefix.len() + l.len()) as int) =~= prefix + x.subrange(
                    0,
                    l.len() as int,
                ));
            }
            Place::Below(i)
        }
    } else {
        lemma_lex_total(o, prefix);
        if lex_lt(o, prefix) {
            Place::Before
        } else {
            if o == prefix {
                assert(prefix =~= o.subrange(0, prefix.len() as int));
            }
            Place::After
        }
    }
}

/// What lies below a child comes before everything below a later child.
pub(crate) proof fn lemma_left_of(
    prefix: Seq<u8>,
    node: RaxNode,
    i: int,
    s: int,
    o: Seq<u8>,
    z: Seq<u8>,
)
    requires
        node.ordered(),
        0 <= i < s < node.children@.len(),
        (prefix + node.children@[i].label@).is_prefix_of(o),
    ensures
        lex_lt(o, prefix + node.children@[s].label@ + z),
{
    let li = node.children@[i].label@;
    let ls = node.children@[s].label@;
    let x = o.skip(prefix.len() as int);
    assert(o =~= prefix + x) by {
        assert(prefix =~= (prefix + li).subrange(0, prefix.len() as int));
        assert((prefix + li) =~= o.subrange(0, (prefix.len() + li.len()) as int));
    }
    assert(x[0] == li[0]) by {
        assert((prefix + li)[prefix.len() as int] == o.subrange(
            0,
            (prefix.len() + li.len()) as int,
        )[prefix.len() as int]);
    }
    assert(li[0] < ls[0]);
    assert(prefix + ls + z =~= prefix + (ls + z));
    lemma_lex_diverge(prefix, x, ls + z);
}

/// What lies below a child comes after everything below an earlier child.
pub(crate) proof fn lemma_right_of(
    prefix: Seq<u8>,
    node: RaxNode,
    i: int,
    s: int,
    o: Seq<u8>,
    z: Seq<u8>,
)
    requires
        node.ordered(),
        0 <= s < i < node.children@.len(),
        (prefix + node.children@[i].label@).is_prefix_of(o),
    ensures
        lex_lt(prefix + node.children@[s].label@ + z, o),
{
    let li = node.children@[i].label@;
    let ls = node.children@[s].label@;
    let x = o.skip(prefix.len() as int);
    assert(o =~= prefix + x) by {
        assert(prefix =~= (prefix + li).subrange(0, prefix.len() as int));
        assert((prefix + li) =~= o.subrange(0, (prefix.len() + li.len()) as int));
    }
    assert(x[0] == li[0]) by {
        assert((prefix + li)[prefix.len() as int] == o.subrange(
            0,
            (prefix.len() + li.len()) as int,
        )[prefix.len() as int]);
    }
    assert(ls[0] < li[0]);
    assert(prefix + ls + z =~= prefix + (ls + z));
    lemma_lex_diverge(prefix, ls + z, x);
}

/// A string and what extends it: the string comes first.
pub(crate) proof fn lemma_extension(p: Seq<u8>, z: Seq<u8>)
    ensures
        p.is_prefix_of(p + z),
        z.len() > 0 ==> lex_lt(p, p + z),
        z.len() == 0 ==> p + z == p,
{
    assert((p + z).subrange(0, p.len() as int) =~= p);
    lemma_lex_prefix(p, p + z);
    if z.len() == 0 {
        assert(p + z =~= p);
    }
}

/// Prefixes of one string: the shorter is a prefix of the longer.
pub(crate) proof fn lemma_prefix_chain(a: Seq<u8>, b: Seq<u8>, c: Seq<u8>)
    requires
        a.is_prefix_of(c),
        b.is_prefix_of(c),
        a.len() <= b.len(),
    ensures
        a.is_prefix_of(b),
{
    assert(a =~= b.subrange(0, a.len() as int)) by {
        assert forall|i: int| 0 <= i < a.len() implies a[i] == b[i] by {
            assert(a[i] == c.subrange(0, a.len() as int)[i]);
            assert(b[i] == c.subrange(0, b.len() as int)[i]);
        }
    }
}

/// `is_prefix_of` is transitive.
pub(crate) proof fn lemma_prefix_transitive(a: Seq<u8>, b: Seq<u8>, c: Seq<u8>)
    requires
        a.is_prefix_of(b),
        b.is_prefix_of(c),
    ensures
        a.is_prefix_of(c),
{
    assert(a =~= c.subrange(0, a.len() as int)) by {
        assert forall|i: int| 0 <= i < a.len() implies a[i] == c[i] by {
            assert(a[i] == b.subrange(0, a.len() as int)[i]);
            assert(b[i] == c.subrange(0, b.len() as int)[i]);
        }
    }
}

} // verus!

//! Trees: persistent ordered maps from path segment to child node.
//!
//! A tree is held in an `im::OrdMap`, so a changed tree shares its untouched
//! parts with the tree it was derived from. Its model is the sequence of its
//! items in ascending key order.
use vstd::prelude::*;

verus! {

/// The digest that addresses an entry.
pub type EntryHash = [u8; 32];

/// Whether a child reference points at a value or at a subtree. It only
/// changes the hash of the tree that holds the reference.
#[derive(Clone, Copy, Debug, PartialEq, Eq, Structural)]
pub enum NodeKind {
    NonLeaf,
    Leaf,
}

/// A reference from a tree to a child entry.
#[derive(Clone, Copy, Debug)]
pub struct Node {
    pub node_kind: NodeKind,
    pub entry_hash: EntryHash,
}

/// A child reference as plain values.
pub struct NodeView {
    pub node_kind: NodeKind,
    pub entry_hash: Seq<u8>,
}

impl View for Node {
    type V = NodeView;

    open spec fn view(&self) -> NodeView {
        NodeView { node_kind: self.node_kind, entry_hash: self.entry_hash@ }
    }
}

#[verifier::external_type_specification]
#[verifier::external_body]
#[verifier::reject_recursive_types(K)]
#[verifier::reject_recursive_types(V)]
pub struct ExOrdMap<K, V>(im::OrdMap<K, V>);

/// A tree: path segment to child node, ordered by segment.
pub type Tree = im::OrdMap<String, Node>;

/// The items of a tree, in ascending key order.
pub uninterp spec fn tree_items(t: im::OrdMap<String, Node>) -> Seq<(Seq<char>, NodeView)>;

/// The order of `String`: lexicographic over bytes, which for UTF-8 text is
/// lexicographic over code points.
pub open spec fn key_lt(a: Seq<char>, b: Seq<char>) -> bool
    decreases a.len(),
{
    if a.len() == 0 {
        b.len() > 0
    } else if b.len() == 0 {
        false
    } else if a[0] != b[0] {
        (a[0] as u32) < (b[0] as u32)
    } else {
        key_lt(a.drop_first(), b.drop_first())
    }
}

/// Keys strictly ascending: the order in which a tree holds its items.
pub open spec fn sorted_items(s: Seq<(Seq<char>, NodeView)>) -> bool {
    forall|i: int, j: int| 0 <= i < j < s.len() ==> key_lt(#[trigger] s[i].0, #[trigger] s[j].0)
}

/// The items of a tree built by inserting the items of `s` in turn.
pub open spec fn build_items(s: Seq<(Seq<char>, NodeView)>) -> Seq<(Seq<char>, NodeView)>
    decreases s.len(),
{
    if s.len() == 0 {
        s
    } else {
        items_insert(build_items(s.drop_last()), s.last().0, s.last().1)
    }
}

/// No key sorts before itself.
pub proof fn lemma_key_lt_irreflexive(a: Seq<char>)
    ensures
        !key_lt(a, a),
    decreases a.len(),
{
    if a.len() > 0 {
        lemma_key_lt_irreflexive(a.drop_first());
    }
}

/// Of two keys, at most one sorts before the other.
pub proof fn lemma_key_lt_asymmetric(a: Seq<char>, b: Seq<char>)
    requires
        key_lt(a, b),
    ensures
        !key_lt(b, a),
    decreases a.len(),
{
    if a.len() > 0 && b.len() > 0 && a[0] == b[0] {
        lemma_key_lt_asymmetric(a.drop_first(), b.drop_first());
    }
}

proof fn lemma_insert_greatest(s: Seq<(Seq<char>, NodeView)>, k: Seq<char>, n: NodeView)
    requires
        forall|i: int| 0 <= i < s.len() ==> key_lt(#[trigger] s[i].0, k),
    ensures
        items_insert(s, k, n) == s.push((k, n)),
    decreases s.len(),
{
    if s.len() > 0 {
        assert(key_lt(s[0].0, k));
        lemma_key_lt_irreflexive(k);
        lemma_key_lt_asymmetric(s[0].0, k);
        let t = s.drop_first();
        assert(forall|i: int| 0 <= i < t.len() ==> key_lt(#[trigger] t[i].0, k)) by {
            assert forall|i: int| 0 <= i < t.len() implies key_lt(#[trigger] t[i].0, k) by {
                assert(t[i] == s[i + 1]);
            }
        }
        lemma_insert_greatest(t, k, n);
        assert(seq![s[0]] + t.push((k, n)) =~= s.push((k, n)));
    }
}

/// Inserting the items of a sorted sequence in turn gives that sequence.
pub proof fn lemma_build_sorted(s: Seq<(Seq<char>, NodeView)>)
    requires
        sorted_items(s),
    ensures
        build_items(s) == s,
    decreases s.len(),
{
    if s.len() > 0 {
        let p = s.drop_last();
        assert(sorted_items(p)) by {
            assert forall|i: int, j: int| 0 <= i < j < p.len() implies key_lt(#[trigger] p[i].0, #[trigger] p[j].0) by {
                assert(p[i] == s[i] && p[j] == s[j]);
            }
        }
        lemma_build_sorted(p);
        assert forall|i: int| 0 <= i < p.len() implies key_lt(#[trigger] p[i].0, s.last().0) by {
            assert(p[i] == s[i]);
        }
        lemma_insert_greatest(p, s.last().0, s.last().1);
        assert(p.push((s.last().0, s.last().1)) =~= s);
    }
}

/// The node stored under `k`, if any.
pub open spec fn items_get(s: Seq<(Seq<char>, NodeView)>, k: Seq<char>) -> Option<NodeView>
    decreases s.len(),
{
    if s.len() == 0 {
        None
    } else if s[0].0 == k {
        Some(s[0].1)
    } else {
        items_get(s.drop_first(), k)
    }
}

/// The items after storing `n` under `k`, in key order.
pub open spec fn items_insert(s: Seq<(Seq<char>, NodeView)>, k: Seq<char>, n: NodeView) -> Seq<(Seq<char>, NodeView)>
    decreases s.len(),
{
    if s.len() == 0 {
        seq![(k, n)]
    } else if s[0].0 == k {
        seq![(k, n)] + s.drop_first()
    } else if key_lt(k, s[0].0) {
        seq![(k, n)] + s
    } else {
        seq![s[0]] + items_insert(s.drop_first(), k, n)
    }
}

/// The items after removing the item under `k`.
pub open spec fn items_remove(s: Seq<(Seq<char>, NodeView)>, k: Seq<char>) -> Seq<(Seq<char>, NodeView)>
    decreases s.len(),
{
    if s.len() == 0 {
        s
    } else if s[0].0 == k {
        s.drop_first()
    } else {
        seq![s[0]] + items_remove(s.drop_first(), k)
    }
}

/// Relies on `im::OrdMap::new`: a map with no items.
#[verifier::external_body]
pub(crate) fn tree_new() -> (r: Tree)
    ensures
        tree_items(r) == Seq::<(Seq<char>, NodeView)>::empty(),
{
    im::OrdMap::new()
}

/// Relies on `im::OrdMap::clone`: the copy holds the same items.
#[verifier::external_body]
pub(crate) fn tree_clone(t: &Tree) -> (r: Tree)
    ensures
        tree_items(r) == tree_items(*t),
{
    t.clone()
}

/// Relies on `im::OrdMap::get`: the node stored under `k`.
#[verifier::external_body]
pub(crate) fn tree_get(t: &Tree, k: &String) -> (r: Option<Node>)
    ensures
        match r {
            Some(n) => items_get(tree_items(*t), k@) == Some(n@),
            None => items_get(tree_items(*t), k@) == None::<NodeView>,
        },
{
    t.get(k).copied()
}

/// Relies on `im::OrdMap::insert`: stores `n` under `k`, replacing what was
/// there, and keeps the items in key order.
#[verifier::external_body]
pub(crate) fn tree_insert(t: &mut Tree, k: String, n: Node)
    ensures
        tree_items(*final(t)) == items_insert(tree_items(*old(t)), k@, n@),
{
    t.insert(k, n);
}

/// Relies on `im::OrdMap::remove`: drops the item under `k`, if any.
#[verifier::external_body]
pub(crate) fn tree_remove(t: &mut Tree, k: &String)
    ensures
        tree_items(*final(t)) == items_remove(tree_items(*old(t)), k@),
{
    t.remove(k);
}

/// Relies on `im::OrdMap::len`: the number of items.
#[verifier::external_body]
pub(crate) fn tree_len(t: &Tree) -> (r: usize)
    ensures
        r == tree_items(*t).len(),
{
    t.len()
}

/// Relies on `im::OrdMap::iter`, which walks the items in ascending key
/// order (the order of `String`); each item is copied out.
#[verifier::external_body]
pub(crate) fn tree_entries(t: &Tree) -> (r: Vec<(String, Node)>)
    ensures
        r@.len() == tree_items(*t).len(),
        forall|i: int, j: int| 0 <= i < j < r@.len() ==> key_lt(#[trigger] r@[i].0@, #[trigger] r@[j].0@),
        forall|i: int|
            0 <= i < r@.len() ==> (#[trigger] r@[i]).0@ == tree_items(*t)[i].0 && r@[i].1@
                == tree_items(*t)[i].1,
{
    t.iter().map(|(k, n)| (k.clone(), *n)).collect()
}

} // verus!

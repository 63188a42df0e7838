//! Content addressing: the byte encodings of blobs, trees and commits, and the
//! digest that turns an encoding into an entry hash.
//!
//! Every variable-length field is preceded by its length, big-endian, and the
//! two node kinds carry distinct 8-byte tags, so distinct structures have
//! distinct encodings.
use vstd::prelude::*;
use vstd::utf8::encode_utf8;
use crate::codec::{commit_ok, fits_u64, lemma_be_u64, lemma_parse_commit};
use crate::entry::{Commit, CommitView};
use crate::tree::{EntryHash, Node, NodeKind, NodeView, Tree, tree_entries, tree_items};

verus! {

pub const HASH_LEN: usize = 32;

/// The unkeyed BLAKE2b digest of `data`, 32 bytes long.
pub uninterp spec fn blake2b_256(data: Seq<u8>) -> Seq<u8>;

/// Relies on `sodiumoxide::crypto::generichash::hash`: unkeyed BLAKE2b with a
/// 32-byte output. libsodium's `crypto_generichash_blake2b` fails only for an
/// output length outside 1..=64 or an oversized key, so the call succeeds.
#[verifier::external_body]
fn digest(data: &[u8]) -> (r: EntryHash)
    ensures
        r@ == blake2b_256(data@),
{
    let d = sodiumoxide::crypto::generichash::hash(data, Some(HASH_LEN), None).unwrap();
    let mut r: EntryHash = [0u8; 32];
    r.copy_from_slice(d.as_ref());
    r
}

/// `n` as eight bytes, most significant first.
pub open spec fn u64_be(n: u64) -> Seq<u8> {
    seq![
        (n >> 56u64) as u8,
        (n >> 48u64) as u8,
        (n >> 40u64) as u8,
        (n >> 32u64) as u8,
        (n >> 24u64) as u8,
        (n >> 16u64) as u8,
        (n >> 8u64) as u8,
        n as u8,
    ]
}

pub open spec fn blob_encoding(v: Seq<u8>) -> Seq<u8> {
    u64_be(v.len() as u64) + v
}

/// The 8-byte tag of a node kind inside a tree's encoding.
pub open spec fn node_kind_tag(k: NodeKind) -> Seq<u8> {
    match k {
        NodeKind::NonLeaf => seq![0u8, 0u8, 0u8, 0u8, 0u8, 0u8, 0u8, 0u8],
        NodeKind::Leaf => seq![255u8, 0u8, 0u8, 0u8, 0u8, 0u8, 0u8, 0u8],
    }
}

/// One child of a tree: its kind, its key behind a one-byte length, and its
/// hash behind an 8-byte length.
pub open spec fn item_encoding(k: Seq<char>, n: NodeView) -> Seq<u8> {
    node_kind_tag(n.node_kind) + seq![(encode_utf8(k).len() % 256) as u8] + encode_utf8(k)
        + u64_be(32) + n.entry_hash
}

pub open spec fn items_encoding(s: Seq<(Seq<char>, NodeView)>) -> Seq<u8>
    decreases s.len(),
{
    if s.len() == 0 {
        Seq::empty()
    } else {
        items_encoding(s.drop_last()) + item_encoding(s.last().0, s.last().1)
    }
}

pub open spec fn tree_encoding(s: Seq<(Seq<char>, NodeView)>) -> Seq<u8> {
    u64_be(s.len() as u64) + items_encoding(s)
}

pub open spec fn parent_encoding(p: Option<Seq<u8>>) -> Seq<u8> {
    match p {
        None => u64_be(0),
        Some(h) => u64_be(1) + u64_be(h.len() as u64) + h,
    }
}

pub open spec fn text_encoding(s: Seq<char>) -> Seq<u8> {
    u64_be(encode_utf8(s).len() as u64) + encode_utf8(s)
}

pub open spec fn commit_encoding(c: CommitView) -> Seq<u8> {
    u64_be(32) + c.root_hash + parent_encoding(c.parent_commit_hash) + u64_be(c.time)
        + text_encoding(c.author) + text_encoding(c.message)
}

pub open spec fn blob_hash(v: Seq<u8>) -> Seq<u8> {
    blake2b_256(blob_encoding(v))
}

pub open spec fn tree_hash(s: Seq<(Seq<char>, NodeView)>) -> Seq<u8> {
    blake2b_256(tree_encoding(s))
}

pub open spec fn commit_hash(c: CommitView) -> Seq<u8> {
    blake2b_256(commit_encoding(c))
}

pub(crate) fn push_u64_be(buf: &mut Vec<u8>, n: u64)
    ensures
        final(buf)@ == old(buf)@ + u64_be(n),
{
    buf.push((n >> 56u64) as u8);
    buf.push((n >> 48u64) as u8);
    buf.push((n >> 40u64) as u8);
    buf.push((n >> 32u64) as u8);
    buf.push((n >> 24u64) as u8);
    buf.push((n >> 16u64) as u8);
    buf.push((n >> 8u64) as u8);
    buf.push(n as u8);
    assert(buf@ =~= old(buf)@ + u64_be(n));
}

pub(crate) fn push_bytes(buf: &mut Vec<u8>, b: &[u8])
    ensures
        final(buf)@ == old(buf)@ + b@,
{
    let ghost start = buf@;
    let mut i: usize = 0;
    while i < b.len()
        invariant
            i <= b@.len(),
            buf@ == start + b@.subrange(0, i as int),
        decreases b@.len() - i,
    {
        buf.push(b[i]);
        i = i + 1;
        assert(buf@ =~= start + b@.subrange(0, i as int));
    }
    assert(b@.subrange(0, b@.len() as int) =~= b@);
}

/// The tag that marks a node kind in a tree's encoding.
pub fn encode_node_kind(kind: NodeKind) -> (r: Vec<u8>)
    ensures
        r@ == node_kind_tag(kind),
{
    let first: u8 = match kind {
        NodeKind::NonLeaf => 0,
        NodeKind::Leaf => 255,
    };
    let r = vec![first, 0, 0, 0, 0, 0, 0, 0];
    assert(r@ =~= node_kind_tag(kind));
    r
}

/// The hash of a value.
pub fn hash_blob(blob: &Vec<u8>) -> (r: EntryHash)
    ensures
        r@ == blob_hash(blob@),
{
    let mut buf: Vec<u8> = Vec::new();
    push_u64_be(&mut buf, blob.len() as u64);
    push_bytes(&mut buf, blob.as_slice());
    digest(buf.as_slice())
}

/// Appends the encoding of one child of a tree.
fn push_item(buf: &mut Vec<u8>, k: &String, n: &Node)
    ensures
        final(buf)@ == old(buf)@ + item_encoding(k@, n@),
{
    let key = k.as_str().as_bytes();
    let tag = encode_node_kind(n.node_kind);
    push_bytes(buf, tag.as_slice());
    buf.push((key.len() % 256) as u8);
    push_bytes(buf, key);
    push_u64_be(buf, 32);
    push_bytes(buf, n.entry_hash.as_slice());
    assert(buf@ =~= old(buf)@ + item_encoding(k@, n@));
}

/// The hash of a tree: its item count, then each item in key order.
pub fn hash_tree(tree: &Tree) -> (r: EntryHash)
    ensures
        r@ == tree_hash(tree_items(*tree)),
{
    let items = tree_entries(tree);
    let ghost s = tree_items(*tree);
    let mut buf: Vec<u8> = Vec::new();
    push_u64_be(&mut buf, items.len() as u64);
    let mut i: usize = 0;
    while i < items.len()
        invariant
            i <= items@.len(),
            items@.len() == s.len(),
            forall|j: int|
                0 <= j < items@.len() ==> (#[trigger] items@[j]).0@ == s[j].0 && items@[j].1@
                    == s[j].1,
            buf@ == u64_be(s.len() as u64) + items_encoding(s.subrange(0, i as int)),
        decreases items@.len() - i,
    {
        let (k, n) = &items[i];
        push_item(&mut buf, k, n);
        proof {
            let t = s.subrange(0, i + 1);
            assert(t.drop_last() =~= s.subrange(0, i as int));
            assert(t.last() == s[i as int]);
        }
        i = i + 1;
    }
    assert(s.subrange(0, s.len() as int) =~= s);
    digest(buf.as_slice())
}

/// The hash of a commit: root, parent (if any), time, author and message.
pub fn hash_commit(commit: &Commit) -> (r: EntryHash)
    ensures
        r@ == commit_hash(commit@),
{
    let mut buf: Vec<u8> = Vec::new();
    push_u64_be(&mut buf, 32);
    push_bytes(&mut buf, commit.root_hash.as_slice());
    match &commit.parent_commit_hash {
        None => {
            push_u64_be(&mut buf, 0);
        },
        Some(p) => {
            push_u64_be(&mut buf, 1);
            push_u64_be(&mut buf, 32);
            push_bytes(&mut buf, p.as_slice());
        },
    }
    push_u64_be(&mut buf, commit.time);
    let author = commit.author.as_str().as_bytes();
    push_u64_be(&mut buf, author.len() as u64);
    push_bytes(&mut buf, author);
    let message = commit.message.as_str().as_bytes();
    push_u64_be(&mut buf, message.len() as u64);
    push_bytes(&mut buf, message);
    assert(buf@ =~= commit_encoding(commit@));
    digest(buf.as_slice())
}

/// A child of a tree whose key fits the one-byte length and whose hash is
/// 32 bytes long.
pub open spec fn hashed_item_ok(k: Seq<char>, n: NodeView) -> bool {
    encode_utf8(k).len() < 256 && n.entry_hash.len() == 32
}

pub open spec fn hashed_tree_ok(s: Seq<(Seq<char>, NodeView)>) -> bool {
    fits_u64(s.len()) && forall|i: int| 0 <= i < s.len() ==> hashed_item_ok(#[trigger] s[i].0, s[i].1)
}

proof fn lemma_items_encoding_front(s: Seq<(Seq<char>, NodeView)>)
    requires
        s.len() > 0,
    ensures
        items_encoding(s) == item_encoding(s[0].0, s[0].1) + items_encoding(s.drop_first()),
    decreases s.len(),
{
    if s.len() == 1 {
        assert(s.drop_last().len() == 0);
        assert(s.drop_first().len() == 0);
        assert(s.last() == s[0]);
        assert(items_encoding(s.drop_last()) == Seq::<u8>::empty());
        assert(items_encoding(s.drop_first()) == Seq::<u8>::empty());
        assert(items_encoding(s) =~= item_encoding(s[0].0, s[0].1) + items_encoding(s.drop_first()));
    } else {
        lemma_items_encoding_front(s.drop_last());
        assert(s.drop_last().drop_first() =~= s.drop_first().drop_last());
        assert(s.drop_first().last() == s.last());
        assert(items_encoding(s.drop_first()) == items_encoding(s.drop_first().drop_last()) + item_encoding(
            s.drop_first().last().0,
            s.drop_first().last().1,
        ));
        assert(items_encoding(s) == items_encoding(s.drop_last()) + item_encoding(s.last().0, s.last().1));
        assert(s.drop_last()[0] == s[0]);
        assert(items_encoding(s) =~= item_encoding(s[0].0, s[0].1) + items_encoding(s.drop_first()));
    }
}

proof fn lemma_item_prefix(
    k1: Seq<char>,
    n1: NodeView,
    r1: Seq<u8>,
    k2: Seq<char>,
    n2: NodeView,
    r2: Seq<u8>,
)
    requires
        hashed_item_ok(k1, n1),
        hashed_item_ok(k2, n2),
        item_encoding(k1, n1) + r1 == item_encoding(k2, n2) + r2,
    ensures
        k1 == k2,
        n1 == n2,
        r1 == r2,
{
    broadcast use vstd::utf8::encode_utf8_decode_utf8;

    let b = item_encoding(k1, n1) + r1;
    let u1 = encode_utf8(k1);
    let u2 = encode_utf8(k2);
    let l1 = u1.len() as int;
    let l2 = u2.len() as int;
    assert(b[0] == node_kind_tag(n1.node_kind)[0]);
    assert(b[0] == node_kind_tag(n2.node_kind)[0]);
    assert(n1.node_kind == n2.node_kind);
    assert(b[8] == (l1 % 256) as u8);
    assert(b[8] == (l2 % 256) as u8);
    assert(l1 == l2);
    assert(b.subrange(9, 9 + l1) =~= u1);
    assert(b.subrange(9, 9 + l2) =~= u2);
    assert(u1 == u2);
    assert(vstd::utf8::decode_utf8(u1) == k1);
    assert(vstd::utf8::decode_utf8(u2) == k2);
    assert(k1 == k2);
    assert(b.subrange(9 + l1 + 8, 9 + l1 + 40) =~= n1.entry_hash);
    assert(b.subrange(9 + l2 + 8, 9 + l2 + 40) =~= n2.entry_hash);
    assert(b.subrange(9 + l1 + 40, b.len() as int) =~= r1);
    assert(b.subrange(9 + l2 + 40, b.len() as int) =~= r2);
}

proof fn lemma_items_injective(
    s1: Seq<(Seq<char>, NodeView)>,
    s2: Seq<(Seq<char>, NodeView)>,
)
    requires
        s1.len() == s2.len(),
        forall|i: int| 0 <= i < s1.len() ==> hashed_item_ok(#[trigger] s1[i].0, s1[i].1),
        forall|i: int| 0 <= i < s2.len() ==> hashed_item_ok(#[trigger] s2[i].0, s2[i].1),
        items_encoding(s1) == items_encoding(s2),
    ensures
        s1 == s2,
    decreases s1.len(),
{
    if s1.len() > 0 {
        lemma_items_encoding_front(s1);
        lemma_items_encoding_front(s2);
        assert(hashed_item_ok(s1[0].0, s1[0].1));
        assert(hashed_item_ok(s2[0].0, s2[0].1));
        lemma_item_prefix(
            s1[0].0,
            s1[0].1,
            items_encoding(s1.drop_first()),
            s2[0].0,
            s2[0].1,
            items_encoding(s2.drop_first()),
        );
        let t1 = s1.drop_first();
        let t2 = s2.drop_first();
        assert forall|i: int| 0 <= i < t1.len() implies hashed_item_ok(#[trigger] t1[i].0, t1[i].1) by {
            assert(t1[i] == s1[i + 1]);
        }
        assert forall|i: int| 0 <= i < t2.len() implies hashed_item_ok(#[trigger] t2[i].0, t2[i].1) by {
            assert(t2[i] == s2[i + 1]);
        }
        lemma_items_injective(t1, t2);
        assert(s1 =~= seq![s1[0]] + t1);
        assert(s2 =~= seq![s2[0]] + t2);
    } else {
        assert(s1 =~= s2);
    }
}

/// Content addressing of values: equal values have equal hashes, and
/// distinct values feed distinct bytes to the digest, so two values share a
/// hash only through a BLAKE2b collision.
pub proof fn lemma_blob_hash_content(v1: Seq<u8>, v2: Seq<u8>)
    requires
        fits_u64(v1.len()),
        fits_u64(v2.len()),
    ensures
        v1 == v2 ==> blob_hash(v1) == blob_hash(v2),
        blob_encoding(v1) == blob_encoding(v2) ==> v1 == v2,
{
    if blob_encoding(v1) == blob_encoding(v2) {
        let b = blob_encoding(v1);
        assert(b.subrange(8, b.len() as int) =~= v1);
        assert(blob_encoding(v2).subrange(8, b.len() as int) =~= v2);
    }
}

/// Content addressing of trees: trees with the same items have equal hashes,
/// and distinct trees whose keys are shorter than 256 bytes feed distinct
/// bytes to the digest.
pub proof fn lemma_tree_hash_content(s1: Seq<(Seq<char>, NodeView)>, s2: Seq<(Seq<char>, NodeView)>)
    requires
        hashed_tree_ok(s1),
        hashed_tree_ok(s2),
    ensures
        s1 == s2 ==> tree_hash(s1) == tree_hash(s2),
        tree_encoding(s1) == tree_encoding(s2) ==> s1 == s2,
{
    if tree_encoding(s1) == tree_encoding(s2) {
        let b = tree_encoding(s1);
        assert(b.subrange(0, 8) =~= u64_be(s1.len() as u64));
        assert(tree_encoding(s2).subrange(0, 8) =~= u64_be(s2.len() as u64));
        lemma_be_u64(s1.len() as u64);
        lemma_be_u64(s2.len() as u64);
        assert(s1.len() == s2.len());
        assert(b.subrange(8, b.len() as int) =~= items_encoding(s1));
        assert(tree_encoding(s2).subrange(8, b.len() as int) =~= items_encoding(s2));
        lemma_items_injective(s1, s2);
    }
}

/// Content addressing of commits: equal commits have equal hashes, and
/// distinct commits feed distinct bytes to the digest.
pub proof fn lemma_commit_hash_content(c1: CommitView, c2: CommitView)
    requires
        commit_ok(c1),
        commit_ok(c2),
    ensures
        c1 == c2 ==> commit_hash(c1) == commit_hash(c2),
        commit_encoding(c1) == commit_encoding(c2) ==> c1 == c2,
{
    lemma_parse_commit(c1);
    lemma_parse_commit(c2);
}

} // verus!

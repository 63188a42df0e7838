//! The byte form in which entries are kept in the backing store.
//!
//! A tag byte says which kind of entry follows. Every variable-length field
//! is preceded by its length as eight big-endian bytes, so the bytes of an
//! entry parse back to exactly that entry.
use vstd::prelude::*;
use vstd::utf8::{decode_utf8, encode_utf8, valid_utf8};
use crate::entry::{Commit, CommitView, Entry, EntryView};
use crate::hash::{commit_encoding, push_bytes, push_u64_be, text_encoding, u64_be};
use crate::tree::{
    EntryHash, Node, NodeKind, NodeView, Tree, build_items, lemma_build_sorted, sorted_items, tree_entries,
    tree_insert, tree_items, tree_new,
};

verus! {

broadcast use {vstd::utf8::encode_utf8_valid_utf8, vstd::utf8::encode_utf8_decode_utf8};

/// Why stored bytes could not be read as an entry.
#[derive(Debug, Clone, Copy, PartialEq, Eq, Structural)]
pub enum DecodeError {
    Malformed,
}

/// The value of eight big-endian bytes.
pub open spec fn be_u64(s: Seq<u8>) -> u64 {
    ((s[0] as u64) << 56u64) | ((s[1] as u64) << 48u64) | ((s[2] as u64) << 40u64) | ((s[3] as u64)
        << 32u64) | ((s[4] as u64) << 24u64) | ((s[5] as u64) << 16u64) | ((s[6] as u64) << 8u64)
        | (s[7] as u64)
}

pub open spec fn kind_byte(k: NodeKind) -> u8 {
    match k {
        NodeKind::NonLeaf => 0,
        NodeKind::Leaf => 1,
    }
}

pub open spec fn stored_item(k: Seq<char>, n: NodeView) -> Seq<u8> {
    seq![kind_byte(n.node_kind)] + u64_be(encode_utf8(k).len() as u64) + encode_utf8(k)
        + n.entry_hash
}

pub open spec fn stored_items(s: Seq<(Seq<char>, NodeView)>) -> Seq<u8>
    decreases s.len(),
{
    if s.len() == 0 {
        Seq::empty()
    } else {
        stored_item(s[0].0, s[0].1) + stored_items(s.drop_first())
    }
}

/// The stored form of an entry.
pub open spec fn entry_bytes(e: EntryView) -> Seq<u8> {
    match e {
        EntryView::Tree(s) => seq![0u8] + u64_be(s.len() as u64) + stored_items(s),
        EntryView::Blob(v) => seq![1u8] + u64_be(v.len() as u64) + v,
        EntryView::Commit(c) => seq![2u8] + commit_encoding(c),
    }
}

pub open spec fn fits_u64(n: nat) -> bool {
    n <= u64::MAX
}

pub open spec fn item_ok(k: Seq<char>, n: NodeView) -> bool {
    fits_u64(encode_utf8(k).len()) && n.entry_hash.len() == 32
}

pub open spec fn commit_ok(c: CommitView) -> bool {
    &&& c.root_hash.len() == 32
    &&& (c.parent_commit_hash matches Some(p) ==> p.len() == 32)
    &&& fits_u64(encode_utf8(c.author).len())
    &&& fits_u64(encode_utf8(c.message).len())
}

/// Every length in the entry fits its 8-byte prefix and every hash is 32
/// bytes long; true of each entry that a program can hold.
pub open spec fn entry_ok(e: EntryView) -> bool {
    match e {
        EntryView::Tree(s) => fits_u64(s.len()) && sorted_items(s) && forall|i: int|
            0 <= i < s.len() ==> item_ok(#[trigger] s[i].0, s[i].1),
        EntryView::Blob(v) => fits_u64(v.len()),
        EntryView::Commit(c) => commit_ok(c),
    }
}

pub open spec fn parse_kind(b: u8) -> Option<NodeKind> {
    if b == 0 {
        Some(NodeKind::NonLeaf)
    } else if b == 1 {
        Some(NodeKind::Leaf)
    } else {
        None
    }
}

/// Reads one item of a tree; gives the item and the bytes after it.
#[verifier::opaque]
pub open spec fn parse_item(b: Seq<u8>) -> Option<((Seq<char>, NodeView), Seq<u8>)> {
    if b.len() < 9 {
        None
    } else {
        let n = be_u64(b.subrange(1, 9)) as int;
        if b.len() < 9 + n + 32 {
            None
        } else {
            let kb = b.subrange(9, 9 + n);
            match parse_kind(b[0]) {
                None => None,
                Some(kind) => if valid_utf8(kb) {
                    Some(
                        (
                            (
                                decode_utf8(kb),
                                NodeView { node_kind: kind, entry_hash: b.subrange(9 + n, 9 + n + 32) },
                            ),
                            b.subrange(9 + n + 32, b.len() as int),
                        ),
                    )
                } else {
                    None
                },
            }
        }
    }
}

pub open spec fn parse_items(b: Seq<u8>, count: nat) -> Option<(Seq<(Seq<char>, NodeView)>, Seq<u8>)>
    decreases count,
{
    if count == 0 {
        Some((Seq::empty(), b))
    } else {
        match parse_item(b) {
            None => None,
            Some((x, rest)) => match parse_items(rest, (count - 1) as nat) {
                None => None,
                Some((xs, rest2)) => Some((seq![x] + xs, rest2)),
            },
        }
    }
}

/// Reads a length-prefixed UTF-8 text; gives the text and the bytes after it.
#[verifier::opaque]
pub open spec fn parse_text(b: Seq<u8>) -> Option<(Seq<char>, Seq<u8>)> {
    if b.len() < 8 {
        None
    } else {
        let n = be_u64(b.subrange(0, 8)) as int;
        if b.len() < 8 + n || !valid_utf8(b.subrange(8, 8 + n)) {
            None
        } else {
            Some((decode_utf8(b.subrange(8, 8 + n)), b.subrange(8 + n, b.len() as int)))
        }
    }
}

/// Reads the parent of a commit; gives it and the bytes after it.
pub open spec fn parse_parent(b: Seq<u8>) -> Option<(Option<Seq<u8>>, Seq<u8>)> {
    if b.len() < 8 {
        None
    } else if be_u64(b.subrange(0, 8)) == 0 {
        Some((None, b.subrange(8, b.len() as int)))
    } else if be_u64(b.subrange(0, 8)) == 1 && b.len() >= 48 && be_u64(b.subrange(8, 16)) == 32 {
        Some((Some(b.subrange(16, 48)), b.subrange(48, b.len() as int)))
    } else {
        None
    }
}

#[verifier::opaque]
pub open spec fn parse_commit(b: Seq<u8>) -> Option<CommitView> {
    if b.len() < 48 || be_u64(b.subrange(0, 8)) != 32 {
        None
    } else {
        match parse_parent(b.subrange(40, b.len() as int)) {
            None => None,
            Some((parent, r1)) => if r1.len() < 8 {
                None
            } else {
                match parse_text(r1.subrange(8, r1.len() as int)) {
                    None => None,
                    Some((author, r2)) => match parse_text(r2) {
                        None => None,
                        Some((message, r3)) => if r3.len() == 0 {
                            Some(
                                CommitView {
                                    parent_commit_hash: parent,
                                    root_hash: b.subrange(8, 40),
                                    time: be_u64(r1.subrange(0, 8)),
                                    author,
                                    message,
                                },
                            )
                        } else {
                            None
                        },
                    },
                }
            },
        }
    }
}

/// The entry that stored bytes hold, if they hold one.
pub open spec fn parse_entry(b: Seq<u8>) -> Option<EntryView> {
    if b.len() < 9 {
        None
    } else {
        let body = b.subrange(9, b.len() as int);
        let n = be_u64(b.subrange(1, 9));
        if b[0] == 0 {
            match parse_items(body, n as nat) {
                Some((items, rest)) => if rest.len() == 0 {
                    Some(EntryView::Tree(build_items(items)))
                } else {
                    None
                },
                None => None,
            }
        } else if b[0] == 1 {
            if body.len() == n {
                Some(EntryView::Blob(body))
            } else {
                None
            }
        } else if b[0] == 2 {
            match parse_commit(b.subrange(1, b.len() as int)) {
                Some(c) => Some(EntryView::Commit(c)),
                None => None,
            }
        } else {
            None
        }
    }
}

/// Eight big-endian bytes read back give the number they were made from.
pub proof fn lemma_be_u64(n: u64)
    ensures
        be_u64(u64_be(n)) == n,
{
    let s = u64_be(n);
    assert(((((n >> 56u64) as u8) as u64) << 56u64) | ((((n >> 48u64) as u8) as u64) << 48u64) | ((
    ((n >> 40u64) as u8) as u64) << 40u64) | ((((n >> 32u64) as u8) as u64) << 32u64) | ((((n
        >> 24u64) as u8) as u64) << 24u64) | ((((n >> 16u64) as u8) as u64) << 16u64) | ((((n
        >> 8u64) as u8) as u64) << 8u64) | ((n as u8) as u64) == n) by (bit_vector);
}

proof fn lemma_parse_text(t: Seq<char>, rest: Seq<u8>)
    requires
        fits_u64(encode_utf8(t).len()),
    ensures
        parse_text(text_encoding(t) + rest) == Some((t, rest)),
{
    reveal(parse_text);
    let u = encode_utf8(t);
    let m = u.len() as int;
    let b = text_encoding(t) + rest;
    lemma_be_u64(u.len() as u64);
    assert(b.subrange(0, 8) =~= u64_be(u.len() as u64));
    assert(b.subrange(8, 8 + m) =~= u);
    assert(b.subrange(8 + m, b.len() as int) =~= rest);
}

proof fn lemma_parse_item(k: Seq<char>, n: NodeView, rest: Seq<u8>)
    requires
        item_ok(k, n),
    ensures
        parse_item(stored_item(k, n) + rest) == Some(((k, n), rest)),
{
    reveal(parse_item);
    let u = encode_utf8(k);
    let m = u.len() as int;
    let b = stored_item(k, n) + rest;
    lemma_be_u64(u.len() as u64);
    assert(b.subrange(1, 9) =~= u64_be(u.len() as u64));
    assert(b.subrange(9, 9 + m) =~= u);
    assert(b.subrange(9 + m, 9 + m + 32) =~= n.entry_hash);
    assert(b.subrange(9 + m + 32, b.len() as int) =~= rest);
    assert(b[0] == kind_byte(n.node_kind));
}

proof fn lemma_parse_items(s: Seq<(Seq<char>, NodeView)>, rest: Seq<u8>)
    requires
        forall|i: int| 0 <= i < s.len() ==> item_ok(#[trigger] s[i].0, s[i].1),
    ensures
        parse_items(stored_items(s) + rest, s.len()) == Some((s, rest)),
    decreases s.len(),
{
    if s.len() > 0 {
        let tail = s.drop_first();
        assert(item_ok(s[0].0, s[0].1));
        assert(forall|i: int| 0 <= i < tail.len() ==> item_ok(#[trigger] tail[i].0, tail[i].1)) by {
            assert forall|i: int| 0 <= i < tail.len() implies item_ok(#[trigger] tail[i].0, tail[i].1) by {
                assert(tail[i] == s[i + 1]);
            }
        }
        lemma_parse_items(tail, rest);
        assert(stored_items(s) + rest =~= stored_item(s[0].0, s[0].1) + (stored_items(tail) + rest));
        lemma_parse_item(s[0].0, s[0].1, stored_items(tail) + rest);
        assert(seq![s[0]] + tail =~= s);
    } else {
        assert(stored_items(s) + rest =~= rest);
    }
}

/// A commit's encoding parses back to the commit.
pub proof fn lemma_parse_commit(c: CommitView)
    requires
        commit_ok(c),
    ensures
        parse_commit(commit_encoding(c)) == Some(c),
{
    reveal(parse_commit);
    let cb = commit_encoding(c);
    lemma_be_u64(32);
    lemma_be_u64(0);
    lemma_be_u64(1);
    lemma_be_u64(c.time);
    assert(cb.subrange(0, 8) =~= u64_be(32));
    assert(cb.subrange(8, 40) =~= c.root_hash);
    let after_parent = u64_be(c.time) + text_encoding(c.author) + text_encoding(c.message);
    assert(cb.subrange(40, cb.len() as int) =~= crate::hash::parent_encoding(
        c.parent_commit_hash,
    ) + after_parent);
    let pb = crate::hash::parent_encoding(c.parent_commit_hash) + after_parent;
    match c.parent_commit_hash {
        None => {
            assert(pb.subrange(0, 8) =~= u64_be(0));
            assert(pb.subrange(8, pb.len() as int) =~= after_parent);
        },
        Some(p) => {
            assert(pb.subrange(0, 8) =~= u64_be(1));
            assert(pb.subrange(8, 16) =~= u64_be(32));
            assert(pb.subrange(16, 48) =~= p);
            assert(pb.subrange(48, pb.len() as int) =~= after_parent);
        },
    }
    assert(after_parent.subrange(0, 8) =~= u64_be(c.time));
    let r1a = text_encoding(c.author) + text_encoding(c.message);
    assert(after_parent.subrange(8, after_parent.len() as int) =~= r1a);
    lemma_parse_text(c.author, text_encoding(c.message));
    assert(text_encoding(c.message) =~= text_encoding(c.message) + Seq::<u8>::empty());
    lemma_parse_text(c.message, Seq::empty());
}

/// Reading an entry's stored form gives the entry back.
pub proof fn lemma_parse_entry_bytes(e: EntryView)
    requires
        entry_ok(e),
    ensures
        parse_entry(entry_bytes(e)) == Some(e),
{
    let b = entry_bytes(e);
    match e {
        EntryView::Tree(s) => {
            lemma_be_u64(s.len() as u64);
            assert(b.subrange(1, 9) =~= u64_be(s.len() as u64));
            assert(b.subrange(9, b.len() as int) =~= stored_items(s) + Seq::empty());
            lemma_parse_items(s, Seq::empty());
            lemma_build_sorted(s);
        },
        EntryView::Blob(v) => {
            lemma_be_u64(v.len() as u64);
            assert(b.subrange(1, 9) =~= u64_be(v.len() as u64));
            assert(b.subrange(9, b.len() as int) =~= v);
        },
        EntryView::Commit(c) => {
            assert(b.subrange(1, b.len() as int) =~= commit_encoding(c));
            lemma_parse_commit(c);
        },
    }
}

proof fn lemma_stored_items_push(s: Seq<(Seq<char>, NodeView)>, k: Seq<char>, n: NodeView)
    ensures
        stored_items(s.push((k, n))) == stored_items(s) + stored_item(k, n),
    decreases s.len(),
{
    if s.len() == 0 {
        assert(s.push((k, n)).drop_first() =~= s);
        assert(stored_items(s.push((k, n))) =~= stored_items(s) + stored_item(k, n));
    } else {
        assert(s.push((k, n)).drop_first() =~= s.drop_first().push((k, n)));
        lemma_stored_items_push(s.drop_first(), k, n);
        assert(stored_items(s.push((k, n))) =~= stored_items(s) + stored_item(k, n));
    }
}

/// Relies on `std::str::from_utf8`: it accepts exactly well-formed UTF-8
/// and then gives the text that the bytes encode.
#[verifier::external_body]
fn text_from_utf8(b: &[u8]) -> (r: Option<String>)
    ensures
        r is Some <==> valid_utf8(b@),
        r matches Some(s) ==> s@ == decode_utf8(b@),
{
    std::str::from_utf8(b).ok().map(|s| s.to_string())
}

/// Relies on `<[u8; 32]>::try_from(&[u8])`: a 32-byte slice converts to the
/// array of its bytes.
#[verifier::external_body]
fn hash_from_slice(b: &[u8]) -> (r: EntryHash)
    requires
        b@.len() == 32,
    ensures
        r@ == b@,
{
    b.try_into().unwrap()
}

fn push_stored_item(buf: &mut Vec<u8>, k: &String, n: &Node)
    ensures
        final(buf)@ == old(buf)@ + stored_item(k@, n@),
        item_ok(k@, n@),
{
    let key = k.as_str().as_bytes();
    let kind: u8 = match n.node_kind {
        NodeKind::NonLeaf => 0,
        NodeKind::Leaf => 1,
    };
    buf.push(kind);
    push_u64_be(buf, key.len() as u64);
    push_bytes(buf, key);
    push_bytes(buf, n.entry_hash.as_slice());
    assert(buf@ =~= old(buf)@ + stored_item(k@, n@));
}

/// The stored form of an entry.
pub fn encode_entry(e: &Entry) -> (r: Vec<u8>)
    ensures
        r@ == entry_bytes(e@),
        entry_ok(e@),
{
    let mut buf: Vec<u8> = Vec::new();
    match e {
        Entry::Tree(t) => {
            let items = tree_entries(t);
            let ghost s = tree_items(*t);
            buf.push(0);
            push_u64_be(&mut buf, items.len() as u64);
            let mut i: usize = 0;
            while i < items.len()
                invariant
                    i <= items@.len(),
                    items@.len() == s.len(),
                    forall|j: int|
                        0 <= j < items@.len() ==> (#[trigger] items@[j]).0@ == s[j].0
                            && items@[j].1@ == s[j].1,
                    forall|j: int| 0 <= j < i ==> item_ok(#[trigger] s[j].0, s[j].1),
                    buf@ == seq![0u8] + u64_be(s.len() as u64) + stored_items(s.subrange(0, i as int)),
                decreases items@.len() - i,
            {
                let (k, n) = &items[i];
                push_stored_item(&mut buf, k, n);
                proof {
                    lemma_stored_items_push(s.subrange(0, i as int), s[i as int].0, s[i as int].1);
                    assert(s.subrange(0, i as int).push((s[i as int].0, s[i as int].1)) =~= s.subrange(0, i + 1));
                }
                i = i + 1;
            }
            assert(s.subrange(0, s.len() as int) =~= s);
            assert(sorted_items(s)) by {
                assert forall|a: int, b: int| 0 <= a < b < s.len() implies crate::tree::key_lt(#[trigger] s[a].0, #[trigger] s[b].0) by {
                    assert(items@[a].0@ == s[a].0 && items@[b].0@ == s[b].0);
                }
            }
        },
        Entry::Blob(v) => {
            buf.push(1);
            push_u64_be(&mut buf, v.len() as u64);
            push_bytes(&mut buf, v.as_slice());
        },
        Entry::Commit(c) => {
            buf.push(2);
            push_commit(&mut buf, c);
        },
    }
    assert(buf@ =~= entry_bytes(e@));
    buf
}

fn push_text(buf: &mut Vec<u8>, t: &String)
    ensures
        final(buf)@ == old(buf)@ + text_encoding(t@),
        fits_u64(encode_utf8(t@).len()),
{
    let b = t.as_str().as_bytes();
    push_u64_be(buf, b.len() as u64);
    push_bytes(buf, b);
    assert(buf@ =~= old(buf)@ + text_encoding(t@));
}

fn push_commit(buf: &mut Vec<u8>, c: &Commit)
    ensures
        final(buf)@ == old(buf)@ + commit_encoding(c@),
        commit_ok(c@),
{
    push_u64_be(buf, 32);
    push_bytes(buf, c.root_hash.as_slice());
    match &c.parent_commit_hash {
        None => {
            push_u64_be(buf, 0);
        },
        Some(p) => {
            push_u64_be(buf, 1);
            push_u64_be(buf, 32);
            push_bytes(buf, p.as_slice());
        },
    }
    push_u64_be(buf, c.time);
    push_text(buf, &c.author);
    push_text(buf, &c.message);
    assert(buf@ =~= old(buf)@ + commit_encoding(c@));
}

/// The value of the eight bytes of `b` from `pos`.
fn read_u64(b: &[u8], pos: usize) -> (r: u64)
    requires
        pos + 8 <= b@.len(),
    ensures
        r == be_u64(b@.subrange(pos as int, pos + 8)),
{
    let ghost s = b@.subrange(pos as int, pos + 8);
    assert(s[0] == b@[pos as int] && s[1] == b@[pos + 1] && s[2] == b@[pos + 2] && s[3] == b@[pos
        + 3] && s[4] == b@[pos + 4] && s[5] == b@[pos + 5] && s[6] == b@[pos + 6] && s[7] == b@[pos
        + 7]);
    ((b[pos] as u64) << 56u64) | ((b[pos + 1] as u64) << 48u64) | ((b[pos + 2] as u64) << 40u64) | ((
    b[pos + 3] as u64) << 32u64) | ((b[pos + 4] as u64) << 24u64) | ((b[pos + 5] as u64) << 16u64)
        | ((b[pos + 6] as u64) << 8u64) | (b[pos + 7] as u64)
}

fn decode_item(b: &[u8], pos: usize) -> (r: Option<(String, Node, usize)>)
    requires
        pos <= b@.len(),
    ensures
        match parse_item(b@.subrange(pos as int, b@.len() as int)) {
            None => r is None,
            Some((x, rest)) => r matches Some((k, n, p)) && k@ == x.0 && n@ == x.1 && pos <= p
                <= b@.len() && rest == b@.subrange(p as int, b@.len() as int),
        },
{
    reveal(parse_item);
    let ghost s = b@.subrange(pos as int, b@.len() as int);
    if b.len() - pos < 9 {
        return None;
    }
    let n = read_u64(b, pos + 1);
    assert(s.subrange(1, 9) =~= b@.subrange(pos + 1, pos + 9));
    let avail = b.len() - pos - 9;
    if n > avail as u64 {
        return None;
    }
    let n = n as usize;
    if avail - n < 32 {
        return None;
    }
    let kind = if b[pos] == 0 {
        NodeKind::NonLeaf
    } else if b[pos] == 1 {
        NodeKind::Leaf
    } else {
        return None;
    };
    let start = pos + 9;
    assert(b@.subrange(start as int, start + n) =~= s.subrange(9, 9 + n));
    match text_from_utf8(&b[start..start + n]) {
        None => None,
        Some(k) => {
            let h = hash_from_slice(&b[start + n..start + n + 32]);
            assert(b@.subrange(start + n, start + n + 32) =~= s.subrange(9 + n, 9 + n + 32));
            assert(b@.subrange(start + n + 32, b@.len() as int) =~= s.subrange(
                9 + n + 32,
                s.len() as int,
            ));
            Some((k, Node { node_kind: kind, entry_hash: h }, start + n + 32))
        },
    }
}

fn decode_text(b: &[u8], pos: usize) -> (r: Option<(String, usize)>)
    requires
        pos <= b@.len(),
    ensures
        match parse_text(b@.subrange(pos as int, b@.len() as int)) {
            None => r is None,
            Some((t, rest)) => r matches Some((x, p)) && x@ == t && pos <= p <= b@.len() && rest
                == b@.subrange(p as int, b@.len() as int),
        },
{
    reveal(parse_text);
    let ghost s = b@.subrange(pos as int, b@.len() as int);
    if b.len() - pos < 8 {
        return None;
    }
    let n = read_u64(b, pos);
    assert(s.subrange(0, 8) =~= b@.subrange(pos as int, pos + 8));
    if n > (b.len() - pos - 8) as u64 {
        return None;
    }
    let n = n as usize;
    let start = pos + 8;
    assert(b@.subrange(start as int, start + n) =~= s.subrange(8, 8 + n));
    assert(b@.subrange(start + n, b@.len() as int) =~= s.subrange(8 + n, s.len() as int));
    match text_from_utf8(&b[start..start + n]) {
        None => None,
        Some(t) => Some((t, start + n)),
    }
}

fn decode_tree(b: &[u8]) -> (r: Option<Tree>)
    requires
        b@.len() >= 9,
    ensures
        match parse_items(b@.subrange(9, b@.len() as int), be_u64(b@.subrange(1, 9)) as nat) {
            Some((items, rest)) => if rest.len() == 0 {
                r matches Some(t) && tree_items(t) == build_items(items)
            } else {
                r is None
            },
            None => r is None,
        },
{
    let count = read_u64(b, 1);
    let mut tree = tree_new();
    let mut pos: usize = 9;
    let mut i: u64 = 0;
    let ghost whole = parse_items(b@.subrange(9, b@.len() as int), count as nat);
    let ghost mut done: Seq<(Seq<char>, NodeView)> = Seq::empty();
    assert(b@.subrange(9, b@.len() as int) == b@.subrange(pos as int, b@.len() as int));
    proof {
        match parse_items(b@.subrange(9, b@.len() as int), count as nat) {
            Some((xs, r)) => assert(done + xs =~= xs),
            None => {},
        }
    }
    while i < count
        invariant
            9 <= pos <= b@.len(),
            i <= count,
            count == be_u64(b@.subrange(1, 9)),
            whole == parse_items(b@.subrange(9, b@.len() as int), count as nat),
            tree_items(tree) == build_items(done),
            whole == match parse_items(b@.subrange(pos as int, b@.len() as int), (count - i) as nat) {
                None => None,
                Some((xs, r)) => Some((done + xs, r)),
            },
        decreases count - i,
    {
        match decode_item(b, pos) {
            None => {
                return None;
            },
            Some((k, n, p)) => {
                let ghost x = (k@, n@);
                proof {
                    let rest = b@.subrange(p as int, b@.len() as int);
                    match parse_items(rest, (count - i - 1) as nat) {
                        Some((xs, r2)) => {
                            assert(done + (seq![x] + xs) =~= done.push(x) + xs);
                        },
                        None => {},
                    }
                    assert(done.push(x).drop_last() =~= done);
                    done = done.push(x);
                }
                tree_insert(&mut tree, k, n);
                pos = p;
                i = i + 1;
            },
        }
    }
    proof {
        assert(done + Seq::empty() =~= done);
    }
    if pos == b.len() {
        Some(tree)
    } else {
        None
    }
}

fn decode_commit(b: &[u8]) -> (r: Option<Commit>)
    requires
        b@.len() >= 1,
    ensures
        match parse_commit(b@.subrange(1, b@.len() as int)) {
            Some(c) => r matches Some(x) && x@ == c,
            None => r is None,
        },
{
    reveal(parse_commit);
    let ghost c = b@.subrange(1, b@.len() as int);
    if b.len() < 49 {
        return None;
    }
    assert(c.subrange(0, 8) =~= b@.subrange(1, 9));
    if read_u64(b, 1) != 32 {
        return None;
    }
    let root = hash_from_slice(&b[9..41]);
    assert(c.subrange(8, 40) =~= b@.subrange(9, 41));
    let ghost pb = c.subrange(40, c.len() as int);
    assert(pb.subrange(0, 8) =~= b@.subrange(41, 49));
    let flag = read_u64(b, 41);
    let mut pos: usize;
    let parent: Option<EntryHash>;
    if flag == 0 {
        parent = None;
        pos = 49;
        assert(pb.subrange(8, pb.len() as int) =~= b@.subrange(49, b@.len() as int));
    } else if flag == 1 {
        if b.len() < 89 {
            return None;
        }
        assert(pb.subrange(8, 16) =~= b@.subrange(49, 57));
        if read_u64(b, 49) != 32 {
            return None;
        }
        parent = Some(hash_from_slice(&b[57..89]));
        assert(pb.subrange(16, 48) =~= b@.subrange(57, 89));
        assert(pb.subrange(48, pb.len() as int) =~= b@.subrange(89, b@.len() as int));
        pos = 89;
    } else {
        return None;
    }
    let ghost r1 = b@.subrange(pos as int, b@.len() as int);
    if b.len() - pos < 8 {
        return None;
    }
    let time = read_u64(b, pos);
    assert(r1.subrange(0, 8) =~= b@.subrange(pos as int, pos + 8));
    assert(r1.subrange(8, r1.len() as int) =~= b@.subrange(pos + 8, b@.len() as int));
    pos = pos + 8;
    let (author, p2) = match decode_text(b, pos) {
        None => {
            return None;
        },
        Some(x) => x,
    };
    let (message, p3) = match decode_text(b, p2) {
        None => {
            return None;
        },
        Some(x) => x,
    };
    if p3 != b.len() {
        return None;
    }
    Some(Commit { parent_commit_hash: parent, root_hash: root, time, author, message })
}

/// Reads stored bytes back as an entry.
pub fn decode_entry(b: &[u8]) -> (r: Result<Entry, DecodeError>)
    ensures
        match parse_entry(b@) {
            Some(e) => r matches Ok(x) && x@ == e,
            None => r is Err,
        },
{
    if b.len() < 9 {
        return Err(DecodeError::Malformed);
    }
    if b[0] == 0 {
        match decode_tree(b) {
            Some(t) => Ok(Entry::Tree(t)),
            None => Err(DecodeError::Malformed),
        }
    } else if b[0] == 1 {
        let n = read_u64(b, 1);
        if (b.len() - 9) as u64 != n {
            return Err(DecodeError::Malformed);
        }
        let mut v: Vec<u8> = Vec::new();
        push_bytes(&mut v, &b[9..b.len()]);
        assert(v@ =~= b@.subrange(9, b@.len() as int));
        Ok(Entry::Blob(v))
    } else if b[0] == 2 {
        match decode_commit(b) {
            Some(c) => Ok(Entry::Commit(c)),
            None => Err(DecodeError::Malformed),
        }
    } else {
        Err(DecodeError::Malformed)
    }
}

} // verus!

//! The engine's state as plain values, and what each operation does to it.
//!
//! Lookups see the staging area first and the backing store second. Each
//! operation is a function from state to state and result; the executable
//! engine is proved to follow these functions exactly.
use vstd::prelude::*;
use crate::codec::{entry_bytes, parse_entry};
use crate::entry::{CommitView, Entry, EntryView};
use crate::hash::{blob_hash, commit_hash, tree_hash};
use crate::store::history_after;
use crate::tree::{EntryHash, Node, NodeKind, NodeView, items_get, items_insert, items_remove};
use crate::merkle_storage::{ContextKey, ContextValue, MerkleError, MerkleErrorView};

verus! {

/// The items of a tree, in key order.
pub type Items = Seq<(Seq<char>, NodeView)>;

pub open spec fn unexpected(sought: &str, found: &str) -> MerkleErrorView {
    MerkleErrorView::FoundUnexpectedStructure { sought: sought@, found: found@ }
}

/// A result as plain values.
pub open spec fn res_view<T: View>(r: Result<T, MerkleError>) -> Result<T::V, MerkleErrorView> {
    match r {
        Ok(x) => Ok(x@),
        Err(e) => Err(e@),
    }
}

/// The segments of a key.
pub open spec fn key_view(k: Seq<String>) -> Seq<Seq<char>> {
    k.map_values(|s: String| s@)
}

/// A key written with `/` between its segments.
pub open spec fn join_key(k: Seq<Seq<char>>) -> Seq<char>
    decreases k.len(),
{
    if k.len() == 0 {
        Seq::empty()
    } else if k.len() == 1 {
        k[0]
    } else {
        join_key(k.drop_last()) + seq!['/'] + k.last()
    }
}

/// The engine's state as plain values.
pub struct MerkleStorageView {
    pub current_stage_tree: Option<Items>,
    pub db: Map<Seq<u8>, Seq<u8>>,
    pub commits: Seq<Seq<u8>>,
    pub staged: Map<Seq<u8>, EntryView>,
    pub last_commit: Option<CommitView>,
    /// How many times `set` has been called.
    pub set_calls: u64,
}

/// The entry staged under `k`: the first one in the staging area.
pub open spec fn staged_get(v: Seq<(EntryHash, Entry)>, k: Seq<u8>) -> Option<EntryView>
    decreases v.len(),
{
    if v.len() == 0 {
        None
    } else if v[0].0@ == k {
        Some(v[0].1@)
    } else {
        staged_get(v.drop_first(), k)
    }
}

pub open spec fn staged_map(v: Seq<(EntryHash, Entry)>) -> Map<Seq<u8>, EntryView> {
    Map::new(|k: Seq<u8>| staged_get(v, k) is Some, |k: Seq<u8>| staged_get(v, k)->0)
}

/// The entry that a lookup of `h` finds: the staged one, else the stored one.
pub open spec fn entry_at(s: MerkleStorageView, h: Seq<u8>) -> Result<EntryView, MerkleErrorView> {
    if s.staged.contains_key(h) {
        Ok(s.staged[h])
    } else if s.db.contains_key(h) {
        match parse_entry(s.db[h]) {
            Some(e) => Ok(e),
            None => Err(MerkleErrorView::SerializationError),
        }
    } else {
        Err(MerkleErrorView::EntryNotFound { hash: h })
    }
}

pub open spec fn tree_at(s: MerkleStorageView, h: Seq<u8>) -> Result<Items, MerkleErrorView> {
    match entry_at(s, h) {
        Err(e) => Err(e),
        Ok(EntryView::Tree(t)) => Ok(t),
        Ok(EntryView::Blob(_)) => Err(unexpected("tree", "blob")),
        Ok(EntryView::Commit(_)) => Err(unexpected("tree", "commit")),
    }
}

pub open spec fn commit_at(s: MerkleStorageView, h: Seq<u8>) -> Result<CommitView, MerkleErrorView> {
    match entry_at(s, h) {
        Err(e) => Err(e),
        Ok(EntryView::Commit(c)) => Ok(c),
        Ok(EntryView::Tree(_)) => Err(unexpected("commit", "tree")),
        Ok(EntryView::Blob(_)) => Err(unexpected("commit", "blob")),
    }
}

/// The tree at `path` below `root`. A missing segment, or a value in the
/// way, gives the empty tree; a commit in the way is an error.
pub open spec fn find_tree_spec(s: MerkleStorageView, root: Items, path: Seq<Seq<char>>) -> Result<
    Items,
    MerkleErrorView,
>
    decreases path.len(),
{
    if path.len() == 0 {
        Ok(root)
    } else {
        match items_get(root, path[0]) {
            None => Ok(Seq::empty()),
            Some(n) => match entry_at(s, n.entry_hash) {
                Err(e) => Err(e),
                Ok(EntryView::Tree(t)) => find_tree_spec(s, t, path.drop_first()),
                Ok(EntryView::Blob(_)) => Ok(Seq::empty()),
                Ok(EntryView::Commit(_)) => Err(unexpected("tree", "commit")),
            },
        }
    }
}

/// The value under `key` in the tree stored at `root_hash`.
pub open spec fn get_spec(s: MerkleStorageView, root_hash: Seq<u8>, key: Seq<Seq<char>>) -> Result<
    Seq<u8>,
    MerkleErrorView,
> {
    if key.len() == 0 {
        Err(MerkleErrorView::KeyEmpty)
    } else {
        match tree_at(s, root_hash) {
            Err(e) => Err(e),
            Ok(root) => match find_tree_spec(s, root, key.drop_last()) {
                Err(e) => Err(e),
                Ok(t) => match items_get(t, key.last()) {
                    None => Err(MerkleErrorView::ValueNotFound { key: join_key(key) }),
                    Some(n) => match entry_at(s, n.entry_hash) {
                        Err(e) => Err(e),
                        Ok(EntryView::Blob(b)) => Ok(b),
                        Ok(_) => Err(MerkleErrorView::ValueIsNotABlob { key: join_key(key) }),
                    },
                },
            },
        }
    }
}

/// The state after staging `e` under `h`.
pub open spec fn stage(s: MerkleStorageView, h: Seq<u8>, e: EntryView) -> MerkleStorageView {
    MerkleStorageView { staged: s.staged.insert(h, e), ..s }
}

/// The working tree, and the state once it is at hand: with no working tree
/// yet, the empty tree is staged and used.
pub open spec fn staged_root_spec(s: MerkleStorageView) -> (MerkleStorageView, Items) {
    match s.current_stage_tree {
        Some(t) => (s, t),
        None => (stage(s, tree_hash(Seq::empty()), EntryView::Tree(Seq::empty())), Seq::empty()),
    }
}


pub open spec fn node_opt_view(o: Option<Node>) -> Option<NodeView> {
    match o {
        Some(n) => Some(n@),
        None => None,
    }
}

pub open spec fn unit_view(r: Result<(), MerkleError>) -> Result<(), MerkleErrorView> {
    match r {
        Ok(_) => Ok(()),
        Err(e) => Err(e@),
    }
}

pub open spec fn non_leaf(h: Seq<u8>) -> NodeView {
    NodeView { node_kind: NodeKind::NonLeaf, entry_hash: h }
}

/// Rewrites every tree along `key`, bottom-up, so that `key` holds
/// `new_node` (or nothing, for `None`): each rewritten tree is staged, a tree
/// left empty is dropped from its parent, and the untouched subtrees are kept
/// by reference. Gives the state and the hash of the new root.
pub open spec fn rewrite_spec(
    s: MerkleStorageView,
    root: Items,
    key: Seq<Seq<char>>,
    new_node: Option<NodeView>,
) -> (MerkleStorageView, Result<Seq<u8>, MerkleErrorView>)
    decreases key.len(),
{
    if key.len() == 0 {
        (
            s,
            Ok(
                match new_node {
                    Some(n) => n.entry_hash,
                    None => tree_hash(root),
                },
            ),
        )
    } else {
        let last = key.last();
        let path = key.drop_last();
        match find_tree_spec(s, root, path) {
            Err(e) => (s, Err(e)),
            Ok(t) => {
                let t2 = match new_node {
                    None => items_remove(t, last),
                    Some(n) => items_insert(t, last, n),
                };
                if t2.len() == 0 {
                    rewrite_spec(s, root, path, None)
                } else {
                    let h = tree_hash(t2);
                    rewrite_spec(stage(s, h, EntryView::Tree(t2)), root, path, Some(non_leaf(h)))
                }
            },
        }
    }
}

/// Makes the tree stored under the new root hash the working tree.
pub open spec fn install_root(s: MerkleStorageView, res: Result<Seq<u8>, MerkleErrorView>) -> (
    MerkleStorageView,
    Result<(), MerkleErrorView>,
) {
    match res {
        Err(e) => (s, Err(e)),
        Ok(h) => match tree_at(s, h) {
            Err(e) => (s, Err(e)),
            Ok(t) => (MerkleStorageView { current_stage_tree: Some(t), ..s }, Ok(())),
        },
    }
}

/// `set`: the value is staged as a blob and a leaf node to it is put at `key`.
pub open spec fn set_spec(s: MerkleStorageView, key: Seq<Seq<char>>, value: Seq<u8>) -> (
    MerkleStorageView,
    Result<(), MerkleErrorView>,
) {
    let (s1, root) = staged_root_spec(s);
    let bh = blob_hash(value);
    let s2 = stage(s1, bh, EntryView::Blob(value));
    let (s3, res) = rewrite_spec(s2, root, key, Some(NodeView { node_kind: NodeKind::Leaf, entry_hash: bh }));
    install_root(MerkleStorageView { set_calls: count_call(s.set_calls), ..s3 }, res)
}

/// Rewriting stages trees and nothing else: the call counter and the
/// working tree stay as they were.
pub proof fn lemma_rewrite_keeps_counter(
    s: MerkleStorageView,
    root: Items,
    key: Seq<Seq<char>>,
    new_node: Option<NodeView>,
)
    ensures
        rewrite_spec(s, root, key, new_node).0.set_calls == s.set_calls,
        rewrite_spec(s, root, key, new_node).0.current_stage_tree == s.current_stage_tree,
    decreases key.len(),
{
    if key.len() > 0 {
        let path = key.drop_last();
        match find_tree_spec(s, root, path) {
            Err(_) => {},
            Ok(t) => {
                let t2 = match new_node {
                    None => items_remove(t, key.last()),
                    Some(n) => items_insert(t, key.last(), n),
                };
                if t2.len() == 0 {
                    lemma_rewrite_keeps_counter(s, root, path, None);
                } else {
                    let h = tree_hash(t2);
                    lemma_rewrite_keeps_counter(stage(s, h, EntryView::Tree(t2)), root, path, Some(non_leaf(h)));
                }
            },
        }
    }
}

/// A call counter after one more call; it stops at its largest value.
pub open spec fn count_call(n: u64) -> u64 {
    if n < u64::MAX {
        (n + 1) as u64
    } else {
        n
    }
}

/// `delete`: whatever is at `key` is removed; the empty key changes nothing.
pub open spec fn delete_spec(s: MerkleStorageView, key: Seq<Seq<char>>) -> (
    MerkleStorageView,
    Result<(), MerkleErrorView>,
) {
    let (s1, root) = staged_root_spec(s);
    if key.len() == 0 {
        install_root(s1, Ok(tree_hash(root)))
    } else {
        let (s2, res) = rewrite_spec(s1, root, key, None);
        install_root(s2, res)
    }
}

/// `copy`: a non-leaf reference to the tree at `from` is put at `to`.
pub open spec fn copy_spec(s: MerkleStorageView, from: Seq<Seq<char>>, to: Seq<Seq<char>>) -> (
    MerkleStorageView,
    Result<(), MerkleErrorView>,
) {
    let (s1, root) = staged_root_spec(s);
    match find_tree_spec(s1, root, from) {
        Err(e) => (s1, Err(e)),
        Ok(src) => {
            let (s2, res) = rewrite_spec(s1, root, to, Some(non_leaf(tree_hash(src))));
            install_root(s2, res)
        },
    }
}

/// `checkout`: the commit's root tree becomes the working tree, the commit
/// becomes the last one, and the staging area is emptied. A commit stored
/// under another hash than its own counts as not found.
pub open spec fn checkout_spec(s: MerkleStorageView, h: Seq<u8>) -> (
    MerkleStorageView,
    Result<(), MerkleErrorView>,
) {
    match commit_at(s, h) {
        Err(e) => (s, Err(e)),
        Ok(c) => if commit_hash(c) != h {
            (s, Err(MerkleErrorView::EntryNotFound { hash: h }))
        } else {
            match tree_at(s, c.root_hash) {
            Err(e) => (s, Err(e)),
            Ok(t) => (
                MerkleStorageView {
                    current_stage_tree: Some(t),
                    last_commit: Some(c),
                    staged: Map::empty(),
                    ..s
                },
                Ok(()),
            ),
            }
        },
    }
}

/// The value under `key` in the tree of the commit `h`.
pub open spec fn get_history_spec(s: MerkleStorageView, h: Seq<u8>, key: Seq<Seq<char>>) -> Result<
    Seq<u8>,
    MerkleErrorView,
> {
    match commit_at(s, h) {
        Err(e) => Err(e),
        Ok(c) => get_spec(s, c.root_hash, key),
    }
}



/// The hashes that an entry refers to: a tree's children, a commit's root.
pub open spec fn children(e: EntryView) -> Seq<Seq<u8>> {
    match e {
        EntryView::Tree(s) => Seq::new(s.len(), |i: int| s[i].1.entry_hash),
        EntryView::Commit(c) => seq![c.root_hash],
        EntryView::Blob(_) => Seq::empty(),
    }
}

/// `path` leads from `from` to `to` through staged entries, each the child
/// of the one before.
pub open spec fn is_staged_path(st: Map<Seq<u8>, EntryView>, from: Seq<u8>, to: Seq<u8>, path: Seq<Seq<u8>>) -> bool {
    &&& path.len() > 0
    &&& path[0] == from
    &&& path.last() == to
    &&& forall|i: int| 0 <= i < path.len() ==> st.contains_key(#[trigger] path[i])
    &&& forall|i: int| 0 <= i < path.len() - 1 ==> children(st[#[trigger] path[i]]).contains(path[i + 1])
}

pub open spec fn staged_reach(st: Map<Seq<u8>, EntryView>, from: Seq<u8>, to: Seq<u8>) -> bool {
    exists|path: Seq<Seq<u8>>| is_staged_path(st, from, to, path)
}

/// The backing store once every staged entry reachable from `start` has
/// been written to it.
pub open spec fn flush_spec(s: MerkleStorageView, start: Seq<u8>) -> Map<Seq<u8>, Seq<u8>> {
    Map::new(
        |h: Seq<u8>| s.db.contains_key(h) || staged_reach(s.staged, start, h),
        |h: Seq<u8>|
            if staged_reach(s.staged, start, h) {
                entry_bytes(s.staged[h])
            } else {
                s.db[h]
            },
    )
}

/// `commit`: a commit of the working tree, whose parent is the last commit,
/// is staged; the staged entries it reaches are flushed to the backing
/// store; the staging area is emptied; the commit becomes the last one and
/// the newest in the history. Gives the commit's hash.
pub open spec fn commit_spec(s: MerkleStorageView, time: u64, author: Seq<char>, message: Seq<char>) -> (
    MerkleStorageView,
    Result<Seq<u8>, MerkleErrorView>,
) {
    let (s1, root) = staged_root_spec(s);
    let rh = tree_hash(root);
    let parent = match s.last_commit {
        Some(c) => Some(commit_hash(c)),
        None => None,
    };
    let c = CommitView { parent_commit_hash: parent, root_hash: rh, time, author, message };
    let ch = commit_hash(c);
    let s2 = stage(s1, ch, EntryView::Commit(c));
    match entry_at(s2, rh) {
        Err(e) => (s2, Err(e)),
        Ok(_) => (
            MerkleStorageView {
                db: flush_spec(s2, ch),
                staged: Map::empty(),
                last_commit: Some(c),
                commits: history_after(s2.commits, ch),
                ..s2
            },
            Ok(ch),
        ),
    }
}

pub open spec fn hashes(v: Seq<EntryHash>) -> Seq<Seq<u8>> {
    v.map_values(|h: EntryHash| h@)
}

pub open spec fn count_false(v: Seq<bool>) -> nat
    decreases v.len(),
{
    if v.len() == 0 {
        0
    } else {
        (if v[0] {
            0nat
        } else {
            1nat
        }) + count_false(v.drop_first())
    }
}

pub(crate) proof fn lemma_count_false_set(v: Seq<bool>, i: int)
    requires
        0 <= i < v.len(),
        !v[i],
    ensures
        count_false(v.update(i, true)) + 1 == count_false(v),
    decreases v.len(),
{
    if i > 0 {
        lemma_count_false_set(v.drop_first(), i - 1);
        assert(v.update(i, true).drop_first() =~= v.drop_first().update(i - 1, true));
    } else {
        assert(v.update(i, true).drop_first() =~= v.drop_first());
    }
}

pub(crate) proof fn lemma_path_extend(st: Map<Seq<u8>, EntryView>, from: Seq<u8>, p: Seq<u8>, c: Seq<u8>)
    requires
        staged_reach(st, from, p),
        st.contains_key(c),
        children(st[p]).contains(c),
    ensures
        staged_reach(st, from, c),
{
    let path = choose|path: Seq<Seq<u8>>| is_staged_path(st, from, p, path);
    let q = path.push(c);
    assert forall|i: int| 0 <= i < q.len() implies st.contains_key(#[trigger] q[i]) by {
        if i < path.len() {
            assert(q[i] == path[i]);
        }
    }
    assert forall|i: int| 0 <= i < q.len() - 1 implies children(st[#[trigger] q[i]]).contains(q[i + 1]) by {
        assert(q[i] == path[i]);
        if i < path.len() - 1 {
            assert(q[i + 1] == path[i + 1]);
        }
    }
    assert(is_staged_path(st, from, c, q));
}

/// A set that holds `start` (when staged) and every staged child of its
/// members holds every staged entry that `start` reaches.
pub(crate) proof fn lemma_closed_holds_reach(
    st: Map<Seq<u8>, EntryView>,
    start: Seq<u8>,
    f: Set<Seq<u8>>,
    h: Seq<u8>,
    path: Seq<Seq<u8>>,
)
    requires
        st.contains_key(start) ==> f.contains(start),
        forall|p: Seq<u8>, c: Seq<u8>|
            #[trigger] f.contains(p) && #[trigger] children(st[p]).contains(c) && st.contains_key(c) ==> f.contains(c),
        is_staged_path(st, start, h, path),
    ensures
        f.contains(h),
    decreases path.len(),
{
    if path.len() > 1 {
        let q = path.drop_last();
        let p = q.last();
        assert(st.contains_key(path[0]));
        assert forall|i: int| 0 <= i < q.len() implies st.contains_key(#[trigger] q[i]) by {
            assert(q[i] == path[i]);
        }
        assert forall|i: int| 0 <= i < q.len() - 1 implies children(st[#[trigger] q[i]]).contains(q[i + 1]) by {
            assert(q[i] == path[i]);
            assert(q[i + 1] == path[i + 1]);
        }
        lemma_closed_holds_reach(st, start, f, p, q);
        assert(path[path.len() - 2] == p);
        assert(children(st[path[path.len() - 2]]).contains(path[path.len() - 1]));
        assert(st.contains_key(path[path.len() - 1]));
    } else {
        assert(st.contains_key(path[0]));
    }
}


/// Key/value pairs as plain values.
pub type KeyValues = Seq<(Seq<Seq<char>>, Seq<u8>)>;

/// How deep a walk below one tree may go. Each level is a distinct entry
/// unless the graph has a cycle, which content addressing rules out.
pub const MAX_DEPTH: usize = 0xffff_ffff;

pub open spec fn kvs_view(v: Seq<(ContextKey, ContextValue)>) -> KeyValues {
    v.map_values(|x: (ContextKey, ContextValue)| (key_view(x.0@), x.1@))
}

pub open spec fn too_deep() -> MerkleErrorView {
    unexpected("tree", "cycle")
}

/// Every value below the entry `e`, which sits at `path`, with its full key,
/// in key order. A child whose entry cannot be looked up makes it fail.
pub open spec fn collect_entry(s: MerkleStorageView, path: Seq<Seq<char>>, e: EntryView, fuel: nat) -> Result<
    KeyValues,
    MerkleErrorView,
>
    decreases fuel, 0nat,
{
    match e {
        EntryView::Blob(b) => Ok(seq![(path, b)]),
        EntryView::Tree(items) => if fuel == 0 {
            Err(too_deep())
        } else {
            collect_items(s, path, items, items.len(), (fuel - 1) as nat)
        },
        EntryView::Commit(c) => if fuel == 0 {
            Err(too_deep())
        } else {
            match entry_at(s, c.root_hash) {
                Err(x) => Err(x),
                Ok(e2) => collect_entry(s, path, e2, (fuel - 1) as nat),
            }
        },
    }
}

/// `collect_entry` over the first `n` items of a tree at `path`.
pub open spec fn collect_items(s: MerkleStorageView, path: Seq<Seq<char>>, items: Items, n: nat, fuel: nat) -> Result<
    KeyValues,
    MerkleErrorView,
>
    decreases fuel, n,
{
    if n == 0 {
        Ok(Seq::empty())
    } else {
        match collect_items(s, path, items, (n - 1) as nat, fuel) {
            Err(x) => Err(x),
            Ok(acc) => match entry_at(s, items[n - 1].1.entry_hash) {
                Err(x) => Err(x),
                Ok(child) => match collect_entry(s, path.push(items[n - 1].0), child, fuel) {
                    Err(x) => Err(x),
                    Ok(r) => Ok(acc + r),
                },
            },
        }
    }
}

/// The values below the first `n` items of the tree `t` found at `prefix`.
pub open spec fn prefix_items(s: MerkleStorageView, prefix: Seq<Seq<char>>, t: Items, n: nat) -> Result<
    KeyValues,
    MerkleErrorView,
>
    decreases n,
{
    if n == 0 {
        Ok(Seq::empty())
    } else {
        match prefix_items(s, prefix, t, (n - 1) as nat) {
            Err(x) => Err(x),
            Ok(acc) => match entry_at(s, t[n - 1].1.entry_hash) {
                Err(x) => Err(x),
                Ok(child) => match collect_entry(s, prefix.push(t[n - 1].0), child, MAX_DEPTH as nat) {
                    Err(x) => Err(x),
                    Ok(r) => Ok(acc + r),
                },
            },
        }
    }
}

/// Every value below `prefix` in the tree `root`, or `None` when there is
/// none.
pub open spec fn prefix_spec(s: MerkleStorageView, root: Items, prefix: Seq<Seq<char>>) -> Result<
    Option<KeyValues>,
    MerkleErrorView,
> {
    match find_tree_spec(s, root, prefix) {
        Err(x) => Err(x),
        Ok(t) => match prefix_items(s, prefix, t, t.len()) {
            Err(x) => Err(x),
            Ok(kv) => Ok(
                if kv.len() == 0 {
                    None
                } else {
                    Some(kv)
                },
            ),
        },
    }
}

pub open spec fn kvs_res_view(r: Result<Option<Vec<(ContextKey, ContextValue)>>, MerkleError>) -> Result<
    Option<KeyValues>,
    MerkleErrorView,
> {
    match r {
        Ok(Some(v)) => Ok(Some(kvs_view(v@))),
        Ok(None) => Ok(None),
        Err(e) => Err(e@),
    }
}

/// The values below `prefix` in the tree of the commit `h`.
pub open spec fn history_prefix_spec(s: MerkleStorageView, h: Seq<u8>, prefix: Seq<Seq<char>>) -> Result<
    Option<KeyValues>,
    MerkleErrorView,
> {
    match commit_at(s, h) {
        Err(x) => Err(x),
        Ok(c) => match tree_at(s, c.root_hash) {
            Err(x) => Err(x),
            Ok(root) => prefix_spec(s, root, prefix),
        },
    }
}


pub(crate) proof fn lemma_collect_items_err(s: MerkleStorageView, path: Seq<Seq<char>>, items: Items, m: nat, n: nat, fuel: nat)
    requires
        m <= n,
        collect_items(s, path, items, m, fuel) is Err,
    ensures
        collect_items(s, path, items, n, fuel) == collect_items(s, path, items, m, fuel),
    decreases n - m,
{
    if n > m {
        lemma_collect_items_err(s, path, items, m, (n - 1) as nat, fuel);
    }
}

pub(crate) proof fn lemma_prefix_items_err(s: MerkleStorageView, prefix: Seq<Seq<char>>, t: Items, m: nat, n: nat)
    requires
        m <= n,
        prefix_items(s, prefix, t, m) is Err,
    ensures
        prefix_items(s, prefix, t, n) == prefix_items(s, prefix, t, m),
    decreases n - m,
{
    if n > m {
        lemma_prefix_items_err(s, prefix, t, m, (n - 1) as nat);
    }
}


/// A hash from which pruning keeps entries: the last commit, the working
/// tree, or a child of a staged entry.
pub open spec fn is_live_root(s: MerkleStorageView, c: Seq<u8>) -> bool {
    ||| (s.last_commit matches Some(lc) && c == commit_hash(lc))
    ||| (s.current_stage_tree matches Some(t) && c == tree_hash(t))
    ||| exists|h: Seq<u8>| #[trigger] s.staged.contains_key(h) && children(s.staged[h]).contains(c)
}

/// The hashes that the entry stored under `h` refers to.
pub open spec fn stored_children(db: Map<Seq<u8>, Seq<u8>>, h: Seq<u8>) -> Seq<Seq<u8>> {
    match parse_entry(db[h]) {
        Some(e) => children(e),
        None => Seq::empty(),
    }
}

/// `path` leads from a live root to `to` through stored entries, each the
/// child of the one before.
pub open spec fn is_live_path(s: MerkleStorageView, to: Seq<u8>, path: Seq<Seq<u8>>) -> bool {
    &&& path.len() > 0
    &&& is_live_root(s, path[0])
    &&& path.last() == to
    &&& forall|i: int| 0 <= i < path.len() ==> s.db.contains_key(#[trigger] path[i])
    &&& forall|i: int| 0 <= i < path.len() - 1 ==> stored_children(s.db, #[trigger] path[i]).contains(path[i + 1])
}

/// The stored entry `h` is reachable from a live root.
pub open spec fn is_live(s: MerkleStorageView, h: Seq<u8>) -> bool {
    exists|path: Seq<Seq<u8>>| is_live_path(s, h, path)
}

/// `clear_previous_commits`: every stored entry that the last commit, the
/// working tree and the staging area do not reach is removed, and the
/// history keeps the last commit only. A reachable entry whose bytes do not
/// parse stops it before anything is removed.
pub open spec fn prune_spec(s: MerkleStorageView) -> (MerkleStorageView, Result<(), MerkleErrorView>) {
    if exists|h: Seq<u8>| #[trigger] is_live(s, h) && parse_entry(s.db[h]) is None {
        (s, Err(MerkleErrorView::SerializationError))
    } else {
        (
            MerkleStorageView {
                db: s.db.restrict(Set::new(|h: Seq<u8>| is_live(s, h))),
                commits: match s.last_commit {
                    Some(c) => history_after(Seq::empty(), commit_hash(c)),
                    None => Seq::empty(),
                },
                ..s
            },
            Ok(()),
        )
    }
}

pub(crate) proof fn lemma_live_extend(s: MerkleStorageView, p: Seq<u8>, c: Seq<u8>)
    requires
        is_live(s, p),
        s.db.contains_key(c),
        stored_children(s.db, p).contains(c),
    ensures
        is_live(s, c),
{
    let path = choose|path: Seq<Seq<u8>>| is_live_path(s, p, path);
    let q = path.push(c);
    assert forall|i: int| 0 <= i < q.len() implies s.db.contains_key(#[trigger] q[i]) by {
        if i < path.len() {
            assert(q[i] == path[i]);
        }
    }
    assert forall|i: int| 0 <= i < q.len() - 1 implies stored_children(s.db, #[trigger] q[i]).contains(q[i + 1]) by {
        assert(q[i] == path[i]);
        if i < path.len() - 1 {
            assert(q[i + 1] == path[i + 1]);
        }
    }
    assert(q[0] == path[0]);
    assert(is_live_path(s, c, q));
}

pub(crate) proof fn lemma_marked_holds_live(s: MerkleStorageView, f: Set<Seq<u8>>, h: Seq<u8>, path: Seq<Seq<u8>>)
    requires
        forall|c: Seq<u8>| #[trigger] is_live_root(s, c) && s.db.contains_key(c) ==> f.contains(c),
        forall|p: Seq<u8>, c: Seq<u8>|
            #[trigger] f.contains(p) && #[trigger] stored_children(s.db, p).contains(c) && s.db.contains_key(c)
                ==> f.contains(c),
        is_live_path(s, h, path),
    ensures
        f.contains(h),
    decreases path.len(),
{
    if path.len() > 1 {
        let q = path.drop_last();
        let p = q.last();
        assert(q[0] == path[0]);
        assert forall|i: int| 0 <= i < q.len() implies s.db.contains_key(#[trigger] q[i]) by {
            assert(q[i] == path[i]);
        }
        assert forall|i: int| 0 <= i < q.len() - 1 implies stored_children(s.db, #[trigger] q[i]).contains(q[i + 1]) by {
            assert(q[i] == path[i]);
            assert(q[i + 1] == path[i + 1]);
        }
        lemma_marked_holds_live(s, f, p, q);
        assert(path[path.len() - 2] == p);
        assert(stored_children(s.db, path[path.len() - 2]).contains(path[path.len() - 1]));
        assert(s.db.contains_key(path[path.len() - 1]));
    } else {
        assert(s.db.contains_key(path[0]));
    }
}

/// The state of an engine built by `new` over the backing store `db`.
pub open spec fn fresh_view(db: Map<Seq<u8>, Seq<u8>>) -> MerkleStorageView {
    MerkleStorageView {
        current_stage_tree: None,
        db,
        commits: Seq::empty(),
        staged: Map::empty(),
        last_commit: None,
        set_calls: 0,
    }
}

} // verus!

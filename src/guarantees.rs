//! What the engine guarantees across operations: that its commits depend
//! only on the operations made, that an edit leaves its siblings alone, that
//! emptied subtrees disappear, and that pruning keeps the last commit whole.
use vstd::prelude::*;
use crate::entry::EntryView;
use crate::hash::{blob_hash, commit_hash, tree_hash};
use crate::tree::{NodeKind, NodeView, items_get, items_insert, items_remove, key_lt, lemma_key_lt_irreflexive, sorted_items};
use crate::model::{MAX_DEPTH, collect_entry, collect_items, prefix_items, prefix_spec, Items, MerkleStorageView, children, commit_spec, copy_spec, delete_spec, entry_at, find_tree_spec, fresh_view, get_history_spec, get_spec, is_live, is_live_path, is_live_root, lemma_live_extend, non_leaf, prune_spec, rewrite_spec, set_spec, stage, staged_root_spec, stored_children, tree_at};
use crate::merkle_storage::MerkleErrorView;

verus! {

proof fn lemma_items_get_insert_other(s: Items, k: Seq<char>, n: NodeView, x: Seq<char>)
    requires
        x != k,
    ensures
        items_get(items_insert(s, k, n), x) == items_get(s, x),
    decreases s.len(),
{
    if s.len() > 0 && s[0].0 != k && !key_lt(k, s[0].0) {
        lemma_items_get_insert_other(s.drop_first(), k, n, x);
        let w = seq![s[0]] + items_insert(s.drop_first(), k, n);
        assert(w.drop_first() =~= items_insert(s.drop_first(), k, n));
        assert(w[0] == s[0]);
        assert(items_insert(s, k, n) == w);
        if s[0].0 != x {
            assert(items_get(w, x) == items_get(w.drop_first(), x));
            assert(items_get(s, x) == items_get(s.drop_first(), x));
        }
    } else if s.len() > 0 && s[0].0 == k {
        let w = seq![(k, n)] + s.drop_first();
        assert(w.drop_first() =~= s.drop_first());
        assert(w[0] == (k, n));
        assert(items_insert(s, k, n) == w);
        assert(items_get(w, x) == items_get(w.drop_first(), x));
        assert(items_get(s, x) == items_get(s.drop_first(), x));
    } else if s.len() > 0 {
        let w = seq![(k, n)] + s;
        assert(w.drop_first() =~= s);
        assert(w[0] == (k, n));
        assert(items_insert(s, k, n) == w);
        assert(items_get(w, x) == items_get(w.drop_first(), x));
    } else {
        let w = seq![(k, n)];
        assert(w.drop_first().len() == 0);
        assert(items_insert(s, k, n) == w);
        assert(w[0] == (k, n));
        assert(items_get(w, x) == items_get(w.drop_first(), x));
    }
}

/// On a successful rewrite that puts a node at `key`, the new root is
/// staged, and it is the old root with only the item under `key[0]` changed.
proof fn lemma_rewrite_put_root(s: MerkleStorageView, root: Items, key: Seq<Seq<char>>, n: NodeView)
    requires
        key.len() > 0,
        rewrite_spec(s, root, key, Some(n)).1 is Ok,
    ensures
        ({
            let (s2, r) = rewrite_spec(s, root, key, Some(n));
            exists|m: NodeView|
                s2.staged.contains_key(r->Ok_0) && s2.staged[r->Ok_0] == EntryView::Tree(
                    items_insert(root, key[0], m),
                )
        }),
    decreases key.len(),
{
    let path = key.drop_last();
    let t = find_tree_spec(s, root, path)->Ok_0;
    let t2 = items_insert(t, key.last(), n);
    assert(t2.len() > 0);
    let h = tree_hash(t2);
    let s1 = stage(s, h, EntryView::Tree(t2));
    if key.len() == 1 {
        assert(path.len() == 0);
        assert(key.last() == key[0]);
        let (s2, r) = rewrite_spec(s, root, key, Some(n));
        assert(s2 == s1 && r == Ok::<Seq<u8>, MerkleErrorView>(h));
        assert(s2.staged.contains_key(h) && s2.staged[h] == EntryView::Tree(items_insert(root, key[0], n)));
    } else {
        lemma_rewrite_put_root(s1, root, path, non_leaf(h));
        assert(path[0] == key[0]);
    }
}

/// Structural sharing: `set` changes only the root item on the key's first
/// segment; every other item of the root keeps its node, and so the subtree
/// below it keeps its hash.
pub proof fn lemma_set_shares_siblings(s: MerkleStorageView, key: Seq<Seq<char>>, value: Seq<u8>, x: Seq<char>)
    requires
        key.len() > 0,
        x != key[0],
        set_spec(s, key, value).1 is Ok,
    ensures
        set_spec(s, key, value).0.current_stage_tree matches Some(t) && items_get(t, x) == items_get(
            staged_root_spec(s).1,
            x,
        ),
{
    let (s1, root) = staged_root_spec(s);
    let bh = blob_hash(value);
    let s2 = stage(s1, bh, EntryView::Blob(value));
    let leaf = NodeView { node_kind: NodeKind::Leaf, entry_hash: bh };
    let (s3, res) = rewrite_spec(s2, root, key, Some(leaf));
    lemma_rewrite_put_root(s2, root, key, leaf);
    let h = res->Ok_0;
    let m = choose|m: NodeView|
        s3.staged.contains_key(h) && s3.staged[h] == EntryView::Tree(items_insert(root, key[0], m));
    assert(tree_at(s3, h) == Ok::<Items, MerkleErrorView>(items_insert(root, key[0], m)));
    lemma_items_get_insert_other(root, key[0], m, x);
}

proof fn lemma_items_get_remove_other(s: Items, k: Seq<char>, y: Seq<char>)
    requires
        y != k,
    ensures
        items_get(items_remove(s, k), y) == items_get(s, y),
    decreases s.len(),
{
    if s.len() > 0 && s[0].0 != k {
        let w = seq![s[0]] + items_remove(s.drop_first(), k);
        lemma_items_get_remove_other(s.drop_first(), k, y);
        assert(w[0] == s[0]);
        assert(w.drop_first() =~= items_remove(s.drop_first(), k));
        assert(items_remove(s, k) == w);
        if s[0].0 != y {
            assert(items_get(w, y) == items_get(w.drop_first(), y));
        }
    } else if s.len() > 0 {
        assert(items_get(s, y) == items_get(s.drop_first(), y));
    }
}

proof fn lemma_items_remove_len(s: Items, k: Seq<char>)
    ensures
        items_remove(s, k).len() + 1 >= s.len(),
    decreases s.len(),
{
    if s.len() > 0 && s[0].0 != k {
        lemma_items_remove_len(s.drop_first(), k);
    }
}

proof fn lemma_items_remove_gone(s: Items, k: Seq<char>)
    requires
        sorted_items(s),
    ensures
        items_get(items_remove(s, k), k) is None,
    decreases s.len(),
{
    if s.len() > 0 {
        let t = s.drop_first();
        assert(sorted_items(t)) by {
            assert forall|i: int, j: int| 0 <= i < j < t.len() implies key_lt(#[trigger] t[i].0, #[trigger] t[j].0) by {
                assert(t[i] == s[i + 1] && t[j] == s[j + 1]);
            }
        }
        if s[0].0 == k {
            assert forall|i: int| 0 <= i < t.len() implies (#[trigger] t[i]).0 != k by {
                assert(t[i] == s[i + 1]);
                assert(key_lt(s[0].0, s[i + 1].0));
                lemma_key_lt_irreflexive(k);
            }
            lemma_items_get_absent(t, k);
        } else {
            lemma_items_remove_gone(t, k);
            assert((seq![s[0]] + items_remove(t, k)).drop_first() =~= items_remove(t, k));
        }
    }
}

proof fn lemma_items_get_absent(s: Items, k: Seq<char>)
    requires
        forall|i: int| 0 <= i < s.len() ==> (#[trigger] s[i]).0 != k,
    ensures
        items_get(s, k) is None,
    decreases s.len(),
{
    if s.len() > 0 {
        let t = s.drop_first();
        assert forall|i: int| 0 <= i < t.len() implies (#[trigger] t[i]).0 != k by {
            assert(t[i] == s[i + 1]);
        }
        lemma_items_get_absent(t, k);
    }
}

/// Deleting the last key below an intermediate segment removes the segment
/// itself: when the tree under root item `p` holds only `x`, deleting `p/x`
/// leaves a root without `p`, whose other items keep their nodes, so every
/// value outside `p` keeps its value. Some other root item must remain: a deletion
/// that would empty the root leaves the root as it was.
pub proof fn lemma_delete_prunes_empty_parent(
    s: MerkleStorageView,
    p: Seq<char>,
    x: Seq<char>,
    n: NodeView,
    m: NodeView,
)
    requires
        sorted_items(staged_root_spec(s).1),
        staged_root_spec(s).1.len() >= 2,
        items_get(staged_root_spec(s).1, p) == Some(n),
        entry_at(staged_root_spec(s).0, n.entry_hash) == Ok::<EntryView, MerkleErrorView>(
            EntryView::Tree(seq![(x, m)]),
        ),
    ensures
        delete_spec(s, seq![p, x]).1 is Ok,
        delete_spec(s, seq![p, x]).0.current_stage_tree matches Some(t) && items_get(t, p) is None
            && forall|y: Seq<char>| y != p ==> #[trigger] items_get(t, y) == items_get(staged_root_spec(s).1, y),
{
    let (s1, root) = staged_root_spec(s);
    let key = seq![p, x];
    assert(key.drop_last() =~= seq![p]);
    assert(seq![p].drop_first().len() == 0);
    assert(seq![p][0] == p);
    assert(find_tree_spec(s1, seq![(x, m)], seq![p].drop_first()) == Ok::<Items, MerkleErrorView>(seq![(x, m)]));
    assert(find_tree_spec(s1, root, seq![p]) == Ok::<Items, MerkleErrorView>(seq![(x, m)]));
    assert(items_remove(seq![(x, m)], x) =~= Seq::<(Seq<char>, NodeView)>::empty());
    assert(seq![p].drop_last().len() == 0);
    lemma_items_remove_len(root, p);
    let t2 = items_remove(root, p);
    assert(t2.len() > 0);
    lemma_items_remove_gone(root, p);
    assert forall|y: Seq<char>| y != p implies #[trigger] items_get(items_remove(root, p), y) == items_get(root, y) by {
        lemma_items_get_remove_other(root, p, y);
    }
    let h = tree_hash(t2);
    let s2 = stage(s1, h, EntryView::Tree(t2));
    assert(seq![p].last() == p);
    assert(find_tree_spec(s1, root, seq![p].drop_last()) == Ok::<Items, MerkleErrorView>(root));
    assert(rewrite_spec(s2, root, seq![p].drop_last(), Some(non_leaf(h))) == (s2, Ok::<Seq<u8>, MerkleErrorView>(h)));
    assert(rewrite_spec(s1, root, seq![p], None) == (s2, Ok::<Seq<u8>, MerkleErrorView>(h)));
    assert(key.last() == x);
    assert(rewrite_spec(s1, root, key, None) == rewrite_spec(s1, root, seq![p], None));
    assert(tree_at(s2, h) == Ok::<Items, MerkleErrorView>(t2));
}


/// A hash whose lookup pruning cannot change: staged, reachable from a live
/// root, or not stored at all.
pub open spec fn unaffected(s: MerkleStorageView, h: Seq<u8>) -> bool {
    s.staged.contains_key(h) || is_live(s, h) || !s.db.contains_key(h)
}

pub open spec fn items_unaffected(s: MerkleStorageView, t: Items) -> bool {
    forall|i: int| 0 <= i < t.len() ==> unaffected(s, #[trigger] t[i].1.entry_hash)
}

proof fn lemma_unaffected_entry(s: MerkleStorageView, h: Seq<u8>)
    requires
        unaffected(s, h),
    ensures
        entry_at(prune_spec(s).0, h) == entry_at(s, h),
        entry_at(s, h) matches Ok(e) ==> forall|c: Seq<u8>| #[trigger] children(e).contains(c) ==> unaffected(s, c),
{
    let a = prune_spec(s).0;
    if !s.staged.contains_key(h) && is_live(s, h) {
        let path = choose|path: Seq<Seq<u8>>| is_live_path(s, h, path);
        assert(s.db.contains_key(path[path.len() - 1]));
    }
    if entry_at(s, h) is Ok {
        let e = entry_at(s, h)->Ok_0;
        assert forall|c: Seq<u8>| #[trigger] children(e).contains(c) implies unaffected(s, c) by {
            if s.db.contains_key(c) && !s.staged.contains_key(c) {
                if s.staged.contains_key(h) {
                    assert(is_live_root(s, c));
                    assert(is_live_path(s, c, seq![c]));
                } else {
                    assert(stored_children(s.db, h) == children(e));
                    lemma_live_extend(s, h, c);
                }
            }
        }
    }
}

proof fn lemma_items_get_member(t: Items, k: Seq<char>)
    requires
        items_get(t, k) is Some,
    ensures
        exists|i: int| 0 <= i < t.len() && (#[trigger] t[i]).1 == items_get(t, k)->Some_0,
    decreases t.len(),
{
    if t[0].0 != k {
        lemma_items_get_member(t.drop_first(), k);
        let i = choose|i: int| 0 <= i < t.drop_first().len() && (#[trigger] t.drop_first()[i]).1 == items_get(t, k)->Some_0;
        assert(t[i + 1] == t.drop_first()[i]);
    } else {
        assert(t[0].1 == items_get(t, k)->Some_0);
    }
}

proof fn lemma_children_unaffected(s: MerkleStorageView, h: Seq<u8>, t: Items)
    requires
        unaffected(s, h),
        entry_at(s, h) == Ok::<EntryView, MerkleErrorView>(EntryView::Tree(t)),
    ensures
        items_unaffected(s, t),
{
    lemma_unaffected_entry(s, h);
    assert forall|i: int| 0 <= i < t.len() implies unaffected(s, #[trigger] t[i].1.entry_hash) by {
        assert(children(EntryView::Tree(t))[i] == t[i].1.entry_hash);
        assert(children(EntryView::Tree(t)).contains(t[i].1.entry_hash));
    }
}

proof fn lemma_find_tree_unaffected(s: MerkleStorageView, root: Items, path: Seq<Seq<char>>)
    requires
        items_unaffected(s, root),
    ensures
        find_tree_spec(prune_spec(s).0, root, path) == find_tree_spec(s, root, path),
        find_tree_spec(s, root, path) matches Ok(t) ==> items_unaffected(s, t),
    decreases path.len(),
{
    if path.len() > 0 {
        match items_get(root, path[0]) {
            None => {},
            Some(n) => {
                lemma_items_get_member(root, path[0]);
                let i = choose|i: int| 0 <= i < root.len() && (#[trigger] root[i]).1 == n;
                assert(unaffected(s, root[i].1.entry_hash));
                lemma_unaffected_entry(s, n.entry_hash);
                match entry_at(s, n.entry_hash) {
                    Ok(EntryView::Tree(t)) => {
                        lemma_children_unaffected(s, n.entry_hash, t);
                        lemma_find_tree_unaffected(s, t, path.drop_first());
                    },
                    _ => {},
                }
            },
        }
    }
}

proof fn lemma_get_unaffected(s: MerkleStorageView, rh: Seq<u8>, key: Seq<Seq<char>>)
    requires
        unaffected(s, rh),
    ensures
        get_spec(prune_spec(s).0, rh, key) == get_spec(s, rh, key),
{
    lemma_unaffected_entry(s, rh);
    if key.len() > 0 {
        match entry_at(s, rh) {
            Ok(EntryView::Tree(root)) => {
                lemma_children_unaffected(s, rh, root);
                lemma_find_tree_unaffected(s, root, key.drop_last());
                match find_tree_spec(s, root, key.drop_last()) {
                    Ok(t) => {
                        match items_get(t, key.last()) {
                            Some(n) => {
                                lemma_items_get_member(t, key.last());
                                let i = choose|i: int| 0 <= i < t.len() && (#[trigger] t[i]).1 == n;
                                assert(unaffected(s, t[i].1.entry_hash));
                                lemma_unaffected_entry(s, n.entry_hash);
                            },
                            None => {},
                        }
                    },
                    Err(_) => {},
                }
            },
            _ => {},
        }
    }
}

/// Pruning is sound: after a successful prune, every key of the last commit
/// reads as it did before; the backing store keeps, with the same bytes,
/// exactly the stored entries that the last commit, the working tree or the
/// staging area reach, so an entry that only older commits reach is gone.
pub proof fn lemma_prune_keeps_last_commit(s: MerkleStorageView, key: Seq<Seq<char>>)
    requires
        s.last_commit is Some,
        prune_spec(s).1 is Ok,
    ensures
        get_history_spec(prune_spec(s).0, commit_hash(s.last_commit->Some_0), key) == get_history_spec(
            s,
            commit_hash(s.last_commit->Some_0),
            key,
        ),
        forall|h: Seq<u8>| #[trigger] prune_spec(s).0.db.contains_key(h) <==> (s.db.contains_key(h) && is_live(s, h)),
        forall|h: Seq<u8>| #[trigger] prune_spec(s).0.db.contains_key(h) ==> prune_spec(s).0.db[h] == s.db[h],
{
    assert forall|h: Seq<u8>| #[trigger] prune_spec(s).0.db.contains_key(h) <==> (s.db.contains_key(h) && is_live(s, h)) by {}
    let lc = commit_hash(s.last_commit->Some_0);
    assert(is_live_root(s, lc));
    if s.db.contains_key(lc) && !s.staged.contains_key(lc) {
        assert(is_live_path(s, lc, seq![lc]));
    }
    lemma_unaffected_entry(s, lc);
    match entry_at(s, lc) {
        Ok(EntryView::Commit(c)) => {
            assert(children(EntryView::Commit(c))[0] == c.root_hash);
            assert(children(EntryView::Commit(c)).contains(c.root_hash));
            lemma_get_unaffected(s, c.root_hash, key);
        },
        _ => {},
    }
}


/// An edit or a commit, as plain values.
pub enum Op {
    SetValue { key: Seq<Seq<char>>, value: Seq<u8> },
    Delete { key: Seq<Seq<char>> },
    Copy { from: Seq<Seq<char>>, to: Seq<Seq<char>> },
    Commit { time: u64, author: Seq<char>, message: Seq<char> },
}

/// The state after `op`, and for a commit its result.
pub open spec fn apply_op(s: MerkleStorageView, op: Op) -> (
    MerkleStorageView,
    Option<Result<Seq<u8>, MerkleErrorView>>,
) {
    match op {
        Op::SetValue { key, value } => (set_spec(s, key, value).0, None),
        Op::Delete { key } => (delete_spec(s, key).0, None),
        Op::Copy { from, to } => (copy_spec(s, from, to).0, None),
        Op::Commit { time, author, message } => {
            let (s2, r) = commit_spec(s, time, author, message);
            (s2, Some(r))
        },
    }
}

/// The state after `ops` in turn, and the results of the commits among them.
pub open spec fn run_ops(s: MerkleStorageView, ops: Seq<Op>) -> (
    MerkleStorageView,
    Seq<Result<Seq<u8>, MerkleErrorView>>,
)
    decreases ops.len(),
{
    if ops.len() == 0 {
        (s, Seq::empty())
    } else {
        let (s1, rs) = run_ops(s, ops.drop_last());
        let (s2, r) = apply_op(s1, ops.last());
        match r {
            Some(x) => (s2, rs.push(x)),
            None => (s2, rs),
        }
    }
}

/// Determinism: two engines built over empty backing stores that go through
/// the same edits and commits make the same commits, hash for hash.
pub proof fn lemma_same_ops_same_commits(d1: Map<Seq<u8>, Seq<u8>>, d2: Map<Seq<u8>, Seq<u8>>, ops: Seq<Op>)
    requires
        d1.dom() == Set::<Seq<u8>>::empty(),
        d2.dom() == Set::<Seq<u8>>::empty(),
    ensures
        run_ops(fresh_view(d1), ops).1 == run_ops(fresh_view(d2), ops).1,
{
    assert(d1 =~= d2);
}

/// A copy whose source cannot be walked fails with the error of the walk
/// (a missing entry, or a commit in the way) and leaves the working tree as
/// it was.
pub proof fn lemma_copy_fails_on_bad_source(
    s: MerkleStorageView,
    from: Seq<Seq<char>>,
    to: Seq<Seq<char>>,
    e: MerkleErrorView,
)
    requires
        find_tree_spec(staged_root_spec(s).0, staged_root_spec(s).1, from) == Err::<Items, MerkleErrorView>(e),
    ensures
        copy_spec(s, from, to).1 == Err::<(), MerkleErrorView>(e),
        copy_spec(s, from, to).0.current_stage_tree == s.current_stage_tree,
        copy_spec(s, from, to).0.db == s.db,
{
}

/// `k` starts with the segments of `p` and has at least one more.
pub open spec fn below(p: Seq<Seq<char>>, k: Seq<Seq<char>>) -> bool {
    p.len() < k.len() && k.subrange(0, p.len() as int) == p
}

proof fn lemma_below_push(p: Seq<Seq<char>>, x: Seq<char>, k: Seq<Seq<char>>)
    requires
        k == p.push(x) || below(p.push(x), k),
    ensures
        below(p, k),
{
    assert(k.subrange(0, p.len() as int) =~= p.push(x).subrange(0, p.len() as int));
    assert(p.push(x).subrange(0, p.len() as int) =~= p);
    if below(p.push(x), k) {
        assert(k.subrange(0, p.len() as int) =~= k.subrange(0, p.len() as int + 1).subrange(0, p.len() as int));
    }
}

proof fn lemma_collect_entry_keys(s: MerkleStorageView, path: Seq<Seq<char>>, e: EntryView, fuel: nat)
    ensures
        collect_entry(s, path, e, fuel) matches Ok(kv) ==> forall|i: int|
            0 <= i < kv.len() ==> #[trigger] kv[i].0 == path || below(path, kv[i].0),
    decreases fuel, 0nat,
{
    match e {
        EntryView::Blob(_) => {},
        EntryView::Tree(items) => if fuel > 0 {
            lemma_collect_items_keys(s, path, items, items.len(), (fuel - 1) as nat);
        },
        EntryView::Commit(c) => if fuel > 0 {
            if let Ok(e2) = entry_at(s, c.root_hash) {
                lemma_collect_entry_keys(s, path, e2, (fuel - 1) as nat);
            }
        },
    }
}

proof fn lemma_collect_items_keys(s: MerkleStorageView, path: Seq<Seq<char>>, items: Items, n: nat, fuel: nat)
    ensures
        collect_items(s, path, items, n, fuel) matches Ok(kv) ==> forall|i: int|
            0 <= i < kv.len() ==> below(path, #[trigger] kv[i].0),
    decreases fuel, n,
{
    if n > 0 {
        lemma_collect_items_keys(s, path, items, (n - 1) as nat, fuel);
        if let Ok(acc) = collect_items(s, path, items, (n - 1) as nat, fuel) {
            if let Ok(child) = entry_at(s, items[n - 1].1.entry_hash) {
                let cp = path.push(items[n - 1].0);
                lemma_collect_entry_keys(s, cp, child, fuel);
                if let Ok(r) = collect_entry(s, cp, child, fuel) {
                    let kv = acc + r;
                    assert forall|i: int| 0 <= i < kv.len() implies below(path, #[trigger] kv[i].0) by {
                        if i >= acc.len() {
                            assert(kv[i] == r[i - acc.len()]);
                            lemma_below_push(path, items[n - 1].0, kv[i].0);
                        } else {
                            assert(kv[i] == acc[i]);
                        }
                    }
                }
            }
        }
    }
}

proof fn lemma_prefix_items_keys(s: MerkleStorageView, prefix: Seq<Seq<char>>, t: Items, n: nat)
    ensures
        prefix_items(s, prefix, t, n) matches Ok(kv) ==> forall|i: int|
            0 <= i < kv.len() ==> below(prefix, #[trigger] kv[i].0),
    decreases n,
{
    if n > 0 {
        lemma_prefix_items_keys(s, prefix, t, (n - 1) as nat);
        if let Ok(acc) = prefix_items(s, prefix, t, (n - 1) as nat) {
            if let Ok(child) = entry_at(s, t[n - 1].1.entry_hash) {
                let cp = prefix.push(t[n - 1].0);
                lemma_collect_entry_keys(s, cp, child, MAX_DEPTH as nat);
                if let Ok(r) = collect_entry(s, cp, child, MAX_DEPTH as nat) {
                    let kv = acc + r;
                    assert forall|i: int| 0 <= i < kv.len() implies below(prefix, #[trigger] kv[i].0) by {
                        if i >= acc.len() {
                            assert(kv[i] == r[i - acc.len()]);
                            lemma_below_push(prefix, t[n - 1].0, kv[i].0);
                        } else {
                            assert(kv[i] == acc[i]);
                        }
                    }
                }
            }
        }
    }
}

/// Prefix enumeration stays below its prefix: every key it returns starts
/// with the prefix's segments and has at least one more.
pub proof fn lemma_prefix_keys_below(s: MerkleStorageView, root: Items, prefix: Seq<Seq<char>>)
    ensures
        prefix_spec(s, root, prefix) matches Ok(Some(kv)) ==> forall|i: int|
            0 <= i < kv.len() ==> below(prefix, #[trigger] kv[i].0),
{
    if let Ok(t) = find_tree_spec(s, root, prefix) {
        lemma_prefix_items_keys(s, prefix, t, t.len());
    }
}

} // verus!

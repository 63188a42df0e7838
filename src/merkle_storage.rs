//! The storage engine: a working tree edited by copy-on-write path rewriting,
//! a staging area of freshly hashed entries, commits that flush the staged
//! entries they reach into the backing store, and pruning of old history.
//!
//! Pruning marks what the last commit, the working tree and the staging area
//! reach and sweeps the rest, rather than counting references, so an entry
//! that is still reachable is never removed.
use vstd::prelude::*;
use crate::codec::{DecodeError, decode_entry, encode_entry, entry_bytes, parse_entry};
use crate::entry::{Commit, Entry, EntryView};
use crate::hash::{blob_hash, commit_hash, hash_blob, hash_commit, hash_tree, push_bytes, tree_hash};
use crate::store::{CommitSet, Db, db_contents, db_get, db_insert, db_keys, db_len, db_remove, history, history_insert, history_new};
use crate::tree::{EntryHash, Node, NodeKind, Tree, tree_clone, tree_entries, tree_get, tree_insert, tree_items, tree_len, tree_new, tree_remove};
use crate::model::{lemma_rewrite_keeps_counter, Items, KeyValues, MAX_DEPTH, MerkleStorageView, checkout_spec, children, collect_entry, collect_items, commit_at, commit_spec, copy_spec, count_false, delete_spec, entry_at, find_tree_spec, flush_spec, fresh_view, get_history_spec, get_spec, hashes, history_prefix_spec, install_root, is_live, is_live_path, is_live_root, is_staged_path, join_key, key_view, kvs_res_view, kvs_view, lemma_closed_holds_reach, lemma_collect_items_err, lemma_count_false_set, lemma_live_extend, lemma_marked_holds_live, lemma_path_extend, lemma_prefix_items_err, node_opt_view, prefix_items, prefix_spec, prune_spec, res_view, rewrite_spec, set_spec, stage, staged_get, staged_map, staged_reach, staged_root_spec, stored_children, tree_at, unexpected, unit_view};
use vstd::string::StringExecFns;

verus! {

/// A full path: one string per segment; the empty path is the root.
pub type ContextKey = Vec<String>;

/// A stored value.
pub type ContextValue = Vec<u8>;

/// What can go wrong in the engine.
#[derive(Debug)]
pub enum MerkleError {
    /// Stored bytes do not hold an entry.
    SerializationError { error: DecodeError },
    /// The root tree of a commit is missing.
    CommitRootNotFound,
    /// A commit was made without its predecessor.
    MissingAncestorCommit,
    /// The key leads to a tree or a commit, not to a value.
    ValueIsNotABlob { key: String },
    /// The hash holds another kind of entry than the one sought.
    FoundUnexpectedStructure { sought: String, found: String },
    /// No entry is stored under the hash.
    EntryNotFound { hash: EntryHash },
    /// Nothing is stored under the key.
    ValueNotFound { key: String },
    /// A key must have at least one segment.
    KeyEmpty,
}

/// An error as plain values.
pub enum MerkleErrorView {
    SerializationError,
    CommitRootNotFound,
    MissingAncestorCommit,
    ValueIsNotABlob { key: Seq<char> },
    FoundUnexpectedStructure { sought: Seq<char>, found: Seq<char> },
    EntryNotFound { hash: Seq<u8> },
    ValueNotFound { key: Seq<char> },
    KeyEmpty,
}

impl View for MerkleError {
    type V = MerkleErrorView;

    open spec fn view(&self) -> MerkleErrorView {
        match self {
            MerkleError::SerializationError { .. } => MerkleErrorView::SerializationError,
            MerkleError::CommitRootNotFound => MerkleErrorView::CommitRootNotFound,
            MerkleError::MissingAncestorCommit => MerkleErrorView::MissingAncestorCommit,
            MerkleError::ValueIsNotABlob { key } => MerkleErrorView::ValueIsNotABlob { key: key@ },
            MerkleError::FoundUnexpectedStructure { sought, found } =>
                MerkleErrorView::FoundUnexpectedStructure { sought: sought@, found: found@ },
            MerkleError::EntryNotFound { hash } => MerkleErrorView::EntryNotFound { hash: hash@ },
            MerkleError::ValueNotFound { key } => MerkleErrorView::ValueNotFound { key: key@ },
            MerkleError::KeyEmpty => MerkleErrorView::KeyEmpty,
        }
    }
}

/// Counts of the engine's in-memory state.
#[derive(Debug, Clone, Copy)]
pub struct MerkleMapStats {
    pub staged_area_elems: u64,
    pub current_tree_elems: u64,
}

/// The size of the backing store.
#[derive(Debug, Clone, Copy)]
pub struct DBStats {
    pub db_size: usize,
    pub keys: usize,
}

/// Time spent in `set`, in nanoseconds, averaged over the calls after the
/// warm-up ones.
#[derive(Debug, Clone, Copy)]
pub struct MerklePerfStats {
    pub avg_set_exec_time_ns: u64,
}

/// All statistics of an engine.
#[derive(Debug, Clone, Copy)]
pub struct MerkleStorageStats {
    pub db_stats: DBStats,
    pub map_stats: MerkleMapStats,
    pub perf_stats: MerklePerfStats,
}

/// The engine.
pub struct MerkleStorage {
    current_stage_tree: Option<Tree>,
    db: Db,
    commits: CommitSet,
    staged: Vec<(EntryHash, Entry)>,
    last_commit: Option<Commit>,
    cumul_set_exec_time_ns: u64,
    set_exec_times: u64,
}

/// How many `set` calls are not timed, while the engine warms up.
pub const SET_TIMES_TO_DISCARD: u64 = 20;

impl View for MerkleStorage {
    type V = MerkleStorageView;

    closed spec fn view(&self) -> MerkleStorageView {
        MerkleStorageView {
            current_stage_tree: match self.current_stage_tree {
                Some(t) => Some(tree_items(t)),
                None => None,
            },
            db: db_contents(self.db),
            commits: history(self.commits),
            staged: staged_map(self.staged@),
            last_commit: match self.last_commit {
                Some(c) => Some(c@),
                None => None,
            },
            set_calls: self.set_exec_times,
        }
    }
}

/// With distinct keys, the staging area holds as many hashes as items.
proof fn lemma_staged_dom_len(v: Seq<(EntryHash, Entry)>)
    requires
        forall|i: int, j: int| 0 <= i < j < v.len() ==> (#[trigger] v[i]).0@ != (#[trigger] v[j]).0@,
    ensures
        staged_map(v).dom().finite(),
        staged_map(v).dom().len() == v.len(),
    decreases v.len(),
{
    if v.len() == 0 {
        assert(staged_map(v).dom() =~= Set::<Seq<u8>>::empty());
    } else {
        let t = v.drop_first();
        assert forall|i: int, j: int| 0 <= i < j < t.len() implies (#[trigger] t[i]).0@ != (#[trigger] t[j]).0@ by {
            assert(t[i] == v[i + 1] && t[j] == v[j + 1]);
        }
        lemma_staged_dom_len(t);
        assert forall|j: int| 0 <= j < t.len() implies (#[trigger] t[j]).0@ != v[0].0@ by {
            assert(t[j] == v[j + 1]);
        }
        lemma_staged_get_none(t, v[0].0@);
        assert(staged_map(v).dom() =~= staged_map(t).dom().insert(v[0].0@));
    }
}

proof fn lemma_staged_get_update(v: Seq<(EntryHash, Entry)>, i: int, h: EntryHash, e: Entry, k: Seq<u8>)
    requires
        0 <= i < v.len(),
        v[i].0@ == h@,
        forall|j: int| 0 <= j < i ==> (#[trigger] v[j]).0@ != h@,
    ensures
        staged_get(v.update(i, (h, e)), k) == if k == h@ {
            Some(e@)
        } else {
            staged_get(v, k)
        },
    decreases v.len(),
{
    if i > 0 {
        assert(v[0].0@ != h@);
        let t = v.drop_first();
        assert forall|j: int| 0 <= j < i - 1 implies (#[trigger] t[j]).0@ != h@ by {
            assert(t[j] == v[j + 1]);
        }
        lemma_staged_get_update(t, i - 1, h, e, k);
        assert(v.update(i, (h, e)).drop_first() =~= t.update(i - 1, (h, e)));
        assert(v.update(i, (h, e))[0] == v[0]);
    } else {
        assert(v.update(i, (h, e)).drop_first() =~= v.drop_first());
        assert(v.update(i, (h, e))[0] == (h, e));
    }
}

proof fn lemma_staged_get_push(v: Seq<(EntryHash, Entry)>, h: EntryHash, e: Entry, k: Seq<u8>)
    requires
        forall|j: int| 0 <= j < v.len() ==> (#[trigger] v[j]).0@ != h@,
    ensures
        staged_get(v.push((h, e)), k) == if k == h@ {
            Some(e@)
        } else {
            staged_get(v, k)
        },
    decreases v.len(),
{
    let w = v.push((h, e));
    if v.len() > 0 {
        let t = v.drop_first();
        assert forall|j: int| 0 <= j < t.len() implies (#[trigger] t[j]).0@ != h@ by {
            assert(t[j] == v[j + 1]);
        }
        lemma_staged_get_push(t, h, e, k);
        assert(w.drop_first() =~= t.push((h, e)));
        assert(w[0] == v[0]);
        assert(v[0].0@ != h@);
        if v[0].0@ == k {
            assert(staged_get(w, k) == Some(v[0].1@));
        } else {
            assert(staged_get(w, k) == staged_get(t.push((h, e)), k));
        }
    } else {
        assert(w[0] == (h, e));
        assert(w.drop_first().len() == 0);
        if k == h@ {
            assert(staged_get(w, k) == Some(e@));
        } else {
            assert(staged_get(w.drop_first(), k) is None);
            assert(staged_get(w, k) is None);
        }
    }
}

proof fn lemma_staged_get_index(v: Seq<(EntryHash, Entry)>, i: int)
    requires
        0 <= i < v.len(),
        forall|j: int| 0 <= j < i ==> (#[trigger] v[j]).0@ != v[i].0@,
    ensures
        staged_get(v, v[i].0@) == Some(v[i].1@),
    decreases v.len(),
{
    if i > 0 {
        let t = v.drop_first();
        assert forall|j: int| 0 <= j < i - 1 implies (#[trigger] t[j]).0@ != t[i - 1].0@ by {
            assert(t[j] == v[j + 1]);
        }
        lemma_staged_get_index(t, i - 1);
    }
}

proof fn lemma_staged_get_none(v: Seq<(EntryHash, Entry)>, k: Seq<u8>)
    requires
        forall|j: int| 0 <= j < v.len() ==> (#[trigger] v[j]).0@ != k,
    ensures
        staged_get(v, k) is None,
    decreases v.len(),
{
    if v.len() > 0 {
        let t = v.drop_first();
        assert forall|j: int| 0 <= j < t.len() implies (#[trigger] t[j]).0@ != k by {
            assert(t[j] == v[j + 1]);
        }
        lemma_staged_get_none(t, k);
    }
}


pub open spec fn listed_before(keys: Seq<EntryHash>, j: int, h: Seq<u8>) -> bool {
    exists|m: int| 0 <= m < j && (#[trigger] keys[m])@ == h
}

/// The index of the first staged item that holds `h`.
proof fn choose_staged_index(v: Seq<(EntryHash, Entry)>, h: Seq<u8>) -> (j: int)
    requires
        staged_get(v, h) is Some,
    ensures
        0 <= j < v.len(),
        v[j].0@ == h,
        staged_get(v, h) == Some(v[j].1@),
    decreases v.len(),
{
    if v[0].0@ == h {
        0
    } else {
        let j = choose_staged_index(v.drop_first(), h);
        j + 1
    }
}

/// Pushes the hashes that `e` refers to.
fn push_entry_children(stack: &mut Vec<EntryHash>, e: &Entry)
    ensures
        hashes(final(stack)@) == hashes(old(stack)@) + children(e@),
{
    let ghost s0 = hashes(stack@);
    match e {
        Entry::Tree(t) => {
            let items = tree_entries(t);
            let ghost ch = children(e@);
            let mut j: usize = 0;
            while j < items.len()
                invariant
                    j <= items@.len(),
                    items@.len() == tree_items(*t).len(),
                    ch == children(EntryView::Tree(tree_items(*t))),
                    forall|m: int| 0 <= m < items@.len() ==> (#[trigger] items@[m]).1@ == tree_items(*t)[m].1,
                    hashes(stack@) == s0 + ch.subrange(0, j as int),
                decreases items@.len() - j,
            {
                let ghost before = stack@;
                stack.push(items[j].1.entry_hash);
                assert(items@[j as int].1@ == tree_items(*t)[j as int].1);
                assert(hashes(stack@) =~= hashes(before).push(items@[j as int].1.entry_hash@));
                assert(hashes(stack@) =~= s0 + ch.subrange(0, j + 1));
                j = j + 1;
            }
            assert(ch.subrange(0, ch.len() as int) =~= ch);
        },
        Entry::Commit(c) => {
            stack.push(c.root_hash);
            assert(hashes(stack@) =~= s0 + children(e@));
        },
        Entry::Blob(_) => {
            assert(hashes(stack@) =~= s0 + children(e@));
        },
    }
}

#[verifier::external_type_specification]
#[verifier::external_body]
pub struct ExInstant(std::time::Instant);

/// Relies on `std::time::Instant::now`: the present instant; nothing is
/// known of its value.
#[verifier::external_body]
fn instant_now() -> (r: std::time::Instant) {
    std::time::Instant::now()
}

/// Relies on `std::time::Instant::elapsed`: the nanoseconds since `start`;
/// nothing is known of the value.
#[verifier::external_body]
fn nanos_since(start: &std::time::Instant) -> (r: u64) {
    start.elapsed().as_nanos() as u64
}

/// Whether two hashes are equal.
pub(crate) fn hash_eq(a: &EntryHash, b: &EntryHash) -> (r: bool)
    ensures
        r == (a@ == b@),
{
    let mut i: usize = 0;
    while i < 32
        invariant
            i <= 32,
            a@.len() == 32,
            b@.len() == 32,
            forall|j: int| 0 <= j < i ==> a@[j] == b@[j],
        decreases 32 - i,
    {
        if a[i] != b[i] {
            return false;
        }
        i = i + 1;
    }
    assert(a@ =~= b@);
    true
}

fn str_to_string(s: &str) -> (r: String)
    ensures
        r@ == s@,
{
    String::from_str(s)
}

fn unexpected_error(sought: &str, found: &str) -> (r: MerkleError)
    ensures
        r@ == unexpected(sought, found),
{
    MerkleError::FoundUnexpectedStructure { sought: str_to_string(sought), found: str_to_string(found) }
}

/// A copy of a key.
pub(crate) fn clone_key(key: &[String]) -> (r: Vec<String>)
    ensures
        key_view(r@) == key_view(key@),
{
    let mut r: Vec<String> = Vec::new();
    let mut i: usize = 0;
    while i < key.len()
        invariant
            i <= key@.len(),
            key_view(r@) == key_view(key@.subrange(0, i as int)),
        decreases key@.len() - i,
    {
        let ghost before = r@;
        let x = key[i].clone();
        assert(x@ == key@[i as int]@);
        r.push(x);
        assert(r@ == before.push(x));
        assert(key_view(before) =~= key_view(key@.subrange(0, i as int)));
        assert(key_view(r@) =~= key_view(key@.subrange(0, i + 1))) by {
            assert(key_view(before).len() == before.len());
            assert(key_view(key@.subrange(0, i as int)).len() == i);
            assert(before.len() == i);
            assert(key_view(r@).len() == key_view(key@.subrange(0, i + 1)).len());
            assert forall|m: int| 0 <= m < key_view(r@).len() implies key_view(r@)[m] == key_view(key@.subrange(0, i + 1))[m] by {
                if m < i {
                    assert(key_view(r@)[m] == key_view(before)[m]);
                }
            }
        }
        i = i + 1;
    }
    assert(key@.subrange(0, key@.len() as int) =~= key@);
    r
}

/// `key` with `/` between its segments.
pub fn key_to_string(key: &[String]) -> (r: String)
    ensures
        r@ == join_key(key_view(key@)),
{
    let mut r = String::new();
    let mut i: usize = 0;
    while i < key.len()
        invariant
            i <= key@.len(),
            r@ == join_key(key_view(key@.subrange(0, i as int))),
        decreases key@.len() - i,
    {
        let ghost sub = key_view(key@.subrange(0, i + 1));
        if i > 0 {
            r.append("/");
            proof {
                reveal_strlit("/");
            }
        }
        r.append(key[i].as_str());
        proof {
            assert(sub.drop_last() =~= key_view(key@.subrange(0, i as int)));
            assert(r@ =~= join_key(sub));
        }
        i = i + 1;
    }
    assert(key@.subrange(0, key@.len() as int) =~= key@);
    r
}

impl MerkleStorage {
    /// Keys of the staging area are distinct.
    pub closed spec fn wf(&self) -> bool {
        forall|i: int, j: int|
            0 <= i < j < self.staged@.len() ==> (#[trigger] self.staged@[i]).0@ != (#[trigger] self.staged@[j]).0@
    }

    /// The first index of the staging area that holds `h`.
    fn find_staged(&self, h: &EntryHash) -> (r: Option<usize>)
        ensures
            match r {
                Some(i) => i < self.staged@.len() && self.staged@[i as int].0@ == h@ && forall|j: int|
                    0 <= j < i ==> (#[trigger] self.staged@[j]).0@ != h@,
                None => forall|j: int| 0 <= j < self.staged@.len() ==> (#[trigger] self.staged@[j]).0@ != h@,
            },
    {
        let mut i: usize = 0;
        while i < self.staged.len()
            invariant
                i <= self.staged@.len(),
                forall|j: int| 0 <= j < i ==> (#[trigger] self.staged@[j]).0@ != h@,
            decreases self.staged@.len() - i,
        {
            if hash_eq(&self.staged[i].0, h) {
                return Some(i);
            }
            i = i + 1;
        }
        None
    }

    /// Stages `value` under `key`, replacing what was staged there.
    fn put_to_staging_area(&mut self, key: &EntryHash, value: Entry)
        requires
            old(self).wf(),
        ensures
            final(self).wf(),
            final(self)@ == stage(old(self)@, key@, value@),
    {
        let ghost v0 = self.staged@;
        match self.find_staged(key) {
            Some(i) => {
                self.staged.set(i, (*key, value));
                proof {
                    assert forall|k: Seq<u8>| #[trigger] staged_get(self.staged@, k) == if k == key@ {
                        Some(value@)
                    } else {
                        staged_get(v0, k)
                    } by {
                        lemma_staged_get_update(v0, i as int, *key, value, k);
                        assert(self.staged@ == v0.update(i as int, (*key, value)));
                    }
                }
            },
            None => {
                self.staged.push((*key, value));
                proof {
                    assert forall|k: Seq<u8>| #[trigger] staged_get(self.staged@, k) == if k == key@ {
                        Some(value@)
                    } else {
                        staged_get(v0, k)
                    } by {
                        lemma_staged_get_push(v0, *key, value, k);
                        assert(self.staged@ == v0.push((*key, value)));
                    }
                }
            },
        }
        assert(staged_map(self.staged@) =~= staged_map(v0).insert(key@, value@));
    }

    /// The entry under `hash`: the staged one, else the stored one.
    fn get_entry(&self, hash: &EntryHash) -> (r: Result<Entry, MerkleError>)
        requires
            self.wf(),
        ensures
            res_view(r) == entry_at(self@, hash@),
    {
        match self.find_staged(hash) {
            Some(i) => {
                proof {
                    assert forall|j: int| 0 <= j < i implies (#[trigger] self.staged@[j]).0@
                        != self.staged@[i as int].0@ by {}
                    lemma_staged_get_index(self.staged@, i as int);
                }
                Ok(self.staged[i].1.duplicate())
            },
            None => {
                proof {
                    lemma_staged_get_none(self.staged@, hash@);
                }
                match db_get(&self.db, hash) {
                    None => Err(MerkleError::EntryNotFound { hash: *hash }),
                    Some(bytes) => match decode_entry(bytes.as_slice()) {
                        Ok(e) => Ok(e),
                        Err(error) => Err(MerkleError::SerializationError { error }),
                    },
                }
            },
        }
    }

    fn get_tree(&self, hash: &EntryHash) -> (r: Result<Tree, MerkleError>)
        requires
            self.wf(),
        ensures
            match r {
                Ok(t) => tree_at(self@, hash@) == Ok::<Items, MerkleErrorView>(tree_items(t)),
                Err(e) => tree_at(self@, hash@) == Err::<Items, MerkleErrorView>(e@),
            },
    {
        match self.get_entry(hash)? {
            Entry::Tree(tree) => Ok(tree),
            Entry::Blob(_) => Err(unexpected_error("tree", "blob")),
            Entry::Commit(_) => Err(unexpected_error("tree", "commit")),
        }
    }

    fn get_commit(&self, hash: &EntryHash) -> (r: Result<Commit, MerkleError>)
        requires
            self.wf(),
        ensures
            res_view(r) == commit_at(self@, hash@),
    {
        match self.get_entry(hash)? {
            Entry::Commit(commit) => Ok(commit),
            Entry::Tree(_) => Err(unexpected_error("commit", "tree")),
            Entry::Blob(_) => Err(unexpected_error("commit", "blob")),
        }
    }

    /// The tree at `key` below `root`; see `find_tree_spec`.
    fn find_tree(&self, root: &Tree, key: &[String]) -> (r: Result<Tree, MerkleError>)
        requires
            self.wf(),
        ensures
            match r {
                Ok(t) => find_tree_spec(self@, tree_items(*root), key_view(key@)) == Ok::<
                    Items,
                    MerkleErrorView,
                >(tree_items(t)),
                Err(e) => find_tree_spec(self@, tree_items(*root), key_view(key@)) == Err::<
                    Items,
                    MerkleErrorView,
                >(e@),
            },
        decreases key@.len(),
    {
        if key.len() == 0 {
            return Ok(tree_clone(root));
        }
        let ghost kv = key_view(key@);
        assert(kv[0] == key@[0]@);
        let child_node = match tree_get(root, &key[0]) {
            Some(n) => n,
            None => {
                return Ok(tree_new());
            },
        };
        let rest = &key[1..key.len()];
        assert(key_view(rest@) =~= kv.drop_first());
        match self.get_entry(&child_node.entry_hash)? {
            Entry::Tree(tree) => self.find_tree(&tree, rest),
            Entry::Blob(_) => Ok(tree_new()),
            Entry::Commit(_) => Err(unexpected_error("tree", "commit")),
        }
    }

    fn get_from_tree(&self, root_hash: &EntryHash, key: &ContextKey) -> (r: Result<
        ContextValue,
        MerkleError,
    >)
        requires
            self.wf(),
        ensures
            res_view(r) == get_spec(self@, root_hash@, key_view(key@)),
    {
        if key.len() == 0 {
            return Err(MerkleError::KeyEmpty);
        }
        let ghost kv = key_view(key@);
        let last = key.len() - 1;
        let path = &key.as_slice()[0..last];
        assert(key_view(path@) =~= kv.drop_last());
        let root = self.get_tree(root_hash)?;
        let node = self.find_tree(&root, path)?;
        let child = match tree_get(&node, &key[last]) {
            None => {
                return Err(MerkleError::ValueNotFound { key: key_to_string(key.as_slice()) });
            },
            Some(entry) => entry,
        };
        match self.get_entry(&child.entry_hash)? {
            Entry::Blob(blob) => Ok(blob),
            _ => Err(MerkleError::ValueIsNotABlob { key: key_to_string(key.as_slice()) }),
        }
    }

    /// A fresh engine over the backing store `db`.
    pub fn new(db: Db) -> (r: MerkleStorage)
        ensures
            r.wf(),
            r@ == fresh_view(db_contents(db)),
    {
        let r = MerkleStorage {
            db,
            commits: history_new(),
            staged: Vec::new(),
            current_stage_tree: None,
            last_commit: None,
            cumul_set_exec_time_ns: 0,
            set_exec_times: 0,
        };
        assert(staged_map(r.staged@) =~= Map::empty());
        r
    }

    /// The working tree; with none yet, the empty tree, which is staged.
    fn get_staged_root(&mut self) -> (r: Tree)
        requires
            old(self).wf(),
        ensures
            final(self).wf(),
            (final(self)@, tree_items(r)) == staged_root_spec(old(self)@),
    {
        match &self.current_stage_tree {
            None => {
                let tree = tree_new();
                let h = hash_tree(&tree);
                self.put_to_staging_area(&h, Entry::Tree(tree_clone(&tree)));
                tree
            },
            Some(tree) => tree_clone(tree),
        }
    }

    /// See `rewrite_spec`.
    fn compute_new_root_with_change(&mut self, root: &Tree, key: &[String], new_node: Option<Node>) -> (r:
        Result<EntryHash, MerkleError>)
        requires
            old(self).wf(),
        ensures
            final(self).wf(),
            (final(self)@, res_view(r)) == rewrite_spec(
                old(self)@,
                tree_items(*root),
                key_view(key@),
                node_opt_view(new_node),
            ),
        decreases key@.len(),
    {
        if key.len() == 0 {
            return Ok(
                match new_node {
                    Some(n) => n.entry_hash,
                    None => hash_tree(root),
                },
            );
        }
        let ghost kv = key_view(key@);
        let last_i = key.len() - 1;
        let path = &key[0..last_i];
        assert(key_view(path@) =~= kv.drop_last());
        assert(kv.last() == key@[last_i as int]@);
        let mut tree = self.find_tree(root, path)?;
        match new_node {
            None => tree_remove(&mut tree, &key[last_i]),
            Some(n) => tree_insert(&mut tree, key[last_i].clone(), n),
        }
        if tree_len(&tree) == 0 {
            self.compute_new_root_with_change(root, path, None)
        } else {
            let h = hash_tree(&tree);
            self.put_to_staging_area(&h, Entry::Tree(tree));
            self.compute_new_root_with_change(
                root,
                path,
                Some(Node { node_kind: NodeKind::NonLeaf, entry_hash: h }),
            )
        }
    }

    /// Makes the tree under `new_root` the working tree.
    fn install_root(&mut self, new_root: Result<EntryHash, MerkleError>) -> (r: Result<(), MerkleError>)
        requires
            old(self).wf(),
        ensures
            final(self).wf(),
            (final(self)@, unit_view(r)) == install_root(old(self)@, res_view(new_root)),
    {
        let h = new_root?;
        let tree = self.get_tree(&h)?;
        self.current_stage_tree = Some(tree);
        Ok(())
    }

    /// Puts `value` under `key` in the working tree.
    pub fn set(&mut self, key: &ContextKey, value: &ContextValue) -> (r: Result<(), MerkleError>)
        requires
            old(self).wf(),
        ensures
            final(self).wf(),
            (final(self)@, unit_view(r)) == set_spec(old(self)@, key_view(key@), value@),
    {
        let root = self.get_staged_root();
        let blob_hash = hash_blob(value);
        let mut blob: Vec<u8> = Vec::new();
        push_bytes(&mut blob, value.as_slice());
        self.put_to_staging_area(&blob_hash, Entry::Blob(blob));
        let new_node = Node { entry_hash: blob_hash, node_kind: NodeKind::Leaf };
        let instant = instant_now();
        let ghost before = self@;
        let new_root = self.compute_new_root_with_change(&root, key.as_slice(), Some(new_node));
        proof {
            lemma_rewrite_keeps_counter(before, tree_items(root), key_view(key@), Some(new_node@));
        }
        let elapsed = nanos_since(&instant);
        if self.set_exec_times >= SET_TIMES_TO_DISCARD {
            self.cumul_set_exec_time_ns = self.cumul_set_exec_time_ns.saturating_add(elapsed);
        }
        if self.set_exec_times < u64::MAX {
            self.set_exec_times = self.set_exec_times + 1;
        }
        self.install_root(new_root)
    }

    /// Removes whatever is under `key` from the working tree.
    pub fn delete(&mut self, key: &ContextKey) -> (r: Result<(), MerkleError>)
        requires
            old(self).wf(),
        ensures
            final(self).wf(),
            (final(self)@, unit_view(r)) == delete_spec(old(self)@, key_view(key@)),
    {
        let root = self.get_staged_root();
        if key.len() == 0 {
            return self.install_root(Ok(hash_tree(&root)));
        }
        let new_root = self.compute_new_root_with_change(&root, key.as_slice(), None);
        self.install_root(new_root)
    }

    /// Puts a reference to the tree under `from_key` at `to_key`; nothing is
    /// copied but the reference.
    pub fn copy(&mut self, from_key: &ContextKey, to_key: &ContextKey) -> (r: Result<(), MerkleError>)
        requires
            old(self).wf(),
        ensures
            final(self).wf(),
            (final(self)@, unit_view(r)) == copy_spec(old(self)@, key_view(from_key@), key_view(to_key@)),
    {
        let root = self.get_staged_root();
        let source_tree = self.find_tree(&root, from_key.as_slice())?;
        let source_tree_hash = hash_tree(&source_tree);
        let new_root = self.compute_new_root_with_change(
            &root,
            to_key.as_slice(),
            Some(Node { node_kind: NodeKind::NonLeaf, entry_hash: source_tree_hash }),
        );
        self.install_root(new_root)
    }

    /// Drops the staging area and works on the commit `context_hash`.
    pub fn checkout(&mut self, context_hash: &EntryHash) -> (r: Result<(), MerkleError>)
        requires
            old(self).wf(),
        ensures
            final(self).wf(),
            (final(self)@, unit_view(r)) == checkout_spec(old(self)@, context_hash@),
    {
        let commit = self.get_commit(context_hash)?;
        if !hash_eq(&hash_commit(&commit), context_hash) {
            return Err(MerkleError::EntryNotFound { hash: *context_hash });
        }
        let tree = self.get_tree(&commit.root_hash)?;
        self.current_stage_tree = Some(tree);
        self.last_commit = Some(commit);
        self.staged = Vec::new();
        assert(staged_map(self.staged@) =~= Map::empty());
        Ok(())
    }

    /// The value under `key` in the working tree.
    pub fn get(&mut self, key: &ContextKey) -> (r: Result<ContextValue, MerkleError>)
        requires
            old(self).wf(),
        ensures
            final(self).wf(),
            final(self)@ == staged_root_spec(old(self)@).0,
            res_view(r) == get_spec(
                staged_root_spec(old(self)@).0,
                tree_hash(staged_root_spec(old(self)@).1),
                key_view(key@),
            ),
    {
        let root = self.get_staged_root();
        let root_hash = hash_tree(&root);
        self.get_from_tree(&root_hash, key)
    }

    /// The value under `key` in the commit `commit_hash`.
    pub fn get_history(&self, commit_hash: &EntryHash, key: &ContextKey) -> (r: Result<
        ContextValue,
        MerkleError,
    >)
        requires
            self.wf(),
        ensures
            res_view(r) == get_history_spec(self@, commit_hash@, key_view(key@)),
    {
        let commit = self.get_commit(commit_hash)?;
        self.get_from_tree(&commit.root_hash, key)
    }

    /// Writes every staged entry reachable from `start` to the backing store.
    fn persist_staged_entry_to_db(&mut self, start: &EntryHash)
        requires
            old(self).wf(),
        ensures
            final(self).wf(),
            final(self)@ == (MerkleStorageView { db: flush_spec(old(self)@, start@), ..old(self)@ }),
    {
        let ghost s0 = self@;
        let ghost st = s0.staged;
        let ghost db0 = s0.db;
        let mut done: Vec<bool> = Vec::new();
        let mut k: usize = 0;
        while k < self.staged.len()
            invariant
                k <= self.staged@.len(),
                done@.len() == k,
                forall|j: int| 0 <= j < k ==> !(#[trigger] done@[j]),
            decreases self.staged@.len() - k,
        {
            done.push(false);
            k = k + 1;
        }
        let mut stack: Vec<EntryHash> = Vec::new();
        stack.push(*start);
        let ghost mut f: Set<Seq<u8>> = Set::empty();
        assert(hashes(stack@)[0] == start@);
        assert(hashes(stack@).contains(start@));
        assert forall|h: Seq<u8>| #[trigger] hashes(stack@).contains(h) && st.contains_key(h) implies staged_reach(st, start@, h) by {
            assert(hashes(stack@).len() == 1);
            assert(h == start@);
            assert(is_staged_path(st, start@, h, seq![h]));
        }
        assert(self@.db =~= Map::new(
            |h: Seq<u8>| db0.contains_key(h) || f.contains(h),
            |h: Seq<u8>| if f.contains(h) {
                entry_bytes(st[h])
            } else {
                db0[h]
            },
        ));
        while stack.len() > 0
            invariant
                self.wf(),
                self@ == (MerkleStorageView { db: self@.db, ..s0 }),
                st == s0.staged,
                db0 == s0.db,
                done@.len() == self.staged@.len(),
                forall|j: int| 0 <= j < done@.len() ==> (#[trigger] done@[j] <==> f.contains(self.staged@[j].0@)),
                forall|h: Seq<u8>| #[trigger] f.contains(h) ==> st.contains_key(h) && staged_reach(st, start@, h),
                forall|h: Seq<u8>|
                    #[trigger] hashes(stack@).contains(h) && st.contains_key(h) ==> staged_reach(st, start@, h),
                forall|p: Seq<u8>, c: Seq<u8>|
                    #[trigger] f.contains(p) && #[trigger] children(st[p]).contains(c) && st.contains_key(c)
                        ==> f.contains(c) || hashes(stack@).contains(c),
                st.contains_key(start@) ==> f.contains(start@) || hashes(stack@).contains(start@),
                self@.db == Map::new(
                    |h: Seq<u8>| db0.contains_key(h) || f.contains(h),
                    |h: Seq<u8>| if f.contains(h) {
                        entry_bytes(st[h])
                    } else {
                        db0[h]
                    },
                ),
            decreases count_false(done@), stack@.len(),
        {
            let ghost stack0 = stack@;
            let h = stack.pop().unwrap();
            assert(stack0 =~= stack@.push(h));
            assert(hashes(stack0) =~= hashes(stack@).push(h@));
            assert forall|x: Seq<u8>| #[trigger] hashes(stack0).contains(x) && x != h@ implies hashes(stack@).contains(x) by {
                let j = choose|j: int| 0 <= j < hashes(stack0).len() && hashes(stack0)[j] == x;
                assert(hashes(stack@)[j] == x);
            }
            assert(hashes(stack0).contains(h@)) by {
                assert(hashes(stack0)[stack@.len() as int] == h@);
            }
            assert forall|x: Seq<u8>| #[trigger] hashes(stack@).contains(x) implies hashes(stack0).contains(x) by {
                let j = choose|j: int| 0 <= j < hashes(stack@).len() && hashes(stack@)[j] == x;
                assert(hashes(stack0)[j] == x);
            }
            match self.find_staged(&h) {
                None => {
                    proof {
                        lemma_staged_get_none(self.staged@, h@);
                    }
                },
                Some(i) => {
                    proof {
                        assert forall|j: int| 0 <= j < i implies (#[trigger] self.staged@[j]).0@
                            != self.staged@[i as int].0@ by {}
                        lemma_staged_get_index(self.staged@, i as int);
                    }
                    if !done[i] {
                        let ghost e = self.staged@[i as int].1@;
                        assert(st.contains_key(h@) && st[h@] == e);
                        assert(staged_reach(st, start@, h@));
                        let ghost old_count = count_false(done@);
                        proof {
                            lemma_count_false_set(done@, i as int);
                        }
                        done.set(i, true);
                        let bytes = encode_entry(&self.staged[i].1);
                        db_insert(&mut self.db, h, bytes);
                        proof {
                            f = f.insert(h@);
                            assert forall|j: int| 0 <= j < done@.len() implies (#[trigger] done@[j]
                                <==> f.contains(self.staged@[j].0@)) by {
                                if j != i {
                                    assert(self.staged@[j].0@ != h@ || j == i);
                                }
                            }
                            assert(self@.db =~= Map::new(
                                |x: Seq<u8>| db0.contains_key(x) || f.contains(x),
                                |x: Seq<u8>| if f.contains(x) {
                                    entry_bytes(st[x])
                                } else {
                                    db0[x]
                                },
                            ));
                        }
                        let ghost stack1 = stack@;
                        self.push_children(&mut stack, i);
                        proof {
                            assert forall|x: Seq<u8>| #[trigger] hashes(stack1).contains(x) implies hashes(stack@).contains(x) by {
                                let j = choose|j: int| 0 <= j < hashes(stack1).len() && hashes(stack1)[j] == x;
                                assert(hashes(stack@)[j] == x);
                            }
                            assert forall|c: Seq<u8>| #[trigger] children(e).contains(c) implies hashes(stack@).contains(c) by {
                                let j = choose|j: int| 0 <= j < children(e).len() && children(e)[j] == c;
                                assert(hashes(stack@)[stack1.len() + j] == c);
                            }
                            assert forall|x: Seq<u8>| #[trigger] hashes(stack@).contains(x) && st.contains_key(x) implies staged_reach(st, start@, x) by {
                                if !hashes(stack1).contains(x) {
                                    let j = choose|j: int| 0 <= j < hashes(stack@).len() && hashes(stack@)[j] == x;
                                    if j < stack1.len() {
                                        assert(hashes(stack1)[j] == x);
                                    }
                                    assert(children(e)[j - stack1.len()] == x);
                                    assert(children(e).contains(x));
                                    lemma_path_extend(st, start@, h@, x);
                                } else {
                                    assert(hashes(stack0).contains(x));
                                }
                            }
                        }
                    }
                },
            }
        }
        proof {
            assert forall|h: Seq<u8>| staged_reach(st, start@, h) implies f.contains(h) by {
                let path = choose|path: Seq<Seq<u8>>| is_staged_path(st, start@, h, path);
                lemma_closed_holds_reach(st, start@, f, h, path);
            }
            assert(self@.db =~= flush_spec(s0, start@));
        }
    }

    /// Pushes the hashes that the staged entry at index `i` refers to.
    fn push_children(&self, stack: &mut Vec<EntryHash>, i: usize)
        requires
            i < self.staged@.len(),
        ensures
            hashes(final(stack)@) == hashes(old(stack)@) + children(self.staged@[i as int].1@),
    {
        push_entry_children(stack, &self.staged[i].1);
    }

    /// Commits the working tree; see `commit_spec`.
    pub fn commit(&mut self, time: u64, author: String, message: String) -> (r: Result<
        EntryHash,
        MerkleError,
    >)
        requires
            old(self).wf(),
        ensures
            final(self).wf(),
            (final(self)@, res_view(r)) == commit_spec(old(self)@, time, author@, message@),
    {
        let staged_root = self.get_staged_root();
        let staged_root_hash = hash_tree(&staged_root);
        let parent_commit_hash = match &self.last_commit {
            Some(c) => Some(hash_commit(c)),
            None => None,
        };
        let new_commit = Commit { root_hash: staged_root_hash, parent_commit_hash, time, author, message };
        let new_hash = hash_commit(&new_commit);
        self.put_to_staging_area(&new_hash, Entry::Commit(new_commit.duplicate()));
        self.get_entry(&staged_root_hash)?;
        self.persist_staged_entry_to_db(&new_hash);
        self.staged = Vec::new();
        self.last_commit = Some(new_commit);
        history_insert(&mut self.commits, new_hash);
        assert(staged_map(self.staged@) =~= Map::empty());
        Ok(new_hash)
    }

    /// Appends every value below `entry`, which sits at `path`; see
    /// `collect_entry`.
    fn get_key_values_from_tree_recursively(
        &self,
        path: &Vec<String>,
        entry: &Entry,
        entries: &mut Vec<(ContextKey, ContextValue)>,
        fuel: usize,
    ) -> (r: Result<(), MerkleError>)
        requires
            self.wf(),
        ensures
            match collect_entry(self@, key_view(path@), entry@, fuel as nat) {
                Ok(kv) => r is Ok && kvs_view(final(entries)@) == kvs_view(old(entries)@) + kv,
                Err(x) => r matches Err(e) && e@ == x,
            },
        decreases fuel,
    {
        match entry {
            Entry::Blob(blob) => {
                let mut value: Vec<u8> = Vec::new();
                push_bytes(&mut value, blob.as_slice());
                let ghost before = entries@;
                entries.push((clone_key(path.as_slice()), value));
                assert(kvs_view(entries@) =~= kvs_view(before) + seq![(key_view(path@), blob@)]);
                Ok(())
            },
            Entry::Tree(tree) => {
                if fuel == 0 {
                    return Err(unexpected_error("tree", "cycle"));
                }
                let items = tree_entries(tree);
                let ghost t = tree_items(*tree);
                let ghost start = kvs_view(entries@);
                let mut j: usize = 0;
                while j < items.len()
                    invariant
                        self.wf(),
                        fuel > 0,
                        t == tree_items(*tree),
                        entry@ == EntryView::Tree(t),
                        j <= items@.len(),
                        items@.len() == t.len(),
                        forall|m: int|
                            0 <= m < items@.len() ==> (#[trigger] items@[m]).0@ == t[m].0 && items@[m].1@
                                == t[m].1,
                        collect_items(self@, key_view(path@), t, j as nat, (fuel - 1) as nat) matches Ok(acc)
                            && kvs_view(entries@) == start + acc,
                    decreases items@.len() - j,
                {
                    let (key, child_node) = &items[j];
                    assert(items@[j as int].1@ == t[j as int].1 && items@[j as int].0@ == t[j as int].0);
                    let ghost acc = collect_items(self@, key_view(path@), t, j as nat, (fuel - 1) as nat)->Ok_0;
                    match self.get_entry(&child_node.entry_hash) {
                        Err(e) => {
                            proof {
                                assert(collect_items(self@, key_view(path@), t, (j + 1) as nat, (fuel - 1) as nat)
                                    == Err::<KeyValues, MerkleErrorView>(e@));
                                lemma_collect_items_err(self@, key_view(path@), t, (j + 1) as nat, t.len(), (fuel - 1) as nat);
                            }
                            return Err(e);
                        },
                        Ok(child) => {
                            let mut full = clone_key(path.as_slice());
                            full.push(key.clone());
                            assert(key_view(full@) =~= key_view(path@).push(t[j as int].0));
                            let ghost mid = kvs_view(entries@);
                            let res = self.get_key_values_from_tree_recursively(&full, &child, entries, fuel - 1);
                            if res.is_err() {
                                proof {
                                    let inner = collect_entry(self@, key_view(full@), child@, (fuel - 1) as nat);
                                    assert(entry_at(self@, t[j as int].1.entry_hash) == Ok::<EntryView, MerkleErrorView>(child@));
                                    assert(collect_items(self@, key_view(path@), t, (j + 1) as nat, (fuel - 1) as nat) == inner);
                                    lemma_collect_items_err(self@, key_view(path@), t, (j + 1) as nat, t.len(), (fuel - 1) as nat);
                                    assert(collect_entry(self@, key_view(path@), entry@, fuel as nat) == inner);
                                }
                                return res;
                            }
                            assert(kvs_view(entries@) =~= start + (acc + (kvs_view(entries@).subrange(mid.len() as int, kvs_view(entries@).len() as int))));
                        },
                    }
                    j = j + 1;
                }
                Ok(())
            },
            Entry::Commit(commit) => {
                if fuel == 0 {
                    return Err(unexpected_error("tree", "cycle"));
                }
                let root = self.get_entry(&commit.root_hash)?;
                self.get_key_values_from_tree_recursively(path, &root, entries, fuel - 1)
            },
        }
    }

    /// Every value below `prefix` in the tree `root_tree`; see `prefix_spec`.
    fn get_key_values_below(&self, root_tree: &Tree, prefix: &ContextKey) -> (r: Result<
        Option<Vec<(ContextKey, ContextValue)>>,
        MerkleError,
    >)
        requires
            self.wf(),
        ensures
            kvs_res_view(r) == prefix_spec(self@, tree_items(*root_tree), key_view(prefix@)),
    {
        let prefixed_tree = self.find_tree(root_tree, prefix.as_slice())?;
        let items = tree_entries(&prefixed_tree);
        let ghost t = tree_items(prefixed_tree);
        let mut keyvalues: Vec<(ContextKey, ContextValue)> = Vec::new();
        assert(kvs_view(keyvalues@) =~= Seq::empty());
        let mut j: usize = 0;
        while j < items.len()
            invariant
                self.wf(),
                j <= items@.len(),
                items@.len() == t.len(),
                find_tree_spec(self@, tree_items(*root_tree), key_view(prefix@)) == Ok::<Items, MerkleErrorView>(t),
                forall|m: int|
                    0 <= m < items@.len() ==> (#[trigger] items@[m]).0@ == t[m].0 && items@[m].1@ == t[m].1,
                prefix_items(self@, key_view(prefix@), t, j as nat) == Ok::<KeyValues, MerkleErrorView>(
                    kvs_view(keyvalues@),
                ),
            decreases items@.len() - j,
        {
            let (key, child_node) = &items[j];
            assert(items@[j as int].1@ == t[j as int].1 && items@[j as int].0@ == t[j as int].0);
            let entry = match self.get_entry(&child_node.entry_hash) {
                Ok(e) => e,
                Err(e) => {
                    proof {
                        assert(prefix_items(self@, key_view(prefix@), t, (j + 1) as nat) == Err::<KeyValues, MerkleErrorView>(e@));
                        lemma_prefix_items_err(self@, key_view(prefix@), t, (j + 1) as nat, t.len());
                        assert(prefix_spec(self@, tree_items(*root_tree), key_view(prefix@)) == Err::<Option<KeyValues>, MerkleErrorView>(e@));
                    }
                    return Err(e);
                },
            };
            let mut full = clone_key(prefix.as_slice());
            full.push(key.clone());
            assert(key_view(full@) =~= key_view(prefix@).push(t[j as int].0));
            let res = self.get_key_values_from_tree_recursively(&full, &entry, &mut keyvalues, MAX_DEPTH);
            if let Err(e) = res {
                proof {
                    let inner = collect_entry(self@, key_view(full@), entry@, MAX_DEPTH as nat);
                    assert(prefix_items(self@, key_view(prefix@), t, (j + 1) as nat) == inner);
                    lemma_prefix_items_err(self@, key_view(prefix@), t, (j + 1) as nat, t.len());
                    assert(inner == Err::<KeyValues, MerkleErrorView>(e@));
                    assert(prefix_spec(self@, tree_items(*root_tree), key_view(prefix@)) == Err::<Option<KeyValues>, MerkleErrorView>(e@));
                }
                return Err(e);
            }
            j = j + 1;
        }
        if keyvalues.len() == 0 {
            Ok(None)
        } else {
            Ok(Some(keyvalues))
        }
    }

    /// Every value below `prefix` in the working tree, with its full key.
    pub fn get_by_prefix(&mut self, prefix: &ContextKey) -> (r: Result<
        Option<Vec<(ContextKey, ContextValue)>>,
        MerkleError,
    >)
        requires
            old(self).wf(),
        ensures
            final(self).wf(),
            final(self)@ == staged_root_spec(old(self)@).0,
            kvs_res_view(r) == prefix_spec(
                staged_root_spec(old(self)@).0,
                staged_root_spec(old(self)@).1,
                key_view(prefix@),
            ),
    {
        let root = self.get_staged_root();
        self.get_key_values_below(&root, prefix)
    }

    /// Every value below `prefix` in the tree of the commit `context_hash`.
    pub fn get_key_values_by_prefix(&self, context_hash: &EntryHash, prefix: &ContextKey) -> (r: Result<
        Option<Vec<(ContextKey, ContextValue)>>,
        MerkleError,
    >)
        requires
            self.wf(),
        ensures
            kvs_res_view(r) == history_prefix_spec(self@, context_hash@, key_view(prefix@)),
    {
        let commit = self.get_commit(context_hash)?;
        let root_tree = self.get_tree(&commit.root_hash)?;
        self.get_key_values_below(&root_tree, prefix)
    }

    /// The hashes from which pruning keeps entries; see `is_live_root`.
    fn live_roots(&self) -> (r: Vec<EntryHash>)
        requires
            self.wf(),
        ensures
            forall|c: Seq<u8>| #[trigger] hashes(r@).contains(c) <==> is_live_root(self@, c),
    {
        let mut roots: Vec<EntryHash> = Vec::new();
        match &self.last_commit {
            Some(c) => roots.push(hash_commit(c)),
            None => {},
        }
        let ghost first = hashes(roots@);
        assert forall|c: Seq<u8>| #[trigger] first.contains(c) <==> (self@.last_commit matches Some(lc) && c == commit_hash(lc)) by {
            if first.contains(c) {
                let k = choose|k: int| 0 <= k < first.len() && first[k] == c;
            }
            if self@.last_commit matches Some(lc) && c == commit_hash(lc) {
                assert(first[0] == c);
            }
        }
        match &self.current_stage_tree {
            Some(t) => roots.push(hash_tree(t)),
            None => {},
        }
        let ghost fixed = hashes(roots@);
        assert forall|c: Seq<u8>| #[trigger] fixed.contains(c) <==> ((self@.last_commit matches Some(lc) && c == commit_hash(lc))
            || (self@.current_stage_tree matches Some(t) && c == tree_hash(t))) by {
            if fixed.contains(c) {
                let k = choose|k: int| 0 <= k < fixed.len() && fixed[k] == c;
                if k < first.len() {
                    assert(first[k] == c);
                    assert(first.contains(c));
                }
            }
            if first.contains(c) {
                let k = choose|k: int| 0 <= k < first.len() && first[k] == c;
                assert(fixed[k] == c);
            }
            if self@.current_stage_tree matches Some(t) && c == tree_hash(t) {
                assert(fixed[first.len() as int] == c);
            }
            if self@.last_commit matches Some(lc) && c == commit_hash(lc) {
                assert(first.contains(c));
            }
        }
        let mut i: usize = 0;
        while i < self.staged.len()
            invariant
                self.wf(),
                i <= self.staged@.len(),
                forall|c: Seq<u8>| #[trigger] hashes(roots@).contains(c) <==> (fixed.contains(c) || exists|j: int|
                    0 <= j < i && children(#[trigger] self.staged@[j].1@).contains(c)),
            decreases self.staged@.len() - i,
        {
            let ghost before = hashes(roots@);
            self.push_children(&mut roots, i);
            proof {
                let ch = children(self.staged@[i as int].1@);
                assert forall|c: Seq<u8>| #[trigger] hashes(roots@).contains(c) <==> (fixed.contains(c) || exists|j: int|
                    0 <= j < i + 1 && children(#[trigger] self.staged@[j].1@).contains(c)) by {
                    if hashes(roots@).contains(c) {
                        let k = choose|k: int| 0 <= k < hashes(roots@).len() && hashes(roots@)[k] == c;
                        if k < before.len() {
                            assert(before[k] == c);
                        } else {
                            assert(ch[k - before.len()] == c);
                            assert(ch.contains(c));
                        }
                    }
                    if fixed.contains(c) || before.contains(c) {
                        if before.contains(c) {
                            let k = choose|k: int| 0 <= k < before.len() && before[k] == c;
                            assert(hashes(roots@)[k] == c);
                        }
                    }
                    if exists|j: int| 0 <= j < i + 1 && children(#[trigger] self.staged@[j].1@).contains(c) {
                        let j = choose|j: int| 0 <= j < i + 1 && children(#[trigger] self.staged@[j].1@).contains(c);
                        if j == i {
                            let k = choose|k: int| 0 <= k < ch.len() && ch[k] == c;
                            assert(hashes(roots@)[before.len() + k] == c);
                        } else {
                            assert(before.contains(c));
                            let k = choose|k: int| 0 <= k < before.len() && before[k] == c;
                            assert(hashes(roots@)[k] == c);
                        }
                    }
                }
            }
            i = i + 1;
        }
        proof {
            assert forall|c: Seq<u8>| #[trigger] hashes(roots@).contains(c) <==> is_live_root(self@, c) by {
                let a = exists|j: int| 0 <= j < self.staged@.len() && children(#[trigger] self.staged@[j].1@).contains(c);
                let b = exists|h: Seq<u8>| #[trigger] self@.staged.contains_key(h) && children(self@.staged[h]).contains(c);
                if a {
                    let j = choose|j: int| 0 <= j < self.staged@.len() && children(#[trigger] self.staged@[j].1@).contains(c);
                    let h = self.staged@[j].0@;
                    assert forall|m: int| 0 <= m < j implies (#[trigger] self.staged@[m]).0@ != self.staged@[j].0@ by {}
                    lemma_staged_get_index(self.staged@, j);
                    assert(self@.staged.contains_key(h));
                }
                if b {
                    let h = choose|h: Seq<u8>| #[trigger] self@.staged.contains_key(h) && children(self@.staged[h]).contains(c);
                    let j = choose_staged_index(self.staged@, h);
                    assert(children(self.staged@[j].1@).contains(c));
                }
            }
        }
        roots
    }

    /// Removes every stored entry that the last commit, the working tree and
    /// the staging area do not reach, and keeps only the last commit in the
    /// history; see `prune_spec`.
    pub fn clear_previous_commits(&mut self) -> (r: Result<(), MerkleError>)
        requires
            old(self).wf(),
        ensures
            final(self).wf(),
            (final(self)@, unit_view(r)) == prune_spec(old(self)@),
    {
        let ghost s0 = self@;
        let keys = db_keys(&self.db);
        let mut marked: Vec<bool> = Vec::new();
        let mut k: usize = 0;
        while k < keys.len()
            invariant
                k <= keys@.len(),
                marked@.len() == k,
                forall|j: int| 0 <= j < k ==> !(#[trigger] marked@[j]),
            decreases keys@.len() - k,
        {
            marked.push(false);
            k = k + 1;
        }
        let mut stack = self.live_roots();
        let ghost mut f: Set<Seq<u8>> = Set::empty();
        proof {
            assert forall|c: Seq<u8>| #[trigger] hashes(stack@).contains(c) && s0.db.contains_key(c) implies is_live(s0, c) by {
                assert(is_live_path(s0, c, seq![c]));
            }
        }
        while stack.len() > 0
            invariant
                self.wf(),
                self@ == s0,
                marked@.len() == keys@.len(),
                forall|i: int| 0 <= i < keys@.len() ==> s0.db.contains_key(#[trigger] keys@[i]@),
                forall|k: Seq<u8>|
                    #[trigger] s0.db.contains_key(k) ==> exists|i: int| 0 <= i < keys@.len() && (#[trigger] keys@[i])@ == k,
                forall|i: int, j: int| 0 <= i < j < keys@.len() ==> (#[trigger] keys@[i])@ != (#[trigger] keys@[j])@,
                forall|j: int| 0 <= j < marked@.len() ==> (#[trigger] marked@[j] <==> f.contains(keys@[j]@)),
                forall|h: Seq<u8>| #[trigger] f.contains(h) ==> s0.db.contains_key(h) && is_live(s0, h) && parse_entry(s0.db[h]) is Some,
                forall|c: Seq<u8>| #[trigger] hashes(stack@).contains(c) && s0.db.contains_key(c) ==> is_live(s0, c),
                forall|p: Seq<u8>, c: Seq<u8>|
                    #[trigger] f.contains(p) && #[trigger] stored_children(s0.db, p).contains(c) && s0.db.contains_key(c)
                        ==> f.contains(c) || hashes(stack@).contains(c),
                forall|c: Seq<u8>| #[trigger] is_live_root(s0, c) && s0.db.contains_key(c) ==> f.contains(c) || hashes(stack@).contains(c),
            decreases count_false(marked@), stack@.len(),
        {
            let ghost stack0 = stack@;
            let h = stack.pop().unwrap();
            assert(stack0 =~= stack@.push(h));
            assert(hashes(stack0) =~= hashes(stack@).push(h@));
            assert(hashes(stack0).contains(h@)) by {
                assert(hashes(stack0)[stack@.len() as int] == h@);
            }
            assert forall|x: Seq<u8>| #[trigger] hashes(stack0).contains(x) && x != h@ implies hashes(stack@).contains(x) by {
                let j = choose|j: int| 0 <= j < hashes(stack0).len() && hashes(stack0)[j] == x;
                assert(hashes(stack@)[j] == x);
            }
            assert forall|x: Seq<u8>| #[trigger] hashes(stack@).contains(x) implies hashes(stack0).contains(x) by {
                let j = choose|j: int| 0 <= j < hashes(stack@).len() && hashes(stack@)[j] == x;
                assert(hashes(stack0)[j] == x);
            }
            let mut found: Option<usize> = None;
            let mut j: usize = 0;
            while j < keys.len()
                invariant
                    j <= keys@.len(),
                    found matches Some(x) ==> x < keys@.len() && keys@[x as int]@ == h@,
                    found is None ==> forall|m: int| 0 <= m < j ==> (#[trigger] keys@[m])@ != h@,
                decreases keys@.len() - j,
            {
                if found.is_none() && hash_eq(&keys[j], &h) {
                    found = Some(j);
                }
                j = j + 1;
            }
            match found {
                None => {
                    assert(!s0.db.contains_key(h@));
                },
                Some(i) => {
                    if !marked[i] {
                        assert(is_live(s0, h@));
                        let bytes = match db_get(&self.db, &h) {
                            Some(b) => b,
                            None => {
                                return Err(MerkleError::EntryNotFound { hash: h });
                            },
                        };
                        let entry = match decode_entry(bytes.as_slice()) {
                            Ok(e) => e,
                            Err(error) => {
                                proof {
                                    assert(is_live(s0, h@) && parse_entry(s0.db[h@]) is None);
                                }
                                return Err(MerkleError::SerializationError { error });
                            },
                        };
                        proof {
                            lemma_count_false_set(marked@, i as int);
                        }
                        marked.set(i, true);
                        proof {
                            f = f.insert(h@);
                            assert forall|m: int| 0 <= m < marked@.len() implies (#[trigger] marked@[m]
                                <==> f.contains(keys@[m]@)) by {
                                if m != i {
                                    assert(keys@[m]@ != keys@[i as int]@);
                                }
                            }
                        }
                        let ghost stack1 = stack@;
                        let ghost e = entry@;
                        assert(stored_children(s0.db, h@) == children(e));
                        push_entry_children(&mut stack, &entry);
                        proof {
                            assert forall|x: Seq<u8>| #[trigger] hashes(stack1).contains(x) implies hashes(stack@).contains(x) by {
                                let q = choose|q: int| 0 <= q < hashes(stack1).len() && hashes(stack1)[q] == x;
                                assert(hashes(stack@)[q] == x);
                            }
                            assert forall|c: Seq<u8>| #[trigger] children(e).contains(c) implies hashes(stack@).contains(c) by {
                                let q = choose|q: int| 0 <= q < children(e).len() && children(e)[q] == c;
                                assert(hashes(stack@)[stack1.len() + q] == c);
                            }
                            assert forall|x: Seq<u8>| #[trigger] hashes(stack@).contains(x) && s0.db.contains_key(x) implies is_live(s0, x) by {
                                if !hashes(stack1).contains(x) {
                                    let q = choose|q: int| 0 <= q < hashes(stack@).len() && hashes(stack@)[q] == x;
                                    if q < stack1.len() {
                                        assert(hashes(stack1)[q] == x);
                                    }
                                    assert(children(e)[q - stack1.len()] == x);
                                    assert(children(e).contains(x));
                                    lemma_live_extend(s0, h@, x);
                                } else {
                                    assert(hashes(stack0).contains(x));
                                }
                            }
                        }
                    }
                },
            }
        }
        proof {
            assert forall|h: Seq<u8>| is_live(s0, h) implies f.contains(h) by {
                let path = choose|path: Seq<Seq<u8>>| is_live_path(s0, h, path);
                lemma_marked_holds_live(s0, f, h, path);
            }
            assert(!exists|h: Seq<u8>| #[trigger] is_live(s0, h) && parse_entry(s0.db[h]) is None);
        }
        let mut j: usize = 0;
        while j < keys.len()
            invariant
                self.wf(),
                self@ == (MerkleStorageView { db: self@.db, ..s0 }),
                j <= keys@.len(),
                marked@.len() == keys@.len(),
                forall|i: int| 0 <= i < keys@.len() ==> s0.db.contains_key(#[trigger] keys@[i]@),
                forall|i: int, m: int| 0 <= i < m < keys@.len() ==> (#[trigger] keys@[i])@ != (#[trigger] keys@[m])@,
                forall|m: int| 0 <= m < marked@.len() ==> (#[trigger] marked@[m] <==> f.contains(keys@[m]@)),
                self@.db == s0.db.restrict(Set::new(|h: Seq<u8>| f.contains(h) || !listed_before(keys@, j as int, h))),
            decreases keys@.len() - j,
        {
            if !marked[j] {
                db_remove(&mut self.db, &keys[j]);
            }
            proof {
                assert(self@.db =~= s0.db.restrict(Set::new(|h: Seq<u8>| f.contains(h) || !listed_before(keys@, j + 1, h)))) by {
                    assert forall|h: Seq<u8>| #[trigger] listed_before(keys@, j + 1, h) <==> (listed_before(keys@, j as int, h) || keys@[j as int]@ == h) by {
                        if listed_before(keys@, j + 1, h) {
                            let m = choose|m: int| 0 <= m < j + 1 && (#[trigger] keys@[m])@ == h;
                            if m < j {
                                assert(listed_before(keys@, j as int, h));
                            }
                        }
                        if keys@[j as int]@ == h {
                            assert(listed_before(keys@, j + 1, h));
                        }
                        if listed_before(keys@, j as int, h) {
                            let m = choose|m: int| 0 <= m < j && (#[trigger] keys@[m])@ == h;
                            assert(listed_before(keys@, j + 1, h));
                        }
                    }
                }
            }
            j = j + 1;
        }
        let mut commits = history_new();
        match &self.last_commit {
            Some(c) => history_insert(&mut commits, hash_commit(c)),
            None => {},
        }
        self.commits = commits;
        proof {
            assert(Set::new(|h: Seq<u8>| f.contains(h) || !listed_before(keys@, keys@.len() as int, h))
                =~= Set::new(|h: Seq<u8>| f.contains(h) || !s0.db.contains_key(h)));
            assert(s0.db.restrict(Set::new(|h: Seq<u8>| f.contains(h) || !s0.db.contains_key(h))) =~= s0.db.restrict(Set::new(|h: Seq<u8>| is_live(s0, h))));
        }
        Ok(())
    }

    /// The average time of the measured `set` calls, in nanoseconds; zero
    /// before any call past the warm-up.
    pub closed spec fn avg_set_time(&self) -> u64 {
        if self.set_exec_times > SET_TIMES_TO_DISCARD {
            self.cumul_set_exec_time_ns / (self.set_exec_times - SET_TIMES_TO_DISCARD) as u64
        } else {
            0
        }
    }

    /// The hash of the last commit made or checked out.
    pub fn get_last_commit_hash(&self) -> (r: Option<EntryHash>)
        ensures
            match self@.last_commit {
                Some(c) => r matches Some(h) && h@ == commit_hash(c),
                None => r is None,
            },
    {
        match &self.last_commit {
            Some(c) => Some(hash_commit(c)),
            None => None,
        }
    }

    /// Counts of the backing store, the staging area and the working tree,
    /// and the average time of `set`.
    pub fn get_merkle_stats(&self) -> (r: Result<MerkleStorageStats, MerkleError>)
        requires
            self.wf(),
        ensures
            r matches Ok(st) && st.db_stats.keys == self@.db.dom().len() && st.db_stats.db_size == 0
                && st.map_stats.staged_area_elems == self@.staged.dom().len()
                && st.map_stats.current_tree_elems == match self@.current_stage_tree {
                Some(t) => t.len(),
                None => 0,
            } && st.perf_stats.avg_set_exec_time_ns == self.avg_set_time()
                && (self@.set_calls <= SET_TIMES_TO_DISCARD ==> st.perf_stats.avg_set_exec_time_ns == 0),
    {
        let mut avg_set_exec_time_ns: u64 = 0;
        if self.set_exec_times > SET_TIMES_TO_DISCARD {
            avg_set_exec_time_ns = self.cumul_set_exec_time_ns / (self.set_exec_times
                - SET_TIMES_TO_DISCARD);
        }
        let current_tree_elems: u64 = match &self.current_stage_tree {
            Some(t) => tree_len(t) as u64,
            None => 0,
        };
        proof {
            lemma_staged_dom_len(self.staged@);
        }
        let map_stats = MerkleMapStats {
            staged_area_elems: self.staged.len() as u64,
            current_tree_elems,
        };
        let db_stats = DBStats { db_size: 0, keys: db_len(&self.db) };
        Ok(
            MerkleStorageStats {
                db_stats,
                map_stats,
                perf_stats: MerklePerfStats { avg_set_exec_time_ns },
            },
        )
    }

    /// The hash of the working tree; with none yet, of the empty tree, which
    /// is staged.
    pub fn get_staged_root_hash(&mut self) -> (r: EntryHash)
        requires
            old(self).wf(),
        ensures
            final(self).wf(),
            final(self)@ == staged_root_spec(old(self)@).0,
            r@ == tree_hash(staged_root_spec(old(self)@).1),
    {
        let root = self.get_staged_root();
        hash_tree(&root)
    }
}

} // verus!
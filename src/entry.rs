//! Entries: the unit of hashing and persistence.
use vstd::prelude::*;
use crate::hash::push_bytes;
use crate::tree::{EntryHash, NodeView, Tree, tree_clone, tree_items};

verus! {

/// A snapshot: one root tree, at most one parent commit, and metadata.
#[derive(Debug)]
pub struct Commit {
    pub parent_commit_hash: Option<EntryHash>,
    pub root_hash: EntryHash,
    pub time: u64,
    pub author: String,
    pub message: String,
}

/// What a commit holds, as plain values.
pub struct CommitView {
    pub parent_commit_hash: Option<Seq<u8>>,
    pub root_hash: Seq<u8>,
    pub time: u64,
    pub author: Seq<char>,
    pub message: Seq<char>,
}

impl View for Commit {
    type V = CommitView;

    open spec fn view(&self) -> CommitView {
        CommitView {
            parent_commit_hash: match self.parent_commit_hash {
                Some(p) => Some(p@),
                None => None,
            },
            root_hash: self.root_hash@,
            time: self.time,
            author: self.author@,
            message: self.message@,
        }
    }
}

impl Commit {
    pub fn duplicate(&self) -> (r: Commit)
        ensures
            r@ == self@,
    {
        Commit {
            parent_commit_hash: self.parent_commit_hash,
            root_hash: self.root_hash,
            time: self.time,
            author: self.author.clone(),
            message: self.message.clone(),
        }
    }
}

/// A stored entry: a tree, a value, or a commit.
pub enum Entry {
    Tree(Tree),
    Blob(Vec<u8>),
    Commit(Commit),
}

/// What an entry holds, as plain values.
pub enum EntryView {
    Tree(Seq<(Seq<char>, NodeView)>),
    Blob(Seq<u8>),
    Commit(CommitView),
}

impl View for Entry {
    type V = EntryView;

    open spec fn view(&self) -> EntryView {
        match self {
            Entry::Tree(t) => EntryView::Tree(tree_items(*t)),
            Entry::Blob(b) => EntryView::Blob(b@),
            Entry::Commit(c) => EntryView::Commit(c@),
        }
    }
}

impl Entry {
    /// A copy of the entry.
    pub fn duplicate(&self) -> (r: Entry)
        ensures
            r@ == self@,
    {
        match self {
            Entry::Tree(t) => Entry::Tree(tree_clone(t)),
            Entry::Blob(b) => {
                let mut v: Vec<u8> = Vec::new();
                push_bytes(&mut v, b.as_slice());
                Entry::Blob(v)
            },
            Entry::Commit(c) => Entry::Commit(c.duplicate()),
        }
    }
}

} // verus!

use crate::builder::{apply_change, blob_record, replay, Blob, Change};
use crate::snapshot::EntryFile;
use vstd::prelude::*;

verus! {

/// A tree's files: each path with its blob, or `None` for a path that names
/// no file of a known language.
pub type Tree = Map<Seq<u8>, Option<Blob>>;

/// A tree classified from scratch: every path whose blob yields a record.
pub open spec fn classify_tree(t: Tree) -> Map<Seq<u8>, EntryFile> {
    Map::new(
        |p: Seq<u8>| t.contains_key(p) && blob_record(t[p]) is Some,
        |p: Seq<u8>| blob_record(t[p])->0,
    )
}

/// What a change does to a tree.
pub open spec fn tree_apply(t: Tree, c: Change) -> Tree {
    match c {
        Change::Added { path, blob } => t.insert(path@, blob),
        Change::Modified { path, blob } => t.insert(path@, blob),
        Change::Deleted { path } => t.remove(path@),
        Change::Renamed { from, to } => t.remove(from@).insert(to@, t[from@]),
        Change::Copied { from, to } => t.insert(to@, t[from@]),
        Change::Unsupported => t,
    }
}

/// The tree after a sequence of changes.
pub open spec fn tree_replay(t: Tree, cs: Seq<Change>) -> Tree
    decreases cs.len(),
{
    if cs.len() == 0 {
        t
    } else {
        tree_apply(tree_replay(t, cs.drop_last()), cs.last())
    }
}

/// A change that a tree diff emits against this tree: renames and copies
/// name a source path holding a file of a known language.
pub open spec fn diff_change(t: Tree, c: Change) -> bool {
    match c {
        Change::Renamed { from, to } => t.contains_key(from@) && blob_record(t[from@]) is Some,
        Change::Copied { from, to } => t.contains_key(from@) && blob_record(t[from@]) is Some,
        Change::Unsupported => false,
        _ => true,
    }
}

/// Every change of the sequence is a diff change at the point it applies.
pub open spec fn diff_changes(t: Tree, cs: Seq<Change>) -> bool
    decreases cs.len(),
{
    if cs.len() == 0 {
        true
    } else {
        diff_changes(t, cs.drop_last()) && diff_change(tree_replay(t, cs.drop_last()), cs.last())
    }
}

/// One change keeps the classified files in step with the tree.
pub proof fn lemma_apply_classified(t: Tree, c: Change)
    requires
        diff_change(t, c),
    ensures
        apply_change(classify_tree(t), c) == Some(classify_tree(tree_apply(t, c))),
{
    let m = classify_tree(t);
    let n = classify_tree(tree_apply(t, c));
    match c {
        Change::Added { path, blob } => {
            assert(apply_change(m, c)->0 =~= n);
        },
        Change::Modified { path, blob } => {
            assert(apply_change(m, c)->0 =~= n);
        },
        Change::Deleted { path } => {
            assert(apply_change(m, c)->0 =~= n);
        },
        Change::Renamed { from, to } => {
            assert(m.contains_key(from@));
            assert(apply_change(m, c)->0 =~= n);
        },
        Change::Copied { from, to } => {
            assert(m.contains_key(from@));
            assert(apply_change(m, c)->0 =~= n);
        },
        Change::Unsupported => {},
    }
}

/// Diff/replay equivalence: applying the changes that turn tree `t1` into
/// `t2` to the classified files of `t1` gives exactly the classified files
/// of `t2`, as classifying `t2` from scratch would.
pub proof fn lemma_replay_matches_scratch(t1: Tree, t2: Tree, cs: Seq<Change>)
    requires
        diff_changes(t1, cs),
        tree_replay(t1, cs) == t2,
    ensures
        replay(classify_tree(t1), cs) == Some(classify_tree(t2)),
    decreases cs.len(),
{
    if cs.len() == 0 {
    } else {
        let mid = tree_replay(t1, cs.drop_last());
        lemma_replay_matches_scratch(t1, mid, cs.drop_last());
        lemma_apply_classified(mid, cs.last());
    }
}

/// Chunk-boundary equivalence: a commit reached from an empty tree by a
/// full-tree diff (the first commit of a chunk) and reached from its
/// predecessor's tree by an incremental diff gets the same files.
pub proof fn lemma_chunk_boundary(prev: Tree, t: Tree, full: Seq<Change>, incremental: Seq<Change>)
    requires
        diff_changes(Map::empty(), full),
        tree_replay(Map::empty(), full) == t,
        diff_changes(prev, incremental),
        tree_replay(prev, incremental) == t,
    ensures
        replay(Map::empty(), full) == replay(classify_tree(prev), incremental),
        replay(Map::empty(), full) == Some(classify_tree(t)),
{
    assert(classify_tree(Map::<Seq<u8>, Option<Blob>>::empty()) =~= Map::empty());
    lemma_replay_matches_scratch(Map::empty(), t, full);
    lemma_replay_matches_scratch(prev, t, incremental);
}

} // verus!

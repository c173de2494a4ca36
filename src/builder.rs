use crate::clock::{chrono_accepts_timestamp, offset_representable, timestamp_representable};
use crate::codec::enc_snapshot;
use crate::error::ScanError;
use crate::lines::{count_lines, counted_stats};
use crate::snapshot::{
    has_value, lemma_has_value_iff, list_remove, list_upsert, snapshot_value, value_index,
    PathEntry, EntryFile, FileValue, Entry, SnapshotValue, Timestamp,
};
use vstd::prelude::*;

verus! {

/// A file's contents as read from the tree, with the language its path was
/// classified as.
#[derive(Clone, Debug)]
pub struct Blob {
    pub language: u32,
    pub content: Vec<u8>,
}

/// One file-level difference between two trees. An added or modified path
/// carries its blob where the path names a file of a known language, and
/// `None` otherwise.
#[derive(Clone, Debug)]
pub enum Change {
    Added { path: Vec<u8>, blob: Option<Blob> },
    Modified { path: Vec<u8>, blob: Option<Blob> },
    Deleted { path: Vec<u8> },
    Renamed { from: Vec<u8>, to: Vec<u8> },
    Copied { from: Vec<u8>, to: Vec<u8> },
    /// Any other kind of difference, which a tree diff does not produce.
    Unsupported,
}

/// The record that a written blob yields, if its language is counted.
pub open spec fn blob_record(blob: Option<Blob>) -> Option<EntryFile> {
    match blob {
        Some(b) => match counted_stats(b.language, b.content@) {
            Some(st) => Some(EntryFile { language: b.language, statistics: st }),
            None => None,
        },
        None => None,
    }
}

/// A path written with a record holds it; written with none, it is dropped.
pub open spec fn write_path(
    m: Map<Seq<u8>, EntryFile>,
    p: Seq<u8>,
    rec: Option<EntryFile>,
) -> Map<Seq<u8>, EntryFile> {
    match rec {
        Some(r) => m.insert(p, r),
        None => m.remove(p),
    }
}

/// The files after one change, or `None` where the change cannot apply.
pub open spec fn apply_change(m: Map<Seq<u8>, EntryFile>, c: Change) -> Option<
    Map<Seq<u8>, EntryFile>,
> {
    match c {
        Change::Added { path, blob } => Some(write_path(m, path@, blob_record(blob))),
        Change::Modified { path, blob } => Some(write_path(m, path@, blob_record(blob))),
        Change::Deleted { path } => Some(m.remove(path@)),
        Change::Renamed { from, to } => if m.contains_key(from@) {
            Some(m.remove(from@).insert(to@, m[from@]))
        } else {
            None
        },
        Change::Copied { from, to } => if m.contains_key(from@) {
            Some(m.insert(to@, m[from@]))
        } else {
            None
        },
        Change::Unsupported => None,
    }
}

/// The files after a sequence of changes applied in order.
pub open spec fn replay(m: Map<Seq<u8>, EntryFile>, cs: Seq<Change>) -> Option<
    Map<Seq<u8>, EntryFile>,
>
    decreases cs.len(),
{
    if cs.len() == 0 {
        Some(m)
    } else {
        match replay(m, cs.drop_last()) {
            Some(m2) => apply_change(m2, cs.last()),
            None => None,
        }
    }
}

/// What a change does to the stored list of files, or `None` where it
/// cannot apply.
pub open spec fn list_apply(fs: Seq<FileValue>, c: Change) -> Option<Seq<FileValue>> {
    match c {
        Change::Added { path, blob } => match blob_record(blob) {
            Some(r) => Some(list_upsert(fs, path@, r)),
            None => Some(list_remove(fs, path@)),
        },
        Change::Modified { path, blob } => match blob_record(blob) {
            Some(r) => Some(list_upsert(fs, path@, r)),
            None => Some(list_remove(fs, path@)),
        },
        Change::Deleted { path } => Some(list_remove(fs, path@)),
        Change::Renamed { from, to } => if has_value(fs, from@) {
            Some(list_upsert(list_remove(fs, from@), to@, fs[value_index(fs, from@)].1))
        } else {
            None
        },
        Change::Copied { from, to } => if has_value(fs, from@) {
            Some(list_upsert(fs, to@, fs[value_index(fs, from@)].1))
        } else {
            None
        },
        Change::Unsupported => None,
    }
}

/// The stored list of files after a sequence of changes.
pub open spec fn list_replay(fs: Seq<FileValue>, cs: Seq<Change>) -> Option<Seq<FileValue>>
    decreases cs.len(),
{
    if cs.len() == 0 {
        Some(fs)
    } else {
        match list_replay(fs, cs.drop_last()) {
            Some(f2) => list_apply(f2, cs.last()),
            None => None,
        }
    }
}

/// The stored files a chunk's previous step hands on.
pub open spec fn previous_list(previous: Option<Entry>) -> Seq<FileValue> {
    match previous {
        Some(s) => snapshot_value(s).1,
        None => Seq::empty(),
    }
}

/// A commit time that chrono can represent, with an offset under one day.
pub open spec fn valid_commit_time(seconds: i64, offset_minutes: i32) -> bool {
    -86_400 < offset_minutes * 60 < 86_400 && chrono_accepts_timestamp(seconds)
}

/// The files a chunk's previous step hands on; none before its first commit.
pub open spec fn previous_files(previous: Option<Entry>) -> Map<Seq<u8>, EntryFile> {
    match previous {
        Some(s) => s.view_files(),
        None => Map::empty(),
    }
}

/// Checks a commit time and states it as a timestamp.
pub fn commit_timestamp(seconds: i64, offset_minutes: i32) -> (r: Result<Timestamp, ScanError>)
    ensures
        match r {
            Ok(t) => valid_commit_time(seconds, offset_minutes) && t.seconds == seconds
                && t.offset_seconds == offset_minutes * 60,
            Err(e) => !valid_commit_time(seconds, offset_minutes) && e
                == ScanError::TimestampOutOfRange,
        },
{
    let offset: i64 = offset_minutes as i64 * 60;
    if offset < i32::MIN as i64 || offset > i32::MAX as i64 {
        return Err(ScanError::TimestampOutOfRange);
    }
    if !offset_representable(offset as i32) || !timestamp_representable(seconds) {
        return Err(ScanError::TimestampOutOfRange);
    }
    Ok(Timestamp { seconds, offset_seconds: offset as i32 })
}

/// Applies one change to a snapshot's files.
pub fn apply(snapshot: &mut Entry, change: &Change) -> (r: Result<(), ScanError>)
    requires
        old(snapshot).wf(),
    ensures
        final(snapshot).wf(),
        final(snapshot).timestamp == old(snapshot).timestamp,
        match r {
            Ok(()) => apply_change(old(snapshot).view_files(), *change) == Some(
                final(snapshot).view_files(),
            ) && list_apply(snapshot_value(*old(snapshot)).1, *change) == Some(
                snapshot_value(*final(snapshot)).1,
            ),
            Err(e) => apply_change(old(snapshot).view_files(), *change) is None && list_apply(
                snapshot_value(*old(snapshot)).1,
                *change,
            ) is None && e == ScanError::InvariantViolation,
        },
{
    proof {
        match change {
            Change::Renamed { from, to } => lemma_has_value_iff(snapshot.files@, from@),
            Change::Copied { from, to } => lemma_has_value_iff(snapshot.files@, from@),
            _ => {},
        }
    }
    match change {
        Change::Added { path, blob } | Change::Modified { path, blob } => {
            let rec = match blob {
                Some(b) => match count_lines(b.language, b.content.as_slice()) {
                    Some(st) => Some(EntryFile { language: b.language, statistics: st }),
                    None => None,
                },
                None => None,
            };
            match rec {
                Some(rc) => snapshot.upsert(path.clone(), rc),
                None => {
                    let _ = snapshot.remove_path(path.as_slice());
                },
            }
            Ok(())
        },
        Change::Deleted { path } => {
            let _ = snapshot.remove_path(path.as_slice());
            Ok(())
        },
        Change::Renamed { from, to } => match snapshot.remove_path(from.as_slice()) {
            Some(rc) => {
                snapshot.upsert(to.clone(), rc);
                Ok(())
            },
            None => Err(ScanError::InvariantViolation),
        },
        Change::Copied { from, to } => match snapshot.get(from.as_slice()) {
            Some(rc) => {
                snapshot.upsert(to.clone(), rc);
                Ok(())
            },
            None => Err(ScanError::InvariantViolation),
        },
        Change::Unsupported => Err(ScanError::InvariantViolation),
    }
}

/// Builds a commit's snapshot from the previous snapshot of its chunk (none
/// for a chunk's first commit, whose changes then add the whole tree) and the
/// differences between the two trees, applied in order.
pub fn advance(previous: Option<Entry>, seconds: i64, offset_minutes: i32, changes: &Vec<Change>) -> (r:
    Result<Entry, ScanError>)
    requires
        previous matches Some(p) ==> p.wf(),
    ensures
        match r {
            Ok(s) => {
                &&& s.wf()
                &&& valid_commit_time(seconds, offset_minutes)
                &&& s.timestamp.seconds == seconds
                &&& s.timestamp.offset_seconds == offset_minutes * 60
                &&& replay(previous_files(previous), changes@) == Some(s.view_files())
                &&& list_replay(previous_list(previous), changes@) == Some(snapshot_value(s).1)
            },
            Err(e) => {
                ||| !valid_commit_time(seconds, offset_minutes) && e == ScanError::TimestampOutOfRange
                ||| valid_commit_time(seconds, offset_minutes) && replay(
                    previous_files(previous),
                    changes@,
                ) is None && list_replay(previous_list(previous), changes@) is None && e
                    == ScanError::InvariantViolation
            },
        },
{
    let ghost m0 = previous_files(previous);
    let ghost l0 = previous_list(previous);
    let timestamp = match commit_timestamp(seconds, offset_minutes) {
        Ok(t) => t,
        Err(e) => return Err(e),
    };
    let mut snapshot = match previous {
        Some(p) => Entry { timestamp, files: p.files },
        None => Entry::empty(timestamp),
    };
    assert(snapshot_value(snapshot).1 =~= l0);
    assert(changes@.subrange(0, 0) =~= Seq::<Change>::empty());
    let mut i: usize = 0;
    while i < changes.len()
        invariant
            i <= changes@.len(),
            snapshot.wf(),
            snapshot.timestamp == timestamp,
            timestamp.seconds == seconds,
            timestamp.offset_seconds == offset_minutes * 60,
            valid_commit_time(seconds, offset_minutes),
            m0 == previous_files(previous),
            l0 == previous_list(previous),
            replay(m0, changes@.subrange(0, i as int)) == Some(snapshot.view_files()),
            list_replay(l0, changes@.subrange(0, i as int)) == Some(snapshot_value(snapshot).1),
        decreases changes.len() - i,
    {
        let ghost before = snapshot.view_files();
        let res = apply(&mut snapshot, &changes[i]);
        proof {
            let next = changes@.subrange(0, i + 1);
            assert(next.drop_last() =~= changes@.subrange(0, i as int));
            assert(next.last() == changes@[i as int]);
        }
        if res.is_err() {
            proof {
                let next = changes@.subrange(0, i + 1);
                assert(apply_change(before, changes@[i as int]) is None);
                assert(replay(m0, next) is None);
                lemma_replay_stuck(m0, changes@, i as int + 1);
                assert(list_replay(l0, next) is None);
                lemma_list_replay_stuck(l0, changes@, i as int + 1);
            }
            return Err(ScanError::InvariantViolation);
        }
        i = i + 1;
    }
    assert(changes@.subrange(0, changes@.len() as int) =~= changes@);
    Ok(snapshot)
}

/// Idempotent re-scan: two scans of one commit that start from the same
/// stored files and read the same changes and time store byte-identical
/// records, since `advance` fixes the stored list exactly.
pub proof fn lemma_rescan_identical(
    previous: Seq<FileValue>,
    changes: Seq<Change>,
    first: SnapshotValue,
    second: SnapshotValue,
)
    requires
        list_replay(previous, changes) == Some(first.1),
        list_replay(previous, changes) == Some(second.1),
        first.0 == second.0,
    ensures
        first == second,
        enc_snapshot(first) == enc_snapshot(second),
{
}

/// Once a prefix of the changes cannot apply to the stored list, neither
/// can the whole sequence.
pub proof fn lemma_list_replay_stuck(fs: Seq<FileValue>, cs: Seq<Change>, k: int)
    requires
        0 <= k <= cs.len(),
        list_replay(fs, cs.subrange(0, k)) is None,
    ensures
        list_replay(fs, cs) is None,
    decreases cs.len() - k,
{
    if k < cs.len() {
        let next = cs.subrange(0, k + 1);
        assert(next.drop_last() =~= cs.subrange(0, k));
        lemma_list_replay_stuck(fs, cs, k + 1);
    } else {
        assert(cs.subrange(0, k) =~= cs);
    }
}

/// Once a prefix of the changes cannot apply, neither can the whole sequence.
pub proof fn lemma_replay_stuck(m: Map<Seq<u8>, EntryFile>, cs: Seq<Change>, k: int)
    requires
        0 <= k <= cs.len(),
        replay(m, cs.subrange(0, k)) is None,
    ensures
        replay(m, cs) is None,
    decreases cs.len() - k,
{
    if k < cs.len() {
        let next = cs.subrange(0, k + 1);
        assert(next.drop_last() =~= cs.subrange(0, k));
        lemma_replay_stuck(m, cs, k + 1);
    } else {
        assert(cs.subrange(0, k) =~= cs);
    }
}

} // verus!

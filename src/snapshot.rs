use crate::stats::LineStats;
use vstd::prelude::*;

verus! {

/// The language a file was classified as, and its line counts.
#[derive(Clone, Copy, Debug, PartialEq, Eq, Structural)]
pub struct EntryFile {
    pub language: u32,
    pub statistics: LineStats,
}

/// One path of a snapshot with its record.
#[derive(Clone, Debug)]
pub struct PathEntry {
    pub path: Vec<u8>,
    pub record: EntryFile,
}

/// A commit's time: seconds since the Unix epoch and the author's offset
/// from UTC in seconds.
#[derive(Clone, Copy, Debug, PartialEq, Eq, Structural)]
pub struct Timestamp {
    pub seconds: i64,
    pub offset_seconds: i32,
}

/// A snapshot: the classified state of the whole tree at one commit.
#[derive(Clone, Debug)]
pub struct Entry {
    pub timestamp: Timestamp,
    pub files: Vec<PathEntry>,
}

/// A file of a snapshot as values: its path and its record.
pub type FileValue = (Seq<u8>, EntryFile);

/// A snapshot as values: its timestamp and its files in stored order.
pub type SnapshotValue = (Timestamp, Seq<FileValue>);

/// A path entry as values.
pub open spec fn entry_value(e: PathEntry) -> FileValue {
    (e.path@, e.record)
}

/// A snapshot as values.
pub open spec fn snapshot_value(s: Entry) -> SnapshotValue {
    (s.timestamp, s.files@.map_values(|e: PathEntry| entry_value(e)))
}

/// Snapshots as values, in order.
pub open spec fn snapshot_values(ss: Seq<Entry>) -> Seq<SnapshotValue> {
    ss.map_values(|s: Entry| snapshot_value(s))
}

/// Some file of the list has this path.
pub open spec fn has_value(fs: Seq<FileValue>, p: Seq<u8>) -> bool {
    exists|i: int| 0 <= i < fs.len() && fs[i].0 == p
}

/// The position of a path in a list where it occurs.
pub open spec fn value_index(fs: Seq<FileValue>, p: Seq<u8>) -> int {
    choose|i: int| 0 <= i < fs.len() && fs[i].0 == p
}

/// The list after setting a path's record: in place where the path is
/// listed, appended where it is new.
pub open spec fn list_upsert(fs: Seq<FileValue>, p: Seq<u8>, r: EntryFile) -> Seq<FileValue> {
    if has_value(fs, p) {
        fs.update(value_index(fs, p), (p, r))
    } else {
        fs.push((p, r))
    }
}

/// The list after taking a path out, the others keeping their order.
pub open spec fn list_remove(fs: Seq<FileValue>, p: Seq<u8>) -> Seq<FileValue> {
    if has_value(fs, p) {
        fs.remove(value_index(fs, p))
    } else {
        fs
    }
}

proof fn lemma_value_index(files: Seq<PathEntry>, i: int)
    requires
        unique_paths(files),
        0 <= i < files.len(),
    ensures
        has_value(files.map_values(|e: PathEntry| entry_value(e)), files[i].path@),
        value_index(files.map_values(|e: PathEntry| entry_value(e)), files[i].path@) == i,
{
    let vs = files.map_values(|e: PathEntry| entry_value(e));
    let p = files[i].path@;
    assert(vs[i].0 == p);
    let j = value_index(vs, p);
    assert(vs[j].0 == files[j].path@);
}

/// A list of entries and its values hold the same paths.
pub proof fn lemma_has_value_iff(files: Seq<PathEntry>, p: Seq<u8>)
    ensures
        has_value(files.map_values(|e: PathEntry| entry_value(e)), p) == has_path(files, p),
{
    let vs = files.map_values(|e: PathEntry| entry_value(e));
    if has_path(files, p) {
        let j = choose|j: int| 0 <= j < files.len() && files[j].path@ == p;
        assert(vs[j].0 == p);
    }
    if has_value(vs, p) {
        let j = choose|j: int| 0 <= j < vs.len() && vs[j].0 == p;
        assert(files[j].path@ == p);
    }
}

proof fn lemma_no_value(files: Seq<PathEntry>, p: Seq<u8>)
    requires
        !has_path(files, p),
    ensures
        !has_value(files.map_values(|e: PathEntry| entry_value(e)), p),
{
    let vs = files.map_values(|e: PathEntry| entry_value(e));
    if has_value(vs, p) {
        let j = choose|j: int| 0 <= j < vs.len() && vs[j].0 == p;
        assert(files[j].path@ == p);
    }
}

/// No path occurs twice in a list of entries.
pub open spec fn unique_paths(files: Seq<PathEntry>) -> bool {
    forall|i: int, j: int|
        0 <= i < files.len() && 0 <= j < files.len() && i != j ==> files[i].path@ != files[j].path@
}

/// Some entry of the list has this path.
pub open spec fn has_path(files: Seq<PathEntry>, p: Seq<u8>) -> bool {
    exists|i: int| 0 <= i < files.len() && files[i].path@ == p
}

/// The mapping from path to record that a list of entries stands for.
pub open spec fn files_map(files: Seq<PathEntry>) -> Map<Seq<u8>, EntryFile> {
    Map::new(
        |p: Seq<u8>| has_path(files, p),
        |p: Seq<u8>| files[choose|i: int| 0 <= i < files.len() && files[i].path@ == p].record,
    )
}

/// In a list without repeated paths, each entry is what the mapping holds at its path.
pub proof fn lemma_files_map_at(files: Seq<PathEntry>, i: int)
    requires
        unique_paths(files),
        0 <= i < files.len(),
    ensures
        files_map(files).contains_key(files[i].path@),
        files_map(files)[files[i].path@] == files[i].record,
{
    let p = files[i].path@;
    assert(has_path(files, p));
    let k = choose|k: int| 0 <= k < files.len() && files[k].path@ == p;
    assert(k == i);
}

/// Replacing the entry at a path's position gives that path the new record.
pub proof fn lemma_files_map_update(files: Seq<PathEntry>, i: int, e: PathEntry)
    requires
        unique_paths(files),
        0 <= i < files.len(),
        e.path@ == files[i].path@,
    ensures
        unique_paths(files.update(i, e)),
        files_map(files.update(i, e)) == files_map(files).insert(e.path@, e.record),
{
    let n = files.update(i, e);
    let m = files_map(files).insert(e.path@, e.record);
    assert forall|a: int, b: int|
        0 <= a < n.len() && 0 <= b < n.len() && a != b implies n[a].path@ != n[b].path@ by {
        assert(n[a].path@ == files[a].path@);
        assert(n[b].path@ == files[b].path@);
    }
    assert forall|p: Seq<u8>| #[trigger] has_path(n, p) == m.contains_key(p) by {
        if has_path(n, p) {
            let k = choose|k: int| 0 <= k < n.len() && n[k].path@ == p;
            assert(files[k].path@ == p);
            lemma_files_map_at(files, k);
        }
        if has_path(files, p) {
            let k = choose|k: int| 0 <= k < files.len() && files[k].path@ == p;
            assert(n[k].path@ == p);
        }
    }
    assert forall|p: Seq<u8>| #[trigger] m.contains_key(p) implies files_map(n)[p] == m[p] by {
        assert(has_path(n, p));
        let k = choose|k: int| 0 <= k < n.len() && n[k].path@ == p;
        lemma_files_map_at(n, k);
        if k != i {
            lemma_files_map_at(files, k);
        }
    }
    assert(files_map(n) =~= m);
}

/// Appending an entry for a new path adds that path to the mapping.
pub proof fn lemma_files_map_push(files: Seq<PathEntry>, e: PathEntry)
    requires
        unique_paths(files),
        !has_path(files, e.path@),
    ensures
        unique_paths(files.push(e)),
        files_map(files.push(e)) == files_map(files).insert(e.path@, e.record),
{
    let n = files.push(e);
    let m = files_map(files).insert(e.path@, e.record);
    assert forall|a: int, b: int|
        0 <= a < n.len() && 0 <= b < n.len() && a != b implies n[a].path@ != n[b].path@ by {
        if a < files.len() && b < files.len() {
            assert(n[a] == files[a] && n[b] == files[b]);
        } else if a < files.len() {
            assert(n[a] == files[a]);
        } else {
            assert(n[b] == files[b]);
        }
    }
    assert forall|p: Seq<u8>| #[trigger] has_path(n, p) == m.contains_key(p) by {
        if has_path(n, p) {
            let k = choose|k: int| 0 <= k < n.len() && n[k].path@ == p;
            if k < files.len() {
                assert(n[k] == files[k]);
                lemma_files_map_at(files, k);
            }
        }
        if has_path(files, p) {
            let k = choose|k: int| 0 <= k < files.len() && files[k].path@ == p;
            assert(n[k] == files[k]);
        }
        if p == e.path@ {
            assert(n[files.len() as int] == e);
        }
    }
    assert forall|p: Seq<u8>| #[trigger] m.contains_key(p) implies files_map(n)[p] == m[p] by {
        assert(has_path(n, p));
        let k = choose|k: int| 0 <= k < n.len() && n[k].path@ == p;
        lemma_files_map_at(n, k);
        if k < files.len() {
            assert(n[k] == files[k]);
            lemma_files_map_at(files, k);
        }
    }
    assert(files_map(n) =~= m);
}

/// Taking out the entry at a position takes its path out of the mapping.
pub proof fn lemma_files_map_remove(files: Seq<PathEntry>, i: int)
    requires
        unique_paths(files),
        0 <= i < files.len(),
    ensures
        unique_paths(files.remove(i)),
        files_map(files.remove(i)) == files_map(files).remove(files[i].path@),
{
    let n = files.remove(i);
    let q = files[i].path@;
    let m = files_map(files).remove(q);
    assert forall|k: int| 0 <= k < n.len() implies #[trigger] n[k] == files[if k < i { k } else { k + 1 }] by {}
    assert forall|a: int, b: int|
        0 <= a < n.len() && 0 <= b < n.len() && a != b implies n[a].path@ != n[b].path@ by {
        assert(n[a] == files[if a < i { a } else { a + 1 }]);
        assert(n[b] == files[if b < i { b } else { b + 1 }]);
    }
    assert forall|p: Seq<u8>| #[trigger] has_path(n, p) == m.contains_key(p) by {
        if has_path(n, p) {
            let k = choose|k: int| 0 <= k < n.len() && n[k].path@ == p;
            let j = if k < i { k } else { k + 1 };
            assert(n[k] == files[j]);
            lemma_files_map_at(files, j);
        }
        if m.contains_key(p) {
            let k = choose|k: int| 0 <= k < files.len() && files[k].path@ == p;
            assert(k != i);
            let j = if k < i { k } else { k - 1 };
            assert(n[j] == files[k]);
        }
    }
    assert forall|p: Seq<u8>| #[trigger] m.contains_key(p) implies files_map(n)[p] == m[p] by {
        assert(has_path(n, p));
        let k = choose|k: int| 0 <= k < n.len() && n[k].path@ == p;
        let j = if k < i { k } else { k + 1 };
        assert(n[k] == files[j]);
        lemma_files_map_at(n, k);
        lemma_files_map_at(files, j);
    }
    assert(files_map(n) =~= m);
}

impl Entry {
    /// No path is listed twice.
    pub open spec fn wf(&self) -> bool {
        unique_paths(self.files@)
    }

    /// The files of this snapshot as a mapping from path to record.
    pub open spec fn view_files(&self) -> Map<Seq<u8>, EntryFile> {
        files_map(self.files@)
    }

    /// A snapshot without files.
    pub fn empty(timestamp: Timestamp) -> (r: Entry)
        ensures
            r.wf(),
            r.timestamp == timestamp,
            r.view_files() == Map::<Seq<u8>, EntryFile>::empty(),
            r.files@.len() == 0,
    {
        let r = Entry { timestamp, files: Vec::new() };
        assert(r.view_files() =~= Map::<Seq<u8>, EntryFile>::empty());
        r
    }

    /// The record held at `path`.
    pub fn get(&self, path: &[u8]) -> (r: Option<EntryFile>)
        requires
            self.wf(),
        ensures
            r == (if self.view_files().contains_key(path@) {
                Some(self.view_files()[path@])
            } else {
                None
            }),
            r is Some ==> r->0 == snapshot_value(*self).1[value_index(snapshot_value(*self).1, path@)].1,
    {
        match find_path(&self.files, path) {
            Some(i) => {
                proof {
                    lemma_files_map_at(self.files@, i as int);
                    lemma_value_index(self.files@, i as int);
                }
                Some(self.files[i].record)
            },
            None => None,
        }
    }

    /// Sets the record at `path`, adding the path if it is new.
    pub fn upsert(&mut self, path: Vec<u8>, record: EntryFile)
        requires
            old(self).wf(),
        ensures
            final(self).wf(),
            final(self).timestamp == old(self).timestamp,
            final(self).view_files() == old(self).view_files().insert(path@, record),
            snapshot_value(*final(self)).1 == list_upsert(snapshot_value(*old(self)).1, path@, record),
    {
        let e = PathEntry { path, record };
        let ghost vs = snapshot_value(*self).1;
        match find_path(&self.files, e.path.as_slice()) {
            Some(i) => {
                proof {
                    lemma_files_map_update(self.files@, i as int, e);
                    lemma_value_index(self.files@, i as int);
                    assert(self.files@.update(i as int, e).map_values(|e: PathEntry| entry_value(e))
                        =~= vs.update(i as int, (e.path@, record)));
                }
                self.files.set(i, e);
            },
            None => {
                proof {
                    lemma_files_map_push(self.files@, e);
                    lemma_no_value(self.files@, e.path@);
                    assert(self.files@.push(e).map_values(|e: PathEntry| entry_value(e)) =~= vs.push(
                        (e.path@, record),
                    ));
                }
                self.files.push(e);
            },
        }
    }

    /// Takes the record at `path` out, handing it back.
    pub fn remove_path(&mut self, path: &[u8]) -> (r: Option<EntryFile>)
        requires
            old(self).wf(),
        ensures
            final(self).wf(),
            final(self).timestamp == old(self).timestamp,
            final(self).view_files() == old(self).view_files().remove(path@),
            snapshot_value(*final(self)).1 == list_remove(snapshot_value(*old(self)).1, path@),
            r == (if old(self).view_files().contains_key(path@) {
                Some(old(self).view_files()[path@])
            } else {
                None
            }),
            r is Some ==> r->0 == snapshot_value(*old(self)).1[value_index(
                snapshot_value(*old(self)).1,
                path@,
            )].1,
    {
        let ghost vs = snapshot_value(*self).1;
        match find_path(&self.files, path) {
            Some(i) => {
                proof {
                    lemma_files_map_at(self.files@, i as int);
                    lemma_files_map_remove(self.files@, i as int);
                    lemma_value_index(self.files@, i as int);
                    assert(self.files@.remove(i as int).map_values(|e: PathEntry| entry_value(e))
                        =~= vs.remove(i as int));
                }
                let e = self.files.remove(i);
                Some(e.record)
            },
            None => {
                proof {
                    lemma_no_value(self.files@, path@);
                }
                assert(self.view_files().remove(path@) =~= self.view_files());
                None
            },
        }
    }
}

/// Byte-wise equality of two paths.
pub fn bytes_equal(a: &[u8], b: &[u8]) -> (r: bool)
    ensures
        r == (a@ == b@),
{
    if a.len() != b.len() {
        return false;
    }
    let mut i: usize = 0;
    while i < a.len()
        invariant
            a.len() == b.len(),
            i <= a.len(),
            forall|k: int| 0 <= k < i ==> a@[k] == b@[k],
        decreases a.len() - i,
    {
        if a[i] != b[i] {
            return false;
        }
        i = i + 1;
    }
    assert(a@ =~= b@);
    true
}

/// The position of `path` in a list of entries, if it is there.
pub fn find_path(files: &Vec<PathEntry>, path: &[u8]) -> (r: Option<usize>)
    requires
        unique_paths(files@),
    ensures
        match r {
            Some(i) => i < files@.len() && files@[i as int].path@ == path@,
            None => !has_path(files@, path@),
        },
        r is Some <==> files_map(files@).contains_key(path@),
{
    let mut i: usize = 0;
    while i < files.len()
        invariant
            i <= files@.len(),
            forall|k: int| 0 <= k < i ==> files@[k].path@ != path@,
        decreases files.len() - i,
    {
        if bytes_equal(files[i].path.as_slice(), path) {
            return Some(i);
        }
        i = i + 1;
    }
    None
}

} // verus!

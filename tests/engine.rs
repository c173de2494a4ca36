use gitstats::builder::{advance, apply, commit_timestamp, Blob, Change};
use gitstats::error::ScanError;
use gitstats::series::{series_point, SeriesPoint};
use gitstats::snapshot::{EntryFile, Entry, Timestamp};
use gitstats::stats::LineStats;
use tokei::LanguageType;

fn tag(lang: LanguageType) -> u32 {
    LanguageType::list().iter().position(|l| *l == lang).unwrap() as u32
}

fn py(path: &str, text: &str) -> Change {
    Change::Added {
        path: path.as_bytes().to_vec(),
        blob: Some(Blob { language: tag(LanguageType::Python), content: text.as_bytes().to_vec() }),
    }
}

fn modified_py(path: &str, text: &str) -> Change {
    Change::Modified {
        path: path.as_bytes().to_vec(),
        blob: Some(Blob { language: tag(LanguageType::Python), content: text.as_bytes().to_vec() }),
    }
}

fn stats_at(s: &Entry, path: &str) -> Option<(u64, u64)> {
    s.get(path.as_bytes()).map(|r| (r.statistics.code, r.statistics.comments))
}

fn three_commits() -> Vec<Entry> {
    let c1 = advance(None, 1_600_000_000, 0, &vec![py("a.py", "# one\nx = 1\ny = 2\n")]).unwrap();
    let c2 = advance(
        Some(c1.clone()),
        1_600_086_400,
        0,
        &vec![py("b.py", "x = 1\ny = 2\nz = 3\n"), modified_py("a.py", "# one\n# two\nx = 1\ny = 2\n")],
    )
    .unwrap();
    let c3 = advance(
        Some(c2.clone()),
        1_600_172_800,
        0,
        &vec![Change::Deleted { path: b"a.py".to_vec() }],
    )
    .unwrap();
    vec![c1, c2, c3]
}

#[test]
fn three_commit_history_snapshots() {
    let s = three_commits();
    assert_eq!(s[0].files.len(), 1);
    assert_eq!(stats_at(&s[0], "a.py"), Some((2, 1)));
    assert_eq!(s[1].files.len(), 2);
    assert_eq!(stats_at(&s[1], "a.py"), Some((2, 2)));
    assert_eq!(stats_at(&s[1], "b.py"), Some((3, 0)));
    assert_eq!(s[2].files.len(), 1);
    assert_eq!(stats_at(&s[2], "a.py"), None);
    assert_eq!(stats_at(&s[2], "b.py"), Some((3, 0)));
}

#[test]
fn three_commit_history_filtered_by_python() {
    // a.py and b.py share a language, so the filter counts both of them
    let s = three_commits();
    let filter = vec![s[0].get(b"a.py").unwrap().language];
    let points: Vec<SeriesPoint> = s.iter().map(|x| series_point(x, &filter).unwrap()).collect();
    assert_eq!(points.iter().map(|p| p.code).collect::<Vec<_>>(), vec![2, 5, 3]);
    assert_eq!(points.iter().map(|p| p.comments).collect::<Vec<_>>(), vec![1, 2, 0]);
}

#[test]
fn three_commit_history_filtered_by_language_of_a() {
    // the same history with the second file in another language
    let c1 = advance(None, 1_600_000_000, 0, &vec![py("a.py", "# one\nx = 1\ny = 2\n")]).unwrap();
    let b = Change::Added {
        path: b"b.rs".to_vec(),
        blob: Some(Blob { language: tag(LanguageType::Rust), content: b"fn a() {\n}\nfn b() {}\n".to_vec() }),
    };
    let c2 = advance(Some(c1.clone()), 1_600_086_400, 0, &vec![b, modified_py("a.py", "# one\n# two\nx = 1\ny = 2\n")]).unwrap();
    let c3 = advance(Some(c2.clone()), 1_600_172_800, 0, &vec![Change::Deleted { path: b"a.py".to_vec() }]).unwrap();
    assert_eq!(stats_at(&c2, "b.rs"), Some((3, 0)));
    let filter = vec![c1.get(b"a.py").unwrap().language];
    let points: Vec<SeriesPoint> = [c1, c2, c3].iter().map(|x| series_point(x, &filter).unwrap()).collect();
    assert_eq!(points.iter().map(|p| p.code).collect::<Vec<_>>(), vec![2, 2, 0]);
    assert_eq!(points.iter().map(|p| p.comments).collect::<Vec<_>>(), vec![1, 2, 0]);
}

#[test]
fn incremental_equals_full_tree() {
    let s = three_commits();
    let scratch = advance(None, 1_600_086_400, 0, &vec![
        py("b.py", "x = 1\ny = 2\nz = 3\n"),
        py("a.py", "# one\n# two\nx = 1\ny = 2\n"),
    ])
    .unwrap();
    assert_eq!(stats_at(&scratch, "a.py"), stats_at(&s[1], "a.py"));
    assert_eq!(stats_at(&scratch, "b.py"), stats_at(&s[1], "b.py"));
    assert_eq!(scratch.files.len(), s[1].files.len());
}

#[test]
fn rename_moves_record_without_recount() {
    let s = advance(None, 0, 0, &vec![py("a.py", "x = 1\n")]).unwrap();
    let r = advance(Some(s), 1, 0, &vec![Change::Renamed { from: b"a.py".to_vec(), to: b"c.py".to_vec() }]).unwrap();
    assert_eq!(stats_at(&r, "a.py"), None);
    assert_eq!(stats_at(&r, "c.py"), Some((1, 0)));
}

#[test]
fn copy_keeps_source() {
    let s = advance(None, 0, 0, &vec![py("a.py", "x = 1\n")]).unwrap();
    let r = advance(Some(s), 1, 0, &vec![Change::Copied { from: b"a.py".to_vec(), to: b"d.py".to_vec() }]).unwrap();
    assert_eq!(stats_at(&r, "a.py"), Some((1, 0)));
    assert_eq!(stats_at(&r, "d.py"), Some((1, 0)));
}

#[test]
fn rename_of_absent_path_is_invariant_violation() {
    let r = advance(None, 0, 0, &vec![Change::Renamed { from: b"x.py".to_vec(), to: b"y.py".to_vec() }]);
    assert_eq!(r.unwrap_err(), ScanError::InvariantViolation);
}

#[test]
fn copy_of_absent_path_is_invariant_violation() {
    let r = advance(None, 0, 0, &vec![Change::Copied { from: b"x.py".to_vec(), to: b"y.py".to_vec() }]);
    assert_eq!(r.unwrap_err(), ScanError::InvariantViolation);
}

#[test]
fn unsupported_change_is_invariant_violation() {
    let r = advance(None, 0, 0, &vec![Change::Unsupported]);
    assert_eq!(r.unwrap_err(), ScanError::InvariantViolation);
}

#[test]
fn delete_of_absent_path_is_no_op() {
    let s = advance(None, 0, 0, &vec![py("a.py", "x = 1\n")]).unwrap();
    let r = advance(Some(s), 1, 0, &vec![Change::Deleted { path: b"zzz".to_vec() }]).unwrap();
    assert_eq!(r.files.len(), 1);
}

#[test]
fn unrecognised_modification_drops_record() {
    let s = advance(None, 0, 0, &vec![py("a.py", "x = 1\n")]).unwrap();
    let r = advance(Some(s), 1, 0, &vec![Change::Modified { path: b"a.py".to_vec(), blob: None }]).unwrap();
    assert_eq!(r.files.len(), 0);
}

#[test]
fn unknown_language_position_is_skipped() {
    let r = advance(
        None,
        0,
        0,
        &vec![Change::Added { path: b"q".to_vec(), blob: Some(Blob { language: u32::MAX, content: b"x".to_vec() }) }],
    )
    .unwrap();
    assert_eq!(r.files.len(), 0);
}

#[test]
fn offset_of_a_day_is_out_of_range() {
    assert_eq!(commit_timestamp(0, 24 * 60).unwrap_err(), ScanError::TimestampOutOfRange);
    assert_eq!(commit_timestamp(0, -24 * 60).unwrap_err(), ScanError::TimestampOutOfRange);
    assert_eq!(commit_timestamp(0, 23 * 60).unwrap(), Timestamp { seconds: 0, offset_seconds: 82_800 });
}

#[test]
fn huge_timestamp_is_out_of_range() {
    assert_eq!(commit_timestamp(i64::MAX, 0).unwrap_err(), ScanError::TimestampOutOfRange);
    let r = advance(None, i64::MIN, 0, &vec![]);
    assert_eq!(r.unwrap_err(), ScanError::TimestampOutOfRange);
}

#[test]
fn timestamp_keeps_offset_in_seconds() {
    let s = advance(None, 1_000, -90, &vec![]).unwrap();
    assert_eq!(s.timestamp, Timestamp { seconds: 1_000, offset_seconds: -5_400 });
}

#[test]
fn upsert_replaces_existing_record() {
    let mut s = Entry::empty(Timestamp { seconds: 0, offset_seconds: 0 });
    let rec = EntryFile { language: 1, statistics: LineStats::new(1, 2, 3) };
    s.upsert(b"p".to_vec(), rec);
    s.upsert(b"p".to_vec(), EntryFile { language: 2, statistics: LineStats::new(4, 5, 6) });
    assert_eq!(s.files.len(), 1);
    assert_eq!(s.get(b"p").unwrap().statistics, LineStats::new(4, 5, 6));
    assert_eq!(s.remove_path(b"p").unwrap().language, 2);
    assert!(s.get(b"p").is_none());
}

#[test]
fn apply_counts_with_tokei() {
    let mut s = Entry::empty(Timestamp { seconds: 0, offset_seconds: 0 });
    apply(&mut s, &py("m.py", "\n# c\nprint(1)\n")).unwrap();
    let st = s.get(b"m.py").unwrap().statistics;
    assert_eq!((st.code, st.comments, st.blanks), (1, 1, 1));
}

#[test]
fn one_chunk_equals_two_chunks() {
    let a1 = "x = 1\n";
    let a3 = "# note\nx = 1\ny = 2\n";
    let b2 = "z = 3\n# c\n";
    // one chunk: incremental diffs throughout
    let c1 = advance(None, 10, 0, &vec![py("a.py", a1)]).unwrap();
    let c2 = advance(Some(c1), 20, 0, &vec![py("b.py", b2)]).unwrap();
    let c3 = advance(Some(c2), 30, 0, &vec![modified_py("a.py", a3)]).unwrap();
    let c4 = advance(Some(c3.clone()), 40, 0, &vec![Change::Deleted { path: b"b.py".to_vec() }]).unwrap();
    // second chunk starting at the third commit: its first diff adds the whole tree
    let d3 = advance(None, 30, 0, &vec![py("a.py", a3), py("b.py", b2)]).unwrap();
    let d4 = advance(Some(d3.clone()), 40, 0, &vec![Change::Deleted { path: b"b.py".to_vec() }]).unwrap();
    for (x, y) in [(&c3, &d3), (&c4, &d4)] {
        assert_eq!(x.timestamp, y.timestamp);
        assert_eq!(x.files.len(), y.files.len());
        for e in &x.files {
            assert_eq!(y.get(&e.path), Some(e.record));
        }
    }
    assert_eq!(stats_at(&c4, "a.py"), Some((2, 1)));
}

#[test]
fn chrono_range_bounds_are_exact() {
    assert!(commit_timestamp(-8_334_601_228_800, 0).is_ok());
    assert_eq!(commit_timestamp(-8_334_601_228_801, 0).unwrap_err(), ScanError::TimestampOutOfRange);
    assert!(commit_timestamp(8_210_266_876_799, 0).is_ok());
    assert_eq!(commit_timestamp(8_210_266_876_800, 0).unwrap_err(), ScanError::TimestampOutOfRange);
}

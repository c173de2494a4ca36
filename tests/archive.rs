use gitstats::archive::{decode_info, encode_entry, encode_info, load_entry, payload_series, COMPRESSION_LEVEL};
use gitstats::chunk::{chunk_size, entry_name, name_width, plan_chunks, ChunkRange};
use gitstats::codec::{decode_chunk, encode_chunk};
use gitstats::error::LoadError;
use gitstats::series::{admitted, day_of, merge_series, series_of, series_point, SeriesPoint};
use gitstats::snapshot::{EntryFile, Entry, Timestamp};
use gitstats::stats::LineStats;

fn snap(seconds: i64, offset: i32, files: &[(&str, u32, u64, u64, u64)]) -> Entry {
    let mut s = Entry::empty(Timestamp { seconds, offset_seconds: offset });
    for (p, l, c, m, b) in files {
        s.upsert(p.as_bytes().to_vec(), EntryFile { language: *l, statistics: LineStats::new(*c, *m, *b) });
    }
    s
}

fn sample() -> Vec<Entry> {
    vec![
        snap(86_400, 0, &[("a.py", 7, 2, 1, 0)]),
        snap(-1, 3_600, &[("a.py", 7, 2, 2, 1), ("src/b.rs", 9, 3, 0, 4)]),
        snap(i64::MIN, -86_399, &[]),
        snap(i64::MAX, 86_399, &[("x", u32::MAX, u64::MAX, 0, u64::MAX)]),
    ]
}

fn same(a: &[Entry], b: &[Entry]) -> bool {
    a.len() == b.len()
        && a.iter().zip(b).all(|(x, y)| {
            x.timestamp == y.timestamp
                && x.files.len() == y.files.len()
                && x.files.iter().zip(&y.files).all(|(e, f)| e.path == f.path && e.record == f.record)
        })
}

#[test]
fn record_round_trip() {
    let s = sample();
    let bytes = encode_chunk(&s);
    let back = decode_chunk(&bytes).unwrap();
    assert!(same(&s, &back));
}

#[test]
fn record_layout_is_little_endian() {
    let bytes = encode_chunk(&vec![snap(0, 0, &[("a", 1, 2, 3, 4)])]);
    assert_eq!(&bytes[0..8], &[1, 0, 0, 0, 0, 0, 0, 0]);
    assert_eq!(&bytes[8..16], &[0, 0, 0, 0, 0, 0, 0, 0x80]);
    assert_eq!(&bytes[16..24], &[0, 0, 0, 0x80, 0, 0, 0, 0]);
    assert_eq!(&bytes[24..32], &[1, 0, 0, 0, 0, 0, 0, 0]);
    assert_eq!(&bytes[32..40], &[1, 0, 0, 0, 0, 0, 0, 0]);
    assert_eq!(bytes[40], b'a');
    assert_eq!(bytes.len(), 8 + 24 + 8 + 1 + 32);
}

#[test]
fn empty_chunk_round_trip() {
    let bytes = encode_chunk(&vec![]);
    assert_eq!(bytes, vec![0u8; 8]);
    assert_eq!(decode_chunk(&bytes).unwrap().len(), 0);
}

#[test]
fn missing_record_is_archive_corrupt() {
    let mut bytes = encode_chunk(&sample());
    bytes[0] = 5;
    assert_eq!(decode_chunk(&bytes).unwrap_err(), LoadError::ArchiveCorrupt);
}

#[test]
fn trailing_bytes_are_archive_corrupt() {
    let mut bytes = encode_chunk(&sample());
    bytes.push(0);
    assert_eq!(decode_chunk(&bytes).unwrap_err(), LoadError::ArchiveCorrupt);
    assert_eq!(decode_chunk(&[1, 2, 3]).unwrap_err(), LoadError::ArchiveCorrupt);
}

#[test]
fn truncated_record_is_decode_error() {
    let bytes = encode_chunk(&sample());
    assert_eq!(decode_chunk(&bytes[..bytes.len() - 3]).unwrap_err(), LoadError::DecodeError);
}

#[test]
fn language_beyond_u32_is_decode_error() {
    let mut bytes = encode_chunk(&vec![snap(0, 0, &[("a", 1, 2, 3, 4)])]);
    bytes[32 + 8 + 1 + 4] = 1;
    assert_eq!(decode_chunk(&bytes).unwrap_err(), LoadError::DecodeError);
}

#[test]
fn entry_round_trip_through_zstd() {
    let s = sample();
    let entry = encode_entry(&s, COMPRESSION_LEVEL).unwrap();
    assert_ne!(entry, encode_chunk(&s));
    let filter = vec![7];
    let points = load_entry(&entry, &filter).unwrap();
    assert_eq!(points, series_of(&s, &filter).unwrap());
    assert_eq!(points[0], SeriesPoint { day: 1, code: 2, comments: 1 });
    assert_eq!(points[1], SeriesPoint { day: 0, code: 2, comments: 2 });
}

#[test]
fn rescan_is_byte_identical() {
    assert_eq!(encode_chunk(&sample()), encode_chunk(&sample()));
    assert_eq!(encode_entry(&sample(), 3), encode_entry(&sample(), 3));
}

#[test]
fn bad_zstd_is_archive_corrupt() {
    assert_eq!(load_entry(&[1, 2, 3, 4], &vec![]).unwrap_err(), LoadError::ArchiveCorrupt);
    assert_eq!(decode_info(&[9, 9]).unwrap_err(), LoadError::ArchiveCorrupt);
}

#[test]
fn info_round_trip() {
    let e = encode_info(123_456_789, COMPRESSION_LEVEL).unwrap();
    assert_eq!(decode_info(&e).unwrap(), 123_456_789);
    let not_eight = encode_entry(&sample(), 1).unwrap();
    assert_eq!(decode_info(&not_eight).unwrap_err(), LoadError::ArchiveCorrupt);
}

#[test]
fn empty_filter_equals_all_languages() {
    let s = sample();
    assert_eq!(series_of(&s, &vec![]).unwrap(), series_of(&s, &vec![7, 9, u32::MAX]).unwrap());
    assert_eq!(series_point(&s[1], &vec![]).unwrap().code, 5);
    assert_eq!(series_point(&s[1], &vec![9]).unwrap().code, 3);
    assert_eq!(series_point(&s[1], &vec![4]).unwrap().code, 0);
    assert!(admitted(&vec![], 42));
    assert!(!admitted(&vec![1, 2], 42));
}

#[test]
fn sum_overflow_is_reported() {
    let s = snap(0, 0, &[("a", 1, u64::MAX, 0, 0), ("b", 1, 1, 0, 0)]);
    assert_eq!(series_point(&s, &vec![]).unwrap_err(), LoadError::CountOverflow);
    let f = snap(0, 0, &[("a", 1, u64::MAX, 0, 0), ("b", 2, 1, 0, 0)]);
    assert_eq!(series_point(&f, &vec![1]).unwrap().code, u64::MAX);
    let bytes = encode_chunk(&vec![s]);
    assert_eq!(payload_series(&bytes, &vec![]).unwrap_err(), LoadError::CountOverflow);
}

#[test]
fn local_day_uses_offset() {
    assert_eq!(day_of(Timestamp { seconds: 0, offset_seconds: 0 }), 0);
    assert_eq!(day_of(Timestamp { seconds: -1, offset_seconds: 0 }), -1);
    assert_eq!(day_of(Timestamp { seconds: 86_399, offset_seconds: 1 }), 1);
    assert_eq!(day_of(Timestamp { seconds: 1_600_000_000, offset_seconds: 0 }), 18_518);
    assert_eq!(day_of(Timestamp { seconds: i64::MIN, offset_seconds: -86_399 }), -106_751_991_167_302);
}

#[test]
fn merge_keeps_entry_order() {
    let a = vec![SeriesPoint { day: 1, code: 1, comments: 0 }];
    let b = vec![SeriesPoint { day: 2, code: 2, comments: 0 }, SeriesPoint { day: 3, code: 3, comments: 0 }];
    let m = merge_series(vec![a.clone(), vec![], b.clone()]);
    assert_eq!(m.iter().map(|p| p.day).collect::<Vec<_>>(), vec![1, 2, 3]);
    let left = merge_series(vec![a.clone()]);
    let right = merge_series(vec![vec![], b.clone()]);
    assert_eq!(merge_series(vec![left, right]), m);
}

#[test]
fn chunk_sizes() {
    assert_eq!(chunk_size(0), 1000);
    assert_eq!(chunk_size(999_999), 1000);
    assert_eq!(chunk_size(2_500_000), 2500);
}

#[test]
fn chunks_cover_history_in_order() {
    assert_eq!(plan_chunks(0, 1000).len(), 0);
    let c = plan_chunks(2500, 1000);
    assert_eq!(
        c,
        vec![
            ChunkRange { index: 0, start: 0, end: 1000 },
            ChunkRange { index: 1, start: 1000, end: 2000 },
            ChunkRange { index: 2, start: 2000, end: 2500 },
        ]
    );
    assert_eq!(plan_chunks(3, 1), vec![
        ChunkRange { index: 0, start: 0, end: 1 },
        ChunkRange { index: 1, start: 1, end: 2 },
        ChunkRange { index: 2, start: 2, end: 3 },
    ]);
}

#[test]
fn entry_names_widen_with_count() {
    assert_eq!(name_width(0), 3);
    assert_eq!(name_width(1000), 3);
    assert_eq!(name_width(1001), 4);
    assert_eq!(name_width(123_456), 6);
    assert_eq!(entry_name(7, 3), b"stats-007".to_vec());
    assert_eq!(entry_name(1000, 4), b"stats-1000".to_vec());
    assert!(entry_name(999, 4) < entry_name(1000, 4));
}

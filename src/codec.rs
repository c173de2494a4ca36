use crate::error::LoadError;
use crate::snapshot::{
    entry_value, snapshot_value, snapshot_values, PathEntry, EntryFile, FileValue, Entry,
    SnapshotValue, Timestamp,
};
use crate::stats::LineStats;
use vstd::prelude::*;
use vstd::slice::{slice_subrange, slice_to_vec};
use vstd::std_specs::vec::axiom_spec_len;

verus! {

/// The eight bytes of `n`, least significant first.
pub open spec fn le8(n: u64) -> Seq<u8> {
    seq![
        (n & 0xff) as u8,
        ((n >> 8u64) & 0xff) as u8,
        ((n >> 16u64) & 0xff) as u8,
        ((n >> 24u64) & 0xff) as u8,
        ((n >> 32u64) & 0xff) as u8,
        ((n >> 40u64) & 0xff) as u8,
        ((n >> 48u64) & 0xff) as u8,
        ((n >> 56u64) & 0xff) as u8,
    ]
}

/// The integer whose eight little-endian bytes are `s[0..8]`.
pub open spec fn from_le8(s: Seq<u8>) -> u64
    recommends
        s.len() >= 8,
{
    (s[0] as u64) | ((s[1] as u64) << 8u64) | ((s[2] as u64) << 16u64) | ((s[3] as u64) << 24u64)
        | ((s[4] as u64) << 32u64) | ((s[5] as u64) << 40u64) | ((s[6] as u64) << 48u64) | ((
    s[7] as u64) << 56u64)
}

proof fn lemma_le8_bits(n: u64)
    ensures
        n == ((((n & 0xff) as u8) as u64) | (((((n >> 8u64) & 0xff) as u8) as u64) << 8u64) | ((((
        (n >> 16u64) & 0xff) as u8) as u64) << 16u64) | (((((n >> 24u64) & 0xff) as u8) as u64)
            << 24u64) | (((((n >> 32u64) & 0xff) as u8) as u64) << 32u64) | (((((n >> 40u64)
            & 0xff) as u8) as u64) << 40u64) | (((((n >> 48u64) & 0xff) as u8) as u64) << 48u64)
            | (((((n >> 56u64) & 0xff) as u8) as u64) << 56u64)),
{
    assert(n == ((((n & 0xff) as u8) as u64) | (((((n >> 8u64) & 0xff) as u8) as u64) << 8u64) | ((
    (((n >> 16u64) & 0xff) as u8) as u64) << 16u64) | (((((n >> 24u64) & 0xff) as u8) as u64)
        << 24u64) | (((((n >> 32u64) & 0xff) as u8) as u64) << 32u64) | (((((n >> 40u64) & 0xff)
        as u8) as u64) << 40u64) | (((((n >> 48u64) & 0xff) as u8) as u64) << 48u64) | (((((n
        >> 56u64) & 0xff) as u8) as u64) << 56u64))) by (bit_vector);
}

/// Reading eight bytes back gives the integer they were written from.
pub proof fn lemma_le8_round_trip(n: u64)
    ensures
        le8(n).len() == 8,
        from_le8(le8(n)) == n,
{
    lemma_le8_bits(n);
}

/// Appends the eight little-endian bytes of `n`.
pub fn put_u64(out: &mut Vec<u8>, n: u64)
    ensures
        final(out)@ == old(out)@ + le8(n),
{
    let mut k: u64 = 0;
    let ghost start = out@;
    while k < 8
        invariant
            k <= 8,
            out@ == start + le8(n).subrange(0, k as int),
        decreases 8 - k,
    {
        let b = ((n >> (8 * k)) & 0xff) as u8;
        proof {
            assert(b == le8(n)[k as int]) by {
                if k == 0 {
                    assert(n >> 0u64 == n) by (bit_vector);
                }
            };
            assert(le8(n).subrange(0, k + 1) =~= le8(n).subrange(0, k as int).push(b));
        }
        out.push(b);
        k = k + 1;
    }
    assert(le8(n).subrange(0, 8) =~= le8(n));
}

/// Reads eight little-endian bytes at `pos`, where that many remain.
pub fn get_u64(b: &[u8], pos: usize) -> (r: Option<u64>)
    ensures
        r == (if pos + 8 <= b@.len() {
            Some(from_le8(b@.subrange(pos as int, pos + 8)))
        } else {
            None
        }),
{
    if pos > b.len() || b.len() - pos < 8 {
        return None;
    }
    let ghost s = b@.subrange(pos as int, pos + 8);
    let v = (b[pos] as u64) | ((b[pos + 1] as u64) << 8u64) | ((b[pos + 2] as u64) << 16u64) | ((
    b[pos + 3] as u64) << 24u64) | ((b[pos + 4] as u64) << 32u64) | ((b[pos + 5] as u64) << 40u64)
        | ((b[pos + 6] as u64) << 48u64) | ((b[pos + 7] as u64) << 56u64);
    assert(v == from_le8(s));
    Some(v)
}

/// Seconds since the epoch stored as an unsigned integer, shifted by 2^63.
pub open spec fn seconds_code(s: i64) -> u64 {
    (s + 0x8000_0000_0000_0000) as u64
}

/// An offset stored as an unsigned integer, shifted by 2^31.
pub open spec fn offset_code(o: i32) -> u64 {
    (o + 0x8000_0000) as u64
}

/// The bytes of one file: path length, path, language, code, comments, blanks.
pub open spec fn enc_file(f: FileValue) -> Seq<u8> {
    le8(f.0.len() as u64) + f.0 + le8(f.1.language as u64) + le8(f.1.statistics.code) + le8(
        f.1.statistics.comments,
    ) + le8(f.1.statistics.blanks)
}

pub open spec fn enc_files(fs: Seq<FileValue>) -> Seq<u8>
    decreases fs.len(),
{
    if fs.len() == 0 {
        Seq::empty()
    } else {
        enc_files(fs.drop_last()) + enc_file(fs.last())
    }
}

/// The bytes of one snapshot record: timestamp, offset, file count, files.
pub open spec fn enc_snapshot(s: SnapshotValue) -> Seq<u8> {
    le8(seconds_code(s.0.seconds)) + le8(offset_code(s.0.offset_seconds)) + le8(
        s.1.len() as u64,
    ) + enc_files(s.1)
}

pub open spec fn enc_snapshots(ss: Seq<SnapshotValue>) -> Seq<u8>
    decreases ss.len(),
{
    if ss.len() == 0 {
        Seq::empty()
    } else {
        enc_snapshots(ss.drop_last()) + enc_snapshot(ss.last())
    }
}

/// The payload of one archive entry: the record count, then the records.
pub open spec fn enc_chunk(ss: Seq<SnapshotValue>) -> Seq<u8> {
    le8(ss.len() as u64) + enc_snapshots(ss)
}

/// The eight bytes at `p` as an integer.
pub open spec fn read_u64(b: Seq<u8>, p: int) -> Option<u64> {
    if 0 <= p && p + 8 <= b.len() {
        Some(from_le8(b.subrange(p, p + 8)))
    } else {
        None
    }
}

/// Parses one file at `p`, giving it and the position after it.
pub open spec fn parse_file(b: Seq<u8>, p: int) -> Option<(FileValue, int)> {
    match read_u64(b, p) {
        Some(n) => {
            let q = p + 8 + n;
            if q + 32 <= b.len() && read_u64(b, q)->0 < 0x1_0000_0000 {
                let rec = EntryFile {
                    language: read_u64(b, q)->0 as u32,
                    statistics: LineStats {
                        code: read_u64(b, q + 8)->0,
                        comments: read_u64(b, q + 16)->0,
                        blanks: read_u64(b, q + 24)->0,
                    },
                };
                Some(((b.subrange(p + 8, q), rec), q + 32))
            } else {
                None
            }
        },
        None => None,
    }
}

/// Parses `n` files one after another from `p`.
pub open spec fn parse_files(b: Seq<u8>, p: int, n: nat) -> Option<(Seq<FileValue>, int)>
    decreases n,
{
    if n == 0 {
        Some((Seq::empty(), p))
    } else {
        match parse_files(b, p, (n - 1) as nat) {
            Some((fs, q)) => match parse_file(b, q) {
                Some((f, r)) => Some((fs.push(f), r)),
                None => None,
            },
            None => None,
        }
    }
}

/// Parses one snapshot record at `p`.
pub open spec fn parse_snapshot(b: Seq<u8>, p: int) -> Option<(SnapshotValue, int)> {
    if 0 <= p && p + 24 <= b.len() && read_u64(b, p + 8)->0 < 0x1_0000_0000 {
        let t = Timestamp {
            seconds: (read_u64(b, p)->0 - 0x8000_0000_0000_0000) as i64,
            offset_seconds: (read_u64(b, p + 8)->0 - 0x8000_0000) as i32,
        };
        match parse_files(b, p + 24, read_u64(b, p + 16)->0 as nat) {
            Some((fs, q)) => Some(((t, fs), q)),
            None => None,
        }
    } else {
        None
    }
}

/// Parses `n` records from `p`. Bytes that end where a record should start
/// disagree with the count; a record that cannot be read is malformed.
pub open spec fn parse_snapshots(b: Seq<u8>, p: int, n: nat) -> Result<(Seq<SnapshotValue>, int), LoadError>
    decreases n,
{
    if n == 0 {
        Ok((Seq::empty(), p))
    } else {
        match parse_snapshots(b, p, (n - 1) as nat) {
            Ok((ss, q)) => if q >= b.len() {
                Err(LoadError::ArchiveCorrupt)
            } else {
                match parse_snapshot(b, q) {
                    Some((s, r)) => Ok((ss.push(s), r)),
                    None => Err(LoadError::DecodeError),
                }
            },
            Err(e) => Err(e),
        }
    }
}

/// Reads an entry's payload: the count, then exactly that many records and
/// nothing after them.
pub open spec fn parse_chunk(b: Seq<u8>) -> Result<Seq<SnapshotValue>, LoadError> {
    match read_u64(b, 0) {
        Some(n) => match parse_snapshots(b, 8, n as nat) {
            Ok((ss, q)) => if q == b.len() {
                Ok(ss)
            } else {
                Err(LoadError::ArchiveCorrupt)
            },
            Err(e) => Err(e),
        },
        None => Err(LoadError::ArchiveCorrupt),
    }
}

/// `x` stands in `b` at position `p`.
pub open spec fn bytes_at(b: Seq<u8>, p: int, x: Seq<u8>) -> bool {
    0 <= p && p + x.len() <= b.len() && b.subrange(p, p + x.len()) == x
}

proof fn lemma_at_concat(b: Seq<u8>, p: int, x: Seq<u8>, y: Seq<u8>)
    requires
        bytes_at(b, p, x + y),
    ensures
        bytes_at(b, p, x),
        bytes_at(b, p + x.len(), y),
{
    let w = b.subrange(p, p + x.len() + y.len());
    assert(w == x + y);
    assert(b.subrange(p, p + x.len()) =~= w.subrange(0, x.len() as int));
    assert(w.subrange(0, x.len() as int) =~= x);
    assert(b.subrange(p + x.len(), p + x.len() + y.len()) =~= w.subrange(
        x.len() as int,
        (x.len() + y.len()) as int,
    ));
    assert(w.subrange(x.len() as int, (x.len() + y.len()) as int) =~= y);
}

proof fn lemma_read_at(b: Seq<u8>, p: int, n: u64)
    requires
        bytes_at(b, p, le8(n)),
    ensures
        read_u64(b, p) == Some(n),
{
    lemma_le8_round_trip(n);
}

/// A file's bytes parse back to the file.
pub proof fn lemma_parse_file(b: Seq<u8>, p: int, f: FileValue)
    requires
        bytes_at(b, p, enc_file(f)),
        f.0.len() <= u64::MAX,
    ensures
        parse_file(b, p) == Some((f, p + enc_file(f).len())),
{
    let a = le8(f.0.len() as u64);
    let c = le8(f.1.language as u64);
    let d = le8(f.1.statistics.code);
    let e = le8(f.1.statistics.comments);
    let g = le8(f.1.statistics.blanks);
    lemma_at_concat(b, p, a + f.0 + c + d + e, g);
    lemma_at_concat(b, p, a + f.0 + c + d, e);
    lemma_at_concat(b, p, a + f.0 + c, d);
    lemma_at_concat(b, p, a + f.0, c);
    lemma_at_concat(b, p, a, f.0);
    lemma_le8_round_trip(f.0.len() as u64);
    lemma_read_at(b, p, f.0.len() as u64);
    let q = p + 8 + f.0.len();
    lemma_read_at(b, q, f.1.language as u64);
    lemma_read_at(b, q + 8, f.1.statistics.code);
    lemma_read_at(b, q + 16, f.1.statistics.comments);
    lemma_read_at(b, q + 24, f.1.statistics.blanks);
}

/// A run of files parses back to the files.
pub proof fn lemma_parse_files(b: Seq<u8>, p: int, fs: Seq<FileValue>)
    requires
        bytes_at(b, p, enc_files(fs)),
        forall|i: int| 0 <= i < fs.len() ==> (#[trigger] fs[i]).0.len() <= u64::MAX,
    ensures
        parse_files(b, p, fs.len()) == Some((fs, p + enc_files(fs).len())),
    decreases fs.len(),
{
    if fs.len() == 0 {
        assert(Seq::<FileValue>::empty() =~= fs);
    } else {
        let init = fs.drop_last();
        lemma_at_concat(b, p, enc_files(init), enc_file(fs.last()));
        lemma_parse_files(b, p, init);
        lemma_parse_file(b, p + enc_files(init).len(), fs.last());
        assert(init.push(fs.last()) =~= fs);
    }
}

/// A snapshot record parses back to the snapshot.
pub proof fn lemma_parse_snapshot(b: Seq<u8>, p: int, s: SnapshotValue)
    requires
        bytes_at(b, p, enc_snapshot(s)),
        s.1.len() <= u64::MAX,
        forall|i: int| 0 <= i < s.1.len() ==> (#[trigger] s.1[i]).0.len() <= u64::MAX,
    ensures
        parse_snapshot(b, p) == Some((s, p + enc_snapshot(s).len())),
{
    let a = le8(seconds_code(s.0.seconds));
    let c = le8(offset_code(s.0.offset_seconds));
    let d = le8(s.1.len() as u64);
    lemma_at_concat(b, p, a + c + d, enc_files(s.1));
    lemma_at_concat(b, p, a + c, d);
    lemma_at_concat(b, p, a, c);
    lemma_le8_round_trip(seconds_code(s.0.seconds));
    lemma_read_at(b, p, seconds_code(s.0.seconds));
    lemma_read_at(b, p + 8, offset_code(s.0.offset_seconds));
    lemma_read_at(b, p + 16, s.1.len() as u64);
    lemma_parse_files(b, p + 24, s.1);
}

/// The values that a record stores fit its fields.
pub open spec fn storable(ss: Seq<SnapshotValue>) -> bool {
    &&& ss.len() <= u64::MAX
    &&& forall|i: int| 0 <= i < ss.len() ==> (#[trigger] ss[i]).1.len() <= u64::MAX
    &&& forall|i: int, j: int|
        0 <= i < ss.len() && 0 <= j < ss[i].1.len() ==> (#[trigger] ss[i].1[j]).0.len()
            <= u64::MAX
}

/// Snapshots held in memory are always storable: every count and length
/// in them is a machine integer, so it fits the 64-bit fields.
pub proof fn lemma_entries_storable(ss: Vec<Entry>)
    ensures
        storable(snapshot_values(ss@)),
{
    let vs = snapshot_values(ss@);
    axiom_spec_len(&ss);
    assert forall|i: int| 0 <= i < vs.len() implies (#[trigger] vs[i]).1.len() <= u64::MAX by {
        axiom_spec_len(&ss@[i].files);
    }
    assert forall|i: int, j: int|
        0 <= i < vs.len() && 0 <= j < vs[i].1.len() implies (#[trigger] vs[i].1[j]).0.len()
            <= u64::MAX by {
        axiom_spec_len(&ss@[i].files@[j].path);
    }
}

proof fn lemma_storable_split(ss: Seq<SnapshotValue>)
    requires
        storable(ss),
        ss.len() > 0,
    ensures
        storable(ss.drop_last()),
        ss.last().1.len() <= u64::MAX,
        forall|j: int| 0 <= j < ss.last().1.len() ==> (#[trigger] ss.last().1[j]).0.len() <= u64::MAX,
{
    let init = ss.drop_last();
    assert forall|i: int| 0 <= i < init.len() implies (#[trigger] init[i]).1.len() <= u64::MAX by {
        assert(init[i] == ss[i]);
    }
    assert forall|i: int, j: int|
        0 <= i < init.len() && 0 <= j < init[i].1.len() implies (#[trigger] init[i].1[j]).0.len()
            <= u64::MAX by {
        assert(init[i] == ss[i]);
    }
    assert(ss.last() == ss[ss.len() - 1]);
}

proof fn lemma_parse_snapshots(b: Seq<u8>, p: int, ss: Seq<SnapshotValue>)
    requires
        bytes_at(b, p, enc_snapshots(ss)),
        storable(ss),
    ensures
        parse_snapshots(b, p, ss.len()) == Ok::<_, LoadError>((ss, p + enc_snapshots(ss).len())),
    decreases ss.len(),
{
    if ss.len() == 0 {
        assert(Seq::<SnapshotValue>::empty() =~= ss);
    } else {
        let init = ss.drop_last();
        let last = ss.last();
        lemma_storable_split(ss);
        lemma_at_concat(b, p, enc_snapshots(init), enc_snapshot(last));
        lemma_parse_snapshots(b, p, init);
        lemma_parse_snapshot(b, p + enc_snapshots(init).len(), last);
        assert(enc_snapshot(last).len() >= 24);
        assert(init.push(last) =~= ss);
    }
}

/// Round trip: an entry's payload reads back as exactly the snapshots it
/// was written from, in order, with every path, language and count.
pub proof fn lemma_chunk_round_trip(ss: Seq<SnapshotValue>)
    requires
        storable(ss),
    ensures
        parse_chunk(enc_chunk(ss)) == Ok::<_, LoadError>(ss),
{
    let b = enc_chunk(ss);
    assert(bytes_at(b, 0, b)) by {
        assert(b.subrange(0, b.len() as int) =~= b);
    }
    lemma_at_concat(b, 0, le8(ss.len() as u64), enc_snapshots(ss));
    lemma_read_at(b, 0, ss.len() as u64);
    lemma_le8_round_trip(ss.len() as u64);
    lemma_parse_snapshots(b, 8, ss);
}

/// Appends bytes one by one.
fn put_bytes(out: &mut Vec<u8>, bytes: &[u8])
    ensures
        final(out)@ == old(out)@ + bytes@,
{
    let ghost start = out@;
    let mut i: usize = 0;
    while i < bytes.len()
        invariant
            i <= bytes@.len(),
            out@ == start + bytes@.subrange(0, i as int),
        decreases bytes.len() - i,
    {
        assert(bytes@.subrange(0, i + 1) =~= bytes@.subrange(0, i as int).push(bytes@[i as int]));
        out.push(bytes[i]);
        i = i + 1;
    }
    assert(bytes@.subrange(0, bytes@.len() as int) =~= bytes@);
}

fn put_file(out: &mut Vec<u8>, e: &PathEntry)
    ensures
        final(out)@ == old(out)@ + enc_file(entry_value(*e)),
{
    let ghost start = out@;
    put_u64(out, e.path.len() as u64);
    put_bytes(out, e.path.as_slice());
    put_u64(out, e.record.language as u64);
    put_u64(out, e.record.statistics.code);
    put_u64(out, e.record.statistics.comments);
    put_u64(out, e.record.statistics.blanks);
    assert(out@ =~= start + enc_file(entry_value(*e)));
}

/// Appends one snapshot's record.
pub fn append_record(out: &mut Vec<u8>, s: &Entry)
    ensures
        final(out)@ == old(out)@ + enc_snapshot(snapshot_value(*s)),
{
    let ghost start = out@;
    let ghost fs = snapshot_value(*s).1;
    put_u64(out, (s.timestamp.seconds as i128 + 0x8000_0000_0000_0000) as u64);
    put_u64(out, (s.timestamp.offset_seconds as i64 + 0x8000_0000) as u64);
    put_u64(out, s.files.len() as u64);
    let ghost head = out@;
    let mut i: usize = 0;
    while i < s.files.len()
        invariant
            i <= s.files@.len(),
            fs == s.files@.map_values(|e: PathEntry| entry_value(e)),
            out@ == head + enc_files(fs.subrange(0, i as int)),
        decreases s.files.len() - i,
    {
        let ghost before = out@;
        put_file(out, &s.files[i]);
        proof {
            let sub = fs.subrange(0, i + 1);
            assert(sub.drop_last() =~= fs.subrange(0, i as int));
            assert(sub.last() == entry_value(s.files@[i as int]));
            assert(out@ =~= head + enc_files(sub));
        }
        i = i + 1;
    }
    assert(fs.subrange(0, fs.len() as int) =~= fs);
    assert(out@ =~= start + enc_snapshot(snapshot_value(*s)));
}

/// The start of an entry's payload: the number of records that follow.
pub fn chunk_header(count: u64) -> (r: Vec<u8>)
    ensures
        r@ == le8(count),
{
    let mut out: Vec<u8> = Vec::new();
    put_u64(&mut out, count);
    assert(out@ =~= le8(count));
    out
}

/// Writes an entry's payload: the number of snapshots, then each record.
pub fn encode_chunk(snapshots: &Vec<Entry>) -> (r: Vec<u8>)
    ensures
        r@ == enc_chunk(snapshot_values(snapshots@)),
{
    let ghost ss = snapshot_values(snapshots@);
    let mut out: Vec<u8> = Vec::new();
    put_u64(&mut out, snapshots.len() as u64);
    let ghost head = out@;
    let mut i: usize = 0;
    while i < snapshots.len()
        invariant
            i <= snapshots@.len(),
            ss == snapshot_values(snapshots@),
            out@ == head + enc_snapshots(ss.subrange(0, i as int)),
            head == le8(snapshots@.len() as u64),
        decreases snapshots.len() - i,
    {
        append_record(&mut out, &snapshots[i]);
        proof {
            let sub = ss.subrange(0, i + 1);
            assert(sub.drop_last() =~= ss.subrange(0, i as int));
            assert(sub.last() == snapshot_value(snapshots@[i as int]));
            assert(out@ =~= head + enc_snapshots(sub));
        }
        i = i + 1;
    }
    assert(ss.subrange(0, ss.len() as int) =~= ss);
    out
}

proof fn lemma_parse_files_stuck(b: Seq<u8>, p: int, k: nat, n: nat)
    requires
        k <= n,
        parse_files(b, p, k) is None,
    ensures
        parse_files(b, p, n) is None,
    decreases n - k,
{
    if k < n {
        lemma_parse_files_stuck(b, p, k + 1, n);
    }
}

proof fn lemma_parse_snapshots_stuck(b: Seq<u8>, p: int, k: nat, n: nat, e: LoadError)
    requires
        k <= n,
        parse_snapshots(b, p, k) == Err::<(Seq<SnapshotValue>, int), _>(e),
    ensures
        parse_snapshots(b, p, n) == Err::<(Seq<SnapshotValue>, int), _>(e),
    decreases n - k,
{
    if k < n {
        lemma_parse_snapshots_stuck(b, p, k + 1, n, e);
    }
}

fn get_file(b: &[u8], pos: usize) -> (r: Option<(PathEntry, usize)>)
    ensures
        match r {
            Some((e, q)) => parse_file(b@, pos as int) == Some((entry_value(e), q as int)),
            None => parse_file(b@, pos as int) is None,
        },
{
    let n = match get_u64(b, pos) {
        Some(n) => n,
        None => return None,
    };
    let avail: usize = b.len() - pos - 8;
    if n > avail as u64 || avail - (n as usize) < 32 {
        return None;
    }
    let q: usize = pos + 8 + n as usize;
    let lang = get_u64(b, q).unwrap();
    if lang >= 0x1_0000_0000 {
        return None;
    }
    let code = get_u64(b, q + 8).unwrap();
    let comments = get_u64(b, q + 16).unwrap();
    let blanks = get_u64(b, q + 24).unwrap();
    let path = slice_to_vec(slice_subrange(b, pos + 8, q));
    let e = PathEntry {
        path,
        record: EntryFile { language: lang as u32, statistics: LineStats { code, comments, blanks } },
    };
    Some((e, q + 32))
}

fn get_snapshot(b: &[u8], pos: usize) -> (r: Option<(Entry, usize)>)
    ensures
        match r {
            Some((s, q)) => parse_snapshot(b@, pos as int) == Some((snapshot_value(s), q as int)),
            None => parse_snapshot(b@, pos as int) is None,
        },
{
    if pos > b.len() || b.len() - pos < 24 {
        return None;
    }
    let sec = get_u64(b, pos).unwrap();
    let off = get_u64(b, pos + 8).unwrap();
    if off >= 0x1_0000_0000 {
        return None;
    }
    let count = get_u64(b, pos + 16).unwrap();
    let timestamp = Timestamp {
        seconds: (sec as i128 - 0x8000_0000_0000_0000) as i64,
        offset_seconds: (off as i64 - 0x8000_0000) as i32,
    };
    let mut files: Vec<PathEntry> = Vec::new();
    let mut p: usize = pos + 24;
    let mut k: u64 = 0;
    while k < count
        invariant
            k <= count,
            pos + 24 <= b@.len(),
            read_u64(b@, pos + 8)->0 < 0x1_0000_0000,
            read_u64(b@, pos + 16) == Some(count),
            parse_files(b@, pos + 24, k as nat) == Some(
                (files@.map_values(|e: PathEntry| entry_value(e)), p as int),
            ),
        decreases count - k,
    {
        match get_file(b, p) {
            Some((e, q)) => {
                proof {
                    assert(files@.push(e).map_values(|e: PathEntry| entry_value(e)) =~= files@.map_values(
                        |e: PathEntry| entry_value(e),
                    ).push(entry_value(e)));
                }
                files.push(e);
                p = q;
            },
            None => {
                proof {
                    lemma_parse_files_stuck(b@, pos + 24, (k + 1) as nat, count as nat);
                }
                return None;
            },
        }
        k = k + 1;
    }
    Some((Entry { timestamp, files }, p))
}

/// Reads an entry's payload back into its snapshots, in stored order.
pub fn decode_chunk(b: &[u8]) -> (r: Result<Vec<Entry>, LoadError>)
    ensures
        match r {
            Ok(v) => parse_chunk(b@) == Ok::<_, LoadError>(snapshot_values(v@)),
            Err(e) => parse_chunk(b@) == Err::<Seq<SnapshotValue>, _>(e),
        },
{
    let count = match get_u64(b, 0) {
        Some(n) => n,
        None => return Err(LoadError::ArchiveCorrupt),
    };
    let mut out: Vec<Entry> = Vec::new();
    assert(snapshot_values(out@) =~= Seq::<SnapshotValue>::empty());
    let mut p: usize = 8;
    let mut k: u64 = 0;
    while k < count
        invariant
            k <= count,
            read_u64(b@, 0) == Some(count),
            parse_snapshots(b@, 8, k as nat) == Ok::<_, LoadError>((snapshot_values(out@), p as int)),
        decreases count - k,
    {
        if p >= b.len() {
            proof {
                lemma_parse_snapshots_stuck(b@, 8, (k + 1) as nat, count as nat, LoadError::ArchiveCorrupt);
            }
            return Err(LoadError::ArchiveCorrupt);
        }
        match get_snapshot(b, p) {
            Some((s, q)) => {
                proof {
                    assert(snapshot_values(out@.push(s)) =~= snapshot_values(out@).push(snapshot_value(s)));
                }
                out.push(s);
                p = q;
            },
            None => {
                proof {
                    lemma_parse_snapshots_stuck(b@, 8, (k + 1) as nat, count as nat, LoadError::DecodeError);
                }
                return Err(LoadError::DecodeError);
            },
        }
        k = k + 1;
    }
    if p != b.len() {
        return Err(LoadError::ArchiveCorrupt);
    }
    Ok(out)
}

} // verus!

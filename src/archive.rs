use crate::codec::{
    chunk_header, decode_chunk, enc_chunk, encode_chunk, from_le8, get_u64, le8,
    lemma_chunk_round_trip, parse_chunk, storable,
};
use crate::error::LoadError;
use crate::series::{points_of, series_of, SeriesPoint};
use crate::snapshot::{snapshot_values, Entry, SnapshotValue};
use vstd::prelude::*;

verus! {

/// The zstd level the archive's entries are written at.
pub const COMPRESSION_LEVEL: i32 = 11;

/// The zstd frame that compresses `data` at `level`.
pub uninterp spec fn zstd_frame(data: Seq<u8>, level: i32) -> Seq<u8>;

/// What decompressing `frame` gives, or `None` where it is no valid zstd data.
pub uninterp spec fn zstd_content(frame: Seq<u8>) -> Option<Seq<u8>>;

/// Relies on `zstd::stream::encode_all`, which compresses the bytes into one
/// zstd frame at the given level. It writes into a `Vec` only, and zstd
/// clamps any level into its range, so it does not fail.
#[verifier::external_body]
fn compress(data: &[u8], level: i32) -> (r: Option<Vec<u8>>)
    ensures
        r is Some,
        r->0@ == zstd_frame(data@, level),
{
    zstd::stream::encode_all(data, level).ok()
}

/// Relies on `zstd::stream::decode_all`, which decompresses zstd frames; a
/// frame that `encode_all` wrote gives back the bytes it was written from.
#[verifier::external_body]
fn decompress(data: &[u8]) -> (r: Option<Vec<u8>>)
    ensures
        match r {
            Some(v) => zstd_content(data@) == Some(v@),
            None => zstd_content(data@) is None,
        },
        forall|d: Seq<u8>, l: i32|
            #[trigger] zstd_frame(d, l) == data@ ==> r is Some && r->0@ == d,
{
    zstd::stream::decode_all(data).ok()
}

/// The header entry: the total number of records of the archive.
pub fn encode_info(total: u64, level: i32) -> (r: Option<Vec<u8>>)
    ensures
        r is Some,
        r->0@ == zstd_frame(le8(total), level),
{
    let raw = chunk_header(total);
    compress(raw.as_slice(), level)
}

/// What the header entry holds once decompressed: exactly one integer.
pub open spec fn info_of(entry: Seq<u8>) -> Result<u64, LoadError> {
    match zstd_content(entry) {
        Some(c) => if c.len() == 8 {
            Ok(from_le8(c))
        } else {
            Err(LoadError::ArchiveCorrupt)
        },
        None => Err(LoadError::ArchiveCorrupt),
    }
}

/// Reads the total number of records from the header entry.
pub fn decode_info(entry: &[u8]) -> (r: Result<u64, LoadError>)
    ensures
        r == info_of(entry@),
        forall|n: u64, l: i32| #[trigger] zstd_frame(le8(n), l) == entry@ ==> r == Ok::<u64, LoadError>(n),
{
    proof {
        assert forall|n: u64| #[trigger] le8(n).len() == 8 && from_le8(le8(n)) == n by {
            crate::codec::lemma_le8_round_trip(n);
        }
    }
    match decompress(entry) {
        Some(c) => {
            if c.len() != 8 {
                return Err(LoadError::ArchiveCorrupt);
            }
            let v = get_u64(c.as_slice(), 0).unwrap();
            assert(c@.subrange(0, 8) =~= c@);
            Ok(v)
        },
        None => Err(LoadError::ArchiveCorrupt),
    }
}

/// Compresses an entry's payload as one frame.
pub fn compress_payload(payload: &[u8], level: i32) -> (r: Option<Vec<u8>>)
    ensures
        r is Some,
        r->0@ == zstd_frame(payload@, level),
{
    compress(payload, level)
}

/// One chunk's entry: its snapshots' records, compressed as one frame.
pub fn encode_entry(snapshots: &Vec<Entry>, level: i32) -> (r: Option<Vec<u8>>)
    ensures
        r is Some,
        r->0@ == zstd_frame(enc_chunk(snapshot_values(snapshots@)), level),
{
    let raw = encode_chunk(snapshots);
    compress_payload(raw.as_slice(), level)
}

/// What an entry yields once decompressed, decoded and summed.
pub open spec fn entry_points(payload: Seq<u8>, filter: Seq<u32>) -> Result<Seq<SeriesPoint>, LoadError> {
    match parse_chunk(payload) {
        Ok(ss) => match points_of(ss, filter) {
            Some(ps) => Ok(ps),
            None => Err(LoadError::CountOverflow),
        },
        Err(e) => Err(e),
    }
}

/// The series of an entry's decompressed payload, one point per record.
pub fn payload_series(payload: &[u8], filter: &Vec<u32>) -> (r: Result<Vec<SeriesPoint>, LoadError>)
    ensures
        match r {
            Ok(v) => entry_points(payload@, filter@) == Ok::<_, LoadError>(v@),
            Err(e) => entry_points(payload@, filter@) == Err::<Seq<SeriesPoint>, _>(e),
        },
{
    let snapshots = decode_chunk(payload)?;
    series_of(&snapshots, filter)
}

/// Reads one chunk's entry into its series points, in record order.
pub fn load_entry(entry: &[u8], filter: &Vec<u32>) -> (r: Result<Vec<SeriesPoint>, LoadError>)
    ensures
        match zstd_content(entry@) {
            Some(c) => match r {
                Ok(v) => entry_points(c, filter@) == Ok::<_, LoadError>(v@),
                Err(e) => entry_points(c, filter@) == Err::<Seq<SeriesPoint>, _>(e),
            },
            None => r == Err::<Vec<SeriesPoint>, _>(LoadError::ArchiveCorrupt),
        },
        forall|ss: Seq<SnapshotValue>, l: i32|
            storable(ss) && #[trigger] zstd_frame(enc_chunk(ss), l) == entry@ ==> match r {
                Ok(v) => points_of(ss, filter@) == Some(v@),
                Err(e) => points_of(ss, filter@) is None && e == LoadError::CountOverflow,
            },
{
    proof {
        assert forall|ss: Seq<SnapshotValue>| storable(ss) implies #[trigger] parse_chunk(enc_chunk(ss))
            == Ok::<_, LoadError>(ss) by {
            lemma_chunk_round_trip(ss);
        }
    }
    match decompress(entry) {
        Some(payload) => payload_series(payload.as_slice(), filter),
        None => Err(LoadError::ArchiveCorrupt),
    }
}

} // verus!

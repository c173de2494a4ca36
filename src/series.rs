use crate::error::LoadError;
use crate::snapshot::{
    entry_value, snapshot_value, snapshot_values, PathEntry, FileValue, Entry, SnapshotValue,
    Timestamp,
};
use crate::stats::LineStats;
use vstd::arithmetic::div_mod::lemma_hoist_over_denominator;
use vstd::prelude::*;
use vstd::seq_lib::lemma_flatten_concat;

verus! {

/// One point of the series: a local calendar day, as days since 1970-01-01,
/// with the code and comment lines of the admitted files on that commit.
#[derive(Clone, Copy, Debug, PartialEq, Eq, Structural)]
pub struct SeriesPoint {
    pub day: i64,
    pub code: u64,
    pub comments: u64,
}

const SECONDS_PER_DAY: i128 = 86_400;

/// Days shifted in before dividing, so that the dividend is never negative.
const DAY_SHIFT: i128 = 0x8000_0000_0000;

/// A filter admits a language if it is empty (every language) or lists it.
pub open spec fn admits(filter: Seq<u32>, language: u32) -> bool {
    filter.len() == 0 || filter.contains(language)
}

/// The line counts of the admitted files, in stored order.
pub open spec fn admitted_stats(files: Seq<FileValue>, filter: Seq<u32>) -> Seq<LineStats>
    decreases files.len(),
{
    if files.len() == 0 {
        Seq::empty()
    } else {
        let rest = admitted_stats(files.drop_last(), filter);
        if admits(filter, files.last().1.language) {
            rest.push(files.last().1.statistics)
        } else {
            rest
        }
    }
}

/// The code lines of a list of counts, added up.
pub open spec fn code_total(stats: Seq<LineStats>) -> int
    decreases stats.len(),
{
    if stats.len() == 0 {
        0
    } else {
        code_total(stats.drop_last()) + stats.last().code
    }
}

/// The comment lines of a list of counts, added up.
pub open spec fn comment_total(stats: Seq<LineStats>) -> int
    decreases stats.len(),
{
    if stats.len() == 0 {
        0
    } else {
        comment_total(stats.drop_last()) + stats.last().comments
    }
}

/// The calendar day of a timestamp at its own offset, as days since 1970-01-01.
pub open spec fn local_day(t: Timestamp) -> int {
    (t.seconds + t.offset_seconds) / 86_400
}

/// The series point of a snapshot, where its sums fit in 64 bits.
pub open spec fn point_of(s: SnapshotValue, filter: Seq<u32>) -> Option<SeriesPoint> {
    let st = admitted_stats(s.1, filter);
    if code_total(st) <= u64::MAX && comment_total(st) <= u64::MAX {
        Some(
            SeriesPoint {
                day: local_day(s.0) as i64,
                code: code_total(st) as u64,
                comments: comment_total(st) as u64,
            },
        )
    } else {
        None
    }
}

/// The points of a sequence of snapshots, or `None` where one sum overflows.
pub open spec fn points_of(ss: Seq<SnapshotValue>, filter: Seq<u32>) -> Option<Seq<SeriesPoint>>
    decreases ss.len(),
{
    if ss.len() == 0 {
        Some(Seq::empty())
    } else {
        match (points_of(ss.drop_last(), filter), point_of(ss.last(), filter)) {
            (Some(ps), Some(p)) => Some(ps.push(p)),
            _ => None,
        }
    }
}

impl Entry {
    /// The line counts of the files whose language the filter admits.
    pub fn filtered(&self, filter: &Vec<u32>) -> (r: Vec<LineStats>)
        ensures
            r@ == admitted_stats(snapshot_value(*self).1, filter@),
    {
        let ghost fs = snapshot_value(*self).1;
        let mut out: Vec<LineStats> = Vec::new();
        let mut i: usize = 0;
        while i < self.files.len()
            invariant
                i <= self.files@.len(),
                fs == self.files@.map_values(|e: PathEntry| entry_value(e)),
                out@ == admitted_stats(fs.subrange(0, i as int), filter@),
            decreases self.files.len() - i,
        {
            let rec = self.files[i].record;
            proof {
                let sub = fs.subrange(0, i + 1);
                assert(sub.drop_last() =~= fs.subrange(0, i as int));
                assert(sub.last() == entry_value(self.files@[i as int]));
            }
            if admitted(filter, rec.language) {
                out.push(rec.statistics);
            }
            i = i + 1;
        }
        assert(fs.subrange(0, fs.len() as int) =~= fs);
        out
    }
}

/// Whether the filter admits a language.
pub fn admitted(filter: &Vec<u32>, language: u32) -> (r: bool)
    ensures
        r == admits(filter@, language),
{
    if filter.len() == 0 {
        return true;
    }
    let mut i: usize = 0;
    while i < filter.len()
        invariant
            i <= filter@.len(),
            forall|k: int| 0 <= k < i ==> filter@[k] != language,
        decreases filter.len() - i,
    {
        if filter[i] == language {
            assert(filter@[i as int] == language);
            return true;
        }
        i = i + 1;
    }
    false
}

/// The local day of a timestamp.
pub fn day_of(t: Timestamp) -> (r: i64)
    ensures
        r == local_day(t),
{
    let shifted: i128 = t.seconds as i128 + t.offset_seconds as i128 + DAY_SHIFT * SECONDS_PER_DAY;
    let d: i128 = shifted / SECONDS_PER_DAY;
    proof {
        let x = t.seconds + t.offset_seconds;
        lemma_hoist_over_denominator(x, DAY_SHIFT as int, 86_400);
        assert(d == x / 86_400 + DAY_SHIFT);
        assert(x / 86_400 >= -0x1_0000_0000_0000_0000int / 86_400) by (nonlinear_arith)
            requires x >= -0x1_0000_0000_0000_0000int;
        assert(x / 86_400 <= 0x1_0000_0000_0000_0000int / 86_400) by (nonlinear_arith)
            requires x <= 0x1_0000_0000_0000_0000int;
    }
    (d - DAY_SHIFT) as i64
}

/// Sums the code and comment lines of the admitted files of a snapshot.
pub fn series_point(s: &Entry, filter: &Vec<u32>) -> (r: Result<SeriesPoint, LoadError>)
    ensures
        match r {
            Ok(p) => point_of(snapshot_value(*s), filter@) == Some(p),
            Err(e) => point_of(snapshot_value(*s), filter@) is None && e == LoadError::CountOverflow,
        },
{
    let stats = s.filtered(filter);
    let mut code: u64 = 0;
    let mut comments: u64 = 0;
    let mut over = false;
    let mut i: usize = 0;
    while i < stats.len()
        invariant
            i <= stats@.len(),
            !over ==> code == code_total(stats@.subrange(0, i as int)) && comments == comment_total(
                stats@.subrange(0, i as int),
            ),
            over ==> code_total(stats@.subrange(0, i as int)) > u64::MAX || comment_total(
                stats@.subrange(0, i as int),
            ) > u64::MAX,
        decreases stats.len() - i,
    {
        proof {
            let sub = stats@.subrange(0, i + 1);
            assert(sub.drop_last() =~= stats@.subrange(0, i as int));
            lemma_totals_grow(sub);
        }
        if !over {
            let st = stats[i];
            if st.code > u64::MAX - code || st.comments > u64::MAX - comments {
                over = true;
            } else {
                code = code + st.code;
                comments = comments + st.comments;
            }
        }
        i = i + 1;
    }
    assert(stats@.subrange(0, stats@.len() as int) =~= stats@);
    if over {
        Err(LoadError::CountOverflow)
    } else {
        Ok(SeriesPoint { day: day_of(s.timestamp), code, comments })
    }
}

/// Totals never shrink as counts are added.
proof fn lemma_totals_grow(st: Seq<LineStats>)
    requires
        st.len() > 0,
    ensures
        code_total(st) >= code_total(st.drop_last()),
        comment_total(st) >= comment_total(st.drop_last()),
{
}

proof fn lemma_points_stuck(ss: Seq<SnapshotValue>, filter: Seq<u32>, k: int)
    requires
        0 <= k <= ss.len(),
        points_of(ss.subrange(0, k), filter) is None,
    ensures
        points_of(ss, filter) is None,
    decreases ss.len() - k,
{
    if k < ss.len() {
        assert(ss.subrange(0, k + 1).drop_last() =~= ss.subrange(0, k));
        lemma_points_stuck(ss, filter, k + 1);
    } else {
        assert(ss.subrange(0, k) =~= ss);
    }
}

/// The series points of an entry's snapshots, one per snapshot, in order.
pub fn series_of(snapshots: &Vec<Entry>, filter: &Vec<u32>) -> (r: Result<Vec<SeriesPoint>, LoadError>)
    ensures
        match r {
            Ok(v) => points_of(snapshot_values(snapshots@), filter@) == Some(v@),
            Err(e) => points_of(snapshot_values(snapshots@), filter@) is None && e
                == LoadError::CountOverflow,
        },
{
    let ghost ss = snapshot_values(snapshots@);
    let mut out: Vec<SeriesPoint> = Vec::new();
    let mut i: usize = 0;
    assert(ss.subrange(0, 0) =~= Seq::<SnapshotValue>::empty());
    while i < snapshots.len()
        invariant
            i <= snapshots@.len(),
            ss == snapshot_values(snapshots@),
            points_of(ss.subrange(0, i as int), filter@) == Some(out@),
        decreases snapshots.len() - i,
    {
        let res = series_point(&snapshots[i], filter);
        proof {
            let sub = ss.subrange(0, i + 1);
            assert(sub.drop_last() =~= ss.subrange(0, i as int));
            assert(sub.last() == snapshot_value(snapshots@[i as int]));
        }
        match res {
            Ok(p) => out.push(p),
            Err(e) => {
                proof {
                    lemma_points_stuck(ss, filter@, i + 1);
                }
                return Err(e);
            },
        }
        i = i + 1;
    }
    assert(ss.subrange(0, ss.len() as int) =~= ss);
    Ok(out)
}

/// Joins the entries' series in entry order.
pub fn merge_series(parts: Vec<Vec<SeriesPoint>>) -> (r: Vec<SeriesPoint>)
    ensures
        r@ == parts@.map_values(|v: Vec<SeriesPoint>| v@).flatten(),
{
    let ghost all = parts@.map_values(|v: Vec<SeriesPoint>| v@);
    let mut out: Vec<SeriesPoint> = Vec::new();
    let mut i: usize = 0;
    assert(all.subrange(0, 0).flatten() =~= Seq::<SeriesPoint>::empty());
    while i < parts.len()
        invariant
            i <= parts@.len(),
            all == parts@.map_values(|v: Vec<SeriesPoint>| v@),
            out@ == all.subrange(0, i as int).flatten(),
        decreases parts.len() - i,
    {
        let part = &parts[i];
        let mut j: usize = 0;
        let ghost before = out@;
        while j < part.len()
            invariant
                j <= part@.len(),
                out@ == before + part@.subrange(0, j as int),
            decreases part.len() - j,
        {
            assert(part@.subrange(0, j + 1) =~= part@.subrange(0, j as int).push(part@[j as int]));
            out.push(part[j]);
            j = j + 1;
        }
        proof {
            assert(part@.subrange(0, part@.len() as int) =~= part@);
            let one = seq![all[i as int]];
            lemma_flatten_concat(all.subrange(0, i as int), one);
            assert(all.subrange(0, i as int) + one =~= all.subrange(0, i + 1));
            assert(one.drop_first() =~= Seq::<Seq<SeriesPoint>>::empty());
            assert(one.drop_first().flatten() =~= Seq::<SeriesPoint>::empty());
            assert(one.flatten() == one.first() + one.drop_first().flatten());
            assert(one.flatten() =~= all[i as int]);
        }
        i = i + 1;
    }
    assert(all.subrange(0, all.len() as int) =~= all);
    out
}

/// Order under parallel reduction: however the entries' series are split
/// into two runs, joining each run and then the two results gives the same
/// sequence as joining them all in entry order.
pub proof fn lemma_merge_split(parts: Seq<Seq<SeriesPoint>>, k: int)
    requires
        0 <= k <= parts.len(),
    ensures
        parts.subrange(0, k).flatten() + parts.subrange(k, parts.len() as int).flatten()
            == parts.flatten(),
{
    lemma_flatten_concat(parts.subrange(0, k), parts.subrange(k, parts.len() as int));
    assert(parts.subrange(0, k) + parts.subrange(k, parts.len() as int) =~= parts);
}

/// Filter correctness, all languages: a filter that lists every language
/// found in the files admits the same counts as the empty filter.
pub proof fn lemma_filter_all(files: Seq<FileValue>, filter: Seq<u32>)
    requires
        forall|i: int| 0 <= i < files.len() ==> filter.contains(#[trigger] files[i].1.language),
    ensures
        admitted_stats(files, filter) == admitted_stats(files, Seq::empty()),
    decreases files.len(),
{
    if files.len() > 0 {
        let init = files.drop_last();
        assert forall|i: int| 0 <= i < init.len() implies filter.contains(#[trigger] init[i].1.language) by {
            assert(init[i] == files[i]);
        }
        lemma_filter_all(init, filter);
        assert(filter.contains(files[files.len() - 1].1.language));
    }
}

/// The files of one language, in stored order.
pub open spec fn stats_of_language(files: Seq<FileValue>, language: u32) -> Seq<LineStats>
    decreases files.len(),
{
    if files.len() == 0 {
        Seq::empty()
    } else {
        let rest = stats_of_language(files.drop_last(), language);
        if files.last().1.language == language {
            rest.push(files.last().1.statistics)
        } else {
            rest
        }
    }
}

/// Filter correctness, one language: the filter `{x}` counts exactly the
/// files classified as `x`.
pub proof fn lemma_filter_one(files: Seq<FileValue>, x: u32)
    ensures
        admitted_stats(files, seq![x]) == stats_of_language(files, x),
    decreases files.len(),
{
    if files.len() > 0 {
        lemma_filter_one(files.drop_last(), x);
        let l = files.last().1.language;
        assert(seq![x].contains(l) <==> l == x) by {
            if l == x {
                assert(seq![x][0] == l);
            }
        }
    }
}

} // verus!

use crate::stats::LineStats;
use tokei::{Config, LanguageType};
use vstd::prelude::*;

verus! {

/// What tokei counts in `content` for the language at position `language` of
/// its list of languages, summed over embedded blocks as
/// (code, comments, blanks); `None` where no language has that position.
pub uninterp spec fn tokei_counts(language: u32, content: Seq<u8>) -> Option<(u64, u64, u64)>;

/// The counts of `tokei_counts` as line statistics.
pub open spec fn counted_stats(language: u32, content: Seq<u8>) -> Option<LineStats> {
    match tokei_counts(language, content) {
        Some(t) => Some(LineStats { code: t.0, comments: t.1, blanks: t.2 }),
        None => None,
    }
}

/// Relies on tokei's `LanguageType::list` to find the language,
/// `LanguageType::parse_from_slice` to count the lines of a blob, and
/// `CodeStats::summarise` to fold embedded blocks into the totals. The counts
/// depend on the language and the bytes alone.
#[verifier::external_body]
pub(crate) fn count_lines(language: u32, content: &[u8]) -> (r: Option<LineStats>)
    ensures
        r == (match tokei_counts(language, content@) {
            Some(t) => Some(LineStats { code: t.0, comments: t.1, blanks: t.2 }),
            None => None,
        }),
{
    let lang = LanguageType::list().get(language as usize)?;
    let s = lang.parse_from_slice(content, &Config::default()).summarise();
    Some(LineStats { code: s.code as u64, comments: s.comments as u64, blanks: s.blanks as u64 })
}

} // verus!

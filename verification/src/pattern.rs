//! Compiled search patterns over byte text. Searching is delegated to the
//! regex crate; everything stated about a search names the match ranges of
//! the pattern's text, which depend on the pattern and the haystack alone.

use vstd::prelude::*;

verus! {

#[verifier::external_type_specification]
#[verifier::external_body]
pub struct ExRegex(regex::bytes::Regex);

/// The byte ranges, in left-to-right scan order, of the successive
/// non-overlapping matches that the pattern written `pat` has in `hay`.
pub uninterp spec fn match_ranges(pat: Seq<char>, hay: Seq<u8>) -> Seq<(usize, usize)>;

/// Whether the regex engine accepts `pat` as a well-formed pattern.
pub uninterp spec fn pattern_ok(pat: Seq<char>) -> bool;

/// The first of a sequence of ranges, if any.
pub open spec fn first_range(rs: Seq<(usize, usize)>) -> Option<(usize, usize)> {
    if rs.len() == 0 {
        None
    } else {
        Some(rs[0])
    }
}

/// Ranges that lie within a text of length `n`, are each well-formed, do
/// not overlap, and run left to right with strictly increasing starts.
pub open spec fn ranges_ordered(rs: Seq<(usize, usize)>, n: int) -> bool {
    &&& forall|i: int| 0 <= i < rs.len() ==> (#[trigger] rs[i]).0 <= rs[i].1 <= n
    &&& forall|i: int|
        0 <= i < rs.len() - 1 ==> (#[trigger] rs[i]).1 <= rs[i + 1].0 && rs[i].0 < rs[i + 1].0
}

/// A compiled search pattern, paired with the text it was compiled from.
pub struct Pattern {
    source: String,
    re: regex::bytes::Regex,
}

impl Pattern {
    /// The pattern text this value was compiled from.
    pub closed spec fn text(self) -> Seq<char> {
        self.source@
    }

    /// Relies on regex::bytes::Regex::new: compiling succeeds exactly on
    /// syntactically valid patterns; the compiled value searches for the
    /// pattern it was compiled from.
    #[verifier::external_body]
    pub fn new(source: &str) -> (r: Option<Pattern>)
        ensures
            (r is Some) == pattern_ok(source@),
            r matches Some(p) ==> p.text() == source@,
    {
        match regex::bytes::Regex::new(source) {
            Ok(re) => Some(Pattern { source: source.to_string(), re }),
            Err(_) => None,
        }
    }

    /// Relies on regex::bytes::Regex::find: returns the leftmost-first
    /// match, which is the first of the successive non-overlapping
    /// matches, as byte offsets into the haystack.
    #[verifier::external_body]
    pub(crate) fn find_first(&self, hay: &[u8]) -> (r: Option<(usize, usize)>)
        ensures
            r == first_range(match_ranges(self.text(), hay@)),
            r matches Some(m) ==> m.0 <= m.1 <= hay@.len(),
    {
        self.re.find(hay).map(|m| (m.start(), m.end()))
    }

    /// Relies on regex::bytes::Regex::find_iter: yields the successive
    /// non-overlapping matches from left to right; each lies within the
    /// haystack, and each later match starts no earlier than the end of
    /// the one before it and strictly after its start.
    #[verifier::external_body]
    pub(crate) fn find_all(&self, hay: &[u8]) -> (r: Vec<(usize, usize)>)
        ensures
            r@ == match_ranges(self.text(), hay@),
            ranges_ordered(r@, hay@.len() as int),
    {
        self.re.find_iter(hay).map(|m| (m.start(), m.end())).collect()
    }
}

/// Ranges ordered within a text of length `n` number at most `n + 1`:
/// their starts increase strictly and each lies in `[0, n]`.
pub proof fn lemma_ranges_ordered_count(rs: Seq<(usize, usize)>, n: int)
    requires
        n >= 0,
        ranges_ordered(rs, n),
    ensures
        rs.len() <= n + 1,
{
    if rs.len() > n + 1 {
        lemma_start_at_least_index(rs, rs.len() as int - 1);
    }
}

proof fn lemma_start_at_least_index(rs: Seq<(usize, usize)>, i: int)
    requires
        0 <= i < rs.len(),
        forall|j: int|
            0 <= j < rs.len() - 1 ==> (#[trigger] rs[j]).1 <= rs[j + 1].0 && rs[j].0 < rs[j + 1].0,
    ensures
        rs[i].0 >= i,
    decreases i,
{
    if i > 0 {
        lemma_start_at_least_index(rs, i - 1);
    }
}

} // verus!

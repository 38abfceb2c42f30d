use vstd::prelude::*;

verus! {

/// Failures the engine can report.
///
/// `InvalidHost`: the input reduced to an empty host.
/// `SourceUnavailable`: a rule-list fetch failed and no cached copy exists.
/// `CacheWriteFailed`: persisting a freshly fetched list failed; the refresh
/// is reported as failed even when the fetched text itself was usable.
/// `EmptyRuleSet`: the source text contained no parsable rule at all.
#[derive(Clone, Copy, Debug, PartialEq, Eq, Structural)]
pub enum SuffixError {
    InvalidHost,
    SourceUnavailable,
    CacheWriteFailed,
    EmptyRuleSet,
}

} // verus!

//! The source-loader decisions: when a rule-list fetch is required, which
//! text a load returns given the cache and the fetch outcome, and how a
//! refresh's persistence failure is reported. The fetch and the cache file
//! I/O themselves are external collaborators; every decision about their
//! outcomes is made here.

use vstd::prelude::*;
use crate::error::SuffixError;

verus! {

/// Per-variant configuration: where the variant's cache file lives, whether
/// building its rule set must refresh the list first, and whether the
/// variant includes the private rules.
pub struct VariantConfig {
    pub cache_path: String,
    pub refresh_on_build: bool,
    pub include_private: bool,
}

/// A fetch is performed only on an explicit refresh request or when no cache
/// entry exists; an existing cache is otherwise returned unconditionally.
pub open spec fn spec_needs_fetch(update_requested: bool, cache_present: bool) -> bool {
    update_requested || !cache_present
}

pub fn needs_fetch(update_requested: bool, cache_present: bool) -> (r: bool)
    ensures
        r == spec_needs_fetch(update_requested, cache_present),
{
    update_requested || !cache_present
}

/// The text a load returns and whether it must be persisted as the new cache
/// entry. `cache` is the cache entry's text, when one exists; `fetched` the
/// fetch's outcome, when a fetch was required: fresh text on success, `None`
/// on failure. A successful fetch wins and is persisted; a failed fetch
/// falls back to the cache; with neither, the load fails.
pub open spec fn spec_load(
    update_requested: bool,
    cache: Option<Seq<u8>>,
    fetched: Option<Seq<u8>>,
) -> Result<(Seq<u8>, bool), SuffixError> {
    if !spec_needs_fetch(update_requested, cache is Some) {
        Ok((cache->0, false))
    } else {
        match fetched {
            Some(t) => Ok((t, true)),
            None => match cache {
                Some(c) => Ok((c, false)),
                None => Err(SuffixError::SourceUnavailable),
            },
        }
    }
}

/// The view of a load step's result.
pub open spec fn load_result_view(r: Result<(Vec<u8>, bool), SuffixError>) -> Result<
    (Seq<u8>, bool),
    SuffixError,
> {
    match r {
        Ok((t, persist)) => Ok((t@, persist)),
        Err(e) => Err(e),
    }
}

/// Decides what a load returns. The caller performs the fetch only where
/// `needs_fetch` says one is required and hands its outcome in as `fetched`;
/// the returned flag says the text is fresh and must be persisted.
pub fn load_step(update_requested: bool, cache: Option<Vec<u8>>, fetched: Option<Vec<u8>>) -> (r:
    Result<(Vec<u8>, bool), SuffixError>)
    ensures
        load_result_view(r) == spec_load(
            update_requested,
            match cache {
                Some(ref c) => Some(c@),
                None => None,
            },
            match fetched {
                Some(ref f) => Some(f@),
                None => None,
            },
        ),
{
    match (update_requested, cache, fetched) {
        (false, Some(c), _) => Ok((c, false)),
        (_, _, Some(t)) => Ok((t, true)),
        (_, Some(c), None) => Ok((c, false)),
        (_, None, None) => Err(SuffixError::SourceUnavailable),
    }
}

/// A refresh whose fetched text could not be persisted is reported as
/// failed, even though the fetched text itself remains usable for the
/// current lookup.
pub fn refresh_report(persisted: bool) -> (r: Result<(), SuffixError>)
    ensures
        persisted ==> r == Ok::<(), SuffixError>(()),
        !persisted ==> r == Err::<(), SuffixError>(SuffixError::CacheWriteFailed),
{
    if persisted {
        Ok(())
    } else {
        Err(SuffixError::CacheWriteFailed)
    }
}

/// Cache refresh round-trip: a forced refresh that fetched text `t` returns
/// `t` and persists it; once `t` is the cache entry, a subsequent
/// non-refresh load needs no fetch and returns `t` unchanged, whatever a
/// fetch would have produced.
pub proof fn lemma_refresh_round_trip(
    old_cache: Option<Seq<u8>>,
    t: Seq<u8>,
    later_fetch: Option<Seq<u8>>,
)
    ensures
        spec_load(true, old_cache, Some(t)) == Ok::<(Seq<u8>, bool), SuffixError>((t, true)),
        !spec_needs_fetch(false, true),
        spec_load(false, Some(t), later_fetch) == Ok::<(Seq<u8>, bool), SuffixError>((t, false)),
{
}

} // verus!

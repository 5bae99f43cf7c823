//! The index side: filters for searches restricted to a site.
use vstd::prelude::*;

verus! {

/// The index shard.
pub struct IndexerActor;

impl IndexerActor {
    /// Whether a search runs the full-text query too: only when the query
    /// has words left after analysis.
    pub fn wants_full_text(fts_query: &str) -> (r: bool)
        ensures
            r == (fts_query@.len() > 0),
    {
        let cs = crate::text::chars_of(fts_query);
        cs.len() > 0
    }

    /// The filter that keeps rows whose URL contains `domain`.
    pub fn site_filter_clause(domain: &str) -> (r: String)
        ensures
            r@ == "url LIKE '%"@ + domain@ + "%'"@,
    {
        let mut s = String::from_str("url LIKE '%");
        s.append(domain);
        s.append("%'");
        s
    }
}

} // verus!

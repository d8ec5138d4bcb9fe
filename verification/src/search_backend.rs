//! The search orchestrator: one `search` operation, split into the decision
//! that can be carried out locally (answer from the mock set or from the
//! cache, or ask the engine) and the completion step once the engine has
//! answered. The surrounding I/O layer performs the engine call itself and
//! feeds the response back through `search_complete`.

use vstd::prelude::*;

use crate::podcast::{tag_views, PodcastTag};
use crate::search_cache::{cache_key, opt_text, CacheKeyView, SearchCache};
use crate::search_filter::{create_meilisearch_filter, filter_spec};
use crate::search_result::{generate_mock_search_results, is_mock_results, lemma_slice_first_page,
    slice_view, SearchResult, SearchResultView};

verus! {

/// Which engine the backend talks to: the external full-text engine, with
/// its configuration, or the fixed offline mock set. Chosen once at startup.
pub enum SearchMode {
    ExternalEngine { host: String, api_key: String },
    Mock,
}

/// Everything the I/O layer needs to perform one engine call.
pub struct EngineRequest {
    pub filter: String,
    pub query_or: Option<String>,
    pub offset: usize,
    pub limit: usize,
    pub sort_by_number_descending: bool,
}

/// The outcome of the local part of a search: either a finished response,
/// or a request that the engine must answer first.
pub enum SearchStep {
    Done(SearchResult),
    NeedEngine(EngineRequest),
}

/// The limit used towards the engine when the caller gave none.
pub open spec fn spec_effective_limit(limit_or: Option<usize>) -> int {
    match limit_or {
        Some(l) => l as int,
        None => 99999999,
    }
}

/// The search orchestrator: engine mode plus the result cache.
pub struct SearchBackend {
    mode: SearchMode,
    search_cache: SearchCache,
}

impl SearchBackend {
    /// Whether the backend runs against the fixed offline set.
    pub closed spec fn is_mock(&self) -> bool {
        self.mode is Mock
    }

    /// The cached mapping from request key to full response.
    pub closed spec fn cache_contents(&self) -> Map<CacheKeyView, SearchResultView> {
        self.search_cache.contents()
    }

    /// Whether result caching is enabled.
    pub closed spec fn cache_enabled(&self) -> bool {
        self.search_cache.enabled()
    }

    /// The configured engine host; empty in mock mode.
    pub closed spec fn spec_engine_host(&self) -> Seq<char> {
        match self.mode {
            SearchMode::ExternalEngine { host, .. } => host@,
            SearchMode::Mock => Seq::empty(),
        }
    }

    /// The configured engine key; empty in mock mode.
    pub closed spec fn spec_engine_api_key(&self) -> Seq<char> {
        match self.mode {
            SearchMode::ExternalEngine { api_key, .. } => api_key@,
            SearchMode::Mock => Seq::empty(),
        }
    }

    /// A production backend: the engine configuration and a large bounded
    /// result cache.
    pub fn new_prod(meilisearch_host: String, meilisearch_api_key: String) -> (r: Self)
        ensures
            !r.is_mock(),
            r.cache_enabled(),
            r.cache_contents() == crate::search_cache::no_entries(),
            r.spec_engine_host() == meilisearch_host@,
            r.spec_engine_api_key() == meilisearch_api_key@,
    {
        SearchBackend {
            mode: SearchMode::ExternalEngine {
                host: meilisearch_host,
                api_key: meilisearch_api_key,
            },
            search_cache: SearchCache::new(10000),
        }
    }

    /// An offline backend: the mock result set, with caching disabled.
    pub fn new_mock() -> (r: Self)
        ensures
            r.is_mock(),
            !r.cache_enabled(),
            r.cache_contents() == crate::search_cache::no_entries(),
    {
        SearchBackend { mode: SearchMode::Mock, search_cache: SearchCache::new(0) }
    }

    /// The engine configuration, for the I/O layer; none in mock mode.
    pub fn engine_config(&self) -> (r: Option<(&String, &String)>)
        ensures
            r is Some <==> !self.is_mock(),
            r is Some ==> r.unwrap().0@ == self.spec_engine_host() && r.unwrap().1@
                == self.spec_engine_api_key(),
    {
        match &self.mode {
            SearchMode::ExternalEngine { host, api_key } => Some((host, api_key)),
            SearchMode::Mock => None,
        }
    }

    /// The local step of one search. In mock mode the fixed set answers
    /// immediately and the cache is bypassed. Otherwise a cached full
    /// response for this request's key is sliced and returned, and only a
    /// cache miss asks for an engine call, with the filter expression built
    /// from the tags and length bounds.
    pub fn search_step(
        &mut self,
        query_or: &Option<String>,
        tags: &Vec<PodcastTag>,
        limit_or: Option<usize>,
        offset: usize,
        min_length_seconds: Option<usize>,
        max_length_seconds: Option<usize>,
    ) -> (r: SearchStep)
        requires
            min_length_seconds is Some ==> min_length_seconds.unwrap() >= 1,
            max_length_seconds is Some ==> max_length_seconds.unwrap() < usize::MAX,
        ensures
            final(self).is_mock() == old(self).is_mock(),
            final(self).cache_enabled() == old(self).cache_enabled(),
            final(self).cache_contents() == old(self).cache_contents(),
            ({
                let kv = cache_key(
                    opt_text(*query_or),
                    tag_views(tags@),
                    min_length_seconds,
                    max_length_seconds,
                );
                match r {
                    SearchStep::Done(page) => if old(self).is_mock() {
                        is_mock_results(page@)
                    } else {
                        old(self).cache_contents().dom().contains(kv) && page@.hits == slice_view(
                            old(self).cache_contents()[kv].hits,
                            limit_or,
                            offset as int,
                        ) && page@.total_hits == old(self).cache_contents()[kv].total_hits
                            && page@.total_hits_is_approximate == old(
                            self,
                        ).cache_contents()[kv].total_hits_is_approximate
                            && page@.processing_time_ms == old(
                            self,
                        ).cache_contents()[kv].processing_time_ms
                    },
                    SearchStep::NeedEngine(req) => !old(self).is_mock() && !(old(
                        self,
                    ).cache_enabled() && old(self).cache_contents().dom().contains(kv))
                        && req.filter@ == filter_spec(
                        tag_views(tags@),
                        min_length_seconds,
                        max_length_seconds,
                    ) && opt_text(req.query_or) == opt_text(*query_or) && req.offset == offset
                        && req.limit as int == spec_effective_limit(limit_or)
                        && req.sort_by_number_descending,
                }
            }),
    {
        match &self.mode {
            SearchMode::Mock => SearchStep::Done(generate_mock_search_results()),
            SearchMode::ExternalEngine { .. } => {
                let cached = self.search_cache.get_cached_page(
                    query_or,
                    tags,
                    limit_or,
                    offset,
                    min_length_seconds,
                    max_length_seconds,
                );
                match cached {
                    Some(page) => SearchStep::Done(page),
                    None => {
                        let filter = create_meilisearch_filter(
                            tags,
                            min_length_seconds,
                            max_length_seconds,
                        );
                        let limit = match limit_or {
                            Some(l) => l,
                            None => 99999999,
                        };
                        SearchStep::NeedEngine(
                            EngineRequest {
                                filter,
                                query_or: query_or.clone(),
                                offset,
                                limit,
                                sort_by_number_descending: true,
                            },
                        )
                    },
                }
            },
        }
    }

    /// The completion step once the engine has answered: a cacheable
    /// request (no limit, zero offset) has its full response stored under
    /// the request's key, so that repeating the query, paged or not, is
    /// answered from the cache without another engine call.
    pub fn search_complete(
        &mut self,
        query_or: &Option<String>,
        tags: &Vec<PodcastTag>,
        limit_or: Option<usize>,
        offset: usize,
        min_length_seconds: Option<usize>,
        max_length_seconds: Option<usize>,
        engine_result: SearchResult,
    ) -> (r: SearchResult)
        ensures
            r@ == engine_result@,
            final(self).is_mock() == old(self).is_mock(),
            final(self).cache_enabled() == old(self).cache_enabled(),
            ({
                let kv = cache_key(
                    opt_text(*query_or),
                    tag_views(tags@),
                    min_length_seconds,
                    max_length_seconds,
                );
                if old(self).cache_enabled() && limit_or is None && offset == 0 {
                    final(self).cache_contents().contains_pair(kv, engine_result@) && (forall|
                        k2: CacheKeyView,
                    |
                        #[trigger] final(self).cache_contents().dom().contains(k2) && k2 != kv
                            ==> old(self).cache_contents().contains_pair(
                            k2,
                            final(self).cache_contents()[k2],
                        ))
                } else {
                    final(self).cache_contents() == old(self).cache_contents()
                }
            }),
    {
        self.search_cache.store_unpaged(
            query_or,
            tags,
            limit_or,
            offset,
            min_length_seconds,
            max_length_seconds,
            &engine_result,
        );
        engine_result
    }
}

/// Law: issuing the same unpaged query twice costs one engine call, and a
/// later paged request reuses the cached full response. After
/// `search_complete` stores the full response under the query's key (its
/// contract for an unpaged query on an enabled cache), any `search_step`
/// with the same query parameters finds that key and, by its contract,
/// answers from the stored response without asking the engine: unpaged it
/// returns every stored hit, and with a limit and zero offset it returns
/// exactly the first `limit` stored hits.
pub proof fn lemma_search_cache_round_trip(
    contents: Map<CacheKeyView, SearchResultView>,
    kv: CacheKeyView,
    full: SearchResultView,
    limit: usize,
)
    requires
        contents.contains_pair(kv, full),
    ensures
        contents.dom().contains(kv),
        contents[kv] == full,
        slice_view(contents[kv].hits, None, 0) == full.hits,
        slice_view(contents[kv].hits, Some(limit), 0) == if limit <= full.hits.len() {
            full.hits.take(limit as int)
        } else {
            full.hits
        },
{
    assert(full.hits.skip(0) =~= full.hits);
    lemma_slice_first_page(full.hits, limit);
}

} // verus!

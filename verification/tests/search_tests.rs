use fdr_server::mock::create_mock_podcast;
use fdr_server::podcast::PodcastTag;
use fdr_server::search_backend::{SearchBackend, SearchStep};
use fdr_server::search_cache::SearchCache;
use fdr_server::search_result::{generate_mock_search_results, slice_result, SearchResult};

fn tag(s: &str) -> PodcastTag {
    PodcastTag::new(s.to_string())
}

fn fake_engine_result(n: usize) -> SearchResult {
    let mut hits = Vec::new();
    for i in 1..(n + 1) {
        hits.push(create_mock_podcast(i));
    }
    SearchResult::new(hits, n, true, 7)
}

#[test]
fn unpaged_query_twice_costs_one_engine_call() {
    let mut backend = SearchBackend::new_prod("http://localhost:7700".to_string(), "k".to_string());
    let query = Some("peaceful parenting".to_string());
    let tags = vec![tag("parenting")];
    let mut engine_calls: usize = 0;

    // First issue: a cache miss that needs the engine.
    let first = match backend.search_step(&query, &tags, None, 0, None, None) {
        SearchStep::NeedEngine(req) => {
            engine_calls += 1;
            assert_eq!(req.filter, "tags = \"parenting\"");
            assert_eq!(req.limit, 99999999);
            assert_eq!(req.offset, 0);
            assert!(req.sort_by_number_descending);
            backend.search_complete(&query, &tags, None, 0, None, None, fake_engine_result(8))
        }
        SearchStep::Done(_) => panic!("empty cache cannot answer"),
    };
    assert_eq!(first.get_hits().len(), 8);

    // Second issue of the same unpaged query: answered from the cache.
    match backend.search_step(&query, &tags, None, 0, None, None) {
        SearchStep::NeedEngine(_) => panic!("second issue must hit the cache"),
        SearchStep::Done(page) => {
            assert_eq!(page.get_hits().len(), 8);
            assert_eq!(page.get_hits(), first.get_hits());
        }
    }
    assert_eq!(engine_calls, 1);

    // A paged request against the same key reuses the cached full result.
    match backend.search_step(&query, &tags, Some(5), 0, None, None) {
        SearchStep::NeedEngine(_) => panic!("paged request must reuse the cached full result"),
        SearchStep::Done(page) => {
            assert_eq!(page.get_hits().len(), 5);
            assert_eq!(page.get_hits(), &first.get_hits()[..5]);
        }
    }
    assert_eq!(engine_calls, 1);
}

#[test]
fn tag_order_does_not_split_the_cache_key() {
    let mut backend = SearchBackend::new_prod("http://localhost:7700".to_string(), "k".to_string());
    let query = Some("q".to_string());
    let ab = vec![tag("alpha"), tag("beta")];
    let ba = vec![tag("beta"), tag("alpha")];
    match backend.search_step(&query, &ab, None, 0, None, None) {
        SearchStep::NeedEngine(_) => {
            backend.search_complete(&query, &ab, None, 0, None, None, fake_engine_result(3));
        }
        SearchStep::Done(_) => panic!("empty cache cannot answer"),
    }
    match backend.search_step(&query, &ba, None, 0, None, None) {
        SearchStep::NeedEngine(_) => panic!("the key must not depend on tag order"),
        SearchStep::Done(page) => assert_eq!(page.get_hits().len(), 3),
    }
}

#[test]
fn paged_and_limited_requests_are_not_cached() {
    let mut backend = SearchBackend::new_prod("h".to_string(), "k".to_string());
    let query = Some("q".to_string());
    let tags = Vec::new();
    match backend.search_step(&query, &tags, Some(3), 0, None, None) {
        SearchStep::NeedEngine(_) => {
            backend.search_complete(&query, &tags, Some(3), 0, None, None, fake_engine_result(3));
        }
        SearchStep::Done(_) => panic!("empty cache cannot answer"),
    }
    // The limited response was not admitted, so the unpaged query misses.
    match backend.search_step(&query, &tags, None, 0, None, None) {
        SearchStep::NeedEngine(_) => {}
        SearchStep::Done(_) => panic!("limited responses must not be cached"),
    }
}

#[test]
fn mock_backend_answers_immediately_with_the_fixed_set() {
    let mut backend = SearchBackend::new_mock();
    assert!(backend.engine_config().is_none());
    match backend.search_step(&None, &Vec::new(), None, 0, None, None) {
        SearchStep::NeedEngine(_) => panic!("mock mode never asks the engine"),
        SearchStep::Done(r) => {
            assert_eq!(r.get_hits().len(), 19);
            assert_eq!(r.get_total_hits(), 19);
            assert!(!r.total_hits_is_approximate());
            assert_eq!(r.get_processing_time_ms(), 1234);
            assert_eq!(r.get_hits()[0].get_title(), "Podcast #1");
        }
    }
}

#[test]
fn slicing_clamps_offset_beyond_the_hit_count() {
    let full = fake_engine_result(4);
    let page = slice_result(&full, None, 10);
    assert_eq!(page.get_hits().len(), 0);
    assert_eq!(page.get_total_hits(), full.get_total_hits());

    let page = slice_result(&full, Some(10), 2);
    assert_eq!(page.get_hits().len(), 2);
    assert_eq!(page.get_hits(), &full.get_hits()[2..]);

    let page = slice_result(&full, Some(1), 1);
    assert_eq!(page.get_hits().len(), 1);
    assert_eq!(page.get_hits()[0], full.get_hits()[1]);
}

#[test]
fn reset_empties_the_cache() {
    let mut cache = SearchCache::new(16);
    let query = Some("q".to_string());
    let tags: Vec<PodcastTag> = Vec::new();
    cache.store_unpaged(&query, &tags, None, 0, None, None, &fake_engine_result(2));
    assert!(cache.get_cached_page(&query, &tags, None, 0, None, None).is_some());
    cache.reset();
    assert!(cache.get_cached_page(&query, &tags, None, 0, None, None).is_none());
}

#[test]
fn zero_capacity_disables_caching() {
    let mut cache = SearchCache::new(0);
    let query = Some("q".to_string());
    let tags: Vec<PodcastTag> = Vec::new();
    cache.store_unpaged(&query, &tags, None, 0, None, None, &fake_engine_result(2));
    assert!(cache.get_cached_page(&query, &tags, None, 0, None, None).is_none());
}

#[test]
fn mock_results_are_the_nineteen_mock_episodes() {
    let r = generate_mock_search_results();
    assert_eq!(r.get_hits().len(), 19);
    for (i, p) in r.get_hits().iter().enumerate() {
        assert_eq!(p.get_title(), format!("Podcast #{}", i + 1));
    }
}

#[test]
fn limit_zero_yields_an_empty_page() {
    let full = fake_engine_result(4);
    let page = slice_result(&full, Some(0), 0);
    assert_eq!(page.get_hits().len(), 0);
    assert_eq!(page.get_total_hits(), 4);
}

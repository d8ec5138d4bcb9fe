use fdr_server::podcast::PodcastTag;
use fdr_server::search_filter::create_meilisearch_filter;

#[test]
fn test_create_meilisearch_filter() {
    assert_eq!(create_meilisearch_filter(&Vec::new(), None, None), "");
    assert_eq!(
        create_meilisearch_filter(&Vec::new(), Some(1), None),
        "lengthInSeconds > 0"
    );
    assert_eq!(
        create_meilisearch_filter(&Vec::new(), Some(1), Some(2)),
        "lengthInSeconds > 0 AND lengthInSeconds < 3"
    );
    assert_eq!(
        create_meilisearch_filter(&vec![PodcastTag::new("hello world".to_string())], None, None),
        "tags = \"hello world\""
    );
    assert_eq!(
        create_meilisearch_filter(
            &vec![
                PodcastTag::new("foo".to_string()),
                PodcastTag::new("bar".to_string())
            ],
            None,
            None
        ),
        "tags = \"foo\" AND tags = \"bar\""
    );
    assert_eq!(
        create_meilisearch_filter(
            &vec![PodcastTag::new("hello world".to_string())],
            Some(1),
            Some(2)
        ),
        "tags = \"hello world\" AND lengthInSeconds > 0 AND lengthInSeconds < 3"
    );
    assert_eq!(
        create_meilisearch_filter(
            &vec![
                PodcastTag::new("foo".to_string()),
                PodcastTag::new("bar".to_string())
            ],
            Some(1),
            Some(2)
        ),
        "tags = \"foo\" AND tags = \"bar\" AND lengthInSeconds > 0 AND lengthInSeconds < 3"
    );
}

#[test]
fn filter_bounds_use_exclusive_comparisons() {
    assert_eq!(
        create_meilisearch_filter(&Vec::new(), Some(60), Some(3600)),
        "lengthInSeconds > 59 AND lengthInSeconds < 3601"
    );
}

#[test]
fn max_only_filter_has_a_single_clause() {
    assert_eq!(
        create_meilisearch_filter(&Vec::new(), None, Some(2)),
        "lengthInSeconds < 3"
    );
}

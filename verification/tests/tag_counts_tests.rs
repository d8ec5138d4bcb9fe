use fdr_server::fdr_cache::FdrCache;
use fdr_server::podcast::{Podcast, PodcastNumber, PodcastTag};
use fdr_server::tag_counts::get_filtered_tags_with_counts;

fn tag(s: &str) -> PodcastTag {
    PodcastTag::new(s.to_string())
}

fn episode(num: u64, tags: Vec<&str>) -> Podcast {
    Podcast::new(
        format!("episode {}", num),
        "d".to_string(),
        "u".to_string(),
        60,
        PodcastNumber::from_u64(num),
        0,
        tags.into_iter().map(tag).collect(),
    )
}

fn pool() -> Vec<Podcast> {
    vec![
        episode(1, vec!["history", "economics"]),
        episode(2, vec!["history", "parenting"]),
        episode(3, vec!["history", "Philosophy"]),
        episode(4, vec!["economics"]),
    ]
}

fn entries(page: &fdr_server::tag_counts::TagCountsPage) -> Vec<(String, usize)> {
    page.tags
        .iter()
        .map(|e| (e.0.clone_to_string(), e.1))
        .collect()
}

#[test]
fn counts_are_exact_and_sorted_by_count_then_name() {
    let page = get_filtered_tags_with_counts(&pool(), &Vec::new(), &None, None, None);
    assert_eq!(
        entries(&page),
        vec![
            ("history".to_string(), 3),
            ("economics".to_string(), 2),
            ("parenting".to_string(), 1),
            ("Philosophy".to_string(), 1),
        ]
    );
    assert_eq!(page.remaining_tag_count, 0);
}

#[test]
fn ties_break_by_case_insensitive_tag_text() {
    // `Philosophy` and `parenting` both count one; case-insensitively,
    // `parenting` sorts before `philosophy`.
    let page = get_filtered_tags_with_counts(&pool(), &Vec::new(), &None, Some(2), None);
    assert_eq!(
        entries(&page),
        vec![
            ("parenting".to_string(), 1),
            ("Philosophy".to_string(), 1),
        ]
    );
}

#[test]
fn selected_tags_are_never_offered_again() {
    let page = get_filtered_tags_with_counts(&pool(), &vec![tag("history")], &None, None, None);
    for (name, _) in entries(&page) {
        assert_ne!(name, "history");
    }
}

#[test]
fn text_filter_is_case_insensitive() {
    let page = get_filtered_tags_with_counts(
        &pool(),
        &Vec::new(),
        &Some("PHIL".to_string()),
        None,
        None,
    );
    assert_eq!(entries(&page), vec![("Philosophy".to_string(), 1)]);
}

#[test]
fn pagination_reports_the_remaining_entries() {
    let page = get_filtered_tags_with_counts(&pool(), &Vec::new(), &None, Some(1), Some(2));
    assert_eq!(
        entries(&page),
        vec![
            ("economics".to_string(), 2),
            ("parenting".to_string(), 1),
        ]
    );
    assert_eq!(page.remaining_tag_count, 2);
}

#[test]
fn over_draining_offset_yields_an_empty_page() {
    let page = get_filtered_tags_with_counts(&pool(), &Vec::new(), &None, Some(100), Some(5));
    assert_eq!(page.tags.len(), 0);
    assert_eq!(page.remaining_tag_count, 4);
}

#[test]
fn catalog_tag_counts_pool_is_the_selected_tag_query() {
    let cache = FdrCache::new(pool());
    let page = cache.get_tag_counts_excluding(&vec![tag("history")], &None, None, None);
    // Within the three history episodes: economics once, parenting once,
    // Philosophy once; history itself is excluded.
    assert_eq!(
        entries(&page),
        vec![
            ("economics".to_string(), 1),
            ("parenting".to_string(), 1),
            ("Philosophy".to_string(), 1),
        ]
    );
}

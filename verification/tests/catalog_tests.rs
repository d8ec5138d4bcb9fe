use fdr_server::fdr_cache::FdrCache;
use fdr_server::podcast::{Podcast, PodcastNumber, PodcastTag};

fn tag(s: &str) -> PodcastTag {
    PodcastTag::new(s.to_string())
}

fn episode(num: u64, title: &str, tags: Vec<&str>) -> Podcast {
    Podcast::new(
        title.to_string(),
        format!("about {}", title),
        format!("http://example.com/audio/{}", num),
        1800,
        PodcastNumber::from_u64(num),
        1000 + num as i64,
        tags.into_iter().map(tag).collect(),
    )
}

fn sample_catalog() -> FdrCache {
    FdrCache::new(vec![
        episode(1, "one", vec!["history", "economics"]),
        episode(3, "three", vec!["history"]),
        episode(2, "two", vec!["economics", "parenting"]),
        episode(4, "four", vec!["parenting", "history"]),
    ])
}

#[test]
fn get_all_is_sorted_descending_without_duplicates() {
    let cache = sample_catalog();
    let all = cache.get_all_podcasts();
    let nums: Vec<i64> = all
        .iter()
        .map(|p| p.get_podcast_number().value_thousandths())
        .collect();
    assert_eq!(nums, vec![4000, 3000, 2000, 1000]);
    for i in 0..all.len() {
        for j in (i + 1)..all.len() {
            assert_ne!(
                all[i].get_podcast_number().text(),
                all[j].get_podcast_number().text()
            );
        }
    }
}

#[test]
fn later_duplicate_overwrites_earlier() {
    let cache = FdrCache::new(vec![
        episode(7, "first version", vec!["a"]),
        episode(7, "second version", vec!["b"]),
    ]);
    let all = cache.get_all_podcasts();
    assert_eq!(all.len(), 1);
    assert_eq!(all[0].get_title(), "second version");
}

#[test]
fn get_podcast_finds_every_episode_by_its_own_number() {
    let cache = sample_catalog();
    for p in cache.get_all_podcasts().clone() {
        let found = cache.get_podcast(p.get_podcast_number());
        assert_eq!(found, Some(&p));
    }
    assert!(cache.get_podcast(&PodcastNumber::from_u64(99)).is_none());
}

#[test]
fn get_recent_takes_a_prefix_of_the_descending_list() {
    let cache = sample_catalog();
    let two = cache.get_recent(2);
    assert_eq!(two.len(), 2);
    assert_eq!(two[0].get_title(), "four");
    assert_eq!(two[1].get_title(), "three");
    assert_eq!(cache.get_recent(0).len(), 0);
    assert_eq!(cache.get_recent(100).len(), 4);
}

#[test]
fn get_by_tags_empty_query_returns_whole_catalog() {
    let cache = sample_catalog();
    let all = cache.get_all_podcasts().clone();
    let untagged = cache.get_by_tags(&Vec::new());
    assert_eq!(untagged.len(), all.len());
    for p in &all {
        assert!(untagged.contains(p));
    }
}

#[test]
fn get_by_tags_intersects_tag_sets() {
    let cache = sample_catalog();
    let history = cache.get_by_tags(&vec![tag("history")]);
    let titles: Vec<&str> = history.iter().map(|p| p.get_title()).collect();
    assert_eq!(titles, vec!["four", "three", "one"]);

    let both = cache.get_by_tags(&vec![tag("history"), tag("parenting")]);
    let titles: Vec<&str> = both.iter().map(|p| p.get_title()).collect();
    assert_eq!(titles, vec!["four"]);

    // The two-tag query is the intersection of the single-tag queries.
    let parenting = cache.get_by_tags(&vec![tag("parenting")]);
    for p in &both {
        assert!(history.contains(p) && parenting.contains(p));
    }
    for p in &history {
        if parenting.contains(p) {
            assert!(both.contains(p));
        }
    }
}

#[test]
fn get_by_tags_with_absent_tag_is_empty() {
    let cache = sample_catalog();
    assert_eq!(cache.get_by_tags(&vec![tag("no such tag")]).len(), 0);
    assert_eq!(
        cache.get_by_tags(&vec![tag("history"), tag("no such tag")]).len(),
        0
    );
}

#[test]
fn numbers_with_different_texts_are_unequal_but_order_together() {
    // The recorded quirk: `1` and `1.0` render differently, so they are
    // distinct keys, yet they tie numerically for ordering.
    let a = PodcastNumber::new(1000, "1".to_string());
    let b = PodcastNumber::new(1000, "1.0".to_string());
    assert_ne!(a, b);
    assert_eq!(a.value_thousandths(), b.value_thousandths());

    let cache = FdrCache::new(vec![
        Podcast::new(
            "plain".to_string(),
            "d".to_string(),
            "u".to_string(),
            1,
            a,
            0,
            Vec::new(),
        ),
        Podcast::new(
            "fractional".to_string(),
            "d".to_string(),
            "u".to_string(),
            1,
            b,
            0,
            Vec::new(),
        ),
    ]);
    assert_eq!(cache.get_all_podcasts().len(), 2);
}

#[test]
fn mock_catalog_holds_the_mock_episodes() {
    let cache = FdrCache::new_with_mock_podcasts();
    assert_eq!(cache.get_all_podcasts().len(), 999);
    let top = cache.get_recent(1);
    assert_eq!(top[0].get_title(), "Podcast #999");
    let found = cache.get_podcast(&PodcastNumber::from_u64(500));
    assert_eq!(found.unwrap().get_title(), "Podcast #500");
}

#[test]
fn ingest_rebuilds_and_replaces_by_number() {
    let mut cache = FdrCache::new(vec![
        episode(1, "one", vec!["a"]),
        episode(2, "two", vec!["b"]),
    ]);
    cache.ingest_podcasts(vec![
        episode(2, "two, revised", vec!["b"]),
        episode(5, "five", vec!["c"]),
    ]);
    assert_eq!(cache.get_all_podcasts().len(), 3);
    assert_eq!(
        cache
            .get_podcast(&PodcastNumber::from_u64(2))
            .unwrap()
            .get_title(),
        "two, revised"
    );
    assert_eq!(
        cache.get_all_podcasts()[0].get_title(),
        "five"
    );
}

#[test]
fn empty_catalog_answers_every_query_emptily() {
    let cache = FdrCache::new(Vec::new());
    assert_eq!(cache.get_all_podcasts().len(), 0);
    assert!(cache.get_podcast(&PodcastNumber::from_u64(1)).is_none());
    assert_eq!(cache.get_recent(10).len(), 0);
    assert_eq!(cache.get_by_tags(&Vec::new()).len(), 0);
    assert_eq!(cache.get_by_tags(&vec![tag("x")]).len(), 0);
}

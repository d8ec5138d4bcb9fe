use fdr_server::feed::generate_rss_feed;
use fdr_server::podcast::{Podcast, PodcastNumber, PodcastTag};

fn episode(num: u64, title: &str, link: &str, length: i32, created: i64) -> Podcast {
    Podcast::new(
        title.to_string(),
        format!("description of {}", title),
        link.to_string(),
        length,
        PodcastNumber::from_u64(num),
        created,
        vec![PodcastTag::new("t".to_string())],
    )
}

#[test]
fn feed_preserves_the_input_order_and_fields() {
    let episodes = vec![
        episode(1, "E1", "http://example.com/1.mp3", 60, 1000),
        episode(2, "E2", "http://example.com/2.mp3", 90, 2000),
    ];
    let feed = generate_rss_feed(&episodes, "my feed", "about things");

    assert_eq!(feed.get_title(), "my feed");
    assert_eq!(feed.get_description(), "about things");
    assert_eq!(feed.get_language(), "en-us");
    assert_eq!(feed.get_link(), "https://freedomain.com/");

    let items = feed.get_items();
    assert_eq!(items.len(), 2);
    assert_eq!(items[0].get_title(), "E1");
    assert_eq!(items[1].get_title(), "E2");
    assert_eq!(items[0].get_enclosure_url(), "http://example.com/1.mp3");
    assert_eq!(items[1].get_enclosure_url(), "http://example.com/2.mp3");
    assert_eq!(items[0].get_enclosure_length(), "60");
    assert_eq!(items[1].get_enclosure_length(), "90");
    assert_eq!(items[0].get_enclosure_mime_type(), "audio/mpeg");
    assert_eq!(items[1].get_enclosure_mime_type(), "audio/mpeg");
}

#[test]
fn publish_dates_come_from_the_epoch_timestamp() {
    let episodes = vec![episode(1, "E1", "u", 60, 1000)];
    let feed = generate_rss_feed(&episodes, "t", "d");
    assert_eq!(feed.get_items()[0].get_pub_date(), "Thu, 1 Jan 1970 00:16:40 +0000");
}

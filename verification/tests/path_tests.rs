use fdr_server::environment::{EnvironmentVariables, ServerMode};
use fdr_server::http_paths::{
    api_not_found_message, classify_not_found_path, parse_tag_query_string, NotFoundKind,
};
use fdr_server::podcast::{Podcast, PodcastNumber, PodcastTag};
use fdr_server::strutil::{i64_to_string, u64_to_string};
use sha2::Digest;

#[test]
fn tag_query_string_splits_on_commas_and_trims() {
    let tags = parse_tag_query_string(Some(" history , economics,parenting ".to_string()));
    let texts: Vec<&str> = tags.iter().map(|t| t.to_string()).collect();
    assert_eq!(texts, vec!["history", "economics", "parenting"]);

    assert_eq!(parse_tag_query_string(None).len(), 0);

    let empty = parse_tag_query_string(Some("".to_string()));
    assert_eq!(empty.len(), 1);
    assert_eq!(empty[0].to_string(), "");
}

#[test]
fn unknown_paths_are_classified_like_the_router() {
    assert_eq!(classify_not_found_path("/api/missing"), NotFoundKind::ApiNotFound);
    assert_eq!(classify_not_found_path("/static/bundle.js"), NotFoundKind::JsBundle);
    assert_eq!(classify_not_found_path("/favicon.ico"), NotFoundKind::Favicon);
    assert_eq!(classify_not_found_path("/podcasts/17"), NotFoundKind::Html);
    assert_eq!(classify_not_found_path(""), NotFoundKind::Html);
}

#[test]
fn api_not_found_message_names_the_path() {
    assert_eq!(
        api_not_found_message("/api/missing"),
        "404 - API path '/api/missing' does not exist!"
    );
}

#[test]
fn server_mode_parses_from_its_raw_value() {
    assert_eq!(
        EnvironmentVariables::parse_server_mode_or_panic("prod"),
        ServerMode::Prod
    );
    assert_eq!(
        EnvironmentVariables::parse_server_mode_or_panic("mock"),
        ServerMode::Mock
    );
    let env = EnvironmentVariables::new(
        ServerMode::Mock,
        "http://localhost:7700".to_string(),
        "k".to_string(),
    );
    assert_eq!(env.get_server_mode(), ServerMode::Mock);
    assert_eq!(env.get_meilisearch_host(), "http://localhost:7700");
    assert_eq!(env.get_meilisearch_api_key(), "k");
}

#[test]
fn decimal_renderings_match() {
    assert_eq!(u64_to_string(0), "0");
    assert_eq!(u64_to_string(907), "907");
    assert_eq!(i64_to_string(-45), "-45");
    assert_eq!(i64_to_string(0), "0");
}

#[test]
fn number_hash_is_the_hex_sha256_of_the_number_text() {
    let p = Podcast::new(
        "t".to_string(),
        "d".to_string(),
        "u".to_string(),
        1,
        PodcastNumber::from_u64(5),
        0,
        vec![PodcastTag::new("x".to_string())],
    );
    let expected = hex::encode(<sha2::Sha256 as Digest>::digest("5".as_bytes()));
    assert_eq!(p.get_podcast_number_hash(), expected);
}

#[test]
fn tags_are_deduplicated_on_construction() {
    let p = Podcast::new(
        "t".to_string(),
        "d".to_string(),
        "u".to_string(),
        1,
        PodcastNumber::from_u64(6),
        0,
        vec![
            PodcastTag::new("a".to_string()),
            PodcastTag::new("b".to_string()),
            PodcastTag::new("a".to_string()),
        ],
    );
    let texts: Vec<&str> = p.get_tags().iter().map(|t| t.to_string()).collect();
    assert_eq!(texts, vec!["a", "b"]);
}

//! The syndication feed model: a deterministic, order-preserving mapping
//! from an episode list and feed metadata to the data of a ready-to-serve
//! feed document. Byte serialization of the document is left to the
//! surrounding I/O layer.

use vstd::prelude::*;

use crate::podcast::{pod_views, Podcast, PodcastView};
use crate::strutil::{dec_int, i64_to_string};

verus! {

/// The latest timestamp (end of year 9999) whose RFC 2822 rendering still
/// has a four-digit year.
pub open spec fn max_feed_timestamp() -> int {
    253402300799
}

/// What chrono renders for a Unix timestamp in RFC 2822 form at UTC; a
/// function of the timestamp alone.
pub uninterp spec fn rfc2822_of(secs: int) -> Seq<char>;

/// Relies on `chrono::DateTime::from_timestamp` (the conversion of a Unix
/// timestamp to a UTC calendar date, total on the given range) and
/// `chrono::DateTime::to_rfc2822` (which renders years 1970 through 9999
/// without panicking).
#[verifier::external_body]
fn rfc2822_utc(secs: i64) -> (r: String)
    requires
        0 <= secs <= max_feed_timestamp(),
    ensures
        r@ == rfc2822_of(secs as int),
{
    chrono::DateTime::<chrono::Utc>::from_timestamp(secs, 0).unwrap().to_rfc2822()
}

/// Mathematical content of one feed item.
#[verifier::ext_equal]
pub ghost struct FeedItemView {
    pub title: Seq<char>,
    pub description: Seq<char>,
    pub pub_date: Seq<char>,
    pub enclosure_url: Seq<char>,
    pub enclosure_mime_type: Seq<char>,
    pub enclosure_length: Seq<char>,
}

/// One feed item: title, description, publish date, and the enclosure
/// referencing the audio with its duration as a length hint.
pub struct FeedItem {
    title: String,
    description: String,
    pub_date: String,
    enclosure_url: String,
    enclosure_mime_type: String,
    enclosure_length: String,
}

impl View for FeedItem {
    type V = FeedItemView;

    closed spec fn view(&self) -> FeedItemView {
        FeedItemView {
            title: self.title@,
            description: self.description@,
            pub_date: self.pub_date@,
            enclosure_url: self.enclosure_url@,
            enclosure_mime_type: self.enclosure_mime_type@,
            enclosure_length: self.enclosure_length@,
        }
    }
}

impl FeedItem {
    pub fn get_title(&self) -> (r: &str)
        ensures
            r@ == self@.title,
    {
        self.title.as_str()
    }

    pub fn get_description(&self) -> (r: &str)
        ensures
            r@ == self@.description,
    {
        self.description.as_str()
    }

    pub fn get_pub_date(&self) -> (r: &str)
        ensures
            r@ == self@.pub_date,
    {
        self.pub_date.as_str()
    }

    pub fn get_enclosure_url(&self) -> (r: &str)
        ensures
            r@ == self@.enclosure_url,
    {
        self.enclosure_url.as_str()
    }

    pub fn get_enclosure_mime_type(&self) -> (r: &str)
        ensures
            r@ == self@.enclosure_mime_type,
    {
        self.enclosure_mime_type.as_str()
    }

    pub fn get_enclosure_length(&self) -> (r: &str)
        ensures
            r@ == self@.enclosure_length,
    {
        self.enclosure_length.as_str()
    }
}

/// The item rendered for one episode.
pub open spec fn item_for(p: PodcastView) -> FeedItemView {
    FeedItemView {
        title: p.title,
        description: p.description,
        pub_date: rfc2822_of(p.create_time),
        enclosure_url: p.audio_link,
        enclosure_mime_type: "audio/mpeg"@,
        enclosure_length: dec_int(p.length_in_seconds),
    }
}

/// The views of a sequence of feed items.
pub open spec fn item_views(s: Seq<FeedItem>) -> Seq<FeedItemView> {
    s.map_values(|x: FeedItem| x@)
}

/// Mathematical content of a rendered feed.
#[verifier::ext_equal]
pub ghost struct RssFeedView {
    pub title: Seq<char>,
    pub description: Seq<char>,
    pub language: Seq<char>,
    pub link: Seq<char>,
    pub items: Seq<FeedItemView>,
}

/// A rendered feed: channel metadata plus the items, in input order.
pub struct RssFeed {
    title: String,
    description: String,
    language: String,
    link: String,
    items: Vec<FeedItem>,
}

impl View for RssFeed {
    type V = RssFeedView;

    closed spec fn view(&self) -> RssFeedView {
        RssFeedView {
            title: self.title@,
            description: self.description@,
            language: self.language@,
            link: self.link@,
            items: item_views(self.items@),
        }
    }
}

impl RssFeed {
    pub fn get_title(&self) -> (r: &str)
        ensures
            r@ == self@.title,
    {
        self.title.as_str()
    }

    pub fn get_description(&self) -> (r: &str)
        ensures
            r@ == self@.description,
    {
        self.description.as_str()
    }

    pub fn get_language(&self) -> (r: &str)
        ensures
            r@ == self@.language,
    {
        self.language.as_str()
    }

    pub fn get_link(&self) -> (r: &str)
        ensures
            r@ == self@.link,
    {
        self.link.as_str()
    }

    pub fn get_items(&self) -> (r: &Vec<FeedItem>)
        ensures
            item_views(r@) == self@.items,
    {
        &self.items
    }
}

/// Renders one episode into its feed item.
fn to_rss_item(p: &Podcast) -> (r: FeedItem)
    requires
        0 <= p@.create_time <= max_feed_timestamp(),
    ensures
        r@ == item_for(p@),
{
    let pub_date = rfc2822_utc(p.get_create_time());
    let enclosure_length = i64_to_string(p.get_length_in_seconds() as i64);
    FeedItem {
        title: String::from_str(p.get_title()),
        description: String::from_str(p.get_description()),
        pub_date,
        enclosure_url: String::from_str(p.get_audio_link()),
        enclosure_mime_type: String::from_str("audio/mpeg"),
        enclosure_length,
    }
}

/// Renders an ordered episode list into a feed. Law: the feed's items
/// appear in exactly the order of the input episodes, one item per episode,
/// with matching titles, descriptions, dates, and enclosures — rendering
/// never reorders.
pub fn generate_rss_feed(podcasts: &Vec<Podcast>, feed_title: &str, feed_description: &str) -> (r:
    RssFeed)
    requires
        forall|i: int|
            0 <= i < podcasts@.len() ==> 0 <= (#[trigger] pod_views(podcasts@)[i]).create_time
                <= max_feed_timestamp(),
    ensures
        r@.title == feed_title@,
        r@.description == feed_description@,
        r@.language == "en-us"@,
        r@.link == "https://freedomain.com/"@,
        r@.items.len() == podcasts@.len(),
        forall|i: int|
            0 <= i < podcasts@.len() ==> r@.items[i] == item_for(
                #[trigger] pod_views(podcasts@)[i],
            ),
{
    let mut items: Vec<FeedItem> = Vec::new();
    let mut i: usize = 0;
    while i < podcasts.len()
        invariant
            i <= podcasts@.len(),
            items@.len() == i,
            forall|q: int|
                0 <= q < podcasts@.len() ==> 0 <= (#[trigger] pod_views(podcasts@)[q]).create_time
                    <= max_feed_timestamp(),
            forall|q: int|
                0 <= q < i ==> item_views(items@)[q] == item_for(
                    #[trigger] pod_views(podcasts@)[q],
                ),
        decreases podcasts@.len() - i,
    {
        proof {
            assert(pod_views(podcasts@)[i as int] == podcasts@[i as int]@);
        }
        let item = to_rss_item(&podcasts[i]);
        let ghost before = item_views(items@);
        items.push(item);
        proof {
            assert(item_views(items@) =~= before.push(item@));
            assert forall|q: int| 0 <= q < i + 1 implies item_views(items@)[q] == item_for(
                #[trigger] pod_views(podcasts@)[q],
            ) by {
                if q < i {
                    assert(item_views(items@)[q] == before[q]);
                }
            }
        }
        i = i + 1;
    }
    RssFeed {
        title: String::from_str(feed_title),
        description: String::from_str(feed_description),
        language: String::from_str("en-us"),
        link: String::from_str("https://freedomain.com/"),
        items,
    }
}

} // verus!

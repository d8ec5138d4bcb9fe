//! Deterministic mock episodes for development and offline mode.

use vstd::prelude::*;

use crate::podcast::{hex_of, sha256_of, Podcast, PodcastNumber, PodcastNumberView, PodcastTag,
    PodcastView};
use crate::strutil::{dec_digits, u64_to_string};

verus! {

/// The mock episode with the given number: every field is derived from the
/// number alone.
pub open spec fn mock_podcast_view(num: nat) -> PodcastView {
    PodcastView {
        title: "Podcast #"@ + dec_digits(num),
        description: "Description of podcast #"@ + dec_digits(num),
        audio_link: "http://example.com/podcasts/"@ + dec_digits(num),
        length_in_seconds: num as int,
        number: PodcastNumberView { val: num * 1000 as int, text: dec_digits(num) },
        number_hash: hex_of(sha256_of(dec_digits(num))),
        create_time: 12341627541915 + num as int,
        tags: seq!["Tag #"@ + dec_digits(num % 100)],
    }
}

/// Builds the mock episode with the given number.
pub fn create_mock_podcast(num: usize) -> (r: Podcast)
    requires
        num <= 1_000_000,
    ensures
        r@ == mock_podcast_view(num as nat),
{
    let mut title = String::from_str("Podcast #");
    title.append(u64_to_string(num as u64).as_str());
    let mut description = String::from_str("Description of podcast #");
    description.append(u64_to_string(num as u64).as_str());
    let mut audio_link = String::from_str("http://example.com/podcasts/");
    audio_link.append(u64_to_string(num as u64).as_str());
    let mut tag_text = String::from_str("Tag #");
    tag_text.append(u64_to_string((num % 100) as u64).as_str());
    let mut tags: Vec<PodcastTag> = Vec::new();
    tags.push(PodcastTag::new(tag_text));
    let number = PodcastNumber::from_u64(num as u64);
    let r = Podcast::new(
        title,
        description,
        audio_link,
        num as i32,
        number,
        12341627541915 + (num as i64),
        tags,
    );
    proof {
        let tv = crate::podcast::tag_views(tags@);
        assert(tv =~= seq!["Tag #"@ + dec_digits((num % 100) as nat)]);
        assert(tv.drop_last() =~= Seq::<Seq<char>>::empty());
        assert(crate::podcast::dedup_seq(Seq::<Seq<char>>::empty())
            =~= Seq::<Seq<char>>::empty());
        assert(crate::podcast::dedup_seq(tv.drop_last()) =~= Seq::<Seq<char>>::empty());
        assert(!tv.drop_last().contains(tv.last()));
        assert(crate::podcast::dedup_seq(tv) =~= tv);
        assert(r@ =~= mock_podcast_view(num as nat));
    }
    r
}

} // verus!

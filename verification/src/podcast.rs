//! The episode data model: tags, episode numbers, and episode records.
//!
//! An episode number carries both a numeric value (used for ordering) and its
//! textual rendering (used for equality). The two deliberately do not have to
//! agree: two numbers that render differently are unequal even when their
//! numeric values coincide. This asymmetry is a recorded quirk of the
//! catalog's behaviour and is kept deliberately rather than repaired.

use vstd::prelude::*;

use crate::strutil::digit_char;

verus! {

/// What SHA-256 yields on the UTF-8 bytes of a string; a function of the
/// characters alone.
pub uninterp spec fn sha256_of(text: Seq<char>) -> Seq<u8>;

/// Relies on `sha2::Sha256::digest`: a pure digest of the input bytes,
/// 32 bytes long, depending on the input alone.
#[verifier::external_body]
fn sha256_bytes(text: &str) -> (r: Vec<u8>)
    ensures
        r@ == sha256_of(text@),
        r@.len() == 32,
{
    <sha2::Sha256 as sha2::Digest>::digest(text.as_bytes()).to_vec()
}

/// The character for one hexadecimal digit, lower case.
pub open spec fn hex_digit(d: nat) -> char {
    if d < 10 {
        digit_char(d)
    } else if d == 10 {
        'a'
    } else if d == 11 {
        'b'
    } else if d == 12 {
        'c'
    } else if d == 13 {
        'd'
    } else if d == 14 {
        'e'
    } else {
        'f'
    }
}

/// Lower-case hexadecimal rendering of a byte sequence, two digits per byte.
pub open spec fn hex_of(b: Seq<u8>) -> Seq<char>
    decreases b.len(),
{
    if b.len() == 0 {
        Seq::empty()
    } else {
        hex_of(b.drop_last()) + seq![
            hex_digit((b.last() >> 4) as nat),
            hex_digit((b.last() & 15) as nat),
        ]
    }
}

/// Relies on `hex::encode`: two lower-case hexadecimal digits per input byte,
/// most significant digit first.
#[verifier::external_body]
fn hex_encode(b: &Vec<u8>) -> (r: String)
    ensures
        r@ == hex_of(b@),
{
    hex::encode(b)
}

/// An opaque, case-sensitive label attached to episodes for faceted browsing.
/// Equality is exact string equality.
#[derive(Debug, Eq, Hash)]
pub struct PodcastTag(String);

impl View for PodcastTag {
    type V = Seq<char>;

    closed spec fn view(&self) -> Seq<char> {
        self.0@
    }
}

impl Clone for PodcastTag {
    fn clone(&self) -> (r: Self)
        ensures
            r == *self,
    {
        PodcastTag(self.0.clone())
    }
}

impl PartialEq for PodcastTag {
    fn eq(&self, other: &Self) -> (r: bool) {
        self.0 == other.0
    }
}

impl vstd::std_specs::cmp::PartialEqSpecImpl for PodcastTag {
    open spec fn obeys_eq_spec() -> bool {
        true
    }

    open spec fn eq_spec(&self, other: &Self) -> bool {
        self@ == other@
    }
}

impl PodcastTag {
    pub fn new(tag: String) -> (r: Self)
        ensures
            r@ == tag@,
    {
        PodcastTag(tag)
    }

    pub fn clone_to_string(&self) -> (r: String)
        ensures
            r@ == self@,
    {
        self.0.clone()
    }

    pub fn to_string(&self) -> (r: &str)
        ensures
            r@ == self@,
    {
        self.0.as_str()
    }
}

/// The views of a sequence of tags.
pub open spec fn tag_views(s: Seq<PodcastTag>) -> Seq<Seq<char>> {
    s.map_values(|t: PodcastTag| t@)
}

/// Mathematical content of an episode number: the numeric value, scaled to
/// thousandths so that fractional episode numbers stay exact integers, and
/// the textual rendering.
#[verifier::ext_equal]
pub ghost struct PodcastNumberView {
    pub val: int,
    pub text: Seq<char>,
}

/// An episode's numeric key. Ordering goes by the scaled numeric value;
/// equality goes by the textual rendering. Numbers that render differently
/// (such as `1` and `1.0`) are therefore unequal even though neither orders
/// before the other.
#[derive(Debug, Eq)]
pub struct PodcastNumber {
    thousandths: i64,
    text: String,
}

impl View for PodcastNumber {
    type V = PodcastNumberView;

    closed spec fn view(&self) -> PodcastNumberView {
        PodcastNumberView { val: self.thousandths as int, text: self.text@ }
    }
}

impl Clone for PodcastNumber {
    fn clone(&self) -> (r: Self)
        ensures
            r == *self,
    {
        PodcastNumber { thousandths: self.thousandths, text: self.text.clone() }
    }
}

impl PartialEq for PodcastNumber {
    fn eq(&self, other: &Self) -> (r: bool) {
        self.text == other.text
    }
}

impl vstd::std_specs::cmp::PartialEqSpecImpl for PodcastNumber {
    open spec fn obeys_eq_spec() -> bool {
        true
    }

    open spec fn eq_spec(&self, other: &Self) -> bool {
        self@.text == other@.text
    }
}

impl PodcastNumber {
    /// `thousandths` is the numeric value scaled by 1000; `text` is the
    /// rendering used for equality and display.
    pub fn new(thousandths: i64, text: String) -> (r: Self)
        ensures
            r@.val == thousandths as int,
            r@.text == text@,
    {
        PodcastNumber { thousandths, text }
    }

    /// A number with the integral value `n` and its decimal rendering.
    pub fn from_u64(n: u64) -> (r: Self)
        requires
            n <= 1_000_000_000_000,
        ensures
            r@.val == n * 1000,
            r@.text == crate::strutil::dec_digits(n as nat),
    {
        PodcastNumber {
            thousandths: (n as i64) * 1000,
            text: crate::strutil::u64_to_string(n),
        }
    }

    /// The numeric value, scaled by 1000.
    pub fn value_thousandths(&self) -> (r: i64)
        ensures
            r as int == self@.val,
    {
        self.thousandths
    }

    /// The textual rendering.
    pub fn text(&self) -> (r: &str)
        ensures
            r@ == self@.text,
    {
        self.text.as_str()
    }
}

/// The views of a sequence of episodes.
pub open spec fn pod_views(s: Seq<Podcast>) -> Seq<PodcastView> {
    s.map_values(|p: Podcast| p@)
}

/// Mathematical content of one episode record.
#[verifier::ext_equal]
pub ghost struct PodcastView {
    pub title: Seq<char>,
    pub description: Seq<char>,
    pub audio_link: Seq<char>,
    pub length_in_seconds: int,
    pub number: PodcastNumberView,
    pub number_hash: Seq<char>,
    pub create_time: int,
    pub tags: Seq<Seq<char>>,
}

/// One immutable podcast episode. Two episodes are equal exactly when their
/// numbers are equal (by the number's textual equality).
#[derive(Debug, Eq)]
pub struct Podcast {
    title: String,
    description: String,
    audio_link: String,
    length_in_seconds: i32,
    podcast_number: PodcastNumber,
    podcast_number_hash: String,
    create_time: i64,
    tags: Vec<PodcastTag>,
}

impl View for Podcast {
    type V = PodcastView;

    closed spec fn view(&self) -> PodcastView {
        PodcastView {
            title: self.title@,
            description: self.description@,
            audio_link: self.audio_link@,
            length_in_seconds: self.length_in_seconds as int,
            number: self.podcast_number@,
            number_hash: self.podcast_number_hash@,
            create_time: self.create_time as int,
            tags: tag_views(self.tags@),
        }
    }
}

impl Clone for Podcast {
    fn clone(&self) -> (r: Self)
        ensures
            r@ == self@,
    {
        let tags = self.tags.clone();
        proof {
            assert forall|i: int| 0 <= i < tags@.len() implies tags@[i] == self.tags@[i] by {
                assert(cloned::<PodcastTag>(self.tags@[i], tags@[i]));
            }
            assert(tags@ =~= self.tags@);
        }
        Podcast {
            title: self.title.clone(),
            description: self.description.clone(),
            audio_link: self.audio_link.clone(),
            length_in_seconds: self.length_in_seconds,
            podcast_number: self.podcast_number.clone(),
            podcast_number_hash: self.podcast_number_hash.clone(),
            create_time: self.create_time,
            tags,
        }
    }
}

impl PartialEq for Podcast {
    fn eq(&self, other: &Self) -> (r: bool) {
        self.podcast_number == other.podcast_number
    }
}

impl vstd::std_specs::cmp::PartialEqSpecImpl for Podcast {
    open spec fn obeys_eq_spec() -> bool {
        true
    }

    open spec fn eq_spec(&self, other: &Self) -> bool {
        self@.number.text == other@.number.text
    }
}

/// The first-occurrence deduplication of a sequence: keeps the first copy of
/// each element, in order.
pub open spec fn dedup_seq(s: Seq<Seq<char>>) -> Seq<Seq<char>>
    decreases s.len(),
{
    if s.len() == 0 {
        s
    } else {
        let rest = dedup_seq(s.drop_last());
        if s.drop_last().contains(s.last()) {
            rest
        } else {
            rest.push(s.last())
        }
    }
}

/// No element occurs twice.
pub open spec fn distinct_seqs(s: Seq<Seq<char>>) -> bool {
    forall|i: int, j: int| 0 <= i < j < s.len() ==> s[i] != s[j]
}

pub proof fn lemma_dedup_seq_membership(s: Seq<Seq<char>>, x: Seq<char>)
    ensures
        dedup_seq(s).contains(x) == s.contains(x),
    decreases s.len(),
{
    if s.len() == 0 {
    } else {
        let d = s.drop_last();
        let rest = dedup_seq(d);
        lemma_dedup_seq_membership(d, x);
        assert(s.contains(x) <==> (d.contains(x) || s.last() == x)) by {
            if d.contains(x) {
                let i = choose|i: int| 0 <= i < d.len() && d[i] == x;
                assert(s[i] == x);
            }
            if s.last() == x {
                assert(s[s.len() - 1] == x);
            }
            if s.contains(x) {
                let i = choose|i: int| 0 <= i < s.len() && s[i] == x;
                if i < s.len() - 1 {
                    assert(d[i] == x);
                }
            }
        }
        if !d.contains(s.last()) {
            assert(rest.push(s.last()).contains(x) <==> (rest.contains(x) || s.last() == x)) by {
                if rest.contains(x) {
                    let i = choose|i: int| 0 <= i < rest.len() && rest[i] == x;
                    assert(rest.push(s.last())[i] == x);
                }
                assert(rest.push(s.last())[rest.len() as int] == s.last());
                if rest.push(s.last()).contains(x) {
                    let i = choose|i: int|
                        0 <= i < rest.push(s.last()).len() && rest.push(s.last())[i] == x;
                    if i < rest.len() {
                        assert(rest[i] == x);
                    }
                }
            }
        }
    }
}

pub proof fn lemma_dedup_seq_distinct(s: Seq<Seq<char>>)
    ensures
        distinct_seqs(dedup_seq(s)),
    decreases s.len(),
{
    if s.len() != 0 {
        lemma_dedup_seq_distinct(s.drop_last());
        if !s.drop_last().contains(s.last()) {
            lemma_dedup_seq_membership(s.drop_last(), s.last());
            let rest = dedup_seq(s.drop_last());
            assert forall|i: int, j: int|
                0 <= i < j < rest.push(s.last()).len() implies rest.push(s.last())[i]
                != rest.push(s.last())[j] by {
                if j < rest.len() {
                } else {
                    assert(rest.contains(rest[i]));
                }
            }
        }
    }
}

/// Whether some tag in `tags` has the same text as `t`.
pub fn tag_in(tags: &Vec<PodcastTag>, t: &PodcastTag) -> (r: bool)
    ensures
        r == tag_views(tags@).contains(t@),
{
    let mut k: usize = 0;
    while k < tags.len()
        invariant
            k <= tags@.len(),
            forall|i: int| 0 <= i < k ==> tag_views(tags@)[i] != t@,
        decreases tags@.len() - k,
    {
        if tags[k].0 == t.0 {
            proof {
                assert(tag_views(tags@)[k as int] == t@);
            }
            return true;
        }
        k = k + 1;
    }
    proof {
        if tag_views(tags@).contains(t@) {
            let i = choose|i: int| 0 <= i < tag_views(tags@).len() && tag_views(tags@)[i] == t@;
            assert(tag_views(tags@)[i] == t@);
        }
    }
    false
}

impl Podcast {
    /// Builds one episode record. The tag list is deduplicated (first
    /// occurrence wins), and the number's rendering is digested into the
    /// alphanumeric key used by the external search index.
    pub fn new(
        title: String,
        description: String,
        audio_link: String,
        length_in_seconds: i32,
        podcast_number: PodcastNumber,
        create_time: i64,
        tags: Vec<PodcastTag>,
    ) -> (r: Self)
        ensures
            r@.title == title@,
            r@.description == description@,
            r@.audio_link == audio_link@,
            r@.length_in_seconds == length_in_seconds as int,
            r@.number == podcast_number@,
            r@.number_hash == hex_of(sha256_of(podcast_number@.text)),
            r@.create_time == create_time as int,
            r@.tags == dedup_seq(tag_views(tags@)),
            distinct_seqs(r@.tags),
    {
        let digest = sha256_bytes(podcast_number.text());
        let podcast_number_hash = hex_encode(&digest);
        let mut deduped: Vec<PodcastTag> = Vec::new();
        let mut i: usize = 0;
        proof {
            assert(tag_views(tags@.subrange(0, 0)) =~= Seq::<Seq<char>>::empty());
            assert(tag_views(deduped@) =~= dedup_seq(tag_views(tags@.subrange(0, 0))));
        }
        while i < tags.len()
            invariant
                i <= tags@.len(),
                tag_views(deduped@) == dedup_seq(tag_views(tags@.subrange(0, i as int))),
            decreases tags@.len() - i,
        {
            let ghost prefix = tag_views(tags@.subrange(0, i as int));
            let ghost next = tag_views(tags@.subrange(0, i + 1));
            proof {
                assert(tags@.subrange(0, i + 1).drop_last() =~= tags@.subrange(0, i as int));
                assert(next.drop_last() =~= prefix);
                assert(next.last() == tags@[i as int]@);
                lemma_dedup_seq_membership(prefix, tags@[i as int]@);
            }
            let keep = !tag_in(&deduped, &tags[i]);
            if keep {
                let t = tags[i].clone();
                deduped.push(t);
                proof {
                    assert(tag_views(deduped@) =~= dedup_seq(prefix).push(tags@[i as int]@));
                    assert(tag_views(deduped@) =~= dedup_seq(next));
                }
            } else {
                proof {
                    assert(tag_views(deduped@) =~= dedup_seq(next));
                }
            }
            i = i + 1;
        }
        proof {
            assert(tags@.subrange(0, tags@.len() as int) =~= tags@);
            lemma_dedup_seq_distinct(tag_views(tags@));
        }
        Podcast {
            title,
            description,
            audio_link,
            length_in_seconds,
            podcast_number,
            podcast_number_hash,
            create_time,
            tags: deduped,
        }
    }

    pub fn get_podcast_number(&self) -> (r: &PodcastNumber)
        ensures
            r@ == self@.number,
    {
        &self.podcast_number
    }

    pub fn get_tags(&self) -> (r: &Vec<PodcastTag>)
        ensures
            tag_views(r@) == self@.tags,
    {
        &self.tags
    }

    pub fn get_title(&self) -> (r: &str)
        ensures
            r@ == self@.title,
    {
        self.title.as_str()
    }

    pub fn get_description(&self) -> (r: &str)
        ensures
            r@ == self@.description,
    {
        self.description.as_str()
    }

    pub fn get_audio_link(&self) -> (r: &str)
        ensures
            r@ == self@.audio_link,
    {
        self.audio_link.as_str()
    }

    pub fn get_length_in_seconds(&self) -> (r: i32)
        ensures
            r as int == self@.length_in_seconds,
    {
        self.length_in_seconds
    }

    pub fn get_create_time(&self) -> (r: i64)
        ensures
            r as int == self@.create_time,
    {
        self.create_time
    }

    pub fn get_podcast_number_hash(&self) -> (r: &str)
        ensures
            r@ == self@.number_hash,
    {
        self.podcast_number_hash.as_str()
    }
}

} // verus!

//! Search responses: the hit list plus engine-reported metadata, and the
//! pagination slicing applied to cached full responses.

use vstd::prelude::*;

use crate::mock::{create_mock_podcast, mock_podcast_view};
use crate::podcast::{pod_views, Podcast, PodcastView};

verus! {

/// Mathematical content of a search response.
#[verifier::ext_equal]
pub ghost struct SearchResultView {
    pub hits: Seq<PodcastView>,
    pub total_hits: int,
    pub total_hits_is_approximate: bool,
    pub processing_time_ms: int,
}

/// One search response: the hits in engine order, the engine's (possibly
/// approximate) total hit count, and its processing time.
pub struct SearchResult {
    hits: Vec<Podcast>,
    total_hits: usize,
    total_hits_is_approximate: bool,
    processing_time_ms: usize,
}

impl View for SearchResult {
    type V = SearchResultView;

    closed spec fn view(&self) -> SearchResultView {
        SearchResultView {
            hits: pod_views(self.hits@),
            total_hits: self.total_hits as int,
            total_hits_is_approximate: self.total_hits_is_approximate,
            processing_time_ms: self.processing_time_ms as int,
        }
    }
}

impl Clone for SearchResult {
    fn clone(&self) -> (r: Self)
        ensures
            r@ == self@,
    {
        let hits = self.hits.clone();
        proof {
            assert forall|i: int| 0 <= i < hits@.len() implies hits@[i]@ == self.hits@[i]@ by {
                assert(cloned::<Podcast>(self.hits@[i], hits@[i]));
            }
            assert(pod_views(hits@) =~= pod_views(self.hits@));
        }
        SearchResult {
            hits,
            total_hits: self.total_hits,
            total_hits_is_approximate: self.total_hits_is_approximate,
            processing_time_ms: self.processing_time_ms,
        }
    }
}

impl SearchResult {
    pub fn new(
        hits: Vec<Podcast>,
        total_hits: usize,
        total_hits_is_approximate: bool,
        processing_time_ms: usize,
    ) -> (r: Self)
        ensures
            r@.hits == pod_views(hits@),
            r@.total_hits == total_hits as int,
            r@.total_hits_is_approximate == total_hits_is_approximate,
            r@.processing_time_ms == processing_time_ms as int,
    {
        SearchResult { hits, total_hits, total_hits_is_approximate, processing_time_ms }
    }

    pub fn get_hits(&self) -> (r: &[Podcast])
        ensures
            pod_views(r@) == self@.hits,
    {
        self.hits.as_slice()
    }

    pub fn take_hits(self) -> (r: Vec<Podcast>)
        ensures
            pod_views(r@) == self@.hits,
    {
        self.hits
    }

    pub fn get_total_hits(&self) -> (r: usize)
        ensures
            r as int == self@.total_hits,
    {
        self.total_hits
    }

    pub fn total_hits_is_approximate(&self) -> (r: bool)
        ensures
            r == self@.total_hits_is_approximate,
    {
        self.total_hits_is_approximate
    }

    pub fn get_processing_time_ms(&self) -> (r: usize)
        ensures
            r as int == self@.processing_time_ms,
    {
        self.processing_time_ms
    }
}

/// The page of `hits` selected by an offset and an optional limit. An
/// offset past the end is clamped to the end, so slicing is total.
pub open spec fn slice_view(hits: Seq<PodcastView>, limit_or: Option<usize>, offset: int) -> Seq<
    PodcastView,
> {
    let off = if offset > hits.len() {
        hits.len() as int
    } else {
        offset
    };
    let rest = hits.skip(off);
    match limit_or {
        Some(l) => if (l as int) < rest.len() {
            rest.take(l as int)
        } else {
            rest
        },
        None => rest,
    }
}

/// Applies pagination to a cached full response. The cached value itself is
/// never mutated; the page is cut from a fresh copy. Total for every offset
/// and limit: an offset beyond the hit count yields an empty page.
pub fn slice_result(cached: &SearchResult, limit_or: Option<usize>, offset: usize) -> (r:
    SearchResult)
    ensures
        r@.hits == slice_view(cached@.hits, limit_or, offset as int),
        r@.total_hits == cached@.total_hits,
        r@.total_hits_is_approximate == cached@.total_hits_is_approximate,
        r@.processing_time_ms == cached@.processing_time_ms,
{
    let n = cached.hits.len();
    let off = if offset > n {
        n
    } else {
        offset
    };
    let end = match limit_or {
        Some(l) => if l < n - off {
            off + l
        } else {
            n
        },
        None => n,
    };
    let mut page: Vec<Podcast> = Vec::new();
    let mut i: usize = off;
    proof {
        assert(pod_views(page@) =~= cached@.hits.subrange(off as int, off as int));
    }
    while i < end
        invariant
            off <= i <= end,
            end <= n,
            n == cached@.hits.len(),
            pod_views(page@) == cached@.hits.subrange(off as int, i as int),
        decreases end - i,
    {
        let p = cached.hits[i].clone();
        let ghost before = pod_views(page@);
        proof {
            assert(p@ == cached@.hits[i as int]);
        }
        page.push(p);
        proof {
            assert(pod_views(page@) =~= before.push(p@));
            assert(before.push(p@) =~= cached@.hits.subrange(off as int, i + 1));
        }
        i = i + 1;
    }
    proof {
        assert(cached@.hits.subrange(off as int, end as int) =~= slice_view(
            cached@.hits,
            limit_or,
            offset as int,
        ));
    }
    SearchResult {
        hits: page,
        total_hits: cached.total_hits,
        total_hits_is_approximate: cached.total_hits_is_approximate,
        processing_time_ms: cached.processing_time_ms,
    }
}

/// The fixed offline response: nineteen mock episodes, an exact total, and a
/// fixed processing time.
pub open spec fn is_mock_results(v: SearchResultView) -> bool {
    &&& v.hits.len() == 19
    &&& forall|i: int| 0 <= i < 19 ==> v.hits[i] == mock_podcast_view((i + 1) as nat)
    &&& v.total_hits == 19
    &&& v.total_hits_is_approximate == false
    &&& v.processing_time_ms == 1234
}

/// Builds the fixed offline response.
pub fn generate_mock_search_results() -> (r: SearchResult)
    ensures
        is_mock_results(r@),
{
    let mut mock_podcasts: Vec<Podcast> = Vec::new();
    let mut i: usize = 1;
    while i < 20
        invariant
            1 <= i <= 20,
            mock_podcasts@.len() == i - 1,
            forall|k: int|
                0 <= k < i - 1 ==> pod_views(mock_podcasts@)[k] == mock_podcast_view(
                    (k + 1) as nat,
                ),
        decreases 20 - i,
    {
        let p = create_mock_podcast(i);
        let ghost before = pod_views(mock_podcasts@);
        mock_podcasts.push(p);
        proof {
            assert(pod_views(mock_podcasts@) =~= before.push(p@));
            assert forall|k: int|
                0 <= k < i implies pod_views(mock_podcasts@)[k] == mock_podcast_view(
                (k + 1) as nat,
            ) by {
                if k < i - 1 {
                    assert(pod_views(mock_podcasts@)[k] == before[k]);
                } else {
                    assert(pod_views(mock_podcasts@)[k] == p@);
                }
            }
        }
        i = i + 1;
    }
    let total_hits = mock_podcasts.len();
    let r = SearchResult {
        hits: mock_podcasts,
        total_hits,
        total_hits_is_approximate: false,
        processing_time_ms: 1234,
    };
    r
}

/// Law: slicing a cached full response with a limit and no offset yields
/// exactly its first `l` hits (all of them when fewer than `l` exist).
pub proof fn lemma_slice_first_page(hits: Seq<PodcastView>, l: usize)
    ensures
        slice_view(hits, Some(l), 0) == if l <= hits.len() {
            hits.take(l as int)
        } else {
            hits
        },
{
    assert(hits.skip(0) =~= hits);
    if l as int >= hits.len() {
        assert(slice_view(hits, Some(l), 0) =~= hits);
    }
}

} // verus!
